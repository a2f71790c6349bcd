use vstd::prelude::*;
use crate::path::strings_view;
use crate::vfs::{
    folder_view, folder_wf, node_view, FileModel, FolderModel, NodeModel, VFSFile, VFSFolder, VFSNode,
    VirtualFileSystem,
};
use crate::wire::{
    get_str, get_str_spec, get_u64, get_u64_spec, lemma_get_str, lemma_get_u64, lemma_le_bytes_len, pow256, put_str,
    put_u64, str_bytes, str_fits, u64_bytes,
};

verus! {

/// Strings one after another.
pub open spec fn strs_bytes(v: Seq<Seq<char>>) -> Seq<u8>
    decreases v.len(),
{
    if v.len() == 0 {
        seq![]
    } else {
        str_bytes(v[0]) + strs_bytes(v.drop_first())
    }
}

pub open spec fn file_bytes(f: FileModel) -> Seq<u8> {
    str_bytes(f.name) + str_bytes(f.extension) + str_bytes(f.build_metafile) + u64_bytes(f.parts_name.len())
        + strs_bytes(f.parts_name) + str_bytes(f.metadata)
}

/// A node as stored: a tag byte (0 for a file, 1 for a folder), then its fields; a folder
/// lists its children after their count.
pub open spec fn node_bytes(n: NodeModel) -> Seq<u8>
    decreases n,
{
    match n {
        NodeModel::File(f) => seq![0u8] + file_bytes(f),
        NodeModel::Folder(d) => seq![1u8] + str_bytes(d.name) + str_bytes(d.metadata) + u64_bytes(d.children.len())
            + children_bytes(d.children),
    }
}

pub open spec fn children_bytes(cs: Seq<NodeModel>) -> Seq<u8>
    decreases cs,
{
    if cs.len() == 0 {
        seq![]
    } else {
        node_bytes(cs[0]) + children_bytes(cs.subrange(1, cs.len() as int))
    }
}

/// The snapshot of a tree: its root, stored as a folder node.
pub open spec fn snapshot_bytes(root: FolderModel) -> Seq<u8> {
    node_bytes(NodeModel::Folder(root))
}

/// Every string and every count of the node fits the format's eight-byte lengths.
pub open spec fn node_fits(n: NodeModel) -> bool
    decreases n,
{
    match n {
        NodeModel::File(f) => str_fits(f.name) && str_fits(f.extension) && str_fits(f.build_metafile)
            && str_fits(f.metadata) && f.parts_name.len() < pow256(8)
            && forall|i: int| 0 <= i < f.parts_name.len() ==> str_fits(#[trigger] f.parts_name[i]),
        NodeModel::Folder(d) => str_fits(d.name) && str_fits(d.metadata) && d.children.len() < pow256(8)
            && forall|i: int| 0 <= i < d.children.len() ==> node_fits(#[trigger] d.children[i]),
    }
}

/// `k` strings stored from `pos` on, and where they end.
pub open spec fn get_strs_spec(b: Seq<u8>, pos: int, k: nat) -> Option<(Seq<Seq<char>>, int)>
    decreases k,
{
    if k == 0 {
        Some((seq![], pos))
    } else {
        match get_str_spec(b, pos) {
            None => None,
            Some((s, p)) => match get_strs_spec(b, p, (k - 1) as nat) {
                None => None,
                Some((rest, e)) => Some((seq![s] + rest, e)),
            },
        }
    }
}

/// The fields of a file stored from `pos` on, and where they end.
pub open spec fn parse_file_spec(b: Seq<u8>, pos: int) -> Option<(FileModel, int)> {
    match get_str_spec(b, pos) {
        None => None,
        Some((name, p1)) => match get_str_spec(b, p1) {
            None => None,
            Some((extension, p2)) => match get_str_spec(b, p2) {
                None => None,
                Some((build_metafile, p3)) => match get_u64_spec(b, p3) {
                    None => None,
                    Some(k) => match get_strs_spec(b, p3 + 8, k) {
                        None => None,
                        Some((parts_name, p4)) => match get_str_spec(b, p4) {
                            None => None,
                            Some((metadata, p5)) => Some(
                                (FileModel { name, extension, build_metafile, parts_name, metadata }, p5),
                            ),
                        },
                    },
                },
            },
        },
    }
}

/// The node stored at `pos`, and where it ends.
pub open spec fn parse_node_spec(b: Seq<u8>, pos: int) -> Option<(NodeModel, int)>
    decreases b.len() - pos, 0int,
{
    if pos < 0 || pos >= b.len() {
        None
    } else if b[pos] == 0 {
        match parse_file_spec(b, pos + 1) {
            None => None,
            Some((f, e)) => Some((NodeModel::File(f), e)),
        }
    } else if b[pos] == 1 {
        match get_str_spec(b, pos + 1) {
            None => None,
            Some((name, p1)) => match get_str_spec(b, p1) {
                None => None,
                Some((metadata, p2)) => match get_u64_spec(b, p2) {
                    None => None,
                    Some(k) => if p2 + 8 <= pos {
                        None
                    } else {
                        match parse_children_spec(b, p2 + 8, k) {
                            None => None,
                            Some((children, e)) => Some((NodeModel::Folder(FolderModel { name, metadata, children }), e)),
                        }
                    },
                },
            },
        }
    } else {
        None
    }
}

/// `k` nodes stored from `pos` on, and where they end.
pub open spec fn parse_children_spec(b: Seq<u8>, pos: int, k: nat) -> Option<(Seq<NodeModel>, int)>
    decreases b.len() - pos, 1int, k,
{
    if k == 0 {
        Some((seq![], pos))
    } else if pos < 0 || pos >= b.len() {
        None
    } else {
        match parse_node_spec(b, pos) {
            None => None,
            Some((n, p)) => if p <= pos || p > b.len() {
                None
            } else {
                match parse_children_spec(b, p, (k - 1) as nat) {
                    None => None,
                    Some((rest, e)) => Some((seq![n] + rest, e)),
                }
            },
        }
    }
}

/// The tree that the bytes `b` hold, where they hold exactly one well-formed tree.
pub open spec fn load_spec(b: Seq<u8>) -> Option<FolderModel> {
    match parse_node_spec(b, 0) {
        Some((NodeModel::Folder(d), e)) => if e == b.len() && folder_wf(d) {
            Some(d)
        } else {
            None
        },
        _ => None,
    }
}

/// Bytes that hold `x + y` at `pos` hold `x` there and `y` right after it.
pub proof fn lemma_split(b: Seq<u8>, pos: int, x: Seq<u8>, y: Seq<u8>)
    requires
        0 <= pos,
        pos + (x + y).len() <= b.len(),
        b.subrange(pos, pos + (x + y).len()) == x + y,
    ensures
        b.subrange(pos, pos + x.len()) == x,
        b.subrange(pos + x.len(), pos + x.len() + y.len()) == y,
{
    let w = b.subrange(pos, pos + (x + y).len());
    assert(b.subrange(pos, pos + x.len()) =~= w.subrange(0, x.len() as int));
    assert(w.subrange(0, x.len() as int) =~= x);
    assert(b.subrange(pos + x.len(), pos + x.len() + y.len()) =~= w.subrange(x.len() as int, (x + y).len() as int));
    assert(w.subrange(x.len() as int, (x + y).len() as int) =~= y);
}

proof fn lemma_strs(b: Seq<u8>, pos: int, v: Seq<Seq<char>>)
    requires
        forall|i: int| 0 <= i < v.len() ==> str_fits(#[trigger] v[i]),
        0 <= pos,
        pos + strs_bytes(v).len() <= b.len(),
        b.subrange(pos, pos + strs_bytes(v).len()) == strs_bytes(v),
    ensures
        get_strs_spec(b, pos, v.len()) == Some((v, pos + strs_bytes(v).len())),
    decreases v.len(),
{
    if v.len() > 0 {
        let rest = v.drop_first();
        lemma_split(b, pos, str_bytes(v[0]), strs_bytes(rest));
        lemma_get_str(b, pos, v[0]);
        assert forall|i: int| 0 <= i < rest.len() implies str_fits(#[trigger] rest[i]) by {
            assert(rest[i] == v[i + 1]);
        }
        lemma_strs(b, pos + str_bytes(v[0]).len(), rest);
        assert(seq![v[0]] + rest =~= v);
        assert((v.len() - 1) as nat == rest.len());
    }
}

proof fn lemma_parse_file(b: Seq<u8>, pos: int, f: FileModel)
    requires
        node_fits(NodeModel::File(f)),
        0 <= pos,
        pos + file_bytes(f).len() <= b.len(),
        b.subrange(pos, pos + file_bytes(f).len()) == file_bytes(f),
    ensures
        parse_file_spec(b, pos) == Some((f, pos + file_bytes(f).len())),
{
    let a = str_bytes(f.name);
    let e = str_bytes(f.extension);
    let m = str_bytes(f.build_metafile);
    let c = u64_bytes(f.parts_name.len());
    let p = strs_bytes(f.parts_name);
    let t = str_bytes(f.metadata);
    lemma_le_bytes_len(f.parts_name.len(), 8);
    lemma_split(b, pos, a + e + m + c + p, t);
    lemma_split(b, pos, a + e + m + c, p);
    lemma_split(b, pos, a + e + m, c);
    lemma_split(b, pos, a + e, m);
    lemma_split(b, pos, a, e);
    lemma_get_str(b, pos, f.name);
    lemma_get_str(b, pos + a.len(), f.extension);
    lemma_get_str(b, pos + a.len() + e.len(), f.build_metafile);
    lemma_get_u64(b, pos + a.len() + e.len() + m.len(), f.parts_name.len());
    lemma_strs(b, pos + a.len() + e.len() + m.len() + 8, f.parts_name);
    lemma_get_str(b, pos + a.len() + e.len() + m.len() + 8 + p.len(), f.metadata);
}

proof fn lemma_node_bytes_len(n: NodeModel)
    ensures
        node_bytes(n).len() >= 1,
{
}

proof fn lemma_parse_node(b: Seq<u8>, pos: int, n: NodeModel)
    requires
        node_fits(n),
        0 <= pos,
        pos + node_bytes(n).len() <= b.len(),
        b.subrange(pos, pos + node_bytes(n).len()) == node_bytes(n),
    ensures
        parse_node_spec(b, pos) == Some((n, pos + node_bytes(n).len())),
    decreases n, 0int,
{
    match n {
        NodeModel::File(f) => {
            lemma_split(b, pos, seq![0u8], file_bytes(f));
            assert(b[pos] == b.subrange(pos, pos + 1)[0]);
            lemma_parse_file(b, pos + 1, f);
        },
        NodeModel::Folder(d) => {
            let a = str_bytes(d.name);
            let m = str_bytes(d.metadata);
            let c = u64_bytes(d.children.len());
            let k = children_bytes(d.children);
            lemma_le_bytes_len(d.children.len(), 8);
            lemma_split(b, pos, seq![1u8] + a + m + c, k);
            lemma_split(b, pos, seq![1u8] + a + m, c);
            lemma_split(b, pos, seq![1u8] + a, m);
            lemma_split(b, pos, seq![1u8], a);
            assert(b[pos] == b.subrange(pos, pos + 1)[0]);
            lemma_get_str(b, pos + 1, d.name);
            lemma_get_str(b, pos + 1 + a.len(), d.metadata);
            lemma_get_u64(b, pos + 1 + a.len() + m.len(), d.children.len());
            lemma_parse_children(b, pos + 1 + a.len() + m.len() + 8, d.children);
            assert(d == FolderModel { name: d.name, metadata: d.metadata, children: d.children });
        },
    }
}

proof fn lemma_parse_children(b: Seq<u8>, pos: int, cs: Seq<NodeModel>)
    requires
        forall|i: int| 0 <= i < cs.len() ==> node_fits(#[trigger] cs[i]),
        0 <= pos,
        pos + children_bytes(cs).len() <= b.len(),
        b.subrange(pos, pos + children_bytes(cs).len()) == children_bytes(cs),
    ensures
        parse_children_spec(b, pos, cs.len()) == Some((cs, pos + children_bytes(cs).len())),
    decreases cs, 1int,
{
    if cs.len() > 0 {
        let rest = cs.subrange(1, cs.len() as int);
        lemma_split(b, pos, node_bytes(cs[0]), children_bytes(rest));
        lemma_node_bytes_len(cs[0]);
        lemma_parse_node(b, pos, cs[0]);
        assert forall|i: int| 0 <= i < rest.len() implies node_fits(#[trigger] rest[i]) by {
            assert(rest[i] == cs[i + 1]);
        }
        lemma_parse_children(b, pos + node_bytes(cs[0]).len(), rest);
        assert(seq![cs[0]] + rest =~= cs);
        assert((cs.len() - 1) as nat == rest.len());
    }
}

/// Loading the snapshot of a well-formed tree gives back the same tree.
pub proof fn law_snapshot_round_trip(root: FolderModel)
    requires
        folder_wf(root),
        node_fits(NodeModel::Folder(root)),
    ensures
        load_spec(snapshot_bytes(root)) == Some(root),
{
    let b = snapshot_bytes(root);
    assert(b.subrange(0, b.len() as int) =~= b);
    lemma_parse_node(b, 0, NodeModel::Folder(root));
}

proof fn lemma_strs_push(v: Seq<Seq<char>>, x: Seq<char>)
    ensures
        strs_bytes(v.push(x)) == strs_bytes(v) + str_bytes(x),
    decreases v.len(),
{
    if v.len() == 0 {
        assert(v.push(x).drop_first() =~= seq![]);
        assert(strs_bytes(v.push(x)) =~= str_bytes(x) + strs_bytes(seq![]));
        assert(strs_bytes(v.push(x)) =~= strs_bytes(v) + str_bytes(x));
    } else {
        assert(v.push(x).drop_first() =~= v.drop_first().push(x));
        lemma_strs_push(v.drop_first(), x);
        assert(strs_bytes(v.push(x)) =~= strs_bytes(v) + str_bytes(x));
    }
}

proof fn lemma_children_push(cs: Seq<NodeModel>, x: NodeModel)
    ensures
        children_bytes(cs.push(x)) == children_bytes(cs) + node_bytes(x),
    decreases cs.len(),
{
    let p = cs.push(x);
    if cs.len() == 0 {
        assert(p.subrange(1, p.len() as int) =~= seq![]);
        assert(children_bytes(p) =~= node_bytes(x) + children_bytes(seq![]));
        assert(children_bytes(p) =~= children_bytes(cs) + node_bytes(x));
    } else {
        let rest = cs.subrange(1, cs.len() as int);
        assert(p.subrange(1, p.len() as int) =~= rest.push(x));
        lemma_children_push(rest, x);
        assert(children_bytes(p) =~= children_bytes(cs) + node_bytes(x));
    }
}

fn put_strs(out: &mut Vec<u8>, v: &Vec<String>)
    ensures
        final(out)@ == old(out)@ + strs_bytes(strings_view(v@)),
{
    let mut i: usize = 0;
    assert(strings_view(v@).subrange(0, 0) =~= seq![]);
    assert(old(out)@ + strs_bytes(seq![]) =~= old(out)@);
    while i < v.len()
        invariant
            i <= v.len(),
            out@ == old(out)@ + strs_bytes(strings_view(v@).subrange(0, i as int)),
        decreases v.len() - i,
    {
        proof {
            assert(strings_view(v@).subrange(0, i + 1) =~= strings_view(v@).subrange(0, i as int).push(v@[i as int]@));
            lemma_strs_push(strings_view(v@).subrange(0, i as int), v@[i as int]@);
        }
        put_str(out, &v[i]);
        i = i + 1;
        assert(out@ =~= old(out)@ + strs_bytes(strings_view(v@).subrange(0, i as int)));
    }
    assert(strings_view(v@).subrange(0, i as int) =~= strings_view(v@));
}

fn put_node(out: &mut Vec<u8>, n: &VFSNode)
    ensures
        final(out)@ == old(out)@ + node_bytes(node_view(n)),
    decreases n,
{
    match n {
        VFSNode::File(f) => {
            out.push(0u8);
            put_str(out, &f.name);
            put_str(out, &f.extension);
            put_str(out, &f.build_metafile);
            put_u64(out, f.parts_name.len() as u64);
            put_strs(out, &f.parts_name);
            put_str(out, &f.metadata);
            assert(out@ =~= old(out)@ + node_bytes(node_view(n)));
        },
        VFSNode::Folder(d) => {
            put_folder(out, d);
        },
    }
}

fn put_folder(out: &mut Vec<u8>, d: &VFSFolder)
    ensures
        final(out)@ == old(out)@ + node_bytes(NodeModel::Folder(folder_view(d))),
    decreases d,
{
    out.push(1u8);
    put_str(out, &d.name);
    put_str(out, &d.metadata);
    put_u64(out, d.children.len() as u64);
    let ghost head = out@;
    let ghost cs = folder_view(d).children;
    let mut i: usize = 0;
    assert(cs.subrange(0, 0) =~= seq![]);
    assert(head + children_bytes(seq![]) =~= head);
    while i < d.children.len()
        invariant
            cs == folder_view(d).children,
            i <= d.children.len(),
            out@ == head + children_bytes(cs.subrange(0, i as int)),
        decreases d.children.len() - i,
    {
        proof {
            assert(cs[i as int] == node_view(&d.children@[i as int]));
            assert(cs.subrange(0, i + 1) =~= cs.subrange(0, i as int).push(cs[i as int]));
            lemma_children_push(cs.subrange(0, i as int), cs[i as int]);
        }
        assert(decreases_to!(d => d.children@[i as int]));
        put_node(out, &d.children[i]);
        i = i + 1;
        assert(out@ =~= head + children_bytes(cs.subrange(0, i as int)));
    }
    assert(cs.subrange(0, i as int) =~= cs);
    assert(out@ =~= old(out)@ + node_bytes(NodeModel::Folder(folder_view(d))));
}

pub open spec fn prepend<T>(acc: Seq<T>, r: Option<(Seq<T>, int)>) -> Option<(Seq<T>, int)> {
    match r {
        Some((rest, e)) => Some((acc + rest, e)),
        None => None,
    }
}

fn get_strs(b: &Vec<u8>, pos: usize, k: u64) -> (r: Option<(Vec<String>, usize)>)
    ensures
        match get_strs_spec(b@, pos as int, k as nat) {
            Some((v, e)) => r matches Some((w, e2)) && strings_view(w@) == v && e2 == e,
            None => r is None,
        },
{
    let mut acc: Vec<String> = Vec::new();
    let mut p: usize = pos;
    let mut i: u64 = 0;
    assert(strings_view(acc@) =~= seq![]);
    assert(prepend(seq![], get_strs_spec(b@, pos as int, k as nat)) == get_strs_spec(b@, pos as int, k as nat)) by {
        match get_strs_spec(b@, pos as int, k as nat) {
            Some((v, e)) => assert(Seq::<Seq<char>>::empty() + v =~= v),
            None => {},
        }
    }
    while i < k
        invariant
            i <= k,
            get_strs_spec(b@, pos as int, k as nat) == prepend(strings_view(acc@), get_strs_spec(b@, p as int, (k - i) as nat)),
        decreases k - i,
    {
        match get_str(b, p) {
            None => return None,
            Some((s, e)) => {
                proof {
                    let a = strings_view(acc@);
                    assert(strings_view(acc@.push(s)) =~= a.push(s@));
                    match get_strs_spec(b@, e as int, (k - i - 1) as nat) {
                        Some((rest, e2)) => assert(a + (seq![s@] + rest) =~= a.push(s@) + rest),
                        None => {},
                    }
                }
                acc.push(s);
                p = e;
            },
        }
        i = i + 1;
    }
    assert(strings_view(acc@) + seq![] =~= strings_view(acc@));
    Some((acc, p))
}

fn parse_node(b: &Vec<u8>, pos: usize) -> (r: Option<(VFSNode, usize)>)
    ensures
        match parse_node_spec(b@, pos as int) {
            Some((m, e)) => r matches Some((n, e2)) && node_view(&n) == m && e2 == e,
            None => r is None,
        },
    decreases b.len() - pos,
{
    if pos >= b.len() {
        return None;
    }
    if b[pos] == 0 {
        let (name, p1) = match get_str(b, pos + 1) { Some(x) => x, None => return None };
        let (extension, p2) = match get_str(b, p1) { Some(x) => x, None => return None };
        let (build_metafile, p3) = match get_str(b, p2) { Some(x) => x, None => return None };
        let k = match get_u64(b, p3) { Some(x) => x, None => return None };
        let (parts_name, p4) = match get_strs(b, p3 + 8, k) { Some(x) => x, None => return None };
        let (metadata, p5) = match get_str(b, p4) { Some(x) => x, None => return None };
        let f = VFSFile { name, extension, build_metafile, parts_name, metadata };
        Some((VFSNode::File(f), p5))
    } else if b[pos] == 1 {
        let (name, p1) = match get_str(b, pos + 1) { Some(x) => x, None => return None };
        let (metadata, p2) = match get_str(b, p1) { Some(x) => x, None => return None };
        let k = match get_u64(b, p2) { Some(x) => x, None => return None };
        let start = p2 + 8;
        let ghost spec_all = parse_children_spec(b@, start as int, k as nat);
        assert(parse_node_spec(b@, pos as int) == match spec_all {
            None => None,
            Some((cs, e)) => Some((NodeModel::Folder(FolderModel { name: name@, metadata: metadata@, children: cs }), e)),
        });
        let mut children: Vec<VFSNode> = Vec::new();
        let mut p: usize = start;
        let mut i: u64 = 0;
        assert(prepend(seq![], spec_all) == spec_all) by {
            match spec_all {
                Some((v, e)) => assert(Seq::<NodeModel>::empty() + v =~= v),
                None => {},
            }
        }
        proof {
            assert(Seq::new(0, |j: int| node_view(&children@[j])) =~= seq![]);
        }
        while i < k
            invariant
                pos < start <= p,
                i <= k,
                spec_all == parse_children_spec(b@, start as int, k as nat),
                parse_node_spec(b@, pos as int) == match spec_all {
                    None => None,
                    Some((cs, e)) => Some((NodeModel::Folder(FolderModel { name: name@, metadata: metadata@, children: cs }), e)),
                },
                spec_all == prepend(
                    Seq::new(children@.len(), |j: int| node_view(&children@[j])),
                    parse_children_spec(b@, p as int, (k - i) as nat),
                ),
            decreases k - i,
        {
            if p >= b.len() {
                return None;
            }
            match parse_node(b, p) {
                None => return None,
                Some((n, e)) => {
                    if e <= p || e > b.len() {
                        return None;
                    }
                    proof {
                        let a = Seq::new(children@.len(), |j: int| node_view(&children@[j]));
                        let a2 = Seq::new(children@.len() + 1, |j: int| node_view(&children@.push(n)[j]));
                        assert(a2 =~= a.push(node_view(&n)));
                        match parse_children_spec(b@, e as int, (k - i - 1) as nat) {
                            Some((rest, e2)) => assert(a + (seq![node_view(&n)] + rest) =~= a.push(node_view(&n)) + rest),
                            None => {},
                        }
                    }
                    children.push(n);
                    p = e;
                },
            }
            i = i + 1;
        }
        let d = VFSFolder { name, metadata, children };
        proof {
            let a = Seq::new(d.children@.len(), |j: int| node_view(&d.children@[j]));
            assert(a + seq![] =~= a);
            assert(folder_view(&d).children =~= a);
        }
        Some((VFSNode::Folder(d), p))
    } else {
        None
    }
}

fn names_unique(d: &VFSFolder) -> (r: bool)
    ensures
        r == crate::vfs::unique_names(folder_view(d).children),
{
    let ghost cs = folder_view(d).children;
    let mut a: usize = 0;
    while a < d.children.len()
        invariant
            cs == folder_view(d).children,
            a <= d.children.len(),
            forall|x: int, y: int| 0 <= x < a && 0 <= y < cs.len() && (#[trigger] cs[x]).name() == (#[trigger] cs[y]).name() ==> x == y,
        decreases d.children.len() - a,
    {
        let mut c: usize = 0;
        while c < d.children.len()
            invariant
                cs == folder_view(d).children,
                a < d.children.len(),
                c <= d.children.len(),
                forall|x: int, y: int| 0 <= x < a && 0 <= y < cs.len() && (#[trigger] cs[x]).name() == (#[trigger] cs[y]).name() ==> x == y,
                forall|y: int| 0 <= y < c && cs[a as int].name() == (#[trigger] cs[y]).name() ==> a == y,
            decreases d.children.len() - c,
        {
            assert(cs[a as int] == node_view(&d.children@[a as int]));
            assert(cs[c as int] == node_view(&d.children@[c as int]));
            if c != a && d.children[a].name().eq(d.children[c].name()) {
                return false;
            }
            c = c + 1;
        }
        a = a + 1;
    }
    true
}

fn folder_is_wf(d: &VFSFolder) -> (r: bool)
    ensures
        r == folder_wf(folder_view(d)),
    decreases d,
{
    proof {
        reveal_with_fuel(folder_wf, 1);
    }
    if !names_unique(d) {
        return false;
    }
    let ghost cs = folder_view(d).children;
    let mut i: usize = 0;
    while i < d.children.len()
        invariant
            cs == folder_view(d).children,
            i <= d.children.len(),
            forall|k: int| 0 <= k < i ==> match #[trigger] cs[k] {
                NodeModel::Folder(g) => folder_wf(g),
                NodeModel::File(_) => true,
            },
        decreases d.children.len() - i,
    {
        assert(cs[i as int] == node_view(&d.children@[i as int]));
        match &d.children[i] {
            VFSNode::Folder(g) => {
                assert(decreases_to!(d => d.children@[i as int]));
                if !folder_is_wf(g) {
                    return false;
                }
            },
            VFSNode::File(_) => {},
        }
        i = i + 1;
    }
    true
}

impl VirtualFileSystem {
    /// The snapshot of the whole tree.
    pub fn save_snapshot(&self) -> (r: Vec<u8>)
        ensures
            r@ == snapshot_bytes(self@),
    {
        let mut out: Vec<u8> = Vec::new();
        let root = VFSNode::Folder(self.root.copy());
        put_node(&mut out, &root);
        assert(out@ =~= snapshot_bytes(self@));
        out
    }

    /// The tree that a snapshot holds; `None` where the bytes are not exactly one
    /// well-formed tree.
    pub fn load_snapshot(b: &Vec<u8>) -> (r: Option<VirtualFileSystem>)
        ensures
            match load_spec(b@) {
                Some(m) => r matches Some(t) && t@ == m && t.wf(),
                None => r is None,
            },
    {
        match parse_node(b, 0) {
            Some((VFSNode::Folder(d), e)) => {
                if e == b.len() && folder_is_wf(&d) {
                    Some(VirtualFileSystem { root: d })
                } else {
                    None
                }
            },
            _ => None,
        }
    }
}

} // verus!
