use vstd::prelude::*;
use crate::path::{check_absolute, is_absolute, path_segments, split_path, strings_view};

verus! {

/// What a file node holds, as mathematical values.
pub struct FileModel {
    pub name: Seq<char>,
    pub extension: Seq<char>,
    pub build_metafile: Seq<char>,
    pub parts_name: Seq<Seq<char>>,
    pub metadata: Seq<char>,
}

/// What a folder holds, as mathematical values.
pub struct FolderModel {
    pub name: Seq<char>,
    pub metadata: Seq<char>,
    pub children: Seq<NodeModel>,
}

pub enum NodeModel {
    File(FileModel),
    Folder(FolderModel),
}

/// A file entry of the tree: the names under which its parts and manifest are stored.
#[derive(Debug, PartialEq, Eq)]
pub struct VFSFile {
    pub name: String,
    pub extension: String,
    pub build_metafile: String,
    pub parts_name: Vec<String>,
    pub metadata: String,
}

/// A folder entry of the tree; sibling names are unique.
#[derive(Debug, PartialEq, Eq)]
pub struct VFSFolder {
    pub name: String,
    pub metadata: String,
    pub children: Vec<VFSNode>,
}

#[derive(Debug, PartialEq, Eq)]
pub enum VFSNode {
    File(VFSFile),
    Folder(VFSFolder),
}

impl VFSFile {
    pub open spec fn view(&self) -> FileModel {
        FileModel {
            name: self.name@,
            extension: self.extension@,
            build_metafile: self.build_metafile@,
            parts_name: strings_view(self.parts_name@),
            metadata: self.metadata@,
        }
    }
}

pub open spec fn node_view(n: &VFSNode) -> NodeModel
    decreases n,
{
    match n {
        VFSNode::File(f) => NodeModel::File(f.view()),
        VFSNode::Folder(d) => NodeModel::Folder(folder_view(d)),
    }
}

pub open spec fn folder_view(d: &VFSFolder) -> FolderModel
    decreases d,
{
    FolderModel {
        name: d.name@,
        metadata: d.metadata@,
        children: Seq::new(
            d.children@.len(),
            |i: int|
                if 0 <= i < d.children@.len() {
                    node_view(&d.children@[i])
                } else {
                    NodeModel::File(FileModel { name: seq![], extension: seq![], build_metafile: seq![], parts_name: seq![], metadata: seq![] })
                },
        ),
    }
}

/// Why a tree operation failed.
#[derive(Debug, PartialEq, Eq)]
pub enum VFSError {
    NodeNotFound,
    FolderNotFound,
    FileNotFound,
    NodeNotRemove { message: String },
    FileAlreadyExists,
    FolderAlreadyExists,
    PathError { message: String },
}

impl NodeModel {
    pub open spec fn name(self) -> Seq<char> {
        match self {
            NodeModel::File(f) => f.name,
            NodeModel::Folder(d) => d.name,
        }
    }
}

pub open spec fn has_child(ch: Seq<NodeModel>, name: Seq<char>) -> bool {
    exists|j: int| 0 <= j < ch.len() && (#[trigger] ch[j]).name() == name
}

/// The position of the child called `name` (meaningful when there is one).
pub open spec fn child_index(ch: Seq<NodeModel>, name: Seq<char>) -> int {
    choose|j: int| 0 <= j < ch.len() && (#[trigger] ch[j]).name() == name
}

pub open spec fn unique_names(ch: Seq<NodeModel>) -> bool {
    forall|a: int, b: int|
        0 <= a < ch.len() && 0 <= b < ch.len() && (#[trigger] ch[a]).name() == (#[trigger] ch[b]).name()
            ==> a == b
}

/// Sibling names are unique in this folder and in every folder below it.
pub open spec fn folder_wf(d: FolderModel) -> bool
    decreases d,
{
    &&& unique_names(d.children)
    &&& forall|i: int|
        0 <= i < d.children.len() ==> match #[trigger] d.children[i] {
            NodeModel::Folder(g) => folder_wf(g),
            NodeModel::File(_) => true,
        }
}

/// The node reached from folder `d` by walking `path`.
pub open spec fn lookup(d: FolderModel, path: Seq<Seq<char>>) -> Option<NodeModel>
    decreases path.len(),
{
    if path.len() == 0 {
        Some(NodeModel::Folder(d))
    } else if !has_child(d.children, path[0]) {
        None
    } else {
        let c = d.children[child_index(d.children, path[0])];
        if path.len() == 1 {
            Some(c)
        } else {
            match c {
                NodeModel::Folder(g) => lookup(g, path.drop_first()),
                NodeModel::File(_) => None,
            }
        }
    }
}

/// The file at `segs` below `root`: `NodeNotFound` where a folder on the way is
/// missing or the node there is a folder, `FileNotFound` where the last segment is absent.
pub open spec fn resolve_file(root: FolderModel, segs: Seq<Seq<char>>) -> Result<FileModel, VFSError> {
    if segs.len() == 0 {
        Err(VFSError::NodeNotFound)
    } else {
        match lookup(root, segs.drop_last()) {
            Some(NodeModel::Folder(p)) => if !has_child(p.children, segs.last()) {
                Err(VFSError::FileNotFound)
            } else {
                match p.children[child_index(p.children, segs.last())] {
                    NodeModel::File(f) => Ok(f),
                    NodeModel::Folder(_) => Err(VFSError::NodeNotFound),
                }
            },
            _ => Err(VFSError::NodeNotFound),
        }
    }
}

/// The folder at `segs` below `root`, the root itself for no segment.
pub open spec fn resolve_folder(root: FolderModel, segs: Seq<Seq<char>>) -> Result<FolderModel, VFSError> {
    if segs.len() == 0 {
        Ok(root)
    } else {
        match lookup(root, segs.drop_last()) {
            Some(NodeModel::Folder(p)) => if !has_child(p.children, segs.last()) {
                Err(VFSError::FolderNotFound)
            } else {
                match p.children[child_index(p.children, segs.last())] {
                    NodeModel::Folder(g) => Ok(g),
                    NodeModel::File(_) => Err(VFSError::NodeNotFound),
                }
            },
            _ => Err(VFSError::NodeNotFound),
        }
    }
}

pub open spec fn file_result_view(r: Result<VFSFile, VFSError>) -> Result<FileModel, VFSError> {
    match r {
        Ok(f) => Ok(f.view()),
        Err(e) => Err(e),
    }
}

pub open spec fn folder_result_view(r: Result<VFSFolder, VFSError>) -> Result<FolderModel, VFSError> {
    match r {
        Ok(d) => Ok(folder_view(&d)),
        Err(e) => Err(e),
    }
}

proof fn lemma_child_wf(d: FolderModel, j: int)
    requires
        folder_wf(d),
        0 <= j < d.children.len(),
    ensures
        d.children[j] is Folder ==> folder_wf(d.children[j]->Folder_0),
{
    reveal_with_fuel(folder_wf, 1);
}

proof fn lemma_found_is_chosen(ch: Seq<NodeModel>, name: Seq<char>, j: int)
    requires
        unique_names(ch),
        0 <= j < ch.len(),
        ch[j].name() == name,
    ensures
        has_child(ch, name),
        child_index(ch, name) == j,
{
    assert(has_child(ch, name));
    let k = child_index(ch, name);
    assert(ch[k].name() == ch[j].name());
}

impl VFSNode {
    pub fn name(&self) -> (r: &String)
        ensures
            r@ == node_view(self).name(),
    {
        match self {
            VFSNode::File(f) => &f.name,
            VFSNode::Folder(d) => &d.name,
        }
    }
}

/// The position of the child called `name`, if there is one.
fn find_child(d: &VFSFolder, name: &String) -> (r: Option<usize>)
    ensures
        match r {
            Some(j) => j < d.children.len() && folder_view(d).children[j as int].name() == name@,
            None => !has_child(folder_view(d).children, name@),
        },
{
    let ghost m = folder_view(d);
    let mut j: usize = 0;
    while j < d.children.len()
        invariant
            m == folder_view(d),
            j <= d.children.len(),
            forall|k: int| 0 <= k < j ==> (#[trigger] m.children[k]).name() != name@,
        decreases d.children.len() - j,
    {
        assert(m.children[j as int] == node_view(&d.children@[j as int]));
        if d.children[j].name().eq(name) {
            return Some(j);
        }
        j = j + 1;
    }
    None
}

/// The folder reached from `d` by walking `segs[i..]`.
fn walk<'a>(d: &'a VFSFolder, segs: &Vec<String>, i: usize) -> (r: Option<&'a VFSFolder>)
    requires
        i <= segs.len(),
        folder_wf(folder_view(d)),
    ensures
        match lookup(folder_view(d), strings_view(segs@).subrange(i as int, segs.len() as int)) {
            Some(NodeModel::Folder(g)) => r is Some && folder_view(r.unwrap()) == g,
            _ => r is None,
        },
        r is Some ==> folder_wf(folder_view(r.unwrap())),
    decreases segs.len() - i,
{
    let ghost path = strings_view(segs@).subrange(i as int, segs.len() as int);
    if i == segs.len() {
        return Some(d);
    }
    assert(path[0] == segs@[i as int]@);
    match find_child(d, &segs[i]) {
        None => None,
        Some(j) => {
            proof {
                lemma_found_is_chosen(folder_view(d).children, path[0], j as int);
                lemma_child_wf(folder_view(d), j as int);
            }
            match &d.children[j] {
                VFSNode::File(_) => None,
                VFSNode::Folder(g) => {
                    if i + 1 == segs.len() {
                        Some(g)
                    } else {
                        assert(path.drop_first() =~= strings_view(segs@).subrange(i + 1, segs.len() as int));
                        walk(g, segs, i + 1)
                    }
                },
            }
        },
    }
}

fn copy_strings(v: &Vec<String>) -> (r: Vec<String>)
    ensures
        r@ == v@,
{
    let mut r: Vec<String> = Vec::new();
    let mut i: usize = 0;
    while i < v.len()
        invariant
            i <= v.len(),
            r@ == v@.subrange(0, i as int),
        decreases v.len() - i,
    {
        r.push(v[i].clone());
        i = i + 1;
        assert(r@ =~= v@.subrange(0, i as int));
    }
    assert(r@ =~= v@);
    r
}

impl VFSFile {
    /// A copy that shares nothing with `self`.
    pub fn copy(&self) -> (r: VFSFile)
        ensures
            r.view() == self.view(),
    {
        VFSFile {
            name: self.name.clone(),
            extension: self.extension.clone(),
            build_metafile: self.build_metafile.clone(),
            parts_name: copy_strings(&self.parts_name),
            metadata: self.metadata.clone(),
        }
    }
}

impl VFSNode {
    /// A copy that shares nothing with `self`.
    pub fn copy(&self) -> (r: VFSNode)
        ensures
            node_view(&r) == node_view(self),
        decreases self,
    {
        match self {
            VFSNode::File(f) => VFSNode::File(f.copy()),
            VFSNode::Folder(d) => VFSNode::Folder(d.copy()),
        }
    }
}

impl VFSFolder {
    /// A copy of the folder and everything below it.
    pub fn copy(&self) -> (r: VFSFolder)
        ensures
            folder_view(&r) == folder_view(self),
        decreases self,
    {
        let mut children: Vec<VFSNode> = Vec::new();
        let mut i: usize = 0;
        while i < self.children.len()
            invariant
                i <= self.children.len(),
                children.len() == i,
                forall|k: int| 0 <= k < i ==> node_view(&#[trigger] children@[k]) == node_view(&self.children@[k]),
            decreases self.children.len() - i,
        {
            assert(decreases_to!(self => self.children@[i as int]));
            children.push(self.children[i].copy());
            i = i + 1;
        }
        let r = VFSFolder { name: self.name.clone(), metadata: self.metadata.clone(), children };
        assert(folder_view(&r).children =~= folder_view(self).children);
        r
    }
}

/// The error for a name that is already taken by a sibling of `node`.
pub open spec fn already_exists(node: NodeModel) -> VFSError {
    match node {
        NodeModel::File(_) => VFSError::FileAlreadyExists,
        NodeModel::Folder(_) => VFSError::FolderAlreadyExists,
    }
}

/// `d` with `node` put into the folder at `path`.
pub open spec fn insert_at(d: FolderModel, path: Seq<Seq<char>>, node: NodeModel) -> Result<FolderModel, VFSError>
    decreases path.len(),
{
    if path.len() == 0 {
        if has_child(d.children, node.name()) {
            Err(already_exists(node))
        } else {
            Ok(FolderModel { children: d.children.push(node), ..d })
        }
    } else if !has_child(d.children, path[0]) {
        Err(VFSError::FolderNotFound)
    } else {
        let j = child_index(d.children, path[0]);
        match d.children[j] {
            NodeModel::Folder(g) => match insert_at(g, path.drop_first(), node) {
                Ok(g2) => Ok(FolderModel { children: d.children.update(j, NodeModel::Folder(g2)), ..d }),
                Err(e) => Err(e),
            },
            NodeModel::File(_) => Err(VFSError::FolderNotFound),
        }
    }
}

/// `d` without the node at `path` (and all below it).
pub open spec fn remove_at(d: FolderModel, path: Seq<Seq<char>>) -> Result<FolderModel, VFSError>
    decreases path.len(),
{
    if path.len() == 0 || !has_child(d.children, path[0]) {
        Err(VFSError::NodeNotFound)
    } else {
        let j = child_index(d.children, path[0]);
        if path.len() == 1 {
            Ok(FolderModel { children: d.children.remove(j), ..d })
        } else {
            match d.children[j] {
                NodeModel::Folder(g) => match remove_at(g, path.drop_first()) {
                    Ok(g2) => Ok(FolderModel { children: d.children.update(j, NodeModel::Folder(g2)), ..d }),
                    Err(e) => Err(e),
                },
                NodeModel::File(_) => Err(VFSError::NodeNotFound),
            }
        }
    }
}

/// Replacing a child by a well-formed folder of the same name keeps the parent well-formed.
proof fn lemma_update_wf(d: FolderModel, j: int, g: FolderModel)
    requires
        folder_wf(d),
        0 <= j < d.children.len(),
        d.children[j].name() == g.name,
        folder_wf(g),
    ensures
        folder_wf(FolderModel { children: d.children.update(j, NodeModel::Folder(g)), ..d }),
{
    let e = FolderModel { children: d.children.update(j, NodeModel::Folder(g)), ..d };
    reveal_with_fuel(folder_wf, 1);
    assert forall|a: int, b: int|
        0 <= a < e.children.len() && 0 <= b < e.children.len() && (#[trigger] e.children[a]).name() == (#[trigger] e.children[b]).name()
        implies a == b by {
        assert(e.children[a].name() == d.children[a].name());
        assert(e.children[b].name() == d.children[b].name());
    }
    assert forall|i: int| 0 <= i < e.children.len() implies match #[trigger] e.children[i] {
        NodeModel::Folder(h) => folder_wf(h),
        NodeModel::File(_) => true,
    } by {
        if i != j {
            assert(e.children[i] == d.children[i]);
        }
    }
}

proof fn lemma_push_wf(d: FolderModel, node: NodeModel)
    requires
        folder_wf(d),
        !has_child(d.children, node.name()),
        node is Folder ==> folder_wf(node->Folder_0),
    ensures
        folder_wf(FolderModel { children: d.children.push(node), ..d }),
{
    let e = FolderModel { children: d.children.push(node), ..d };
    reveal_with_fuel(folder_wf, 1);
    let n = d.children.len() as int;
    assert forall|a: int, b: int|
        0 <= a < e.children.len() && 0 <= b < e.children.len() && (#[trigger] e.children[a]).name() == (#[trigger] e.children[b]).name()
        implies a == b by {
        if a < n && b == n {
            assert(d.children[a].name() == node.name());
        }
        if b < n && a == n {
            assert(d.children[b].name() == node.name());
        }
        if a < n && b < n {
            assert(d.children[a] == e.children[a]);
            assert(d.children[b] == e.children[b]);
        }
    }
    assert forall|i: int| 0 <= i < e.children.len() implies match #[trigger] e.children[i] {
        NodeModel::Folder(h) => folder_wf(h),
        NodeModel::File(_) => true,
    } by {
        if i < n {
            assert(e.children[i] == d.children[i]);
        }
    }
}

proof fn lemma_remove_wf(d: FolderModel, j: int)
    requires
        folder_wf(d),
        0 <= j < d.children.len(),
    ensures
        folder_wf(FolderModel { children: d.children.remove(j), ..d }),
{
    let e = FolderModel { children: d.children.remove(j), ..d };
    reveal_with_fuel(folder_wf, 1);
    assert forall|a: int, b: int|
        0 <= a < e.children.len() && 0 <= b < e.children.len() && (#[trigger] e.children[a]).name() == (#[trigger] e.children[b]).name()
        implies a == b by {
        let a2 = if a < j { a } else { a + 1 };
        let b2 = if b < j { b } else { b + 1 };
        assert(e.children[a] == d.children[a2]);
        assert(e.children[b] == d.children[b2]);
    }
    assert forall|i: int| 0 <= i < e.children.len() implies match #[trigger] e.children[i] {
        NodeModel::Folder(h) => folder_wf(h),
        NodeModel::File(_) => true,
    } by {
        let i2 = if i < j { i } else { i + 1 };
        assert(e.children[i] == d.children[i2]);
    }
}

proof fn lemma_children_view(d: &VFSFolder)
    ensures
        folder_view(d).children.len() == d.children@.len(),
        forall|k: int| 0 <= k < d.children@.len() ==> #[trigger] folder_view(d).children[k] == node_view(&d.children@[k]),
{
}

/// Puts `node` into the folder at `segs[i..]` below `d`.
fn insert_rec(d: &mut VFSFolder, segs: &Vec<String>, i: usize, node: VFSNode) -> (r: Result<(), VFSError>)
    requires
        i <= segs.len(),
        folder_wf(folder_view(old(d))),
        node is Folder ==> folder_wf(folder_view(&node->Folder_0)),
    ensures
        folder_wf(folder_view(final(d))),
        match insert_at(folder_view(old(d)), strings_view(segs@).subrange(i as int, segs.len() as int), node_view(&node)) {
            Ok(g) => r is Ok && folder_view(final(d)) == g,
            Err(e) => r == Err::<(), VFSError>(e) && folder_view(final(d)) == folder_view(old(d)),
        },
    decreases segs.len() - i,
{
    let ghost m = folder_view(d);
    let ghost path = strings_view(segs@).subrange(i as int, segs.len() as int);
    proof {
        lemma_children_view(d);
    }
    if i == segs.len() {
        match find_child(d, node.name()) {
            Some(j) => {
                proof {
                    lemma_found_is_chosen(m.children, node_view(&node).name(), j as int);
                }
                match node {
                    VFSNode::File(_) => Err(VFSError::FileAlreadyExists),
                    VFSNode::Folder(_) => Err(VFSError::FolderAlreadyExists),
                }
            },
            None => {
                let ghost nv = node_view(&node);
                proof {
                    lemma_push_wf(m, nv);
                }
                d.children.push(node);
                proof {
                    lemma_children_view(d);
                    assert(folder_view(d).children =~= m.children.push(nv));
                }
                Ok(())
            },
        }
    } else {
        assert(path[0] == segs@[i as int]@);
        match find_child(d, &segs[i]) {
            None => Err(VFSError::FolderNotFound),
            Some(j) => {
                proof {
                    lemma_found_is_chosen(m.children, path[0], j as int);
                    lemma_child_wf(m, j as int);
                }
                let child = d.children.remove(j);
                match child {
                    VFSNode::File(f) => {
                        d.children.insert(j, VFSNode::File(f));
                        proof {
                            lemma_children_view(d);
                            assert(folder_view(d).children =~= m.children);
                        }
                        Err(VFSError::FolderNotFound)
                    },
                    VFSNode::Folder(mut g) => {
                        let ghost g0 = folder_view(&g);
                        assert(path.drop_first() =~= strings_view(segs@).subrange(i + 1, segs.len() as int));
                        let r = insert_rec(&mut g, segs, i + 1, node);
                        proof {
                            if r is Ok {
                                lemma_update_wf(m, j as int, folder_view(&g));
                            }
                        }
                        let ghost gv = folder_view(&g);
                        d.children.insert(j, VFSNode::Folder(g));
                        proof {
                            lemma_children_view(d);
                            assert(folder_view(d).children =~= m.children.update(j as int, NodeModel::Folder(gv)));
                            if r is Err {
                                assert(folder_view(d).children =~= m.children);
                            }
                        }
                        r
                    },
                }
            },
        }
    }
}

/// Takes the node at `segs[i..]` out of the tree below `d`.
fn remove_rec(d: &mut VFSFolder, segs: &Vec<String>, i: usize) -> (r: Result<(), VFSError>)
    requires
        i <= segs.len(),
        folder_wf(folder_view(old(d))),
    ensures
        folder_wf(folder_view(final(d))),
        match remove_at(folder_view(old(d)), strings_view(segs@).subrange(i as int, segs.len() as int)) {
            Ok(g) => r is Ok && folder_view(final(d)) == g,
            Err(e) => r == Err::<(), VFSError>(e) && folder_view(final(d)) == folder_view(old(d)),
        },
    decreases segs.len() - i,
{
    let ghost m = folder_view(d);
    let ghost path = strings_view(segs@).subrange(i as int, segs.len() as int);
    proof {
        lemma_children_view(d);
    }
    if i == segs.len() {
        return Err(VFSError::NodeNotFound);
    }
    assert(path[0] == segs@[i as int]@);
    match find_child(d, &segs[i]) {
        None => Err(VFSError::NodeNotFound),
        Some(j) => {
            proof {
                lemma_found_is_chosen(m.children, path[0], j as int);
                lemma_child_wf(m, j as int);
            }
            let child = d.children.remove(j);
            if i + 1 == segs.len() {
                proof {
                    lemma_remove_wf(m, j as int);
                    lemma_children_view(d);
                    assert(folder_view(d).children =~= m.children.remove(j as int));
                }
                return Ok(());
            }
            match child {
                VFSNode::File(f) => {
                    d.children.insert(j, VFSNode::File(f));
                    proof {
                        lemma_children_view(d);
                        assert(folder_view(d).children =~= m.children);
                    }
                    Err(VFSError::NodeNotFound)
                },
                VFSNode::Folder(mut g) => {
                    assert(path.drop_first() =~= strings_view(segs@).subrange(i + 1, segs.len() as int));
                    let r = remove_rec(&mut g, segs, i + 1);
                    proof {
                        if r is Ok {
                            lemma_update_wf(m, j as int, folder_view(&g));
                        }
                    }
                    let ghost gv = folder_view(&g);
                    d.children.insert(j, VFSNode::Folder(g));
                    proof {
                        lemma_children_view(d);
                        assert(folder_view(d).children =~= m.children.update(j as int, NodeModel::Folder(gv)));
                        if r is Err {
                            assert(folder_view(d).children =~= m.children);
                        }
                    }
                    r
                },
            }
        },
    }
}

/// The namespace: one tree of folders and files under an unnamed root folder.
#[derive(Debug, PartialEq, Eq)]
pub struct VirtualFileSystem {
    pub root: VFSFolder,
}

impl VirtualFileSystem {
    pub open spec fn view(&self) -> FolderModel {
        folder_view(&self.root)
    }

    pub open spec fn wf(&self) -> bool {
        folder_wf(self@)
    }

    /// An empty tree.
    pub fn new() -> (r: VirtualFileSystem)
        ensures
            r.wf(),
            r@ == (FolderModel { name: seq![], metadata: seq![], children: seq![] }),
    {
        let r = VirtualFileSystem { root: VFSFolder { name: String::new(), metadata: String::new(), children: Vec::new() } };
        assert(r@.children =~= seq![]);
        proof {
            reveal_with_fuel(folder_wf, 1);
        }
        r
    }

    /// Splits an absolute path into the segments of its parent and its last segment.
    fn split_parent(path: &str) -> (r: (Vec<String>, String))
        requires
            path_segments(path@).len() > 0,
        ensures
            strings_view(r.0@) == path_segments(path@).drop_last(),
            r.1@ == path_segments(path@).last(),
    {
        let mut segs = split_path(path);
        let ghost all = segs@;
        let last = segs.pop().unwrap();
        assert(strings_view(segs@) =~= strings_view(all).drop_last());
        (segs, last)
    }

    /// The parent folder of the node that `path` names.
    fn parent_of(&self, path: &str) -> (r: Option<(&VFSFolder, String)>)
        requires
            self.wf(),
            path_segments(path@).len() > 0,
        ensures
            match lookup(self@, path_segments(path@).drop_last()) {
                Some(NodeModel::Folder(p)) => r is Some && folder_view(r.unwrap().0) == p
                    && r.unwrap().1@ == path_segments(path@).last() && folder_wf(p),
                _ => r is None,
            },
    {
        let (parent, last) = Self::split_parent(path);
        assert(strings_view(parent@).subrange(0, parent.len() as int) =~= strings_view(parent@));
        match walk(&self.root, &parent, 0) {
            Some(p) => Some((p, last)),
            None => None,
        }
    }

    /// A copy of the file at `path`.
    pub fn get_file(&self, path: &str) -> (r: Result<VFSFile, VFSError>)
        requires
            self.wf(),
        ensures
            !is_absolute(path@) ==> r matches Err(VFSError::PathError { .. }),
            is_absolute(path@) ==> file_result_view(r) == resolve_file(self@, path_segments(path@)),
    {
        if !check_absolute(path) {
            return Err(VFSError::PathError { message: path.to_owned() });
        }
        if split_path(path).len() == 0 {
            return Err(VFSError::NodeNotFound);
        }
        match self.parent_of(path) {
            None => Err(VFSError::NodeNotFound),
            Some((p, last)) => match find_child(p, &last) {
                None => Err(VFSError::FileNotFound),
                Some(j) => {
                    proof {
                        lemma_found_is_chosen(folder_view(p).children, last@, j as int);
                        lemma_children_view(p);
                    }
                    match &p.children[j] {
                        VFSNode::File(f) => Ok(f.copy()),
                        VFSNode::Folder(_) => Err(VFSError::NodeNotFound),
                    }
                },
            },
        }
    }

    /// A copy of the folder at `path`, with everything below it.
    pub fn get_folder(&self, path: &str) -> (r: Result<VFSFolder, VFSError>)
        requires
            self.wf(),
        ensures
            !is_absolute(path@) ==> r matches Err(VFSError::PathError { .. }),
            is_absolute(path@) ==> folder_result_view(r) == resolve_folder(self@, path_segments(path@)),
    {
        if !check_absolute(path) {
            return Err(VFSError::PathError { message: path.to_owned() });
        }
        if split_path(path).len() == 0 {
            return Ok(self.root.copy());
        }
        match self.parent_of(path) {
            None => Err(VFSError::NodeNotFound),
            Some((p, last)) => match find_child(p, &last) {
                None => Err(VFSError::FolderNotFound),
                Some(j) => {
                    proof {
                        lemma_found_is_chosen(folder_view(p).children, last@, j as int);
                        lemma_children_view(p);
                    }
                    match &p.children[j] {
                        VFSNode::Folder(g) => Ok(g.copy()),
                        VFSNode::File(_) => Err(VFSError::NodeNotFound),
                    }
                },
            },
        }
    }

    fn insert_node(&mut self, path: &str, node: VFSNode) -> (r: Result<(), VFSError>)
        requires
            old(self).wf(),
            node is Folder ==> folder_wf(folder_view(&node->Folder_0)),
        ensures
            final(self).wf(),
            !is_absolute(path@) ==> (r matches Err(VFSError::PathError { .. })) && final(self)@ == old(self)@,
            is_absolute(path@) ==> match insert_at(old(self)@, path_segments(path@), node_view(&node)) {
                Ok(g) => r is Ok && final(self)@ == g,
                Err(e) => r == Err::<(), VFSError>(e) && final(self)@ == old(self)@,
            },
    {
        if !check_absolute(path) {
            return Err(VFSError::PathError { message: path.to_owned() });
        }
        let segs = split_path(path);
        assert(strings_view(segs@).subrange(0, segs.len() as int) =~= strings_view(segs@));
        insert_rec(&mut self.root, &segs, 0, node)
    }

    /// Puts `file` into the folder at `path`; the name must be free there.
    pub fn add_file(&mut self, path: &str, file: VFSFile) -> (r: Result<(), VFSError>)
        requires
            old(self).wf(),
        ensures
            final(self).wf(),
            !is_absolute(path@) ==> (r matches Err(VFSError::PathError { .. })) && final(self)@ == old(self)@,
            is_absolute(path@) ==> match insert_at(old(self)@, path_segments(path@), NodeModel::File(file@)) {
                Ok(g) => r is Ok && final(self)@ == g,
                Err(e) => r == Err::<(), VFSError>(e) && final(self)@ == old(self)@,
            },
    {
        self.insert_node(path, VFSNode::File(file))
    }

    /// Puts `folder` into the folder at `path`; the name must be free there.
    pub fn add_folder(&mut self, path: &str, folder: VFSFolder) -> (r: Result<(), VFSError>)
        requires
            old(self).wf(),
            folder_wf(folder_view(&folder)),
        ensures
            final(self).wf(),
            !is_absolute(path@) ==> (r matches Err(VFSError::PathError { .. })) && final(self)@ == old(self)@,
            is_absolute(path@) ==> match insert_at(old(self)@, path_segments(path@), NodeModel::Folder(folder_view(&folder))) {
                Ok(g) => r is Ok && final(self)@ == g,
                Err(e) => r == Err::<(), VFSError>(e) && final(self)@ == old(self)@,
            },
    {
        self.insert_node(path, VFSNode::Folder(folder))
    }

    /// Creates an empty folder at `path`, whose parent folder must exist.
    pub fn create_folder(&mut self, path: &str) -> (r: Result<(), VFSError>)
        requires
            old(self).wf(),
        ensures
            final(self).wf(),
            !is_absolute(path@) ==> (r matches Err(VFSError::PathError { .. })) && final(self)@ == old(self)@,
            is_absolute(path@) && path_segments(path@).len() == 0 ==> r == Err::<(), VFSError>(VFSError::FolderAlreadyExists)
                && final(self)@ == old(self)@,
            is_absolute(path@) && path_segments(path@).len() > 0 ==> match insert_at(
                old(self)@,
                path_segments(path@).drop_last(),
                NodeModel::Folder(FolderModel { name: path_segments(path@).last(), metadata: seq![], children: seq![] }),
            ) {
                Ok(g) => r is Ok && final(self)@ == g,
                Err(e) => r == Err::<(), VFSError>(e) && final(self)@ == old(self)@,
            },
    {
        if !check_absolute(path) {
            return Err(VFSError::PathError { message: path.to_owned() });
        }
        if split_path(path).len() == 0 {
            return Err(VFSError::FolderAlreadyExists);
        }
        let (parent, name) = Self::split_parent(path);
        let folder = VFSFolder { name, metadata: String::new(), children: Vec::new() };
        proof {
            assert(folder_view(&folder).children =~= seq![]);
            reveal_with_fuel(folder_wf, 1);
        }
        assert(strings_view(parent@).subrange(0, parent.len() as int) =~= strings_view(parent@));
        insert_rec(&mut self.root, &parent, 0, VFSNode::Folder(folder))
    }

    /// Deletes the node at `path`, with everything below it; the root stays.
    pub fn remove_node(&mut self, path: &str) -> (r: Result<(), VFSError>)
        requires
            old(self).wf(),
        ensures
            final(self).wf(),
            !is_absolute(path@) ==> (r matches Err(VFSError::PathError { .. })) && final(self)@ == old(self)@,
            is_absolute(path@) && path_segments(path@).len() == 0 ==> (r matches Err(VFSError::NodeNotRemove { .. }))
                && final(self)@ == old(self)@,
            is_absolute(path@) && path_segments(path@).len() > 0 ==> match remove_at(old(self)@, path_segments(path@)) {
                Ok(g) => r is Ok && final(self)@ == g,
                Err(e) => r == Err::<(), VFSError>(e) && final(self)@ == old(self)@,
            },
    {
        if !check_absolute(path) {
            return Err(VFSError::PathError { message: path.to_owned() });
        }
        let segs = split_path(path);
        if segs.len() == 0 {
            return Err(VFSError::NodeNotRemove { message: path.to_owned() });
        }
        assert(strings_view(segs@).subrange(0, segs.len() as int) =~= strings_view(segs@));
        remove_rec(&mut self.root, &segs, 0)
    }
}

proof fn lemma_lookup_concat(d: FolderModel, a: Seq<Seq<char>>, b: Seq<Seq<char>>, q: FolderModel)
    requires
        lookup(d, a) == Some(NodeModel::Folder(q)),
    ensures
        lookup(d, a + b) == lookup(q, b),
    decreases a.len(),
{
    if a.len() == 0 {
        assert(a + b =~= b);
    } else {
        assert((a + b)[0] == a[0]);
        let c = d.children[child_index(d.children, a[0])];
        if a.len() == 1 {
            if b.len() > 0 {
                assert((a + b).drop_first() =~= b);
            }
        } else {
            let g = c->Folder_0;
            assert((a + b).drop_first() =~= a.drop_first() + b);
            lemma_lookup_concat(g, a.drop_first(), b, q);
        }
    }
}

proof fn lemma_lookup_no_folder(d: FolderModel, a: Seq<Seq<char>>, b: Seq<Seq<char>>)
    requires
        !(lookup(d, a) matches Some(NodeModel::Folder(_))),
        b.len() > 0,
    ensures
        lookup(d, a + b) is None,
    decreases a.len(),
{
    assert((a + b)[0] == a[0]);
    if has_child(d.children, a[0]) && a.len() > 1 {
        let c = d.children[child_index(d.children, a[0])];
        assert((a + b).drop_first() =~= a.drop_first() + b);
        if let NodeModel::Folder(g) = c {
            lemma_lookup_no_folder(g, a.drop_first(), b);
        }
    }
}

proof fn lemma_insert_at(d: FolderModel, path: Seq<Seq<char>>, node: NodeModel)
    requires
        folder_wf(d),
        node is Folder ==> folder_wf(node->Folder_0),
        insert_at(d, path, node) is Ok,
    ensures
        ({
            let g = insert_at(d, path, node)->Ok_0;
            &&& folder_wf(g)
            &&& g.name == d.name
            &&& lookup(g, path) matches Some(NodeModel::Folder(q)) && has_child(q.children, node.name())
                && q.children[child_index(q.children, node.name())] == node
        }),
    decreases path.len(),
{
    let g = insert_at(d, path, node)->Ok_0;
    if path.len() == 0 {
        lemma_push_wf(d, node);
        lemma_found_is_chosen(g.children, node.name(), d.children.len() as int);
    } else {
        let j = child_index(d.children, path[0]);
        let c = d.children[j]->Folder_0;
        lemma_child_wf(d, j);
        lemma_insert_at(c, path.drop_first(), node);
        let c2 = insert_at(c, path.drop_first(), node)->Ok_0;
        lemma_update_wf(d, j, c2);
        lemma_found_is_chosen(g.children, path[0], j);
        if path.len() == 1 {
            assert(path.drop_first().len() == 0);
        }
    }
}

proof fn lemma_remove_at(d: FolderModel, path: Seq<Seq<char>>)
    requires
        folder_wf(d),
        remove_at(d, path) is Ok,
    ensures
        ({
            let g = remove_at(d, path)->Ok_0;
            &&& folder_wf(g)
            &&& g.name == d.name
            &&& lookup(g, path.drop_last()) matches Some(NodeModel::Folder(q)) && !has_child(q.children, path.last())
        }),
    decreases path.len(),
{
    let g = remove_at(d, path)->Ok_0;
    let j = child_index(d.children, path[0]);
    if path.len() == 1 {
        lemma_remove_wf(d, j);
        assert(path.drop_last().len() == 0);
        if has_child(g.children, path[0]) {
            let k = child_index(g.children, path[0]);
            let k2 = if k < j { k } else { k + 1 };
            assert(g.children[k] == d.children[k2]);
        }
    } else {
        let c = d.children[j]->Folder_0;
        lemma_child_wf(d, j);
        let rest = path.drop_first();
        lemma_remove_at(c, rest);
        let c2 = remove_at(c, rest)->Ok_0;
        lemma_update_wf(d, j, c2);
        let pre = path.drop_last();
        assert(pre[0] == path[0]);
        lemma_found_is_chosen(g.children, path[0], j);
        assert(rest.last() == path.last());
        if path.len() == 2 {
            assert(rest.drop_last().len() == 0);
        } else {
            assert(pre.drop_first() =~= rest.drop_last());
        }
    }
}

/// Adding a node under a name that a node of the folder already carries fails with the
/// matching "already exists" error (and, by the contracts of the adding functions,
/// leaves the tree as it was).
pub proof fn law_occupied_name_is_refused(root: FolderModel, path: Seq<Seq<char>>, node: NodeModel)
    requires
        folder_wf(root),
        lookup(root, path) matches Some(NodeModel::Folder(p)) && has_child(p.children, node.name()),
    ensures
        insert_at(root, path, node) == Err::<FolderModel, VFSError>(already_exists(node)),
    decreases path.len(),
{
    if path.len() > 0 {
        let j = child_index(root.children, path[0]);
        let c = root.children[j]->Folder_0;
        if path.len() == 1 {
            assert(path.drop_first().len() == 0);
        }
        law_occupied_name_is_refused(c, path.drop_first(), node);
    }
}

/// A file added to the folder at `path` is then found, equal to what was added, at the
/// path that extends `path` by its name.
pub proof fn law_added_file_resolves(root: FolderModel, path: Seq<Seq<char>>, file: FileModel)
    requires
        folder_wf(root),
        insert_at(root, path, NodeModel::File(file)) is Ok,
    ensures
        resolve_file(insert_at(root, path, NodeModel::File(file))->Ok_0, path.push(file.name)) == Ok::<FileModel, VFSError>(file),
{
    lemma_insert_at(root, path, NodeModel::File(file));
    assert(path.push(file.name).drop_last() =~= path);
}

/// A removed node is gone: a file at its path is `FileNotFound`, and any path below it
/// is `NodeNotFound`.
pub proof fn law_removed_node_is_gone(root: FolderModel, path: Seq<Seq<char>>, below: Seq<Seq<char>>)
    requires
        folder_wf(root),
        remove_at(root, path) is Ok,
        below.len() > 0,
    ensures
        resolve_file(remove_at(root, path)->Ok_0, path) == Err::<FileModel, VFSError>(VFSError::FileNotFound),
        resolve_folder(remove_at(root, path)->Ok_0, path) == Err::<FolderModel, VFSError>(VFSError::FolderNotFound),
        resolve_file(remove_at(root, path)->Ok_0, path + below) == Err::<FileModel, VFSError>(VFSError::NodeNotFound),
{
    lemma_remove_at(root, path);
    let g = remove_at(root, path)->Ok_0;
    let q = lookup(g, path.drop_last())->Some_0->Folder_0;
    let full = path + below;
    assert(path =~= path.drop_last().push(path.last()));
    lemma_lookup_concat(g, path.drop_last(), seq![path.last()], q);
    assert(path.drop_last() + seq![path.last()] =~= path);
    assert(lookup(q, seq![path.last()]) is None);
    assert(full.drop_last() =~= path + below.drop_last());
    if below.len() == 1 {
        assert(full.drop_last() =~= path);
    } else {
        lemma_lookup_no_folder(g, path, below.drop_last());
    }
}

} // verus!
