use vstd::prelude::*;
use crate::file::{
    all_present, blob_views, chunks, content_hash, copy_range, decode, decode_error_view, decode_spec, law_round_trip,
    law_tampered_part_is_named, manifest_for, part_name, part_size_spec, stores, CompositeFile, DecodeError, DecodeFault,
    FilePart, ManifestModel, PartModel,
};
use crate::cloud::{entry_name, output_name};
use crate::snapshot::{lemma_split, prepend};
use crate::wire::{
    get_str, get_str_spec, get_u64, get_u64_spec, lemma_get_str, lemma_get_u64, lemma_le_bytes_len, pow256, push_all,
    put_str, put_u64, str_bytes, str_fits, u64_bytes,
};

verus! {

/// Raw bytes as their count followed by the bytes.
pub open spec fn blob_bytes(h: Seq<u8>) -> Seq<u8> {
    u64_bytes(h.len()) + h
}

pub open spec fn part_bytes(p: PartModel) -> Seq<u8> {
    blob_bytes(p.hash) + str_bytes(p.name)
}

pub open spec fn parts_bytes(ps: Seq<PartModel>) -> Seq<u8>
    decreases ps.len(),
{
    if ps.len() == 0 {
        seq![]
    } else {
        part_bytes(ps[0]) + parts_bytes(ps.drop_first())
    }
}

pub open spec fn flag_value(b: bool) -> nat {
    if b {
        1
    } else {
        0
    }
}

/// A manifest as stored: original name, extension, total length, whether the parts are
/// packed (1) or not (0), transfer id, then the parts (hash and stored name of each)
/// after their count.
pub open spec fn manifest_bytes(m: ManifestModel) -> Seq<u8> {
    str_bytes(m.filename) + str_bytes(m.extension) + u64_bytes(m.file_len) + u64_bytes(flag_value(m.compressed))
        + str_bytes(m.uuid) + u64_bytes(m.parts.len()) + parts_bytes(m.parts)
}

/// Every string, count and length of the manifest fits the format and the machine.
pub open spec fn manifest_fits(m: ManifestModel) -> bool {
    &&& str_fits(m.filename)
    &&& str_fits(m.extension)
    &&& str_fits(m.uuid)
    &&& m.file_len <= usize::MAX
    &&& m.parts.len() < pow256(8)
    &&& forall|i: int| 0 <= i < m.parts.len() ==> str_fits((#[trigger] m.parts[i]).name) && m.parts[i].hash.len() < pow256(8)
}

pub open spec fn get_blob_spec(b: Seq<u8>, pos: int) -> Option<(Seq<u8>, int)> {
    match get_u64_spec(b, pos) {
        None => None,
        Some(n) => if pos + 8 + n <= b.len() {
            Some((b.subrange(pos + 8, pos + 8 + n), pos + 8 + n))
        } else {
            None
        },
    }
}

pub open spec fn get_part_spec(b: Seq<u8>, pos: int) -> Option<(PartModel, int)> {
    match get_blob_spec(b, pos) {
        None => None,
        Some((hash, p)) => match get_str_spec(b, p) {
            None => None,
            Some((name, e)) => Some((PartModel { hash, name }, e)),
        },
    }
}

pub open spec fn get_parts_spec(b: Seq<u8>, pos: int, k: nat) -> Option<(Seq<PartModel>, int)>
    decreases k,
{
    if k == 0 {
        Some((seq![], pos))
    } else {
        match get_part_spec(b, pos) {
            None => None,
            Some((p, q)) => match get_parts_spec(b, q, (k - 1) as nat) {
                None => None,
                Some((rest, e)) => Some((seq![p] + rest, e)),
            },
        }
    }
}

/// The manifest that the bytes `b` hold, where they hold exactly one.
pub open spec fn parse_manifest_spec(b: Seq<u8>) -> Option<ManifestModel> {
    match get_str_spec(b, 0) {
        None => None,
        Some((filename, p1)) => match get_str_spec(b, p1) {
            None => None,
            Some((extension, p2)) => match get_u64_spec(b, p2) {
                None => None,
                Some(file_len) => match get_u64_spec(b, p2 + 8) {
                    None => None,
                    Some(flag) => match get_str_spec(b, p2 + 16) {
                        None => None,
                        Some((uuid, p3)) => match get_u64_spec(b, p3) {
                            None => None,
                            Some(k) => match get_parts_spec(b, p3 + 8, k) {
                                None => None,
                                Some((parts, e)) => if e == b.len() && file_len <= usize::MAX && flag <= 1 {
                                    Some(ManifestModel { filename, extension, file_len, parts, uuid, compressed: flag == 1 })
                                } else {
                                    None
                                },
                            },
                        },
                    },
                },
            },
        },
    }
}

proof fn lemma_parts(b: Seq<u8>, pos: int, ps: Seq<PartModel>)
    requires
        forall|i: int| 0 <= i < ps.len() ==> str_fits((#[trigger] ps[i]).name) && ps[i].hash.len() < pow256(8),
        0 <= pos,
        pos + parts_bytes(ps).len() <= b.len(),
        b.subrange(pos, pos + parts_bytes(ps).len()) == parts_bytes(ps),
    ensures
        get_parts_spec(b, pos, ps.len()) == Some((ps, pos + parts_bytes(ps).len())),
    decreases ps.len(),
{
    if ps.len() > 0 {
        let p = ps[0];
        let rest = ps.drop_first();
        lemma_le_bytes_len(p.hash.len(), 8);
        lemma_split(b, pos, part_bytes(p), parts_bytes(rest));
        lemma_split(b, pos, blob_bytes(p.hash), str_bytes(p.name));
        lemma_split(b, pos, u64_bytes(p.hash.len()), p.hash);
        lemma_get_u64(b, pos, p.hash.len());
        lemma_get_str(b, pos + 8 + p.hash.len(), p.name);
        assert forall|i: int| 0 <= i < rest.len() implies str_fits((#[trigger] rest[i]).name) && rest[i].hash.len() < pow256(8) by {
            assert(rest[i] == ps[i + 1]);
        }
        lemma_parts(b, pos + part_bytes(p).len(), rest);
        assert(seq![p] + rest =~= ps);
        assert((ps.len() - 1) as nat == rest.len());
    }
}

/// Reading back a stored manifest gives the same manifest.
#[verifier::rlimit(60)]
pub proof fn law_manifest_round_trip(m: ManifestModel)
    requires
        manifest_fits(m),
    ensures
        parse_manifest_spec(manifest_bytes(m)) == Some(m),
{
    let b = manifest_bytes(m);
    let a = str_bytes(m.filename);
    let x = str_bytes(m.extension);
    let l = u64_bytes(m.file_len);
    let g = u64_bytes(flag_value(m.compressed));
    let u = str_bytes(m.uuid);
    let c = u64_bytes(m.parts.len());
    let p = parts_bytes(m.parts);
    lemma_le_bytes_len(m.file_len, 8);
    lemma_le_bytes_len(flag_value(m.compressed), 8);
    lemma_le_bytes_len(m.parts.len(), 8);
    assert(b.subrange(0, b.len() as int) =~= b);
    lemma_split(b, 0, a + x + l + g + u + c, p);
    lemma_split(b, 0, a + x + l + g + u, c);
    lemma_split(b, 0, a + x + l + g, u);
    lemma_split(b, 0, a + x + l, g);
    lemma_split(b, 0, a + x, l);
    lemma_split(b, 0, a, x);
    lemma_get_str(b, 0, m.filename);
    lemma_get_str(b, a.len() as int, m.extension);
    assert(m.file_len < pow256(8) && flag_value(m.compressed) < pow256(8)) by {
        reveal_with_fuel(pow256, 9);
    }
    lemma_get_u64(b, (a.len() + x.len()) as int, m.file_len);
    lemma_get_u64(b, (a.len() + x.len() + 8) as int, flag_value(m.compressed));
    lemma_get_str(b, (a.len() + x.len() + 16) as int, m.uuid);
    lemma_get_u64(b, (a.len() + x.len() + 16 + u.len()) as int, m.parts.len());
    lemma_parts(b, (a.len() + x.len() + 16 + u.len() + 8) as int, m.parts);
}

proof fn lemma_parts_push(ps: Seq<PartModel>, x: PartModel)
    ensures
        parts_bytes(ps.push(x)) == parts_bytes(ps) + part_bytes(x),
    decreases ps.len(),
{
    if ps.len() == 0 {
        assert(ps.push(x).drop_first() =~= seq![]);
        assert(parts_bytes(ps.push(x)) =~= part_bytes(x) + parts_bytes(seq![]));
        assert(parts_bytes(ps.push(x)) =~= parts_bytes(ps) + part_bytes(x));
    } else {
        assert(ps.push(x).drop_first() =~= ps.drop_first().push(x));
        lemma_parts_push(ps.drop_first(), x);
        assert(parts_bytes(ps.push(x)) =~= parts_bytes(ps) + part_bytes(x));
    }
}

/// The stored form of `manifest`.
pub fn encode_manifest(manifest: &CompositeFile) -> (r: Vec<u8>)
    ensures
        r@ == manifest_bytes(manifest@),
{
    let mut out: Vec<u8> = Vec::new();
    put_str(&mut out, &manifest.filename);
    put_str(&mut out, &manifest.file_extension);
    put_u64(&mut out, manifest.file_len as u64);
    put_u64(&mut out, if manifest.compressed { 1 } else { 0 });
    put_str(&mut out, &manifest.uuid_parts);
    put_u64(&mut out, manifest.parts.len() as u64);
    let ghost head = out@;
    let ghost ps = manifest@.parts;
    let mut i: usize = 0;
    assert(ps.subrange(0, 0) =~= seq![]);
    assert(head + parts_bytes(seq![]) =~= head);
    while i < manifest.parts.len()
        invariant
            ps == manifest@.parts,
            i <= manifest.parts.len(),
            out@ == head + parts_bytes(ps.subrange(0, i as int)),
        decreases manifest.parts.len() - i,
    {
        let part = &manifest.parts[i];
        proof {
            assert(ps[i as int] == part@);
            assert(ps.subrange(0, i + 1) =~= ps.subrange(0, i as int).push(ps[i as int]));
            lemma_parts_push(ps.subrange(0, i as int), ps[i as int]);
        }
        put_u64(&mut out, part.hash_bytes.len() as u64);
        push_all(&mut out, &part.hash_bytes);
        put_str(&mut out, &part.part_file_name);
        i = i + 1;
        assert(out@ =~= head + parts_bytes(ps.subrange(0, i as int)));
    }
    assert(ps.subrange(0, i as int) =~= ps);
    assert(out@ =~= manifest_bytes(manifest@));
    out
}

fn get_blob(b: &Vec<u8>, pos: usize) -> (r: Option<(Vec<u8>, usize)>)
    ensures
        match get_blob_spec(b@, pos as int) {
            Some((h, e)) => r matches Some((v, e2)) && v@ == h && e2 == e,
            None => r is None,
        },
{
    let n = match get_u64(b, pos) {
        Some(n) => n,
        None => return None,
    };
    let room = b.len() - pos - 8;
    if n > room as u64 {
        return None;
    }
    let n = n as usize;
    Some((copy_range(b, pos + 8, pos + 8 + n), pos + 8 + n))
}

/// Reads a stored manifest; `ManifestCorrupt` where the bytes are not exactly one.
pub fn decode_manifest(b: &Vec<u8>) -> (r: Result<CompositeFile, DecodeError>)
    ensures
        match parse_manifest_spec(b@) {
            Some(m) => r matches Ok(c) && c@ == m,
            None => r == Err::<CompositeFile, DecodeError>(DecodeError::ManifestCorrupt),
        },
{
    let n = b.len();
    assert(b@.len() == n);
    let (filename, p1) = match get_str(b, 0) { Some(x) => x, None => return Err(DecodeError::ManifestCorrupt) };
    let (file_extension, p2) = match get_str(b, p1) { Some(x) => x, None => return Err(DecodeError::ManifestCorrupt) };
    let file_len = match get_u64(b, p2) { Some(x) => x, None => return Err(DecodeError::ManifestCorrupt) };
    assert(get_u64_spec(b@, p2 as int) is Some);
    assert(p2 + 8 <= b@.len());
    let flag = match get_u64(b, p2 + 8) { Some(x) => x, None => return Err(DecodeError::ManifestCorrupt) };
    assert(get_u64_spec(b@, p2 + 8) is Some);
    assert(p2 + 16 <= b@.len());
    let (uuid_parts, p3) = match get_str(b, p2 + 16) { Some(x) => x, None => return Err(DecodeError::ManifestCorrupt) };
    let k = match get_u64(b, p3) { Some(x) => x, None => return Err(DecodeError::ManifestCorrupt) };
    assert(get_u64_spec(b@, p3 as int) is Some);
    assert(p3 + 8 <= b@.len());
    let ghost spec_all = get_parts_spec(b@, p3 + 8, k as nat);
    let ghost whole = match spec_all {
        None => None,
        Some((ps, e)) => if e == b.len() && file_len <= usize::MAX && flag <= 1 {
            Some(ManifestModel { filename: filename@, extension: file_extension@, file_len: file_len as nat, parts: ps, uuid: uuid_parts@, compressed: flag == 1 })
        } else {
            None
        },
    };
    assert(parse_manifest_spec(b@) == whole);
    let mut parts: Vec<FilePart> = Vec::new();
    let mut p: usize = p3 + 8;
    let mut i: u64 = 0;
    assert(prepend(seq![], spec_all) == spec_all) by {
        match spec_all {
            Some((v, e)) => assert(Seq::<PartModel>::empty() + v =~= v),
            None => {},
        }
    }
    assert(parts@.map_values(|q: FilePart| q@) =~= seq![]);
    while i < k
        invariant
            i <= k,
            spec_all == get_parts_spec(b@, p3 + 8, k as nat),
            parse_manifest_spec(b@) == whole,
            whole == match spec_all {
                None => None,
                Some((ps, e)) => if e == b.len() && file_len <= usize::MAX && flag <= 1 {
                    Some(ManifestModel { filename: filename@, extension: file_extension@, file_len: file_len as nat, parts: ps, uuid: uuid_parts@, compressed: flag == 1 })
                } else {
                    None
                },
            },
            spec_all == prepend(parts@.map_values(|q: FilePart| q@), get_parts_spec(b@, p as int, (k - i) as nat)),
        decreases k - i,
    {
        let (hash_bytes, q) = match get_blob(b, p) { Some(x) => x, None => return Err(DecodeError::ManifestCorrupt) };
        let (part_file_name, e) = match get_str(b, q) { Some(x) => x, None => return Err(DecodeError::ManifestCorrupt) };
        let part = FilePart { hash_bytes, part_file_name };
        proof {
            let a = parts@.map_values(|q: FilePart| q@);
            assert(parts@.push(part).map_values(|q: FilePart| q@) =~= a.push(part@));
            match get_parts_spec(b@, e as int, (k - i - 1) as nat) {
                Some((rest, e2)) => assert(a + (seq![part@] + rest) =~= a.push(part@) + rest),
                None => {},
            }
        }
        parts.push(part);
        p = e;
        i = i + 1;
    }
    assert(parts@.map_values(|q: FilePart| q@) + seq![] =~= parts@.map_values(|q: FilePart| q@));
    if p != b.len() || file_len > usize::MAX as u64 || flag > 1 {
        return Err(DecodeError::ManifestCorrupt);
    }
    Ok(CompositeFile { filename, file_extension, file_len: file_len as usize, parts, uuid_parts, compressed: flag == 1 })
}

/// What reassembling from the stored manifest `mb` and the stored parts `blobs` gives:
/// the name of the file to write and its bytes.
pub open spec fn reassemble_spec(mb: Seq<u8>, blobs: Seq<Option<Seq<u8>>>) -> Result<(Seq<char>, Seq<u8>), DecodeFault> {
    match parse_manifest_spec(mb) {
        None => Err(DecodeFault::Corrupt),
        Some(m) => if blobs.len() != m.parts.len() {
            Err(DecodeFault::Corrupt)
        } else {
            match decode_spec(m, blobs) {
                Ok(d) => Ok((entry_name(m.filename, m.extension), d)),
                Err(f) => Err(f),
            }
        },
    }
}

/// Reads the stored manifest `manifest_bytes` and puts its file together from `blobs`,
/// the stored parts in manifest order (`None` for one not at hand); returns the name of
/// the file to write and its bytes. Nothing is returned unless every part checks out.
pub fn reassemble(manifest_bytes: &Vec<u8>, blobs: &Vec<Option<Vec<u8>>>) -> (r: Result<(String, Vec<u8>), DecodeError>)
    ensures
        match r {
            Ok((n, d)) => reassemble_spec(manifest_bytes@, blob_views(blobs@)) == Ok::<(Seq<char>, Seq<u8>), DecodeFault>((n@, d@)),
            Err(e) => reassemble_spec(manifest_bytes@, blob_views(blobs@)) == Err::<(Seq<char>, Seq<u8>), DecodeFault>(decode_error_view(e)),
        },
{
    let manifest = match decode_manifest(manifest_bytes) {
        Ok(m) => m,
        Err(e) => return Err(e),
    };
    if blobs.len() != manifest.parts.len() {
        return Err(DecodeError::ManifestCorrupt);
    }
    match decode(&manifest, blobs) {
        Ok(d) => Ok((output_name(&manifest), d)),
        Err(e) => Err(e),
    }
}

/// Storing the manifest of an encoded file, then reassembling from the stored manifest
/// and the stored parts, gives back the file's bytes under its name.
pub proof fn law_stored_round_trip(
    data: Seq<u8>,
    filename: Seq<char>,
    extension: Seq<char>,
    tid: Seq<char>,
    count: Option<u8>,
    size: Option<usize>,
    compressed: bool,
    stored: Seq<Seq<u8>>,
)
    requires
        part_size_spec(data.len() as int, count, size) is Ok,
        stores(stored, chunks(data, part_size_spec(data.len() as int, count, size)->Ok_0), compressed),
        manifest_fits(manifest_for(data, filename, extension, tid, stored, compressed)),
    ensures
        reassemble_spec(manifest_bytes(manifest_for(data, filename, extension, tid, stored, compressed)), all_present(stored))
            == Ok::<(Seq<char>, Seq<u8>), DecodeFault>((entry_name(filename, extension), data)),
{
    law_manifest_round_trip(manifest_for(data, filename, extension, tid, stored, compressed));
    law_round_trip(data, filename, extension, tid, count, size, compressed, stored);
}

/// Reassembling from a stored manifest and parts of which one was replaced by bytes with
/// another hash fails with a hash mismatch that names that part, and gives no file.
pub proof fn law_stored_tamper_is_named(
    data: Seq<u8>,
    filename: Seq<char>,
    extension: Seq<char>,
    tid: Seq<char>,
    s: int,
    compressed: bool,
    stored: Seq<Seq<u8>>,
    k: int,
    t: Seq<u8>,
)
    requires
        s > 0,
        stores(stored, chunks(data, s), compressed),
        manifest_fits(manifest_for(data, filename, extension, tid, stored, compressed)),
        0 <= k < stored.len(),
        content_hash(t) != content_hash(stored[k]),
    ensures
        reassemble_spec(
            manifest_bytes(manifest_for(data, filename, extension, tid, stored, compressed)),
            all_present(stored).update(k, Some(t)),
        ) == Err::<(Seq<char>, Seq<u8>), DecodeFault>(DecodeFault::Mismatch(part_name(tid, k as nat))),
{
    law_manifest_round_trip(manifest_for(data, filename, extension, tid, stored, compressed));
    law_tampered_part_is_named(data, filename, extension, tid, s, compressed, stored, k, t);
}

} // verus!
