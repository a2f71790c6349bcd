use vstd::prelude::*;
use crate::rle::{expand, rle_compress, rle_expand};

verus! {

/// Part size used when the options give neither a part count nor a part size.
pub const DEFAULT_PART_SIZE: usize = 1048576;

pub const FNV_OFFSET: u64 = 0xcbf29ce484222325;

pub const FNV_PRIME: u64 = 0x100000001b3;

/// One stored slice of a file: the hash of its stored bytes and its stored name.
#[derive(Debug, PartialEq, Eq)]
pub struct FilePart {
    pub hash_bytes: Vec<u8>,
    pub part_file_name: String,
}

/// The manifest of a chunked file: what is needed to put it together again.
#[derive(Debug, PartialEq, Eq)]
pub struct CompositeFile {
    pub filename: String,
    pub file_extension: String,
    pub file_len: usize,
    pub parts: Vec<FilePart>,
    pub uuid_parts: String,
    pub compressed: bool,
}

/// How a file is cut: by part count or by part size (not both), or by the default size;
/// whether its parts are stored run-length packed; and where the parts are written.
#[derive(Debug, PartialEq, Eq)]
pub struct Options {
    pub path_for_save: Option<String>,
    pub count_parts: Option<u8>,
    pub part_size: Option<usize>,
    pub compressed: Option<bool>,
}

/// Why a file could not be cut into parts.
#[derive(Debug, PartialEq, Eq)]
pub enum EncodeErrors {
    InvalidOptions,
    SourceNotFound,
    IOFailure,
    EmptySource,
}

/// Why a file could not be put together from its parts.
#[derive(Debug, PartialEq, Eq)]
pub enum DecodeError {
    ManifestNotFound,
    ManifestCorrupt,
    PartMissing(String),
    HashMismatch(String),
}

pub struct PartModel {
    pub hash: Seq<u8>,
    pub name: Seq<char>,
}

pub struct ManifestModel {
    pub filename: Seq<char>,
    pub extension: Seq<char>,
    pub file_len: nat,
    pub parts: Seq<PartModel>,
    pub uuid: Seq<char>,
    pub compressed: bool,
}

impl FilePart {
    pub open spec fn view(&self) -> PartModel {
        PartModel { hash: self.hash_bytes@, name: self.part_file_name@ }
    }
}

impl CompositeFile {
    pub open spec fn view(&self) -> ManifestModel {
        ManifestModel {
            filename: self.filename@,
            extension: self.file_extension@,
            file_len: self.file_len as nat,
            parts: self.parts@.map_values(|p: FilePart| p@),
            uuid: self.uuid_parts@,
            compressed: self.compressed,
        }
    }
}

/// FNV-1a, 64 bits, over `s`.
pub open spec fn fnv1a(s: Seq<u8>) -> u64
    decreases s.len(),
{
    if s.len() == 0 {
        FNV_OFFSET
    } else {
        (((fnv1a(s.drop_last()) ^ (s.last() as u64)) as nat * FNV_PRIME as nat) % 0x1_0000_0000_0000_0000) as u64
    }
}

/// The `n` low bytes of `x`, least significant first.
pub open spec fn le_bytes(x: nat, n: nat) -> Seq<u8>
    decreases n,
{
    if n == 0 {
        seq![]
    } else {
        seq![(x % 256) as u8] + le_bytes(x / 256, (n - 1) as nat)
    }
}

/// The integrity hash recorded for stored bytes `s`.
pub open spec fn content_hash(s: Seq<u8>) -> Seq<u8> {
    le_bytes(fnv1a(s) as nat, 8)
}

/// Computes the integrity hash of `data`.
pub fn hash_bytes(data: &Vec<u8>) -> (r: Vec<u8>)
    ensures
        r@ == content_hash(data@),
{
    let mut h: u64 = FNV_OFFSET;
    let mut i: usize = 0;
    while i < data.len()
        invariant
            i <= data.len(),
            h == fnv1a(data@.subrange(0, i as int)),
        decreases data.len() - i,
    {
        assert(data@.subrange(0, i + 1).drop_last() =~= data@.subrange(0, i as int));
        h = (h ^ (data[i] as u64)).wrapping_mul(FNV_PRIME);
        i = i + 1;
    }
    assert(data@.subrange(0, data.len() as int) =~= data@);
    let mut out: Vec<u8> = Vec::new();
    crate::wire::put_u64(&mut out, h);
    assert(out@ =~= content_hash(data@));
    out
}

pub open spec fn ceil_div(a: int, b: int) -> int {
    (a + b - 1) / b
}

/// The part size that `options` give for a source of `len` bytes, or why there is none.
pub open spec fn part_size_spec(len: int, count: Option<u8>, size: Option<usize>) -> Result<int, EncodeErrors> {
    if count is Some && size is Some {
        Err(EncodeErrors::InvalidOptions)
    } else if (count is Some && count->Some_0 == 0) || (size is Some && size->Some_0 == 0) {
        Err(EncodeErrors::InvalidOptions)
    } else if len == 0 {
        Err(EncodeErrors::EmptySource)
    } else if count is Some {
        Ok(ceil_div(len, count->Some_0 as int))
    } else if size is Some {
        Ok(size->Some_0 as int)
    } else {
        Ok(DEFAULT_PART_SIZE as int)
    }
}

proof fn lemma_ceil_div(n: int, c: int)
    requires
        n > 0,
        c > 0,
    ensures
        ceil_div(n, c) == (n - 1) / c + 1,
        0 < ceil_div(n, c) <= n,
{
    let x = n - 1;
    vstd::arithmetic::div_mod::lemma_fundamental_div_mod(x, c);
    let q = x / c;
    let r = x % c;
    assert(0 <= r < c);
    assert(x + c == c * (q + 1) + r) by (nonlinear_arith)
        requires
            x == c * q + r,
    ;
    vstd::arithmetic::div_mod::lemma_div_multiples_vanish_fancy(q + 1, r, c);
    assert(q <= x) by (nonlinear_arith)
        requires
            x >= 0,
            c > 0,
            x == c * q + r,
            0 <= r,
    ;
    assert(q >= 0) by (nonlinear_arith)
        requires
            x >= 0,
            c > 0,
            q == x / c,
    ;
}

/// Resolves the part size for a source of `len` bytes.
pub fn effective_part_size(len: usize, options: &Options) -> (r: Result<usize, EncodeErrors>)
    ensures
        match part_size_spec(len as int, options.count_parts, options.part_size) {
            Ok(s) => r == Ok::<usize, EncodeErrors>(s as usize) && 0 < s <= usize::MAX,
            Err(e) => r == Err::<usize, EncodeErrors>(e),
        },
{
    match (options.count_parts, options.part_size) {
        (Some(_), Some(_)) => Err(EncodeErrors::InvalidOptions),
        (Some(c), None) => {
            if c == 0 {
                Err(EncodeErrors::InvalidOptions)
            } else if len == 0 {
                Err(EncodeErrors::EmptySource)
            } else {
                let c = c as usize;
                let s = (len - 1) / c + 1;
                proof {
                    lemma_ceil_div(len as int, c as int);
                }
                Ok(s)
            }
        },
        (None, Some(s)) => {
            if s == 0 {
                Err(EncodeErrors::InvalidOptions)
            } else if len == 0 {
                Err(EncodeErrors::EmptySource)
            } else {
                Ok(s)
            }
        },
        (None, None) => {
            if len == 0 {
                Err(EncodeErrors::EmptySource)
            } else {
                Ok(DEFAULT_PART_SIZE)
            }
        },
    }
}

/// `data` cut, front to back, into slices of `s` bytes; the last one may be shorter.
pub open spec fn chunks(data: Seq<u8>, s: int) -> Seq<Seq<u8>>
    decreases data.len(),
{
    if data.len() == 0 || s <= 0 {
        seq![]
    } else if data.len() <= s {
        seq![data]
    } else {
        seq![data.subrange(0, s)] + chunks(data.subrange(s, data.len() as int), s)
    }
}

/// The slices laid end to end.
pub open spec fn concat_all(p: Seq<Seq<u8>>) -> Seq<u8>
    decreases p.len(),
{
    if p.len() == 0 {
        seq![]
    } else {
        p[0] + concat_all(p.drop_first())
    }
}

pub open spec fn bytes_views(v: Seq<Vec<u8>>) -> Seq<Seq<u8>> {
    v.map_values(|b: Vec<u8>| b@)
}

/// Copies `data[from..to]`.
pub fn copy_range(data: &Vec<u8>, from: usize, to: usize) -> (r: Vec<u8>)
    requires
        from <= to <= data.len(),
    ensures
        r@ == data@.subrange(from as int, to as int),
{
    let mut r: Vec<u8> = Vec::new();
    let mut i: usize = from;
    while i < to
        invariant
            from <= i <= to <= data.len(),
            r@ == data@.subrange(from as int, i as int),
        decreases to - i,
    {
        r.push(data[i]);
        i = i + 1;
        assert(r@ =~= data@.subrange(from as int, i as int));
    }
    r
}

/// Cuts `data` into slices of `s` bytes.
pub fn split_parts(data: &Vec<u8>, s: usize) -> (r: Vec<Vec<u8>>)
    requires
        s > 0,
    ensures
        bytes_views(r@) == chunks(data@, s as int),
{
    let mut r: Vec<Vec<u8>> = Vec::new();
    let mut start: usize = 0;
    let n = data.len();
    assert(data@.subrange(0, n as int) =~= data@);
    while start < n
        invariant
            n == data.len(),
            s > 0,
            start <= n,
            bytes_views(r@) + chunks(data@.subrange(start as int, n as int), s as int) == chunks(data@, s as int),
        decreases n - start,
    {
        let ghost rest = data@.subrange(start as int, n as int);
        let end = if n - start > s { start + s } else { n };
        let part = copy_range(data, start, end);
        proof {
            assert(bytes_views(r@.push(part)) =~= bytes_views(r@).push(part@));
            if n - start > s {
                assert(rest.subrange(0, s as int) =~= part@);
                assert(rest.subrange(s as int, rest.len() as int) =~= data@.subrange(end as int, n as int));
            } else {
                assert(rest =~= part@);
                assert(data@.subrange(end as int, n as int) =~= seq![]);
            }
            assert(bytes_views(r@).push(part@) + chunks(data@.subrange(end as int, n as int), s as int)
                =~= bytes_views(r@) + chunks(rest, s as int));
        }
        r.push(part);
        start = end;
    }
    assert(chunks(data@.subrange(start as int, n as int), s as int) =~= seq![]);
    assert(bytes_views(r@) + seq![] =~= bytes_views(r@));
    r
}

pub open spec fn digit_char(d: int) -> char {
    if d == 0 { '0' }
    else if d == 1 { '1' }
    else if d == 2 { '2' }
    else if d == 3 { '3' }
    else if d == 4 { '4' }
    else if d == 5 { '5' }
    else if d == 6 { '6' }
    else if d == 7 { '7' }
    else if d == 8 { '8' }
    else { '9' }
}

/// `n` written in decimal.
pub open spec fn decimal(n: nat) -> Seq<char>
    decreases n,
{
    if n < 10 {
        seq![digit_char(n as int)]
    } else {
        decimal(n / 10).push(digit_char((n % 10) as int))
    }
}

/// The stored name of part `i` of the transfer `tid`.
pub open spec fn part_name(tid: Seq<char>, i: nat) -> Seq<char> {
    tid + seq!['_'] + decimal(i)
}

/// The stored name of the manifest of the transfer `tid`.
pub open spec fn manifest_name(tid: Seq<char>) -> Seq<char> {
    tid + seq!['_', 'm', 'a', 'n', 'i', 'f', 'e', 's', 't']
}

fn digit_str(d: usize) -> (r: &'static str)
    requires
        d < 10,
    ensures
        r@ == seq![digit_char(d as int)],
{
    proof {
        reveal_strlit("0");
        reveal_strlit("1");
        reveal_strlit("2");
        reveal_strlit("3");
        reveal_strlit("4");
        reveal_strlit("5");
        reveal_strlit("6");
        reveal_strlit("7");
        reveal_strlit("8");
        reveal_strlit("9");
    }
    if d == 0 { "0" }
    else if d == 1 { "1" }
    else if d == 2 { "2" }
    else if d == 3 { "3" }
    else if d == 4 { "4" }
    else if d == 5 { "5" }
    else if d == 6 { "6" }
    else if d == 7 { "7" }
    else if d == 8 { "8" }
    else { "9" }
}

fn append_decimal(out: &mut String, n: usize)
    ensures
        final(out)@ == old(out)@ + decimal(n as nat),
    decreases n,
{
    if n >= 10 {
        append_decimal(out, n / 10);
    }
    let ghost mid = out@;
    out.append(digit_str(n % 10));
    assert(out@ =~= old(out)@ + decimal(n as nat));
}

/// The stored name of part `i` of the transfer `tid`.
pub fn make_part_name(tid: &str, i: usize) -> (r: String)
    ensures
        r@ == part_name(tid@, i as nat),
{
    let mut r = tid.to_owned();
    proof {
        reveal_strlit("_");
    }
    r.append("_");
    append_decimal(&mut r, i);
    assert(r@ =~= part_name(tid@, i as nat));
    r
}

/// The stored name of the manifest of the transfer `tid`.
pub fn make_manifest_name(tid: &str) -> (r: String)
    ensures
        r@ == manifest_name(tid@),
{
    let mut r = tid.to_owned();
    proof {
        reveal_strlit("_manifest");
    }
    r.append("_manifest");
    assert(r@ =~= manifest_name(tid@));
    r
}

/// The file bytes that stored part bytes stand for: themselves, or their unpacking.
pub open spec fn unpacked(stored: Seq<u8>, compressed: bool) -> Option<Seq<u8>> {
    if compressed {
        expand(stored)
    } else {
        Some(stored)
    }
}

/// `stored` holds, part by part, the slices `cs`.
pub open spec fn stores(stored: Seq<Seq<u8>>, cs: Seq<Seq<u8>>, compressed: bool) -> bool {
    &&& stored.len() == cs.len()
    &&& forall|i: int| 0 <= i < cs.len() ==> unpacked(#[trigger] stored[i], compressed) == Some(cs[i])
}

/// The manifest recorded for `data` whose parts are stored as `stored`.
pub open spec fn manifest_for(
    data: Seq<u8>,
    filename: Seq<char>,
    extension: Seq<char>,
    tid: Seq<char>,
    stored: Seq<Seq<u8>>,
    compressed: bool,
) -> ManifestModel {
    ManifestModel {
        filename,
        extension,
        file_len: data.len(),
        parts: Seq::new(
            stored.len(),
            |i: int| PartModel { hash: content_hash(stored[i]), name: part_name(tid, i as nat) },
        ),
        uuid: tid,
        compressed,
    }
}

/// Whether the options ask for packed parts.
pub open spec fn wants_packing(o: Option<bool>) -> bool {
    o == Some(true)
}

/// A file cut into parts: its manifest, the manifest's stored name, and the stored
/// bytes of each part, in manifest order.
pub struct SeparationFile {
    pub manifest: CompositeFile,
    pub metafile: String,
    pub blobs: Vec<Vec<u8>>,
}

/// Cuts `data` into parts as `options` ask, packs each part when asked, and names them
/// after `transfer_id`. Each recorded hash is that of the stored bytes.
pub fn encode(data: &Vec<u8>, filename: &str, extension: &str, transfer_id: &str, options: &Options) -> (r: Result<SeparationFile, EncodeErrors>)
    ensures
        match part_size_spec(data.len() as int, options.count_parts, options.part_size) {
            Err(e) => r matches Err(e2) && e2 == e,
            Ok(s) => r matches Ok(sep)
                && stores(bytes_views(sep.blobs@), chunks(data@, s), wants_packing(options.compressed))
                && (!wants_packing(options.compressed) ==> bytes_views(sep.blobs@) == chunks(data@, s))
                && sep.manifest@ == manifest_for(data@, filename@, extension@, transfer_id@, bytes_views(sep.blobs@), wants_packing(options.compressed))
                && sep.metafile@ == manifest_name(transfer_id@),
        },
{
    let s = match effective_part_size(data.len(), options) {
        Ok(s) => s,
        Err(e) => return Err(e),
    };
    let pieces = split_parts(data, s);
    let packed = match options.compressed {
        Some(true) => true,
        _ => false,
    };
    let ghost cs = chunks(data@, s as int);
    let mut blobs: Vec<Vec<u8>> = Vec::new();
    let mut parts: Vec<FilePart> = Vec::new();
    let mut i: usize = 0;
    while i < pieces.len()
        invariant
            packed == wants_packing(options.compressed),
            bytes_views(pieces@) == cs,
            i <= pieces.len(),
            parts.len() == i,
            blobs.len() == i,
            forall|k: int| 0 <= k < i ==> unpacked(#[trigger] blobs@[k]@, packed) == Some(cs[k]),
            !packed ==> forall|k: int| 0 <= k < i ==> (#[trigger] blobs@[k])@ == cs[k],
            forall|k: int| 0 <= k < i ==> (#[trigger] parts@[k])@ == (PartModel { hash: content_hash(blobs@[k]@), name: part_name(transfer_id@, k as nat) }),
        decreases pieces.len() - i,
    {
        assert(cs[i as int] == pieces@[i as int]@);
        let stored = if packed { rle_compress(&pieces[i]) } else { copy_range(&pieces[i], 0, pieces[i].len()) };
        assert(pieces@[i as int]@.subrange(0, pieces@[i as int]@.len() as int) =~= pieces@[i as int]@);
        let part = FilePart { hash_bytes: hash_bytes(&stored), part_file_name: make_part_name(transfer_id, i) };
        parts.push(part);
        blobs.push(stored);
        i = i + 1;
    }
    let manifest = CompositeFile {
        filename: filename.to_owned(),
        file_extension: extension.to_owned(),
        file_len: data.len(),
        parts,
        uuid_parts: transfer_id.to_owned(),
        compressed: packed,
    };
    assert(manifest@.parts =~= manifest_for(data@, filename@, extension@, transfer_id@, bytes_views(blobs@), packed).parts);
    if !packed {
        assert(bytes_views(blobs@) =~= cs);
    }
    Ok(SeparationFile { manifest, metafile: make_manifest_name(transfer_id), blobs })
}

/// A failed reassembly, with the stored name of the part at fault.
pub enum DecodeFault {
    NotFound,
    Corrupt,
    Missing(Seq<char>),
    Mismatch(Seq<char>),
}

pub open spec fn decode_error_view(e: DecodeError) -> DecodeFault {
    match e {
        DecodeError::ManifestNotFound => DecodeFault::NotFound,
        DecodeError::ManifestCorrupt => DecodeFault::Corrupt,
        DecodeError::PartMissing(n) => DecodeFault::Missing(n@),
        DecodeError::HashMismatch(n) => DecodeFault::Mismatch(n@),
    }
}

pub open spec fn decode_result_view(r: Result<Vec<u8>, DecodeError>) -> Result<Seq<u8>, DecodeFault> {
    match r {
        Ok(v) => Ok(v@),
        Err(e) => Err(decode_error_view(e)),
    }
}

pub open spec fn blob_views(b: Seq<Option<Vec<u8>>>) -> Seq<Option<Seq<u8>>> {
    b.map_values(|o: Option<Vec<u8>>| match o {
        Some(v) => Some(v@),
        None => None,
    })
}

/// The first part, from `i` on, that is absent or whose bytes do not hash to the recorded hash.
/// (A packed part that does not unpack is `Corrupt`.)
pub open spec fn first_fault(parts: Seq<PartModel>, blobs: Seq<Option<Seq<u8>>>, compressed: bool, i: int) -> Option<DecodeFault>
    decreases parts.len() - i,
{
    if i >= parts.len() || i < 0 {
        None
    } else if blobs[i] is None {
        Some(DecodeFault::Missing(parts[i].name))
    } else if content_hash(blobs[i]->Some_0) != parts[i].hash {
        Some(DecodeFault::Mismatch(parts[i].name))
    } else if unpacked(blobs[i]->Some_0, compressed) is None {
        Some(DecodeFault::Corrupt)
    } else {
        first_fault(parts, blobs, compressed, i + 1)
    }
}

/// The file bytes of each part.
pub open spec fn contents(blobs: Seq<Option<Seq<u8>>>, compressed: bool) -> Seq<Seq<u8>> {
    blobs.map_values(|o: Option<Seq<u8>>| unpacked(o->Some_0, compressed)->Some_0)
}

/// What reassembling the file of manifest `m` from `blobs` gives.
pub open spec fn decode_spec(m: ManifestModel, blobs: Seq<Option<Seq<u8>>>) -> Result<Seq<u8>, DecodeFault> {
    match first_fault(m.parts, blobs, m.compressed, 0) {
        Some(f) => Err(f),
        None => if concat_all(contents(blobs, m.compressed)).len() == m.file_len {
            Ok(concat_all(contents(blobs, m.compressed)))
        } else {
            Err(DecodeFault::Corrupt)
        },
    }
}

proof fn lemma_concat_push(p: Seq<Seq<u8>>, x: Seq<u8>)
    ensures
        concat_all(p.push(x)) == concat_all(p) + x,
    decreases p.len(),
{
    if p.len() == 0 {
        assert(p.push(x).drop_first() =~= seq![]);
        assert(concat_all(p.push(x).drop_first()) =~= seq![]);
        assert(concat_all(p.push(x)) =~= x);
    } else {
        assert(p.push(x).drop_first() =~= p.drop_first().push(x));
        lemma_concat_push(p.drop_first(), x);
        assert(concat_all(p.push(x)) =~= concat_all(p) + x);
    }
}

proof fn lemma_first_fault_step(parts: Seq<PartModel>, blobs: Seq<Option<Seq<u8>>>, compressed: bool, i: int)
    requires
        0 <= i,
        first_fault(parts, blobs, compressed, 0) == first_fault(parts, blobs, compressed, i),
        i < parts.len(),
        blobs[i] is Some,
        content_hash(blobs[i]->Some_0) == parts[i].hash,
        unpacked(blobs[i]->Some_0, compressed) is Some,
    ensures
        first_fault(parts, blobs, compressed, 0) == first_fault(parts, blobs, compressed, i + 1),
{
}

fn bytes_equal(a: &Vec<u8>, b: &Vec<u8>) -> (r: bool)
    ensures
        r == (a@ == b@),
{
    if a.len() != b.len() {
        return false;
    }
    let mut i: usize = 0;
    while i < a.len()
        invariant
            a.len() == b.len(),
            i <= a.len(),
            forall|k: int| 0 <= k < i ==> a@[k] == b@[k],
        decreases a.len() - i,
    {
        if a[i] != b[i] {
            return false;
        }
        i = i + 1;
    }
    assert(a@ =~= b@);
    true
}

/// Puts the file of `manifest` together from the stored bytes of its parts, one per part
/// in manifest order (`None` for a part that is not at hand). Every part is checked
/// against its recorded hash before anything is returned.
pub fn decode(manifest: &CompositeFile, blobs: &Vec<Option<Vec<u8>>>) -> (r: Result<Vec<u8>, DecodeError>)
    requires
        blobs.len() == manifest.parts.len(),
    ensures
        decode_result_view(r) == decode_spec(manifest@, blob_views(blobs@)),
{
    let ghost m = manifest@;
    let ghost bv = blob_views(blobs@);
    let mut out: Vec<u8> = Vec::new();
    let mut i: usize = 0;
    while i < blobs.len()
        invariant
            m == manifest@,
            bv == blob_views(blobs@),
            blobs.len() == manifest.parts.len(),
            i <= blobs.len(),
            first_fault(m.parts, bv, m.compressed, 0) == first_fault(m.parts, bv, m.compressed, i as int),
            out@ == concat_all(contents(bv, m.compressed).take(i as int)),
        decreases blobs.len() - i,
    {
        assert(m.parts[i as int] == manifest.parts@[i as int]@);
        match &blobs[i] {
            None => return Err(DecodeError::PartMissing(manifest.parts[i].part_file_name.clone())),
            Some(b) => {
                if !bytes_equal(&hash_bytes(b), &manifest.parts[i].hash_bytes) {
                    return Err(DecodeError::HashMismatch(manifest.parts[i].part_file_name.clone()));
                }
                let b = if manifest.compressed {
                    match rle_expand(b) {
                        Some(v) => v,
                        None => return Err(DecodeError::ManifestCorrupt),
                    }
                } else {
                    copy_range(b, 0, b.len())
                };
                proof {
                    let cv = contents(bv, m.compressed);
                    assert(bv[i as int]->Some_0.subrange(0, bv[i as int]->Some_0.len() as int) =~= bv[i as int]->Some_0);
                    assert(cv[i as int] == b@);
                    lemma_first_fault_step(m.parts, bv, m.compressed, i as int);
                    assert(cv.take(i + 1) =~= cv.take(i as int).push(b@));
                    lemma_concat_push(cv.take(i as int), b@);
                }
                let mut k: usize = 0;
                let ghost before = out@;
                while k < b.len()
                    invariant
                        k <= b.len(),
                        out@ == before + b@.subrange(0, k as int),
                    decreases b.len() - k,
                {
                    out.push(b[k]);
                    k = k + 1;
                    assert(out@ =~= before + b@.subrange(0, k as int));
                }
                assert(b@.subrange(0, b.len() as int) =~= b@);
            },
        }
        i = i + 1;
    }
    assert(contents(bv, m.compressed).take(i as int) =~= contents(bv, m.compressed));
    if out.len() != manifest.file_len {
        return Err(DecodeError::ManifestCorrupt);
    }
    Ok(out)
}

/// Every part at hand, as `encode` leaves them.
pub open spec fn all_present(cs: Seq<Seq<u8>>) -> Seq<Option<Seq<u8>>> {
    cs.map_values(|c: Seq<u8>| Some(c))
}

proof fn lemma_concat_chunks(data: Seq<u8>, s: int)
    requires
        s > 0,
    ensures
        concat_all(chunks(data, s)) == data,
    decreases data.len(),
{
    if data.len() == 0 {
    } else if data.len() <= s {
        assert(chunks(data, s).drop_first() =~= seq![]);
        assert(concat_all(chunks(data, s).drop_first()) =~= seq![]);
        assert(concat_all(chunks(data, s)) =~= data);
    } else {
        let rest = data.subrange(s, data.len() as int);
        lemma_concat_chunks(rest, s);
        assert(chunks(data, s).drop_first() =~= chunks(rest, s));
        assert(data =~= data.subrange(0, s) + rest);
    }
}

proof fn lemma_intact_parts(
    data: Seq<u8>,
    filename: Seq<char>,
    extension: Seq<char>,
    tid: Seq<char>,
    stored: Seq<Seq<u8>>,
    cs: Seq<Seq<u8>>,
    compressed: bool,
    i: int,
)
    requires
        0 <= i,
        stores(stored, cs, compressed),
    ensures
        first_fault(manifest_for(data, filename, extension, tid, stored, compressed).parts, all_present(stored), compressed, i) is None,
    decreases stored.len() - i,
{
    if i < stored.len() {
        assert(unpacked(stored[i], compressed) == Some(cs[i]));
        lemma_intact_parts(data, filename, extension, tid, stored, cs, compressed, i + 1);
    }
}

/// Cutting a non-empty byte sequence with valid options, storing each part (packed or
/// not, as the options ask), and putting the stored parts together again gives back the
/// same bytes.
pub proof fn law_round_trip(
    data: Seq<u8>,
    filename: Seq<char>,
    extension: Seq<char>,
    tid: Seq<char>,
    count: Option<u8>,
    size: Option<usize>,
    compressed: bool,
    stored: Seq<Seq<u8>>,
)
    requires
        part_size_spec(data.len() as int, count, size) is Ok,
        stores(stored, chunks(data, part_size_spec(data.len() as int, count, size)->Ok_0), compressed),
    ensures
        decode_spec(manifest_for(data, filename, extension, tid, stored, compressed), all_present(stored))
            == Ok::<Seq<u8>, DecodeFault>(data),
{
    let s = part_size_spec(data.len() as int, count, size)->Ok_0;
    assert(s > 0) by (nonlinear_arith)
        requires
            data.len() > 0,
            count is Some && count->Some_0 > 0 ==> s == (data.len() + count->Some_0 - 1) / (count->Some_0 as int),
            count is Some ==> count->Some_0 > 0,
            count is None ==> s > 0,
    ;
    let cs = chunks(data, s);
    lemma_intact_parts(data, filename, extension, tid, stored, cs, compressed, 0);
    lemma_concat_chunks(data, s);
    assert forall|i: int| 0 <= i < cs.len() implies #[trigger] contents(all_present(stored), compressed)[i] == cs[i] by {
        assert(unpacked(stored[i], compressed) == Some(cs[i]));
    }
    assert(contents(all_present(stored), compressed) =~= cs);
}

/// Every part but the last holds exactly `s` bytes; the last holds between 1 and `s`;
/// and there are `ceil(len / s)` of them.
pub proof fn law_part_sizes(data: Seq<u8>, s: int)
    requires
        s > 0,
    ensures
        chunks(data, s).len() == ceil_div(data.len() as int, s),
        forall|i: int| 0 <= i < chunks(data, s).len() - 1 ==> (#[trigger] chunks(data, s)[i]).len() == s,
        chunks(data, s).len() > 0 ==> 0 < chunks(data, s).last().len() <= s,
    decreases data.len(),
{
    let n = data.len() as int;
    if n == 0 {
        assert(ceil_div(0, s) == 0) by (nonlinear_arith)
            requires
                s > 0,
        ;
    } else if n <= s {
        assert(ceil_div(n, s) == 1) by (nonlinear_arith)
            requires
                s > 0,
                0 < n <= s,
        ;
    } else {
        let rest = data.subrange(s, n);
        law_part_sizes(rest, s);
        assert(ceil_div(n, s) == ceil_div(n - s, s) + 1) by (nonlinear_arith)
            requires
                s > 0,
                n > s,
        ;
        let cs = chunks(data, s);
        assert forall|i: int| 0 <= i < cs.len() - 1 implies (#[trigger] cs[i]).len() == s by {
            if i > 0 {
                assert(cs[i] == chunks(rest, s)[i - 1]);
            }
        }
    }
}

/// Asked for `c` parts, the codec gives `c` parts whenever `c` parts of
/// `ceil(len / c)` bytes are needed to hold the source (their last one non-empty).
pub proof fn law_requested_part_count(data: Seq<u8>, c: u8)
    requires
        c > 0,
        data.len() > 0,
        (c - 1) * ceil_div(data.len() as int, c as int) < data.len(),
    ensures
        part_size_spec(data.len() as int, Some(c), None) == Ok::<int, EncodeErrors>(ceil_div(data.len() as int, c as int)),
        chunks(data, ceil_div(data.len() as int, c as int)).len() == c,
{
    let n = data.len() as int;
    let s = ceil_div(n, c as int);
    assert(s > 0 && c * s >= n) by (nonlinear_arith)
        requires
            c > 0,
            n > 0,
            s == (n + c - 1) / (c as int),
    ;
    law_part_sizes(data, s);
    assert(ceil_div(n, s) == c) by (nonlinear_arith)
        requires
            s > 0,
            c * s >= n,
            (c - 1) * s < n,
    ;
}

proof fn lemma_fault_at(parts: Seq<PartModel>, blobs: Seq<Option<Seq<u8>>>, compressed: bool, i: int, k: int)
    requires
        0 <= i <= k < parts.len(),
        blobs.len() == parts.len(),
        forall|j: int| i <= j < k ==> (#[trigger] blobs[j]) is Some && content_hash(blobs[j]->Some_0) == parts[j].hash
            && unpacked(blobs[j]->Some_0, compressed) is Some,
        blobs[k] is Some,
        content_hash(blobs[k]->Some_0) != parts[k].hash,
    ensures
        first_fault(parts, blobs, compressed, i) == Some(DecodeFault::Mismatch(parts[k].name)),
    decreases k - i,
{
    if i < k {
        lemma_fault_at(parts, blobs, compressed, i + 1, k);
    }
}

/// Replacing the stored bytes of one part by bytes with another hash makes reassembly
/// fail with a hash mismatch that names that part, and give no bytes.
pub proof fn law_tampered_part_is_named(
    data: Seq<u8>,
    filename: Seq<char>,
    extension: Seq<char>,
    tid: Seq<char>,
    s: int,
    compressed: bool,
    stored: Seq<Seq<u8>>,
    k: int,
    t: Seq<u8>,
)
    requires
        s > 0,
        stores(stored, chunks(data, s), compressed),
        0 <= k < stored.len(),
        content_hash(t) != content_hash(stored[k]),
    ensures
        decode_spec(manifest_for(data, filename, extension, tid, stored, compressed), all_present(stored).update(k, Some(t)))
            == Err::<Seq<u8>, DecodeFault>(DecodeFault::Mismatch(part_name(tid, k as nat))),
{
    let m = manifest_for(data, filename, extension, tid, stored, compressed);
    let b = all_present(stored).update(k, Some(t));
    assert forall|j: int| 0 <= j < k implies (#[trigger] b[j]) is Some && content_hash(b[j]->Some_0) == m.parts[j].hash
        && unpacked(b[j]->Some_0, compressed) is Some by {
        assert(unpacked(stored[j], compressed) == Some(chunks(data, s)[j]));
    }
    lemma_fault_at(m.parts, b, compressed, 0, k);
}

} // verus!
