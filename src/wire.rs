use vstd::prelude::*;
use vstd::utf8::{decode_utf8, encode_utf8, valid_utf8};
use crate::file::{copy_range, le_bytes};

verus! {

pub open spec fn pow256(n: nat) -> nat
    decreases n,
{
    if n == 0 {
        1
    } else {
        256 * pow256((n - 1) as nat)
    }
}

/// The number whose little-endian bytes are `s`.
pub open spec fn from_le(s: Seq<u8>) -> nat
    decreases s.len(),
{
    if s.len() == 0 {
        0
    } else {
        s[0] as nat + 256 * from_le(s.drop_first())
    }
}

/// The eight little-endian bytes of `x`.
pub open spec fn u64_bytes(x: nat) -> Seq<u8> {
    le_bytes(x, 8)
}

/// A string as its UTF-8 byte count followed by its UTF-8 bytes.
pub open spec fn str_bytes(s: Seq<char>) -> Seq<u8> {
    u64_bytes(encode_utf8(s).len()) + encode_utf8(s)
}

/// A string fits the format when its UTF-8 byte count fits eight bytes.
pub open spec fn str_fits(s: Seq<char>) -> bool {
    encode_utf8(s).len() < pow256(8)
}

/// The number stored in the eight bytes at `pos`.
pub open spec fn get_u64_spec(b: Seq<u8>, pos: int) -> Option<nat> {
    if 0 <= pos && pos + 8 <= b.len() {
        Some(from_le(b.subrange(pos, pos + 8)))
    } else {
        None
    }
}

/// The string stored at `pos`, and where it ends.
pub open spec fn get_str_spec(b: Seq<u8>, pos: int) -> Option<(Seq<char>, int)> {
    match get_u64_spec(b, pos) {
        None => None,
        Some(n) => {
            let end = pos + 8 + n;
            if end <= b.len() && valid_utf8(b.subrange(pos + 8, end)) {
                Some((decode_utf8(b.subrange(pos + 8, end)), end))
            } else {
                None
            }
        },
    }
}

pub proof fn lemma_le_bytes_len(x: nat, n: nat)
    ensures
        le_bytes(x, n).len() == n,
    decreases n,
{
    if n > 0 {
        lemma_le_bytes_len(x / 256, (n - 1) as nat);
    }
}

pub proof fn lemma_from_le_bytes(x: nat, n: nat)
    requires
        x < pow256(n),
    ensures
        from_le(le_bytes(x, n)) == x,
    decreases n,
{
    if n > 0 {
        let p = pow256((n - 1) as nat);
        assert(x / 256 < p) by (nonlinear_arith)
            requires
                x < 256 * p,
        ;
        lemma_from_le_bytes(x / 256, (n - 1) as nat);
        let s = le_bytes(x, n);
        assert(s.drop_first() =~= le_bytes(x / 256, (n - 1) as nat));
        assert(x == x % 256 + 256 * (x / 256)) by (nonlinear_arith);
    }
}

/// Reading back what `u64_bytes` wrote gives the number.
pub proof fn lemma_get_u64(b: Seq<u8>, pos: int, x: nat)
    requires
        x < pow256(8),
        0 <= pos,
        pos + 8 <= b.len(),
        b.subrange(pos, pos + 8) == u64_bytes(x),
    ensures
        get_u64_spec(b, pos) == Some(x),
{
    lemma_from_le_bytes(x, 8);
}

/// Reading back what `str_bytes` wrote gives the string and the position after it.
pub proof fn lemma_get_str(b: Seq<u8>, pos: int, s: Seq<char>)
    requires
        str_fits(s),
        0 <= pos,
        pos + str_bytes(s).len() <= b.len(),
        b.subrange(pos, pos + str_bytes(s).len()) == str_bytes(s),
    ensures
        get_str_spec(b, pos) == Some((s, pos + str_bytes(s).len())),
{
    let e = encode_utf8(s);
    lemma_le_bytes_len(e.len(), 8);
    let whole = b.subrange(pos, pos + str_bytes(s).len());
    assert(b.subrange(pos, pos + 8) =~= whole.subrange(0, 8));
    assert(whole.subrange(0, 8) =~= u64_bytes(e.len()));
    lemma_get_u64(b, pos, e.len());
    assert(b.subrange(pos + 8, pos + 8 + e.len()) =~= whole.subrange(8, 8 + e.len() as int));
    assert(whole.subrange(8, 8 + e.len() as int) =~= e);
    vstd::utf8::encode_utf8_valid_utf8(s);
    vstd::utf8::encode_utf8_decode_utf8(s);
}

pub fn push_all(out: &mut Vec<u8>, v: &Vec<u8>)
    ensures
        final(out)@ == old(out)@ + v@,
{
    let mut i: usize = 0;
    while i < v.len()
        invariant
            i <= v.len(),
            out@ == old(out)@ + v@.subrange(0, i as int),
        decreases v.len() - i,
    {
        out.push(v[i]);
        i = i + 1;
        assert(out@ =~= old(out)@ + v@.subrange(0, i as int));
    }
    assert(v@.subrange(0, i as int) =~= v@);
}

/// Appends the eight little-endian bytes of `x`.
pub fn put_u64(out: &mut Vec<u8>, x: u64)
    ensures
        final(out)@ == old(out)@ + u64_bytes(x as nat),
{
    let mut y: u64 = x;
    let mut k: usize = 0;
    while k < 8
        invariant
            k <= 8,
            out@ + le_bytes(y as nat, (8 - k) as nat) == old(out)@ + le_bytes(x as nat, 8),
        decreases 8 - k,
    {
        let ghost before = out@;
        assert(le_bytes(y as nat, (8 - k) as nat) == seq![(y % 256) as u8] + le_bytes((y / 256) as nat, (8 - k - 1) as nat));
        out.push((y % 256) as u8);
        assert(out@ + le_bytes((y / 256) as nat, (8 - k - 1) as nat) =~= before + le_bytes(y as nat, (8 - k) as nat));
        y = y / 256;
        k = k + 1;
    }
    assert(out@ =~= out@ + le_bytes(y as nat, 0));
}

/// Reads the number in the eight bytes at `pos`.
pub fn get_u64(b: &Vec<u8>, pos: usize) -> (r: Option<u64>)
    ensures
        match get_u64_spec(b@, pos as int) {
            Some(x) => r == Some(x as u64) && x < pow256(8) && x <= u64::MAX,
            None => r is None,
        },
{
    if pos > b.len() || b.len() - pos < 8 {
        return None;
    }
    let ghost s = b@.subrange(pos as int, pos + 8);
    let mut x: u64 = 0;
    let mut k: usize = 8;
    proof {
        reveal_with_fuel(pow256, 9);
        assert(s.subrange(8, 8) =~= seq![]);
    }
    while k > 0
        invariant
            s == b@.subrange(pos as int, pos + 8),
            pos + 8 <= b.len(),
            k <= 8,
            x as nat == from_le(s.subrange(k as int, 8)),
            (x as nat) < pow256((8 - k) as nat),
        decreases k,
    {
        let ghost old_x = x as nat;
        let byte = b[pos + k - 1];
        assert(s.subrange(k - 1, 8).drop_first() =~= s.subrange(k as int, 8));
        assert(s.subrange(k - 1, 8)[0] == byte);
        let ghost p = pow256((8 - k) as nat);
        assert(pow256((8 - k + 1) as nat) == 256 * p);
        assert(pow256((8 - k) as nat) <= pow256(7)) by {
            lemma_pow256_mono((8 - k) as nat, 7);
        }
        proof {
            reveal_with_fuel(pow256, 9);
        }
        assert(old_x * 256 + byte < 256 * p) by (nonlinear_arith)
            requires
                old_x < p,
                byte < 256,
        ;
        x = x * 256 + byte as u64;
        k = k - 1;
    }
    assert(s.subrange(0, 8) =~= s);
    proof {
        reveal_with_fuel(pow256, 9);
    }
    Some(x)
}

proof fn lemma_pow256_mono(a: nat, b: nat)
    requires
        a <= b,
    ensures
        pow256(a) <= pow256(b),
    decreases b,
{
    if a < b {
        lemma_pow256_mono(a, (b - 1) as nat);
        assert(pow256((b - 1) as nat) >= 1) by {
            lemma_pow256_pos((b - 1) as nat);
        }
    }
}

proof fn lemma_pow256_pos(a: nat)
    ensures
        pow256(a) >= 1,
    decreases a,
{
    if a > 0 {
        lemma_pow256_pos((a - 1) as nat);
    }
}

/// Relies on std's `String::from_utf8`: it accepts exactly the well-formed UTF-8 byte
/// sequences, and the string it returns holds the characters that those bytes encode.
#[verifier::external_body]
fn string_from_utf8(b: Vec<u8>) -> (r: Option<String>)
    ensures
        r is Some <==> valid_utf8(b@),
        r matches Some(s) ==> s@ == decode_utf8(b@),
{
    String::from_utf8(b).ok()
}

/// Appends `s` as its UTF-8 byte count and its UTF-8 bytes.
pub fn put_str(out: &mut Vec<u8>, s: &String)
    ensures
        final(out)@ == old(out)@ + str_bytes(s@),
{
    let bytes = s.as_str().as_bytes_vec();
    put_u64(out, bytes.len() as u64);
    push_all(out, &bytes);
    assert(out@ =~= old(out)@ + str_bytes(s@));
}

/// Reads the string stored at `pos`, and where it ends.
pub fn get_str(b: &Vec<u8>, pos: usize) -> (r: Option<(String, usize)>)
    ensures
        match get_str_spec(b@, pos as int) {
            Some((s, end)) => r matches Some((t, e)) && t@ == s && e == end,
            None => r is None,
        },
{
    let n = match get_u64(b, pos) {
        Some(n) => n,
        None => return None,
    };
    let room = b.len() - pos - 8;
    if n > room as u64 {
        return None;
    }
    let n = n as usize;
    let bytes = copy_range(b, pos + 8, pos + 8 + n);
    assert(get_u64_spec(b@, pos as int) == Some(n as nat));
    match string_from_utf8(bytes) {
        Some(s) => Some((s, pos + 8 + n)),
        None => None,
    }
}

} // verus!
