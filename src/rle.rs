use vstd::prelude::*;

verus! {

/// `n` copies of `b`.
pub open spec fn run(n: nat, b: u8) -> Seq<u8> {
    Seq::new(n, |i: int| b)
}

/// The bytes that the run-length pairs `s` (count, byte) stand for; `None` where `s`
/// is not made of whole pairs.
pub open spec fn expand(s: Seq<u8>) -> Option<Seq<u8>>
    decreases s.len(),
{
    if s.len() == 0 {
        Some(seq![])
    } else if s.len() < 2 {
        None
    } else {
        match expand(s.subrange(0, s.len() - 2)) {
            Some(r) => Some(r + run(s[s.len() - 2] as nat, s[s.len() - 1])),
            None => None,
        }
    }
}

proof fn lemma_expand_odd(s: Seq<u8>)
    requires
        s.len() % 2 == 1,
    ensures
        expand(s) is None,
    decreases s.len(),
{
    if s.len() >= 2 {
        lemma_expand_odd(s.subrange(0, s.len() - 2));
    }
}

/// Run-length packs `data` into (count, byte) pairs, runs of at most 255.
pub fn rle_compress(data: &Vec<u8>) -> (r: Vec<u8>)
    ensures
        expand(r@) == Some(data@),
{
    let mut out: Vec<u8> = Vec::new();
    let mut i: usize = 0;
    assert(data@.subrange(0, 0) =~= seq![]);
    while i < data.len()
        invariant
            i <= data.len(),
            expand(out@) == Some(data@.subrange(0, i as int)),
        decreases data.len() - i,
    {
        let b = data[i];
        let mut j: usize = i + 1;
        while j < data.len() && data[j] == b && j - i < 255
            invariant
                i < j <= data.len(),
                j - i <= 255,
                forall|k: int| i <= k < j ==> data@[k] == b,
            decreases data.len() - j,
        {
            j = j + 1;
        }
        let ghost before = out@;
        out.push((j - i) as u8);
        out.push(b);
        proof {
            assert(out@.subrange(0, out@.len() - 2) =~= before);
            assert(data@.subrange(0, j as int) =~= data@.subrange(0, i as int) + run((j - i) as nat, b));
        }
        i = j;
    }
    assert(data@.subrange(0, i as int) =~= data@);
    out
}

/// Unpacks run-length pairs.
pub fn rle_expand(s: &Vec<u8>) -> (r: Option<Vec<u8>>)
    ensures
        match expand(s@) {
            Some(d) => r matches Some(v) && v@ == d,
            None => r is None,
        },
{
    if s.len() % 2 == 1 {
        proof {
            lemma_expand_odd(s@);
        }
        return None;
    }
    let mut out: Vec<u8> = Vec::new();
    let mut i: usize = 0;
    assert(s@.subrange(0, 0) =~= seq![]);
    while i < s.len()
        invariant
            i <= s.len(),
            i % 2 == 0,
            s.len() % 2 == 0,
            expand(s@.subrange(0, i as int)) == Some(out@),
        decreases s.len() - i,
    {
        let n = s[i];
        let b = s[i + 1];
        let ghost before = out@;
        let mut k: u8 = 0;
        while k < n
            invariant
                k <= n,
                out@ == before + run(k as nat, b),
            decreases n - k,
        {
            out.push(b);
            k = k + 1;
            assert(out@ =~= before + run(k as nat, b));
        }
        proof {
            let t = s@.subrange(0, i + 2);
            assert(t.subrange(0, t.len() - 2) =~= s@.subrange(0, i as int));
        }
        i = i + 2;
    }
    assert(s@.subrange(0, i as int) =~= s@);
    Some(out)
}

} // verus!
