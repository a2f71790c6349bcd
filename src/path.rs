use vstd::prelude::*;

verus! {

/// A path is absolute when it starts with `/`.
pub open spec fn is_absolute(p: Seq<char>) -> bool {
    p.len() > 0 && p[0] == '/'
}

/// Splitting `p` from position `i`, where the segment under way began at `start`
/// and `acc` holds the segments already closed; empty segments are dropped.
pub open spec fn split_from(p: Seq<char>, i: int, start: int, acc: Seq<Seq<char>>) -> Seq<Seq<char>>
    decreases p.len() - i,
{
    if i >= p.len() {
        if start < p.len() {
            acc.push(p.subrange(start, p.len() as int))
        } else {
            acc
        }
    } else if p[i] == '/' {
        split_from(
            p,
            i + 1,
            i + 1,
            if start < i {
                acc.push(p.subrange(start, i))
            } else {
                acc
            },
        )
    } else {
        split_from(p, i + 1, start, acc)
    }
}

/// The non-empty `/`-separated segments of a path, in order.
pub open spec fn path_segments(p: Seq<char>) -> Seq<Seq<char>> {
    split_from(p, 0, 0, seq![])
}

pub open spec fn strings_view(v: Seq<String>) -> Seq<Seq<char>> {
    v.map_values(|s: String| s@)
}

/// Splits a path into its non-empty segments.
pub fn split_path(p: &str) -> (r: Vec<String>)
    ensures
        strings_view(r@) == path_segments(p@),
{
    let n = p.unicode_len();
    let mut out: Vec<String> = Vec::new();
    let mut start: usize = 0;
    let mut i: usize = 0;
    proof {
        assert(strings_view(out@) =~= seq![]);
    }
    while i < n
        invariant
            n == p@.len(),
            start <= i <= n,
            split_from(p@, i as int, start as int, strings_view(out@)) == path_segments(p@),
        decreases n - i,
    {
        if p.get_char(i) == '/' {
            if start < i {
                let seg = p.substring_char(start, i).to_owned();
                proof {
                    assert(strings_view(out@.push(seg)) =~= strings_view(out@).push(p@.subrange(start as int, i as int)));
                }
                out.push(seg);
            }
            start = i + 1;
        }
        i = i + 1;
    }
    if start < n {
        let seg = p.substring_char(start, n).to_owned();
        proof {
            assert(strings_view(out@.push(seg)) =~= strings_view(out@).push(p@.subrange(start as int, n as int)));
        }
        out.push(seg);
    }
    out
}

/// Tells whether a path starts with `/`.
pub fn check_absolute(p: &str) -> (r: bool)
    ensures
        r == is_absolute(p@),
{
    p.unicode_len() > 0 && p.get_char(0) == '/'
}

} // verus!
