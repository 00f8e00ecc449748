//! Byte-level helpers over ASCII: whitespace, case folding and search.

use vstd::prelude::*;

verus! {

/// The four ASCII whitespace bytes that the scanners skip: space, tab, CR, LF.
pub open spec fn spec_is_ws(c: u8) -> bool {
    c == 32u8 || c == 9u8 || c == 13u8 || c == 10u8
}

/// ASCII lower-casing of one byte; every other byte is left alone.
pub open spec fn spec_lower(c: u8) -> u8 {
    if 65u8 <= c && c <= 90u8 {
        (c + 32) as u8
    } else {
        c
    }
}

/// Two byte strings are equal up to ASCII case.
pub open spec fn eq_ci(a: Seq<u8>, b: Seq<u8>) -> bool {
    &&& a.len() == b.len()
    &&& forall|k: int| 0 <= k < a.len() ==> #[trigger] spec_lower(a[k]) == spec_lower(b[k])
}

/// `needle` occurs at `i` in `hay`, up to ASCII case.
pub open spec fn matches_ci_at(hay: Seq<u8>, needle: Seq<u8>, i: int) -> bool {
    &&& 0 <= i
    &&& i + needle.len() <= hay.len()
    &&& eq_ci(hay.subrange(i, i + needle.len()), needle)
}

/// The first position at or after `i` where `needle` occurs, up to ASCII case.
pub open spec fn find_ci_from(hay: Seq<u8>, needle: Seq<u8>, i: int) -> Option<int>
    decreases hay.len() - i,
{
    if i < 0 || i + needle.len() > hay.len() {
        None
    } else if matches_ci_at(hay, needle, i) {
        Some(i)
    } else {
        find_ci_from(hay, needle, i + 1)
    }
}

/// The first position of a non-empty `needle` in `hay`, up to ASCII case.
pub open spec fn spec_find_ci(hay: Seq<u8>, needle: Seq<u8>) -> Option<int> {
    if needle.len() == 0 {
        None
    } else {
        find_ci_from(hay, needle, 0)
    }
}

/// The position of the first byte at or after `i` that is not whitespace
/// (or `i` itself when it is already past the end).
pub open spec fn spec_skip_ws(b: Seq<u8>, i: int) -> int
    decreases b.len() - i,
{
    if 0 <= i < b.len() && spec_is_ws(b[i]) {
        spec_skip_ws(b, i + 1)
    } else {
        i
    }
}

/// `b` without its leading whitespace.
pub open spec fn trim_start_ws(b: Seq<u8>) -> Seq<u8>
    decreases b.len(),
{
    if b.len() > 0 && spec_is_ws(b[0]) {
        trim_start_ws(b.drop_first())
    } else {
        b
    }
}

/// `b` without its trailing whitespace.
pub open spec fn trim_end_ws(b: Seq<u8>) -> Seq<u8>
    decreases b.len(),
{
    if b.len() > 0 && spec_is_ws(b.last()) {
        trim_end_ws(b.drop_last())
    } else {
        b
    }
}

/// `b` without leading and trailing whitespace.
pub open spec fn spec_trim_ascii(b: Seq<u8>) -> Seq<u8> {
    trim_end_ws(trim_start_ws(b))
}

/// Whether `c` is one of the ASCII whitespace bytes.
pub fn is_ws(c: u8) -> (r: bool)
    ensures
        r == spec_is_ws(c),
{
    c == 32u8 || c == 9u8 || c == 13u8 || c == 10u8
}

/// ASCII lower case of `c`.
pub fn to_lower(c: u8) -> (r: u8)
    ensures
        r == spec_lower(c),
{
    if 65u8 <= c && c <= 90u8 {
        c + 32
    } else {
        c
    }
}

/// Whether `a` and `b` are equal up to ASCII case.
pub fn eq_ignore_case(a: &[u8], b: &[u8]) -> (r: bool)
    ensures
        r == eq_ci(a@, b@),
{
    if a.len() != b.len() {
        return false;
    }
    let mut k: usize = 0;
    while k < a.len()
        invariant
            a@.len() == b@.len(),
            k <= a@.len(),
            forall|j: int| 0 <= j < k ==> #[trigger] spec_lower(a@[j]) == spec_lower(b@[j]),
        decreases a@.len() - k,
    {
        if to_lower(a[k]) != to_lower(b[k]) {
            return false;
        }
        k = k + 1;
    }
    true
}

/// The index of the first byte at or after `i` that is not whitespace.
pub fn skip_ws(bytes: &[u8], i: usize) -> (r: usize)
    ensures
        r == spec_skip_ws(bytes@, i as int),
        i <= r,
        i <= bytes@.len() ==> r <= bytes@.len(),
        forall|k: int| i <= k < r ==> spec_is_ws(#[trigger] bytes@[k]),
        r < bytes@.len() ==> !spec_is_ws(bytes@[r as int]),
{
    let mut j = i;
    while j < bytes.len() && is_ws(bytes[j])
        invariant
            i <= j,
            i <= bytes@.len() ==> j <= bytes@.len(),
            spec_skip_ws(bytes@, j as int) == spec_skip_ws(bytes@, i as int),
            forall|k: int| i <= k < j ==> spec_is_ws(#[trigger] bytes@[k]),
        decreases bytes@.len() - j,
    {
        j = j + 1;
    }
    j
}

/// `b` with leading and trailing ASCII whitespace removed.
pub fn trim_ascii(b: &[u8]) -> (r: &[u8])
    ensures
        r@ == spec_trim_ascii(b@),
{
    let mut lo: usize = 0;
    proof {
        assert(b@.subrange(0, b@.len() as int) =~= b@);
    }
    while lo < b.len() && is_ws(b[lo])
        invariant
            lo <= b@.len(),
            trim_start_ws(b@.subrange(lo as int, b@.len() as int)) == trim_start_ws(b@),
        decreases b@.len() - lo,
    {
        proof {
            let s = b@.subrange(lo as int, b@.len() as int);
            assert(s.drop_first() =~= b@.subrange(lo + 1, b@.len() as int));
        }
        lo = lo + 1;
    }
    let mut hi: usize = b.len();
    while hi > lo && is_ws(b[hi - 1])
        invariant
            lo <= hi <= b@.len(),
            trim_start_ws(b@) == b@.subrange(lo as int, b@.len() as int),
            trim_end_ws(b@.subrange(lo as int, hi as int)) == spec_trim_ascii(b@),
        decreases hi,
    {
        proof {
            let s = b@.subrange(lo as int, hi as int);
            assert(s.drop_last() =~= b@.subrange(lo as int, hi - 1));
        }
        hi = hi - 1;
    }
    &b[lo..hi]
}

/// The first position of a non-empty `needle` in `haystack`, up to ASCII case.
pub fn find_ci(haystack: &[u8], needle: &[u8]) -> (r: Option<usize>)
    ensures
        r matches Some(i) ==> spec_find_ci(haystack@, needle@) == Some(i as int),
        r is None ==> spec_find_ci(haystack@, needle@) is None,
        r matches Some(i) ==> matches_ci_at(haystack@, needle@, i as int),
        r matches Some(i) ==> forall|j: int|
            0 <= j < i ==> !matches_ci_at(haystack@, needle@, j),
        r is None ==> forall|j: int| needle@.len() > 0 ==> !matches_ci_at(haystack@, needle@, j),
{
    if needle.len() == 0 || haystack.len() < needle.len() {
        proof {
            if needle@.len() > 0 {
                assert(find_ci_from(haystack@, needle@, 0) is None);
            }
        }
        return None;
    }
    let last = haystack.len() - needle.len();
    let mut i: usize = 0;
    while i <= last
        invariant
            needle@.len() > 0,
            last + needle@.len() == haystack@.len(),
            i <= last + 1,
            find_ci_from(haystack@, needle@, i as int) == spec_find_ci(haystack@, needle@),
            forall|j: int| 0 <= j < i ==> !matches_ci_at(haystack@, needle@, j),
        decreases last + 1 - i,
    {
        assert(i + needle.len() <= haystack.len());
        if eq_ignore_case(&haystack[i..i + needle.len()], needle) {
            return Some(i);
        }
        i = i + 1;
    }
    None
}

/// A match found from `i` on lies at or after `i` and fits in `hay`.
pub proof fn lemma_find_ci_from_bounds(hay: Seq<u8>, needle: Seq<u8>, i: int)
    ensures
        find_ci_from(hay, needle, i) matches Some(r) ==> i <= r && r + needle.len() <= hay.len()
            && matches_ci_at(hay, needle, r),
    decreases hay.len() - i,
{
    if i < 0 || i + needle.len() > hay.len() {
    } else if matches_ci_at(hay, needle, i) {
    } else {
        lemma_find_ci_from_bounds(hay, needle, i + 1);
    }
}

} // verus!
