//! Character-level text: Unicode white space, trimming, stripping repeated
//! prefixes and suffixes, reading decimal numbers, and decoding bytes as
//! UTF-8.

use vstd::prelude::*;
use vstd::string::StrSliceExecFns;
use vstd::utf8::{decode_utf8, valid_utf8};

verus! {

/// A character with the Unicode `White_Space` property, which is what
/// `char::is_whitespace` (and therefore `str::trim`) tests.
pub open spec fn is_white_space(c: char) -> bool {
    let v = c as u32;
    ||| 9 <= v <= 13
    ||| v == 32
    ||| v == 0x85
    ||| v == 0xA0
    ||| v == 0x1680
    ||| 0x2000 <= v <= 0x200A
    ||| v == 0x2028
    ||| v == 0x2029
    ||| v == 0x202F
    ||| v == 0x205F
    ||| v == 0x3000
}

/// `s` without the leading characters that satisfy `strip`.
pub open spec fn drop_leading(s: Seq<char>, strip: spec_fn(char) -> bool) -> Seq<char>
    decreases s.len(),
{
    if s.len() > 0 && strip(s[0]) {
        drop_leading(s.drop_first(), strip)
    } else {
        s
    }
}

/// `s` without the trailing characters that satisfy `strip`.
pub open spec fn drop_trailing(s: Seq<char>, strip: spec_fn(char) -> bool) -> Seq<char>
    decreases s.len(),
{
    if s.len() > 0 && strip(s.last()) {
        drop_trailing(s.drop_last(), strip)
    } else {
        s
    }
}

/// `s` with leading and trailing Unicode white space removed.
pub open spec fn trim_white(s: Seq<char>) -> Seq<char> {
    drop_trailing(drop_leading(s, |c: char| is_white_space(c)), |c: char| is_white_space(c))
}

/// `s` with every leading and trailing occurrence of `c` removed.
pub open spec fn trim_char(s: Seq<char>, c: char) -> Seq<char> {
    drop_trailing(drop_leading(s, stripped(false, c)), stripped(false, c))
}

/// `s` with the prefix `p` removed as many times as it occurs at the front.
pub open spec fn strip_prefix_repeated(s: Seq<char>, p: Seq<char>) -> Seq<char>
    decreases s.len(),
{
    if p.len() > 0 && p.len() <= s.len() && s.subrange(0, p.len() as int) == p {
        strip_prefix_repeated(s.skip(p.len() as int), p)
    } else {
        s
    }
}

/// What `String::from_utf8_lossy` makes of a byte string that is not valid
/// UTF-8: the decoded text, with each invalid sequence replaced by U+FFFD.
pub uninterp spec fn utf8_lossy(b: Seq<u8>) -> Seq<char>;

/// The text of a byte string read as UTF-8: the decoded text when the bytes
/// are valid UTF-8, else what the lossy decoding makes of them.
pub open spec fn lossy_text(b: Seq<u8>) -> Seq<char> {
    if valid_utf8(b) {
        decode_utf8(b)
    } else {
        utf8_lossy(b)
    }
}

/// Decodes `b` as UTF-8 through `String::from_utf8_lossy`. On valid UTF-8 the
/// result is the decoded text, as std documents; otherwise the contract
/// names the result, and how invalid sequences are replaced is left to the
/// name.
#[verifier::external_body]
pub fn lossy_string(b: &[u8]) -> (s: String)
    ensures
        s@ == (if valid_utf8(b@) {
            decode_utf8(b@)
        } else {
            utf8_lossy(b@)
        }),
{
    String::from_utf8_lossy(b).into_owned()
}

/// Whether `c` has the Unicode `White_Space` property.
pub fn is_white_space_char(c: char) -> (r: bool)
    ensures
        r == is_white_space(c),
{
    let v = c as u32;
    (9 <= v && v <= 13) || v == 32 || v == 0x85 || v == 0xA0 || v == 0x1680 || (0x2000 <= v && v
        <= 0x200A) || v == 0x2028 || v == 0x2029 || v == 0x202F || v == 0x205F || v == 0x3000
}

/// The characters a trim removes: white space when `white`, else `target`.
pub open spec fn stripped(white: bool, target: char) -> spec_fn(char) -> bool {
    |x: char|
        if white {
            is_white_space(x)
        } else {
            x == target
        }
}

/// Whether a trim removes `c`.
fn is_stripped(c: char, white: bool, target: char) -> (r: bool)
    ensures
        r == stripped(white, target)(c),
{
    if white {
        is_white_space_char(c)
    } else {
        c == target
    }
}

/// `s` without the leading and trailing characters a trim removes.
fn trim_by<'a>(s: &'a str, white: bool, target: char) -> (r: &'a str)
    ensures
        r@ == drop_trailing(drop_leading(s@, stripped(white, target)), stripped(white, target)),
{
    let ghost f = stripped(white, target);
    let n = s.unicode_len();
    let mut i: usize = 0;
    assert(s@.skip(0) =~= s@);
    while i < n
        invariant
            i <= n,
            n == s@.len(),
            f == stripped(white, target),
            drop_leading(s@, f) == drop_leading(s@.skip(i as int), f),
        ensures
            i <= n,
            drop_leading(s@, f) == drop_leading(s@.skip(i as int), f),
            i == n || !f(s@[i as int]),
        decreases n - i,
    {
        if !is_stripped(s.get_char(i), white, target) {
            break;
        }
        assert(s@.skip(i as int).drop_first() =~= s@.skip(i + 1));
        i = i + 1;
    }
    assert(s@.skip(i as int) =~= s@.subrange(i as int, n as int));
    let mut j: usize = n;
    while j > i
        invariant
            i <= j <= n,
            n == s@.len(),
            f == stripped(white, target),
            drop_trailing(s@.subrange(i as int, n as int), f) == drop_trailing(
                s@.subrange(i as int, j as int),
                f,
            ),
        ensures
            i <= j <= n,
            drop_trailing(s@.subrange(i as int, n as int), f) == drop_trailing(
                s@.subrange(i as int, j as int),
                f,
            ),
            j == i || !f(s@[j - 1]),
        decreases j - i,
    {
        if !is_stripped(s.get_char(j - 1), white, target) {
            break;
        }
        assert(s@.subrange(i as int, j as int).drop_last() =~= s@.subrange(i as int, j - 1));
        j = j - 1;
    }
    s.substring_char(i, j)
}

/// The slice without leading and trailing Unicode white space (what
/// `str::trim` gives).
pub fn trim_str(s: &str) -> (r: &str)
    ensures
        r@ == trim_white(s@),
{
    let r = trim_by(s, true, ' ');
    assert(stripped(true, ' ') =~= (|c: char| is_white_space(c)));
    r
}

/// The slice without any leading or trailing occurrence of `c` (what
/// `str::trim_matches` gives with a character).
pub fn trim_matches_char(s: &str, c: char) -> (r: &str)
    ensures
        r@ == trim_char(s@, c),
{
    trim_by(s, false, c)
}

/// Whether `p` occurs in `s` at character `i`.
fn occurs_at(s: &str, p: &str, i: usize, n: usize, m: usize) -> (r: bool)
    requires
        n == s@.len(),
        m == p@.len(),
        i <= n,
        m <= n - i,
    ensures
        r == (s@.subrange(i as int, i + m) == p@),
{
    let mut k: usize = 0;
    while k < m
        invariant
            k <= m,
            n == s@.len(),
            m == p@.len(),
            i <= n,
            m <= n - i,
            forall|q: int| 0 <= q < k ==> s@[i + q] == p@[q],
        decreases m - k,
    {
        if s.get_char(i + k) != p.get_char(k) {
            assert(s@.subrange(i as int, i + m)[k as int] != p@[k as int]);
            return false;
        }
        k = k + 1;
    }
    assert(s@.subrange(i as int, i + m) =~= p@);
    true
}

/// The slice with the prefix `p` removed as long as it occurs at the front
/// (nothing for an empty `p`), what `str::trim_start_matches` gives with a
/// string pattern.
pub fn trim_start_matches_str<'a>(s: &'a str, p: &str) -> (r: &'a str)
    ensures
        r@ == strip_prefix_repeated(s@, p@),
{
    let n = s.unicode_len();
    let m = p.unicode_len();
    if m == 0 {
        return s;
    }
    let mut i: usize = 0;
    assert(s@.skip(0) =~= s@);
    while m <= n - i
        invariant
            i <= n,
            n == s@.len(),
            m == p@.len(),
            m > 0,
            strip_prefix_repeated(s@, p@) == strip_prefix_repeated(s@.skip(i as int), p@),
        ensures
            i <= n,
            strip_prefix_repeated(s@, p@) == strip_prefix_repeated(s@.skip(i as int), p@),
            m <= n - i ==> s@.subrange(i as int, i + m) != p@,
        decreases n - i,
    {
        if !occurs_at(s, p, i, n, m) {
            break;
        }
        assert(s@.skip(i as int).subrange(0, m as int) =~= s@.subrange(i as int, i + m));
        assert(s@.skip(i as int).skip(m as int) =~= s@.skip(i + m));
        i = i + m;
    }
    if m <= n - i {
        assert(s@.skip(i as int).subrange(0, m as int) =~= s@.subrange(i as int, i + m));
    }
    assert(s@.skip(i as int) =~= s@.subrange(i as int, n as int));
    s.substring_char(i, n)
}

/// The slice with the suffix `p` removed as long as it occurs at the end
/// (nothing for an empty `p`), what `str::trim_end_matches` gives with a
/// string pattern.
pub fn trim_end_matches_str<'a>(s: &'a str, p: &str) -> (r: &'a str)
    ensures
        r@ == strip_suffix_repeated(s@, p@),
{
    let n = s.unicode_len();
    let m = p.unicode_len();
    if m == 0 {
        return s;
    }
    let mut j: usize = n;
    assert(s@.subrange(0, n as int) =~= s@);
    while m <= j
        invariant
            j <= n,
            n == s@.len(),
            m == p@.len(),
            m > 0,
            strip_suffix_repeated(s@, p@) == strip_suffix_repeated(s@.subrange(0, j as int), p@),
        ensures
            j <= n,
            strip_suffix_repeated(s@, p@) == strip_suffix_repeated(s@.subrange(0, j as int), p@),
            m <= j ==> s@.subrange(j - m, j as int) != p@,
        decreases j,
    {
        if !occurs_at(s, p, j - m, n, m) {
            break;
        }
        assert(s@.subrange(0, j as int).subrange(j - m, j as int) =~= s@.subrange(j - m, j as int));
        assert(s@.subrange(0, j as int).subrange(0, j - m) =~= s@.subrange(0, j - m));
        j = j - m;
    }
    if m <= j {
        assert(s@.subrange(0, j as int).subrange(j - m, j as int) =~= s@.subrange(j - m, j as int));
    }
    s.substring_char(0, j)
}

/// `String::push`: appends one character.
#[verifier::external_body]
pub fn push_char(s: &mut String, c: char)
    ensures
        final(s)@ == old(s)@.push(c),
{
    s.push(c);
}

/// `s` with the suffix `p` removed as many times as it occurs at the end.
pub open spec fn strip_suffix_repeated(s: Seq<char>, p: Seq<char>) -> Seq<char>
    decreases s.len(),
{
    if p.len() > 0 && p.len() <= s.len() && s.subrange(s.len() - p.len(), s.len() as int) == p {
        strip_suffix_repeated(s.subrange(0, s.len() - p.len()), p)
    } else {
        s
    }
}

/// The value of a decimal digit character.
pub open spec fn digit_value(c: char) -> int {
    (c as int) - 48
}

/// A decimal digit character.
pub open spec fn is_digit_char(c: char) -> bool {
    '0' <= c && c <= '9'
}

/// Every character is a decimal digit.
pub open spec fn all_digits(s: Seq<char>) -> bool {
    forall|i: int| 0 <= i < s.len() ==> is_digit_char(#[trigger] s[i])
}

/// The value of a string of decimal digits.
pub open spec fn digits_value(s: Seq<char>) -> nat
    decreases s.len(),
{
    if s.len() == 0 {
        0
    } else {
        (digits_value(s.drop_last()) * 10 + digit_value(s.last())) as nat
    }
}

/// What `str::parse::<u64>` accepts: an optional `+`, then one or more
/// decimal digits whose value fits in 64 bits.
pub open spec fn parsed_u64(s: Seq<char>) -> Option<u64> {
    let t = if s.len() > 0 && s[0] == '+' {
        s.drop_first()
    } else {
        s
    };
    if t.len() > 0 && all_digits(t) && digits_value(t) <= u64::MAX {
        Some(digits_value(t) as u64)
    } else {
        None
    }
}

/// A string of digits is worth at least any of its prefixes.
pub proof fn lemma_digits_prefix(t: Seq<char>, k: int)
    requires
        0 <= k <= t.len(),
        all_digits(t),
    ensures
        digits_value(t.take(k)) <= digits_value(t),
    decreases t.len() - k,
{
    if k < t.len() {
        lemma_digits_prefix(t, k + 1);
        assert(t.take(k + 1).drop_last() =~= t.take(k));
        assert(t.take(k + 1).last() == t[k]);
        assert(is_digit_char(t[k]));
    } else {
        assert(t.take(k) =~= t);
    }
}

/// The value of an optional `+` followed by decimal digits, when it fits in
/// 64 bits (what `str::parse::<u64>` accepts).
pub fn parse_u64(s: &str) -> (r: Option<u64>)
    ensures
        r == parsed_u64(s@),
{
    let n = s.unicode_len();
    let start: usize = if n > 0 && s.get_char(0) == '+' {
        1
    } else {
        0
    };
    let ghost t = if s@.len() > 0 && s@[0] == '+' {
        s@.drop_first()
    } else {
        s@
    };
    assert(t =~= s@.skip(start as int));
    if start >= n {
        return None;
    }
    let mut i: usize = start;
    let mut acc: u64 = 0;
    assert(t.take(0) =~= Seq::<char>::empty());
    while i < n
        invariant
            start <= i <= n,
            n == s@.len(),
            t == s@.skip(start as int),
            t == (if s@.len() > 0 && s@[0] == '+' {
                s@.drop_first()
            } else {
                s@
            }),
            t.len() == n - start,
            t.len() > 0,
            all_digits(t.take(i - start)),
            acc == digits_value(t.take(i - start)),
        decreases n - i,
    {
        let c = s.get_char(i);
        let ghost k: int = i - start;
        assert(t[k] == c);
        if !('0' <= c && c <= '9') {
            assert(!is_digit_char(t[k]));
            return None;
        }
        let d: u64 = (c as u32 - 48) as u64;
        assert(t.take(k + 1).drop_last() =~= t.take(k));
        assert(t.take(k + 1).last() == c);
        assert(all_digits(t.take(k + 1)));
        assert(digits_value(t.take(k + 1)) == acc * 10 + d);
        let next = match acc.checked_mul(10) {
            Some(x) => x.checked_add(d),
            None => None,
        };
        match next {
            Some(v) => {
                acc = v;
            },
            None => {
                proof {
                    if all_digits(t) {
                        lemma_digits_prefix(t, k + 1);
                    }
                }
                return None;
            },
        }
        i = i + 1;
    }
    assert(t.take(n - start) =~= t);
    Some(acc)
}

/// Dropping leading characters leaves a suffix whose first character (if
/// any) is not dropped.
pub proof fn lemma_drop_leading(s: Seq<char>, strip: spec_fn(char) -> bool)
    ensures
        exists|k: int|
            0 <= k <= s.len() && drop_leading(s, strip) == s.skip(k) && (k < s.len() ==> !strip(
                s[k],
            )),
    decreases s.len(),
{
    if s.len() > 0 && strip(s[0]) {
        lemma_drop_leading(s.drop_first(), strip);
        let t = s.drop_first();
        let k = choose|k: int|
            0 <= k <= t.len() && drop_leading(t, strip) == t.skip(k) && (k < t.len() ==> !strip(
                t[k],
            ));
        assert(t.skip(k) =~= s.skip(k + 1));
        assert(0 <= k + 1 <= s.len() && drop_leading(s, strip) == s.skip(k + 1) && (k + 1 < s.len()
            ==> !strip(s[k + 1])));
    } else {
        assert(s.skip(0) =~= s);
        assert(0 <= 0 <= s.len() && drop_leading(s, strip) == s.skip(0) && (0 < s.len() ==> !strip(
            s[0],
        )));
    }
}

/// Dropping trailing characters leaves a prefix.
pub proof fn lemma_drop_trailing(s: Seq<char>, strip: spec_fn(char) -> bool)
    ensures
        exists|k: int| 0 <= k <= s.len() && drop_trailing(s, strip) == s.take(k),
    decreases s.len(),
{
    if s.len() > 0 && strip(s.last()) {
        lemma_drop_trailing(s.drop_last(), strip);
        let t = s.drop_last();
        let k = choose|k: int| 0 <= k <= t.len() && drop_trailing(t, strip) == t.take(k);
        assert(t.take(k) =~= s.take(k));
    } else {
        assert(s.take(s.len() as int) =~= s);
    }
}

/// Trimming keeps a stretch of the text that does not begin with white space.
pub proof fn lemma_trim_white(s: Seq<char>)
    ensures
        exists|i: int, j: int| 0 <= i <= j <= s.len() && trim_white(s) == s.subrange(i, j),
        trim_white(s).len() > 0 ==> !is_white_space(trim_white(s)[0]),
{
    let f = |c: char| is_white_space(c);
    lemma_drop_leading(s, f);
    let k = choose|k: int|
        0 <= k <= s.len() && drop_leading(s, f) == s.skip(k) && (k < s.len() ==> !f(s[k]));
    let l = drop_leading(s, f);
    lemma_drop_trailing(l, f);
    let m = choose|m: int| 0 <= m <= l.len() && drop_trailing(l, f) == l.take(m);
    assert(l.take(m) =~= s.subrange(k, k + m));
    assert(trim_white(s) == drop_trailing(l, f));
    if trim_white(s).len() > 0 {
        assert(trim_white(s)[0] == s[k]);
    }
}

} // verus!
