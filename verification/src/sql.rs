//! A scanner for the subset of MySQL dump syntax the importer reads:
//! quoted strings with MySQL escapes, statements ended by `;`, value tuples
//! and comma-separated lists that may nest parentheses.

use vstd::prelude::*;
use vstd::string::StringSliceAdditionalSpecFns;

use vstd::utf8::{encode_utf8, encode_utf8_decode_utf8, encode_utf8_valid_utf8, is_ascii_chars, is_ascii_chars_encode_utf8};

use crate::bytes::{
    eq_ci, eq_ignore_case, find_ci, is_ws, matches_ci_at, skip_ws, spec_find_ci, spec_is_ws, spec_lower,
    spec_skip_ws, spec_trim_ascii, trim_ascii, trim_end_ws, trim_start_ws,
};
use crate::text::{
    drop_leading, drop_trailing, is_white_space, lossy_string, lossy_text, trim_char, trim_matches_char, trim_str,
    trim_white,
};

verus! {

/// The bytes that the escape `\e` stands for inside a quoted string.
pub open spec fn unescape(e: u8) -> Seq<u8> {
    if e == 110u8 {
        seq![10u8]
    } else if e == 114u8 {
        seq![13u8]
    } else if e == 116u8 {
        seq![9u8]
    } else if e == 48u8 {
        seq![0u8]
    } else if e == 98u8 {
        seq![8u8]
    } else if e == 90u8 {
        seq![26u8]
    } else if e == 37u8 {
        seq![92u8, 37u8]
    } else if e == 95u8 {
        seq![92u8, 95u8]
    } else {
        seq![e]
    }
}

/// A quoted string whose body starts at `i`: its unescaped bytes, and the
/// position just after the closing quote (the end of `b` when the string
/// is not closed). `\e` is an escape, `''` a quote, a lone `'` closes.
pub open spec fn string_scan(b: Seq<u8>, i: int) -> (Seq<u8>, int)
    decreases b.len() - i,
{
    if i < 0 || i >= b.len() {
        (seq![], i)
    } else if b[i] == 92u8 && i + 1 < b.len() {
        let r = string_scan(b, i + 2);
        (unescape(b[i + 1]) + r.0, r.1)
    } else if b[i] == 39u8 {
        if i + 1 < b.len() && b[i + 1] == 39u8 {
            let r = string_scan(b, i + 2);
            (seq![39u8] + r.0, r.1)
        } else {
            (seq![], i + 1)
        }
    } else {
        let r = string_scan(b, i + 1);
        (seq![b[i]] + r.0, r.1)
    }
}

/// Where scanning resumes after a quote that opens at `i - 1`: past the
/// closing quote, and in any case past `i - 1`.
pub open spec fn after_string(b: Seq<u8>, i: int) -> int {
    let e = string_scan(b, i).1;
    if e > i { e } else { i }
}

/// The string scan never moves backwards and never passes the end.
pub proof fn lemma_string_scan_bounds(b: Seq<u8>, i: int)
    ensures
        i <= string_scan(b, i).1,
        0 <= i <= b.len() ==> string_scan(b, i).1 <= b.len(),
    decreases b.len() - i,
{
    if i < 0 || i >= b.len() {
    } else if b[i] == 92u8 && i + 1 < b.len() {
        lemma_string_scan_bounds(b, i + 2);
    } else if b[i] == 39u8 {
        if i + 1 < b.len() && b[i + 1] == 39u8 {
            lemma_string_scan_bounds(b, i + 2);
        }
    } else {
        lemma_string_scan_bounds(b, i + 1);
    }
}

/// Reads a quoted SQL string whose body starts at `i` (just after the opening
/// quote): returns the unescaped text and the position after the closing quote.
pub fn read_sql_string(bytes: &[u8], i: usize) -> (r: (String, usize))
    ensures
        r.0@ == lossy_text(string_scan(bytes@, i as int).0),
        r.1 == string_scan(bytes@, i as int).1,
        i <= r.1,
        i <= bytes@.len() ==> r.1 <= bytes@.len(),
{
    proof {
        lemma_string_scan_bounds(bytes@, i as int);
    }
    let n = bytes.len();
    let mut out: Vec<u8> = Vec::new();
    let mut j = i;
    let ghost i0 = i as int;
    while j < n
        invariant
            n == bytes@.len(),
            i0 == i as int,
            i0 <= string_scan(bytes@, i0).1,
            0 <= i0 <= bytes@.len() ==> string_scan(bytes@, i0).1 <= bytes@.len(),
            out@ + string_scan(bytes@, j as int).0 == string_scan(bytes@, i0).0,
            string_scan(bytes@, j as int).1 == string_scan(bytes@, i0).1,
        decreases n - j,
    {
        let c = bytes[j];
        if c == 92u8 && j + 1 < n {
            let e = bytes[j + 1];
            let ghost before = out@;
            if e == 110u8 {
                out.push(10u8);
            } else if e == 114u8 {
                out.push(13u8);
            } else if e == 116u8 {
                out.push(9u8);
            } else if e == 48u8 {
                out.push(0u8);
            } else if e == 98u8 {
                out.push(8u8);
            } else if e == 90u8 {
                out.push(26u8);
            } else if e == 37u8 {
                out.push(92u8);
                out.push(37u8);
            } else if e == 95u8 {
                out.push(92u8);
                out.push(95u8);
            } else {
                out.push(e);
            }
            proof {
                assert(out@ =~= before + unescape(e));
                let r = string_scan(bytes@, j + 2);
                assert(before + (unescape(e) + r.0) =~= out@ + r.0);
            }
            j = j + 2;
            continue;
        }
        if c == 39u8 {
            if j + 1 < n && bytes[j + 1] == 39u8 {
                let ghost before = out@;
                out.push(39u8);
                proof {
                    let r = string_scan(bytes@, j + 2);
                    assert(before + (seq![39u8] + r.0) =~= out@ + r.0);
                }
                j = j + 2;
                continue;
            }
            proof {
                assert(string_scan(bytes@, j as int) == (Seq::<u8>::empty(), j + 1));
                assert(out@ + Seq::<u8>::empty() =~= out@);
            }
            return (lossy_string(out.as_slice()), j + 1);
        }
        let ghost before = out@;
        out.push(c);
        proof {
            let r = string_scan(bytes@, j + 1);
            assert(before + (seq![c] + r.0) =~= out@ + r.0);
        }
        j = j + 1;
    }
    proof {
        assert(out@ + seq![] =~= out@);
    }
    (lossy_string(out.as_slice()), j)
}

/// The position just after the `;` that ends the statement containing `i`;
/// semicolons inside quoted strings do not count. The end of `b` when no
/// such `;` follows.
pub open spec fn statement_end(b: Seq<u8>, i: int) -> int
    decreases b.len() - i,
{
    if i < 0 || i >= b.len() {
        i
    } else if b[i] == 39u8 {
        proof {
            lemma_string_scan_bounds(b, i + 1);
        }
        statement_end(b, after_string(b, i + 1))
    } else if b[i] == 59u8 {
        i + 1
    } else {
        statement_end(b, i + 1)
    }
}

/// The statement end never lies before `i` nor past the end of `b`.
pub proof fn lemma_statement_end_bounds(b: Seq<u8>, i: int)
    ensures
        i <= statement_end(b, i),
        0 <= i <= b.len() ==> statement_end(b, i) <= b.len(),
    decreases b.len() - i,
{
    if i < 0 || i >= b.len() {
    } else if b[i] == 39u8 {
        lemma_string_scan_bounds(b, i + 1);
        lemma_statement_end_bounds(b, after_string(b, i + 1));
    } else if b[i] == 59u8 {
    } else {
        lemma_statement_end_bounds(b, i + 1);
    }
}

/// Skips the rest of the statement that contains `i` (quote-aware) and
/// returns the position just after its `;`.
pub fn skip_statement(bytes: &[u8], i: usize) -> (r: usize)
    ensures
        r == statement_end(bytes@, i as int),
        i <= r,
        i <= bytes@.len() ==> r <= bytes@.len(),
{
    proof {
        lemma_statement_end_bounds(bytes@, i as int);
    }
    let mut j = i;
    while j < bytes.len()
        invariant
            i <= j,
            i <= bytes@.len() ==> j <= bytes@.len(),
            statement_end(bytes@, j as int) == statement_end(bytes@, i as int),
        decreases bytes@.len() - j,
    {
        if bytes[j] == 39u8 {
            let (_s, next) = read_sql_string(bytes, j + 1);
            j = if next > j + 1 { next } else { j + 1 };
        } else if bytes[j] == 59u8 {
            return j + 1;
        } else {
            j = j + 1;
        }
    }
    j
}

/// The pieces of `b` between top-level commas, scanning from `i` with the
/// current parenthesis `depth`, the current piece starting at `start`, and
/// the pieces found so far in `acc`. Commas inside quoted strings or inside
/// parentheses do not split.
pub open spec fn commas_scan(b: Seq<u8>, i: int, depth: int, start: int, acc: Seq<Seq<u8>>) -> Seq<
    Seq<u8>,
>
    decreases b.len() - i,
{
    if i < 0 || i >= b.len() {
        acc.push(b.subrange(start, b.len() as int))
    } else if b[i] == 39u8 {
        proof {
            lemma_string_scan_bounds(b, i + 1);
        }
        commas_scan(b, after_string(b, i + 1), depth, start, acc)
    } else if b[i] == 40u8 {
        commas_scan(b, i + 1, depth + 1, start, acc)
    } else if b[i] == 41u8 {
        commas_scan(b, i + 1, depth - 1, start, acc)
    } else if b[i] == 44u8 && depth <= 0 {
        commas_scan(b, i + 1, depth, i + 1, acc.push(b.subrange(start, i)))
    } else {
        commas_scan(b, i + 1, depth, start, acc)
    }
}

/// The pieces of `b` between its top-level commas.
pub open spec fn split_commas(b: Seq<u8>) -> Seq<Seq<u8>> {
    commas_scan(b, 0, 0, 0, seq![])
}

/// Splits `body` at its top-level commas: commas inside quoted strings or
/// parentheses do not split. There is always at least one piece.
pub fn split_top_level_commas(body: &[u8]) -> (r: Vec<&[u8]>)
    ensures
        r@.len() == split_commas(body@).len(),
        forall|k: int| 0 <= k < r@.len() ==> (#[trigger] r@[k])@ == split_commas(body@)[k],
{
    let n = body.len();
    let mut out: Vec<&[u8]> = Vec::new();
    let mut opens: usize = 0;
    let mut closes: usize = 0;
    let mut start: usize = 0;
    let mut i: usize = 0;
    let ghost mut acc: Seq<Seq<u8>> = seq![];
    while i < n
        invariant
            n == body@.len(),
            start <= i <= n,
            opens <= i,
            closes <= i,
            out@.len() == acc.len(),
            forall|k: int| 0 <= k < out@.len() ==> (#[trigger] out@[k])@ == acc[k],
            commas_scan(body@, i as int, opens - closes, start as int, acc) == split_commas(body@),
        decreases n - i,
    {
        if body[i] == 39u8 {
            let (_s, next) = read_sql_string(body, i + 1);
            i = if next > i + 1 { next } else { i + 1 };
        } else if body[i] == 40u8 {
            opens = opens + 1;
            i = i + 1;
        } else if body[i] == 41u8 {
            closes = closes + 1;
            i = i + 1;
        } else if body[i] == 44u8 && opens <= closes {
            let piece = &body[start..i];
            out.push(piece);
            proof {
                acc = acc.push(body@.subrange(start as int, i as int));
            }
            start = i + 1;
            i = i + 1;
        } else {
            i = i + 1;
        }
    }
    let last = &body[start..n];
    out.push(last);
    proof {
        acc = acc.push(body@.subrange(start as int, n as int));
    }
    out
}

/// The keyword `NULL`.
pub open spec fn null_keyword() -> Seq<u8> {
    seq![78u8, 85u8, 76u8, 76u8]
}

/// The value a raw SQL literal stands for: `None` for `NULL`, for an empty
/// literal and for one that is blank once trimmed; a quoted string is
/// unescaped; anything else is taken as it is. The text is trimmed.
pub open spec fn sql_value(raw: Seq<u8>) -> Option<Seq<char>> {
    let t = spec_trim_ascii(raw);
    if t.len() == 0 || eq_ci(t, null_keyword()) {
        None
    } else {
        let s = if t[0] == 39u8 {
            lossy_text(string_scan(t, 1).0)
        } else {
            lossy_text(t)
        };
        let v = trim_white(s);
        if v.len() == 0 {
            None
        } else {
            Some(v)
        }
    }
}

/// An optional string as optional text.
pub open spec fn opt_text(o: Option<String>) -> Option<Seq<char>> {
    match o {
        Some(s) => Some(s@),
        None => None,
    }
}

/// The values of one tuple body, split at its top-level commas.
pub open spec fn tuple_values(body: Seq<u8>) -> Seq<Option<Seq<char>>> {
    split_commas(body).map_values(|p: Seq<u8>| sql_value(p))
}

/// Parses one SQL value: `NULL` and empty text give `None`, a quoted string
/// is unescaped, anything else is kept as written; the result is trimmed.
pub fn parse_sql_value(raw: &[u8]) -> (r: Option<String>)
    ensures
        opt_text(r) == sql_value(raw@),
{
    let t = trim_ascii(raw);
    let null_kw: Vec<u8> = vec![78u8, 85u8, 76u8, 76u8];
    assert(null_kw@ =~= null_keyword());
    if t.len() == 0 || eq_ignore_case(t, null_kw.as_slice()) {
        return None;
    }
    let s = if t[0] == 39u8 {
        read_sql_string(t, 1).0
    } else {
        lossy_string(t)
    };
    let v = trim_str(s.as_str());
    if v.is_empty() {
        None
    } else {
        Some(v.to_owned())
    }
}

/// The values of one tuple body (`v1, v2, ...` without the parentheses).
pub fn split_tuple_values(body: &[u8]) -> (r: Vec<Option<String>>)
    ensures
        tuple_text(r) == tuple_values(body@),
        r@.len() == tuple_values(body@).len(),
        forall|k: int| 0 <= k < r@.len() ==> opt_text(#[trigger] r@[k]) == tuple_values(body@)[k],
{
    let pieces = split_top_level_commas(body);
    let mut out: Vec<Option<String>> = Vec::new();
    let mut k: usize = 0;
    while k < pieces.len()
        invariant
            pieces@.len() == split_commas(body@).len(),
            forall|j: int| 0 <= j < pieces@.len() ==> (#[trigger] pieces@[j])@ == split_commas(body@)[j],
            k <= pieces@.len(),
            out@.len() == k,
            forall|j: int| 0 <= j < k ==> opt_text(#[trigger] out@[j]) == tuple_values(body@)[j],
        decreases pieces@.len() - k,
    {
        let v = parse_sql_value(pieces[k]);
        out.push(v);
        k = k + 1;
    }
    assert(tuple_text(out) =~= tuple_values(body@));
    out
}

/// A tuple of optional strings as a sequence of optional texts.
pub open spec fn tuple_text(v: Vec<Option<String>>) -> Seq<Option<Seq<char>>> {
    v@.map_values(|o: Option<String>| opt_text(o))
}

/// The keyword `INSERT INTO`.
pub open spec fn insert_keyword() -> Seq<u8> {
    seq![73u8, 78u8, 83u8, 69u8, 82u8, 84u8, 32u8, 73u8, 78u8, 84u8, 79u8]
}

/// The keyword `VALUES`.
pub open spec fn values_keyword() -> Seq<u8> {
    seq![86u8, 65u8, 76u8, 85u8, 69u8, 83u8]
}

/// The bodies of the parenthesised tuples of a `VALUES` list, scanning from
/// `i` at parenthesis `depth`; `start` is where the current top-level tuple
/// body begins. The scan stops just after a top-level `;`, or at a top-level
/// `INSERT INTO` (a statement that lacks its `;`), or at the end of `b`; the
/// second component is where it stopped.
pub open spec fn tuples_scan(b: Seq<u8>, i: int, depth: nat, start: int, acc: Seq<Seq<u8>>) -> (
    Seq<Seq<u8>>,
    int,
)
    decreases b.len() - i,
{
    if i < 0 || i >= b.len() {
        (acc, i)
    } else if b[i] == 39u8 {
        proof {
            lemma_string_scan_bounds(b, i + 1);
        }
        tuples_scan(b, after_string(b, i + 1), depth, start, acc)
    } else if b[i] == 40u8 {
        tuples_scan(b, i + 1, depth + 1, if depth == 0 { i + 1 } else { start }, acc)
    } else if b[i] == 41u8 {
        if depth <= 1 {
            tuples_scan(
                b,
                i + 1,
                0,
                start,
                if depth == 1 { acc.push(b.subrange(start, i)) } else { acc },
            )
        } else {
            tuples_scan(b, i + 1, (depth - 1) as nat, start, acc)
        }
    } else if b[i] == 59u8 && depth == 0 {
        (acc, i + 1)
    } else if depth == 0 && matches_ci_at(b, insert_keyword(), i) {
        (acc, i)
    } else {
        tuples_scan(b, i + 1, depth, start, acc)
    }
}

/// The tuple bodies of the `VALUES` list that starts at `i`, and where the
/// list ends.
pub open spec fn value_tuples(b: Seq<u8>, i: int) -> (Seq<Seq<u8>>, int) {
    tuples_scan(b, i, 0, 0, seq![])
}

/// Splits the payload `(v1, v2, ...), (...)` that starts at `i` into rows of
/// values; stops after a top-level `;` or before the next `INSERT INTO`.
pub fn split_value_tuples(bytes: &[u8], i: usize) -> (r: (Vec<Vec<Option<String>>>, usize))
    ensures
        r.1 == value_tuples(bytes@, i as int).1,
        r.0@.len() == value_tuples(bytes@, i as int).0.len(),
        forall|k: int|
            0 <= k < r.0@.len() ==> tuple_text(#[trigger] r.0@[k]) == tuple_values(
                value_tuples(bytes@, i as int).0[k],
            ),
        i <= r.1,
        i <= bytes@.len() ==> r.1 <= bytes@.len(),
        r.0@.len() <= r.1 - i,
{
    let n = bytes.len();
    let mut tuples: Vec<Vec<Option<String>>> = Vec::new();
    let mut depth: usize = 0;
    let mut body_start: usize = 0;
    let mut j = i;
    let ghost mut acc: Seq<Seq<u8>> = seq![];
    let ghost i0 = i as int;
    let kw: Vec<u8> = vec![73u8, 78u8, 83u8, 69u8, 82u8, 84u8, 32u8, 73u8, 78u8, 84u8, 79u8];
    assert(kw@ =~= insert_keyword());
    while j < n
        invariant_except_break
            n == bytes@.len(),
            i0 == i as int,
            kw@ == insert_keyword(),
            i <= j,
            i <= n ==> j <= n,
            depth <= j,
            depth > 0 ==> body_start <= j,
            tuples@.len() == acc.len(),
            acc.len() <= j - i,
            forall|k: int|
                0 <= k < tuples@.len() ==> tuple_text(#[trigger] tuples@[k]) == tuple_values(acc[k]),
            tuples_scan(bytes@, j as int, depth as nat, body_start as int, acc) == value_tuples(
                bytes@,
                i0,
            ),
        ensures
            tuples@.len() == acc.len(),
            forall|k: int|
                0 <= k < tuples@.len() ==> tuple_text(#[trigger] tuples@[k]) == tuple_values(acc[k]),
            acc == value_tuples(bytes@, i0).0,
            j == value_tuples(bytes@, i0).1,
            i <= j,
            i <= n ==> j <= n,
            acc.len() <= j - i,
        decreases n - j,
    {
        let c = bytes[j];
        if c == 39u8 {
            let (_s, next) = read_sql_string(bytes, j + 1);
            j = if next > j + 1 { next } else { j + 1 };
        } else if c == 40u8 {
            if depth == 0 {
                body_start = j + 1;
            }
            depth = depth + 1;
            j = j + 1;
        } else if c == 41u8 {
            if depth <= 1 {
                if depth == 1 {
                    let row = split_tuple_values(&bytes[body_start..j]);
                    tuples.push(row);
                    proof {
                        acc = acc.push(bytes@.subrange(body_start as int, j as int));
                    }
                }
                depth = 0;
            } else {
                depth = depth - 1;
            }
            j = j + 1;
        } else if c == 59u8 && depth == 0 {
            j = j + 1;
            break;
        } else if (c == 73u8 || c == 105u8) && depth == 0 && n - j >= 11 && eq_ignore_case(
            &bytes[j..j + 11],
            kw.as_slice(),
        ) {
            break;
        } else {
            proof {
                if depth == 0 && matches_ci_at(bytes@, insert_keyword(), j as int) {
                    assert(spec_lower(bytes@.subrange(j as int, j + 11)[0])
                        == spec_lower(insert_keyword()[0]));
                }
            }
            j = j + 1;
        }
    }
    (tuples, j)
}

/// The first position at or after `from` where `s` holds `c`.
pub open spec fn first_index(s: Seq<u8>, c: u8, from: int) -> Option<int>
    decreases s.len() - from,
{
    if from < 0 || from >= s.len() {
        None
    } else if s[from] == c {
        Some(from)
    } else {
        first_index(s, c, from + 1)
    }
}

/// The last position before `end` where `s` holds `c`.
pub open spec fn last_index_before(s: Seq<u8>, c: u8, end: int) -> Option<int>
    decreases end,
{
    if end <= 0 || end > s.len() {
        None
    } else if s[end - 1] == c {
        Some(end - 1)
    } else {
        last_index_before(s, c, end - 1)
    }
}

/// Finds the first `c` at or after `from`.
pub fn position_of(s: &[u8], c: u8, from: usize) -> (r: Option<usize>)
    ensures
        r matches Some(k) ==> first_index(s@, c, from as int) == Some(k as int),
        r is None ==> first_index(s@, c, from as int) is None,
        r matches Some(k) ==> from <= k < s@.len() && s@[k as int] == c,
{
    let mut k = from;
    while k < s.len()
        invariant
            from <= k,
            first_index(s@, c, k as int) == first_index(s@, c, from as int),
        decreases s@.len() - k,
    {
        if s[k] == c {
            return Some(k);
        }
        k = k + 1;
    }
    None
}

/// Finds the last `c` in `s`.
pub fn last_position_of(s: &[u8], c: u8) -> (r: Option<usize>)
    ensures
        r matches Some(k) ==> last_index_before(s@, c, s@.len() as int) == Some(k as int),
        r is None ==> last_index_before(s@, c, s@.len() as int) is None,
        r matches Some(k) ==> k < s@.len() && s@[k as int] == c,
{
    let mut e = s.len();
    while e > 0
        invariant
            e <= s@.len(),
            last_index_before(s@, c, e as int) == last_index_before(s@, c, s@.len() as int),
        decreases e,
    {
        if s[e - 1] == c {
            return Some(e - 1);
        }
        e = e - 1;
    }
    None
}

/// An ASCII letter or digit.
pub open spec fn spec_is_alnum(c: u8) -> bool {
    (48u8 <= c && c <= 57u8) || (65u8 <= c && c <= 90u8) || (97u8 <= c && c <= 122u8)
}

/// A byte that may appear in an unquoted table name.
pub open spec fn is_ident_byte(c: u8) -> bool {
    spec_is_alnum(c) || c == 95u8 || c == 36u8 || c == 46u8
}

/// The end of the unquoted name that starts at `p`.
pub open spec fn ident_end(b: Seq<u8>, p: int) -> int
    decreases b.len() - p,
{
    if 0 <= p < b.len() && is_ident_byte(b[p]) {
        ident_end(b, p + 1)
    } else {
        p
    }
}

/// An identifier without quotes: trimmed, then stripped of back-ticks, single
/// quotes and double quotes at either end, then trimmed again.
pub open spec fn ident_text(raw: Seq<u8>) -> Seq<char> {
    trim_white(
        trim_char(trim_char(trim_char(trim_white(lossy_text(raw)), '`'), '\''), '"'),
    )
}

/// The non-empty identifiers among `pieces`, in order.
pub open spec fn ident_list(pieces: Seq<Seq<u8>>) -> Seq<Seq<char>>
    decreases pieces.len(),
{
    if pieces.len() == 0 {
        seq![]
    } else {
        let prev = ident_list(pieces.drop_last());
        let name = ident_text(pieces.last());
        if name.len() > 0 {
            prev.push(name)
        } else {
            prev
        }
    }
}

/// The column names listed between the first `(` and the last `)` of `seg`.
pub open spec fn column_list(seg: Seq<u8>) -> Seq<Seq<char>> {
    match (first_index(seg, 40u8, 0), last_index_before(seg, 41u8, seg.len() as int)) {
        (Some(o), Some(c)) => if c > o {
            ident_list(split_commas(seg.subrange(o + 1, c)))
        } else {
            seq![]
        },
        _ => seq![],
    }
}

/// The table name after `INSERT INTO` (its bytes, and where it ends).
pub open spec fn table_name_at(b: Seq<u8>, p0: int) -> Option<(Seq<u8>, int)> {
    if 0 <= p0 < b.len() && b[p0] == 96u8 {
        match first_index(b, 96u8, p0 + 1) {
            Some(e) => Some((b.subrange(p0 + 1, e), e + 1)),
            None => None,
        }
    } else {
        let e = ident_end(b, p0);
        if e == p0 {
            None
        } else {
            Some((b.subrange(p0, e), e))
        }
    }
}

/// The head of an `INSERT INTO` statement at `i`: the table name, the column
/// names (empty when none are listed) and the position just after `VALUES`.
pub open spec fn insert_head(b: Seq<u8>, i: int) -> Option<(Seq<char>, Seq<Seq<char>>, int)> {
    if !matches_ci_at(b, insert_keyword(), i) {
        None
    } else {
        match table_name_at(b, spec_skip_ws(b, i + 11)) {
            None => None,
            Some((tb, p)) => match spec_find_ci(b.subrange(p, b.len() as int), values_keyword()) {
                None => None,
                Some(r) => Some((lossy_text(tb), column_list(b.subrange(p, p + r + 6)), p + r + 6)),
            },
        }
    }
}

/// A column name list as texts.
pub open spec fn names_text(v: Vec<String>) -> Seq<Seq<char>> {
    v@.map_values(|s: String| s@)
}

/// Removes quotes from an identifier (`` `a` ``, `'a'`, `"a"`) and trims it.
pub fn clean_ident(raw: &[u8]) -> (r: String)
    ensures
        r@ == ident_text(raw@),
{
    let s = lossy_string(raw);
    let t = trim_str(s.as_str());
    let t = trim_matches_char(t, '`');
    let t = trim_matches_char(t, '\'');
    let t = trim_matches_char(t, '"');
    trim_str(t).to_owned()
}

/// Parses the head of an `INSERT INTO` statement at `i`: table name,
/// optional column names and the position just after `VALUES`.
pub fn parse_insert_head(bytes: &[u8], i: usize) -> (r: Option<(String, Vec<String>, usize)>)
    ensures
        r is None ==> insert_head(bytes@, i as int) is None,
        r matches Some(h) ==> insert_head(bytes@, i as int) == Some(
            (h.0@, names_text(h.1), h.2 as int),
        ),
        r matches Some(h) ==> i + 11 <= h.2 <= bytes@.len(),
{
    let kw: Vec<u8> = vec![73u8, 78u8, 83u8, 69u8, 82u8, 84u8, 32u8, 73u8, 78u8, 84u8, 79u8];
    assert(kw@ =~= insert_keyword());
    if bytes.len() < 11 || i > bytes.len() - 11 || !eq_ignore_case(&bytes[i..i + 11], kw.as_slice()) {
        return None;
    }
    let p0 = skip_ws(bytes, i + 11);
    let table_end: (usize, usize, usize);
    if p0 < bytes.len() && bytes[p0] == 96u8 {
        match position_of(bytes, 96u8, p0 + 1) {
            Some(e) => {
                table_end = (p0 + 1, e, e + 1);
            },
            None => {
                return None;
            },
        }
    } else {
        let mut p = p0;
        while p < bytes.len() && (is_alnum(bytes[p]) || bytes[p] == 95u8 || bytes[p]
            == 36u8 || bytes[p] == 46u8)
            invariant
                p0 <= p <= bytes@.len(),
                ident_end(bytes@, p as int) == ident_end(bytes@, p0 as int),
            decreases bytes@.len() - p,
        {
            p = p + 1;
        }
        if p == p0 {
            return None;
        }
        table_end = (p0, p, p);
    }
    let (t_start, t_end, p) = table_end;
    let table = lossy_string(&bytes[t_start..t_end]);
    let values_kw: Vec<u8> = vec![86u8, 65u8, 76u8, 85u8, 69u8, 83u8];
    assert(values_kw@ =~= values_keyword());
    let rest = &bytes[p..bytes.len()];
    let found = find_ci(rest, values_kw.as_slice());
    let r = match found {
        Some(r) => r,
        None => {
            return None;
        },
    };
    let values_at = p + r + 6;
    let seg = &bytes[p..values_at];
    let mut cols: Vec<String> = Vec::new();
    match (position_of(seg, 40u8, 0), last_position_of(seg, 41u8)) {
        (Some(open), Some(close)) => {
            if close > open {
                let pieces = split_top_level_commas(&seg[open + 1..close]);
                let ghost all = split_commas(seg@.subrange(open + 1, close as int));
                let mut k: usize = 0;
                while k < pieces.len()
                    invariant
                        pieces@.len() == all.len(),
                        forall|j: int| 0 <= j < pieces@.len() ==> (#[trigger] pieces@[j])@ == all[j],
                        k <= pieces@.len(),
                        names_text(cols) == ident_list(all.subrange(0, k as int)),
                    decreases pieces@.len() - k,
                {
                    let name = clean_ident(pieces[k]);
                    proof {
                        assert(all.subrange(0, k + 1).drop_last() =~= all.subrange(0, k as int));
                    }
                    let ghost before = names_text(cols);
                    if !name.as_str().is_empty() {
                        cols.push(name);
                        assert(names_text(cols) =~= before.push(name@));
                    }
                    k = k + 1;
                }
                assert(all.subrange(0, pieces@.len() as int) =~= all);
            } else {
                assert(names_text(cols) =~= Seq::<Seq<char>>::empty());
            }
        },
        _ => {
            assert(names_text(cols) =~= Seq::<Seq<char>>::empty());
        },
    }
    proof {
        assert(bytes@.subrange(p as int, bytes@.len() as int).subrange(0, r + 6) =~= seg@);
    }
    Some((table, cols, values_at))
}

/// Whether `c` is an ASCII letter or digit.
pub fn is_alnum(c: u8) -> (r: bool)
    ensures
        r == spec_is_alnum(c),
{
    (48u8 <= c && c <= 57u8) || (65u8 <= c && c <= 90u8) || (97u8 <= c && c <= 122u8)
}

/// `CREATE TABLE ` followed by a back-tick.
pub open spec fn create_table_prefix() -> Seq<u8> {
    seq![67u8, 82u8, 69u8, 65u8, 84u8, 69u8, 32u8, 84u8, 65u8, 66u8, 76u8, 69u8, 32u8, 96u8]
}

/// The text that opens the definition of `table`: ``CREATE TABLE `table` ``.
pub open spec fn create_table_needle(table: Seq<u8>) -> Seq<u8> {
    create_table_prefix() + table + seq![96u8]
}

/// The first `(` at or after `i`, unless a `;` comes first.
pub open spec fn open_paren_from(b: Seq<u8>, i: int) -> Option<int>
    decreases b.len() - i,
{
    if i < 0 || i >= b.len() {
        None
    } else if b[i] == 40u8 {
        Some(i)
    } else if b[i] == 59u8 {
        None
    } else {
        open_paren_from(b, i + 1)
    }
}

/// The end of a back-quoted name whose text starts at `i`: the closing
/// back-tick, or the end of `b`.
pub open spec fn backtick_end(b: Seq<u8>, i: int) -> int
    decreases b.len() - i,
{
    if 0 <= i < b.len() && b[i] != 96u8 {
        backtick_end(b, i + 1)
    } else {
        i
    }
}

/// The column names of a table definition, scanning from `i` at parenthesis
/// `depth`; `at_start` says whether the scan is at the start of an item (a
/// top-level comma starts one). A back-quoted name at the start of an item is
/// a column; other items (keys, constraints) add nothing. The scan ends at the
/// `)` that closes the definition.
pub open spec fn columns_scan(
    b: Seq<u8>,
    i: int,
    depth: nat,
    at_start: bool,
    acc: Seq<Seq<char>>,
) -> Seq<Seq<char>>
    decreases b.len() - i,
{
    if i < 0 || i >= b.len() {
        acc
    } else if spec_is_ws(b[i]) {
        columns_scan(b, i + 1, depth, at_start, acc)
    } else if b[i] == 96u8 && at_start {
        let j = backtick_end(b, i + 1);
        let name = trim_white(lossy_text(b.subrange(i + 1, j)));
        proof {
            lemma_backtick_end_bounds(b, i + 1);
        }
        columns_scan(
            b,
            if j < b.len() { j + 1 } else { j },
            depth,
            false,
            if name.len() > 0 { acc.push(name) } else { acc },
        )
    } else if b[i] == 39u8 {
        proof {
            lemma_string_scan_bounds(b, i + 1);
        }
        columns_scan(b, after_string(b, i + 1), depth, false, acc)
    } else if b[i] == 40u8 {
        columns_scan(b, i + 1, depth + 1, false, acc)
    } else if b[i] == 41u8 {
        if depth <= 1 {
            acc
        } else {
            columns_scan(b, i + 1, (depth - 1) as nat, false, acc)
        }
    } else if b[i] == 44u8 && depth == 1 {
        columns_scan(b, i + 1, depth, true, acc)
    } else {
        columns_scan(b, i + 1, depth, false, acc)
    }
}

/// A back-quoted name never ends before it starts, nor past the end of `b`.
pub proof fn lemma_backtick_end_bounds(b: Seq<u8>, i: int)
    ensures
        i <= backtick_end(b, i),
        0 <= i <= b.len() ==> backtick_end(b, i) <= b.len(),
        0 <= i <= b.len() && backtick_end(b, i) < b.len() ==> b[backtick_end(b, i)] == 96u8,
    decreases b.len() - i,
{
    if 0 <= i < b.len() && b[i] != 96u8 {
        lemma_backtick_end_bounds(b, i + 1);
    }
}

/// The column names, in order, of the `CREATE TABLE` definition of `table`
/// in `b`; empty when there is none.
pub open spec fn table_columns(b: Seq<u8>, table: Seq<u8>) -> Seq<Seq<char>> {
    let needle = create_table_needle(table);
    match spec_find_ci(b, needle) {
        None => seq![],
        Some(p) => match open_paren_from(b, p + needle.len()) {
            None => seq![],
            Some(o) => columns_scan(b, o + 1, 1, true, seq![]),
        },
    }
}

/// The column names, in order, of the `CREATE TABLE` definition of `table`
/// in `sql` (keys and constraints skipped); empty when there is none.
pub fn create_table_columns(sql: &str, table: &str) -> (r: Vec<String>)
    ensures
        names_text(r) == table_columns(sql.spec_bytes(), table.spec_bytes()),
{
    let bytes = sql.as_bytes();
    let mut needle: Vec<u8> = vec![67u8, 82u8, 69u8, 65u8, 84u8, 69u8, 32u8, 84u8, 65u8, 66u8, 76u8, 69u8, 32u8, 96u8];
    needle.extend_from_slice(table.as_bytes());
    needle.push(96u8);
    assert(needle@ =~= create_table_needle(table.spec_bytes()));
    let mut cols: Vec<String> = Vec::new();
    let p = match find_ci(bytes, needle.as_slice()) {
        Some(p) => p,
        None => {
            assert(names_text(cols) =~= Seq::<Seq<char>>::empty());
            return cols;
        },
    };
    assert(p + needle.len() <= bytes.len());
    let mut i = p + needle.len();
    while i < bytes.len() && bytes[i] != 40u8
        invariant
            p + needle@.len() <= i <= bytes@.len(),
            cols@.len() == 0,
            bytes@ == sql.spec_bytes(),
            needle@ == create_table_needle(table.spec_bytes()),
            spec_find_ci(bytes@, needle@) == Some(p as int),
            open_paren_from(bytes@, i as int) == open_paren_from(bytes@, p + needle@.len()),
        decreases bytes@.len() - i,
    {
        if bytes[i] == 59u8 {
            assert(names_text(cols) =~= Seq::<Seq<char>>::empty());
            return cols;
        }
        i = i + 1;
    }
    if i >= bytes.len() {
        assert(names_text(cols) =~= Seq::<Seq<char>>::empty());
        return cols;
    }
    let ghost o = i as int;
    let mut depth: usize = 1;
    let mut at_item_start = true;
    i = i + 1;
    assert(names_text(cols) =~= Seq::<Seq<char>>::empty());
    while i < bytes.len()
        invariant_except_break
            1 <= depth <= i,
            i <= bytes@.len(),
            columns_scan(bytes@, i as int, depth as nat, at_item_start, names_text(cols))
                == columns_scan(bytes@, o + 1, 1, true, seq![]),
        ensures
            names_text(cols) == columns_scan(bytes@, o + 1, 1, true, seq![]),
        decreases bytes@.len() - i,
    {
        let c = bytes[i];
        if is_ws(c) {
            i = i + 1;
            continue;
        }
        if c == 96u8 && at_item_start {
            let start = i + 1;
            let mut j = start;
            while j < bytes.len() && bytes[j] != 96u8
                invariant
                    start <= j <= bytes@.len(),
                    backtick_end(bytes@, j as int) == backtick_end(bytes@, start as int),
                decreases bytes@.len() - j,
            {
                j = j + 1;
            }
            let raw = lossy_string(&bytes[start..j]);
            let name = trim_str(raw.as_str()).to_owned();
            let ghost before = names_text(cols);
            if !name.as_str().is_empty() {
                cols.push(name);
                assert(names_text(cols) =~= before.push(name@));
            }
            at_item_start = false;
            i = if j < bytes.len() { j + 1 } else { j };
            continue;
        }
        if c == 39u8 {
            let (_s, next) = read_sql_string(bytes, i + 1);
            i = if next > i + 1 { next } else { i + 1 };
            at_item_start = false;
            continue;
        }
        if c == 40u8 {
            depth = depth + 1;
            at_item_start = false;
            i = i + 1;
            continue;
        }
        if c == 41u8 {
            if depth <= 1 {
                break;
            }
            depth = depth - 1;
            at_item_start = false;
            i = i + 1;
            continue;
        }
        if c == 44u8 && depth == 1 {
            at_item_start = true;
            i = i + 1;
            continue;
        }
        at_item_start = false;
        i = i + 1;
    }
    cols
}

/// The pieces joined back together, with a comma between neighbours.
pub open spec fn join_commas(pieces: Seq<Seq<u8>>) -> Seq<u8>
    decreases pieces.len(),
{
    if pieces.len() == 0 {
        seq![]
    } else if pieces.len() == 1 {
        pieces[0]
    } else {
        join_commas(pieces.drop_last()) + seq![44u8] + pieces.last()
    }
}

/// The scan keeps every byte: the pieces found so far, joined with commas and
/// followed by a comma, are exactly the bytes before the current piece.
proof fn lemma_commas_scan_join(b: Seq<u8>, i: int, depth: int, start: int, acc: Seq<Seq<u8>>)
    requires
        0 <= start <= i <= b.len(),
        acc.len() == 0 ==> start == 0,
        acc.len() > 0 ==> join_commas(acc) + seq![44u8] == b.subrange(0, start),
    ensures
        join_commas(commas_scan(b, i, depth, start, acc)) == b,
    decreases b.len() - i,
{
    if i >= b.len() {
        let last = b.subrange(start, b.len() as int);
        let r = acc.push(last);
        assert(r.drop_last() =~= acc);
        if acc.len() == 0 {
            assert(last =~= b);
        } else {
            assert(join_commas(acc) + seq![44u8] + last =~= b);
        }
    } else if b[i] == 39u8 {
        lemma_string_scan_bounds(b, i + 1);
        lemma_commas_scan_join(b, after_string(b, i + 1), depth, start, acc);
    } else if b[i] == 40u8 {
        lemma_commas_scan_join(b, i + 1, depth + 1, start, acc);
    } else if b[i] == 41u8 {
        lemma_commas_scan_join(b, i + 1, depth - 1, start, acc);
    } else if b[i] == 44u8 && depth <= 0 {
        let piece = b.subrange(start, i);
        let acc2 = acc.push(piece);
        assert(acc2.drop_last() =~= acc);
        if acc.len() == 0 {
            assert(join_commas(acc2) + seq![44u8] =~= b.subrange(0, i + 1));
        } else {
            assert(join_commas(acc2) + seq![44u8] =~= b.subrange(0, i + 1));
        }
        lemma_commas_scan_join(b, i + 1, depth, i + 1, acc2);
    } else {
        lemma_commas_scan_join(b, i + 1, depth, start, acc);
    }
}

/// Splitting at top-level commas loses nothing: joining the pieces with
/// commas gives back the body.
pub proof fn lemma_split_commas_rejoin(b: Seq<u8>)
    ensures
        join_commas(split_commas(b)) == b,
        split_commas(b).len() >= 1,
{
    lemma_commas_scan_join(b, 0, 0, 0, seq![]);
    lemma_commas_scan_len(b, 0, 0, 0, seq![]);
}

/// The scan ends with at least one more piece than it started with.
proof fn lemma_commas_scan_len(b: Seq<u8>, i: int, depth: int, start: int, acc: Seq<Seq<u8>>)
    ensures
        commas_scan(b, i, depth, start, acc).len() > acc.len(),
    decreases b.len() - i,
{
    if i < 0 || i >= b.len() {
    } else if b[i] == 39u8 {
        lemma_string_scan_bounds(b, i + 1);
        lemma_commas_scan_len(b, after_string(b, i + 1), depth, start, acc);
    } else if b[i] == 40u8 {
        lemma_commas_scan_len(b, i + 1, depth + 1, start, acc);
    } else if b[i] == 41u8 {
        lemma_commas_scan_len(b, i + 1, depth - 1, start, acc);
    } else if b[i] == 44u8 && depth <= 0 {
        lemma_commas_scan_len(b, i + 1, depth, i + 1, acc.push(b.subrange(start, i)));
    } else {
        lemma_commas_scan_len(b, i + 1, depth, start, acc);
    }
}

/// Text with no quote and no backslash reads back unchanged from between
/// quotes (when the closing quote is not doubled): the string ends just after
/// the closing quote.
pub proof fn lemma_plain_string_reads_back(text: Seq<u8>, rest: Seq<u8>)
    requires
        forall|k: int| 0 <= k < text.len() ==> #[trigger] text[k] != 39u8 && text[k] != 92u8,
        rest.len() == 0 || rest[0] != 39u8,
    ensures
        string_scan(text + seq![39u8] + rest, 0) == (text, text.len() as int + 1),
{
    let b = text + seq![39u8] + rest;
    assert(b.subrange(0, text.len() as int) =~= text);
    lemma_plain_from(b, text, 0);
    assert(text.skip(0) =~= text);
}

/// From position `i` of the text, the scan returns the rest of the text.
proof fn lemma_plain_from(b: Seq<u8>, text: Seq<u8>, i: int)
    requires
        0 <= i <= text.len(),
        text.len() < b.len(),
        b.subrange(0, text.len() as int) == text,
        b[text.len() as int] == 39u8,
        text.len() + 1 < b.len() ==> b[text.len() as int + 1] != 39u8,
        forall|k: int| 0 <= k < text.len() ==> #[trigger] text[k] != 39u8 && text[k] != 92u8,
    ensures
        string_scan(b, i) == (text.skip(i), text.len() as int + 1),
    decreases text.len() - i,
{
    if i == text.len() {
        assert(text.skip(i) =~= Seq::<u8>::empty());
    } else {
        assert(b[i] == b.subrange(0, text.len() as int)[i]);
        assert(b[i] == text[i]);
        lemma_plain_from(b, text, i + 1);
        assert(seq![b[i]] + text.skip(i + 1) =~= text.skip(i));
    }
}

/// `t` as it is written inside a quoted SQL string: each backslash doubled
/// (`\\`) and each quote doubled (`''`).
pub open spec fn sql_escape(t: Seq<u8>) -> Seq<u8>
    decreases t.len(),
{
    if t.len() == 0 {
        seq![]
    } else {
        let c = t[0];
        (if c == 92u8 {
            seq![92u8, 92u8]
        } else if c == 39u8 {
            seq![39u8, 39u8]
        } else {
            seq![c]
        }) + sql_escape(t.drop_first())
    }
}

/// An escaped text that lies at `i`, followed by a closing quote that is not
/// doubled, reads back as the text; the scan ends just after the quote.
proof fn lemma_escaped_from(b: Seq<u8>, t: Seq<u8>, i: int)
    requires
        0 <= i,
        i + sql_escape(t).len() < b.len(),
        b.subrange(i, i + sql_escape(t).len()) == sql_escape(t),
        b[i + sql_escape(t).len()] == 39u8,
        i + sql_escape(t).len() + 1 < b.len() ==> b[i + sql_escape(t).len() + 1] != 39u8,
    ensures
        string_scan(b, i) == (t, i + sql_escape(t).len() + 1),
    decreases t.len(),
{
    let e = sql_escape(t);
    if t.len() > 0 {
        let c = t[0];
        let rest = t.drop_first();
        let er = sql_escape(rest);
        let w: int = if c == 92u8 || c == 39u8 { 2 } else { 1 };
        assert(e.len() == w + er.len());
        assert(b[i] == e[0]) by {
            assert(b.subrange(i, i + e.len())[0] == b[i]);
        }
        if w == 2 {
            assert(b[i + 1] == e[1]) by {
                assert(b.subrange(i, i + e.len())[1] == b[i + 1]);
            }
        }
        assert(b.subrange(i + w, i + w + er.len()) =~= er) by {
            assert forall|k: int| 0 <= k < er.len() implies b.subrange(i + w, i + w + er.len())[k]
                == er[k] by {
                assert(b.subrange(i, i + e.len())[w + k] == e[w + k]);
            }
        }
        lemma_escaped_from(b, rest, i + w);
        assert(seq![c] + rest =~= t);
    }
}

/// Escaping a text and reading it back from between quotes gives the text:
/// the unescaped bytes are the text's, the string ends just after the
/// closing quote (when that quote is not doubled), and the text read is the
/// original one.
pub proof fn lemma_escaped_string_reads_back(s: Seq<char>, rest: Seq<u8>)
    requires
        rest.len() == 0 || rest[0] != 39u8,
    ensures
        string_scan(sql_escape(encode_utf8(s)) + seq![39u8] + rest, 0) == (
            encode_utf8(s),
            sql_escape(encode_utf8(s)).len() as int + 1,
        ),
        lossy_text(string_scan(sql_escape(encode_utf8(s)) + seq![39u8] + rest, 0).0) == s,
{
    broadcast use encode_utf8_valid_utf8, encode_utf8_decode_utf8;

    let t = encode_utf8(s);
    let e = sql_escape(t);
    let b = e + seq![39u8] + rest;
    assert(b.subrange(0, e.len() as int) =~= e);
    lemma_escaped_from(b, t, 0);
}

/// A quoted value whose text is escaped reads as that text, when the text is
/// not empty and has no white space at either end.
pub proof fn lemma_quoted_value_reads_back(s: Seq<char>)
    requires
        s.len() > 0,
        trim_white(s) == s,
    ensures
        sql_value(seq![39u8] + sql_escape(encode_utf8(s)) + seq![39u8]) == Some(s),
{
    broadcast use encode_utf8_valid_utf8, encode_utf8_decode_utf8;

    let t = encode_utf8(s);
    let e = sql_escape(t);
    let raw = seq![39u8] + e + seq![39u8];
    assert(raw[0] == 39u8);
    assert(trim_start_ws(raw) == raw);
    assert(raw.last() == 39u8);
    assert(trim_end_ws(raw) == raw);
    assert(spec_trim_ascii(raw) == raw);
    assert(spec_lower(raw[0]) != spec_lower(null_keyword()[0]));
    assert(!eq_ci(raw, null_keyword()));
    assert(raw.subrange(1, 1 + e.len() as int) =~= e);
    lemma_escaped_from(raw, t, 1);
}

/// A scan inside `p + r` that starts past `p` is a scan of `r`, shifted.
proof fn lemma_string_scan_shift(p: Seq<u8>, r: Seq<u8>, i: int)
    requires
        0 <= i,
    ensures
        string_scan(p + r, p.len() + i) == (string_scan(r, i).0, string_scan(r, i).1 + p.len()),
    decreases r.len() - i,
{
    let b = p + r;
    let j = p.len() + i;
    if i < r.len() {
        assert(b[j] == r[i]);
        if i + 1 < r.len() {
            assert(b[j + 1] == r[i + 1]);
        }
        if r[i] == 92u8 && i + 1 < r.len() {
            lemma_string_scan_shift(p, r, i + 2);
        } else if r[i] == 39u8 {
            if i + 1 < r.len() && r[i + 1] == 39u8 {
                lemma_string_scan_shift(p, r, i + 2);
            }
        } else {
            lemma_string_scan_shift(p, r, i + 1);
        }
    }
}

/// Inside a quoted string, a backslash before any byte `c` other than `n`,
/// `r`, `t`, `0`, `b`, `Z`, `%` and `_` stands for `c` itself: `\\`, `\'`
/// and `\"` read as a backslash, a quote and a double quote.
pub proof fn lemma_plain_escape(c: u8, rest: Seq<u8>)
    requires
        c != 110u8,
        c != 114u8,
        c != 116u8,
        c != 48u8,
        c != 98u8,
        c != 90u8,
        c != 37u8,
        c != 95u8,
    ensures
        string_scan(seq![92u8, c] + rest, 0) == (
            seq![c] + string_scan(rest, 0).0,
            string_scan(rest, 0).1 + 2,
        ),
{
    lemma_string_scan_shift(seq![92u8, c], rest, 0);
}

/// The named escapes inside a quoted string: `\n`, `\r`, `\t`, `\0`, `\b`
/// and `\Z` stand for a newline, a carriage return, a tab, a NUL, a
/// backspace and the byte 26; `\%` and `\_` keep their backslash.
pub proof fn lemma_named_escapes(rest: Seq<u8>)
    ensures
        string_scan(seq![92u8, 110u8] + rest, 0).0 == seq![10u8] + string_scan(rest, 0).0,
        string_scan(seq![92u8, 114u8] + rest, 0).0 == seq![13u8] + string_scan(rest, 0).0,
        string_scan(seq![92u8, 116u8] + rest, 0).0 == seq![9u8] + string_scan(rest, 0).0,
        string_scan(seq![92u8, 48u8] + rest, 0).0 == seq![0u8] + string_scan(rest, 0).0,
        string_scan(seq![92u8, 98u8] + rest, 0).0 == seq![8u8] + string_scan(rest, 0).0,
        string_scan(seq![92u8, 90u8] + rest, 0).0 == seq![26u8] + string_scan(rest, 0).0,
        string_scan(seq![92u8, 37u8] + rest, 0).0 == seq![92u8, 37u8] + string_scan(rest, 0).0,
        string_scan(seq![92u8, 95u8] + rest, 0).0 == seq![92u8, 95u8] + string_scan(rest, 0).0,
{
    lemma_string_scan_shift(seq![92u8, 110u8], rest, 0);
    lemma_string_scan_shift(seq![92u8, 114u8], rest, 0);
    lemma_string_scan_shift(seq![92u8, 116u8], rest, 0);
    lemma_string_scan_shift(seq![92u8, 48u8], rest, 0);
    lemma_string_scan_shift(seq![92u8, 98u8], rest, 0);
    lemma_string_scan_shift(seq![92u8, 90u8], rest, 0);
    lemma_string_scan_shift(seq![92u8, 37u8], rest, 0);
    lemma_string_scan_shift(seq![92u8, 95u8], rest, 0);
}

/// An unquoted value is taken as written: ASCII text with no white space at
/// its ends that is not `NULL` (in any case) and does not start with a quote
/// reads as itself.
pub proof fn lemma_unquoted_value_as_written(s: Seq<char>)
    requires
        s.len() > 0,
        is_ascii_chars(s),
        !is_white_space(s[0]),
        !is_white_space(s.last()),
        s[0] != '\'',
        !(s.len() == 4 && (s[0] == 'N' || s[0] == 'n') && (s[1] == 'U' || s[1] == 'u') && (s[2] == 'L'
            || s[2] == 'l') && (s[3] == 'L' || s[3] == 'l')),
    ensures
        sql_value(encode_utf8(s)) == Some(s),
{
    broadcast use encode_utf8_valid_utf8, encode_utf8_decode_utf8;

    let t = encode_utf8(s);
    is_ascii_chars_encode_utf8(s);
    assert(t[0] == s[0] as u8);
    assert(t[t.len() - 1] == s[s.len() - 1] as u8);
    assert(s[0] as u8 as int == s[0] as int);
    assert(s[s.len() - 1] as u8 as int == s[s.len() - 1] as int);
    let f = |c: char| is_white_space(c);
    assert(!f(s[0]));
    assert(!f(s.last()));
    assert(drop_leading(s, f) == s);
    assert(drop_trailing(s, f) == s);
    assert(trim_white(s) == s);
    assert(trim_start_ws(t) == t);
    assert(t.last() == t[t.len() - 1]);
    assert(trim_end_ws(t) == t);
    assert(spec_trim_ascii(t) == t);
    if t.len() == 4 {
        assert(!eq_ci(t, null_keyword())) by {
            if eq_ci(t, null_keyword()) {
                assert(spec_lower(t[0]) == spec_lower(null_keyword()[0]));
                assert(spec_lower(t[1]) == spec_lower(null_keyword()[1]));
                assert(spec_lower(t[2]) == spec_lower(null_keyword()[2]));
                assert(spec_lower(t[3]) == spec_lower(null_keyword()[3]));
                assert(t[1] == s[1] as u8);
                assert(t[2] == s[2] as u8);
                assert(t[3] == s[3] as u8);
                assert(s[1] as u8 as int == s[1] as int);
                assert(s[2] as u8 as int == s[2] as int);
                assert(s[3] as u8 as int == s[3] as int);
            }
        }
    }
}

/// `NULL`, in any case and with any white space around it, is no value.
pub proof fn lemma_null_is_no_value(raw: Seq<u8>)
    requires
        eq_ci(spec_trim_ascii(raw), seq![78u8, 85u8, 76u8, 76u8]),
    ensures
        sql_value(raw) is None,
{
}

} // verus!
