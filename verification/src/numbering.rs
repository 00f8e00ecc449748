//! Order numbers (seven digits, counting up across restarts) and contract
//! numbers (the date and a two-digit count of the day).

use vstd::prelude::*;
use vstd::string::{StrSliceExecFns, StringExecFns};
use vstd::utf8::{encode_utf8, is_ascii_chars, is_ascii_chars_encode_utf8};
use crate::numfmt::{lemma_decimal_len, lemma_padded_denotes, padded, pow10, push_padded};
use crate::text::{
    all_digits, digit_value, digits_value, is_digit_char, parse_u64, parsed_u64, strip_suffix_repeated,
    trim_end_matches_str,
};

verus! {

/// `.json`.
pub open spec fn json_ext() -> Seq<char> {
    seq!['.', 'j', 's', 'o', 'n']
}

/// The order number that an order file name carries: its name without the
/// `.json` extension must be seven bytes long, begin with `0` and be a number.
pub open spec fn file_order_number(name: Seq<char>) -> Option<u64> {
    let stem = strip_suffix_repeated(name, json_ext());
    if encode_utf8(stem).len() == 7 && stem.len() > 0 && stem[0] == '0' {
        parsed_u64(stem)
    } else {
        None
    }
}

/// The largest order number carried by any of the file names (0 for none).
pub open spec fn max_file_number(names: Seq<Seq<char>>) -> u64
    decreases names.len(),
{
    if names.len() == 0 {
        0
    } else {
        let prev = max_file_number(names.drop_last());
        match file_order_number(names.last()) {
            Some(v) => if v > prev {
                v
            } else {
                prev
            },
            None => prev,
        }
    }
}

/// The order number that the file `name` carries, if it is an order file
/// named by a seven-digit number with a leading zero (like `0000001.json`).
pub fn order_number_from_file_name(name: &str) -> (r: Option<u64>)
    ensures
        r == file_order_number(name@),
{
    let ext = ".json";
    proof {
        reveal_strlit(".json");
    }
    assert(ext@ == json_ext());
    let stem = trim_end_matches_str(name, ext);
    if stem.as_bytes().len() == 7 && stem.unicode_len() > 0 && stem.get_char(0) == '0' {
        parse_u64(stem)
    } else {
        None
    }
}

/// The largest order number carried by the file names (0 for none).
pub fn max_order_number(names: &Vec<String>) -> (r: u64)
    ensures
        r == max_file_number(names@.map_values(|s: String| s@)),
{
    let ghost all = names@.map_values(|s: String| s@);
    let mut best: u64 = 0;
    let mut k: usize = 0;
    assert(all.subrange(0, 0) =~= Seq::<Seq<char>>::empty());
    while k < names.len()
        invariant
            all == names@.map_values(|s: String| s@),
            k <= names@.len(),
            best == max_file_number(all.subrange(0, k as int)),
        decreases names@.len() - k,
    {
        assert(all.subrange(0, k + 1).drop_last() =~= all.subrange(0, k as int));
        match order_number_from_file_name(names[k].as_str()) {
            Some(v) => {
                if v > best {
                    best = v;
                }
            },
            None => {},
        }
        k = k + 1;
    }
    assert(all.subrange(0, names@.len() as int) =~= all);
    best
}

/// The next order number: one more than the larger of the stored counter and
/// the numbers of the order files, written with seven digits; the number is
/// returned too, to be stored.
pub fn next_order_no(stored: u64, file_names: &Vec<String>) -> (r: (u64, String))
    requires
        stored < u64::MAX,
    ensures
        r.0 == (if stored > max_file_number(file_names@.map_values(|s: String| s@)) {
            stored
        } else {
            max_file_number(file_names@.map_values(|s: String| s@))
        }) + 1,
        r.1@ == padded(r.0 as nat, 7),
        r.0 > stored,
        forall|i: int|
            0 <= i < file_names@.len() ==> (file_order_number(#[trigger] file_names@[i]@) matches Some(
                v,
            ) ==> r.0 > v),
{
    let from_files = max_order_number(file_names);
    proof {
        let names = file_names@.map_values(|s: String| s@);
        lemma_max_file_number_bound(names);
        assert forall|i: int| 0 <= i < file_names@.len() implies (file_order_number(
            #[trigger] file_names@[i]@,
        ) matches Some(v) ==> from_files >= v) by {
            assert(names[i] == file_names@[i]@);
            lemma_max_file_number_ge(names, i);
        }
    }
    let n = if stored > from_files {
        stored
    } else {
        from_files
    } + 1;
    let mut s = String::new();
    push_padded(&mut s, n, 7);
    assert(s@ =~= padded(n as nat, 7));
    (n, s)
}

/// `contract:`.
pub open spec fn contract_key_prefix() -> Seq<char> {
    seq!['c', 'o', 'n', 't', 'r', 'a', 'c', 't', ':']
}

/// The key under which the contract count of the day `today` is kept.
pub fn contract_counter_key(today: &str) -> (r: String)
    ensures
        r@ == contract_key_prefix() + today@,
{
    let prefix = "contract:";
    proof {
        reveal_strlit("contract:");
    }
    let mut s = String::from_str(prefix);
    s.append(today);
    s
}

/// The next contract number of the day `today` (`YYYYMMDD`): the count of the
/// day goes up by one and is appended with two digits; the count is returned
/// too, to be stored.
pub fn next_contract_no(today: &str, stored: u64) -> (r: (u64, String))
    requires
        stored < u64::MAX,
    ensures
        r.0 == stored + 1,
        r.1@ == today@ + padded(r.0 as nat, 2),
{
    let n = stored + 1;
    let mut s = String::from_str(today);
    push_padded(&mut s, n, 2);
    (n, s)
}

/// A string of `k` digits is worth less than `10^k`.
pub proof fn lemma_digits_value_bound(s: Seq<char>)
    requires
        forall|i: int| 0 <= i < s.len() ==> is_digit_char(#[trigger] s[i]),
    ensures
        digits_value(s) < pow10(s.len()),
    decreases s.len(),
{
    if s.len() > 0 {
        let t = s.drop_last();
        assert forall|i: int| 0 <= i < t.len() implies is_digit_char(#[trigger] t[i]) by {
            assert(t[i] == s[i]);
        }
        lemma_digits_value_bound(t);
        let v = digits_value(t);
        let p = pow10(t.len());
        let dv = digit_value(s.last());
        assert(is_digit_char(s[s.len() - 1]));
        assert(0 <= dv <= 9);
        assert(v * 10 + dv < 10 * p) by (nonlinear_arith)
            requires
                v < p,
                0 <= dv <= 9,
        ;
    }
}

/// Order numbers taken from file names have at most seven digits.
pub proof fn lemma_file_number_bound(name: Seq<char>)
    ensures
        file_order_number(name) matches Some(v) ==> v < 10_000_000,
{
    let stem = strip_suffix_repeated(name, json_ext());
    if encode_utf8(stem).len() == 7 && stem.len() > 0 && stem[0] == '0' {
        if parsed_u64(stem) is Some {
            assert(all_digits(stem));
            assert(is_digit_char(stem[0]));
            assert(is_ascii_chars(stem)) by {
                assert forall|i: int| 0 <= i < stem.len() implies '\0' <= #[trigger] stem[i] <= '\u{7f}' by {
                    assert(is_digit_char(stem[i]));
                }
            }
            is_ascii_chars_encode_utf8(stem);
            lemma_digits_value_bound(stem);
            reveal_with_fuel(pow10, 8);
        }
    }
}

/// The largest order number taken from file names has at most seven digits.
pub proof fn lemma_max_file_number_bound(names: Seq<Seq<char>>)
    ensures
        max_file_number(names) < 10_000_000,
    decreases names.len(),
{
    if names.len() > 0 {
        lemma_max_file_number_bound(names.drop_last());
        lemma_file_number_bound(names.last());
    }
}

/// The largest order number is at least the number of every file.
pub proof fn lemma_max_file_number_ge(names: Seq<Seq<char>>, i: int)
    requires
        0 <= i < names.len(),
    ensures
        file_order_number(names[i]) matches Some(v) ==> max_file_number(names) >= v,
    decreases names.len(),
{
    if i < names.len() - 1 {
        lemma_max_file_number_ge(names.drop_last(), i);
        assert(names.drop_last()[i] == names[i]);
    }
}

/// The file of an order numbered below a million, named by its seven-digit
/// number and `.json` (as new orders are named), carries that number, so it
/// counts when the next number is chosen.
pub proof fn lemma_order_file_carries_its_number(n: nat)
    requires
        n < 1_000_000,
    ensures
        file_order_number(padded(n, 7) + json_ext()) == Some(n as u64),
{
    let p = padded(n, 7);
    reveal_with_fuel(pow10, 8);
    lemma_decimal_len(n, 6);
    lemma_padded_denotes(n, 7);
    assert(p.len() == 7);
    assert(p[0] == '0');
    let name = p + json_ext();
    assert(name.subrange(name.len() - 5, name.len() as int) =~= json_ext());
    assert(name.subrange(0, name.len() - 5) =~= p);
    assert(p.subrange(p.len() - 5, p.len() as int)[0] == p[2]);
    assert(is_digit_char(p[2]));
    assert(strip_suffix_repeated(p, json_ext()) == p);
    assert(strip_suffix_repeated(name, json_ext()) == p);
    assert(is_ascii_chars(p)) by {
        assert forall|i: int| 0 <= i < p.len() implies '\0' <= #[trigger] p[i] <= '\u{7f}' by {
            assert(is_digit_char(p[i]));
        }
    }
    is_ascii_chars_encode_utf8(p);
    assert(p[0] != '+');
}

} // verus!
