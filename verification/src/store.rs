//! The sequence store: a JSON object that keeps the order counter under
//! `seq` and the contract count of each day under `contract:<YYYYMMDD>`.
//! Reading and writing its file is left to the caller; the library reads the
//! counts from its text and makes the text to write back.

use vstd::prelude::*;
use vstd::string::StrSliceExecFns;
use crate::numbering::{contract_counter_key, contract_key_prefix, max_file_number, next_contract_no, next_order_no};
use crate::numfmt::padded;

verus! {

/// The number that `serde_json` finds under `key` when it parses `store`:
/// `None` when the text is not JSON, is not an object, has no such key, or
/// holds there something other than an integer from 0 to `u64::MAX`.
pub uninterp spec fn json_u64_at(store: Seq<char>, key: Seq<char>) -> Option<u64>;

/// The text `serde_json` writes for `store` with `key` set to `n`: the text is
/// parsed (text that does not parse counts as `null`), a `null` becomes an
/// empty object, the key is set and the object written back compactly.
/// `None` when the parsed value is neither an object nor `null`.
pub uninterp spec fn json_set_u64(store: Seq<char>, key: Seq<char>, n: u64) -> Option<Seq<char>>;

/// Parses `store` with `serde_json::from_str` into a `serde_json::Value` and
/// reads the number under `key` with `Value::get` and `Value::as_u64`. The
/// contract names the result.
#[verifier::external_body]
pub fn json_u64(store: &str, key: &str) -> (r: Option<u64>)
    ensures
        r == json_u64_at(store@, key@),
{
    match serde_json::from_str::<serde_json::Value>(store) {
        Ok(v) => v.get(key).and_then(serde_json::Value::as_u64),
        Err(_) => None,
    }
}

/// Parses `store` with `serde_json::from_str` (a parse error gives `null`),
/// sets `key` to `n` by indexing (which turns `null` into an object, and
/// would panic on any other value, hence `None` there) and writes the value
/// with `to_string`. The contract names the result, and states that the
/// text written reads back with `n` under `key`.
#[verifier::external_body]
pub fn store_with_count(store: &str, key: &str, n: u64) -> (r: Option<String>)
    ensures
        match r {
            Some(t) => json_set_u64(store@, key@, n) == Some(t@) && json_u64_at(t@, key@) == Some(n),
            None => json_set_u64(store@, key@, n) is None,
        },
{
    let mut v: serde_json::Value = serde_json::from_str(store).unwrap_or_default();
    match v {
        serde_json::Value::Null | serde_json::Value::Object(_) => {
            v[key] = serde_json::Value::from(n);
            Some(v.to_string())
        },
        _ => None,
    }
}

/// `{}`: the store when its file cannot be read.
pub open spec fn empty_store() -> Seq<char> {
    seq!['{', '}']
}

/// The text of the store as read: the file's text, or `{}` when there was
/// none.
pub open spec fn store_text(read: Option<String>) -> Seq<char> {
    match read {
        Some(t) => t@,
        None => empty_store(),
    }
}

/// The count kept under `key`: 0 when the store has none.
pub open spec fn count_at(store: Seq<char>, key: Seq<char>) -> u64 {
    match json_u64_at(store, key) {
        Some(n) => n,
        None => 0,
    }
}

/// `seq`: the key of the order counter.
pub open spec fn order_counter_key() -> Seq<char> {
    seq!['s', 'e', 'q']
}

/// The count kept under `key` in the store text `store` (0 when there is
/// none).
pub fn stored_count(store: &str, key: &str) -> (r: u64)
    ensures
        r == count_at(store@, key@),
{
    match json_u64(store, key) {
        Some(n) => n,
        None => 0,
    }
}

/// The store text to work on: the text read, or `{}`.
fn text_of(read: &Option<String>) -> (r: &str)
    ensures
        r@ == store_text(*read),
{
    match read {
        Some(t) => t.as_str(),
        None => {
            let e = "{}";
            proof {
                reveal_strlit("{}");
            }
            e
        },
    }
}

/// The next order number after the counter `stored`, given the order files
/// `names`: one more than the larger of the two.
pub open spec fn next_order_number(stored: u64, names: Seq<Seq<char>>) -> int {
    (if stored > max_file_number(names) {
        stored
    } else {
        max_file_number(names)
    }) + 1
}

/// A new order number from the sequence store (its text as read, `None` when
/// the file could not be read) and the names of the order files: the counter
/// under `seq` (0 when missing) and the numbers of the order files give the
/// next number, which is stored under `seq`. Returns the store text to write
/// back, which holds the new number under `seq`, and the number with seven
/// digits (so each call on the text the last one wrote gives a larger
/// number); `None` when the counter is at
/// `u64::MAX` or the store is JSON but neither an object nor `null`.
pub fn next_order_no_in_store(read: &Option<String>, file_names: &Vec<String>) -> (r: Option<
    (String, String),
>)
    ensures
        ({
            let text = store_text(*read);
            let stored = count_at(text, order_counter_key());
            let n = next_order_number(stored, file_names@.map_values(|s: String| s@));
            &&& r is Some <==> stored < u64::MAX && json_set_u64(text, order_counter_key(), n as u64) is Some
            &&& r matches Some(p) ==> {
                &&& json_set_u64(text, order_counter_key(), n as u64) == Some(p.0@)
                &&& count_at(p.0@, order_counter_key()) == n
                &&& p.1@ == padded(n as nat, 7)
            }
        }),
{
    let text = text_of(read);
    let key = "seq";
    proof {
        reveal_strlit("seq");
    }
    assert(key@ == order_counter_key());
    let stored = stored_count(text, key);
    if stored == u64::MAX {
        return None;
    }
    let (n, no) = next_order_no(stored, file_names);
    match store_with_count(text, key, n) {
        Some(t) => Some((t, no)),
        None => None,
    }
}

/// A new contract number for the day `today` (`YYYYMMDD`) from the sequence
/// store (its text as read, `None` when the file could not be read): the
/// count under `contract:<today>` (0 when missing) goes up by one and is
/// stored back. Returns the store text to write back, which holds the new
/// count (so calls on the text each call wrote count 01, 02, 03, ...), and
/// the contract number, `today` and the count with two digits; `None` when the count is at
/// `u64::MAX` or the store is JSON but neither an object nor `null`.
pub fn next_contract_no_in_store(read: &Option<String>, today: &str) -> (r: Option<(String, String)>)
    ensures
        ({
            let text = store_text(*read);
            let key = contract_key_prefix() + today@;
            let stored = count_at(text, key);
            &&& r is Some <==> stored < u64::MAX && json_set_u64(text, key, (stored + 1) as u64) is Some
            &&& r matches Some(p) ==> {
                &&& json_set_u64(text, key, (stored + 1) as u64) == Some(p.0@)
                &&& count_at(p.0@, key) == stored + 1
                &&& p.1@ == today@ + padded((stored + 1) as nat, 2)
            }
        }),
{
    let text = text_of(read);
    let key = contract_counter_key(today);
    let stored = stored_count(text, key.as_str());
    if stored == u64::MAX {
        return None;
    }
    let (n, no) = next_contract_no(today, stored);
    match store_with_count(text, key.as_str(), n) {
        Some(t) => Some((t, no)),
        None => None,
    }
}

} // verus!
