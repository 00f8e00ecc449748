use order_desk::desk::is_json_file;
use order_desk::jobs::dump_text;
use order_desk::sql::{parse_sql_value, read_sql_string};
use order_desk::store::{json_u64, next_contract_no_in_store, next_order_no_in_store, store_with_count, stored_count};

fn parsed(text: &str) -> serde_json::Value {
    serde_json::from_str(text).unwrap()
}

#[test]
fn counts_are_read_from_the_store() {
    let store = "{\"seq\":41,\"contract:20260925\":3,\"neg\":-1,\"text\":\"7\"}";
    assert_eq!(json_u64(store, "seq"), Some(41));
    assert_eq!(json_u64(store, "neg"), None);
    assert_eq!(json_u64(store, "text"), None);
    assert_eq!(json_u64("not json", "seq"), None);
    assert_eq!(json_u64("[41]", "seq"), None);
    assert_eq!(stored_count(store, "contract:20260925"), 3);
    assert_eq!(stored_count(store, "missing"), 0);
}

#[test]
fn counts_are_written_back_keeping_other_keys() {
    let t = store_with_count("{\"a\":\"x\",\"seq\":1}", "seq", 9).unwrap();
    let v = parsed(&t);
    assert_eq!(v["seq"], 9);
    assert_eq!(v["a"], "x");
    let t = store_with_count("broken", "seq", 2).unwrap();
    assert_eq!(parsed(&t), parsed("{\"seq\":2}"));
    let t = store_with_count("null", "k", 3).unwrap();
    assert_eq!(parsed(&t), parsed("{\"k\":3}"));
    assert_eq!(store_with_count("[1,2]", "seq", 1), None);
    assert_eq!(store_with_count("5", "seq", 1), None);
}

#[test]
fn order_numbers_come_from_store_and_files() {
    let names = vec!["0000050.json".to_string(), "2600001.json".to_string()];
    let (text, no) = next_order_no_in_store(&Some("{\"seq\":41}".to_string()), &names).unwrap();
    assert_eq!(no, "0000051");
    assert_eq!(parsed(&text)["seq"], 51);
    let (text, no) = next_order_no_in_store(&Some("{\"seq\":99}".to_string()), &names).unwrap();
    assert_eq!(no, "0000100");
    assert_eq!(parsed(&text)["seq"], 100);
    let (text, no) = next_order_no_in_store(&None, &Vec::new()).unwrap();
    assert_eq!(no, "0000001");
    assert_eq!(parsed(&text), parsed("{\"seq\":1}"));
    assert_eq!(next_order_no_in_store(&Some("[]".to_string()), &Vec::new()), None);
    let full = format!("{{\"seq\":{}}}", u64::MAX);
    assert_eq!(next_order_no_in_store(&Some(full), &Vec::new()), None);
}

#[test]
fn contract_numbers_come_from_the_store() {
    let store = Some("{\"contract:20260925\":3,\"seq\":5}".to_string());
    let (text, no) = next_contract_no_in_store(&store, "20260925").unwrap();
    assert_eq!(no, "2026092504");
    let v = parsed(&text);
    assert_eq!(v["contract:20260925"], 4);
    assert_eq!(v["seq"], 5);
    let (text, no) = next_contract_no_in_store(&store, "20260926").unwrap();
    assert_eq!(no, "2026092601");
    assert_eq!(parsed(&text)["contract:20260926"], 1);
    assert_eq!(next_contract_no_in_store(&Some("\"x\"".to_string()), "20260926"), None);
}

#[test]
fn json_file_names() {
    assert!(is_json_file("0000001.json"));
    assert!(is_json_file("..json"));
    assert!(!is_json_file(".json"));
    assert!(!is_json_file("a.JSON"));
    assert!(!is_json_file("a.json.bak"));
}

#[test]
fn dump_bytes_are_decoded() {
    assert_eq!(dump_text("第一行 x".as_bytes()), "第一行 x");
    assert_eq!(dump_text(&[b'a', 0xff, b'b']), "a\u{fffd}b");
}

#[test]
fn escaped_texts_read_back() {
    for s in ["plain", "a'b", "back\\slash", "'' and \\'", "第一行'", ""] {
        let e = s.replace('\\', "\\\\").replace('\'', "''");
        let b = format!("{e}' tail");
        let (r, end) = read_sql_string(b.as_bytes(), 0);
        assert_eq!(r, s);
        assert_eq!(end, e.len() + 1);
        if !s.is_empty() {
            let raw = format!("'{e}'");
            assert_eq!(parse_sql_value(raw.as_bytes()), Some(s.to_string()));
        }
    }
}

#[test]
fn successive_calls_count_up() {
    let mut store: Option<String> = None;
    for want in ["2026092501", "2026092502", "2026092503"] {
        let (text, no) = next_contract_no_in_store(&store, "20260925").unwrap();
        assert_eq!(no, want);
        store = Some(text);
    }
    for want in ["0000001", "0000002", "0000003"] {
        let (text, no) = next_order_no_in_store(&store, &Vec::new()).unwrap();
        assert_eq!(no, want);
        store = Some(text);
    }
    let (_, no) = next_contract_no_in_store(&store, "20260925").unwrap();
    assert_eq!(no, "2026092504");
}

#[test]
fn a_written_count_reads_back() {
    for store in ["{\"seq\":3,\"x\":[1]}", "broken", "null", "{}"] {
        let t = store_with_count(store, "contract:20260925", 17).unwrap();
        assert_eq!(json_u64(&t, "contract:20260925"), Some(17));
    }
}
