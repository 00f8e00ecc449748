use order_desk::numbering::{contract_counter_key, max_order_number, next_contract_no, next_order_no, order_number_from_file_name};

#[test]
fn order_numbers_are_read_from_seven_digit_file_names() {
    assert_eq!(order_number_from_file_name("0000123.json"), Some(123));
    assert_eq!(order_number_from_file_name("0000123"), Some(123));
    assert_eq!(order_number_from_file_name("0000123.json.json"), Some(123));
    assert_eq!(order_number_from_file_name("2600001.json"), None);
    assert_eq!(order_number_from_file_name("0012.json"), None);
    assert_eq!(order_number_from_file_name("00001234.json"), None);
    assert_eq!(order_number_from_file_name("00a0001.json"), None);
    assert_eq!(order_number_from_file_name("工单.json"), None);
}

#[test]
fn next_order_number_passes_stored_counter_and_files() {
    let names = vec![
        "0000007.json".to_string(),
        "0000123.json".to_string(),
        "2612345.json".to_string(),
        "notes.txt".to_string(),
    ];
    assert_eq!(max_order_number(&names), 123);
    assert_eq!(next_order_no(5, &names), (124, "0000124".to_string()));
    assert_eq!(next_order_no(500, &names), (501, "0000501".to_string()));
    assert_eq!(next_order_no(0, &Vec::new()), (1, "0000001".to_string()));
    assert_eq!(next_order_no(12345678, &names), (12345679, "12345679".to_string()));
}

#[test]
fn contract_numbers_count_per_day() {
    assert_eq!(contract_counter_key("20260925"), "contract:20260925");
    assert_eq!(next_contract_no("20260925", 0), (1, "2026092501".to_string()));
    assert_eq!(next_contract_no("20260925", 41), (42, "2026092542".to_string()));
    assert_eq!(next_contract_no("20260925", 99), (100, "20260925100".to_string()));
}
