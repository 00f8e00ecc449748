use order_desk::text::{
    is_white_space_char, parse_u64, trim_end_matches_str, trim_matches_char, trim_start_matches_str, trim_str,
};

#[test]
fn trimming_matches_std() {
    for s in ["  a b \t", "\u{3000}x\u{a0}", "", "   ", "x", "\u{200b}y"] {
        assert_eq!(trim_str(s), s.trim());
    }
    assert_eq!(trim_matches_char("``name``", '`'), "name");
    assert_eq!(trim_matches_char("````", '`'), "");
    assert_eq!(trim_start_matches_str("No. No. 7", "No. "), "7");
    assert_eq!(trim_start_matches_str("abc", ""), "abc");
    assert_eq!(trim_end_matches_str("a.json.json", ".json"), "a");
    assert_eq!(trim_end_matches_str("工单.json", ".json"), "工单");
    assert_eq!(trim_end_matches_str("json", ".json"), "json");
    assert!(is_white_space_char('\u{2028}') && !is_white_space_char('\u{200b}'));
}

#[test]
fn numbers_parse_as_std_does() {
    for s in ["0", "+12", "", "+", "-1", "1a", "18446744073709551615", "18446744073709551616", "0000042", "９"] {
        assert_eq!(parse_u64(s), s.parse::<u64>().ok(), "{s}");
    }
    assert_eq!(parse_u64("+12"), Some(12));
    assert_eq!(parse_u64("18446744073709551616"), None);
}
