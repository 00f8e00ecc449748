use order_desk::order::clean_order_no;

#[test]
fn long_order_numbers_are_cut_to_120_characters() {
    let raw = "号".repeat(130);
    let cleaned = clean_order_no(&raw);
    assert_eq!(cleaned.chars().count(), 120);
    assert_eq!(cleaned, "号".repeat(120));
}

#[test]
fn order_number_prefix_and_unicode_spaces() {
    assert_eq!(clean_order_no("\u{3000}NO.  12 \u{3000}"), "12");
    assert_eq!(clean_order_no("no.x"), "x");
    assert_eq!(clean_order_no("No"), "No");
    assert_eq!(clean_order_no("Nr. 5"), "Nr. 5");
    assert_eq!(clean_order_no("No.No.5"), "No.5");
    assert_eq!(clean_order_no(" a | b "), "a _ b");
}
