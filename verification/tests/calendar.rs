use order_desk::date::{civil_from_days, date_cn_at, date_compact_at, timestamp_at, timestamp_now, today_cn, today_compact};

#[test]
fn civil_from_days_known_dates() {
    assert_eq!(civil_from_days(0), (1970, 1, 1));
    assert_eq!(civil_from_days(-1), (1969, 12, 31));
    assert_eq!(civil_from_days(11016), (2000, 2, 29));
    assert_eq!(civil_from_days(20721), (2026, 9, 25));
    assert_eq!(civil_from_days(-25508), (1900, 3, 1));
    assert_eq!(civil_from_days(157419), (2400, 12, 31));
}

#[test]
fn civil_from_days_consecutive_days_advance_one_day() {
    let mut prev = civil_from_days(-800);
    for z in -799..800 {
        let cur = civil_from_days(z);
        assert!(cur > prev, "day {z} does not follow the day before");
        prev = cur;
    }
}

#[test]
fn timestamp_formats_utc() {
    assert_eq!(timestamp_at(0), "1970-01-01T00:00:00Z");
    assert_eq!(timestamp_at(1790341509), "2026-09-25T13:05:09Z");
}

#[test]
fn dates_in_chinese_and_compact_form() {
    assert_eq!(date_cn_at(1790341509), "2026 年 9 月 25 日");
    assert_eq!(date_compact_at(1790341509), "20260925");
    assert_eq!(date_compact_at(0), "19700101");
}

#[test]
fn clock_based_texts_have_their_shape() {
    let t = timestamp_now();
    assert_eq!(t.len(), 20);
    assert!(t.ends_with('Z'));
    assert_eq!(&t[4..5], "-");
    let c = today_compact();
    assert_eq!(c.len(), 8);
    assert!(c.chars().all(|ch| ch.is_ascii_digit()));
    assert!(c.as_str() >= "20240101");
    assert!(today_cn().ends_with(" 日"));
}
