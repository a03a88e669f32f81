use dplock::cache::{cache_record, cache_ttl, get_master_password, MasterSecret, DEFAULT_TTL};
use dplock::text::{
    is_blank_text, is_yes, is_yes_any_case, read_i64, trim_span, whitespace, write_digits,
    write_i64,
};

fn cached(p: &str) -> MasterSecret {
    MasterSecret::Cached(p.to_string())
}

#[test]
fn record_is_time_colon_passphrase() {
    assert_eq!(cache_record(1_700_000_000, "hunter2"), "1700000000:hunter2");
    assert_eq!(cache_record(0, ""), "0:");
    assert_eq!(cache_record(-5, "a:b"), "-5:a:b");
}

#[test]
fn fresh_record_is_reused_and_stale_one_is_not() {
    let record = cache_record(1000, "pw");
    assert_eq!(get_master_password(Some(&record), 1000, 600), cached("pw"));
    assert_eq!(get_master_password(Some(&record), 1600, 600), cached("pw"));
    assert_eq!(get_master_password(Some(&record), 1601, 600), MasterSecret::Prompt);
    assert_eq!(get_master_password(Some(&record), 900, 600), cached("pw"));
    assert_eq!(get_master_password(None, 1000, 600), MasterSecret::Prompt);
}

#[test]
fn passphrase_may_hold_colons() {
    assert_eq!(get_master_password(Some("10:a:b:c"), 10, 0), cached("a:b:c"));
    assert_eq!(get_master_password(Some("10:"), 10, 0), cached(""));
}

#[test]
fn record_without_colon_or_number_is_a_miss() {
    assert_eq!(get_master_password(Some("no colon here"), 1, 600), MasterSecret::Prompt);
    assert_eq!(get_master_password(Some(""), 1, 600), MasterSecret::Prompt);
    assert_eq!(get_master_password(Some("abc:pw"), 1_700_000_000, 600), MasterSecret::Prompt);
    assert_eq!(get_master_password(Some("abc:pw"), 600, 600), cached("pw"));
    assert_eq!(get_master_password(Some(":pw"), 601, 600), MasterSecret::Prompt);
}

#[test]
fn extreme_time_stamps_neither_overflow_nor_hit() {
    let record = cache_record(i64::MIN, "pw");
    assert_eq!(get_master_password(Some(&record), i64::MAX, i64::MAX), MasterSecret::Prompt);
    let record = cache_record(i64::MAX, "pw");
    assert_eq!(get_master_password(Some(&record), i64::MIN, 0), cached("pw"));
}

#[test]
fn ttl_setting_is_read_or_defaults() {
    assert_eq!(DEFAULT_TTL, 600);
    assert_eq!(cache_ttl(None), 600);
    assert_eq!(cache_ttl(Some("60")), 60);
    assert_eq!(cache_ttl(Some("+60")), 60);
    assert_eq!(cache_ttl(Some("-1")), -1);
    assert_eq!(cache_ttl(Some("0")), 0);
    assert_eq!(cache_ttl(Some("")), 600);
    assert_eq!(cache_ttl(Some(" 60")), 600);
    assert_eq!(cache_ttl(Some("60s")), 600);
    assert_eq!(cache_ttl(Some("9223372036854775808")), 600);
}

#[test]
fn reading_numbers_agrees_with_std() {
    let inputs = [
        "0", "-0", "+0", "7", "007", "-42", "+42", "9223372036854775807", "9223372036854775808",
        "-9223372036854775808", "-9223372036854775809", "", "-", "+", "--1", "1-", "1 ", " 1",
        "12a", "٣", "1_000", "00000000000000000000000000001", "99999999999999999999999999",
    ];
    for text in inputs {
        let chars: Vec<char> = text.chars().collect();
        assert_eq!(read_i64(&chars, chars.len()), text.parse::<i64>().ok(), "{:?}", text);
    }
    let chars: Vec<char> = "123:rest".chars().collect();
    assert_eq!(read_i64(&chars, 3), Some(123));
    assert_eq!(read_i64(&chars, 0), None);
}

#[test]
fn writing_numbers_agrees_with_std() {
    for v in [0i64, 1, 9, 10, 11, 99, 100, -1, -10, 1_700_000_000, i64::MAX, i64::MIN] {
        let mut out = String::from("x");
        write_i64(&mut out, v);
        assert_eq!(out, format!("x{}", v));
    }
    let mut out = String::new();
    write_digits(&mut out, u64::MAX);
    assert_eq!(out, "18446744073709551615");
}

#[test]
fn answers_and_white_space() {
    assert!(is_yes("yes"));
    assert!(is_yes("\t yes \r\n"));
    assert!(is_yes("\u{a0}yes\u{3000}"));
    assert!(!is_yes("Yes"));
    assert!(!is_yes("y es"));
    assert!(!is_yes("yess"));
    assert!(!is_yes(""));
    assert!(is_yes_any_case("YeS"));
    assert!(!is_yes_any_case("yep"));
    assert!(is_blank_text(""));
    assert!(is_blank_text(" \n\t"));
    assert!(!is_blank_text(" . "));
    for c in (0u32..0x3100).filter_map(char::from_u32) {
        assert_eq!(whitespace(c), c.is_whitespace(), "{:?}", c);
    }
    let chars: Vec<char> = "  ab c ".chars().collect();
    assert_eq!(trim_span(&chars), (2, 6));
    let blank: Vec<char> = "   ".chars().collect();
    assert_eq!(trim_span(&blank), (3, 3));
}
