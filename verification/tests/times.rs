use dplock::utils::{
    compute_wait_time, duration, parse_expired_time, parse_remind_time, resolve_schedule,
    unit_of, TimeError,
};

#[test]
fn units_in_seconds() {
    assert_eq!(duration("1h"), Some(3600));
    assert_eq!(duration("1d"), Some(86400));
    assert_eq!(duration("1w"), Some(604800));
    assert_eq!(duration("1m"), Some(2592000));
    assert_eq!(duration("1y"), Some(31536000));
    assert_eq!(unit_of('H'), 3600);
    assert_eq!(unit_of('x'), 0);
    assert_eq!(unit_of('5'), 0);
}

#[test]
fn tokens_add_up_and_the_rest_is_skipped() {
    assert_eq!(duration("1d 2h"), Some(86400 + 7200));
    assert_eq!(duration("1d2h"), Some(86400 + 7200));
    assert_eq!(duration("  3D, then 1W!"), Some(3 * 86400 + 604800));
    assert_eq!(duration("12"), Some(0));
    assert_eq!(duration("d"), Some(0));
    assert_eq!(duration("1 d"), Some(0));
    assert_eq!(duration("x12y"), Some(12 * 31536000));
    assert_eq!(duration("007d"), Some(7 * 86400));
    assert_eq!(duration(""), Some(0));
    assert_eq!(duration("3dd"), Some(3 * 86400));
    assert_eq!(duration("1h1h1h"), Some(3 * 3600));
}

#[test]
fn amounts_beyond_i64_are_out_of_range() {
    assert_eq!(duration("9223372036854775807h"), None);
    assert_eq!(duration("99999999999999999999999d"), None);
    assert_eq!(duration("99999999999999999999999 1d"), Some(86400));
    assert_eq!(duration("292471208677y"), Some(292471208677 * 31536000));
    assert_eq!(duration("292471208678y"), None);
    assert_eq!(parse_expired_time("99999999999999999999999d", 0), Err(TimeError::OutOfRange));
    assert_eq!(parse_expired_time("1d", i64::MAX), Err(TimeError::OutOfRange));
    assert_eq!(parse_expired_time("1h", i64::MAX - 3600), Ok(i64::MAX));
    assert_eq!(parse_remind_time(Some(i64::MIN + 1), "1h"), Err(TimeError::OutOfRange));
}

#[test]
fn expired_is_now_plus_duration() {
    assert_eq!(parse_expired_time("10d", 1_700_000_000), Ok(1_700_000_000 + 864_000));
    assert_eq!(parse_expired_time(" 8h ", 0), Ok(28_800));
    assert_eq!(parse_expired_time("2W", -100), Ok(2 * 604800 - 100));
}

#[test]
fn expired_without_an_amount_is_invalid() {
    assert_eq!(parse_expired_time("", 5), Err(TimeError::InvalidExpired));
    assert_eq!(parse_expired_time("soon", 5), Err(TimeError::InvalidExpired));
    assert_eq!(parse_expired_time("0d", 5), Err(TimeError::InvalidExpired));
    assert_eq!(parse_expired_time("3", 5), Err(TimeError::InvalidExpired));
}

#[test]
fn remind_is_expired_minus_offset() {
    let now = 1_700_000_000;
    let expired = parse_expired_time("10d", now).unwrap();
    assert_eq!(expired, now + 864_000);
    assert_eq!(parse_remind_time(Some(expired), "3d"), Ok(expired - 259_200));
}

#[test]
fn remind_without_expiry_fails() {
    assert_eq!(parse_remind_time(None, "3d"), Err(TimeError::InvalidExpired));
    assert_eq!(parse_remind_time(Some(0), "3d"), Err(TimeError::InvalidExpired));
    assert_eq!(parse_remind_time(None, "later"), Err(TimeError::InvalidRemind));
    assert_eq!(parse_remind_time(Some(100), ""), Err(TimeError::InvalidRemind));
}

#[test]
fn schedule_of_optional_inputs() {
    assert_eq!(resolve_schedule(None, None, 9), Ok((None, None)));
    assert_eq!(resolve_schedule(Some(""), Some(" \t"), 9), Ok((None, None)));
    assert_eq!(resolve_schedule(Some("1d"), None, 9), Ok((Some(86409), None)));
    assert_eq!(resolve_schedule(Some("1d"), Some("1h"), 9), Ok((Some(86409), Some(82809))));
    assert_eq!(resolve_schedule(None, Some("1h"), 9), Err(TimeError::InvalidExpired));
    assert_eq!(resolve_schedule(Some("x"), Some("1h"), 9), Err(TimeError::InvalidExpired));
    assert_eq!(resolve_schedule(Some("1d"), Some("x"), 9), Err(TimeError::InvalidRemind));
}

#[test]
fn wait_time_doubles_up_to_32() {
    assert_eq!(compute_wait_time(5), 1);
    assert_eq!(compute_wait_time(6), 2);
    assert_eq!(compute_wait_time(7), 4);
    assert_eq!(compute_wait_time(8), 8);
    assert_eq!(compute_wait_time(9), 16);
    assert_eq!(compute_wait_time(10), 32);
    assert_eq!(compute_wait_time(11), 32);
    assert_eq!(compute_wait_time(u32::MAX), 32);
}
