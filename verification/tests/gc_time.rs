use turbo_gc_hmr::gc_time::{epoch_millis_to_u64, gc_root_ttl, now_ms};

#[test]
fn override_wins_over_environment_and_default() {
    assert_eq!(gc_root_ttl(0, Some("123"), 86_400_000), 0);
    assert_eq!(gc_root_ttl(42, None, 86_400_000), 42);
}

#[test]
fn environment_value_is_parsed_as_u64() {
    assert_eq!(gc_root_ttl(u64::MAX, Some("1500"), 7), 1500);
    assert_eq!(gc_root_ttl(u64::MAX, Some("+5"), 7), 5);
    assert_eq!(gc_root_ttl(u64::MAX, Some("18446744073709551615"), 7), u64::MAX);
}

#[test]
fn unparsable_environment_value_falls_back_to_default() {
    assert_eq!(gc_root_ttl(u64::MAX, Some("abc"), 7), 7);
    assert_eq!(gc_root_ttl(u64::MAX, Some(" 5"), 7), 7);
    assert_eq!(gc_root_ttl(u64::MAX, Some(""), 7), 7);
    assert_eq!(gc_root_ttl(u64::MAX, Some("+"), 7), 7);
    assert_eq!(gc_root_ttl(u64::MAX, Some("-1"), 7), 7);
    assert_eq!(gc_root_ttl(u64::MAX, Some("18446744073709551616"), 7), 7);
    assert_eq!(gc_root_ttl(u64::MAX, None, 7), 7);
}

#[test]
fn epoch_millis_are_truncated_and_zero_before_the_epoch() {
    assert_eq!(epoch_millis_to_u64(None), 0);
    assert_eq!(epoch_millis_to_u64(Some(1_725_029_869_000)), 1_725_029_869_000);
    assert_eq!(epoch_millis_to_u64(Some((1u128 << 64) + 3)), 3);
}

#[test]
fn wall_clock_is_after_the_epoch() {
    assert!(now_ms() > 1_600_000_000_000);
}

#[test]
fn environment_value_parses_exactly_as_std_does() {
    let texts = [
        "0", "0042", "+0", "+42", "++1", "1a", "1 ", "5\n", "\u{663}", "4294967296",
        "18446744073709551614", "99999999999999999999999", "+18446744073709551615", "-0",
    ];
    for text in texts {
        assert_eq!(gc_root_ttl(u64::MAX, Some(text), 7), text.parse::<u64>().unwrap_or(7), "{text:?}");
    }
}
