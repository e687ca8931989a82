use rrm::digits::{parse_u32, render_u32};
use rrm::time::{Timestamp, MAX_EPOCH_SECS};

#[test]
fn renders_the_epoch() {
    let t = Timestamp { secs: 0 };
    assert_eq!(t.render_rfc3339(), "1970-01-01T00:00:00+00:00");
    assert_eq!(t.render_display(), "1970-01-01 00:00:00");
}

#[test]
fn renders_a_known_moment() {
    let t = Timestamp { secs: 1_700_000_000 };
    assert_eq!(t.render_rfc3339(), "2023-11-14T22:13:20+00:00");
    assert_eq!(t.render_display(), "2023-11-14 22:13:20");
}

#[test]
fn parses_what_it_renders() {
    for secs in [0i64, 1, 59, 86399, 86400, 951_867_600, 1_700_000_000, MAX_EPOCH_SECS] {
        let t = Timestamp { secs };
        let s = t.render_rfc3339();
        assert_eq!(Timestamp::parse_rfc3339(&s), Some(t));
    }
}

#[test]
fn parses_a_leap_day() {
    assert_eq!(
        Timestamp::parse_rfc3339("2024-02-29T12:00:00Z"),
        Some(Timestamp { secs: 1_709_208_000 })
    );
    // not a leap year
    assert_eq!(Timestamp::parse_rfc3339("2023-02-29T12:00:00Z"), None);
}

#[test]
fn parses_offsets_and_fractions() {
    assert_eq!(
        Timestamp::parse_rfc3339("1970-01-01T01:00:00+01:00"),
        Some(Timestamp { secs: 0 })
    );
    assert_eq!(
        Timestamp::parse_rfc3339("1970-01-01T02:30:00+02:30"),
        Some(Timestamp { secs: 0 })
    );
    assert_eq!(
        Timestamp::parse_rfc3339("2023-11-14T21:13:20-01:00"),
        Some(Timestamp { secs: 1_700_000_000 })
    );
    assert_eq!(
        Timestamp::parse_rfc3339("2023-11-14T22:13:20.123456Z"),
        Some(Timestamp { secs: 1_700_000_000 })
    );
    assert_eq!(
        Timestamp::parse_rfc3339("2023-11-14t22:13:20z"),
        Some(Timestamp { secs: 1_700_000_000 })
    );
}

#[test]
fn rejects_what_it_cannot_hold() {
    // before the supported range
    assert_eq!(Timestamp::parse_rfc3339("1970-01-01T00:00:00+01:00"), None);
    // the written calendar year must lie in the supported range, even
    // where the offset would map the moment back into it
    assert_eq!(Timestamp::parse_rfc3339("1969-12-31T23:00:00-01:00"), None);
    // leap second
    assert_eq!(Timestamp::parse_rfc3339("2016-12-31T23:59:60Z"), None);
    // bad shapes
    assert_eq!(Timestamp::parse_rfc3339(""), None);
    assert_eq!(Timestamp::parse_rfc3339("not a date"), None);
    assert_eq!(Timestamp::parse_rfc3339("2023-13-01T00:00:00Z"), None);
    assert_eq!(Timestamp::parse_rfc3339("2023-11-14T22:13:20"), None);
    assert_eq!(Timestamp::parse_rfc3339("2023-11-14T22:13:20.Z"), None);
    assert_eq!(Timestamp::parse_rfc3339("2023-11-14 22:13:20Z"), None);
}

#[test]
fn formats_today_and_tomorrow() {
    let now = Timestamp { secs: 1_700_000_000 };
    let later_same_day = Timestamp { secs: 1_700_003_600 };
    let next_day = Timestamp { secs: 1_700_000_000 + 86_400 };
    let far = Timestamp { secs: 1_700_000_000 + 7 * 86_400 };
    let item = |d: Timestamp| rrm::trash::TrashItem {
        id: "x".to_string(),
        path: "/t/x".to_string(),
        original_path: "/tmp/x".to_string(),
        deletion_date: d,
    };
    assert_eq!(item(later_same_day).format_deletion_date(now), "Today");
    assert_eq!(item(next_day).format_deletion_date(now), "Tomorrow");
    assert_eq!(item(far).format_deletion_date(now), "2023-11-21 22:13:20");
}

#[test]
fn checked_add_days_saturates_to_none() {
    let t = Timestamp { secs: 0 };
    assert_eq!(t.checked_add_days(7), Some(Timestamp { secs: 7 * 86_400 }));
    let late = Timestamp { secs: MAX_EPOCH_SECS };
    assert_eq!(late.checked_add_days(1), None);
}

#[test]
fn reads_and_writes_decimals() {
    assert_eq!(parse_u32("7"), Some(7));
    assert_eq!(parse_u32("007"), Some(7));
    assert_eq!(parse_u32("+42"), Some(42));
    assert_eq!(parse_u32(""), None);
    assert_eq!(parse_u32("+"), None);
    assert_eq!(parse_u32("abc"), None);
    assert_eq!(parse_u32("12d"), None);
    assert_eq!(parse_u32("4294967295"), Some(u32::MAX));
    assert_eq!(parse_u32("4294967296"), None);
    assert_eq!(render_u32(0), "0");
    assert_eq!(render_u32(12345), "12345");
    assert_eq!(parse_u32(&render_u32(u32::MAX)), Some(u32::MAX));
}
