use casp::cache::stamp;
use casp::time::{relative, Timestamp, EARLIEST, LATEST};

fn at(text: &str) -> Timestamp {
    let parsed: jiff::Timestamp = text.parse().unwrap();
    Timestamp::from_nanosecond(parsed.as_nanosecond()).unwrap()
}

#[test]
fn relative_times_read_naturally() {
    let now = at("2026-07-12T12:00:00Z");
    let cases = [
        ("2026-07-12T11:59:30Z", "now"),
        ("2026-07-12T11:15:00Z", "45m ago"),
        ("2026-07-12T09:00:00Z", "3h ago"),
        ("2026-07-10T12:00:00Z", "2d ago"),
        ("2026-06-01T12:00:00Z", "5w ago"),
        ("2024-07-12T12:00:00Z", "2y ago"),
    ];
    for (past, expected) in cases {
        assert_eq!(relative(&now, &at(past)), expected);
    }
}

#[test]
fn units_change_at_their_bounds() {
    let now = at("2026-07-12T12:00:00Z");
    let cases = [
        (0, "now"),
        (59, "now"),
        (60, "1m ago"),
        (3_599, "59m ago"),
        (3_600, "1h ago"),
        (86_399, "23h ago"),
        (86_400, "1d ago"),
        (604_799, "6d ago"),
        (604_800, "1w ago"),
        (31_535_999, "52w ago"),
        (31_536_000, "1y ago"),
        (315_360_000, "10y ago"),
    ];
    for (seconds, expected) in cases {
        let past = Timestamp::from_nanosecond(now.as_nanosecond() - seconds * 1_000_000_000);
        assert_eq!(relative(&now, &past.unwrap()), expected);
    }
}

#[test]
fn the_future_reads_now() {
    let now = at("2026-07-12T12:00:00Z");
    assert_eq!(relative(&now, &at("2026-07-12T12:00:01Z")), "now");
    assert_eq!(relative(&now, &at("2030-01-01T00:00:00Z")), "now");
}

#[test]
fn range_is_that_of_the_calendar() {
    assert_eq!(EARLIEST, jiff::Timestamp::MIN.as_nanosecond());
    assert_eq!(LATEST, jiff::Timestamp::MAX.as_nanosecond());
    assert!(Timestamp::from_nanosecond(EARLIEST).is_some());
    assert!(Timestamp::from_nanosecond(EARLIEST - 1).is_none());
    assert!(Timestamp::from_nanosecond(LATEST).is_some());
    assert!(Timestamp::from_nanosecond(LATEST + 1).is_none());
    assert!(Timestamp::from_nanosecond(i128::MIN).is_none());
    assert!(Timestamp::from_nanosecond(i128::MAX).is_none());
}

#[test]
fn fractions_are_cut_off_towards_zero() {
    for (nanosecond, second, millisecond) in [
        (0, 0, 0),
        (1_999_999_999, 1, 1_999),
        (-1, 0, 0),
        (-1_500_999_999, -1, -1_500),
        (EARLIEST, -377_705_023_201, -377_705_023_201_000),
        (LATEST, 253_402_207_200, 253_402_207_200_999),
    ] {
        let t = Timestamp::from_nanosecond(nanosecond).unwrap();
        assert_eq!(t.as_nanosecond(), nanosecond);
        assert_eq!(t.as_second(), second);
        assert_eq!(t.as_millisecond(), millisecond);
    }
}

#[test]
fn stamps_need_a_time_in_range() {
    assert_eq!(stamp(7, Some(1_234_567_890)), Some((7, 1_234)));
    assert_eq!(stamp(7, Some(-1_999_999)), Some((7, -1)));
    assert_eq!(stamp(7, Some(LATEST + 1)), None);
    assert_eq!(stamp(7, None), None);
}
