use std::time::Duration;

use timeago::languages::japanese::Japanese;
use timeago::{BoxedLanguage, Formatter, TimeUnit};
use unterm::clock::{format_in, format_relative, parse_iso8601_secs};

#[test]
fn parse_accepts_session_stamps_and_rejects_malformed() {
    assert_eq!(parse_iso8601_secs("1970-01-01T00:00:00Z"), 0);
    // Intraday fields add onto midnight; the sub-second suffix is ignored.
    let midnight = parse_iso8601_secs("2026-07-02T00:00:00Z");
    assert_ne!(midnight, 0);
    let intraday = 8 * 3600 + 12 * 60 + 34;
    assert_eq!(parse_iso8601_secs("2026-07-02T08:12:34Z"), midnight + intraday);
    assert_eq!(parse_iso8601_secs("2026-07-02T08:12:34.567Z"), midnight + intraday);
    // Consecutive civil days are exactly 86_400 s apart, across a leap day too.
    let next = parse_iso8601_secs("2026-07-03T00:00:00Z");
    assert_eq!(next - midnight, 86_400);
    let feb29 = parse_iso8601_secs("2024-02-29T00:00:00Z");
    let mar1 = parse_iso8601_secs("2024-03-01T00:00:00Z");
    assert_eq!(mar1 - feb29, 86_400);
    // Malformed / out-of-range → 0 (unknown).
    assert_eq!(parse_iso8601_secs(""), 0);
    assert_eq!(parse_iso8601_secs("not a date"), 0);
    assert_eq!(parse_iso8601_secs("2026-13-02T08:12:34Z"), 0);
    assert_eq!(parse_iso8601_secs("2026-07-02 08:12"), 0);
}

#[test]
fn format_relative_scales_and_survives_skew() {
    // Locale-independent (the wording follows the machine's locale): assert the
    // label grows distinct as the age grows, and that skew can't panic.
    let s = 1_700_000_000;
    let five_min = format_relative(s, s + 5 * 60);
    let three_h = format_relative(s, s + 3 * 3600);
    let four_d = format_relative(s, s + 4 * 86_400);
    assert!(!five_min.is_empty());
    assert_ne!(five_min, three_h);
    assert_ne!(three_h, four_d);
    // now == stamp and now < stamp both collapse to the "too low" label.
    assert_eq!(format_relative(s, s), format_relative(s, s - 100));
}

#[test]
fn japanese_has_no_word_spacing() {
    // Regression guard for the upstream fix (timeago 0.6.1, vi/timeago#41):
    // Japanese must render without the default inter-word spaces.
    let mut f = Formatter::with_language(Box::new(Japanese) as BoxedLanguage);
    f.min_unit(TimeUnit::Minutes).num_items(1);
    assert_eq!(f.convert(Duration::from_secs(7 * 86_400)), "1週間前");
}

#[test]
fn fields_are_digits_only() {
    let base = parse_iso8601_secs("2026-07-02T01:12:34Z");
    assert_ne!(base, 0);
    for s in [
        "2026-07-02T-1:12:34Z",
        "2026-07-02T+1:12:34Z",
        "2026-07-02T 1:12:34Z",
        "2026-07-+2T01:12:34Z",
        "+026-07-02T01:12:34Z",
        "2026-07-02T01:12:3xZ",
    ] {
        assert_eq!(parse_iso8601_secs(s), 0, "{s}");
    }
}

#[test]
fn days_end_with_their_month() {
    for s in ["2026-02-29", "2024-02-30", "1900-02-29", "2026-04-31", "2026-06-31", "2026-01-32", "2026-01-00"] {
        assert_eq!(parse_iso8601_secs(&format!("{s}T00:00:00Z")), 0, "{s}");
    }
    assert_eq!(parse_iso8601_secs("2000-02-29T00:00:00Z"), 951_782_400);
    assert_eq!(parse_iso8601_secs("2026-12-31T23:59:59Z"), 1_798_761_599);
    assert_eq!(parse_iso8601_secs("2026-12-31T24:00:00Z"), 0);
    assert_eq!(parse_iso8601_secs("2026-12-31T23:60:00Z"), 0);
    assert_eq!(parse_iso8601_secs("1969-12-31T23:59:59Z"), 0);
}

#[test]
fn stamps_sort_as_text() {
    let stamps = [
        "1970-01-01T00:00:01Z",
        "1999-12-31T23:59:59Z",
        "2000-01-01T00:00:00Z",
        "2024-02-29T23:59:59Z",
        "2024-03-01T00:00:00Z",
        "2024-03-01T00:10:00Z",
        "2024-11-09T09:00:00Z",
    ];
    for a in stamps {
        for b in stamps {
            assert_eq!(parse_iso8601_secs(a) < parse_iso8601_secs(b), a[..19] < b[..19], "{a} {b}");
        }
    }
}

#[test]
fn labels_speak_the_locale_or_english() {
    assert_eq!(format_in(None, 0, 300), "5 minutes ago");
    assert_eq!(format_in(Some("en-US"), 0, 300), "5 minutes ago");
    assert_eq!(format_in(Some("xx-YY"), 0, 7200), "2 hours ago");
    assert_eq!(format_in(Some("ja_JP"), 0, 7 * 86_400), "1週間前");
    assert_eq!(format_in(None, 500, 100), format_in(None, 500, 500));
}
