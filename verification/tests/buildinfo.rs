use coolwords_ui::buildinfo::{civil_from_days, iso8601_utc, now, report, started_at};

fn at(secs: i64) -> String {
    iso8601_utc(secs as u64)
}

#[test]
fn formats_known_instants() {
    assert_eq!(at(0), "1970-01-01T00:00:00Z");
    assert_eq!(at(951_782_400), "2000-02-29T00:00:00Z"); // leap day, century leap
    assert_eq!(at(1_754_352_000), "2025-08-05T00:00:00Z");
    assert_eq!(at(1_754_352_000 + 45_296), "2025-08-05T12:34:56Z");
}

#[test]
fn civil_dates_around_leap_years() {
    assert_eq!(civil_from_days(0), (1970, 1, 1));
    assert_eq!(civil_from_days(-1), (1969, 12, 31));
    assert_eq!(civil_from_days(59), (1970, 3, 1));
    assert_eq!(civil_from_days(11_016), (2000, 2, 29));
    assert_eq!(civil_from_days(11_017), (2000, 3, 1));
}

#[test]
fn started_and_now_format_the_reading() {
    assert_eq!(started_at(86_399), "1970-01-01T23:59:59Z");
    assert_eq!(now(86_400), "1970-01-02T00:00:00Z");
}

#[test]
fn report_lists_four_lines() {
    let r = report("0.3.1", "2025-08-05T00:00:00Z", "2025-08-05T01:00:00Z", "2025-08-05T02:00:00Z");
    assert_eq!(
        r,
        "coolwords 0.3.1\nbuilt   2025-08-05T00:00:00Z\nstarted 2025-08-05T01:00:00Z\nnow     2025-08-05T02:00:00Z\n"
    );
}

#[test]
fn next_day_skips_february_29_outside_leap_years() {
    assert_eq!(civil_from_days(-25_509), (1900, 2, 28));
    assert_eq!(civil_from_days(-25_508), (1900, 3, 1));
    assert_eq!(civil_from_days(47_540), (2100, 2, 28));
    assert_eq!(civil_from_days(47_541), (2100, 3, 1));
    assert_eq!(civil_from_days(19_781), (2024, 2, 28));
    assert_eq!(civil_from_days(19_782), (2024, 2, 29));
    assert_eq!(civil_from_days(10_956), (1999, 12, 31));
    assert_eq!(civil_from_days(10_957), (2000, 1, 1));
    assert_eq!(civil_from_days(2_932_896), (9999, 12, 31));
}

#[test]
fn later_seconds_render_as_later_text() {
    let instants: [i64; 6] = [0, 59, 86_399, 951_782_399, 951_782_400, 253_402_300_799];
    for w in instants.windows(2) {
        assert!(at(w[0]) < at(w[1]));
    }
    assert_eq!(at(253_402_300_799), "9999-12-31T23:59:59Z");
    assert_eq!(at(951_782_399), at(951_782_399));
}
