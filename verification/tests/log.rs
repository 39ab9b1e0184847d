use vissue::log::{format_utc, next_line};

#[test]
fn format_utc_known_instants() {
    assert_eq!(format_utc(0), "1970-01-01T00:00:00Z");
    assert_eq!(format_utc(1_704_067_200), "2024-01-01T00:00:00Z");
    assert_eq!(format_utc(1_704_067_200 + 3661), "2024-01-01T01:01:01Z");
}

#[test]
fn format_utc_crosses_a_leap_day_and_a_century() {
    // 2024-02-29 is a leap day; 2000-03-01 follows a leap century's February.
    assert_eq!(format_utc(1_709_164_800), "2024-02-29T00:00:00Z");
    assert_eq!(format_utc(1_709_251_199), "2024-02-29T23:59:59Z");
    assert_eq!(format_utc(951_868_800), "2000-03-01T00:00:00Z");
    assert_eq!(format_utc(86_399), "1970-01-01T23:59:59Z");
}

#[test]
fn format_utc_reads_the_top_half_as_before_the_epoch() {
    // u64::MAX is -1 as a signed count: one second before 1970.
    assert_eq!(format_utc(u64::MAX), "1969-12-31T23:59:59Z");
}

#[test]
fn a_line_is_written_once_and_never_for_blank_text() {
    let mut last = String::new();
    let first = next_line(&mut last, "error", "  boom  ", 0);
    assert_eq!(first.as_deref(), Some("1970-01-01T00:00:00Z error boom\n"));
    assert_eq!(last, "boom");
    assert_eq!(next_line(&mut last, "error", "boom", 5), None);
    assert_eq!(next_line(&mut last, "info", "   ", 5), None);
    assert_eq!(last, "boom");
    let other = next_line(&mut last, "info", "info-line", 61);
    assert_eq!(other.as_deref(), Some("1970-01-01T00:01:01Z info info-line\n"));
    assert_eq!(last, "info-line");
}
