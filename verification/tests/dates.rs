use vissue::dates::format_org_stamps;

#[test]
fn inactive_date_drops_brackets_and_weekday() {
    assert_eq!(format_org_stamps("[2026-01-12 Mon]"), "12 Jan 2026");
}

#[test]
fn active_deadline_is_a_plain_date() {
    assert_eq!(format_org_stamps("<2026-03-01 Sun>"), "1 Mar 2026");
}

#[test]
fn stamp_with_time_keeps_the_clock() {
    assert_eq!(format_org_stamps("[2026-01-14 Wed 09:12]"), "14 Jan 2026 09:12");
}

#[test]
fn clock_range_uses_to() {
    assert_eq!(
        format_org_stamps("[2026-01-14 Wed 09:12]--[2026-01-14 Wed 10:42]"),
        "14 Jan 2026 09:12 to 14 Jan 2026 10:42"
    );
}

#[test]
fn non_stamp_text_is_unchanged() {
    assert_eq!(format_org_stamps("feature"), "feature");
}

#[test]
fn double_dash_outside_a_stamp_range_is_left_alone() {
    assert_eq!(format_org_stamps("docs--retry"), "docs--retry");
}

#[test]
fn a_bracket_that_is_not_a_stamp_is_kept() {
    assert_eq!(format_org_stamps("see [[id:x-1]] and [2026-13-01]"), "see [[id:x-1]] and [2026-13-01]");
    assert_eq!(format_org_stamps("due [2026-02-30 Mon] ok"), "due 30 Feb 2026 ok");
}

#[test]
fn an_unclosed_bracket_leaves_the_text_alone() {
    assert_eq!(format_org_stamps("ab [2026-01-12 Mon"), "ab [2026-01-12 Mon");
}

#[test]
fn an_active_stamp_before_an_inactive_one_is_still_formatted() {
    assert_eq!(
        format_org_stamps("<2026-03-01 Sun> then [2026-03-02 Mon]"),
        "1 Mar 2026 then 2 Mar 2026"
    );
}

#[test]
fn a_word_after_the_date_is_kept_only_when_it_is_a_time() {
    assert_eq!(format_org_stamps("[2026-01-14 09:12]"), "14 Jan 2026 09:12");
    assert_eq!(format_org_stamps("[2026-01-14 Wed +1w]"), "14 Jan 2026");
    assert_eq!(format_org_stamps("[+2026-01-04]"), "4 Jan 2026");
}
