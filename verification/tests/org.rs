use vissue::model::todo_keywords;
use vissue::org::{
    filetags_from_preamble, is_headline, is_issue_headline, is_top_level_headline,
    org_link_targets, parse_planning_line, parse_priority_cookie, property_key_and_append, split_statistics_cookies,
    take_timestamp, todo_keywords_from_preamble, BlockNest,
};

fn house() -> Vec<String> {
    todo_keywords()
}

#[test]
fn a_headline_needs_stars_then_a_space_at_column_zero() {
    assert!(is_headline("* TODO a title"));
    assert!(is_headline("*** deeper"));
    assert!(is_top_level_headline("* TODO a title"));
    assert!(!is_top_level_headline("** child"));
    assert!(!is_headline("**bold** at the start of a line"));
    assert!(!is_headline(" * indented is not a headline"));
    assert!(!is_headline("not a headline"));
}

#[test]
fn greater_and_dynamic_blocks_hide_their_contents() {
    let mut nest = BlockNest::new();
    assert!(!nest.inside());
    assert!(nest.observe("#+BEGIN_SRC org"));
    assert!(nest.inside());
    assert!(nest.observe("* TODO quoted"));
    assert!(nest.observe("#+begin_example"));
    assert!(nest.observe("* still quoted"));
    assert!(nest.observe("#+end_example"));
    assert!(nest.inside());
    assert!(nest.observe("#+END_SRC"));
    assert!(!nest.inside());
    assert!(nest.observe("  #+BEGIN: clocktable :scope file"));
    assert!(nest.observe("* TODO inside clocktable"));
    assert!(nest.observe("  #+END:"));
    assert!(!nest.inside());
}

#[test]
fn file_local_todo_keywords_accumulate_and_keep_the_house_set() {
    let keys = todo_keywords_from_preamble(
        "#+TITLE: x\n#+TODO: TODO(t) WAIT(w@) | DONE(d!)\n#+TODO: HOLD | CANCELLED\n",
    );
    for expected in [
        "TODO",
        "STARTED",
        "BLOCKED",
        "DONE",
        "CANCELLED",
        "WAIT",
        "HOLD",
    ] {
        assert!(
            keys.iter().any(|k| k == expected),
            "{keys:?} missing {expected}"
        );
    }
}

#[test]
fn comment_and_section_headlines_are_not_issues() {
    let keys = house();
    assert!(is_issue_headline("* TODO Ship it", &keys));
    assert!(is_issue_headline("* DONE [#A] Ship it", &keys));
    assert!(!is_issue_headline("* COMMENT Archive", &keys));
    assert!(!is_issue_headline("* TODO COMMENT hidden", &keys));
    assert!(!is_issue_headline("* Notes", &keys));
    assert!(!is_issue_headline("** TODO child", &keys));
}

#[test]
fn a_file_local_keyword_is_an_issue() {
    let keys = todo_keywords_from_preamble("#+TODO: TODO WAIT | DONE\n");
    assert!(is_issue_headline("* WAIT Parked", &keys));
    assert!(!is_issue_headline("* HOLD Parked", &keys));
}

#[test]
fn statistics_cookies_split_off_the_title() {
    assert_eq!(
        split_statistics_cookies("Break it down [2/5]"),
        ("Break it down".into(), Some("[2/5]".into()))
    );
    assert_eq!(
        split_statistics_cookies("Break it down [2/5] [40%]"),
        ("Break it down".into(), Some("[2/5] [40%]".into()))
    );
    assert_eq!(
        split_statistics_cookies("Array [2/3] leftover"),
        ("Array [2/3] leftover".into(), None)
    );
    assert_eq!(
        split_statistics_cookies("Not a cookie [n/a]"),
        ("Not a cookie [n/a]".into(), None)
    );
}

#[test]
fn timestamps_include_ranges_repeaters_and_diary_sexps() {
    let (ts, rest) = take_timestamp("<2026-09-01 Tue +1w -2d> leftover").unwrap();
    assert_eq!(ts, "<2026-09-01 Tue +1w -2d>");
    assert_eq!(rest, "leftover");
    let (ts, rest) = take_timestamp("<2026-09-01 Tue>--<2026-09-08 Tue>").unwrap();
    assert_eq!(ts, "<2026-09-01 Tue>--<2026-09-08 Tue>");
    assert!(rest.is_empty());
    let (ts, _) = take_timestamp("[2026-09-01 Tue 09:00-17:00]").unwrap();
    assert_eq!(ts, "[2026-09-01 Tue 09:00-17:00]");
    let (ts, rest) = take_timestamp("<%%(diary-float t 4 2)> next").unwrap();
    assert_eq!(ts, "<%%(diary-float t 4 2)>");
    assert_eq!(rest, "next");
}

#[test]
fn a_planning_line_keeps_a_range_and_rejects_prose() {
    let found = parse_planning_line(
        "CLOSED: [2026-08-14 Fri 03:33] SCHEDULED: <2026-09-01 Tue>--<2026-09-08 Tue> DEADLINE: <2026-09-15 Mon +1w>",
    );
    assert_eq!(found.len(), 3, "{found:?}");
    assert_eq!(found[1].1, "<2026-09-01 Tue>--<2026-09-08 Tue>");
    assert_eq!(found[2].1, "<2026-09-15 Mon +1w>");
    assert!(parse_planning_line("DEADLINE: is discussed in the design note.").is_empty());
}

#[test]
fn org_links_include_brackets_angles_and_bare_ids() {
    let known: Vec<String> = ["atlas-1a2b", "beacon-5j6k"]
        .into_iter()
        .map(String::from)
        .collect();
    let body = "See [[id:atlas-1a2b][the parser]] and <id:beacon-5j6k> plus id:atlas-1a2b again.";
    let found = org_link_targets(body, &known);
    assert_eq!(found, vec!["atlas-1a2b", "beacon-5j6k"]);
}

#[test]
fn filetags_parse_the_in_buffer_keyword() {
    assert_eq!(
        filetags_from_preamble("#+FILETAGS: :issues:parser:\n"),
        vec!["issues", "parser"]
    );
}

#[test]
fn property_plus_appends() {
    assert_eq!(property_key_and_append("BLOCKED_BY+"), ("BLOCKED_BY", true));
    assert_eq!(property_key_and_append("ID"), ("ID", false));
}

#[test]
fn a_checked_link_scan_says_when_it_cannot_read_a_body() {
    let known = vec!["a-1".to_string()];
    assert_eq!(
        vissue::org::org_link_targets_checked("see [[id:a-1]] and id:a-1", &known),
        Some(vec!["a-1".to_string()])
    );
    assert_eq!(vissue::org::org_link_targets_checked("ends in id:", &known), None);
}

#[test]
fn a_priority_cookie_splits_off_the_front_and_nothing_else_does() {
    assert_eq!(parse_priority_cookie("[#A] fix the parser"), Some(('A', " fix the parser")));
    assert_eq!(parse_priority_cookie("[#C]"), Some(('C', "")));
    assert_eq!(parse_priority_cookie("[#AB] x"), None);
    assert_eq!(parse_priority_cookie("[#A"), None);
    assert_eq!(parse_priority_cookie("A title"), None);
}
