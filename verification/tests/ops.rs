use vissue::error::TrackerError;
use vissue::ops::{
    append_prose, check_new, create_report, first_existing_id_link, fold_finish, fold_note, fold_summary, refile_report,
    new_body, pending_entries, scan_inbox, split_tags, stamp_inbox, validate_org_date, InboxEntry,
};

const INBOX: &str = "#+TITLE: inbox\n* TODO Fix the parser  \nIt drops the last line.\n\nSee [[id:atlas-1]].\n* DONE Old thing\n:VISSUE_ID: atlas-9\n* TODO Already filed\n  :VISSUE_ID: atlas-7\n* TODO Bare\n";

#[test]
fn the_scan_finds_each_todo_with_its_body_and_stamp() {
    let es = scan_inbox(INBOX);
    assert_eq!(
        es,
        vec![
            InboxEntry {
                line: 1,
                title: "Fix the parser".into(),
                body: "It drops the last line.\n\nSee [[id:atlas-1]].".into(),
                stamped: false,
            },
            InboxEntry { line: 7, title: "Already filed".into(), body: ":VISSUE_ID: atlas-7".into(), stamped: true },
            InboxEntry { line: 9, title: "Bare".into(), body: String::new(), stamped: false },
        ]
    );
    assert_eq!(pending_entries(&es), vec![2, 0]);
}

#[test]
fn stamping_marks_entries_done_and_records_their_ids() {
    let stamps = vec![
        (9, "Bare".to_string(), "atlas-b".to_string()),
        (1, "Fix the parser".to_string(), "atlas-a".to_string()),
    ];
    let out = stamp_inbox(INBOX, &stamps);
    assert_eq!(
        out,
        "#+TITLE: inbox\n* DONE Fix the parser\n:VISSUE_ID: atlas-a\nIt drops the last line.\n\nSee [[id:atlas-1]].\n* DONE Old thing\n:VISSUE_ID: atlas-9\n* TODO Already filed\n  :VISSUE_ID: atlas-7\n* DONE Bare\n:VISSUE_ID: atlas-b\n"
    );
    // A second scan finds nothing left to fold.
    let again = scan_inbox(&out);
    assert!(pending_entries(&again).is_empty());
    // A text without a final newline keeps none.
    assert_eq!(stamp_inbox("* TODO x", &[(0, "x".into(), "p-1".into())]), "* DONE x\n:VISSUE_ID: p-1");
}

#[test]
fn the_fold_summary_lists_what_was_created() {
    assert_eq!(fold_summary(&vec![]), "folded 0 (nothing unstamped)\n");
    assert_eq!(fold_summary(&vec!["a-1".into(), "a-2".into()]), "folded 2: a-1 a-2\n");
}

#[test]
fn a_note_folds_whitespace_and_swaps_double_quotes() {
    assert_eq!(fold_note("first pass done,\n  \"quoted\" bit next"), "first pass done, 'quoted' bit next");
    assert_eq!(fold_note("   "), "");
}

#[test]
fn appended_prose_goes_under_a_stamp() {
    assert_eq!(
        append_prose("Body.\n\n", "[2026-05-01 Fri] ada", "Did it.\n\n").as_deref(),
        Some("Body.\n\n[2026-05-01 Fri] ada\nDid it.\n")
    );
    assert_eq!(
        append_prose("  \n", "[2026-05-01 Fri] ada", "One\nTwo").as_deref(),
        Some("[2026-05-01 Fri] ada\nOne\nTwo\n")
    );
    assert_eq!(append_prose("Body", "s", " \n "), None);
}

#[test]
fn the_first_known_id_link_is_the_origin() {
    let known = vec!["atlas-2".to_string(), "atlas-3".to_string()];
    assert_eq!(
        first_existing_id_link("see [[id:atlas-1]] and [[ id: atlas-2 ][label]] then [[id:atlas-3]]", &known).as_deref(),
        Some("atlas-2")
    );
    assert_eq!(first_existing_id_link("[[https://x]] [[id:atlas-3]]", &known).as_deref(), Some("atlas-3"));
    assert_eq!(first_existing_id_link("[[id:atlas-3", &known), None);
    assert_eq!(first_existing_id_link("no links", &known), None);
}

#[test]
fn tags_split_into_heading_and_property_halves() {
    let (org, prop) = split_tags("rust: perf ,, scaling, needs-review, rust");
    assert_eq!(org, vec!["rust", "perf", "scaling"]);
    assert_eq!(prop, vec!["needs-review"]);
}

#[test]
fn deadlines_must_read_as_org_dates() {
    let e = validate_org_date("not-a-date").unwrap_err();
    assert!(matches!(e, TrackerError::Message(_)));
    assert!(e.message().contains("expected org date"), "{}", e.message());
    assert!(validate_org_date("<2026-05-15 Fri>").is_ok());
    assert!(validate_org_date("[2026-05-15]").is_ok());
    assert!(validate_org_date("<2026-02-30>").is_err());
}

#[test]
fn a_new_issue_needs_a_known_parent_and_a_real_priority() {
    let known = vec!["sample-spec-20260615".to_string()];
    assert!(check_new('B', None, &known).is_ok());
    assert!(check_new('A', Some("sample-spec-20260615"), &known).is_ok());
    let e = check_new('B', Some("sample-zzz9"), &known).unwrap_err();
    assert!(e.message().contains("does not refer to any known id"), "{}", e.message());
    let e = check_new('D', None, &known).unwrap_err();
    assert_eq!(e.message(), "invalid priority 'D'; allowed: A B C");
}

#[test]
fn a_new_body_is_trimmed_at_the_end_and_blank_is_none() {
    assert_eq!(new_body(Some("  Prose here.\n\n")), "  Prose here.\n");
    assert_eq!(new_body(Some(" \n ")), "");
    assert_eq!(new_body(None), "");
}

#[test]
fn create_prints_the_id_or_the_row_and_file() {
    assert_eq!(create_report("s-1", 'B', "Title", "/t/issues.org", true), "s-1\n");
    assert_eq!(
        create_report("s-1", 'B', "Title", "/t/issues.org", false),
        "s-1  TODO  [#B]  Title\nfile: /t/issues.org\n"
    );
}

fn bare_heading() -> vissue::model::IssueHeading {
    let mut props = vissue::textmap::TextMap::new();
    props.insert("ID".into(), "p-1".into());
    vissue::model::IssueHeading {
        id: "p-1".into(),
        title: "Plan".into(),
        state: "STARTED".into(),
        priority: 'B',
        properties: props,
        property_order: vec!["ID".into()],
        body: "Old prose.  \n\n".into(),
        logbook: vec![vissue::model::LogEntry {
            timestamp: "[2026-01-10 Sat 08:00]".into(),
            from_state: Some("TODO".into()),
            to_state: Some("STARTED".into()),
            note: None,
            raw: None,
        }],
        line_start: 0,
        line_end: 0,
    }
}

#[test]
fn a_note_goes_first_in_the_logbook_folded_to_one_line() {
    let mut h = bare_heading();
    let said = vissue::ops::note_heading(&mut h, "  waiting on\n the \"vendor\"  ", "[2026-01-11 Sun 09:00]".into());
    assert_eq!(said.unwrap(), "p-1: noted\n");
    assert_eq!(h.logbook.len(), 2);
    assert_eq!(h.logbook[0].note.as_deref(), Some("waiting on the 'vendor'"));
    assert_eq!(h.logbook[0].timestamp, "[2026-01-11 Sun 09:00]");
    assert_eq!(h.logbook[1].to_state.as_deref(), Some("STARTED"));
    assert_eq!(h.state, "STARTED");
    assert!(vissue::ops::note_heading(&mut h, " \n\t ", "[2026-01-11 Sun 09:00]".into()).is_err());
    assert_eq!(h.logbook.len(), 2);
}

#[test]
fn appended_prose_goes_under_a_stamp_after_a_blank_line() {
    let mut h = bare_heading();
    let said = vissue::ops::append_body_heading(&mut h, "Found the cause.\nFixed it.\n\n", "[2026-01-11 Sun]", "ann");
    assert_eq!(said.unwrap(), "p-1: appended 2 line(s)\n");
    assert_eq!(h.body, "Old prose.\n\n[2026-01-11 Sun] ann\nFound the cause.\nFixed it.\n");
    assert!(vissue::ops::append_body_heading(&mut h, "   ", "[2026-01-11 Sun]", "ann").is_err());
    assert_eq!(h.body, "Old prose.\n\n[2026-01-11 Sun] ann\nFound the cause.\nFixed it.\n");
}

#[test]
fn a_claim_is_kept_only_while_work_is_held() {
    assert!(vissue::ops::keeps_claim("STARTED"));
    assert!(vissue::ops::keeps_claim("BLOCKED"));
    assert!(!vissue::ops::keeps_claim("TODO"));
    assert!(!vissue::ops::keeps_claim("DONE"));
}

#[test]
fn a_rejection_wires_the_successor_and_keeps_a_set_origin() {
    let mut h = bare_heading();
    vissue::ops::set_discovered_from_if_empty(&mut h, "p-0");
    assert_eq!(h.prop_str("DISCOVERED_FROM"), Some("p-0"));
    vissue::ops::set_discovered_from_if_empty(&mut h, "p-9");
    assert_eq!(h.prop_str("DISCOVERED_FROM"), Some("p-0"));
    h.properties.insert("DISCOVERED_FROM".into(), "  ".into());
    vissue::ops::set_discovered_from_if_empty(&mut h, "p-9");
    assert_eq!(h.prop_str("DISCOVERED_FROM"), Some("p-9"));
    vissue::ops::record_sibling_terminal(&mut h, "CANCELLED");
    assert_eq!(h.prop_str("SIBLING_TERMINAL"), Some("CANCELLED"));
    assert_eq!(h.prop_str("ID"), Some("p-1"));
}

#[test]
fn a_rejection_reason_is_stamped_into_the_body() {
    let mut h = bare_heading();
    h.body = String::new();
    vissue::ops::append_reason(&mut h, "  ", "[2026-01-11 Sun]", "ann");
    assert_eq!(h.body, "");
    vissue::ops::append_reason(&mut h, "Superseded by the new plan.  ", "[2026-01-11 Sun]", "ann");
    assert_eq!(h.body, "[2026-01-11 Sun] ann\nSuperseded by the new plan.\n");
}

#[test]
fn a_new_heading_carries_the_drawer_create_writes() {
    let known = vec!["atlas-1".to_string(), "atlas-2".to_string()];
    let opts = vissue::ops::CreateOpts {
        priority: Some('A'),
        issue_type: Some("bug"),
        deadline: Some("<2026-03-01 Sun>"),
        scheduled: None,
        tags: Some("rust: perf ,, needs-review, rust"),
        parent: Some("atlas-2"),
        quiet: false,
        body: Some("Seen while fixing [[id:atlas-1][the lexer]].\n\n"),
        extra_ids: &[],
    };
    let (h, org_tags) = vissue::ops::new_heading(
        "atlas-9".into(),
        "Slow parse",
        "[2026-01-11 Sun]".into(),
        'A',
        &opts,
        &known,
        "atlas",
        &known,
    )
    .unwrap();
    assert_eq!(h.id, "atlas-9");
    assert_eq!(h.state, "TODO");
    assert_eq!(h.prop_str("CREATED"), Some("[2026-01-11 Sun]"));
    assert_eq!(h.prop_str("DISCOVERED_FROM"), Some("atlas-1"));
    assert_eq!(h.prop_str("TYPE"), Some("bug"));
    assert_eq!(h.prop_str("DEADLINE"), Some("<2026-03-01 Sun>"));
    assert_eq!(h.prop_str("SCHEDULED"), None);
    assert_eq!(h.prop_str("VISSUE_TAGS"), Some("needs-review"));
    assert_eq!(h.prop_str("PARENT"), Some("atlas-2"));
    assert_eq!(h.body, "Seen while fixing [[id:atlas-1][the lexer]].\n");
    assert_eq!(org_tags, vec!["rust", "perf"]);

    let bad = vissue::ops::CreateOpts { deadline: Some("next week"), ..opts };
    assert!(matches!(
        vissue::ops::new_heading("atlas-9".into(), "x", "[2026-01-11 Sun]".into(), 'A', &bad, &known, "atlas", &known),
        Err(TrackerError::Message(_))
    ));
}

#[test]
fn a_crlf_inbox_folds_once() {
    let inbox = "* TODO first\r\nnotes\r\n* TODO second\r\n\r\n";
    let es = scan_inbox(inbox);
    assert_eq!(es.len(), 2);
    assert!(es.iter().all(|e| !e.stamped));
    let stamps: Vec<(usize, String, String)> =
        es.iter().map(|e| (e.line, e.title.clone(), format!("p-{}", e.line))).collect();
    let out = stamp_inbox(inbox, &stamps);
    let again = scan_inbox(&out);
    assert!(again.iter().all(|e| e.stamped));
    assert!(pending_entries(&again).is_empty());
}

#[test]
fn a_fold_that_fails_still_stamps_what_it_created() {
    let inbox = "* TODO first\n* TODO second\n* TODO third\n";
    let es = scan_inbox(inbox);
    let order = pending_entries(&es);
    assert_eq!(order, vec![2, 1, 0]);
    let ids = vec!["p-3".to_string(), "p-2".to_string()];
    let (write, report) = fold_finish(inbox, &es, &order, &ids, Some("disk full"));
    assert_eq!(write.as_deref(), Some("* TODO first\n* DONE second\n:VISSUE_ID: p-2\n* DONE third\n:VISSUE_ID: p-3\n"));
    assert_eq!(report, Err("folded 2 before failing: p-2 p-3: disk full".to_string()));

    let (write, report) = fold_finish(inbox, &es, &order, &[], None);
    assert_eq!(write, None);
    assert_eq!(report, Ok("folded 0 (nothing unstamped)\n".to_string()));
}

#[test]
fn a_refile_names_both_projects_or_says_it_did_nothing() {
    assert_eq!(refile_report("a-1", "atlas", "beacon"), "a-1: atlas -> beacon\n");
    assert_eq!(refile_report("a-1", "atlas", "atlas"), "a-1 already in atlas; nothing to do\n");
}

#[test]
fn a_minted_id_must_be_fresh_in_the_file_and_the_extra_ids() {
    let file = vec!["atlas-1a2b".to_string(), "atlas-3c4d".to_string()];
    let extra = vec!["atlas-9z9z".to_string()];
    assert_eq!(vissue::ops::taken_ids(&file, &extra), vec!["atlas-1a2b", "atlas-3c4d", "atlas-9z9z"]);
    let taken = vissue::ops::taken_ids(&file, &extra);
    assert!(vissue::ops::is_fresh_id("atlas-5e6f", "atlas", &taken));
    assert!(!vissue::ops::is_fresh_id("atlas-3c4d", "atlas", &taken));
    assert!(!vissue::ops::is_fresh_id("atlas-9z9z", "atlas", &taken));
    assert!(!vissue::ops::is_fresh_id("beacon-5e6f", "atlas", &taken));

    let opts = vissue::ops::CreateOpts {
        priority: None,
        issue_type: None,
        deadline: None,
        scheduled: None,
        tags: None,
        parent: None,
        quiet: true,
        body: None,
        extra_ids: &extra,
    };
    let made = vissue::ops::create_heading("atlas-9z9z".into(), "t", "[2026-01-11 Sun]".into(), 'B', &opts, &[], "atlas", &file);
    assert!(made.is_none());
    let (h, _) = vissue::ops::create_heading("atlas-5e6f".into(), "t", "[2026-01-11 Sun]".into(), 'B', &opts, &[], "atlas", &file)
        .unwrap()
        .unwrap();
    assert_eq!(h.id, "atlas-5e6f");
    assert_eq!(h.state, "TODO");
}

#[test]
fn a_create_with_a_bad_date_names_it() {
    let opts = vissue::ops::CreateOpts {
        priority: None,
        issue_type: None,
        deadline: Some("next week"),
        scheduled: None,
        tags: None,
        parent: None,
        quiet: true,
        body: None,
        extra_ids: &[],
    };
    let made = vissue::ops::create_heading("atlas-5e6f".into(), "t", "[2026-01-11 Sun]".into(), 'B', &opts, &[], "atlas", &[]);
    let e = made.unwrap().unwrap_err();
    assert_eq!(e.message(), "expected org date like <YYYY-MM-DD> or [YYYY-MM-DD], got \"next week\"");
}
