use vissue::error::TrackerError;
use vissue::model::IssueHeading;
use vissue::textmap::TextMap;
use vissue::update::{
    apply_update, claim_heading, closing_hints, discovered_from_if_empty, pivot_heading, reject_check,
    resolve_heading, successor_heading, update_report, Change, UpdatePred,
};

const NOW: &str = "[2026-01-12 Mon 09:00]";

fn heading(id: &str, state: &str, extra: &[(&str, &str)]) -> IssueHeading {
    let mut props = TextMap::new();
    props.insert("ID".into(), id.into());
    for (k, v) in extra {
        props.insert((*k).into(), (*v).into());
    }
    IssueHeading {
        id: id.into(),
        title: "t".into(),
        state: state.into(),
        priority: 'B',
        properties: props,
        property_order: vec!["ID".into()],
        body: String::new(),
        logbook: Vec::new(),
        line_start: 0,
        line_end: 0,
    }
}

fn texts(cs: &[Change]) -> Vec<String> {
    cs.iter().map(|c| c.text()).collect()
}

#[test]
fn a_state_change_is_logged() {
    let mut h = heading("s-1", "TODO", &[]);
    let cs = apply_update(&mut h, "s-1", Some("STARTED"), None, None, None, UpdatePred::default(), 0, None, "alice", NOW).unwrap();
    assert_eq!(texts(&cs), vec!["state TODO -> STARTED", "claimed by alice"]);
    assert_eq!(h.state, "STARTED");
    assert_eq!(h.logbook[0].from_state.as_deref(), Some("TODO"));
    assert_eq!(h.logbook[0].to_state.as_deref(), Some("STARTED"));
    assert_eq!(h.logbook[0].timestamp, NOW);
}

#[test]
fn blocking_and_clearing_move_the_state() {
    let mut h = heading("s-1", "TODO", &[]);
    let cs = apply_update(&mut h, "s-1", None, None, Some("s-2"), None, UpdatePred::default(), 0, None, "alice", NOW).unwrap();
    assert_eq!(texts(&cs), vec!["state TODO -> BLOCKED (auto on block)", "blocked_by += s-2"]);
    assert_eq!(h.state, "BLOCKED");
    assert_eq!(h.blocked_by(), vec!["s-2"]);

    let cs = apply_update(&mut h, "s-1", None, None, None, Some("s-2"), UpdatePred::default(), 0, None, "alice", NOW).unwrap();
    assert_eq!(texts(&cs), vec!["state BLOCKED -> TODO (auto on unblock)", "blocked_by -= s-2"]);
    assert_eq!(h.state, "TODO");
    assert!(h.blocked_by().is_empty());
    assert!(!h.properties.contains_key("BLOCKED_BY"));
    // Newest first: the unblock, then the block.
    assert_eq!(h.logbook.len(), 2);
    assert_eq!(h.logbook[0].to_state.as_deref(), Some("TODO"));
    assert_eq!(h.logbook[1].to_state.as_deref(), Some("BLOCKED"));
}

#[test]
fn a_second_blocker_joins_the_list_and_clearing_one_keeps_the_other() {
    let mut h = heading("s-1", "BLOCKED", &[("BLOCKED_BY", "a-1")]);
    let cs = apply_update(&mut h, "s-1", None, Some('A'), Some("b-2"), None, UpdatePred::default(), 0, None, "alice", NOW).unwrap();
    assert_eq!(texts(&cs), vec!["priority -> [#A]", "blocked_by += b-2"]);
    assert_eq!(h.properties.get("BLOCKED_BY").map(|s| s.as_str()), Some("a-1,b-2"));
    let cs = apply_update(&mut h, "s-1", None, None, None, Some("a-1"), UpdatePred::default(), 0, None, "alice", NOW).unwrap();
    assert_eq!(texts(&cs), vec!["blocked_by -= a-1"]);
    assert_eq!(h.state, "BLOCKED");
    assert_eq!(h.properties.get("BLOCKED_BY").map(|s| s.as_str()), Some("b-2"));
}

#[test]
fn nothing_asked_changes_nothing() {
    let mut h = heading("s-1", "TODO", &[("BLOCKED_BY", "a-1")]);
    let cs = apply_update(&mut h, "s-1", Some("TODO"), Some('B'), Some("a-1"), Some("zz"), UpdatePred::default(), 0, None, "alice", NOW).unwrap();
    assert!(cs.is_empty());
    assert_eq!(update_report("s-1", &texts(&cs)), "s-1: no change\n");
}

#[test]
fn a_second_terminal_on_a_closed_heading_stays_beside_it() {
    let mut h = heading("s-1", "DONE", &[]);
    let cs = apply_update(&mut h, "s-1", Some("CANCELLED"), None, None, None, UpdatePred::default(), 0, None, "alice", NOW).unwrap();
    assert_eq!(texts(&cs), vec!["sibling terminal CANCELLED (held DONE)"]);
    assert_eq!(h.state, "DONE");
    assert_eq!(h.properties.get("SIBLING_TERMINAL").map(|s| s.as_str()), Some("CANCELLED"));
    assert!(h.logbook.is_empty());
}

#[test]
fn bad_values_are_refused() {
    let mut h = heading("s-1", "TODO", &[]);
    let e = apply_update(&mut h, "s-1", Some("WAITING"), None, None, None, UpdatePred::default(), 0, None, "alice", NOW).unwrap_err();
    assert!(matches!(e, TrackerError::Message(_)));
    assert!(e.message().starts_with("invalid state \"WAITING\"; allowed: [\"TODO\""), "{}", e.message());
    let e = apply_update(&mut h, "s-1", None, Some('D'), None, None, UpdatePred::default(), 0, None, "alice", NOW).unwrap_err();
    assert_eq!(e.message(), "invalid priority 'D'; allowed: A B C");
}

#[test]
fn a_stale_state_or_generation_refuses_the_write() {
    let mut h = heading("s-1", "STARTED", &[]);
    let pred = UpdatePred { if_state: Some("TODO"), if_gen: Some(7) };
    match apply_update(&mut h, "s-1", Some("DONE"), None, None, None, pred, 7, None, "alice", NOW) {
        Err(TrackerError::StaleWrite { id, expected_state, actual_state, expected_gen, actual_gen }) => {
            assert_eq!(id, "s-1");
            assert_eq!(expected_state.as_deref(), Some("TODO"));
            assert_eq!(actual_state, "STARTED");
            assert_eq!(expected_gen, Some(7));
            assert_eq!(actual_gen, Some(7));
        }
        other => panic!("expected a stale write, got {other:?}"),
    }
    let pred = UpdatePred { if_state: None, if_gen: Some(3) };
    match apply_update(&mut h, "s-1", Some("DONE"), None, None, None, pred, 4, None, "alice", NOW) {
        Err(TrackerError::StaleWrite { expected_state, expected_gen, actual_gen, .. }) => {
            assert_eq!(expected_state, None);
            assert_eq!(expected_gen, Some(3));
            assert_eq!(actual_gen, Some(4));
        }
        other => panic!("expected a stale write, got {other:?}"),
    }
    let pred = UpdatePred { if_state: Some("STARTED"), if_gen: Some(4) };
    let cs = apply_update(&mut h, "s-1", Some("DONE"), None, None, None, pred, 4, None, "alice", NOW).unwrap();
    assert_eq!(texts(&cs), vec!["state STARTED -> DONE"]);
}

#[test]
fn a_refused_edge_is_the_error() {
    let mut h = heading("s-1", "TODO", &[]);
    let refusal = TrackerError::BlockerCycle { blocker: "s-2".into(), issue: "s-1".into() };
    let e = apply_update(&mut h, "s-1", None, None, Some("s-2"), None, UpdatePred::default(), 0, Some(refusal), "alice", NOW).unwrap_err();
    assert!(matches!(e, TrackerError::BlockerCycle { .. }));
}

#[test]
fn closing_names_the_open_issues_still_pointing_at_it() {
    let rows = vec![
        ("p".to_string(), heading("a-1", "TODO", &[("BLOCKED_BY", "z-9, b-2")])),
        ("q".to_string(), heading("c-3", "DONE", &[("BLOCKED_BY", "z-9")])),
        ("q".to_string(), heading("d-4", "BLOCKED", &[("BLOCKED_BY", "z-9")])),
    ];
    let hints = closing_hints(&rows, "z-9");
    assert_eq!(
        hints,
        vec![
            "a-1 (in p) lists this as a blocker; clear with `vissue update a-1 --unblock z-9`",
            "d-4 (in q) lists this as a blocker; clear with `vissue update d-4 --unblock z-9`",
        ]
    );
    assert!(closing_hints(&rows, "b-9").is_empty());
}

#[test]
fn the_report_joins_the_changes() {
    let notes = vec!["state TODO -> STARTED".to_string(), "claimed by ada".to_string()];
    assert_eq!(update_report("s-1", &notes), "s-1: state TODO -> STARTED, claimed by ada\n");
}

#[test]
fn a_refused_priority_is_shown_escaped() {
    let mut h = heading("s-1", "TODO", &[]);
    let e = apply_update(&mut h, "s-1", None, Some('\''), None, None, UpdatePred::default(), 0, None, "alice", NOW).unwrap_err();
    assert_eq!(e.message(), "invalid priority '\\''; allowed: A B C");
    let e = apply_update(&mut h, "s-1", Some("WAITING"), None, None, None, UpdatePred::default(), 0, None, "alice", NOW).unwrap_err();
    assert_eq!(
        e.message(),
        "invalid state \"WAITING\"; allowed: [\"TODO\", \"STARTED\", \"BLOCKED\", \"DONE\", \"CANCELLED\"]"
    );
}

#[test]
fn starting_claims_and_the_unblock_to_todo_releases_the_claim() {
    let mut h = heading("s-1", "TODO", &[]);
    apply_update(&mut h, "s-1", Some("STARTED"), None, None, None, UpdatePred::default(), 0, None, "alice", NOW).unwrap();
    assert_eq!(h.properties.get("CLAIMED_BY").map(|s| s.as_str()), Some("alice"));
    assert_eq!(h.properties.get("CLAIMED_AT").map(|s| s.as_str()), Some(NOW));

    let cs = apply_update(&mut h, "s-1", None, None, Some("b-2"), None, UpdatePred::default(), 0, None, "bob", NOW).unwrap();
    assert_eq!(texts(&cs), vec!["state STARTED -> BLOCKED (auto on block)", "blocked_by += b-2"]);
    assert_eq!(h.properties.get("CLAIMED_BY").map(|s| s.as_str()), Some("alice"));

    let cs = apply_update(&mut h, "s-1", None, None, None, Some("b-2"), UpdatePred::default(), 0, None, "bob", NOW).unwrap();
    assert_eq!(
        texts(&cs),
        vec!["state BLOCKED -> TODO (auto on unblock)", "claim released (alice)", "blocked_by -= b-2"]
    );
    assert_eq!(h.state, "TODO");
    assert!(!h.properties.contains_key("CLAIMED_BY"));
    assert!(!h.properties.contains_key("CLAIMED_AT"));
    // The logbook keeps who held the claim and since when, newest first.
    assert_eq!(h.logbook[0].note.as_deref(), Some("claim released: alice, held since [2026-01-12 Mon 09:00]"));
    assert_eq!(h.logbook[0].timestamp, NOW);
    assert_eq!(h.logbook[1].to_state.as_deref(), Some("TODO"));
    assert_eq!(h.logbook.len(), 4);
}

#[test]
fn a_held_claim_stays_with_its_holder_until_the_issue_closes() {
    let mut h = heading("s-1", "TODO", &[("CLAIMED_BY", "bob"), ("CLAIMED_AT", "[2026-01-03 Sat]")]);
    let cs = apply_update(&mut h, "s-1", Some("STARTED"), None, None, None, UpdatePred::default(), 0, None, "alice", NOW).unwrap();
    assert_eq!(texts(&cs), vec!["state TODO -> STARTED"]);
    assert_eq!(h.properties.get("CLAIMED_BY").map(|s| s.as_str()), Some("bob"));
    let cs = apply_update(&mut h, "s-1", Some("DONE"), None, None, None, UpdatePred::default(), 0, None, "alice", NOW).unwrap();
    assert_eq!(texts(&cs), vec!["state STARTED -> DONE", "claim released (bob)"]);
    assert!(!h.properties.contains_key("CLAIMED_BY"));
}

#[test]
fn auto_unblock_to_todo_releases_the_claim() {
    let mut h = heading("first", "TODO", &[]);
    claim_heading(&mut h, "first", "alice", false, NOW).unwrap();
    apply_update(&mut h, "first", None, None, Some("blocker"), None, UpdatePred::default(), 0, None, "alice", NOW).unwrap();
    assert!(h.properties.get("CLAIMED_BY").is_some());

    apply_update(&mut h, "first", None, None, None, Some("blocker"), UpdatePred::default(), 0, None, "alice", NOW).unwrap();
    assert_eq!(h.state, "TODO");
    assert!(h.properties.get("CLAIMED_BY").is_none(), "claim stuck on TODO: {h:?}");
}

#[test]
fn a_claim_starts_the_issue_and_stamps_the_holder() {
    let mut h = heading("a-1", "TODO", &[]);
    assert_eq!(claim_heading(&mut h, "a-1", "alice", false, NOW).unwrap(), "claimed a-1 by alice (TODO -> STARTED)\n");
    assert_eq!(h.state, "STARTED");
    assert_eq!(h.properties.get("CLAIMED_BY").map(|s| s.as_str()), Some("alice"));
    assert_eq!(h.properties.get("CLAIMED_AT").map(|s| s.as_str()), Some(NOW));
    assert_eq!(h.logbook.len(), 1);
    assert_eq!(claim_heading(&mut h, "a-1", "alice", false, NOW).unwrap(), "claimed a-1 by alice\n");
    assert_eq!(h.logbook.len(), 1);
}

#[test]
fn someone_elses_claim_is_refused_unless_forced() {
    let mut h = heading("a-1", "STARTED", &[("CLAIMED_BY", "bob"), ("CLAIMED_AT", "[2026-01-03 Sat]")]);
    match claim_heading(&mut h, "a-1", "alice", false, NOW) {
        Err(TrackerError::ClaimConflict { id, holder, claimed_at }) => {
            assert_eq!(id, "a-1");
            assert_eq!(holder, "bob");
            assert_eq!(claimed_at.as_deref(), Some("[2026-01-03 Sat]"));
        }
        other => panic!("expected a claim conflict, got {other:?}"),
    }
    assert_eq!(h.properties.get("CLAIMED_BY").map(|s| s.as_str()), Some("bob"));
    assert_eq!(claim_heading(&mut h, "a-1", "alice", true, NOW).unwrap(), "claimed a-1 (taken over from bob)\n");
    assert_eq!(h.logbook.len(), 1);
    assert_eq!(h.logbook[0].note.as_deref(), Some("claim released: bob, held since [2026-01-03 Sat]"));
    assert_eq!(h.properties.get("CLAIMED_BY").map(|s| s.as_str()), Some("alice"));
    assert_eq!(h.properties.get("CLAIMED_AT").map(|s| s.as_str()), Some(NOW));
}

#[test]
fn a_closed_issue_cannot_be_claimed() {
    let mut h = heading("a-1", "DONE", &[]);
    let e = claim_heading(&mut h, "a-1", "alice", true, NOW).unwrap_err();
    assert_eq!(e.message(), "a-1 is already DONE; cannot claim");
    assert_eq!(h.state, "DONE");
}

#[test]
fn resolving_picks_one_terminal_and_clears_the_mark() {
    let mut h = heading("a-1", "DONE", &[("SIBLING_TERMINAL", "CANCELLED")]);
    assert_eq!(resolve_heading(&mut h, "a-1", "CANCELLED", "alice", NOW).unwrap(), "resolved a-1 -> CANCELLED\n");
    assert_eq!(h.state, "CANCELLED");
    assert!(!h.properties.contains_key("SIBLING_TERMINAL"));
    assert_eq!(h.logbook.len(), 1);

    let mut h = heading("a-1", "STARTED", &[("CLAIMED_BY", "bob")]);
    resolve_heading(&mut h, "a-1", "DONE", "alice", NOW).unwrap();
    assert!(!h.properties.contains_key("CLAIMED_BY"));

    let e = resolve_heading(&mut h, "a-1", "TODO", "alice", NOW).unwrap_err();
    assert_eq!(e.message(), "resolve state must be DONE or CANCELLED, got \"TODO\"");
}

#[test]
fn a_reject_cancels_points_at_the_successor_and_keeps_the_reason() {
    let mut h = heading("a-1", "STARTED", &[("CLAIMED_BY", "bob")]);
    h.body = "first notes\n\n".into();
    let (was, now) = pivot_heading(&mut h, "b-2", Some("rejected in the append, bounced  "), "alice", "[2026-01-12 Mon]", NOW);
    assert_eq!((was.as_str(), now.as_str()), ("STARTED", "CANCELLED"));
    assert_eq!(h.properties.get("PIVOTED_TO").map(|s| s.as_str()), Some("b-2"));
    assert!(!h.properties.contains_key("CLAIMED_BY"));
    assert_eq!(h.body, "first notes\n\n[2026-01-12 Mon] alice\nrejected in the append, bounced\n");
    assert_eq!(h.logbook.len(), 2);
    assert_eq!(h.logbook[0].note.as_deref(), Some("claim released: bob"));
    assert_eq!(h.logbook[1].to_state.as_deref(), Some("CANCELLED"));

    let mut done = heading("c-3", "DONE", &[]);
    let (was, now) = pivot_heading(&mut done, "b-2", None, "alice", "[2026-01-12 Mon]", NOW);
    assert_eq!((was.as_str(), now.as_str()), ("DONE", "DONE"));
    assert_eq!(done.properties.get("SIBLING_TERMINAL").map(|s| s.as_str()), Some("CANCELLED"));
    assert!(done.logbook.is_empty());
}

#[test]
fn a_successor_keeps_an_origin_it_already_names() {
    let mut h = heading("b-2", "TODO", &[]);
    discovered_from_if_empty(&mut h, "a-1");
    assert_eq!(h.properties.get("DISCOVERED_FROM").map(|s| s.as_str()), Some("a-1"));
    let mut h = heading("b-2", "TODO", &[("DISCOVERED_FROM", "z-9")]);
    discovered_from_if_empty(&mut h, "a-1");
    assert_eq!(h.properties.get("DISCOVERED_FROM").map(|s| s.as_str()), Some("z-9"));
    let mut h = heading("b-2", "TODO", &[("DISCOVERED_FROM", "  ")]);
    discovered_from_if_empty(&mut h, "a-1");
    assert_eq!(h.properties.get("DISCOVERED_FROM").map(|s| s.as_str()), Some("a-1"));
}

#[test]
fn a_reject_needs_a_destination_other_than_itself() {
    assert!(reject_check("a-1", Some("b-2"), None).is_ok());
    assert!(reject_check("a-1", None, Some("atlas")).is_ok());
    let e = reject_check("a-1", Some("a-1"), Some("atlas")).unwrap_err();
    assert_eq!(e.message(), "reject destination cannot be the source a-1");
    let e = reject_check("a-1", None, None).unwrap_err();
    assert_eq!(e.message(), "reject needs --to DST or --project to create a successor");
}

#[test]
fn a_created_successor_names_its_origin() {
    let h = successor_heading("b-2", "try again", 'B', "a-1", "[2026-01-12 Mon]");
    assert_eq!(h.state, "TODO");
    assert_eq!(h.title, "try again");
    assert_eq!(h.properties.get("ID").map(|s| s.as_str()), Some("b-2"));
    assert_eq!(h.properties.get("CREATED").map(|s| s.as_str()), Some("[2026-01-12 Mon]"));
    assert_eq!(h.properties.get("DISCOVERED_FROM").map(|s| s.as_str()), Some("a-1"));
}

#[test]
fn a_reject_reports_the_pair() {
    assert_eq!(vissue::update::reject_report("s-1", "s-2"), "rejected s-1 -> s-2\n");
}

#[test]
fn hints_come_only_after_a_close() {
    let rows = vec![("p".to_string(), heading("a-1", "TODO", &[("BLOCKED_BY", "z-9")]))];
    let notes = vec!["state STARTED -> DONE".to_string()];
    let out = vissue::update::update_outcome("z-9", &notes, "STARTED", "DONE", &rows);
    assert_eq!(out.report, "z-9: state STARTED -> DONE\n");
    assert_eq!(out.hints.len(), 1);
    let notes = vec!["priority -> [#A]".to_string()];
    let out = vissue::update::update_outcome("z-9", &notes, "STARTED", "STARTED", &rows);
    assert!(out.hints.is_empty());
    let out = vissue::update::update_outcome("z-9", &Vec::new(), "DONE", "DONE", &rows);
    assert_eq!(out.report, "z-9: no change\n");
    assert!(out.hints.is_empty());
}
