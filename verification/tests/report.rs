use vissue::model::IssueHeading;
use vissue::report::{
    backlinks, check, children, claim_suffix, count, cycles, export, graph, list, parse_org_date,
    ready, roadmap, search, show, stale, stale_at,
};
use vissue::textmap::TextMap;

fn heading(id: &str, title: &str, state: &str, priority: char, extra: &[(&str, &str)]) -> IssueHeading {
    let mut props = TextMap::new();
    props.insert("ID".into(), id.into());
    let mut order = vec!["ID".to_string()];
    for (k, v) in extra {
        props.insert((*k).into(), (*v).into());
        order.push((*k).into());
    }
    IssueHeading {
        id: id.into(),
        title: title.into(),
        state: state.into(),
        priority,
        properties: props,
        property_order: order,
        body: String::new(),
        logbook: Vec::new(),
        line_start: 0,
        line_end: 0,
    }
}

/// Two projects: a started parser with two children, one blocked on it, and a
/// beacon issue with a broken blocker and an unparseable deadline.
fn corpus() -> Vec<(String, IssueHeading)> {
    let a1 = heading("a1", "Parse", "STARTED", 'A', &[("CREATED", "[2026-01-10 Sat]")]);
    let a2 = heading(
        "a2",
        "Lex",
        "TODO",
        'B',
        &[("CREATED", "[2026-01-11 Sun]"), ("BLOCKED_BY", "a1"), ("PARENT", "a1")],
    );
    let a3 = heading("a3", "Emit", "DONE", 'C', &[("PARENT", "a1")]);
    let mut b1 = heading(
        "b1",
        "Light",
        "BLOCKED",
        'A',
        &[("BLOCKED_BY", "a2, zz"), ("DEADLINE", "<2026-13-01>")],
    );
    b1.body = "mentions a1 here\n".into();
    vec![
        ("atlas".into(), a1),
        ("atlas".into(), a2),
        ("atlas".into(), a3),
        ("beacon".into(), b1),
    ]
}

#[test]
fn counts_follow_project_and_state_filters() {
    let all = corpus();
    assert_eq!(count(&all, None, None, false), "4\n");
    assert_eq!(count(&all, Some("atlas"), None, false), "3\n");
    assert_eq!(count(&all, Some("atlas"), Some("TODO"), false), "1\n");
    assert_eq!(count(&all, Some("beacon"), Some("TODO"), false), "0\n");
}

#[test]
fn a_ready_count_leaves_out_blocked_and_closed_work() {
    let all = corpus();
    // a1 is ready; a2 waits on an open a1; a3 is closed; b1 is BLOCKED.
    assert_eq!(count(&all, None, None, true), "1\n");
}

#[test]
fn backlinks_name_each_relation() {
    let all = corpus();
    let text = backlinks(&all, "a1");
    let expected = format!(
        "{:<22} (blocked-by) (atlas)\n{:<22} (parent) (atlas)\n{:<22} (parent) (atlas)\n{:<22} (body mention) (beacon)\n",
        "a2", "a2", "a3", "b1"
    );
    assert_eq!(text, expected);
}

#[test]
fn backlinks_of_an_unknown_id_are_empty() {
    assert_eq!(backlinks(&corpus(), "nobody"), "");
}

#[test]
fn children_are_the_issues_under_a_parent() {
    let all = corpus();
    let expected = format!(
        "{:<22} {:<9} [#B]  Lex  (atlas)\n{:<22} {:<9} [#C]  Emit  (atlas)\n",
        "a2", "TODO", "a3", "DONE"
    );
    assert_eq!(children(&all, "a1"), expected);
    assert_eq!(children(&all, "a2"), "");
}

#[test]
fn a_search_finds_title_and_property_text() {
    let all = corpus();
    let expected = format!("{:<22} {:<9} [#B]  Lex  (atlas)\n", "a2", "TODO");
    assert_eq!(search(&all, "LEX", 10), expected);
    // `zz` only appears in b1's BLOCKED_BY property.
    let expected = format!("{:<22} {:<9} [#A]  Light  (beacon)\n", "b1", "BLOCKED");
    assert_eq!(search(&all, "zz", 10), expected);
    assert_eq!(search(&all, "a1", 0), "");
}

#[test]
fn search_orders_by_priority_then_state_then_id() {
    let all = corpus();
    // Every heading carries an ID property, so "id:" matches all four.
    let text = search(&all, "id:", 10);
    let ids: Vec<&str> = text.lines().map(|l| l.split_whitespace().next().unwrap()).collect();
    // [#A] BLOCKED b1, [#A] STARTED a1, [#B] a2, [#C] a3.
    assert_eq!(ids, vec!["b1", "a1", "a2", "a3"]);
    assert_eq!(search(&all, "id:", 2).lines().count(), 2);
}

#[test]
fn the_graph_is_dot_with_state_fills_and_edges() {
    let all = corpus();
    let text = graph(&all, Some("atlas"));
    let expected = [
        "digraph vissue_graph {\n",
        "  rankdir=LR;\n",
        "  node [shape=box, fontname=\"Jost\", style=filled];\n",
        "  edge [fontname=\"Jost\"];\n",
        "  \"a1\" [label=\"Parse\\nSTARTED [#A]\", fillcolor=\"#80CBC4\"];\n",
        "  \"a2\" [label=\"Lex\\nTODO [#B]\", fillcolor=\"#E0F2F1\"];\n",
        "  \"a3\" [label=\"Emit\\nDONE [#C]\", fillcolor=\"#A5D6A7\"];\n",
        "  \"a1\" -> \"a2\" [color=\"#FF7043\"];\n",
        "  \"a1\" -> \"a2\" [color=\"#00897B\", style=dashed];\n",
        "  \"a1\" -> \"a3\" [color=\"#00897B\", style=dashed];\n",
        "}\n",
    ].concat();
    assert_eq!(text, expected);
}

#[test]
fn the_graph_escapes_quotes_in_titles() {
    let all = vec![("p".to_string(), heading("q1", "say \"hi\"", "CANCELLED", 'B', &[]))];
    let text = graph(&all, None);
    assert!(text.contains("\"q1\" [label=\"say \\\"hi\\\"\\nCANCELLED [#B]\", fillcolor=\"#CFD8DC\"];\n"), "{text}");
}

#[test]
fn the_roadmap_groups_projects_by_state() {
    let all = corpus();
    let expected = [
        "# Roadmap\n\n",
        "Generated from `vissue roadmap`. Source of truth lives in the per-project issues.org files.\n\n",
        "## atlas\n\n",
        "### STARTED\n\n",
        "- **a1** [#A] Parse\n\n",
        "### TODO\n\n",
        "- **a2** [#B] Lex :: blocked by a1\n\n",
        "### Closed (1 items)\n\n",
        "- a3 [#C] Emit (DONE)\n\n",
    ].concat();
    assert_eq!(roadmap(&all, Some("atlas")), expected);
    let whole = roadmap(&all, None);
    assert!(whole.contains("## beacon\n\n### BLOCKED\n\n- **b1** [#A] Light :: deadline <2026-13-01> :: blocked by a2, zz\n\n"), "{whole}");
}

#[test]
fn org_dates_parse_in_either_bracket() {
    assert_eq!(parse_org_date("<2026-01-10 Sat>"), Some((2026, 1, 10)));
    assert_eq!(parse_org_date("[2026-02-28]"), Some((2026, 2, 28)));
    assert_eq!(parse_org_date("<2026-02-30>"), None);
    assert_eq!(parse_org_date("<2026-13-01>"), None);
    assert_eq!(parse_org_date(""), None);
}

#[test]
fn check_names_a_broken_blocker_and_a_bad_date() {
    let all = corpus();
    let org_ids: Vec<String> = vec!["a1".into(), "a2".into(), "a3".into(), "b1".into()];
    let r = check(&all, &org_ids, 2);
    assert_eq!(r.errors, 2);
    assert_eq!(r.warnings, 0);
    let expected = [
        "[err]  b1 (in beacon) :BLOCKED_BY: zz -> not found\n",
        "[err]  b1 (in beacon) :DEADLINE: <2026-13-01> -> unparseable\n",
        "\n",
        "checked 4 issue(s) across 2 project(s): 2 error(s), 0 warning(s)\n",
    ].concat();
    assert_eq!(r.text, expected);
}

#[test]
fn check_flags_duplicates_parents_and_missing_creation_dates() {
    let mut all = corpus();
    all.push(("beacon".into(), heading("a1", "Twin", "TODO", 'B', &[("PARENT", "gone")])));
    let org_ids: Vec<String> = vec!["a1".into()];
    let r = check(&all, &org_ids, 2);
    assert!(r.text.starts_with("[dup]  duplicate id: a1 appears in atlas and beacon\n"), "{}", r.text);
    assert!(r.text.contains("[err]  a1 (in beacon) :PARENT: gone -> not found\n"), "{}", r.text);
    assert!(r.text.contains("[warn] a1 (in beacon) state=TODO but :CREATED: is missing\n"), "{}", r.text);
    // a2 and a3 name a1 as parent, which is among the org ids.
    assert_eq!(r.errors, 3);
    assert_eq!(r.warnings, 1);
    assert!(r.text.ends_with("checked 5 issue(s) across 2 project(s): 3 error(s), 1 warning(s)\n"));
}

#[test]
fn stale_lists_old_open_work_oldest_first() {
    let all = vec![
        ("p".to_string(), heading("n1", "New", "TODO", 'A', &[("CREATED", "[2026-01-30 Fri]")])),
        ("p".to_string(), heading("o1", "Old", "STARTED", 'B', &[("CREATED", "<2026-01-05>")])),
        ("q".to_string(), heading("o2", "Older", "TODO", 'C', &[("CREATED", "[2025-12-31 Wed]")])),
        ("q".to_string(), heading("d1", "Done", "DONE", 'A', &[("CREATED", "[2025-01-01]")])),
        ("q".to_string(), heading("u1", "Undated", "TODO", 'A', &[("CREATED", "someday")])),
        ("q".to_string(), heading("o3", "Same day", "TODO", 'A', &[("CREATED", "[2026-01-05]")])),
    ];
    let text = stale_at(&all, 10, None, (2026, 2, 1));
    let expected = format!(
        "{:<22} {:<9} [#C]  Older (32d, q)\n{:<22} {:<9} [#B]  Old (27d, p)\n{:<22} {:<9} [#A]  Same day (27d, q)\n",
        "o2", "TODO", "o1", "STARTED", "o3", "TODO"
    );
    assert_eq!(text, expected);
    assert_eq!(stale_at(&all, 10, Some("p"), (2026, 2, 1)).lines().count(), 1);
    // A negative threshold reaches into the future.
    assert!(stale_at(&all, -5, None, (2026, 2, 1)).contains("New (2d, p)"));
    assert!(stale(&all, 0, None, (2026, 1, 12)).is_some());
    assert!(stale(&all, i64::MAX, None, (2026, 1, 12)).is_none());
}

#[test]
fn the_tree_shows_children_and_blockers_as_text() {
    let all = corpus();
    let text = vissue::report::tree(&all, "a1", "ascii").unwrap();
    assert_eq!(
        text,
        "a1 STARTED   [#A]  Parse\n  a2 TODO      [#B]  Lex\n    * blocked-by a1\n  a3 DONE      [#C]  Emit\n"
    );
    assert_eq!(vissue::report::tree(&all, "a1", "text").unwrap(), text);
}

#[test]
fn a_parent_cycle_stops_the_tree() {
    let all = vec![
        ("p".to_string(), heading("x1", "One", "TODO", 'B', &[("PARENT", "x2")])),
        ("p".to_string(), heading("x2", "Two", "TODO", 'B', &[("PARENT", "x1")])),
    ];
    let text = vissue::report::tree(&all, "x1", "ascii").unwrap();
    assert_eq!(
        text,
        "x1 TODO      [#B]  One\n  x2 TODO      [#B]  Two\n    x1 (cycle, stopping)\n"
    );
}

#[test]
fn the_tree_as_dot_draws_each_issue_once() {
    let all = corpus();
    let text = vissue::report::tree(&all, "a1", "dot").unwrap();
    let expected = [
        "digraph vissue_tree {\n",
        "  rankdir=LR;\n",
        "  node [shape=box, fontname=\"Jost\", style=filled, fillcolor=\"#E0F2F1\"];\n",
        "  \"a1\" [label=\"Parse\\nSTARTED [#A]\"];\n",
        "  \"a1\" -> \"a2\" [color=\"#00897B\"];\n",
        "  \"a1\" -> \"a3\" [color=\"#00897B\"];\n",
        "  \"a3\" [label=\"Emit\\nDONE [#C]\"];\n",
        "  \"a2\" [label=\"Lex\\nTODO [#B]\"];\n",
        "  \"a1\" -> \"a2\" [style=dashed, color=\"#FF7043\", label=\"blocks\"];\n",
        "}\n",
    ]
    .concat();
    assert_eq!(text, expected);
}

#[test]
fn the_tree_refuses_an_unknown_root_or_format() {
    let all = corpus();
    let e = vissue::report::tree(&all, "nope", "ascii").unwrap_err();
    assert_eq!(e.message(), "issue nope not found");
    let e = vissue::report::tree(&all, "a1", "svg").unwrap_err();
    assert_eq!(e.message(), "unknown format \"svg\"; allowed: ascii, dot");
}

#[test]
fn the_list_sorts_by_cookie_state_and_id() {
    let all = corpus();
    let none = vec![String::new(); all.len()];
    let out = list(&all, None, None, false, &none);
    let expected = [
        "b1                     BLOCKED   [#A]  Light\n",
        "a1                     STARTED   [#A]  Parse\n",
        "a2                     TODO      [#B]  Lex\n",
        "a3                     DONE      [#C]  Emit\n",
    ]
    .concat();
    assert_eq!(out, expected);
}

#[test]
fn the_list_filters_by_project_and_state_and_shows_claims() {
    let all = corpus();
    let mut suffixes = vec![String::new(); all.len()];
    suffixes[0] = "  (claimed 3d by ann)".to_string();
    let out = list(&all, Some("atlas"), Some("STARTED"), false, &suffixes);
    assert_eq!(out, "a1                     STARTED   [#A]  Parse  (claimed 3d by ann)\n");
    assert_eq!(list(&all, Some("nowhere"), None, false, &suffixes), "");
}

#[test]
fn ready_work_has_no_open_blocker_in_its_project() {
    let mut all = corpus();
    let none = vec![String::new(); all.len() + 1];
    // a2 waits on the started a1; a1 itself is ready.
    assert_eq!(ready(&all, None, &none[..all.len()]), "a1                     STARTED   [#A]  Parse\n");
    // A blocker open in another project holds c1 back too, as count agrees.
    all.push(("comet".into(), heading("c1", "Fly", "TODO", 'B', &[("BLOCKED_BY", "a1")])));
    let out = ready(&all, None, &none);
    assert_eq!(out, "a1                     STARTED   [#A]  Parse\n");
    assert_eq!(count(&all, None, None, true), "1\n");
}

#[test]
fn each_blocker_loop_is_reported_once_in_sorted_order() {
    let all = vec![
        ("p".to_string(), heading("x2", "Two", "TODO", 'B', &[("BLOCKED_BY", "x1")])),
        ("p".to_string(), heading("x1", "One", "TODO", 'B', &[("BLOCKED_BY", "x2")])),
        ("p".to_string(), heading("x3", "Three", "TODO", 'B', &[("BLOCKED_BY", "x1, ghost")])),
    ];
    // From x2 the walk closes on x2, from x1 on x1; x3 finds x1's loop again.
    assert_eq!(cycles(&all), "x1 -> x2 -> x2\nx1 -> x1 -> x2\n");
}

#[test]
fn a_corpus_without_loops_has_no_cycles() {
    assert_eq!(cycles(&corpus()), "no cycles\n");
    assert_eq!(cycles(&[]), "no cycles\n");
}

#[test]
fn a_self_block_is_a_cycle_of_one() {
    let all = vec![("p".to_string(), heading("s1", "Self", "TODO", 'B', &[("BLOCKED_BY", "s1")]))];
    assert_eq!(cycles(&all), "s1 -> s1\n");
}

#[test]
fn export_copies_every_field_of_the_chosen_rows() {
    let mut all = corpus();
    all[0].1.logbook.push(vissue::model::LogEntry {
        timestamp: "[2026-01-12 Mon 09:00]".into(),
        from_state: Some("TODO".into()),
        to_state: Some("STARTED".into()),
        note: None,
        raw: None,
    });
    all[0].1.body = "Scope: the header block\n".into();
    all[0].1.line_start = 3;
    all[0].1.line_end = 9;
    let rows = export(&all, Some("atlas"));
    assert_eq!(rows.len(), 3);
    let first = &rows[0];
    assert_eq!(first.id, "a1");
    assert_eq!(first.project, "atlas");
    assert_eq!(first.title, "Parse");
    assert_eq!(first.state, "STARTED");
    assert_eq!(first.priority, "A");
    assert_eq!(
        first.properties,
        vec![
            ("CREATED".to_string(), "[2026-01-10 Sat]".to_string()),
            ("ID".to_string(), "a1".to_string()),
        ]
    );
    assert_eq!(first.logbook.len(), 1);
    assert_eq!(first.logbook[0].from.as_deref(), Some("TODO"));
    assert_eq!(first.logbook[0].to.as_deref(), Some("STARTED"));
    assert_eq!(first.logbook[0].note, None);
    assert_eq!(first.body, "Scope: the header block\n");
    assert_eq!((first.line_start, first.line_end), (3, 9));
    assert_eq!(export(&all, None).len(), 4);
    assert!(export(&all, Some("nowhere")).is_empty());
}

#[test]
fn a_blocker_reached_on_two_branches_is_no_loop() {
    // A diamond: A waits on B and C, C waits on B. The walk steps back from
    // one branch before the other, so B is not met on its own path.
    let all = vec![
        ("p".to_string(), heading("A", "Top", "TODO", 'B', &[("BLOCKED_BY", "B, C")])),
        ("p".to_string(), heading("C", "Mid", "TODO", 'B', &[("BLOCKED_BY", "B")])),
        ("p".to_string(), heading("B", "Base", "TODO", 'B', &[])),
    ];
    assert_eq!(cycles(&all), "no cycles\n");
}

#[test]
fn a_claim_suffix_names_the_holder_and_the_age() {
    assert_eq!(claim_suffix(None, Some(3)), "");
    assert_eq!(claim_suffix(Some("ann"), Some(3)), "  (claimed 3d by ann)");
    assert_eq!(claim_suffix(Some("ann"), None), "  (claimed by ann)");
    let all = corpus();
    let mut suffixes = vec![String::new(); all.len()];
    suffixes[0] = claim_suffix(Some("bob"), Some(0));
    assert_eq!(
        list(&all, Some("atlas"), Some("STARTED"), false, &suffixes),
        "a1                     STARTED   [#A]  Parse  (claimed 0d by bob)\n"
    );
}

#[test]
fn a_detail_card_lists_the_drawer_and_the_file_range() {
    let mut all = corpus();
    all[0].1.line_start = 3;
    all[0].1.line_end = 9;
    let card = show(&all[0].1, "atlas", "/t/atlas/issues.org", Some(("ann", Some("[2026-01-14 Wed 09:12]"), Some(2))));
    let expected = [
        "ID:       a1\n",
        "Project:  atlas\n",
        "Title:    Parse\n",
        "State:    STARTED\n",
        "Priority: [#A]\n",
        "Claimed:  ann since [2026-01-14 Wed 09:12] (2d)\n",
        "Properties:\n",
        "  CREATED: [2026-01-10 Sat]\n",
        "File:     /t/atlas/issues.org:3-9\n",
        "\n",
        "(body lives in file; open the range above to read or edit)\n",
    ]
    .concat();
    assert_eq!(card, expected);
    let bare = heading("z9", "Bare", "TODO", 'C', &[]);
    let card = show(&bare, "p", "f.org", Some(("bob", None, None)));
    assert!(card.contains("Claimed:  bob\n"));
    assert!(!card.contains("Properties:"));
    assert!(card.contains("File:     f.org:0-0\n"));
}

#[test]
fn a_stale_query_answers_inside_the_calendar() {
    assert!(stale(&corpus(), 0, None, (2026, 1, 12)).is_some());
    assert!(stale(&corpus(), i64::MAX, None, (2026, 1, 12)).is_none());
    assert!(stale(&corpus(), -100_000_000, None, (2026, 1, 12)).is_none());
}

#[test]
fn check_warns_on_reject_prose_done_and_a_mention_without_an_edge() {
    let mut shipped = heading("s-1", "shipped", "DONE", 'B', &[("CREATED", "[2026-01-10 Sat]")]);
    shipped.body = "[2026-01-11 Sun] ann\nrejected in the append, bounced\n".into();
    let mut other = heading("s-2", "other", "TODO", 'B', &[("CREATED", "[2026-01-10 Sat]")]);
    other.body = "[2026-01-11 Sun] ann\nsee [[id:s-1]]\n".into();
    let all = vec![("sample".to_string(), shipped), ("sample".to_string(), other)];
    let ids = vec!["s-1".to_string(), "s-2".to_string()];
    let report = check(&all, &ids, 1);
    assert!(report.text.contains("s-1") && report.text.contains("DONE but the body reads as a reject"), "{}", report.text);
    assert!(report.text.contains("s-2") && report.text.contains("no DISCOVERED_FROM or PIVOTED_TO"), "{}", report.text);
    assert!(report.warnings >= 2, "{}", report.text);
    assert_eq!(report.errors, 0);
}

#[test]
fn a_pivot_is_a_backlink() {
    let all = vec![
        ("sample".to_string(), heading("s-1", "old", "CANCELLED", 'B', &[("PIVOTED_TO", "s-2")])),
        ("sample".to_string(), heading("s-2", "new", "TODO", 'B', &[])),
    ];
    assert_eq!(backlinks(&all, "s-2"), "s-1                    (pivoted-to) (sample)\n");
}

#[test]
fn related_after_reject_names_the_successor_without_a_body_link() {
    let mut src = heading("s-1", "old approach", "TODO", 'B', &[]);
    vissue::update::pivot_heading(&mut src, "s-2", None, "alice", "[2026-01-12 Mon]", "[2026-01-12 Mon 09:00]");
    let mut dst = heading("s-2", "new approach", "TODO", 'B', &[]);
    vissue::update::discovered_from_if_empty(&mut dst, "s-1");
    assert!(!src.body.contains("s-2"), "the pair is wired by PIVOTED_TO, not prose");
    let known = vec!["s-1".to_string(), "s-2".to_string()];

    let from_src = vissue::related::declared_relations(&src, "s-1", &dst, &known);
    assert!(from_src.contains(&"pivoted_to"), "{from_src:?}");
    let from_dst = vissue::related::declared_relations(&dst, "s-2", &src, &known);
    assert!(from_dst.contains(&"successor_of"), "{from_dst:?}");

    let all = vec![("sample".to_string(), src), ("sample".to_string(), dst)];
    let waiting = backlinks(&all, "s-2");
    assert!(waiting.contains("s-1"), "{waiting}");
}
