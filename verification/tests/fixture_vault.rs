//! The corpus checks of the two-project, six-issue sample tracker, with the
//! tracker's headings built in memory.

use vissue::model::{IssueHeading, LogEntry};
use vissue::report::{backlinks, check, children, count, roadmap, search};
use vissue::listing::{list, ready};
use vissue::textmap::TextMap;
use vissue::tree::tree;

fn heading(id: &str, title: &str, state: &str, priority: char, extra: &[(&str, &str)], body: &str) -> IssueHeading {
    let mut props = TextMap::new();
    props.insert("ID".into(), id.into());
    let mut order = vec!["ID".to_string()];
    for (k, v) in extra {
        props.insert((*k).into(), (*v).into());
        order.push((*k).into());
    }
    IssueHeading {
        id: id.into(),
        title: title.into(),
        state: state.into(),
        priority,
        properties: props,
        property_order: order,
        body: body.into(),
        logbook: Vec::new(),
        line_start: 0,
        line_end: 0,
    }
}

fn fixture() -> Vec<(String, IssueHeading)> {
    let mut parser = heading(
        "atlas-1a2b",
        "Parse the manifest header",
        "STARTED",
        'A',
        &[("CREATED", "[2026-01-02 Fri]"), ("VISSUE_TAGS", "parser,core")],
        "Scope: read the header block and nothing past it.\n",
    );
    parser.logbook.push(LogEntry {
        timestamp: "[2026-01-14 Wed 09:12]".into(),
        from_state: Some("TODO".into()),
        to_state: Some("STARTED".into()),
        note: None,
        raw: None,
    });
    vec![
        ("atlas".into(), parser),
        (
            "atlas".into(),
            heading(
                "atlas-2c3d",
                "Index the records",
                "TODO",
                'B',
                &[("CREATED", "[2026-01-03 Sat]"), ("PARENT", "atlas-1a2b")],
                "Scope: one row per parsed record.\n",
            ),
        ),
        (
            "atlas".into(),
            heading(
                "atlas-3e4f",
                "Publish the release notes",
                "BLOCKED",
                'A',
                &[("CREATED", "[2026-01-04 Sun]"), ("BLOCKED_BY", "atlas-1a2b"), ("DEADLINE", "<2026-03-01 Sun>")],
                "Waits on the parser landing, because the notes quote its error text.\n",
            ),
        ),
        (
            "atlas".into(),
            heading("atlas-4g5h", "Pick a license", "DONE", 'C', &[("CREATED", "[2026-01-01 Thu]")], ""),
        ),
        (
            "beacon".into(),
            heading(
                "beacon-5j6k",
                "Retry with backoff",
                "TODO",
                'B',
                &[("CREATED", "[2026-01-05 Mon]"), ("PARENT", "beacon-design-0001")],
                "Use the backoff table from the design.\n",
            ),
        ),
        (
            "beacon".into(),
            heading("beacon-6m7n", "Poll forever", "CANCELLED", 'C', &[("CREATED", "[2026-01-06 Tue]")], ""),
        ),
    ]
}

fn no_suffixes(rows: &[(String, IssueHeading)]) -> Vec<String> {
    vec![String::new(); rows.len()]
}

fn org_ids(rows: &[(String, IssueHeading)]) -> Vec<String> {
    let mut ids: Vec<String> = rows.iter().map(|(_, h)| h.id.clone()).collect();
    ids.push("beacon-design-0001".into());
    ids
}

#[test]
fn ready_hides_blocked_and_closed_work() {
    let rows = fixture();
    let ready = ready(&rows, None, &no_suffixes(&rows));
    assert!(ready.contains("atlas-1a2b"), "{ready}");
    assert!(ready.contains("atlas-2c3d"), "{ready}");
    assert!(ready.contains("beacon-5j6k"), "{ready}");
    assert!(!ready.contains("atlas-3e4f"), "blocked issue listed: {ready}");
    assert!(!ready.contains("atlas-4g5h"), "closed issue listed: {ready}");
    assert_eq!(count(&rows, None, None, true), "3\n");
}

#[test]
fn counts_respect_project_and_state_filters() {
    let rows = fixture();
    assert_eq!(count(&rows, None, None, false), "6\n");
    assert_eq!(count(&rows, Some("atlas"), None, false), "4\n");
    assert_eq!(count(&rows, None, Some("TODO"), false), "2\n");
}

#[test]
fn list_sorts_by_priority_then_state_then_id() {
    let rows = fixture();
    let listed = list(&rows, None, None, false, &no_suffixes(&rows));
    let ids: Vec<&str> = listed.lines().map(|l| l.split_whitespace().next().unwrap()).collect();
    assert_eq!(
        ids,
        vec![
            "atlas-3e4f",  // [#A] BLOCKED
            "atlas-1a2b",  // [#A] STARTED
            "atlas-2c3d",  // [#B] TODO
            "beacon-5j6k", // [#B] TODO
            "beacon-6m7n", // [#C] CANCELLED
            "atlas-4g5h",  // [#C] DONE
        ]
    );
}

#[test]
fn the_tree_shows_children_and_blockers() {
    let rows = fixture();
    let ascii = tree(&rows, "atlas-1a2b", "ascii").unwrap();
    assert!(ascii.starts_with("atlas-1a2b STARTED"), "{ascii}");
    assert!(ascii.contains("  atlas-2c3d TODO"), "{ascii}");
    assert!(!ascii.contains("atlas-4g5h"), "unrelated issue in tree: {ascii}");

    let dot = tree(&rows, "atlas-1a2b", "dot").unwrap();
    assert!(dot.starts_with("digraph vissue_tree {"), "{dot}");
    assert!(dot.contains("\"atlas-1a2b\" -> \"atlas-2c3d\" [color=\"#00897B\"];"), "{dot}");

    assert!(tree(&rows, "atlas-1a2b", "svg").is_err());
    assert!(tree(&rows, "atlas-nope", "ascii").is_err());
}

#[test]
fn backlinks_name_the_relation() {
    let rows = fixture();
    let text = backlinks(&rows, "atlas-1a2b");
    assert!(text.contains("atlas-3e4f"), "{text}");
    assert!(text.contains("(blocked-by)"), "{text}");
    assert!(text.contains("atlas-2c3d"), "{text}");
    assert!(text.contains("(parent)"), "{text}");
}

#[test]
fn check_passes_and_counts_the_corpus() {
    let rows = fixture();
    let out = check(&rows, &org_ids(&rows), 2);
    assert_eq!(out.errors, 0, "{}", out.text);
    assert_eq!(out.warnings, 0, "{}", out.text);
    assert!(
        out.text.contains("checked 6 issue(s) across 2 project(s): 0 error(s), 0 warning(s)"),
        "{}",
        out.text
    );
}

#[test]
fn the_roadmap_groups_by_project_and_state() {
    let rows = fixture();
    let md = roadmap(&rows, None);
    assert!(md.starts_with("# Roadmap\n"), "{md}");
    assert!(md.contains("## atlas"), "{md}");
    assert!(md.contains("### STARTED"), "{md}");
    assert!(
        md.contains("- **atlas-3e4f** [#A] Publish the release notes :: deadline <2026-03-01 Sun> :: blocked by atlas-1a2b"),
        "{md}"
    );
    assert!(md.contains("### Closed (1 items)"), "{md}");
}

#[test]
fn a_search_finds_body_and_property_text() {
    let rows = fixture();
    assert!(search(&rows, "backoff table", 10).contains("beacon-5j6k"));
    assert!(search(&rows, "PARSER,CORE", 10).contains("atlas-1a2b"));
    assert_eq!(search(&rows, "nothing matches this", 10), "");
}

#[test]
fn children_lists_issues_under_a_parent() {
    let rows = fixture();
    let text = children(&rows, "atlas-1a2b");
    assert!(text.contains("atlas-2c3d"), "{text}");
    assert_eq!(text.lines().count(), 1, "{text}");
    // A design document may also be a parent.
    assert!(children(&rows, "beacon-design-0001").contains("beacon-5j6k"));
}

#[test]
fn a_configured_prefix_finds_no_projects_where_there_are_none() {
    let rows: Vec<(String, IssueHeading)> = Vec::new();
    assert_eq!(count(&rows, None, None, false), "0\n");
}
