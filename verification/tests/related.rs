use vissue::model::IssueHeading;
use vissue::related::{declared_relations, related_why};
use vissue::textmap::TextMap;

fn heading(id: &str, extra: &[(&str, &str)], body: &str) -> IssueHeading {
    let mut props = TextMap::new();
    props.insert("ID".into(), id.into());
    for (k, v) in extra {
        props.insert((*k).into(), (*v).into());
    }
    IssueHeading {
        id: id.into(),
        title: "t".into(),
        state: "TODO".into(),
        priority: 'B',
        properties: props,
        property_order: vec!["ID".into()],
        body: body.into(),
        logbook: Vec::new(),
        line_start: 0,
        line_end: 0,
    }
}

#[test]
fn relations_are_named_from_the_target_end() {
    let known = vec!["a-1".to_string(), "b-2".to_string()];
    let target = heading("a-1", &[("BLOCKED_BY", "b-2"), ("PARENT", "b-2"), ("PIVOTED_TO", "b-2")], "");
    let issue = heading("b-2", &[("DISCOVERED_FROM", "a-1")], "see [[id:a-1]]");
    assert_eq!(
        declared_relations(&target, "a-1", &issue, &known),
        vec!["blocked_by", "parent", "discovered_from", "pivoted_to", "org_link"]
    );
    // The other way round, the same edges read from b-2's end.
    assert_eq!(
        declared_relations(&issue, "b-2", &target, &known),
        vec!["blocks", "child", "source_of", "successor_of", "org_link"]
    );
}

#[test]
fn strangers_share_no_relation() {
    let known = vec!["a-1".to_string(), "c-3".to_string()];
    let a = heading("a-1", &[], "nothing here");
    let c = heading("c-3", &[("BLOCKED_BY", "z-9")], "");
    assert!(declared_relations(&a, "a-1", &c, &known).is_empty());
}

#[test]
fn the_board_reads_evidence_without_scores_or_terms() {
    let evidence: Vec<String> = [
        "score:2.500",
        "blocked_by",
        "term:parser",
        "org_distance:1",
        "org_distance:3",
        "blocks",
        "parent",
    ]
    .iter()
    .map(|s| s.to_string())
    .collect();
    assert_eq!(
        related_why(&evidence),
        "blocked  ·  nearby  ·  distance 3  ·  blocks  ·  parent"
    );
    assert_eq!(related_why(&[]), "");
    assert_eq!(related_why(&["term:x".to_string()]), "");
}
