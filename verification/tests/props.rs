use vissue::props::{get, insert, remove, BLOCKED_BY, EDNA_BLOCKER, EFFORT, TAGS};
use vissue::textmap::TextMap;

#[test]
fn get_reads_legacy_then_canonical() {
    let mut props = TextMap::new();
    props.insert("BLOCKEDBY".into(), "old".into());
    assert_eq!(get(&props, BLOCKED_BY), Some("old"));
    insert(&mut props, BLOCKED_BY, "new".into());
    assert_eq!(get(&props, BLOCKED_BY), Some("new"));
    assert!(!props.contains_key("BLOCKEDBY"));
    assert!(
        !props.contains_key(EDNA_BLOCKER),
        "writing BLOCKED_BY must not mint BLOCKER: {props:?}"
    );
}

#[test]
fn a_blank_canonical_value_falls_back_to_the_alias() {
    let mut props = TextMap::new();
    props.insert("Effort".into(), "   ".into());
    props.insert("EFFORT".into(), "2h".into());
    assert_eq!(get(&props, EFFORT), Some("2h"));
    props.insert("TAGS".into(), "a,b".into());
    assert_eq!(get(&props, TAGS), Some("a,b"));
}

#[test]
fn remove_drops_the_key_and_its_aliases() {
    let mut props = TextMap::new();
    props.insert(BLOCKED_BY.into(), "a-1".into());
    props.insert("BLOCKEDBY".into(), "a-2".into());
    props.insert("TYPE".into(), "bug".into());
    remove(&mut props, BLOCKED_BY);
    assert_eq!(get(&props, BLOCKED_BY), None);
    assert_eq!(props.len(), 1);
    assert_eq!(props.get("TYPE").map(String::as_str), Some("bug"));
}

#[test]
fn writing_a_blank_value_reads_back_as_nothing() {
    let mut props = TextMap::new();
    props.insert("BLOCKEDBY".into(), "old".into());
    insert(&mut props, BLOCKED_BY, " ".into());
    assert_eq!(get(&props, BLOCKED_BY), None);
}

#[test]
fn canonicalize_folds_typos_and_leaves_edna() {
    let mut props = TextMap::new();
    props.insert("BLOCKEDBY".into(), "a-1".into());
    props.insert(vissue::props::EDNA_BLOCKER.into(), "a-2".into());
    props.insert("TYPE".into(), "bug".into());
    let moved = vissue::props::canonicalize(&mut props);
    assert!(moved >= 1);
    assert_eq!(get(&props, vissue::props::BLOCKED_BY), Some("a-1 a-2"));
    assert!(!props.contains_key(vissue::props::EDNA_BLOCKER));
    assert_eq!(get(&props, vissue::props::TYPE), Some("bug"));
    assert!(props.contains_key("TYPE"));

    let mut edna = TextMap::new();
    edna.insert(vissue::props::BLOCKED_BY.into(), "a-1".into());
    edna.insert(vissue::props::EDNA_BLOCKER.into(), "prev-sibling".into());
    vissue::props::canonicalize(&mut edna);
    assert_eq!(edna.get(vissue::props::EDNA_BLOCKER).map(String::as_str), Some("prev-sibling"));
    assert_eq!(get(&edna, vissue::props::BLOCKED_BY), Some("a-1"));

    let mut minted = TextMap::new();
    minted.insert(vissue::props::BLOCKED_BY.into(), "a-1".into());
    minted.insert(vissue::props::EDNA_BLOCKER.into(), "ids(a-1)".into());
    vissue::props::canonicalize(&mut minted);
    assert_eq!(minted.get(vissue::props::EDNA_BLOCKER).map(String::as_str), Some("ids(a-1)"));
    assert_eq!(get(&minted, vissue::props::BLOCKED_BY), Some("a-1"));
}

#[test]
fn canonicalize_merges_tags_and_keeps_a_set_key() {
    let mut props = TextMap::new();
    props.insert("TAGS".into(), "perf, needs-review".into());
    props.insert("VISSUE_TAGS".into(), "needs-review:old".into());
    props.insert("EFFORT".into(), "2h".into());
    props.insert("Effort".into(), "1h".into());
    props.insert("SUPERSEDED_BY".into(), "b-2, b-3".into());
    assert_eq!(vissue::props::canonicalize(&mut props), 3);
    assert_eq!(props.get("VISSUE_TAGS").map(String::as_str), Some("needs-review,old,perf"));
    assert_eq!(props.get("Effort").map(String::as_str), Some("1h"));
    assert_eq!(props.get("PIVOTED_TO").map(String::as_str), Some("b-2 b-3"));
    assert!(!props.contains_key("TAGS") && !props.contains_key("EFFORT") && !props.contains_key("SUPERSEDED_BY"));
}
