use vissue::fuzzy::{fzf_score, rank_indices, score_item};
use vissue::palette::{HudItem, ItemSource};

fn item(id: &str, title: &str) -> HudItem {
    HudItem {
        id: id.into(),
        title: title.into(),
        project: "atlas".into(),
        state: "TODO".into(),
        priority: "C".into(),
        source: ItemSource::Ready,
        claimed_by: None,
        due: None,
        blocked_by: Vec::new(),
        extra: String::new(),
        parent: None,
        depth: 0,
    }
}

#[test]
fn exact_id_ranks_above_title_substring() {
    let by_id = item("atlas-1a2b", "Parse the header");
    let by_title = item("beacon-5j6k", "See atlas-1a2b in the notes");
    let id_s = score_item("atlas-1a2b", &by_id);
    let title_s = score_item("atlas-1a2b", &by_title);
    assert!(id_s > title_s, "id {id_s} vs title {title_s}");
    let rows = [by_title.clone(), by_id.clone()];
    let order = rank_indices("atlas-1a2b", &rows);
    assert_eq!(rows[order[0]].id, "atlas-1a2b");
}

#[test]
fn empty_query_keeps_source_order() {
    let rows = [item("b", "B"), item("a", "A")];
    assert_eq!(rank_indices("", &rows), vec![0, 1]);
}

#[test]
fn subsequence_still_matches() {
    assert!(fzf_score("hud", "vissue-hud palette") > 0);
    assert_eq!(fzf_score("zzz", "vissue"), 0);
}

#[test]
fn known_scores() {
    // "ab" in "ab": first match at a white boundary (10 doubled), then an
    // adjacent match (the run bonus starts from the third); both query
    // characters agree in case.
    assert_eq!(fzf_score("ab", "ab"), (16 + 10 + 10 + 1) + (16 + 1));
    assert_eq!(fzf_score("abc", "abc"), (16 + 10 + 10 + 1) + (16 + 1) + (16 + 4 + 1));
    // A gap of two costs the gap start plus one extension.
    assert_eq!(fzf_score("ac", "axxc"), (16 + 10 + 10 + 1) + (16 - 3 - 1 + 1));
    assert_eq!(fzf_score("", "anything"), 0);
    assert_eq!(fzf_score("abc", "ab"), 0);
}

#[test]
fn a_camel_hump_earns_its_bonus() {
    let plain = fzf_score("b", "ab");
    let camel = fzf_score("b", "aB");
    assert!(camel > plain, "{camel} vs {plain}");
}

#[test]
fn rows_that_do_not_match_are_dropped_and_ties_keep_order() {
    let rows = [item("x-1", "alpha"), item("x-2", "beta"), item("x-3", "alpha")];
    let order = rank_indices("alpha", &rows);
    assert_eq!(order, vec![0, 2]);
    assert_eq!(score_item("  ", &rows[0]), 0);
}

#[test]
fn an_id_prefix_outranks_a_title_prefix() {
    let rows = [item("z-9", "atlas plan"), item("atlas-1", "other")];
    let order = rank_indices("atlas", &rows);
    assert_eq!(order, vec![1, 0]);
    assert_eq!(score_item("ATLAS-1", &rows[1]) >= 100_000, true);
}

#[test]
fn a_score_is_positive_exactly_for_an_in_order_match() {
    assert!(vissue::fuzzy::fzf_score("hud", "vissue-hud palette") > 0);
    assert!(vissue::fuzzy::fzf_score("VHP", "vissue-hud palette") > 0);
    assert_eq!(vissue::fuzzy::fzf_score("duh", "vissue-hud palette"), 0);
    assert_eq!(vissue::fuzzy::fzf_score("", "vissue-hud palette"), 0);
}
