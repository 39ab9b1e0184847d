use std::collections::BTreeMap;

use vissue::keys::{all_actions, catalog, chord_from_char, ActionId, KeyMap, Overlay, Scope};

#[test]
fn every_action_has_a_unique_id() {
    let mut seen = BTreeMap::new();
    for row in catalog() {
        assert!(
            seen.insert(row.id.as_str(), row.id).is_none(),
            "duplicate {}",
            row.id.as_str()
        );
        assert_eq!(ActionId::parse(row.id.as_str()), Some(row.id));
    }
    assert_eq!(seen.len(), all_actions().len());
}

#[test]
fn defaults_resolve_j_and_n() {
    let map = KeyMap::from_defaults();
    assert_eq!(map.get("j"), Some(ActionId::ListDown));
    assert_eq!(map.get("n"), Some(ActionId::Note));
    assert_eq!(map.get("?"), Some(ActionId::Help));
}

#[test]
fn overlay_rejects_reserved_and_unknown() {
    let map = KeyMap::from_overlay_text("[board]\n\"issue.note\" = \"esc\"\n");
    let err = map.overlay_error.clone().unwrap();
    assert!(err.contains("reserved"), "{err}");
    let map = KeyMap::from_overlay_text("[board]\n\"no.such\" = \"z\"\n");
    let err = map.overlay_error.clone().unwrap();
    assert!(err.contains("unknown"), "{err}");
    assert_eq!(map.get("j"), Some(ActionId::ListDown), "a refused overlay keeps the defaults");
}

#[test]
fn overlay_remaps_list_down() {
    let map = KeyMap::from_overlay_text(
        "leader = \";\"\n[board]\n\"list.down\" = \"n\"\n\"issue.note\" = \"leader+n\"\n",
    );
    assert_eq!(map.overlay_error, None);
    assert_eq!(map.leader, Some(';'));
    assert_eq!(map.get("n"), Some(ActionId::ListDown));
    assert_eq!(map.get("j"), None);
    assert_eq!(map.get("leader+n"), Some(ActionId::Note));
}

#[test]
fn reserved_chords_are_refused_in_any_case() {
    let overlay = Overlay {
        leader: None,
        leader_timeout_ms: None,
        board: Some(vec![("list.down".into(), Some("TAB".into()))]),
    };
    let err = KeyMap::apply_overlay(&overlay).unwrap_err();
    assert_eq!(err, "cannot steal reserved chord TAB");
}

#[test]
fn fixed_actions_cannot_move() {
    let overlay = Overlay {
        leader: None,
        leader_timeout_ms: None,
        board: Some(vec![("pane.next".into(), Some("x".into()))]),
    };
    assert_eq!(
        KeyMap::apply_overlay(&overlay).unwrap_err(),
        "pane.next is not remappable"
    );
}

#[test]
fn a_chord_that_is_not_text_is_refused() {
    let overlay = Overlay {
        leader: None,
        leader_timeout_ms: None,
        board: Some(vec![("list.down".into(), None)]),
    };
    assert_eq!(
        KeyMap::apply_overlay(&overlay).unwrap_err(),
        "list.down chord must be a string"
    );
}

#[test]
fn a_taken_chord_is_refused() {
    let overlay = Overlay {
        leader: None,
        leader_timeout_ms: None,
        board: Some(vec![("list.down".into(), Some("k".into()))]),
    };
    assert_eq!(
        KeyMap::apply_overlay(&overlay).unwrap_err(),
        "chord k already bound to list.up"
    );
}

#[test]
fn leader_must_be_one_character() {
    let overlay = Overlay {
        leader: Some("ab".into()),
        leader_timeout_ms: Some(0),
        board: None,
    };
    assert_eq!(
        KeyMap::apply_overlay(&overlay).unwrap_err(),
        "leader must be one character"
    );
    let overlay = Overlay {
        leader: Some(",".into()),
        leader_timeout_ms: Some(250),
        board: None,
    };
    let map = KeyMap::apply_overlay(&overlay).unwrap();
    assert_eq!(map.leader, Some(','));
    assert_eq!(map.leader_timeout_ms, 250);
    let overlay = Overlay {
        leader: None,
        leader_timeout_ms: Some(-5),
        board: None,
    };
    assert_eq!(KeyMap::apply_overlay(&overlay).unwrap().leader_timeout_ms, 800);
}

#[test]
fn text_that_is_not_toml_is_reported() {
    let map = KeyMap::from_overlay_text("[board\n");
    let err = map.overlay_error.clone().unwrap();
    assert!(err.starts_with("keys.toml: "), "{err}");
    assert_eq!(map.get("j"), Some(ActionId::ListDown));
}

#[test]
fn help_and_table_lines_show_resolved_chords() {
    let map = KeyMap::from_defaults();
    let help = map.help_lines();
    assert_eq!(help.len(), all_actions().len());
    assert_eq!(help[0], "j         list.down");
    assert_eq!(help[2], "enter     list.select");
    let table = map.table_lines();
    assert_eq!(table[0], "board    list.down        j");
    assert_eq!(table[22], "global   board.help       ?");
    assert_eq!(Scope::Global.as_str(), "global");
}

#[test]
fn occupancy_walks_chords_in_order_and_later_defaults_win() {
    let map = KeyMap::from_defaults();
    let occ = map.occupancy();
    let chords: Vec<&str> = occ.iter().map(|(c, _)| c.as_str()).collect();
    let mut sorted = chords.clone();
    sorted.sort();
    assert_eq!(chords, sorted);
    assert_eq!(map.get("enter"), Some(ActionId::DetailCycle));
    assert_eq!(occ.len(), 22);
    assert_eq!(chord_from_char('x'), "x");
}
