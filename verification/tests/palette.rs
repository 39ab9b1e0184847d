use vissue::palette::{HudItem, ItemSource, PaletteAction, PaletteKey, PaletteState};

fn item(id: &str, title: &str, source: ItemSource) -> HudItem {
    HudItem {
        id: id.into(),
        title: title.into(),
        project: "p".into(),
        state: "TODO".into(),
        priority: "B".into(),
        source,
        claimed_by: None,
        due: None,
        blocked_by: Vec::new(),
        extra: String::new(),
        parent: None,
        depth: 0,
    }
}

fn board() -> PaletteState {
    PaletteState::new(vec![
        item("p-1", "parse the header", ItemSource::Ready),
        item("p-2", "lex tokens", ItemSource::Ready),
        item("p-3", "emit code", ItemSource::Ready),
    ])
}

#[test]
fn arrows_move_the_selection_and_stop_at_the_ends() {
    let mut st = board();
    assert_eq!(st.filtered, vec![0, 1, 2]);
    assert_eq!(st.handle_key(PaletteKey::Up), PaletteAction::Nothing);
    assert_eq!(st.selected, 0);
    st.handle_key(PaletteKey::Down);
    st.handle_key(PaletteKey::Down);
    st.handle_key(PaletteKey::Down);
    assert_eq!(st.selected, 2);
    assert_eq!(st.selected_id().as_deref(), Some("p-3"));
}

#[test]
fn enter_asks_for_the_excerpt_and_esc_closes_it_before_hiding() {
    let mut st = board();
    assert_eq!(st.handle_key(PaletteKey::Enter), PaletteAction::ShowExcerpt("p-1".into()));
    st.excerpt_open = true;
    st.handle_key(PaletteKey::Esc);
    assert!(!st.excerpt_open);
    assert!(st.visible);
    st.handle_key(PaletteKey::Esc);
    assert!(!st.visible);
    // A hidden overlay ignores keys.
    assert_eq!(st.handle_key(PaletteKey::Char('x')), PaletteAction::Nothing);
    assert_eq!(st.query, "");
}

#[test]
fn typing_edits_the_query_and_asks_for_a_reload() {
    let mut st = board();
    st.excerpt_open = true;
    assert_eq!(st.handle_key(PaletteKey::Char('l')), PaletteAction::Reload);
    assert_eq!(st.handle_key(PaletteKey::Char('e')), PaletteAction::Reload);
    assert_eq!(st.query, "le");
    assert!(!st.excerpt_open);
    assert_eq!(st.handle_key(PaletteKey::Backspace), PaletteAction::Reload);
    assert_eq!(st.query, "l");
}

#[test]
fn c_claims_and_n_writes_a_note() {
    let mut st = board();
    st.handle_key(PaletteKey::Down);
    assert_eq!(st.handle_key(PaletteKey::Char('c')), PaletteAction::Claim("p-2".into()));
    assert_eq!(st.handle_key(PaletteKey::Char('n')), PaletteAction::Nothing);
    assert_eq!(st.note_draft.as_deref(), Some(""));
    st.handle_key(PaletteKey::Char('o'));
    st.handle_key(PaletteKey::Char('k'));
    st.handle_key(PaletteKey::Char('!'));
    st.handle_key(PaletteKey::Backspace);
    st.handle_key(PaletteKey::Up);
    assert_eq!(st.note_draft.as_deref(), Some("ok"));
    assert_eq!(st.selected, 1, "arrows do not move while a note is written");
    assert_eq!(st.handle_key(PaletteKey::Enter), PaletteAction::SaveNote("p-2".into(), "ok".into()));
    assert_eq!(st.note_draft, None);
    // Esc drops a note and the message.
    st.message = "old".into();
    st.handle_key(PaletteKey::Char('n'));
    st.handle_key(PaletteKey::Char('z'));
    st.handle_key(PaletteKey::Esc);
    assert_eq!(st.note_draft, None);
    assert_eq!(st.message, "");
    assert!(st.visible);
}

#[test]
fn a_reload_keeps_ready_rows_and_adds_new_hits_once() {
    let mut st = board();
    st.selected = 2;
    st.apply_reload(
        Some(vec![item("p-1", "parse the header", ItemSource::Ready)]),
        vec![item("p-1", "dup", ItemSource::Search), item("q-9", "found", ItemSource::Search)],
    );
    let ids: Vec<&str> = st.items.iter().map(|i| i.id.as_str()).collect();
    assert_eq!(ids, vec!["p-1", "q-9"]);
    assert_eq!(st.selected, 1, "the selection falls back onto the last row");
    // An unchanged page keeps the ready rows and drops the old hits.
    st.apply_reload(None, Vec::new());
    let ids: Vec<&str> = st.items.iter().map(|i| i.id.as_str()).collect();
    assert_eq!(ids, vec!["p-1"]);
    assert_eq!(st.selected, 0);
}

#[test]
fn the_selected_and_filtered_rows_read_through_the_ranking() {
    let mut st = board();
    st.filtered = vec![2, 7, 0];
    st.selected = 0;
    assert_eq!(st.selected_index(), 0);
    assert_eq!(st.selected_item().map(|i| i.id.as_str()), Some("p-3"));
    let ids: Vec<&str> = st.filtered_items().iter().map(|i| i.id.as_str()).collect();
    assert_eq!(ids, vec!["p-3", "p-1"]);
    st.selected = 1;
    assert!(st.selected_item().is_none());
}

#[test]
fn a_row_meta_line_names_parent_extra_and_due() {
    let mut it = item("a-2", "child", ItemSource::Ready);
    assert_eq!(vissue::palette::task_meta(&it), "");
    it.parent = Some("a-1".into());
    it.extra = "3d old".into();
    it.due = Some("<2026-03-01 Sun>".into());
    assert_eq!(vissue::palette::task_meta(&it), "under a-1  \u{b7}  3d old  \u{b7}  <2026-03-01 Sun>");
    it.depth = 1;
    it.claimed_by = Some("ada".into());
    assert_eq!(vissue::palette::task_meta(&it), "<2026-03-01 Sun>");
}

#[test]
fn a_key_writes_a_changed_clipboard_and_resyncs_a_toggled_window() {
    assert_eq!(vissue::palette::key_followups(true, true, "", "atlas-1"), (Some("atlas-1".to_string()), false));
    assert_eq!(vissue::palette::key_followups(true, false, "atlas-1", "atlas-1"), (None, true));
    assert_eq!(vissue::palette::key_followups(false, false, "atlas-1", ""), (None, false));
}
