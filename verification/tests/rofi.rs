use vissue::config::Layout;
use vissue::rofi::{action_from_status, id_from_row, split_file_range, Action, Mode, RofiOpts};

#[test]
fn id_is_the_first_field() {
    assert_eq!(
        id_from_row("atlas-1a2b             STARTED   [#A]  Parse"),
        Some("atlas-1a2b")
    );
    assert_eq!(id_from_row("   "), None);
}

#[test]
fn return_and_custom_keys_map() {
    assert_eq!(action_from_status(0), Some(Action::Open));
    assert_eq!(action_from_status(10), Some(Action::Claim));
    assert_eq!(action_from_status(11), Some(Action::Note));
    assert_eq!(action_from_status(1), None);
    assert_eq!(action_from_status(255), None);
}

#[test]
fn file_range_keeps_colons_in_the_path() {
    let (path, start) = split_file_range("/tmp/foo:bar/issues.org:12-40").unwrap();
    assert_eq!(path, "/tmp/foo:bar/issues.org");
    assert_eq!(start, 12);
}

#[test]
fn mode_aliases() {
    assert_eq!(Mode::parse("all").unwrap(), Mode::List);
    assert_eq!(Mode::parse("ready").unwrap(), Mode::Ready);
    assert!(Mode::parse("nope").is_err());
}

#[test]
fn every_mode_parses_and_names_itself() {
    for (raw, mode) in [
        ("ready", Mode::Ready),
        ("list", Mode::List),
        ("claims", Mode::Claims),
        ("stale", Mode::Stale),
        ("new", Mode::New),
    ] {
        assert_eq!(Mode::parse(raw).unwrap(), mode);
        assert!(mode.prompt().contains(raw), "{raw}: {}", mode.prompt());
    }
}

#[test]
fn the_unknown_mode_error_lists_the_real_ones() {
    let err = Mode::parse("sideways").unwrap_err().to_string();
    assert!(err.contains("sideways"), "{err}");
    for mode in ["ready", "list", "claims", "stale", "new"] {
        assert!(err.contains(mode), "{mode} missing from {err}");
    }
}

#[test]
fn a_file_range_that_is_not_one_is_rejected() {
    assert_eq!(split_file_range("issues.org"), None);
    assert_eq!(split_file_range("issues.org-40"), None);
    assert_eq!(split_file_range("issues.org:x-40"), None);
    assert_eq!(
        split_file_range("a:1-2"),
        Some(("a", 1)),
        "the smallest well-formed range"
    );
}

#[test]
fn the_unknown_mode_error_quotes_the_word() {
    assert_eq!(
        Mode::parse("side\"ways").unwrap_err(),
        "unknown hud mode \"side\\\"ways\"; use ready, list, claims, stale, or new"
    );
}

#[test]
fn a_row_with_leading_blanks_still_names_its_id() {
    assert_eq!(id_from_row("  \tatlas-9z  TODO"), Some("atlas-9z"));
    assert_eq!(id_from_row(""), None);
}

#[test]
fn a_start_line_with_a_plus_parses_like_from_str() {
    assert_eq!(split_file_range("x:+7-9"), Some(("x", 7)));
    assert_eq!(split_file_range("x:-9"), None);
}

#[test]
fn the_rofi_binary_comes_from_the_first_set_override() {
    let layout = Layout::new("/r", "");
    let o = RofiOpts::from_env(layout.clone(), Mode::Ready, Some("  "), Some(" /opt/rofi "), Some("/usr/bin/rofi")).unwrap();
    assert_eq!(o.bin, "/opt/rofi");
    let o = RofiOpts::from_env(layout.clone(), Mode::Ready, None, None, Some("/usr/bin/rofi")).unwrap();
    assert_eq!(o.bin, "/usr/bin/rofi");
    assert_eq!(
        RofiOpts::from_env(layout, Mode::New, None, Some(""), None).unwrap_err(),
        "rofi is not installed"
    );
}
