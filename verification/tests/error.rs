use vissue::error::TrackerError;

#[test]
fn each_variant_says_what_went_wrong() {
    assert_eq!(
        TrackerError::IssueNotFound {
            id: "atlas-1a2b".into()
        }
        .message(),
        "issue atlas-1a2b not found"
    );

    assert_eq!(
        TrackerError::ClaimConflict {
            id: "atlas-1a2b".into(),
            holder: "worker-1".into(),
            claimed_at: Some("[2026-01-03 Sat]".into()),
        }
        .message(),
        "atlas-1a2b is claimed by worker-1 since [2026-01-03 Sat]; pass --force to take it over"
    );

    assert_eq!(
        TrackerError::InvalidState {
            id: "atlas-4g5h".into(),
            state: "DONE".into()
        }
        .message(),
        "atlas-4g5h is already DONE; cannot claim"
    );
}

#[test]
fn a_claim_with_no_recorded_time_still_reads() {
    let text = TrackerError::ClaimConflict {
        id: "atlas-1a2b".into(),
        holder: "worker-1".into(),
        claimed_at: None,
    }
    .message();
    assert!(text.contains("an unknown time"), "{text}");
}

#[test]
fn a_self_block_reads_differently_from_a_cycle() {
    let itself = TrackerError::BlockerCycle {
        blocker: "atlas-1a2b".into(),
        issue: "atlas-1a2b".into(),
    }
    .message();
    assert_eq!(itself, "issue atlas-1a2b cannot block itself");

    let cycle = TrackerError::BlockerCycle {
        blocker: "atlas-1a2b".into(),
        issue: "atlas-3e4f".into(),
    }
    .message();
    assert_eq!(
        cycle,
        "adding atlas-1a2b -> atlas-3e4f would create a blocker cycle"
    );
}

#[test]
fn an_opaque_failure_shows_its_own_text_and_keeps_its_source() {
    let err = TrackerError::Other(anyhow::Error::msg("read /tmp/x: permission denied"));
    assert_eq!(err.message(), "read /tmp/x: permission denied");
    assert!(err.source().is_some(), "Other carries the cause");
}

#[test]
fn only_the_opaque_variant_has_a_source() {
    let typed = TrackerError::IssueNotFound { id: "x".into() };
    assert!(typed.source().is_none());
}

#[test]
fn an_unrelated_anyhow_error_becomes_the_opaque_variant() {
    let recovered: TrackerError = anyhow::Error::msg("something else entirely").into();
    assert!(matches!(recovered, TrackerError::Other(_)));
    assert_eq!(recovered.message(), "something else entirely");
}

#[test]
fn an_io_error_converts_and_keeps_its_message() {
    let io = std::io::Error::new(std::io::ErrorKind::NotFound, "no such file");
    let converted = TrackerError::from_io(io);
    assert!(matches!(converted, TrackerError::Other(_)));
    assert!(converted.message().contains("no such file"));
}

#[test]
fn the_debug_shape_names_the_variant() {
    let text = format!(
        "{:?}",
        TrackerError::InvalidState {
            id: "atlas-4g5h".into(),
            state: "CANCELLED".into()
        }
    );
    assert!(text.contains("InvalidState"), "{text}");
}

#[test]
fn a_duplicate_id_lists_every_file() {
    let text = TrackerError::DuplicateId {
        id: "atlas-1a2b".into(),
        paths: vec!["/a/issues.org".into(), "/b/issues.org".into()],
    }
    .message();
    assert_eq!(
        text,
        "id atlas-1a2b is defined in more than one tracker: /a/issues.org, /b/issues.org"
    );
}

#[test]
fn a_stale_write_names_what_was_expected() {
    let both = TrackerError::StaleWrite {
        id: "atlas-1a2b".into(),
        expected_state: Some("TODO".into()),
        actual_state: "STARTED".into(),
        expected_gen: Some(7),
        actual_gen: Some(12),
    }
    .message();
    assert_eq!(
        both,
        "atlas-1a2b is STARTED at generation 12, not TODO at 7; write refused"
    );
    let gen_only = TrackerError::StaleWrite {
        id: "atlas-1a2b".into(),
        expected_state: None,
        actual_state: "STARTED".into(),
        expected_gen: Some(7),
        actual_gen: None,
    }
    .message();
    assert_eq!(gen_only, "atlas-1a2b generation is ?, not 7; write refused");
    let neither = TrackerError::StaleWrite {
        id: "x".into(),
        expected_state: None,
        actual_state: "TODO".into(),
        expected_gen: None,
        actual_gen: None,
    }
    .message();
    assert_eq!(neither, "x write refused: stale");
}

#[test]
fn a_second_terminal_is_kept_as_a_sibling() {
    let text = TrackerError::TerminalConflict {
        id: "atlas-1a2b".into(),
        held: "DONE".into(),
        attempted: "CANCELLED".into(),
    }
    .message();
    assert_eq!(text, "atlas-1a2b already closed as DONE; CANCELLED kept as a sibling");
}
