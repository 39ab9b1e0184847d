use vissue::model::{parse_log_line, todo_keywords, IssueHeading, LogEntry};
use vissue::org::parse_headline_bits;
use vissue::textmap::TextMap;

fn sample_heading() -> IssueHeading {
    let mut props = TextMap::new();
    props.insert("ID".into(), "sample-abc1".into());
    props.insert("CREATED".into(), "[2026-04-25 Sat]".into());
    props.insert("TYPE".into(), "feature".into());
    IssueHeading {
        id: "sample-abc1".into(),
        title: "Add a thing".into(),
        state: "TODO".into(),
        priority: 'A',
        properties: props,
        property_order: vec!["ID".into(), "CREATED".into(), "TYPE".into()],
        body: "Some body lines.\nWith multiple lines.".into(),
        logbook: Vec::new(),
        line_start: 4,
        line_end: 12,
    }
}

#[test]
fn blocked_by_accepts_commas_spaces_and_both() {
    let mut h = sample_heading();
    for raw in [" A-1, B-2 ,, C-3 ", "A-1 B-2  C-3", "A-1, B-2 C-3"] {
        h.properties.insert("BLOCKED_BY".into(), raw.into());
        assert_eq!(h.blocked_by(), vec!["A-1", "B-2", "C-3"], "raw = {raw:?}");
    }
}

#[test]
fn tags_split_on_commas_and_colons() {
    let mut h = sample_heading();
    h.properties.insert("TAGS".into(), "rust:perf, scaling".into());
    assert_eq!(h.tags(), vec!["rust", "perf", "scaling"]);
}

#[test]
fn accessors_read_optional_properties() {
    let mut h = sample_heading();
    assert!(h.parent().is_none());
    h.properties.insert("PARENT".into(), "sample-q3xa".into());
    h.properties.insert("DEADLINE".into(), "<2026-05-15 Fri>".into());
    h.properties.insert("SCHEDULED".into(), "<2026-04-28 Mon>".into());
    assert_eq!(h.parent(), Some("sample-q3xa"));
    assert_eq!(h.deadline(), Some("<2026-05-15 Fri>"));
    assert_eq!(h.scheduled(), Some("<2026-04-28 Mon>"));
}

#[test]
fn state_change_prepends_and_skips_no_ops() {
    let mut h = sample_heading();
    h.record_state_change("STARTED", "[2026-01-12 Mon 09:00]".into());
    assert_eq!(h.state, "STARTED");
    assert_eq!(h.logbook[0].from_state.as_deref(), Some("TODO"));
    h.record_state_change("DONE", "[2026-01-12 Mon 09:00]".into());
    assert_eq!(h.logbook.len(), 2);
    assert_eq!(h.logbook[0].to_state.as_deref(), Some("DONE"));
    h.record_state_change("DONE", "[2026-01-12 Mon 09:00]".into());
    assert_eq!(h.logbook.len(), 2, "no-op transition is not logged");
}

#[test]
fn logbook_renders_state_transitions() {
    let entry = LogEntry {
        timestamp: "[2026-04-26 Sun 14:22]".into(),
        from_state: Some("STARTED".into()),
        to_state: Some("DONE".into()),
        note: None,
        raw: None,
    };
    assert_eq!(
        entry.render(),
        "- State \"DONE\" from \"STARTED\" [2026-04-26 Sun 14:22]"
    );
}

#[test]
fn clock_lines_survive_a_state_rewrite() {
    let clock = "   CLOCK: [2026-07-26 Sun 17:40]";
    let closed = "   CLOCK: [2026-07-26 Sun 10:00]--[2026-07-26 Sun 11:00] =>  1:00";
    let state = "- State \"STARTED\" from \"TODO\" [2026-07-26 Sun 17:39]";
    assert_eq!(parse_log_line(clock).render(), clock);
    assert_eq!(parse_log_line(closed).render(), closed);
    let parsed_state = parse_log_line(state);
    assert_eq!(parsed_state.to_state.as_deref(), Some("STARTED"));
    assert!(parsed_state.raw.is_none());

    let mut h = sample_heading();
    h.logbook = vec![parsed_state, parse_log_line(clock)];
    h.record_state_change("DONE", "[2026-01-12 Mon 09:00]".into());
    let rendered = h.render();
    assert!(rendered.contains("CLOCK: [2026-07-26 Sun 17:40]"), "{rendered}");
    assert!(rendered.contains("State \"DONE\""), "{rendered}");
}

#[test]
fn note_lines_round_trip() {
    let parsed = parse_log_line("- Note: \"picked up after review\" [2026-04-26 Sun 09:15]");
    assert_eq!(parsed.note.as_deref(), Some("picked up after review"));
    assert_eq!(
        parsed.render(),
        "- Note: \"picked up after review\" [2026-04-26 Sun 09:15]"
    );
}

#[test]
fn a_heading_renders_with_its_drawer_in_order() {
    let h = sample_heading();
    assert_eq!(
        h.render(),
        "* TODO [#A] Add a thing\n:PROPERTIES:\n:ID:         sample-abc1\n:CREATED:    [2026-04-25 Sat]\n:TYPE:       feature\n:END:\n\nSome body lines.\nWith multiple lines.\n"
    );
}

#[test]
fn unlisted_keys_follow_the_house_order_then_sort() {
    let mut h = sample_heading();
    h.property_order = vec!["TYPE".into()];
    h.properties.insert("ZED".into(), "z".into());
    h.properties.insert("ALPHA".into(), "a".into());
    h.properties.insert("PARENT".into(), "p-1".into());
    let keys = h.ordered_property_keys();
    assert_eq!(keys, vec!["TYPE", "CREATED", "PARENT", "ALPHA", "ID", "ZED"]);
}

#[test]
fn a_long_key_keeps_one_space() {
    let mut h = sample_heading();
    h.property_order = vec![];
    h.properties.insert("DISCOVERED_FROM".into(), "x-1".into());
    assert!(h.render().contains(":DISCOVERED_FROM: x-1\n"));
}

#[test]
fn log_lines_of_each_shape_parse() {
    let plain = parse_log_line("- [2026-01-01 Thu]");
    assert_eq!(plain.timestamp, "[2026-01-01 Thu]");
    assert_eq!(plain.note, None);
    assert_eq!(plain.render(), "- [2026-01-01 Thu]");
    let only_to = parse_log_line("- State \"DONE\"       [2026-01-01 Thu 10:00]");
    assert_eq!(only_to.to_state.as_deref(), Some("DONE"));
    assert_eq!(only_to.from_state, None);
    let free = parse_log_line("- picked it up, [2026-01-01 Thu]");
    assert_eq!(free.note.as_deref(), Some("picked it up"));
    let loose = parse_log_line("some text\r\n");
    assert_eq!(loose.raw.as_deref(), Some("some text"));
    let no_stamp = parse_log_line("- nothing here");
    assert_eq!(no_stamp.raw.as_deref(), Some("- nothing here"));
    assert_eq!(todo_keywords(), vec!["TODO", "STARTED", "BLOCKED", "DONE", "CANCELLED"]);
}

#[test]
fn a_written_entry_reads_back_as_itself() {
    let entries = vec![
        LogEntry {
            timestamp: "[2026-01-14 Wed 09:12]".into(),
            from_state: Some("TODO".into()),
            to_state: Some("STARTED".into()),
            note: None,
            raw: None,
        },
        LogEntry {
            timestamp: "[2026-01-14 Wed 09:12]".into(),
            from_state: None,
            to_state: Some("DONE".into()),
            note: None,
            raw: None,
        },
        LogEntry {
            timestamp: "[2026-01-15 Thu 10:00]".into(),
            from_state: None,
            to_state: None,
            note: Some("see [the plan], then ship".into()),
            raw: None,
        },
        LogEntry {
            timestamp: "[2026-01-15 Thu 10:00]".into(),
            from_state: None,
            to_state: None,
            note: None,
            raw: None,
        },
        LogEntry {
            timestamp: String::new(),
            from_state: None,
            to_state: None,
            note: None,
            raw: Some("CLOCK: [2026-01-14 Wed 09:12]--[2026-01-14 Wed 10:42] =>  1:30".into()),
        },
    ];
    for e in entries {
        assert_eq!(parse_log_line(&e.render()), e);
    }
}

#[test]
fn a_written_headline_reads_back_its_state_cookie_and_title() {
    let mut h = sample_heading();
    h.state = "STARTED".into();
    h.priority = 'C';
    h.title = "Parse the [[id:x][header]] block :core:".into();
    let text = h.render();
    let first = text.lines().next().unwrap();
    let after = first.strip_prefix("* ").unwrap();
    let bits = parse_headline_bits(after, &todo_keywords());
    assert_eq!(bits.keyword, Some("STARTED"));
    assert_eq!(bits.priority, Some('C'));
    assert!(!bits.commented);
    assert_eq!(bits.rest, "Parse the [[id:x][header]] block :core:");

    h.title = String::new();
    let text = h.render();
    let first = text.lines().next().unwrap();
    let bits = parse_headline_bits(first.strip_prefix("* ").unwrap(), &todo_keywords());
    assert_eq!((bits.keyword, bits.priority, bits.rest), (Some("STARTED"), Some('C'), ""));
}

#[test]
fn drawer_lines_are_written_back_as_they_were_read() {
    let state = "- State \"STARTED\" from \"TODO\" [2026-07-26 Sun 17:39]";
    assert_eq!(parse_log_line(state).render(), state);
    assert_eq!(parse_log_line("- [2026-07-26 Sun 17:39]").render(), "- [2026-07-26 Sun 17:39]");
    assert_eq!(parse_log_line("a line of prose\r\n").render(), "a line of prose");
    assert_eq!(parse_log_line("clock: [2026-07-26 Sun 17:40]\n").render(), "clock: [2026-07-26 Sun 17:40]");
}
