use vissue::error::TrackerError;
use vissue::model::IssueHeading;
use vissue::satchel::{
    check_notes, digest, manifest_text, pack_notes, parse_manifest, select_slice, Report, Slice,
    VERSION,
};
use vissue::textmap::TextMap;
use vissue::views::IssueRec;

fn rec(project: &str, id: &str, extra: &[(&str, &str)]) -> IssueRec {
    let mut props = TextMap::new();
    props.insert("ID".into(), id.into());
    for (k, v) in extra {
        props.insert((*k).into(), (*v).into());
    }
    IssueRec {
        project: project.into(),
        heading: IssueHeading {
            id: id.into(),
            title: "t".into(),
            state: "TODO".into(),
            priority: 'B',
            properties: props,
            property_order: vec!["ID".into()],
            body: String::new(),
            logbook: Vec::new(),
            line_start: 0,
            line_end: 0,
        },
        path: format!("/t/{project}/issues.org"),
    }
}

fn corpus() -> Vec<IssueRec> {
    vec![
        rec("sample", "s-plan", &[]),
        rec("sample", "s-blocker", &[("BLOCKED_BY", "s-deep")]),
        rec("sample", "s-work", &[("PARENT", "s-plan"), ("BLOCKED_BY", "s-blocker, gone-1")]),
        rec("sample", "s-bystander", &[]),
        rec("other", "s-deep", &[]),
        rec("other", "o-child", &[("PARENT", "s-work")]),
    ]
}

#[test]
fn a_named_issue_brings_its_blockers_and_its_plan_to_a_fixed_point() {
    let recs = corpus();
    let asked = Slice { projects: Vec::new(), issues: vec!["s-work".into()] };
    let sel = select_slice(&recs, &asked).unwrap();
    assert_eq!(sel.issues(), vec!["s-blocker", "s-deep", "s-plan", "s-work"]);
    assert_eq!(sel.carried(), vec!["s-blocker", "s-deep", "s-plan"]);
}

#[test]
fn a_project_is_taken_whole_and_children_stay_behind() {
    let recs = corpus();
    let asked = Slice { projects: vec!["other".into()], issues: Vec::new() };
    let sel = select_slice(&recs, &asked).unwrap();
    // o-child stands on s-work, which stands on the rest of sample except
    // the bystander.
    assert_eq!(sel.issues(), vec!["o-child", "s-blocker", "s-deep", "s-plan", "s-work"]);
    assert_eq!(sel.carried(), vec!["s-blocker", "s-plan", "s-work"]);
}

#[test]
fn an_empty_or_unknown_slice_is_refused() {
    let recs = corpus();
    assert!(matches!(select_slice(&recs, &Slice::default()), Err(TrackerError::Message(_))));
    let unknown = Slice { projects: vec!["sample".into()], issues: vec!["s-work".into(), "nope-1".into(), "nope-2".into()] };
    match select_slice(&recs, &unknown) {
        Err(TrackerError::IssueNotFound { id }) => assert_eq!(id, "nope-1"),
        Err(other) => panic!("wrong error: {}", other.message()),
        Ok(_) => panic!("an unknown issue was packed"),
    }
    let nothing = Slice { projects: vec!["absent".into()], issues: Vec::new() };
    match select_slice(&recs, &nothing) {
        Err(e @ TrackerError::Message(_)) => assert_eq!(e.message(), "nothing to pack: [\"absent\"] matched no issue"),
        _ => panic!("an empty match was packed"),
    }
    assert!(Slice::default().is_empty());
    assert!(!nothing.is_empty());
}

#[test]
fn digests_are_sha256_in_lowercase_hex() {
    assert_eq!(digest(b""), "e3b0c44298fc1c149afbf4c8996fb92427ae41e4649b934ca495991b7852b855");
    assert_eq!(digest(b"abc"), "ba7816bf8f01cfea414140de5dae2223b00361a396177a9cb410ff61f20015ad");
}

#[test]
fn a_manifest_reads_back_what_was_written() {
    let payload = vec![
        ("data/issues/a.org".to_string(), digest(b"a")),
        ("data/satchel.json".to_string(), digest(b"{}")),
    ];
    let text = manifest_text(&payload);
    assert_eq!(text, format!("{}  data/issues/a.org\n{}  data/satchel.json\n", digest(b"a"), digest(b"{}")));
    let listed = parse_manifest(&text).unwrap();
    assert_eq!(listed.len(), 2);
    assert_eq!(listed.get("data/issues/a.org"), Some(&digest(b"a")));
    assert!(parse_manifest("\n  \nabc def\n").is_err());
    assert_eq!(parse_manifest("").unwrap().len(), 0);
}

#[test]
fn checking_names_missing_changed_and_unlisted_files() {
    let listed = parse_manifest("aa  data/a\nbb  data/b\ncc  data/c\n").unwrap();
    let got = vec![None, Some("bx".to_string()), Some("cc".to_string())];
    let found = vec!["data/b".to_string(), "data/c".to_string(), "data/extra".to_string()];
    assert_eq!(
        check_notes(&listed, &got, &found, "vissue-satchel/0"),
        vec![
            "missing data/a",
            "changed data/b",
            "unlisted data/extra",
            "packed as vissue-satchel/0 and read as vissue-satchel/1",
        ]
    );
    let good = vec![Some("aa".to_string()), Some("bb".to_string()), Some("cc".to_string())];
    assert!(check_notes(&listed, &good, &vec!["data/a".to_string()], VERSION).is_empty());
}

#[test]
fn a_report_renders_counts_then_notes() {
    let r = Report { issues: 4, needs: 2, files: 5, notes: pack_notes(2, 3) };
    assert_eq!(
        r.render(),
        "issues=4 deeds=2 files=5\n2 deed accessions are named and not enclosed; the deed store exports them\n3 issues came along as blockers or parents of what was asked for\n"
    );
    assert!(pack_notes(0, 0).is_empty());
}

#[test]
fn a_satchel_lists_each_needed_deed_once_in_order() {
    let recs = corpus();
    let asked = Slice { projects: Vec::new(), issues: vec!["s-work".into()] };
    let sel = select_slice(&recs, &asked).unwrap();
    let needs = vec!["deed-9".to_string(), "deed-2".to_string(), "deed-9".to_string()];
    let s = sel.satchel(asked.clone(), &needs, "ann".into(), "[2026-01-14 Wed 09:12]".into());
    assert_eq!(s.version, VERSION);
    assert_eq!(s.asked, asked);
    assert_eq!(s.issues, vec!["s-blocker", "s-deep", "s-plan", "s-work"]);
    assert_eq!(s.carried, vec!["s-blocker", "s-deep", "s-plan"]);
    assert_eq!(s.needs, vec!["deed-2", "deed-9"]);
    assert_eq!(s.packed_by, "ann");
    assert_eq!(s.packed_at, "[2026-01-14 Wed 09:12]");
}
