use vissue::prompts::{
    check_citations_prompt, pack_a_slice_prompt, pick_up_work_prompt, InvalidParams, IssueArgs,
    ReadyArgs, SliceArgs,
};

fn ordered(said: &str, verbs: &[&str]) {
    let at: Vec<usize> = verbs
        .iter()
        .map(|v| said.find(v).unwrap_or_else(|| panic!("{v} missing: {said}")))
        .collect();
    assert!(at.windows(2).all(|w| w[0] < w[1]), "{verbs:?} out of order: {said}");
}

#[test]
fn each_prompt_renders_from_its_arguments() {
    let said = pack_a_slice_prompt(SliceArgs {
        projects: Some("keys".into()),
        issues: None,
        out: Some("/tmp/bag".into()),
    })
    .expect("renders");
    assert!(said.contains("projects keys"), "{said}");
    assert!(said.contains("/tmp/bag"), "{said}");
    ordered(&said, &["`vissue_satchel`", "`vissue_satchel_seal`", "`vissue_satchel_verify`"]);

    let said = pick_up_work_prompt(ReadyArgs { project: Some("keys".into()) });
    assert!(said.contains("project keys"), "{said}");
    ordered(&said, &["`vissue_ready`", "`vissue_recall`", "`vissue_deed`"]);

    let said = check_citations_prompt(IssueArgs { issue: "keys-ab12".into() });
    assert!(said.contains("keys-ab12"), "{said}");
    ordered(&said, &["`vissue_backlinks`"]);
}

#[test]
fn a_slice_naming_nothing_is_refused() {
    let err = pack_a_slice_prompt(SliceArgs {
        projects: Some("  ".into()),
        issues: None,
        out: None,
    })
    .expect_err("an empty slice rendered");
    assert_eq!(
        err,
        InvalidParams {
            message: "a slice that names nothing is not a slice: give projects, issues, or both"
                .into()
        }
    );
}

#[test]
fn the_defaults_are_in_the_text() {
    let said = pack_a_slice_prompt(SliceArgs {
        projects: None,
        issues: Some("keys-ab12".into()),
        out: None,
    })
    .expect("renders");
    assert!(said.contains("./satchel"), "{said}");
    assert!(said.contains("issues keys-ab12"), "{said}");

    let said = pick_up_work_prompt(ReadyArgs { project: None });
    assert!(!said.contains("Some(") && !said.contains("None"), "{said}");
}

#[test]
fn a_slice_of_both_names_projects_then_issues_trimmed() {
    let said = pack_a_slice_prompt(SliceArgs {
        projects: Some(" keys ".into()),
        issues: Some("keys-ab12 ".into()),
        out: None,
    })
    .unwrap();
    assert!(said.starts_with("Pack a handover of projects keys and issues keys-ab12 into ./satchel.\n\n"));
    assert!(said.ends_with("not only that it passed."));
    let said = pick_up_work_prompt(ReadyArgs { project: Some("   ".into()) });
    assert!(said.starts_with("Find the next thing worth doing in every project and pick it up."));
}
