use vissue::config::{choose_prefix, IssuesSection, Layout, VissueConfig, DEFAULT_PREFIX};

#[test]
fn layout_defaults_to_software_prefix() {
    let layout = Layout::new("/somewhere", "");
    assert_eq!(layout.prefix(), DEFAULT_PREFIX);
    assert_eq!(
        layout.project_issues_path("demo"),
        "/somewhere/Software/demo/issues.org"
    );
}

#[test]
fn explicit_prefix_wins() {
    assert_eq!(choose_prefix(Some("tracker"), Some("env"), Some("projects")), "tracker");
    assert_eq!(choose_prefix(Some(""), Some("env"), Some("projects")), "env");
    assert_eq!(choose_prefix(None, Some(""), Some("projects")), "projects");
    assert_eq!(choose_prefix(None, None, None), "Software");
}

#[test]
fn projects_dir_follows_the_prefix() {
    let layout = Layout::new("/root/dir", "projects");
    assert_eq!(layout.projects_dir(), "/root/dir/projects");
    assert_eq!(layout.root(), "/root/dir");
}

#[test]
fn config_defaults_when_no_files_present() {
    let cfg = VissueConfig::layered(None, None);
    assert_eq!(cfg.issues.default_priority, 'C');
    assert_eq!(cfg.issues.id_length, 4);
    let d = VissueConfig::default();
    assert_eq!(d.issues.id_length, 4);
}

#[test]
fn prefix_scoped_config_overrides_root_config() {
    let root = IssuesSection { default_priority: 'B', id_length: 5 };
    let cfg = VissueConfig::layered(Some(root), None);
    assert_eq!(cfg.issues.default_priority, 'B');
    assert_eq!(cfg.issues.id_length, 5);
    let scoped = IssuesSection { default_priority: 'A', id_length: 6 };
    let cfg = VissueConfig::layered(Some(root), Some(scoped));
    assert_eq!(cfg.issues.default_priority, 'A');
    assert_eq!(cfg.issues.id_length, 6);
}
