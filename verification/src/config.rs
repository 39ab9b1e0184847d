//! Root and layout resolution, and the effective configuration.
//!
//! A tracker lives under `<root>/<prefix>`, one directory per project, each
//! holding an `issues.org`. The prefix comes from the caller, the
//! `VISSUE_PREFIX` environment variable, `<root>/vissue.toml`, or the
//! `Software` default; reading those sources is the caller's part.
use vstd::prelude::*;

use crate::path::{join, path_join};

verus! {

/// Directory under the root that holds one subdirectory per project.
pub const DEFAULT_PREFIX: &'static str = "Software";

/// Where the tracker lives: a root directory and the project prefix inside it.
#[derive(Debug, Clone)]
pub struct Layout {
    root: String,
    prefix: String,
}

impl Layout {
    /// The root directory, as text.
    pub closed spec fn root_view(&self) -> Seq<char> {
        self.root@
    }

    /// The project prefix, as text.
    pub closed spec fn prefix_view(&self) -> Seq<char> {
        self.prefix@
    }

    /// A layout at `root`; an empty `prefix` means the default one.
    pub fn new(root: &str, prefix: &str) -> (l: Layout)
        ensures
            l.root_view() == root@,
            l.prefix_view() == if prefix@.len() == 0 {
                DEFAULT_PREFIX@
            } else {
                prefix@
            },
    {
        Layout {
            root: root.to_owned(),
            prefix: if prefix.is_empty() {
                DEFAULT_PREFIX.to_owned()
            } else {
                prefix.to_owned()
            },
        }
    }

    /// The layout's root directory.
    pub fn root(&self) -> (r: &str)
        ensures
            r@ == self.root_view(),
    {
        self.root.as_str()
    }

    /// The layout's project prefix.
    pub fn prefix(&self) -> (r: &str)
        ensures
            r@ == self.prefix_view(),
    {
        self.prefix.as_str()
    }

    /// `<root>/<prefix>`: the directory scanned for projects.
    pub fn projects_dir(&self) -> (r: String)
        ensures
            r@ == path_join(self.root_view(), self.prefix_view()),
    {
        join(self.root.as_str(), self.prefix.as_str())
    }

    /// `<root>/<prefix>/<project>/issues.org`.
    pub fn project_issues_path(&self, project: &str) -> (r: String)
        ensures
            r@ == path_join(
                path_join(path_join(self.root_view(), self.prefix_view()), project@),
                "issues.org"@,
            ),
    {
        let dir = self.projects_dir();
        let p = join(dir.as_str(), project);
        join(p.as_str(), "issues.org")
    }
}

/// The prefix the layout resolves to: an explicit non-empty one, then a
/// non-empty `VISSUE_PREFIX`, then the root configuration's, then the default.
pub open spec fn chosen_prefix(
    explicit: Option<Seq<char>>,
    from_env: Option<Seq<char>>,
    configured: Option<Seq<char>>,
) -> Seq<char> {
    match explicit {
        Some(p) if p.len() > 0 => p,
        _ => match from_env {
            Some(v) if v.len() > 0 => v,
            _ => match configured {
                Some(c) => c,
                None => DEFAULT_PREFIX@,
            },
        },
    }
}

/// Pick the prefix from the sources in the order [`chosen_prefix`] gives.
pub fn choose_prefix(explicit: Option<&str>, from_env: Option<&str>, configured: Option<&str>) -> (r:
    String)
    ensures
        r@ == chosen_prefix(
            match explicit {
                Some(s) => Some(s@),
                None => None,
            },
            match from_env {
                Some(s) => Some(s@),
                None => None,
            },
            match configured {
                Some(s) => Some(s@),
                None => None,
            },
        ),
{
    match explicit {
        Some(p) if !p.is_empty() => return p.to_owned(),
        _ => {},
    }
    match from_env {
        Some(v) if !v.is_empty() => return v.to_owned(),
        _ => {},
    }
    match configured {
        Some(c) => c.to_owned(),
        None => DEFAULT_PREFIX.to_owned(),
    }
}

/// Knobs that shape newly created issues.
#[derive(Debug, Clone, Copy, PartialEq, Eq, Structural)]
pub struct IssuesSection {
    /// Priority cookie applied when `create` is called without one.
    pub default_priority: char,
    /// Length in base36 characters of the random suffix in a generated id.
    pub id_length: usize,
}

impl Default for IssuesSection {
    fn default() -> (s: Self)
        ensures
            s.default_priority == 'C',
            s.id_length == 4,
    {
        IssuesSection { default_priority: 'C', id_length: 4 }
    }
}

/// Effective configuration for one layout.
#[derive(Debug, Clone, Copy, PartialEq, Eq, Structural)]
pub struct VissueConfig {
    pub issues: IssuesSection,
}

impl Default for VissueConfig {
    fn default() -> (c: Self)
        ensures
            c.issues.default_priority == 'C',
            c.issues.id_length == 4,
    {
        VissueConfig { issues: IssuesSection::default() }
    }
}

impl VissueConfig {
    /// Layer the two files: the prefix-scoped `issues.config.toml`, when it
    /// exists, replaces the whole section (its own missing keys take the
    /// defaults); otherwise `<root>/vissue.toml`'s `[issues]`, when it has
    /// one; otherwise the defaults. Each argument is what the file parsed to.
    pub fn layered(root_issues: Option<IssuesSection>, prefix_issues: Option<IssuesSection>) -> (c:
        VissueConfig)
        ensures
            c.issues == match prefix_issues {
                Some(p) => p,
                None => match root_issues {
                    Some(r) => r,
                    None => IssuesSection { default_priority: 'C', id_length: 4 },
                },
            },
    {
        let issues = match prefix_issues {
            Some(p) => p,
            None => match root_issues {
                Some(r) => r,
                None => IssuesSection::default(),
            },
        };
        VissueConfig { issues }
    }
}

} // verus!
