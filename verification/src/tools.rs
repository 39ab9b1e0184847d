//! Argument shapes for the MCP tool surface, and the one value they need
//! decoded.
use vstd::prelude::*;

use crate::text::{chars_of, trim, trim_chars};

verus! {

/// A project name; omitted to cover every project.
#[derive(Debug, Clone, PartialEq, Eq)]
pub struct ProjectArgs {
    pub project: Option<String>,
}

/// A project and a state filter.
#[derive(Debug, Clone, PartialEq, Eq)]
pub struct ListArgs {
    pub project: Option<String>,
    pub state: Option<String>,
}

/// One issue id.
#[derive(Debug, Clone, PartialEq, Eq)]
pub struct IdArgs {
    pub issue_id: String,
}

/// A new issue: project, one-line title, and the optional fields.
#[derive(Debug, Clone, PartialEq, Eq)]
pub struct CreateArgs {
    pub project: String,
    pub title: String,
    pub priority: Option<String>,
    pub issue_type: Option<String>,
    pub tags: Option<String>,
    pub parent: Option<String>,
    pub body: Option<String>,
}

/// A change to one issue: state, priority, or a blocker edge.
#[derive(Debug, Clone, PartialEq, Eq)]
pub struct UpdateArgs {
    pub issue_id: String,
    pub state: Option<String>,
    pub priority: Option<String>,
    pub block: Option<String>,
    pub unblock: Option<String>,
}

/// What to count.
#[derive(Debug, Clone, PartialEq, Eq)]
pub struct CountArgs {
    pub project: Option<String>,
    pub state: Option<String>,
    pub ready: Option<bool>,
}

/// A case-insensitive substring and a row cap.
#[derive(Debug, Clone, PartialEq, Eq)]
pub struct SearchArgs {
    pub query: String,
    pub limit: Option<usize>,
}

/// A tree root and its output format (`ascii` or `dot`).
#[derive(Debug, Clone, PartialEq, Eq)]
pub struct TreeArgs {
    pub issue_id: String,
    pub format: Option<String>,
}

/// Projects, format (`org` or `markdown`) and a state for a mirror.
#[derive(Debug, Clone, PartialEq, Eq)]
pub struct MirrorArgs {
    pub projects: Option<Vec<String>>,
    pub format: Option<String>,
    pub state: Option<String>,
}

/// Events after a sequence number, capped.
#[derive(Debug, Clone, PartialEq, Eq)]
pub struct EventsArgs {
    pub since: Option<u64>,
    pub limit: Option<usize>,
}

/// A note recorded on a ping event.
#[derive(Debug, Clone, PartialEq, Eq)]
pub struct PingArgs {
    pub detail: Option<String>,
}

/// The priority cookie a wire value names: the first character of the
/// trimmed text.
pub open spec fn priority_of(raw: Option<Seq<char>>) -> Option<char> {
    match raw {
        Some(s) => if trim(s).len() > 0 {
            Some(trim(s)[0])
        } else {
            None
        },
        None => None,
    }
}

/// Parse a single-character priority cookie from the wire representation.
pub fn priority_char(raw: Option<&String>) -> (r: Option<char>)
    ensures
        r == priority_of(
            match raw {
                Some(s) => Some(s@),
                None => None,
            },
        ),
{
    match raw {
        Some(s) => {
            let t = trim_chars(&chars_of(s.as_str()));
            if t.len() > 0 {
                Some(t[0])
            } else {
                None
            }
        },
        None => None,
    }
}

} // verus!
