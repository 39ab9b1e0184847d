//! Matchable errors, so callers never have to parse message text.
use vstd::prelude::*;

use crate::text::{decimal, decimal_chars, string_of};

verus! {

/// `anyhow::Error`, carried opaquely by [`TrackerError::Other`].
#[verifier::external_type_specification]
#[verifier::external_body]
pub struct ExAnyhowError(anyhow::Error);

/// `std::io::Error`, which [`TrackerError::from_io`] wraps.
#[verifier::external_type_specification]
#[verifier::external_body]
pub struct ExIoError(std::io::Error);

/// `serde_json::Error`, which [`TrackerError::from_json`] wraps.
#[verifier::external_type_specification]
#[verifier::external_body]
pub struct ExJsonError(serde_json::Error);

/// Recoverable catalog and mutation failures with a stable shape.
#[derive(Debug)]
pub enum TrackerError {
    /// No heading in the corpus carries this id.
    IssueNotFound { id: String },
    /// The same id exists under more than one tracker layout; `paths` are
    /// the `issues.org` files that define it.
    DuplicateId { id: String, paths: Vec<String> },
    /// Another identity already holds the issue.
    ClaimConflict { id: String, holder: String, claimed_at: Option<String> },
    /// The edge would close a loop in the blocker graph.
    BlockerCycle { blocker: String, issue: String },
    /// The issue is in a state that cannot be claimed.
    InvalidState { id: String, state: String },
    /// A write named a last-seen state or generation that no longer holds.
    StaleWrite {
        id: String,
        expected_state: Option<String>,
        actual_state: String,
        expected_gen: Option<u64>,
        actual_gen: Option<u64>,
    },
    /// A second terminal disagrees with the one already on the heading.
    TerminalConflict { id: String, held: String, attempted: String },
    /// A refusal the tracker words itself: a bad argument or an empty
    /// selection, say.
    Message(String),
    /// Any other failure, usually I/O or a parse problem.
    Other(anyhow::Error),
}

/// `paths` joined with `", "`.
pub open spec fn comma_joined(paths: Seq<String>) -> Seq<char>
    decreases paths.len(),
{
    if paths.len() == 0 {
        seq![]
    } else if paths.len() == 1 {
        paths[0]@
    } else {
        comma_joined(paths.drop_last()) + ", "@ + paths.last()@
    }
}

/// A generation as the messages print it: its digits, or `?` when unknown.
pub open spec fn generation_text(g: Option<u64>) -> Seq<char> {
    match g {
        Some(n) => decimal(n as nat),
        None => "?"@,
    }
}

/// What a stale write says, by which expectations the caller set.
pub open spec fn stale_text(
    id: Seq<char>,
    expected_state: Option<String>,
    actual_state: Seq<char>,
    expected_gen: Option<u64>,
    actual_gen: Option<u64>,
) -> Seq<char> {
    match (expected_state, expected_gen) {
        (Some(want), Some(want_gen)) => id + " is "@ + actual_state + " at generation "@
            + generation_text(actual_gen) + ", not "@ + want@ + " at "@ + decimal(want_gen as nat)
            + "; write refused"@,
        (Some(want), None) => id + " is "@ + actual_state + ", not "@ + want@ + "; write refused"@,
        (None, Some(want_gen)) => id + " generation is "@ + generation_text(actual_gen) + ", not "@
            + decimal(want_gen as nat) + "; write refused"@,
        (None, None) => id + " write refused: stale"@,
    }
}

/// The sentence each typed variant reads as; `None` for [`TrackerError::Other`],
/// whose text is the wrapped error's own.
pub open spec fn typed_text(e: TrackerError) -> Option<Seq<char>> {
    match e {
        TrackerError::IssueNotFound { id } => Some("issue "@ + id@ + " not found"@),
        TrackerError::DuplicateId { id, paths } => Some(
            "id "@ + id@ + " is defined in more than one tracker: "@ + comma_joined(paths@),
        ),
        TrackerError::ClaimConflict { id, holder, claimed_at } => Some(
            id@ + " is claimed by "@ + holder@ + " since "@ + match claimed_at {
                Some(t) => t@,
                None => "an unknown time"@,
            } + "; pass --force to take it over"@,
        ),
        TrackerError::BlockerCycle { blocker, issue } => Some(
            if blocker@ == issue@ {
                "issue "@ + issue@ + " cannot block itself"@
            } else {
                "adding "@ + blocker@ + " -> "@ + issue@ + " would create a blocker cycle"@
            },
        ),
        TrackerError::InvalidState { id, state } => Some(id@ + " is already "@ + state@ + "; cannot claim"@),
        TrackerError::StaleWrite { id, expected_state, actual_state, expected_gen, actual_gen } => Some(
            stale_text(id@, expected_state, actual_state@, expected_gen, actual_gen),
        ),
        TrackerError::TerminalConflict { id, held, attempted } => Some(
            id@ + " already closed as "@ + held@ + "; "@ + attempted@ + " kept as a sibling"@,
        ),
        TrackerError::Message(m) => Some(m@),
        TrackerError::Other(_) => None,
    }
}

/// The display text of an `anyhow::Error` (its `Display` impl, outermost
/// context only). Nothing is stated of the text: it is whatever the wrapped
/// error chose to say.
#[verifier::external_body]
fn anyhow_text(err: &anyhow::Error) -> String {
    err.to_string()
}

/// `anyhow::Error::from` on an I/O error. The result is opaque here; its
/// text is the I/O error's own.
#[verifier::external_body]
fn anyhow_of_io(err: std::io::Error) -> anyhow::Error {
    anyhow::Error::from(err)
}

/// `anyhow::Error::from` on a JSON error. The result is opaque here.
#[verifier::external_body]
fn anyhow_of_json(err: serde_json::Error) -> anyhow::Error {
    anyhow::Error::from(err)
}

fn push_generation(out: &mut String, g: Option<u64>)
    ensures
        final(out)@ == old(out)@ + generation_text(g),
{
    match g {
        Some(n) => {
            let digits = string_of(&decimal_chars(n));
            out.push_str(digits.as_str());
        },
        None => out.push_str("?"),
    }
}

fn push_joined(out: &mut String, paths: &Vec<String>)
    ensures
        final(out)@ == old(out)@ + comma_joined(paths@),
{
    let mut i: usize = 0;
    while i < paths.len()
        invariant
            i <= paths.len(),
            out@ == old(out)@ + comma_joined(paths@.take(i as int)),
        decreases paths.len() - i,
    {
        let ghost before = out@;
        if i > 0 {
            out.push_str(", ");
        }
        out.push_str(paths[i].as_str());
        i = i + 1;
        proof {
            let t = paths@.take(i as int);
            assert(t.drop_last() == paths@.take(i - 1));
            assert(t.last() == paths@[i - 1]);
            if i == 1 {
                assert(paths@.take(0) =~= Seq::<String>::empty());
            }
        }
    }
    assert(paths@.take(paths.len() as int) =~= paths@);
}

fn stale_message(
    id: &String,
    expected_state: &Option<String>,
    actual_state: &String,
    expected_gen: &Option<u64>,
    actual_gen: &Option<u64>,
) -> (msg: String)
    ensures
        msg@ == stale_text(id@, *expected_state, actual_state@, *expected_gen, *actual_gen),
{
    let mut out = String::new();
    out.push_str(id.as_str());
    match (expected_state, expected_gen) {
        (Some(want), Some(want_gen)) => {
            out.push_str(" is ");
            out.push_str(actual_state.as_str());
            out.push_str(" at generation ");
            push_generation(&mut out, *actual_gen);
            out.push_str(", not ");
            out.push_str(want.as_str());
            out.push_str(" at ");
            let digits = string_of(&decimal_chars(*want_gen));
            out.push_str(digits.as_str());
            out.push_str("; write refused");
        },
        (Some(want), None) => {
            out.push_str(" is ");
            out.push_str(actual_state.as_str());
            out.push_str(", not ");
            out.push_str(want.as_str());
            out.push_str("; write refused");
        },
        (None, Some(want_gen)) => {
            out.push_str(" generation is ");
            push_generation(&mut out, *actual_gen);
            out.push_str(", not ");
            let digits = string_of(&decimal_chars(*want_gen));
            out.push_str(digits.as_str());
            out.push_str("; write refused");
        },
        (None, None) => {
            out.push_str(" write refused: stale");
        },
    }
    out
}

impl TrackerError {
    /// The sentence a person reads for this error.
    pub fn message(&self) -> (msg: String)
        ensures
            typed_text(*self) matches Some(t) ==> msg@ == t,
    {
        let mut out = String::new();
        match self {
            TrackerError::IssueNotFound { id } => {
                out.push_str("issue ");
                out.push_str(id.as_str());
                out.push_str(" not found");
            },
            TrackerError::DuplicateId { id, paths } => {
                out.push_str("id ");
                out.push_str(id.as_str());
                out.push_str(" is defined in more than one tracker: ");
                push_joined(&mut out, paths);
            },
            TrackerError::ClaimConflict { id, holder, claimed_at } => {
                out.push_str(id.as_str());
                out.push_str(" is claimed by ");
                out.push_str(holder.as_str());
                out.push_str(" since ");
                match claimed_at {
                    Some(t) => out.push_str(t.as_str()),
                    None => out.push_str("an unknown time"),
                }
                out.push_str("; pass --force to take it over");
            },
            TrackerError::BlockerCycle { blocker, issue } => {
                if *blocker == *issue {
                    out.push_str("issue ");
                    out.push_str(issue.as_str());
                    out.push_str(" cannot block itself");
                } else {
                    out.push_str("adding ");
                    out.push_str(blocker.as_str());
                    out.push_str(" -> ");
                    out.push_str(issue.as_str());
                    out.push_str(" would create a blocker cycle");
                }
            },
            TrackerError::InvalidState { id, state } => {
                out.push_str(id.as_str());
                out.push_str(" is already ");
                out.push_str(state.as_str());
                out.push_str("; cannot claim");
            },
            TrackerError::StaleWrite { id, expected_state, actual_state, expected_gen, actual_gen } => {
                out = stale_message(id, expected_state, actual_state, expected_gen, actual_gen);
            },
            TrackerError::TerminalConflict { id, held, attempted } => {
                out.push_str(id.as_str());
                out.push_str(" already closed as ");
                out.push_str(held.as_str());
                out.push_str("; ");
                out.push_str(attempted.as_str());
                out.push_str(" kept as a sibling");
            },
            TrackerError::Message(m) => {
                out.push_str(m.as_str());
            },
            TrackerError::Other(err) => {
                out = anyhow_text(err);
            },
        }
        out
    }

    /// The underlying cause: only [`TrackerError::Other`] carries one.
    pub fn source(&self) -> (r: Option<&anyhow::Error>)
        ensures
            r is Some <==> self is Other,
    {
        match self {
            TrackerError::Other(err) => Some(err),
            _ => None,
        }
    }

    /// An I/O failure, kept as the opaque cause.
    pub fn from_io(err: std::io::Error) -> (e: TrackerError)
        ensures
            e is Other,
    {
        TrackerError::Other(anyhow_of_io(err))
    }

    /// A JSON failure, kept as the opaque cause.
    pub fn from_json(err: serde_json::Error) -> (e: TrackerError)
        ensures
            e is Other,
    {
        TrackerError::Other(anyhow_of_json(err))
    }
}

impl From<anyhow::Error> for TrackerError {
    /// An `anyhow::Error` becomes the opaque variant. (An `anyhow::Error`
    /// can only wrap types with `std::error::Error`, which this enum does
    /// not implement, so no typed variant can be hiding inside one.)
    fn from(err: anyhow::Error) -> (e: TrackerError) {
        TrackerError::Other(err)
    }
}

impl vstd::std_specs::convert::FromSpecImpl<anyhow::Error> for TrackerError {
    open spec fn obeys_from_spec() -> bool {
        true
    }

    open spec fn from_spec(err: anyhow::Error) -> TrackerError {
        TrackerError::Other(err)
    }
}

} // verus!
