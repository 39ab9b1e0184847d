//! The prompts that start a piece of work in the tracker: each is text
//! composed from the arguments the prompt declares.
use vstd::prelude::*;

use crate::text::{chars_of, string_of, trim, trim_chars};

verus! {

/// What a handover is a slice of.
pub struct SliceArgs {
    /// Projects to take whole, comma separated. Either this or `issues`.
    pub projects: Option<String>,
    /// Issue ids to take, comma separated. Their blockers and plans come too.
    pub issues: Option<String>,
    /// Directory to write the bag into. Defaults to `./satchel`.
    pub out: Option<String>,
}

/// Where to look for the next thing to do.
pub struct ReadyArgs {
    /// One project, or every project when absent.
    pub project: Option<String>,
}

/// One issue, by id.
pub struct IssueArgs {
    /// The issue id, such as `vissue-ab12`.
    pub issue: String,
}

/// Arguments a prompt cannot work from, and why.
#[derive(Debug, Clone, PartialEq, Eq)]
pub struct InvalidParams {
    pub message: String,
}

/// The text of an optional argument, empty when absent.
pub open spec fn or_empty(o: Option<String>) -> Seq<char> {
    match o {
        Some(s) => s@,
        None => seq![],
    }
}

/// What a slice names, from its trimmed project and issue lists.
pub open spec fn slice_named(projects: Seq<char>, issues: Seq<char>) -> Seq<char> {
    if projects.len() == 0 {
        "issues "@ + issues
    } else if issues.len() == 0 {
        "projects "@ + projects
    } else {
        "projects "@ + projects + " and issues "@ + issues
    }
}

/// The handover prompt for what is named, packed into `out`.
pub open spec fn pack_text(named: Seq<char>, out: Seq<char>) -> Seq<char> {
    "Pack a handover of "@ + named + " into "@ + out + ".\n\nFour stores hold four different things and the bag needs all of them, so\nthe order matters:\n\n1. `vissue_satchel` with what was named. It walks the closure first: an\nissue whose blockers are absent is a task with no account of why it is\nnot done, and a child with no parent is a task with no reason. What\ncomes back names the deed accessions the issues cite, and that list is\nthe only thing the other two stores need from the tracker.\n2. The pack's atoms and the deed store's bytes, both keyed by that list.\nDeeds carry an inclusion proof; atoms do not, and that asymmetry is\nreal rather than an omission.\n3. `vissue_satchel_seal`, after the other two have written, so the\nmanifest covers the whole payload rather than the half the tracker\nwrote. Sealing first proves only what was enumerated first.\n4. Sign the manifest. A receiver who recomputes digests from the bag they\nwere handed is checking the bag against itself; the signature is what\nmakes it a statement by somebody.\n\nThen `vissue_satchel_verify` and report what it says it did not check,\nnot only that it passed."@
}

/// The prompt to pick up work in `scope`.
pub open spec fn pick_up_text(scope: Seq<char>) -> Seq<char> {
    "Find the next thing worth doing in "@ + scope + " and pick it up.\n\n`vissue_ready` rather than `vissue_list`: ready is TODO or STARTED with no\nopen blocker, which is a different set from open, and working the second\nis how a blocked task gets started twice.\n\nBefore claiming, read the issue and `vissue_recall` it. Recall answers what\nthe work stands on and what its inputs produced, which is the half of the\ncontext the issue body does not carry.\n\nClaim it, and say so in one line: a claim is a statement to whoever else is\nholding a seat, not a private note. Then do the work, cite what it produced\nwith `vissue_deed`, and close it. An issue closed with no deed cited is a\nclaim the tracker cannot stand behind."@
}

/// The prompt to check the citations of `issue`.
pub open spec fn check_text(issue: Seq<char>) -> Seq<char> {
    "Check the deeds "@ + issue + " cites, and say what still holds.\n\n`vissue_recall "@ + issue + "` gives the accessions. Three questions follow and\nthey are not the same question:\n\n- does the deed store still answer for the bytes it published. A deed that\nwas deleted leaves every signature over it perfectly good; only the log\nsays one is missing.\n- is the cited deed still the tip, or has a later take superseded it. A\ncitation that resolves and is stale is worse than one that fails, because\nnothing complains.\n- what else stands on anything that moved. `vissue_backlinks` on the\naccession walks it, and the answer is the blast radius rather than one\nissue's problem.\n\nReport the accession, which question it failed, and what waits on it. An\nissue whose citations all hold gets one line saying so."@
}

fn trimmed(s: &str) -> (r: String)
    ensures
        r@ == trim(s@),
{
    string_of(&trim_chars(&chars_of(s)))
}

/// Pack a slice of this seat so somebody else can open it: the issues, what
/// they stand on, the deeds they cite and what the seat learned. A slice
/// that names neither projects nor issues is refused.
pub fn pack_a_slice_prompt(args: SliceArgs) -> (r: Result<String, InvalidParams>)
    ensures
        ({
            let p = trim(or_empty(args.projects));
            let i = trim(or_empty(args.issues));
            if p.len() == 0 && i.len() == 0 {
                r matches Err(e) && e.message@
                    == "a slice that names nothing is not a slice: give projects, issues, or both"@
            } else {
                r matches Ok(t) && t@ == pack_text(
                    slice_named(p, i),
                    match args.out {
                        Some(o) => o@,
                        None => "./satchel"@,
                    },
                )
            }
        }),
{
    let projects = match &args.projects {
        Some(p) => trimmed(p.as_str()),
        None => String::new(),
    };
    let issues = match &args.issues {
        Some(i) => trimmed(i.as_str()),
        None => String::new(),
    };
    proof {
        if args.projects is None {
            assert(trim(or_empty(args.projects)) =~= Seq::<char>::empty());
        }
        if args.issues is None {
            assert(trim(or_empty(args.issues)) =~= Seq::<char>::empty());
        }
    }
    let np = chars_of(projects.as_str()).len();
    let ni = chars_of(issues.as_str()).len();
    if np == 0 && ni == 0 {
        return Err(InvalidParams {
            message: "a slice that names nothing is not a slice: give projects, issues, or both".to_string(),
        });
    }
    let out = match args.out {
        Some(o) => o,
        None => "./satchel".to_string(),
    };
    let mut named = String::new();
    if np == 0 {
        named.push_str("issues ");
        named.push_str(issues.as_str());
    } else if ni == 0 {
        named.push_str("projects ");
        named.push_str(projects.as_str());
    } else {
        named.push_str("projects ");
        named.push_str(projects.as_str());
        named.push_str(" and issues ");
        named.push_str(issues.as_str());
    }
    let mut text = String::new();
    text.push_str("Pack a handover of ");
    text.push_str(named.as_str());
    text.push_str(" into ");
    text.push_str(out.as_str());
    text.push_str(".\n\nFour stores hold four different things and the bag needs all of them, so\nthe order matters:\n\n1. `vissue_satchel` with what was named. It walks the closure first: an\nissue whose blockers are absent is a task with no account of why it is\nnot done, and a child with no parent is a task with no reason. What\ncomes back names the deed accessions the issues cite, and that list is\nthe only thing the other two stores need from the tracker.\n2. The pack's atoms and the deed store's bytes, both keyed by that list.\nDeeds carry an inclusion proof; atoms do not, and that asymmetry is\nreal rather than an omission.\n3. `vissue_satchel_seal`, after the other two have written, so the\nmanifest covers the whole payload rather than the half the tracker\nwrote. Sealing first proves only what was enumerated first.\n4. Sign the manifest. A receiver who recomputes digests from the bag they\nwere handed is checking the bag against itself; the signature is what\nmakes it a statement by somebody.\n\nThen `vissue_satchel_verify` and report what it says it did not check,\nnot only that it passed.");
    Ok(text)
}

/// Take the next piece of work: what is actionable, what it stands on, and
/// what the seat already knows about it. A blank project means every one.
pub fn pick_up_work_prompt(args: ReadyArgs) -> (r: String)
    ensures
        r@ == pick_up_text(
            match args.project {
                Some(p) => if trim(p@).len() > 0 {
                    "project "@ + p@
                } else {
                    "every project"@
                },
                None => "every project"@,
            },
        ),
{
    let mut scope = String::new();
    match &args.project {
        Some(p) => {
            if chars_of(trimmed(p.as_str()).as_str()).len() > 0 {
                scope.push_str("project ");
                scope.push_str(p.as_str());
            } else {
                scope.push_str("every project");
            }
        },
        None => scope.push_str("every project"),
    }
    let mut text = String::new();
    text.push_str("Find the next thing worth doing in ");
    text.push_str(scope.as_str());
    text.push_str(" and pick it up.\n\n`vissue_ready` rather than `vissue_list`: ready is TODO or STARTED with no\nopen blocker, which is a different set from open, and working the second\nis how a blocked task gets started twice.\n\nBefore claiming, read the issue and `vissue_recall` it. Recall answers what\nthe work stands on and what its inputs produced, which is the half of the\ncontext the issue body does not carry.\n\nClaim it, and say so in one line: a claim is a statement to whoever else is\nholding a seat, not a private note. Then do the work, cite what it produced\nwith `vissue_deed`, and close it. An issue closed with no deed cited is a\nclaim the tracker cannot stand behind.");
    text
}

/// Check whether an issue's citations still hold: still evidenced, still
/// the tip, and what stands on anything that moved.
pub fn check_citations_prompt(args: IssueArgs) -> (r: String)
    ensures
        r@ == check_text(args.issue@),
{
    let mut text = String::new();
    text.push_str("Check the deeds ");
    text.push_str(args.issue.as_str());
    text.push_str(" cites, and say what still holds.\n\n`vissue_recall ");
    text.push_str(args.issue.as_str());
    text.push_str("` gives the accessions. Three questions follow and\nthey are not the same question:\n\n- does the deed store still answer for the bytes it published. A deed that\nwas deleted leaves every signature over it perfectly good; only the log\nsays one is missing.\n- is the cited deed still the tip, or has a later take superseded it. A\ncitation that resolves and is stale is worse than one that fails, because\nnothing complains.\n- what else stands on anything that moved. `vissue_backlinks` on the\naccession walks it, and the answer is the blast radius rather than one\nissue's problem.\n\nReport the accession, which question it failed, and what waits on it. An\nissue whose citations all hold gets one line saying so.");
    text
}

} // verus!
