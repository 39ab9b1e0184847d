//! What the state-changing verbs do to one heading: an update's last-seen
//! checks, its state, priority and blocker edits and the states that
//! blocking and unblocking move it through; the claim that starting takes
//! and leaving gives up; a claim, a sibling-terminal resolve and a reject.
use vstd::prelude::*;

use crate::error::TrackerError;
use crate::model::{IssueHeading, LogEntry, LogView, blocker_sep, fields, house_keywords};
use crate::org::join;
use crate::text::{chars_of, str_eq, string_of, trim};

verus! {

/// The last-seen state or generation a write must still match.
#[derive(Debug, Default, Clone, Copy)]
pub struct UpdatePred<'a> {
    /// Refuse unless the heading is still this state.
    pub if_state: Option<&'a str>,
    /// Refuse unless the corpus generation is still this value.
    pub if_gen: Option<u64>,
}

/// One change an update made to a heading.
#[derive(Debug, Clone, PartialEq, Eq)]
pub enum Change {
    /// The state moved as asked.
    State { from: String, to: String },
    /// A second terminal was asked of a closed heading and kept beside it.
    SiblingTerminal { attempted: String, held: String },
    /// The priority cookie changed.
    Priority(char),
    /// Adding a blocker moved an open heading to BLOCKED.
    AutoBlocked { from: String },
    /// A blocker was added.
    BlockerAdded(String),
    /// Clearing the last blocker moved a BLOCKED heading back to TODO.
    AutoUnblocked,
    /// A blocker was cleared.
    BlockerCleared(String),
    /// Entering STARTED unclaimed stamped this identity as the holder.
    Claimed(String),
    /// Leaving the states that keep a claim released the claim of this holder.
    ClaimReleased(String),
}

/// A change as values.
pub enum Step {
    State(Seq<char>, Seq<char>),
    SiblingTerminal(Seq<char>, Seq<char>),
    Priority(char),
    AutoBlocked(Seq<char>),
    BlockerAdded(Seq<char>),
    AutoUnblocked,
    BlockerCleared(Seq<char>),
    Claimed(Seq<char>),
    ClaimReleased(Seq<char>),
}

/// The values a change holds.
pub open spec fn step_of(c: Change) -> Step {
    match c {
        Change::State { from, to } => Step::State(from@, to@),
        Change::SiblingTerminal { attempted, held } => Step::SiblingTerminal(attempted@, held@),
        Change::Priority(p) => Step::Priority(p),
        Change::AutoBlocked { from } => Step::AutoBlocked(from@),
        Change::BlockerAdded(b) => Step::BlockerAdded(b@),
        Change::AutoUnblocked => Step::AutoUnblocked,
        Change::BlockerCleared(b) => Step::BlockerCleared(b@),
        Change::Claimed(who) => Step::Claimed(who@),
        Change::ClaimReleased(who) => Step::ClaimReleased(who@),
    }
}

/// How a change reads in an update's report.
pub open spec fn step_text(s: Step) -> Seq<char> {
    match s {
        Step::State(from, to) => "state "@ + from + " -> "@ + to,
        Step::SiblingTerminal(attempted, held) => "sibling terminal "@ + attempted + " (held "@ + held
            + ")"@,
        Step::Priority(p) => "priority -> [#"@ + seq![p] + "]"@,
        Step::AutoBlocked(from) => "state "@ + from + " -> BLOCKED (auto on block)"@,
        Step::BlockerAdded(b) => "blocked_by += "@ + b,
        Step::AutoUnblocked => "state BLOCKED -> TODO (auto on unblock)"@,
        Step::BlockerCleared(b) => "blocked_by -= "@ + b,
        Step::Claimed(who) => "claimed by "@ + who,
        Step::ClaimReleased(who) => "claim released ("@ + who + ")"@,
    }
}

impl Change {
    /// The change as its report reads it.
    pub fn text(&self) -> (r: String)
        ensures
            r@ == step_text(step_of(*self)),
    {
        let mut out = String::new();
        match self {
            Change::State { from, to } => {
                out.push_str("state ");
                out.push_str(from.as_str());
                out.push_str(" -> ");
                out.push_str(to.as_str());
            },
            Change::SiblingTerminal { attempted, held } => {
                out.push_str("sibling terminal ");
                out.push_str(attempted.as_str());
                out.push_str(" (held ");
                out.push_str(held.as_str());
                out.push_str(")");
            },
            Change::Priority(p) => {
                out.push_str("priority -> [#");
                let mut one: Vec<char> = Vec::new();
                one.push(*p);
                assert(one@ =~= seq![*p]);
                out.push_str(string_of(&one).as_str());
                out.push_str("]");
            },
            Change::AutoBlocked { from } => {
                out.push_str("state ");
                out.push_str(from.as_str());
                out.push_str(" -> BLOCKED (auto on block)");
            },
            Change::BlockerAdded(b) => {
                out.push_str("blocked_by += ");
                out.push_str(b.as_str());
            },
            Change::AutoUnblocked => {
                out.push_str("state BLOCKED -> TODO (auto on unblock)");
            },
            Change::BlockerCleared(b) => {
                out.push_str("blocked_by -= ");
                out.push_str(b.as_str());
            },
            Change::Claimed(who) => {
                out.push_str("claimed by ");
                out.push_str(who.as_str());
            },
            Change::ClaimReleased(who) => {
                out.push_str("claim released (");
                out.push_str(who.as_str());
                out.push_str(")");
            },
        }
        out
    }
}

/// A heading's properties as text.
pub open spec fn props_view(h: IssueHeading) -> Map<Seq<char>, Seq<char>> {
    h.properties.view().map_values(|s: String| s@)
}

/// A closing state.
pub open spec fn terminal(s: Seq<char>) -> bool {
    s == "DONE"@ || s == "CANCELLED"@
}

/// The blocker ids a property map lists.
pub open spec fn listed_blockers(props: Map<Seq<char>, Seq<char>>) -> Seq<Seq<char>> {
    if props.contains_key("BLOCKED_BY"@) {
        fields(props["BLOCKED_BY"@], |c: char| blocker_sep(c))
    } else {
        seq![]
    }
}

/// `s` without any element equal to `x`.
pub open spec fn without(s: Seq<Seq<char>>, x: Seq<char>) -> Seq<Seq<char>>
    decreases s.len(),
{
    if s.len() == 0 {
        seq![]
    } else if s.last() == x {
        without(s.drop_last(), x)
    } else {
        without(s.drop_last(), x).push(s.last())
    }
}

/// A heading while an update runs: its state, priority and properties, the
/// logbook entries added (oldest first), and the changes reported.
pub struct Draft {
    pub state: Seq<char>,
    pub priority: char,
    pub props: Map<Seq<char>, Seq<char>>,
    pub log: Seq<LogView>,
    pub steps: Seq<Step>,
}

/// Why an update is refused before anything is written.
pub enum Refusal {
    /// The last-seen state is not a TODO keyword.
    BadIfState,
    /// The heading is no longer in the last-seen state.
    StaleState,
    /// The corpus has moved past the last-seen generation.
    StaleGen,
    /// The new state is not a TODO keyword.
    BadState,
    /// The new priority is not A, B or C.
    BadPriority,
    /// The dependency graph refused the new blocker edge.
    Edge,
}

/// The logbook line of a move from `from` to `to` at `now`.
pub open spec fn move_entry(from: Seq<char>, to: Seq<char>, now: Seq<char>) -> LogView {
    LogView { timestamp: now, from_state: Some(from), to_state: Some(to), note: None, raw: None }
}

/// What the logbook keeps of a released claim: who held it and, when the
/// claim recorded it, since when.
pub open spec fn release_text(who: Seq<char>, since: Option<Seq<char>>) -> Seq<char> {
    match since {
        Some(t) => "claim released: "@ + who + ", held since "@ + t,
        None => "claim released: "@ + who,
    }
}

/// The logbook note of a released claim, at `now`.
pub open spec fn release_entry(who: Seq<char>, since: Option<Seq<char>>, now: Seq<char>) -> LogView {
    LogView { timestamp: now, from_state: None, to_state: None, note: Some(release_text(who, since)), raw: None }
}

/// `d` moved to state `to` at `now`, the move logged.
pub open spec fn moved(d: Draft, to: Seq<char>, now: Seq<char>) -> Draft {
    Draft { state: to, log: d.log.push(move_entry(d.state, to, now)), ..d }
}

/// `d` with one more change reported.
pub open spec fn noted(d: Draft, s: Step) -> Draft {
    Draft { steps: d.steps.push(s), ..d }
}

/// The states that keep a claim: someone still holds the issue while it
/// waits on something else.
pub open spec fn keeps_claim(s: Seq<char>) -> bool {
    s == "STARTED"@ || s == "BLOCKED"@
}

/// The claim after a move from `from` to `to`: entering STARTED unclaimed
/// stamps `identity` as holder at `now`; leaving the states that keep a
/// claim for one that does not releases it, the logbook keeping who held it
/// and since when.
pub open spec fn settled_claim(d: Draft, from: Seq<char>, to: Seq<char>, identity: Seq<char>, now: Seq<char>) -> Draft {
    if to == "STARTED"@ && !d.props.contains_key("CLAIMED_BY"@) {
        noted(
            Draft { props: d.props.insert("CLAIMED_BY"@, identity).insert("CLAIMED_AT"@, now), ..d },
            Step::Claimed(identity),
        )
    } else if keeps_claim(from) && !keeps_claim(to) && d.props.contains_key("CLAIMED_BY"@) {
        noted(
            Draft {
                props: d.props.remove("CLAIMED_BY"@).remove("CLAIMED_AT"@),
                log: d.log.push(
                    release_entry(
                        d.props["CLAIMED_BY"@],
                        if d.props.contains_key("CLAIMED_AT"@) {
                            Some(d.props["CLAIMED_AT"@])
                        } else {
                            None
                        },
                        now,
                    ),
                ),
                ..d
            },
            Step::ClaimReleased(d.props["CLAIMED_BY"@]),
        )
    } else {
        d
    }
}

/// The state change an update asks for, made by `identity` at `now`.
pub open spec fn stage_state(d: Draft, new_state: Option<Seq<char>>, identity: Seq<char>, now: Seq<char>) -> Result<Draft, Refusal> {
    match new_state {
        None => Ok(d),
        Some(s) => if !house_keywords().contains(s) {
            Err(Refusal::BadState)
        } else if d.state == s {
            Ok(d)
        } else if terminal(d.state) && terminal(s) {
            Ok(
                noted(
                    Draft { props: d.props.insert("SIBLING_TERMINAL"@, s), ..d },
                    Step::SiblingTerminal(s, d.state),
                ),
            )
        } else {
            Ok(settled_claim(noted(moved(d, s, now), Step::State(d.state, s)), d.state, s, identity, now))
        },
    }
}

/// The priority change an update asks for.
pub open spec fn stage_priority(d: Draft, p: Option<char>) -> Result<Draft, Refusal> {
    match p {
        None => Ok(d),
        Some(p) => if !(p == 'A' || p == 'B' || p == 'C') {
            Err(Refusal::BadPriority)
        } else if d.priority == p {
            Ok(d)
        } else {
            Ok(noted(Draft { priority: p, ..d }, Step::Priority(p)))
        },
    }
}

/// The blocker an update adds at `now`; `refused` when the graph would not
/// take the edge.
pub open spec fn stage_block(d: Draft, blk: Option<Seq<char>>, refused: bool, now: Seq<char>) -> Result<Draft, Refusal> {
    match blk {
        None => Ok(d),
        Some(b) => {
            let cur = listed_blockers(d.props);
            if cur.contains(b) {
                Ok(d)
            } else if refused {
                Err(Refusal::Edge)
            } else {
                let d1 = Draft { props: d.props.insert("BLOCKED_BY"@, join(cur.push(b), ","@)), ..d };
                let d2 = if d1.state == "TODO"@ || d1.state == "STARTED"@ {
                    noted(moved(d1, "BLOCKED"@, now), Step::AutoBlocked(d1.state))
                } else {
                    d1
                };
                Ok(noted(d2, Step::BlockerAdded(b)))
            }
        },
    }
}

/// The blocker an update clears, made by `identity` at `now`.
pub open spec fn stage_unblock(d: Draft, blk: Option<Seq<char>>, identity: Seq<char>, now: Seq<char>) -> Draft {
    match blk {
        None => d,
        Some(b) => {
            let cur = listed_blockers(d.props);
            let rest = without(cur, b);
            if rest.len() < cur.len() {
                let d1 = if rest.len() == 0 {
                    let d0 = Draft { props: d.props.remove("BLOCKED_BY"@), ..d };
                    if d0.state == "BLOCKED"@ {
                        settled_claim(noted(moved(d0, "TODO"@, now), Step::AutoUnblocked), "BLOCKED"@, "TODO"@, identity, now)
                    } else {
                        d0
                    }
                } else {
                    Draft { props: d.props.insert("BLOCKED_BY"@, join(rest, ","@)), ..d }
                };
                noted(d1, Step::BlockerCleared(b))
            } else {
                d
            }
        },
    }
}

/// The last-seen checks, against the heading's state and the corpus
/// generation `seen`.
pub open spec fn stale_check(state: Seq<char>, if_state: Option<Seq<char>>, if_gen: Option<u64>, seen: u64) -> Option<Refusal> {
    if if_state is None && if_gen is None {
        None
    } else if if_state is Some && !house_keywords().contains(if_state->0) {
        Some(Refusal::BadIfState)
    } else if if_state is Some && state != if_state->0 {
        Some(Refusal::StaleState)
    } else if if_gen is Some && seen != if_gen->0 {
        Some(Refusal::StaleGen)
    } else {
        None
    }
}

/// The heading as a draft with nothing changed yet.
pub open spec fn draft_of(h: IssueHeading) -> Draft {
    Draft { state: h.state@, priority: h.priority, props: props_view(h), log: seq![], steps: seq![] }
}

/// What an update makes of a heading, or why it is refused.
pub open spec fn update_plan(
    h: IssueHeading,
    new_state: Option<Seq<char>>,
    new_priority: Option<char>,
    block_add: Option<Seq<char>>,
    block_clear: Option<Seq<char>>,
    if_state: Option<Seq<char>>,
    if_gen: Option<u64>,
    seen: u64,
    refused: bool,
    identity: Seq<char>,
    now: Seq<char>,
) -> Result<Draft, Refusal> {
    match stale_check(h.state@, if_state, if_gen, seen) {
        Some(r) => Err(r),
        None => match stage_state(draft_of(h), new_state, identity, now) {
            Err(r) => Err(r),
            Ok(d1) => match stage_priority(d1, new_priority) {
                Err(r) => Err(r),
                Ok(d2) => match stage_block(d2, block_add, refused, now) {
                    Err(r) => Err(r),
                    Ok(d3) => Ok(stage_unblock(d3, block_clear, identity, now)),
                },
            },
        },
    }
}

/// Whether `lb` is `old` with the entries of `log` in front, newest first.
pub open spec fn logged(lb: Seq<LogEntry>, old: Seq<LogEntry>, log: Seq<LogView>) -> bool {
    &&& lb.len() == old.len() + log.len()
    &&& lb.skip(log.len() as int) == old
    &&& forall|i: int| 0 <= i < log.len() ==> (#[trigger] lb[i])@ == log[log.len() - 1 - i]
}

/// Whether `h` holds draft `d`, grown from heading `h0`.
pub open spec fn holds(h: IssueHeading, h0: IssueHeading, d: Draft) -> bool {
    &&& h.state@ == d.state
    &&& h.priority == d.priority
    &&& props_view(h) == d.props
    &&& logged(h.logbook@, h0.logbook@, d.log)
    &&& h.id == h0.id
    &&& h.title == h0.title
    &&& h.property_order == h0.property_order
    &&& h.body == h0.body
    &&& h.line_start == h0.line_start
    &&& h.line_end == h0.line_end
}

/// The text of an optional string slice.
pub open spec fn opt_view(o: Option<&str>) -> Option<Seq<char>> {
    match o {
        Some(s) => Some(s@),
        None => None,
    }
}

fn move_state(h: &mut IssueHeading, to: &str, now: &str, Ghost(h0): Ghost<IssueHeading>, Ghost(d): Ghost<Draft>)
    requires
        holds(*old(h), h0, d),
        old(h).state@ != to@,
    ensures
        holds(*final(h), h0, moved(d, to@, now@)),
{
    let ghost before = *h;
    h.record_state_change(to, now.to_string());
    proof {
        let m = moved(d, to@, now@);
        let lb = h.logbook@;
        assert(lb.skip(m.log.len() as int) =~= before.logbook@.skip(d.log.len() as int));
        assert(lb[0]@ == move_entry(d.state, to@, now@));
        assert forall|i: int| 0 <= i < m.log.len() implies (#[trigger] lb[i])@ == m.log[m.log.len() - 1 - i] by {
            if i > 0 {
                assert(lb[i] == before.logbook@[i - 1]);
            }
        }
    }
}

fn quoted_keywords() -> (r: String)
    ensures
        r@ == crate::rofi::debug_list_text(house_keywords()),
{
    let ks = crate::model::todo_keywords();
    let ghost kv = ks@.map_values(|x: String| x@);
    let mut out = String::new();
    out.push_str("[");
    proof {
        reveal_strlit("[");
        assert(crate::rofi::debug_items(kv.take(0)) =~= Seq::<Seq<char>>::empty());
    }
    let mut i: usize = 0;
    while i < ks.len()
        invariant
            i <= ks.len(),
            kv == ks@.map_values(|x: String| x@),
            kv == house_keywords(),
            out@ == "["@ + crate::org::join(crate::rofi::debug_items(kv.take(i as int)), ", "@),
        decreases ks.len() - i,
    {
        proof {
            crate::rofi::lemma_debug_items_step(kv, i as int);
            assert(kv[i as int] == ks@[i as int]@);
        }
        if i > 0 {
            out.push_str(", ");
        }
        out.push_str(crate::rofi::debug_quote(ks[i].as_str()).as_str());
        i = i + 1;
    }
    out.push_str("]");
    assert(kv.take(ks.len() as int) =~= kv);
    out
}

/// The refusal of a value that is not a TODO keyword.
pub open spec fn invalid_text(what: Seq<char>, value: Seq<char>) -> Seq<char> {
    "invalid "@ + what + " "@ + crate::rofi::debug_str(value) + "; allowed: "@ + crate::rofi::debug_list_text(
        house_keywords(),
    )
}

fn invalid(what: &str, value: &str) -> (r: TrackerError)
    ensures
        r matches TrackerError::Message(m) && m@ == invalid_text(what@, value@),
{
    let mut msg = String::new();
    msg.push_str("invalid ");
    msg.push_str(what);
    msg.push_str(" ");
    msg.push_str(crate::rofi::debug_quote(value).as_str());
    msg.push_str("; allowed: ");
    msg.push_str(quoted_keywords().as_str());
    TrackerError::Message(msg)
}

fn is_keyword(s: &str) -> (r: bool)
    ensures
        r == house_keywords().contains(s@),
{
    let ks = crate::model::todo_keywords();
    let ghost kv = ks@.map_values(|x: String| x@);
    let mut i: usize = 0;
    while i < ks.len()
        invariant
            i <= ks.len(),
            kv == ks@.map_values(|x: String| x@),
            kv == house_keywords(),
            forall|j: int| 0 <= j < i ==> kv[j] != s@,
        decreases ks.len() - i,
    {
        if str_eq(ks[i].as_str(), s) {
            assert(kv[i as int] == s@);
            return true;
        }
        i = i + 1;
    }
    false
}

fn debug_char(c: char) -> (r: String)
    ensures
        r@ == crate::rofi::debug_char_str(c),
{
    crate::rofi::debug_char_quote(c)
}

/// Whether `e` is the stale-write refusal with these fields.
pub open spec fn stale_write(
    e: TrackerError,
    id: Seq<char>,
    expected_state: Option<Seq<char>>,
    actual_state: Seq<char>,
    expected_gen: Option<u64>,
    actual_gen: Option<u64>,
) -> bool {
    e matches TrackerError::StaleWrite { id: i, expected_state: es, actual_state: a, expected_gen: eg, actual_gen: ag }
        && i@ == id && a@ == actual_state && eg == expected_gen && ag == actual_gen && match es {
        Some(x) => expected_state == Some(x@),
        None => expected_state is None,
    }
}

fn owned_opt(o: Option<&str>) -> (r: Option<String>)
    ensures
        match o {
            Some(s) => r matches Some(x) && x@ == s@,
            None => r is None,
        },
{
    match o {
        Some(s) => Some(s.to_owned()),
        None => None,
    }
}

fn lists(v: &Vec<String>, k: &str) -> (r: bool)
    ensures
        r == v@.map_values(|x: String| x@).contains(k@),
{
    let mut i: usize = 0;
    while i < v.len()
        invariant
            i <= v.len(),
            forall|j: int| 0 <= j < i ==> #[trigger] v@[j]@ != k@,
        decreases v.len() - i,
    {
        if str_eq(v[i].as_str(), k) {
            assert(v@.map_values(|x: String| x@)[i as int] == k@);
            return true;
        }
        i = i + 1;
    }
    proof {
        let vv = v@.map_values(|x: String| x@);
        if vv.contains(k@) {
            let j = choose|j: int| 0 <= j < vv.len() && vv[j] == k@;
            assert(v@[j]@ == k@);
        }
    }
    false
}

fn joined(parts: &Vec<String>, sep: &str) -> (r: String)
    ensures
        r@ == join(parts@.map_values(|x: String| x@), sep@),
{
    let mut out = String::new();
    crate::report::push_joined(&mut out, parts, sep);
    out
}

fn without_exec(v: &Vec<String>, b: &str) -> (r: Vec<String>)
    ensures
        r@.map_values(|x: String| x@) == without(v@.map_values(|x: String| x@), b@),
{
    let ghost vv = v@.map_values(|x: String| x@);
    let mut r: Vec<String> = Vec::new();
    let mut i: usize = 0;
    while i < v.len()
        invariant
            i <= v.len(),
            vv == v@.map_values(|x: String| x@),
            r@.map_values(|x: String| x@) == without(vv.take(i as int), b@),
        decreases v.len() - i,
    {
        proof {
            assert(vv.take(i + 1).drop_last() =~= vv.take(i as int));
            assert(vv.take(i + 1).last() == v@[i as int]@);
        }
        if !str_eq(v[i].as_str(), b) {
            let ghost before = r@.map_values(|x: String| x@);
            r.push(v[i].clone());
            assert(r@.map_values(|x: String| x@) =~= before.push(v@[i as int]@));
        }
        i = i + 1;
    }
    assert(vv.take(v.len() as int) =~= vv);
    r
}

proof fn lemma_without_len(s: Seq<Seq<char>>, x: Seq<char>)
    ensures
        without(s, x).len() <= s.len(),
        without(s, x).len() == s.len() <==> !s.contains(x),
    decreases s.len(),
{
    if s.len() > 0 {
        lemma_without_len(s.drop_last(), x);
        if s.drop_last().contains(x) {
            let j = choose|j: int| 0 <= j < s.drop_last().len() && s.drop_last()[j] == x;
            assert(s[j] == x);
        }
        if s.contains(x) && s.last() != x {
            let j = choose|j: int| 0 <= j < s.len() && s[j] == x;
            assert(s.drop_last()[j] == x);
        }
    }
}

fn keeps(s: &str) -> (r: bool)
    ensures
        r == keeps_claim(s@),
{
    str_eq(s, "STARTED") || str_eq(s, "BLOCKED")
}

fn run_settle(
    h: &mut IssueHeading,
    changed: &mut Vec<Change>,
    from: &str,
    to: &str,
    identity: &str,
    now: &str,
    Ghost(h0): Ghost<IssueHeading>,
    Ghost(d): Ghost<Draft>,
) -> (r: Ghost<Draft>)
    requires
        holds(*old(h), h0, d),
        old(changed)@.map_values(|c: Change| step_of(c)) == d.steps,
    ensures
        r@ == settled_claim(d, from@, to@, identity@, now@),
        holds(*final(h), h0, r@),
        final(changed)@.map_values(|c: Change| step_of(c)) == r@.steps,
{
    let ghost mut d = d;
    let claimed = h.properties.contains_key("CLAIMED_BY");
    let ghost before = changed@.map_values(|c: Change| step_of(c));
    if str_eq(to, "STARTED") && !claimed {
        h.properties.insert("CLAIMED_BY".to_owned(), identity.to_owned());
        h.properties.insert("CLAIMED_AT".to_owned(), now.to_owned());
        changed.push(Change::Claimed(identity.to_owned()));
        proof {
            d = noted(
                Draft { props: d.props.insert("CLAIMED_BY"@, identity@).insert("CLAIMED_AT"@, now@), ..d },
                Step::Claimed(identity@),
            );
            assert(props_view(*h) =~= d.props);
        }
        assert(changed@.map_values(|c: Change| step_of(c)) =~= before.push(d.steps.last()));
    } else if keeps(from) && !keeps(to) && claimed {
        let who = h.properties.remove("CLAIMED_BY").unwrap();
        let since = h.properties.remove("CLAIMED_AT");
        let mut text = String::new();
        text.push_str("claim released: ");
        text.push_str(who.as_str());
        match &since {
            Some(t) => {
                text.push_str(", held since ");
                text.push_str(t.as_str());
            },
            None => {},
        }
        let ghost lb0 = h.logbook@;
        h.logbook.insert(
            0,
            LogEntry { timestamp: now.to_owned(), from_state: None, to_state: None, note: Some(text), raw: None },
        );
        changed.push(Change::ClaimReleased(who));
        proof {
            reveal_strlit("CLAIMED_AT");
            reveal_strlit("CLAIMED_BY");
            assert("CLAIMED_AT"@[8] != "CLAIMED_BY"@[8]);
            let since_v: Option<Seq<char>> = if d.props.contains_key("CLAIMED_AT"@) {
                Some(d.props["CLAIMED_AT"@])
            } else {
                None
            };
            let e = release_entry(d.props["CLAIMED_BY"@], since_v, now@);
            let d2 = noted(
                Draft {
                    props: d.props.remove("CLAIMED_BY"@).remove("CLAIMED_AT"@),
                    log: d.log.push(e),
                    ..d
                },
                Step::ClaimReleased(d.props["CLAIMED_BY"@]),
            );
            assert(who@ == d.props["CLAIMED_BY"@]);
            assert(since_v == crate::model::opt_text(since));
            assert(text@ == release_text(who@, since_v));
            assert(h.logbook@[0]@ == e);
            assert(h.logbook@.skip(d2.log.len() as int) =~= lb0.skip(d.log.len() as int));
            assert forall|i: int| 0 <= i < d2.log.len() implies (#[trigger] h.logbook@[i])@ == d2.log[d2.log.len() - 1 - i] by {
                if i > 0 {
                    assert(h.logbook@[i] == lb0[i - 1]);
                }
            }
            d = d2;
            assert(props_view(*h) =~= d.props);
        }
        assert(changed@.map_values(|c: Change| step_of(c)) =~= before.push(d.steps.last()));
    }
    Ghost(d)
}

fn run_state(
    h: &mut IssueHeading,
    changed: &mut Vec<Change>,
    new_state: Option<&str>,
    identity: &str,
    now: &str,
    Ghost(h0): Ghost<IssueHeading>,
    Ghost(d): Ghost<Draft>,
) -> (r: Result<Ghost<Draft>, TrackerError>)
    requires
        holds(*old(h), h0, d),
        old(changed)@.map_values(|c: Change| step_of(c)) == d.steps,
    ensures
        match stage_state(d, opt_view(new_state), identity@, now@) {
            Ok(d2) => r matches Ok(g) && g@ == d2 && holds(*final(h), h0, d2)
                && final(changed)@.map_values(|c: Change| step_of(c)) == d2.steps,
            Err(_) => r matches Err(TrackerError::Message(_)),
        },
{
    let ghost mut d = d;
    if let Some(s) = new_state {
        if !is_keyword(s) {
            return Err(invalid("state", s));
        }
        if !str_eq(h.state.as_str(), s) {
            if is_terminal(h.state.as_str()) && is_terminal(s) {
                let ghost before = changed@.map_values(|c: Change| step_of(c));
                let held = h.state.clone();
                h.properties.insert("SIBLING_TERMINAL".to_owned(), s.to_owned());
                changed.push(Change::SiblingTerminal { attempted: s.to_owned(), held });
                proof {
                    d = noted(Draft { props: d.props.insert("SIBLING_TERMINAL"@, s@), ..d }, Step::SiblingTerminal(s@, d.state));
                    assert(props_view(*h) =~= d.props);
                }
                assert(changed@.map_values(|c: Change| step_of(c)) =~= before.push(d.steps.last()));
            } else {
                let ghost before = changed@.map_values(|c: Change| step_of(c));
                let from = h.state.clone();
                move_state(h, s, now, Ghost(h0), Ghost(d));
                changed.push(Change::State { from: from.clone(), to: s.to_owned() });
                proof {
                    d = noted(moved(d, s@, now@), Step::State(d.state, s@));
                }
                assert(changed@.map_values(|c: Change| step_of(c)) =~= before.push(d.steps.last()));
                let g = run_settle(h, changed, from.as_str(), s, identity, now, Ghost(h0), Ghost(d));
                proof {
                    d = g@;
                }
            }
        }
    }
    Ok(Ghost(d))
}

fn run_priority(
    h: &mut IssueHeading,
    changed: &mut Vec<Change>,
    new_priority: Option<char>,
    Ghost(h0): Ghost<IssueHeading>,
    Ghost(d): Ghost<Draft>,
) -> (r: Result<Ghost<Draft>, TrackerError>)
    requires
        holds(*old(h), h0, d),
        old(changed)@.map_values(|c: Change| step_of(c)) == d.steps,
    ensures
        match stage_priority(d, new_priority) {
            Ok(d2) => r matches Ok(g) && g@ == d2 && holds(*final(h), h0, d2)
                && final(changed)@.map_values(|c: Change| step_of(c)) == d2.steps,
            Err(_) => r matches Err(TrackerError::Message(_)),
        },
{
    let ghost mut d = d;
    if let Some(p) = new_priority {
        if !(p == 'A' || p == 'B' || p == 'C') {
            return Err(TrackerError::Message(priority_message(p)));
        }
        if h.priority != p {
            let ghost before = changed@.map_values(|c: Change| step_of(c));
            h.priority = p;
            changed.push(Change::Priority(p));
            proof {
                d = noted(Draft { priority: p, ..d }, Step::Priority(p));
            }
            assert(changed@.map_values(|c: Change| step_of(c)) =~= before.push(d.steps.last()));
        }
    }
    Ok(Ghost(d))
}

fn run_block(
    h: &mut IssueHeading,
    changed: &mut Vec<Change>,
    block_add: Option<&str>,
    refusal: Option<TrackerError>,
    now: &str,
    Ghost(h0): Ghost<IssueHeading>,
    Ghost(d): Ghost<Draft>,
) -> (r: Result<Ghost<Draft>, TrackerError>)
    requires
        holds(*old(h), h0, d),
        old(changed)@.map_values(|c: Change| step_of(c)) == d.steps,
    ensures
        match stage_block(d, opt_view(block_add), refusal is Some, now@) {
            Ok(d2) => r matches Ok(g) && g@ == d2 && holds(*final(h), h0, d2)
                && final(changed)@.map_values(|c: Change| step_of(c)) == d2.steps,
            Err(_) => r == Err::<Ghost<Draft>, TrackerError>(refusal->0),
        },
{
    let ghost mut d = d;
    if let Some(blk) = block_add {
        let current = h.blocked_by();
        proof {
            assert(listed_blockers(d.props) == current@.map_values(|x: String| x@));
        }
        if !lists(&current, blk) {
            match refusal {
                Some(e) => {
                    return Err(e);
                },
                None => {},
            }
            let mut next = current;
            let ghost cv = next@.map_values(|x: String| x@);
            next.push(blk.to_owned());
            assert(next@.map_values(|x: String| x@) =~= cv.push(blk@));
            let value = joined(&next, ",");
            h.properties.insert("BLOCKED_BY".to_owned(), value);
            proof {
                d = Draft { props: d.props.insert("BLOCKED_BY"@, join(cv.push(blk@), ","@)), ..d };
                assert(props_view(*h) =~= d.props);
            }
            let open = str_eq(h.state.as_str(), "TODO") || str_eq(h.state.as_str(), "STARTED");
            proof {
                reveal_strlit("TODO");
                reveal_strlit("STARTED");
                reveal_strlit("BLOCKED");
                assert("TODO"@.len() == 4 && "STARTED"@.len() == 7 && "BLOCKED"@.len() == 7);
                assert("STARTED"@[0] != "BLOCKED"@[0]);
                assert(open ==> h.state@ != "BLOCKED"@);
            }
            if open {
                let ghost before = changed@.map_values(|c: Change| step_of(c));
                let from = h.state.clone();
                move_state(h, "BLOCKED", now, Ghost(h0), Ghost(d));
                changed.push(Change::AutoBlocked { from });
                proof {
                    d = noted(moved(d, "BLOCKED"@, now@), Step::AutoBlocked(d.state));
                }
                assert(changed@.map_values(|c: Change| step_of(c)) =~= before.push(d.steps.last()));
            }
            let ghost before = changed@.map_values(|c: Change| step_of(c));
            changed.push(Change::BlockerAdded(blk.to_owned()));
            proof {
                d = noted(d, Step::BlockerAdded(blk@));
            }
            assert(changed@.map_values(|c: Change| step_of(c)) =~= before.push(d.steps.last()));
        }
    }
    Ok(Ghost(d))
}

fn run_unblock(
    h: &mut IssueHeading,
    changed: &mut Vec<Change>,
    block_clear: Option<&str>,
    identity: &str,
    now: &str,
    Ghost(h0): Ghost<IssueHeading>,
    Ghost(d): Ghost<Draft>,
) -> (r: Ghost<Draft>)
    requires
        holds(*old(h), h0, d),
        old(changed)@.map_values(|c: Change| step_of(c)) == d.steps,
    ensures
        r@ == stage_unblock(d, opt_view(block_clear), identity@, now@),
        holds(*final(h), h0, r@),
        final(changed)@.map_values(|c: Change| step_of(c)) == r@.steps,
{
    let ghost mut d = d;
    if let Some(blk) = block_clear {
        let current = h.blocked_by();
        let ghost cv = current@.map_values(|x: String| x@);
        proof {
            assert(listed_blockers(d.props) == cv);
            lemma_without_len(cv, blk@);
        }
        let rest = without_exec(&current, blk);
        if rest.len() < current.len() {
            if rest.len() == 0 {
                h.properties.remove("BLOCKED_BY");
                proof {
                    d = Draft { props: d.props.remove("BLOCKED_BY"@), ..d };
                    assert(props_view(*h) =~= d.props);
                }
                let blocked = str_eq(h.state.as_str(), "BLOCKED");
                proof {
                    reveal_strlit("TODO");
                    reveal_strlit("BLOCKED");
                    assert("TODO"@.len() == 4 && "BLOCKED"@.len() == 7);
                    assert(blocked ==> h.state@ != "TODO"@);
                }
                if blocked {
                    let ghost before = changed@.map_values(|c: Change| step_of(c));
                    move_state(h, "TODO", now, Ghost(h0), Ghost(d));
                    changed.push(Change::AutoUnblocked);
                    proof {
                        d = noted(moved(d, "TODO"@, now@), Step::AutoUnblocked);
                    }
                    assert(changed@.map_values(|c: Change| step_of(c)) =~= before.push(d.steps.last()));
                    let g = run_settle(h, changed, "BLOCKED", "TODO", identity, now, Ghost(h0), Ghost(d));
                    proof {
                        d = g@;
                    }
                }
            } else {
                let value = joined(&rest, ",");
                h.properties.insert("BLOCKED_BY".to_owned(), value);
                proof {
                    d = Draft { props: d.props.insert("BLOCKED_BY"@, join(without(cv, blk@), ","@)), ..d };
                    assert(props_view(*h) =~= d.props);
                }
            }
            let ghost before = changed@.map_values(|c: Change| step_of(c));
            changed.push(Change::BlockerCleared(blk.to_owned()));
            proof {
                d = noted(d, Step::BlockerCleared(blk@));
            }
            assert(changed@.map_values(|c: Change| step_of(c)) =~= before.push(d.steps.last()));
        }
    }
    Ghost(d)
}

/// Apply an update to heading `h`, whose id is `id`: the last-seen checks of
/// `pred` against the heading and the corpus generation `seen`, then the new
/// state, priority, blocker and cleared blocker, in that order. `refusal`
/// is what the dependency graph answered for the new blocker edge, `None`
/// when it takes it; `identity` is who makes the update and `now` the
/// current local time as the caller read it (`[%Y-%m-%d %a %H:%M]`), which
/// stamps each state move and a claim taken. On success the heading holds the result and the
/// changes come back in the order they were made; a refused update leaves
/// nothing the caller should write.
pub fn apply_update(
    h: &mut IssueHeading,
    id: &str,
    new_state: Option<&str>,
    new_priority: Option<char>,
    block_add: Option<&str>,
    block_clear: Option<&str>,
    pred: UpdatePred,
    seen: u64,
    refusal: Option<TrackerError>,
    identity: &str,
    now: &str,
) -> (r: Result<Vec<Change>, TrackerError>)
    ensures
        match update_plan(
            *old(h),
            opt_view(new_state),
            new_priority,
            opt_view(block_add),
            opt_view(block_clear),
            opt_view(pred.if_state),
            pred.if_gen,
            seen,
            refusal is Some,
            identity@,
            now@,
        ) {
            Ok(d) => r matches Ok(cs) && cs@.map_values(|c: Change| step_of(c)) == d.steps && holds(
                *final(h),
                *old(h),
                d,
            ),
            Err(Refusal::StaleState) => r matches Err(e) && stale_write(
                e,
                id@,
                opt_view(pred.if_state),
                old(h).state@,
                pred.if_gen,
                Some(seen),
            ),
            Err(Refusal::StaleGen) => r matches Err(e) && stale_write(
                e,
                id@,
                opt_view(pred.if_state),
                old(h).state@,
                pred.if_gen,
                Some(seen),
            ),
            Err(Refusal::Edge) => r == Err::<Vec<Change>, TrackerError>(refusal->0),
            Err(Refusal::BadIfState) => r matches Err(TrackerError::Message(m)) && m@ == invalid_text(
                "--if-state"@,
                opt_view(pred.if_state)->0,
            ),
            Err(Refusal::BadState) => r matches Err(TrackerError::Message(m)) && m@ == invalid_text(
                "state"@,
                opt_view(new_state)->0,
            ),
            Err(Refusal::BadPriority) => r matches Err(TrackerError::Message(m)) && m@ == "invalid priority "@
                + crate::rofi::debug_char_str(new_priority->0) + "; allowed: A B C"@,
        },
        r is Err ==> *final(h) == *old(h),
{
    if pred.if_state.is_some() || pred.if_gen.is_some() {
        if let Some(want) = pred.if_state {
            if !is_keyword(want) {
                return Err(invalid("--if-state", want));
            }
            if !str_eq(h.state.as_str(), want) {
                return Err(
                    TrackerError::StaleWrite {
                        id: id.to_owned(),
                        expected_state: Some(want.to_owned()),
                        actual_state: h.state.clone(),
                        expected_gen: pred.if_gen,
                        actual_gen: Some(seen),
                    },
                );
            }
        }
        if let Some(want_gen) = pred.if_gen {
            if seen != want_gen {
                return Err(
                    TrackerError::StaleWrite {
                        id: id.to_owned(),
                        expected_state: owned_opt(pred.if_state),
                        actual_state: h.state.clone(),
                        expected_gen: Some(want_gen),
                        actual_gen: Some(seen),
                    },
                );
            }
        }
    }
    // Every refusal comes before the heading is touched.
    if let Some(s) = new_state {
        if !is_keyword(s) {
            return Err(invalid("state", s));
        }
    }
    if let Some(p) = new_priority {
        if !(p == 'A' || p == 'B' || p == 'C') {
            return Err(TrackerError::Message(priority_message(p)));
        }
    }
    if let Some(blk) = block_add {
        let current = h.blocked_by();
        if !lists(&current, blk) && refusal.is_some() {
            proof {
                let d0 = draft_of(*h);
                assert(listed_blockers(d0.props) == current@.map_values(|x: String| x@));
                reveal_strlit("SIBLING_TERMINAL");
                reveal_strlit("BLOCKED_BY");
                assert("SIBLING_TERMINAL"@.len() != "BLOCKED_BY"@.len());
                reveal_strlit("CLAIMED_BY");
                reveal_strlit("CLAIMED_AT");
                assert("CLAIMED_BY"@[0] != "BLOCKED_BY"@[0]);
                assert("CLAIMED_AT"@[0] != "BLOCKED_BY"@[0]);
                match stage_state(d0, opt_view(new_state), identity@, now@) {
                    Ok(d1) => {
                        assert(listed_blockers(d1.props) == listed_blockers(d0.props));
                    },
                    Err(_) => {},
                }
            }
            return Err(refusal.unwrap());
        }
    }
    let ghost h0 = *h;
    proof {
        let d0 = draft_of(h0);
        reveal_strlit("SIBLING_TERMINAL");
        reveal_strlit("BLOCKED_BY");
        assert("SIBLING_TERMINAL"@.len() != "BLOCKED_BY"@.len());
                reveal_strlit("CLAIMED_BY");
                reveal_strlit("CLAIMED_AT");
                assert("CLAIMED_BY"@[0] != "BLOCKED_BY"@[0]);
                assert("CLAIMED_AT"@[0] != "BLOCKED_BY"@[0]);
        match stage_state(d0, opt_view(new_state), identity@, now@) {
            Ok(d1) => {
                assert(listed_blockers(d1.props) == listed_blockers(d0.props));
            },
            Err(_) => {},
        }
    }
    let mut changed: Vec<Change> = Vec::new();
    proof {
        assert(h0.logbook@.skip(0) =~= h0.logbook@);
        assert(changed@.map_values(|c: Change| step_of(c)) =~= draft_of(h0).steps);
        assert(props_view(h0) == draft_of(h0).props);
    }
    let g1 = match run_state(h, &mut changed, new_state, identity, now, Ghost(h0), Ghost(draft_of(h0))) {
        Ok(g) => g,
        Err(e) => return Err(e),
    };
    let g2 = match run_priority(h, &mut changed, new_priority, Ghost(h0), g1) {
        Ok(g) => g,
        Err(e) => return Err(e),
    };
    let g3 = match run_block(h, &mut changed, block_add, refusal, now, Ghost(h0), g2) {
        Ok(g) => g,
        Err(e) => return Err(e),
    };
    let _g4 = run_unblock(h, &mut changed, block_clear, identity, now, Ghost(h0), g3);
    Ok(changed)
}

/// The holder a claim by `identity` would take over: whoever else holds it.
pub open spec fn other_holder(h: IssueHeading, identity: Seq<char>) -> Option<Seq<char>> {
    match crate::model::prop(h, "CLAIMED_BY"@) {
        Some(w) => if w != identity {
            Some(w)
        } else {
            None
        },
        None => None,
    }
}

/// What a claim by `identity` at `now` makes of `h`: STARTED, the move
/// logged when it was elsewhere, and the claim stamped unless `identity`
/// holds it already; a claim taken over from someone else is logged as
/// released first.
pub open spec fn claimed_draft(h: IssueHeading, identity: Seq<char>, now: Seq<char>) -> Draft {
    let d = draft_of(h);
    let props = if crate::model::prop(h, "CLAIMED_BY"@) == Some(identity) {
        d.props
    } else {
        d.props.insert("CLAIMED_BY"@, identity).insert("CLAIMED_AT"@, now)
    };
    let log = match other_holder(h, identity) {
        Some(w) => d.log.push(release_entry(w, crate::model::prop(h, "CLAIMED_AT"@), now)),
        None => d.log,
    };
    let d1 = Draft { props, log, ..d };
    if h.state@ == "STARTED"@ {
        d1
    } else {
        moved(d1, "STARTED"@, now)
    }
}

/// The report of a claim of `id` by `identity` on a heading that was in
/// state `was`, taken over from `from` when someone else held it.
pub open spec fn claim_report(id: Seq<char>, identity: Seq<char>, was: Seq<char>, from: Option<Seq<char>>) -> Seq<char> {
    match from {
        Some(prev) => "claimed "@ + id + " (taken over from "@ + prev + ")\n"@,
        None => if was == "STARTED"@ {
            "claimed "@ + id + " by "@ + identity + "\n"@
        } else {
            "claimed "@ + id + " by "@ + identity + " ("@ + was + " -> STARTED)\n"@
        },
    }
}

/// Take heading `h` (whose id is `id`) for `identity` at `now`: move it to
/// STARTED and stamp the claim. A closed heading is refused, and so is one
/// that someone else holds unless `force`, which takes the claim over.
pub fn claim_heading(h: &mut IssueHeading, id: &str, identity: &str, force: bool, now: &str) -> (r: Result<
    String,
    TrackerError,
>)
    ensures
        terminal(old(h).state@) ==> (r matches Err(TrackerError::InvalidState { id: i, state: s }) && i@ == id@
            && s@ == old(h).state@),
        !terminal(old(h).state@) && !force && other_holder(*old(h), identity@) is Some ==> (r matches Err(
            TrackerError::ClaimConflict { id: i, holder: w, claimed_at: c },
        ) && i@ == id@ && w@ == other_holder(*old(h), identity@)->0 && crate::model::opt_text(c)
            == crate::model::prop(*old(h), "CLAIMED_AT"@)),
        r is Ok <==> !terminal(old(h).state@) && (force || other_holder(*old(h), identity@) is None),
        r is Err ==> *final(h) == *old(h),
        r matches Ok(text) ==> text@ == claim_report(id@, identity@, old(h).state@, other_holder(*old(h), identity@))
            && holds(*final(h), *old(h), claimed_draft(*old(h), identity@, now@)),
{
    if is_terminal(h.state.as_str()) {
        return Err(TrackerError::InvalidState { id: id.to_owned(), state: h.state.clone() });
    }
    let holder: Option<String> = match h.properties.get("CLAIMED_BY") {
        Some(v) => Some(v.clone()),
        None => None,
    };
    let other = match &holder {
        Some(w) => !str_eq(w.as_str(), identity),
        None => false,
    };
    if other && !force {
        let at: Option<String> = match h.properties.get("CLAIMED_AT") {
            Some(v) => Some(v.clone()),
            None => None,
        };
        return Err(TrackerError::ClaimConflict { id: id.to_owned(), holder: holder.unwrap(), claimed_at: at });
    }
    let ghost h0 = *h;
    let ghost d0 = draft_of(h0);
    let was = h.state.clone();
    if other {
        let w = holder.clone().unwrap();
        let mut text = String::new();
        text.push_str("claim released: ");
        text.push_str(w.as_str());
        let since: Option<String> = match h.properties.get("CLAIMED_AT") {
            Some(v) => Some(v.clone()),
            None => None,
        };
        match &since {
            Some(t) => {
                text.push_str(", held since ");
                text.push_str(t.as_str());
            },
            None => {},
        }
        h.logbook.insert(
            0,
            LogEntry { timestamp: now.to_owned(), from_state: None, to_state: None, note: Some(text), raw: None },
        );
        proof {
            assert(crate::model::opt_text(since) == crate::model::prop(h0, "CLAIMED_AT"@));
            assert(h.logbook@[0]@ == release_entry(other_holder(h0, identity@)->0, crate::model::prop(h0, "CLAIMED_AT"@), now@));
        }
    }
    if holder.is_none() || other {
        h.properties.insert("CLAIMED_BY".to_owned(), identity.to_owned());
        h.properties.insert("CLAIMED_AT".to_owned(), now.to_owned());
    }
    let ghost d1 = Draft {
        props: if crate::model::prop(h0, "CLAIMED_BY"@) == Some(identity@) {
            d0.props
        } else {
            d0.props.insert("CLAIMED_BY"@, identity@).insert("CLAIMED_AT"@, now@)
        },
        log: match other_holder(h0, identity@) {
            Some(w) => d0.log.push(release_entry(w, crate::model::prop(h0, "CLAIMED_AT"@), now@)),
            None => d0.log,
        },
        ..d0
    };
    proof {
        assert(props_view(*h) =~= d1.props);
        assert(h0.logbook@.skip(0) =~= h0.logbook@);
        if other {
            assert(h.logbook@.skip(1) =~= h0.logbook@);
        } else {
            assert(h.logbook@.skip(0) =~= h0.logbook@);
        }
        reveal_strlit("STARTED");
    }
    if !str_eq(was.as_str(), "STARTED") {
        move_state(h, "STARTED", now, Ghost(h0), Ghost(d1));
    }
    let mut out = String::new();
    out.push_str("claimed ");
    out.push_str(id);
    if other {
        out.push_str(" (taken over from ");
        out.push_str(holder.unwrap().as_str());
        out.push_str(")\n");
    } else {
        out.push_str(" by ");
        out.push_str(identity);
        if !str_eq(was.as_str(), "STARTED") {
            out.push_str(" (");
            out.push_str(was.as_str());
            out.push_str(" -> STARTED)\n");
        } else {
            out.push_str("\n");
        }
    }
    Ok(out)
}

/// What settling on terminal `state` makes of `h`: the move logged and the
/// claim released as an update's would be, when it was elsewhere, and the
/// sibling-terminal mark cleared.
pub open spec fn resolved_draft(h: IssueHeading, state: Seq<char>, identity: Seq<char>, now: Seq<char>) -> Draft {
    let d = draft_of(h);
    let d1 = if h.state@ == state {
        d
    } else {
        settled_claim(moved(d, state, now), h.state@, state, identity, now)
    };
    Draft { props: d1.props.remove("SIBLING_TERMINAL"@), ..d1 }
}

/// Settle heading `h` (whose id is `id`) on one terminal after a sibling
/// close, as `identity` at `now`. Any state but DONE or CANCELLED is
/// refused.
pub fn resolve_heading(h: &mut IssueHeading, id: &str, state: &str, identity: &str, now: &str) -> (r: Result<
    String,
    TrackerError,
>)
    ensures
        !terminal(state@) ==> (r matches Err(TrackerError::Message(m)) && m@
            == "resolve state must be DONE or CANCELLED, got "@ + crate::rofi::debug_str(state@) && *final(h)
            == *old(h)),
        terminal(state@) ==> (r matches Ok(text) && text@ == "resolved "@ + id@ + " -> "@ + state@ + "\n"@ && holds(
            *final(h),
            *old(h),
            resolved_draft(*old(h), state@, identity@, now@),
        )),
{
    if !is_terminal(state) {
        let mut msg = String::new();
        msg.push_str("resolve state must be DONE or CANCELLED, got ");
        msg.push_str(crate::rofi::debug_quote(state).as_str());
        return Err(TrackerError::Message(msg));
    }
    let ghost h0 = *h;
    let ghost mut d = draft_of(h0);
    proof {
        assert(h0.logbook@.skip(0) =~= h0.logbook@);
        assert(props_view(*h) == d.props);
    }
    if !str_eq(h.state.as_str(), state) {
        let from = h.state.clone();
        move_state(h, state, now, Ghost(h0), Ghost(d));
        proof {
            d = moved(d, state@, now@);
        }
        let mut notes: Vec<Change> = Vec::new();
        assert(notes@.map_values(|c: Change| step_of(c)) =~= d.steps);
        let g = run_settle(h, &mut notes, from.as_str(), state, identity, now, Ghost(h0), Ghost(d));
        proof {
            d = g@;
        }
    }
    h.properties.remove("SIBLING_TERMINAL");
    proof {
        d = Draft { props: d.props.remove("SIBLING_TERMINAL"@), ..d };
        assert(props_view(*h) =~= d.props);
    }
    let mut out = String::new();
    out.push_str("resolved ");
    out.push_str(id);
    out.push_str(" -> ");
    out.push_str(state);
    out.push_str("\n");
    Ok(out)
}

/// What rejecting `h` in favour of `dst` makes of it, as `identity` at
/// `now`: CANCELLED, the move logged and the claim settled as an update's
/// would be; or, when it is already closed another way, CANCELLED kept
/// beside it as its sibling terminal. Either way it points at `dst`.
pub open spec fn pivoted_draft(h: IssueHeading, dst: Seq<char>, identity: Seq<char>, now: Seq<char>) -> Draft {
    let d = draft_of(h);
    let d1 = if terminal(h.state@) && h.state@ != "CANCELLED"@ {
        Draft { props: d.props.insert("SIBLING_TERMINAL"@, "CANCELLED"@), ..d }
    } else if h.state@ != "CANCELLED"@ {
        settled_claim(moved(d, "CANCELLED"@, now), h.state@, "CANCELLED"@, identity, now)
    } else {
        d
    };
    Draft { props: d1.props.insert("PIVOTED_TO"@, dst), ..d1 }
}

/// The body a reject leaves: the reason, when there is one that is not
/// blank, appended under the date `today` and `identity`.
pub open spec fn pivoted_body(body: Seq<char>, reason: Option<Seq<char>>, today: Seq<char>, identity: Seq<char>) -> Seq<char> {
    match reason {
        Some(t) => if trim(t).len() > 0 {
            crate::ops::appended_body(body, today + " "@ + identity, t)
        } else {
            body
        },
        None => body,
    }
}

/// Cancel heading `h` and point it at its successor `dst`, as `identity` at
/// `now` (the date alone is `today`), with `reason` appended to its body.
/// Gives back the state before and after.
pub fn pivot_heading(
    h: &mut IssueHeading,
    dst: &str,
    reason: Option<&str>,
    identity: &str,
    today: &str,
    now: &str,
) -> (r: (String, String))
    ensures
        r.0@ == old(h).state@,
        r.1@ == final(h).state@,
        holds(
            (IssueHeading { body: old(h).body, ..*final(h) }),
            *old(h),
            pivoted_draft(*old(h), dst@, identity@, now@),
        ),
        final(h).body@ == pivoted_body(old(h).body@, opt_view(reason), today@, identity@),
{
    let ghost h0 = *h;
    let ghost mut d = draft_of(h0);
    proof {
        assert(h0.logbook@.skip(0) =~= h0.logbook@);
        assert(props_view(*h) == d.props);
        reveal_strlit("CANCELLED");
    }
    let old_state = h.state.clone();
    if is_terminal(old_state.as_str()) && !str_eq(old_state.as_str(), "CANCELLED") {
        h.properties.insert("SIBLING_TERMINAL".to_owned(), "CANCELLED".to_owned());
        proof {
            d = Draft { props: d.props.insert("SIBLING_TERMINAL"@, "CANCELLED"@), ..d };
            assert(props_view(*h) =~= d.props);
        }
    } else if !str_eq(old_state.as_str(), "CANCELLED") {
        move_state(h, "CANCELLED", now, Ghost(h0), Ghost(d));
        proof {
            d = moved(d, "CANCELLED"@, now@);
        }
        let mut notes: Vec<Change> = Vec::new();
        assert(notes@.map_values(|c: Change| step_of(c)) =~= d.steps);
        let g = run_settle(h, &mut notes, old_state.as_str(), "CANCELLED", identity, now, Ghost(h0), Ghost(d));
        proof {
            d = g@;
        }
    }
    h.properties.insert("PIVOTED_TO".to_owned(), dst.to_owned());
    proof {
        d = Draft { props: d.props.insert("PIVOTED_TO"@, dst@), ..d };
        assert(props_view(*h) =~= d.props);
    }
    let ghost before = *h;
    if let Some(text) = reason {
        let mut stamp = String::new();
        stamp.push_str(today);
        stamp.push_str(" ");
        stamp.push_str(identity);
        match crate::ops::append_prose(h.body.as_str(), stamp.as_str(), text) {
            Some(b) => {
                h.body = b;
            },
            None => {},
        }
    }
    proof {
        assert((IssueHeading { body: h0.body, ..*h }) == (IssueHeading { body: h0.body, ..before }));
    }
    (old_state, h.state.clone())
}

/// What a reject of `src` in favour of `dst` reports.
pub fn reject_report(src: &str, dst: &str) -> (r: String)
    ensures
        r@ == "rejected "@ + src@ + " -> "@ + dst@ + "\n"@,
{
    let mut out = String::new();
    out.push_str("rejected ");
    out.push_str(src);
    out.push_str(" -> ");
    out.push_str(dst);
    out.push_str("\n");
    out
}

/// Check a reject's arguments before anything is looked up: the
/// destination `to` may not be the source `src`, and without one there must
/// be a `project` to create it in.
pub fn reject_check(src: &str, to: Option<&str>, project: Option<&str>) -> (r: Result<(), TrackerError>)
    ensures
        r is Ok <==> match to {
            Some(t) => t@ != src@,
            None => project is Some,
        },
        r matches Err(e) ==> e matches TrackerError::Message(m) && m@ == match to {
            Some(_) => "reject destination cannot be the source "@ + src@,
            None => "reject needs --to DST or --project to create a successor"@,
        },
{
    match to {
        Some(t) => {
            if str_eq(t, src) {
                let mut msg = String::new();
                msg.push_str("reject destination cannot be the source ");
                msg.push_str(src);
                return Err(TrackerError::Message(msg));
            }
            Ok(())
        },
        None => {
            if project.is_none() {
                return Err(
                    TrackerError::Message("reject needs --to DST or --project to create a successor".to_string()),
                );
            }
            Ok(())
        },
    }
}

/// The successor a reject creates for `src` when it names none: a TODO
/// heading with id `id` (fresh in its project), title `title`, priority
/// `priority`, created `today`, and `src` as where it came from.
pub fn successor_heading(id: &str, title: &str, priority: char, src: &str, today: &str) -> (h: IssueHeading)
    ensures
        h.id@ == id@,
        h.title@ == title@,
        h.state@ == "TODO"@,
        h.priority == priority,
        props_view(h) == Map::<Seq<char>, Seq<char>>::empty().insert("ID"@, id@).insert("CREATED"@, today@).insert(
            "DISCOVERED_FROM"@,
            src@,
        ),
        h.property_order@.len() == 0,
        h.body@.len() == 0,
        h.logbook@.len() == 0,
        h.line_start == 0 && h.line_end == 0,
{
    let mut props: crate::textmap::TextMap<String> = crate::textmap::TextMap::new();
    props.insert("ID".to_owned(), id.to_owned());
    props.insert("CREATED".to_owned(), today.to_owned());
    props.insert("DISCOVERED_FROM".to_owned(), src.to_owned());
    let h = IssueHeading {
        id: id.to_owned(),
        title: title.to_owned(),
        state: "TODO".to_owned(),
        priority,
        properties: props,
        property_order: Vec::new(),
        body: String::new(),
        logbook: Vec::new(),
        line_start: 0,
        line_end: 0,
    };
    proof {
        assert(props_view(h) =~= Map::<Seq<char>, Seq<char>>::empty().insert("ID"@, id@).insert("CREATED"@, today@).insert(
            "DISCOVERED_FROM"@,
            src@,
        ));
    }
    h
}

/// An issue that a reject makes the successor of `src`: it records `src` as
/// where it came from, unless it already names an origin.
pub fn discovered_from_if_empty(h: &mut IssueHeading, src: &str)
    ensures
        match crate::model::prop(*old(h), "DISCOVERED_FROM"@) {
            Some(v) => if trim(v).len() > 0 {
                *final(h) == *old(h)
            } else {
                props_view(*final(h)) == props_view(*old(h)).insert("DISCOVERED_FROM"@, src@)
            },
            None => props_view(*final(h)) == props_view(*old(h)).insert("DISCOVERED_FROM"@, src@),
        },
        final(h).id == old(h).id && final(h).title == old(h).title && final(h).state == old(h).state,
        final(h).priority == old(h).priority && final(h).body == old(h).body,
        final(h).logbook == old(h).logbook && final(h).property_order == old(h).property_order,
        final(h).line_start == old(h).line_start && final(h).line_end == old(h).line_end,
{
    let empty = match h.properties.get("DISCOVERED_FROM") {
        Some(v) => crate::text::trim_chars(&chars_of(v.as_str())).len() == 0,
        None => true,
    };
    if empty {
        h.properties.insert("DISCOVERED_FROM".to_owned(), src.to_owned());
        proof {
            assert(props_view(*h) =~= props_view(*old(h)).insert("DISCOVERED_FROM"@, src@));
        }
    }
}

fn is_terminal(s: &str) -> (r: bool)
    ensures
        r == terminal(s@),
{
    str_eq(s, "DONE") || str_eq(s, "CANCELLED")
}

fn priority_message(p: char) -> (r: String)
    ensures
        r@ == "invalid priority "@ + crate::rofi::debug_char_str(p) + "; allowed: A B C"@,
{
    let mut msg = String::new();
    msg.push_str("invalid priority ");
    msg.push_str(debug_char(p).as_str());
    msg.push_str("; allowed: A B C");
    msg
}

/// What an update changed, plus advice about issues left dangling by it.
#[derive(Debug, Clone)]
pub struct UpdateOutcome {
    /// One-line change summary, or `{id}: no change`.
    pub report: String,
    /// Issues that still list this one as a blocker after it closed.
    pub hints: Vec<String>,
}

/// An update's summary line for the notes it made, in order.
pub open spec fn report_text(id: Seq<char>, notes: Seq<Seq<char>>) -> Seq<char> {
    if notes.len() == 0 {
        id + ": no change\n"@
    } else {
        id + ": "@ + join(notes, ", "@) + "\n"@
    }
}

/// The summary line an update prints.
pub fn update_report(id: &str, notes: &Vec<String>) -> (r: String)
    ensures
        r@ == report_text(id@, notes@.map_values(|x: String| x@)),
{
    let mut out = id.to_owned();
    if notes.len() == 0 {
        out.push_str(": no change\n");
        return out;
    }
    out.push_str(": ");
    crate::report::push_joined(&mut out, notes, ", ");
    out.push_str("\n");
    out
}

/// The advice line for an open issue that still lists a closed one.
pub open spec fn hint_text(other: Seq<char>, project: Seq<char>, id: Seq<char>) -> Seq<char> {
    other + " (in "@ + project + ") lists this as a blocker; clear with `vissue update "@ + other
        + " --unblock "@ + id + "`"@
}

/// The advice for the first `n` rows after issue `id` closed: one line per
/// open issue still listing it as a blocker.
pub open spec fn hints_for(rows: Seq<(String, IssueHeading)>, id: Seq<char>, n: int) -> Seq<Seq<char>>
    decreases n,
{
    if n <= 0 {
        seq![]
    } else {
        let (p, h) = rows[n - 1];
        hints_for(rows, id, n - 1) + if crate::model::blockers(h).contains(id) && !terminal(h.state@) {
            seq![hint_text(h.id@, p@, id)]
        } else {
            seq![]
        }
    }
}

/// After issue `id` closed: the issues in `rows` that are still open and
/// still list it as a blocker, each as a line of advice.
pub fn closing_hints(rows: &[(String, IssueHeading)], id: &str) -> (r: Vec<String>)
    ensures
        r@.map_values(|x: String| x@) == hints_for(rows@, id@, rows.len() as int),
{
    let mut out: Vec<String> = Vec::new();
    let mut i: usize = 0;
    while i < rows.len()
        invariant
            i <= rows.len(),
            out@.map_values(|x: String| x@) == hints_for(rows@, id@, i as int),
        decreases rows.len() - i,
    {
        let (p, h) = (&rows[i].0, &rows[i].1);
        let ghost before = out@.map_values(|x: String| x@);
        let bs = h.blocked_by();
        if lists(&bs, id) && !is_terminal(h.state.as_str()) {
            let mut line = h.id.clone();
            line.push_str(" (in ");
            line.push_str(p.as_str());
            line.push_str(") lists this as a blocker; clear with `vissue update ");
            line.push_str(h.id.as_str());
            line.push_str(" --unblock ");
            line.push_str(id);
            line.push_str("`");
            out.push(line);
            assert(out@.map_values(|x: String| x@) =~= before.push(hint_text(h.id@, p@, id@)));
        } else {
            assert(out@.map_values(|x: String| x@) =~= before + Seq::<Seq<char>>::empty());
        }
        i = i + 1;
    }
    out
}

/// What an update of `id` tells its caller: the summary of the notes it
/// made, and, when it moved the heading from `before` to a closing state
/// `after`, the open issues in `rows` that still list it as a blocker.
pub fn update_outcome(
    id: &str,
    notes: &Vec<String>,
    before: &str,
    after: &str,
    rows: &[(String, IssueHeading)],
) -> (r: UpdateOutcome)
    ensures
        r.report@ == report_text(id@, notes@.map_values(|x: String| x@)),
        r.hints@.map_values(|x: String| x@) == if notes.len() > 0 && before@ != after@ && terminal(after@) {
            hints_for(rows@, id@, rows.len() as int)
        } else {
            Seq::<Seq<char>>::empty()
        },
{
    let report = update_report(id, notes);
    let hints = if notes.len() > 0 && !str_eq(before, after) && is_terminal(after) {
        closing_hints(rows, id)
    } else {
        let v: Vec<String> = Vec::new();
        assert(v@.map_values(|x: String| x@) =~= Seq::<Seq<char>>::empty());
        v
    };
    UpdateOutcome { report, hints }
}

/// A blocker id that reads back as itself from a blocker list: not empty,
/// and holding no comma or whitespace.
pub open spec fn plain_id(b: Seq<char>) -> bool {
    b.len() > 0 && forall|i: int| 0 <= i < b.len() ==> !blocker_sep(#[trigger] b[i])
}

proof fn lemma_split_plain(s: Seq<char>)
    requires
        forall|i: int| 0 <= i < s.len() ==> !blocker_sep(#[trigger] s[i]),
    ensures
        crate::model::split_by(s, |c: char| blocker_sep(c)) == seq![s],
    decreases s.len(),
{
    if s.len() > 0 {
        let t = s.drop_last();
        assert forall|i: int| 0 <= i < t.len() implies !blocker_sep(#[trigger] t[i]) by {
            assert(t[i] == s[i]);
        }
        lemma_split_plain(t);
        assert(!blocker_sep(s.last()));
        assert(t.push(s.last()) =~= s);
        assert(seq![t].update(0, t.push(s.last())) =~= seq![s]);
    } else {
        assert(s =~= Seq::<char>::empty());
    }
}

proof fn lemma_plain_reads_back(b: Seq<char>)
    requires
        plain_id(b),
    ensures
        fields(b, |c: char| blocker_sep(c)) == seq![b],
{
    lemma_split_plain(b);
    assert(!crate::text::is_ws(b[0]));
    assert(!crate::text::is_ws(b[b.len() - 1]));
    assert(crate::text::lead_ws(b, 0) == 0);
    assert(crate::text::trail_ws(b, b.len() as int) == b.len());
    assert(trim(b) =~= b);
    assert(seq![b].drop_last() =~= Seq::<Seq<char>>::empty());
    assert(seq![b].last() == b);
    assert(crate::model::trimmed_fields(Seq::<Seq<char>>::empty()) == Seq::<Seq<char>>::empty());
    assert(crate::model::trimmed_fields(seq![b]) =~= seq![b]);
}

/// Blocking an open issue (TODO or STARTED) that has no blockers on a plain
/// id moves it to BLOCKED; clearing that id then moves it to TODO, leaving
/// its properties as they were but for a claim, which leaving the states
/// that keep a claim gives up, the logbook keeping the two moves and the
/// claim released.
pub proof fn lemma_block_then_clear(d: Draft, b: Seq<char>, identity: Seq<char>, now: Seq<char>)
    requires
        d.state == "TODO"@ || d.state == "STARTED"@,
        !d.props.contains_key("BLOCKED_BY"@),
        plain_id(b),
    ensures
        stage_block(d, Some(b), false, now) is Ok,
        stage_block(d, Some(b), false, now)->Ok_0.state == "BLOCKED"@,
        stage_unblock(stage_block(d, Some(b), false, now)->Ok_0, Some(b), identity, now).state == "TODO"@,
        stage_unblock(stage_block(d, Some(b), false, now)->Ok_0, Some(b), identity, now).props == if d.props.contains_key(
            "CLAIMED_BY"@,
        ) {
            d.props.remove("CLAIMED_BY"@).remove("CLAIMED_AT"@)
        } else {
            d.props
        },
        stage_unblock(stage_block(d, Some(b), false, now)->Ok_0, Some(b), identity, now).log == {
            let moves = d.log.push(move_entry(d.state, "BLOCKED"@, now)).push(move_entry("BLOCKED"@, "TODO"@, now));
            if d.props.contains_key("CLAIMED_BY"@) {
                moves.push(
                    release_entry(
                        d.props["CLAIMED_BY"@],
                        if d.props.contains_key("CLAIMED_AT"@) {
                            Some(d.props["CLAIMED_AT"@])
                        } else {
                            None
                        },
                        now,
                    ),
                )
            } else {
                moves
            }
        },
{
    reveal_strlit("TODO");
    reveal_strlit("BLOCKED");
    reveal_strlit("STARTED");
    reveal_strlit("CLAIMED_BY");
    reveal_strlit("CLAIMED_AT");
    reveal_strlit("BLOCKED_BY");
    assert("TODO"@ != "STARTED"@) by {
        assert("TODO"@.len() != "STARTED"@.len());
    }
    assert("BLOCKED"@ != "STARTED"@) by {
        assert("BLOCKED"@[0] != "STARTED"@[0]);
    }
    assert("CLAIMED_BY"@ != "BLOCKED_BY"@) by {
        assert("CLAIMED_BY"@[0] != "BLOCKED_BY"@[0]);
    }
    assert("CLAIMED_AT"@ != "BLOCKED_BY"@) by {
        assert("CLAIMED_AT"@[0] != "BLOCKED_BY"@[0]);
    }
    assert("CLAIMED_AT"@ != "CLAIMED_BY"@) by {
        assert("CLAIMED_AT"@[8] != "CLAIMED_BY"@[8]);
    }
    assert(listed_blockers(d.props) == Seq::<Seq<char>>::empty());
    assert(seq![].push(b) =~= seq![b]);
    assert(join(seq![b], ","@) == b);
    let d1 = stage_block(d, Some(b), false, now)->Ok_0;
    lemma_plain_reads_back(b);
    assert(d1.props["BLOCKED_BY"@] == b);
    assert(listed_blockers(d1.props) == seq![b]);
    assert(seq![b].drop_last() =~= Seq::<Seq<char>>::empty());
    assert(seq![b].last() == b);
    assert(without(Seq::<Seq<char>>::empty(), b) == Seq::<Seq<char>>::empty());
    assert(without(seq![b], b) =~= Seq::<Seq<char>>::empty());
    assert(d1.props.remove("BLOCKED_BY"@) =~= d.props);
    assert("TODO"@ != "BLOCKED"@) by {
        assert("TODO"@.len() != "BLOCKED"@.len());
    }
    assert(keeps_claim("BLOCKED"@) && !keeps_claim("TODO"@));
    let d0 = Draft { props: d1.props.remove("BLOCKED_BY"@), ..d1 };
    assert(d0.state == "BLOCKED"@);
    let dm = noted(moved(d0, "TODO"@, now), Step::AutoUnblocked);
    assert(dm.props == d.props);
    let ds = settled_claim(dm, "BLOCKED"@, "TODO"@, identity, now);
    assert(stage_unblock(d1, Some(b), identity, now) == noted(ds, Step::BlockerCleared(b)));
    assert(d1.log == d.log.push(move_entry(d.state, "BLOCKED"@, now)));
    assert(dm.log == d1.log.push(move_entry("BLOCKED"@, "TODO"@, now)));
}

} // verus!

verus! {

/// An update that moves an unclaimed issue to STARTED claims it for the
/// mover, stamped with the time; one that moves a claimed issue out of
/// STARTED or BLOCKED to a state that keeps no claim releases the claim; a
/// move between STARTED and BLOCKED leaves a held claim as it was.
pub proof fn lemma_update_settles_claims(d: Draft, to: Seq<char>, identity: Seq<char>, now: Seq<char>)
    requires
        house_keywords().contains(to),
        d.state != to,
        !(terminal(d.state) && terminal(to)),
    ensures
        stage_state(d, Some(to), identity, now) is Ok,
        to == "STARTED"@ && !d.props.contains_key("CLAIMED_BY"@) ==> {
            let p = stage_state(d, Some(to), identity, now)->Ok_0.props;
            p.contains_key("CLAIMED_BY"@) && p["CLAIMED_BY"@] == identity && p.contains_key("CLAIMED_AT"@)
                && p["CLAIMED_AT"@] == now
        },
        keeps_claim(d.state) && !keeps_claim(to) ==> !stage_state(d, Some(to), identity, now)->Ok_0.props.contains_key(
            "CLAIMED_BY"@,
        ),
        keeps_claim(d.state) && keeps_claim(to) && d.props.contains_key("CLAIMED_BY"@) ==> stage_state(
            d,
            Some(to),
            identity,
            now,
        )->Ok_0.props == d.props,
{
    reveal_strlit("CLAIMED_BY");
    reveal_strlit("CLAIMED_AT");
    reveal_strlit("STARTED");
    reveal_strlit("BLOCKED");
    assert("CLAIMED_AT"@ != "CLAIMED_BY"@) by {
        assert("CLAIMED_AT"@[8] != "CLAIMED_BY"@[8]);
    }
}

/// How an update's state change treats closed states and claims. Between DONE
/// and CANCELLED the issue keeps its state and only records the sibling
/// terminal asked for; a claimed STARTED issue moved to TODO, DONE or
/// CANCELLED takes that state and gives the claim up; a claimed issue moved
/// between STARTED and BLOCKED keeps its claim untouched.
pub proof fn lemma_closed_and_claimed_moves(d: Draft, to: Seq<char>, identity: Seq<char>, now: Seq<char>)
    ensures
        (d.state == "DONE"@ && to == "CANCELLED"@) || (d.state == "CANCELLED"@ && to == "DONE"@) ==> {
            let r = stage_state(d, Some(to), identity, now);
            &&& r is Ok
            &&& r->Ok_0.state == d.state
            &&& r->Ok_0.props.contains_key("SIBLING_TERMINAL"@)
            &&& r->Ok_0.props["SIBLING_TERMINAL"@] == to
        },
        d.state == "STARTED"@ && d.props.contains_key("CLAIMED_BY"@) && (to == "TODO"@ || to == "DONE"@ || to
            == "CANCELLED"@) ==> {
            let r = stage_state(d, Some(to), identity, now);
            &&& r is Ok
            &&& r->Ok_0.state == to
            &&& !r->Ok_0.props.contains_key("CLAIMED_BY"@)
        },
        (d.state == "STARTED"@ && to == "BLOCKED"@) || (d.state == "BLOCKED"@ && to == "STARTED"@) ==> {
            let r = stage_state(d, Some(to), identity, now);
            &&& r is Ok
            &&& r->Ok_0.state == to
            &&& d.props.contains_key("CLAIMED_BY"@) ==> r->Ok_0.props == d.props
        },
{
    reveal_strlit("TODO");
    reveal_strlit("STARTED");
    reveal_strlit("BLOCKED");
    reveal_strlit("DONE");
    reveal_strlit("CANCELLED");
    reveal_strlit("CLAIMED_BY");
    reveal_strlit("CLAIMED_AT");
    assert("CLAIMED_AT"@ != "CLAIMED_BY"@) by {
        assert("CLAIMED_AT"@[8] != "CLAIMED_BY"@[8]);
    }
    assert("TODO"@.len() == 4 && "DONE"@.len() == 4 && "STARTED"@.len() == 7 && "BLOCKED"@.len() == 7
        && "CANCELLED"@.len() == 9);
    assert("TODO"@ != "DONE"@) by {
        assert("TODO"@[0] != "DONE"@[0]);
    }
    assert("STARTED"@ != "BLOCKED"@) by {
        assert("STARTED"@[0] != "BLOCKED"@[0]);
    }
    let hk = house_keywords();
    assert(hk[0] == "TODO"@ && hk[1] == "STARTED"@ && hk[2] == "BLOCKED"@ && hk[3] == "DONE"@ && hk[4]
        == "CANCELLED"@);
    if to == "TODO"@ {
        assert(hk.contains(to));
    } else if to == "STARTED"@ {
        assert(hk.contains(to));
    } else if to == "BLOCKED"@ {
        assert(hk.contains(to));
    } else if to == "DONE"@ {
        assert(hk.contains(to));
    } else if to == "CANCELLED"@ {
        assert(hk.contains(to));
    }
    if d.state == "STARTED"@ && d.props.contains_key("CLAIMED_BY"@) && (to == "TODO"@ || to == "DONE"@ || to
        == "CANCELLED"@) {
        let m = noted(moved(d, to, now), Step::State(d.state, to));
        assert(m.props == d.props);
        assert(keeps_claim(d.state) && !keeps_claim(to));
    }
}

} // verus!
