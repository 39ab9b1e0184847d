//! Listings and cards of single issues: the sorted list and the ready
//! list, an issue's detail card and claim note, and the rows an export
//! writes.
use vstd::prelude::*;

use crate::keys::{pad_right, push_padded};
use crate::model::{IssueHeading, blockers};
use crate::report::{
    in_project, is_open_state, is_ready_state, lemma_selection_restated, open_state, opt_str,
    push_signed, ready_state, signed_decimal, sort_selected, sorted_selection,
};
use crate::text::{decimal, decimal_chars, str_eq, string_of};

verus! {

/// Whether a row belongs in a listing with the given filters.
pub open spec fn listed(
    recs: Seq<(String, IssueHeading)>,
    row: (String, IssueHeading),
    project: Option<Seq<char>>,
    state: Option<Seq<char>>,
    ready_only: bool,
) -> bool {
    &&& (match project {
        Some(p) => row.0@ == p,
        None => true,
    })
    &&& (match state {
        Some(s) => row.1.state@ == s,
        None => true,
    })
    &&& (ready_only ==> crate::report::ready_in(recs, row.1))
}

/// One row of a listing: id in 22 columns, state in 9, the cookie, the title
/// and its claim suffix.
pub open spec fn row_line(row: (String, IssueHeading), suffix: Seq<char>) -> Seq<char> {
    pad_right(row.1.id@, 22) + " "@ + pad_right(row.1.state@, 9) + " [#"@ + seq![row.1.priority]
        + "]  "@ + row.1.title@ + suffix + "\n"@
}

/// The rows of `order`, each with the suffix at its own index.
pub open spec fn rows_text(rows: Seq<(String, IssueHeading)>, suffixes: Seq<String>, order: Seq<usize>) -> Seq<char>
    decreases order.len(),
{
    if order.len() == 0 {
        seq![]
    } else {
        rows_text(rows, suffixes, order.drop_last()) + row_line(
            rows[order.last() as int],
            suffixes[order.last() as int]@,
        )
    }
}

fn lists(
    recs: &[(String, IssueHeading)],
    row: &(String, IssueHeading),
    project: Option<&str>,
    state: Option<&str>,
    ready_only: bool,
) -> (r: bool)
    ensures
        r == listed(recs@, *row, opt_str(project), opt_str(state), ready_only),
{
    if let Some(p) = project {
        if !str_eq(row.0.as_str(), p) {
            return false;
        }
    }
    if let Some(s) = state {
        if !str_eq(row.1.state.as_str(), s) {
            return false;
        }
    }
    if ready_only {
        return crate::report::is_ready(recs, &row.1);
    }
    true
}

fn push_row_line(out: &mut String, row: &(String, IssueHeading), suffix: &str)
    ensures
        final(out)@ == old(out)@ + row_line(*row, suffix@),
{
    push_padded(out, row.1.id.as_str(), 22);
    out.push_str(" ");
    push_padded(out, row.1.state.as_str(), 9);
    out.push_str(" [#");
    out.push(row.1.priority);
    out.push_str("]  ");
    out.push_str(row.1.title.as_str());
    out.push_str(suffix);
    out.push_str("\n");
}

/// One row per issue, sorted by cookie, state and id: id, state, cookie,
/// title. `suffixes[i]` is the claim note shown after the title of row `i`
/// (empty for an unclaimed issue); it depends on today's date, so the caller
/// computes it.
pub fn list(
    recs: &[(String, IssueHeading)],
    project_filter: Option<&str>,
    state_filter: Option<&str>,
    ready_only: bool,
    suffixes: &[String],
) -> (r: String)
    requires
        suffixes.len() == recs.len(),
    ensures
        exists|order: Seq<usize>|
            sorted_selection(
                recs@,
                |i: int| listed(recs@, recs@[i], opt_str(project_filter), opt_str(state_filter), ready_only),
                order,
            ) && r@ == rows_text(recs@, suffixes@, order),
{
    let ghost keep = |i: int|
        listed(recs@, recs@[i], opt_str(project_filter), opt_str(state_filter), ready_only);
    let mut sel: Vec<usize> = Vec::new();
    let mut i: usize = 0;
    while i < recs.len()
        invariant
            i <= recs.len(),
            keep == (|i: int|
                listed(recs@, recs@[i], opt_str(project_filter), opt_str(state_filter), ready_only)),
            forall|a: int, b: int| 0 <= a < b < sel.len() ==> #[trigger] sel@[a] < #[trigger] sel@[b],
            forall|k: int| 0 <= k < sel.len() ==> #[trigger] sel@[k] < i,
            forall|m: int| 0 <= m < i ==> (sel@.contains(m as usize) <==> #[trigger] keep(m)),
        decreases recs.len() - i,
    {
        if lists(recs, &recs[i], project_filter, state_filter, ready_only) {
            let ghost before = sel@;
            sel.push(i);
            proof {
                assert forall|m: int| 0 <= m < i + 1 implies (sel@.contains(m as usize) <==> #[trigger] keep(m)) by {
                    if sel@.contains(m as usize) && m < i {
                        let k = choose|k: int| 0 <= k < sel@.len() && sel@[k] == m as usize;
                        assert(k < before.len());
                        assert(before.contains(m as usize));
                    }
                    if m < i && before.contains(m as usize) {
                        let k = choose|k: int| 0 <= k < before.len() && before[k] == m as usize;
                        assert(sel@[k] == m as usize);
                    }
                    if m == i {
                        assert(sel@[before.len() as int] == i);
                    }
                }
            }
        } else {
            proof {
                assert forall|m: int| 0 <= m < i + 1 implies (sel@.contains(m as usize) <==> #[trigger] keep(m)) by {
                    if m == i && sel@.contains(m as usize) {
                        let k = choose|k: int| 0 <= k < sel@.len() && sel@[k] == m as usize;
                        assert(sel@[k] < i);
                    }
                }
            }
        }
        i = i + 1;
    }
    let order = sort_selected(recs, &sel);
    let mut out = String::new();
    let mut k: usize = 0;
    while k < order.len()
        invariant
            k <= order.len(),
            suffixes.len() == recs.len(),
            forall|m: int| 0 <= m < order.len() ==> #[trigger] order@[m] < recs.len(),
            out@ == rows_text(recs@, suffixes@, order@.take(k as int)),
        decreases order.len() - k,
    {
        proof {
            assert(order@.take(k + 1).drop_last() =~= order@.take(k as int));
            assert(order@.take(k + 1).last() == order@[k as int]);
        }
        let j = order[k];
        push_row_line(&mut out, &recs[j], suffixes[j].as_str());
        k = k + 1;
    }
    proof {
        assert(order@.take(order.len() as int) =~= order@);
        let chosen = |i: int| sel@.contains(i as usize);
        lemma_selection_restated(recs@, chosen, keep, order@);
    }
    out
}

/// The note after a claimed issue's title in a listing, from who holds it
/// and, when the claim's date reads, how many days ago it was taken.
pub open spec fn claim_note(claimed_by: Option<Seq<char>>, age_days: Option<int>) -> Seq<char> {
    match claimed_by {
        None => seq![],
        Some(who) => match age_days {
            Some(d) => "  (claimed "@ + signed_decimal(d) + "d by "@ + who + ")"@,
            None => "  (claimed by "@ + who + ")"@,
        },
    }
}

/// ` (claimed 3d by <identity>)`, or nothing when no one holds the issue.
/// Only a claimed issue grows the suffix, so an unclaimed corpus renders
/// exactly as it did before claims existed. `age_days` counts from the
/// claim's date to today, which the caller reads from the clock.
pub fn claim_suffix(claimed_by: Option<&str>, age_days: Option<i64>) -> (r: String)
    ensures
        r@ == claim_note(
            match claimed_by {
                Some(w) => Some(w@),
                None => None,
            },
            match age_days {
                Some(d) => Some(d as int),
                None => None,
            },
        ),
{
    let mut out = String::new();
    match claimed_by {
        None => {},
        Some(who) => match age_days {
            Some(d) => {
                out.push_str("  (claimed ");
                push_signed(&mut out, d);
                out.push_str("d by ");
                out.push_str(who);
                out.push_str(")");
            },
            None => {
                out.push_str("  (claimed by ");
                out.push_str(who);
                out.push_str(")");
            },
        },
    }
    proof {
        if claimed_by is None {
            assert(out@ =~= Seq::<char>::empty());
        }
    }
    out
}

/// The claim line of a detail card: who holds the issue and, when the
/// claim's age is known, since when and how many days.
pub open spec fn claim_line(who: Seq<char>, claimed_at: Option<Seq<char>>, age_days: Option<int>) -> Seq<char> {
    match age_days {
        Some(d) => "Claimed:  "@ + who + " since "@ + match claimed_at {
            Some(at) => at,
            None => "?"@,
        } + " ("@ + signed_decimal(d) + "d)\n"@,
        None => "Claimed:  "@ + who + "\n"@,
    }
}

/// The drawer lines of a detail card, `ID` left out, keys ascending.
pub open spec fn detail_props(keys: Seq<Seq<char>>, vals: Seq<String>) -> Seq<char>
    decreases keys.len(),
{
    if keys.len() == 0 || vals.len() == 0 {
        seq![]
    } else {
        detail_props(keys.drop_last(), vals.drop_last()) + if keys.last() == "ID"@ {
            seq![]
        } else {
            "  "@ + keys.last() + ": "@ + vals.last()@ + "\n"@
        }
    }
}

/// The first lines of a detail card: id, project, title, state, cookie.
pub open spec fn detail_head(h: IssueHeading, project: Seq<char>) -> Seq<char> {
    "ID:       "@ + h.id@ + "\n"@ + "Project:  "@ + project + "\n"@ + "Title:    "@ + h.title@ + "\n"@
        + "State:    "@ + h.state@ + "\n"@ + "Priority: [#"@ + seq![h.priority] + "]\n"@
}

/// The drawer part of a detail card: nothing when the drawer holds only the
/// id.
pub open spec fn detail_drawer(h: IssueHeading) -> Seq<char> {
    let keys = h.properties.key_seq();
    if exists|k: int| 0 <= k < keys.len() && #[trigger] keys[k] != "ID"@ {
        "Properties:\n"@ + detail_props(keys, h.properties.value_seq())
    } else {
        seq![]
    }
}

/// The last lines of a detail card: where the body lives.
pub open spec fn detail_tail(h: IssueHeading, path: Seq<char>) -> Seq<char> {
    "File:     "@ + path + ":"@ + decimal(h.line_start as nat) + "-"@ + decimal(h.line_end as nat)
        + "\n"@ + "\n"@ + "(body lives in file; open the range above to read or edit)\n"@
}

/// One issue's detail card: its metadata, its claim, its drawer and the
/// file range its body lives in.
pub open spec fn detail_text(
    h: IssueHeading,
    project: Seq<char>,
    path: Seq<char>,
    claim: Option<(Seq<char>, Option<Seq<char>>, Option<int>)>,
) -> Seq<char> {
    detail_head(h, project) + match claim {
        Some((who, at, age)) => claim_line(who, at, age),
        None => seq![],
    } + detail_drawer(h) + detail_tail(h, path)
}

fn push_detail_props(out: &mut String, h: &IssueHeading) -> (any: bool)
    ensures
        h.properties.shaped(),
        final(out)@ == old(out)@ + detail_props(h.properties.key_seq(), h.properties.value_seq()),
        any == exists|k: int| 0 <= k < h.properties.key_seq().len() && #[trigger] h.properties.key_seq()[k] != "ID"@,
{
    let n = h.properties.len();
    let ghost ks = h.properties.key_seq();
    let ghost vs = h.properties.value_seq();
    let mut any = false;
    let mut i: usize = 0;
    while i < n
        invariant
            i <= n,
            n == ks.len(),
            ks == h.properties.key_seq(),
            vs == h.properties.value_seq(),
            h.properties.shaped(),
            out@ == old(out)@ + detail_props(ks.take(i as int), vs.take(i as int)),
            any == exists|k: int| 0 <= k < i && #[trigger] ks[k] != "ID"@,
        decreases n - i,
    {
        proof {
            assert(ks.take(i + 1).drop_last() =~= ks.take(i as int));
            assert(vs.take(i + 1).drop_last() =~= vs.take(i as int));
            assert(ks.take(i + 1).last() == ks[i as int]);
            assert(vs.take(i + 1).last() == vs[i as int]);
        }
        let k = h.properties.key_at(i);
        let v = h.properties.value_at(i);
        if !str_eq(k.as_str(), "ID") {
            out.push_str("  ");
            out.push_str(k.as_str());
            out.push_str(": ");
            out.push_str(v.as_str());
            out.push_str("\n");
            any = true;
        }
        i = i + 1;
    }
    proof {
        assert(ks.take(n as int) =~= ks);
        assert(vs.take(n as int) =~= vs);
    }
    any
}

fn push_detail_head(out: &mut String, h: &IssueHeading, project: &str)
    ensures
        final(out)@ == old(out)@ + detail_head(*h, project@),
{
    out.push_str("ID:       ");
    out.push_str(h.id.as_str());
    out.push_str("\n");
    out.push_str("Project:  ");
    out.push_str(project);
    out.push_str("\n");
    out.push_str("Title:    ");
    out.push_str(h.title.as_str());
    out.push_str("\n");
    out.push_str("State:    ");
    out.push_str(h.state.as_str());
    out.push_str("\n");
    out.push_str("Priority: [#");
    out.push(h.priority);
    out.push_str("]\n");
}

fn push_claim_line(out: &mut String, who: &str, at: Option<&str>, age: Option<i64>)
    ensures
        final(out)@ == old(out)@ + claim_line(
            who@,
            match at {
                Some(a) => Some(a@),
                None => None,
            },
            match age {
                Some(d) => Some(d as int),
                None => None,
            },
        ),
{
    match age {
        Some(d) => {
            out.push_str("Claimed:  ");
            out.push_str(who);
            out.push_str(" since ");
            match at {
                Some(a) => out.push_str(a),
                None => out.push_str("?"),
            }
            out.push_str(" (");
            push_signed(out, d);
            out.push_str("d)\n");
        },
        None => {
            out.push_str("Claimed:  ");
            out.push_str(who);
            out.push_str("\n");
        },
    }
}

fn push_detail_tail(out: &mut String, h: &IssueHeading, path: &str)
    ensures
        final(out)@ == old(out)@ + detail_tail(*h, path@),
{
    out.push_str("File:     ");
    out.push_str(path);
    out.push_str(":");
    out.push_str(string_of(&decimal_chars(h.line_start as u64)).as_str());
    out.push_str("-");
    out.push_str(string_of(&decimal_chars(h.line_end as u64)).as_str());
    out.push_str("\n");
    out.push_str("\n");
    out.push_str("(body lives in file; open the range above to read or edit)\n");
}

/// One issue's detail card, given the heading found for the id, its project
/// and the file it lives in, and its claim (holder, the claim's stamp, and
/// the claim's age in days when its date reads). The body stays in the file:
/// an editor opens the range when the prose is wanted.
pub fn show(
    h: &IssueHeading,
    project: &str,
    path: &str,
    claim: Option<(&str, Option<&str>, Option<i64>)>,
) -> (r: String)
    ensures
        r@ == detail_text(
            *h,
            project@,
            path@,
            match claim {
                Some((who, at, age)) => Some(
                    (
                        who@,
                        match at {
                            Some(a) => Some(a@),
                            None => None,
                        },
                        match age {
                            Some(d) => Some(d as int),
                            None => None,
                        },
                    ),
                ),
                None => None,
            },
        ),
{
    let mut out = String::new();
    push_detail_head(&mut out, h, project);
    let ghost head = out@;
    match claim {
        Some((who, at, age)) => push_claim_line(&mut out, who, at, age),
        None => {
            assert(out@ =~= head + Seq::<char>::empty());
        },
    }
    let ghost mid = out@;
    let mut drawer = String::new();
    let any = push_detail_props(&mut drawer, h);
    if any {
        out.push_str("Properties:\n");
        out.push_str(drawer.as_str());
        assert(out@ =~= mid + detail_drawer(*h));
    } else {
        assert(out@ =~= mid + detail_drawer(*h));
    }
    let ghost before_tail = out@;
    push_detail_tail(&mut out, h, path);
    assert(out@ =~= before_tail + detail_tail(*h, path@));
    out
}

/// Actionable issues: TODO or STARTED with no open blocker anywhere in the
/// corpus, listed as [`list`] lists them.
pub fn ready(recs: &[(String, IssueHeading)], project_filter: Option<&str>, suffixes: &[String]) -> (r: String)
    requires
        suffixes.len() == recs.len(),
    ensures
        exists|order: Seq<usize>|
            sorted_selection(
                recs@,
                |i: int| listed(recs@, recs@[i], opt_str(project_filter), None, true),
                order,
            ) && r@ == rows_text(recs@, suffixes@, order),
{
    list(recs, project_filter, None, true, suffixes)
}

/// One logbook line of an exported row.
pub struct ExportEntry {
    pub timestamp: String,
    pub from: Option<String>,
    pub to: Option<String>,
    pub note: Option<String>,
}

/// One exported issue: every property, the logbook, the body and the file
/// line range. A caller writes it as one JSON object per line.
pub struct ExportRow {
    pub id: String,
    pub project: String,
    pub title: String,
    pub state: String,
    pub priority: String,
    /// The drawer, keys ascending.
    pub properties: Vec<(String, String)>,
    pub logbook: Vec<ExportEntry>,
    pub body: String,
    pub line_start: usize,
    pub line_end: usize,
}

/// The keys of a list of pairs.
pub open spec fn pair_keys(v: Seq<(String, String)>) -> Seq<Seq<char>> {
    v.map_values(|e: (String, String)| e.0@)
}

/// The values of a list of pairs.
pub open spec fn pair_values(v: Seq<(String, String)>) -> Seq<Seq<char>> {
    v.map_values(|e: (String, String)| e.1@)
}

/// Whether an exported logbook line carries a logbook entry.
pub open spec fn exports_entry(x: ExportEntry, e: crate::model::LogEntry) -> bool {
    &&& x.timestamp@ == e.timestamp@
    &&& crate::model::opt_text(x.from) == crate::model::opt_text(e.from_state)
    &&& crate::model::opt_text(x.to) == crate::model::opt_text(e.to_state)
    &&& crate::model::opt_text(x.note) == crate::model::opt_text(e.note)
}

/// Whether an exported row carries a corpus row.
pub open spec fn exports_row(x: ExportRow, row: (String, IssueHeading)) -> bool {
    let h = row.1;
    &&& x.id@ == h.id@
    &&& x.project@ == row.0@
    &&& x.title@ == h.title@
    &&& x.state@ == h.state@
    &&& x.priority@ == seq![h.priority]
    &&& pair_keys(x.properties@) == h.properties.key_seq()
    &&& pair_values(x.properties@) == h.properties.value_seq().map_values(
        |v: String| v@,
    )
    &&& x.logbook@.len() == h.logbook@.len()
    &&& forall|k: int| 0 <= k < x.logbook@.len() ==> exports_entry(#[trigger] x.logbook@[k], h.logbook@[k])
    &&& x.body@ == h.body@
    &&& x.line_start == h.line_start
    &&& x.line_end == h.line_end
}

fn copy_opt(o: &Option<String>) -> (r: Option<String>)
    ensures
        crate::model::opt_text(r) == crate::model::opt_text(*o),
{
    match o {
        Some(s) => Some(s.clone()),
        None => None,
    }
}

fn export_row(row: &(String, IssueHeading)) -> (x: ExportRow)
    ensures
        exports_row(x, *row),
{
    let h = &row.1;
    let n = h.properties.len();
    let mut props: Vec<(String, String)> = Vec::new();
    let mut i: usize = 0;
    while i < n
        invariant
            i <= n,
            n == h.properties.key_seq().len(),
            h.properties.shaped(),
            pair_keys(props@) == h.properties.key_seq().take(i as int),
            pair_values(props@) == h.properties.value_seq().map_values(
                |v: String| v@,
            ).take(i as int),
        decreases n - i,
    {
        let kr = h.properties.key_at(i);
        let vr = h.properties.value_at(i);
        let k = kr.clone();
        let v = vr.clone();
        assert(k@ == h.properties.key_seq()[i as int]);
        assert(v@ == h.properties.value_seq()[i as int]@);
        let ghost before = props@;
        props.push((k, v));
        proof {
            assert(props@ == before.push((k, v)));
            let ks = h.properties.key_seq();
            assert(pair_keys(before).len() == before.len());
            assert(ks.take(i as int).len() == i);
            assert(before.len() == i);
            assert forall|m: int| 0 <= m < i + 1 implies #[trigger] pair_keys(props@)[m]
                == ks.take(i + 1)[m] by {
                if m < i {
                    assert(pair_keys(before)[m] == ks.take(i as int)[m]);
                    assert(props@[m] == before[m]);
                }
            }
            assert(pair_keys(props@) =~= h.properties.key_seq().take(i + 1));
            let vs = h.properties.value_seq().map_values(|v: String| v@);
            assert forall|m: int| 0 <= m < i + 1 implies #[trigger] pair_values(props@)[m] == vs.take(i + 1)[m] by {
                if m < i {
                    assert(pair_values(before)[m] == vs.take(i as int)[m]);
                    assert(props@[m] == before[m]);
                }
            }
            assert(pair_values(props@) =~= h.properties.value_seq().map_values(
                |v: String| v@,
            ).take(i + 1));
        }
        i = i + 1;
    }
    proof {
        assert(h.properties.key_seq().take(n as int) =~= h.properties.key_seq());
        assert(h.properties.value_seq().map_values(|v: String| v@).take(n as int) =~= h.properties.value_seq().map_values(
            |v: String| v@,
        ));
    }
    let mut log: Vec<ExportEntry> = Vec::new();
    let mut j: usize = 0;
    while j < h.logbook.len()
        invariant
            j <= h.logbook.len(),
            log@.len() == j,
            forall|k: int| 0 <= k < j ==> exports_entry(#[trigger] log@[k], h.logbook@[k]),
        decreases h.logbook.len() - j,
    {
        let e = &h.logbook[j];
        log.push(ExportEntry {
            timestamp: e.timestamp.clone(),
            from: copy_opt(&e.from_state),
            to: copy_opt(&e.to_state),
            note: copy_opt(&e.note),
        });
        j = j + 1;
    }
    let mut priority = String::new();
    priority.push(h.priority);
    ExportRow {
        id: h.id.clone(),
        project: row.0.clone(),
        title: h.title.clone(),
        state: h.state.clone(),
        priority,
        properties: props,
        logbook: log,
        body: h.body.clone(),
        line_start: h.line_start,
        line_end: h.line_end,
    }
}

/// Every row of the project (of every project when none is given), in
/// corpus order, ready to write one JSON object per line.
pub fn export(recs: &[(String, IssueHeading)], project_filter: Option<&str>) -> (r: Vec<ExportRow>)
    ensures
        r@.len() == recs@.filter(|row: (String, IssueHeading)| in_project(row, opt_str(project_filter))).len(),
        forall|k: int|
            0 <= k < r@.len() ==> exports_row(
                #[trigger] r@[k],
                recs@.filter(|row: (String, IssueHeading)| in_project(row, opt_str(project_filter)))[k],
            ),
{
    let ghost keep = |row: (String, IssueHeading)| in_project(row, opt_str(project_filter));
    let mut out: Vec<ExportRow> = Vec::new();
    let mut i: usize = 0;
    while i < recs.len()
        invariant
            i <= recs.len(),
            keep == (|row: (String, IssueHeading)| in_project(row, opt_str(project_filter))),
            out@.len() == recs@.take(i as int).filter(keep).len(),
            forall|k: int| 0 <= k < out@.len() ==> exports_row(#[trigger] out@[k], recs@.take(i as int).filter(keep)[k]),
        decreases recs.len() - i,
    {
        proof {
            assert(recs@.take(i + 1).drop_last() =~= recs@.take(i as int));
            assert(recs@.take(i + 1).last() == recs@[i as int]);
            reveal(Seq::filter);
        }
        let hit = match project_filter {
            Some(p) => str_eq(recs[i].0.as_str(), p),
            None => true,
        };
        if hit {
            let x = export_row(&recs[i]);
            out.push(x);
        }
        i = i + 1;
    }
    assert(recs@.take(recs.len() as int) =~= recs@);
    out
}

} // verus!

verus! {

/// `ready` and `count` with readiness on agree row by row: `ready` lists an
/// issue exactly when `count` counts it, and that is when it is TODO or
/// STARTED and none of its blockers is an open issue anywhere in the corpus.
pub proof fn lemma_ready_agrees_with_count(
    recs: Seq<(String, IssueHeading)>,
    project: Option<Seq<char>>,
    order: Seq<usize>,
    i: int,
)
    requires
        sorted_selection(recs, |j: int| listed(recs, recs[j], project, None, true), order),
        0 <= i < recs.len(),
    ensures
        (exists|k: int| 0 <= k < order.len() && order[k] == i) <==> crate::report::counted(
            recs,
            recs[i],
            project,
            None,
            true,
        ),
        crate::report::counted(recs, recs[i], project, None, true) ==> crate::report::ready_state(recs[i].1.state@)
            && forall|k: int|
            0 <= k < crate::model::blockers(recs[i].1).len() ==> !crate::report::active_id(
                recs,
                #[trigger] crate::model::blockers(recs[i].1)[k],
            ),
{
    let keep = |j: int| listed(recs, recs[j], project, None, true);
    if crate::report::counted(recs, recs[i], project, None, true) {
        assert(keep(i));
    }
    if exists|k: int| 0 <= k < order.len() && order[k] == i {
        let k = choose|k: int| 0 <= k < order.len() && order[k] == i;
        assert(keep(order[k] as int));
    }
}

/// A finished blocker never holds an issue back. An issue in TODO or STARTED,
/// in the project asked for, each of whose blocker ids names only DONE or
/// CANCELLED headings of the corpus (or none at all), is listed by `ready`
/// and counted by `count` with readiness, so that count is at least one.
pub proof fn lemma_finished_blockers_free(
    recs: Seq<(String, IssueHeading)>,
    project: Option<Seq<char>>,
    order: Seq<usize>,
    i: int,
)
    requires
        sorted_selection(recs, |j: int| listed(recs, recs[j], project, None, true), order),
        0 <= i < recs.len(),
        recs[i].1.state@ == "TODO"@ || recs[i].1.state@ == "STARTED"@,
        match project {
            Some(p) => recs[i].0@ == p,
            None => true,
        },
        forall|k: int, j: int|
            0 <= k < blockers(recs[i].1).len() && 0 <= j < recs.len() && recs[j].1.id@ == #[trigger] blockers(
                recs[i].1,
            )[k] ==> #[trigger] recs[j].1.state@ == "DONE"@ || recs[j].1.state@ == "CANCELLED"@,
    ensures
        exists|k: int| 0 <= k < order.len() && order[k] == i,
        crate::report::counted(recs, recs[i], project, None, true),
        crate::report::count_of(recs, recs, project, None, true) >= 1,
{
    assert forall|k: int| 0 <= k < blockers(recs[i].1).len() implies !crate::report::active_id(
        recs,
        #[trigger] blockers(recs[i].1)[k],
    ) by {
        if crate::report::active_id(recs, blockers(recs[i].1)[k]) {
            let j = choose|j: int|
                0 <= j < recs.len() && open_state(recs[j].1.state@) && #[trigger] recs[j].1.id@
                    == blockers(recs[i].1)[k];
            assert(recs[j].1.state@ == "DONE"@ || recs[j].1.state@ == "CANCELLED"@);
        }
    }
    assert(crate::report::counted(recs, recs[i], project, None, true));
    lemma_ready_agrees_with_count(recs, project, order, i);
    crate::report::lemma_counted_row_counts(recs, recs, project, None, true, i);
}

/// An open blocker holds an issue back. When one of an issue's blocker ids
/// names a heading of the corpus that is neither DONE nor CANCELLED, `ready`
/// leaves the issue out and `count` with readiness does not count it.
pub proof fn lemma_open_blocker_holds(
    recs: Seq<(String, IssueHeading)>,
    project: Option<Seq<char>>,
    order: Seq<usize>,
    i: int,
    k: int,
    j: int,
)
    requires
        sorted_selection(recs, |m: int| listed(recs, recs[m], project, None, true), order),
        0 <= i < recs.len(),
        0 <= k < blockers(recs[i].1).len(),
        0 <= j < recs.len(),
        recs[j].1.id@ == blockers(recs[i].1)[k],
        recs[j].1.state@ != "DONE"@,
        recs[j].1.state@ != "CANCELLED"@,
    ensures
        !exists|m: int| 0 <= m < order.len() && order[m] == i,
        !crate::report::counted(recs, recs[i], project, None, true),
{
    assert(crate::report::active_id(recs, blockers(recs[i].1)[k]));
    lemma_ready_agrees_with_count(recs, project, order, i);
}

/// `ready` lists only issues in TODO or STARTED; BLOCKED, DONE and
/// CANCELLED issues never appear in it.
pub proof fn lemma_ready_lists_workable(
    recs: Seq<(String, IssueHeading)>,
    project: Option<Seq<char>>,
    order: Seq<usize>,
    k: int,
)
    requires
        sorted_selection(recs, |m: int| listed(recs, recs[m], project, None, true), order),
        0 <= k < order.len(),
    ensures
        recs[order[k] as int].1.state@ == "TODO"@ || recs[order[k] as int].1.state@ == "STARTED"@,
{
    assert(listed(recs, recs[order[k] as int], project, None, true));
}

} // verus!
