//! Read-only verbs over a loaded corpus. Each returns its text instead of
//! printing, so a command line, a socket server and a library caller share
//! one implementation. The corpus is the list of `(project, heading)` pairs
//! in load order.
use vstd::prelude::*;

pub use crate::cycles::cycles;
pub use crate::listing::{
    ExportEntry, ExportRow, claim_suffix, export, list, ready, show,
};
pub use crate::tree::tree;
use crate::keys::{pad_right, push_padded};
use crate::model::{IssueHeading, blockers, prop};
use crate::text::{chars_of, decimal, decimal_chars, find_from, find_seq, str_eq, string_of};
use crate::textmap::{
    TextMap, lemma_text_lt_asymmetric, lemma_text_lt_irreflexive, lemma_text_lt_total,
    lemma_text_lt_transitive, text_less, text_lt,
};

verus! {

/// A state an issue can be worked from once its blockers clear.
pub open spec fn ready_state(s: Seq<char>) -> bool {
    s == "TODO"@ || s == "STARTED"@
}

/// A state that is still open.
pub open spec fn open_state(s: Seq<char>) -> bool {
    s != "DONE"@ && s != "CANCELLED"@
}

/// Whether some open heading in the corpus has id `b`.
pub open spec fn active_id(recs: Seq<(String, IssueHeading)>, b: Seq<char>) -> bool {
    exists|j: int|
        0 <= j < recs.len() && open_state(recs[j].1.state@) && #[trigger] recs[j].1.id@ == b
}

/// Whether a heading is ready: a ready state, and no blocker open in `recs`.
pub open spec fn ready_in(recs: Seq<(String, IssueHeading)>, h: IssueHeading) -> bool {
    &&& ready_state(h.state@)
    &&& forall|k: int| 0 <= k < blockers(h).len() ==> !active_id(recs, #[trigger] blockers(h)[k])
}

/// Whether a row passes the project, state and readiness filters.
pub open spec fn counted(
    recs: Seq<(String, IssueHeading)>,
    row: (String, IssueHeading),
    project: Option<Seq<char>>,
    state: Option<Seq<char>>,
    ready_only: bool,
) -> bool {
    &&& (match project {
        Some(p) => row.0@ == p,
        None => true,
    })
    &&& (match state {
        Some(s) => row.1.state@ == s,
        None => true,
    })
    &&& (ready_only ==> ready_in(recs, row.1))
}

/// How many of `rows` pass the filters.
pub open spec fn count_of(
    recs: Seq<(String, IssueHeading)>,
    rows: Seq<(String, IssueHeading)>,
    project: Option<Seq<char>>,
    state: Option<Seq<char>>,
    ready_only: bool,
) -> nat
    decreases rows.len(),
{
    if rows.len() == 0 {
        0
    } else {
        count_of(recs, rows.drop_last(), project, state, ready_only) + if counted(
            recs,
            rows.last(),
            project,
            state,
            ready_only,
        ) {
            1nat
        } else {
            0nat
        }
    }
}

/// A row that passes the filters adds one to the count of any rows holding it.
pub proof fn lemma_counted_row_counts(
    recs: Seq<(String, IssueHeading)>,
    rows: Seq<(String, IssueHeading)>,
    project: Option<Seq<char>>,
    state: Option<Seq<char>>,
    ready_only: bool,
    i: int,
)
    requires
        0 <= i < rows.len(),
        counted(recs, rows[i], project, state, ready_only),
    ensures
        count_of(recs, rows, project, state, ready_only) >= 1,
    decreases rows.len(),
{
    if i < rows.len() - 1 {
        lemma_counted_row_counts(recs, rows.drop_last(), project, state, ready_only, i);
    }
}

/// The text of an optional string slice.
pub open spec fn opt_str(o: Option<&str>) -> Option<Seq<char>> {
    match o {
        Some(s) => Some(s@),
        None => None,
    }
}

pub(crate) fn is_open_state(s: &str) -> (r: bool)
    ensures
        r == open_state(s@),
{
    !str_eq(s, "DONE") && !str_eq(s, "CANCELLED")
}

pub(crate) fn is_ready_state(s: &str) -> (r: bool)
    ensures
        r == ready_state(s@),
{
    str_eq(s, "TODO") || str_eq(s, "STARTED")
}

/// Whether some open heading in the corpus has id `b`.
fn is_active(recs: &[(String, IssueHeading)], b: &str) -> (r: bool)
    ensures
        r == active_id(recs@, b@),
{
    let mut j: usize = 0;
    while j < recs.len()
        invariant
            j <= recs.len(),
            forall|k: int|
                0 <= k < j ==> !(open_state(recs@[k].1.state@) && #[trigger] recs@[k].1.id@ == b@),
        decreases recs.len() - j,
    {
        if is_open_state(recs[j].1.state.as_str()) && str_eq(recs[j].1.id.as_str(), b) {
            return true;
        }
        j = j + 1;
    }
    false
}

/// Whether a heading is ready within the corpus.
pub(crate) fn is_ready(recs: &[(String, IssueHeading)], h: &IssueHeading) -> (r: bool)
    ensures
        r == ready_in(recs@, *h),
{
    if !is_ready_state(h.state.as_str()) {
        return false;
    }
    let bs = h.blocked_by();
    let ghost bv = bs@.map_values(|x: String| x@);
    let mut k: usize = 0;
    while k < bs.len()
        invariant
            k <= bs.len(),
            bv == bs@.map_values(|x: String| x@),
            bv == blockers(*h),
            forall|m: int| 0 <= m < k ==> !active_id(recs@, #[trigger] blockers(*h)[m]),
        decreases bs.len() - k,
    {
        assert(bv[k as int] == bs@[k as int]@);
        if is_active(recs, bs[k].as_str()) {
            return false;
        }
        k = k + 1;
    }
    true
}

/// Whether a row passes the filters.
fn passes(
    recs: &[(String, IssueHeading)],
    row: &(String, IssueHeading),
    project: Option<&str>,
    state: Option<&str>,
    ready_only: bool,
) -> (r: bool)
    ensures
        r == counted(recs@, *row, opt_str(project), opt_str(state), ready_only),
{
    if let Some(p) = project {
        if !str_eq(row.0.as_str(), p) {
            return false;
        }
    }
    if let Some(s) = state {
        if !str_eq(row.1.state.as_str(), s) {
            return false;
        }
    }
    if ready_only {
        return is_ready(recs, &row.1);
    }
    true
}

/// The matching issue count and a newline, for shell pipelines.
pub fn count(
    recs: &[(String, IssueHeading)],
    project_filter: Option<&str>,
    state_filter: Option<&str>,
    ready_only: bool,
) -> (r: String)
    ensures
        r@ == decimal(
            count_of(recs@, recs@, opt_str(project_filter), opt_str(state_filter), ready_only),
        ) + "\n"@,
{
    let mut n: u64 = 0;
    let mut i: usize = 0;
    while i < recs.len()
        invariant
            i <= recs.len(),
            n == count_of(
                recs@,
                recs@.take(i as int),
                opt_str(project_filter),
                opt_str(state_filter),
                ready_only,
            ),
            n <= i,
        decreases recs.len() - i,
    {
        proof {
            assert(recs@.take(i + 1).drop_last() =~= recs@.take(i as int));
            assert(recs@.take(i + 1).last() == recs@[i as int]);
        }
        if passes(recs, &recs[i], project_filter, state_filter, ready_only) {
            n = n + 1;
        }
        i = i + 1;
    }
    assert(recs@.take(recs.len() as int) =~= recs@);
    let mut out = string_of(&decimal_chars(n));
    out.push_str("\n");
    out
}

/// The backlink lines of one heading that refers to `target`.
pub open spec fn backlink_lines(row: (String, IssueHeading), target: Seq<char>) -> Seq<char> {
    let h = row.1;
    let id = pad_right(h.id@, 22);
    let tail = ") ("@ + row.0@ + ")\n"@;
    if h.id@ == target {
        seq![]
    } else {
        let by_block = blockers(h).contains(target);
        let by_parent = prop(h, "PARENT"@) == Some(target);
        let by_origin = prop(h, "DISCOVERED_FROM"@) == Some(target);
        let by_pivot = prop(h, "PIVOTED_TO"@) == Some(target);
        (if by_block {
            id + " (blocked-by"@ + tail
        } else {
            seq![]
        }) + (if by_parent {
            id + " (parent"@ + tail
        } else {
            seq![]
        }) + (if by_origin {
            id + " (discovered-from"@ + tail
        } else {
            seq![]
        }) + (if by_pivot {
            id + " (pivoted-to"@ + tail
        } else {
            seq![]
        }) + (if !by_block && !by_parent && !by_origin && !by_pivot && find_from(h.body@, target, 0) is Some {
            id + " (body mention"@ + tail
        } else {
            seq![]
        })
    }
}

/// The backlinks of every row in order.
pub open spec fn backlinks_text(rows: Seq<(String, IssueHeading)>, target: Seq<char>) -> Seq<char>
    decreases rows.len(),
{
    if rows.len() == 0 {
        seq![]
    } else {
        backlinks_text(rows.drop_last(), target) + backlink_lines(rows.last(), target)
    }
}

/// Whether `v` holds `k`.
fn lists_str(v: &Vec<String>, k: &str) -> (r: bool)
    ensures
        r == v@.map_values(|x: String| x@).contains(k@),
{
    let mut i: usize = 0;
    while i < v.len()
        invariant
            i <= v.len(),
            forall|j: int| 0 <= j < i ==> #[trigger] v@[j]@ != k@,
        decreases v.len() - i,
    {
        if str_eq(v[i].as_str(), k) {
            assert(v@.map_values(|x: String| x@)[i as int] == k@);
            return true;
        }
        i = i + 1;
    }
    proof {
        let vv = v@.map_values(|x: String| x@);
        if vv.contains(k@) {
            let j = choose|j: int| 0 <= j < vv.len() && vv[j] == k@;
            assert(v@[j]@ == k@);
        }
    }
    false
}

fn push_backlink(out: &mut String, id: &str, relation: &str, project: &str)
    ensures
        final(out)@ == old(out)@ + pad_right(id@, 22) + " ("@ + relation@ + ") ("@ + project@
            + ")\n"@,
{
    push_padded(out, id, 22);
    out.push_str(" (");
    out.push_str(relation);
    out.push_str(") (");
    out.push_str(project);
    out.push_str(")\n");
}

/// The backlink line of `id` for `relation` (the text after ` (`), when
/// `hit`.
pub open spec fn link_line(hit: bool, id: Seq<char>, relation: Seq<char>, project: Seq<char>) -> Seq<char> {
    if hit {
        pad_right(id, 22) + relation + ") ("@ + project + ")\n"@
    } else {
        seq![]
    }
}

fn push_backlink_if(out: &mut String, hit: bool, id: &str, relation: &str, project: &str)
    ensures
        final(out)@ == old(out)@ + link_line(hit, id@, " ("@ + relation@, project@),
{
    if hit {
        push_backlink(out, id, relation, project);
        assert(out@ =~= old(out)@ + link_line(hit, id@, " ("@ + relation@, project@));
    } else {
        assert(out@ =~= old(out)@ + link_line(hit, id@, " ("@ + relation@, project@));
    }
}

/// Append the backlink lines of one row.
#[verifier::spinoff_prover]
#[verifier::rlimit(50)]
fn push_backlinks_of(out: &mut String, row: &(String, IssueHeading), target_id: &str)
    ensures
        final(out)@ == old(out)@ + backlink_lines(*row, target_id@),
{
    let (project, h) = (&row.0, &row.1);
    if str_eq(h.id.as_str(), target_id) {
        assert(backlink_lines(*row, target_id@) =~= Seq::<char>::empty());
        return;
    }
    let by_block = lists_str(&h.blocked_by(), target_id);
    let by_parent = match h.parent() {
        Some(p) => str_eq(p, target_id),
        None => false,
    };
    let by_origin = match h.prop_str("DISCOVERED_FROM") {
        Some(d) => str_eq(d, target_id),
        None => false,
    };
    let by_pivot = match h.prop_str("PIVOTED_TO") {
        Some(d) => str_eq(d, target_id),
        None => false,
    };
    let mention = !by_block && !by_parent && !by_origin && !by_pivot
        && find_seq(&chars_of(h.body.as_str()), &chars_of(target_id), 0).is_some();
    proof {
        reveal_strlit(" (");
        reveal_strlit("blocked-by");
        reveal_strlit("parent");
        reveal_strlit("discovered-from");
        reveal_strlit("pivoted-to");
        reveal_strlit("body mention");
        reveal_strlit(" (blocked-by");
        reveal_strlit(" (parent");
        reveal_strlit(" (discovered-from");
        reveal_strlit(" (pivoted-to");
        reveal_strlit(" (body mention");
        assert(" ("@ + "blocked-by"@ =~= " (blocked-by"@);
        assert(" ("@ + "parent"@ =~= " (parent"@);
        assert(" ("@ + "discovered-from"@ =~= " (discovered-from"@);
        assert(" ("@ + "pivoted-to"@ =~= " (pivoted-to"@);
        assert(" ("@ + "body mention"@ =~= " (body mention"@);
    }
    let ghost o0 = out@;
    push_backlink_if(out, by_block, h.id.as_str(), "blocked-by", project.as_str());
    push_backlink_if(out, by_parent, h.id.as_str(), "parent", project.as_str());
    push_backlink_if(out, by_origin, h.id.as_str(), "discovered-from", project.as_str());
    push_backlink_if(out, by_pivot, h.id.as_str(), "pivoted-to", project.as_str());
    push_backlink_if(out, mention, h.id.as_str(), "body mention", project.as_str());
    proof {
        let i = h.id@;
        let p = project@;
        let l1 = link_line(by_block, i, " (blocked-by"@, p);
        let l2 = link_line(by_parent, i, " (parent"@, p);
        let l3 = link_line(by_origin, i, " (discovered-from"@, p);
        let l4 = link_line(by_pivot, i, " (pivoted-to"@, p);
        let l5 = link_line(mention, i, " (body mention"@, p);
        assert(out@ =~= o0 + (l1 + l2 + l3 + l4 + l5));
        let tail = ") ("@ + p + ")\n"@;
        assert(l1 =~= (if by_block { pad_right(i, 22) + " (blocked-by"@ + tail } else { seq![] }));
        assert(l2 =~= (if by_parent { pad_right(i, 22) + " (parent"@ + tail } else { seq![] }));
        assert(l3 =~= (if by_origin { pad_right(i, 22) + " (discovered-from"@ + tail } else { seq![] }));
        assert(l4 =~= (if by_pivot { pad_right(i, 22) + " (pivoted-to"@ + tail } else { seq![] }));
        assert(l5 =~= (if mention { pad_right(i, 22) + " (body mention"@ + tail } else { seq![] }));
    }
}

/// Every issue referring to `target_id` through a blocker edge, a parent
/// link, a discovered-from link, a pivot to it, or (failing those) a body
/// mention; the
/// relation is named on the row.
pub fn backlinks(recs: &[(String, IssueHeading)], target_id: &str) -> (r: String)
    ensures
        r@ == backlinks_text(recs@, target_id@),
{
    let mut out = String::new();
    let mut i: usize = 0;
    while i < recs.len()
        invariant
            i <= recs.len(),
            out@ == backlinks_text(recs@.take(i as int), target_id@),
        decreases recs.len() - i,
    {
        proof {
            assert(recs@.take(i + 1).drop_last() =~= recs@.take(i as int));
            assert(recs@.take(i + 1).last() == recs@[i as int]);
        }
        push_backlinks_of(&mut out, &recs[i], target_id);
        i = i + 1;
    }
    assert(recs@.take(recs.len() as int) =~= recs@);
    out
}


/// `s` with each `"` written as `\"`.
pub open spec fn escape_quotes(s: Seq<char>) -> Seq<char>
    decreases s.len(),
{
    if s.len() == 0 {
        seq![]
    } else {
        escape_quotes(s.drop_last()) + if s.last() == '"' {
            seq!['\\', '"']
        } else {
            seq![s.last()]
        }
    }
}

pub(crate) fn push_escaped(out: &mut String, s: &str)
    ensures
        final(out)@ == old(out)@ + escape_quotes(s@),
{
    let cs = chars_of(s);
    let mut i: usize = 0;
    while i < cs.len()
        invariant
            i <= cs.len(),
            cs@ == s@,
            out@ == old(out)@ + escape_quotes(s@.take(i as int)),
        decreases cs.len() - i,
    {
        proof {
            assert(s@.take(i + 1).drop_last() =~= s@.take(i as int));
        }
        if cs[i] == '"' {
            out.push('\\');
            out.push('"');
        } else {
            out.push(cs[i]);
        }
        i = i + 1;
        assert(out@ =~= old(out)@ + escape_quotes(s@.take(i as int)));
    }
    assert(s@.take(cs.len() as int) =~= s@);
}

/// The node fill for each state.
pub open spec fn fill_of(state: Seq<char>) -> Seq<char> {
    if state == "DONE"@ {
        "#A5D6A7"@
    } else if state == "CANCELLED"@ {
        "#CFD8DC"@
    } else if state == "BLOCKED"@ {
        "#FFCC80"@
    } else if state == "STARTED"@ {
        "#80CBC4"@
    } else {
        "#E0F2F1"@
    }
}

fn fill_str(state: &str) -> (r: &'static str)
    ensures
        r@ == fill_of(state@),
{
    if str_eq(state, "DONE") {
        "#A5D6A7"
    } else if str_eq(state, "CANCELLED") {
        "#CFD8DC"
    } else if str_eq(state, "BLOCKED") {
        "#FFCC80"
    } else if str_eq(state, "STARTED") {
        "#80CBC4"
    } else {
        "#E0F2F1"
    }
}

/// Whether a row is in the project filter.
pub open spec fn in_project(row: (String, IssueHeading), project: Option<Seq<char>>) -> bool {
    match project {
        Some(p) => row.0@ == p,
        None => true,
    }
}

/// One node line of the graph.
pub open spec fn node_line(h: IssueHeading) -> Seq<char> {
    "  \""@ + h.id@ + "\" [label=\""@ + escape_quotes(h.title@) + "\\n"@ + h.state@ + " [#"@
        + seq![h.priority] + "]\", fillcolor=\""@ + fill_of(h.state@) + "\"];\n"@
}

/// The blocker edge lines of a heading, one per non-empty blocker.
pub open spec fn blocker_edges(bs: Seq<Seq<char>>, id: Seq<char>) -> Seq<char>
    decreases bs.len(),
{
    if bs.len() == 0 {
        seq![]
    } else {
        blocker_edges(bs.drop_last(), id) + if bs.last().len() > 0 {
            "  \""@ + bs.last() + "\" -> \""@ + id + "\" [color=\"#FF7043\"];\n"@
        } else {
            seq![]
        }
    }
}

/// The edge lines of a heading: its blockers, then its parent.
pub open spec fn edge_lines(h: IssueHeading) -> Seq<char> {
    blocker_edges(blockers(h), h.id@) + match prop(h, "PARENT"@) {
        Some(p) => "  \""@ + p + "\" -> \""@ + h.id@ + "\" [color=\"#00897B\", style=dashed];\n"@,
        None => seq![],
    }
}

/// The node lines of the rows in the filter.
pub open spec fn node_lines(rows: Seq<(String, IssueHeading)>, project: Option<Seq<char>>) -> Seq<
    char,
>
    decreases rows.len(),
{
    if rows.len() == 0 {
        seq![]
    } else {
        node_lines(rows.drop_last(), project) + if in_project(rows.last(), project) {
            node_line(rows.last().1)
        } else {
            seq![]
        }
    }
}

/// The edge lines of the rows in the filter.
pub open spec fn all_edge_lines(rows: Seq<(String, IssueHeading)>, project: Option<Seq<char>>) -> Seq<
    char,
>
    decreases rows.len(),
{
    if rows.len() == 0 {
        seq![]
    } else {
        all_edge_lines(rows.drop_last(), project) + if in_project(rows.last(), project) {
            edge_lines(rows.last().1)
        } else {
            seq![]
        }
    }
}

/// The opening lines of the graph.
pub open spec fn graph_head() -> Seq<char> {
    "digraph vissue_graph {\n"@ + "  rankdir=LR;\n"@
        + "  node [shape=box, fontname=\"Jost\", style=filled];\n"@
        + "  edge [fontname=\"Jost\"];\n"@
}

/// The whole graph text.
pub open spec fn graph_text(rows: Seq<(String, IssueHeading)>, project: Option<Seq<char>>) -> Seq<
    char,
> {
    graph_head() + node_lines(rows, project) + all_edge_lines(rows, project) + "}\n"@
}

fn push_node(out: &mut String, h: &IssueHeading)
    ensures
        final(out)@ == old(out)@ + node_line(*h),
{
    out.push_str("  \"");
    out.push_str(h.id.as_str());
    out.push_str("\" [label=\"");
    push_escaped(out, h.title.as_str());
    out.push_str("\\n");
    out.push_str(h.state.as_str());
    out.push_str(" [#");
    out.push(h.priority);
    out.push_str("]\", fillcolor=\"");
    out.push_str(fill_str(h.state.as_str()));
    out.push_str("\"];\n");
}

fn push_edges(out: &mut String, h: &IssueHeading)
    ensures
        final(out)@ == old(out)@ + edge_lines(*h),
{
    let bs = h.blocked_by();
    let ghost bv = bs@.map_values(|x: String| x@);
    let mut k: usize = 0;
    while k < bs.len()
        invariant
            k <= bs.len(),
            bv == bs@.map_values(|x: String| x@),
            bv == blockers(*h),
            out@ == old(out)@ + blocker_edges(bv.take(k as int), h.id@),
        decreases bs.len() - k,
    {
        proof {
            assert(bv.take(k + 1).drop_last() =~= bv.take(k as int));
            assert(bv.take(k + 1).last() == bs@[k as int]@);
        }
        if !bs[k].as_str().is_empty() {
            out.push_str("  \"");
            out.push_str(bs[k].as_str());
            out.push_str("\" -> \"");
            out.push_str(h.id.as_str());
            out.push_str("\" [color=\"#FF7043\"];\n");
        }
        k = k + 1;
    }
    assert(bv.take(bs.len() as int) =~= bv);
    if let Some(p) = h.parent() {
        out.push_str("  \"");
        out.push_str(p);
        out.push_str("\" -> \"");
        out.push_str(h.id.as_str());
        out.push_str("\" [color=\"#00897B\", style=dashed];\n");
    }
}

/// The whole blocker and parent graph as Graphviz DOT; node fill encodes
/// state.
pub fn graph(recs: &[(String, IssueHeading)], project_filter: Option<&str>) -> (r: String)
    ensures
        r@ == graph_text(recs@, opt_str(project_filter)),
{
    let mut out = String::new();
    out.push_str("digraph vissue_graph {\n");
    out.push_str("  rankdir=LR;\n");
    out.push_str("  node [shape=box, fontname=\"Jost\", style=filled];\n");
    out.push_str("  edge [fontname=\"Jost\"];\n");
    let ghost head = out@;
    let mut i: usize = 0;
    while i < recs.len()
        invariant
            i <= recs.len(),
            out@ == head + node_lines(recs@.take(i as int), opt_str(project_filter)),
        decreases recs.len() - i,
    {
        proof {
            assert(recs@.take(i + 1).drop_last() =~= recs@.take(i as int));
            assert(recs@.take(i + 1).last() == recs@[i as int]);
        }
        let keep = match project_filter {
            Some(p) => str_eq(recs[i].0.as_str(), p),
            None => true,
        };
        if keep {
            push_node(&mut out, &recs[i].1);
        }
        i = i + 1;
    }
    assert(recs@.take(recs.len() as int) =~= recs@);
    let ghost mid = out@;
    let mut i: usize = 0;
    while i < recs.len()
        invariant
            i <= recs.len(),
            out@ == mid + all_edge_lines(recs@.take(i as int), opt_str(project_filter)),
        decreases recs.len() - i,
    {
        proof {
            assert(recs@.take(i + 1).drop_last() =~= recs@.take(i as int));
            assert(recs@.take(i + 1).last() == recs@[i as int]);
        }
        let keep = match project_filter {
            Some(p) => str_eq(recs[i].0.as_str(), p),
            None => true,
        };
        if keep {
            push_edges(&mut out, &recs[i].1);
        }
        i = i + 1;
    }
    out.push_str("}\n");
    out
}


/// The listing order of headings: priority cookie, then state, then id.
pub open spec fn key_lt(a: IssueHeading, b: IssueHeading) -> bool {
    a.priority < b.priority || (a.priority == b.priority && (text_lt(a.state@, b.state@) || (
    a.state@ == b.state@ && text_lt(a.id@, b.id@))))
}

/// Whether two headings sort alike.
pub open spec fn key_eq(a: IssueHeading, b: IssueHeading) -> bool {
    a.priority == b.priority && a.state@ == b.state@ && a.id@ == b.id@
}

pub proof fn lemma_key_order(a: IssueHeading, b: IssueHeading, c: IssueHeading)
    ensures
        !key_lt(a, a),
        key_lt(a, b) ==> !key_lt(b, a),
        key_lt(a, b) && key_lt(b, c) ==> key_lt(a, c),
        key_lt(a, b) || key_lt(b, a) || key_eq(a, b),
        key_eq(a, b) ==> !key_lt(a, b),
        key_eq(a, b) && key_lt(b, c) ==> key_lt(a, c),
        key_lt(a, b) && key_eq(b, c) ==> key_lt(a, c),
{
    lemma_text_lt_irreflexive(a.state@);
    lemma_text_lt_irreflexive(a.id@);
    lemma_text_lt_irreflexive(b.state@);
    lemma_text_lt_irreflexive(b.id@);
    if text_lt(a.state@, b.state@) {
        lemma_text_lt_asymmetric(a.state@, b.state@);
    }
    if text_lt(a.id@, b.id@) {
        lemma_text_lt_asymmetric(a.id@, b.id@);
    }
    if a.state@ != b.state@ {
        lemma_text_lt_total(a.state@, b.state@);
    }
    if a.id@ != b.id@ {
        lemma_text_lt_total(a.id@, b.id@);
    }
    if text_lt(a.state@, b.state@) && text_lt(b.state@, c.state@) {
        lemma_text_lt_transitive(a.state@, b.state@, c.state@);
    }
    if text_lt(a.id@, b.id@) && text_lt(b.id@, c.id@) {
        lemma_text_lt_transitive(a.id@, b.id@, c.id@);
    }
}

/// Whether `a` comes before `b` in a stable sort of `rows` by [`key_lt`].
pub open spec fn row_before(rows: Seq<(String, IssueHeading)>, a: int, b: int) -> bool {
    key_lt(rows[a].1, rows[b].1) || (key_eq(rows[a].1, rows[b].1) && a < b)
}

/// Whether `order` lists exactly the rows `keep` accepts, in stable sort order.
pub open spec fn sorted_selection(
    rows: Seq<(String, IssueHeading)>,
    keep: spec_fn(int) -> bool,
    order: Seq<usize>,
) -> bool {
    &&& forall|k: int| 0 <= k < order.len() ==> #[trigger] order[k] < rows.len() && keep(order[k] as int)
    &&& forall|i: int| 0 <= i < rows.len() && #[trigger] keep(i) ==> exists|k: int|
        0 <= k < order.len() && #[trigger] order[k] == i
    &&& forall|a: int, b: int|
        0 <= a < b < order.len() ==> row_before(rows, #[trigger] order[a] as int, #[trigger] order[b] as int)
}

/// A sorted selection stays one when the selection test is restated.
pub proof fn lemma_selection_restated(
    rows: Seq<(String, IssueHeading)>,
    k1: spec_fn(int) -> bool,
    k2: spec_fn(int) -> bool,
    order: Seq<usize>,
)
    requires
        sorted_selection(rows, k1, order),
        forall|i: int| 0 <= i < rows.len() ==> #[trigger] k1(i) == k2(i),
    ensures
        sorted_selection(rows, k2, order),
{
    assert forall|k: int| 0 <= k < order.len() implies #[trigger] order[k] < rows.len() && k2(order[k] as int) by {
        assert(k1(order[k] as int));
    }
    assert forall|i: int| 0 <= i < rows.len() && #[trigger] k2(i) implies exists|k: int|
        0 <= k < order.len() && #[trigger] order[k] == i by {
        assert(k1(i));
    }
}

/// Whether `a` sorts before `b` by [`key_lt`].
fn key_less(a: &IssueHeading, b: &IssueHeading) -> (r: bool)
    ensures
        r == key_lt(*a, *b),
{
    if a.priority != b.priority {
        return a.priority < b.priority;
    }
    let sa = chars_of(a.state.as_str());
    let sb = chars_of(b.state.as_str());
    if text_less(&sa, &sb) {
        return true;
    }
    if !crate::text::chars_eq(&sa, &sb) {
        return false;
    }
    text_less(&chars_of(a.id.as_str()), &chars_of(b.id.as_str()))
}

/// Insert row `i` (later than every row already listed) into a stably
/// sorted `order`.
fn insert_sorted(rows: &[(String, IssueHeading)], order: &mut Vec<usize>, i: usize)
    requires
        i < rows.len(),
        forall|k: int| 0 <= k < old(order).len() ==> #[trigger] old(order)@[k] < i,
        forall|a: int, b: int|
            0 <= a < b < old(order).len() ==> row_before(rows@, #[trigger] old(order)@[a] as int, #[trigger] old(order)@[b] as int),
    ensures
        final(order)@.len() == old(order)@.len() + 1,
        forall|k: int| 0 <= k < final(order).len() ==> #[trigger] final(order)@[k] <= i,
        forall|a: int, b: int|
            0 <= a < b < final(order).len() ==> row_before(rows@, #[trigger] final(order)@[a] as int, #[trigger] final(order)@[b] as int),
        final(order)@.to_set() == old(order)@.to_set().insert(i),
{
    let mut at: usize = 0;
    while at < order.len() && !key_less(&rows[i].1, &rows[order[at]].1)
        invariant
            at <= order.len(),
            i < rows.len(),
            forall|k: int| 0 <= k < order.len() ==> #[trigger] order@[k] < i,
            forall|k: int| 0 <= k < at ==> !key_lt(rows@[i as int].1, #[trigger] rows@[order@[k] as int].1),
        decreases order.len() - at,
    {
        at = at + 1;
    }
    let ghost before = order@;
    proof {
        assert forall|k: int| at <= k < before.len() implies key_lt(rows@[i as int].1, #[trigger] rows@[before[k] as int].1) by {
            if k > at {
                assert(row_before(rows@, before[at as int] as int, before[k] as int));
                lemma_key_order(rows@[i as int].1, rows@[before[at as int] as int].1, rows@[before[k] as int].1);
            }
        }
    }
    order.insert(at, i);
    proof {
        assert forall|a: int, b: int| 0 <= a < b < order.len() implies row_before(
            rows@,
            #[trigger] order@[a] as int,
            #[trigger] order@[b] as int,
        ) by {
            if b < at {
                assert(order@[a] == before[a] && order@[b] == before[b]);
            } else if b == at {
                assert(order@[a] == before[a]);
                let x = rows@[before[a] as int].1;
                let y = rows@[i as int].1;
                lemma_key_order(x, y, y);
                assert(!key_lt(y, x));
            } else if a < at {
                assert(order@[a] == before[a] && order@[b] == before[b - 1]);
            } else if a == at {
                assert(order@[b] == before[b - 1]);
            } else {
                assert(order@[a] == before[a - 1] && order@[b] == before[b - 1]);
            }
        }
        assert forall|k: int| 0 <= k < order.len() implies #[trigger] order@[k] <= i by {
            if k < at {
                assert(order@[k] == before[k]);
            } else if k > at {
                assert(order@[k] == before[k - 1]);
            }
        }
        assert forall|x: usize| order@.to_set().contains(x) <==> before.to_set().insert(i).contains(x) by {
            if order@.contains(x) {
                let k = choose|k: int| 0 <= k < order@.len() && order@[k] == x;
                if k < at {
                    assert(before[k] == x);
                } else if k > at {
                    assert(before[k - 1] == x);
                }
            }
            if before.contains(x) {
                let k = choose|k: int| 0 <= k < before.len() && before[k] == x;
                if k < at {
                    assert(order@[k] == x);
                } else {
                    assert(order@[k + 1] == x);
                }
            }
            if x == i {
                assert(order@[at as int] == i);
            }
        }
        assert(order@.to_set() =~= before.to_set().insert(i));
    }
}


/// The selected rows in stable sort order. `sel` lists row indices in
/// ascending order.
pub fn sort_selected(rows: &[(String, IssueHeading)], sel: &Vec<usize>) -> (r: Vec<usize>)
    requires
        forall|a: int, b: int| 0 <= a < b < sel.len() ==> #[trigger] sel@[a] < #[trigger] sel@[b],
        forall|k: int| 0 <= k < sel.len() ==> #[trigger] sel@[k] < rows.len(),
    ensures
        sorted_selection(rows@, |i: int| sel@.contains(i as usize), r@),
{
    let mut order: Vec<usize> = Vec::new();
    let mut j: usize = 0;
    while j < sel.len()
        invariant
            j <= sel.len(),
            forall|a: int, b: int| 0 <= a < b < sel.len() ==> #[trigger] sel@[a] < #[trigger] sel@[b],
            forall|k: int| 0 <= k < sel.len() ==> #[trigger] sel@[k] < rows.len(),
            order@.to_set() == sel@.take(j as int).to_set(),
            forall|k: int| 0 <= k < order.len() ==> (j == 0 || #[trigger] order@[k] <= sel@[j - 1]),
            forall|a: int, b: int|
                0 <= a < b < order.len() ==> row_before(rows@, #[trigger] order@[a] as int, #[trigger] order@[b] as int),
        decreases sel.len() - j,
    {
        proof {
            if j > 0 {
                assert forall|k: int| 0 <= k < order.len() implies #[trigger] order@[k] < sel@[j as int] by {
                    assert(sel@[j - 1] < sel@[j as int]);
                }
            } else {
                assert(order@.to_set() =~= Set::<usize>::empty());
                assert forall|k: int| 0 <= k < order.len() implies #[trigger] order@[k] < sel@[j as int] by {
                    assert(order@.to_set().contains(order@[k]));
                }
            }
        }
        insert_sorted(rows, &mut order, sel[j]);
        proof {
            assert(sel@.take(j + 1) =~= sel@.take(j as int).push(sel@[j as int]));
            sel@.take(j as int).lemma_push_to_set_commute(sel@[j as int]);
        }
        j = j + 1;
    }
    proof {
        assert(sel@.take(sel.len() as int) =~= sel@);
        assert forall|k: int| 0 <= k < order.len() implies #[trigger] order@[k] < rows.len() && sel@.contains(order@[k]) by {
            assert(order@.to_set().contains(order@[k]));
        }
        assert forall|i: int| 0 <= i < rows.len() && #[trigger] sel@.contains(i as usize) implies exists|k: int|
            0 <= k < order.len() && #[trigger] order@[k] == i by {
            assert(sel@.to_set().contains(i as usize));
            assert(order@.to_set().contains(i as usize));
            let k = choose|k: int| 0 <= k < order@.len() && order@[k] == i as usize;
            assert(order@[k] == i);
        }
    }
    order
}


/// One listing line: id in 22 columns, state in 9, the cookie, the title,
/// and the project in parentheses.
pub open spec fn listing_line(row: (String, IssueHeading)) -> Seq<char> {
    pad_right(row.1.id@, 22) + " "@ + pad_right(row.1.state@, 9) + " [#"@ + seq![row.1.priority]
        + "]  "@ + row.1.title@ + "  ("@ + row.0@ + ")\n"@
}

/// The listing lines of the rows in `order`.
pub open spec fn listing_text(rows: Seq<(String, IssueHeading)>, order: Seq<usize>) -> Seq<char>
    decreases order.len(),
{
    if order.len() == 0 {
        seq![]
    } else {
        listing_text(rows, order.drop_last()) + listing_line(rows[order.last() as int])
    }
}

fn push_listing_line(out: &mut String, row: &(String, IssueHeading))
    ensures
        final(out)@ == old(out)@ + listing_line(*row),
{
    push_padded(out, row.1.id.as_str(), 22);
    out.push_str(" ");
    push_padded(out, row.1.state.as_str(), 9);
    out.push_str(" [#");
    out.push(row.1.priority);
    out.push_str("]  ");
    out.push_str(row.1.title.as_str());
    out.push_str("  (");
    out.push_str(row.0.as_str());
    out.push_str(")\n");
}

fn push_listing(out: &mut String, rows: &[(String, IssueHeading)], order: &Vec<usize>, limit: usize)
    requires
        forall|k: int| 0 <= k < order.len() ==> #[trigger] order@[k] < rows.len(),
    ensures
        final(out)@ == old(out)@ + listing_text(
            rows@,
            order@.take(if limit < order.len() {
                limit as int
            } else {
                order.len() as int
            }),
        ),
{
    let n = if limit < order.len() {
        limit
    } else {
        order.len()
    };
    let mut k: usize = 0;
    while k < n
        invariant
            k <= n,
            n <= order.len(),
            forall|m: int| 0 <= m < order.len() ==> #[trigger] order@[m] < rows.len(),
            out@ == old(out)@ + listing_text(rows@, order@.take(k as int)),
        decreases n - k,
    {
        proof {
            assert(order@.take(k + 1).drop_last() =~= order@.take(k as int));
            assert(order@.take(k + 1).last() == order@[k as int]);
        }
        push_listing_line(out, &rows[order[k]]);
        k = k + 1;
    }
}

/// Issues whose `:PARENT:` is `parent_id`, sorted by cookie, state, id.
pub fn children(recs: &[(String, IssueHeading)], parent_id: &str) -> (r: String)
    ensures
        exists|order: Seq<usize>|
            sorted_selection(
                recs@,
                |i: int| prop(recs@[i].1, "PARENT"@) == Some(parent_id@),
                order,
            ) && r@ == listing_text(recs@, order),
{
    let mut sel: Vec<usize> = Vec::new();
    let mut i: usize = 0;
    while i < recs.len()
        invariant
            i <= recs.len(),
            forall|a: int, b: int| 0 <= a < b < sel.len() ==> #[trigger] sel@[a] < #[trigger] sel@[b],
            forall|k: int| 0 <= k < sel.len() ==> #[trigger] sel@[k] < i,
            forall|m: int| 0 <= m < i ==> (sel@.contains(m as usize) <==> prop(#[trigger] recs@[m].1, "PARENT"@) == Some(parent_id@)),
        decreases recs.len() - i,
    {
        let hit = match recs[i].1.parent() {
            Some(p) => str_eq(p, parent_id),
            None => false,
        };
        if hit {
            let ghost before = sel@;
            sel.push(i);
            proof {
                assert forall|m: int| 0 <= m < i + 1 implies (sel@.contains(m as usize) <==> prop(#[trigger] recs@[m].1, "PARENT"@) == Some(parent_id@)) by {
                    if sel@.contains(m as usize) && m < i {
                        let k = choose|k: int| 0 <= k < sel@.len() && sel@[k] == m as usize;
                        assert(k < before.len());
                        assert(before.contains(m as usize));
                    }
                    if m < i && before.contains(m as usize) {
                        let k = choose|k: int| 0 <= k < before.len() && before[k] == m as usize;
                        assert(sel@[k] == m as usize);
                    }
                    if m == i {
                        assert(sel@[before.len() as int] == i);
                    }
                }
            }
        } else {
            proof {
                assert forall|m: int| 0 <= m < i + 1 implies (sel@.contains(m as usize) <==> prop(#[trigger] recs@[m].1, "PARENT"@) == Some(parent_id@)) by {
                    if m == i && sel@.contains(m as usize) {
                        let k = choose|k: int| 0 <= k < sel@.len() && sel@[k] == m as usize;
                        assert(sel@[k] < i);
                    }
                }
            }
        }
        i = i + 1;
    }
    let order = sort_selected(recs, &sel);
    let mut out = String::new();
    push_listing(&mut out, recs, &order, order.len());
    proof {
        assert(order@.take(order.len() as int) =~= order@);
        let keep = |i: int| prop(recs@[i].1, "PARENT"@) == Some(parent_id@);
        let chosen = |i: int| sel@.contains(i as usize);
        assert forall|m: int| 0 <= m < recs@.len() implies #[trigger] chosen(m) == keep(m) by {
            assert(recs@[m].1 == recs@[m].1);
        }
        lemma_selection_restated(recs@, chosen, keep, order@);
    }
    out
}


/// The drawer as search text: `KEY:value ` per property, keys ascending.
pub open spec fn props_text(keys: Seq<Seq<char>>, vals: Seq<String>) -> Seq<char>
    decreases keys.len(),
{
    if keys.len() == 0 || vals.len() == 0 {
        seq![]
    } else {
        props_text(keys.drop_last(), vals.drop_last()) + keys.last() + ":"@ + vals.last()@ + " "@
    }
}

/// What a search scans: id, title, the drawer, and the body.
pub open spec fn hay_text(h: IssueHeading) -> Seq<char> {
    h.id@ + " "@ + h.title@ + " "@ + props_text(h.properties.key_seq(), h.properties.value_seq())
        + h.body@
}

/// Whether a heading matches a case-insensitive search for `query`.
pub open spec fn search_hit(h: IssueHeading, query: Seq<char>) -> bool {
    find_from(
        crate::fuzzy::unicode_lowercase(hay_text(h)),
        crate::fuzzy::unicode_lowercase(query),
        0,
    ) is Some
}

fn hay_of(h: &IssueHeading) -> (r: String)
    ensures
        r@ == hay_text(*h),
{
    let mut out = String::new();
    out.push_str(h.id.as_str());
    out.push_str(" ");
    out.push_str(h.title.as_str());
    out.push_str(" ");
    let n = h.properties.len();
    let ghost head = out@;
    let mut k: usize = 0;
    while k < n
        invariant
            k <= n,
            n == h.properties.key_seq().len(),
            h.properties.shaped(),
            out@ == head + props_text(
                h.properties.key_seq().take(k as int),
                h.properties.value_seq().take(k as int),
            ),
        decreases n - k,
    {
        proof {
            assert(h.properties.key_seq().take(k + 1).drop_last() =~= h.properties.key_seq().take(
                k as int,
            ));
            assert(h.properties.value_seq().take(k + 1).drop_last()
                =~= h.properties.value_seq().take(k as int));
        }
        out.push_str(h.properties.key_at(k).as_str());
        out.push_str(":");
        out.push_str(h.properties.value_at(k).as_str());
        out.push_str(" ");
        k = k + 1;
    }
    assert(h.properties.key_seq().take(n as int) =~= h.properties.key_seq());
    assert(h.properties.value_seq().take(n as int) =~= h.properties.value_seq());
    out.push_str(h.body.as_str());
    out
}

/// A case-insensitive substring scan over id, title, properties and body;
/// at most `limit` hits, sorted by cookie, state, id.
pub fn search(recs: &[(String, IssueHeading)], query: &str, limit: usize) -> (r: String)
    ensures
        exists|order: Seq<usize>|
            sorted_selection(recs@, |i: int| search_hit(recs@[i].1, query@), order) && r@
                == listing_text(
                recs@,
                order.take(
                    if limit < order.len() {
                        limit as int
                    } else {
                        order.len() as int
                    },
                ),
            ),
{
    let needle = chars_of(crate::fuzzy::to_lowercase(query).as_str());
    let mut sel: Vec<usize> = Vec::new();
    let mut i: usize = 0;
    while i < recs.len()
        invariant
            i <= recs.len(),
            needle@ == crate::fuzzy::unicode_lowercase(query@),
            forall|a: int, b: int| 0 <= a < b < sel.len() ==> #[trigger] sel@[a] < #[trigger] sel@[b],
            forall|k: int| 0 <= k < sel.len() ==> #[trigger] sel@[k] < i,
            forall|m: int| 0 <= m < i ==> (sel@.contains(m as usize) <==> search_hit(#[trigger] recs@[m].1, query@)),
        decreases recs.len() - i,
    {
        let hay = hay_of(&recs[i].1);
        let low = chars_of(crate::fuzzy::to_lowercase(hay.as_str()).as_str());
        let hit = find_seq(&low, &needle, 0).is_some();
        if hit {
            let ghost before = sel@;
            sel.push(i);
            proof {
                assert forall|m: int| 0 <= m < i + 1 implies (sel@.contains(m as usize) <==> search_hit(#[trigger] recs@[m].1, query@)) by {
                    if sel@.contains(m as usize) && m < i {
                        let k = choose|k: int| 0 <= k < sel@.len() && sel@[k] == m as usize;
                        assert(k < before.len());
                        assert(before.contains(m as usize));
                    }
                    if m < i && before.contains(m as usize) {
                        let k = choose|k: int| 0 <= k < before.len() && before[k] == m as usize;
                        assert(sel@[k] == m as usize);
                    }
                    if m == i {
                        assert(sel@[before.len() as int] == i);
                    }
                }
            }
        } else {
            proof {
                assert forall|m: int| 0 <= m < i + 1 implies (sel@.contains(m as usize) <==> search_hit(#[trigger] recs@[m].1, query@)) by {
                    if m == i && sel@.contains(m as usize) {
                        let k = choose|k: int| 0 <= k < sel@.len() && sel@[k] == m as usize;
                        assert(sel@[k] < i);
                    }
                }
            }
        }
        i = i + 1;
    }
    let order = sort_selected(recs, &sel);
    let mut out = String::new();
    push_listing(&mut out, recs, &order, limit);
    proof {
        let keep = |i: int| search_hit(recs@[i].1, query@);
        let chosen = |i: int| sel@.contains(i as usize);
        assert forall|m: int| 0 <= m < recs@.len() implies #[trigger] chosen(m) == keep(m) by {
            assert(recs@[m].1 == recs@[m].1);
        }
        lemma_selection_restated(recs@, chosen, keep, order@);
    }
    out
}


/// A live state the roadmap lists, in its bucket order.
pub open spec fn bucket_state(s: Seq<char>) -> bool {
    s == "STARTED"@ || s == "TODO"@ || s == "BLOCKED"@
}

/// A closed state.
pub open spec fn closed_state(s: Seq<char>) -> bool {
    s == "DONE"@ || s == "CANCELLED"@
}

/// Which states a selection keeps: live (`0`), closed (`1`), or exactly
/// `st` (otherwise).
pub open spec fn state_kept(mode: int, st: Seq<char>, s: Seq<char>) -> bool {
    if mode == 0 {
        bucket_state(s)
    } else if mode == 1 {
        closed_state(s)
    } else {
        s == st
    }
}

/// The rows of `order` whose state the selection keeps, in order.
pub open spec fn rows_where(
    rows: Seq<(String, IssueHeading)>,
    order: Seq<usize>,
    mode: int,
    st: Seq<char>,
) -> Seq<usize>
    decreases order.len(),
{
    if order.len() == 0 {
        seq![]
    } else {
        rows_where(rows, order.drop_last(), mode, st) + if state_kept(
            mode,
            st,
            rows[order.last() as int].1.state@,
        ) {
            seq![order.last()]
        } else {
            seq![]
        }
    }
}

/// One live roadmap entry.
pub open spec fn roadmap_entry(h: IssueHeading) -> Seq<char> {
    "- **"@ + h.id@ + "** [#"@ + seq![h.priority] + "] "@ + h.title@ + match prop(h, "DEADLINE"@) {
        Some(d) => " :: deadline "@ + d,
        None => seq![],
    } + if blockers(h).len() > 0 {
        " :: blocked by "@ + crate::org::join(blockers(h), ", "@)
    } else {
        seq![]
    } + "\n"@
}

/// The live entries of `order`.
pub open spec fn roadmap_entries(rows: Seq<(String, IssueHeading)>, order: Seq<usize>) -> Seq<char>
    decreases order.len(),
{
    if order.len() == 0 {
        seq![]
    } else {
        roadmap_entries(rows, order.drop_last()) + roadmap_entry(rows[order.last() as int].1)
    }
}

/// One closed roadmap entry.
pub open spec fn closed_entry(h: IssueHeading) -> Seq<char> {
    "- "@ + h.id@ + " [#"@ + seq![h.priority] + "] "@ + h.title@ + " ("@ + h.state@ + ")\n"@
}

/// The closed entries of `order`.
pub open spec fn closed_entries(rows: Seq<(String, IssueHeading)>, order: Seq<usize>) -> Seq<char>
    decreases order.len(),
{
    if order.len() == 0 {
        seq![]
    } else {
        closed_entries(rows, order.drop_last()) + closed_entry(rows[order.last() as int].1)
    }
}

/// The section of one live state.
pub open spec fn state_section(rows: Seq<(String, IssueHeading)>, order: Seq<usize>, st: Seq<char>) -> Seq<
    char,
> {
    let in_state = rows_where(rows, order, 2, st);
    if in_state.len() == 0 {
        seq![]
    } else {
        "### "@ + st + "\n\n"@ + roadmap_entries(rows, in_state) + "\n"@
    }
}

/// The closed section: a count, the first ten, and how many more.
pub open spec fn closed_section(rows: Seq<(String, IssueHeading)>, order: Seq<usize>) -> Seq<char> {
    let closed = rows_where(rows, order, 1, seq![]);
    if closed.len() == 0 {
        seq![]
    } else {
        "### Closed ("@ + decimal(closed.len()) + " items)\n\n"@ + closed_entries(
            rows,
            closed.take(if closed.len() > 10 {
                10
            } else {
                closed.len() as int
            }),
        ) + (if closed.len() > 10 {
            "- ... and "@ + decimal((closed.len() - 10) as nat) + " more\n"@
        } else {
            seq![]
        }) + "\n"@
    }
}

/// The live rows of a roadmap section are exactly its STARTED, TODO and
/// BLOCKED rows, in the section's order; a row in any other state is not
/// live.
pub proof fn lemma_live_rows(rows: Seq<(String, IssueHeading)>, order: Seq<usize>, st: Seq<char>)
    ensures
        rows_where(rows, order, 0, st) == order.filter(
            |x: usize|
                rows[x as int].1.state@ == "STARTED"@ || rows[x as int].1.state@ == "TODO"@
                    || rows[x as int].1.state@ == "BLOCKED"@,
        ),
    decreases order.len(),
{
    reveal(Seq::filter);
    if order.len() > 0 {
        lemma_live_rows(rows, order.drop_last(), st);
        let kept = rows_where(rows, order.drop_last(), 0, st);
        if bucket_state(rows[order.last() as int].1.state@) {
            assert(kept + seq![order.last()] =~= kept.push(order.last()));
        } else {
            assert(kept + seq![] =~= kept);
        }
    }
}

/// The closed rows of a roadmap section are exactly its DONE and CANCELLED
/// rows: the section's order kept to the rows whose state is one of those
/// two, in the same order, so the Closed count is how many there are.
pub proof fn lemma_closed_rows_finished(rows: Seq<(String, IssueHeading)>, order: Seq<usize>, st: Seq<char>)
    ensures
        rows_where(rows, order, 1, st) == order.filter(
            |x: usize| rows[x as int].1.state@ == "DONE"@ || rows[x as int].1.state@ == "CANCELLED"@,
        ),
    decreases order.len(),
{
    reveal(Seq::filter);
    if order.len() > 0 {
        lemma_closed_rows_finished(rows, order.drop_last(), st);
        let kept = rows_where(rows, order.drop_last(), 1, st);
        if closed_state(rows[order.last() as int].1.state@) {
            assert(kept + seq![order.last()] =~= kept.push(order.last()));
        } else {
            assert(kept + seq![] =~= kept);
        }
    }
}

/// A project that holds a DONE or CANCELLED row gets its roadmap section,
/// and that section ends with a Closed list headed by the number of the
/// project's DONE and CANCELLED rows.
#[verifier::spinoff_prover]
pub proof fn lemma_closed_row_shown(rows: Seq<(String, IssueHeading)>, project: Seq<char>, order: Seq<usize>, k: int)
    requires
        0 <= k < order.len(),
        rows[order[k] as int].1.state@ == "DONE"@ || rows[order[k] as int].1.state@ == "CANCELLED"@,
    ensures
        ({
            let n = order.filter(
                |x: usize| rows[x as int].1.state@ == "DONE"@ || rows[x as int].1.state@ == "CANCELLED"@,
            ).len();
            &&& n >= 1
            &&& exists|mid: Seq<char>, rest: Seq<char>|
                project_section(rows, project, order) == "## "@ + project + "\n\n"@ + mid + "### Closed ("@
                    + decimal(n) + " items)\n\n"@ + rest
        }),
{
    let f = |x: usize| rows[x as int].1.state@ == "DONE"@ || rows[x as int].1.state@ == "CANCELLED"@;
    lemma_closed_rows_finished(rows, order, seq![]);
    let closed = rows_where(rows, order, 1, seq![]);
    assert(order.filter(f).contains(order[k])) by {
        broadcast use vstd::seq_lib::group_filter_ensures;
        assert(f(order[k]));
    }
    assert(closed.len() >= 1);
    let n = closed.len();
    let mid = state_section(rows, order, "STARTED"@) + state_section(rows, order, "TODO"@)
        + state_section(rows, order, "BLOCKED"@);
    let head = "### Closed ("@ + decimal(n) + " items)\n\n"@;
    let cs = closed_section(rows, order);
    let rest = cs.subrange(head.len() as int, cs.len() as int);
    assert(cs == head + rest) by {
        let body = closed_entries(
            rows,
            closed.take(if closed.len() > 10 {
                10
            } else {
                closed.len() as int
            }),
        ) + (if closed.len() > 10 {
            "- ... and "@ + decimal((closed.len() - 10) as nat) + " more\n"@
        } else {
            seq![]
        }) + "\n"@;
        assert(cs =~= head + body);
        assert(rest =~= body);
    }
    assert(project_section(rows, project, order) == "## "@ + project + "\n\n"@ + mid + cs);
    assert("## "@ + project + "\n\n"@ + mid + cs =~= "## "@ + project + "\n\n"@ + mid + head + rest);
    assert(head =~= "### Closed ("@ + decimal(n) + " items)\n\n"@);
    assert("## "@ + project + "\n\n"@ + mid + head + rest =~= "## "@ + project + "\n\n"@ + mid
        + "### Closed ("@ + decimal(n) + " items)\n\n"@ + rest);
}

/// One project's section, empty when it has neither live nor closed items.
pub open spec fn project_section(
    rows: Seq<(String, IssueHeading)>,
    project: Seq<char>,
    order: Seq<usize>,
) -> Seq<char> {
    let active = rows_where(rows, order, 0, seq![]);
    let closed = rows_where(rows, order, 1, seq![]);
    if active.len() == 0 && closed.len() == 0 {
        seq![]
    } else {
        "## "@ + project + "\n\n"@ + state_section(rows, order, "STARTED"@) + state_section(
            rows,
            order,
            "TODO"@,
        ) + state_section(rows, order, "BLOCKED"@) + closed_section(rows, order)
    }
}

/// The sections of the projects, in order.
pub open spec fn roadmap_sections(
    rows: Seq<(String, IssueHeading)>,
    projects: Seq<Seq<char>>,
    orders: Seq<Seq<usize>>,
) -> Seq<char>
    decreases projects.len(),
{
    if projects.len() == 0 || orders.len() == 0 {
        seq![]
    } else {
        roadmap_sections(rows, projects.drop_last(), orders.drop_last()) + project_section(
            rows,
            projects.last(),
            orders.last(),
        )
    }
}

/// The roadmap's opening lines.
pub open spec fn roadmap_head() -> Seq<char> {
    "# Roadmap\n\n"@
        + "Generated from `vissue roadmap`. Source of truth lives in the per-project issues.org files.\n\n"@
}

/// Whether row `i` is in project `p` and in the filter.
pub open spec fn in_group(
    rows: Seq<(String, IssueHeading)>,
    filter: Option<Seq<char>>,
    p: Seq<char>,
    i: int,
) -> bool {
    rows[i].0@ == p && in_project(rows[i], filter)
}

/// Whether `projects` are the filtered rows' projects in ascending order,
/// and `orders[k]` the sorted rows of `projects[k]`.
pub open spec fn grouped(
    rows: Seq<(String, IssueHeading)>,
    filter: Option<Seq<char>>,
    projects: Seq<Seq<char>>,
    orders: Seq<Seq<usize>>,
) -> bool {
    &&& forall|a: int, b: int|
        0 <= a < b < projects.len() ==> text_lt(#[trigger] projects[a], #[trigger] projects[b])
    &&& forall|x: Seq<char>|
        projects.contains(x) <==> exists|i: int|
            0 <= i < rows.len() && in_project(#[trigger] rows[i], filter) && rows[i].0@ == x
    &&& orders.len() == projects.len()
    &&& forall|k: int|
        0 <= k < projects.len() ==> sorted_selection(
            rows,
            |i: int| in_group(rows, filter, projects[k], i),
            #[trigger] orders[k],
        )
}


fn keeps_state(mode: u8, st: &str, s: &str) -> (r: bool)
    ensures
        r == state_kept(mode as int, st@, s@),
{
    if mode == 0 {
        str_eq(s, "STARTED") || str_eq(s, "TODO") || str_eq(s, "BLOCKED")
    } else if mode == 1 {
        str_eq(s, "DONE") || str_eq(s, "CANCELLED")
    } else {
        str_eq(s, st)
    }
}

/// The rows of `order` whose state the selection keeps.
fn select_where(rows: &[(String, IssueHeading)], order: &Vec<usize>, mode: u8, st: &str) -> (r: Vec<
    usize,
>)
    requires
        forall|k: int| 0 <= k < order.len() ==> #[trigger] order@[k] < rows.len(),
    ensures
        r@ == rows_where(rows@, order@, mode as int, st@),
        forall|k: int| 0 <= k < r.len() ==> #[trigger] r@[k] < rows.len(),
{
    let mut r: Vec<usize> = Vec::new();
    let mut k: usize = 0;
    while k < order.len()
        invariant
            k <= order.len(),
            forall|m: int| 0 <= m < order.len() ==> #[trigger] order@[m] < rows.len(),
            r@ == rows_where(rows@, order@.take(k as int), mode as int, st@),
            forall|m: int| 0 <= m < r.len() ==> #[trigger] r@[m] < rows.len(),
        decreases order.len() - k,
    {
        proof {
            assert(order@.take(k + 1).drop_last() =~= order@.take(k as int));
            assert(order@.take(k + 1).last() == order@[k as int]);
        }
        let o = order[k];
        if keeps_state(mode, st, rows[o].1.state.as_str()) {
            r.push(o);
        }
        k = k + 1;
        assert(r@ =~= rows_where(rows@, order@.take(k as int), mode as int, st@));
    }
    assert(order@.take(order.len() as int) =~= order@);
    r
}

/// Append `parts` joined by `sep`.
pub(crate) fn push_joined(out: &mut String, parts: &Vec<String>, sep: &str)
    ensures
        final(out)@ == old(out)@ + crate::org::join(parts@.map_values(|x: String| x@), sep@),
{
    let ghost pv = parts@.map_values(|x: String| x@);
    let mut i: usize = 0;
    while i < parts.len()
        invariant
            i <= parts.len(),
            pv == parts@.map_values(|x: String| x@),
            out@ == old(out)@ + crate::org::join(pv.take(i as int), sep@),
        decreases parts.len() - i,
    {
        proof {
            assert(pv.take(i + 1).drop_last() =~= pv.take(i as int));
            assert(pv.take(i + 1).last() == parts@[i as int]@);
        }
        if i > 0 {
            out.push_str(sep);
        }
        out.push_str(parts[i].as_str());
        i = i + 1;
        proof {
            if i == 1 {
                assert(pv.take(0) =~= Seq::<Seq<char>>::empty());
                assert(pv.take(1) =~= seq![pv[0]]);
            }
        }
    }
    assert(pv.take(parts.len() as int) =~= pv);
}

fn push_roadmap_entry(out: &mut String, h: &IssueHeading)
    ensures
        final(out)@ == old(out)@ + roadmap_entry(*h),
{
    out.push_str("- **");
    out.push_str(h.id.as_str());
    out.push_str("** [#");
    out.push(h.priority);
    out.push_str("] ");
    out.push_str(h.title.as_str());
    if let Some(d) = h.deadline() {
        out.push_str(" :: deadline ");
        out.push_str(d);
    }
    let bs = h.blocked_by();
    if bs.len() > 0 {
        out.push_str(" :: blocked by ");
        push_joined(out, &bs, ", ");
    }
    out.push_str("\n");
}

fn push_closed_entry(out: &mut String, h: &IssueHeading)
    ensures
        final(out)@ == old(out)@ + closed_entry(*h),
{
    out.push_str("- ");
    out.push_str(h.id.as_str());
    out.push_str(" [#");
    out.push(h.priority);
    out.push_str("] ");
    out.push_str(h.title.as_str());
    out.push_str(" (");
    out.push_str(h.state.as_str());
    out.push_str(")\n");
}

fn push_entries(out: &mut String, rows: &[(String, IssueHeading)], sel: &Vec<usize>, n: usize, closed: bool)
    requires
        n <= sel.len(),
        forall|k: int| 0 <= k < sel.len() ==> #[trigger] sel@[k] < rows.len(),
    ensures
        final(out)@ == old(out)@ + if closed {
            closed_entries(rows@, sel@.take(n as int))
        } else {
            roadmap_entries(rows@, sel@.take(n as int))
        },
{
    let mut k: usize = 0;
    while k < n
        invariant
            k <= n,
            n <= sel.len(),
            forall|m: int| 0 <= m < sel.len() ==> #[trigger] sel@[m] < rows.len(),
            out@ == old(out)@ + if closed {
                closed_entries(rows@, sel@.take(k as int))
            } else {
                roadmap_entries(rows@, sel@.take(k as int))
            },
        decreases n - k,
    {
        proof {
            assert(sel@.take(k + 1).drop_last() =~= sel@.take(k as int));
            assert(sel@.take(k + 1).last() == sel@[k as int]);
        }
        if closed {
            push_closed_entry(out, &rows[sel[k]].1);
        } else {
            push_roadmap_entry(out, &rows[sel[k]].1);
        }
        k = k + 1;
    }
}

fn push_state_section(out: &mut String, rows: &[(String, IssueHeading)], order: &Vec<usize>, st: &str)
    requires
        forall|k: int| 0 <= k < order.len() ==> #[trigger] order@[k] < rows.len(),
    ensures
        final(out)@ == old(out)@ + state_section(rows@, order@, st@),
{
    let in_state = select_where(rows, order, 2, st);
    if in_state.len() == 0 {
        return;
    }
    out.push_str("### ");
    out.push_str(st);
    out.push_str("\n\n");
    push_entries(out, rows, &in_state, in_state.len(), false);
    assert(in_state@.take(in_state.len() as int) =~= in_state@);
    out.push_str("\n");
}

fn push_closed_section(out: &mut String, rows: &[(String, IssueHeading)], order: &Vec<usize>)
    requires
        forall|k: int| 0 <= k < order.len() ==> #[trigger] order@[k] < rows.len(),
    ensures
        final(out)@ == old(out)@ + closed_section(rows@, order@),
{
    let closed = select_where(rows, order, 1, "");
    proof {
        assert(""@ =~= Seq::<char>::empty()) by {
            reveal_strlit("");
        }
    }
    if closed.len() == 0 {
        return;
    }
    out.push_str("### Closed (");
    out.push_str(string_of(&decimal_chars(closed.len() as u64)).as_str());
    out.push_str(" items)\n\n");
    let n = if closed.len() > 10 {
        10
    } else {
        closed.len()
    };
    push_entries(out, rows, &closed, n, true);
    if closed.len() > 10 {
        out.push_str("- ... and ");
        out.push_str(string_of(&decimal_chars((closed.len() - 10) as u64)).as_str());
        out.push_str(" more\n");
    }
    out.push_str("\n");
}

#[verifier::spinoff_prover]
fn push_project_section(out: &mut String, rows: &[(String, IssueHeading)], project: &str, order: &Vec<usize>)
    requires
        forall|k: int| 0 <= k < order.len() ==> #[trigger] order@[k] < rows.len(),
    ensures
        final(out)@ == old(out)@ + project_section(rows@, project@, order@),
{
    let active = select_where(rows, order, 0, "");
    let closed = select_where(rows, order, 1, "");
    proof {
        assert(""@ =~= Seq::<char>::empty()) by {
            reveal_strlit("");
        }
    }
    if active.len() == 0 && closed.len() == 0 {
        return;
    }
    out.push_str("## ");
    out.push_str(project);
    out.push_str("\n\n");
    push_state_section(out, rows, order, "STARTED");
    push_state_section(out, rows, order, "TODO");
    push_state_section(out, rows, order, "BLOCKED");
    push_closed_section(out, rows, order);
}


/// Whether `groups` holds, for each project seen among the first `i` rows,
/// the ascending indices of its rows in the filter.
pub open spec fn groups_ok(
    rows: Seq<(String, IssueHeading)>,
    filter: Option<Seq<char>>,
    groups: Map<Seq<char>, Vec<usize>>,
    i: int,
) -> bool {
    &&& forall|x: Seq<char>|
        #[trigger] groups.contains_key(x) <==> exists|m: int|
            0 <= m < i && in_project(#[trigger] rows[m], filter) && rows[m].0@ == x
    &&& forall|x: Seq<char>, a: int, b: int|
        groups.contains_key(x) && 0 <= a < b < groups[x].len() ==> #[trigger] groups[x]@[a]
            < #[trigger] groups[x]@[b]
    &&& forall|x: Seq<char>, k: int|
        groups.contains_key(x) && 0 <= k < groups[x].len() ==> #[trigger] groups[x]@[k] < i
    &&& forall|x: Seq<char>, m: int|
        groups.contains_key(x) && 0 <= m < i ==> (#[trigger] groups[x]@.contains(m as usize)
            <==> in_group(rows, filter, x, m))
}

/// Group the filtered rows by project.
fn group_rows(recs: &[(String, IssueHeading)], project_filter: Option<&str>) -> (g: TextMap<Vec<usize>>)
    ensures
        groups_ok(recs@, opt_str(project_filter), g.view(), recs.len() as int),
{
    let ghost filter = opt_str(project_filter);
    let mut g: TextMap<Vec<usize>> = TextMap::new();
    let mut i: usize = 0;
    while i < recs.len()
        invariant
            i <= recs.len(),
            filter == opt_str(project_filter),
            groups_ok(recs@, filter, g.view(), i as int),
        decreases recs.len() - i,
    {
        let keep = match project_filter {
            Some(p) => str_eq(recs[i].0.as_str(), p),
            None => true,
        };
        let ghost g0 = g.view();
        if keep {
            let p = &recs[i].0;
            let mut v = match g.remove(p.as_str()) {
                Some(v) => v,
                None => Vec::new(),
            };
            let ghost v0 = v@;
            v.push(i);
            g.insert(p.clone(), v);
            proof {
                let x0 = p@;
                assert forall|x: Seq<char>| #[trigger] g.view().contains_key(x) <==> exists|m: int|
                    0 <= m < i + 1 && in_project(#[trigger] recs@[m], filter) && recs@[m].0@ == x by {
                    if x == x0 {
                        assert(in_project(recs@[i as int], filter) && recs@[i as int].0@ == x);
                    } else if g0.contains_key(x) {
                        let m = choose|m: int| 0 <= m < i && in_project(#[trigger] recs@[m], filter) && recs@[m].0@ == x;
                        assert(0 <= m < i + 1);
                    } else if exists|m: int| 0 <= m < i + 1 && in_project(#[trigger] recs@[m], filter) && recs@[m].0@ == x {
                        let m = choose|m: int| 0 <= m < i + 1 && in_project(#[trigger] recs@[m], filter) && recs@[m].0@ == x;
                        assert(m != i);
                    }
                }
                assert forall|x: Seq<char>, a: int, b: int|
                    g.view().contains_key(x) && 0 <= a < b < g.view()[x].len() implies #[trigger] g.view()[x]@[a]
                        < #[trigger] g.view()[x]@[b] by {
                    if x == x0 {
                        if b == v0.len() {
                            if g0.contains_key(x0) {
                                assert(g0[x0]@[a] < i);
                            }
                        }
                    }
                }
                assert forall|x: Seq<char>, k: int|
                    g.view().contains_key(x) && 0 <= k < g.view()[x].len() implies #[trigger] g.view()[x]@[k] < i + 1 by {
                    if x == x0 && k < v0.len() {
                        assert(g0[x0]@[k] < i);
                    }
                }
                assert forall|x: Seq<char>, m: int|
                    g.view().contains_key(x) && 0 <= m < i + 1 implies (#[trigger] g.view()[x]@.contains(m as usize)
                        <==> in_group(recs@, filter, x, m)) by {
                    if x == x0 {
                        let w = g.view()[x0]@;
                        assert(w == v0.push(i));
                        if m == i {
                            assert(w[v0.len() as int] == i);
                        } else {
                            if w.contains(m as usize) {
                                let k = choose|k: int| 0 <= k < w.len() && w[k] == m as usize;
                                if k == v0.len() {
                                } else {
                                    assert(v0[k] == m as usize);
                                    assert(g0.contains_key(x0));
                                    assert(g0[x0]@.contains(m as usize));
                                }
                            }
                            if in_group(recs@, filter, x, m) {
                                assert(g0.contains_key(x0)) by {
                                    assert(in_project(recs@[m], filter) && recs@[m].0@ == x0);
                                }
                                assert(g0[x0]@.contains(m as usize));
                                let k = choose|k: int| 0 <= k < v0.len() && v0[k] == m as usize;
                                assert(w[k] == m as usize);
                            }
                        }
                    } else {
                        assert(g0.contains_key(x));
                        if m == i {
                            if g0[x]@.contains(m as usize) {
                                let k = choose|k: int| 0 <= k < g0[x]@.len() && g0[x]@[k] == m as usize;
                                assert(g0[x]@[k] < i);
                            }
                        }
                    }
                }
            }
        } else {
            proof {
                assert forall|x: Seq<char>| #[trigger] g.view().contains_key(x) <==> exists|m: int|
                    0 <= m < i + 1 && in_project(#[trigger] recs@[m], filter) && recs@[m].0@ == x by {
                    if exists|m: int| 0 <= m < i + 1 && in_project(#[trigger] recs@[m], filter) && recs@[m].0@ == x {
                        let m = choose|m: int| 0 <= m < i + 1 && in_project(#[trigger] recs@[m], filter) && recs@[m].0@ == x;
                        assert(m != i);
                    }
                }
                assert forall|x: Seq<char>, m: int|
                    g.view().contains_key(x) && 0 <= m < i + 1 implies (#[trigger] g.view()[x]@.contains(m as usize)
                        <==> in_group(recs@, filter, x, m)) by {
                    if m == i && g.view()[x]@.contains(m as usize) {
                        let k = choose|k: int| 0 <= k < g.view()[x]@.len() && g.view()[x]@[k] == m as usize;
                        assert(g.view()[x]@[k] < i);
                    }
                }
            }
        }
        i = i + 1;
    }
    g
}


/// A markdown roadmap grouped by project and state. Closed items collapse
/// into one section so the document stays about live work.
pub fn roadmap(recs: &[(String, IssueHeading)], project_filter: Option<&str>) -> (r: String)
    ensures
        exists|projects: Seq<Seq<char>>, orders: Seq<Seq<usize>>|
            grouped(recs@, opt_str(project_filter), projects, orders) && r@ == roadmap_head()
                + roadmap_sections(recs@, projects, orders),
{
    let ghost filter = opt_str(project_filter);
    let g = group_rows(recs, project_filter);
    let mut out = String::new();
    out.push_str("# Roadmap\n\n");
    out.push_str(
        "Generated from `vissue roadmap`. Source of truth lives in the per-project issues.org files.\n\n",
    );
    let ghost head = out@;
    let n = g.len();
    let ghost projects = g.key_seq();
    let ghost mut orders: Seq<Seq<usize>> = seq![];
    let mut k: usize = 0;
    while k < n
        invariant
            k <= n,
            n == g.key_seq().len(),
            g.shaped(),
            projects == g.key_seq(),
            filter == opt_str(project_filter),
            groups_ok(recs@, filter, g.view(), recs.len() as int),
            orders.len() == k,
            forall|j: int|
                0 <= j < k ==> sorted_selection(
                    recs@,
                    |i: int| in_group(recs@, filter, projects[j], i),
                    #[trigger] orders[j],
                ),
            out@ == head + roadmap_sections(recs@, projects.take(k as int), orders),
        decreases n - k,
    {
        let key = g.key_at(k);
        let v = g.value_at(k);
        proof {
            assert(g.view().contains_key(projects[k as int])) by {
                assert(g.key_seq().contains(projects[k as int]));
            }
            assert(g.view()[projects[k as int]] == *v);
        }
        let order = sort_selected(recs, v);
        proof {
            let x = projects[k as int];
            let chosen = |i: int| v@.contains(i as usize);
            let keep = |i: int| in_group(recs@, filter, x, i);
            assert forall|m: int| 0 <= m < recs@.len() implies #[trigger] chosen(m) == keep(m) by {
                assert(g.view()[x]@.contains(m as usize) <==> in_group(recs@, filter, x, m));
            }
            lemma_selection_restated(recs@, chosen, keep, order@);
            assert forall|m: int| 0 <= m < order@.len() implies #[trigger] order@[m] < recs.len() by {}
        }
        let ghost before = out@;
        push_project_section(&mut out, recs, key.as_str(), &order);
        proof {
            let ps = projects.take(k + 1);
            let os = orders.push(order@);
            assert(ps.drop_last() =~= projects.take(k as int));
            assert(os.drop_last() =~= orders);
            assert(ps.last() == key@);
            orders = os;
        }
        k = k + 1;
    }
    proof {
        assert(projects.take(n as int) =~= projects);
        assert forall|x: Seq<char>|
            projects.contains(x) <==> exists|i: int|
                0 <= i < recs@.len() && in_project(#[trigger] recs@[i], filter) && recs@[i].0@ == x by {
            assert(g.view().contains_key(x) <==> g.key_seq().contains(x));
        }
        assert(grouped(recs@, filter, projects, orders));
    }
    out
}


/// What `chrono::NaiveDate::parse_from_str(token, "%Y-%m-%d")` gives, as
/// (year, month, day).
pub uninterp spec fn ymd_date(token: Seq<char>) -> Option<(i32, u32, u32)>;

/// `chrono::NaiveDate::parse_from_str(token, "%Y-%m-%d")`, with the date
/// read back through `Datelike::{year, month, day}`.
#[verifier::external_body]
fn parse_ymd(token: &str) -> (r: Option<(i32, u32, u32)>)
    ensures
        r == ymd_date(token@),
{
    chrono::NaiveDate::parse_from_str(token, "%Y-%m-%d").ok().map(
        |d| (chrono::Datelike::year(&d), chrono::Datelike::month(&d), chrono::Datelike::day(&d)),
    )
}

/// Index of the first character at or after `i` that is not `a` or `b`.
pub open spec fn lead_two(s: Seq<char>, i: int, a: char, b: char) -> int
    decreases s.len() - i,
{
    if 0 <= i < s.len() && (s[i] == a || s[i] == b) {
        lead_two(s, i + 1, a, b)
    } else {
        i
    }
}

/// Index just past the last character before `j` that is not `a` or `b`.
pub open spec fn trail_two(s: Seq<char>, j: int, a: char, b: char) -> int
    decreases j,
{
    if 0 < j <= s.len() && (s[j - 1] == a || s[j - 1] == b) {
        trail_two(s, j - 1, a, b)
    } else {
        j
    }
}

/// The date inside an org stamp: brackets trimmed, first word, parsed as
/// `YYYY-MM-DD`.
pub open spec fn org_date(s: Seq<char>) -> Option<(i32, u32, u32)> {
    let a = lead_two(s, 0, '<', '[');
    let inner = s.subrange(a, s.len() as int);
    let inner = inner.subrange(0, trail_two(inner, inner.len() as int, '>', ']'));
    let ws = crate::text::words(inner);
    if ws.len() == 0 {
        None
    } else {
        ymd_date(ws[0])
    }
}

/// Parse the date of an org stamp such as `<2026-05-15 Fri>`.
pub fn parse_org_date(s: &str) -> (r: Option<(i32, u32, u32)>)
    ensures
        r == org_date(s@),
{
    let cs = chars_of(s);
    let mut a: usize = 0;
    while a < cs.len() && (cs[a] == '<' || cs[a] == '[')
        invariant
            a <= cs.len(),
            cs@ == s@,
            lead_two(s@, a as int, '<', '[') == lead_two(s@, 0, '<', '['),
        decreases cs.len() - a,
    {
        a = a + 1;
    }
    let inner = crate::text::slice_of(&cs, a, cs.len());
    let mut b = inner.len();
    while b > 0 && (inner[b - 1] == '>' || inner[b - 1] == ']')
        invariant
            b <= inner.len(),
            trail_two(inner@, b as int, '>', ']') == trail_two(inner@, inner@.len() as int, '>', ']'),
        decreases b,
    {
        b = b - 1;
    }
    let inner = crate::text::slice_of(&inner, 0, b);
    let ws = crate::text::words_exec(&inner);
    proof {
        assert(ws@.map_values(|w: Vec<char>| w@) == crate::text::words(inner@));
    }
    if ws.len() == 0 {
        return None;
    }
    assert(ws@.map_values(|w: Vec<char>| w@)[0] == ws@[0]@);
    parse_ymd(string_of(&ws[0]).as_str())
}

/// Outcome of [`check`]: the findings, and how many were errors and
/// warnings.
#[derive(Debug, Clone)]
pub struct CheckReport {
    pub text: String,
    pub errors: usize,
    pub warnings: usize,
}

/// The last row before `i` with the same id, if any.
pub open spec fn earlier_same_id(rows: Seq<(String, IssueHeading)>, i: int, j: int) -> Option<int>
    decreases j,
{
    if j <= 0 {
        None
    } else if rows[j - 1].1.id@ == rows[i].1.id@ {
        Some(j - 1)
    } else {
        earlier_same_id(rows, i, j - 1)
    }
}

/// The duplicate-id line of row `i`, if an earlier row has its id.
pub open spec fn dup_line(rows: Seq<(String, IssueHeading)>, i: int) -> Seq<char> {
    match earlier_same_id(rows, i, i) {
        Some(j) => "[dup]  duplicate id: "@ + rows[i].1.id@ + " appears in "@ + rows[j].0@ + " and "@
            + rows[i].0@ + "\n"@,
        None => seq![],
    }
}

/// The duplicate-id lines of the first `n` rows.
pub open spec fn dup_lines(rows: Seq<(String, IssueHeading)>, n: int) -> Seq<char>
    decreases n,
{
    if n <= 0 {
        seq![]
    } else {
        dup_lines(rows, n - 1) + dup_line(rows, n - 1)
    }
}

/// Whether some row in the corpus has id `x`.
pub open spec fn has_id(rows: Seq<(String, IssueHeading)>, x: Seq<char>) -> bool {
    exists|j: int| 0 <= j < rows.len() && #[trigger] rows[j].1.id@ == x
}

/// A finding: its line, and whether it is an error (else a warning).
pub open spec fn finding(prefix: Seq<char>, h: IssueHeading, project: Seq<char>, rest: Seq<char>) -> Seq<char> {
    prefix + h.id@ + " (in "@ + project + ") "@ + rest + "\n"@
}

/// The blocker findings of one heading.
pub open spec fn blocker_findings(
    rows: Seq<(String, IssueHeading)>,
    h: IssueHeading,
    project: Seq<char>,
    bs: Seq<Seq<char>>,
) -> Seq<Seq<char>>
    decreases bs.len(),
{
    if bs.len() == 0 {
        seq![]
    } else {
        blocker_findings(rows, h, project, bs.drop_last()) + if has_id(rows, bs.last()) {
            seq![]
        } else {
            seq![finding("[err]  "@, h, project, ":BLOCKED_BY: "@ + bs.last() + " -> not found"@)]
        }
    }
}

/// The error lines of one row, in order.
pub open spec fn row_errors(
    rows: Seq<(String, IssueHeading)>,
    org_ids: Seq<Seq<char>>,
    row: (String, IssueHeading),
) -> Seq<Seq<char>> {
    let h = row.1;
    let p = row.0@;
    (match prop(h, "PARENT"@) {
        Some(parent) => if org_ids.contains(parent) {
            seq![]
        } else {
            seq![finding("[err]  "@, h, p, ":PARENT: "@ + parent + " -> not found"@)]
        },
        None => seq![],
    }) + blocker_findings(rows, h, p, blockers(h)) + (match prop(h, "DEADLINE"@) {
        Some(d) => if org_date(d) is None {
            seq![finding("[err]  "@, h, p, ":DEADLINE: "@ + d + " -> unparseable"@)]
        } else {
            seq![]
        },
        None => seq![],
    }) + (match prop(h, "SCHEDULED"@) {
        Some(d) => if org_date(d) is None {
            seq![finding("[err]  "@, h, p, ":SCHEDULED: "@ + d + " -> unparseable"@)]
        } else {
            seq![]
        },
        None => seq![],
    })
}

/// The warning lines of one row.
pub open spec fn row_warnings(org_ids: Seq<Seq<char>>, row: (String, IssueHeading)) -> Seq<Seq<char>> {
    let h = row.1;
    let head = "[warn] "@ + h.id@ + " (in "@ + row.0@ + ") "@;
    (if ready_state(h.state@) && !h.properties.view().contains_key("CREATED"@) {
        seq![head + "state="@ + h.state@ + " but :CREATED: is missing\n"@]
    } else {
        seq![]
    }) + (if h.state@ == "DONE"@ && find_from(crate::text::lower_seq(h.body@), "reject"@, 0) is Some {
        seq![head + "state=DONE but the body reads as a reject\n"@]
    } else {
        seq![]
    }) + match crate::ops::first_link(h.body@, org_ids) {
        Some(t) => if t != h.id@ && prop(h, "DISCOVERED_FROM"@) is None && prop(h, "PIVOTED_TO"@) is None {
            seq![head + "mentions "@ + t + " in the body but has no DISCOVERED_FROM or PIVOTED_TO\n"@]
        } else {
            seq![]
        },
        None => seq![],
    }
}

/// Lines joined with nothing between them.
pub open spec fn concat(ls: Seq<Seq<char>>) -> Seq<char>
    decreases ls.len(),
{
    if ls.len() == 0 {
        seq![]
    } else {
        concat(ls.drop_last()) + ls.last()
    }
}

/// The findings of the first `n` rows.
pub open spec fn findings_text(
    rows: Seq<(String, IssueHeading)>,
    org_ids: Seq<Seq<char>>,
    n: int,
) -> Seq<char>
    decreases n,
{
    if n <= 0 {
        seq![]
    } else {
        findings_text(rows, org_ids, n - 1) + concat(row_errors(rows, org_ids, rows[n - 1])) + concat(
            row_warnings(org_ids, rows[n - 1]),
        )
    }
}

/// How many errors the first `n` rows hold.
pub open spec fn error_count(rows: Seq<(String, IssueHeading)>, org_ids: Seq<Seq<char>>, n: int) -> nat
    decreases n,
{
    if n <= 0 {
        0
    } else {
        error_count(rows, org_ids, n - 1) + row_errors(rows, org_ids, rows[n - 1]).len()
    }
}

/// How many warnings the first `n` rows hold.
pub open spec fn warning_count(rows: Seq<(String, IssueHeading)>, org_ids: Seq<Seq<char>>, n: int) -> nat
    decreases n,
{
    if n <= 0 {
        0
    } else {
        warning_count(rows, org_ids, n - 1) + row_warnings(org_ids, rows[n - 1]).len()
    }
}

/// The whole check text.
pub open spec fn check_text(
    rows: Seq<(String, IssueHeading)>,
    org_ids: Seq<Seq<char>>,
    project_count: nat,
) -> Seq<char> {
    dup_lines(rows, rows.len() as int) + findings_text(rows, org_ids, rows.len() as int) + "\n"@
        + "checked "@ + decimal(rows.len()) + " issue(s) across "@ + decimal(project_count)
        + " project(s): "@ + decimal(error_count(rows, org_ids, rows.len() as int)) + " error(s), "@
        + decimal(warning_count(rows, org_ids, rows.len() as int)) + " warning(s)\n"@
}


fn earlier_same_id_exec(rows: &[(String, IssueHeading)], i: usize) -> (r: Option<usize>)
    requires
        i < rows.len(),
    ensures
        match earlier_same_id(rows@, i as int, i as int) {
            Some(j) => r == Some(j as usize) && 0 <= j < i,
            None => r is None,
        },
{
    let mut j = i;
    while j > 0
        invariant
            j <= i < rows.len(),
            earlier_same_id(rows@, i as int, j as int) == earlier_same_id(rows@, i as int, i as int),
        decreases j,
    {
        if str_eq(rows[j - 1].1.id.as_str(), rows[i].1.id.as_str()) {
            return Some(j - 1);
        }
        j = j - 1;
    }
    None
}

fn has_id_exec(rows: &[(String, IssueHeading)], x: &str) -> (r: bool)
    ensures
        r == has_id(rows@, x@),
{
    let mut j: usize = 0;
    while j < rows.len()
        invariant
            j <= rows.len(),
            forall|k: int| 0 <= k < j ==> #[trigger] rows@[k].1.id@ != x@,
        decreases rows.len() - j,
    {
        if str_eq(rows[j].1.id.as_str(), x) {
            return true;
        }
        j = j + 1;
    }
    false
}

fn lists_in(v: &[String], k: &str) -> (r: bool)
    ensures
        r == v@.map_values(|x: String| x@).contains(k@),
{
    let mut i: usize = 0;
    while i < v.len()
        invariant
            i <= v.len(),
            forall|j: int| 0 <= j < i ==> #[trigger] v@[j]@ != k@,
        decreases v.len() - i,
    {
        if str_eq(v[i].as_str(), k) {
            assert(v@.map_values(|x: String| x@)[i as int] == k@);
            return true;
        }
        i = i + 1;
    }
    proof {
        let vv = v@.map_values(|x: String| x@);
        if vv.contains(k@) {
            let j = choose|j: int| 0 <= j < vv.len() && vv[j] == k@;
            assert(v@[j]@ == k@);
        }
    }
    false
}

fn push_finding(out: &mut String, prefix: &str, h: &IssueHeading, project: &str, label: &str, value: &str, tail: &str)
    ensures
        final(out)@ == old(out)@ + finding(prefix@, *h, project@, label@ + value@ + tail@),
{
    out.push_str(prefix);
    out.push_str(h.id.as_str());
    out.push_str(" (in ");
    out.push_str(project);
    out.push_str(") ");
    out.push_str(label);
    out.push_str(value);
    out.push_str(tail);
    out.push_str("\n");
}

/// Append the error lines of one row; `count` grows by how many there were.
#[verifier::rlimit(40)]
fn push_row_errors(
    out: &mut String,
    rows: &[(String, IssueHeading)],
    org_ids: &[String],
    i: usize,
    count: &mut usize,
    marks: &mut Vec<bool>,
)
    requires
        i < rows.len(),
        *old(count) == old(marks).len(),
    ensures
        final(out)@ == old(out)@ + concat(
            row_errors(rows@, org_ids@.map_values(|x: String| x@), rows@[i as int]),
        ),
        *final(count) == *old(count) + row_errors(
            rows@,
            org_ids@.map_values(|x: String| x@),
            rows@[i as int],
        ).len(),
        *final(count) == final(marks).len(),
{
    let ghost ids = org_ids@.map_values(|x: String| x@);
    let ghost row = rows@[i as int];
    let (project, h) = (&rows[i].0, &rows[i].1);
    let ghost o0 = out@;
    let ghost parts0: Seq<Seq<char>> = match prop(*h, "PARENT"@) {
        Some(parent) => if ids.contains(parent) {
            seq![]
        } else {
            seq![finding("[err]  "@, *h, project@, ":PARENT: "@ + parent + " -> not found"@)]
        },
        None => seq![],
    };
    if let Some(parent) = h.parent() {
        if !lists_in(org_ids, parent) {
            push_finding(out, "[err]  ", h, project.as_str(), ":PARENT: ", parent, " -> not found");
            marks.push(true);
            *count = marks.len();
        }
    }
    assert(out@ =~= o0 + concat(parts0)) by {
        if parts0.len() == 1 {
            assert(concat(parts0) =~= concat(parts0.drop_last()) + parts0.last());
            assert(parts0.drop_last() =~= Seq::<Seq<char>>::empty());
        }
    }
    let bs = h.blocked_by();
    let ghost bv = bs@.map_values(|x: String| x@);
    let ghost o1 = out@;
    let mut k: usize = 0;
    while k < bs.len()
        invariant
            k <= bs.len(),
            bv == bs@.map_values(|x: String| x@),
            bv == blockers(*h),
            *count == marks.len(),
            *count == *old(count) + parts0.len() + blocker_findings(rows@, *h, project@, bv.take(k as int)).len(),
            out@ == o1 + concat(blocker_findings(rows@, *h, project@, bv.take(k as int))),
        decreases bs.len() - k,
    {
        proof {
            assert(bv.take(k + 1).drop_last() =~= bv.take(k as int));
            assert(bv.take(k + 1).last() == bs@[k as int]@);
        }
        let ghost before = blocker_findings(rows@, *h, project@, bv.take(k as int));
        if !has_id_exec(rows, bs[k].as_str()) {
            push_finding(out, "[err]  ", h, project.as_str(), ":BLOCKED_BY: ", bs[k].as_str(), " -> not found");
            marks.push(true);
            *count = marks.len();
            proof {
                let after = blocker_findings(rows@, *h, project@, bv.take(k + 1));
                assert(after =~= before.push(finding("[err]  "@, *h, project@, ":BLOCKED_BY: "@ + bs@[k as int]@ + " -> not found"@)));
                assert(after.drop_last() =~= before);
                assert(concat(after) =~= concat(before) + after.last());
            }
        } else {
            proof {
                let after = blocker_findings(rows@, *h, project@, bv.take(k + 1));
                assert(after =~= before);
            }
        }
        k = k + 1;
    }
    assert(bv.take(bs.len() as int) =~= bv);
    let ghost o2 = out@;
    let ghost parts2: Seq<Seq<char>> = match prop(*h, "DEADLINE"@) {
        Some(d) => if org_date(d) is None {
            seq![finding("[err]  "@, *h, project@, ":DEADLINE: "@ + d + " -> unparseable"@)]
        } else {
            seq![]
        },
        None => seq![],
    };
    if let Some(d) = h.deadline() {
        if parse_org_date(d).is_none() {
            push_finding(out, "[err]  ", h, project.as_str(), ":DEADLINE: ", d, " -> unparseable");
            marks.push(true);
            *count = marks.len();
        }
    }
    assert(out@ =~= o2 + concat(parts2)) by {
        if parts2.len() == 1 {
            assert(concat(parts2) =~= concat(parts2.drop_last()) + parts2.last());
            assert(parts2.drop_last() =~= Seq::<Seq<char>>::empty());
        }
    }
    let ghost o3 = out@;
    let ghost parts3: Seq<Seq<char>> = match prop(*h, "SCHEDULED"@) {
        Some(d) => if org_date(d) is None {
            seq![finding("[err]  "@, *h, project@, ":SCHEDULED: "@ + d + " -> unparseable"@)]
        } else {
            seq![]
        },
        None => seq![],
    };
    if let Some(d) = h.scheduled() {
        if parse_org_date(d).is_none() {
            push_finding(out, "[err]  ", h, project.as_str(), ":SCHEDULED: ", d, " -> unparseable");
            marks.push(true);
            *count = marks.len();
        }
    }
    assert(out@ =~= o3 + concat(parts3)) by {
        if parts3.len() == 1 {
            assert(concat(parts3) =~= concat(parts3.drop_last()) + parts3.last());
            assert(parts3.drop_last() =~= Seq::<Seq<char>>::empty());
        }
    }
    proof {
        let b = blocker_findings(rows@, *h, project@, bv);
        lemma_concat_add(parts0, b);
        lemma_concat_add(parts0 + b, parts2);
        lemma_concat_add(parts0 + b + parts2, parts3);
        assert(row_errors(rows@, ids, row) == parts0 + b + parts2 + parts3);
    }
}

/// Append one warning line to `out`, counting it.
fn push_warning(out: &mut String, head: &String, tail: &str, count: &mut usize, marks: &mut Vec<bool>)
    requires
        *old(count) == old(marks).len(),
    ensures
        final(out)@ == old(out)@ + head@ + tail@,
        *final(count) == *old(count) + 1,
        *final(count) == final(marks).len(),
{
    out.push_str(head.as_str());
    out.push_str(tail);
    marks.push(true);
    *count = marks.len();
}

proof fn lemma_concat_opt(a: Seq<Seq<char>>)
    requires
        a.len() <= 1,
    ensures
        concat(a) == if a.len() == 1 { a[0] } else { seq![] },
{
    if a.len() == 1 {
        assert(a.drop_last() =~= Seq::<Seq<char>>::empty());
        assert(concat(a.drop_last()) =~= Seq::<char>::empty());
        assert(concat(a) =~= a[0]);
    } else {
        assert(concat(a) =~= Seq::<char>::empty());
    }
}

/// Append the warning lines of one row; `count` grows by one for each.
#[verifier::spinoff_prover]
#[verifier::rlimit(50)]
fn push_row_warnings(
    out: &mut String,
    org_ids: &[String],
    row: &(String, IssueHeading),
    count: &mut usize,
    marks: &mut Vec<bool>,
)
    requires
        *old(count) == old(marks).len(),
    ensures
        final(out)@ == old(out)@ + concat(row_warnings(org_ids@.map_values(|x: String| x@), *row)),
        *final(count) == *old(count) + row_warnings(org_ids@.map_values(|x: String| x@), *row).len(),
        *final(count) == final(marks).len(),
{
    let ghost ids = org_ids@.map_values(|x: String| x@);
    let ghost o0 = out@;
    let ghost c0 = *count as int;
    let h = &row.1;
    let mut head = "[warn] ".to_string();
    head.push_str(h.id.as_str());
    head.push_str(" (in ");
    head.push_str(row.0.as_str());
    head.push_str(") ");
    let ghost hd = head@;
    let ghost w1: Seq<Seq<char>> = if ready_state(h.state@) && !h.properties.view().contains_key("CREATED"@) {
        seq![hd + "state="@ + h.state@ + " but :CREATED: is missing\n"@]
    } else {
        seq![]
    };
    let ready = str_eq(h.state.as_str(), "TODO") || str_eq(h.state.as_str(), "STARTED");
    if ready && !h.properties.contains_key("CREATED") {
        let mut tail = "state=".to_string();
        tail.push_str(h.state.as_str());
        tail.push_str(" but :CREATED: is missing\n");
        push_warning(out, &head, tail.as_str(), count, marks);
    }
    proof { lemma_concat_opt(w1); }
    assert(out@ =~= o0 + concat(w1));
    let ghost o1 = out@;
    let ghost w2: Seq<Seq<char>> = if h.state@ == "DONE"@ && find_from(crate::text::lower_seq(h.body@), "reject"@, 0) is Some {
        seq![hd + "state=DONE but the body reads as a reject\n"@]
    } else {
        seq![]
    };
    if str_eq(h.state.as_str(), "DONE") {
        let low = crate::fuzzy::ascii_lower(&chars_of(h.body.as_str()));
        if find_seq(&low, &chars_of("reject"), 0).is_some() {
            push_warning(out, &head, "state=DONE but the body reads as a reject\n", count, marks);
        }
    }
    proof { lemma_concat_opt(w2); }
    assert(out@ =~= o1 + concat(w2));
    let ghost o2 = out@;
    let ghost w3: Seq<Seq<char>> = match crate::ops::first_link(h.body@, ids) {
        Some(t) => if t != h.id@ && prop(*h, "DISCOVERED_FROM"@) is None && prop(*h, "PIVOTED_TO"@) is None {
            seq![hd + "mentions "@ + t + " in the body but has no DISCOVERED_FROM or PIVOTED_TO\n"@]
        } else {
            seq![]
        },
        None => seq![],
    };
    if let Some(t) = crate::ops::first_existing_id_link(h.body.as_str(), org_ids) {
        if !str_eq(t.as_str(), h.id.as_str()) && h.prop_str("DISCOVERED_FROM").is_none()
            && h.prop_str("PIVOTED_TO").is_none() {
            let mut tail = "mentions ".to_string();
            tail.push_str(t.as_str());
            tail.push_str(" in the body but has no DISCOVERED_FROM or PIVOTED_TO\n");
            push_warning(out, &head, tail.as_str(), count, marks);
        }
    }
    proof {
        lemma_concat_opt(w3);
        let w = row_warnings(ids, *row);
        assert(w == w1 + w2 + w3);
        lemma_concat_add(w1, w2);
        lemma_concat_add(w1 + w2, w3);
    }
    assert(out@ =~= o2 + concat(w3));
}

/// Validate a loaded corpus: every parent id is among `org_ids`, every
/// blocker id names a heading of the corpus, dates parse, open issues carry
/// a creation date, and ids are unique across projects. `project_count` is
/// how many projects the corpus was read from.
pub fn check(rows: &[(String, IssueHeading)], org_ids: &[String], project_count: usize) -> (r: CheckReport)
    ensures
        r.text@ == check_text(rows@, org_ids@.map_values(|x: String| x@), project_count as nat),
        r.errors == error_count(rows@, org_ids@.map_values(|x: String| x@), rows.len() as int),
        r.warnings == warning_count(rows@, org_ids@.map_values(|x: String| x@), rows.len() as int),
{
    let ghost ids = org_ids@.map_values(|x: String| x@);
    let mut out = String::new();
    let mut i: usize = 0;
    while i < rows.len()
        invariant
            i <= rows.len(),
            out@ == dup_lines(rows@, i as int),
        decreases rows.len() - i,
    {
        let ghost before = out@;
        if let Some(j) = earlier_same_id_exec(rows, i) {
            out.push_str("[dup]  duplicate id: ");
            out.push_str(rows[i].1.id.as_str());
            out.push_str(" appears in ");
            out.push_str(rows[j].0.as_str());
            out.push_str(" and ");
            out.push_str(rows[i].0.as_str());
            out.push_str("\n");
        }
        assert(out@ =~= before + dup_line(rows@, i as int));
        i = i + 1;
    }
    let ghost dups = out@;
    let mut errors: usize = 0;
    let mut warnings: usize = 0;
    let mut emarks: Vec<bool> = Vec::new();
    let mut wmarks: Vec<bool> = Vec::new();
    let mut i: usize = 0;
    while i < rows.len()
        invariant
            i <= rows.len(),
            ids == org_ids@.map_values(|x: String| x@),
            out@ == dups + findings_text(rows@, ids, i as int),
            errors == emarks.len(),
            warnings == wmarks.len(),
            errors == error_count(rows@, ids, i as int),
            warnings == warning_count(rows@, ids, i as int),
        decreases rows.len() - i,
    {
        let ghost before = out@;
        push_row_errors(&mut out, rows, org_ids, i, &mut errors, &mut emarks);
        push_row_warnings(&mut out, org_ids, &rows[i], &mut warnings, &mut wmarks);
        assert(out@ =~= dups + findings_text(rows@, ids, i + 1));
        i = i + 1;
    }
    out.push_str("\n");
    out.push_str("checked ");
    out.push_str(string_of(&decimal_chars(rows.len() as u64)).as_str());
    out.push_str(" issue(s) across ");
    out.push_str(string_of(&decimal_chars(project_count as u64)).as_str());
    out.push_str(" project(s): ");
    out.push_str(string_of(&decimal_chars(errors as u64)).as_str());
    out.push_str(" error(s), ");
    out.push_str(string_of(&decimal_chars(warnings as u64)).as_str());
    out.push_str(" warning(s)\n");
    CheckReport { text: out, errors, warnings }
}

/// The day count of a (year, month, day).
pub open spec fn day_of(date: (i32, u32, u32)) -> int {
    crate::log::days_from_civil(date.0 as int, date.1 as int, date.2 as int)
}

/// Whether `days` before `today` is a day the calendar holds, so that the
/// cut-off of a staleness query exists.
pub open spec fn window_ok(today: (i32, u32, u32), days: i64) -> bool {
    &&& -106_751_991_167 <= days <= 106_751_991_167
    &&& -96_465_292 <= day_of(today) - days <= 95_026_236
}

/// The creation day of a heading that a staleness query counts: an open,
/// workable one whose `:CREATED:` parses.
pub open spec fn created_day(h: IssueHeading) -> Option<int> {
    if ready_state(h.state@) {
        match prop(h, "CREATED"@) {
            Some(c) => match org_date(c) {
                Some(d) => Some(day_of(d)),
                None => None,
            },
            None => None,
        }
    } else {
        None
    }
}

/// Whether row `i` is stale on the day numbered `today` for a threshold of
/// `days`, within the project filter.
pub open spec fn is_stale(rows: Seq<(String, IssueHeading)>, i: int, project: Option<Seq<char>>, today: int, days: int) -> bool {
    &&& (project matches Some(p) ==> rows[i].0@ == p)
    &&& created_day(rows[i].1) matches Some(c) && c <= today - days
}

/// Whether `order` lists exactly the stale rows, oldest first, rows created
/// the same day in corpus order.
pub open spec fn stale_order(rows: Seq<(String, IssueHeading)>, project: Option<Seq<char>>, today: int, days: int, order: Seq<usize>) -> bool {
    &&& forall|k: int| 0 <= k < order.len() ==> #[trigger] order[k] < rows.len() && is_stale(rows, order[k] as int, project, today, days)
    &&& forall|i: int| 0 <= i < rows.len() && is_stale(rows, i, project, today, days) ==> exists|k: int| 0 <= k < order.len() && #[trigger] order[k] == i
    &&& forall|a: int, b: int|
        #![trigger order[a], order[b]]
        0 <= a < b < order.len() ==> {
            let ca = created_day(rows[order[a] as int].1)->0;
            let cb = created_day(rows[order[b] as int].1)->0;
            ca < cb || (ca == cb && order[a] < order[b])
        }
}

/// `n` as `{}` prints a signed integer.
pub open spec fn signed_decimal(n: int) -> Seq<char> {
    if n < 0 {
        seq!['-'] + decimal((-n) as nat)
    } else {
        decimal(n as nat)
    }
}

/// One stale row's line: the listing columns, then its age in days and its
/// project.
pub open spec fn stale_line(row: (String, IssueHeading), age: int) -> Seq<char> {
    pad_right(row.1.id@, 22) + " "@ + pad_right(row.1.state@, 9) + " [#"@ + seq![row.1.priority] + "]  "@
        + row.1.title@ + " ("@ + signed_decimal(age) + "d, "@ + row.0@ + ")\n"@
}

/// The lines of the rows in `order`, aged against day `today`.
pub open spec fn stale_text(rows: Seq<(String, IssueHeading)>, order: Seq<usize>, today: int) -> Seq<char>
    decreases order.len(),
{
    if order.len() == 0 {
        seq![]
    } else {
        stale_text(rows, order.drop_last(), today) + stale_line(
            rows[order.last() as int],
            today - created_day(rows[order.last() as int].1)->0,
        )
    }
}

fn created_day_exec(h: &IssueHeading) -> (r: Option<i64>)
    ensures
        match created_day(*h) {
            Some(c) => r == Some(c as i64) && i64::MIN <= c <= i64::MAX,
            None => r is None,
        },
{
    if !(str_eq(h.state.as_str(), "TODO") || str_eq(h.state.as_str(), "STARTED")) {
        return None;
    }
    match h.prop_str("CREATED") {
        Some(c) => match parse_org_date(c) {
            Some(d) => {
                let n = crate::log::day_number(d.0, d.1, d.2);
                Some(n)
            },
            None => None,
        },
        None => None,
    }
}

pub(crate) fn push_signed(out: &mut String, v: i64)
    ensures
        final(out)@ == old(out)@ + signed_decimal(v as int),
{
    if v < 0 {
        out.push_str("-");
        proof {
            reveal_strlit("-");
        }
        let m: u64 = if v == i64::MIN { 9_223_372_036_854_775_808u64 } else { (-v) as u64 };
        out.push_str(string_of(&decimal_chars(m)).as_str());
    } else {
        out.push_str(string_of(&decimal_chars(v as u64)).as_str());
    }
}

/// Open issues whose `:CREATED:` is at least `days` old on `today`, oldest
/// first. An issue without a parseable date is never stale, because its
/// age is unknown.
pub fn stale_at(recs: &[(String, IssueHeading)], days: i64, project_filter: Option<&str>, today: (i32, u32, u32)) -> (r: String)
    requires
        window_ok(today, days),
    ensures
        exists|order: Seq<usize>|
            stale_order(recs@, opt_str(project_filter), day_of(today), days as int, order)
                && r@ == stale_text(recs@, order, day_of(today)),
{
    let t = crate::log::day_number(today.0, today.1, today.2);
    let cutoff = t - days;
    let ghost proj = opt_str(project_filter);
    let mut picked: Vec<(i64, usize)> = Vec::new();
    let mut i: usize = 0;
    while i < recs.len()
        invariant
            i <= recs.len(),
            t == day_of(today),
            cutoff == t - days,
            proj == opt_str(project_filter),
            forall|a: int, b: int|
                #![trigger picked@[a], picked@[b]]
                0 <= a < b < picked.len() ==> picked@[a].0 < picked@[b].0 || (picked@[a].0 == picked@[b].0 && picked@[a].1 < picked@[b].1),
            forall|k: int| 0 <= k < picked.len() ==> #[trigger] picked@[k].1 < i && is_stale(recs@, picked@[k].1 as int, proj, t as int, days as int)
                && created_day(recs@[picked@[k].1 as int].1) == Some(picked@[k].0 as int),
            forall|j: int| 0 <= j < i && is_stale(recs@, j, proj, t as int, days as int) ==> exists|k: int| 0 <= k < picked.len() && #[trigger] picked@[k].1 == j,
        decreases recs.len() - i,
    {
        let keep_project = match project_filter {
            Some(p) => str_eq(recs[i].0.as_str(), p),
            None => true,
        };
        if keep_project {
            match created_day_exec(&recs[i].1) {
                Some(c) => {
                    if c <= cutoff {
                        let ghost before = picked@;
                        let mut at = picked.len();
                        while at > 0 && picked[at - 1].0 > c
                            invariant
                                at <= picked.len(),
                                picked@ == before,
                                forall|k: int| at <= k < picked.len() ==> #[trigger] picked@[k].0 > c,
                            decreases at,
                        {
                            at = at - 1;
                        }
                        picked.insert(at, (c, i));
                        proof {
                            assert forall|k: int| 0 <= k < picked.len() implies #[trigger] picked@[k].1 < i + 1 && is_stale(recs@, picked@[k].1 as int, proj, t as int, days as int)
                                && created_day(recs@[picked@[k].1 as int].1) == Some(picked@[k].0 as int) by {
                                if k < at {
                                    assert(picked@[k] == before[k]);
                                } else if k > at {
                                    assert(picked@[k] == before[k - 1]);
                                }
                            }
                            assert forall|a: int, b: int|
                                #![trigger picked@[a], picked@[b]]
                                0 <= a < b < picked.len() implies picked@[a].0 < picked@[b].0 || (picked@[a].0 == picked@[b].0 && picked@[a].1 < picked@[b].1) by {
                                if b < at {
                                    assert(picked@[a] == before[a] && picked@[b] == before[b]);
                                } else if a > at {
                                    assert(picked@[a] == before[a - 1] && picked@[b] == before[b - 1]);
                                } else if a == at {
                                    assert(picked@[b] == before[b - 1]);
                                } else if b == at {
                                    assert(picked@[a] == before[a]);
                                    assert(before[a].1 < i);
                                } else {
                                    assert(picked@[a] == before[a] && picked@[b] == before[b - 1]);
                                }
                            }
                            assert forall|j: int| 0 <= j < i + 1 && is_stale(recs@, j, proj, t as int, days as int) implies exists|k: int| 0 <= k < picked.len() && #[trigger] picked@[k].1 == j by {
                                if j == i {
                                    assert(picked@[at as int].1 == j);
                                } else {
                                    let k0 = choose|k: int| 0 <= k < before.len() && #[trigger] before[k].1 == j;
                                    if k0 < at {
                                        assert(picked@[k0] == before[k0]);
                                    } else {
                                        assert(picked@[k0 + 1] == before[k0]);
                                    }
                                }
                            }
                        }
                    }
                },
                None => {},
            }
        }
        i = i + 1;
    }
    proof {
        assert forall|q: int| 0 <= q < picked.len() implies #[trigger] picked@[q].0 <= t - days by {
            assert(is_stale(recs@, picked@[q].1 as int, proj, t as int, days as int));
        }
    }
    let mut out = String::new();
    let mut k: usize = 0;
    let ghost order: Seq<usize> = picked@.map_values(|p: (i64, usize)| p.1);
    while k < picked.len()
        invariant
            k <= picked.len(),
            t == day_of(today),
            order == picked@.map_values(|p: (i64, usize)| p.1),
            forall|q: int| 0 <= q < picked.len() ==> #[trigger] picked@[q].1 < recs.len()
                && created_day(recs@[picked@[q].1 as int].1) == Some(picked@[q].0 as int),
            window_ok(today, days),
            forall|q: int| 0 <= q < picked.len() ==> #[trigger] picked@[q].0 <= t - days,
            out@ == stale_text(recs@, order.take(k as int), t as int),
        decreases picked.len() - k,
    {
        proof {
            assert(order.take(k + 1).drop_last() =~= order.take(k as int));
            assert(order.take(k + 1).last() == picked@[k as int].1);
        }
        let (c, j) = picked[k];
        let row = &recs[j];
        push_padded(&mut out, row.1.id.as_str(), 22);
        out.push_str(" ");
        push_padded(&mut out, row.1.state.as_str(), 9);
        out.push_str(" [#");
        out.push(row.1.priority);
        out.push_str("]  ");
        out.push_str(row.1.title.as_str());
        out.push_str(" (");
        push_signed(&mut out, t - c);
        out.push_str("d, ");
        out.push_str(row.0.as_str());
        out.push_str(")\n");
        k = k + 1;
    }
    proof {
        assert(order.take(picked.len() as int) =~= order);
        assert forall|q: int| 0 <= q < order.len() implies #[trigger] order[q] < recs.len() && is_stale(recs@, order[q] as int, proj, day_of(today), days as int) by {
            assert(order[q] == picked@[q].1);
        }
        assert forall|j: int| 0 <= j < recs.len() && is_stale(recs@, j, proj, day_of(today), days as int) implies exists|q: int| 0 <= q < order.len() && #[trigger] order[q] == j by {
            let q = choose|q: int| 0 <= q < picked.len() && #[trigger] picked@[q].1 == j;
            assert(order[q] == j);
        }
        assert forall|a: int, b: int|
            #![trigger order[a], order[b]]
            0 <= a < b < order.len() implies {
                let ca = created_day(recs@[order[a] as int].1)->0;
                let cb = created_day(recs@[order[b] as int].1)->0;
                ca < cb || (ca == cb && order[a] < order[b])
            } by {
            assert(order[a] == picked@[a].1 && order[b] == picked@[b].1);
            assert(picked@[a].0 < picked@[b].0 || (picked@[a].0 == picked@[b].0 && picked@[a].1 < picked@[b].1));
        }
        assert(stale_order(recs@, proj, day_of(today), days as int, order));
    }
    out
}

/// [`stale_at`] on `today` (the local date the caller read from the
/// clock); `None` when `days` before today is outside the calendar, which
/// the date arithmetic cannot represent.
pub fn stale(
    recs: &[(String, IssueHeading)],
    days: i64,
    project_filter: Option<&str>,
    today: (i32, u32, u32),
) -> (r: Option<String>)
    ensures
        r is Some <==> window_ok(today, days),
        r matches Some(text) ==> exists|order: Seq<usize>|
            stale_order(recs@, opt_str(project_filter), day_of(today), days as int, order)
                && text@ == stale_text(recs@, order, day_of(today)),
{
    let t = crate::log::day_number(today.0, today.1, today.2);
    if days < -106_751_991_167 || days > 106_751_991_167 {
        return None;
    }
    let back = t - days;
    if back < -96_465_292 || back > 95_026_236 {
        return None;
    }
    let text = stale_at(recs, days, project_filter, today);
    Some(text)
}

/// The findings of the first `n` rows hold the error lines of each of them.
proof fn lemma_findings_hold_row(rows: Seq<(String, IssueHeading)>, org_ids: Seq<Seq<char>>, n: int, i: int)
    requires
        0 <= i < n <= rows.len(),
    ensures
        exists|a: Seq<char>, b: Seq<char>|
            findings_text(rows, org_ids, n) == a + concat(row_errors(rows, org_ids, rows[i])) + b,
        error_count(rows, org_ids, n) >= row_errors(rows, org_ids, rows[i]).len(),
    decreases n,
{
    let x = concat(row_errors(rows, org_ids, rows[i]));
    if i == n - 1 {
        let a = findings_text(rows, org_ids, n - 1);
        let b = concat(row_warnings(org_ids, rows[i]));
        assert(findings_text(rows, org_ids, n) == a + x + b);
    } else {
        lemma_findings_hold_row(rows, org_ids, n - 1, i);
        let (a, b) = choose|a: Seq<char>, b: Seq<char>|
            findings_text(rows, org_ids, n - 1) == a + x + b;
        let rest = concat(row_errors(rows, org_ids, rows[n - 1])) + concat(
            row_warnings(org_ids, rows[n - 1]),
        );
        assert(findings_text(rows, org_ids, n) =~= a + x + (b + rest));
    }
}

/// Lines joined hold each of the lines.
proof fn lemma_concat_holds(ls: Seq<Seq<char>>, x: Seq<char>)
    requires
        ls.contains(x),
    ensures
        exists|a: Seq<char>, b: Seq<char>| concat(ls) == a + x + b,
    decreases ls.len(),
{
    if ls.last() == x {
        assert(concat(ls) == concat(ls.drop_last()) + x + seq![]);
    } else {
        let m = choose|m: int| 0 <= m < ls.len() && ls[m] == x;
        assert(ls.drop_last()[m] == x);
        lemma_concat_holds(ls.drop_last(), x);
        let (a, b) = choose|a: Seq<char>, b: Seq<char>| concat(ls.drop_last()) == a + x + b;
        assert(concat(ls) =~= a + x + (b + ls.last()));
    }
}

/// Text that holds a line still holds it with more text on either side.
proof fn lemma_infix_widened(s: Seq<char>, line: Seq<char>, before: Seq<char>, after: Seq<char>)
    requires
        exists|a: Seq<char>, b: Seq<char>| s == a + line + b,
    ensures
        exists|a: Seq<char>, b: Seq<char>| before + s + after == a + line + b,
{
    let (a, b) = choose|a: Seq<char>, b: Seq<char>| s == a + line + b;
    assert(before + s + after =~= (before + a) + line + (b + after));
}

/// The check text is the duplicate lines, the findings, and the summary.
proof fn lemma_check_text_parts(rows: Seq<(String, IssueHeading)>, org_ids: Seq<Seq<char>>, project_count: nat)
    ensures
        exists|t: Seq<char>|
            check_text(rows, org_ids, project_count) == dup_lines(rows, rows.len() as int) + findings_text(
                rows,
                org_ids,
                rows.len() as int,
            ) + t,
{
    let n = rows.len() as int;
    let t = "\n"@ + "checked "@ + decimal(rows.len()) + " issue(s) across "@ + decimal(project_count)
        + " project(s): "@ + decimal(error_count(rows, org_ids, n)) + " error(s), "@ + decimal(
        warning_count(rows, org_ids, n),
    ) + " warning(s)\n"@;
    assert(check_text(rows, org_ids, project_count) =~= dup_lines(rows, n) + findings_text(rows, org_ids, n)
        + t);
}

/// An error line of any row stands in the check text, and is counted.
proof fn lemma_error_line_reported(
    rows: Seq<(String, IssueHeading)>,
    org_ids: Seq<Seq<char>>,
    project_count: nat,
    i: int,
    line: Seq<char>,
)
    requires
        0 <= i < rows.len(),
        row_errors(rows, org_ids, rows[i]).contains(line),
    ensures
        exists|a: Seq<char>, b: Seq<char>| check_text(rows, org_ids, project_count) == a + line + b,
        error_count(rows, org_ids, rows.len() as int) >= 1,
{
    let n = rows.len() as int;
    let errs = row_errors(rows, org_ids, rows[i]);
    lemma_concat_holds(errs, line);
    lemma_findings_hold_row(rows, org_ids, n, i);
    let (a, b) = choose|a: Seq<char>, b: Seq<char>| findings_text(rows, org_ids, n) == a + concat(errs) + b;
    lemma_infix_widened(concat(errs), line, a, b);
    lemma_check_text_parts(rows, org_ids, project_count);
    let t = choose|t: Seq<char>|
        check_text(rows, org_ids, project_count) == dup_lines(rows, n) + findings_text(rows, org_ids, n) + t;
    lemma_infix_widened(findings_text(rows, org_ids, n), line, dup_lines(rows, n), t);
}

/// The error lines of a row whose SCHEDULED date does not parse end with
/// the line that says so.
proof fn lemma_scheduled_line_last(
    rows: Seq<(String, IssueHeading)>,
    org_ids: Seq<Seq<char>>,
    row: (String, IssueHeading),
    d: Seq<char>,
)
    requires
        prop(row.1, "SCHEDULED"@) == Some(d),
        org_date(d) is None,
    ensures
        row_errors(rows, org_ids, row).len() >= 1,
        row_errors(rows, org_ids, row).last() == finding("[err]  "@, row.1, row.0@, ":SCHEDULED: "@ + d
            + " -> unparseable"@),
{
}

/// An unparseable SCHEDULED date is always reported. For every heading whose
/// SCHEDULED property does not parse as an Org date, the check text holds the
/// line `[err]  <id> (in <project>) :SCHEDULED: <value> -> unparseable`, as
/// the last error line of that heading, and the check counts at least one
/// error.
pub proof fn lemma_unparseable_scheduled_reported(
    rows: Seq<(String, IssueHeading)>,
    org_ids: Seq<Seq<char>>,
    project_count: nat,
    i: int,
    d: Seq<char>,
)
    requires
        0 <= i < rows.len(),
        prop(rows[i].1, "SCHEDULED"@) == Some(d),
        org_date(d) is None,
    ensures
        ({
            let line = "[err]  "@ + rows[i].1.id@ + " (in "@ + rows[i].0@ + ") "@ + ":SCHEDULED: "@
                + d + " -> unparseable"@ + "\n"@;
            &&& row_errors(rows, org_ids, rows[i]).len() >= 1
            &&& row_errors(rows, org_ids, rows[i]).last() == line
            &&& exists|a: Seq<char>, b: Seq<char>| check_text(rows, org_ids, project_count) == a + line + b
        }),
        error_count(rows, org_ids, rows.len() as int) >= 1,
{
    let row = rows[i];
    let line = "[err]  "@ + row.1.id@ + " (in "@ + row.0@ + ") "@ + ":SCHEDULED: "@ + d + " -> unparseable"@
        + "\n"@;
    let errs = row_errors(rows, org_ids, row);
    lemma_scheduled_line_last(rows, org_ids, row, d);
    assert(finding("[err]  "@, row.1, row.0@, ":SCHEDULED: "@ + d + " -> unparseable"@) =~= line);
    assert(errs[errs.len() - 1] == line);
    lemma_error_line_reported(rows, org_ids, project_count, i, line);
}

/// An unparseable DEADLINE date is always reported: the check text holds
/// `[err]  <id> (in <project>) :DEADLINE: <value> -> unparseable` and the
/// check counts at least one error.
pub proof fn lemma_unparseable_deadline_reported(
    rows: Seq<(String, IssueHeading)>,
    org_ids: Seq<Seq<char>>,
    project_count: nat,
    i: int,
    d: Seq<char>,
)
    requires
        0 <= i < rows.len(),
        prop(rows[i].1, "DEADLINE"@) == Some(d),
        org_date(d) is None,
    ensures
        exists|a: Seq<char>, b: Seq<char>|
            check_text(rows, org_ids, project_count) == a + ("[err]  "@ + rows[i].1.id@ + " (in "@ + rows[i].0@
                + ") "@ + ":DEADLINE: "@ + d + " -> unparseable"@ + "\n"@) + b,
        error_count(rows, org_ids, rows.len() as int) >= 1,
{
    let row = rows[i];
    let h = row.1;
    let p = row.0@;
    let line = "[err]  "@ + h.id@ + " (in "@ + p + ") "@ + ":DEADLINE: "@ + d + " -> unparseable"@ + "\n"@;
    let x = finding("[err]  "@, h, p, ":DEADLINE: "@ + d + " -> unparseable"@);
    assert(x =~= line);
    let head = (match prop(h, "PARENT"@) {
        Some(parent) => if org_ids.contains(parent) {
            seq![]
        } else {
            seq![finding("[err]  "@, h, p, ":PARENT: "@ + parent + " -> not found"@)]
        },
        None => seq![],
    }) + blocker_findings(rows, h, p, blockers(h));
    let tail = match prop(h, "SCHEDULED"@) {
        Some(s) => if org_date(s) is None {
            seq![finding("[err]  "@, h, p, ":SCHEDULED: "@ + s + " -> unparseable"@)]
        } else {
            seq![]
        },
        None => seq![],
    };
    let errs = row_errors(rows, org_ids, row);
    assert(errs == head + seq![x] + tail);
    assert(errs[head.len() as int] == x);
    lemma_error_line_reported(rows, org_ids, project_count, i, line);
}

/// A PARENT id that is not among the known ids is always reported: the check
/// text holds `[err]  <id> (in <project>) :PARENT: <parent> -> not found`
/// and the check counts at least one error.
pub proof fn lemma_missing_parent_reported(
    rows: Seq<(String, IssueHeading)>,
    org_ids: Seq<Seq<char>>,
    project_count: nat,
    i: int,
    parent: Seq<char>,
)
    requires
        0 <= i < rows.len(),
        prop(rows[i].1, "PARENT"@) == Some(parent),
        !org_ids.contains(parent),
    ensures
        exists|a: Seq<char>, b: Seq<char>|
            check_text(rows, org_ids, project_count) == a + ("[err]  "@ + rows[i].1.id@ + " (in "@ + rows[i].0@
                + ") "@ + ":PARENT: "@ + parent + " -> not found"@ + "\n"@) + b,
        error_count(rows, org_ids, rows.len() as int) >= 1,
{
    let row = rows[i];
    let h = row.1;
    let line = "[err]  "@ + h.id@ + " (in "@ + row.0@ + ") "@ + ":PARENT: "@ + parent + " -> not found"@
        + "\n"@;
    let x = finding("[err]  "@, h, row.0@, ":PARENT: "@ + parent + " -> not found"@);
    assert(x =~= line);
    let errs = row_errors(rows, org_ids, row);
    assert(errs[0] == x);
    lemma_error_line_reported(rows, org_ids, project_count, i, line);
}

/// The blocker findings hold the finding of each blocker id that names no
/// row of the corpus.
proof fn lemma_blocker_finding_held(
    rows: Seq<(String, IssueHeading)>,
    h: IssueHeading,
    project: Seq<char>,
    bs: Seq<Seq<char>>,
    k: int,
)
    requires
        0 <= k < bs.len(),
        !has_id(rows, bs[k]),
    ensures
        blocker_findings(rows, h, project, bs).contains(
            finding("[err]  "@, h, project, ":BLOCKED_BY: "@ + bs[k] + " -> not found"@),
        ),
    decreases bs.len(),
{
    let x = finding("[err]  "@, h, project, ":BLOCKED_BY: "@ + bs[k] + " -> not found"@);
    let before = blocker_findings(rows, h, project, bs.drop_last());
    if k == bs.len() - 1 {
        assert(blocker_findings(rows, h, project, bs) == before + seq![x]);
        assert(blocker_findings(rows, h, project, bs)[before.len() as int] == x);
    } else {
        assert(bs.drop_last()[k] == bs[k]);
        lemma_blocker_finding_held(rows, h, project, bs.drop_last(), k);
        let m = choose|m: int| 0 <= m < before.len() && before[m] == x;
        assert(blocker_findings(rows, h, project, bs)[m] == x);
    }
}

/// A blocker id that names no issue of the corpus is always reported: the
/// check text holds `[err]  <id> (in <project>) :BLOCKED_BY: <blocker> -> not
/// found` and the check counts at least one error.
pub proof fn lemma_missing_blocker_reported(
    rows: Seq<(String, IssueHeading)>,
    org_ids: Seq<Seq<char>>,
    project_count: nat,
    i: int,
    k: int,
)
    requires
        0 <= i < rows.len(),
        0 <= k < blockers(rows[i].1).len(),
        forall|j: int| 0 <= j < rows.len() ==> #[trigger] rows[j].1.id@ != blockers(rows[i].1)[k],
    ensures
        exists|a: Seq<char>, b: Seq<char>|
            check_text(rows, org_ids, project_count) == a + ("[err]  "@ + rows[i].1.id@ + " (in "@ + rows[i].0@
                + ") "@ + ":BLOCKED_BY: "@ + blockers(rows[i].1)[k] + " -> not found"@ + "\n"@) + b,
        error_count(rows, org_ids, rows.len() as int) >= 1,
{
    let row = rows[i];
    let h = row.1;
    let p = row.0@;
    let bk = blockers(h)[k];
    let line = "[err]  "@ + h.id@ + " (in "@ + p + ") "@ + ":BLOCKED_BY: "@ + bk + " -> not found"@ + "\n"@;
    let x = finding("[err]  "@, h, p, ":BLOCKED_BY: "@ + bk + " -> not found"@);
    assert(x =~= line);
    lemma_blocker_finding_held(rows, h, p, blockers(h), k);
    let head = match prop(h, "PARENT"@) {
        Some(parent) => if org_ids.contains(parent) {
            seq![]
        } else {
            seq![finding("[err]  "@, h, p, ":PARENT: "@ + parent + " -> not found"@)]
        },
        None => seq![],
    };
    let bf = blocker_findings(rows, h, p, blockers(h));
    let errs = row_errors(rows, org_ids, row);
    let m = choose|m: int| 0 <= m < bf.len() && bf[m] == x;
    assert(errs[head.len() + m] == x);
    lemma_error_line_reported(rows, org_ids, project_count, i, line);
}

pub proof fn lemma_concat_add(a: Seq<Seq<char>>, b: Seq<Seq<char>>)
    ensures
        concat(a + b) == concat(a) + concat(b),
    decreases b.len(),
{
    if b.len() == 0 {
        assert(a + b =~= a);
        assert(concat(a) + concat(b) =~= concat(a));
    } else {
        lemma_concat_add(a, b.drop_last());
        assert((a + b).drop_last() =~= a + b.drop_last());
        assert((a + b).last() == b.last());
        assert(concat(a) + concat(b) =~= concat(a) + concat(b.drop_last()) + b.last());
    }
}

} // verus!
