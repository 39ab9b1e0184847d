//! The children and blockers below one issue, as indented text or as a
//! Graphviz digraph.
use vstd::prelude::*;

use crate::error::TrackerError;
use crate::keys::{pad_right, push_padded};
use crate::model::{IssueHeading, blockers, prop};
use crate::satchel::{lemma_unset_update, unset};
use crate::text::{str_eq, string_of};
use crate::textmap::{TextMap, text_less, text_lt};

verus! {

/// The last row at or before `n` whose heading carries id `x`.
pub open spec fn last_row(rows: Seq<(String, IssueHeading)>, x: Seq<char>, n: int) -> Option<int>
    decreases n,
{
    if n <= 0 {
        None
    } else if rows[n - 1].1.id@ == x {
        Some(n - 1)
    } else {
        last_row(rows, x, n - 1)
    }
}

/// The row that answers for id `x`: the last one carrying it.
pub open spec fn row_of(rows: Seq<(String, IssueHeading)>, x: Seq<char>) -> Option<int> {
    last_row(rows, x, rows.len() as int)
}

/// The ids of the rows among the first `n` whose parent is `x`, in corpus
/// order.
pub open spec fn child_ids(rows: Seq<(String, IssueHeading)>, x: Seq<char>, n: int) -> Seq<Seq<char>>
    decreases n,
{
    if n <= 0 {
        seq![]
    } else {
        child_ids(rows, x, n - 1) + if prop(rows[n - 1].1, "PARENT"@) == Some(x) {
            seq![rows[n - 1].1.id@]
        } else {
            seq![]
        }
    }
}

/// `x` placed into ascending `s`, after everything not above it.
pub open spec fn insert_text(s: Seq<Seq<char>>, x: Seq<char>) -> Seq<Seq<char>>
    decreases s.len(),
{
    if s.len() == 0 {
        seq![x]
    } else if text_lt(x, s[0]) {
        seq![x] + s
    } else {
        seq![s[0]] + insert_text(s.drop_first(), x)
    }
}

/// `s` in ascending order.
pub open spec fn sorted_text(s: Seq<Seq<char>>) -> Seq<Seq<char>>
    decreases s.len(),
{
    if s.len() == 0 {
        seq![]
    } else {
        insert_text(sorted_text(s.drop_last()), s.last())
    }
}

/// Two spaces per level.
pub open spec fn indent(depth: nat) -> Seq<char> {
    Seq::new(2 * depth, |i: int| ' ')
}

/// One `* blocked-by` line per blocker, at `depth`.
pub open spec fn blocker_lines(bs: Seq<Seq<char>>, depth: nat) -> Seq<char>
    decreases bs.len(),
{
    if bs.len() == 0 {
        seq![]
    } else {
        blocker_lines(bs.drop_last(), depth) + if bs.last().len() > 0 {
            indent(depth) + "* blocked-by "@ + bs.last() + "\n"@
        } else {
            seq![]
        }
    }
}

/// The line a heading gets in the indented tree.
pub open spec fn tree_line(h: IssueHeading, id: Seq<char>, depth: nat) -> Seq<char> {
    indent(depth) + id + " "@ + pad_right(h.state@, 9) + " [#"@ + seq![h.priority] + "]  "@ + h.title@ + "\n"@
}

/// The indented tree below `id` at `depth`, and the rows seen after it: an
/// issue already seen is marked as a cycle and not expanded again; a seen
/// issue's blockers follow it, then its children in id order, one level
/// deeper. `fuel` bounds the depth; a walk that starts with more fuel than
/// rows unseen never runs out.
pub open spec fn ascii_walk(
    rows: Seq<(String, IssueHeading)>,
    id: Seq<char>,
    depth: nat,
    seen: Seq<bool>,
    fuel: nat,
) -> (Seq<char>, Seq<bool>)
    decreases fuel, 0nat,
{
    if fuel == 0 {
        (seq![], seen)
    } else {
        match row_of(rows, id) {
            None => (indent(depth) + id + " (missing)\n"@, seen),
            Some(i) => if seen[i] {
                (indent(depth) + id + " (cycle, stopping)\n"@, seen)
            } else {
                let h = rows[i].1;
                let head = tree_line(h, id, depth) + blocker_lines(blockers(h), depth + 1);
                let (kt, s3) = ascii_kids(
                    rows,
                    sorted_text(child_ids(rows, id, rows.len() as int)),
                    depth + 1,
                    seen.update(i, true),
                    (fuel - 1) as nat,
                );
                (head + kt, s3)
            },
        }
    }
}

/// The trees below each of `kids` in turn, the rows seen carried from one
/// to the next.
pub open spec fn ascii_kids(
    rows: Seq<(String, IssueHeading)>,
    kids: Seq<Seq<char>>,
    depth: nat,
    seen: Seq<bool>,
    fuel: nat,
) -> (Seq<char>, Seq<bool>)
    decreases fuel, kids.len(),
{
    if kids.len() == 0 {
        (seq![], seen)
    } else {
        let (t1, s1) = ascii_walk(rows, kids[0], depth, seen, fuel);
        let (t2, s2) = ascii_kids(rows, kids.drop_first(), depth, s1, fuel);
        (t1 + t2, s2)
    }
}

pub(crate) proof fn lemma_last_row(rows: Seq<(String, IssueHeading)>, x: Seq<char>, n: int)
    requires
        0 <= n <= rows.len(),
    ensures
        match last_row(rows, x, n) {
            Some(i) => 0 <= i < n && rows[i].1.id@ == x,
            None => forall|j: int| 0 <= j < n ==> rows[j].1.id@ != x,
        },
    decreases n,
{
    if n > 0 {
        lemma_last_row(rows, x, n - 1);
    }
}

pub(crate) fn find_row(rows: &[(String, IssueHeading)], x: &str) -> (r: Option<usize>)
    ensures
        match row_of(rows@, x@) {
            Some(i) => r == Some(i as usize) && 0 <= i < rows.len(),
            None => r is None,
        },
{
    proof {
        lemma_last_row(rows@, x@, rows.len() as int);
    }
    let mut n = rows.len();
    while n > 0
        invariant
            n <= rows.len(),
            last_row(rows@, x@, n as int) == row_of(rows@, x@),
        decreases n,
    {
        if str_eq(rows[n - 1].1.id.as_str(), x) {
            return Some(n - 1);
        }
        n = n - 1;
    }
    None
}

/// Place `id` into the ascending `out`, after every entry not above it.
pub(crate) fn insert_text_into(out: &mut Vec<String>, id: String)
    ensures
        final(out)@.map_values(|s: String| s@) == insert_text(old(out)@.map_values(|s: String| s@), id@),
{
    let ghost before = out@.map_values(|s: String| s@);
    let idc = crate::text::chars_of(id.as_str());
    let mut at: usize = 0;
    proof {
        assert(before.subrange(0, before.len() as int) =~= before);
        assert(before.subrange(0, 0) + insert_text(before, id@) =~= insert_text(before, id@));
    }
    while at < out.len() && !text_less(&idc, &crate::text::chars_of(out[at].as_str()))
        invariant
            at <= out.len(),
            before == out@.map_values(|s: String| s@),
            idc@ == id@,
            insert_text(before, id@) == before.subrange(0, at as int) + insert_text(
                before.subrange(at as int, before.len() as int),
                id@,
            ),
        decreases out.len() - at,
    {
        proof {
            let tail = before.subrange(at as int, before.len() as int);
            assert(tail[0] == out@[at as int]@);
            assert(tail.drop_first() =~= before.subrange(at + 1, before.len() as int));
            assert(before.subrange(0, at + 1) =~= before.subrange(0, at as int) + seq![tail[0]]);
        }
        at = at + 1;
    }
    proof {
        let tail = before.subrange(at as int, before.len() as int);
        if at < out.len() {
            assert(tail[0] == out@[at as int]@);
        }
        assert(insert_text(tail, id@) == seq![id@] + tail);
    }
    let ghost idv = id@;
    out.insert(at, id);
    proof {
        let tail = before.subrange(at as int, before.len() as int);
        assert(out@.map_values(|s: String| s@) =~= before.subrange(0, at as int) + (seq![idv] + tail));
    }
}

fn sorted_children(rows: &[(String, IssueHeading)], x: &str) -> (r: Vec<String>)
    ensures
        r@.map_values(|s: String| s@) == sorted_text(child_ids(rows@, x@, rows.len() as int)),
{
    let mut out: Vec<String> = Vec::new();
    let mut n: usize = 0;
    while n < rows.len()
        invariant
            n <= rows.len(),
            out@.map_values(|s: String| s@) == sorted_text(child_ids(rows@, x@, n as int)),
        decreases rows.len() - n,
    {
        let is_child = match rows[n].1.parent() {
            Some(p) => str_eq(p, x),
            None => false,
        };
        if is_child {
            insert_text_into(&mut out, rows[n].1.id.clone());
        }
        proof {
            assert(child_ids(rows@, x@, n + 1) == child_ids(rows@, x@, n as int) + if prop(rows@[n as int].1, "PARENT"@) == Some(x@) {
                seq![rows@[n as int].1.id@]
            } else {
                seq![]
            });
            if is_child {
                assert(child_ids(rows@, x@, n + 1) =~= child_ids(rows@, x@, n as int).push(rows@[n as int].1.id@));
                assert(child_ids(rows@, x@, n + 1).drop_last() =~= child_ids(rows@, x@, n as int));
            } else {
                assert(child_ids(rows@, x@, n + 1) =~= child_ids(rows@, x@, n as int));
            }
        }
        n = n + 1;
    }
    out
}

fn push_indent(out: &mut String, depth: u128)
    ensures
        final(out)@ == old(out)@ + indent(depth as nat),
{
    let ghost start = out@;
    let mut k: u128 = 0;
    while k < depth
        invariant
            k <= depth,
            out@ == start + indent(k as nat),
        decreases depth - k,
    {
        out.push_str("  ");
        proof {
            reveal_strlit("  ");
        }
        k = k + 1;
        assert(out@ =~= start + indent(k as nat));
    }
}

fn push_blocker_lines(out: &mut String, bs: &Vec<String>, depth: u128)
    ensures
        final(out)@ == old(out)@ + blocker_lines(bs@.map_values(|x: String| x@), depth as nat),
{
    let ghost bv = bs@.map_values(|x: String| x@);
    let ghost start = out@;
    let mut k: usize = 0;
    while k < bs.len()
        invariant
            k <= bs.len(),
            bv == bs@.map_values(|x: String| x@),
            out@ == start + blocker_lines(bv.take(k as int), depth as nat),
        decreases bs.len() - k,
    {
        proof {
            assert(bv.take(k + 1).drop_last() =~= bv.take(k as int));
            assert(bv.take(k + 1).last() == bs@[k as int]@);
        }
        if !bs[k].as_str().is_empty() {
            push_indent(out, depth);
            out.push_str("* blocked-by ");
            out.push_str(bs[k].as_str());
            out.push_str("\n");
        }
        k = k + 1;
    }
    assert(bv.take(bs.len() as int) =~= bv);
}

fn push_head(out: &mut String, h: &IssueHeading, id: &str, depth: u128)
    requires
        depth < u128::MAX,
    ensures
        final(out)@ == old(out)@ + tree_line(*h, id@, depth as nat) + blocker_lines(blockers(*h), (depth + 1) as nat),
{
    push_indent(out, depth);
    out.push_str(id);
    out.push_str(" ");
    push_padded(out, h.state.as_str(), 9);
    out.push_str(" [#");
    out.push(h.priority);
    out.push_str("]  ");
    out.push_str(h.title.as_str());
    out.push_str("\n");
    push_blocker_lines(out, &h.blocked_by(), depth + 1);
}

#[verifier::rlimit(40)]
fn ascii_exec(
    rows: &[(String, IssueHeading)],
    id: &str,
    depth: u128,
    seen: &mut Vec<bool>,
    out: &mut String,
    Ghost(fuel): Ghost<nat>,
)
    requires
        old(seen).len() == rows.len(),
        fuel > unset(old(seen)@),
        depth + fuel <= u128::MAX,
    ensures
        final(out)@ == old(out)@ + ascii_walk(rows@, id@, depth as nat, old(seen)@, fuel).0,
        final(seen)@ == ascii_walk(rows@, id@, depth as nat, old(seen)@, fuel).1,
        final(seen).len() == rows.len(),
        unset(final(seen)@) <= unset(old(seen)@),
    decreases fuel,
{
    let ghost s0 = seen@;
    let ghost o0 = out@;
    match find_row(rows, id) {
        None => {
            push_indent(out, depth);
            out.push_str(id);
            out.push_str(" (missing)\n");
        },
        Some(i) => {
            if seen[i] {
                push_indent(out, depth);
                out.push_str(id);
                out.push_str(" (cycle, stopping)\n");
            } else {
                proof {
                    lemma_unset_update(seen@, i as int);
                }
                seen.set(i, true);
                let ghost s2 = seen@;
                push_head(out, &rows[i].1, id, depth);
                let ghost base = out@;
                let kids = sorted_children(rows, id);
                let ghost kv = kids@.map_values(|x: String| x@);
                let ghost f1: nat = (fuel - 1) as nat;
                proof {
                    assert(kv.skip(0) =~= kv);
                }
                let mut j: usize = 0;
                while j < kids.len()
                    invariant
                        j <= kids.len(),
                        kv == kids@.map_values(|x: String| x@),
                        seen.len() == rows.len(),
                        unset(seen@) < f1,
                        unset(seen@) <= unset(s2),
                        unset(s2) < unset(s0),
                        f1 + 1 == fuel,
                        depth + 1 + f1 <= u128::MAX,
                        out@ + ascii_kids(rows@, kv.skip(j as int), (depth + 1) as nat, seen@, f1).0 == base
                            + ascii_kids(rows@, kv, (depth + 1) as nat, s2, f1).0,
                        ascii_kids(rows@, kv.skip(j as int), (depth + 1) as nat, seen@, f1).1 == ascii_kids(
                            rows@,
                            kv,
                            (depth + 1) as nat,
                            s2,
                            f1,
                        ).1,
                    decreases kids.len() - j,
                {
                    let ghost sb = seen@;
                    let ghost ob = out@;
                    proof {
                        assert(kv.skip(j as int)[0] == kids@[j as int]@);
                        assert(kv.skip(j as int).drop_first() =~= kv.skip(j + 1));
                    }
                    ascii_exec(rows, kids[j].as_str(), depth + 1, seen, out, Ghost(f1));
                    proof {
                        let w = ascii_walk(rows@, kids@[j as int]@, (depth + 1) as nat, sb, f1);
                        assert(out@ == ob + w.0);
                        assert(ob + ascii_kids(rows@, kv.skip(j as int), (depth + 1) as nat, sb, f1).0 == ob + (w.0
                            + ascii_kids(rows@, kv.skip(j + 1), (depth + 1) as nat, seen@, f1).0));
                        assert(ob + (w.0 + ascii_kids(rows@, kv.skip(j + 1), (depth + 1) as nat, seen@, f1).0) =~= out@
                            + ascii_kids(rows@, kv.skip(j + 1), (depth + 1) as nat, seen@, f1).0);
                    }
                    j = j + 1;
                }
                proof {
                    assert(kv.skip(kids.len() as int) =~= Seq::<Seq<char>>::empty());
                    assert(out@ =~= o0 + ascii_walk(rows@, id@, depth as nat, s0, fuel).0);
                }
            }
        },
    }
}

/// The tree below `root_id` as indented text: the root's line, its blockers,
/// then its children's trees in id order, two spaces per level.
pub fn tree_ascii(rows: &[(String, IssueHeading)], root_id: &str) -> (r: String)
    ensures
        r@ == ascii_walk(rows@, root_id@, 0, Seq::new(rows.len() as nat, |i: int| false), (rows.len() + 1) as nat).0,
{
    let mut seen: Vec<bool> = Vec::new();
    let mut k: usize = 0;
    while k < rows.len()
        invariant
            k <= rows.len(),
            seen@ == Seq::new(k as nat, |i: int| false),
        decreases rows.len() - k,
    {
        seen.push(false);
        k = k + 1;
        assert(seen@ =~= Seq::new(k as nat, |i: int| false));
    }
    proof {
        crate::satchel::lemma_unset_all(seen@);
    }
    let mut out = String::new();
    ascii_exec(rows, root_id, 0, &mut seen, &mut out, Ghost((rows.len() + 1) as nat));
    assert(out@ =~= ascii_walk(rows@, root_id@, 0, Seq::new(rows.len() as nat, |i: int| false), (rows.len() + 1) as nat).0);
    out
}

/// The node line a heading gets in the tree digraph.
pub open spec fn tree_node(h: IssueHeading) -> Seq<char> {
    "  \""@ + h.id@ + "\" [label=\""@ + crate::report::escape_quotes(h.title@) + "\\n"@ + h.state@ + " [#"@
        + seq![h.priority] + "]\"];\n"@
}

/// The edges from `id` to each of its children.
pub open spec fn child_edges(id: Seq<char>, kids: Seq<Seq<char>>) -> Seq<char>
    decreases kids.len(),
{
    if kids.len() == 0 {
        seq![]
    } else {
        child_edges(id, kids.drop_last()) + "  \""@ + id + "\" -> \""@ + kids.last() + "\" [color=\"#00897B\"];\n"@
    }
}

/// The non-empty ids of `bs`.
pub open spec fn filled(bs: Seq<Seq<char>>) -> Seq<Seq<char>>
    decreases bs.len(),
{
    if bs.len() == 0 {
        seq![]
    } else {
        filled(bs.drop_last()) + if bs.last().len() > 0 {
            seq![bs.last()]
        } else {
            seq![]
        }
    }
}

/// The dashed edges from each blocker to `id`.
pub open spec fn blocks_edges(bs: Seq<Seq<char>>, id: Seq<char>) -> Seq<char>
    decreases bs.len(),
{
    if bs.len() == 0 {
        seq![]
    } else {
        blocks_edges(bs.drop_last(), id) + "  \""@ + bs.last() + "\" -> \""@ + id
            + "\" [style=dashed, color=\"#FF7043\", label=\"blocks\"];\n"@
    }
}

/// The digraph lines a depth-first walk writes from `stack` (its top last)
/// with `visited` already drawn: a known issue not yet drawn gets its node,
/// its child edges and its blocker edges, and its children and blockers go
/// on the stack. `fuel` bounds the steps; a walk that starts with more fuel
/// than it can take steps never runs out.
pub open spec fn dot_walk(
    rows: Seq<(String, IssueHeading)>,
    stack: Seq<Seq<char>>,
    visited: Set<Seq<char>>,
    fuel: nat,
) -> Seq<char>
    decreases fuel,
{
    if fuel == 0 || stack.len() == 0 {
        seq![]
    } else {
        let id = stack.last();
        let st = stack.drop_last();
        if visited.contains(id) {
            dot_walk(rows, st, visited, (fuel - 1) as nat)
        } else {
            match row_of(rows, id) {
                None => dot_walk(rows, st, visited.insert(id), (fuel - 1) as nat),
                Some(i) => {
                    let h = rows[i].1;
                    let kids = child_ids(rows, id, rows.len() as int);
                    let bs = filled(blockers(h));
                    tree_node(h) + child_edges(h.id@, kids) + blocks_edges(bs, h.id@) + dot_walk(
                        rows,
                        st + kids + bs,
                        visited.insert(id),
                        (fuel - 1) as nat,
                    )
                },
            }
        }
    }
}

/// Whether row `j` answers for its id.
pub open spec fn canonical_row(rows: Seq<(String, IssueHeading)>, j: int) -> bool {
    row_of(rows, rows[j].1.id@) == Some(j)
}

/// How many stack entries drawing row `j` pushes.
pub open spec fn pushes(rows: Seq<(String, IssueHeading)>, j: int) -> nat {
    child_ids(rows, rows[j].1.id@, rows.len() as int).len() + filled(blockers(rows[j].1)).len()
}

/// The pushes the first `n` rows not yet drawn have still to make.
pub open spec fn pending_pushes(rows: Seq<(String, IssueHeading)>, visited: Set<Seq<char>>, n: int) -> nat
    decreases n,
{
    if n <= 0 {
        0
    } else {
        pending_pushes(rows, visited, n - 1) + if canonical_row(rows, n - 1) && !visited.contains(rows[n - 1].1.id@) {
            pushes(rows, n - 1)
        } else {
            0
        }
    }
}

/// The fuel the whole tree digraph takes: one step per stack entry it will
/// ever hold, and one more.
pub open spec fn dot_fuel(rows: Seq<(String, IssueHeading)>) -> nat {
    2 + pending_pushes(rows, Set::empty(), rows.len() as int)
}

/// The pushes still pending after id `x` is drawn: less what its row
/// pushes, when it has one among the first `n`.
proof fn lemma_pending_insert(rows: Seq<(String, IssueHeading)>, visited: Set<Seq<char>>, x: Seq<char>, n: int)
    requires
        0 <= n <= rows.len(),
        !visited.contains(x),
    ensures
        pending_pushes(rows, visited, n) == pending_pushes(rows, visited.insert(x), n) + (if row_of(rows, x) is Some && row_of(rows, x)->0 < n {
            pushes(rows, row_of(rows, x)->0)
        } else {
            0
        }),
    decreases n,
{
    lemma_last_row(rows, x, rows.len() as int);
    if n > 0 {
        lemma_pending_insert(rows, visited, x, n - 1);
        let j = n - 1;
        let v2 = visited.insert(x);
        let old_term: nat = if canonical_row(rows, j) && !visited.contains(rows[j].1.id@) { pushes(rows, j) } else { 0 };
        let new_term: nat = if canonical_row(rows, j) && !v2.contains(rows[j].1.id@) { pushes(rows, j) } else { 0 };
        assert(pending_pushes(rows, visited, n) == pending_pushes(rows, visited, n - 1) + old_term);
        assert(pending_pushes(rows, v2, n) == pending_pushes(rows, v2, n - 1) + new_term);
        if rows[j].1.id@ == x {
            assert(row_of(rows, x) is Some);
            assert(v2.contains(rows[j].1.id@));
            assert(new_term == 0);
            if canonical_row(rows, j) {
                assert(row_of(rows, x) == Some(j));
                assert(old_term == pushes(rows, j));
            } else {
                assert(row_of(rows, x) != Some(j));
                assert(old_term == 0);
            }
        } else {
            assert(v2.contains(rows[j].1.id@) == visited.contains(rows[j].1.id@));
            assert(old_term == new_term);
            if row_of(rows, x) is Some {
                assert(row_of(rows, x)->0 != j);
            }
        }
    }
}

fn child_list(rows: &[(String, IssueHeading)], x: &str) -> (r: Vec<String>)
    ensures
        r@.map_values(|s: String| s@) == child_ids(rows@, x@, rows.len() as int),
{
    let mut out: Vec<String> = Vec::new();
    let mut n: usize = 0;
    while n < rows.len()
        invariant
            n <= rows.len(),
            out@.map_values(|s: String| s@) == child_ids(rows@, x@, n as int),
        decreases rows.len() - n,
    {
        let ghost before = out@.map_values(|s: String| s@);
        let is_child = match rows[n].1.parent() {
            Some(p) => str_eq(p, x),
            None => false,
        };
        if is_child {
            out.push(rows[n].1.id.clone());
        }
        assert(out@.map_values(|s: String| s@) =~= child_ids(rows@, x@, n + 1));
        n = n + 1;
    }
    out
}

fn filled_list(bs: Vec<String>) -> (r: Vec<String>)
    ensures
        r@.map_values(|s: String| s@) == filled(bs@.map_values(|s: String| s@)),
{
    let ghost bv = bs@.map_values(|s: String| s@);
    let mut out: Vec<String> = Vec::new();
    let mut k: usize = 0;
    while k < bs.len()
        invariant
            k <= bs.len(),
            bv == bs@.map_values(|s: String| s@),
            out@.map_values(|s: String| s@) == filled(bv.take(k as int)),
        decreases bs.len() - k,
    {
        proof {
            assert(bv.take(k + 1).drop_last() =~= bv.take(k as int));
            assert(bv.take(k + 1).last() == bs@[k as int]@);
        }
        let ghost before = out@.map_values(|s: String| s@);
        if !bs[k].as_str().is_empty() {
            out.push(bs[k].clone());
        }
        assert(out@.map_values(|s: String| s@) =~= filled(bv.take(k + 1)));
        k = k + 1;
    }
    assert(bv.take(bs.len() as int) =~= bv);
    out
}

fn push_tree_node(out: &mut String, h: &IssueHeading)
    ensures
        final(out)@ == old(out)@ + tree_node(*h),
{
    out.push_str("  \"");
    out.push_str(h.id.as_str());
    out.push_str("\" [label=\"");
    crate::report::push_escaped(out, h.title.as_str());
    out.push_str("\\n");
    out.push_str(h.state.as_str());
    out.push_str(" [#");
    out.push(h.priority);
    out.push_str("]\"];\n");
}

fn push_child_edges(out: &mut String, id: &str, kids: &Vec<String>)
    ensures
        final(out)@ == old(out)@ + child_edges(id@, kids@.map_values(|s: String| s@)),
{
    let ghost kv = kids@.map_values(|s: String| s@);
    let ghost start = out@;
    let mut k: usize = 0;
    while k < kids.len()
        invariant
            k <= kids.len(),
            kv == kids@.map_values(|s: String| s@),
            out@ == start + child_edges(id@, kv.take(k as int)),
        decreases kids.len() - k,
    {
        proof {
            assert(kv.take(k + 1).drop_last() =~= kv.take(k as int));
            assert(kv.take(k + 1).last() == kids@[k as int]@);
        }
        out.push_str("  \"");
        out.push_str(id);
        out.push_str("\" -> \"");
        out.push_str(kids[k].as_str());
        out.push_str("\" [color=\"#00897B\"];\n");
        k = k + 1;
    }
    assert(kv.take(kids.len() as int) =~= kv);
}

fn push_blocks_edges(out: &mut String, bs: &Vec<String>, id: &str)
    ensures
        final(out)@ == old(out)@ + blocks_edges(bs@.map_values(|s: String| s@), id@),
{
    let ghost bv = bs@.map_values(|s: String| s@);
    let ghost start = out@;
    let mut k: usize = 0;
    while k < bs.len()
        invariant
            k <= bs.len(),
            bv == bs@.map_values(|s: String| s@),
            out@ == start + blocks_edges(bv.take(k as int), id@),
        decreases bs.len() - k,
    {
        proof {
            assert(bv.take(k + 1).drop_last() =~= bv.take(k as int));
            assert(bv.take(k + 1).last() == bs@[k as int]@);
        }
        out.push_str("  \"");
        out.push_str(bs[k].as_str());
        out.push_str("\" -> \"");
        out.push_str(id);
        out.push_str("\" [style=dashed, color=\"#FF7043\", label=\"blocks\"];\n");
        k = k + 1;
    }
    assert(bv.take(bs.len() as int) =~= bv);
}

/// The header every tree digraph opens with.
pub open spec fn dot_head() -> Seq<char> {
    "digraph vissue_tree {\n  rankdir=LR;\n  node [shape=box, fontname=\"Jost\", style=filled, fillcolor=\"#E0F2F1\"];\n"@
}

/// The tree below `root_id` as a Graphviz digraph: child edges solid, blocker
/// edges dashed, each issue drawn once.
pub fn tree_dot(rows: &[(String, IssueHeading)], root_id: &str) -> (r: String)
    ensures
        r@ == dot_head() + dot_walk(rows@, seq![root_id@], Set::empty(), dot_fuel(rows@)) + "}\n"@,
{
    let mut out = "digraph vissue_tree {\n  rankdir=LR;\n  node [shape=box, fontname=\"Jost\", style=filled, fillcolor=\"#E0F2F1\"];\n".to_owned();
    let ghost total = dot_head() + dot_walk(rows@, seq![root_id@], Set::empty(), dot_fuel(rows@));
    let mut visited: TextMap<bool> = TextMap::new();
    let mut stack: Vec<String> = Vec::new();
    stack.push(root_id.to_owned());
    let ghost mut fuel: nat = dot_fuel(rows@);
    proof {
        assert(visited.view().dom() =~= Set::<Seq<char>>::empty());
        assert(stack@.map_values(|s: String| s@) =~= seq![root_id@]);
    }
    while stack.len() > 0
        invariant
            out@ + dot_walk(rows@, stack@.map_values(|s: String| s@), visited.view().dom(), fuel) == total,
            fuel == stack.len() + pending_pushes(rows@, visited.view().dom(), rows.len() as int) + 1,
        decreases stack.len() + pending_pushes(rows@, visited.view().dom(), rows.len() as int),
    {
        let ghost sv = stack@.map_values(|s: String| s@);
        let ghost vd = visited.view().dom();
        let id = stack.pop().unwrap();
        proof {
            assert(sv.last() == id@);
            assert(stack@.map_values(|s: String| s@) =~= sv.drop_last());
        }
        if visited.contains_key(id.as_str()) {
            proof {
                fuel = (fuel - 1) as nat;
            }
        } else {
            proof {
                lemma_pending_insert(rows@, vd, id@, rows.len() as int);
                lemma_last_row(rows@, id@, rows.len() as int);
                reveal_strlit("* ");
            }
            visited.insert(id.clone(), true);
            match find_row(rows, id.as_str()) {
                None => {
                    proof {
                        fuel = (fuel - 1) as nat;
                    }
                },
                Some(i) => {
                    let h = &rows[i].1;
                    let kids = child_list(rows, id.as_str());
                    let bs = filled_list(h.blocked_by());
                    push_tree_node(&mut out, h);
                    push_child_edges(&mut out, h.id.as_str(), &kids);
                    push_blocks_edges(&mut out, &bs, h.id.as_str());
                    let ghost before = stack@.map_values(|s: String| s@);
                    let mut k: usize = 0;
                    while k < kids.len()
                        invariant
                            k <= kids.len(),
                            stack@.map_values(|s: String| s@) == before + kids@.map_values(|s: String| s@).take(k as int),
                        decreases kids.len() - k,
                    {
                        let ghost prev = stack@.map_values(|s: String| s@);
                        stack.push(kids[k].clone());
                        proof {
                            let kv = kids@.map_values(|s: String| s@);
                            assert(kv.take(k + 1) =~= kv.take(k as int).push(kv[k as int]));
                            assert(stack@.map_values(|s: String| s@) =~= prev.push(kids@[k as int]@));
                        }
                        k = k + 1;
                    }
                    let ghost mid = stack@.map_values(|s: String| s@);
                    let mut k: usize = 0;
                    while k < bs.len()
                        invariant
                            k <= bs.len(),
                            stack@.map_values(|s: String| s@) == mid + bs@.map_values(|s: String| s@).take(k as int),
                        decreases bs.len() - k,
                    {
                        let ghost prev = stack@.map_values(|s: String| s@);
                        stack.push(bs[k].clone());
                        proof {
                            let bv = bs@.map_values(|s: String| s@);
                            assert(bv.take(k + 1) =~= bv.take(k as int).push(bv[k as int]));
                            assert(stack@.map_values(|s: String| s@) =~= prev.push(bs@[k as int]@));
                        }
                        k = k + 1;
                    }
                    proof {
                        assert(kids@.map_values(|s: String| s@).take(kids.len() as int) =~= kids@.map_values(|s: String| s@));
                        assert(bs@.map_values(|s: String| s@).take(bs.len() as int) =~= bs@.map_values(|s: String| s@));
                        assert(h.id@ == id@);
                        fuel = (fuel - 1) as nat;
                    }
                },
            }
        }
    }
    out.push_str("}\n");
    out
}

/// Children and blockers below `root_id`, as indented text (`ascii` or
/// `text`) or as a Graphviz digraph (`dot`). Refused when no issue has the
/// root's id, and for any other format.
pub fn tree(rows: &[(String, IssueHeading)], root_id: &str, format: &str) -> (r: Result<String, TrackerError>)
    ensures
        row_of(rows@, root_id@) is None ==> (r matches Err(TrackerError::Message(m)) && m@ == "issue "@ + root_id@
            + " not found"@),
        row_of(rows@, root_id@) is Some && (format@ == "ascii"@ || format@ == "text"@) ==> (r matches Ok(t)
            && t@ == ascii_walk(
            rows@,
            root_id@,
            0,
            Seq::new(rows.len() as nat, |i: int| false),
            (rows.len() + 1) as nat,
        ).0),
        row_of(rows@, root_id@) is Some && format@ == "dot"@ ==> (r matches Ok(t) && t@ == dot_head() + dot_walk(
            rows@,
            seq![root_id@],
            Set::empty(),
            dot_fuel(rows@),
        ) + "}\n"@),
        row_of(rows@, root_id@) is Some && format@ != "ascii"@ && format@ != "text"@ && format@ != "dot"@
            ==> (r matches Err(TrackerError::Message(m)) && m@ == "unknown format "@ + crate::rofi::debug_str(
            format@,
        ) + "; allowed: ascii, dot"@),
{
    if find_row(rows, root_id).is_none() {
        let mut msg = "issue ".to_owned();
        msg.push_str(root_id);
        msg.push_str(" not found");
        return Err(TrackerError::Message(msg));
    }
    proof {
        reveal_strlit("ascii");
        reveal_strlit("text");
        reveal_strlit("dot");
        assert("dot"@.len() == 3 && "ascii"@.len() == 5 && "text"@.len() == 4);
    }
    if str_eq(format, "ascii") || str_eq(format, "text") {
        Ok(tree_ascii(rows, root_id))
    } else if str_eq(format, "dot") {
        Ok(tree_dot(rows, root_id))
    } else {
        let mut msg = "unknown format ".to_owned();
        msg.push_str(crate::rofi::debug_quote(format).as_str());
        msg.push_str("; allowed: ascii, dot");
        Err(TrackerError::Message(msg))
    }
}

} // verus!
