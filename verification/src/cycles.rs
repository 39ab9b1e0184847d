//! Blocker cycles. From each issue in turn, blockers are followed depth
//! first, last listed first, stepping back when a branch runs out, until an
//! id on the current path comes round again; the ids from its place on the
//! path, and the repeat, form a cycle of the blocker graph.
use vstd::prelude::*;

use crate::model::{IssueHeading, blockers};
use crate::org::join;
use crate::report::push_joined;
use crate::text::str_eq;
use crate::tree::{find_row, insert_text_into, lemma_last_row, row_of, sorted_text};

verus! {

/// Every id the first `n` rows mention: each heading's id, then its blockers.
pub open spec fn mentions(rows: Seq<(String, IssueHeading)>, n: int) -> Seq<Seq<char>>
    decreases n,
{
    if n <= 0 {
        seq![]
    } else {
        mentions(rows, n - 1) + seq![rows[n - 1].1.id@] + blockers(rows[n - 1].1)
    }
}

/// The first position of `x` in `s`.
pub open spec fn first_pos(s: Seq<Seq<char>>, x: Seq<char>) -> int {
    choose|p: int| 0 <= p < s.len() && s[p] == x && forall|q: int| 0 <= q < p ==> s[q] != x
}

/// `ids`, each tagged with the path length `depth` it hangs from.
pub open spec fn tagged(ids: Seq<Seq<char>>, depth: int) -> Seq<(Seq<char>, int)> {
    ids.map_values(|x: Seq<char>| (x, depth))
}

/// More ids than any walk visits: every id the corpus mentions.
pub open spec fn walk_bound(rows: Seq<(String, IssueHeading)>) -> nat {
    mentions(rows, rows.len() as int).len()
}

/// What is left of `walk_bound` once `visited` ids have been walked.
pub open spec fn walk_left(rows: Seq<(String, IssueHeading)>, visited: Seq<Seq<char>>) -> nat {
    if visited.len() <= walk_bound(rows) {
        (walk_bound(rows) - visited.len()) as nat
    } else {
        0
    }
}

/// The depth-first walk on from `path` (the chain of blockers being
/// followed), with `visited` the ids walked so far and `frontier` the ids
/// still to try, each with the length of the path it hangs from. The last
/// one is taken and the path cut back to where it hangs; one already on the
/// path closes the cycle that runs from its place on it; one walked before
/// (and so finished with) is passed over; any other joins the path, and,
/// where a heading carries it, that heading's blockers join the frontier.
pub open spec fn dfs(
    rows: Seq<(String, IssueHeading)>,
    path: Seq<Seq<char>>,
    visited: Seq<Seq<char>>,
    frontier: Seq<(Seq<char>, int)>,
) -> Option<Seq<Seq<char>>>
    decreases walk_left(rows, visited), frontier.len(),
{
    if frontier.len() == 0 {
        None
    } else {
        let b = frontier.last().0;
        let d = frontier.last().1;
        let rest = frontier.drop_last();
        let p = if 0 <= d <= path.len() {
            path.take(d)
        } else {
            path
        };
        if p.contains(b) {
            Some(p.subrange(first_pos(p, b), p.len() as int).push(b))
        } else if visited.contains(b) {
            dfs(rows, p, visited, rest)
        } else if visited.len() >= walk_bound(rows) {
            None
        } else {
            let kids = match row_of(rows, b) {
                Some(j) => tagged(blockers(rows[j].1), p.len() + 1int),
                None => seq![],
            };
            dfs(rows, p.push(b), visited.push(b), rest + kids)
        }
    }
}

/// The cycle the walk from row `i` closes, unsorted.
pub open spec fn walk_of(rows: Seq<(String, IssueHeading)>, i: int) -> Option<Seq<Seq<char>>> {
    dfs(rows, seq![rows[i].1.id@], seq![rows[i].1.id@], tagged(blockers(rows[i].1), 1))
}

/// The cycle the walk from row `i` closes, its ids in ascending order.
pub open spec fn cycle_from(rows: Seq<(String, IssueHeading)>, i: int) -> Option<Seq<Seq<char>>> {
    match walk_of(rows, i) {
        Some(c) => Some(sorted_text(c)),
        None => None,
    }
}

/// The distinct cycles the walks from the first `n` rows close, in the order
/// they are first found.
pub open spec fn cycles_found(rows: Seq<(String, IssueHeading)>, n: int) -> Seq<Seq<Seq<char>>>
    decreases n,
{
    if n <= 0 {
        seq![]
    } else {
        let f = cycles_found(rows, n - 1);
        match cycle_from(rows, n - 1) {
            Some(c) => if f.contains(c) {
                f
            } else {
                f.push(c)
            },
            None => f,
        }
    }
}

/// One line per cycle, its ids joined by arrows.
pub open spec fn cycle_lines(found: Seq<Seq<Seq<char>>>) -> Seq<char>
    decreases found.len(),
{
    if found.len() == 0 {
        seq![]
    } else {
        cycle_lines(found.drop_last()) + join(found.last(), " -> "@) + "\n"@
    }
}

/// The report: the cycles, or `no cycles`.
pub open spec fn cycles_text(found: Seq<Seq<Seq<char>>>) -> Seq<char> {
    if found.len() == 0 {
        "no cycles\n"@
    } else {
        cycle_lines(found)
    }
}

/// The texts of a list of strings.
pub open spec fn texts(v: Seq<String>) -> Seq<Seq<char>> {
    v.map_values(|s: String| s@)
}

proof fn lemma_mentions(rows: Seq<(String, IssueHeading)>, n: int, j: int)
    requires
        0 <= j < n <= rows.len(),
    ensures
        mentions(rows, n).contains(rows[j].1.id@),
        forall|k: int|
            0 <= k < blockers(rows[j].1).len() ==> mentions(rows, n).contains(
                #[trigger] blockers(rows[j].1)[k],
            ),
    decreases n,
{
    let m = mentions(rows, n - 1);
    let bs = blockers(rows[n - 1].1);
    let all = mentions(rows, n);
    assert(all == m + seq![rows[n - 1].1.id@] + bs);
    if j < n - 1 {
        lemma_mentions(rows, n - 1, j);
        let w = choose|w: int| 0 <= w < m.len() && m[w] == rows[j].1.id@;
        assert(all[w] == m[w]);
        assert forall|k: int| 0 <= k < blockers(rows[j].1).len() implies all.contains(
            #[trigger] blockers(rows[j].1)[k],
        ) by {
            assert(m.contains(blockers(rows[j].1)[k]));
            let v = choose|v: int| 0 <= v < m.len() && m[v] == blockers(rows[j].1)[k];
            assert(all[v] == m[v]);
        }
    } else {
        assert(all[m.len() as int] == rows[j].1.id@);
        assert forall|k: int| 0 <= k < bs.len() implies all.contains(#[trigger] bs[k]) by {
            assert(all[m.len() + 1 + k] == bs[k]);
        }
    }
}

/// A path without repeats drawn from the mentioned ids is no longer than
/// the list of mentions.
proof fn lemma_path_bound(path: Seq<Seq<char>>, ms: Seq<Seq<char>>)
    requires
        path.no_duplicates(),
        forall|k: int| 0 <= k < path.len() ==> ms.contains(#[trigger] path[k]),
    ensures
        path.len() <= ms.len(),
{
    path.unique_seq_to_set();
    ms.lemma_cardinality_of_set();
    vstd::seq_lib::seq_to_set_is_finite(ms);
    assert(path.to_set().subset_of(ms.to_set())) by {
        assert forall|x: Seq<char>| path.to_set().contains(x) implies ms.to_set().contains(x) by {
            let k = choose|k: int| 0 <= k < path.len() && path[k] == x;
            assert(ms.contains(path[k]));
        }
    }
    vstd::set_lib::lemma_len_subset(path.to_set(), ms.to_set());
}

/// The first position of `b` in `path`, if it is there.
fn first_index(path: &Vec<String>, b: &str) -> (r: Option<usize>)
    ensures
        match r {
            Some(p) => p < path.len() && path@[p as int]@ == b@ && forall|q: int|
                0 <= q < p ==> (#[trigger] path@[q])@ != b@,
            None => forall|q: int| 0 <= q < path.len() ==> (#[trigger] path@[q])@ != b@,
        },
{
    let mut k: usize = 0;
    while k < path.len()
        invariant
            k <= path.len(),
            forall|q: int| 0 <= q < k ==> (#[trigger] path@[q])@ != b@,
        decreases path.len() - k,
    {
        if str_eq(path[k].as_str(), b) {
            return Some(k);
        }
        k = k + 1;
    }
    None
}

proof fn lemma_first_pos(s: Seq<Seq<char>>, x: Seq<char>, p: int)
    requires
        0 <= p < s.len(),
        s[p] == x,
        forall|q: int| 0 <= q < p ==> s[q] != x,
    ensures
        first_pos(s, x) == p,
{
    let c = first_pos(s, x);
    assert(0 <= c < s.len() && s[c] == x && forall|q: int| 0 <= q < c ==> s[q] != x);
    if c < p {
        assert(s[c] != x);
    }
    if p < c {
        assert(s[p] != x);
    }
}

/// The copy of `path` from position `p` on, then `b`.
fn cycle_tail(path: &Vec<String>, p: usize, b: String) -> (r: Vec<String>)
    requires
        p <= path.len(),
    ensures
        texts(r@) == texts(path@).subrange(p as int, path.len() as int).push(b@),
{
    let mut out: Vec<String> = Vec::new();
    let mut k: usize = p;
    while k < path.len()
        invariant
            p <= k <= path.len(),
            texts(out@) == texts(path@).subrange(p as int, k as int),
        decreases path.len() - k,
    {
        let ghost before = out@;
        let item = path[k].clone();
        assert(item@ == path@[k as int]@);
        out.push(item);
        proof {
            assert(texts(out@) =~= texts(before).push(texts(path@)[k as int]));
            assert(texts(path@).subrange(p as int, k + 1) =~= texts(path@).subrange(p as int, k as int).push(texts(path@)[k as int]));
        }
        k = k + 1;
    }
    let ghost bv = b@;
    out.push(b);
    proof {
        assert(texts(out@) =~= texts(path@).subrange(p as int, path.len() as int).push(bv));
    }
    out
}

/// The frontier's texts and depths.
pub open spec fn frontier_view(f: Seq<(String, usize)>) -> Seq<(Seq<char>, int)> {
    f.map_values(|p: (String, usize)| (p.0@, p.1 as int))
}

/// Whether `v` holds `b`.
fn contains_text(v: &Vec<String>, b: &str) -> (r: bool)
    ensures
        r == texts(v@).contains(b@),
{
    let mut k: usize = 0;
    while k < v.len()
        invariant
            k <= v.len(),
            forall|q: int| 0 <= q < k ==> (#[trigger] v@[q])@ != b@,
        decreases v.len() - k,
    {
        if str_eq(v[k].as_str(), b) {
            assert(texts(v@)[k as int] == b@);
            return true;
        }
        k = k + 1;
    }
    proof {
        if texts(v@).contains(b@) {
            let q = choose|q: int| 0 <= q < texts(v@).len() && texts(v@)[q] == b@;
            assert(v@[q]@ == b@);
        }
    }
    false
}

/// `ids` as frontier entries hanging from path length `depth`.
fn push_tagged(frontier: &mut Vec<(String, usize)>, ids: Vec<String>, depth: usize)
    ensures
        frontier_view(final(frontier)@) == frontier_view(old(frontier)@) + tagged(texts(ids@), depth as int),
{
    let ghost f0 = frontier_view(frontier@);
    let mut k: usize = 0;
    while k < ids.len()
        invariant
            k <= ids.len(),
            frontier_view(frontier@) == f0 + tagged(texts(ids@), depth as int).take(k as int),
        decreases ids.len() - k,
    {
        let ghost before = frontier_view(frontier@);
        let x = ids[k].clone();
        assert(x@ == ids@[k as int]@);
        frontier.push((x, depth));
        assert(frontier_view(frontier@) =~= before.push((ids@[k as int]@, depth as int)));
        assert(tagged(texts(ids@), depth as int).take(k + 1) =~= tagged(texts(ids@), depth as int).take(k as int).push(
            (ids@[k as int]@, depth as int),
        ));
        k = k + 1;
    }
    assert(tagged(texts(ids@), depth as int).take(ids.len() as int) =~= tagged(texts(ids@), depth as int));
}

/// The cycle, unsorted, that the walk from row `i` closes.
#[verifier::rlimit(60)]
fn walk_from(rows: &[(String, IssueHeading)], i: usize) -> (r: Option<Vec<String>>)
    requires
        i < rows.len(),
    ensures
        match walk_of(rows@, i as int) {
            Some(c) => r is Some && texts(r->0@) == c,
            None => r is None,
        },
{
    let ghost ms = mentions(rows@, rows.len() as int);
    let ghost goal = walk_of(rows@, i as int);
    proof {
        lemma_mentions(rows@, rows.len() as int, i as int);
    }
    let mut path: Vec<String> = Vec::new();
    path.push(rows[i].1.id.clone());
    let mut visited: Vec<String> = Vec::new();
    visited.push(rows[i].1.id.clone());
    let mut frontier: Vec<(String, usize)> = Vec::new();
    push_tagged(&mut frontier, rows[i].1.blocked_by(), 1);
    proof {
        assert(texts(path@) =~= seq![rows@[i as int].1.id@]);
        assert(texts(visited@) =~= seq![rows@[i as int].1.id@]);
        assert(frontier_view(frontier@) =~= tagged(blockers(rows@[i as int].1), 1));
        assert(ms.contains(rows@[i as int].1.id@));
        assert(ms.len() >= 1);
        assert forall|k: int| 0 <= k < frontier.len() implies ms.contains(#[trigger] frontier_view(frontier@)[k].0) by {
            assert(frontier_view(frontier@)[k].0 == blockers(rows@[i as int].1)[k]);
        }
        assert forall|k: int| 0 <= k < frontier.len() implies #[trigger] frontier@[k].1 == 1 by {
            assert(frontier_view(frontier@)[k].1 == 1);
        }
    }
    loop
        invariant
            i < rows.len(),
            ms == mentions(rows@, rows.len() as int),
            goal == walk_of(rows@, i as int),
            visited.len() <= ms.len(),
            texts(visited@).no_duplicates(),
            forall|k: int| 0 <= k < visited.len() ==> ms.contains(#[trigger] texts(visited@)[k]),
            forall|k: int| 0 <= k < frontier.len() ==> ms.contains(#[trigger] frontier_view(frontier@)[k].0),
            forall|k: int| 0 <= k < frontier.len() ==> #[trigger] frontier@[k].1 <= path.len(),
            path.len() <= visited.len(),
            forall|a: int, c: int| 0 <= a < c < frontier.len() ==> #[trigger] frontier@[a].1 <= #[trigger] frontier@[c].1,
            goal == dfs(rows@, texts(path@), texts(visited@), frontier_view(frontier@)),
        decreases walk_left(rows@, texts(visited@)), frontier.len(),
    {
        let ghost pv = texts(path@);
        let ghost vv = texts(visited@);
        let ghost fv = frontier_view(frontier@);
        let ghost f0 = frontier@;
        let popped = frontier.pop();
        let (b, d) = match popped {
            None => {
                assert(fv.len() == 0);
                return None;
            },
            Some(x) => x,
        };
        proof {
            assert(fv.last() == (b@, d as int));
            assert(frontier_view(frontier@) =~= fv.drop_last());
            assert(f0[f0.len() - 1] == (b, d));
        }
        path.truncate(d);
        proof {
            assert(texts(path@) =~= pv.take(d as int));
        }
        let ghost p = texts(path@);
        match first_index(&path, b.as_str()) {
            Some(q) => {
                proof {
                    assert(p[q as int] == b@);
                    lemma_first_pos(p, b@, q as int);
                }
                let c = cycle_tail(&path, q, b);
                return Some(c);
            },
            None => {
                proof {
                    assert(!p.contains(b@));
                }
            },
        }
        if contains_text(&visited, b.as_str()) {
            proof {
                assert forall|k: int| 0 <= k < frontier.len() implies #[trigger] frontier@[k].1 <= path.len() by {
                    assert(frontier@[k] == f0[k]);
                    assert(f0[k].1 <= f0[f0.len() - 1].1);
                }
                assert forall|k: int| 0 <= k < frontier.len() implies ms.contains(#[trigger] frontier_view(frontier@)[k].0) by {
                    assert(frontier_view(frontier@)[k] == fv[k]);
                }
                assert forall|a: int, c: int| 0 <= a < c < frontier.len() implies #[trigger] frontier@[a].1 <= #[trigger] frontier@[c].1 by {
                    assert(frontier@[a] == f0[a] && frontier@[c] == f0[c]);
                }
            }
            continue;
        }
        let ghost rest = frontier_view(frontier@);
        let ghost fr = frontier@;
        let ghost bv = b@;
        path.push(b.clone());
        let depth = path.len();
        match find_row(rows, b.as_str()) {
            Some(j) => {
                proof {
                    lemma_mentions(rows@, rows.len() as int, j as int);
                }
                push_tagged(&mut frontier, rows[j].1.blocked_by(), depth);
            },
            None => {},
        }
        visited.push(b);
        proof {
            assert(texts(path@) =~= p.push(bv));
            assert(texts(visited@) =~= vv.push(bv));
            assert(ms.contains(bv)) by {
                assert(fv[fv.len() - 1].0 == bv);
            }
            assert forall|k: int| 0 <= k < visited.len() implies ms.contains(#[trigger] texts(visited@)[k]) by {
                if k < vv.len() {
                    assert(texts(visited@)[k] == vv[k]);
                }
            }
            assert(texts(visited@).no_duplicates()) by {
                assert forall|x: int, y: int|
                    0 <= x < texts(visited@).len() && 0 <= y < texts(visited@).len() && x != y
                        implies texts(visited@)[x] != texts(visited@)[y] by {
                    if x == vv.len() {
                        assert(vv[y] != bv);
                    } else if y == vv.len() {
                        assert(vv[x] != bv);
                    }
                }
            }
            lemma_path_bound(texts(visited@), ms);
            assert forall|k: int| 0 <= k < frontier.len() implies ms.contains(#[trigger] frontier_view(frontier@)[k].0) by {
                if k < fr.len() {
                    assert(frontier_view(frontier@)[k] == rest[k]);
                    assert(rest[k] == fv[k]);
                } else {
                    let j = row_of(rows@, bv)->0;
                    assert(frontier_view(frontier@)[k].0 == blockers(rows@[j].1)[k - fr.len()]);
                }
            }
            assert forall|k: int| 0 <= k < frontier.len() implies #[trigger] frontier@[k].1 <= path.len() by {
                if k < fr.len() {
                    assert(frontier_view(frontier@)[k] == rest[k]);
                    assert(fr[k] == f0[k]);
                    assert(f0[k].1 <= f0[f0.len() - 1].1);
                } else {
                    assert(frontier_view(frontier@)[k].1 == depth as int);
                }
            }
            assert forall|a: int, c: int| 0 <= a < c < frontier.len() implies #[trigger] frontier@[a].1 <= #[trigger] frontier@[c].1 by {
                if c < fr.len() {
                    assert(frontier_view(frontier@)[a] == rest[a]);
                    assert(frontier_view(frontier@)[c] == rest[c]);
                    assert(fr[a] == f0[a] && fr[c] == f0[c]);
                } else if a < fr.len() {
                    assert(frontier_view(frontier@)[a] == rest[a]);
                    assert(fr[a] == f0[a]);
                    assert(f0[a].1 <= f0[f0.len() - 1].1);
                    assert(frontier_view(frontier@)[c].1 == depth as int);
                } else {
                    assert(frontier_view(frontier@)[a].1 == depth as int);
                    assert(frontier_view(frontier@)[c].1 == depth as int);
                }
            }
        }
    }
}

/// `v` in ascending order.
fn sort_texts(v: Vec<String>) -> (r: Vec<String>)
    ensures
        texts(r@) == sorted_text(texts(v@)),
{
    let mut out: Vec<String> = Vec::new();
    let mut k: usize = 0;
    while k < v.len()
        invariant
            k <= v.len(),
            texts(out@) == sorted_text(texts(v@).take(k as int)),
        decreases v.len() - k,
    {
        proof {
            assert(texts(v@).take(k + 1).drop_last() =~= texts(v@).take(k as int));
            assert(texts(v@).take(k + 1).last() == v@[k as int]@);
        }
        insert_text_into(&mut out, v[k].clone());
        k = k + 1;
    }
    assert(texts(v@).take(v.len() as int) =~= texts(v@));
    out
}

/// Whether two lists hold the same texts.
fn texts_eq(a: &Vec<String>, b: &Vec<String>) -> (r: bool)
    ensures
        r == (texts(a@) == texts(b@)),
{
    if a.len() != b.len() {
        assert(texts(a@).len() != texts(b@).len());
        return false;
    }
    let mut k: usize = 0;
    while k < a.len()
        invariant
            k <= a.len(),
            a.len() == b.len(),
            forall|q: int| 0 <= q < k ==> (#[trigger] a@[q])@ == b@[q]@,
        decreases a.len() - k,
    {
        if !str_eq(a[k].as_str(), b[k].as_str()) {
            assert(texts(a@)[k as int] != texts(b@)[k as int]);
            return false;
        }
        k = k + 1;
    }
    assert(texts(a@) =~= texts(b@));
    true
}

/// The cycles found so far, as texts.
pub open spec fn found_texts(found: Seq<Vec<String>>) -> Seq<Seq<Seq<char>>> {
    found.map_values(|c: Vec<String>| texts(c@))
}

/// Whether `found` already holds `c`.
fn holds(found: &Vec<Vec<String>>, c: &Vec<String>) -> (r: bool)
    ensures
        r == found_texts(found@).contains(texts(c@)),
{
    let mut k: usize = 0;
    while k < found.len()
        invariant
            k <= found.len(),
            forall|q: int| 0 <= q < k ==> texts((#[trigger] found@[q])@) != texts(c@),
        decreases found.len() - k,
    {
        if texts_eq(&found[k], c) {
            assert(found_texts(found@)[k as int] == texts(c@));
            return true;
        }
        k = k + 1;
    }
    proof {
        if found_texts(found@).contains(texts(c@)) {
            let q = choose|q: int| 0 <= q < found_texts(found@).len() && found_texts(found@)[q] == texts(c@);
            assert(texts(found@[q]@) == texts(c@));
        }
    }
    false
}

/// Every blocker cycle, one per line with its ids in ascending order joined
/// by arrows, each listed once in the order the walks from the issues (in
/// corpus order) find them; or `no cycles`.
pub fn cycles(rows: &[(String, IssueHeading)]) -> (r: String)
    ensures
        r@ == cycles_text(cycles_found(rows@, rows.len() as int)),
{
    let mut found: Vec<Vec<String>> = Vec::new();
    let mut i: usize = 0;
    while i < rows.len()
        invariant
            i <= rows.len(),
            found_texts(found@) == cycles_found(rows@, i as int),
        decreases rows.len() - i,
    {
        let walked = walk_from(rows, i);
        match walked {
            Some(c) => {
                let sc = sort_texts(c);
                if !holds(&found, &sc) {
                    let ghost before = found@;
                    found.push(sc);
                    proof {
                        assert(found_texts(found@) =~= found_texts(before).push(texts(found@.last()@)));
                    }
                }
            },
            None => {},
        }
        i = i + 1;
    }
    let mut out = String::new();
    if found.len() == 0 {
        out.push_str("no cycles\n");
        return out;
    }
    let mut k: usize = 0;
    while k < found.len()
        invariant
            k <= found.len(),
            out@ == cycle_lines(found_texts(found@).take(k as int)),
        decreases found.len() - k,
    {
        proof {
            assert(found_texts(found@).take(k + 1).drop_last() =~= found_texts(found@).take(k as int));
            assert(found_texts(found@).take(k + 1).last() == texts(found@[k as int]@));
        }
        push_joined(&mut out, &found[k], " -> ");
        out.push_str("\n");
        k = k + 1;
    }
    assert(found_texts(found@).take(found.len() as int) =~= found_texts(found@));
    out
}

/// No cycle is reported twice.
pub proof fn lemma_cycles_distinct(rows: Seq<(String, IssueHeading)>, n: int)
    ensures
        cycles_found(rows, n).no_duplicates(),
    decreases n,
{
    if n > 0 {
        lemma_cycles_distinct(rows, n - 1);
        let f = cycles_found(rows, n - 1);
        if let Some(c) = cycle_from(rows, n - 1) {
            if !f.contains(c) {
                assert forall|a: int, b: int|
                    0 <= a < f.push(c).len() && 0 <= b < f.push(c).len() && a != b
                        implies f.push(c)[a] != f.push(c)[b] by {
                    if a == f.len() {
                        assert(f[b] != c);
                    } else if b == f.len() {
                        assert(f[a] != c);
                    }
                }
            }
        }
    }
}

/// A corpus in which no issue lists a blocker has no cycles.
pub proof fn lemma_no_blockers_no_cycles(rows: Seq<(String, IssueHeading)>)
    requires
        forall|i: int| 0 <= i < rows.len() ==> #[trigger] blockers(rows[i].1).len() == 0,
    ensures
        cycles_text(cycles_found(rows, rows.len() as int)) == "no cycles\n"@,
{
    assert forall|n: int| 0 <= n <= rows.len() implies #[trigger] cycles_found(rows, n).len() == 0 by {
        lemma_found_none(rows, n);
    }
}

proof fn lemma_found_none(rows: Seq<(String, IssueHeading)>, n: int)
    requires
        0 <= n <= rows.len(),
        forall|i: int| 0 <= i < rows.len() ==> #[trigger] blockers(rows[i].1).len() == 0,
    ensures
        cycles_found(rows, n).len() == 0,
    decreases n,
{
    if n > 0 {
        lemma_found_none(rows, n - 1);
        assert(blockers(rows[n - 1].1).len() == 0);
        assert(cycle_from(rows, n - 1) is None);
    }
}

/// An edge of the blocker graph: some heading with id `x` lists `y` as a
/// blocker.
pub open spec fn blocks_on(rows: Seq<(String, IssueHeading)>, x: Seq<char>, y: Seq<char>) -> bool {
    exists|j: int| 0 <= j < rows.len() && rows[j].1.id@ == x && #[trigger] blockers(rows[j].1).contains(y)
}

/// A closed walk of the blocker graph: it ends where it starts, and each id
/// is blocked on the next.
pub open spec fn closed_walk(rows: Seq<(String, IssueHeading)>, c: Seq<Seq<char>>) -> bool {
    &&& c.len() >= 2
    &&& c[0] == c[c.len() - 1]
    &&& forall|k: int| 0 <= k < c.len() - 1 ==> #[trigger] blocks_on(rows, c[k], c[k + 1])
}

/// Each id on `path` is blocked on the next.
pub open spec fn chain(rows: Seq<(String, IssueHeading)>, path: Seq<Seq<char>>) -> bool {
    forall|k: int| 0 <= k < path.len() - 1 ==> #[trigger] blocks_on(rows, path[k], path[k + 1])
}

/// Each frontier id is a blocker of the path id it hangs from, and the
/// frontier hangs no shallower towards its end.
pub open spec fn hangs(rows: Seq<(String, IssueHeading)>, path: Seq<Seq<char>>, frontier: Seq<(Seq<char>, int)>) -> bool {
    &&& forall|k: int| 0 <= k < frontier.len() ==> 1 <= #[trigger] frontier[k].1 <= path.len()
    &&& forall|k: int| 0 <= k < frontier.len() ==> blocks_on(rows, path[frontier[k].1 - 1], #[trigger] frontier[k].0)
    &&& forall|a: int, c: int| 0 <= a < c < frontier.len() ==> #[trigger] frontier[a].1 <= #[trigger] frontier[c].1
}

proof fn lemma_first_pos_exists(s: Seq<Seq<char>>, x: Seq<char>)
    requires
        s.contains(x),
    ensures
        exists|p: int| 0 <= p < s.len() && s[p] == x && forall|q: int| 0 <= q < p ==> s[q] != x,
    decreases s.len(),
{
    if s.drop_last().contains(x) {
        lemma_first_pos_exists(s.drop_last(), x);
        let p = choose|p: int| 0 <= p < s.drop_last().len() && s.drop_last()[p] == x
            && forall|q: int| 0 <= q < p ==> s.drop_last()[q] != x;
        assert(s[p] == x);
        assert forall|q: int| 0 <= q < p implies s[q] != x by {
            assert(s[q] == s.drop_last()[q]);
        }
    } else {
        let p = s.len() - 1;
        assert(s[p] == x) by {
            let w = choose|w: int| 0 <= w < s.len() && s[w] == x;
            if w < p {
                assert(s.drop_last()[w] == x);
            }
        }
        assert forall|q: int| 0 <= q < p implies s[q] != x by {
            if s[q] == x {
                assert(s.drop_last()[q] == x);
            }
        }
    }
}

proof fn lemma_dfs_sound(
    rows: Seq<(String, IssueHeading)>,
    path: Seq<Seq<char>>,
    visited: Seq<Seq<char>>,
    frontier: Seq<(Seq<char>, int)>,
)
    requires
        chain(rows, path),
        hangs(rows, path, frontier),
    ensures
        dfs(rows, path, visited, frontier) matches Some(c) ==> closed_walk(rows, c),
    decreases walk_left(rows, visited), frontier.len(),
{
    if frontier.len() > 0 {
        let b = frontier.last().0;
        let d = frontier.last().1;
        let rest = frontier.drop_last();
        assert(1 <= frontier[frontier.len() - 1].1 <= path.len());
        assert(blocks_on(rows, path[d - 1], frontier[frontier.len() - 1].0));
        let p = path.take(d);
        assert(chain(rows, p)) by {
            assert forall|k: int| 0 <= k < p.len() - 1 implies #[trigger] blocks_on(rows, p[k], p[k + 1]) by {
                assert(p[k] == path[k] && p[k + 1] == path[k + 1]);
                assert(blocks_on(rows, path[k], path[k + 1]));
            }
        }
        if p.contains(b) {
            lemma_first_pos_exists(p, b);
            let pos = first_pos(p, b);
            let c = p.subrange(pos, p.len() as int).push(b);
            assert(c[0] == p[pos]);
            assert forall|k: int| 0 <= k < c.len() - 1 implies #[trigger] blocks_on(rows, c[k], c[k + 1]) by {
                if k < c.len() - 2 {
                    assert(c[k] == p[pos + k] && c[k + 1] == p[pos + k + 1]);
                    assert(blocks_on(rows, p[pos + k], p[pos + k + 1]));
                } else {
                    assert(c[k] == p[d - 1]);
                    assert(c[k + 1] == b);
                    assert(p[d - 1] == path[d - 1]);
                }
            }
        } else if visited.contains(b) {
            assert(hangs(rows, p, rest)) by {
                assert forall|k: int| 0 <= k < rest.len() implies 1 <= #[trigger] rest[k].1 <= p.len() by {
                    assert(rest[k] == frontier[k]);
                    assert(frontier[k].1 <= frontier[frontier.len() - 1].1);
                }
                assert forall|k: int| 0 <= k < rest.len() implies blocks_on(rows, p[rest[k].1 - 1], #[trigger] rest[k].0) by {
                    assert(rest[k] == frontier[k]);
                    assert(frontier[k].1 <= frontier[frontier.len() - 1].1);
                    assert(blocks_on(rows, path[frontier[k].1 - 1], frontier[k].0));
                    assert(p[rest[k].1 - 1] == path[frontier[k].1 - 1]);
                }
                assert forall|a: int, c: int| 0 <= a < c < rest.len() implies #[trigger] rest[a].1 <= #[trigger] rest[c].1 by {
                    assert(rest[a] == frontier[a] && rest[c] == frontier[c]);
                }
            }
            lemma_dfs_sound(rows, p, visited, rest);
        } else if visited.len() >= walk_bound(rows) {
        } else {
            let kids = match row_of(rows, b) {
                Some(j) => tagged(blockers(rows[j].1), p.len() + 1int),
                None => seq![],
            };
            let p2 = p.push(b);
            let f2 = rest + kids;
            assert(chain(rows, p2)) by {
                assert forall|k: int| 0 <= k < p2.len() - 1 implies #[trigger] blocks_on(rows, p2[k], p2[k + 1]) by {
                    if k < p.len() - 1 {
                        assert(p2[k] == p[k] && p2[k + 1] == p[k + 1]);
                        assert(blocks_on(rows, p[k], p[k + 1]));
                    } else {
                        assert(p2[k] == path[d - 1]);
                        assert(p2[k + 1] == b);
                    }
                }
            }
            if let Some(j) = row_of(rows, b) {
                lemma_last_row(rows, b, rows.len() as int);
            }
            assert(hangs(rows, p2, f2)) by {
                assert forall|k: int| 0 <= k < f2.len() implies 1 <= #[trigger] f2[k].1 <= p2.len() by {
                    if k < rest.len() {
                        assert(f2[k] == frontier[k]);
                        assert(frontier[k].1 <= frontier[frontier.len() - 1].1);
                    } else {
                        assert(f2[k] == kids[k - rest.len()]);
                    }
                }
                assert forall|k: int| 0 <= k < f2.len() implies blocks_on(rows, p2[f2[k].1 - 1], #[trigger] f2[k].0) by {
                    if k < rest.len() {
                        assert(f2[k] == frontier[k]);
                        assert(frontier[k].1 <= frontier[frontier.len() - 1].1);
                        assert(blocks_on(rows, path[frontier[k].1 - 1], frontier[k].0));
                        assert(p2[f2[k].1 - 1] == path[frontier[k].1 - 1]);
                    } else {
                        let j = row_of(rows, b)->0;
                        assert(f2[k] == kids[k - rest.len()]);
                        assert(f2[k].0 == blockers(rows[j].1)[k - rest.len()]);
                        assert(p2[f2[k].1 - 1] == b);
                        assert(blockers(rows[j].1).contains(f2[k].0));
                    }
                }
                assert forall|a: int, c: int| 0 <= a < c < f2.len() implies #[trigger] f2[a].1 <= #[trigger] f2[c].1 by {
                    if c < rest.len() {
                        assert(f2[a] == frontier[a] && f2[c] == frontier[c]);
                    } else if a < rest.len() {
                        assert(f2[a] == frontier[a]);
                        assert(frontier[a].1 <= frontier[frontier.len() - 1].1);
                        assert(f2[c] == kids[c - rest.len()]);
                    } else {
                        assert(f2[a] == kids[a - rest.len()]);
                        assert(f2[c] == kids[c - rest.len()]);
                    }
                }
            }
            lemma_dfs_sound(rows, p2, visited.push(b), f2);
        }
    }
}

/// Whether `ids` are, in ascending order, the ids of a closed walk of the
/// blocker graph.
pub open spec fn real_cycle(rows: Seq<(String, IssueHeading)>, ids: Seq<Seq<char>>) -> bool {
    exists|c: Seq<Seq<char>>| closed_walk(rows, c) && #[trigger] sorted_text(c) == ids
}

/// Every cycle reported is a cycle of the blocker graph: its ids, in
/// ascending order, are those of a closed walk along blocker edges.
pub proof fn lemma_cycles_are_real(rows: Seq<(String, IssueHeading)>, n: int)
    requires
        n <= rows.len(),
    ensures
        forall|k: int| 0 <= k < cycles_found(rows, n).len() ==> #[trigger] real_cycle(rows, cycles_found(rows, n)[k]),
    decreases n,
{
    if n > 0 {
        lemma_cycles_are_real(rows, n - 1);
        let f = cycles_found(rows, n - 1);
        if 0 <= n - 1 < rows.len() {
            let i = n - 1;
            let start = seq![rows[i].1.id@];
            let fr = tagged(blockers(rows[i].1), 1);
            assert(hangs(rows, start, fr)) by {
                assert forall|k: int| 0 <= k < fr.len() implies blocks_on(rows, start[fr[k].1 - 1], #[trigger] fr[k].0) by {
                    assert(fr[k].0 == blockers(rows[i].1)[k]);
                    assert(blockers(rows[i].1).contains(fr[k].0));
                }
            }
            lemma_dfs_sound(rows, start, start, fr);
        }
        if let Some(c) = cycle_from(rows, n - 1) {
            if !f.contains(c) {
                let w = walk_of(rows, n - 1)->0;
                assert forall|k: int| 0 <= k < f.push(c).len() implies #[trigger] real_cycle(rows, f.push(c)[k]) by {
                    if k == f.len() {
                        assert(closed_walk(rows, w) && sorted_text(w) == f.push(c)[k]);
                    } else {
                        assert(f.push(c)[k] == f[k]);
                        assert(real_cycle(rows, f[k]));
                    }
                }
            }
        }
    }
}

/// A corpus whose blocker graph has no closed walk has no cycles.
pub proof fn lemma_acyclic_has_no_cycles(rows: Seq<(String, IssueHeading)>)
    requires
        forall|c: Seq<Seq<char>>| !closed_walk(rows, c),
    ensures
        cycles_text(cycles_found(rows, rows.len() as int)) == "no cycles\n"@,
{
    lemma_cycles_are_real(rows, rows.len() as int);
    if cycles_found(rows, rows.len() as int).len() > 0 {
        let f = cycles_found(rows, rows.len() as int);
        assert(real_cycle(rows, f[0]));
    }
}

} // verus!
