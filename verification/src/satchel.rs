//! A slice of the tracker packed as a BagIt bag with a `satchel.json`
//! self-description: which issues a slice takes, the manifest it is checked
//! against, and what a pack or a check reports.
use vstd::prelude::*;

use crate::error::TrackerError;
use crate::cycles::texts;
use crate::model::{blockers, prop};
use crate::textmap::TextMap;
use crate::text::{
    chars_of, decimal, decimal_chars, find_from, find_seq, lines, lines_exec, slice_of, str_eq,
    string_of, trim, trim_chars,
};
use crate::views::IssueRec;

verus! {

/// The format this writes, so a reader that meets a later one can say so
/// rather than guess.
pub const VERSION: &'static str = "vissue-satchel/1";

/// What was asked for, as opposed to what came along with it.
#[derive(Debug, Clone, Default, PartialEq, Eq)]
pub struct Slice {
    /// Projects taken whole.
    pub projects: Vec<String>,
    /// Issues named one at a time.
    pub issues: Vec<String>,
}

impl Slice {
    /// Whether this names nothing, which is not a slice.
    pub fn is_empty(&self) -> (r: bool)
        ensures
            r == (self.projects.len() == 0 && self.issues.len() == 0),
    {
        self.projects.len() == 0 && self.issues.len() == 0
    }
}

/// The last record at or before `n` whose heading carries id `x`.
pub open spec fn last_with(recs: Seq<IssueRec>, x: Seq<char>, n: int) -> Option<int>
    decreases n,
{
    if n <= 0 {
        None
    } else if recs[n - 1].heading.id@ == x {
        Some(n - 1)
    } else {
        last_with(recs, x, n - 1)
    }
}

/// The record that answers for id `x`: the last one carrying it.
pub open spec fn rec_of(recs: Seq<IssueRec>, x: Seq<char>) -> Option<int> {
    last_with(recs, x, recs.len() as int)
}

/// Whether some record carries id `x`.
pub open spec fn known(recs: Seq<IssueRec>, x: Seq<char>) -> bool {
    rec_of(recs, x) is Some
}

/// What issue `x` stands on: its blockers, then its parent.
pub open spec fn stands_on(recs: Seq<IssueRec>, x: Seq<char>) -> Seq<Seq<char>> {
    match rec_of(recs, x) {
        Some(i) => {
            let h = recs[i].heading;
            blockers(h) + match prop(h, "PARENT"@) {
                Some(p) => seq![p],
                None => seq![],
            }
        },
        None => seq![],
    }
}

/// Whether `s` holds every known issue that one of its issues stands on.
pub open spec fn closed_under(recs: Seq<IssueRec>, s: Set<Seq<char>>) -> bool {
    forall|x: Seq<char>, k: int|
        #![trigger s.contains(x), stands_on(recs, x)[k]]
        s.contains(x) && 0 <= k < stands_on(recs, x).len() && known(recs, stands_on(recs, x)[k])
            ==> s.contains(stands_on(recs, x)[k])
}

/// The issues a slice names: those of the projects it takes, and those it
/// names one at a time.
pub open spec fn named_ids(recs: Seq<IssueRec>, projects: Seq<Seq<char>>, issues: Seq<Seq<char>>) -> Set<Seq<char>> {
    Set::new(
        |x: Seq<char>|
            (exists|j: int|
                0 <= j < recs.len() && #[trigger] recs[j].heading.id@ == x && projects.contains(
                    recs[j].project@,
                )) || issues.contains(x),
    )
}

/// The first issue named one at a time that no record carries.
pub open spec fn first_unknown(recs: Seq<IssueRec>, issues: Seq<Seq<char>>, n: int) -> Option<int>
    decreases n,
{
    if n <= 0 {
        None
    } else {
        match first_unknown(recs, issues, n - 1) {
            Some(k) => Some(k),
            None => if known(recs, issues[n - 1]) {
                None
            } else {
                Some(n - 1)
            },
        }
    }
}

/// Whether `order` derives each of its issues: each is named, or is a known
/// issue an earlier one stands on.
pub open spec fn derives(recs: Seq<IssueRec>, named: Set<Seq<char>>, order: Seq<Seq<char>>) -> bool {
    forall|k: int|
        0 <= k < order.len() ==> named.contains(#[trigger] order[k]) || (known(recs, order[k]) && exists|m: int|
            0 <= m < k && stands_on(recs, order[m]).contains(order[k]))
}

/// What a slice takes: the issues it names, and those plus everything they
/// stand on to a fixed point.
pub struct Selection {
    pub named: TextMap<bool>,
    pub chosen: TextMap<bool>,
}

/// Everything a derived order holds lies in every closed set that holds
/// what was named.
pub proof fn lemma_derived_is_least(
    recs: Seq<IssueRec>,
    named: Set<Seq<char>>,
    order: Seq<Seq<char>>,
    s: Set<Seq<char>>,
)
    requires
        derives(recs, named, order),
        named.subset_of(s),
        closed_under(recs, s),
    ensures
        forall|k: int| 0 <= k < order.len() ==> s.contains(#[trigger] order[k]),
    decreases order.len(),
{
    if order.len() > 0 {
        let prev = order.drop_last();
        assert forall|k: int| 0 <= k < prev.len() implies named.contains(#[trigger] prev[k]) || (known(
            recs,
            prev[k],
        ) && exists|m: int| 0 <= m < k && stands_on(recs, prev[m]).contains(prev[k])) by {
            assert(prev[k] == order[k]);
            if !named.contains(order[k]) {
                let m = choose|m: int| 0 <= m < k && stands_on(recs, order[m]).contains(order[k]);
                assert(prev[m] == order[m]);
            }
        }
        lemma_derived_is_least(recs, named, prev, s);
        let last = order.len() - 1;
        assert forall|k: int| 0 <= k < order.len() implies s.contains(#[trigger] order[k]) by {
            if k < last {
                assert(order[k] == prev[k]);
            } else if !named.contains(order[k]) {
                let m = choose|m: int| 0 <= m < k && stands_on(recs, order[m]).contains(order[k]);
                assert(order[m] == prev[m]);
                assert(s.contains(order[m]));
                let q = choose|q: int| 0 <= q < stands_on(recs, order[m]).len() && stands_on(recs, order[m])[q] == order[k];
                assert(s.contains(stands_on(recs, order[m])[q]));
            }
        }
    }
}

/// How many entries of `v` are false.
pub open spec fn unset(v: Seq<bool>) -> nat
    decreases v.len(),
{
    if v.len() == 0 {
        0
    } else {
        unset(v.drop_last()) + if v.last() {
            0nat
        } else {
            1nat
        }
    }
}

pub proof fn lemma_unset_update(v: Seq<bool>, j: int)
    requires
        0 <= j < v.len(),
        !v[j],
    ensures
        unset(v.update(j, true)) + 1 == unset(v),
    decreases v.len(),
{
    let w = v.update(j, true);
    if j < v.len() - 1 {
        assert(w.drop_last() =~= v.drop_last().update(j, true));
        lemma_unset_update(v.drop_last(), j);
    } else {
        assert(w.drop_last() =~= v.drop_last());
    }
}

proof fn lemma_unset_bound(v: Seq<bool>)
    ensures
        unset(v) <= v.len(),
    decreases v.len(),
{
    if v.len() > 0 {
        lemma_unset_bound(v.drop_last());
    }
}

fn last_index(recs: &[IssueRec], x: &str) -> (r: Option<usize>)
    ensures
        match rec_of(recs@, x@) {
            Some(i) => r == Some(i as usize) && 0 <= i < recs.len(),
            None => r is None,
        },
{
    let mut n = recs.len();
    while n > 0
        invariant
            n <= recs.len(),
            last_with(recs@, x@, n as int) == rec_of(recs@, x@),
        decreases n,
    {
        if str_eq(recs[n - 1].heading.id.as_str(), x) {
            return Some(n - 1);
        }
        n = n - 1;
    }
    None
}

proof fn lemma_last_with(recs: Seq<IssueRec>, x: Seq<char>, n: int)
    requires
        0 <= n <= recs.len(),
    ensures
        match last_with(recs, x, n) {
            Some(i) => 0 <= i < n && recs[i].heading.id@ == x,
            None => forall|j: int| 0 <= j < n ==> recs[j].heading.id@ != x,
        },
    decreases n,
{
    if n > 0 {
        lemma_last_with(recs, x, n - 1);
    }
}

fn lists(v: &Vec<String>, k: &str) -> (r: bool)
    ensures
        r == v@.map_values(|x: String| x@).contains(k@),
{
    let mut i: usize = 0;
    while i < v.len()
        invariant
            i <= v.len(),
            forall|j: int| 0 <= j < i ==> #[trigger] v@[j]@ != k@,
        decreases v.len() - i,
    {
        if str_eq(v[i].as_str(), k) {
            assert(v@.map_values(|x: String| x@)[i as int] == k@);
            return true;
        }
        i = i + 1;
    }
    proof {
        let vv = v@.map_values(|x: String| x@);
        if vv.contains(k@) {
            let j = choose|j: int| 0 <= j < vv.len() && vv[j] == k@;
            assert(v@[j]@ == k@);
        }
    }
    false
}

/// The issues of the projects a slice takes, among the first `n` records.
pub open spec fn project_ids(recs: Seq<IssueRec>, projects: Seq<Seq<char>>, n: int) -> Set<Seq<char>> {
    Set::new(
        |x: Seq<char>|
            exists|j: int|
                0 <= j < n && #[trigger] recs[j].heading.id@ == x && projects.contains(recs[j].project@),
    )
}

/// The first `k` issues of `iv`, as a set.
pub open spec fn listed_before(iv: Seq<Seq<char>>, k: int) -> Set<Seq<char>> {
    Set::new(|x: Seq<char>| exists|q: int| 0 <= q < k && #[trigger] iv[q] == x)
}

/// Gather what a slice names: the issues of its projects, then those it
/// names one at a time, refusing the first of those no record carries.
fn gather_named(recs: &[IssueRec], asked: &Slice) -> (r: Result<TextMap<bool>, TrackerError>)
    ensures
        match first_unknown(
            recs@,
            asked.issues@.map_values(|x: String| x@),
            asked.issues.len() as int,
        ) {
            Some(k) => r matches Err(TrackerError::IssueNotFound { id }) && id@ == asked.issues@[k]@,
            None => r matches Ok(m) && m.view().dom() == named_ids(
                recs@,
                asked.projects@.map_values(|x: String| x@),
                asked.issues@.map_values(|x: String| x@),
            ),
        },
{
    let ghost pv = asked.projects@.map_values(|x: String| x@);
    let ghost iv = asked.issues@.map_values(|x: String| x@);
    let mut named: TextMap<bool> = TextMap::new();
    let mut j: usize = 0;
    while j < recs.len()
        invariant
            j <= recs.len(),
            pv == asked.projects@.map_values(|x: String| x@),
            named.view().dom() == project_ids(recs@, pv, j as int),
        decreases recs.len() - j,
    {
        if lists(&asked.projects, recs[j].project.as_str()) {
            named.insert(recs[j].heading.id.clone(), true);
        }
        assert(named.view().dom() =~= project_ids(recs@, pv, j + 1)) by {
            assert forall|x: Seq<char>| project_ids(recs@, pv, j + 1).contains(x) implies named.view().dom().contains(x) by {
                let q = choose|q: int| 0 <= q < j + 1 && #[trigger] recs@[q].heading.id@ == x && pv.contains(recs@[q].project@);
                if q < j {
                    assert(project_ids(recs@, pv, j as int).contains(x));
                }
            }
            assert forall|x: Seq<char>| named.view().dom().contains(x) implies project_ids(recs@, pv, j + 1).contains(x) by {
                if project_ids(recs@, pv, j as int).contains(x) {
                    let q = choose|q: int| 0 <= q < j && #[trigger] recs@[q].heading.id@ == x && pv.contains(recs@[q].project@);
                    assert(0 <= q < j + 1 && recs@[q].heading.id@ == x);
                } else {
                    assert(recs@[j as int].heading.id@ == x);
                }
            }
        }
        j = j + 1;
    }
    let mut k: usize = 0;
    while k < asked.issues.len()
        invariant
            k <= asked.issues.len(),
            pv == asked.projects@.map_values(|x: String| x@),
            iv == asked.issues@.map_values(|x: String| x@),
            first_unknown(recs@, iv, k as int) is None,
            named.view().dom() == project_ids(recs@, pv, recs.len() as int).union(listed_before(iv, k as int)),
        decreases asked.issues.len() - k,
    {
        if last_index(recs, asked.issues[k].as_str()).is_none() {
            proof {
                let mut n = k as int;
                assert(first_unknown(recs@, iv, k + 1) == Some(k as int));
                lemma_first_unknown_stays(recs@, iv, k + 1, asked.issues.len() as int);
            }
            return Err(TrackerError::IssueNotFound { id: asked.issues[k].clone() });
        }
        named.insert(asked.issues[k].clone(), true);
        proof {
            assert(named.view().dom() =~= project_ids(recs@, pv, recs.len() as int).union(listed_before(iv, k + 1))) by {
                assert forall|x: Seq<char>| listed_before(iv, k + 1).contains(x) <==> (listed_before(iv, k as int).contains(x) || x == iv[k as int]) by {
                    if listed_before(iv, k + 1).contains(x) {
                        let q = choose|q: int| 0 <= q < k + 1 && #[trigger] iv[q] == x;
                        if q < k {
                            assert(listed_before(iv, k as int).contains(x));
                        }
                    }
                    if listed_before(iv, k as int).contains(x) {
                        let q = choose|q: int| 0 <= q < k && #[trigger] iv[q] == x;
                        assert(0 <= q < k + 1);
                    }
                    if x == iv[k as int] {
                        assert(0 <= k < k + 1 && iv[k as int] == x);
                    }
                }
            }
        }
        k = k + 1;
    }
    proof {
        assert(named.view().dom() =~= named_ids(recs@, pv, iv)) by {
            assert forall|x: Seq<char>| named_ids(recs@, pv, iv).contains(x) <==> named.view().dom().contains(x) by {
                if iv.contains(x) {
                    let q = choose|q: int| 0 <= q < iv.len() && iv[q] == x;
                    assert(listed_before(iv, iv.len() as int).contains(x));
                }
                if listed_before(iv, iv.len() as int).contains(x) {
                    let q = choose|q: int| 0 <= q < iv.len() && #[trigger] iv[q] == x;
                    assert(iv.contains(x));
                }
            }
        }
    }
    Ok(named)
}

proof fn lemma_first_unknown_stays(recs: Seq<IssueRec>, issues: Seq<Seq<char>>, k: int, n: int)
    requires
        0 < k <= n,
        first_unknown(recs, issues, k) is Some,
    ensures
        first_unknown(recs, issues, n) == first_unknown(recs, issues, k),
    decreases n - k,
{
    if n > k {
        lemma_first_unknown_stays(recs, issues, k, n - 1);
    }
}

/// Whether record `j` is the one that answers for its own id.
pub open spec fn canonical(recs: Seq<IssueRec>, j: int) -> bool {
    rec_of(recs, recs[j].heading.id@) == Some(j)
}

/// The state of the closure walk: `visited` marks the records whose issue
/// is chosen, `frontier` those still to expand, `order` the chosen issues in
/// the order they were taken.
pub open spec fn walk_ok(
    recs: Seq<IssueRec>,
    named: Set<Seq<char>>,
    chosen: Set<Seq<char>>,
    visited: Seq<bool>,
    frontier: Seq<usize>,
    order: Seq<Seq<char>>,
    busy: int,
) -> bool {
    &&& visited.len() == recs.len()
    &&& forall|j: int|
        0 <= j < recs.len() ==> (#[trigger] visited[j] <==> (canonical(recs, j) && chosen.contains(
            recs[j].heading.id@,
        )))
    &&& forall|x: Seq<char>| #[trigger] chosen.contains(x) ==> known(recs, x)
    &&& forall|f: int| 0 <= f < frontier.len() ==> #[trigger] frontier[f] < recs.len() && visited[frontier[f] as int]
    &&& forall|f: int, g: int| 0 <= f < g < frontier.len() ==> #[trigger] frontier[f] != #[trigger] frontier[g]
    &&& forall|x: Seq<char>, k: int|
        #![trigger chosen.contains(x), stands_on(recs, x)[k]]
        chosen.contains(x) && !frontier.contains(rec_of(recs, x)->0 as usize) && rec_of(recs, x)->0
            != busy && 0 <= k < stands_on(recs, x).len() && known(recs, stands_on(recs, x)[k])
            ==> chosen.contains(stands_on(recs, x)[k])
    &&& derives(recs, named, order)
    &&& forall|x: Seq<char>| #[trigger] chosen.contains(x) <==> order.contains(x)
}

proof fn lemma_rec_of(recs: Seq<IssueRec>, x: Seq<char>)
    ensures
        match rec_of(recs, x) {
            Some(i) => 0 <= i < recs.len() && recs[i].heading.id@ == x && canonical(recs, i),
            None => forall|j: int| 0 <= j < recs.len() ==> recs[j].heading.id@ != x,
        },
{
    lemma_last_with(recs, x, recs.len() as int);
}

/// Take `x`, a known issue not yet chosen, into the walk.
fn take(
    recs: &[IssueRec],
    chosen: &mut TextMap<bool>,
    visited: &mut Vec<bool>,
    frontier: &mut Vec<usize>,
    unvisited: &mut usize,
    x: &String,
    Ghost(named): Ghost<Set<Seq<char>>>,
    Ghost(order): Ghost<Seq<Seq<char>>>,
    Ghost(busy): Ghost<int>,
) -> (r: Ghost<Seq<Seq<char>>>)
    requires
        walk_ok(recs@, named, old(chosen).view().dom(), old(visited)@, old(frontier)@, order, busy),
        *old(unvisited) == unset(old(visited)@),
        known(recs@, x@),
        !old(chosen).view().dom().contains(x@),
        named.contains(x@) || exists|m: int| 0 <= m < order.len() && stands_on(recs@, order[m]).contains(x@),
    ensures
        walk_ok(recs@, named, final(chosen).view().dom(), final(visited)@, final(frontier)@, r@, busy),
        forall|k: int| 0 <= k < order.len() ==> r@[k] == order[k],
        r@.len() == order.len() + 1,
        final(chosen).view().dom() == old(chosen).view().dom().insert(x@),
        *final(unvisited) == unset(final(visited)@),
        *final(unvisited) + 1 == *old(unvisited),
        final(frontier)@ == old(frontier)@.push(rec_of(recs@, x@)->0 as usize),
{
    let ghost c0 = chosen.view().dom();
    let ghost v0 = visited@;
    let ghost f0 = frontier@;
    proof {
        lemma_rec_of(recs@, x@);
    }
    let i = match last_index(recs, x.as_str()) {
        Some(i) => i,
        None => {
            assert(false);
            0
        },
    };
    assert(!visited@[i as int]);
    proof {
        lemma_unset_update(visited@, i as int);
    }
    chosen.insert(x.clone(), true);
    visited.set(i, true);
    *unvisited = *unvisited - 1;
    frontier.push(i);
    let ghost o2 = order.push(x@);
    proof {
        let c1 = chosen.view().dom();
        assert(c1 =~= c0.insert(x@));
        assert forall|j: int| 0 <= j < recs.len() implies (#[trigger] visited@[j] <==> (canonical(recs@, j) && c1.contains(recs@[j].heading.id@))) by {
            if j != i {
                assert(visited@[j] == v0[j]);
                if recs@[j].heading.id@ == x@ && canonical(recs@, j) {
                    assert(j == i);
                }
            }
        }
        assert forall|f: int| 0 <= f < frontier@.len() implies #[trigger] frontier@[f] < recs.len() && visited@[frontier@[f] as int] by {
            if f < f0.len() {
                assert(frontier@[f] == f0[f]);
            }
        }
        assert forall|f: int, g: int| 0 <= f < g < frontier@.len() implies #[trigger] frontier@[f] != #[trigger] frontier@[g] by {
            if g == f0.len() {
                assert(frontier@[f] == f0[f]);
                assert(v0[f0[f] as int]);
            } else {
                assert(frontier@[f] == f0[f] && frontier@[g] == f0[g]);
            }
        }
        assert forall|y: Seq<char>, k: int|
            #![trigger c1.contains(y), stands_on(recs@, y)[k]]
            c1.contains(y) && !frontier@.contains(rec_of(recs@, y)->0 as usize) && rec_of(recs@, y)->0 != busy && 0 <= k < stands_on(recs@, y).len() && known(recs@, stands_on(recs@, y)[k])
            implies c1.contains(stands_on(recs@, y)[k]) by {
            if y == x@ {
                assert(frontier@[f0.len() as int] == i);
            } else {
                assert(c0.contains(y));
                if f0.contains(rec_of(recs@, y)->0 as usize) {
                    let f = choose|f: int| 0 <= f < f0.len() && f0[f] == rec_of(recs@, y)->0 as usize;
                    assert(frontier@[f] == f0[f]);
                }
                assert(c0.contains(stands_on(recs@, y)[k]));
            }
        }
        assert forall|k: int| 0 <= k < o2.len() implies named.contains(#[trigger] o2[k]) || (known(recs@, o2[k]) && exists|m: int|
            0 <= m < k && stands_on(recs@, o2[m]).contains(o2[k])) by {
            if k < order.len() {
                assert(o2[k] == order[k]);
                if !named.contains(order[k]) {
                    let m = choose|m: int| 0 <= m < k && stands_on(recs@, order[m]).contains(order[k]);
                    assert(o2[m] == order[m]);
                }
            } else if !named.contains(x@) {
                let m = choose|m: int| 0 <= m < order.len() && stands_on(recs@, order[m]).contains(x@);
                assert(o2[m] == order[m]);
            }
        }
        assert forall|y: Seq<char>| #[trigger] c1.contains(y) <==> o2.contains(y) by {
            if o2.contains(y) && y != x@ {
                let q = choose|q: int| 0 <= q < o2.len() && o2[q] == y;
                assert(order[q] == y);
            }
            if c0.contains(y) {
                let q = choose|q: int| 0 <= q < order.len() && order[q] == y;
                assert(o2[q] == y);
            }
            if y == x@ {
                assert(o2[order.len() as int] == y);
            }
        }
    }
    Ghost(o2)
}

pub proof fn lemma_unset_all(v: Seq<bool>)
    requires
        forall|j: int| 0 <= j < v.len() ==> !v[j],
    ensures
        unset(v) == v.len(),
    decreases v.len(),
{
    if v.len() > 0 {
        lemma_unset_all(v.drop_last());
    }
}

/// The issues `named` names plus everything they stand on, to a fixed
/// point: the least set holding them that holds every known issue one of
/// its issues stands on.
fn close_over(recs: &[IssueRec], named: &TextMap<bool>) -> (chosen: TextMap<bool>)
    requires
        forall|x: Seq<char>| #[trigger] named.view().dom().contains(x) ==> known(recs@, x),
    ensures
        named.view().dom().subset_of(chosen.view().dom()),
        closed_under(recs@, chosen.view().dom()),
        forall|s: Set<Seq<char>>|
            named.view().dom().subset_of(s) && closed_under(recs@, s) ==> chosen.view().dom().subset_of(s),
{
    let ghost nd = named.view().dom();
    let mut chosen: TextMap<bool> = TextMap::new();
    let mut visited: Vec<bool> = Vec::new();
    let mut j: usize = 0;
    while j < recs.len()
        invariant
            j <= recs.len(),
            visited@.len() == j,
            forall|q: int| 0 <= q < j ==> !visited@[q],
        decreases recs.len() - j,
    {
        visited.push(false);
        j = j + 1;
    }
    proof {
        lemma_unset_all(visited@);
    }
    let mut unvisited: usize = recs.len();
    let mut frontier: Vec<usize> = Vec::new();
    let ghost mut order: Seq<Seq<char>> = seq![];
    let n = named.len();
    let keys = named.keys();
    assert(chosen.view().dom() =~= Set::<Seq<char>>::empty());
    let mut q: usize = 0;
    while q < keys.len()
        invariant
            q <= keys.len(),
            n == keys.len(),
            named.shaped(),
            nd == named.view().dom(),
            keys.len() == named.key_seq().len(),
            forall|t: int| 0 <= t < keys.len() ==> #[trigger] keys@[t]@ == named.key_seq()[t],
            forall|x: Seq<char>| #[trigger] nd.contains(x) ==> known(recs@, x),
            walk_ok(recs@, nd, chosen.view().dom(), visited@, frontier@, order, -1),
            unvisited == unset(visited@),
            forall|t: int| 0 <= t < q ==> chosen.view().dom().contains(#[trigger] named.key_seq()[t]),
        decreases keys.len() - q,
    {
        assert(named.key_seq().contains(keys@[q as int]@));
        assert(nd.contains(keys@[q as int]@));
        if !chosen.contains_key(keys[q].as_str()) {
            let g = take(&recs, &mut chosen, &mut visited, &mut frontier, &mut unvisited, &keys[q], Ghost(nd), Ghost(order), Ghost(-1));
            proof {
                order = g@;
            }
        }
        q = q + 1;
    }
    assert(nd.subset_of(chosen.view().dom())) by {
        assert forall|x: Seq<char>| nd.contains(x) implies chosen.view().dom().contains(x) by {
            assert(named.key_seq().contains(x));
            let t = choose|t: int| 0 <= t < named.key_seq().len() && named.key_seq()[t] == x;
        }
    }
    while frontier.len() > 0
        invariant
            walk_ok(recs@, nd, chosen.view().dom(), visited@, frontier@, order, -1),
            unvisited == unset(visited@),
            nd.subset_of(chosen.view().dom()),
        decreases unvisited, frontier.len(),
    {
        let ghost u0 = unvisited;
        let ghost f0 = frontier.len();
        let ghost fr0 = frontier@;
        let i = frontier.pop().unwrap();
        let ghost x = recs@[i as int].heading.id@;
        proof {
            assert(visited@[i as int]);
            assert(canonical(recs@, i as int));
            assert(chosen.view().dom().contains(x));
            assert(fr0 =~= frontier@.push(i));
            assert forall|f: int, g: int| 0 <= f < g < frontier@.len() implies #[trigger] frontier@[f] != #[trigger] frontier@[g] by {
                assert(frontier@[f] == fr0[f] && frontier@[g] == fr0[g]);
            }
            assert forall|f: int| 0 <= f < frontier@.len() implies #[trigger] frontier@[f] < recs.len() && visited@[frontier@[f] as int] by {
                assert(frontier@[f] == fr0[f]);
            }
            let c = chosen.view().dom();
            assert forall|y: Seq<char>, k: int|
                #![trigger c.contains(y), stands_on(recs@, y)[k]]
                c.contains(y) && !frontier@.contains(rec_of(recs@, y)->0 as usize) && rec_of(recs@, y)->0 != i as int && 0 <= k < stands_on(recs@, y).len() && known(recs@, stands_on(recs@, y)[k])
                implies c.contains(stands_on(recs@, y)[k]) by {
                lemma_rec_of(recs@, y);
                assert(known(recs@, y));
                let ry = rec_of(recs@, y)->0;
                assert(0 <= ry < recs.len());
                if fr0.contains(ry as usize) {
                    let f = choose|f: int| 0 <= f < fr0.len() && fr0[f] == ry as usize;
                    if f < frontier@.len() {
                        assert(frontier@[f] == fr0[f]);
                        assert(frontier@.contains(ry as usize));
                    } else {
                        assert(fr0[f] == i);
                        assert(ry == i as int);
                    }
                    assert(false);
                }
                assert(ry != -1);
            }
            assert(walk_ok(recs@, nd, chosen.view().dom(), visited@, frontier@, order, i as int));
        }
        let h = &recs[i].heading;
        let mut reach = h.blocked_by();
        match h.parent() {
            Some(p) => reach.push(p.to_owned()),
            None => {},
        }
        proof {
            lemma_rec_of(recs@, x);
            assert(reach@.map_values(|t: String| t@) =~= stands_on(recs@, x));
        }
        let mut r: usize = 0;
        while r < reach.len()
            invariant
                r <= reach.len(),
                i < recs.len(),
                x == recs@[i as int].heading.id@,
                rec_of(recs@, x) == Some(i as int),
                reach@.map_values(|t: String| t@) == stands_on(recs@, x),
                walk_ok(recs@, nd, chosen.view().dom(), visited@, frontier@, order, i as int),
                chosen.view().dom().contains(x),
                unvisited == unset(visited@),
                nd.subset_of(chosen.view().dom()),
                frontier.len() + unvisited == f0 - 1 + u0,
                unvisited <= u0,
                forall|k: int| 0 <= k < r && known(recs@, stands_on(recs@, x)[k]) ==> chosen.view().dom().contains(#[trigger] stands_on(recs@, x)[k]),
                order.contains(x),
            decreases reach.len() - r,
        {
            assert(reach@[r as int]@ == stands_on(recs@, x)[r as int]);
            let known_next = last_index(recs, reach[r].as_str()).is_some();
            if known_next && !chosen.contains_key(reach[r].as_str()) {
                let ghost before = order;
                proof {
                    let m = choose|m: int| 0 <= m < order.len() && order[m] == x;
                    assert(stands_on(recs@, order[m]).contains(reach@[r as int]@));
                }
                let g = take(&recs, &mut chosen, &mut visited, &mut frontier, &mut unvisited, &reach[r], Ghost(nd), Ghost(order), Ghost(i as int));
                proof {
                    order = g@;
                    let m = choose|m: int| 0 <= m < before.len() && before[m] == x;
                    assert(order[m] == x);
                }
            }
            r = r + 1;
        }
        proof {
            let c = chosen.view().dom();
            assert forall|y: Seq<char>, k: int|
                #![trigger c.contains(y), stands_on(recs@, y)[k]]
                c.contains(y) && !frontier@.contains(rec_of(recs@, y)->0 as usize) && rec_of(recs@, y)->0 != -1 && 0 <= k < stands_on(recs@, y).len() && known(recs@, stands_on(recs@, y)[k])
                implies c.contains(stands_on(recs@, y)[k]) by {
                if rec_of(recs@, y)->0 == i as int {
                    lemma_rec_of(recs@, y);
                    assert(y == x);
                }
            }
        }
    }
    proof {
        let c = chosen.view().dom();
        assert forall|y: Seq<char>, k: int|
            #![trigger c.contains(y), stands_on(recs@, y)[k]]
            c.contains(y) && 0 <= k < stands_on(recs@, y).len() && known(recs@, stands_on(recs@, y)[k])
            implies c.contains(stands_on(recs@, y)[k]) by {
            lemma_rec_of(recs@, y);
            assert(!frontier@.contains(rec_of(recs@, y)->0 as usize));
        }
        assert forall|s: Set<Seq<char>>| nd.subset_of(s) && closed_under(recs@, s) implies c.subset_of(s) by {
            lemma_derived_is_least(recs@, nd, order, s);
            assert forall|y: Seq<char>| c.contains(y) implies s.contains(y) by {
                let k = choose|k: int| 0 <= k < order.len() && order[k] == y;
            }
        }
    }
    chosen
}

fn debug_list(v: &Vec<String>) -> (r: String)
    ensures
        r@ == crate::rofi::debug_list_text(v@.map_values(|x: String| x@)),
{
    let ghost vv = v@.map_values(|x: String| x@);
    let mut out = String::new();
    out.push_str("[");
    proof {
        reveal_strlit("[");
        assert(crate::rofi::debug_items(vv.take(0)) =~= Seq::<Seq<char>>::empty());
    }
    let mut i: usize = 0;
    while i < v.len()
        invariant
            i <= v.len(),
            vv == v@.map_values(|x: String| x@),
            out@ == "["@ + crate::org::join(crate::rofi::debug_items(vv.take(i as int)), ", "@),
        decreases v.len() - i,
    {
        proof {
            crate::rofi::lemma_debug_items_step(vv, i as int);
            assert(vv[i as int] == v@[i as int]@);
        }
        if i > 0 {
            out.push_str(", ");
        }
        out.push_str(crate::rofi::debug_quote(v[i].as_str()).as_str());
        i = i + 1;
    }
    out.push_str("]");
    assert(vv.take(v.len() as int) =~= vv);
    out
}

/// Take a slice of the tracker: what it names (the issues of its projects
/// and those it names one at a time), and that plus everything those stand
/// on, blockers and parents, to a fixed point. Children are not pulled in.
/// Refused when the slice names nothing, when an issue it names is not in
/// the corpus, and when its projects match no issue and it names none.
pub fn select_slice(recs: &[IssueRec], asked: &Slice) -> (r: Result<Selection, TrackerError>)
    ensures
        asked.projects.len() == 0 && asked.issues.len() == 0 ==> (r matches Err(TrackerError::Message(m)) && m@
            == "a satchel needs a project or an issue to pack"@),
        !(asked.projects.len() == 0 && asked.issues.len() == 0) ==> match first_unknown(
            recs@,
            asked.issues@.map_values(|x: String| x@),
            asked.issues.len() as int,
        ) {
            Some(k) => r matches Err(TrackerError::IssueNotFound { id }) && id@ == asked.issues@[k]@,
            None => {
                let named = named_ids(
                    recs@,
                    asked.projects@.map_values(|x: String| x@),
                    asked.issues@.map_values(|x: String| x@),
                );
                if named.is_empty() {
                    r matches Err(TrackerError::Message(m)) && m@ == "nothing to pack: "@
                        + crate::rofi::debug_list_text(asked.projects@.map_values(|x: String| x@))
                        + " matched no issue"@
                } else {
                    r matches Ok(sel) && sel.named.view().dom() == named && named.subset_of(
                        sel.chosen.view().dom(),
                    ) && closed_under(recs@, sel.chosen.view().dom()) && forall|s: Set<Seq<char>>|
                        named.subset_of(s) && closed_under(recs@, s) ==> sel.chosen.view().dom().subset_of(s)
                }
            },
        },
{
    if asked.is_empty() {
        return Err(TrackerError::Message("a satchel needs a project or an issue to pack".to_owned()));
    }
    let named = match gather_named(recs, asked) {
        Ok(m) => m,
        Err(e) => return Err(e),
    };
    let ghost pv = asked.projects@.map_values(|x: String| x@);
    let ghost iv = asked.issues@.map_values(|x: String| x@);
    let n = named.len();
    if n == 0 {
        proof {
            assert forall|x: Seq<char>| !named.view().dom().contains(x) by {
                if named.view().dom().contains(x) {
                    assert(named.key_seq().contains(x));
                }
            }
            assert(named_ids(recs@, pv, iv) =~= Set::<Seq<char>>::empty());
        }
        let mut msg = "nothing to pack: ".to_owned();
        msg.push_str(debug_list(&asked.projects).as_str());
        msg.push_str(" matched no issue");
        return Err(TrackerError::Message(msg));
    }
    proof {
        assert(named.key_seq().contains(named.key_seq()[0]));
        assert(named.view().dom().contains(named.key_seq()[0]));
        assert forall|x: Seq<char>| #[trigger] named.view().dom().contains(x) implies known(recs@, x) by {
            if iv.contains(x) {
                let q = choose|q: int| 0 <= q < iv.len() && iv[q] == x;
                lemma_all_known(recs@, iv, q, iv.len() as int);
            } else {
                let j = choose|j: int| 0 <= j < recs.len() && #[trigger] recs@[j].heading.id@ == x && pv.contains(recs@[j].project@);
                lemma_rec_of(recs@, x);
            }
        }
    }
    let chosen = close_over(recs, &named);
    Ok(Selection { named, chosen })
}

proof fn lemma_all_known(recs: Seq<IssueRec>, issues: Seq<Seq<char>>, q: int, n: int)
    requires
        0 <= q < n <= issues.len(),
        first_unknown(recs, issues, n) is None,
    ensures
        known(recs, issues[q]),
    decreases n,
{
    if q < n - 1 {
        lemma_all_known(recs, issues, q, n - 1);
    }
}

impl Selection {
    /// Every issue taken, in id order.
    pub fn issues(&self) -> (r: Vec<String>)
        ensures
            r@.map_values(|x: String| x@) == self.chosen.key_seq(),
    {
        let r = self.chosen.keys();
        assert(r@.map_values(|x: String| x@) =~= self.chosen.key_seq());
        r
    }

    /// The issues that came along because something named stood on them, in
    /// id order.
    pub fn carried(&self) -> (r: Vec<String>)
        ensures
            r@.map_values(|x: String| x@) == self.chosen.key_seq().filter(
                |x: Seq<char>| !self.named.view().dom().contains(x),
            ),
    {
        let keys = self.chosen.keys();
        let ghost ks = self.chosen.key_seq();
        let ghost keep = |x: Seq<char>| !self.named.view().dom().contains(x);
        let mut r: Vec<String> = Vec::new();
        let mut i: usize = 0;
        while i < keys.len()
            invariant
                i <= keys.len(),
                keys.len() == ks.len(),
                ks == self.chosen.key_seq(),
                forall|t: int| 0 <= t < keys.len() ==> #[trigger] keys@[t]@ == ks[t],
                keep == (|x: Seq<char>| !self.named.view().dom().contains(x)),
                r@.map_values(|x: String| x@) == ks.take(i as int).filter(keep),
            decreases keys.len() - i,
        {
            proof {
                assert(ks.take(i + 1).drop_last() =~= ks.take(i as int));
                reveal(Seq::filter);
            }
            let ghost before = r@.map_values(|x: String| x@);
            if !self.named.contains_key(keys[i].as_str()) {
                r.push(keys[i].clone());
                assert(r@.map_values(|x: String| x@) =~= before.push(ks[i as int]));
            }
            i = i + 1;
        }
        assert(ks.take(keys.len() as int) =~= ks);
        r
    }
}

/// The SHA-256 digest of `bytes`.
pub uninterp spec fn sha256_of(bytes: Seq<u8>) -> Seq<u8>;

/// `sha2::Sha256::digest`: the SHA-256 digest of `bytes`, a function of the
/// bytes alone and 32 bytes long.
#[verifier::external_body]
fn sha256(bytes: &[u8]) -> (r: Vec<u8>)
    ensures
        r@ == sha256_of(bytes@),
        r@.len() == 32,
{
    <sha2::Sha256 as sha2::Digest>::digest(bytes).to_vec()
}

/// Bytes as lowercase hex, two digits each.
pub open spec fn hex_bytes(bs: Seq<u8>) -> Seq<char>
    decreases bs.len(),
{
    if bs.len() == 0 {
        seq![]
    } else {
        hex_bytes(bs.drop_last()) + crate::digest::hex_digits(bs.last() as nat, 2)
    }
}

fn hex_of(bs: &[u8]) -> (r: String)
    ensures
        r@ == hex_bytes(bs@),
{
    let mut out: Vec<char> = Vec::new();
    let mut i: usize = 0;
    while i < bs.len()
        invariant
            i <= bs.len(),
            out@ == hex_bytes(bs@.take(i as int)),
        decreases bs.len() - i,
    {
        proof {
            assert(bs@.take(i + 1).drop_last() =~= bs@.take(i as int));
        }
        let b = bs[i] as u64;
        let hi = b / 16;
        let lo = b % 16;
        let ch = if hi < 10 { crate::text::char_from((48 + hi) as u32) } else { crate::text::char_from((87 + hi) as u32) };
        let cl = if lo < 10 { crate::text::char_from((48 + lo) as u32) } else { crate::text::char_from((87 + lo) as u32) };
        out.push(ch);
        out.push(cl);
        proof {
            let v = bs@[i as int] as nat;
            assert(crate::digest::hex_digits(v / 16 / 16, 0) =~= Seq::<char>::empty());
            assert(v / 16 / 16 == 0);
            assert(crate::digest::hex_digits(v / 16, 1) =~= seq![crate::digest::hex_char(v / 16 % 16)]);
            assert(crate::digest::hex_digits(v, 2) =~= seq![crate::digest::hex_char(v / 16 % 16), crate::digest::hex_char(v % 16)]);
        }
        i = i + 1;
    }
    assert(bs@.take(bs.len() as int) =~= bs@);
    string_of(&out)
}

/// The lowercase hex SHA-256 digest of `bytes`, as the manifest lists it.
pub fn digest(bytes: &[u8]) -> (r: String)
    ensures
        r@ == hex_bytes(sha256_of(bytes@)),
{
    let d = sha256(bytes);
    hex_of(&d)
}

/// One manifest line: the digest, two spaces, the payload path.
pub open spec fn manifest_line(e: (String, String)) -> Seq<char> {
    e.1@ + "  "@ + e.0@ + "\n"@
}

/// The manifest for payload entries `(path, digest)`, in the order given.
pub open spec fn manifest_of(payload: Seq<(String, String)>) -> Seq<char>
    decreases payload.len(),
{
    if payload.len() == 0 {
        seq![]
    } else {
        manifest_of(payload.drop_last()) + manifest_line(payload.last())
    }
}

/// The manifest text for payload entries `(path, digest)`: two spaces
/// between, the way `sha256sum -c` reads it.
pub fn manifest_text(payload: &[(String, String)]) -> (r: String)
    ensures
        r@ == manifest_of(payload@),
{
    let mut out = String::new();
    let mut i: usize = 0;
    while i < payload.len()
        invariant
            i <= payload.len(),
            out@ == manifest_of(payload@.take(i as int)),
        decreases payload.len() - i,
    {
        proof {
            assert(payload@.take(i + 1).drop_last() =~= payload@.take(i as int));
        }
        out.push_str(payload[i].1.as_str());
        out.push_str("  ");
        out.push_str(payload[i].0.as_str());
        out.push_str("\n");
        i = i + 1;
    }
    assert(payload@.take(payload.len() as int) =~= payload@);
    out
}

/// A manifest line split at its first two spaces: `(digest, path)`.
pub open spec fn entry_of(line: Seq<char>) -> Option<(Seq<char>, Seq<char>)> {
    match find_from(line, "  "@, 0) {
        Some(k) => if 0 <= k && k + 2 <= line.len() {
            Some((line.subrange(0, k), line.subrange(k + 2, line.len() as int)))
        } else {
            None
        },
        None => None,
    }
}

/// The entries of the first `n` manifest lines, each path mapped to its
/// digest (a later line for a path wins), or the first non-blank line that
/// is not an entry.
pub open spec fn manifest_map(ls: Seq<Seq<char>>, n: int) -> Result<Map<Seq<char>, Seq<char>>, Seq<char>>
    decreases n,
{
    if n <= 0 {
        Ok(Map::empty())
    } else {
        match manifest_map(ls, n - 1) {
            Err(bad) => Err(bad),
            Ok(m) => if trim(ls[n - 1]).len() == 0 {
                Ok(m)
            } else {
                match entry_of(ls[n - 1]) {
                    Some((hash, rel)) => Ok(m.insert(rel, hash)),
                    None => Err(ls[n - 1]),
                }
            },
        }
    }
}

/// Read a manifest: each non-blank line a digest, two spaces and a path.
/// Refused at the first line that is not an entry.
pub fn parse_manifest(text: &str) -> (r: Result<TextMap<String>, TrackerError>)
    ensures
        match manifest_map(lines(text@), lines(text@).len() as int) {
            Ok(m) => r matches Ok(t) && t.view().map_values(|v: String| v@) == m,
            Err(_) => r matches Err(TrackerError::Message(_)),
        },
{
    let ls = lines_exec(&chars_of(text));
    let ghost lv = ls@.map_values(|w: Vec<char>| w@);
    let sep = chars_of("  ");
    let mut listed: TextMap<String> = TextMap::new();
    assert(listed.view().map_values(|v: String| v@) =~= Map::<Seq<char>, Seq<char>>::empty());
    let mut i: usize = 0;
    while i < ls.len()
        invariant
            i <= ls.len(),
            lv == ls@.map_values(|w: Vec<char>| w@),
            lv == lines(text@),
            sep@ == "  "@,
            manifest_map(lv, i as int) == Ok::<Map<Seq<char>, Seq<char>>, Seq<char>>(
                listed.view().map_values(|v: String| v@),
            ),
        decreases ls.len() - i,
    {
        let line = &ls[i];
        assert(lv[i as int] == line@);
        if trim_chars(line).len() > 0 {
            proof {
                crate::text::lemma_find_from(line@, "  "@, 0);
                reveal_strlit("  ");
            }
            match find_seq(line, &sep, 0) {
                Some(k) => {
                    assert(sep@.len() == 2);
                    assert(crate::text::matches_at(line@, k as int, sep@));
                    let hash = slice_of(line, 0, k);
                    let rel = slice_of(line, k + 2, line.len());
                    let ghost before = listed.view().map_values(|v: String| v@);
                    listed.insert(string_of(&rel), string_of(&hash));
                    assert(listed.view().map_values(|v: String| v@) =~= before.insert(rel@, hash@));
                },
                None => {
                    let mut msg = "manifest: not an entry: ".to_owned();
                    msg.push_str(crate::rofi::debug_quote(string_of(line).as_str()).as_str());
                    proof {
                        lemma_manifest_err_stays(lv, i + 1, ls.len() as int);
                    }
                    return Err(TrackerError::Message(msg));
                },
            }
        }
        i = i + 1;
    }
    Ok(listed)
}

proof fn lemma_manifest_err_stays(ls: Seq<Seq<char>>, k: int, n: int)
    requires
        0 < k <= n,
        manifest_map(ls, k) is Err,
    ensures
        manifest_map(ls, n) is Err,
    decreases n - k,
{
    if n > k {
        lemma_manifest_err_stays(ls, k, n - 1);
    }
}

/// The self-description written beside the payload.
pub struct Satchel {
    /// Format tag.
    pub version: String,
    /// What the packer was asked for.
    pub asked: Slice,
    /// Every issue in the closure, in id order.
    pub issues: Vec<String>,
    /// Issues that came along because something named needed them.
    pub carried: Vec<String>,
    /// Deed accessions the issues cite, which the deed store has to supply.
    pub needs: Vec<String>,
    /// Who packed it.
    pub packed_by: String,
    /// When, as an org inactive timestamp.
    pub packed_at: String,
}

/// Texts strictly ascending.
pub open spec fn strictly_ascending(s: Seq<Seq<char>>) -> bool {
    forall|i: int, j: int| 0 <= i < j < s.len() ==> crate::textmap::text_lt(#[trigger] s[i], #[trigger] s[j])
}

impl Selection {
    /// The description of a pack of this selection: the format tag, what was
    /// asked, the issues taken and those carried along, and `needs` (the
    /// deed accessions the taken issues cite, in any order and with repeats)
    /// once each in ascending order.
    pub fn satchel(&self, asked: Slice, needs: &[String], packed_by: String, packed_at: String) -> (s: Satchel)
        ensures
            s.version@ == VERSION@,
            s.asked == asked,
            s.issues@.map_values(|x: String| x@) == self.chosen.key_seq(),
            s.carried@.map_values(|x: String| x@) == self.chosen.key_seq().filter(
                |x: Seq<char>| !self.named.view().dom().contains(x),
            ),
            strictly_ascending(texts(s.needs@)),
            forall|x: Seq<char>| #[trigger] texts(s.needs@).contains(x)
                <==> texts(needs@).contains(x),
            s.packed_by == packed_by,
            s.packed_at == packed_at,
    {
        let ghost nv = texts(needs@);
        let mut set: TextMap<bool> = TextMap::new();
        let mut i: usize = 0;
        while i < needs.len()
            invariant
                i <= needs.len(),
                nv == texts(needs@),
                forall|x: Seq<char>| #[trigger] set.view().contains_key(x) <==> nv.take(i as int).contains(x),
            decreases needs.len() - i,
        {
            set.insert(needs[i].clone(), true);
            proof {
                assert forall|x: Seq<char>| #[trigger] set.view().contains_key(x) <==> nv.take(i + 1).contains(x) by {
                    assert(nv.take(i + 1) =~= nv.take(i as int).push(nv[i as int]));
                    if nv.take(i as int).contains(x) {
                        let k = choose|k: int| 0 <= k < i && nv.take(i as int)[k] == x;
                        assert(nv.take(i + 1)[k] == x);
                    }
                    let t1 = nv.take(i + 1);
                    if t1.contains(x) && x != nv[i as int] {
                        let k = choose|k: int| 0 <= k < t1.len() && t1[k] == x;
                        assert(k < i);
                        assert(nv.take(i as int)[k] == x);
                    }
                    if x == nv[i as int] {
                        assert(nv.take(i + 1)[i as int] == x);
                    }
                }
            }
            i = i + 1;
        }
        assert(nv.take(needs.len() as int) =~= nv);
        let _ = set.len();
        let listed = set.keys();
        proof {
            let lv = texts(listed@);
            assert(lv =~= set.key_seq());
            assert forall|x: Seq<char>| #[trigger] lv.contains(x) <==> nv.contains(x) by {
                assert(set.view().contains_key(x) <==> set.key_seq().contains(x));
            }
        }
        Satchel {
            version: VERSION.to_string(),
            asked,
            issues: self.issues(),
            carried: self.carried(),
            needs: listed,
            packed_by,
            packed_at,
        }
    }
}

/// What a pack or a check found.
#[derive(Debug, Clone, PartialEq, Eq)]
pub struct Report {
    /// Issues written.
    pub issues: usize,
    /// Deed accessions named.
    pub needs: usize,
    /// Files in the payload.
    pub files: usize,
    /// Anything a receiver should be told, in the order it was found.
    pub notes: Vec<String>,
}

/// A report as text: its counts on one line, then a line per note.
pub open spec fn report_text(issues: nat, needs: nat, files: nat, notes: Seq<Seq<char>>) -> Seq<char>
    decreases notes.len(),
{
    if notes.len() == 0 {
        "issues="@ + decimal(issues) + " deeds="@ + decimal(needs) + " files="@ + decimal(files) + "\n"@
    } else {
        report_text(issues, needs, files, notes.drop_last()) + notes.last() + "\n"@
    }
}

impl Report {
    /// One line per fact, which is what a command prints.
    pub fn render(&self) -> (r: String)
        ensures
            r@ == report_text(
                self.issues as nat,
                self.needs as nat,
                self.files as nat,
                self.notes@.map_values(|x: String| x@),
            ),
    {
        let ghost nv = self.notes@.map_values(|x: String| x@);
        let mut out = "issues=".to_owned();
        out.push_str(string_of(&decimal_chars(self.issues as u64)).as_str());
        out.push_str(" deeds=");
        out.push_str(string_of(&decimal_chars(self.needs as u64)).as_str());
        out.push_str(" files=");
        out.push_str(string_of(&decimal_chars(self.files as u64)).as_str());
        out.push_str("\n");
        let mut i: usize = 0;
        while i < self.notes.len()
            invariant
                i <= self.notes.len(),
                nv == self.notes@.map_values(|x: String| x@),
                out@ == report_text(self.issues as nat, self.needs as nat, self.files as nat, nv.take(i as int)),
            decreases self.notes.len() - i,
        {
            proof {
                assert(nv.take(i + 1).drop_last() =~= nv.take(i as int));
            }
            out.push_str(self.notes[i].as_str());
            out.push_str("\n");
            i = i + 1;
        }
        assert(nv.take(self.notes.len() as int) =~= nv);
        out
    }
}

/// The notes a pack adds: deed accessions named and not enclosed, then
/// issues carried along.
pub open spec fn pack_notes_of(needs: nat, carried: nat) -> Seq<Seq<char>> {
    (if needs > 0 {
        seq![decimal(needs) + " deed accessions are named and not enclosed; the deed store exports them"@]
    } else {
        seq![]
    }) + if carried > 0 {
        seq![decimal(carried) + " issues came along as blockers or parents of what was asked for"@]
    } else {
        seq![]
    }
}

/// What a pack tells the receiver, given how many deed accessions it names
/// and how many issues it carried along.
pub fn pack_notes(needs: usize, carried: usize) -> (r: Vec<String>)
    ensures
        r@.map_values(|x: String| x@) == pack_notes_of(needs as nat, carried as nat),
{
    let mut notes: Vec<String> = Vec::new();
    if needs > 0 {
        let mut n = string_of(&decimal_chars(needs as u64));
        n.push_str(" deed accessions are named and not enclosed; the deed store exports them");
        notes.push(n);
    }
    let ghost mid = notes@.map_values(|x: String| x@);
    if carried > 0 {
        let mut n = string_of(&decimal_chars(carried as u64));
        n.push_str(" issues came along as blockers or parents of what was asked for");
        notes.push(n);
        assert(notes@.map_values(|x: String| x@) =~= mid.push(n@));
    }
    assert(notes@.map_values(|x: String| x@) =~= pack_notes_of(needs as nat, carried as nat));
    notes
}

/// The notes for the first `n` listed paths: `missing` when the file was
/// not there, `changed` when its digest is not the listed one.
pub open spec fn listed_notes(keys: Seq<Seq<char>>, want: Seq<String>, got: Seq<Option<String>>, n: int) -> Seq<Seq<char>>
    decreases n,
{
    if n <= 0 {
        seq![]
    } else {
        listed_notes(keys, want, got, n - 1) + match got[n - 1] {
            None => seq!["missing "@ + keys[n - 1]],
            Some(d) => if d@ == want[n - 1]@ {
                seq![]
            } else {
                seq!["changed "@ + keys[n - 1]]
            },
        }
    }
}

/// The notes for the first `n` files found in the payload that the manifest
/// does not list.
pub open spec fn unlisted_notes(found: Seq<Seq<char>>, listed: Set<Seq<char>>, n: int) -> Seq<Seq<char>>
    decreases n,
{
    if n <= 0 {
        seq![]
    } else {
        unlisted_notes(found, listed, n - 1) + if listed.contains(found[n - 1]) {
            seq![]
        } else {
            seq!["unlisted "@ + found[n - 1]]
        }
    }
}

/// What a check of a satchel finds wrong, in the order it looks: each listed
/// path (with `got` the digest of the file found there, if one was), each
/// file found in the payload (`found`), then the format it was packed as.
pub open spec fn check_notes_of(
    keys: Seq<Seq<char>>,
    want: Seq<String>,
    got: Seq<Option<String>>,
    found: Seq<Seq<char>>,
    version: Seq<char>,
) -> Seq<Seq<char>> {
    listed_notes(keys, want, got, keys.len() as int) + unlisted_notes(found, keys.to_set(), found.len() as int)
        + if version == VERSION@ {
        seq![]
    } else {
        seq!["packed as "@ + version + " and read as "@ + VERSION@]
    }
}

/// What a check of a satchel finds wrong: a listed file missing or changed,
/// a payload file the manifest does not list, a format other than this one.
/// `got` holds, for each listed path in order, the digest of the file
/// found there.
pub fn check_notes(listed: &TextMap<String>, got: &Vec<Option<String>>, found: &Vec<String>, version: &str) -> (r: Vec<String>)
    requires
        got.len() == listed.key_seq().len(),
    ensures
        r@.map_values(|x: String| x@) == check_notes_of(
            listed.key_seq(),
            listed.value_seq(),
            got@,
            found@.map_values(|x: String| x@),
            version@,
        ),
{
    let n = listed.len();
    let ghost keys = listed.key_seq();
    let ghost want = listed.value_seq();
    let mut notes: Vec<String> = Vec::new();
    let mut i: usize = 0;
    while i < n
        invariant
            i <= n,
            n == keys.len(),
            keys == listed.key_seq(),
            want == listed.value_seq(),
            listed.shaped(),
            got.len() == n,
            notes@.map_values(|x: String| x@) == listed_notes(keys, want, got@, i as int),
        decreases n - i,
    {
        let ghost before = notes@.map_values(|x: String| x@);
        let rel = listed.key_at(i);
        match &got[i] {
            None => {
                let mut line = "missing ".to_owned();
                line.push_str(rel.as_str());
                notes.push(line);
                assert(notes@.map_values(|x: String| x@) =~= before.push("missing "@ + keys[i as int]));
            },
            Some(d) => {
                let w = listed.value_at(i);
                if !str_eq(d.as_str(), w.as_str()) {
                    let mut line = "changed ".to_owned();
                    line.push_str(rel.as_str());
                    notes.push(line);
                    assert(notes@.map_values(|x: String| x@) =~= before.push("changed "@ + keys[i as int]));
                } else {
                    assert(notes@.map_values(|x: String| x@) =~= before + Seq::<Seq<char>>::empty());
                }
            },
        }
        i = i + 1;
    }
    let ghost fv = found@.map_values(|x: String| x@);
    let ghost mid = notes@.map_values(|x: String| x@);
    let mut j: usize = 0;
    while j < found.len()
        invariant
            j <= found.len(),
            fv == found@.map_values(|x: String| x@),
            listed.shaped(),
            keys == listed.key_seq(),
            notes@.map_values(|x: String| x@) == mid + unlisted_notes(fv, keys.to_set(), j as int),
        decreases found.len() - j,
    {
        let ghost before = notes@.map_values(|x: String| x@);
        let is_listed = listed.contains_key(found[j].as_str());
        proof {
            assert(fv[j as int] == found@[j as int]@);
            assert(is_listed == keys.to_set().contains(fv[j as int])) by {
                if is_listed {
                    assert(keys.contains(fv[j as int]));
                }
                if keys.to_set().contains(fv[j as int]) {
                    assert(keys.contains(fv[j as int]));
                }
            }
        }
        if !is_listed {
            let mut line = "unlisted ".to_owned();
            line.push_str(found[j].as_str());
            notes.push(line);
            assert(notes@.map_values(|x: String| x@) =~= before.push("unlisted "@ + fv[j as int]));
        } else {
            assert(notes@.map_values(|x: String| x@) =~= before + Seq::<Seq<char>>::empty());
        }
        j = j + 1;
    }
    let ghost tail = notes@.map_values(|x: String| x@);
    if !str_eq(version, VERSION) {
        let mut line = "packed as ".to_owned();
        line.push_str(version);
        line.push_str(" and read as ");
        line.push_str(VERSION);
        notes.push(line);
        assert(notes@.map_values(|x: String| x@) =~= tail.push("packed as "@ + version@ + " and read as "@ + VERSION@));
    }
    notes
}

} // verus!
