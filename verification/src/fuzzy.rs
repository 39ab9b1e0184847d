//! Rank ready and search rows for the palette filter.
//!
//! Scores are computed exactly and returned as `i32`, wrapping as release
//! builds of `i32` arithmetic do; for any text of realistic length no
//! wrapping occurs.
use vstd::prelude::*;

use crate::palette::HudItem;
use crate::text::{
    chars_of, find_from, find_seq, lower, lower_seq, starts_with, starts_with_exec, trim,
    trim_chars,
};

verus! {

pub const SCORE_MATCH: i32 = 16;

pub const BONUS_BOUNDARY: i32 = 8;

pub const BONUS_BOUNDARY_WHITE: i32 = 10;

pub const BONUS_CAMEL: i32 = 10;

pub const BONUS_CONSECUTIVE: i32 = 4;

pub const BONUS_FIRST_MULT: i32 = 2;

pub const PENALTY_GAP_START: i32 = -3;

pub const PENALTY_GAP_EXTEND: i32 = -1;

pub const BOOST_EXACT_ID: i32 = 100_000;

pub const BOOST_ID_PREFIX: i32 = 80_000;

pub const BOOST_ID_SUBSTR: i32 = 50_000;

pub const BOOST_TITLE_PREFIX: i32 = 40_000;

pub const BOOST_TITLE_SUBSTR: i32 = 20_000;

pub const BOOST_FUZZY: i32 = 1_000;

/// What `str::to_lowercase` returns for `s` (full Unicode lowercasing).
pub uninterp spec fn unicode_lowercase(s: Seq<char>) -> Seq<char>;

/// What `char::is_lowercase` says of `c` (Unicode `Lowercase`).
pub uninterp spec fn unicode_is_lowercase(c: char) -> bool;

/// What `char::is_uppercase` says of `c` (Unicode `Uppercase`).
pub uninterp spec fn unicode_is_uppercase(c: char) -> bool;

/// `str::to_lowercase`. On ASCII text it lowers `A` to `Z` and keeps every
/// other character, as Unicode's lowercase mapping does for ASCII.
#[verifier::external_body]
pub(crate) fn to_lowercase(s: &str) -> (r: String)
    ensures
        r@ == unicode_lowercase(s@),
        (forall|i: int| 0 <= i < s@.len() ==> (#[trigger] s@[i] as u32) < 128) ==> r@ == crate::text::lower_seq(
            s@,
        ),
{
    s.to_lowercase()
}

/// `char::is_lowercase`. Among ASCII characters exactly `a` to `z` are.
#[verifier::external_body]
fn is_lowercase(c: char) -> (r: bool)
    ensures
        r == unicode_is_lowercase(c),
        (c as u32) < 128 ==> (r <==> ('a' <= c <= 'z')),
{
    c.is_lowercase()
}

/// `char::is_uppercase`. Among ASCII characters exactly `A` to `Z` are.
#[verifier::external_body]
fn is_uppercase(c: char) -> (r: bool)
    ensures
        r == unicode_is_uppercase(c),
        (c as u32) < 128 ==> (r <==> ('A' <= c <= 'Z')),
{
    c.is_uppercase()
}

/// A word boundary for the bonus.
pub open spec fn boundary(c: char) -> bool {
    c == '/' || c == '-' || c == '_' || c == '.' || c == ' ' || c == ',' || c == ';' || c == ':'
        || c == '\\' || c == '\t'
}

/// The bonus a match earns from the character before it.
pub open spec fn char_bonus(prev: Option<char>, curr: char) -> int {
    match prev {
        None => BONUS_BOUNDARY_WHITE as int,
        Some(p) => if boundary(p) {
            if p == ' ' || p == '\t' {
                BONUS_BOUNDARY_WHITE as int
            } else {
                BONUS_BOUNDARY as int
            }
        } else if unicode_is_lowercase(p) && unicode_is_uppercase(curr) {
            BONUS_CAMEL as int
        } else {
            0
        },
    }
}

fn char_bonus_exec(prev: Option<char>, curr: char) -> (r: i32)
    ensures
        r == char_bonus(prev, curr),
{
    match prev {
        None => BONUS_BOUNDARY_WHITE,
        Some(p) => {
            if p == '/' || p == '-' || p == '_' || p == '.' || p == ' ' || p == ',' || p == ';' || p
                == ':' || p == '\\' || p == '\t' {
                if p == ' ' || p == '\t' {
                    BONUS_BOUNDARY_WHITE
                } else {
                    BONUS_BOUNDARY
                }
            } else if is_lowercase(p) && is_uppercase(curr) {
                BONUS_CAMEL
            } else {
                0
            }
        },
    }
}

/// Where the query's characters match, greedily left to right, from
/// candidate index `i` and query index `j` on.
pub open spec fn greedy(ql: Seq<char>, cl: Seq<char>, i: int, j: int) -> Seq<int>
    decreases cl.len() - i,
{
    if i < 0 || i >= cl.len() {
        seq![]
    } else if 0 <= j < ql.len() && cl[i] == ql[j] {
        seq![i] + greedy(ql, cl, i + 1, j + 1)
    } else {
        greedy(ql, cl, i + 1, j)
    }
}

proof fn lemma_greedy(ql: Seq<char>, cl: Seq<char>, i: int, j: int)
    requires
        0 <= i,
        0 <= j,
    ensures
        greedy(ql, cl, i, j).len() + j <= ql.len() || greedy(ql, cl, i, j).len() == 0,
        forall|k: int|
            0 <= k < greedy(ql, cl, i, j).len() ==> i <= #[trigger] greedy(ql, cl, i, j)[k]
                < cl.len(),
        forall|a: int, b: int|
            0 <= a < b < greedy(ql, cl, i, j).len() ==> #[trigger] greedy(ql, cl, i, j)[a]
                < #[trigger] greedy(ql, cl, i, j)[b],
    decreases cl.len() - i,
{
    if i < cl.len() {
        if j < ql.len() && cl[i] == ql[j] {
            lemma_greedy(ql, cl, i + 1, j + 1);
            let g = greedy(ql, cl, i, j);
            let t = greedy(ql, cl, i + 1, j + 1);
            assert(g == seq![i] + t);
            assert forall|k: int| 0 <= k < g.len() implies i <= #[trigger] g[k] < cl.len() by {
                if k > 0 {
                    assert(g[k] == t[k - 1]);
                }
            }
            assert forall|a: int, b: int| 0 <= a < b < g.len() implies #[trigger] g[a]
                < #[trigger] g[b] by {
                assert(g[b] == t[b - 1]);
                if a > 0 {
                    assert(g[a] == t[a - 1]);
                }
            }
        } else {
            lemma_greedy(ql, cl, i + 1, j);
        }
    }
}

/// The character at `i`, if there is one.
pub open spec fn char_at(s: Seq<char>, i: int) -> Option<char> {
    if 0 <= i < s.len() {
        Some(s[i])
    } else {
        None
    }
}

/// What the `k`-th match at candidate index `p` scores before the floor
/// at zero. `consecutive` counts the matches just before it that were
/// adjacent.
pub open spec fn match_score(
    orig: Seq<char>,
    qchars: Seq<char>,
    pos: Seq<int>,
    k: int,
    consecutive: int,
) -> int {
    let p = pos[k];
    let prev = if p > 0 {
        char_at(orig, p - 1)
    } else {
        None
    };
    let curr = match char_at(orig, p) {
        Some(c) => c,
        None => ' ',
    };
    let bonus = char_bonus(prev, curr);
    let s0 = SCORE_MATCH + bonus + if k == 0 && bonus > 0 {
        bonus * (BONUS_FIRST_MULT - 1)
    } else {
        0
    };
    let s1 = if consecutive > 0 {
        s0 + BONUS_CONSECUTIVE
    } else if k > 0 {
        let gap = p - (pos[k - 1] + 1);
        if gap > 0 {
            s0 + PENALTY_GAP_START + PENALTY_GAP_EXTEND * ((gap as i32) as int - 1)
        } else {
            s0
        }
    } else {
        s0
    };
    if char_at(qchars, k) == char_at(orig, p) {
        s1 + 1
    } else {
        s1
    }
}

/// The adjacency count after the `k`-th match.
pub open spec fn next_consecutive(pos: Seq<int>, k: int, consecutive: int) -> int {
    if k > 0 && pos[k] == pos[k - 1] + 1 {
        consecutive + 1
    } else {
        0
    }
}

/// The matches from the `k`-th on, each floored at zero, added up.
pub open spec fn score_from(
    orig: Seq<char>,
    qchars: Seq<char>,
    pos: Seq<int>,
    k: int,
    consecutive: int,
) -> int
    decreases pos.len() - k,
{
    if k < 0 || k >= pos.len() {
        0
    } else {
        let s = match_score(orig, qchars, pos, k, consecutive);
        (if s > 0 {
            s
        } else {
            0
        }) + score_from(orig, qchars, pos, k + 1, next_consecutive(pos, k, consecutive))
    }
}

/// The fzf-style score of `query` against `candidate`: zero unless every
/// character of the lowercased query occurs, in order, in the lowercased
/// candidate.
pub open spec fn fzf_total(query: Seq<char>, candidate: Seq<char>) -> int {
    let ql = unicode_lowercase(query);
    let cl = unicode_lowercase(candidate);
    let pos = greedy(ql, cl, 0, 0);
    if ql.len() == 0 || ql.len() > cl.len() || pos.len() < ql.len() {
        0
    } else {
        score_from(candidate, query, pos, 0, 0)
    }
}

/// fzf-style subsequence score. Zero means no match.
pub fn fzf_score(query: &str, candidate: &str) -> (r: i32)
    ensures
        r == fzf_total(query@, candidate@) as i32,
{
    let ql = chars_of(to_lowercase(query).as_str());
    let cl = chars_of(to_lowercase(candidate).as_str());
    let orig = chars_of(candidate);
    let qchars = chars_of(query);
    if ql.len() == 0 {
        return 0;
    }
    if ql.len() > cl.len() {
        return 0;
    }
    let mut positions: Vec<usize> = Vec::new();
    let mut j: usize = 0;
    let mut i: usize = 0;
    let ghost g = greedy(ql@, cl@, 0, 0);
    proof {
        lemma_greedy(ql@, cl@, 0, 0);
    }
    while i < cl.len()
        invariant
            i <= cl.len(),
            g == greedy(ql@, cl@, 0, 0),
            j == positions.len(),
            j <= ql.len(),
            positions@.map_values(|p: usize| p as int) + greedy(ql@, cl@, i as int, j as int) == g,
        decreases cl.len() - i,
    {
        if j < ql.len() && cl[i] == ql[j] {
            let ghost before = positions@;
            positions.push(i);
            proof {
                assert(positions@.map_values(|p: usize| p as int) =~= before.map_values(
                    |p: usize| p as int,
                ).push(i as int));
                assert(greedy(ql@, cl@, i as int, j as int) == seq![i as int] + greedy(
                    ql@,
                    cl@,
                    i + 1,
                    j + 1,
                ));
                assert(positions@.map_values(|p: usize| p as int) + greedy(
                    ql@,
                    cl@,
                    i + 1,
                    j + 1,
                ) =~= g);
            }
            j = j + 1;
        }
        i = i + 1;
    }
    let ghost pos = positions@.map_values(|p: usize| p as int);
    proof {
        assert(greedy(ql@, cl@, i as int, j as int) == Seq::<int>::empty());
        assert(pos =~= g);
    }
    if j < ql.len() {
        return 0;
    }
    let mut score: i128 = 0;
    let mut consecutive: usize = 0;
    let mut k: usize = 0;
    while k < positions.len()
        invariant
            k <= positions.len(),
            positions.len() == ql.len(),
            ql.len() <= cl.len(),
            pos == positions@.map_values(|p: usize| p as int),
            pos == g,
            forall|a: int| 0 <= a < pos.len() ==> 0 <= #[trigger] pos[a] < cl.len(),
            forall|a: int, b: int| 0 <= a < b < pos.len() ==> #[trigger] pos[a] < #[trigger] pos[b],
            orig@ == candidate@,
            qchars@ == query@,
            consecutive <= k,
            score + score_from(orig@, qchars@, pos, k as int, consecutive as int) == score_from(
                orig@,
                qchars@,
                pos,
                0,
                0,
            ),
            0 <= score <= k * 0x1_0000_0000,
        decreases positions.len() - k,
    {
        let p = positions[k];
        assert(pos[k as int] == p);
        let prev = if p > 0 && p - 1 < orig.len() {
            Some(orig[p - 1])
        } else {
            None
        };
        let curr = if p < orig.len() {
            orig[p]
        } else {
            ' '
        };
        let bonus = char_bonus_exec(prev, curr);
        let mut s: i64 = (SCORE_MATCH + bonus) as i64;
        if k == 0 && bonus > 0 {
            s = s + (bonus * (BONUS_FIRST_MULT - 1)) as i64;
        }
        if consecutive > 0 {
            s = s + BONUS_CONSECUTIVE as i64;
        } else if k > 0 {
            let q = positions[k - 1];
            assert(pos[k - 1] == q);
            assert(pos[k - 1] < pos[k as int]);
            let gap = p - (q + 1);
            if gap > 0 {
                s = s + PENALTY_GAP_START as i64 + PENALTY_GAP_EXTEND as i64 * ((gap as i32) as i64
                    - 1);
            }
        }
        let qk = if k < qchars.len() {
            Some(qchars[k])
        } else {
            None
        };
        let ok = if p < orig.len() {
            Some(orig[p])
        } else {
            None
        };
        if qk == ok {
            s = s + 1;
        }
        proof {
            assert(s == match_score(orig@, qchars@, pos, k as int, consecutive as int));
        }
        let floor: i64 = if s > 0 {
            s
        } else {
            0
        };
        assert(floor < 0x1_0000_0000);
        assert(score + floor <= (k + 1) * 0x1_0000_0000) by (nonlinear_arith)
            requires
                score <= k * 0x1_0000_0000,
                floor < 0x1_0000_0000,
        ;
        assert((k + 1) * 0x1_0000_0000 <= 0x1_0000_0000_0000_0000 * 0x1_0000_0000) by (
        nonlinear_arith)
            requires
                k + 1 <= 0x1_0000_0000_0000_0000,
        ;
        score = score + floor as i128;
        let next: usize = if k > 0 && p == positions[k - 1] + 1 {
            consecutive + 1
        } else {
            0
        };
        consecutive = next;
        k = k + 1;
    }
    score as i32
}

/// What one catalog row scores: an exact id outranks an id prefix, which
/// outranks an id substring, then a fuzzy id; a title prefix, substring or
/// fuzzy title each stand on their own; the best of the two counts.
pub open spec fn item_total(query: Seq<char>, id: Seq<char>, title: Seq<char>) -> int {
    let q = trim(query);
    if q.len() == 0 {
        0
    } else {
        let ql = lower_seq(q);
        let idl = lower_seq(id);
        let tl = lower_seq(title);
        let fid = fzf_total(q, id) as i32 as int;
        let ftl = fzf_total(q, title) as i32 as int;
        let floor_id = if fid > SCORE_MATCH {
            fid
        } else {
            SCORE_MATCH as int
        };
        let floor_tl = if ftl > SCORE_MATCH {
            ftl
        } else {
            SCORE_MATCH as int
        };
        let by_id = if idl == ql {
            BOOST_EXACT_ID + floor_id
        } else if starts_with(idl, ql) {
            BOOST_ID_PREFIX + floor_id
        } else if find_from(idl, ql, 0) is Some {
            BOOST_ID_SUBSTR + floor_id
        } else if fid > 0 {
            fid + BOOST_ID_SUBSTR / 2
        } else {
            0
        };
        let by_title = if starts_with(tl, ql) {
            BOOST_TITLE_PREFIX + floor_tl
        } else if find_from(tl, ql, 0) is Some {
            BOOST_TITLE_SUBSTR + floor_tl
        } else if ftl > 0 {
            ftl + BOOST_FUZZY
        } else {
            0
        };
        if by_id > by_title {
            by_id
        } else {
            by_title
        }
    }
}

/// ASCII-lowercase a string's characters.
pub(crate) fn ascii_lower(s: &[char]) -> (r: Vec<char>)
    ensures
        r@ == lower_seq(s@),
{
    let mut r: Vec<char> = Vec::new();
    let mut i: usize = 0;
    while i < s.len()
        invariant
            i <= s.len(),
            r@ == lower_seq(s@).take(i as int),
        decreases s.len() - i,
    {
        r.push(crate::text::to_lower(s[i]));
        i = i + 1;
        assert(r@ =~= lower_seq(s@).take(i as int));
    }
    assert(lower_seq(s@).take(s.len() as int) =~= lower_seq(s@));
    r
}

/// Rank one catalog row. Exact id outranks a title substring of the same
/// query.
pub fn score_item(query: &str, item: &HudItem) -> (r: i32)
    ensures
        r == item_total(query@, item.id@, item.title@) as i32,
{
    let qv = trim_chars(&chars_of(query));
    if qv.len() == 0 {
        return 0;
    }
    let q = crate::text::string_of(&qv);
    let ql = ascii_lower(&qv);
    let idl = ascii_lower(&chars_of(item.id.as_str()));
    let tl = ascii_lower(&chars_of(item.title.as_str()));
    let fid = fzf_score(q.as_str(), item.id.as_str()) as i64;
    let ftl = fzf_score(q.as_str(), item.title.as_str()) as i64;
    let floor_id: i64 = if fid > SCORE_MATCH as i64 {
        fid
    } else {
        SCORE_MATCH as i64
    };
    let floor_tl: i64 = if ftl > SCORE_MATCH as i64 {
        ftl
    } else {
        SCORE_MATCH as i64
    };
    let by_id: i64 = if crate::text::chars_eq(&idl, &ql) {
        BOOST_EXACT_ID as i64 + floor_id
    } else if starts_with_exec(&idl, &ql) {
        BOOST_ID_PREFIX as i64 + floor_id
    } else if find_seq(&idl, &ql, 0).is_some() {
        BOOST_ID_SUBSTR as i64 + floor_id
    } else if fid > 0 {
        fid + (BOOST_ID_SUBSTR / 2) as i64
    } else {
        0
    };
    let by_title: i64 = if starts_with_exec(&tl, &ql) {
        BOOST_TITLE_PREFIX as i64 + floor_tl
    } else if find_seq(&tl, &ql, 0).is_some() {
        BOOST_TITLE_SUBSTR as i64 + floor_tl
    } else if ftl > 0 {
        ftl + BOOST_FUZZY as i64
    } else {
        0
    };
    if by_id > by_title {
        by_id as i32
    } else {
        by_title as i32
    }
}

/// `a` comes before `b` in the ranking: a higher score, or the same score
/// and an earlier row.
pub open spec fn ranks_before(scores: Seq<i32>, a: int, b: int) -> bool {
    scores[a] > scores[b] || (scores[a] == scores[b] && a < b)
}

/// Whether `order` ranks the rows that score above zero: each exactly once,
/// by score descending, then by row.
pub open spec fn ranked(scores: Seq<i32>, order: Seq<usize>) -> bool {
    &&& forall|k: int| 0 <= k < order.len() ==> #[trigger] order[k] < scores.len() && scores[order[k] as int] > 0
    &&& forall|i: int| 0 <= i < scores.len() && scores[i] > 0 ==> exists|k: int|
        0 <= k < order.len() && #[trigger] order[k] == i
    &&& forall|a: int, b: int|
        0 <= a < b < order.len() ==> ranks_before(scores, #[trigger] order[a] as int, #[trigger] order[b] as int)
}

/// Indices into `items` ordered by [`score_item`] descending, then source
/// order; with a blank query, every index in source order.
pub fn rank_indices(query: &str, items: &[HudItem]) -> (r: Vec<usize>)
    ensures
        trim(query@).len() == 0 ==> r@ == Seq::new(items@.len(), |i: int| i as usize),
        trim(query@).len() > 0 ==> ranked(
            Seq::new(items@.len(), |i: int| item_total(query@, items@[i].id@, items@[i].title@) as i32),
            r@,
        ),
{
    let qv = trim_chars(&chars_of(query));
    if qv.len() == 0 {
        let mut r: Vec<usize> = Vec::new();
        let mut i: usize = 0;
        while i < items.len()
            invariant
                i <= items.len(),
                r@ == Seq::new(i as nat, |j: int| j as usize),
            decreases items.len() - i,
        {
            r.push(i);
            i = i + 1;
            assert(r@ =~= Seq::new(i as nat, |j: int| j as usize));
        }
        return r;
    }
    let ghost scores = Seq::new(
        items@.len(),
        |i: int| item_total(query@, items@[i].id@, items@[i].title@) as i32,
    );
    let mut sc: Vec<i32> = Vec::new();
    let mut i: usize = 0;
    while i < items.len()
        invariant
            i <= items.len(),
            sc.len() == i,
            scores.len() == items@.len(),
            scores == Seq::new(
                items@.len(),
                |i: int| item_total(query@, items@[i].id@, items@[i].title@) as i32,
            ),
            forall|j: int| 0 <= j < i ==> #[trigger] sc@[j] == scores[j],
        decreases items.len() - i,
    {
        sc.push(score_item(query, &items[i]));
        i = i + 1;
    }
    let mut order: Vec<usize> = Vec::new();
    let mut i: usize = 0;
    while i < items.len()
        invariant
            i <= items.len(),
            sc.len() == items.len(),
            scores.len() == items@.len(),
            forall|j: int| 0 <= j < sc.len() ==> #[trigger] sc@[j] == scores[j],
            forall|k: int| 0 <= k < order.len() ==> #[trigger] order@[k] < i && scores[order@[k] as int] > 0,
            forall|j: int| 0 <= j < i && scores[j] > 0 ==> exists|k: int|
                0 <= k < order.len() && #[trigger] order@[k] == j,
            forall|a: int, b: int|
                0 <= a < b < order.len() ==> ranks_before(scores, #[trigger] order@[a] as int, #[trigger] order@[b] as int),
        decreases items.len() - i,
    {
        let s = sc[i];
        if s > 0 {
            let mut at: usize = 0;
            while at < order.len() && sc[order[at]] >= s
                invariant
                    at <= order.len(),
                    i < items.len(),
                    sc.len() == items.len(),
                    forall|k: int| 0 <= k < order.len() ==> #[trigger] order@[k] < i,
                    forall|k: int| 0 <= k < at ==> #[trigger] sc@[order@[k] as int] >= s,
                decreases order.len() - at,
            {
                at = at + 1;
            }
            let ghost before = order@;
            proof {
                assert forall|k: int| at <= k < before.len() implies #[trigger] sc@[before[k] as int] < s by {
                    if k > at {
                        assert(ranks_before(scores, before[at as int] as int, before[k] as int));
                    }
                }
            }
            order.insert(at, i);
            proof {
                assert forall|a: int, b: int| 0 <= a < b < order.len() implies ranks_before(
                    scores,
                    #[trigger] order@[a] as int,
                    #[trigger] order@[b] as int,
                ) by {
                    if b < at {
                        assert(order@[a] == before[a] && order@[b] == before[b]);
                    } else if b == at {
                        assert(order@[a] == before[a]);
                        assert(sc@[before[a] as int] >= s);
                    } else if a < at {
                        assert(order@[a] == before[a] && order@[b] == before[b - 1]);
                    } else if a == at {
                        assert(order@[b] == before[b - 1]);
                        assert(sc@[before[b - 1] as int] < s);
                    } else {
                        assert(order@[a] == before[a - 1] && order@[b] == before[b - 1]);
                    }
                }
                assert forall|j: int| 0 <= j < i + 1 && scores[j] > 0 implies exists|k: int|
                    0 <= k < order.len() && #[trigger] order@[k] == j by {
                    if j == i {
                        assert(order@[at as int] == i);
                    } else {
                        let k = choose|k: int| 0 <= k < before.len() && #[trigger] before[k] == j;
                        if k < at {
                            assert(order@[k] == j);
                        } else {
                            assert(order@[k + 1] == j);
                        }
                    }
                }
            }
        }
        i = i + 1;
    }
    order
}

/// Whether `pos` places the characters of `q` from index `j` on, in order,
/// at candidate positions from `i` on: strictly ascending, each on an equal
/// character.
pub open spec fn placement(q: Seq<char>, c: Seq<char>, i: int, j: int, pos: Seq<int>) -> bool {
    &&& 0 <= j <= q.len()
    &&& pos.len() == q.len() - j
    &&& forall|k: int| 0 <= k < pos.len() ==> i <= #[trigger] pos[k] < c.len() && c[pos[k]] == q[j + k]
    &&& forall|a: int, b: int| 0 <= a < b < pos.len() ==> #[trigger] pos[a] < #[trigger] pos[b]
}

/// Whether every character of `q` occurs, in order, in `c`.
pub open spec fn subsequence_of(q: Seq<char>, c: Seq<char>) -> bool {
    exists|pos: Seq<int>| placement(q, c, 0, 0, pos)
}

proof fn lemma_greedy_places(ql: Seq<char>, cl: Seq<char>, i: int, j: int)
    requires
        0 <= i,
        0 <= j <= ql.len(),
    ensures
        greedy(ql, cl, i, j).len() <= ql.len() - j,
        forall|k: int|
            0 <= k < greedy(ql, cl, i, j).len() ==> cl[#[trigger] greedy(ql, cl, i, j)[k]] == ql[j + k],
    decreases cl.len() - i,
{
    if i < cl.len() {
        if j < ql.len() && cl[i] == ql[j] {
            lemma_greedy_places(ql, cl, i + 1, j + 1);
            let g = greedy(ql, cl, i, j);
            let t = greedy(ql, cl, i + 1, j + 1);
            assert(g == seq![i] + t);
            assert forall|k: int| 0 <= k < g.len() implies cl[#[trigger] g[k]] == ql[j + k] by {
                if k > 0 {
                    assert(g[k] == t[k - 1]);
                }
            }
        } else {
            lemma_greedy_places(ql, cl, i + 1, j);
        }
    }
}

/// Greedy matching misses nothing: when the rest of the query can be placed
/// from `i` on, greedy places all of it.
proof fn lemma_greedy_complete(ql: Seq<char>, cl: Seq<char>, i: int, j: int, pos: Seq<int>)
    requires
        0 <= i,
        placement(ql, cl, i, j, pos),
    ensures
        greedy(ql, cl, i, j).len() == ql.len() - j,
    decreases cl.len() - i,
{
    if j == ql.len() {
        lemma_greedy_places(ql, cl, i, j);
    } else {
        assert(i <= pos[0] < cl.len());
        if cl[i] == ql[j] {
            let rest = pos.drop_first();
            assert forall|k: int| 0 <= k < rest.len() implies i + 1 <= #[trigger] rest[k] < cl.len() && cl[rest[k]]
                == ql[j + 1 + k] by {
                assert(rest[k] == pos[k + 1]);
                assert(pos[0] < pos[k + 1]);
            }
            assert forall|a: int, b: int| 0 <= a < b < rest.len() implies #[trigger] rest[a] < #[trigger] rest[b] by {
                assert(rest[a] == pos[a + 1] && rest[b] == pos[b + 1]);
            }
            lemma_greedy_complete(ql, cl, i + 1, j + 1, rest);
        } else {
            assert(pos[0] != i);
            assert forall|k: int| 0 <= k < pos.len() implies i + 1 <= #[trigger] pos[k] < cl.len() && cl[pos[k]]
                == ql[j + k] by {
                if k > 0 {
                    assert(pos[0] < pos[k]);
                }
            }
            lemma_greedy_complete(ql, cl, i + 1, j, pos);
        }
    }
}

proof fn lemma_ascending_fits(pos: Seq<int>, n: int)
    requires
        0 <= n,
        forall|k: int| 0 <= k < pos.len() ==> 0 <= #[trigger] pos[k] < n,
        forall|a: int, b: int| 0 <= a < b < pos.len() ==> #[trigger] pos[a] < #[trigger] pos[b],
    ensures
        pos.len() <= n,
    decreases pos.len(),
{
    if pos.len() > 0 {
        let m = pos.last();
        let d = pos.drop_last();
        assert(m == pos[pos.len() - 1]);
        assert(m < n);
        assert forall|k: int| 0 <= k < d.len() implies 0 <= #[trigger] d[k] < m by {
            assert(d[k] == pos[k]);
        }
        assert forall|a: int, b: int| 0 <= a < b < d.len() implies #[trigger] d[a] < #[trigger] d[b] by {
            assert(d[a] == pos[a] && d[b] == pos[b]);
        }
        lemma_ascending_fits(d, m);
        assert(d.len() == pos.len() - 1);
        assert(d.len() <= m);
    }
}

proof fn lemma_score_from_nonnegative(orig: Seq<char>, qchars: Seq<char>, pos: Seq<int>, k: int, consecutive: int)
    ensures
        score_from(orig, qchars, pos, k, consecutive) >= 0,
    decreases pos.len() - k,
{
    if 0 <= k < pos.len() {
        lemma_score_from_nonnegative(orig, qchars, pos, k + 1, next_consecutive(pos, k, consecutive));
    }
}

/// The fzf score is positive exactly when the lowercased query is not empty
/// and every one of its characters occurs, in order, in the lowercased
/// candidate, and then it is at least one match's score; otherwise it is
/// zero.
pub proof fn lemma_fzf_matches_iff_subsequence(query: Seq<char>, candidate: Seq<char>)
    ensures
        fzf_total(query, candidate) >= 0,
        fzf_total(query, candidate) > 0 ==> fzf_total(query, candidate) >= SCORE_MATCH,
        fzf_total(query, candidate) > 0 <==> unicode_lowercase(query).len() > 0 && subsequence_of(
            unicode_lowercase(query),
            unicode_lowercase(candidate),
        ),
{
    let ql = unicode_lowercase(query);
    let cl = unicode_lowercase(candidate);
    let g = greedy(ql, cl, 0, 0);
    lemma_greedy(ql, cl, 0, 0);
    lemma_greedy_places(ql, cl, 0, 0);
    if ql.len() > 0 && subsequence_of(ql, cl) {
        let pos = choose|pos: Seq<int>| placement(ql, cl, 0, 0, pos);
        lemma_greedy_complete(ql, cl, 0, 0, pos);
        lemma_ascending_fits(pos, cl.len() as int);
        lemma_score_from_nonnegative(candidate, query, g, 1, next_consecutive(g, 0, 0));
        assert(match_score(candidate, query, g, 0, 0) > 0);
    }
    if ql.len() > 0 && ql.len() <= cl.len() && g.len() >= ql.len() {
        assert(placement(ql, cl, 0, 0, g));
    } else {
        lemma_score_from_nonnegative(candidate, query, g, 0, 0);
    }
    if fzf_total(query, candidate) != 0 {
        lemma_score_from_nonnegative(candidate, query, g, 0, 0);
        lemma_score_from_nonnegative(candidate, query, g, 1, next_consecutive(g, 0, 0));
        assert(match_score(candidate, query, g, 0, 0) >= SCORE_MATCH);
    }
}

/// How a row's score ranks the kind of match, for a non-blank query whose
/// fuzzy scores fit comfortably in an `i32`: an id equal to the query
/// (ignoring ASCII case) scores at least the exact-id boost, an id starting
/// with it at least the id-prefix boost, an id holding it at least the
/// id-substring boost; a title starting with it at least the title-prefix
/// boost, a title holding it at least the title-substring boost, and a title
/// it matches fuzzily at least that fuzzy score plus the fuzzy boost. Each
/// boost comes on top of the plain match score.
pub proof fn lemma_score_tiers(query: Seq<char>, id: Seq<char>, title: Seq<char>)
    requires
        trim(query).len() > 0,
        fzf_total(trim(query), id) <= 2_000_000_000,
        fzf_total(trim(query), title) <= 2_000_000_000,
    ensures
        ({
            let q = lower_seq(trim(query));
            let total = item_total(query, id, title) as i32;
            &&& lower_seq(id) == q ==> total >= BOOST_EXACT_ID + SCORE_MATCH
            &&& starts_with(lower_seq(id), q) ==> total >= BOOST_ID_PREFIX + SCORE_MATCH
            &&& find_from(lower_seq(id), q, 0) is Some ==> total >= BOOST_ID_SUBSTR + SCORE_MATCH
            &&& starts_with(lower_seq(title), q) ==> total >= BOOST_TITLE_PREFIX + SCORE_MATCH
            &&& find_from(lower_seq(title), q, 0) is Some ==> total >= BOOST_TITLE_SUBSTR + SCORE_MATCH
            &&& fzf_total(trim(query), title) > 0 ==> total >= fzf_total(trim(query), title) + BOOST_FUZZY
            &&& total >= 0
        }),
{
    let q = trim(query);
    lemma_fzf_matches_iff_subsequence(q, id);
    lemma_fzf_matches_iff_subsequence(q, title);
    let total = item_total(query, id, title);
    assert(fzf_total(q, id) as i32 as int == fzf_total(q, id));
    assert(fzf_total(q, title) as i32 as int == fzf_total(q, title));
    assert(0 <= total <= 2_000_100_000);
    assert(total as i32 as int == total);
}

/// A row whose id the query matches fuzzily is never dropped from the
/// palette. When every character of the trimmed, lowercased query occurs in
/// order in the lowercased id, the row scores at least its fuzzy id score,
/// which is positive, so `rank_indices` lists it. The scores are taken to
/// fit comfortably in an `i32`.
pub proof fn lemma_fuzzy_id_match_ranked(query: Seq<char>, items: Seq<HudItem>, order: Seq<usize>, i: int)
    requires
        0 <= i < items.len(),
        trim(query).len() > 0,
        unicode_lowercase(trim(query)).len() > 0,
        subsequence_of(unicode_lowercase(trim(query)), unicode_lowercase(items[i].id@)),
        fzf_total(trim(query), items[i].id@) <= 2_000_000_000,
        fzf_total(trim(query), items[i].title@) <= 2_000_000_000,
        ranked(Seq::new(items.len(), |j: int| item_total(query, items[j].id@, items[j].title@) as i32), order),
    ensures
        fzf_total(trim(query), items[i].id@) > 0,
        item_total(query, items[i].id@, items[i].title@) as i32 >= fzf_total(trim(query), items[i].id@),
        exists|k: int| 0 <= k < order.len() && order[k] == i,
{
    let q = trim(query);
    let id = items[i].id@;
    let title = items[i].title@;
    lemma_fzf_matches_iff_subsequence(q, id);
    lemma_fzf_matches_iff_subsequence(q, title);
    let total = item_total(query, id, title);
    assert(fzf_total(q, id) as i32 as int == fzf_total(q, id));
    assert(fzf_total(q, title) as i32 as int == fzf_total(q, title));
    assert(fzf_total(q, id) <= total <= 2_000_100_000);
    assert(total as i32 as int == total);
    let scores = Seq::new(items.len(), |j: int| item_total(query, items[j].id@, items[j].title@) as i32);
    assert(scores[i] > 0);
}

} // verus!
