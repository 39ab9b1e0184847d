//! The declared relations between two issues, named from one end: what a
//! ranking of related issues cites as its strongest evidence.
use vstd::prelude::*;

use crate::model::{IssueHeading, blockers, prop};
use crate::org::{link_targets, org_link_targets};
use crate::props::{DISCOVERED_FROM, PIVOTED_TO, prop_value};
use crate::text::{chars_of, starts_with, starts_with_exec, str_eq};

verus! {

/// `name` alone when `c` holds, else nothing.
pub open spec fn named_if(c: bool, name: Seq<char>) -> Seq<Seq<char>> {
    if c {
        seq![name]
    } else {
        seq![]
    }
}

/// The relations between `target` (whose id is `target_id`) and `issue`,
/// named from the target's end, in a fixed order; `target_links` and
/// `issue_links` are the known ids each body links to.
pub open spec fn relation_names(
    target: IssueHeading,
    target_id: Seq<char>,
    issue: IssueHeading,
    target_links: Seq<Seq<char>>,
    issue_links: Seq<Seq<char>>,
) -> Seq<Seq<char>> {
    named_if(blockers(target).contains(issue.id@), "blocked_by"@)
        + named_if(blockers(issue).contains(target_id), "blocks"@)
        + named_if(prop(target, "PARENT"@) == Some(issue.id@), "parent"@)
        + named_if(prop(issue, "PARENT"@) == Some(target_id), "child"@)
        + named_if(prop_value(issue.properties.view(), DISCOVERED_FROM@) == Some(target_id), "discovered_from"@)
        + named_if(prop_value(target.properties.view(), DISCOVERED_FROM@) == Some(issue.id@), "source_of"@)
        + named_if(prop_value(target.properties.view(), PIVOTED_TO@) == Some(issue.id@), "pivoted_to"@)
        + named_if(prop_value(issue.properties.view(), PIVOTED_TO@) == Some(target_id), "successor_of"@)
        + named_if(target_links.contains(issue.id@) || issue_links.contains(target_id), "org_link"@)
}

fn push_if(named: &mut Vec<&'static str>, c: bool, name: &'static str)
    ensures
        final(named)@.map_values(|s: &str| s@) == old(named)@.map_values(|s: &str| s@) + named_if(c, name@),
{
    let ghost before = named@.map_values(|s: &str| s@);
    if c {
        named.push(name);
    }
    assert(named@.map_values(|s: &str| s@) =~= before + named_if(c, name@));
}

fn lists(v: &Vec<String>, k: &str) -> (r: bool)
    ensures
        r == v@.map_values(|x: String| x@).contains(k@),
{
    let mut i: usize = 0;
    while i < v.len()
        invariant
            i <= v.len(),
            forall|j: int| 0 <= j < i ==> #[trigger] v@[j]@ != k@,
        decreases v.len() - i,
    {
        if str_eq(v[i].as_str(), k) {
            assert(v@.map_values(|x: String| x@)[i as int] == k@);
            return true;
        }
        i = i + 1;
    }
    proof {
        let vv = v@.map_values(|x: String| x@);
        if vv.contains(k@) {
            let j = choose|j: int| 0 <= j < vv.len() && vv[j] == k@;
            assert(v@[j]@ == k@);
        }
    }
    false
}

fn same(a: Option<&str>, b: &str) -> (r: bool)
    ensures
        r == (a matches Some(x) && x@ == b@),
{
    match a {
        Some(x) => str_eq(x, b),
        None => false,
    }
}

/// The names of every declared relation between `target` and `issue`:
/// blocker edges both ways, parent and child, where each was discovered,
/// what each was pivoted to, and an Org link in either body to one of the
/// ids in `known_ids`.
pub fn declared_relations(
    target: &IssueHeading,
    target_id: &str,
    issue: &IssueHeading,
    known_ids: &[String],
) -> (r: Vec<&'static str>)
    requires
        link_targets(target.body@, known_ids@.map_values(|s: String| s@)) is Some,
        link_targets(issue.body@, known_ids@.map_values(|s: String| s@)) is Some,
    ensures
        r@.map_values(|s: &str| s@) == relation_names(
            *target,
            target_id@,
            *issue,
            link_targets(target.body@, known_ids@.map_values(|s: String| s@))->0,
            link_targets(issue.body@, known_ids@.map_values(|s: String| s@))->0,
        ),
{
    let mut named: Vec<&'static str> = Vec::new();
    assert(named@.map_values(|s: &str| s@) =~= Seq::<Seq<char>>::empty());
    push_if(&mut named, lists(&target.blocked_by(), issue.id.as_str()), "blocked_by");
    push_if(&mut named, lists(&issue.blocked_by(), target_id), "blocks");
    push_if(&mut named, same(target.parent(), issue.id.as_str()), "parent");
    push_if(&mut named, same(issue.parent(), target_id), "child");
    push_if(&mut named, same(crate::props::get(&issue.properties, DISCOVERED_FROM), target_id), "discovered_from");
    push_if(&mut named, same(crate::props::get(&target.properties, DISCOVERED_FROM), issue.id.as_str()), "source_of");
    push_if(&mut named, same(crate::props::get(&target.properties, PIVOTED_TO), issue.id.as_str()), "pivoted_to");
    push_if(&mut named, same(crate::props::get(&issue.properties, PIVOTED_TO), target_id), "successor_of");
    let tl = org_link_targets(target.body.as_str(), known_ids);
    let il = org_link_targets(issue.body.as_str(), known_ids);
    let linked = lists(&tl, issue.id.as_str()) || lists(&il, target_id);
    push_if(&mut named, linked, "org_link");
    named
}

/// What one piece of ranking evidence reads as on the board, if anything:
/// scores and shared terms say nothing; a blocker reads `blocked`; a graph
/// distance of one reads `nearby`, another `distance n`; the rest as is.
pub open spec fn why_part(reason: Seq<char>) -> Option<Seq<char>> {
    if starts_with(reason, "score"@) {
        None
    } else if reason == "blocked_by"@ || starts_with(reason, "blocked"@) {
        Some("blocked"@)
    } else if starts_with(reason, "term:"@) {
        None
    } else if starts_with(reason, "org_distance:"@) {
        let n = reason.skip(13);
        Some(if n == "1"@ { "nearby"@ } else { "distance "@ + n })
    } else {
        Some(reason)
    }
}

/// The readable parts of the evidence, in order.
pub open spec fn why_parts(evidence: Seq<Seq<char>>) -> Seq<Seq<char>>
    decreases evidence.len(),
{
    if evidence.len() == 0 {
        seq![]
    } else {
        why_parts(evidence.drop_last()) + match why_part(evidence.last()) {
            Some(p) => seq![p],
            None => seq![],
        }
    }
}

fn why_of(reason: &str) -> (r: Option<String>)
    ensures
        match why_part(reason@) {
            Some(p) => r is Some && r->0@ == p,
            None => r is None,
        },
{
    let c = chars_of(reason);
    let score = chars_of("score");
    let blocked = chars_of("blocked");
    let term = chars_of("term:");
    let dist = chars_of("org_distance:");
    proof {
        reveal_strlit("org_distance:");
    }
    if starts_with_exec(&c, &score) {
        return None;
    }
    if str_eq(reason, "blocked_by") || starts_with_exec(&c, &blocked) {
        return Some("blocked".to_string());
    }
    if starts_with_exec(&c, &term) {
        return None;
    }
    if starts_with_exec(&c, &dist) {
        let mut n = String::new();
        let mut k: usize = 13;
        while k < c.len()
            invariant
                13 <= k <= c.len(),
                c@ == reason@,
                n@ == c@.subrange(13, k as int),
            decreases c.len() - k,
        {
            n.push(c[k]);
            proof {
                assert(c@.subrange(13, k + 1) =~= c@.subrange(13, k as int).push(c@[k as int]));
            }
            k = k + 1;
        }
        assert(n@ =~= reason@.skip(13));
        if str_eq(n.as_str(), "1") {
            return Some("nearby".to_string());
        }
        let mut out = "distance ".to_string();
        out.push_str(n.as_str());
        return Some(out);
    }
    Some(reason.to_string())
}

/// The evidence behind a related issue as the board shows it: the readable
/// parts joined by a spaced middle dot.
pub fn related_why(evidence: &[String]) -> (r: String)
    ensures
        r@ == crate::org::join(why_parts(evidence@.map_values(|s: String| s@)), "  ·  "@),
{
    let ghost ev = evidence@.map_values(|s: String| s@);
    let mut parts: Vec<String> = Vec::new();
    let mut i: usize = 0;
    while i < evidence.len()
        invariant
            i <= evidence.len(),
            ev == evidence@.map_values(|s: String| s@),
            parts@.map_values(|s: String| s@) == why_parts(ev.take(i as int)),
        decreases evidence.len() - i,
    {
        proof {
            assert(ev.take(i + 1).drop_last() =~= ev.take(i as int));
            assert(ev.take(i + 1).last() == evidence@[i as int]@);
        }
        let ghost before = parts@;
        match why_of(evidence[i].as_str()) {
            Some(p) => {
                parts.push(p);
                proof {
                    assert(parts@.map_values(|s: String| s@) =~= before.map_values(|s: String| s@).push(
                        parts@.last()@,
                    ));
                }
            },
            None => {
                proof {
                    assert(why_parts(ev.take(i + 1)) =~= why_parts(ev.take(i as int)));
                }
            },
        }
        i = i + 1;
    }
    assert(ev.take(evidence.len() as int) =~= ev);
    let mut out = String::new();
    crate::report::push_joined(&mut out, &parts, "  ·  ");
    out
}

} // verus!
