//! Property names as Org and ELPA already spell them.
//!
//! vissue writes the key the other tool reads, and it reads the aliases a
//! hand-edited tracker already has.
use vstd::prelude::*;

use crate::text::{chars_of, str_eq, trim, trim_chars};
use crate::textmap::TextMap;

verus! {

/// Org-id. Shared with Emacs.
pub const ID: &'static str = "ID";

/// Capture / org-expiry stamp.
pub const CREATED: &'static str = "CREATED";

/// Org effort estimate, as `org-effort-property` spells it.
pub const EFFORT: &'static str = "Effort";

/// Per-heading agenda category.
pub const CATEGORY: &'static str = "CATEGORY";

/// org-id export alias.
pub const CUSTOM_ID: &'static str = "CUSTOM_ID";

/// org-edna condition; also org-depend.
pub const EDNA_BLOCKER: &'static str = "BLOCKER";

/// org-edna / org-gtd action.
pub const EDNA_TRIGGER: &'static str = "TRIGGER";

/// Parent in the vissue tree.
pub const PARENT: &'static str = "PARENT";

/// Partial-order blockers.
pub const BLOCKED_BY: &'static str = "BLOCKED_BY";

/// Tracker type (`bug`, `feature`, ...).
pub const TYPE: &'static str = "TYPE";

/// Tags Org's character class rejects. Not `TAGS`: Org reserves that name.
pub const TAGS: &'static str = "VISSUE_TAGS";

/// Identity holding a STARTED issue.
pub const CLAIMED_BY: &'static str = "CLAIMED_BY";

/// When that claim was taken.
pub const CLAIMED_AT: &'static str = "CLAIMED_AT";

/// Paths this issue touches.
pub const FILES: &'static str = "FILES";

/// How to know the issue is done.
pub const VERIFY: &'static str = "VERIFY";

/// Origin issue for a bounce or discovery.
pub const DISCOVERED_FROM: &'static str = "DISCOVERED_FROM";

/// Successor issue for a bounce.
pub const PIVOTED_TO: &'static str = "PIVOTED_TO";

/// The terminal that lost a sibling race.
pub const SIBLING_TERMINAL: &'static str = "SIBLING_TERMINAL";

/// `(legacy, canonical)` pairs a rewrite folds.
pub open spec fn aliases_spec() -> Seq<(Seq<char>, Seq<char>)> {
    seq![
        ("BLOCKEDBY"@, BLOCKED_BY@),
        ("TAGS"@, TAGS@),
        ("DISCOVERED"@, DISCOVERED_FROM@),
        ("SUPERSEDED_BY"@, PIVOTED_TO@),
        ("EFFORT"@, EFFORT@),
    ]
}

/// `(legacy, canonical)` pairs a rewrite folds.
pub fn aliases() -> (r: Vec<(&'static str, &'static str)>)
    ensures
        r.len() == aliases_spec().len(),
        forall|i: int|
            0 <= i < r.len() ==> (#[trigger] r@[i]).0@ == aliases_spec()[i].0 && r@[i].1@
                == aliases_spec()[i].1,
{
    let mut r: Vec<(&'static str, &'static str)> = Vec::new();
    r.push(("BLOCKEDBY", BLOCKED_BY));
    r.push(("TAGS", TAGS));
    r.push(("DISCOVERED", DISCOVERED_FROM));
    r.push(("SUPERSEDED_BY", PIVOTED_TO));
    r.push(("EFFORT", EFFORT));
    r
}

/// The value under `key` when present and not blank.
pub open spec fn filled(m: Map<Seq<char>, String>, key: Seq<char>) -> Option<Seq<char>> {
    if m.contains_key(key) && trim(m[key]@).len() > 0 {
        Some(m[key]@)
    } else {
        None
    }
}

/// The first alias of `canonical`, in the order given, that holds a value.
pub open spec fn alias_value(
    m: Map<Seq<char>, String>,
    canonical: Seq<char>,
    als: Seq<(Seq<char>, Seq<char>)>,
) -> Option<Seq<char>>
    decreases als.len(),
{
    if als.len() == 0 {
        None
    } else if als[0].1 == canonical && filled(m, als[0].0) is Some {
        filled(m, als[0].0)
    } else {
        alias_value(m, canonical, als.drop_first())
    }
}

/// `canonical` read from the drawer: its own value, then a legacy alias's.
pub open spec fn prop_value(m: Map<Seq<char>, String>, canonical: Seq<char>) -> Option<Seq<char>> {
    match filled(m, canonical) {
        Some(v) => Some(v),
        None => alias_value(m, canonical, aliases_spec()),
    }
}

/// The drawer with every alias of `canonical`, among those given, removed.
pub open spec fn without_aliases(
    m: Map<Seq<char>, String>,
    canonical: Seq<char>,
    als: Seq<(Seq<char>, Seq<char>)>,
) -> Map<Seq<char>, String>
    decreases als.len(),
{
    if als.len() == 0 {
        m
    } else {
        let rest = without_aliases(m, canonical, als.drop_last());
        if als.last().1 == canonical {
            rest.remove(als.last().0)
        } else {
            rest
        }
    }
}

/// Whether `s` holds a non-whitespace character.
fn not_blank(s: &str) -> (r: bool)
    ensures
        r == (trim(s@).len() > 0),
{
    trim_chars(&chars_of(s)).len() > 0
}

/// Read `canonical`, then any legacy alias.
pub fn get<'a>(properties: &'a TextMap<String>, canonical: &str) -> (r: Option<&'a str>)
    ensures
        match r {
            Some(v) => prop_value(properties.view(), canonical@) == Some(v@),
            None => prop_value(properties.view(), canonical@) is None,
        },
{
    if let Some(value) = properties.get(canonical) {
        if not_blank(value.as_str()) {
            return Some(value.as_str());
        }
    }
    let als = aliases();
    let mut i: usize = 0;
    assert(aliases_spec().subrange(0, als.len() as int) =~= aliases_spec());
    while i < als.len()
        invariant
            i <= als.len(),
            als.len() == aliases_spec().len(),
            forall|j: int|
                0 <= j < als.len() ==> (#[trigger] als@[j]).0@ == aliases_spec()[j].0 && als@[j].1@
                    == aliases_spec()[j].1,
            filled(properties.view(), canonical@) is None,
            alias_value(properties.view(), canonical@, aliases_spec().subrange(i as int, als.len() as int))
                == prop_value(properties.view(), canonical@),
        decreases als.len() - i,
    {
        let (alias, dest) = als[i];
        let ghost rest = aliases_spec().subrange(i as int, als.len() as int);
        assert(rest[0] == aliases_spec()[i as int]);
        assert(rest.drop_first() =~= aliases_spec().subrange(i + 1, als.len() as int));
        if str_eq(dest, canonical) {
            if let Some(value) = properties.get(alias) {
                if not_blank(value.as_str()) {
                    assert(alias@ == aliases_spec()[i as int].0);
                    return Some(value.as_str());
                }
            }
        }
        i = i + 1;
    }
    None
}

/// Drop every alias of `canonical`.
fn drop_aliases(properties: &mut TextMap<String>, canonical: &str)
    ensures
        final(properties).view() == without_aliases(old(properties).view(), canonical@, aliases_spec()),
{
    let als = aliases();
    let mut i: usize = 0;
    while i < als.len()
        invariant
            i <= als.len(),
            als.len() == aliases_spec().len(),
            forall|j: int|
                0 <= j < als.len() ==> (#[trigger] als@[j]).0@ == aliases_spec()[j].0 && als@[j].1@
                    == aliases_spec()[j].1,
            properties.view() == without_aliases(
                old(properties).view(),
                canonical@,
                aliases_spec().take(i as int),
            ),
        decreases als.len() - i,
    {
        let (alias, dest) = als[i];
        proof {
            let t = aliases_spec().take(i + 1);
            assert(t.drop_last() =~= aliases_spec().take(i as int));
            assert(t.last() == aliases_spec()[i as int]);
        }
        if str_eq(dest, canonical) {
            properties.remove(alias);
        }
        i = i + 1;
    }
    assert(aliases_spec().take(als.len() as int) =~= aliases_spec());
}

/// Write `canonical` and drop every alias of that key.
pub fn insert(properties: &mut TextMap<String>, canonical: &str, value: String)
    ensures
        final(properties).view() == without_aliases(
            old(properties).view(),
            canonical@,
            aliases_spec(),
        ).insert(canonical@, value),
{
    drop_aliases(properties, canonical);
    properties.insert(canonical.to_owned(), value);
}

/// Remove `canonical` and every alias of it.
pub fn remove(properties: &mut TextMap<String>, canonical: &str)
    ensures
        final(properties).view() == without_aliases(
            old(properties).view().remove(canonical@),
            canonical@,
            aliases_spec(),
        ),
{
    properties.remove(canonical);
    drop_aliases(properties, canonical);
}

/// No alias is spelled like the key it stands for.
proof fn lemma_alias_differs(i: int)
    requires
        0 <= i < aliases_spec().len(),
    ensures
        aliases_spec()[i].0 != aliases_spec()[i].1,
{
    reveal_strlit("BLOCKEDBY");
    reveal_strlit("BLOCKED_BY");
    reveal_strlit("TAGS");
    reveal_strlit("VISSUE_TAGS");
    reveal_strlit("DISCOVERED");
    reveal_strlit("DISCOVERED_FROM");
    reveal_strlit("SUPERSEDED_BY");
    reveal_strlit("PIVOTED_TO");
    reveal_strlit("EFFORT");
    reveal_strlit("Effort");
    if i == 4 {
        assert("EFFORT"@[1] != "Effort"@[1]);
    } else if i == 3 {
        assert("SUPERSEDED_BY"@.len() != "PIVOTED_TO"@.len());
    } else if i == 2 {
        assert("DISCOVERED"@.len() != "DISCOVERED_FROM"@.len());
    } else if i == 1 {
        assert("TAGS"@.len() != "VISSUE_TAGS"@.len());
    } else {
        assert("BLOCKEDBY"@.len() != "BLOCKED_BY"@.len());
    }
}

/// Removing the aliases of `c` leaves no alias of `c` in the drawer.
proof fn lemma_without_aliases(
    m: Map<Seq<char>, String>,
    c: Seq<char>,
    als: Seq<(Seq<char>, Seq<char>)>,
    k: Seq<char>,
)
    ensures
        without_aliases(m, c, als).contains_key(k) <==> m.contains_key(k) && !(exists|j: int|
            0 <= j < als.len() && #[trigger] als[j] == (k, c)),
        without_aliases(m, c, als).contains_key(k) ==> without_aliases(m, c, als)[k] == m[k],
    decreases als.len(),
{
    if als.len() > 0 {
        lemma_without_aliases(m, c, als.drop_last(), k);
        if exists|j: int| 0 <= j < als.drop_last().len() && #[trigger] als.drop_last()[j] == (k, c) {
            let j = choose|j: int| 0 <= j < als.drop_last().len() && #[trigger] als.drop_last()[j] == (k, c);
            assert(als[j] == (k, c));
        }
        if exists|j: int| 0 <= j < als.len() && #[trigger] als[j] == (k, c) {
            let j = choose|j: int| 0 <= j < als.len() && #[trigger] als[j] == (k, c);
            if j < als.len() - 1 {
                assert(als.drop_last()[j] == (k, c));
            }
        }
    }
}

/// After `canonical` is written, reading it gives the value written, unless
/// that value is blank (then nothing: the write also dropped every alias).
pub proof fn lemma_get_after_insert(m: Map<Seq<char>, String>, canonical: Seq<char>, value: String)
    ensures
        prop_value(without_aliases(m, canonical, aliases_spec()).insert(canonical, value), canonical)
            == if trim(value@).len() > 0 {
            Some(value@)
        } else {
            None::<Seq<char>>
        },
{
    let w = without_aliases(m, canonical, aliases_spec());
    let m2 = w.insert(canonical, value);
    if trim(value@).len() == 0 {
        assert forall|i: int| 0 <= i < aliases_spec().len() && aliases_spec()[i].1 == canonical
            implies filled(m2, #[trigger] aliases_spec()[i].0) is None by {
            let a = aliases_spec()[i].0;
            lemma_alias_differs(i);
            lemma_without_aliases(m, canonical, aliases_spec(), a);
            assert(aliases_spec()[i] == (a, canonical));
        }
        lemma_no_alias_value(m2, canonical, aliases_spec());
    }
}

/// When no alias of `c` holds a value, reading the aliases gives nothing.
proof fn lemma_no_alias_value(
    m: Map<Seq<char>, String>,
    c: Seq<char>,
    als: Seq<(Seq<char>, Seq<char>)>,
)
    requires
        forall|i: int| 0 <= i < als.len() && als[i].1 == c ==> filled(m, #[trigger] als[i].0) is None,
    ensures
        alias_value(m, c, als) is None,
    decreases als.len(),
{
    if als.len() > 0 {
        assert forall|i: int| 0 <= i < als.drop_first().len() && als.drop_first()[i].1 == c
            implies filled(m, #[trigger] als.drop_first()[i].0) is None by {
            assert(als.drop_first()[i] == als[i + 1]);
        }
        lemma_no_alias_value(m, c, als.drop_first());
    }
}

/// After `canonical` is removed, reading it gives nothing.
pub proof fn lemma_get_after_remove(m: Map<Seq<char>, String>, canonical: Seq<char>)
    ensures
        prop_value(without_aliases(m.remove(canonical), canonical, aliases_spec()), canonical) is None,
{
    let m2 = without_aliases(m.remove(canonical), canonical, aliases_spec());
    lemma_without_aliases(m.remove(canonical), canonical, aliases_spec(), canonical);
    assert forall|i: int| 0 <= i < aliases_spec().len() && aliases_spec()[i].1 == canonical
        implies filled(m2, #[trigger] aliases_spec()[i].0) is None by {
        let a = aliases_spec()[i].0;
        lemma_without_aliases(m.remove(canonical), canonical, aliases_spec(), a);
        assert(aliases_spec()[i] == (a, canonical));
    }
    lemma_no_alias_value(m2, canonical, aliases_spec());
}

} // verus!

verus! {

/// The drawer as text.
pub open spec fn prop_texts(m: Map<Seq<char>, String>) -> Map<Seq<char>, Seq<char>> {
    m.map_values(|s: String| s@)
}

/// The ids of an id-valued property: the fields between commas and
/// whitespace, as `:BLOCKED_BY:` is read.
pub open spec fn id_list(v: Seq<char>) -> Seq<Seq<char>> {
    crate::model::fields(v, |c: char| crate::model::blocker_sep(c))
}

/// `acc`, then each item of `xs` that is not there yet.
pub open spec fn add_new(acc: Seq<Seq<char>>, xs: Seq<Seq<char>>) -> Seq<Seq<char>>
    decreases xs.len(),
{
    if xs.len() == 0 {
        acc
    } else {
        let a = add_new(acc, xs.drop_last());
        if a.contains(xs.last()) {
            a
        } else {
            a.push(xs.last())
        }
    }
}

/// `dest`'s ids with those of `extra` it lacks added, space-joined; the key
/// goes when no id is left.
pub open spec fn merge_ids(m: Map<Seq<char>, Seq<char>>, dest: Seq<char>, extra: Seq<char>) -> Map<
    Seq<char>,
    Seq<char>,
> {
    let ids = add_new(
        if m.contains_key(dest) {
            id_list(m[dest])
        } else {
            seq![]
        },
        id_list(extra),
    );
    if ids.len() == 0 {
        m.remove(dest)
    } else {
        m.insert(dest, crate::org::join(ids, " "@))
    }
}

/// The tags property with those of `value` it lacks added, each once,
/// comma-joined; the key goes when no tag is left.
pub open spec fn merge_tags(m: Map<Seq<char>, Seq<char>>, value: Seq<char>) -> Map<Seq<char>, Seq<char>> {
    let existing = if m.contains_key(TAGS@) {
        m[TAGS@]
    } else {
        seq![]
    };
    let parts = add_new(
        add_new(seq![], crate::model::fields(existing, |c: char| crate::model::tag_sep(c))),
        crate::model::fields(value, |c: char| crate::model::tag_sep(c)),
    );
    if parts.len() == 0 {
        m.remove(TAGS@)
    } else {
        m.remove(TAGS@).insert(TAGS@, crate::org::join(parts, ","@))
    }
}

/// An id-valued key: blockers, origin and successor.
pub open spec fn id_valued(dest: Seq<char>) -> bool {
    dest == BLOCKED_BY@ || dest == DISCOVERED_FROM@ || dest == PIVOTED_TO@
}

/// One alias folded into its key: id lists merge, tag lists merge, and any
/// other value goes to its key unless that is set. Counts 1 when the alias
/// was there.
pub open spec fn alias_step(m: Map<Seq<char>, Seq<char>>, alias: Seq<char>, dest: Seq<char>) -> (
    Map<Seq<char>, Seq<char>>,
    nat,
) {
    if !m.contains_key(alias) {
        (m, 0)
    } else {
        let v = m[alias];
        let m0 = m.remove(alias);
        (
            if id_valued(dest) {
                merge_ids(m0, dest, v)
            } else if dest == TAGS@ {
                merge_tags(m0, v)
            } else if m0.contains_key(dest) {
                m0
            } else {
                m0.insert(dest, v)
            },
            1,
        )
    }
}

/// The aliases `als` folded in order.
pub open spec fn fold_aliases(m: Map<Seq<char>, Seq<char>>, als: Seq<(Seq<char>, Seq<char>)>) -> (
    Map<Seq<char>, Seq<char>>,
    nat,
)
    decreases als.len(),
{
    if als.len() == 0 {
        (m, 0)
    } else {
        let (m1, n1) = fold_aliases(m, als.drop_last());
        let (m2, n2) = alias_step(m1, als.last().0, als.last().1);
        (m2, n1 + n2)
    }
}

/// The org-edna and org-depend finders a bare `:BLOCKER:` may name.
pub open spec fn edna_words() -> Seq<Seq<char>> {
    seq![
        "prev-sibling"@,
        "previous-sibling"@,
        "next-sibling"@,
        "siblings"@,
        "rest-of-siblings"@,
        "first-child"@,
        "children"@,
        "parent"@,
        "ancestors"@,
        "descendants"@,
        "self"@,
        "headings"@,
    ]
}

/// Whether a `:BLOCKER:` value is an org-edna condition rather than a list
/// of ids: a call such as `ids(...)`, or a bare finder.
pub open spec fn edna_condition(raw: Seq<char>) -> bool {
    raw.contains('(') || edna_words().contains(trim(raw))
}

/// What folding the aliases and a bare `:BLOCKER:` id list does to a
/// drawer, and how many keys moved or merged: the aliases fold into their
/// keys, then a `:BLOCKER:` that is no org-edna condition merges into
/// `:BLOCKED_BY:` and goes.
pub open spec fn canonical(m: Map<Seq<char>, Seq<char>>) -> (Map<Seq<char>, Seq<char>>, nat) {
    let (m1, n) = fold_aliases(m, aliases_spec());
    if m1.contains_key(EDNA_BLOCKER@) && !edna_condition(m1[EDNA_BLOCKER@]) {
        (merge_ids(m1, BLOCKED_BY@, m1[EDNA_BLOCKER@]).remove(EDNA_BLOCKER@), n + 1)
    } else {
        (m1, n)
    }
}

fn holds_text(v: &Vec<String>, k: &str) -> (r: bool)
    ensures
        r == v@.map_values(|x: String| x@).contains(k@),
{
    let mut i: usize = 0;
    while i < v.len()
        invariant
            i <= v.len(),
            forall|j: int| 0 <= j < i ==> #[trigger] v@[j]@ != k@,
        decreases v.len() - i,
    {
        if str_eq(v[i].as_str(), k) {
            assert(v@.map_values(|x: String| x@)[i as int] == k@);
            return true;
        }
        i = i + 1;
    }
    proof {
        let vv = v@.map_values(|x: String| x@);
        if vv.contains(k@) {
            let j = choose|j: int| 0 <= j < vv.len() && vv[j] == k@;
            assert(v@[j]@ == k@);
        }
    }
    false
}

/// Add to `acc` each item of `xs` it lacks, in order.
fn add_new_exec(acc: &mut Vec<String>, xs: &Vec<String>)
    ensures
        final(acc)@.map_values(|x: String| x@) == add_new(
            old(acc)@.map_values(|x: String| x@),
            xs@.map_values(|x: String| x@),
        ),
{
    let ghost a0 = acc@.map_values(|x: String| x@);
    let ghost xv = xs@.map_values(|x: String| x@);
    let mut i: usize = 0;
    while i < xs.len()
        invariant
            i <= xs.len(),
            xv == xs@.map_values(|x: String| x@),
            acc@.map_values(|x: String| x@) == add_new(a0, xv.take(i as int)),
        decreases xs.len() - i,
    {
        proof {
            assert(xv.take(i + 1).drop_last() =~= xv.take(i as int));
            assert(xv.take(i + 1).last() == xs@[i as int]@);
        }
        if !holds_text(acc, xs[i].as_str()) {
            let ghost before = acc@.map_values(|x: String| x@);
            let x = xs[i].clone();
            acc.push(x);
            assert(acc@.map_values(|x: String| x@) =~= before.push(xs@[i as int]@));
        }
        i = i + 1;
    }
    assert(xv.take(xs.len() as int) =~= xv);
}

fn joined_with(parts: &Vec<String>, sep: &str) -> (r: String)
    ensures
        r@ == crate::org::join(parts@.map_values(|x: String| x@), sep@),
{
    let mut out = String::new();
    crate::report::push_joined(&mut out, parts, sep);
    out
}

/// Merge the ids of `extra` into `dest`.
fn merge_id_valued(properties: &mut TextMap<String>, dest: &str, extra: &str)
    ensures
        prop_texts(final(properties).view()) == merge_ids(prop_texts(old(properties).view()), dest@, extra@),
{
    let mut ids: Vec<String> = match properties.get(dest) {
        Some(v) => crate::model::fields_exec(v.as_str(), true),
        None => Vec::new(),
    };
    proof {
        if !properties.view().contains_key(dest@) {
            assert(ids@.map_values(|x: String| x@) =~= Seq::<Seq<char>>::empty());
        }
    }
    let more = crate::model::fields_exec(extra, true);
    add_new_exec(&mut ids, &more);
    let ghost before = prop_texts(properties.view());
    if ids.len() == 0 {
        properties.remove(dest);
        assert(prop_texts(properties.view()) =~= before.remove(dest@));
    } else {
        let v = joined_with(&ids, " ");
        properties.insert(dest.to_owned(), v);
        assert(prop_texts(properties.view()) =~= before.insert(dest@, crate::org::join(ids@.map_values(|x: String| x@), " "@)));
    }
}

/// Merge the tags of `value` into the tags property.
fn merge_tag_list(properties: &mut TextMap<String>, value: &str)
    ensures
        prop_texts(final(properties).view()) == merge_tags(prop_texts(old(properties).view()), value@),
{
    let ghost m = prop_texts(properties.view());
    let existing = match properties.remove(TAGS) {
        Some(v) => v,
        None => String::new(),
    };
    proof {
        if !m.contains_key(TAGS@) {
            reveal_strlit("");
            assert(existing@ =~= Seq::<char>::empty());
        }
        assert(prop_texts(properties.view()) =~= m.remove(TAGS@));
    }
    let mut parts: Vec<String> = Vec::new();
    assert(parts@.map_values(|x: String| x@) =~= Seq::<Seq<char>>::empty());
    let first = crate::model::fields_exec(existing.as_str(), false);
    add_new_exec(&mut parts, &first);
    let second = crate::model::fields_exec(value, false);
    add_new_exec(&mut parts, &second);
    if parts.len() > 0 {
        let ghost before = prop_texts(properties.view());
        let v = joined_with(&parts, ",");
        properties.insert(TAGS.to_owned(), v);
        assert(prop_texts(properties.view()) =~= before.insert(TAGS@, crate::org::join(parts@.map_values(|x: String| x@), ","@)));
    }
}

/// Whether a `:BLOCKER:` value is an org-edna condition.
fn is_edna_condition(raw: &str) -> (r: bool)
    ensures
        r == edna_condition(raw@),
{
    let cs = chars_of(raw);
    let mut i: usize = 0;
    while i < cs.len()
        invariant
            i <= cs.len(),
            cs@ == raw@,
            forall|j: int| 0 <= j < i ==> cs@[j] != '(',
        decreases cs.len() - i,
    {
        if cs[i] == '(' {
            assert(raw@[i as int] == '(');
            return true;
        }
        i = i + 1;
    }
    let t = crate::text::string_of(&trim_chars(&cs));
    let words: Vec<&str> = vec![
        "prev-sibling",
        "previous-sibling",
        "next-sibling",
        "siblings",
        "rest-of-siblings",
        "first-child",
        "children",
        "parent",
        "ancestors",
        "descendants",
        "self",
        "headings",
    ];
    assert(words@.map_values(|w: &str| w@) =~= edna_words());
    let mut k: usize = 0;
    while k < words.len()
        invariant
            k <= words.len(),
            t@ == trim(raw@),
            words@.map_values(|w: &str| w@) == edna_words(),
            forall|j: int| 0 <= j < k ==> edna_words()[j] != t@,
        decreases words.len() - k,
    {
        if str_eq(words[k], t.as_str()) {
            assert(edna_words()[k as int] == t@);
            return true;
        }
        k = k + 1;
    }
    proof {
        if edna_words().contains(t@) {
            let j = choose|j: int| 0 <= j < edna_words().len() && edna_words()[j] == t@;
        }
    }
    false
}

/// Fold aliases and merge a bare `:BLOCKER:` id list into `:BLOCKED_BY:`. A
/// real org-edna condition (`prev-sibling`, `ids(...)`, `headings`, ...)
/// stays on `:BLOCKER:`. Gives how many keys moved or merged.
pub fn canonicalize(properties: &mut TextMap<String>) -> (n: usize)
    ensures
        prop_texts(final(properties).view()) == canonical(prop_texts(old(properties).view())).0,
        n == canonical(prop_texts(old(properties).view())).1,
{
    let ghost m0 = prop_texts(properties.view());
    let als = aliases();
    let mut moved: usize = 0;
    let mut i: usize = 0;
    while i < als.len()
        invariant
            i <= als.len(),
            als.len() == aliases_spec().len(),
            forall|j: int|
                0 <= j < als.len() ==> (#[trigger] als@[j]).0@ == aliases_spec()[j].0 && als@[j].1@
                    == aliases_spec()[j].1,
            prop_texts(properties.view()) == fold_aliases(m0, aliases_spec().take(i as int)).0,
            moved == fold_aliases(m0, aliases_spec().take(i as int)).1,
            moved <= i,
        decreases als.len() - i,
    {
        let (alias, dest) = als[i];
        proof {
            let t = aliases_spec().take(i + 1);
            assert(t.drop_last() =~= aliases_spec().take(i as int));
            assert(t.last() == aliases_spec()[i as int]);
            reveal_strlit("BLOCKED_BY");
            reveal_strlit("DISCOVERED_FROM");
            reveal_strlit("PIVOTED_TO");
            reveal_strlit("VISSUE_TAGS");
        }
        let ghost before = prop_texts(properties.view());
        match properties.remove(alias) {
            None => {
                assert(prop_texts(properties.view()) =~= before);
            },
            Some(v) => {
                assert(prop_texts(properties.view()) =~= before.remove(alias@));
                if str_eq(dest, BLOCKED_BY) || str_eq(dest, DISCOVERED_FROM) || str_eq(dest, PIVOTED_TO) {
                    merge_id_valued(properties, dest, v.as_str());
                } else if str_eq(dest, TAGS) {
                    merge_tag_list(properties, v.as_str());
                } else if !properties.contains_key(dest) {
                    let ghost b2 = prop_texts(properties.view());
                    properties.insert(dest.to_owned(), v);
                    assert(prop_texts(properties.view()) =~= b2.insert(dest@, before[alias@]));
                }
                moved = moved + 1;
            },
        }
        i = i + 1;
    }
    assert(aliases_spec().take(als.len() as int) =~= aliases_spec());
    let raw: Option<String> = match properties.get(EDNA_BLOCKER) {
        Some(v) => Some(v.clone()),
        None => None,
    };
    if let Some(r) = raw {
        if !is_edna_condition(r.as_str()) {
            merge_id_valued(properties, BLOCKED_BY, r.as_str());
            let ghost b3 = prop_texts(properties.view());
            properties.remove(EDNA_BLOCKER);
            assert(prop_texts(properties.view()) =~= b3.remove(EDNA_BLOCKER@));
            moved = moved + 1;
        }
    }
    moved
}

} // verus!
