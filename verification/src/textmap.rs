//! An ordered map from text keys to values.
//!
//! Keys are kept in ascending order, compared the way `String`'s `Ord`
//! compares them: character by character, by code point (which is the byte
//! order of their UTF-8), a proper prefix sorting first. Walking the map
//! therefore visits keys in the order a `BTreeMap<String, _>` would.
use vstd::prelude::*;

use crate::text::{chars_of, str_eq};

verus! {

/// Length of the common prefix of `a` and `b` from `i` on.
pub open spec fn prefix_len(a: Seq<char>, b: Seq<char>, i: int) -> int
    decreases a.len() - i,
{
    if 0 <= i < a.len() && i < b.len() && a[i] == b[i] {
        prefix_len(a, b, i + 1)
    } else {
        i
    }
}

/// `a < b` in `String` order.
pub open spec fn text_lt(a: Seq<char>, b: Seq<char>) -> bool {
    let p = prefix_len(a, b, 0);
    if p >= a.len() {
        p < b.len()
    } else if p >= b.len() {
        false
    } else {
        a[p] < b[p]
    }
}

pub proof fn lemma_prefix_len(a: Seq<char>, b: Seq<char>, i: int)
    requires
        0 <= i,
        i <= a.len(),
        i <= b.len(),
    ensures
        i <= prefix_len(a, b, i),
        prefix_len(a, b, i) <= a.len(),
        prefix_len(a, b, i) <= b.len(),
        forall|k: int| i <= k < prefix_len(a, b, i) ==> #[trigger] a[k] == b[k],
        prefix_len(a, b, i) < a.len() && prefix_len(a, b, i) < b.len() ==> a[prefix_len(a, b, i)]
            != b[prefix_len(a, b, i)],
    decreases a.len() - i,
{
    if i < a.len() && i < b.len() && a[i] == b[i] {
        lemma_prefix_len(a, b, i + 1);
    }
}

/// The common prefix length is the first index where the two differ.
pub proof fn lemma_prefix_len_is(a: Seq<char>, b: Seq<char>, p: int)
    requires
        0 <= p,
        p <= a.len(),
        p <= b.len(),
        forall|k: int| 0 <= k < p ==> #[trigger] a[k] == b[k],
        p < a.len() && p < b.len() ==> a[p] != b[p],
    ensures
        prefix_len(a, b, 0) == p,
{
    lemma_prefix_len(a, b, 0);
    let q = prefix_len(a, b, 0);
    if q < p {
        assert(a[q] == b[q]);
    } else if q > p {
        assert(a[p] == b[p]);
    }
}

pub proof fn lemma_text_lt_irreflexive(a: Seq<char>)
    ensures
        !text_lt(a, a),
{
    lemma_prefix_len(a, a, 0);
}

pub proof fn lemma_text_lt_transitive(a: Seq<char>, b: Seq<char>, c: Seq<char>)
    requires
        text_lt(a, b),
        text_lt(b, c),
    ensures
        text_lt(a, c),
{
    lemma_prefix_len(a, b, 0);
    lemma_prefix_len(b, c, 0);
    lemma_prefix_len(a, c, 0);
    let p = prefix_len(a, b, 0);
    let q = prefix_len(b, c, 0);
    if p < q {
        assert forall|k: int| 0 <= k < p implies #[trigger] a[k] == c[k] by {
            assert(a[k] == b[k]);
            assert(b[k] == c[k]);
        }
        if p < a.len() {
            assert(b[p] == c[p]);
            lemma_prefix_len_is(a, c, p);
        } else {
            lemma_prefix_len_is(a, c, p);
        }
    } else if q < p {
        assert forall|k: int| 0 <= k < q implies #[trigger] a[k] == c[k] by {
            assert(a[k] == b[k]);
            assert(b[k] == c[k]);
        }
        assert(q < b.len());
        assert(a[q] == b[q]);
        lemma_prefix_len_is(a, c, q);
    } else {
        assert forall|k: int| 0 <= k < p implies #[trigger] a[k] == c[k] by {
            assert(a[k] == b[k]);
            assert(b[k] == c[k]);
        }
        assert(p < b.len());
        lemma_prefix_len_is(a, c, p);
    }
}

pub proof fn lemma_text_lt_total(a: Seq<char>, b: Seq<char>)
    requires
        a != b,
    ensures
        text_lt(a, b) || text_lt(b, a),
{
    lemma_prefix_len(a, b, 0);
    lemma_prefix_len(b, a, 0);
    let p = prefix_len(a, b, 0);
    assert forall|k: int| 0 <= k < p implies #[trigger] b[k] == a[k] by {
        assert(a[k] == b[k]);
    }
    lemma_prefix_len_is(b, a, p);
    if p >= a.len() && p >= b.len() {
        assert(a =~= b);
    } else if p < a.len() && p < b.len() {
        assert(a[p] != b[p]);
    }
}

pub proof fn lemma_text_lt_asymmetric(a: Seq<char>, b: Seq<char>)
    requires
        text_lt(a, b),
    ensures
        !text_lt(b, a),
        a != b,
{
    lemma_text_lt_irreflexive(a);
    if text_lt(b, a) {
        lemma_text_lt_transitive(a, b, a);
    }
}

/// `a < b` in `String` order, over characters.
pub fn text_less(a: &[char], b: &[char]) -> (r: bool)
    ensures
        r == text_lt(a@, b@),
{
    let mut i: usize = 0;
    while i < a.len() && i < b.len() && a[i] == b[i]
        invariant
            i <= a.len(),
            i <= b.len(),
            prefix_len(a@, b@, i as int) == prefix_len(a@, b@, 0),
        decreases a.len() - i,
    {
        i = i + 1;
    }
    if i >= a.len() {
        i < b.len()
    } else if i >= b.len() {
        false
    } else {
        a[i] < b[i]
    }
}

/// Keys strictly ascending.
pub open spec fn ascending<V>(s: Seq<(String, V)>) -> bool {
    forall|i: int, j: int| 0 <= i < j < s.len() ==> text_lt(#[trigger] s[i].0@, #[trigger] s[j].0@)
}

/// Whether some entry has key `k`.
pub open spec fn has_key<V>(s: Seq<(String, V)>, k: Seq<char>) -> bool {
    exists|i: int| 0 <= i < s.len() && #[trigger] s[i].0@ == k
}

/// The index of an entry with key `k`.
pub open spec fn key_index<V>(s: Seq<(String, V)>, k: Seq<char>) -> int {
    choose|i: int| 0 <= i < s.len() && #[trigger] s[i].0@ == k
}

/// The map the entries spell.
pub open spec fn entries_map<V>(s: Seq<(String, V)>) -> Map<Seq<char>, V> {
    Map::new(|k: Seq<char>| has_key(s, k), |k: Seq<char>| s[key_index(s, k)].1)
}

/// The keys, in entry order.
pub open spec fn entry_keys<V>(s: Seq<(String, V)>) -> Seq<Seq<char>> {
    s.map_values(|e: (String, V)| e.0@)
}

/// In ascending entries, the entry with a given key is the only one.
pub proof fn lemma_key_index<V>(s: Seq<(String, V)>, i: int)
    requires
        ascending(s),
        0 <= i < s.len(),
    ensures
        has_key(s, s[i].0@),
        key_index(s, s[i].0@) == i,
        entries_map(s).contains_key(s[i].0@),
        entries_map(s)[s[i].0@] == s[i].1,
{
    let k = s[i].0@;
    assert(has_key(s, k));
    let j = key_index(s, k);
    if j < i {
        lemma_text_lt_irreflexive(k);
        assert(text_lt(s[j].0@, s[i].0@));
    } else if j > i {
        lemma_text_lt_irreflexive(k);
        assert(text_lt(s[i].0@, s[j].0@));
    }
}

/// Inserting a key at the place that keeps the order.
pub proof fn lemma_insert_at<V>(s: Seq<(String, V)>, i: int, k: String, v: V)
    requires
        ascending(s),
        0 <= i <= s.len(),
        forall|j: int| 0 <= j < i ==> text_lt(#[trigger] s[j].0@, k@),
        forall|j: int| i <= j < s.len() ==> text_lt(k@, #[trigger] s[j].0@),
    ensures
        ascending(s.insert(i, (k, v))),
        entries_map(s.insert(i, (k, v))) == entries_map(s).insert(k@, v),
        entry_keys(s.insert(i, (k, v))) == entry_keys(s).insert(i, k@),
{
    let t = s.insert(i, (k, v));
    assert forall|a: int, b: int| 0 <= a < b < t.len() implies text_lt(
        #[trigger] t[a].0@,
        #[trigger] t[b].0@,
    ) by {
        if b < i {
            assert(t[a] == s[a] && t[b] == s[b]);
        } else if b == i {
            assert(t[a] == s[a]);
        } else if a < i {
            assert(t[a] == s[a] && t[b] == s[b - 1]);
            lemma_text_lt_transitive(s[a].0@, k@, s[b - 1].0@);
        } else if a == i {
            assert(t[b] == s[b - 1]);
        } else {
            assert(t[a] == s[a - 1] && t[b] == s[b - 1]);
        }
    }
    let m = entries_map(s).insert(k@, v);
    assert forall|q: Seq<char>| #[trigger] entries_map(t).contains_key(q) <==> m.contains_key(q) by {
        if has_key(t, q) {
            let j = choose|j: int| 0 <= j < t.len() && #[trigger] t[j].0@ == q;
            if j < i {
                assert(s[j].0@ == q);
            } else if j > i {
                assert(s[j - 1].0@ == q);
            }
        }
        if has_key(s, q) {
            let j = choose|j: int| 0 <= j < s.len() && #[trigger] s[j].0@ == q;
            if j < i {
                assert(t[j].0@ == q);
            } else {
                assert(t[j + 1].0@ == q);
            }
        }
        if q == k@ {
            assert(t[i].0@ == q);
        }
    }
    assert forall|q: Seq<char>| #[trigger] entries_map(t).contains_key(q) implies entries_map(t)[q]
        == m[q] by {
        let j = choose|j: int| 0 <= j < t.len() && #[trigger] t[j].0@ == q;
        lemma_key_index(t, j);
        if j < i {
            assert(t[j] == s[j]);
            lemma_key_index(s, j);
            lemma_text_lt_asymmetric(s[j].0@, k@);
        } else if j > i {
            assert(t[j] == s[j - 1]);
            lemma_key_index(s, j - 1);
            lemma_text_lt_asymmetric(k@, s[j - 1].0@);
        }
    }
    assert(entries_map(t) =~= m);
    assert(entry_keys(t) =~= entry_keys(s).insert(i, k@));
}

/// Replacing the value of an existing entry.
pub proof fn lemma_update_at<V>(s: Seq<(String, V)>, i: int, k: String, v: V)
    requires
        ascending(s),
        0 <= i < s.len(),
        s[i].0@ == k@,
    ensures
        ascending(s.update(i, (k, v))),
        entries_map(s.update(i, (k, v))) == entries_map(s).insert(k@, v),
        entry_keys(s.update(i, (k, v))) == entry_keys(s),
{
    let t = s.update(i, (k, v));
    assert forall|a: int, b: int| 0 <= a < b < t.len() implies text_lt(
        #[trigger] t[a].0@,
        #[trigger] t[b].0@,
    ) by {
        assert(t[a].0@ == s[a].0@ && t[b].0@ == s[b].0@);
    }
    let m = entries_map(s).insert(k@, v);
    assert forall|q: Seq<char>| #[trigger] entries_map(t).contains_key(q) <==> m.contains_key(q) by {
        if has_key(t, q) {
            let j = choose|j: int| 0 <= j < t.len() && #[trigger] t[j].0@ == q;
            assert(s[j].0@ == q);
        }
        if has_key(s, q) {
            let j = choose|j: int| 0 <= j < s.len() && #[trigger] s[j].0@ == q;
            assert(t[j].0@ == q);
        }
    }
    assert forall|q: Seq<char>| #[trigger] entries_map(t).contains_key(q) implies entries_map(t)[q]
        == m[q] by {
        let j = choose|j: int| 0 <= j < t.len() && #[trigger] t[j].0@ == q;
        lemma_key_index(t, j);
        if j != i {
            lemma_key_index(s, j);
            lemma_key_index(s, i);
        }
    }
    assert(entries_map(t) =~= m);
    assert(entry_keys(t) =~= entry_keys(s));
}

/// Dropping an entry.
pub proof fn lemma_remove_at<V>(s: Seq<(String, V)>, i: int)
    requires
        ascending(s),
        0 <= i < s.len(),
    ensures
        ascending(s.remove(i)),
        entries_map(s.remove(i)) == entries_map(s).remove(s[i].0@),
        entry_keys(s.remove(i)) == entry_keys(s).remove(i),
{
    let t = s.remove(i);
    let k = s[i].0@;
    assert forall|a: int, b: int| 0 <= a < b < t.len() implies text_lt(
        #[trigger] t[a].0@,
        #[trigger] t[b].0@,
    ) by {
        if b < i {
            assert(t[a] == s[a] && t[b] == s[b]);
        } else if a < i {
            assert(t[a] == s[a] && t[b] == s[b + 1]);
        } else {
            assert(t[a] == s[a + 1] && t[b] == s[b + 1]);
        }
    }
    let m = entries_map(s).remove(k);
    assert forall|q: Seq<char>| #[trigger] entries_map(t).contains_key(q) <==> m.contains_key(q) by {
        if has_key(t, q) {
            let j = choose|j: int| 0 <= j < t.len() && #[trigger] t[j].0@ == q;
            lemma_text_lt_irreflexive(k);
            if j < i {
                assert(s[j].0@ == q);
                assert(text_lt(s[j].0@, s[i].0@));
            } else {
                assert(s[j + 1].0@ == q);
                assert(text_lt(s[i].0@, s[j + 1].0@));
            }
        }
        if has_key(s, q) && q != k {
            let j = choose|j: int| 0 <= j < s.len() && #[trigger] s[j].0@ == q;
            if j < i {
                assert(t[j].0@ == q);
            } else {
                assert(j != i);
                assert(t[j - 1].0@ == q);
            }
        }
    }
    assert forall|q: Seq<char>| #[trigger] entries_map(t).contains_key(q) implies entries_map(t)[q]
        == m[q] by {
        let j = choose|j: int| 0 <= j < t.len() && #[trigger] t[j].0@ == q;
        lemma_key_index(t, j);
        if j < i {
            lemma_key_index(s, j);
        } else {
            lemma_key_index(s, j + 1);
        }
    }
    assert(entries_map(t) =~= m);
    assert(entry_keys(t) =~= entry_keys(s).remove(i));
}


/// Two strictly ascending key sequences that hold the same keys are the
/// same sequence.
pub proof fn lemma_ascending_same_keys(a: Seq<Seq<char>>, b: Seq<Seq<char>>)
    requires
        forall|i: int, j: int| 0 <= i < j < a.len() ==> text_lt(#[trigger] a[i], #[trigger] a[j]),
        forall|i: int, j: int| 0 <= i < j < b.len() ==> text_lt(#[trigger] b[i], #[trigger] b[j]),
        forall|x: Seq<char>| a.contains(x) <==> b.contains(x),
    ensures
        a == b,
    decreases a.len(),
{
    if a.len() == 0 {
        if b.len() > 0 {
            assert(b.contains(b[0]));
        }
        assert(a =~= b);
    } else {
        if b.len() == 0 {
            assert(a.contains(a[0]));
        }
        assert(a.contains(a[0]));
        assert(b.contains(b[0]));
        let k = choose|k: int| 0 <= k < b.len() && b[k] == a[0];
        let m = choose|m: int| 0 <= m < a.len() && a[m] == b[0];
        if k > 0 {
            assert(text_lt(b[0], b[k]));
            if m > 0 {
                assert(text_lt(a[0], a[m]));
                lemma_text_lt_asymmetric(a[0], b[0]);
            } else {
                lemma_text_lt_irreflexive(a[0]);
            }
        }
        let a2 = a.drop_first();
        let b2 = b.drop_first();
        assert forall|x: Seq<char>| a2.contains(x) <==> b2.contains(x) by {
            if a2.contains(x) {
                let i = choose|i: int| 0 <= i < a2.len() && a2[i] == x;
                assert(a[i + 1] == x);
                assert(text_lt(a[0], a[i + 1]));
                lemma_text_lt_irreflexive(x);
                assert(a.contains(x));
                let j = choose|j: int| 0 <= j < b.len() && b[j] == x;
                assert(j != 0);
                assert(b2[j - 1] == x);
            }
            if b2.contains(x) {
                let i = choose|i: int| 0 <= i < b2.len() && b2[i] == x;
                assert(b[i + 1] == x);
                assert(text_lt(b[0], b[i + 1]));
                lemma_text_lt_irreflexive(x);
                assert(b.contains(x));
                let j = choose|j: int| 0 <= j < a.len() && a[j] == x;
                assert(j != 0);
                assert(a2[j - 1] == x);
            }
        }
        assert forall|i: int, j: int| 0 <= i < j < a2.len() implies text_lt(
            #[trigger] a2[i],
            #[trigger] a2[j],
        ) by {
            assert(a2[i] == a[i + 1] && a2[j] == a[j + 1]);
        }
        assert forall|i: int, j: int| 0 <= i < j < b2.len() implies text_lt(
            #[trigger] b2[i],
            #[trigger] b2[j],
        ) by {
            assert(b2[i] == b[i + 1] && b2[j] == b[j + 1]);
        }
        lemma_ascending_same_keys(a2, b2);
        assert(b[k] == a[0]);
        assert(k == 0);
        assert(a.len() == b.len());
        assert forall|i: int| 0 <= i < a.len() implies a[i] == b[i] by {
            if i > 0 {
                assert(a[i] == a2[i - 1]);
                assert(b[i] == b2[i - 1]);
            }
        }
        assert(a =~= b);
    }
}

/// An ordered map from text keys to values.
#[derive(Debug)]
pub struct TextMap<V> {
    entries: Vec<(String, V)>,
}

impl<V> TextMap<V> {
    #[verifier::type_invariant]
    spec fn keys_ascend(self) -> bool {
        ascending(self.entries@)
    }

    /// The map the entries spell.
    pub closed spec fn view(&self) -> Map<Seq<char>, V> {
        entries_map(self.entries@)
    }

    /// The keys in ascending order.
    pub closed spec fn key_seq(&self) -> Seq<Seq<char>> {
        entry_keys(self.entries@)
    }

    /// The value stored at the `i`-th key.
    pub closed spec fn value_seq(&self) -> Seq<V> {
        self.entries@.map_values(|e: (String, V)| e.1)
    }

    /// An empty map.
    pub fn new() -> (m: TextMap<V>)
        ensures
            m.view() == Map::<Seq<char>, V>::empty(),
            m.key_seq().len() == 0,
    {
        let entries: Vec<(String, V)> = Vec::new();
        assert(entries@.len() == 0);
        let m = TextMap { entries };
        assert(m.view() =~= Map::<Seq<char>, V>::empty());
        m
    }

    /// The shape of the map: the keys ascend, the map holds exactly them,
    /// and each maps to the value beside it.
    pub open spec fn shaped(&self) -> bool {
        &&& self.key_seq().len() == self.value_seq().len()
        &&& forall|i: int, j: int|
            0 <= i < j < self.key_seq().len() ==> text_lt(
                #[trigger] self.key_seq()[i],
                #[trigger] self.key_seq()[j],
            )
        &&& forall|k: Seq<char>| #[trigger]
            self.view().contains_key(k) <==> self.key_seq().contains(k)
        &&& forall|i: int|
            0 <= i < self.key_seq().len() ==> #[trigger] self.view()[self.key_seq()[i]]
                == self.value_seq()[i]
    }

    /// How many keys the map holds; the map is [`Self::shaped`].
    pub fn len(&self) -> (n: usize)
        ensures
            n == self.key_seq().len(),
            self.shaped(),
    {
        proof {
            use_type_invariant(self);
            let s = self.entries@;
            assert forall|k: Seq<char>| #[trigger]
                self.view().contains_key(k) <==> self.key_seq().contains(k) by {
                if has_key(s, k) {
                    let j = choose|j: int| 0 <= j < s.len() && #[trigger] s[j].0@ == k;
                    assert(self.key_seq()[j] == k);
                }
                if self.key_seq().contains(k) {
                    let j = choose|j: int| 0 <= j < self.key_seq().len() && self.key_seq()[j] == k;
                    assert(s[j].0@ == k);
                }
            }
            assert forall|i: int| 0 <= i < self.key_seq().len() implies #[trigger] self.view()[
                self.key_seq()[i]] == self.value_seq()[i] by {
                lemma_key_index(s, i);
            }
        }
        self.entries.len()
    }

    /// Where `key` is, or where it would go: the first index whose key is
    /// not below it, and whether that key is `key` itself.
    fn locate(&self, key: &str) -> (r: (usize, bool))
        ensures
            r.0 <= self.entries@.len(),
            forall|j: int| 0 <= j < r.0 ==> text_lt(#[trigger] self.entries@[j].0@, key@),
            r.1 ==> r.0 < self.entries@.len() && self.entries@[r.0 as int].0@ == key@,
            !r.1 ==> forall|j: int|
                r.0 <= j < self.entries@.len() ==> text_lt(key@, #[trigger] self.entries@[j].0@),
    {
        proof {
            use_type_invariant(self);
        }
        let kc = chars_of(key);
        let mut i: usize = 0;
        while i < self.entries.len()
            invariant
                i <= self.entries@.len(),
                kc@ == key@,
                ascending(self.entries@),
                forall|j: int| 0 <= j < i ==> text_lt(#[trigger] self.entries@[j].0@, key@),
            decreases self.entries@.len() - i,
        {
            let ec = chars_of(self.entries[i].0.as_str());
            if !text_less(&ec, &kc) {
                let same = str_eq(self.entries[i].0.as_str(), key);
                proof {
                    if !same {
                        lemma_text_lt_total(ec@, kc@);
                        assert forall|j: int| i <= j < self.entries@.len() implies text_lt(
                            key@,
                            #[trigger] self.entries@[j].0@,
                        ) by {
                            if j > i {
                                lemma_text_lt_transitive(key@, self.entries@[i as int].0@,
                                    self.entries@[j].0@);
                            }
                        }
                    }
                }
                return (i, same);
            }
            i = i + 1;
        }
        (i, false)
    }

    /// The value at `key`, if any.
    pub fn get(&self, key: &str) -> (r: Option<&V>)
        ensures
            match r {
                Some(v) => self.view().contains_key(key@) && self.view()[key@] == *v,
                None => !self.view().contains_key(key@),
            },
    {
        proof {
            use_type_invariant(self);
        }
        let (i, found) = self.locate(key);
        if found {
            proof {
                lemma_key_index(self.entries@, i as int);
            }
            Some(&self.entries[i].1)
        } else {
            proof {
                if has_key(self.entries@, key@) {
                    let j = choose|j: int|
                        0 <= j < self.entries@.len() && #[trigger] self.entries@[j].0@ == key@;
                    lemma_text_lt_irreflexive(key@);
                }
            }
            None
        }
    }

    /// Whether `key` is present.
    pub fn contains_key(&self, key: &str) -> (r: bool)
        ensures
            r == self.view().contains_key(key@),
    {
        self.get(key).is_some()
    }

    /// Set `key` to `value`, returning the value it replaced.
    pub fn insert(&mut self, key: String, value: V) -> (r: Option<V>)
        ensures
            final(self).view() == old(self).view().insert(key@, value),
            final(self).key_seq().len() <= old(self).key_seq().len() + 1,
            match r {
                Some(v) => old(self).view().contains_key(key@) && old(self).view()[key@] == v,
                None => !old(self).view().contains_key(key@),
            },
    {
        proof {
            use_type_invariant(&*self);
        }
        let (i, found) = self.locate(key.as_str());
        let mut entries: Vec<(String, V)> = Vec::new();
        std::mem::swap(&mut entries, &mut self.entries);
        let ghost s = entries@;
        if found {
            let (_, prev) = entries.remove(i);
            entries.insert(i, (key, value));
            proof {
                assert(entries@ =~= s.update(i as int, (key, value)));
                lemma_update_at(s, i as int, key, value);
                lemma_key_index(s, i as int);
            }
            self.entries = entries;
            Some(prev)
        } else {
            entries.insert(i, (key, value));
            proof {
                lemma_insert_at(s, i as int, key, value);
                if has_key(s, key@) {
                    let j = choose|j: int| 0 <= j < s.len() && #[trigger] s[j].0@ == key@;
                    lemma_text_lt_irreflexive(key@);
                }
            }
            self.entries = entries;
            None
        }
    }

    /// Drop `key`, returning its value.
    pub fn remove(&mut self, key: &str) -> (r: Option<V>)
        ensures
            final(self).view() == old(self).view().remove(key@),
            match r {
                Some(v) => old(self).view().contains_key(key@) && old(self).view()[key@] == v,
                None => !old(self).view().contains_key(key@),
            },
    {
        proof {
            use_type_invariant(&*self);
        }
        let (i, found) = self.locate(key);
        if found {
            let mut entries: Vec<(String, V)> = Vec::new();
            std::mem::swap(&mut entries, &mut self.entries);
            let ghost s = entries@;
            let (_, prev) = entries.remove(i);
            proof {
                lemma_remove_at(s, i as int);
                lemma_key_index(s, i as int);
            }
            self.entries = entries;
            Some(prev)
        } else {
            proof {
                let s = self.entries@;
                if has_key(s, key@) {
                    let j = choose|j: int| 0 <= j < s.len() && #[trigger] s[j].0@ == key@;
                    lemma_text_lt_irreflexive(key@);
                }
                assert(self.view().remove(key@) =~= self.view());
            }
            None
        }
    }

    /// The `i`-th key in ascending order.
    pub fn key_at(&self, i: usize) -> (k: &String)
        requires
            i < self.key_seq().len(),
        ensures
            k@ == self.key_seq()[i as int],
    {
        &self.entries[i].0
    }

    /// The value of the `i`-th key in ascending order.
    pub fn value_at(&self, i: usize) -> (v: &V)
        requires
            i < self.key_seq().len(),
        ensures
            *v == self.value_seq()[i as int],
    {
        &self.entries[i].1
    }

    /// The keys in ascending order.
    pub fn keys(&self) -> (r: Vec<String>)
        ensures
            r.len() == self.key_seq().len(),
            forall|j: int| 0 <= j < r.len() ==> #[trigger] r@[j]@ == self.key_seq()[j],
    {
        let mut r: Vec<String> = Vec::new();
        let mut i: usize = 0;
        while i < self.entries.len()
            invariant
                i <= self.entries@.len(),
                r.len() == i,
                forall|j: int| 0 <= j < i ==> #[trigger] r@[j]@ == self.entries@[j].0@,
            decreases self.entries@.len() - i,
        {
            let k = self.entries[i].0.clone();
            r.push(k);
            i = i + 1;
        }
        r
    }
}

impl<V: Clone> Clone for TextMap<V> {
    /// A copy with the same keys; each value is `V::clone` of the value it copies.
    fn clone(&self) -> (c: Self)
        ensures
            c.key_seq() == self.key_seq(),
    {
        proof {
            use_type_invariant(self);
        }
        let mut entries: Vec<(String, V)> = Vec::new();
        let mut i: usize = 0;
        while i < self.entries.len()
            invariant
                i <= self.entries@.len(),
                entries.len() == i,
                ascending(self.entries@),
                forall|j: int| 0 <= j < i ==> #[trigger] entries@[j].0@ == self.entries@[j].0@,
            decreases self.entries@.len() - i,
        {
            let k = self.entries[i].0.clone();
            let v = self.entries[i].1.clone();
            entries.push((k, v));
            i = i + 1;
        }
        assert forall|a: int, b: int| 0 <= a < b < entries@.len() implies text_lt(
            #[trigger] entries@[a].0@,
            #[trigger] entries@[b].0@,
        ) by {
            assert(entries@[a].0@ == self.entries@[a].0@);
            assert(entries@[b].0@ == self.entries@[b].0@);
        }
        let c = TextMap { entries };
        assert(c.key_seq() =~= self.key_seq());
        c
    }
}

} // verus!
