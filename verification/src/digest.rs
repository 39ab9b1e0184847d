//! A content digest of the corpus, so a consumer can tell whether a
//! projection it holds is still current.
//!
//! The digest is taken over each project's canonical export text; the
//! combined digest is taken over the per-project digests, so it moves
//! exactly when one of them does.
use vstd::prelude::*;

use crate::text::{chars_of, decimal, decimal_chars, lines, lines_exec, string_of, trim, trim_chars};
use crate::textmap::{TextMap, lemma_ascending_same_keys, text_lt};

verus! {

/// What `xxhash_rust::xxh3::xxh3_64` returns for `bytes`.
pub uninterp spec fn xxh3_64_of(bytes: Seq<u8>) -> u64;

/// `xxhash_rust::xxh3::xxh3_64`: the 64-bit XXH3 hash of `bytes` (seed 0),
/// a function of the bytes alone.
#[verifier::external_body]
fn xxh3(bytes: &[u8]) -> (r: u64)
    ensures
        r == xxh3_64_of(bytes@),
{
    xxhash_rust::xxh3::xxh3_64(bytes)
}

/// The lowercase hex digit of `d` (below 16).
pub open spec fn hex_char(d: nat) -> char {
    if d < 10 {
        ((48 + d) as u32) as char
    } else {
        ((87 + d) as u32) as char
    }
}

/// The last `n` hex digits of `v`, most significant first.
pub open spec fn hex_digits(v: nat, n: nat) -> Seq<char>
    decreases n,
{
    if n == 0 {
        seq![]
    } else {
        hex_digits(v / 16, (n - 1) as nat).push(hex_char(v % 16))
    }
}

/// `format!("{v:016x}")`: sixteen lowercase hex digits, zero-padded.
pub open spec fn hex16(v: u64) -> Seq<char> {
    hex_digits(v as nat, 16)
}

fn hex_digits_exec(v: u64, n: usize) -> (r: Vec<char>)
    requires
        n <= 16,
    ensures
        r@ == hex_digits(v as nat, n as nat),
    decreases n,
{
    if n == 0 {
        Vec::new()
    } else {
        let mut r = hex_digits_exec(v / 16, n - 1);
        let d = v % 16;
        let c = if d < 10 {
            crate::text::char_from((48 + d) as u32)
        } else {
            crate::text::char_from((87 + d) as u32)
        };
        r.push(c);
        r
    }
}

/// A value as sixteen lowercase hex digits.
pub fn hex(value: u64) -> (r: String)
    ensures
        r@ == hex16(value),
{
    string_of(&hex_digits_exec(value, 16))
}

/// The digest of a project's export text.
pub open spec fn text_digest(export: Seq<char>) -> Seq<char> {
    hex16(xxh3_64_of(vstd::utf8::encode_utf8(export)))
}

/// How many of `ls` hold something besides whitespace.
pub open spec fn nonblank_count(ls: Seq<Seq<char>>) -> nat
    decreases ls.len(),
{
    if ls.len() == 0 {
        0
    } else {
        nonblank_count(ls.drop_last()) + if trim(ls.last()).len() > 0 {
            1nat
        } else {
            0nat
        }
    }
}

/// One project's contribution to the digest.
#[derive(Debug, Clone, PartialEq, Eq)]
pub struct ProjectDigest {
    pub project: String,
    pub digest: String,
    pub issues: usize,
}

/// The digest of a selected set of projects, plus what it was taken against.
#[derive(Debug, Clone, PartialEq, Eq)]
pub struct CorpusDigest {
    pub combined: String,
    pub projects: Vec<ProjectDigest>,
    pub issues: usize,
    pub generation: u64,
}

/// The export text of `project`, empty when it has none.
pub open spec fn export_of(exports: Map<Seq<char>, String>, project: Seq<char>) -> Seq<char> {
    if exports.contains_key(project) {
        exports[project]@
    } else {
        seq![]
    }
}

/// The project names, in order.
pub open spec fn names_of(ps: Seq<ProjectDigest>) -> Seq<Seq<char>> {
    ps.map_values(|p: ProjectDigest| p.project@)
}

/// What the combined digest is taken over: `project=digest` per line.
pub open spec fn material(ps: Seq<ProjectDigest>) -> Seq<char>
    decreases ps.len(),
{
    if ps.len() == 0 {
        seq![]
    } else {
        material(ps.drop_last()) + ps.last().project@ + "="@ + ps.last().digest@ + "\n"@
    }
}

/// The issue counts added up.
pub open spec fn issue_total(ps: Seq<ProjectDigest>) -> nat
    decreases ps.len(),
{
    if ps.len() == 0 {
        0
    } else {
        issue_total(ps.drop_last()) + ps.last().issues as nat
    }
}

/// Whether `d` is the digest of the projects named in `names`, over
/// `exports`, at `generation`: one entry per name in ascending order, each
/// with its export's digest and non-blank line count, and the combined
/// digest over those entries.
pub open spec fn describes(
    d: CorpusDigest,
    names: Set<Seq<char>>,
    exports: Map<Seq<char>, String>,
    generation: u64,
) -> bool {
    let ps = d.projects@;
    &&& forall|i: int, j: int|
        0 <= i < j < ps.len() ==> text_lt(#[trigger] ps[i].project@, #[trigger] ps[j].project@)
    &&& forall|x: Seq<char>|
        names.contains(x) <==> names_of(ps).contains(x)
    &&& forall|i: int|
        0 <= i < ps.len() ==> (#[trigger] ps[i]).digest@ == text_digest(
            export_of(exports, ps[i].project@),
        ) && ps[i].issues == nonblank_count(lines(export_of(exports, ps[i].project@)))
    &&& d.combined@ == hex16(xxh3_64_of(vstd::utf8::encode_utf8(material(ps))))
    &&& d.issues == issue_total(ps)
    &&& d.generation == generation
}

/// The non-blank lines of `text`.
fn count_nonblank(text: &str) -> (n: usize)
    ensures
        n == nonblank_count(lines(text@)),
{
    let ls = lines_exec(&chars_of(text));
    let ghost lv = ls@.map_values(|w: Vec<char>| w@);
    let mut n: usize = 0;
    let mut i: usize = 0;
    while i < ls.len()
        invariant
            i <= ls.len(),
            lv == ls@.map_values(|w: Vec<char>| w@),
            n == nonblank_count(lv.take(i as int)),
            n <= i,
        decreases ls.len() - i,
    {
        let t = trim_chars(&ls[i]);
        proof {
            assert(lv.take(i + 1).drop_last() =~= lv.take(i as int));
            assert(lv.take(i + 1).last() == ls@[i as int]@);
        }
        if t.len() > 0 {
            n = n + 1;
        }
        i = i + 1;
    }
    assert(lv.take(ls.len() as int) =~= lv);
    n
}

impl ProjectDigest {
    /// Digest one project's export text.
    pub fn of_export(project: &str, export: &str) -> (p: ProjectDigest)
        ensures
            p.project@ == project@,
            p.digest@ == text_digest(export@),
            p.issues == nonblank_count(lines(export@)),
    {
        let h = xxh3(export.as_bytes());
        ProjectDigest { project: project.to_owned(), digest: hex(h), issues: count_nonblank(export) }
    }
}

/// The issues one project's export holds: its non-blank lines.
pub open spec fn export_issues(exports: Map<Seq<char>, String>, x: Seq<char>) -> nat {
    nonblank_count(lines(export_of(exports, x)))
}

/// The issues of the projects `names` lists, added up.
pub open spec fn names_total(exports: Map<Seq<char>, String>, names: Seq<Seq<char>>) -> nat
    decreases names.len(),
{
    if names.len() == 0 {
        0
    } else {
        names_total(exports, names.drop_last()) + export_issues(exports, names.last())
    }
}

/// The issues of the projects `sel` names, each project counted once
/// however often it is named.
pub open spec fn selected_total(exports: Map<Seq<char>, String>, sel: Seq<Seq<char>>) -> nat
    decreases sel.len(),
{
    if sel.len() == 0 {
        0
    } else {
        selected_total(exports, sel.drop_last()) + if sel.drop_last().contains(sel.last()) {
            0
        } else {
            export_issues(exports, sel.last())
        }
    }
}

proof fn lemma_names_total_remove(exports: Map<Seq<char>, String>, k: Seq<Seq<char>>, j: int)
    requires
        0 <= j < k.len(),
    ensures
        names_total(exports, k) == names_total(exports, k.remove(j)) + export_issues(exports, k[j]),
    decreases k.len(),
{
    if j < k.len() - 1 {
        lemma_names_total_remove(exports, k.drop_last(), j);
        assert(k.remove(j).drop_last() =~= k.drop_last().remove(j));
        assert(k.remove(j).last() == k.last());
    } else {
        assert(k.remove(j) =~= k.drop_last());
    }
}

proof fn lemma_names_total_prefix(exports: Map<Seq<char>, String>, k: Seq<Seq<char>>, i: int)
    requires
        0 <= i <= k.len(),
    ensures
        names_total(exports, k.take(i)) <= names_total(exports, k),
    decreases k.len(),
{
    if i < k.len() {
        lemma_names_total_prefix(exports, k.drop_last(), i);
        assert(k.drop_last().take(i) =~= k.take(i));
    } else {
        assert(k.take(i) =~= k);
    }
}

/// Adding up the distinct names of a selection in any order, each once,
/// gives the selection's total.
proof fn lemma_selected_total(exports: Map<Seq<char>, String>, k: Seq<Seq<char>>, sel: Seq<Seq<char>>)
    requires
        k.no_duplicates(),
        forall|x: Seq<char>| k.contains(x) <==> sel.contains(x),
    ensures
        names_total(exports, k) == selected_total(exports, sel),
    decreases sel.len(),
{
    if sel.len() == 0 {
        if k.len() > 0 {
            assert(k.contains(k[0]));
        }
    } else {
        let s0 = sel.drop_last();
        let x = sel.last();
        assert(sel.contains(x)) by {
            assert(sel[sel.len() - 1] == x);
        }
        if s0.contains(x) {
            assert forall|y: Seq<char>| k.contains(y) <==> s0.contains(y) by {
                if sel.contains(y) && y != x {
                    let m = choose|m: int| 0 <= m < sel.len() && sel[m] == y;
                    assert(s0[m] == y);
                }
                if s0.contains(y) {
                    let m = choose|m: int| 0 <= m < s0.len() && s0[m] == y;
                    assert(sel[m] == y);
                }
            }
            lemma_selected_total(exports, k, s0);
        } else {
            let j = choose|j: int| 0 <= j < k.len() && k[j] == x;
            let k0 = k.remove(j);
            assert(k0.no_duplicates()) by {
                assert forall|a: int, b: int| 0 <= a < b < k0.len() implies k0[a] != k0[b] by {
                    let aa = if a < j { a } else { a + 1 };
                    let bb = if b < j { b } else { b + 1 };
                    assert(k0[a] == k[aa] && k0[b] == k[bb]);
                }
            }
            assert forall|y: Seq<char>| k0.contains(y) <==> s0.contains(y) by {
                if k0.contains(y) {
                    let m = choose|m: int| 0 <= m < k0.len() && k0[m] == y;
                    let mm = if m < j { m } else { m + 1 };
                    assert(k[mm] == y);
                    assert(mm != j);
                    assert(sel.contains(y));
                    let q = choose|q: int| 0 <= q < sel.len() && sel[q] == y;
                    if q == sel.len() - 1 {
                        assert(y == x);
                        assert(false);
                    }
                    assert(s0[q] == y);
                }
                if s0.contains(y) {
                    let q = choose|q: int| 0 <= q < s0.len() && s0[q] == y;
                    assert(sel[q] == y);
                    assert(y != x);
                    assert(k.contains(y));
                    let m = choose|m: int| 0 <= m < k.len() && k[m] == y;
                    assert(m != j);
                    let mm = if m < j { m } else { m - 1 };
                    assert(k0[mm] == y);
                }
            }
            lemma_selected_total(exports, k0, s0);
            lemma_names_total_remove(exports, k, j);
        }
    }
}

impl CorpusDigest {
    /// Digest the projects named in `selected` (each once, in ascending
    /// order, whatever order and repeats the selection has), over each
    /// project's export text in `exports` (a missing one counts as empty).
    pub fn from_exports(selected: &[String], exports: &TextMap<String>, generation: u64) -> (r:
        CorpusDigest)
        requires
            selected_total(exports.view(), selected@.map_values(|s: String| s@)) <= usize::MAX,
        ensures
            describes(
                r,
                selected@.map_values(|s: String| s@).to_set(),
                exports.view(),
                generation,
            ),
    {
        let mut names: TextMap<()> = TextMap::new();
        let mut i: usize = 0;
        while i < selected.len()
            invariant
                i <= selected.len(),
                names.key_seq().len() <= i,
                forall|x: Seq<char>|
                    names.view().contains_key(x) <==> selected@.take(i as int).map_values(
                        |s: String| s@,
                    ).contains(x),
            decreases selected.len() - i,
        {
            names.insert(selected[i].clone(), ());
            i = i + 1;
            proof {
                let before = selected@.take(i - 1).map_values(|s: String| s@);
                let after = selected@.take(i as int).map_values(|s: String| s@);
                assert(after =~= before.push(selected@[i - 1]@));
                assert forall|x: Seq<char>| names.view().contains_key(x) <==> after.contains(x) by {
                    if after.contains(x) && x != selected@[i - 1]@ {
                        let j = choose|j: int| 0 <= j < after.len() && after[j] == x;
                        assert(before[j] == x);
                    }
                    if before.contains(x) {
                        let j = choose|j: int| 0 <= j < before.len() && before[j] == x;
                        assert(after[j] == x);
                    }
                    if x == selected@[i - 1]@ {
                        assert(after[i - 1] == x);
                    }
                }
            }
        }
        let n = names.len();
        proof {
            let ks = names.key_seq();
            let sel = selected@.map_values(|s: String| s@);
            assert(selected@.take(selected.len() as int) =~= selected@);
            assert(ks.no_duplicates()) by {
                assert forall|a: int, b: int| 0 <= a < b < ks.len() implies ks[a] != ks[b] by {
                    crate::textmap::lemma_text_lt_irreflexive(ks[a]);
                }
            }
            assert forall|x: Seq<char>| ks.contains(x) <==> sel.contains(x) by {
                assert(names.view().contains_key(x) <==> ks.contains(x));
            }
            lemma_selected_total(exports.view(), ks, sel);
        }
        let mut projects: Vec<ProjectDigest> = Vec::new();
        let mut material_text = String::new();
        let mut total: usize = 0;
        let mut k: usize = 0;
        while k < n
            invariant
                k <= n,
                n == names.key_seq().len(),
                names.shaped(),
                n <= selected.len(),
                names_total(exports.view(), names.key_seq()) <= usize::MAX,
                projects.len() == k,
                forall|j: int|
                    0 <= j < k ==> (#[trigger] projects@[j]).project@ == names.key_seq()[j]
                        && projects@[j].digest@ == text_digest(
                        export_of(exports.view(), projects@[j].project@),
                    ) && projects@[j].issues == nonblank_count(
                        lines(export_of(exports.view(), projects@[j].project@)),
                    ),
                material_text@ == material(projects@),
                total == issue_total(projects@),
                total == names_total(exports.view(), names.key_seq().take(k as int)),
            decreases n - k,
        {
            let name = names.key_at(k);
            let p = match exports.get(name.as_str()) {
                Some(e) => ProjectDigest::of_export(name.as_str(), e.as_str()),
                None => ProjectDigest::of_export(name.as_str(), ""),
            };
            proof {
                if !exports.view().contains_key(name@) {
                    assert(""@ =~= Seq::<char>::empty()) by {
                        reveal_strlit("");
                    }
                }
                lemma_nonblank_count_le(lines(export_of(exports.view(), name@)));
            }
            material_text.push_str(p.project.as_str());
            material_text.push_str("=");
            material_text.push_str(p.digest.as_str());
            material_text.push_str("\n");
            proof {
                let ks = names.key_seq();
                assert(ks.take(k + 1).drop_last() =~= ks.take(k as int));
                assert(ks.take(k + 1).last() == ks[k as int]);
                lemma_names_total_prefix(exports.view(), ks, k + 1);
            }
            total = total + p.issues;
            let ghost before = projects@;
            projects.push(p);
            proof {
                assert(projects@.drop_last() =~= before);
            }
            k = k + 1;
        }
        let combined = hex(xxh3(material_text.as_str().as_bytes()));
        let r = CorpusDigest { combined, projects, issues: total, generation };
        proof {
            let ps = r.projects@;
            let sel = selected@.map_values(|s: String| s@);
            assert(selected@.take(selected.len() as int) =~= selected@);
            assert(names_of(ps) =~= names.key_seq());
            assert forall|x: Seq<char>| sel.to_set().contains(x) <==> names_of(ps).contains(x) by {
                if sel.contains(x) {
                    assert(names.view().contains_key(x));
                }
                if names.key_seq().contains(x) {
                    assert(names.view().contains_key(x));
                }
            }
            assert forall|a: int, b: int| 0 <= a < b < ps.len() implies text_lt(
                #[trigger] ps[a].project@,
                #[trigger] ps[b].project@,
            ) by {
                assert(ps[a].project@ == names.key_seq()[a]);
                assert(ps[b].project@ == names.key_seq()[b]);
            }
        }
        r
    }

    /// The digest recorded for `project`.
    pub fn digest_of(&self, project: &str) -> (r: Option<&str>)
        ensures
            match r {
                Some(d) => exists|i: int|
                    0 <= i < self.projects@.len() && (#[trigger] self.projects@[i]).project@
                        == project@ && self.projects@[i].digest@ == d@ && forall|j: int|
                        0 <= j < i ==> (#[trigger] self.projects@[j]).project@ != project@,
                None => forall|i: int|
                    0 <= i < self.projects@.len() ==> (#[trigger] self.projects@[i]).project@
                        != project@,
            },
    {
        let mut i: usize = 0;
        while i < self.projects.len()
            invariant
                i <= self.projects@.len(),
                forall|j: int| 0 <= j < i ==> (#[trigger] self.projects@[j]).project@ != project@,
            decreases self.projects@.len() - i,
        {
            if crate::text::str_eq(self.projects[i].project.as_str(), project) {
                return Some(self.projects[i].digest.as_str());
            }
            i = i + 1;
        }
        None
    }

    /// The digested project names, in order.
    pub fn project_names(&self) -> (r: Vec<String>)
        ensures
            r.len() == self.projects@.len(),
            forall|i: int| 0 <= i < r.len() ==> #[trigger] r@[i]@ == self.projects@[i].project@,
    {
        let mut r: Vec<String> = Vec::new();
        let mut i: usize = 0;
        while i < self.projects.len()
            invariant
                i <= self.projects@.len(),
                r.len() == i,
                forall|j: int| 0 <= j < i ==> #[trigger] r@[j]@ == self.projects@[j].project@,
            decreases self.projects@.len() - i,
        {
            r.push(self.projects[i].project.clone());
            i = i + 1;
        }
        r
    }
}

proof fn lemma_nonblank_count_le(ls: Seq<Seq<char>>)
    ensures
        nonblank_count(ls) <= ls.len(),
    decreases ls.len(),
{
    if ls.len() > 0 {
        lemma_nonblank_count_le(ls.drop_last());
    }
}

/// `s` padded with spaces on the left to `width` characters, as
/// `format!("{:>width$}")` pads.
pub open spec fn pad_left(s: Seq<char>, width: nat) -> Seq<char> {
    if s.len() >= width {
        s
    } else {
        Seq::new((width - s.len()) as nat, |_i: int| ' ') + s
    }
}

/// The lines of the rendered digest for `ps`.
pub open spec fn project_lines(ps: Seq<ProjectDigest>) -> Seq<char>
    decreases ps.len(),
{
    if ps.len() == 0 {
        seq![]
    } else {
        project_lines(ps.drop_last()) + ps.last().digest@ + "  "@ + pad_left(
            decimal(ps.last().issues as nat),
            6,
        ) + "  "@ + ps.last().project@ + "\n"@
    }
}

/// The rendered digest: a summary line, then one line per project.
pub open spec fn digest_text(d: CorpusDigest) -> Seq<char> {
    "combined="@ + d.combined@ + " issues="@ + decimal(d.issues as nat) + " generation="@
        + decimal(d.generation as nat) + " projects="@ + decimal(d.projects@.len()) + "\n"@
        + project_lines(d.projects@)
}

fn push_decimal(out: &mut String, n: u64)
    ensures
        final(out)@ == old(out)@ + decimal(n as nat),
{
    let d = string_of(&decimal_chars(n));
    out.push_str(d.as_str());
}

impl CorpusDigest {
    /// A summary line, then one line per project.
    #[verifier::rlimit(40)]
    pub fn render(&self) -> (r: String)
        ensures
            r@ == digest_text(*self),
    {
        let mut out = String::new();
        out.push_str("combined=");
        out.push_str(self.combined.as_str());
        out.push_str(" issues=");
        push_decimal(&mut out, self.issues as u64);
        out.push_str(" generation=");
        push_decimal(&mut out, self.generation);
        out.push_str(" projects=");
        push_decimal(&mut out, self.projects.len() as u64);
        out.push_str("\n");
        let ghost head = out@;
        let mut i: usize = 0;
        while i < self.projects.len()
            invariant
                i <= self.projects@.len(),
                out@ == head + project_lines(self.projects@.take(i as int)),
            decreases self.projects@.len() - i,
        {
            let p = &self.projects[i];
            out.push_str(p.digest.as_str());
            out.push_str("  ");
            let digits = decimal_chars(p.issues as u64);
            let mut k = digits.len();
            while k < 6
                invariant
                    digits.len() <= k,
                    k <= 6 || k == digits.len(),
                    out@ == head + project_lines(self.projects@.take(i as int)) + p.digest@ + "  "@
                        + Seq::new((k - digits.len()) as nat, |_i: int| ' '),
                decreases 6 - k,
            {
                out.push(' ');
                k = k + 1;
                assert(Seq::new((k - digits.len()) as nat, |_i: int| ' ') =~= Seq::new(
                    (k - 1 - digits.len()) as nat,
                    |_i: int| ' ',
                ).push(' '));
            }
            out.push_str(string_of(&digits).as_str());
            out.push_str("  ");
            out.push_str(p.project.as_str());
            out.push_str("\n");
            i = i + 1;
            proof {
                assert(self.projects@.take(i as int).drop_last() =~= self.projects@.take(i - 1));
                let ks = if digits.len() < 6 { (6 - digits.len()) as nat } else { 0nat };
                assert(pad_left(digits@, 6) =~= Seq::new(ks, |_i: int| ' ') + digits@);
                assert(out@ =~= head + project_lines(self.projects@.take(i as int)));
            }
        }
        assert(self.projects@.take(i as int) =~= self.projects@);
        out
    }
}

/// The digest of a selection depends on which projects are selected, not
/// on their order or repeats: two digests of the same set of names over the
/// same exports and generation agree on every field.
pub proof fn lemma_selection_order_irrelevant(
    d1: CorpusDigest,
    d2: CorpusDigest,
    names: Set<Seq<char>>,
    exports: Map<Seq<char>, String>,
    generation: u64,
)
    requires
        describes(d1, names, exports, generation),
        describes(d2, names, exports, generation),
    ensures
        d1.combined@ == d2.combined@,
        d1.issues == d2.issues,
        d1.generation == d2.generation,
        d1.projects@.len() == d2.projects@.len(),
        forall|i: int|
            0 <= i < d1.projects@.len() ==> (#[trigger] d1.projects@[i]).project@
                == d2.projects@[i].project@ && d1.projects@[i].digest@ == d2.projects@[i].digest@
                && d1.projects@[i].issues == d2.projects@[i].issues,
{
    let a = names_of(d1.projects@);
    let b = names_of(d2.projects@);
    assert forall|i: int, j: int| 0 <= i < j < a.len() implies text_lt(
        #[trigger] a[i],
        #[trigger] a[j],
    ) by {
        assert(a[i] == d1.projects@[i].project@);
        assert(a[j] == d1.projects@[j].project@);
    }
    assert forall|i: int, j: int| 0 <= i < j < b.len() implies text_lt(
        #[trigger] b[i],
        #[trigger] b[j],
    ) by {
        assert(b[i] == d2.projects@[i].project@);
        assert(b[j] == d2.projects@[j].project@);
    }
    assert forall|x: Seq<char>| a.contains(x) <==> b.contains(x) by {
        assert(names.contains(x) <==> names_of(d1.projects@).contains(x));
        assert(names.contains(x) <==> names_of(d2.projects@).contains(x));
    }
    lemma_ascending_same_keys(a, b);
    assert forall|i: int| 0 <= i < d1.projects@.len() implies (#[trigger] d1.projects@[i]).project@
        == d2.projects@[i].project@ by {
        assert(a[i] == b[i]);
    }
    lemma_same_parts(d1.projects@, d2.projects@, exports);
}

proof fn lemma_same_parts(p1: Seq<ProjectDigest>, p2: Seq<ProjectDigest>, exports: Map<Seq<char>, String>)
    requires
        p1.len() == p2.len(),
        forall|i: int| 0 <= i < p1.len() ==> (#[trigger] p1[i]).project@ == p2[i].project@,
        forall|i: int|
            0 <= i < p1.len() ==> (#[trigger] p1[i]).digest@ == text_digest(
                export_of(exports, p1[i].project@),
            ) && p1[i].issues == nonblank_count(lines(export_of(exports, p1[i].project@))),
        forall|i: int|
            0 <= i < p2.len() ==> (#[trigger] p2[i]).digest@ == text_digest(
                export_of(exports, p2[i].project@),
            ) && p2[i].issues == nonblank_count(lines(export_of(exports, p2[i].project@))),
    ensures
        material(p1) == material(p2),
        issue_total(p1) == issue_total(p2),
        forall|i: int|
            0 <= i < p1.len() ==> (#[trigger] p1[i]).digest@ == p2[i].digest@ && p1[i].issues
                == p2[i].issues,
    decreases p1.len(),
{
    if p1.len() > 0 {
        let q1 = p1.drop_last();
        let q2 = p2.drop_last();
        assert forall|i: int| 0 <= i < q1.len() implies (#[trigger] q1[i]).project@ == q2[i].project@ by {
            assert(q1[i] == p1[i] && q2[i] == p2[i]);
        }
        assert forall|i: int| 0 <= i < q1.len() implies (#[trigger] q1[i]).digest@ == text_digest(
            export_of(exports, q1[i].project@),
        ) && q1[i].issues == nonblank_count(lines(export_of(exports, q1[i].project@))) by {
            assert(q1[i] == p1[i]);
        }
        assert forall|i: int| 0 <= i < q2.len() implies (#[trigger] q2[i]).digest@ == text_digest(
            export_of(exports, q2[i].project@),
        ) && q2[i].issues == nonblank_count(lines(export_of(exports, q2[i].project@))) by {
            assert(q2[i] == p2[i]);
        }
        lemma_same_parts(q1, q2, exports);
        let l = p1.len() - 1;
        assert(p1[l].project@ == p2[l].project@);
    }
}

} // verus!
