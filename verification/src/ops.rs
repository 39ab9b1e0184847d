//! The text side of the mutating verbs: folding an inbox file into issues,
//! and the notes, appended prose and new headings they write.
use vstd::prelude::*;

use crate::error::TrackerError;
use crate::org::join;
use crate::text::{
    chars_of, ends_with, lead_ws, find_from, find_seq, lines, lines_exec, slice_of, starts_with,
    starts_with_exec, string_of, trim, trim_chars, trim_end, trim_start, trim_start_chars, words,
    words_exec,
};

verus! {

/// One `* TODO` heading of an inbox file: the line it stands on, its title,
/// the text under it up to the next heading, and whether it already carries
/// a `:VISSUE_ID:` line.
#[derive(Debug, Clone, PartialEq, Eq)]
pub struct InboxEntry {
    pub line: usize,
    pub title: String,
    pub body: String,
    pub stamped: bool,
}

/// An inbox entry as values.
pub open spec fn entry_view(e: InboxEntry) -> (int, Seq<char>, Seq<char>, bool) {
    (e.line as int, e.title@, e.body@, e.stamped)
}

/// The first line at or after `j` that opens a top-level heading, or the
/// number of lines.
pub open spec fn block_end(ls: Seq<Seq<char>>, j: int) -> int
    decreases ls.len() - j,
{
    if j >= ls.len() {
        ls.len() as int
    } else if starts_with(ls[j], "* "@) {
        j
    } else {
        block_end(ls, j + 1)
    }
}

/// Whether a line records the id an entry was folded into.
pub open spec fn is_stamp_line(l: Seq<char>) -> bool {
    starts_with(trim_start(l), ":VISSUE_ID:"@)
}

/// Whether one of the lines `a..b` is a stamp line.
pub open spec fn has_stamp(ls: Seq<Seq<char>>, a: int, b: int) -> bool {
    exists|k: int| a <= k < b && is_stamp_line(#[trigger] ls[k])
}

/// The entries of the lines from `i` on, each `(line, title, body, stamped)`:
/// a line starting `* TODO ` opens one, whose block runs to the next line
/// starting `* `; the scan then resumes there.
pub open spec fn inbox_entries(ls: Seq<Seq<char>>, i: int) -> Seq<(int, Seq<char>, Seq<char>, bool)>
    decreases ls.len() - i,
{
    if i < 0 || i >= ls.len() {
        seq![]
    } else if starts_with(ls[i], "* TODO "@) {
        let end = block_end(ls, i + 1);
        seq![
            (
                i,
                trim(ls[i].subrange(7, ls[i].len() as int)),
                trim(join(ls.subrange(i + 1, end), "\n"@)),
                has_stamp(ls, i + 1, end),
            ),
        ] + inbox_entries(
            ls,
            if i < end <= ls.len() {
                end
            } else {
                i + 1
            },
        )
    } else {
        inbox_entries(ls, i + 1)
    }
}

/// The entries of an inbox file's text.
pub open spec fn inbox_of(text: Seq<char>) -> Seq<(int, Seq<char>, Seq<char>, bool)> {
    inbox_entries(lines(text), 0)
}

proof fn lemma_block_end(ls: Seq<Seq<char>>, j: int)
    requires
        0 <= j <= ls.len(),
    ensures
        j <= block_end(ls, j) <= ls.len(),
        forall|k: int| j <= k < block_end(ls, j) ==> !starts_with(#[trigger] ls[k], "* "@),
    decreases ls.len() - j,
{
    if j < ls.len() && !starts_with(ls[j], "* "@) {
        lemma_block_end(ls, j + 1);
    }
}

fn join_lines(ls: &Vec<Vec<char>>, a: usize, b: usize) -> (r: Vec<char>)
    requires
        a <= b <= ls.len(),
    ensures
        r@ == join(ls@.map_values(|w: Vec<char>| w@).subrange(a as int, b as int), "\n"@),
{
    let ghost lv = ls@.map_values(|w: Vec<char>| w@);
    let mut r: Vec<char> = Vec::new();
    let mut k = a;
    while k < b
        invariant
            a <= k <= b <= ls.len(),
            lv == ls@.map_values(|w: Vec<char>| w@),
            r@ == join(lv.subrange(a as int, k as int), "\n"@),
        decreases b - k,
    {
        proof {
            assert(lv.subrange(a as int, k + 1).drop_last() =~= lv.subrange(a as int, k as int));
            assert(lv.subrange(a as int, k + 1).last() == ls@[k as int]@);
            reveal_strlit("\n");
        }
        if k > a {
            r.push('\n');
        }
        crate::text::push_chars(&mut r, &ls[k]);
        proof {
            if k == a {
                assert(lv.subrange(a as int, k + 1) =~= seq![ls@[k as int]@]);
                assert(lv.subrange(a as int, k as int) =~= Seq::<Seq<char>>::empty());
            }
        }
        k = k + 1;
    }
    r
}

/// Read the `* TODO` entries of an inbox file's text, in file order.
pub fn scan_inbox(text: &str) -> (r: Vec<InboxEntry>)
    ensures
        r@.map_values(|e: InboxEntry| entry_view(e)) == inbox_of(text@),
{
    let ls = lines_exec(&chars_of(text));
    let ghost lv = ls@.map_values(|w: Vec<char>| w@);
    let todo = chars_of("* TODO ");
    let top = chars_of("* ");
    let stamp = chars_of(":VISSUE_ID:");
    proof {
        reveal_strlit("* TODO ");
        reveal_strlit("* ");
    }
    let mut out: Vec<InboxEntry> = Vec::new();
    let mut i: usize = 0;
    while i < ls.len()
        invariant
            i <= ls.len(),
            lv == ls@.map_values(|w: Vec<char>| w@),
            lv == lines(text@),
            todo@ == "* TODO "@,
            top@ == "* "@,
            stamp@ == ":VISSUE_ID:"@,
            out@.map_values(|e: InboxEntry| entry_view(e)) + inbox_entries(lv, i as int)
                == inbox_entries(lv, 0),
        decreases ls.len() - i,
    {
        let ghost before = out@.map_values(|e: InboxEntry| entry_view(e));
        proof {
            reveal_strlit("* TODO ");
        }
        if starts_with_exec(&ls[i], &todo) {
            let start = i + 1;
            let mut end = start;
            proof {
                lemma_block_end(lv, start as int);
            }
            while end < ls.len() && !starts_with_exec(&ls[end], &top)
                invariant
                    start <= end <= ls.len(),
                    lv == ls@.map_values(|w: Vec<char>| w@),
                    top@ == "* "@,
                    block_end(lv, end as int) == block_end(lv, start as int),
                decreases ls.len() - end,
            {
                end = end + 1;
            }
            let mut stamped = false;
            let mut k = start;
            while k < end
                invariant
                    start <= k <= end <= ls.len(),
                    lv == ls@.map_values(|w: Vec<char>| w@),
                    stamp@ == ":VISSUE_ID:"@,
                    stamped == has_stamp(lv, start as int, k as int),
                decreases end - k,
            {
                if !stamped {
                    let t = trim_start_chars(&ls[k]);
                    if starts_with_exec(&t, &stamp) {
                        stamped = true;
                        assert(is_stamp_line(lv[k as int]));
                    }
                }
                k = k + 1;
            }
            let line = &ls[i];
            let title = trim_chars(&slice_of(line, 7, line.len()));
            let body = trim_chars(&join_lines(&ls, start, end));
            out.push(InboxEntry { line: i, title: string_of(&title), body: string_of(&body), stamped });
            proof {
                assert(out@.map_values(|e: InboxEntry| entry_view(e)) =~= before + seq![
                    (
                        i as int,
                        trim(lv[i as int].subrange(7, lv[i as int].len() as int)),
                        trim(join(lv.subrange(start as int, end as int), "\n"@)),
                        has_stamp(lv, start as int, end as int),
                    ),
                ]);
            }
            i = end;
        } else {
            i = i + 1;
        }
    }
    out
}

/// Which entries a fold creates issues for, in the order it creates them:
/// the unstamped ones, from the bottom of the file up.
pub open spec fn fold_order(es: Seq<InboxEntry>) -> Seq<int>
    decreases es.len(),
{
    if es.len() == 0 {
        seq![]
    } else {
        (if es.last().stamped {
            seq![]
        } else {
            seq![es.len() - 1]
        }) + fold_order(es.drop_last())
    }
}

/// The indexes of the entries a fold creates issues for, bottom first, so
/// that stamping one never moves the line of another still to come.
pub fn pending_entries(entries: &[InboxEntry]) -> (r: Vec<usize>)
    ensures
        r@.map_values(|i: usize| i as int) == fold_order(entries@),
{
    let mut r: Vec<usize> = Vec::new();
    let mut i = entries.len();
    assert(entries@.take(entries.len() as int) =~= entries@);
    assert(r@.map_values(|k: usize| k as int) =~= Seq::<int>::empty());
    while i > 0
        invariant
            i <= entries.len(),
            r@.map_values(|k: usize| k as int) + fold_order(entries@.take(i as int)) == fold_order(entries@),
        decreases i,
    {
        proof {
            assert(entries@.take(i as int).drop_last() =~= entries@.take(i - 1));
            assert(entries@.take(i as int).last() == entries@[i - 1]);
        }
        let ghost before = r@.map_values(|k: usize| k as int);
        if !entries[i - 1].stamped {
            r.push(i - 1);
            assert(r@.map_values(|k: usize| k as int) =~= before + seq![i - 1]);
        }
        i = i - 1;
    }
    assert(entries@.take(0) =~= Seq::<InboxEntry>::empty());
    assert(r@.map_values(|k: usize| k as int) =~= r@.map_values(|k: usize| k as int) + Seq::<int>::empty());
    r
}

/// The title and id recorded for line `k`, from the first stamp naming it.
pub open spec fn stamp_at(stamps: Seq<(usize, String, String)>, k: int) -> Option<(Seq<char>, Seq<char>)>
    decreases stamps.len(),
{
    if stamps.len() == 0 {
        None
    } else if stamps[0].0 == k {
        Some((stamps[0].1@, stamps[0].2@))
    } else {
        stamp_at(stamps.drop_first(), k)
    }
}

/// The first `n` lines once stamped: a folded entry's heading turns DONE and
/// gains its id on the line below.
pub open spec fn restamped(ls: Seq<Seq<char>>, stamps: Seq<(usize, String, String)>, n: int) -> Seq<Seq<char>>
    decreases n,
{
    if n <= 0 {
        seq![]
    } else {
        restamped(ls, stamps, n - 1) + match stamp_at(stamps, n - 1) {
            Some((title, id)) => seq!["* DONE "@ + title, ":VISSUE_ID: "@ + id],
            None => seq![ls[n - 1]],
        }
    }
}

/// The inbox text after stamping, keeping a final newline if it had one.
pub open spec fn stamped_text(text: Seq<char>, stamps: Seq<(usize, String, String)>) -> Seq<char> {
    let ls = lines(text);
    join(restamped(ls, stamps, ls.len() as int), "\n"@) + if ends_with(text, "\n"@) {
        "\n"@
    } else {
        seq![]
    }
}

fn find_stamp(stamps: &[(usize, String, String)], k: usize) -> (r: Option<usize>)
    ensures
        match stamp_at(stamps@, k as int) {
            Some(v) => r matches Some(j) && j < stamps.len() && v == (stamps@[j as int].1@, stamps@[j as int].2@),
            None => r is None,
        },
{
    let mut j: usize = 0;
    assert(stamps@.skip(0) =~= stamps@);
    while j < stamps.len()
        invariant
            j <= stamps.len(),
            stamp_at(stamps@.skip(j as int), k as int) == stamp_at(stamps@, k as int),
        decreases stamps.len() - j,
    {
        assert(stamps@.skip(j as int)[0] == stamps@[j as int]);
        if stamps[j].0 == k {
            return Some(j);
        }
        assert(stamps@.skip(j as int).drop_first() =~= stamps@.skip(j + 1));
        j = j + 1;
    }
    None
}

/// Rewrite an inbox's text for the entries folded so far, each given as
/// `(line, title, id)`.
pub fn stamp_inbox(text: &str, stamps: &[(usize, String, String)]) -> (r: String)
    ensures
        r@ == stamped_text(text@, stamps@),
{
    let cs = chars_of(text);
    let ls = lines_exec(&cs);
    let ghost lv = ls@.map_values(|w: Vec<char>| w@);
    let mut out: Vec<Vec<char>> = Vec::new();
    let mut k: usize = 0;
    while k < ls.len()
        invariant
            k <= ls.len(),
            lv == ls@.map_values(|w: Vec<char>| w@),
            lv == lines(text@),
            out@.map_values(|w: Vec<char>| w@) == restamped(lv, stamps@, k as int),
        decreases ls.len() - k,
    {
        let ghost before = out@.map_values(|w: Vec<char>| w@);
        match find_stamp(stamps, k) {
            Some(j) => {
                let mut done = chars_of("* DONE ");
                crate::text::push_str_chars(&mut done, stamps[j].1.as_str());
                let mut id = chars_of(":VISSUE_ID: ");
                crate::text::push_str_chars(&mut id, stamps[j].2.as_str());
                out.push(done);
                out.push(id);
            },
            None => {
                out.push(ls[k].clone());
            },
        }
        assert(out@.map_values(|w: Vec<char>| w@) =~= restamped(lv, stamps@, k + 1));
        k = k + 1;
    }
    let mut joined = join_lines(&out, 0, out.len());
    assert(out@.map_values(|w: Vec<char>| w@).subrange(0, out.len() as int) =~= out@.map_values(
        |w: Vec<char>| w@,
    ));
    let nl = chars_of("\n");
    if crate::text::ends_with_exec(&cs, &nl) {
        joined.push('\n');
        proof {
            reveal_strlit("\n");
        }
    }
    string_of(&joined)
}

/// What a fold reports, given the ids it created in file order.
pub open spec fn fold_report(created: Seq<Seq<char>>) -> Seq<char> {
    if created.len() == 0 {
        "folded 0 (nothing unstamped)\n"@
    } else {
        "folded "@ + crate::text::decimal(created.len()) + ": "@ + join(created, " "@) + "\n"@
    }
}

/// The line a fold prints once every entry it tried was created.
pub fn fold_summary(created: &Vec<String>) -> (r: String)
    ensures
        r@ == fold_report(created@.map_values(|x: String| x@)),
{
    if created.len() == 0 {
        return "folded 0 (nothing unstamped)\n".to_string();
    }
    let mut out = "folded ".to_string();
    out.push_str(string_of(&crate::text::decimal_chars(created.len() as u64)).as_str());
    out.push_str(": ");
    crate::report::push_joined(&mut out, created, " ");
    out.push_str("\n");
    out
}

/// Whether `st` stamps, in turn, the entries of `es` that `order` took,
/// each with the id its issue was created under.
pub open spec fn stamps_for(
    st: Seq<(usize, String, String)>,
    es: Seq<InboxEntry>,
    order: Seq<usize>,
    ids: Seq<String>,
) -> bool {
    &&& st.len() == ids.len()
    &&& forall|j: int|
        0 <= j < st.len() ==> {
            &&& (#[trigger] st[j]).0 == es[order[j] as int].line
            &&& st[j].1@ == es[order[j] as int].title@
            &&& st[j].2@ == ids[j]@
        }
}

/// Ids made bottom up, as a fold reports them: in file order.
pub open spec fn file_order(ids: Seq<Seq<char>>) -> Seq<Seq<char>> {
    Seq::new(ids.len(), |i: int| ids[ids.len() - 1 - i])
}

/// What a fold writes and says once it has created an issue for each of
/// the first entries `order` lists (bottom up, indices into `entries`),
/// under `ids`, and then either went through them all or stopped on
/// `failure`. The inbox comes back stamped for exactly the issues created,
/// to be written whenever there is one, failure or not, so a later fold
/// does not create them again.
pub fn fold_finish(
    text: &str,
    entries: &[InboxEntry],
    order: &[usize],
    ids: &[String],
    failure: Option<&str>,
) -> (r: (Option<String>, Result<String, String>))
    requires
        ids.len() <= order.len(),
        forall|j: int| 0 <= j < order.len() ==> #[trigger] order[j] < entries.len(),
    ensures
        r.0 is Some <==> ids.len() > 0,
        r.0 matches Some(t) ==> exists|st: Seq<(usize, String, String)>|
            stamps_for(st, entries@, order@, ids@) && t@ == stamped_text(text@, st),
        match failure {
            Some(f) => r.1 matches Err(m) && m@ == "folded "@ + crate::text::decimal(ids.len() as nat)
                + " before failing: "@ + join(file_order(ids@.map_values(|x: String| x@)), " "@) + ": "@ + f@,
            None => r.1 matches Ok(m) && m@ == fold_report(file_order(ids@.map_values(|x: String| x@))),
        },
{
    let mut st: Vec<(usize, String, String)> = Vec::new();
    let mut j: usize = 0;
    while j < ids.len()
        invariant
            j <= ids.len(),
            ids.len() <= order.len(),
            forall|k: int| 0 <= k < order.len() ==> #[trigger] order[k] < entries.len(),
            st@.len() == j,
            forall|k: int|
                0 <= k < j ==> {
                    &&& (#[trigger] st@[k]).0 == entries@[order@[k] as int].line
                    &&& st@[k].1@ == entries@[order@[k] as int].title@
                    &&& st@[k].2@ == ids@[k]@
                },
        decreases ids.len() - j,
    {
        let e = &entries[order[j]];
        st.push((e.line, e.title.clone(), ids[j].clone()));
        j = j + 1;
    }
    assert(stamps_for(st@, entries@, order@, ids@));
    let write = if st.len() > 0 {
        Some(stamp_inbox(text, &st))
    } else {
        None
    };
    let ghost iv = ids@.map_values(|x: String| x@);
    let mut created: Vec<String> = Vec::new();
    let mut i: usize = 0;
    while i < ids.len()
        invariant
            i <= ids.len(),
            iv == ids@.map_values(|x: String| x@),
            created@.map_values(|x: String| x@) == file_order(iv).take(i as int),
        decreases ids.len() - i,
    {
        let ghost before = created@.map_values(|x: String| x@);
        let x = ids[ids.len() - 1 - i].clone();
        assert(x@ == iv[ids.len() - 1 - i]);
        created.push(x);
        assert(created@.map_values(|x: String| x@) =~= before.push(x@));
        i = i + 1;
        assert(file_order(iv).take(i as int) =~= file_order(iv).take(i - 1).push(iv[ids.len() - i]));
        assert(created@.map_values(|x: String| x@) =~= file_order(iv).take(i as int));
    }
    assert(file_order(iv).take(ids.len() as int) =~= file_order(iv));
    let report = match failure {
        Some(f) => {
            let mut msg = "folded ".to_string();
            msg.push_str(string_of(&crate::text::decimal_chars(ids.len() as u64)).as_str());
            msg.push_str(" before failing: ");
            crate::report::push_joined(&mut msg, &created, " ");
            msg.push_str(": ");
            msg.push_str(f);
            Err(msg)
        },
        None => Ok(fold_summary(&created)),
    };
    (write, report)
}

/// What moving issue `id` from project `from` to project `to` reports: a
/// move within one project does nothing.
pub fn refile_report(id: &str, from: &str, to: &str) -> (r: String)
    ensures
        r@ == if from@ == to@ {
            id@ + " already in "@ + to@ + "; nothing to do\n"@
        } else {
            id@ + ": "@ + from@ + " -> "@ + to@ + "\n"@
        },
{
    let mut out = String::new();
    out.push_str(id);
    if crate::text::str_eq(from, to) {
        out.push_str(" already in ");
        out.push_str(to);
        out.push_str("; nothing to do\n");
    } else {
        out.push_str(": ");
        out.push_str(from);
        out.push_str(" -> ");
        out.push_str(to);
        out.push_str("\n");
    }
    out
}

/// A note as the logbook keeps it: whitespace runs folded to one space, and
/// double quotes turned single so the rendered `- Note: "..."` line reads
/// back.
pub open spec fn note_text(text: Seq<char>) -> Seq<char> {
    join(words(text), " "@).map_values(|c: char| if c == '"' { '\'' } else { c })
}

/// Fold a note's text to the one line the logbook keeps.
pub fn fold_note(text: &str) -> (r: String)
    ensures
        r@ == note_text(text@),
{
    let ws = words_exec(&chars_of(text));
    let ghost wv = ws@.map_values(|w: Vec<char>| w@);
    let joined = join_lines_with(&ws, ' ');
    let mut out: Vec<char> = Vec::new();
    let mut i: usize = 0;
    while i < joined.len()
        invariant
            i <= joined.len(),
            out@ == joined@.take(i as int).map_values(|c: char| if c == '"' { '\'' } else { c }),
        decreases joined.len() - i,
    {
        let c = joined[i];
        out.push(if c == '"' { '\'' } else { c });
        assert(joined@.take(i + 1) =~= joined@.take(i as int).push(c));
        i = i + 1;
        assert(out@ =~= joined@.take(i as int).map_values(|c: char| if c == '"' { '\'' } else { c }));
    }
    assert(joined@.take(joined.len() as int) =~= joined@);
    proof {
        reveal_strlit(" ");
        assert(" "@ =~= seq![' ']);
    }
    string_of(&out)
}

fn join_lines_with(ls: &Vec<Vec<char>>, sep: char) -> (r: Vec<char>)
    ensures
        r@ == join(ls@.map_values(|w: Vec<char>| w@), seq![sep]),
{
    let ghost lv = ls@.map_values(|w: Vec<char>| w@);
    let mut r: Vec<char> = Vec::new();
    let mut k: usize = 0;
    while k < ls.len()
        invariant
            k <= ls.len(),
            lv == ls@.map_values(|w: Vec<char>| w@),
            r@ == join(lv.take(k as int), seq![sep]),
        decreases ls.len() - k,
    {
        proof {
            assert(lv.take(k + 1).drop_last() =~= lv.take(k as int));
            assert(lv.take(k + 1).last() == ls@[k as int]@);
        }
        if k > 0 {
            r.push(sep);
        }
        crate::text::push_chars(&mut r, &ls[k]);
        proof {
            if k == 0 {
                assert(lv.take(1) =~= seq![ls@[0]@]);
                assert(lv.take(0) =~= Seq::<Seq<char>>::empty());
            }
        }
        k = k + 1;
    }
    assert(lv.take(ls.len() as int) =~= lv);
    r
}

/// A body with prose appended under a stamp line: an existing body loses its
/// trailing whitespace and gains a blank line; an all-blank one is replaced.
pub open spec fn appended_body(body: Seq<char>, stamp: Seq<char>, text: Seq<char>) -> Seq<char> {
    (if trim(body).len() > 0 {
        trim_end(body) + "\n\n"@
    } else {
        seq![]
    }) + stamp + "\n"@ + trim_end(text) + "\n"@
}

/// Append `text` under `stamp` (the date and who wrote it) to `body`; `None`
/// when the text is blank, which is not appended.
pub fn append_prose(body: &str, stamp: &str, text: &str) -> (r: Option<String>)
    ensures
        trim(text@).len() == 0 ==> r is None,
        trim(text@).len() > 0 ==> (r matches Some(b) && b@ == appended_body(body@, stamp@, text@)),
{
    let tc = chars_of(text);
    if trim_chars(&tc).len() == 0 {
        return None;
    }
    let bc = chars_of(body);
    let mut out: Vec<char> = Vec::new();
    if trim_chars(&bc).len() > 0 {
        out = crate::text::trim_end_chars(&bc);
        crate::text::push_str_chars(&mut out, "\n\n");
    }
    crate::text::push_str_chars(&mut out, stamp);
    crate::text::push_str_chars(&mut out, "\n");
    let t = crate::text::trim_end_chars(&tc);
    crate::text::push_chars(&mut out, &t);
    crate::text::push_str_chars(&mut out, "\n");
    Some(string_of(&out))
}

/// The target of one `[[...]]` link's inside: the part before `][`, trimmed.
pub open spec fn link_target(raw: Seq<char>) -> Seq<char> {
    trim(
        match find_from(raw, "]["@, 0) {
            Some(k) => if 0 <= k <= raw.len() {
                raw.subrange(0, k)
            } else {
                raw
            },
            None => raw,
        },
    )
}

/// The first `[[id:X]]` (or `[[id:X][label]]`) in `rest` whose id is among
/// `known`; scanning stops at a `[[` with no `]]` after it.
pub open spec fn first_link(rest: Seq<char>, known: Seq<Seq<char>>) -> Option<Seq<char>>
    decreases rest.len(),
{
    match find_from(rest, "[["@, 0) {
        None => None,
        Some(start) => if 0 <= start && start + 2 <= rest.len() {
            let after = rest.subrange(start + 2, rest.len() as int);
            match find_from(after, "]]"@, 0) {
                None => None,
                Some(end) => if 0 <= end && end + 2 <= after.len() {
                    let target = link_target(after.subrange(0, end));
                    let id = trim(target.subrange(3, target.len() as int));
                    if starts_with(target, "id:"@) && known.contains(id) {
                        Some(id)
                    } else {
                        first_link(after.subrange(end + 2, after.len() as int), known)
                    }
                } else {
                    None
                },
            }
        } else {
            None
        },
    }
}

fn contains_chars(known: &[String], x: &[char]) -> (r: bool)
    ensures
        r == known@.map_values(|k: String| k@).contains(x@),
{
    let mut i: usize = 0;
    while i < known.len()
        invariant
            i <= known.len(),
            forall|j: int| 0 <= j < i ==> #[trigger] known@[j]@ != x@,
        decreases known.len() - i,
    {
        let kc = chars_of(known[i].as_str());
        if crate::text::chars_eq(&kc, x) {
            assert(known@.map_values(|k: String| k@)[i as int] == x@);
            return true;
        }
        i = i + 1;
    }
    proof {
        let kv = known@.map_values(|k: String| k@);
        if kv.contains(x@) {
            let j = choose|j: int| 0 <= j < kv.len() && kv[j] == x@;
            assert(known@[j]@ == x@);
        }
    }
    false
}

/// The first `[[id:X]]` link in `body` whose id is in `known`, which a new
/// issue records as where it was discovered.
pub fn first_existing_id_link(body: &str, known: &[String]) -> (r: Option<String>)
    ensures
        match first_link(body@, known@.map_values(|k: String| k@)) {
            Some(id) => r matches Some(s) && s@ == id,
            None => r is None,
        },
{
    let ghost kv = known@.map_values(|k: String| k@);
    let open = chars_of("[[");
    let close = chars_of("]]");
    let sep = chars_of("][");
    let idp = chars_of("id:");
    let mut rest = chars_of(body);
    proof {
        reveal_strlit("id:");
    }
    loop
        invariant
            open@ == "[["@,
            close@ == "]]"@,
            sep@ == "]["@,
            idp@ == "id:"@,
            idp@.len() == 3,
            kv == known@.map_values(|k: String| k@),
            first_link(rest@, kv) == first_link(body@, kv),
        decreases rest.len(),
    {
        proof {
            crate::text::lemma_find_from(rest@, "[["@, 0);
            reveal_strlit("[[");
        }
        let start = match find_seq(&rest, &open, 0) {
            Some(s) => s,
            None => return None,
        };
        let after = slice_of(&rest, start + 2, rest.len());
        proof {
            crate::text::lemma_find_from(after@, "]]"@, 0);
            reveal_strlit("]]");
        }
        let end = match find_seq(&after, &close, 0) {
            Some(e) => e,
            None => return None,
        };
        let raw = slice_of(&after, 0, end);
        proof {
            crate::text::lemma_find_from(raw@, "]["@, 0);
        }
        let cut = match find_seq(&raw, &sep, 0) {
            Some(k) => slice_of(&raw, 0, k),
            None => raw,
        };
        let target = trim_chars(&cut);
        if starts_with_exec(&target, &idp) {
            let id = trim_chars(&slice_of(&target, 3, target.len()));
            if contains_chars(known, &id) {
                return Some(string_of(&id));
            }
        }
        rest = slice_of(&after, end + 2, after.len());
    }
}

/// Whether every character of `t` may stand in an Org tag.
pub open spec fn org_tag(t: Seq<char>) -> bool {
    forall|i: int| 0 <= i < t.len() ==> crate::org::tag_char(#[trigger] t[i])
}

/// Tags sorted in the order given: those Org can hold go on the heading, the
/// rest stay in the property; each list keeps the first of any repeats.
pub open spec fn sorted_tags(ts: Seq<Seq<char>>) -> (Seq<Seq<char>>, Seq<Seq<char>>)
    decreases ts.len(),
{
    if ts.len() == 0 {
        (seq![], seq![])
    } else {
        let (o, p) = sorted_tags(ts.drop_last());
        let t = ts.last();
        if org_tag(t) {
            (if o.contains(t) { o } else { o.push(t) }, p)
        } else {
            (o, if p.contains(t) { p } else { p.push(t) })
        }
    }
}

fn all_tag_chars(t: &str) -> (r: bool)
    ensures
        r == org_tag(t@),
{
    let cs = chars_of(t);
    let mut i: usize = 0;
    while i < cs.len()
        invariant
            i <= cs.len(),
            cs@ == t@,
            forall|j: int| 0 <= j < i ==> crate::org::tag_char(#[trigger] cs@[j]),
        decreases cs.len() - i,
    {
        if !crate::org::is_org_tag_char(cs[i]) {
            return false;
        }
        i = i + 1;
    }
    true
}

/// Split a new issue's tag list (commas and colons separate, blanks dropped)
/// into the tags Org can hold on the heading and the rest, which stay in
/// the tags property.
pub fn split_tags(tags: &str) -> (r: (Vec<String>, Vec<String>))
    ensures
        (r.0@.map_values(|x: String| x@), r.1@.map_values(|x: String| x@)) == sorted_tags(
            crate::model::fields(tags@, |c: char| crate::model::tag_sep(c)),
        ),
{
    let fs = crate::model::fields_exec(tags, false);
    let ghost fv = fs@.map_values(|x: String| x@);
    let mut org: Vec<String> = Vec::new();
    let mut prop: Vec<String> = Vec::new();
    let mut i: usize = 0;
    while i < fs.len()
        invariant
            i <= fs.len(),
            fv == fs@.map_values(|x: String| x@),
            (org@.map_values(|x: String| x@), prop@.map_values(|x: String| x@)) == sorted_tags(fv.take(i as int)),
        decreases fs.len() - i,
    {
        proof {
            assert(fv.take(i + 1).drop_last() =~= fv.take(i as int));
            assert(fv.take(i + 1).last() == fs@[i as int]@);
        }
        let t = &fs[i];
        if all_tag_chars(t.as_str()) {
            if !contains_chars(&org, &chars_of(t.as_str())) {
                org.push(t.clone());
            }
        } else {
            if !contains_chars(&prop, &chars_of(t.as_str())) {
                prop.push(t.clone());
            }
        }
        i = i + 1;
    }
    assert(fv.take(fs.len() as int) =~= fv);
    (org, prop)
}

/// Check a date given for a new issue's deadline or schedule: it must read
/// as an org date, `<YYYY-MM-DD ...>` or `[YYYY-MM-DD ...]`.
pub fn validate_org_date(s: &str) -> (r: Result<(), TrackerError>)
    ensures
        r is Ok <==> crate::report::org_date(s@) is Some,
        r matches Err(e) ==> e matches TrackerError::Message(m)
            && m@ == "expected org date like <YYYY-MM-DD> or [YYYY-MM-DD], got "@ + crate::rofi::debug_str(s@),
{
    if crate::report::parse_org_date(s).is_some() {
        return Ok(());
    }
    let mut msg = "expected org date like <YYYY-MM-DD> or [YYYY-MM-DD], got ".to_owned();
    msg.push_str(crate::rofi::debug_quote(s).as_str());
    Err(TrackerError::Message(msg))
}

/// The body a new issue is written with: the given prose without its
/// trailing whitespace and with one newline, or nothing when it is blank.
pub open spec fn new_body_text(body: Option<Seq<char>>) -> Seq<char> {
    match body {
        Some(b) => if trim(b).len() > 0 {
            trim_end(b) + "\n"@
        } else {
            seq![]
        },
        None => seq![],
    }
}

/// The body a new issue is written with.
pub fn new_body(body: Option<&str>) -> (r: String)
    ensures
        r@ == new_body_text(
            match body {
                Some(b) => Some(b@),
                None => None,
            },
        ),
{
    match body {
        Some(b) => {
            let cs = chars_of(b);
            if trim_chars(&cs).len() > 0 {
                let mut t = crate::text::trim_end_chars(&cs);
                t.push('\n');
                proof {
                    reveal_strlit("\n");
                }
                string_of(&t)
            } else {
                String::new()
            }
        },
        None => String::new(),
    }
}

/// What `create` checks before it writes: the priority is A, B or C, and a
/// parent, when given, is a known id.
pub fn check_new(priority: char, parent: Option<&str>, known: &[String]) -> (r: Result<(), TrackerError>)
    ensures
        r is Ok <==> (priority == 'A' || priority == 'B' || priority == 'C') && match parent {
            Some(p) => known@.map_values(|k: String| k@).contains(p@),
            None => true,
        },
        r matches Err(e) ==> e matches TrackerError::Message(m) && m@ == if !(priority == 'A' || priority
            == 'B' || priority == 'C') {
            "invalid priority "@ + crate::rofi::debug_char_str(priority) + "; allowed: A B C"@
        } else {
            "--parent "@ + parent->0@ + " does not refer to any known id"@
        },
{
    if !(priority == 'A' || priority == 'B' || priority == 'C') {
        let mut msg = "invalid priority ".to_owned();
        msg.push_str(crate::rofi::debug_char_quote(priority).as_str());
        msg.push_str("; allowed: A B C");
        return Err(TrackerError::Message(msg));
    }
    if let Some(p) = parent {
        if !contains_chars(known, &chars_of(p)) {
            let mut msg = "--parent ".to_owned();
            msg.push_str(p);
            msg.push_str(" does not refer to any known id");
            return Err(TrackerError::Message(msg));
        }
    }
    Ok(())
}

/// What `create` prints: the new id alone when quiet, else the id, state,
/// priority and title, then the file it went to.
pub open spec fn create_text(id: Seq<char>, priority: char, title: Seq<char>, path: Seq<char>, quiet: bool) -> Seq<char> {
    if quiet {
        id + "\n"@
    } else {
        id + "  TODO  [#"@ + seq![priority] + "]  "@ + title + "\nfile: "@ + path + "\n"@
    }
}

/// What `create` prints.
pub fn create_report(id: &str, priority: char, title: &str, path: &str, quiet: bool) -> (r: String)
    ensures
        r@ == create_text(id@, priority, title@, path@, quiet),
{
    let mut out = id.to_owned();
    if quiet {
        out.push_str("\n");
        return out;
    }
    out.push_str("  TODO  [#");
    let mut one: Vec<char> = Vec::new();
    one.push(priority);
    assert(one@ =~= seq![priority]);
    out.push_str(string_of(&one).as_str());
    out.push_str("]  ");
    out.push_str(title);
    out.push_str("\nfile: ");
    out.push_str(path);
    out.push_str("\n");
    out
}

/// Where line `k` of an inbox lands once the lines before it are stamped.
pub open spec fn landing(ls: Seq<Seq<char>>, stamps: Seq<(usize, String, String)>, k: int) -> int {
    restamped(ls, stamps, k).len() as int
}

proof fn lemma_restamped_grows(ls: Seq<Seq<char>>, stamps: Seq<(usize, String, String)>, k: int, n: int)
    requires
        0 <= k <= n,
    ensures
        restamped(ls, stamps, n).subrange(0, landing(ls, stamps, k)) == restamped(ls, stamps, k),
        landing(ls, stamps, k) <= landing(ls, stamps, n),
    decreases n - k,
{
    if k < n {
        lemma_restamped_grows(ls, stamps, k, n - 1);
        let a = restamped(ls, stamps, n - 1);
        let b = restamped(ls, stamps, n);
        assert(b.subrange(0, a.len() as int) =~= a);
        assert(b.subrange(0, landing(ls, stamps, k)) =~= a.subrange(0, landing(ls, stamps, k)));
    } else {
        assert(restamped(ls, stamps, n).subrange(0, landing(ls, stamps, k)) =~= restamped(ls, stamps, k));
    }
}

/// The lines an unstamped line and a stamped one land as.
proof fn lemma_landing(ls: Seq<Seq<char>>, stamps: Seq<(usize, String, String)>, k: int, n: int)
    requires
        0 <= k < n <= ls.len(),
    ensures
        stamp_at(stamps, k) is None ==> landing(ls, stamps, k + 1) == landing(ls, stamps, k) + 1
            && restamped(ls, stamps, n)[landing(ls, stamps, k)] == ls[k],
        stamp_at(stamps, k) matches Some((t, id)) ==> landing(ls, stamps, k + 1) == landing(ls, stamps, k) + 2
            && restamped(ls, stamps, n)[landing(ls, stamps, k)] == "* DONE "@ + t
            && restamped(ls, stamps, n)[landing(ls, stamps, k) + 1] == ":VISSUE_ID: "@ + id,
        landing(ls, stamps, k + 1) <= landing(ls, stamps, n),
{
    lemma_restamped_grows(ls, stamps, k + 1, n);
    let r = restamped(ls, stamps, n);
    let p = restamped(ls, stamps, k + 1);
    assert(r.subrange(0, p.len() as int) == p);
    assert forall|q: int| 0 <= q < p.len() implies r[q] == p[q] by {
        assert(r.subrange(0, p.len() as int)[q] == r[q]);
    }
}

/// Every line of the stamped lines is where some line of the inbox landed,
/// or the id line under a stamped one.
proof fn lemma_landed_from(ls: Seq<Seq<char>>, stamps: Seq<(usize, String, String)>, n: int, q: int)
    requires
        0 <= n <= ls.len(),
        0 <= q < landing(ls, stamps, n),
    ensures
        exists|k: int|
            0 <= k < n && (q == landing(ls, stamps, k) || (stamp_at(stamps, k) is Some && q == landing(ls, stamps, k) + 1)),
    decreases n,
{
    if q >= landing(ls, stamps, n - 1) {
        assert(0 <= n - 1 < n);
    } else {
        lemma_landed_from(ls, stamps, n - 1, q);
        let k = choose|k: int|
            0 <= k < n - 1 && (q == landing(ls, stamps, k) || (stamp_at(stamps, k) is Some && q == landing(ls, stamps, k) + 1));
        assert(0 <= k < n);
    }
}

/// Every entry the scan finds stands on a `* TODO ` line, and is stamped when
/// its block holds a stamp line.
proof fn lemma_entries_shape(ls: Seq<Seq<char>>, i: int)
    requires
        0 <= i,
    ensures
        forall|q: int| 0 <= q < inbox_entries(ls, i).len() ==> {
            let e = #[trigger] inbox_entries(ls, i)[q];
            &&& i <= e.0 < ls.len()
            &&& starts_with(ls[e.0], "* TODO "@)
            &&& e.3 == has_stamp(ls, e.0 + 1, block_end(ls, e.0 + 1))
        },
    decreases ls.len() - i,
{
    if i < ls.len() {
        if starts_with(ls[i], "* TODO "@) {
            let end = block_end(ls, i + 1);
            lemma_block_end(ls, i + 1);
            lemma_entries_shape(ls, end);
            let rest = inbox_entries(ls, end);
            let first = (
                i,
                trim(ls[i].subrange(7, ls[i].len() as int)),
                trim(join(ls.subrange(i + 1, end), "\n"@)),
                has_stamp(ls, i + 1, end),
            );
            assert(inbox_entries(ls, i) == seq![first] + rest);
            assert forall|q: int| 0 <= q < inbox_entries(ls, i).len() implies {
                let e = #[trigger] inbox_entries(ls, i)[q];
                &&& i <= e.0 < ls.len()
                &&& starts_with(ls[e.0], "* TODO "@)
                &&& e.3 == has_stamp(ls, e.0 + 1, block_end(ls, e.0 + 1))
            } by {
                if q > 0 {
                    assert(inbox_entries(ls, i)[q] == rest[q - 1]);
                } else {
                    assert(inbox_entries(ls, i)[q] == first);
                }
            }
        } else {
            lemma_entries_shape(ls, i + 1);
            assert(inbox_entries(ls, i) == inbox_entries(ls, i + 1));
        }
    }
}

/// A `* TODO ` line at `j` opens an entry of any scan that starts at or
/// before it.
proof fn lemma_todo_is_entry(ls: Seq<Seq<char>>, i: int, j: int)
    requires
        0 <= i <= j < ls.len(),
        starts_with(ls[j], "* TODO "@),
    ensures
        exists|q: int| 0 <= q < inbox_entries(ls, i).len() && #[trigger] inbox_entries(ls, i)[q].0 == j,
    decreases j - i,
{
    reveal_strlit("* TODO ");
    reveal_strlit("* ");
    assert(starts_with(ls[j], "* "@)) by {
        assert(ls[j].subrange(0, 2) =~= ls[j].subrange(0, 7).subrange(0, 2));
        assert("* TODO "@.subrange(0, 2) =~= "* "@);
    }
    if i == j {
        assert(inbox_entries(ls, i)[0].0 == j);
    } else if starts_with(ls[i], "* TODO "@) {
        let end = block_end(ls, i + 1);
        lemma_block_end(ls, i + 1);
        assert(end <= j);
        lemma_todo_is_entry(ls, end, j);
        let q = choose|q: int| 0 <= q < inbox_entries(ls, end).len() && #[trigger] inbox_entries(ls, end)[q].0 == j;
        assert(inbox_entries(ls, i)[q + 1] == inbox_entries(ls, end)[q]);
    } else {
        lemma_todo_is_entry(ls, i + 1, j);
        let q = choose|q: int| 0 <= q < inbox_entries(ls, i + 1).len() && #[trigger] inbox_entries(ls, i + 1)[q].0 == j;
        assert(inbox_entries(ls, i)[q] == inbox_entries(ls, i + 1)[q]);
    }
}

proof fn lemma_block_reaches(ls: Seq<Seq<char>>, a: int, b: int)
    requires
        0 <= a <= b < ls.len(),
        forall|k: int| a <= k <= b ==> !starts_with(#[trigger] ls[k], "* "@),
    ensures
        block_end(ls, a) > b,
    decreases b - a,
{
    if a < b {
        lemma_block_reaches(ls, a + 1, b);
    } else {
        lemma_block_end(ls, b + 1);
    }
}

proof fn lemma_unstamped_run(ls: Seq<Seq<char>>, stamps: Seq<(usize, String, String)>, n: int, k: int, m: int)
    requires
        0 <= k <= m < n <= ls.len(),
        forall|j: int| k <= j <= m ==> stamp_at(stamps, j) is None,
    ensures
        landing(ls, stamps, m) == landing(ls, stamps, k) + (m - k),
        forall|j: int| k <= j <= m ==> #[trigger] restamped(ls, stamps, n)[landing(ls, stamps, k) + (j - k)] == ls[j],
    decreases m - k,
{
    lemma_landing(ls, stamps, m, n);
    if m > k {
        lemma_unstamped_run(ls, stamps, n, k, m - 1);
        lemma_landing(ls, stamps, m - 1, n);
    }
}

/// Folding leaves nothing to fold: once every entry without a stamp has its
/// heading stamped, each entry a new scan of the lines finds is stamped. The
/// stamps name heading lines (ones starting `* `), as a fold's do.
pub proof fn lemma_fold_leaves_nothing_to_fold(ls: Seq<Seq<char>>, stamps: Seq<(usize, String, String)>)
    requires
        forall|q: int|
            0 <= q < inbox_entries(ls, 0).len() && !(#[trigger] inbox_entries(ls, 0)[q]).3 ==> stamp_at(
                stamps,
                inbox_entries(ls, 0)[q].0,
            ) is Some,
        forall|k: int| #[trigger] stamp_at(stamps, k) is Some ==> 0 <= k < ls.len() && starts_with(ls[k], "* "@),
    ensures
        forall|q: int|
            0 <= q < inbox_entries(restamped(ls, stamps, ls.len() as int), 0).len() ==> (#[trigger] inbox_entries(
                restamped(ls, stamps, ls.len() as int),
                0,
            )[q]).3,
{
    let n = ls.len() as int;
    let r = restamped(ls, stamps, n);
    reveal_strlit("* TODO ");
    reveal_strlit("* ");
    reveal_strlit("* DONE ");
    reveal_strlit(":VISSUE_ID: ");
    lemma_entries_shape(r, 0);
    lemma_entries_shape(ls, 0);
    assert forall|q: int| 0 <= q < inbox_entries(r, 0).len() implies (#[trigger] inbox_entries(r, 0)[q]).3 by {
        let e = inbox_entries(r, 0)[q];
        let p = e.0;
        assert(starts_with(r[p], "* TODO "@));
        assert(r[p].subrange(0, 7) == "* TODO "@);
        assert(r[p][0] == '*' && r[p][2] == 'T') by {
            assert(r[p].subrange(0, 7)[0] == r[p][0]);
            assert(r[p].subrange(0, 7)[2] == r[p][2]);
        }
        assert(r.len() == landing(ls, stamps, n));
        lemma_landed_from(ls, stamps, n, p);
        let k = choose|k: int|
            0 <= k < n && (p == landing(ls, stamps, k) || (stamp_at(stamps, k) is Some && p == landing(ls, stamps, k) + 1));
        lemma_landing(ls, stamps, k, n);
        if stamp_at(stamps, k) is Some {
            let (t, id) = stamp_at(stamps, k)->0;
            if p == landing(ls, stamps, k) {
                assert(r[p] == "* DONE "@ + t);
                assert(r[p][2] == 'D');
            } else {
                assert(r[p] == ":VISSUE_ID: "@ + id);
                assert(r[p][0] == ':');
            }
            assert(false);
        }
        assert(p == landing(ls, stamps, k));
        assert(r[p] == ls[k]);
        lemma_todo_is_entry(ls, 0, k);
        let q2 = choose|q2: int| 0 <= q2 < inbox_entries(ls, 0).len() && #[trigger] inbox_entries(ls, 0)[q2].0 == k;
        let e2 = inbox_entries(ls, 0)[q2];
        assert(e2.3);
        let end = block_end(ls, k + 1);
        lemma_block_end(ls, k + 1);
        assert(has_stamp(ls, k + 1, end));
        let m = choose|m: int| k + 1 <= m < end && is_stamp_line(#[trigger] ls[m]);
        assert forall|j: int| k <= j <= m implies stamp_at(stamps, j) is None by {
            if j > k && stamp_at(stamps, j) is Some {
                assert(starts_with(ls[j], "* "@));
                assert(!starts_with(ls[j], "* "@));
            }
        }
        lemma_unstamped_run(ls, stamps, n, k, m);
        assert(r[p + (m - k)] == ls[m]);
        assert forall|j: int| p + 1 <= j <= p + (m - k) implies !starts_with(#[trigger] r[j], "* "@) by {
            let kk = k + (j - p);
            assert(r[landing(ls, stamps, k) + (kk - k)] == ls[kk]);
        }
        lemma_landing(ls, stamps, m, n);
        lemma_block_reaches(r, p + 1, p + (m - k));
        assert(is_stamp_line(r[p + (m - k)]));
        assert(has_stamp(r, p + 1, block_end(r, p + 1)));
    }
}

proof fn lemma_find_newline(s: Seq<char>, n: int, i: int)
    requires
        0 <= i <= n < s.len(),
        s[n] == '\n',
        forall|j: int| 0 <= j < n ==> s[j] != '\n',
    ensures
        crate::text::find_char_from(s, '\n', i) == Some(n),
    decreases n - i,
{
    if i < n {
        lemma_find_newline(s, n, i + 1);
    }
}

proof fn lemma_no_newline(s: Seq<char>, i: int)
    requires
        0 <= i,
        forall|j: int| 0 <= j < s.len() ==> s[j] != '\n',
    ensures
        crate::text::find_char_from(s, '\n', i) is None,
    decreases s.len() - i,
{
    if i < s.len() {
        lemma_no_newline(s, i + 1);
    }
}

proof fn lemma_join_front(xs: Seq<Seq<char>>, sep: Seq<char>)
    requires
        xs.len() >= 2,
    ensures
        join(xs, sep) == xs[0] + sep + join(xs.drop_first(), sep),
    decreases xs.len(),
{
    if xs.len() == 2 {
        assert(xs.drop_first().len() == 1);
        assert(join(xs.drop_first(), sep) == xs[1]);
        assert(xs.drop_last().len() == 1);
        assert(join(xs.drop_last(), sep) == xs[0]);
    } else {
        lemma_join_front(xs.drop_last(), sep);
        assert(xs.drop_last().drop_first() =~= xs.drop_first().drop_last());
        assert(xs.drop_first().last() == xs.last());
    }
}

/// What `lines` gives holds no newline, and, when the text does not end in
/// one, ends with a line that is not empty.
proof fn lemma_lines_shape(s: Seq<char>)
    ensures
        forall|k: int| 0 <= k < lines(s).len() ==> forall|i: int|
            0 <= i < (#[trigger] lines(s)[k]).len() ==> lines(s)[k][i] != '\n',
        s.len() > 0 && s.last() != '\n' ==> lines(s).len() > 0 && lines(s).last().len() > 0,
        s.len() > 0 ==> lines(s).len() > 0,
    decreases s.len(),
{
    if s.len() > 0 {
        crate::text::lemma_find_char_from(s, '\n', 0);
        match crate::text::find_char_from(s, '\n', 0) {
            None => {},
            Some(k) => {
                let rest = s.subrange(k + 1, s.len() as int);
                lemma_lines_shape(rest);
                let l0 = s.subrange(0, k);
                let l = if l0.len() > 0 && l0.last() == '\r' { l0.drop_last() } else { l0 };
                assert(lines(s) == seq![l] + lines(rest));
                assert forall|q: int| 0 <= q < lines(s).len() implies forall|i: int|
                    0 <= i < (#[trigger] lines(s)[q]).len() ==> lines(s)[q][i] != '\n' by {
                    if q == 0 {
                        assert forall|i: int| 0 <= i < l.len() implies l[i] != '\n' by {
                            assert(l[i] == s[i]);
                        }
                    } else {
                        assert(lines(s)[q] == lines(rest)[q - 1]);
                    }
                }
                if s.last() != '\n' {
                    assert(rest.len() > 0);
                    assert(rest.last() == s.last());
                    assert(lines(s).last() == lines(rest).last());
                }
            },
        }
    }
}

proof fn lemma_stamp_from(stamps: Seq<(usize, String, String)>, k: int)
    requires
        stamp_at(stamps, k) is Some,
    ensures
        exists|j: int|
            0 <= j < stamps.len() && stamp_at(stamps, k) == Some((#[trigger] stamps[j].1@, stamps[j].2@)),
    decreases stamps.len(),
{
    if stamps[0].0 != k {
        lemma_stamp_from(stamps.drop_first(), k);
        let j = choose|j: int|
            0 <= j < stamps.drop_first().len() && stamp_at(stamps.drop_first(), k) == Some(
                (#[trigger] stamps.drop_first()[j].1@, stamps.drop_first()[j].2@),
            );
        assert(stamps[j + 1] == stamps.drop_first()[j]);
    } else {
        assert(stamp_at(stamps, k) == Some((stamps[0].1@, stamps[0].2@)));
    }
}

proof fn lemma_landing_spread(ls: Seq<Seq<char>>, stamps: Seq<(usize, String, String)>, a: int, b: int, n: int)
    requires
        0 <= a <= b <= n <= ls.len(),
    ensures
        landing(ls, stamps, b) >= landing(ls, stamps, a) + (b - a),
    decreases b - a,
{
    if a < b {
        lemma_landing_spread(ls, stamps, a, b - 1, n);
        lemma_landing(ls, stamps, b - 1, n);
    }
}

/// Whether `x` fits on one line: no newline in it.
pub open spec fn one_line(x: Seq<char>) -> bool {
    forall|i: int| 0 <= i < x.len() ==> #[trigger] x[i] != '\n'
}

/// `x` less one carriage return at its end.
pub open spec fn strip_cr(x: Seq<char>) -> Seq<char> {
    if x.len() > 0 && x.last() == '\r' {
        x.drop_last()
    } else {
        x
    }
}

/// Line `a` reads as written line `b`: the same, or `b` less its final
/// carriage return.
pub open spec fn cr_equiv(a: Seq<char>, b: Seq<char>) -> bool {
    a == b || b == a.push('\r')
}

/// Lines joined by newlines, with a final newline when `nl`.
pub open spec fn rejoined(xs: Seq<Seq<char>>, nl: bool) -> Seq<char> {
    join(xs, "\n"@) + if nl {
        "\n"@
    } else {
        seq![]
    }
}

proof fn lemma_lines_cons_cr(x: Seq<char>, rest: Seq<char>)
    requires
        one_line(x),
    ensures
        lines(x + "\n"@ + rest) == seq![strip_cr(x)] + lines(rest),
        cr_equiv(strip_cr(x), x),
{
    reveal_strlit("\n");
    let s = x + "\n"@ + rest;
    assert(s[x.len() as int] == '\n');
    assert forall|j: int| 0 <= j < x.len() implies s[j] != '\n' by {
        assert(s[j] == x[j]);
    }
    lemma_find_newline(s, x.len() as int, 0);
    assert(s.subrange(0, x.len() as int) =~= x);
    assert(s.subrange(x.len() as int + 1, s.len() as int) =~= rest);
    if x.len() > 0 && x.last() == '\r' {
        assert(x.drop_last().push('\r') =~= x);
    }
}

/// Splitting lines joined by newlines gives each back, less a final carriage
/// return where a newline follows it, when none holds a newline, a final
/// newline follows a non-empty list, and without one the last line is not
/// empty.
proof fn lemma_lines_of_join_cr(xs: Seq<Seq<char>>, nl: bool)
    requires
        forall|k: int| 0 <= k < xs.len() ==> one_line(#[trigger] xs[k]),
        nl ==> xs.len() > 0,
        !nl && xs.len() > 0 ==> xs.last().len() > 0,
    ensures
        lines(rejoined(xs, nl)).len() == xs.len(),
        forall|k: int| 0 <= k < xs.len() ==> cr_equiv(#[trigger] lines(rejoined(xs, nl))[k], xs[k]),
    decreases xs.len(),
{
    reveal_strlit("\n");
    let tail: Seq<char> = if nl { "\n"@ } else { seq![] };
    let out = lines(join(xs, "\n"@) + tail);
    if xs.len() == 0 {
        assert(join(xs, "\n"@) + tail =~= Seq::<char>::empty());
    } else if xs.len() == 1 {
        if nl {
            lemma_lines_cons_cr(xs[0], seq![]);
            assert(xs[0] + "\n"@ + Seq::<char>::empty() =~= join(xs, "\n"@) + tail);
            assert(lines(Seq::<char>::empty()) =~= Seq::<Seq<char>>::empty());
            assert(out =~= seq![strip_cr(xs[0])]);
        } else {
            assert(join(xs, "\n"@) + tail =~= xs[0]);
            lemma_no_newline(xs[0], 0);
            assert(out =~= seq![xs[0]]);
        }
    } else {
        lemma_join_front(xs, "\n"@);
        let rest = xs.drop_first();
        assert forall|k: int| 0 <= k < rest.len() implies one_line(#[trigger] rest[k]) by {
            assert(rest[k] == xs[k + 1]);
        }
        lemma_lines_of_join_cr(rest, nl);
        lemma_lines_cons_cr(xs[0], join(rest, "\n"@) + tail);
        assert(join(xs, "\n"@) + tail =~= xs[0] + "\n"@ + (join(rest, "\n"@) + tail));
        let lr = lines(join(rest, "\n"@) + tail);
        assert(out == seq![strip_cr(xs[0])] + lr);
        assert forall|k: int| 0 <= k < xs.len() implies cr_equiv(#[trigger] out[k], xs[k]) by {
            if k > 0 {
                assert(out[k] == lr[k - 1]);
                assert(xs[k] == rest[k - 1]);
            }
        }
    }
}

proof fn lemma_lead_ws_cr(a: Seq<char>, i: int)
    requires
        0 <= i <= a.len(),
    ensures
        lead_ws(a.push('\r'), i) == if lead_ws(a, i) < a.len() {
            lead_ws(a, i)
        } else {
            a.len() + 1int
        },
    decreases a.len() - i,
{
    let b = a.push('\r');
    assert(crate::text::is_ws('\r'));
    if i < a.len() {
        assert(b[i] == a[i]);
        if crate::text::is_ws(a[i]) {
            lemma_lead_ws_cr(a, i + 1);
        }
    } else {
        assert(b[i] == '\r');
        assert(lead_ws(b, i + 1) == i + 1);
    }
}

proof fn lemma_starts_with_cr(x: Seq<char>, p: Seq<char>)
    requires
        p.len() > 0,
        p.last() != '\r',
    ensures
        starts_with(x.push('\r'), p) == starts_with(x, p),
{
    let y = x.push('\r');
    if p.len() <= x.len() {
        assert(y.subrange(0, p.len() as int) =~= x.subrange(0, p.len() as int));
    } else if p.len() == x.len() + 1 {
        if starts_with(y, p) {
            assert(y.subrange(0, p.len() as int)[p.len() - 1] == y[p.len() - 1]);
        }
    }
}

/// What the scan of an inbox asks of a line does not see a final carriage
/// return.
proof fn lemma_line_preds_cr(a: Seq<char>, b: Seq<char>)
    requires
        cr_equiv(a, b),
    ensures
        starts_with(a, "* TODO "@) == starts_with(b, "* TODO "@),
        starts_with(a, "* "@) == starts_with(b, "* "@),
        is_stamp_line(a) == is_stamp_line(b),
{
    reveal_strlit("* TODO ");
    reveal_strlit("* ");
    reveal_strlit(":VISSUE_ID:");
    if b != a {
        lemma_starts_with_cr(a, "* TODO "@);
        lemma_starts_with_cr(a, "* "@);
        lemma_lead_ws_cr(a, 0);
        crate::text::lemma_lead_ws(a, 0);
        let ta = trim_start(a);
        let tb = trim_start(b);
        if lead_ws(a, 0) < a.len() {
            assert(tb =~= ta.push('\r'));
            lemma_starts_with_cr(ta, ":VISSUE_ID:"@);
        } else {
            assert(tb.len() == 0);
            assert(ta.len() == 0);
        }
    }
}

proof fn lemma_block_end_cr(ls: Seq<Seq<char>>, ms: Seq<Seq<char>>, j: int)
    requires
        ls.len() == ms.len(),
        forall|k: int| 0 <= k < ls.len() ==> cr_equiv(#[trigger] ms[k], ls[k]),
        0 <= j,
    ensures
        block_end(ms, j) == block_end(ls, j),
    decreases ls.len() - j,
{
    if j < ls.len() {
        lemma_line_preds_cr(ms[j], ls[j]);
        lemma_block_end_cr(ls, ms, j + 1);
    }
}

proof fn lemma_has_stamp_cr(ls: Seq<Seq<char>>, ms: Seq<Seq<char>>, a: int, b: int)
    requires
        ls.len() == ms.len(),
        forall|k: int| 0 <= k < ls.len() ==> cr_equiv(#[trigger] ms[k], ls[k]),
        0 <= a,
        b <= ls.len(),
    ensures
        has_stamp(ms, a, b) == has_stamp(ls, a, b),
{
    if has_stamp(ms, a, b) {
        let k = choose|k: int| a <= k < b && is_stamp_line(#[trigger] ms[k]);
        lemma_line_preds_cr(ms[k], ls[k]);
        assert(is_stamp_line(ls[k]));
    }
    if has_stamp(ls, a, b) {
        let k = choose|k: int| a <= k < b && is_stamp_line(#[trigger] ls[k]);
        lemma_line_preds_cr(ms[k], ls[k]);
        assert(is_stamp_line(ms[k]));
    }
}

/// Two runs of lines that differ only in final carriage returns hold their
/// entries on the same lines, stamped alike.
proof fn lemma_entries_cr(ls: Seq<Seq<char>>, ms: Seq<Seq<char>>, i: int)
    requires
        ls.len() == ms.len(),
        forall|k: int| 0 <= k < ls.len() ==> cr_equiv(#[trigger] ms[k], ls[k]),
    ensures
        inbox_entries(ms, i).len() == inbox_entries(ls, i).len(),
        forall|q: int|
            0 <= q < inbox_entries(ls, i).len() ==> (#[trigger] inbox_entries(ms, i)[q]).0 == inbox_entries(ls, i)[q].0
                && inbox_entries(ms, i)[q].3 == inbox_entries(ls, i)[q].3,
    decreases ls.len() - i,
{
    if 0 <= i < ls.len() {
        lemma_line_preds_cr(ms[i], ls[i]);
        if starts_with(ls[i], "* TODO "@) {
            let end = block_end(ls, i + 1);
            lemma_block_end_cr(ls, ms, i + 1);
            lemma_block_end(ls, i + 1);
            lemma_has_stamp_cr(ls, ms, i + 1, end);
            let next = if i < end <= ls.len() { end } else { i + 1 };
            lemma_entries_cr(ls, ms, next);
            assert forall|q: int| 0 <= q < inbox_entries(ls, i).len() implies (#[trigger] inbox_entries(ms, i)[q]).0
                == inbox_entries(ls, i)[q].0 && inbox_entries(ms, i)[q].3 == inbox_entries(ls, i)[q].3 by {
                if q > 0 {
                    assert(inbox_entries(ms, i)[q] == inbox_entries(ms, next)[q - 1]);
                    assert(inbox_entries(ls, i)[q] == inbox_entries(ls, next)[q - 1]);
                }
            }
        } else {
            lemma_entries_cr(ls, ms, i + 1);
        }
    }
}

proof fn lemma_prefixed_one_line(pre: Seq<char>, x: Seq<char>)
    requires
        one_line(x),
        pre.len() > 0,
        forall|i: int| 0 <= i < pre.len() ==> #[trigger] pre[i] != '\n',
    ensures
        one_line(pre + x),
        (pre + x).len() > 0,
{
    let y = pre + x;
    assert forall|i: int| 0 <= i < y.len() implies #[trigger] y[i] != '\n' by {
        if i < pre.len() {
            assert(y[i] == pre[i]);
        } else {
            assert(y[i] == x[i - pre.len()]);
        }
    }
}

/// Folding an inbox is idempotent: once the entries a fold found without a
/// stamp are stamped (`stamps` names each one's heading line, with a title
/// and an id that each fit on one line), scanning the stamped text again
/// finds every entry stamped, so a second fold creates nothing.
pub proof fn lemma_fold_is_idempotent(text: Seq<char>, stamps: Seq<(usize, String, String)>)
    requires
        forall|q: int|
            0 <= q < inbox_of(text).len() && !(#[trigger] inbox_of(text)[q]).3 ==> stamp_at(stamps, inbox_of(text)[q].0) is Some,
        forall|k: int| #[trigger] stamp_at(stamps, k) is Some ==> 0 <= k < lines(text).len() && starts_with(lines(text)[k], "* "@),
        forall|j: int| 0 <= j < stamps.len() ==> one_line((#[trigger] stamps[j]).1@) && one_line(stamps[j].2@),
    ensures
        forall|q: int| 0 <= q < inbox_of(stamped_text(text, stamps)).len() ==> (#[trigger] inbox_of(stamped_text(text, stamps))[q]).3,
{
    reveal_strlit("\n");
    reveal_strlit("* DONE ");
    reveal_strlit(":VISSUE_ID: ");
    let ls = lines(text);
    let n = ls.len() as int;
    let r = restamped(ls, stamps, n);
    let nl = ends_with(text, "\n"@);
    lemma_lines_shape(text);
    lemma_landing_spread(ls, stamps, 0, n, n);
    assert(landing(ls, stamps, 0) == 0);
    assert forall|q: int| 0 <= q < r.len() implies one_line(#[trigger] r[q]) by {
        lemma_landed_from(ls, stamps, n, q);
        let k = choose|k: int|
            0 <= k < n && (q == landing(ls, stamps, k) || (stamp_at(stamps, k) is Some && q == landing(ls, stamps, k) + 1));
        lemma_landing(ls, stamps, k, n);
        match stamp_at(stamps, k) {
            Some((t, id)) => {
                lemma_stamp_from(stamps, k);
                let j = choose|j: int| 0 <= j < stamps.len() && stamp_at(stamps, k) == Some((#[trigger] stamps[j].1@, stamps[j].2@));
                assert(one_line(stamps[j].1@) && one_line(stamps[j].2@));
                lemma_prefixed_one_line("* DONE "@, t);
                lemma_prefixed_one_line(":VISSUE_ID: "@, id);
            },
            None => {
                assert(r[q] == ls[k]);
            },
        }
    }
    if nl {
        assert(text.len() > 0);
    }
    if !nl && r.len() > 0 {
        let q = r.len() - 1;
        lemma_landed_from(ls, stamps, n, q);
        let k = choose|k: int|
            0 <= k < n && (q == landing(ls, stamps, k) || (stamp_at(stamps, k) is Some && q == landing(ls, stamps, k) + 1));
        lemma_landing(ls, stamps, k, n);
        match stamp_at(stamps, k) {
            Some((t, id)) => {
                if q == landing(ls, stamps, k) {
                    assert(r.last() == "* DONE "@ + t);
                } else {
                    assert(r.last() == ":VISSUE_ID: "@ + id);
                }
            },
            None => {
                lemma_landing_spread(ls, stamps, k + 1, n, n);
                assert(k == n - 1);
                assert(text.len() > 0);
                assert(text.last() != '\n') by {
                    if text.last() == '\n' {
                        assert(text.subrange(text.len() - 1, text.len() as int) =~= "\n"@);
                    }
                }
                assert(r.last() == ls[n - 1]);
            },
        }
    }
    lemma_lines_of_join_cr(r, nl);
    assert(stamped_text(text, stamps) == rejoined(r, nl));
    let ms = lines(stamped_text(text, stamps));
    assert forall|k: int| 0 <= k < r.len() implies cr_equiv(#[trigger] ms[k], r[k]) by {}
    lemma_entries_cr(r, ms, 0);
    assert(inbox_of(text) == inbox_entries(ls, 0));
    assert forall|q: int|
        0 <= q < inbox_entries(ls, 0).len() && !(#[trigger] inbox_entries(ls, 0)[q]).3 implies stamp_at(
            stamps,
            inbox_entries(ls, 0)[q].0,
        ) is Some by {
        assert(inbox_of(text)[q] == inbox_entries(ls, 0)[q]);
    }
    lemma_fold_leaves_nothing_to_fold(ls, stamps);
    assert(inbox_of(stamped_text(text, stamps)) == inbox_entries(ms, 0));
    assert forall|q: int| 0 <= q < inbox_entries(ms, 0).len() implies (#[trigger] inbox_entries(ms, 0)[q]).3 by {
        assert(inbox_entries(r, 0)[q].3);
    }
}

/// Whether two headings agree in everything but the logbook.
pub open spec fn same_but_logbook(a: crate::model::IssueHeading, b: crate::model::IssueHeading) -> bool {
    &&& a.id == b.id
    &&& a.title == b.title
    &&& a.state == b.state
    &&& a.priority == b.priority
    &&& a.properties == b.properties
    &&& a.property_order == b.property_order
    &&& a.body == b.body
    &&& a.line_start == b.line_start
    &&& a.line_end == b.line_end
}

/// Whether two headings agree in everything but the body.
pub open spec fn same_but_body(a: crate::model::IssueHeading, b: crate::model::IssueHeading) -> bool {
    &&& a.id == b.id
    &&& a.title == b.title
    &&& a.state == b.state
    &&& a.priority == b.priority
    &&& a.properties == b.properties
    &&& a.property_order == b.property_order
    &&& a.logbook == b.logbook
    &&& a.line_start == b.line_start
    &&& a.line_end == b.line_end
}

/// Add a dated note to the top of an issue's logbook, stamped `stamp` (the
/// current time as an inactive org timestamp). State, claim and properties
/// stay untouched. The text is folded to one line; one with nothing left is
/// refused and the heading is left as it was.
pub fn note_heading(h: &mut crate::model::IssueHeading, text: &str, stamp: String) -> (r: Result<String, TrackerError>)
    ensures
        note_text(text@).len() == 0 ==> (r matches Err(TrackerError::Message(m)) && m@ == "note text is empty"@
            && *final(h) == *old(h)),
        note_text(text@).len() > 0 ==> {
            &&& r matches Ok(t) && t@ == old(h).id@ + ": noted\n"@
            &&& same_but_logbook(*final(h), *old(h))
            &&& final(h).logbook@.len() == old(h).logbook@.len() + 1
            &&& final(h).logbook@[0]@ == (crate::model::LogView {
                timestamp: stamp@,
                from_state: None,
                to_state: None,
                note: Some(note_text(text@)),
                raw: None,
            })
            &&& final(h).logbook@.subrange(1, final(h).logbook@.len() as int) == old(h).logbook@
        },
{
    let folded = fold_note(text);
    if chars_of(folded.as_str()).len() == 0 {
        let msg = "note text is empty".to_string();
        return Err(TrackerError::Message(msg));
    }
    let entry = crate::model::LogEntry {
        timestamp: stamp,
        from_state: None,
        to_state: None,
        note: Some(folded),
        raw: None,
    };
    h.logbook.insert(0, entry);
    assert(h.logbook@.subrange(1, h.logbook@.len() as int) =~= old(h).logbook@);
    let mut out = h.id.clone();
    out.push_str(": noted\n");
    Ok(out)
}

/// Append prose to an issue's body under a stamp line: `date` (today as an
/// inactive org date) and who wrote it. The text loses its trailing
/// whitespace and is otherwise kept; a blank one is refused and the heading
/// is left as it was. The report counts the appended lines.
pub fn append_body_heading(
    h: &mut crate::model::IssueHeading,
    text: &str,
    date: &str,
    identity: &str,
) -> (r: Result<String, TrackerError>)
    ensures
        trim(text@).len() == 0 ==> (r matches Err(TrackerError::Message(m)) && m@ == "append text is empty"@
            && *final(h) == *old(h)),
        trim(text@).len() > 0 ==> {
            &&& r matches Ok(t) && t@ == old(h).id@ + ": appended "@ + crate::text::decimal(
                lines(trim_end(text@)).len(),
            ) + " line(s)\n"@
            &&& same_but_body(*final(h), *old(h))
            &&& final(h).body@ == appended_body(old(h).body@, date@ + " "@ + identity@, text@)
        },
{
    let mut stamp = date.to_string();
    stamp.push_str(" ");
    stamp.push_str(identity);
    match append_prose(h.body.as_str(), stamp.as_str(), text) {
        None => {
            let msg = "append text is empty".to_string();
            Err(TrackerError::Message(msg))
        },
        Some(b) => {
            h.body = b;
            let t = crate::text::trim_end_chars(&chars_of(text));
            let ls = lines_exec(&t);
            proof {
                assert(ls@.map_values(|w: Vec<char>| w@).len() == ls@.len());
            }
            let mut out = h.id.clone();
            out.push_str(": appended ");
            out.push_str(string_of(&crate::text::decimal_chars(ls.len() as u64)).as_str());
            out.push_str(" line(s)\n");
            Ok(out)
        },
    }
}

/// Whether two headings agree in everything but the drawer.
pub open spec fn same_but_drawer(a: crate::model::IssueHeading, b: crate::model::IssueHeading) -> bool {
    &&& a.id == b.id
    &&& a.title == b.title
    &&& a.state == b.state
    &&& a.priority == b.priority
    &&& a.property_order == b.property_order
    &&& a.body == b.body
    &&& a.logbook == b.logbook
    &&& a.line_start == b.line_start
    &&& a.line_end == b.line_end
}

/// Whether `b`'s drawer is `a`'s with `key` set to `value`.
pub open spec fn drawer_set(
    a: crate::model::IssueHeading,
    b: crate::model::IssueHeading,
    key: Seq<char>,
    value: Seq<char>,
) -> bool {
    &&& crate::model::prop(b, key) == Some(value)
    &&& forall|k: Seq<char>| k != key ==> #[trigger] crate::model::prop(b, k) == crate::model::prop(a, k)
}

/// States that keep a claim: someone still holds the issue even when it is
/// waiting on something else. Leaving for TODO, DONE or CANCELLED gives it
/// up.
pub fn keeps_claim(state: &str) -> (r: bool)
    ensures
        r == (state@ == "STARTED"@ || state@ == "BLOCKED"@),
{
    crate::text::str_eq(state, "STARTED") || crate::text::str_eq(state, "BLOCKED")
}

fn set_prop(h: &mut crate::model::IssueHeading, key: &str, value: &str)
    ensures
        same_but_drawer(*final(h), *old(h)),
        drawer_set(*old(h), *final(h), key@, value@),
{
    let ghost before = h.properties.view();
    h.properties.insert(key.to_string(), value.to_string());
    assert forall|k: Seq<char>| k != key@ implies #[trigger] crate::model::prop(*h, k) == crate::model::prop(*old(h), k) by {
        assert(h.properties.view().contains_key(k) == before.contains_key(k));
    }
}

/// Record, on an issue already closed, the other terminal state that a
/// sibling close tried to give it.
pub fn record_sibling_terminal(h: &mut crate::model::IssueHeading, attempted: &str)
    ensures
        same_but_drawer(*final(h), *old(h)),
        drawer_set(*old(h), *final(h), "SIBLING_TERMINAL"@, attempted@),
{
    set_prop(h, "SIBLING_TERMINAL", attempted);
}

/// Record `src` as where an issue was discovered, unless its
/// `:DISCOVERED_FROM:` already names something.
pub fn set_discovered_from_if_empty(h: &mut crate::model::IssueHeading, src: &str)
    ensures
        match crate::model::prop(*old(h), "DISCOVERED_FROM"@) {
            Some(v) => if trim(v).len() > 0 {
                *final(h) == *old(h)
            } else {
                same_but_drawer(*final(h), *old(h)) && drawer_set(*old(h), *final(h), "DISCOVERED_FROM"@, src@)
            },
            None => same_but_drawer(*final(h), *old(h)) && drawer_set(*old(h), *final(h), "DISCOVERED_FROM"@, src@),
        },
{
    let empty = match h.prop_str("DISCOVERED_FROM") {
        Some(v) => trim_chars(&chars_of(v)).len() == 0,
        None => true,
    };
    if empty {
        set_prop(h, "DISCOVERED_FROM", src);
    }
}

/// Append the reason for a rejection to the cancelled issue's body, under a
/// stamp line of `date` (today as an inactive org date) and who rejected it.
/// A blank reason appends nothing.
pub fn append_reason(h: &mut crate::model::IssueHeading, text: &str, date: &str, identity: &str)
    ensures
        trim(text@).len() == 0 ==> *final(h) == *old(h),
        trim(text@).len() > 0 ==> same_but_body(*final(h), *old(h)) && final(h).body@ == appended_body(
            old(h).body@,
            date@ + " "@ + identity@,
            text@,
        ),
{
    let mut stamp = date.to_string();
    stamp.push_str(" ");
    stamp.push_str(identity);
    if let Some(b) = append_prose(h.body.as_str(), stamp.as_str(), text) {
        h.body = b;
    }
}

/// Optional fields on `create`.
pub struct CreateOpts<'a> {
    /// Priority cookie; the configured default is used when `None`.
    pub priority: Option<char>,
    /// `:TYPE:` property.
    pub issue_type: Option<&'a str>,
    /// Deadline as an org timestamp.
    pub deadline: Option<&'a str>,
    /// Scheduled date as an org timestamp.
    pub scheduled: Option<&'a str>,
    /// Comma- or colon-separated tags.
    pub tags: Option<&'a str>,
    /// `:PARENT:` id; must already exist somewhere under the prefix.
    pub parent: Option<&'a str>,
    /// Print only the new id.
    pub quiet: bool,
    /// Body prose written under the properties drawer.
    pub body: Option<&'a str>,
    /// Extra ids treated as taken when minting, so a twin file on another
    /// layout cannot share a suffix with this create.
    pub extra_ids: &'a [String],
}

/// The text of an optional string slice.
pub open spec fn opt_view(o: Option<&str>) -> Option<Seq<char>> {
    match o {
        Some(s) => Some(s@),
        None => None,
    }
}

/// `m` with `key` set to `v` when there is one.
pub open spec fn put_opt(m: Map<Seq<char>, Seq<char>>, key: Seq<char>, v: Option<Seq<char>>) -> Map<Seq<char>, Seq<char>> {
    match v {
        Some(x) => m.insert(key, x),
        None => m,
    }
}

/// The tags a new issue keeps in its property: those Org cannot hold on the
/// heading.
pub open spec fn property_tags(tags: Option<Seq<char>>) -> Seq<Seq<char>> {
    match tags {
        Some(t) => sorted_tags(crate::model::fields(t, |c: char| crate::model::tag_sep(c))).1,
        None => seq![],
    }
}

/// The drawer a new issue is written with: its id and creation stamp, where
/// its body says it was discovered (the first id link to a known issue),
/// and the type, dates, property tags and parent it was given.
pub open spec fn new_drawer(
    id: Seq<char>,
    created: Seq<char>,
    origin: Option<Seq<char>>,
    issue_type: Option<Seq<char>>,
    deadline: Option<Seq<char>>,
    scheduled: Option<Seq<char>>,
    prop_tags: Seq<Seq<char>>,
    parent: Option<Seq<char>>,
) -> Map<Seq<char>, Seq<char>> {
    let m = Map::empty().insert("ID"@, id).insert("CREATED"@, created);
    let m = put_opt(m, "DISCOVERED_FROM"@, origin);
    let m = put_opt(m, "TYPE"@, issue_type);
    let m = put_opt(m, "DEADLINE"@, deadline);
    let m = put_opt(m, "SCHEDULED"@, scheduled);
    let m = put_opt(m, "VISSUE_TAGS"@, if prop_tags.len() > 0 { Some(join(prop_tags, ","@)) } else { None });
    put_opt(m, "PARENT"@, parent)
}

/// The drawer's texts.
pub open spec fn drawer_view(m: Map<Seq<char>, String>) -> Map<Seq<char>, Seq<char>> {
    m.map_values(|v: String| v@)
}

fn insert_opt(props: &mut crate::textmap::TextMap<String>, key: &str, v: Option<&str>)
    ensures
        drawer_view(final(props).view()) == put_opt(drawer_view(old(props).view()), key@, opt_view(v)),
{
    if let Some(x) = v {
        props.insert(key.to_string(), x.to_string());
        assert(drawer_view(props.view()) =~= drawer_view(old(props).view()).insert(key@, x@));
    }
}

/// The ids a new issue may not take: those of its file, then the extra
/// ones the caller names (a twin file on another layout, say).
pub open spec fn taken_text(file_ids: Seq<String>, extra: Seq<String>) -> Seq<Seq<char>> {
    file_ids.map_values(|x: String| x@) + extra.map_values(|x: String| x@)
}

/// The taken set of a create: the file's ids, then `extra`.
pub fn taken_ids(file_ids: &[String], extra: &[String]) -> (r: Vec<String>)
    ensures
        r@.map_values(|x: String| x@) == taken_text(file_ids@, extra@),
{
    let mut r: Vec<String> = Vec::new();
    let mut i: usize = 0;
    while i < file_ids.len()
        invariant
            i <= file_ids.len(),
            r@.map_values(|x: String| x@) == file_ids@.map_values(|x: String| x@).take(i as int),
        decreases file_ids.len() - i,
    {
        let ghost before = r@.map_values(|x: String| x@);
        let x = file_ids[i].clone();
        assert(x@ == file_ids@[i as int]@);
        r.push(x);
        assert(r@.map_values(|x: String| x@) =~= before.push(x@));
        i = i + 1;
        assert(r@.map_values(|x: String| x@) =~= file_ids@.map_values(|x: String| x@).take(i as int));
    }
    let mut j: usize = 0;
    while j < extra.len()
        invariant
            j <= extra.len(),
            r@.map_values(|x: String| x@) == file_ids@.map_values(|x: String| x@) + extra@.map_values(
                |x: String| x@,
            ).take(j as int),
        decreases extra.len() - j,
    {
        let ghost before = r@.map_values(|x: String| x@);
        let x = extra[j].clone();
        assert(x@ == extra@[j as int]@);
        r.push(x);
        assert(r@.map_values(|x: String| x@) =~= before.push(x@));
        j = j + 1;
        assert(r@.map_values(|x: String| x@) =~= file_ids@.map_values(|x: String| x@) + extra@.map_values(
            |x: String| x@,
        ).take(j as int));
    }
    assert(file_ids@.map_values(|x: String| x@).take(file_ids.len() as int) =~= file_ids@.map_values(
        |x: String| x@,
    ));
    assert(extra@.map_values(|x: String| x@).take(extra.len() as int) =~= extra@.map_values(|x: String| x@));
    r
}

/// An id a new issue of `project` may take: it opens with the project's
/// name and a dash, and no taken id is it.
pub open spec fn fresh_id(id: Seq<char>, project: Seq<char>, taken: Seq<Seq<char>>) -> bool {
    starts_with(id, project + "-"@) && !taken.contains(id)
}

/// Whether `id` is fresh for a new issue of `project` against `taken`.
pub fn is_fresh_id(id: &str, project: &str, taken: &[String]) -> (r: bool)
    ensures
        r == fresh_id(id@, project@, taken@.map_values(|x: String| x@)),
{
    let mut pre = project.to_string();
    pre.push_str("-");
    starts_with_exec(&chars_of(id), &chars_of(pre.as_str())) && !contains_chars(taken, &chars_of(id))
}

/// Whether a date given for a new issue does not read as an org date.
pub open spec fn bad_date(d: Option<&str>) -> bool {
    match d {
        Some(x) => crate::report::org_date(x@) is None,
        None => false,
    }
}

/// The refusal of a date that does not read as an org date.
pub open spec fn bad_date_text(d: Seq<char>) -> Seq<char> {
    "expected org date like <YYYY-MM-DD> or [YYYY-MM-DD], got "@ + crate::rofi::debug_str(d)
}

/// Whether `r` is what a create makes of id `id`, title `title`, creation
/// stamp `created` and priority `priority` under `opts`, with `known` the
/// ids an `[[id:]]` link in the body may name: refused, naming the deadline
/// or else the schedule, when one of them is not an org date; else a TODO
/// heading with the drawer, body and tags the options give and an empty
/// logbook, and the tags Org can hold on the heading.
pub open spec fn heading_made(
    r: Result<(crate::model::IssueHeading, Vec<String>), TrackerError>,
    id: Seq<char>,
    title: Seq<char>,
    created: Seq<char>,
    priority: char,
    opts: CreateOpts,
    known: Seq<Seq<char>>,
) -> bool {
    if bad_date(opts.deadline) {
        r matches Err(TrackerError::Message(m)) && m@ == bad_date_text(opts.deadline->0@)
    } else if bad_date(opts.scheduled) {
        r matches Err(TrackerError::Message(m)) && m@ == bad_date_text(opts.scheduled->0@)
    } else {
        r matches Ok((h, tags)) && {
            &&& h.id@ == id
            &&& h.title@ == title
            &&& h.state@ == "TODO"@
            &&& h.priority == priority
            &&& drawer_view(h.properties.view()) == new_drawer(
                id,
                created,
                match opts.body {
                    Some(b) => first_link(b@, known),
                    None => None,
                },
                opt_view(opts.issue_type),
                opt_view(opts.deadline),
                opt_view(opts.scheduled),
                property_tags(opt_view(opts.tags)),
                opt_view(opts.parent),
            )
            &&& h.property_order@.len() == 0
            &&& h.body@ == new_body_text(opt_view(opts.body))
            &&& h.logbook@.len() == 0
            &&& h.line_start == 0
            &&& h.line_end == 0
            &&& tags@.map_values(|x: String| x@) == match opts.tags {
                Some(t) => sorted_tags(crate::model::fields(t@, |c: char| crate::model::tag_sep(c))).0,
                None => seq![],
            }
        }
    }
}

/// The new heading `create` writes for `id` (minted for the project) and
/// `created` (today as an inactive org date), with the tags Org can hold on
/// the heading beside it. A deadline or scheduled date that does not read as
/// an org date is refused, the deadline first. `known` holds the corpus ids
/// a body link may name.
pub fn new_heading(
    id: String,
    title: &str,
    created: String,
    priority: char,
    opts: &CreateOpts,
    known: &[String],
    project: &str,
    file_ids: &[String],
) -> (r: Result<(crate::model::IssueHeading, Vec<String>), TrackerError>)
    requires
        fresh_id(id@, project@, taken_text(file_ids@, opts.extra_ids@)),
    ensures
        heading_made(r, id@, title@, created@, priority, *opts, known@.map_values(|k: String| k@)),
        r matches Ok((h, _)) ==> fresh_id(h.id@, project@, taken_text(file_ids@, opts.extra_ids@)),
{
    if let Some(d) = opts.deadline {
        validate_org_date(d)?;
    }
    if let Some(sd) = opts.scheduled {
        validate_org_date(sd)?;
    }
    let mut props: crate::textmap::TextMap<String> = crate::textmap::TextMap::new();
    assert(drawer_view(props.view()) =~= Map::<Seq<char>, Seq<char>>::empty());
    props.insert("ID".to_string(), id.clone());
    props.insert("CREATED".to_string(), created);
    assert(drawer_view(props.view()) =~= Map::empty().insert("ID"@, id@).insert("CREATED"@, created@));
    let origin = match opts.body {
        Some(b) => first_existing_id_link(b, known),
        None => None,
    };
    match &origin {
        Some(o) => insert_opt(&mut props, "DISCOVERED_FROM", Some(o.as_str())),
        None => insert_opt(&mut props, "DISCOVERED_FROM", None),
    }
    insert_opt(&mut props, "TYPE", opts.issue_type);
    insert_opt(&mut props, "DEADLINE", opts.deadline);
    insert_opt(&mut props, "SCHEDULED", opts.scheduled);
    let (org_tags, prop_tags) = match opts.tags {
        Some(t) => split_tags(t),
        None => {
            let a: Vec<String> = Vec::new();
            let b: Vec<String> = Vec::new();
            assert(a@.map_values(|x: String| x@) =~= Seq::<Seq<char>>::empty());
            (a, b)
        },
    };
    if prop_tags.len() > 0 {
        let mut joined = String::new();
        crate::report::push_joined(&mut joined, &prop_tags, ",");
        insert_opt(&mut props, "VISSUE_TAGS", Some(joined.as_str()));
    } else {
        insert_opt(&mut props, "VISSUE_TAGS", None);
    }
    insert_opt(&mut props, "PARENT", opts.parent);
    let h = crate::model::IssueHeading {
        id,
        title: title.to_string(),
        state: "TODO".to_string(),
        priority,
        properties: props,
        property_order: Vec::new(),
        body: new_body(opts.body),
        logbook: Vec::new(),
        line_start: 0,
        line_end: 0,
    };
    Ok((h, org_tags))
}

/// The heading a create writes for a minted id `id`: `None` when the id is
/// not fresh for `project` against the file's ids and the extra ones in
/// `opts` (the caller mints another), else the heading as [`new_heading`]
/// builds it.
pub fn create_heading(
    id: String,
    title: &str,
    created: String,
    priority: char,
    opts: &CreateOpts,
    known: &[String],
    project: &str,
    file_ids: &[String],
) -> (r: Option<Result<(crate::model::IssueHeading, Vec<String>), TrackerError>>)
    ensures
        r is None <==> !fresh_id(id@, project@, taken_text(file_ids@, opts.extra_ids@)),
        r matches Some(x) ==> heading_made(x, id@, title@, created@, priority, *opts, known@.map_values(|k: String| k@)),
{
    let taken = taken_ids(file_ids, opts.extra_ids);
    if !is_fresh_id(id.as_str(), project, &taken) {
        return None;
    }
    Some(new_heading(id, title, created, priority, opts, known, project, file_ids))
}

/// A fold of entries that are all stamped takes none of them.
proof fn lemma_fold_order_stamped(es: Seq<InboxEntry>)
    requires
        forall|q: int| 0 <= q < es.len() ==> (#[trigger] es[q]).stamped,
    ensures
        fold_order(es).len() == 0,
    decreases es.len(),
{
    if es.len() > 0 {
        assert(es.last().stamped);
        assert forall|q: int| 0 <= q < es.drop_last().len() implies (#[trigger] es.drop_last()[q]).stamped by {
            assert(es.drop_last()[q] == es[q]);
        }
        lemma_fold_order_stamped(es.drop_last());
    }
}

/// A second fold of a stamped inbox does nothing: scanning the text a fold
/// stamped (`stamps` as [`lemma_fold_is_idempotent`] takes them) gives
/// entries of which the fold takes none, so it creates no issue, leaves
/// the inbox as it is (`fold_finish` writes nothing without an id) and
/// reports `folded 0 (nothing unstamped)`.
pub proof fn lemma_second_fold_does_nothing(
    text: Seq<char>,
    stamps: Seq<(usize, String, String)>,
    rescanned: Seq<InboxEntry>,
)
    requires
        forall|q: int|
            0 <= q < inbox_of(text).len() && !(#[trigger] inbox_of(text)[q]).3 ==> stamp_at(stamps, inbox_of(text)[q].0) is Some,
        forall|k: int| #[trigger] stamp_at(stamps, k) is Some ==> 0 <= k < lines(text).len() && starts_with(lines(text)[k], "* "@),
        forall|j: int| 0 <= j < stamps.len() ==> one_line((#[trigger] stamps[j]).1@) && one_line(stamps[j].2@),
        rescanned.map_values(|e: InboxEntry| entry_view(e)) == inbox_of(stamped_text(text, stamps)),
    ensures
        fold_order(rescanned).len() == 0,
        fold_report(file_order(Seq::<Seq<char>>::empty())) == "folded 0 (nothing unstamped)\n"@,
{
    lemma_fold_is_idempotent(text, stamps);
    let after = inbox_of(stamped_text(text, stamps));
    assert forall|q: int| 0 <= q < rescanned.len() implies (#[trigger] rescanned[q]).stamped by {
        assert(rescanned.map_values(|e: InboxEntry| entry_view(e))[q] == entry_view(rescanned[q]));
        assert(after[q].3);
    }
    lemma_fold_order_stamped(rescanned);
}

} // verus!
