//! The issue heading and its logbook: parsing, accessors, and rendering.
use vstd::prelude::*;

use crate::text::{
    chars_of, find_char, find_char_from, find_from, find_seq, is_ws, rfind_char,
    rfind_char_before, slice_of, starts_with, starts_with_exec, str_eq, string_of, trail_c,
    trail_c_exec, trim, trim_c, trim_c_exec, trim_chars, trim_start, trim_start_chars, upper,
};
use crate::textmap::TextMap;

verus! {

/// TODO keywords recognised on a heading, in org declaration order.
pub open spec fn house_keywords() -> Seq<Seq<char>> {
    seq!["TODO"@, "STARTED"@, "BLOCKED"@, "DONE"@, "CANCELLED"@]
}

/// TODO keywords recognised on a heading, in org declaration order.
pub fn todo_keywords() -> (r: Vec<String>)
    ensures
        r@.map_values(|s: String| s@) == house_keywords(),
{
    let mut r: Vec<String> = Vec::new();
    r.push(String::from_str("TODO"));
    r.push(String::from_str("STARTED"));
    r.push(String::from_str("BLOCKED"));
    r.push(String::from_str("DONE"));
    r.push(String::from_str("CANCELLED"));
    assert(r@.map_values(|s: String| s@) =~= house_keywords());
    r
}

/// States an issue can be worked from once its blockers clear.
pub open spec fn ready_states_spec() -> Seq<Seq<char>> {
    seq!["TODO"@, "STARTED"@]
}

/// States an issue can be worked from once its blockers clear.
pub fn ready_states() -> (r: Vec<String>)
    ensures
        r@.map_values(|s: String| s@) == ready_states_spec(),
{
    let mut r: Vec<String> = Vec::new();
    r.push(String::from_str("TODO"));
    r.push(String::from_str("STARTED"));
    assert(r@.map_values(|s: String| s@) =~= ready_states_spec());
    r
}

/// The `#+TODO:` line written into a fresh issues.org preamble.
pub const TODO_HEADER: &'static str = "#+TODO: TODO STARTED BLOCKED | DONE CANCELLED";

/// Column the property values line up at.
pub const PROPERTY_COLUMN: usize = 13;

/// One line of an issue's `:LOGBOOK:` drawer.
#[derive(Debug, Clone, PartialEq, Eq)]
pub struct LogEntry {
    pub timestamp: String,
    pub from_state: Option<String>,
    pub to_state: Option<String>,
    pub note: Option<String>,
    /// An opaque logbook line (an org `CLOCK:` entry, say) kept verbatim.
    pub raw: Option<String>,
}

/// A logbook line as text.
pub struct LogView {
    pub timestamp: Seq<char>,
    pub from_state: Option<Seq<char>>,
    pub to_state: Option<Seq<char>>,
    pub note: Option<Seq<char>>,
    pub raw: Option<Seq<char>>,
}

/// The text of an optional string.
pub open spec fn opt_text(o: Option<String>) -> Option<Seq<char>> {
    match o {
        Some(s) => Some(s@),
        None => None,
    }
}

impl View for LogEntry {
    type V = LogView;

    open spec fn view(&self) -> LogView {
        LogView {
            timestamp: self.timestamp@,
            from_state: opt_text(self.from_state),
            to_state: opt_text(self.to_state),
            note: opt_text(self.note),
            raw: opt_text(self.raw),
        }
    }
}

/// How a logbook line reads in the drawer.
pub open spec fn entry_text(e: LogView) -> Seq<char> {
    match e.raw {
        Some(r) => r,
        None => match (e.to_state, e.from_state) {
            (Some(to), Some(from)) => "- State \""@ + to + "\" from \""@ + from + "\" "@
                + e.timestamp,
            (Some(to), None) => "- State \""@ + to + "\" "@ + e.timestamp,
            _ => match e.note {
                Some(n) => "- Note: \""@ + n + "\" "@ + e.timestamp,
                None => "- "@ + e.timestamp,
            },
        },
    }
}

impl LogEntry {
    /// The line as written into the drawer.
    pub fn render(&self) -> (r: String)
        ensures
            r@ == entry_text(self@),
    {
        if let Some(raw) = &self.raw {
            return raw.clone();
        }
        let mut out = String::new();
        match (&self.to_state, &self.from_state) {
            (Some(to), Some(from)) => {
                out.push_str("- State \"");
                out.push_str(to.as_str());
                out.push_str("\" from \"");
                out.push_str(from.as_str());
                out.push_str("\" ");
                out.push_str(self.timestamp.as_str());
            },
            (Some(to), None) => {
                out.push_str("- State \"");
                out.push_str(to.as_str());
                out.push_str("\" ");
                out.push_str(self.timestamp.as_str());
            },
            _ => match &self.note {
                Some(n) => {
                    out.push_str("- Note: \"");
                    out.push_str(n.as_str());
                    out.push_str("\" ");
                    out.push_str(self.timestamp.as_str());
                },
                None => {
                    out.push_str("- ");
                    out.push_str(self.timestamp.as_str());
                },
            },
        }
        out
    }
}

/// Index just past the last character before `j` that is neither `\r` nor
/// `\n`.
pub open spec fn trail_newline(s: Seq<char>, j: int) -> int
    decreases j,
{
    if 0 < j <= s.len() && (s[j - 1] == '\r' || s[j - 1] == '\n') {
        trail_newline(s, j - 1)
    } else {
        j
    }
}

/// A line kept verbatim, less its line ending.
pub open spec fn raw_log(s: Seq<char>) -> LogView {
    LogView {
        timestamp: seq![],
        from_state: None,
        to_state: None,
        note: None,
        raw: Some(s.subrange(0, trail_newline(s, s.len() as int))),
    }
}

/// Uppercase every ASCII letter.
pub open spec fn upper_seq(s: Seq<char>) -> Seq<char> {
    s.map_values(|c: char| upper(c))
}

/// What a logbook line says once the timestamp is cut out of it.
pub open spec fn log_prefix_view(ts: Seq<char>, prefix: Seq<char>) -> LogView {
    if starts_with(prefix, "State "@) {
        let rest = prefix.subrange("State "@.len() as int, prefix.len() as int);
        match find_from(rest, " from "@, 0) {
            None => LogView {
                timestamp: ts,
                from_state: None,
                to_state: Some(trim_c(trim(rest), '"')),
                note: None,
                raw: None,
            },
            Some(k) => LogView {
                timestamp: ts,
                from_state: Some(
                    trim_c(trim(rest.subrange(k + " from "@.len(), rest.len() as int)), '"'),
                ),
                to_state: Some(trim_c(trim(rest.subrange(0, k)), '"')),
                note: None,
                raw: None,
            },
        }
    } else if starts_with(prefix, "Note:"@) {
        let n = trim_c(trim(prefix.subrange("Note:"@.len() as int, prefix.len() as int)), '"');
        LogView {
            timestamp: ts,
            from_state: None,
            to_state: None,
            note: if n.len() == 0 {
                None
            } else {
                Some(n)
            },
            raw: None,
        }
    } else {
        LogView {
            timestamp: ts,
            from_state: None,
            to_state: None,
            note: if prefix.len() == 0 {
                None
            } else {
                Some(prefix)
            },
            raw: None,
        }
    }
}

/// A `:LOGBOOK:` line read back: a `- State`, `- Note:` or plain dash line
/// ending in a bracketed timestamp is understood; anything else (an org
/// `CLOCK:` line, say) is kept verbatim.
pub open spec fn log_line(s: Seq<char>) -> LogView {
    let t = trim(s);
    if starts_with(upper_seq(t), "CLOCK:"@) || t.len() == 0 || t[0] != '-' {
        raw_log(s)
    } else {
        let body = trim_start(t.drop_first());
        match rfind_char_before(body, '[', body.len() as int) {
            None => raw_log(s),
            Some(b) => match find_char_from(body, ']', b) {
                None => raw_log(s),
                Some(e) => {
                    let p0 = trim(body.subrange(0, b));
                    log_prefix_view(
                        body.subrange(b, e + 1),
                        p0.subrange(0, trail_c(p0, p0.len() as int, ',')),
                    )
                },
            },
        }
    }
}

/// A line kept verbatim, less its line ending.
fn raw_line(s: &str) -> (r: LogEntry)
    ensures
        r@ == raw_log(s@),
{
    let cs = chars_of(s);
    let mut j = cs.len();
    while j > 0 && (cs[j - 1] == '\r' || cs[j - 1] == '\n')
        invariant
            j <= cs.len(),
            cs@ == s@,
            trail_newline(s@, j as int) == trail_newline(s@, s@.len() as int),
        decreases j,
    {
        j = j - 1;
    }
    let raw = string_of(&slice_of(&cs, 0, j));
    LogEntry { timestamp: String::new(), from_state: None, to_state: None, note: None, raw: Some(raw) }
}

/// Whether `t` starts with `CLOCK:` in any letter case.
fn clock_line(t: &[char]) -> (r: bool)
    ensures
        r == starts_with(upper_seq(t@), "CLOCK:"@),
{
    let mut up: Vec<char> = Vec::new();
    let mut i: usize = 0;
    while i < t.len()
        invariant
            i <= t.len(),
            up@ == upper_seq(t@).take(i as int),
        decreases t.len() - i,
    {
        up.push(crate::text::to_upper(t[i]));
        i = i + 1;
        assert(up@ =~= upper_seq(t@).take(i as int));
    }
    assert(upper_seq(t@).take(t.len() as int) =~= upper_seq(t@));
    starts_with_exec(&up, &chars_of("CLOCK:"))
}

/// The entry a timestamp and the text before it make.
fn entry_from_prefix(ts: Vec<char>, prefix: Vec<char>) -> (r: LogEntry)
    ensures
        r@ == log_prefix_view(ts@, prefix@),
{
    let state = chars_of("State ");
    let note = chars_of("Note:");
    let timestamp = string_of(&ts);
    if starts_with_exec(&prefix, &state) {
        let rest = slice_of(&prefix, state.len(), prefix.len());
        let from = chars_of(" from ");
        match find_seq(&rest, &from, 0) {
            None => {
                let to = trim_c_exec(&trim_chars(&rest), '"');
                LogEntry {
                    timestamp,
                    from_state: None,
                    to_state: Some(string_of(&to)),
                    note: None,
                    raw: None,
                }
            },
            Some(k) => {
                proof {
                    crate::text::lemma_find_from(rest@, from@, 0);
                }
                let to = trim_c_exec(&trim_chars(&slice_of(&rest, 0, k)), '"');
                let fr = trim_c_exec(&trim_chars(&slice_of(&rest, k + from.len(), rest.len())), '"');
                LogEntry {
                    timestamp,
                    from_state: Some(string_of(&fr)),
                    to_state: Some(string_of(&to)),
                    note: None,
                    raw: None,
                }
            },
        }
    } else if starts_with_exec(&prefix, &note) {
        let n = trim_c_exec(&trim_chars(&slice_of(&prefix, note.len(), prefix.len())), '"');
        LogEntry {
            timestamp,
            from_state: None,
            to_state: None,
            note: if n.len() == 0 {
                None
            } else {
                Some(string_of(&n))
            },
            raw: None,
        }
    } else {
        LogEntry {
            timestamp,
            from_state: None,
            to_state: None,
            note: if prefix.len() == 0 {
                None
            } else {
                Some(string_of(&prefix))
            },
            raw: None,
        }
    }
}

/// Read one `:LOGBOOK:` line back into an entry.
pub fn parse_log_line(s: &str) -> (r: LogEntry)
    ensures
        r@ == log_line(s@),
{
    let cs = chars_of(s);
    let t = trim_chars(&cs);
    if clock_line(&t) || t.len() == 0 || t[0] != '-' {
        return raw_line(s);
    }
    let body = trim_start_chars(&slice_of(&t, 1, t.len()));
    proof {
        assert(t@.drop_first() =~= t@.subrange(1, t@.len() as int));
        crate::text::lemma_rfind_char_before(body@, '[', body@.len() as int);
    }
    let b = match rfind_char(&body, '[', body.len()) {
        Some(b) => b,
        None => return raw_line(s),
    };
    let e = match find_char(&body, ']', b) {
        Some(e) => e,
        None => return raw_line(s),
    };
    proof {
        crate::text::lemma_find_char_from(body@, ']', b as int);
    }
    let ts = slice_of(&body, b, e + 1);
    let p0 = trim_chars(&slice_of(&body, 0, b));
    let cut = trail_c_exec(&p0, p0.len(), ',');
    let prefix = slice_of(&p0, 0, cut);
    entry_from_prefix(ts, prefix)
}


/// House order of drawer keys after `ID`.
pub open spec fn house_property_order() -> Seq<Seq<char>> {
    seq![
        "CREATED"@,
        "TYPE"@,
        "PARENT"@,
        "BLOCKED_BY"@,
        "DEADLINE"@,
        "SCHEDULED"@,
        "TAGS"@,
        "FILES"@,
        "VERIFY"@,
    ]
}

/// House order of drawer keys after `ID`.
pub fn default_property_order() -> (r: Vec<String>)
    ensures
        r@.map_values(|s: String| s@) == house_property_order(),
{
    let mut r: Vec<String> = Vec::new();
    r.push(String::from_str("CREATED"));
    r.push(String::from_str("TYPE"));
    r.push(String::from_str("PARENT"));
    r.push(String::from_str("BLOCKED_BY"));
    r.push(String::from_str("DEADLINE"));
    r.push(String::from_str("SCHEDULED"));
    r.push(String::from_str("TAGS"));
    r.push(String::from_str("FILES"));
    r.push(String::from_str("VERIFY"));
    assert(r@.map_values(|s: String| s@) =~= house_property_order());
    r
}

/// The pieces of `s` between separator characters, empty ones included,
/// as `str::split` with a character predicate gives them.
pub open spec fn split_by(s: Seq<char>, sep: spec_fn(char) -> bool) -> Seq<Seq<char>>
    decreases s.len(),
{
    if s.len() == 0 {
        seq![seq![]]
    } else {
        let rest = split_by(s.drop_last(), sep);
        if sep(s.last()) {
            rest.push(seq![])
        } else {
            rest.update(rest.len() - 1, rest.last().push(s.last()))
        }
    }
}

pub proof fn lemma_split_by_len(s: Seq<char>, sep: spec_fn(char) -> bool)
    ensures
        split_by(s, sep).len() >= 1,
    decreases s.len(),
{
    if s.len() > 0 {
        lemma_split_by_len(s.drop_last(), sep);
    }
}

/// Each piece trimmed, the empty ones dropped.
pub open spec fn trimmed_fields(ps: Seq<Seq<char>>) -> Seq<Seq<char>>
    decreases ps.len(),
{
    if ps.len() == 0 {
        seq![]
    } else {
        let r = trimmed_fields(ps.drop_last());
        let t = trim(ps.last());
        if t.len() > 0 {
            r.push(t)
        } else {
            r
        }
    }
}

/// No piece of a split holds a separator.
proof fn lemma_split_pieces_clean(s: Seq<char>, sep: spec_fn(char) -> bool)
    ensures
        forall|p: int, i: int|
            0 <= p < split_by(s, sep).len() && 0 <= i < split_by(s, sep)[p].len() ==> !sep(
                #[trigger] split_by(s, sep)[p][i],
            ),
    decreases s.len(),
{
    if s.len() > 0 {
        lemma_split_pieces_clean(s.drop_last(), sep);
        lemma_split_by_len(s.drop_last(), sep);
        let rest = split_by(s.drop_last(), sep);
        if !sep(s.last()) {
            let r = split_by(s, sep);
            assert forall|p: int, i: int| 0 <= p < r.len() && 0 <= i < r[p].len() implies !sep(#[trigger] r[p][i]) by {
                if p == r.len() - 1 && i == r[p].len() - 1 {
                    assert(r[p][i] == s.last());
                } else if p == r.len() - 1 {
                    assert(r[p][i] == rest.last()[i]);
                } else {
                    assert(r[p] == rest[p]);
                }
            }
        }
    }
}

/// Trimmed fields of clean pieces are non-empty and clean.
proof fn lemma_trimmed_fields_clean(ps: Seq<Seq<char>>, sep: spec_fn(char) -> bool)
    requires
        forall|p: int, i: int| 0 <= p < ps.len() && 0 <= i < ps[p].len() ==> !sep(#[trigger] ps[p][i]),
    ensures
        forall|k: int| 0 <= k < trimmed_fields(ps).len() ==> (#[trigger] trimmed_fields(ps)[k]).len() > 0,
        forall|k: int, i: int|
            0 <= k < trimmed_fields(ps).len() && 0 <= i < trimmed_fields(ps)[k].len() ==> !sep(
                #[trigger] trimmed_fields(ps)[k][i],
            ),
    decreases ps.len(),
{
    if ps.len() > 0 {
        lemma_trimmed_fields_clean(ps.drop_last(), sep);
        let last = ps.last();
        let t = trim(last);
        assert forall|i: int| 0 <= i < t.len() implies !sep(#[trigger] t[i]) by {
            let a = crate::text::lead_ws(last, 0);
            let b = crate::text::trail_ws(last, last.len() as int);
            crate::text::lemma_lead_ws(last, 0);
            crate::text::lemma_trail_ws(last, last.len() as int);
            assert(t[i] == last[a + i]);
            assert(!sep(ps[ps.len() - 1][a + i]));
        }
        let r = trimmed_fields(ps.drop_last());
        let out = trimmed_fields(ps);
        assert forall|k: int| 0 <= k < out.len() implies (#[trigger] out[k]).len() > 0 && forall|i: int|
            0 <= i < out[k].len() ==> !sep(#[trigger] out[k][i]) by {
            if k < r.len() {
                assert(out[k] == r[k]);
            } else {
                assert(out[k] == t);
            }
        }
    }
}

/// Every field of a value is non-empty and holds no separator.
pub proof fn lemma_fields_clean(s: Seq<char>, sep: spec_fn(char) -> bool)
    ensures
        forall|k: int| 0 <= k < fields(s, sep).len() ==> (#[trigger] fields(s, sep)[k]).len() > 0,
        forall|k: int, i: int|
            0 <= k < fields(s, sep).len() && 0 <= i < fields(s, sep)[k].len() ==> !sep(
                #[trigger] fields(s, sep)[k][i],
            ),
{
    lemma_split_pieces_clean(s, sep);
    lemma_trimmed_fields_clean(split_by(s, sep), sep);
}

/// The blocker ids of a heading are non-empty and hold neither a comma nor
/// any whitespace: a space, a tab or a line break splits two ids.
pub proof fn lemma_blocker_ids_clean(h: IssueHeading)
    ensures
        forall|k: int| 0 <= k < blockers(h).len() ==> (#[trigger] blockers(h)[k]).len() > 0,
        forall|k: int, i: int|
            0 <= k < blockers(h).len() && 0 <= i < blockers(h)[k].len() ==> #[trigger] blockers(h)[k][i] != ','
                && blockers(h)[k][i] != ' ' && blockers(h)[k][i] != '\t' && blockers(h)[k][i] != '\n'
                && !is_ws(blockers(h)[k][i]),
{
    if let Some(v) = prop(h, "BLOCKED_BY"@) {
        let sep = |c: char| blocker_sep(c);
        lemma_fields_clean(v, sep);
        assert forall|k: int, i: int| 0 <= k < blockers(h).len() && 0 <= i < blockers(h)[k].len() implies #[trigger] blockers(h)[k][i] != ','
            && blockers(h)[k][i] != ' ' && blockers(h)[k][i] != '\t' && blockers(h)[k][i] != '\n'
            && !is_ws(blockers(h)[k][i]) by {
            assert(!sep(fields(v, sep)[k][i]));
            assert(is_ws(' ') && is_ws('\t') && is_ws('\n'));
        }
    }
}

/// The tags of a `:TAGS:` value are non-empty and hold neither a comma nor
/// a colon.
pub proof fn lemma_tags_clean(v: Seq<char>, tags: Seq<Seq<char>>)
    requires
        tags == fields(v, |c: char| tag_sep(c)),
    ensures
        forall|k: int| 0 <= k < tags.len() ==> (#[trigger] tags[k]).len() > 0,
        forall|k: int, i: int|
            0 <= k < tags.len() && 0 <= i < tags[k].len() ==> #[trigger] tags[k][i] != ',' && tags[k][i] != ':',
{
    let sep = |c: char| tag_sep(c);
    lemma_fields_clean(v, sep);
    assert forall|k: int, i: int| 0 <= k < tags.len() && 0 <= i < tags[k].len() implies #[trigger] tags[k][i]
        != ',' && tags[k][i] != ':' by {
        assert(!sep(tags[k][i]));
    }
}

/// A blocker list separator: a comma or whitespace.
pub open spec fn blocker_sep(c: char) -> bool {
    c == ',' || is_ws(c)
}

/// A tag list separator: a comma or a colon.
pub open spec fn tag_sep(c: char) -> bool {
    c == ',' || c == ':'
}

/// The trimmed, non-empty fields of `s` between separators.
pub open spec fn fields(s: Seq<char>, sep: spec_fn(char) -> bool) -> Seq<Seq<char>> {
    trimmed_fields(split_by(s, sep))
}

/// The fields of `s`: `blockers` picks the blocker separators, otherwise
/// the tag separators.
pub(crate) fn fields_exec(s: &str, blockers: bool) -> (r: Vec<String>)
    ensures
        r@.map_values(|x: String| x@) == fields(
            s@,
            if blockers {
                |c: char| blocker_sep(c)
            } else {
                |c: char| tag_sep(c)
            },
        ),
{
    let ghost sep = if blockers {
        |c: char| blocker_sep(c)
    } else {
        |c: char| tag_sep(c)
    };
    let cs = chars_of(s);
    let mut out: Vec<String> = Vec::new();
    let mut cur: Vec<char> = Vec::new();
    let mut i: usize = 0;
    while i < cs.len()
        invariant
            i <= cs.len(),
            cs@ == s@,
            sep == (if blockers {
                |c: char| blocker_sep(c)
            } else {
                |c: char| tag_sep(c)
            }),
            split_by(cs@.take(i as int), sep).len() >= 1,
            cur@ == split_by(cs@.take(i as int), sep).last(),
            out@.map_values(|x: String| x@) == trimmed_fields(
                split_by(cs@.take(i as int), sep).drop_last(),
            ),
        decreases cs.len() - i,
    {
        let c = cs[i];
        let is_sep = if blockers {
            c == ',' || crate::text::is_whitespace(c)
        } else {
            c == ',' || c == ':'
        };
        let ghost pre = cs@.take(i as int);
        let ghost nxt = cs@.take(i + 1);
        proof {
            assert(nxt.drop_last() =~= pre);
            assert(nxt.last() == c);
            assert(is_sep == sep(c));
            lemma_split_by_len(pre, sep);
        }
        if is_sep {
            let t = trim_chars(&cur);
            let ghost before = out@;
            if t.len() > 0 {
                out.push(string_of(&t));
            }
            cur = Vec::new();
            proof {
                let ps = split_by(nxt, sep);
                assert(ps == split_by(pre, sep).push(seq![]));
                assert(ps.drop_last() =~= split_by(pre, sep));
                let q = split_by(pre, sep);
                assert(q.drop_last() =~= q.drop_last());
                assert(trimmed_fields(q) == {
                    let r = trimmed_fields(q.drop_last());
                    let tt = trim(q.last());
                    if tt.len() > 0 {
                        r.push(tt)
                    } else {
                        r
                    }
                });
                assert(out@.map_values(|x: String| x@) =~= trimmed_fields(q));
                assert(cur@ =~= ps.last());
            }
        } else {
            cur.push(c);
            proof {
                let q = split_by(pre, sep);
                let ps = split_by(nxt, sep);
                assert(ps == q.update(q.len() - 1, q.last().push(c)));
                assert(ps.drop_last() =~= q.drop_last());
                assert(cur@ =~= ps.last());
            }
        }
        i = i + 1;
    }
    let t = trim_chars(&cur);
    if t.len() > 0 {
        out.push(string_of(&t));
    }
    proof {
        assert(cs@.take(cs.len() as int) =~= s@);
        let q = split_by(s@, sep);
        assert(out@.map_values(|x: String| x@) =~= trimmed_fields(q));
    }
    out
}

/// One issue: a top-level org heading with a properties drawer, an optional
/// logbook, and free-form body prose.
#[derive(Debug, Clone)]
pub struct IssueHeading {
    pub id: String,
    pub title: String,
    pub state: String,
    pub priority: char,
    pub properties: TextMap<String>,
    pub property_order: Vec<String>,
    pub body: String,
    pub logbook: Vec<LogEntry>,
    pub line_start: usize,
    pub line_end: usize,
}

/// The text stored under `key`, if any.
pub open spec fn prop(h: IssueHeading, key: Seq<char>) -> Option<Seq<char>> {
    if h.properties.view().contains_key(key) {
        Some(h.properties.view()[key]@)
    } else {
        None
    }
}

/// The ids in `:BLOCKED_BY:`.
pub open spec fn blockers(h: IssueHeading) -> Seq<Seq<char>> {
    match prop(h, "BLOCKED_BY"@) {
        Some(v) => fields(v, |c: char| blocker_sep(c)),
        None => Seq::empty(),
    }
}

impl IssueHeading {
    /// The property `key` as text.
    pub fn prop_str(&self, key: &str) -> (r: Option<&str>)
        ensures
            match r {
                Some(v) => prop(*self, key@) == Some(v@),
                None => prop(*self, key@) is None,
            },
    {
        match self.properties.get(key) {
            Some(v) => Some(v.as_str()),
            None => None,
        }
    }

    /// Ids listed in `:BLOCKED_BY:`. Commas and whitespace both separate.
    pub fn blocked_by(&self) -> (r: Vec<String>)
        ensures
            r@.map_values(|x: String| x@) == blockers(*self),
    {
        match self.prop_str("BLOCKED_BY") {
            Some(v) => fields_exec(v, true),
            None => {
                let r: Vec<String> = Vec::new();
                assert(r@.map_values(|x: String| x@) =~= Seq::<Seq<char>>::empty());
                r
            },
        }
    }

    /// Tags listed in `:TAGS:`. Commas and colons both separate.
    pub fn tags(&self) -> (r: Vec<String>)
        ensures
            r@.map_values(|x: String| x@) == match prop(*self, "TAGS"@) {
                Some(v) => fields(v, |c: char| tag_sep(c)),
                None => Seq::empty(),
            },
    {
        match self.prop_str("TAGS") {
            Some(v) => fields_exec(v, false),
            None => {
                let r: Vec<String> = Vec::new();
                assert(r@.map_values(|x: String| x@) =~= Seq::<Seq<char>>::empty());
                r
            },
        }
    }

    /// The `:DEADLINE:` property.
    pub fn deadline(&self) -> (r: Option<&str>)
        ensures
            match r {
                Some(v) => prop(*self, "DEADLINE"@) == Some(v@),
                None => prop(*self, "DEADLINE"@) is None,
            },
    {
        self.prop_str("DEADLINE")
    }

    /// The `:SCHEDULED:` property.
    pub fn scheduled(&self) -> (r: Option<&str>)
        ensures
            match r {
                Some(v) => prop(*self, "SCHEDULED"@) == Some(v@),
                None => prop(*self, "SCHEDULED"@) is None,
            },
    {
        self.prop_str("SCHEDULED")
    }

    /// The `:PARENT:` property.
    pub fn parent(&self) -> (r: Option<&str>)
        ensures
            match r {
                Some(v) => prop(*self, "PARENT"@) == Some(v@),
                None => prop(*self, "PARENT"@) is None,
            },
    {
        self.prop_str("PARENT")
    }
}


/// Bytes `c` takes in UTF-8.
pub open spec fn utf8_width(c: char) -> nat {
    let u = c as u32;
    if u < 0x80 {
        1
    } else if u < 0x800 {
        2
    } else if u < 0x10000 {
        3
    } else {
        4
    }
}

/// Bytes `s` takes in UTF-8, which is what `str::len` counts.
pub open spec fn utf8_len(s: Seq<char>) -> nat
    decreases s.len(),
{
    if s.len() == 0 {
        0
    } else {
        utf8_len(s.drop_last()) + utf8_width(s.last())
    }
}

/// `n` spaces.
pub open spec fn spaces(n: nat) -> Seq<char> {
    Seq::new(n, |_i: int| ' ')
}

/// One drawer line: `:KEY:`, padding to the value column (at least one
/// space), the value.
pub open spec fn property_text(key: Seq<char>, val: Seq<char>) -> Seq<char> {
    let kp = ":"@ + key + ":"@;
    let pad = if utf8_len(kp) < PROPERTY_COLUMN {
        spaces((PROPERTY_COLUMN - utf8_len(kp)) as nat)
    } else {
        seq![' ']
    };
    kp + pad + val + "\n"@
}

/// Bytes `s` takes in UTF-8.
fn utf8_len_exec(s: &[char]) -> (n: usize)
    requires
        s.len() < 0x1000_0000,
    ensures
        n == utf8_len(s@),
{
    let mut n: usize = 0;
    let mut i: usize = 0;
    while i < s.len()
        invariant
            i <= s.len(),
            s.len() < 0x1000_0000,
            n == utf8_len(s@.take(i as int)),
            n <= 4 * i,
        decreases s.len() - i,
    {
        let u = s[i] as u32;
        let w: usize = if u < 0x80 {
            1
        } else if u < 0x800 {
            2
        } else if u < 0x10000 {
            3
        } else {
            4
        };
        assert(s@.take(i + 1).drop_last() =~= s@.take(i as int));
        n = n + w;
        i = i + 1;
    }
    assert(s@.take(s.len() as int) =~= s@);
    n
}

/// Append one drawer line.
fn push_property(out: &mut String, key: &str, val: &str)
    ensures
        final(out)@ == old(out)@ + property_text(key@, val@),
{
    let mut kp: Vec<char> = Vec::new();
    kp.push(':');
    crate::text::push_str_chars(&mut kp, key);
    kp.push(':');
    assert(kp@ =~= ":"@ + key@ + ":"@) by {
        reveal_strlit(":");
    }
    let ks = string_of(&kp);
    out.push_str(ks.as_str());
    if kp.len() < 0x1000_0000 && utf8_len_exec(&kp) < PROPERTY_COLUMN {
        let w = utf8_len_exec(&kp);
        let mut k: usize = w;
        while k < PROPERTY_COLUMN
            invariant
                w <= k <= PROPERTY_COLUMN,
                out@ == old(out)@ + kp@ + spaces((k - w) as nat),
            decreases PROPERTY_COLUMN - k,
        {
            out.push(' ');
            k = k + 1;
            assert(spaces((k - w) as nat) =~= spaces((k - 1 - w) as nat).push(' '));
        }
    } else {
        proof {
            if kp.len() >= 0x1000_0000 {
                lemma_utf8_len_at_least(kp@);
            }
        }
        out.push(' ');
    }
    out.push_str(val);
    out.push_str("\n");
}

pub proof fn lemma_utf8_len_at_least(s: Seq<char>)
    ensures
        utf8_len(s) >= s.len(),
    decreases s.len(),
{
    if s.len() > 0 {
        lemma_utf8_len_at_least(s.drop_last());
    }
}

/// Append to `acc` each candidate present in the drawer and not yet listed.
pub open spec fn add_keys(acc: Seq<Seq<char>>, cands: Seq<Seq<char>>, present: Map<
    Seq<char>,
    String,
>) -> Seq<Seq<char>>
    decreases cands.len(),
{
    if cands.len() == 0 {
        acc
    } else {
        let before = add_keys(acc, cands.drop_last(), present);
        let k = cands.last();
        if present.contains_key(k) && !before.contains(k) {
            before.push(k)
        } else {
            before
        }
    }
}

/// Drawer keys in the order they are written: as they appeared on disk,
/// then the house order, then the rest in ascending order.
pub open spec fn ordered_keys(h: IssueHeading) -> Seq<Seq<char>> {
    let m = h.properties.view();
    add_keys(
        add_keys(
            add_keys(seq![], h.property_order@.map_values(|k: String| k@), m),
            house_property_order(),
            m,
        ),
        h.properties.key_seq(),
        m,
    )
}

/// The drawer lines for `keys`, skipping `ID` (written first) and keys
/// the drawer lacks.
pub open spec fn drawer_text(m: Map<Seq<char>, String>, keys: Seq<Seq<char>>) -> Seq<char>
    decreases keys.len(),
{
    if keys.len() == 0 {
        seq![]
    } else {
        let k = keys.last();
        drawer_text(m, keys.drop_last()) + if k != "ID"@ && m.contains_key(k) {
            property_text(k, m[k]@)
        } else {
            seq![]
        }
    }
}

/// The logbook lines, each ending in a newline.
pub open spec fn logbook_text(entries: Seq<LogEntry>) -> Seq<char>
    decreases entries.len(),
{
    if entries.len() == 0 {
        seq![]
    } else {
        logbook_text(entries.drop_last()) + entry_text(entries.last()@) + "\n"@
    }
}

/// The heading as written into `issues.org`.
pub open spec fn heading_text(h: IssueHeading) -> Seq<char> {
    "* "@ + h.state@ + " [#"@ + seq![h.priority] + "] "@ + h.title@ + "\n"@ + ":PROPERTIES:\n"@
        + property_text("ID"@, h.id@) + drawer_text(h.properties.view(), ordered_keys(h))
        + ":END:\n"@ + (if h.logbook@.len() > 0 {
        ":LOGBOOK:\n"@ + logbook_text(h.logbook@) + ":END:\n"@
    } else {
        seq![]
    }) + (if h.body@.len() > 0 {
        "\n"@ + h.body@ + if h.body@.last() != '\n' {
            "\n"@
        } else {
            seq![]
        }
    } else {
        seq![]
    })
}

/// Whether `v` lists `k`.
fn lists(v: &Vec<String>, k: &str) -> (r: bool)
    ensures
        r == v@.map_values(|x: String| x@).contains(k@),
{
    let mut i: usize = 0;
    while i < v.len()
        invariant
            i <= v.len(),
            forall|j: int| 0 <= j < i ==> #[trigger] v@[j]@ != k@,
        decreases v.len() - i,
    {
        if str_eq(v[i].as_str(), k) {
            assert(v@.map_values(|x: String| x@)[i as int] == k@);
            return true;
        }
        i = i + 1;
    }
    proof {
        let vv = v@.map_values(|x: String| x@);
        if vv.contains(k@) {
            let j = choose|j: int| 0 <= j < vv.len() && vv[j] == k@;
            assert(v@[j]@ == k@);
        }
    }
    false
}

/// Append each candidate present in `m` and not yet listed.
fn add_keys_exec(keys: &mut Vec<String>, cands: &Vec<String>, m: &TextMap<String>)
    ensures
        final(keys)@.map_values(|x: String| x@) == add_keys(
            old(keys)@.map_values(|x: String| x@),
            cands@.map_values(|x: String| x@),
            m.view(),
        ),
{
    let ghost acc0 = keys@.map_values(|x: String| x@);
    let ghost cv = cands@.map_values(|x: String| x@);
    let mut i: usize = 0;
    while i < cands.len()
        invariant
            i <= cands.len(),
            cv == cands@.map_values(|x: String| x@),
            keys@.map_values(|x: String| x@) == add_keys(acc0, cv.take(i as int), m.view()),
        decreases cands.len() - i,
    {
        let k = &cands[i];
        proof {
            assert(cv.take(i + 1).drop_last() =~= cv.take(i as int));
            assert(cv.take(i + 1).last() == k@);
        }
        if m.contains_key(k.as_str()) && !lists(keys, k.as_str()) {
            let ghost before = keys@;
            keys.push(k.clone());
            assert(keys@.map_values(|x: String| x@) =~= before.map_values(|x: String| x@).push(k@));
        }
        i = i + 1;
    }
    assert(cv.take(cands.len() as int) =~= cv);
}

impl IssueHeading {
    /// Drawer keys as they appeared on disk first, then the house order,
    /// then the rest; a hand-arranged drawer is left alone.
    pub fn ordered_property_keys(&self) -> (r: Vec<String>)
        ensures
            r@.map_values(|x: String| x@) == ordered_keys(*self),
    {
        let mut keys: Vec<String> = Vec::new();
        assert(keys@.map_values(|x: String| x@) =~= Seq::<Seq<char>>::empty());
        add_keys_exec(&mut keys, &self.property_order, &self.properties);
        add_keys_exec(&mut keys, &default_property_order(), &self.properties);
        let all = self.properties.keys();
        assert(all@.map_values(|x: String| x@) =~= self.properties.key_seq());
        add_keys_exec(&mut keys, &all, &self.properties);
        keys
    }

    /// The heading as written into `issues.org`.
    pub fn render(&self) -> (r: String)
        ensures
            r@ == heading_text(*self),
    {
        let mut out = String::new();
        out.push_str("* ");
        out.push_str(self.state.as_str());
        out.push_str(" [#");
        out.push(self.priority);
        out.push_str("] ");
        out.push_str(self.title.as_str());
        out.push_str("\n");
        out.push_str(":PROPERTIES:\n");
        push_property(&mut out, "ID", self.id.as_str());
        let keys = self.ordered_property_keys();
        let ghost kv = keys@.map_values(|x: String| x@);
        let ghost head = out@;
        let mut i: usize = 0;
        while i < keys.len()
            invariant
                i <= keys.len(),
                kv == keys@.map_values(|x: String| x@),
                out@ == head + drawer_text(self.properties.view(), kv.take(i as int)),
            decreases keys.len() - i,
        {
            let key = keys[i].as_str();
            proof {
                assert(kv.take(i + 1).drop_last() =~= kv.take(i as int));
                assert(kv.take(i + 1).last() == key@);
                reveal_strlit("ID");
            }
            if !str_eq(key, "ID") {
                if let Some(val) = self.properties.get(key) {
                    push_property(&mut out, key, val.as_str());
                }
            }
            i = i + 1;
            assert(out@ =~= head + drawer_text(self.properties.view(), kv.take(i as int)));
        }
        assert(kv.take(keys.len() as int) =~= kv);
        out.push_str(":END:\n");
        if self.logbook.len() > 0 {
            out.push_str(":LOGBOOK:\n");
            let ghost head2 = out@;
            let mut j: usize = 0;
            while j < self.logbook.len()
                invariant
                    j <= self.logbook.len(),
                    out@ == head2 + logbook_text(self.logbook@.take(j as int)),
                decreases self.logbook.len() - j,
            {
                let line = self.logbook[j].render();
                out.push_str(line.as_str());
                out.push_str("\n");
                j = j + 1;
                assert(self.logbook@.take(j as int).drop_last() =~= self.logbook@.take(j - 1));
                assert(out@ =~= head2 + logbook_text(self.logbook@.take(j as int)));
            }
            assert(self.logbook@.take(self.logbook.len() as int) =~= self.logbook@);
            out.push_str(":END:\n");
        }
        let body = chars_of(self.body.as_str());
        if body.len() > 0 {
            out.push_str("\n");
            out.push_str(self.body.as_str());
            if body[body.len() - 1] != '\n' {
                out.push_str("\n");
            }
        }
        out
    }

    /// Move to `new_state` and put the transition first in the logbook. A
    /// transition to the current state changes nothing. The entry's
    /// timestamp is `now`, the current local time as the caller read it
    /// (`[%Y-%m-%d %a %H:%M]`).
    pub fn record_state_change(&mut self, new_state: &str, now: String)
        ensures
            old(self).state@ == new_state@ ==> *final(self) == *old(self),
            old(self).state@ != new_state@ ==> {
                &&& final(self).state@ == new_state@
                &&& final(self).logbook@.len() == old(self).logbook@.len() + 1
                &&& final(self).logbook@.drop_first() == old(self).logbook@
                &&& final(self).logbook@[0]@.from_state == Some(old(self).state@)
                &&& final(self).logbook@[0]@.to_state == Some(new_state@)
                &&& final(self).logbook@[0]@.note is None
                &&& final(self).logbook@[0]@.raw is None
                &&& final(self).logbook@[0]@.timestamp == now@
                &&& final(self).id == old(self).id
                &&& final(self).title == old(self).title
                &&& final(self).priority == old(self).priority
                &&& final(self).properties == old(self).properties
                &&& final(self).property_order == old(self).property_order
                &&& final(self).body == old(self).body
                &&& final(self).line_start == old(self).line_start
                &&& final(self).line_end == old(self).line_end
            },
    {
        if str_eq(self.state.as_str(), new_state) {
            return;
        }
        let entry = LogEntry {
            timestamp: now,
            from_state: Some(self.state.clone()),
            to_state: Some(new_state.to_owned()),
            note: None,
            raw: None,
        };
        self.logbook.insert(0, entry);
        self.state = new_state.to_owned();
        assert(self.logbook@.drop_first() =~= old(self).logbook@);
    }
}

} // verus!
