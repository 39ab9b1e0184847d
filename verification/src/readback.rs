//! What the tracker reads back of what it writes: a logbook entry, and the
//! keyword, cookie and title of a headline.
use vstd::prelude::*;

use crate::model::{
    IssueHeading, LogView, entry_text, heading_text, log_line, log_prefix_view, trail_newline,
    upper_seq,
};
use crate::org::{first_word, headline_bits};
use crate::text::{
    find_char_from, find_from, is_ws, lead_c, lead_ws, lemma_find_char_from, lemma_find_from,
    lemma_lead_ws, lemma_rfind_char_before, lemma_word_end, matches_at, rfind_char_before,
    starts_with, trail_c, trail_ws, trim, trim_c, trim_start, word_end, eq_ignore_case, holds,
};

verus! {

/// A timestamp in brackets with no other bracket inside.
pub open spec fn bracketed(ts: Seq<char>) -> bool {
    &&& ts.len() >= 2
    &&& ts[0] == '['
    &&& ts[ts.len() - 1] == ']'
    &&& forall|i: int| 0 < i < ts.len() - 1 ==> #[trigger] ts[i] != '[' && ts[i] != ']'
}

/// Text without a double quote.
pub open spec fn unquoted(s: Seq<char>) -> bool {
    forall|i: int| 0 <= i < s.len() ==> #[trigger] s[i] != '"'
}

/// Optional text without a double quote.
pub open spec fn opt_unquoted(o: Option<Seq<char>>) -> bool {
    match o {
        Some(s) => unquoted(s),
        None => true,
    }
}

/// An entry that the drawer writes and reads back unchanged: a verbatim
/// `CLOCK:` line without its line ending, or a state change, note or bare
/// stamp whose timestamp is bracketed and whose quoted fields hold no quote,
/// a state change naming its new state (and no note), the new state not
/// holding ` from `, and a note not empty.
pub open spec fn clean_entry(e: LogView) -> bool {
    match e.raw {
        Some(r) => {
            &&& e.timestamp.len() == 0
            &&& e.from_state is None
            &&& e.to_state is None
            &&& e.note is None
            &&& starts_with(upper_seq(trim(r)), "CLOCK:"@)
            &&& r.len() > 0
            &&& r[r.len() - 1] != '\r'
            &&& r[r.len() - 1] != '\n'
        },
        None => {
            &&& bracketed(e.timestamp)
            &&& (e.from_state is Some ==> e.to_state is Some)
            &&& (e.to_state is Some ==> e.note is None)
            &&& opt_unquoted(e.to_state)
            &&& opt_unquoted(e.from_state)
            &&& opt_unquoted(e.note)
            &&& match e.to_state {
                Some(t) => find_from(t, " from "@, 0) is None,
                None => true,
            }
            &&& match e.note {
                Some(n) => n.len() > 0,
                None => true,
            }
        },
    }
}

/// `x` between double quotes.
pub open spec fn quoted(x: Seq<char>) -> Seq<char> {
    "\""@ + x + "\""@
}

proof fn lemma_trim_plain(s: Seq<char>)
    requires
        s.len() > 0,
        !is_ws(s[0]),
        !is_ws(s[s.len() - 1]),
    ensures
        trim(s) == s,
{
    assert(lead_ws(s, 0) == 0);
    assert(trail_ws(s, s.len() as int) == s.len());
    assert(s.subrange(0, s.len() as int) =~= s);
}

proof fn lemma_trim_space_after(p: Seq<char>)
    requires
        p.len() > 0,
        !is_ws(p[0]),
        !is_ws(p[p.len() - 1]),
    ensures
        trim(p + " "@) == p,
{
    reveal_strlit(" ");
    let s = p + " "@;
    assert(s[0] == p[0]);
    assert(s[s.len() - 1] == ' ');
    assert(s[s.len() - 2] == p[p.len() - 1]);
    assert(lead_ws(s, 0) == 0);
    assert(trail_ws(s, s.len() - 1) == s.len() - 1);
    assert(trail_ws(s, s.len() as int) == s.len() - 1);
    assert(s.subrange(0, s.len() - 1) =~= p);
}

proof fn lemma_trim_c_quoted(x: Seq<char>)
    requires
        unquoted(x),
    ensures
        trim_c(quoted(x), '"') == x,
{
    reveal_strlit("\"");
    let s = quoted(x);
    assert(s.len() == x.len() + 2);
    assert(s[0] == '"');
    assert(s[s.len() - 1] == '"');
    if x.len() == 0 {
        assert(s[1] == '"');
        assert(lead_c(s, 2, '"') == 2);
        assert(lead_c(s, 1, '"') == 2);
        assert(lead_c(s, 0, '"') == 2);
        assert(trail_c(s, 0, '"') == 0);
        assert(trail_c(s, 1, '"') == 0);
        assert(trail_c(s, 2, '"') == 0);
        assert(trim_c(s, '"') =~= x);
    } else {
        assert(s[1] == x[0]);
        assert(s[s.len() - 2] == x[x.len() - 1]);
        assert(lead_c(s, 1, '"') == 1);
        assert(lead_c(s, 0, '"') == 1);
        assert(trail_c(s, s.len() - 1, '"') == s.len() - 1);
        assert(trail_c(s, s.len() as int, '"') == s.len() - 1);
        assert(s.subrange(1, s.len() - 1) =~= x);
    }
}

/// ` from ` cannot start inside a quoted word that holds no ` from `.
proof fn lemma_no_from_in_quoted(x: Seq<char>, tail: Seq<char>, m: int)
    requires
        unquoted(x),
        find_from(x, " from "@, 0) is None,
        0 <= m < x.len() + 2,
    ensures
        !matches_at(quoted(x) + tail, m, " from "@),
{
    reveal_strlit(" from ");
    reveal_strlit("\"");
    let pat = " from "@;
    let s = quoted(x) + tail;
    lemma_find_from(x, pat, 0);
    if matches_at(s, m, pat) {
        let w = s.subrange(m, m + 6);
        assert(w == pat);
        if m == 0 {
            assert(w[0] == s[0]);
            assert(s[0] == '"');
        } else if m + 6 <= x.len() + 1 {
            assert(x.subrange(m - 1, m + 5) =~= w);
            assert(matches_at(x, m - 1, pat));
        } else {
            let q: int = x.len() + 1 - m;
            assert(0 <= q < 6);
            assert(w[q] == s[x.len() + 1int]);
            assert(s[x.len() + 1int] == '"');
            assert(pat[q] != '"');
        }
    }
}

/// The part of a line after `- `, up to the bracketed stamp, shaped as the
/// drawer writes it: nothing, or words ending in a quote and a space.
pub open spec fn prefix_shape(p: Seq<char>) -> bool {
    p.len() == 0 || (p.len() >= 2 && !is_ws(p[0]) && p[0] != '[' && p[p.len() - 1] == ' '
        && p[p.len() - 2] == '"')
}

/// A dash line cut into its prefix and its stamp.
proof fn lemma_dash_line(p: Seq<char>, ts: Seq<char>)
    requires
        bracketed(ts),
        prefix_shape(p),
    ensures
        log_line("- "@ + p + ts) == log_prefix_view(
            ts,
            if p.len() == 0 {
                p
            } else {
                p.subrange(0, p.len() - 1)
            },
        ),
{
    reveal_strlit("- ");
    reveal_strlit("CLOCK:");
    let line = "- "@ + p + ts;
    let n = line.len();
    assert(line[0] == '-');
    assert(line[n - 1] == ts[ts.len() - 1]);
    lemma_trim_plain(line);
    let t = trim(line);
    assert(upper_seq(t)[0] == '-');
    assert(!starts_with(upper_seq(t), "CLOCK:"@)) by {
        if starts_with(upper_seq(t), "CLOCK:"@) {
            assert(upper_seq(t).subrange(0, 6)[0] == upper_seq(t)[0]);
        }
    }
    let d = t.drop_first();
    assert(d[0] == ' ');
    if p.len() > 0 {
        assert(d[1] == p[0]);
    } else {
        assert(d[1] == ts[0]);
    }
    assert(lead_ws(d, 1) == 1);
    assert(lead_ws(d, 0) == 1);
    let body = trim_start(d);
    assert(body =~= p + ts);
    let b = p.len() as int;
    assert(body[b] == '[');
    lemma_rfind_char_before(body, '[', body.len() as int);
    assert(rfind_char_before(body, '[', body.len() as int) == Some(b)) by {
        match rfind_char_before(body, '[', body.len() as int) {
            Some(k) => {
                if k < b {
                    assert(body[b] != '[');
                } else if k > b {
                    assert(body[k] == ts[k - b]);
                }
            },
            None => {
                assert(body[b] != '[');
            },
        }
    }
    let e = body.len() - 1;
    assert(body[e] == ']');
    lemma_find_char_from(body, ']', b);
    assert(find_char_from(body, ']', b) == Some(e)) by {
        match find_char_from(body, ']', b) {
            Some(k) => {
                if k < e {
                    assert(body[k] == ts[k - b]);
                } else if k > e {
                }
            },
            None => {
                assert(body[e] != ']');
            },
        }
    }
    assert(body.subrange(b, e + 1) =~= ts);
    assert(body.subrange(0, b) =~= p);
    let p0 = trim(p);
    if p.len() == 0 {
        assert(p0 =~= p);
        assert(trail_c(p0, 0, ',') == 0);
        assert(p0.subrange(0, 0) =~= p);
    } else {
        let core = p.subrange(0, p.len() - 1);
        assert(core + " "@ =~= p) by {
            reveal_strlit(" ");
        }
        assert(core[0] == p[0]);
        assert(core[core.len() - 1] == '"');
        lemma_trim_space_after(core);
        assert(p0 == core);
        assert(trail_c(p0, p0.len() as int, ',') == p0.len());
        assert(p0.subrange(0, p0.len() as int) =~= p0);
    }
}

proof fn lemma_change_round_trip(to: Seq<char>, from: Seq<char>, ts: Seq<char>)
    requires
        bracketed(ts),
        unquoted(to),
        unquoted(from),
        find_from(to, " from "@, 0) is None,
    ensures
        log_line("- State \""@ + to + "\" from \""@ + from + "\" "@ + ts) == (LogView {
            timestamp: ts,
            from_state: Some(from),
            to_state: Some(to),
            note: None,
            raw: None,
        }),
{
    reveal_strlit("- State \"");
    reveal_strlit("\" from \"");
    reveal_strlit("\" ");
    reveal_strlit("- ");
    reveal_strlit("State ");
    reveal_strlit("State \"");
    reveal_strlit(" from ");
    reveal_strlit("\"");
    let p = "State \""@ + to + "\" from \""@ + from + "\" "@;
    assert("- State \""@ + to + "\" from \""@ + from + "\" "@ + ts =~= "- "@ + p + ts);
    assert(p[p.len() - 1] == ' ');
    assert(p[p.len() - 2] == '"');
    lemma_dash_line(p, ts);
    let pt = p.subrange(0, p.len() - 1);
    assert(starts_with(pt, "State "@)) by {
        assert(pt.subrange(0, 6) =~= "State "@);
    }
    let rest = pt.subrange(6, pt.len() as int);
    let tail = " from "@ + quoted(from);
    assert(rest =~= quoted(to) + tail);
    let k: int = to.len() + 2int;
    assert(matches_at(rest, k, " from "@)) by {
        assert(rest.subrange(k, k + 6) =~= " from "@);
    }
    lemma_find_from(rest, " from "@, 0);
    assert(find_from(rest, " from "@, 0) == Some(k)) by {
        match find_from(rest, " from "@, 0) {
            Some(j) => {
                if j < k {
                    lemma_no_from_in_quoted(to, tail, j);
                }
            },
            None => {},
        }
    }
    assert(rest.subrange(0, k) =~= quoted(to));
    assert(rest.subrange(k + 6, rest.len() as int) =~= quoted(from));
    lemma_trim_plain(quoted(to));
    lemma_trim_plain(quoted(from));
    lemma_trim_c_quoted(to);
    lemma_trim_c_quoted(from);
}

proof fn lemma_state_round_trip(to: Seq<char>, ts: Seq<char>)
    requires
        bracketed(ts),
        unquoted(to),
        find_from(to, " from "@, 0) is None,
    ensures
        log_line("- State \""@ + to + "\" "@ + ts) == (LogView {
            timestamp: ts,
            from_state: None,
            to_state: Some(to),
            note: None,
            raw: None,
        }),
{
    reveal_strlit("- State \"");
    reveal_strlit("\" ");
    reveal_strlit("- ");
    reveal_strlit("State ");
    reveal_strlit("State \"");
    reveal_strlit(" from ");
    reveal_strlit("\"");
    let p = "State \""@ + to + "\" "@;
    assert("- State \""@ + to + "\" "@ + ts =~= "- "@ + p + ts);
    assert(p[p.len() - 1] == ' ');
    assert(p[p.len() - 2] == '"');
    lemma_dash_line(p, ts);
    let pt = p.subrange(0, p.len() - 1);
    assert(starts_with(pt, "State "@)) by {
        assert(pt.subrange(0, 6) =~= "State "@);
    }
    let rest = pt.subrange(6, pt.len() as int);
    assert(rest =~= quoted(to) + Seq::<char>::empty());
    lemma_find_from(rest, " from "@, 0);
    assert(find_from(rest, " from "@, 0) is None) by {
        match find_from(rest, " from "@, 0) {
            Some(j) => {
                lemma_no_from_in_quoted(to, Seq::<char>::empty(), j);
            },
            None => {},
        }
    }
    lemma_trim_plain(quoted(to));
    lemma_trim_c_quoted(to);
}

proof fn lemma_note_round_trip(n: Seq<char>, ts: Seq<char>)
    requires
        bracketed(ts),
        unquoted(n),
        n.len() > 0,
    ensures
        log_line("- Note: \""@ + n + "\" "@ + ts) == (LogView {
            timestamp: ts,
            from_state: None,
            to_state: None,
            note: Some(n),
            raw: None,
        }),
{
    reveal_strlit("- Note: \"");
    reveal_strlit("Note: \"");
    reveal_strlit("\" ");
    reveal_strlit("- ");
    reveal_strlit("State ");
    reveal_strlit("Note:");
    reveal_strlit(" ");
    reveal_strlit("\"");
    let p = "Note: \""@ + n + "\" "@;
    assert("- Note: \""@ + n + "\" "@ + ts =~= "- "@ + p + ts);
    assert(p[p.len() - 1] == ' ');
    assert(p[p.len() - 2] == '"');
    lemma_dash_line(p, ts);
    let pt = p.subrange(0, p.len() - 1);
    assert(!starts_with(pt, "State "@)) by {
        if starts_with(pt, "State "@) {
            assert(pt.subrange(0, 6)[0] == 'N');
        }
    }
    assert(starts_with(pt, "Note:"@)) by {
        assert(pt.subrange(0, 5) =~= "Note:"@);
    }
    let sub = pt.subrange(5, pt.len() as int);
    assert(sub =~= " "@ + quoted(n));
    assert(lead_ws(sub, 1) == 1);
    assert(lead_ws(sub, 0) == 1);
    assert(trail_ws(sub, sub.len() as int) == sub.len());
    assert(trim(sub) =~= quoted(n));
    lemma_trim_c_quoted(n);
}

/// A `CLOCK:` line without its line ending reads back verbatim, and an entry
/// the drawer writes with a bracketed stamp and quote-free fields reads back
/// as itself: parsing what rendering wrote gives back the entry.
pub proof fn lemma_log_line_round_trip(e: LogView)
    requires
        clean_entry(e),
    ensures
        log_line(entry_text(e)) == e,
{
    match e.raw {
        Some(r) => {
            assert(trail_newline(r, r.len() as int) == r.len());
            assert(r.subrange(0, r.len() as int) =~= r);
            assert(e.timestamp =~= Seq::<char>::empty());
            assert(entry_text(e) == r);
        },
        None => {
            let ts = e.timestamp;
            match (e.to_state, e.from_state) {
                (Some(to), Some(from)) => {
                    lemma_change_round_trip(to, from, ts);
                },
                (Some(to), None) => {
                    lemma_state_round_trip(to, ts);
                },
                (None, _) => {
                    match e.note {
                        Some(n) => {
                            lemma_note_round_trip(n, ts);
                        },
                        None => {
                            reveal_strlit("- ");
                            reveal_strlit("State ");
                            reveal_strlit("Note:");
                            let p = Seq::<char>::empty();
                            assert("- "@ + ts =~= "- "@ + p + ts);
                            lemma_dash_line(p, ts);
                            assert(!starts_with(p, "State "@));
                            assert(!starts_with(p, "Note:"@));
                        },
                    }
                },
            }
        },
    }
}

/// The text after the stars on the headline a heading writes.
pub open spec fn headline_of(h: IssueHeading) -> Seq<char> {
    h.state@ + " [#"@ + seq![h.priority] + "] "@ + h.title@
}

/// A heading whose headline reads back as written: its state one word that
/// `keywords` lists, its title without space at either end and not opening
/// with the word `COMMENT`.
pub open spec fn plain_headline(h: IssueHeading, keywords: Seq<Seq<char>>) -> bool {
    &&& holds(keywords, h.state@)
    &&& h.state@.len() > 0
    &&& forall|k: int| 0 <= k < h.state@.len() ==> !is_ws(#[trigger] h.state@[k])
    &&& (h.title@.len() == 0 || (!is_ws(h.title@[0]) && !is_ws(h.title@[h.title@.len() - 1])))
    &&& match first_word(h.title@) {
        Some((w, _)) => !eq_ignore_case(w, "COMMENT"@),
        None => true,
    }
}

/// The headline a heading writes opens its text, and reading it back gives
/// the heading's state as the keyword, its cookie, no `COMMENT`, and its
/// title.
pub proof fn lemma_headline_round_trip(h: IssueHeading, keywords: Seq<Seq<char>>)
    requires
        plain_headline(h, keywords),
    ensures
        heading_text(h).subrange(0, headline_of(h).len() + 2int) == "* "@ + headline_of(h),
        headline_bits(headline_of(h), keywords) == (Some(h.state@), Some(h.priority), false, h.title@),
{
    reveal_strlit("* ");
    reveal_strlit(" [#");
    reveal_strlit("] ");
    reveal_strlit(" ");
    let st = h.state@;
    let ti = h.title@;
    let s = headline_of(h);
    assert(heading_text(h).subrange(0, s.len() + 2int) =~= "* "@ + s);
    let n: int = st.len() as int;
    // The text as trimmed: all of it, or without the space a missing title leaves.
    let t = if ti.len() == 0 {
        st + " [#"@ + seq![h.priority] + "]"@
    } else {
        s
    };
    assert(s[0] == st[0]);
    if ti.len() == 0 {
        reveal_strlit("]");
        assert(s[s.len() - 1] == ' ');
        assert(s[s.len() - 2] == ']');
        assert(lead_ws(s, 0) == 0);
        assert(trail_ws(s, s.len() - 1) == s.len() - 1);
        assert(trail_ws(s, s.len() as int) == s.len() - 1);
        assert(trim(s) =~= t);
    } else {
        assert(s[s.len() - 1] == ti[ti.len() - 1]);
        lemma_trim_plain(s);
    }
    assert(trim(s) == t);
    // The keyword: the first word, up to the space before the cookie.
    assert(lead_ws(t, 0) == 0);
    assert(trim_start(t) =~= t);
    assert(t[n] == ' ');
    lemma_word_end(t, 0);
    assert(word_end(t, 0) == n) by {
        if word_end(t, 0) < n {
            assert(t[word_end(t, 0)] == st[word_end(t, 0)]);
        } else if word_end(t, 0) > n {
            assert(!is_ws(t[n]));
        }
    }
    assert(t.subrange(0, n) =~= st);
    let after = t.subrange(n, t.len() as int);
    assert(first_word(t) == Some((st, after)));
    assert(after[0] == ' ');
    assert(after[1] == '[');
    assert(lead_ws(after, 1) == 1);
    assert(lead_ws(after, 0) == 1);
    let r1 = trim_start(after);
    assert(r1 =~= after.subrange(1, after.len() as int));
    // The cookie.
    assert(r1[0] == '[' && r1[1] == '#' && r1[2] == h.priority && r1[3] == ']');
    let tail = r1.subrange(4, r1.len() as int);
    let r2 = trim_start(tail);
    if ti.len() == 0 {
        assert(tail.len() == 0);
        assert(lead_ws(tail, 0) == 0);
        assert(r2 =~= ti);
    } else {
        assert(tail =~= " "@ + ti);
        assert(tail[1] == ti[0]);
        assert(lead_ws(tail, 1) == 1);
        assert(lead_ws(tail, 0) == 1);
        assert(r2 =~= ti);
    }
}

} // verus!

verus! {

/// A drawer line kept verbatim: not blank once trimmed, and either an org
/// `CLOCK:` line in any letter case or one that does not open with a dash.
pub open spec fn verbatim_line(s: Seq<char>) -> bool {
    let t = trim(s);
    t.len() > 0 && (starts_with(upper_seq(t), "CLOCK:"@) || t[0] != '-')
}

/// Reading a drawer line (`parse_log_line`) and writing it out again
/// (`LogEntry::render`) gives the line back, less its line ending: a line kept verbatim (a `CLOCK:` line, say), or one that
/// the drawer writes for an entry `e` it reads back unchanged.
pub proof fn lemma_log_line_rewrites_itself(s: Seq<char>, e: LogView)
    requires
        verbatim_line(s) || (clean_entry(e) && s == entry_text(e)),
    ensures
        entry_text(log_line(s)) == s.subrange(0, trail_newline(s, s.len() as int)),
{
    if !verbatim_line(s) {
        lemma_log_line_round_trip(e);
        match e.raw {
            Some(r) => {
                assert(s == r);
            },
            None => {
                let ts = e.timestamp;
                assert(s.len() >= ts.len());
                assert(s.last() == ts.last()) by {
                    match (e.to_state, e.from_state) {
                        (Some(to), Some(from)) => {
                            assert(s == ("- State \""@ + to + "\" from \""@ + from + "\" "@) + ts);
                        },
                        (Some(to), None) => {
                            assert(s == ("- State \""@ + to + "\" "@) + ts);
                        },
                        _ => match e.note {
                            Some(n) => {
                                assert(s == ("- Note: \""@ + n + "\" "@) + ts);
                            },
                            None => {
                                assert(s == "- "@ + ts);
                            },
                        },
                    }
                }
            },
        }
        assert(trail_newline(s, s.len() as int) == s.len());
        assert(s.subrange(0, s.len() as int) =~= s);
    }
}

} // verus!

verus! {

/// A note line `- Note: "n" [t]` that `parse_log_line` reads and
/// `LogEntry::render` writes back comes out unchanged, for any note `n`
/// that is not empty and holds no double quote, and a stamp text `t` with
/// no bracket.
pub proof fn lemma_note_line_rewrites_itself(n: Seq<char>, t: Seq<char>)
    requires
        n.len() > 0,
        unquoted(n),
        forall|i: int| 0 <= i < t.len() ==> #[trigger] t[i] != '[' && t[i] != ']',
    ensures
        entry_text(log_line("- Note: \""@ + n + "\" ["@ + t + "]"@)) == "- Note: \""@ + n + "\" ["@ + t + "]"@,
{
    reveal_strlit("\" [");
    reveal_strlit("\" ");
    reveal_strlit("[");
    reveal_strlit("]");
    let ts = "["@ + t + "]"@;
    assert(bracketed(ts)) by {
        assert forall|i: int| 0 < i < ts.len() - 1 implies #[trigger] ts[i] != '[' && ts[i] != ']' by {
            assert(ts[i] == t[i - 1]);
        }
    }
    let e = LogView { timestamp: ts, from_state: None, to_state: None, note: Some(n), raw: None };
    assert(clean_entry(e));
    let s = "- Note: \""@ + n + "\" ["@ + t + "]"@;
    assert(s =~= entry_text(e));
    lemma_log_line_rewrites_itself(s, e);
    assert(s.len() > 0 && s.last() == ']');
    assert(trail_newline(s, s.len() as int) == s.len());
    assert(s.subrange(0, s.len() as int) =~= s);
}

} // verus!
