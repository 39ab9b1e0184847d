//! Org 9.8 syntax the tracker has to get right.
//!
//! An `issues.org` is an ordinary Org document. The verbs treat a top-level
//! TODO heading as an issue; everything else in the file is still Org, and a
//! construct Org would not treat as a headline or a property drawer must not
//! become one here.
use vstd::prelude::*;
use crate::text::{back_ws, chars_eq, chars_of, chars_of_strings, eq_ignore_case, eq_ignore_case_exec, find_char, find_char_from, find_from, find_seq, holds, holds_exec, is_alnum, is_alphanumeric, is_digit, is_whitespace, is_ws, lead_c, lead_c_exec, lead_ws, lemma_find_char_from, lemma_find_from, lemma_lead_ws, lemma_lead_ws_shift, lemma_rfind_char_before, lemma_trail_ws, lemma_word_end, lemma_word_end_shift, lines, lines_exec, matches_at, matches_at_exec, rfind_char, rfind_char_before, skip_ws, slice_of, split_on, split_on_exec, starts_with, starts_with_exec, string_of, strings_of, trim, trim_c, trim_c_exec, trim_chars, trim_end, trim_end_chars, trim_start, trim_start_chars, unicode_alphanumeric, word_end, word_end_exec, words, words_exec};
use crate::model::{house_keywords, todo_keywords};

verus! {

/// Whether `c` may appear in an Org tag (`[[:alnum:]_@#%]+`).
pub open spec fn tag_char(c: char) -> bool {
    unicode_alphanumeric(c) || c == '_' || c == '@' || c == '#' || c == '%'
}

/// Whether `c` may appear in an Org tag (`[[:alnum:]_@#%]+`).
pub fn is_org_tag_char(c: char) -> (r: bool)
    ensures
        r == tag_char(c),
{
    is_alphanumeric(c) || c == '_' || c == '@' || c == '#' || c == '%'
}

/// A line Org reads as a headline: one or more stars at column 0, then a space.
pub open spec fn headline(s: Seq<char>) -> bool {
    let k = lead_c(s, 0, '*');
    0 < k < s.len() && s[k] == ' '
}

/// A line Org reads as a headline: one or more stars at column 0, then a space.
///
/// A line that merely looks starred (`**bold**`) is not one. Leading
/// whitespace takes the line off the left margin, so it is not one either.
pub fn is_headline(line: &str) -> (r: bool)
    ensures
        r == headline(line@),
{
    let s = chars_of(line);
    let k = lead_c_exec(&s, 0, '*');
    k > 0 && k < s.len() && s[k] == ' '
}

/// A level-one headline: `* ` at column 0. That is an issue site.
pub fn is_top_level_headline(line: &str) -> (r: bool)
    ensures
        r == starts_with(line@, "* "@),
{
    let s = chars_of(line);
    let p = chars_of("* ");
    starts_with_exec(&s, &p)
}

/// `:NAME:` alone on a line, which is how every drawer opens.
pub open spec fn drawer_open(s: Seq<char>) -> bool {
    &&& s.len() > 2
    &&& s[0] == ':'
    &&& s.last() == ':'
    &&& !eq_ignore_case(s, ":END:"@)
    &&& forall|i: int| 1 <= i < s.len() - 1 ==> !is_ws(#[trigger] s[i])
}

/// `:NAME:` alone on a line, which is how every drawer opens.
pub fn opens_a_drawer(trimmed: &str) -> (r: bool)
    ensures
        r == drawer_open(trimmed@),
{
    let s = chars_of(trimmed);
    if s.len() <= 2 || s[0] != ':' || s[s.len() - 1] != ':' {
        return false;
    }
    let end = chars_of(":END:");
    if eq_ignore_case_exec(&s, &end) {
        return false;
    }
    let mut i: usize = 1;
    while i < s.len() - 1
        invariant
            2 < s.len(),
            s@ == trimmed@,
            1 <= i <= s.len() - 1,
            forall|m: int| 1 <= m < i ==> !is_ws(#[trigger] s@[m]),
        decreases s.len() - 1 - i,
    {
        if is_whitespace(s[i]) {
            return false;
        }
        i = i + 1;
    }
    true
}

/// `s` begins with `p`, ASCII case ignored.
pub open spec fn starts_ci(s: Seq<char>, p: Seq<char>) -> bool {
    p.len() <= s.len() && eq_ignore_case(s.subrange(0, p.len() as int), p)
}

fn starts_ci_exec(s: &[char], p: &[char]) -> (r: bool)
    ensures
        r == starts_ci(s@, p@),
{
    if p.len() > s.len() {
        return false;
    }
    let head = slice_of(s, 0, p.len());
    eq_ignore_case_exec(&head, p)
}

pub open spec fn block_begin(t: Seq<char>) -> bool {
    starts_with(t, "#+"@) && (starts_ci(t.subrange(2, t.len() as int), "BEGIN_"@) || starts_ci(
        t.subrange(2, t.len() as int),
        "BEGIN:"@,
    ))
}

pub open spec fn block_end(t: Seq<char>) -> bool {
    starts_with(t, "#+"@) && (starts_ci(t.subrange(2, t.len() as int), "END_"@) || starts_ci(
        t.subrange(2, t.len() as int),
        "END:"@,
    ))
}

fn is_block_begin(t: &[char]) -> (r: bool)
    ensures
        r == block_begin(t@),
{
    let hp = chars_of("#+");
    if !starts_with_exec(t, &hp) {
        return false;
    }
    proof {
        reveal_strlit("#+");
    }
    let rest = slice_of(t, 2, t.len());
    let a = chars_of("BEGIN_");
    let b = chars_of("BEGIN:");
    starts_ci_exec(&rest, &a) || starts_ci_exec(&rest, &b)
}

fn is_block_end(t: &[char]) -> (r: bool)
    ensures
        r == block_end(t@),
{
    let hp = chars_of("#+");
    if !starts_with_exec(t, &hp) {
        return false;
    }
    proof {
        reveal_strlit("#+");
    }
    let rest = slice_of(t, 2, t.len());
    let a = chars_of("END_");
    let b = chars_of("END:");
    starts_ci_exec(&rest, &a) || starts_ci_exec(&rest, &b)
}

/// Nesting of greater blocks (`#+BEGIN_SRC` … `#+END_SRC`) and dynamic
/// blocks (`#+BEGIN: clocktable` … `#+END:`).
///
/// Content inside a block is literal: a line that looks like a headline or a
/// drawer is not one.
#[derive(Debug, Clone)]
pub struct BlockNest {
    depth: usize,
}

impl BlockNest {
    /// How many blocks are open.
    pub closed spec fn depth(&self) -> nat {
        self.depth as nat
    }

    /// Empty nest, at file (or heading) scope.
    pub fn new() -> (r: Self)
        ensures
            r.depth() == 0,
    {
        BlockNest { depth: 0 }
    }

    /// Whether a previous line opened a block that has not yet closed.
    pub fn inside(&self) -> (r: bool)
        ensures
            r == (self.depth() > 0),
    {
        self.depth > 0
    }

    /// Observe `line`. Returns true when the line is part of a block,
    /// including the `#+BEGIN` / `#+END` lines themselves.
    pub fn observe(&mut self, line: &str) -> (r: bool)
        requires
            old(self).depth() < usize::MAX,
        ensures
            ({
                let t = trim_start(line@);
                if block_end(t) {
                    &&& r
                    &&& final(self).depth() == if old(self).depth() > 0 {
                        (old(self).depth() - 1) as nat
                    } else {
                        0
                    }
                } else if block_begin(t) {
                    r && final(self).depth() == old(self).depth() + 1
                } else {
                    r == (old(self).depth() > 0) && final(self).depth() == old(self).depth()
                }
            }),
    {
        let s = chars_of(line);
        let t = trim_start_chars(&s);
        if is_block_end(&t) {
            if self.depth > 0 {
                self.depth = self.depth - 1;
            }
            return true;
        }
        if is_block_begin(&t) {
            self.depth = self.depth + 1;
            return true;
        }
        self.depth > 0
    }
}

/// `#+NAME: value` with `NAME` matching `name` in any case: the value.
pub open spec fn file_keyword(t: Seq<char>, name: Seq<char>) -> Option<Seq<char>> {
    if !starts_with(t, "#+"@) {
        None
    } else {
        let rest = t.subrange(2, t.len() as int);
        match find_char_from(rest, ':', 0) {
            None => None,
            Some(k) => if eq_ignore_case(rest.subrange(0, k), name) {
                Some(rest.subrange(k + 1, rest.len() as int))
            } else {
                None
            },
        }
    }
}

fn strip_file_keyword(t: &[char], name: &[char]) -> (r: Option<Vec<char>>)
    ensures
        match file_keyword(t@, name@) {
            None => r is None,
            Some(v) => r matches Some(w) && w@ == v,
        },
{
    let hp = chars_of("#+");
    if !starts_with_exec(t, &hp) {
        return None;
    }
    proof {
        reveal_strlit("#+");
    }
    let rest = slice_of(t, 2, t.len());
    proof {
        lemma_find_char_from(rest@, ':', 0);
    }
    match find_char(&rest, ':', 0) {
        None => None,
        Some(k) => {
            let key = slice_of(&rest, 0, k);
            if eq_ignore_case_exec(&key, name) {
                Some(slice_of(&rest, k + 1, rest.len()))
            } else {
                None
            }
        },
    }
}

} // verus!

verus! {

/// The keyword a `#+TODO:` token names: the part before a fast-access key.
pub open spec fn token_keyword(tok: Seq<char>) -> Seq<char> {
    match find_char_from(tok, '(', 0) {
        None => tok,
        Some(k) => tok.subrange(0, k),
    }
}

/// Keywords after taking the tokens of one `#+TODO:` line, in order.
pub open spec fn add_keyword_tokens(acc: Seq<Seq<char>>, toks: Seq<Seq<char>>) -> Seq<Seq<char>>
    decreases toks.len(),
{
    if toks.len() == 0 {
        acc
    } else {
        let before = add_keyword_tokens(acc, toks.drop_last());
        let tok = toks.last();
        let name = token_keyword(tok);
        if tok == "|"@ || name.len() == 0 || holds(before, name) {
            before
        } else {
            before.push(name)
        }
    }
}

/// Keywords after reading every `#+TODO:` line among `ls`, in order.
pub open spec fn add_keyword_lines(acc: Seq<Seq<char>>, ls: Seq<Seq<char>>) -> Seq<Seq<char>>
    decreases ls.len(),
{
    if ls.len() == 0 {
        acc
    } else {
        let before = add_keyword_lines(acc, ls.drop_last());
        match file_keyword(trim(ls.last()), "TODO"@) {
            None => before,
            Some(rest) => add_keyword_tokens(before, words(rest)),
        }
    }
}

fn keyword_of_token(tok: &[char]) -> (r: Vec<char>)
    ensures
        r@ == token_keyword(tok@),
{
    match find_char(tok, '(', 0) {
        None => slice_of(tok, 0, tok.len()),
        Some(k) => {
            proof {
                lemma_find_char_from(tok@, '(', 0);
            }
            slice_of(tok, 0, k)
        },
    }
}

fn add_tokens_exec(acc: &mut Vec<Vec<char>>, toks: &Vec<Vec<char>>)
    ensures
        final(acc)@.map_values(|x: Vec<char>| x@) == add_keyword_tokens(
            old(acc)@.map_values(|x: Vec<char>| x@),
            toks@.map_values(|x: Vec<char>| x@),
        ),
{
    let ghost a0 = acc@.map_values(|x: Vec<char>| x@);
    let ghost tv = toks@.map_values(|x: Vec<char>| x@);
    let bar = chars_of("|");
    let mut i: usize = 0;
    while i < toks.len()
        invariant
            i <= toks.len(),
            tv == toks@.map_values(|x: Vec<char>| x@),
            bar@ == "|"@,
            acc@.map_values(|x: Vec<char>| x@) == add_keyword_tokens(a0, tv.subrange(0, i as int)),
        decreases toks.len() - i,
    {
        let ghost before = acc@.map_values(|x: Vec<char>| x@);
        let tok = &toks[i];
        assert(tv.subrange(0, i + 1).drop_last() =~= tv.subrange(0, i as int));
        assert(tv.subrange(0, i + 1).last() == tok@);
        if !chars_eq(tok, &bar) {
            let name = keyword_of_token(tok);
            if name.len() > 0 && !holds_exec(acc, &name) {
                acc.push(name);
                assert(acc@.map_values(|x: Vec<char>| x@) =~= before.push(name@));
            }
        }
        i = i + 1;
    }
    assert(tv.subrange(0, toks.len() as int) =~= tv);
}

fn keywords_from_char_lines(ls: &Vec<Vec<char>>) -> (r: Vec<String>)
    ensures
        r@.map_values(|s: String| s@) == add_keyword_lines(
            house_keywords(),
            ls@.map_values(|x: Vec<char>| x@),
        ),
{
    let house = todo_keywords();
    let mut acc = chars_of_strings(&house);
    let ghost lv = ls@.map_values(|x: Vec<char>| x@);
    let name = chars_of("TODO");
    let mut i: usize = 0;
    while i < ls.len()
        invariant
            i <= ls.len(),
            lv == ls@.map_values(|x: Vec<char>| x@),
            name@ == "TODO"@,
            acc@.map_values(|x: Vec<char>| x@) == add_keyword_lines(
                house_keywords(),
                lv.subrange(0, i as int),
            ),
        decreases ls.len() - i,
    {
        assert(lv.subrange(0, i + 1).drop_last() =~= lv.subrange(0, i as int));
        assert(lv.subrange(0, i + 1).last() == ls@[i as int]@);
        let t = trim_chars(&ls[i]);
        match strip_file_keyword(&t, &name) {
            None => {},
            Some(rest) => {
                let toks = words_exec(&rest);
                add_tokens_exec(&mut acc, &toks);
            },
        }
        i = i + 1;
    }
    assert(lv.subrange(0, ls.len() as int) =~= lv);
    strings_of(&acc)
}

/// File-local TODO keywords from `#+TODO:` lines, plus the house set.
///
/// Fast-access keys (`TODO(t)`, `WAIT(w@)`) are stripped. Several `#+TODO:`
/// lines accumulate. The house keywords stay recognised so a preamble that
/// only lists a subset does not drop STARTED headings.
pub fn todo_keywords_from_preamble(preamble: &str) -> (r: Vec<String>)
    ensures
        r@.map_values(|s: String| s@) == add_keyword_lines(house_keywords(), lines(preamble@)),
{
    let s = chars_of(preamble);
    let ls = lines_exec(&s);
    keywords_from_char_lines(&ls)
}

/// Same as [`todo_keywords_from_preamble`], from already-split lines.
pub fn todo_keywords_from_lines(lines: &[&str]) -> (r: Vec<String>)
    ensures
        r@.map_values(|s: String| s@) == add_keyword_lines(
            house_keywords(),
            lines@.map_values(|l: &str| l@),
        ),
{
    let mut ls: Vec<Vec<char>> = Vec::new();
    let mut i: usize = 0;
    while i < lines.len()
        invariant
            i <= lines.len(),
            ls@.len() == i,
            forall|m: int| 0 <= m < i ==> ls@[m]@ == lines@[m]@,
        decreases lines.len() - i,
    {
        ls.push(chars_of(lines[i]));
        i = i + 1;
    }
    assert(ls@.map_values(|x: Vec<char>| x@) =~= lines@.map_values(|l: &str| l@));
    keywords_from_char_lines(&ls)
}

/// The tags of one `#+FILETAGS:` value, added to `acc` in order.
pub open spec fn add_tags(acc: Seq<Seq<char>>, pieces: Seq<Seq<char>>) -> Seq<Seq<char>>
    decreases pieces.len(),
{
    if pieces.len() == 0 {
        acc
    } else {
        let before = add_tags(acc, pieces.drop_last());
        let tag = trim(pieces.last());
        if tag.len() > 0 && (forall|i: int| 0 <= i < tag.len() ==> tag_char(#[trigger] tag[i]))
            && !holds(before, tag) {
            before.push(tag)
        } else {
            before
        }
    }
}

/// Tags from every `#+FILETAGS:` line among `ls`.
pub open spec fn filetags_of(ls: Seq<Seq<char>>) -> Seq<Seq<char>>
    decreases ls.len(),
{
    if ls.len() == 0 {
        Seq::empty()
    } else {
        let before = filetags_of(ls.drop_last());
        match file_keyword(trim(ls.last()), "FILETAGS"@) {
            None => before,
            Some(rest) => add_tags(before, split_on(trim_c(trim(rest), ':'), ':')),
        }
    }
}

fn all_tag_chars(t: &[char]) -> (r: bool)
    ensures
        r == (forall|i: int| 0 <= i < t@.len() ==> tag_char(#[trigger] t@[i])),
{
    let mut i: usize = 0;
    while i < t.len()
        invariant
            i <= t.len(),
            forall|m: int| 0 <= m < i ==> tag_char(#[trigger] t@[m]),
        decreases t.len() - i,
    {
        if !is_org_tag_char(t[i]) {
            return false;
        }
        i = i + 1;
    }
    true
}

fn add_tags_exec(tags: &mut Vec<Vec<char>>, pieces: &Vec<Vec<char>>)
    ensures
        final(tags)@.map_values(|x: Vec<char>| x@) == add_tags(
            old(tags)@.map_values(|x: Vec<char>| x@),
            pieces@.map_values(|x: Vec<char>| x@),
        ),
{
    let ghost pv = pieces@.map_values(|x: Vec<char>| x@);
    let ghost t0 = tags@.map_values(|x: Vec<char>| x@);
    let mut j: usize = 0;
    while j < pieces.len()
        invariant
            j <= pieces.len(),
            pv == pieces@.map_values(|x: Vec<char>| x@),
            tags@.map_values(|x: Vec<char>| x@) == add_tags(t0, pv.subrange(0, j as int)),
        decreases pieces.len() - j,
    {
        let ghost before = tags@.map_values(|x: Vec<char>| x@);
        assert(pv.subrange(0, j + 1).drop_last() =~= pv.subrange(0, j as int));
        assert(pv.subrange(0, j + 1).last() == pieces@[j as int]@);
        let tag = trim_chars(&pieces[j]);
        if tag.len() > 0 && all_tag_chars(&tag) && !holds_exec(tags, &tag) {
            tags.push(tag);
            assert(tags@.map_values(|x: Vec<char>| x@) =~= before.push(tag@));
        }
        j = j + 1;
    }
    assert(pv.subrange(0, pieces.len() as int) =~= pv);
}

/// Tags from `#+FILETAGS:`.
pub fn filetags_from_preamble(preamble: &str) -> (r: Vec<String>)
    ensures
        r@.map_values(|s: String| s@) == filetags_of(lines(preamble@)),
{
    let s = chars_of(preamble);
    let ls = lines_exec(&s);
    let ghost lv = ls@.map_values(|x: Vec<char>| x@);
    let name = chars_of("FILETAGS");
    let mut tags: Vec<Vec<char>> = Vec::new();
    let mut i: usize = 0;
    assert(tags@.map_values(|x: Vec<char>| x@) =~= filetags_of(lv.subrange(0, 0)));
    while i < ls.len()
        invariant
            i <= ls.len(),
            lv == ls@.map_values(|x: Vec<char>| x@),
            name@ == "FILETAGS"@,
            tags@.map_values(|x: Vec<char>| x@) == filetags_of(lv.subrange(0, i as int)),
        decreases ls.len() - i,
    {
        assert(lv.subrange(0, i + 1).drop_last() =~= lv.subrange(0, i as int));
        assert(lv.subrange(0, i + 1).last() == ls@[i as int]@);
        let t = trim_chars(&ls[i]);
        match strip_file_keyword(&t, &name) {
            None => {},
            Some(rest) => {
                let rt = trim_chars(&rest);
                let inner = trim_c_exec(&rt, ':');
                let pieces = split_on_exec(&inner, ':');
                add_tags_exec(&mut tags, &pieces);
            },
        }
        i = i + 1;
    }
    assert(lv.subrange(0, ls.len() as int) =~= lv);
    strings_of(&tags)
}

} // verus!

verus! {

/// The first whitespace-separated word of `x` and what follows it.
pub open spec fn first_word(x: Seq<char>) -> Option<(Seq<char>, Seq<char>)> {
    let y = trim_start(x);
    if y.len() == 0 {
        None
    } else {
        let e = word_end(y, 0);
        Some((y.subrange(0, e), y.subrange(e, y.len() as int)))
    }
}

/// A leading `[#X]` cookie: the priority character and what follows.
pub open spec fn priority_cookie(x: Seq<char>) -> Option<(char, Seq<char>)> {
    if x.len() >= 4 && x[0] == '[' && x[1] == '#' && x[3] == ']' {
        Some((x[2], x.subrange(4, x.len() as int)))
    } else {
        None
    }
}

/// The keyword step: a listed first word, and the text after it.
pub open spec fn keyword_part(t: Seq<char>, kws: Seq<Seq<char>>) -> (Option<Seq<char>>, Seq<char>) {
    match first_word(t) {
        Some((w, after)) => if holds(kws, w) {
            (Some(w), trim_start(after))
        } else {
            (None, t)
        },
        None => (None, t),
    }
}

/// The priority step: a `[#X]` cookie, and the text after it.
pub open spec fn priority_part(r1: Seq<char>) -> (Option<char>, Seq<char>) {
    match priority_cookie(r1) {
        Some((p, after)) => (Some(p), trim_start(after)),
        None => (None, r1),
    }
}

/// The COMMENT step: whether the next word is `COMMENT`, and the title.
pub open spec fn comment_part(r2: Seq<char>) -> (bool, Seq<char>) {
    match first_word(r2) {
        Some((w, after)) => if eq_ignore_case(w, "COMMENT"@) {
            (true, trim_start(after))
        } else {
            (false, r2)
        },
        None => (false, r2),
    }
}

/// Keyword, priority, COMMENT flag and title of the text after the stars.
pub open spec fn headline_bits(s: Seq<char>, kws: Seq<Seq<char>>) -> (
    Option<Seq<char>>,
    Option<char>,
    bool,
    Seq<char>,
) {
    let (keyword, r1) = keyword_part(trim(s), kws);
    let (priority, r2) = priority_part(r1);
    let (commented, r3) = comment_part(r2);
    (keyword, priority, commented, r3)
}

/// The pieces Org puts on a headline after the stars.
#[derive(Debug, Clone, PartialEq, Eq)]
pub struct HeadlineBits<'a> {
    /// TODO keyword, when the first word is one of `keywords`.
    pub keyword: Option<&'a str>,
    /// Priority cookie character, when `[#X]` follows the keyword.
    pub priority: Option<char>,
    /// Whether the heading carries the `COMMENT` keyword.
    pub commented: bool,
    /// Title text, including a trailing tag run and statistics cookies.
    pub rest: &'a str,
}

fn trim_start_suffix(cur: &[char], k: usize) -> (r: usize)
    requires
        k <= cur.len(),
    ensures
        k <= r <= cur.len(),
        cur@.subrange(r as int, cur.len() as int) == trim_start(
            cur@.subrange(k as int, cur.len() as int),
        ),
{
    let r = skip_ws(cur, k);
    proof {
        lemma_lead_ws(cur@, k as int);
        lemma_lead_ws_shift(cur@, k as int);
        let x = cur@.subrange(k as int, cur.len() as int);
        assert(x.subrange(lead_ws(x, 0), x.len() as int) =~= cur@.subrange(
            r as int,
            cur.len() as int,
        ));
    }
    r
}

fn first_word_suffix(cur: &[char], k: usize) -> (r: Option<(usize, usize)>)
    requires
        k <= cur.len(),
    ensures
        match first_word(cur@.subrange(k as int, cur.len() as int)) {
            None => r is None,
            Some((w, after)) => r matches Some((ws, we)) && k <= ws <= we <= cur.len()
                && cur@.subrange(ws as int, we as int) == w && cur@.subrange(
                we as int,
                cur.len() as int,
            ) == after,
        },
{
    let l = trim_start_suffix(cur, k);
    if l == cur.len() {
        return None;
    }
    let e = word_end_exec(cur, l);
    proof {
        let y = cur@.subrange(l as int, cur.len() as int);
        lemma_word_end_shift(cur@, l as int);
        lemma_word_end(cur@, l as int);
        assert(y.subrange(0, e - l) =~= cur@.subrange(l as int, e as int));
        assert(y.subrange(e - l, y.len() as int) =~= cur@.subrange(e as int, cur.len() as int));
    }
    Some((l, e))
}

fn keyword_step(t: &[char], kws: &Vec<Vec<char>>) -> (r: (Option<(usize, usize)>, usize))
    ensures
        ({
            let (kw, r1) = keyword_part(t@, kws@.map_values(|x: Vec<char>| x@));
            &&& r.1 <= t.len()
            &&& t@.subrange(r.1 as int, t.len() as int) == r1
            &&& match kw {
                None => r.0 is None,
                Some(w) => r.0 matches Some((ws, we)) && ws <= we <= t.len() && t@.subrange(
                    ws as int,
                    we as int,
                ) == w,
            }
        }),
{
    assert(t@.subrange(0, t.len() as int) =~= t@);
    match first_word_suffix(t, 0) {
        Some((ws, we)) => {
            let w = slice_of(t, ws, we);
            if holds_exec(kws, &w) {
                let k = trim_start_suffix(t, we);
                return (Some((ws, we)), k);
            }
            (None, 0)
        },
        None => (None, 0),
    }
}

fn priority_step(t: &[char], k: usize) -> (r: (Option<char>, usize))
    requires
        k <= t.len(),
    ensures
        ({
            let (p, r2) = priority_part(t@.subrange(k as int, t.len() as int));
            &&& r.0 == p
            &&& k <= r.1 <= t.len()
            &&& t@.subrange(r.1 as int, t.len() as int) == r2
        }),
{
    let n = t.len();
    let ghost r1 = t@.subrange(k as int, n as int);
    if n - k >= 4 && t[k] == '[' && t[k + 1] == '#' && t[k + 3] == ']' {
        assert(r1.subrange(4, r1.len() as int) =~= t@.subrange(k + 4, n as int));
        let k2 = trim_start_suffix(t, k + 4);
        (Some(t[k + 2]), k2)
    } else {
        (None, k)
    }
}

fn comment_step(t: &[char], k: usize) -> (r: (bool, usize))
    requires
        k <= t.len(),
    ensures
        ({
            let (c, r3) = comment_part(t@.subrange(k as int, t.len() as int));
            &&& r.0 == c
            &&& k <= r.1 <= t.len()
            &&& t@.subrange(r.1 as int, t.len() as int) == r3
        }),
{
    let comment = chars_of("COMMENT");
    match first_word_suffix(t, k) {
        Some((ws, we)) => {
            let w = slice_of(t, ws, we);
            if eq_ignore_case_exec(&w, &comment) {
                let k2 = trim_start_suffix(t, we);
                return (true, k2);
            }
            (false, k)
        },
        None => (false, k),
    }
}

/// Split the text after `* ` into keyword, priority, COMMENT, and title.
pub fn parse_headline_bits<'a>(after_stars: &'a str, keywords: &[String]) -> (r: HeadlineBits<'a>)
    ensures
        ({
            let (k, p, c, rest) = headline_bits(
                after_stars@,
                keywords@.map_values(|s: String| s@),
            );
            &&& match k {
                None => r.keyword is None,
                Some(w) => r.keyword matches Some(x) && x@ == w,
            }
            &&& r.priority == p
            &&& r.commented == c
            &&& r.rest@ == rest
        }),
{
    let cs = chars_of(after_stars);
    let kws = chars_of_strings(keywords);
    let t = trim_chars(&cs);
    let a = skip_ws(&cs, 0);
    let n = t.len();
    proof {
        lemma_lead_ws(cs@, 0);
        lemma_trail_ws(cs@, cs@.len() as int);
        if n > 0 {
            assert(t@ =~= cs@.subrange(a as int, a + n));
        }
    }
    let (keyword, k1) = keyword_step(&t, &kws);
    let (priority, k2) = priority_step(&t, k1);
    let (commented, k3) = comment_step(&t, k2);
    let kw: Option<&'a str> = match keyword {
        Some((ws, we)) => {
            proof {
                assert(t@.subrange(ws as int, we as int) =~= cs@.subrange(a + ws, a + we));
            }
            Some(after_stars.substring_char(a + ws, a + we))
        },
        None => None,
    };
    let rest: &'a str = if n > 0 {
        assert(t@.subrange(k3 as int, n as int) =~= cs@.subrange(a + k3, a + n));
        after_stars.substring_char(a + k3, a + n)
    } else {
        assert(cs@.subrange(0, 0) =~= t@.subrange(k3 as int, n as int));
        after_stars.substring_char(0, 0)
    };
    HeadlineBits { keyword: kw, priority, commented, rest }
}

/// Split a leading `[#A]` cookie off a heading. Any other shape yields `None`.
pub fn parse_priority_cookie(after: &str) -> (r: Option<(char, &str)>)
    ensures
        match priority_cookie(after@) {
            None => r is None,
            Some((p, rest)) => r matches Some((q, x)) && q == p && x@ == rest,
        },
{
    let cs = chars_of(after);
    if cs.len() >= 4 && cs[0] == '[' && cs[1] == '#' && cs[3] == ']' {
        Some((cs[2], after.substring_char(4, cs.len())))
    } else {
        None
    }
}

/// A cookie `[#c]` written before any text `s` splits back into `c` and `s`,
/// and whatever splits as a cookie is one written that way: text that does
/// not open with `[#`, or whose fourth character is not `]`, has none.
pub proof fn lemma_priority_cookie_round_trip(c: char, s: Seq<char>, x: Seq<char>)
    ensures
        priority_cookie(seq!['[', '#', c, ']'] + s) == Some((c, s)),
        priority_cookie(x) matches Some((p, rest)) ==> x == seq!['[', '#', p, ']'] + rest,
{
    let w = seq!['[', '#', c, ']'] + s;
    assert(w[0] == '[' && w[1] == '#' && w[2] == c && w[3] == ']');
    assert(w.subrange(4, w.len() as int) =~= s);
    if priority_cookie(x) is Some {
        assert(x =~= seq!['[', '#', x[2], ']'] + x.subrange(4, x.len() as int));
    }
}

/// A top-level heading that is an issue: recognised TODO keyword, not COMMENT.
pub open spec fn issue_headline(line: Seq<char>, kws: Seq<Seq<char>>) -> bool {
    starts_with(line, "* "@) && {
        let (k, _, c, _) = headline_bits(line.subrange(2, line.len() as int), kws);
        k is Some && !c
    }
}

/// A top-level heading that is an issue: recognised TODO keyword, not COMMENT.
pub fn is_issue_headline(line: &str, keywords: &[String]) -> (r: bool)
    ensures
        r == issue_headline(line@, keywords@.map_values(|s: String| s@)),
{
    let cs = chars_of(line);
    let p = chars_of("* ");
    if !starts_with_exec(&cs, &p) {
        return false;
    }
    proof {
        reveal_strlit("* ");
    }
    let after = line.substring_char(2, cs.len());
    let bits = parse_headline_bits(after, keywords);
    bits.keyword.is_some() && !bits.commented
}

} // verus!

verus! {

pub open spec fn all_digit_chars(s: Seq<char>) -> bool {
    forall|i: int| 0 <= i < s.len() ==> is_digit(#[trigger] s[i])
}

/// `[2/5]` or `[40%]`: digits on both sides of one slash, or digits and `%`.
pub open spec fn stat_cookie(c: Seq<char>) -> bool {
    c.len() >= 2 && c[0] == '[' && c.last() == ']' && {
        let inner = c.subrange(1, c.len() - 1);
        match find_char_from(inner, '/', 0) {
            Some(k) => {
                let a = inner.subrange(0, k);
                let b = inner.subrange(k + 1, inner.len() as int);
                a.len() > 0 && b.len() > 0 && all_digit_chars(a) && all_digit_chars(b)
            },
            None => inner.len() >= 2 && inner.last() == '%' && all_digit_chars(
                inner.subrange(0, inner.len() - 1),
            ),
        }
    }
}

/// The title left once trailing statistics cookies are peeled off, and the
/// cookies in the order they were written.
pub open spec fn peel_cookies(t: Seq<char>) -> (Seq<char>, Seq<Seq<char>>)
    decreases t.len(),
{
    match rfind_char_before(t, '[', t.len() as int) {
        None => (t, Seq::empty()),
        Some(open) => {
            if 0 <= open < t.len() && t.last() == ']' && stat_cookie(t.subrange(open, t.len() as int))
                && !(open > 0 && !is_ws(t[open - 1])) {
                let prefix = trim_end(t.subrange(0, open));
                proof {
                    lemma_trail_ws(t.subrange(0, open), open);
                }
                let (rest, cs) = peel_cookies(prefix);
                (rest, cs.push(t.subrange(open, t.len() as int)))
            } else {
                (t, Seq::empty())
            }
        },
    }
}

/// `join(sep)`.
pub open spec fn join(parts: Seq<Seq<char>>, sep: Seq<char>) -> Seq<char>
    decreases parts.len(),
{
    if parts.len() == 0 {
        Seq::empty()
    } else if parts.len() == 1 {
        parts[0]
    } else {
        join(parts.drop_last(), sep) + sep + parts.last()
    }
}

/// Title and cookie run of a heading title.
pub open spec fn statistics_split(text: Seq<char>) -> (Seq<char>, Option<Seq<char>>) {
    let (rest, cs) = peel_cookies(trim_end(text));
    if cs.len() == 0 {
        (trim_end(text), None)
    } else {
        (rest, Some(join(cs, " "@)))
    }
}

fn all_digit_exec(s: &[char], a: usize, b: usize) -> (r: bool)
    requires
        a <= b <= s.len(),
    ensures
        r == all_digit_chars(s@.subrange(a as int, b as int)),
{
    let mut i = a;
    while i < b
        invariant
            a <= i <= b <= s.len(),
            forall|m: int| a <= m < i ==> is_digit(#[trigger] s@[m]),
        decreases b - i,
    {
        if !(s[i] >= '0' && s[i] <= '9') {
            assert(s@.subrange(a as int, b as int)[i - a] == s@[i as int]);
            return false;
        }
        i = i + 1;
    }
    assert forall|m: int| 0 <= m < b - a implies is_digit(
        #[trigger] s@.subrange(a as int, b as int)[m],
    ) by {
        assert(s@.subrange(a as int, b as int)[m] == s@[a + m]);
    }
    true
}

fn is_statistics_cookie(c: &[char]) -> (r: bool)
    ensures
        r == stat_cookie(c@),
{
    if c.len() < 2 || c[0] != '[' || c[c.len() - 1] != ']' {
        return false;
    }
    let inner = slice_of(c, 1, c.len() - 1);
    proof {
        lemma_find_char_from(inner@, '/', 0);
    }
    match find_char(&inner, '/', 0) {
        Some(k) => {
            k > 0 && k + 1 < inner.len() && all_digit_exec(&inner, 0, k) && all_digit_exec(
                &inner,
                k + 1,
                inner.len(),
            )
        },
        None => {
            inner.len() >= 2 && inner[inner.len() - 1] == '%' && all_digit_exec(
                &inner,
                0,
                inner.len() - 1,
            )
        },
    }
}

fn peel_exec(t: &[char]) -> (r: (Vec<char>, Vec<Vec<char>>))
    ensures
        r.0@ == peel_cookies(t@).0,
        r.1@.map_values(|x: Vec<char>| x@) == peel_cookies(t@).1,
    decreases t.len(),
{
    proof {
        lemma_rfind_char_before(t@, '[', t@.len() as int);
    }
    match rfind_char(t, '[', t.len()) {
        None => (slice_of(t, 0, t.len()), Vec::new()),
        Some(open) => {
            let cookie = slice_of(t, open, t.len());
            if t[t.len() - 1] == ']' && is_statistics_cookie(&cookie) && !(open > 0
                && !is_whitespace(t[open - 1])) {
                let head = slice_of(t, 0, open);
                let prefix = trim_end_chars(&head);
                proof {
                    lemma_trail_ws(head@, open as int);
                }
                let (rest, mut cs) = peel_exec(&prefix);
                let ghost before = cs@.map_values(|x: Vec<char>| x@);
                cs.push(cookie);
                assert(cs@.map_values(|x: Vec<char>| x@) =~= before.push(t@.subrange(
                    open as int,
                    t.len() as int,
                )));
                (rest, cs)
            } else {
                assert(t@.subrange(0, t.len() as int) =~= t@);
                (slice_of(t, 0, t.len()), Vec::new())
            }
        },
    }
}

fn join_exec(parts: &Vec<Vec<char>>, sep: &[char]) -> (r: Vec<char>)
    ensures
        r@ == join(parts@.map_values(|x: Vec<char>| x@), sep@),
{
    let ghost pv = parts@.map_values(|x: Vec<char>| x@);
    let mut out: Vec<char> = Vec::new();
    let mut i: usize = 0;
    while i < parts.len()
        invariant
            i <= parts.len(),
            pv == parts@.map_values(|x: Vec<char>| x@),
            out@ == join(pv.subrange(0, i as int), sep@),
        decreases parts.len() - i,
    {
        assert(pv.subrange(0, i + 1).drop_last() =~= pv.subrange(0, i as int));
        if i > 0 {
            let mut k: usize = 0;
            let ghost o0 = out@;
            while k < sep.len()
                invariant
                    k <= sep.len(),
                    out@ == o0 + sep@.subrange(0, k as int),
                decreases sep.len() - k,
            {
                out.push(sep[k]);
                k = k + 1;
                assert(o0 + sep@.subrange(0, k as int) =~= (o0 + sep@.subrange(0, k - 1)).push(
                    sep@[k - 1],
                ));
            }
            assert(sep@.subrange(0, sep.len() as int) =~= sep@);
        }
        let ghost o1 = out@;
        let p = &parts[i];
        let mut k: usize = 0;
        while k < p.len()
            invariant
                k <= p.len(),
                out@ == o1 + p@.subrange(0, k as int),
            decreases p.len() - k,
        {
            out.push(p[k]);
            k = k + 1;
            assert(o1 + p@.subrange(0, k as int) =~= (o1 + p@.subrange(0, k - 1)).push(
                p@[k - 1],
            ));
        }
        assert(p@.subrange(0, p.len() as int) =~= p@);
        proof {
            if i == 0 {
                assert(pv.subrange(0, 1) =~= seq![p@]);
                assert(o1 =~= Seq::<char>::empty());
                assert(out@ =~= p@);
            }
        }
        i = i + 1;
    }
    assert(pv.subrange(0, parts.len() as int) =~= pv);
    out
}

/// Split trailing statistics cookies (`[2/5]`, `[33%]`) off a title.
///
/// Cookies sit after the title and before the tag run.
pub fn split_statistics_cookies(text: &str) -> (r: (String, Option<String>))
    ensures
        ({
            let (title, cookies) = statistics_split(text@);
            &&& r.0@ == title
            &&& match cookies {
                None => r.1 is None,
                Some(c) => r.1 matches Some(x) && x@ == c,
            }
        }),
{
    let cs = chars_of(text);
    let t = trim_end_chars(&cs);
    let (rest, cookies) = peel_exec(&t);
    if cookies.len() == 0 {
        (string_of(&t), None)
    } else {
        let sp = chars_of(" ");
        let joined = join_exec(&cookies, &sp);
        (string_of(&rest), Some(string_of(&joined)))
    }
}

/// Property key as written, with a trailing `+` (append) stripped.
pub fn property_key_and_append(key: &str) -> (r: (&str, bool))
    ensures
        if key@.len() > 1 && key@.last() == '+' {
            r.0@ == key@.drop_last() && r.1
        } else {
            r.0@ == key@ && !r.1
        },
{
    let cs = chars_of(key);
    if cs.len() > 1 && cs[cs.len() - 1] == '+' {
        assert(key@.subrange(0, cs.len() - 1) =~= key@.drop_last());
        (key.substring_char(0, cs.len() - 1), true)
    } else {
        (key, false)
    }
}

} // verus!

verus! {

/// The stamp ending at `c` and what follows it.
pub open spec fn stamp_split(s: Seq<char>, l: int, c: int) -> Option<(Seq<char>, Seq<char>)> {
    Some((trim_end(s.subrange(l, c)), trim_start(s.subrange(c, s.len() as int))))
}

/// One Org timestamp or timestamp range at the start of `s`, and the rest.
///
/// Active `<>`, inactive `[]`, diary sexps `<%%(...)>`, time ranges on one
/// stamp, and ranges of two stamps joined by `--`. Repeaters and warnings live
/// inside the brackets, so the first closing delimiter is enough.
pub open spec fn timestamp(s: Seq<char>) -> Option<(Seq<char>, Seq<char>)> {
    let l = lead_ws(s, 0);
    if l < 0 || l >= s.len() {
        None
    } else if matches_at(s, l, "<%%"@) {
        match find_char_from(s, '>', l) {
            None => None,
            Some(e) => stamp_split(s, l, e + 1),
        }
    } else if s[l] != '<' && s[l] != '[' {
        None
    } else {
        let close = if s[l] == '<' {
            '>'
        } else {
            ']'
        };
        match find_char_from(s, close, l) {
            None => None,
            Some(e) => {
                let c1 = e + 1;
                if matches_at(s, c1, "--"@) {
                    let a = lead_ws(s, c1 + 2);
                    if 0 <= a < s.len() && (s[a] == '<' || s[a] == '[') {
                        let close2 = if s[a] == '[' {
                            ']'
                        } else {
                            '>'
                        };
                        match find_char_from(s, close2, a) {
                            None => None,
                            Some(e2) => stamp_split(s, l, e2 + 1),
                        }
                    } else {
                        stamp_split(s, l, c1)
                    }
                } else {
                    stamp_split(s, l, c1)
                }
            },
        }
    }
}

/// Where the stamp at the start of `s` ends, in `s`'s own indices.
fn stamp_end(s: &[char]) -> (r: Option<(usize, usize)>)
    ensures
        match timestamp(s@) {
            None => r is None,
            Some(pair) => r matches Some((l, c)) && l <= c <= s.len() && stamp_split(
                s@,
                l as int,
                c as int,
            ) == Some(pair),
        },
{
    let l = skip_ws(s, 0);
    if l >= s.len() {
        return None;
    }
    let diary = chars_of("<%%");
    if matches_at_exec(s, l, &diary) {
        proof {
            lemma_find_char_from(s@, '>', l as int);
        }
        return match find_char(s, '>', l) {
            None => None,
            Some(e) => Some((l, e + 1)),
        };
    }
    if s[l] != '<' && s[l] != '[' {
        return None;
    }
    let close = if s[l] == '<' {
        '>'
    } else {
        ']'
    };
    proof {
        lemma_find_char_from(s@, close, l as int);
    }
    let e = match find_char(s, close, l) {
        None => return None,
        Some(e) => e,
    };
    let c1 = e + 1;
    let dash = chars_of("--");
    if matches_at_exec(s, c1, &dash) {
        proof {
            reveal_strlit("--");
        }
        let a = skip_ws(s, c1 + 2);
        if a < s.len() && (s[a] == '<' || s[a] == '[') {
            let close2 = if s[a] == '[' {
                ']'
            } else {
                '>'
            };
            proof {
                lemma_find_char_from(s@, close2, a as int);
            }
            return match find_char(s, close2, a) {
                None => None,
                Some(e2) => Some((l, e2 + 1)),
            };
        }
    }
    Some((l, c1))
}

/// Consume one Org timestamp or timestamp range at the start of `s`.
pub fn take_timestamp(s: &str) -> (r: Option<(&str, &str)>)
    ensures
        match timestamp(s@) {
            None => r is None,
            Some((ts, rest)) => r matches Some((a, b)) && a@ == ts && b@ == rest,
        },
{
    let cs = chars_of(s);
    match stamp_end(&cs) {
        None => None,
        Some((l, c)) => {
            let head = slice_of(&cs, l, c);
            let e = back_ws(&head, head.len());
            let tail = slice_of(&cs, c, cs.len());
            let b = skip_ws(&tail, 0);
            proof {
                lemma_trail_ws(head@, head@.len() as int);
                lemma_lead_ws(tail@, 0);
                assert(head@.subrange(0, e as int) =~= cs@.subrange(l as int, l + e));
                assert(tail@.subrange(b as int, tail.len() as int) =~= cs@.subrange(
                    c + b,
                    cs.len() as int,
                ));
            }
            Some((s.substring_char(l, l + e), s.substring_char(c + b, cs.len())))
        },
    }
}

/// The first planning key that `rest` opens with, followed by a colon.
pub open spec fn planning_key(rest: Seq<char>) -> Option<Seq<char>> {
    if starts_with(rest, "CLOSED:"@) {
        Some("CLOSED"@)
    } else if starts_with(rest, "SCHEDULED:"@) {
        Some("SCHEDULED"@)
    } else if starts_with(rest, "DEADLINE:"@) {
        Some("DEADLINE"@)
    } else {
        None
    }
}

pub proof fn lemma_timestamp_shrinks(s: Seq<char>)
    ensures
        timestamp(s) matches Some((_, next)) ==> next.len() < s.len(),
{
    lemma_lead_ws(s, 0);
    let l = lead_ws(s, 0);
    if 0 <= l < s.len() {
        lemma_find_char_from(s, '>', l);
        lemma_find_char_from(s, ']', l);
        if let Some((_, next)) = timestamp(s) {
            assert forall|c: int| l < c <= s.len() implies trim_start(
                s.subrange(c, s.len() as int),
            ).len() < s.len() by {
                lemma_lead_ws(s.subrange(c, s.len() as int), 0);
            }
            let c1 = match find_char_from(s, if s[l] == '<' {
                '>'
            } else {
                ']'
            }, l) {
                Some(e) => e + 1,
                None => 0,
            };
            if 0 < c1 && matches_at(s, c1, "--"@) {
                reveal_strlit("--");
                lemma_lead_ws(s, c1 + 2);
                let a = lead_ws(s, c1 + 2);
                if 0 <= a < s.len() {
                    lemma_find_char_from(s, '>', a);
                    lemma_find_char_from(s, ']', a);
                }
            }
        }
    }
}

/// The `KEY -> timestamp` pairs of a planning line, or `None` for other text.
pub open spec fn planning(rest: Seq<char>) -> Option<Seq<(Seq<char>, Seq<char>)>>
    decreases rest.len(),
{
    if rest.len() == 0 {
        Some(Seq::empty())
    } else {
        match planning_key(rest) {
            None => None,
            Some(key) => {
                let after = trim_start(rest.subrange(key.len() + 1int, rest.len() as int));
                match timestamp(after) {
                    None => None,
                    Some((ts, next)) => {
                        proof {
                            reveal_strlit("CLOSED:");
                            reveal_strlit("SCHEDULED:");
                            reveal_strlit("DEADLINE:");
                            reveal_strlit("CLOSED");
                            reveal_strlit("SCHEDULED");
                            reveal_strlit("DEADLINE");
                            lemma_timestamp_shrinks(after);
                            lemma_lead_ws(rest.subrange(key.len() + 1int, rest.len() as int), 0);
                        }
                        match planning(next) {
                            None => None,
                            Some(more) => Some(seq![(key, ts)] + more),
                        }
                    },
                }
            },
        }
    }
}

/// Read an Org planning line into `KEY -> timestamp` pairs.
///
/// Org packs several onto one line. A line holding anything else is not a
/// planning line at all, so a body sentence that opens on `DEADLINE:` stays
/// body.
pub fn parse_planning_line(line: &str) -> (r: Vec<(String, String)>)
    ensures
        match planning(trim(line@)) {
            None => r@.len() == 0,
            Some(pairs) => r@.map_values(|p: (String, String)| (p.0@, p.1@)) == pairs,
        },
{
    let cs = chars_of(line);
    let rest = trim_chars(&cs);
    match planning_exec(&rest) {
        None => Vec::new(),
        Some(v) => v,
    }
}

fn planning_key_exec(rest: &[char]) -> (r: Option<Vec<char>>)
    ensures
        match planning_key(rest@) {
            None => r is None,
            Some(k) => r matches Some(x) && x@ == k,
        },
{
    let closed = chars_of("CLOSED:");
    let scheduled = chars_of("SCHEDULED:");
    let deadline = chars_of("DEADLINE:");
    if starts_with_exec(rest, &closed) {
        Some(chars_of("CLOSED"))
    } else if starts_with_exec(rest, &scheduled) {
        Some(chars_of("SCHEDULED"))
    } else if starts_with_exec(rest, &deadline) {
        Some(chars_of("DEADLINE"))
    } else {
        None
    }
}

fn planning_exec(rest: &[char]) -> (r: Option<Vec<(String, String)>>)
    ensures
        match planning(rest@) {
            None => r is None,
            Some(pairs) => r matches Some(v) && v@.map_values(|p: (String, String)| (p.0@, p.1@))
                == pairs,
        },
    decreases rest.len(),
{
    if rest.len() == 0 {
        let v: Vec<(String, String)> = Vec::new();
        assert(v@.map_values(|p: (String, String)| (p.0@, p.1@)) =~= Seq::<
            (Seq<char>, Seq<char>),
        >::empty());
        return Some(v);
    }
    let key = match planning_key_exec(rest) {
        None => return None,
        Some(k) => k,
    };
    proof {
        reveal_strlit("CLOSED:");
        reveal_strlit("SCHEDULED:");
        reveal_strlit("DEADLINE:");
        reveal_strlit("CLOSED");
        reveal_strlit("SCHEDULED");
        reveal_strlit("DEADLINE");
    }
    let tail = slice_of(rest, key.len() + 1, rest.len());
    let after = trim_start_chars(&tail);
    let (l, c) = match stamp_end(&after) {
        None => return None,
        Some(p) => p,
    };
    let head = slice_of(&after, l, c);
    let ts = trim_end_chars(&head);
    let t2 = slice_of(&after, c, after.len());
    let next = trim_start_chars(&t2);
    proof {
        lemma_timestamp_shrinks(after@);
        lemma_lead_ws(tail@, 0);
    }
    match planning_exec(&next) {
        None => None,
        Some(more) => {
            let mut v: Vec<(String, String)> = Vec::new();
            v.push((string_of(&key), string_of(&ts)));
            let ghost mv = more@;
            let mut more = more;
            v.append(&mut more);
            assert(v@.map_values(|p: (String, String)| (p.0@, p.1@)) =~= seq![(key@, ts@)]
                + mv.map_values(|p: (String, String)| (p.0@, p.1@)));
            Some(v)
        },
    }
}

/// Whether `trimmed` opens a planning line (any planning key and a colon).
pub fn is_planning_line(trimmed: &str) -> (r: bool)
    ensures
        r == (planning_key(trimmed@) is Some),
{
    let cs = chars_of(trimmed);
    planning_key_exec(&cs).is_some()
}

} // verus!

verus! {

/// The link target of `[[target][description]]` text.
pub open spec fn link_target(raw: Seq<char>) -> Seq<char> {
    match find_from(raw, "]["@, 0) {
        Some(k) => raw.subrange(0, k),
        None => raw,
    }
}

/// Last index at or before `k` where `pat` starts.
pub open spec fn rfind_seq(s: Seq<char>, pat: Seq<char>, k: int) -> Option<int>
    decreases k + 1,
{
    if k < 0 {
        None
    } else if matches_at(s, k, pat) {
        Some(k)
    } else {
        rfind_seq(s, pat, k - 1)
    }
}

pub open spec fn strip_hash(x: Seq<char>) -> Seq<char> {
    if x.len() > 0 && x[0] == '#' {
        x.subrange(1, x.len() as int)
    } else {
        x
    }
}

/// The id a link names: `id:` dropped, a `file::#frag` search read as `frag`.
pub open spec fn resolve_target(raw: Seq<char>) -> Seq<char> {
    let t = trim(raw);
    let t = if starts_with(t, "id:"@) {
        t.subrange(3, t.len() as int)
    } else {
        t
    };
    let t = match rfind_seq(t, "::"@, t.len() - 2) {
        Some(k) => strip_hash(t.subrange(k + 2, t.len() as int)),
        None => t,
    };
    strip_hash(t)
}

pub open spec fn push_target(targets: Seq<Seq<char>>, raw: Seq<char>, known: Seq<Seq<char>>) -> Seq<
    Seq<char>,
> {
    let t = resolve_target(raw);
    if holds(known, t) && !holds(targets, t) {
        targets.push(t)
    } else {
        targets
    }
}

/// Targets of `[[...]]` links from `p` on.
pub open spec fn scan_brackets(
    body: Seq<char>,
    p: int,
    targets: Seq<Seq<char>>,
    known: Seq<Seq<char>>,
) -> Seq<Seq<char>>
    decreases body.len() - p,
{
    if p < 0 || p > body.len() {
        targets
    } else {
        match find_from(body, "[["@, p) {
            None => targets,
            Some(st) => match find_from(body, "]]"@, st + 2) {
                None => targets,
                Some(e) => {
                    proof {
                        reveal_strlit("[[");
                        reveal_strlit("]]");
                        lemma_find_from(body, "[["@, p);
                        lemma_find_from(body, "]]"@, st + 2);
                    }
                    if p < e + 2 {
                        scan_brackets(
                            body,
                            e + 2,
                            push_target(targets, link_target(body.subrange(st + 2, e)), known),
                            known,
                        )
                    } else {
                        targets
                    }
                },
            },
        }
    }
}

/// Targets of `<...>` links from `p` on.
pub open spec fn scan_angles(
    body: Seq<char>,
    p: int,
    targets: Seq<Seq<char>>,
    known: Seq<Seq<char>>,
) -> Seq<Seq<char>>
    decreases body.len() - p,
{
    if p < 0 || p > body.len() {
        targets
    } else {
        match find_char_from(body, '<', p) {
            None => targets,
            Some(st) => match find_char_from(body, '>', st + 1) {
                None => targets,
                Some(e) => {
                    proof {
                        lemma_find_char_from(body, '<', p);
                        lemma_find_char_from(body, '>', st + 1);
                    }
                    if p < e + 1 {
                        scan_angles(
                            body,
                            e + 1,
                            push_target(targets, body.subrange(st + 1, e), known),
                            known,
                        )
                    } else {
                        targets
                    }
                },
            },
        }
    }
}

pub open spec fn id_char(c: char) -> bool {
    is_alnum(c) || c == '_' || c == '-'
}

/// End of the run of id characters that starts at `i`.
pub open spec fn id_run_end(s: Seq<char>, i: int) -> int
    decreases s.len() - i,
{
    if 0 <= i < s.len() && id_char(s[i]) {
        id_run_end(s, i + 1)
    } else {
        i
    }
}

pub proof fn lemma_id_run_end(s: Seq<char>, i: int)
    requires
        0 <= i <= s.len(),
    ensures
        i <= id_run_end(s, i) <= s.len(),
    decreases s.len() - i,
{
    if i < s.len() && id_char(s[i]) {
        lemma_id_run_end(s, i + 1);
    }
}

pub proof fn lemma_rfind_seq(s: Seq<char>, pat: Seq<char>, k: int)
    ensures
        rfind_seq(s, pat, k) matches Some(j) ==> j <= k && matches_at(s, j, pat),
    decreases k + 1,
{
    if k >= 0 && !matches_at(s, k, pat) {
        lemma_rfind_seq(s, pat, k - 1);
    }
}

/// Bare `id:` mentions from `p` on; `None` where the scan would step into the
/// middle of a character or past the end.
pub open spec fn scan_bare(
    body: Seq<char>,
    p: int,
    targets: Seq<Seq<char>>,
    known: Seq<Seq<char>>,
) -> Option<Seq<Seq<char>>>
    decreases body.len() - p,
{
    if p < 0 || p > body.len() {
        Some(targets)
    } else {
        match find_from(body, "id:"@, p) {
            None => Some(targets),
            Some(st) => {
                proof {
                    reveal_strlit("id:");
                    lemma_find_from(body, "id:"@, p);
                    lemma_id_run_end(body, st + 3);
                }
                let a = st + 3;
                let l = id_run_end(body, a);
                let id = body.subrange(a, l);
                let t2 = if id.len() > 0 && holds(known, id) && !holds(targets, id) {
                    targets.push(id)
                } else {
                    targets
                };
                if l > a {
                    if p < l {
                        scan_bare(body, l, t2, known)
                    } else {
                        None
                    }
                } else if a >= body.len() || (body[a] as u32) >= 128 {
                    None
                } else if p < a + 1 {
                    scan_bare(body, a + 1, t2, known)
                } else {
                    None
                }
            },
        }
    }
}

/// Ids named by Org links in `body` that are among `known`, in the order the
/// three link forms are scanned.
pub open spec fn link_targets(body: Seq<char>, known: Seq<Seq<char>>) -> Option<Seq<Seq<char>>> {
    scan_bare(
        body,
        0,
        scan_angles(body, 0, scan_brackets(body, 0, Seq::empty(), known), known),
        known,
    )
}

fn rfind_seq_exec(s: &[char], pat: &[char]) -> (r: Option<usize>)
    ensures
        match rfind_seq(s@, pat@, s@.len() - pat@.len()) {
            None => r is None,
            Some(k) => r matches Some(x) && x == k,
        },
{
    if pat.len() > s.len() {
        return None;
    }
    let mut k = s.len() - pat.len();
    loop
        invariant
            k <= s.len() - pat.len(),
            pat.len() <= s.len(),
            rfind_seq(s@, pat@, k as int) == rfind_seq(s@, pat@, s@.len() - pat@.len()),
        decreases k,
    {
        if matches_at_exec(s, k, pat) {
            return Some(k);
        }
        if k == 0 {
            assert(rfind_seq(s@, pat@, -1) is None);
            return None;
        }
        k = k - 1;
    }
}

fn strip_hash_exec(x: Vec<char>) -> (r: Vec<char>)
    ensures
        r@ == strip_hash(x@),
{
    if x.len() > 0 && x[0] == '#' {
        slice_of(&x, 1, x.len())
    } else {
        x
    }
}

fn resolve_target_exec(raw: &[char]) -> (r: Vec<char>)
    ensures
        r@ == resolve_target(raw@),
{
    let t = trim_chars(raw);
    let idp = chars_of("id:");
    let t = if starts_with_exec(&t, &idp) {
        proof {
            reveal_strlit("id:");
        }
        slice_of(&t, 3, t.len())
    } else {
        t
    };
    let sep = chars_of("::");
    proof {
        reveal_strlit("::");
        lemma_rfind_seq(t@, sep@, t@.len() - sep@.len());
    }
    let t = match rfind_seq_exec(&t, &sep) {
        Some(k) => {
            assert(matches_at(t@, k as int, sep@));
            assert(sep@.len() == 2);
            assert(k + 2 <= t@.len());
            assert(t@.len() == t.len());
            strip_hash_exec(slice_of(&t, k + 2, t.len()))
        },
        None => t,
    };
    strip_hash_exec(t)
}

fn push_target_exec(targets: &mut Vec<Vec<char>>, raw: &[char], known: &Vec<Vec<char>>)
    ensures
        final(targets)@.map_values(|x: Vec<char>| x@) == push_target(
            old(targets)@.map_values(|x: Vec<char>| x@),
            raw@,
            known@.map_values(|x: Vec<char>| x@),
        ),
{
    let t = resolve_target_exec(raw);
    if holds_exec(known, &t) && !holds_exec(targets, &t) {
        let ghost before = targets@.map_values(|x: Vec<char>| x@);
        targets.push(t);
        assert(targets@.map_values(|x: Vec<char>| x@) =~= before.push(resolve_target(raw@)));
    }
}

fn link_target_exec(raw: &[char]) -> (r: Vec<char>)
    ensures
        r@ == link_target(raw@),
{
    let sep = chars_of("][");
    match find_seq(raw, &sep, 0) {
        Some(k) => {
            proof {
                lemma_find_from(raw@, sep@, 0);
            }
            slice_of(raw, 0, k)
        },
        None => slice_of(raw, 0, raw.len()),
    }
}

fn id_run_end_exec(s: &[char], i: usize) -> (r: usize)
    requires
        i <= s.len(),
    ensures
        r == id_run_end(s@, i as int),
        i <= r <= s.len(),
{
    let mut k = i;
    while k < s.len() && (('a' <= s[k] && s[k] <= 'z') || ('A' <= s[k] && s[k] <= 'Z') || ('0'
        <= s[k] && s[k] <= '9') || s[k] == '_' || s[k] == '-')
        invariant
            i <= k <= s.len(),
            id_run_end(s@, k as int) == id_run_end(s@, i as int),
        decreases s.len() - k,
    {
        k = k + 1;
    }
    k
}

fn scan_brackets_exec(b: &[char], p: usize, targets: &mut Vec<Vec<char>>, known: &Vec<Vec<char>>)
    requires
        p <= b.len(),
    ensures
        final(targets)@.map_values(|x: Vec<char>| x@) == scan_brackets(
            b@,
            p as int,
            old(targets)@.map_values(|x: Vec<char>| x@),
            known@.map_values(|x: Vec<char>| x@),
        ),
    decreases b.len() - p,
{
    let open2 = chars_of("[[");
    let close2 = chars_of("]]");
    proof {
        reveal_strlit("[[");
        reveal_strlit("]]");
        lemma_find_from(b@, open2@, p as int);
    }
    let st = match find_seq(b, &open2, p) {
        None => return ,
        Some(st) => st,
    };
    proof {
        lemma_find_from(b@, close2@, st + 2);
    }
    let e = match find_seq(b, &close2, st + 2) {
        None => return ,
        Some(e) => e,
    };
    let raw = slice_of(b, st + 2, e);
    let target = link_target_exec(&raw);
    push_target_exec(targets, &target, known);
    scan_brackets_exec(b, e + 2, targets, known);
}

fn scan_angles_exec(b: &[char], p: usize, targets: &mut Vec<Vec<char>>, known: &Vec<Vec<char>>)
    requires
        p <= b.len(),
    ensures
        final(targets)@.map_values(|x: Vec<char>| x@) == scan_angles(
            b@,
            p as int,
            old(targets)@.map_values(|x: Vec<char>| x@),
            known@.map_values(|x: Vec<char>| x@),
        ),
    decreases b.len() - p,
{
    proof {
        lemma_find_char_from(b@, '<', p as int);
    }
    let st = match find_char(b, '<', p) {
        None => return ,
        Some(st) => st,
    };
    proof {
        lemma_find_char_from(b@, '>', st + 1);
    }
    let e = match find_char(b, '>', st + 1) {
        None => return ,
        Some(e) => e,
    };
    let raw = slice_of(b, st + 1, e);
    push_target_exec(targets, &raw, known);
    scan_angles_exec(b, e + 1, targets, known);
}

fn scan_bare_exec(b: &[char], p: usize, targets: &mut Vec<Vec<char>>, known: &Vec<Vec<char>>) -> (ok: bool)
    requires
        p <= b.len(),
    ensures
        ok == scan_bare(
            b@,
            p as int,
            old(targets)@.map_values(|x: Vec<char>| x@),
            known@.map_values(|x: Vec<char>| x@),
        ) is Some,
        ok ==> scan_bare(
            b@,
            p as int,
            old(targets)@.map_values(|x: Vec<char>| x@),
            known@.map_values(|x: Vec<char>| x@),
        ) == Some(final(targets)@.map_values(|x: Vec<char>| x@)),
    decreases b.len() - p,
{
    let idp = chars_of("id:");
    proof {
        reveal_strlit("id:");
        lemma_find_from(b@, idp@, p as int);
    }
    let st = match find_seq(b, &idp, p) {
        None => return true,
        Some(st) => st,
    };
    let a = st + 3;
    proof {
        lemma_id_run_end(b@, a as int);
    }
    let l = id_run_end_exec(b, a);
    let id = slice_of(b, a, l);
    let ghost before = targets@.map_values(|x: Vec<char>| x@);
    if id.len() > 0 && holds_exec(known, &id) && !holds_exec(targets, &id) {
        targets.push(id);
        assert(targets@.map_values(|x: Vec<char>| x@) =~= before.push(b@.subrange(
            a as int,
            l as int,
        )));
    }
    if l > a {
        scan_bare_exec(b, l, targets, known)
    } else if a >= b.len() || (b[a] as u32) >= 128 {
        false
    } else {
        scan_bare_exec(b, a + 1, targets, known)
    }
}

/// Ids named by Org links in `body` that also sit in `known_ids`.
///
/// `[[id:foo]]`, `[[id:foo][desc]]`, `<id:foo>`, and a bare `id:foo`.
/// `[[foo]]` and `[[file:x.org::foo]]` still resolve when the target or the
/// search fragment is a known id.
pub fn org_link_targets(body: &str, known_ids: &[String]) -> (r: Vec<String>)
    requires
        link_targets(body@, known_ids@.map_values(|s: String| s@)) is Some,
    ensures
        link_targets(body@, known_ids@.map_values(|s: String| s@)) == Some(
            r@.map_values(|s: String| s@),
        ),
{
    let b = chars_of(body);
    let known = chars_of_strings(known_ids);
    let mut targets: Vec<Vec<char>> = Vec::new();
    assert(targets@.map_values(|x: Vec<char>| x@) =~= Seq::<Seq<char>>::empty());
    scan_brackets_exec(&b, 0, &mut targets, &known);
    scan_angles_exec(&b, 0, &mut targets, &known);
    let _ = scan_bare_exec(&b, 0, &mut targets, &known);
    strings_of(&targets)
}

/// [`org_link_targets`] on any text: `None` on a body whose bare `id:` link
/// is followed by a character that the link scan cannot step over (the end
/// of the text, or a non-ASCII character), where the list is not defined.
pub fn org_link_targets_checked(body: &str, known_ids: &[String]) -> (r: Option<Vec<String>>)
    ensures
        match link_targets(body@, known_ids@.map_values(|s: String| s@)) {
            Some(v) => r matches Some(t) && t@.map_values(|s: String| s@) == v,
            None => r is None,
        },
{
    let b = chars_of(body);
    let known = chars_of_strings(known_ids);
    let mut targets: Vec<Vec<char>> = Vec::new();
    assert(targets@.map_values(|x: Vec<char>| x@) =~= Seq::<Seq<char>>::empty());
    scan_brackets_exec(&b, 0, &mut targets, &known);
    scan_angles_exec(&b, 0, &mut targets, &known);
    if scan_bare_exec(&b, 0, &mut targets, &known) {
        Some(strings_of(&targets))
    } else {
        None
    }
}

} // verus!
