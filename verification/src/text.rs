//! Character-level text primitives shared by every parser in the crate.
//!
//! Text is handled as a sequence of `char`s: every spec function here is over
//! `Seq<char>`, the view vstd gives `str` and `String`.
use vstd::prelude::*;

verus! {

/// `String::push` appends one character.
pub assume_specification[ String::push ](s: &mut String, ch: char)
    ensures
        final(s)@ == old(s)@.push(ch),
;

/// `String::push_str` appends a string slice.
pub assume_specification[ String::push_str ](s: &mut String, other: &str)
    ensures
        final(s)@ == old(s)@ + other@,
;

/// Unicode `White_Space`, which is what `char::is_whitespace` tests.
pub open spec fn is_ws(c: char) -> bool {
    let u = c as u32;
    (0x09 <= u <= 0x0d) || u == 0x20 || u == 0x85 || u == 0xa0 || u == 0x1680 || (0x2000 <= u
        <= 0x200a) || u == 0x2028 || u == 0x2029 || u == 0x202f || u == 0x205f || u == 0x3000
}

/// `char::is_whitespace`.
pub fn is_whitespace(c: char) -> (b: bool)
    ensures
        b == is_ws(c),
{
    let u = c as u32;
    (0x09 <= u && u <= 0x0d) || u == 0x20 || u == 0x85 || u == 0xa0 || u == 0x1680 || (0x2000 <= u
        && u <= 0x200a) || u == 0x2028 || u == 0x2029 || u == 0x202f || u == 0x205f || u == 0x3000
}

/// ASCII digit.
pub open spec fn is_digit(c: char) -> bool {
    '0' <= c <= '9'
}

/// ASCII letter.
pub open spec fn is_alpha(c: char) -> bool {
    ('a' <= c <= 'z') || ('A' <= c <= 'Z')
}

/// ASCII letter or digit.
pub open spec fn is_alnum(c: char) -> bool {
    is_alpha(c) || is_digit(c)
}

/// `char::to_ascii_lowercase`.
pub open spec fn lower(c: char) -> char {
    if 'A' <= c <= 'Z' {
        ((c as u32) + 32) as char
    } else {
        c
    }
}

/// `char::to_ascii_uppercase`.
pub open spec fn upper(c: char) -> char {
    if 'a' <= c <= 'z' {
        ((c as u32) - 32) as char
    } else {
        c
    }
}

pub fn to_lower(c: char) -> (r: char)
    ensures
        r == lower(c),
{
    if 'A' <= c && c <= 'Z' {
        let u = (c as u32) + 32;
        proof {
            assert(0x41 + 32 <= u <= 0x5a + 32);
        }
        char_from(u)
    } else {
        c
    }
}

pub fn to_upper(c: char) -> (r: char)
    ensures
        r == upper(c),
{
    if 'a' <= c && c <= 'z' {
        let u = (c as u32) - 32;
        char_from(u)
    } else {
        c
    }
}

/// The ASCII character with code `u`.
pub fn char_from(u: u32) -> (c: char)
    requires
        u < 0x80,
    ensures
        c == u as char,
{
    let b = u as u8;
    b as char
}

} // verus!

verus! {

/// Index of the first non-whitespace character at or after `i`.
pub open spec fn lead_ws(s: Seq<char>, i: int) -> int
    decreases s.len() - i,
{
    if 0 <= i < s.len() && is_ws(s[i]) {
        lead_ws(s, i + 1)
    } else {
        i
    }
}

/// Index just past the last non-whitespace character before `j`.
pub open spec fn trail_ws(s: Seq<char>, j: int) -> int
    decreases j,
{
    if 0 < j <= s.len() && is_ws(s[j - 1]) {
        trail_ws(s, j - 1)
    } else {
        j
    }
}

/// `str::trim_start`.
pub open spec fn trim_start(s: Seq<char>) -> Seq<char> {
    s.subrange(lead_ws(s, 0), s.len() as int)
}

/// `str::trim_end`.
pub open spec fn trim_end(s: Seq<char>) -> Seq<char> {
    s.subrange(0, trail_ws(s, s.len() as int))
}

/// `str::trim`: both ends, nothing left when every character is whitespace.
pub open spec fn trim(s: Seq<char>) -> Seq<char> {
    let a = lead_ws(s, 0);
    let b = trail_ws(s, s.len() as int);
    if a < b {
        s.subrange(a, b)
    } else {
        Seq::empty()
    }
}

pub proof fn lemma_lead_ws(s: Seq<char>, i: int)
    requires
        0 <= i <= s.len(),
    ensures
        i <= lead_ws(s, i) <= s.len(),
        forall|k: int| i <= k < lead_ws(s, i) ==> is_ws(#[trigger] s[k]),
        lead_ws(s, i) < s.len() ==> !is_ws(s[lead_ws(s, i)]),
    decreases s.len() - i,
{
    if i < s.len() && is_ws(s[i]) {
        lemma_lead_ws(s, i + 1);
    }
}

pub proof fn lemma_trail_ws(s: Seq<char>, j: int)
    requires
        0 <= j <= s.len(),
    ensures
        0 <= trail_ws(s, j) <= j,
        forall|k: int| trail_ws(s, j) <= k < j ==> is_ws(#[trigger] s[k]),
        trail_ws(s, j) > 0 ==> !is_ws(s[trail_ws(s, j) - 1]),
    decreases j,
{
    if j > 0 && is_ws(s[j - 1]) {
        lemma_trail_ws(s, j - 1);
    }
}

/// Whether `pat` occurs in `s` starting at `i`.
pub open spec fn matches_at(s: Seq<char>, i: int, pat: Seq<char>) -> bool {
    0 <= i && i + pat.len() <= s.len() && s.subrange(i, i + pat.len()) == pat
}

/// `str::starts_with`.
pub open spec fn starts_with(s: Seq<char>, pat: Seq<char>) -> bool {
    matches_at(s, 0, pat)
}

/// `str::ends_with`.
pub open spec fn ends_with(s: Seq<char>, pat: Seq<char>) -> bool {
    pat.len() <= s.len() && matches_at(s, s.len() - pat.len(), pat)
}

/// First index at or after `i` where `pat` starts.
pub open spec fn find_from(s: Seq<char>, pat: Seq<char>, i: int) -> Option<int>
    decreases s.len() + 1 - i,
{
    if i < 0 || i + pat.len() > s.len() {
        None
    } else if matches_at(s, i, pat) {
        Some(i)
    } else {
        find_from(s, pat, i + 1)
    }
}

/// First index at or after `i` holding `c`.
pub open spec fn find_char_from(s: Seq<char>, c: char, i: int) -> Option<int>
    decreases s.len() - i,
{
    if i < 0 || i >= s.len() {
        None
    } else if s[i] == c {
        Some(i)
    } else {
        find_char_from(s, c, i + 1)
    }
}

/// Last index before `j` holding `c`.
pub open spec fn rfind_char_before(s: Seq<char>, c: char, j: int) -> Option<int>
    decreases j,
{
    if j <= 0 || j > s.len() {
        None
    } else if s[j - 1] == c {
        Some(j - 1)
    } else {
        rfind_char_before(s, c, j - 1)
    }
}

pub proof fn lemma_find_char_from(s: Seq<char>, c: char, i: int)
    requires
        0 <= i,
    ensures
        match find_char_from(s, c, i) {
            Some(k) => i <= k < s.len() && s[k] == c && forall|m: int|
                i <= m < k ==> #[trigger] s[m] != c,
            None => forall|m: int| i <= m < s.len() ==> #[trigger] s[m] != c,
        },
    decreases s.len() - i,
{
    if i < s.len() && s[i] != c {
        lemma_find_char_from(s, c, i + 1);
    }
}

pub proof fn lemma_rfind_char_before(s: Seq<char>, c: char, j: int)
    requires
        j <= s.len(),
    ensures
        match rfind_char_before(s, c, j) {
            Some(k) => 0 <= k < j && s[k] == c && forall|m: int|
                k < m < j ==> #[trigger] s[m] != c,
            None => forall|m: int| 0 <= m < j ==> #[trigger] s[m] != c,
        },
    decreases j,
{
    if j > 0 && s[j - 1] != c {
        lemma_rfind_char_before(s, c, j - 1);
    }
}

pub proof fn lemma_find_from(s: Seq<char>, pat: Seq<char>, i: int)
    requires
        0 <= i,
    ensures
        match find_from(s, pat, i) {
            Some(k) => i <= k && matches_at(s, k, pat) && forall|m: int|
                i <= m < k ==> !matches_at(s, m, pat),
            None => forall|m: int| i <= m ==> !matches_at(s, m, pat),
        },
    decreases s.len() + 1 - i,
{
    if i + pat.len() <= s.len() && !matches_at(s, i, pat) {
        lemma_find_from(s, pat, i + 1);
    }
}

/// Lowercase every ASCII letter.
pub open spec fn lower_seq(s: Seq<char>) -> Seq<char> {
    s.map_values(|c: char| lower(c))
}

/// `eq_ignore_ascii_case`.
pub open spec fn eq_ignore_case(a: Seq<char>, b: Seq<char>) -> bool {
    lower_seq(a) == lower_seq(b)
}

/// The index of the first non-whitespace character at or after `i`.
pub fn skip_ws(s: &[char], i: usize) -> (r: usize)
    requires
        i <= s.len(),
    ensures
        r == lead_ws(s@, i as int),
        i <= r <= s.len(),
{
    let mut k = i;
    while k < s.len() && is_whitespace(s[k])
        invariant
            i <= k <= s.len(),
            lead_ws(s@, k as int) == lead_ws(s@, i as int),
        decreases s.len() - k,
    {
        k = k + 1;
    }
    k
}

/// The index just past the last non-whitespace character before `j`.
pub fn back_ws(s: &[char], j: usize) -> (r: usize)
    requires
        j <= s.len(),
    ensures
        r == trail_ws(s@, j as int),
        r <= j,
{
    let mut k = j;
    while k > 0 && is_whitespace(s[k - 1])
        invariant
            k <= j <= s.len(),
            trail_ws(s@, k as int) == trail_ws(s@, j as int),
        decreases k,
    {
        k = k - 1;
    }
    k
}

/// `s[a..b]` as a fresh vector.
pub fn slice_of(s: &[char], a: usize, b: usize) -> (r: Vec<char>)
    requires
        a <= b <= s.len(),
    ensures
        r@ == s@.subrange(a as int, b as int),
{
    let mut r: Vec<char> = Vec::new();
    let mut k = a;
    while k < b
        invariant
            a <= k <= b <= s.len(),
            r@ == s@.subrange(a as int, k as int),
        decreases b - k,
    {
        r.push(s[k]);
        k = k + 1;
    }
    r
}

/// `str::trim` over characters.
pub fn trim_chars(s: &[char]) -> (r: Vec<char>)
    ensures
        r@ == trim(s@),
{
    let a = skip_ws(s, 0);
    let b = back_ws(s, s.len());
    if a < b {
        slice_of(s, a, b)
    } else {
        Vec::new()
    }
}

/// `str::trim_start` over characters.
pub fn trim_start_chars(s: &[char]) -> (r: Vec<char>)
    ensures
        r@ == trim_start(s@),
{
    let a = skip_ws(s, 0);
    slice_of(s, a, s.len())
}

/// `str::trim_end` over characters.
pub fn trim_end_chars(s: &[char]) -> (r: Vec<char>)
    ensures
        r@ == trim_end(s@),
{
    let b = back_ws(s, s.len());
    slice_of(s, 0, b)
}

/// Whether two character slices are equal.
pub fn chars_eq(a: &[char], b: &[char]) -> (r: bool)
    ensures
        r == (a@ == b@),
{
    if a.len() != b.len() {
        return false;
    }
    let mut k: usize = 0;
    while k < a.len()
        invariant
            a.len() == b.len(),
            k <= a.len(),
            a@.take(k as int) == b@.take(k as int),
        decreases a.len() - k,
    {
        if a[k] != b[k] {
            assert(a@[k as int] != b@[k as int]);
            return false;
        }
        assert(a@.take(k + 1) == a@.take(k as int).push(a@[k as int]));
        assert(b@.take(k + 1) == b@.take(k as int).push(b@[k as int]));
        k = k + 1;
    }
    assert(a@.take(a.len() as int) == a@);
    assert(b@.take(b.len() as int) == b@);
    true
}

/// Whether `pat` occurs in `s` at `i`.
pub fn matches_at_exec(s: &[char], i: usize, pat: &[char]) -> (r: bool)
    ensures
        r == matches_at(s@, i as int, pat@),
{
    if i > s.len() || pat.len() > s.len() - i {
        return false;
    }
    let mut k: usize = 0;
    while k < pat.len()
        invariant
            i + pat.len() <= s.len(),
            k <= pat.len(),
            forall|m: int| 0 <= m < k ==> s@[i + m] == pat@[m],
        decreases pat.len() - k,
    {
        if s[i + k] != pat[k] {
            assert(s@.subrange(i as int, i + pat.len())[k as int] != pat@[k as int]);
            return false;
        }
        k = k + 1;
    }
    assert(s@.subrange(i as int, i + pat.len()) =~= pat@);
    true
}

/// `starts_with` over characters.
pub fn starts_with_exec(s: &[char], pat: &[char]) -> (r: bool)
    ensures
        r == starts_with(s@, pat@),
{
    matches_at_exec(s, 0, pat)
}

/// `ends_with` over characters.
pub fn ends_with_exec(s: &[char], pat: &[char]) -> (r: bool)
    ensures
        r == ends_with(s@, pat@),
{
    if pat.len() > s.len() {
        false
    } else {
        matches_at_exec(s, s.len() - pat.len(), pat)
    }
}

/// First index at or after `i` holding `c`.
pub fn find_char(s: &[char], c: char, i: usize) -> (r: Option<usize>)
    ensures
        r matches Some(k) ==> find_char_from(s@, c, i as int) == Some(k as int),
        r is None ==> find_char_from(s@, c, i as int) is None,
{
    let mut k = i;
    while k < s.len()
        invariant
            i <= k,
            find_char_from(s@, c, k as int) == find_char_from(s@, c, i as int),
        decreases s.len() - k,
    {
        if s[k] == c {
            return Some(k);
        }
        k = k + 1;
    }
    None
}

/// Last index before `j` holding `c`.
pub fn rfind_char(s: &[char], c: char, j: usize) -> (r: Option<usize>)
    requires
        j <= s.len(),
    ensures
        r matches Some(k) ==> rfind_char_before(s@, c, j as int) == Some(k as int),
        r is None ==> rfind_char_before(s@, c, j as int) is None,
{
    let mut k = j;
    while k > 0
        invariant
            k <= j <= s.len(),
            rfind_char_before(s@, c, k as int) == rfind_char_before(s@, c, j as int),
        decreases k,
    {
        if s[k - 1] == c {
            return Some(k - 1);
        }
        k = k - 1;
    }
    None
}

/// First index at or after `i` where `pat` starts.
pub fn find_seq(s: &[char], pat: &[char], i: usize) -> (r: Option<usize>)
    ensures
        r matches Some(k) ==> find_from(s@, pat@, i as int) == Some(k as int),
        r is None ==> find_from(s@, pat@, i as int) is None,
{
    if pat.len() > s.len() {
        return None;
    }
    let mut k = i;
    while k <= s.len() - pat.len()
        invariant
            i <= k,
            pat.len() <= s.len(),
            find_from(s@, pat@, k as int) == find_from(s@, pat@, i as int),
        decreases s.len() - k,
    {
        if matches_at_exec(s, k, pat) {
            return Some(k);
        }
        if k == s.len() - pat.len() {
            assert(find_from(s@, pat@, k + 1) is None);
            return None;
        }
        k = k + 1;
    }
    None
}

/// `eq_ignore_ascii_case` over characters.
pub fn eq_ignore_case_exec(a: &[char], b: &[char]) -> (r: bool)
    ensures
        r == eq_ignore_case(a@, b@),
{
    if a.len() != b.len() {
        assert(lower_seq(a@).len() != lower_seq(b@).len());
        return false;
    }
    let mut k: usize = 0;
    while k < a.len()
        invariant
            a.len() == b.len(),
            k <= a.len(),
            forall|m: int| 0 <= m < k ==> lower(a@[m]) == lower(b@[m]),
        decreases a.len() - k,
    {
        if to_lower(a[k]) != to_lower(b[k]) {
            assert(lower_seq(a@)[k as int] != lower_seq(b@)[k as int]);
            return false;
        }
        k = k + 1;
    }
    assert(lower_seq(a@) =~= lower_seq(b@));
    true
}

} // verus!

verus! {

/// `str::lines`: split at `\n`, drop the `\r` of a `\r\n`, no empty last line.
pub open spec fn lines(s: Seq<char>) -> Seq<Seq<char>>
    decreases s.len(),
{
    if s.len() == 0 {
        Seq::empty()
    } else {
        match find_char_from(s, '\n', 0) {
            None => seq![s],
            Some(k) => {
                let l = s.subrange(0, k);
                let l = if l.len() > 0 && l.last() == '\r' {
                    l.drop_last()
                } else {
                    l
                };
                if 0 <= k < s.len() {
                    seq![l] + lines(s.subrange(k + 1, s.len() as int))
                } else {
                    seq![l]
                }
            },
        }
    }
}

/// Index of the first whitespace character at or after `i`, or the length.
pub open spec fn word_end(s: Seq<char>, i: int) -> int
    decreases s.len() - i,
{
    if 0 <= i < s.len() && !is_ws(s[i]) {
        word_end(s, i + 1)
    } else {
        i
    }
}

/// `str::split_whitespace`.
pub open spec fn words(s: Seq<char>) -> Seq<Seq<char>>
    decreases s.len(),
{
    let a = lead_ws(s, 0);
    if a <= 0 {
        if s.len() == 0 {
            Seq::empty()
        } else {
            let b = word_end(s, 0);
            if 0 < b <= s.len() {
                seq![s.subrange(0, b)] + words(s.subrange(b, s.len() as int))
            } else {
                Seq::empty()
            }
        }
    } else if a <= s.len() {
        words(s.subrange(a, s.len() as int))
    } else {
        Seq::empty()
    }
}

/// `str::split(c)`: the pieces between occurrences of `c`, empty ones included.
pub open spec fn split_on(s: Seq<char>, c: char) -> Seq<Seq<char>>
    decreases s.len(),
{
    match find_char_from(s, c, 0) {
        None => seq![s],
        Some(k) => if 0 <= k < s.len() {
            seq![s.subrange(0, k)] + split_on(s.subrange(k + 1, s.len() as int), c)
        } else {
            seq![s]
        },
    }
}

pub proof fn lemma_word_end(s: Seq<char>, i: int)
    requires
        0 <= i <= s.len(),
    ensures
        i <= word_end(s, i) <= s.len(),
        forall|k: int| i <= k < word_end(s, i) ==> !is_ws(#[trigger] s[k]),
        word_end(s, i) < s.len() ==> is_ws(s[word_end(s, i)]),
    decreases s.len() - i,
{
    if i < s.len() && !is_ws(s[i]) {
        lemma_word_end(s, i + 1);
    }
}

pub fn word_end_exec(s: &[char], i: usize) -> (r: usize)
    requires
        i <= s.len(),
    ensures
        r == word_end(s@, i as int),
        i <= r <= s.len(),
{
    let mut k = i;
    while k < s.len() && !is_whitespace(s[k])
        invariant
            i <= k <= s.len(),
            word_end(s@, k as int) == word_end(s@, i as int),
        decreases s.len() - k,
    {
        k = k + 1;
    }
    k
}

/// `str::split_whitespace` over characters.
pub fn words_exec(s: &[char]) -> (r: Vec<Vec<char>>)
    ensures
        r@.map_values(|w: Vec<char>| w@) == words(s@),
{
    let mut out: Vec<Vec<char>> = Vec::new();
    let mut i: usize = 0;
    assert(s@.subrange(0, s.len() as int) =~= s@);
    assert(out@.map_values(|w: Vec<char>| w@) =~= Seq::<Seq<char>>::empty());
    loop
        invariant
            i <= s.len(),
            out@.map_values(|w: Vec<char>| w@) + words(s@.subrange(i as int, s.len() as int))
                == words(s@),
        decreases s.len() - i,
    {
        let ghost rest = s@.subrange(i as int, s.len() as int);
        let a = skip_ws(s, i);
        proof {
            lemma_lead_ws(s@, i as int);
            lemma_lead_ws(rest, 0);
            lemma_lead_ws_shift(s@, i as int);
        }
        if a == s.len() {
            proof {
                let ra = lead_ws(rest, 0);
                if ra > 0 {
                    assert(rest.subrange(ra, rest.len() as int) =~= Seq::<char>::empty());
                    assert(words(Seq::<char>::empty()) == Seq::<Seq<char>>::empty());
                }
                assert(out@.map_values(|w: Vec<char>| w@) + Seq::<Seq<char>>::empty()
                    =~= out@.map_values(|w: Vec<char>| w@));
            }
            return out;
        }
        let b = word_end_exec(s, a);
        let w = slice_of(s, a, b);
        proof {
            lemma_word_end(s@, a as int);
            let rest2 = s@.subrange(a as int, s.len() as int);
            lemma_word_end_shift(s@, a as int);
            assert(words(rest) == words(rest2)) by {
                let ra = lead_ws(rest, 0);
                if ra > 0 {
                    assert(rest.subrange(ra, rest.len() as int) =~= rest2);
                } else {
                    assert(rest =~= rest2);
                }
            }
            let wb = word_end(rest2, 0);
            assert(wb == b - a);
            assert(rest2.subrange(0, wb) =~= w@);
            assert(rest2.subrange(wb, rest2.len() as int) =~= s@.subrange(
                b as int,
                s.len() as int,
            ));
            assert(out@.push(w).map_values(|x: Vec<char>| x@) =~= out@.map_values(
                |x: Vec<char>| x@,
            ).push(w@));
        }
        out.push(w);
        i = b;
    }
}

/// The first word of `s` runs from the first non-whitespace character to
/// the whitespace after it; there is none when `s` is all whitespace.
pub proof fn lemma_first_word(s: Seq<char>)
    ensures
        lead_ws(s, 0) >= s.len() ==> words(s).len() == 0,
        lead_ws(s, 0) < s.len() ==> words(s).len() > 0 && words(s)[0] == s.subrange(
            lead_ws(s, 0),
            word_end(s, lead_ws(s, 0)),
        ),
{
    reveal_with_fuel(words, 2);
    let a = lead_ws(s, 0);
    lemma_lead_ws(s, 0);
    if a < s.len() {
        lemma_word_end(s, a);
        let rest = s.subrange(a, s.len() as int);
        lemma_lead_ws_shift(s, a);
        lemma_word_end_shift(s, a);
        assert(rest[0] == s[a]);
        if a > 0 {
            assert(rest.subrange(0, word_end(rest, 0)) =~= s.subrange(a, word_end(s, a)));
        }
    } else if a > 0 {
        assert(s.subrange(a, s.len() as int) =~= Seq::<char>::empty());
    }
}

pub proof fn lemma_lead_ws_same(s: Seq<char>, i: int, t: Seq<char>, j: int)
    requires
        0 <= i <= s.len(),
        0 <= j <= t.len(),
        s.subrange(i, s.len() as int) == t.subrange(j, t.len() as int),
    ensures
        lead_ws(s, i) - i == lead_ws(t, j) - j,
    decreases s.len() - i,
{
    let ss = s.subrange(i, s.len() as int);
    let tt = t.subrange(j, t.len() as int);
    assert(ss.len() == s.len() - i);
    assert(tt.len() == t.len() - j);
    assert(ss.len() == tt.len());
    if i < s.len() {
        assert(j < t.len());
        assert(ss[0] == tt[0]);
        assert(s[i] == s.subrange(i, s.len() as int)[0]);
        assert(t[j] == t.subrange(j, t.len() as int)[0]);
        assert(s.subrange(i + 1, s.len() as int) =~= s.subrange(i, s.len() as int).subrange(
            1,
            s.len() - i,
        ));
        assert(t.subrange(j + 1, t.len() as int) =~= t.subrange(j, t.len() as int).subrange(
            1,
            t.len() - j,
        ));
        if is_ws(s[i]) {
            lemma_lead_ws_same(s, i + 1, t, j + 1);
        }
    }
}

pub proof fn lemma_lead_ws_shift(s: Seq<char>, i: int)
    requires
        0 <= i <= s.len(),
    ensures
        lead_ws(s.subrange(i, s.len() as int), 0) == lead_ws(s, i) - i,
{
    let r = s.subrange(i, s.len() as int);
    assert(r.subrange(0, r.len() as int) =~= r);
    lemma_lead_ws_same(s, i, r, 0);
}

pub proof fn lemma_word_end_same(s: Seq<char>, i: int, t: Seq<char>, j: int)
    requires
        0 <= i <= s.len(),
        0 <= j <= t.len(),
        s.subrange(i, s.len() as int) == t.subrange(j, t.len() as int),
    ensures
        word_end(s, i) - i == word_end(t, j) - j,
    decreases s.len() - i,
{
    let ss = s.subrange(i, s.len() as int);
    let tt = t.subrange(j, t.len() as int);
    assert(ss.len() == s.len() - i);
    assert(tt.len() == t.len() - j);
    assert(ss.len() == tt.len());
    if i < s.len() {
        assert(j < t.len());
        assert(ss[0] == tt[0]);
        assert(s[i] == s.subrange(i, s.len() as int)[0]);
        assert(t[j] == t.subrange(j, t.len() as int)[0]);
        assert(s.subrange(i + 1, s.len() as int) =~= s.subrange(i, s.len() as int).subrange(
            1,
            s.len() - i,
        ));
        assert(t.subrange(j + 1, t.len() as int) =~= t.subrange(j, t.len() as int).subrange(
            1,
            t.len() - j,
        ));
        if !is_ws(s[i]) {
            lemma_word_end_same(s, i + 1, t, j + 1);
        }
    }
}

pub proof fn lemma_word_end_shift(s: Seq<char>, i: int)
    requires
        0 <= i <= s.len(),
    ensures
        word_end(s.subrange(i, s.len() as int), 0) == word_end(s, i) - i,
{
    let r = s.subrange(i, s.len() as int);
    assert(r.subrange(0, r.len() as int) =~= r);
    lemma_word_end_same(s, i, r, 0);
}

} // verus!

verus! {

/// `str::lines` over characters.
pub fn lines_exec(s: &[char]) -> (r: Vec<Vec<char>>)
    ensures
        r@.map_values(|w: Vec<char>| w@) == lines(s@),
    decreases s.len(),
{
    if s.len() == 0 {
        let r: Vec<Vec<char>> = Vec::new();
        assert(r@.map_values(|w: Vec<char>| w@) =~= Seq::<Seq<char>>::empty());
        return r;
    }
    proof {
        lemma_find_char_from(s@, '\n', 0);
    }
    match find_char(s, '\n', 0) {
        None => {
            let mut r: Vec<Vec<char>> = Vec::new();
            r.push(slice_of(s, 0, s.len()));
            assert(s@.subrange(0, s.len() as int) =~= s@);
            assert(r@.map_values(|w: Vec<char>| w@) =~= seq![s@]);
            r
        },
        Some(k) => {
            let mut l = slice_of(s, 0, k);
            if l.len() > 0 && l[l.len() - 1] == '\r' {
                l.pop();
            }
            let rest = slice_of(s, k + 1, s.len());
            let tail = lines_exec(&rest);
            let ghost tail_view = tail@;
            let mut r: Vec<Vec<char>> = Vec::new();
            r.push(l);
            let ghost head = r@;
            let ghost tv = tail@;
            let mut tail = tail;
            r.append(&mut tail);
            assert(r@ == head + tv);
            proof {
                let lv = s@.subrange(0, k as int);
                let lv = if lv.len() > 0 && lv.last() == '\r' {
                    lv.drop_last()
                } else {
                    lv
                };
                assert(head[0]@ =~= lv);
                assert(r@.map_values(|w: Vec<char>| w@) =~= seq![lv] + tail_view.map_values(
                    |w: Vec<char>| w@,
                ));
            }
            r
        },
    }
}

/// `str::split(c)` over characters.
pub fn split_on_exec(s: &[char], c: char) -> (r: Vec<Vec<char>>)
    ensures
        r@.map_values(|w: Vec<char>| w@) == split_on(s@, c),
    decreases s.len(),
{
    proof {
        lemma_find_char_from(s@, c, 0);
    }
    match find_char(s, c, 0) {
        None => {
            let mut r: Vec<Vec<char>> = Vec::new();
            r.push(slice_of(s, 0, s.len()));
            assert(s@.subrange(0, s.len() as int) =~= s@);
            assert(r@.map_values(|w: Vec<char>| w@) =~= seq![s@]);
            r
        },
        Some(k) => {
            let l = slice_of(s, 0, k);
            let rest = slice_of(s, k + 1, s.len());
            let tail = split_on_exec(&rest, c);
            let ghost tail_view = tail@;
            let mut r: Vec<Vec<char>> = Vec::new();
            r.push(l);
            let ghost head = r@;
            let ghost tv = tail@;
            let mut tail = tail;
            r.append(&mut tail);
            assert(r@ == head + tv);
            assert(r@.map_values(|w: Vec<char>| w@) =~= seq![s@.subrange(0, k as int)]
                + tail_view.map_values(|w: Vec<char>| w@));
            r
        },
    }
}

} // verus!

verus! {

/// What `char::is_alphanumeric` answers: Unicode `Alphabetic` or `Numeric`.
pub uninterp spec fn unicode_alphanumeric(c: char) -> bool;

/// `char::is_alphanumeric`, whose Unicode tables are std's. Claimed: the answer
/// is [`unicode_alphanumeric`] of `c`, and on ASCII it is letters and digits.
#[verifier::external_body]
pub(crate) fn is_alphanumeric(c: char) -> (r: bool)
    ensures
        r == unicode_alphanumeric(c),
        (c as u32) < 128 ==> (r == is_alnum(c)),
{
    c.is_alphanumeric()
}

/// Index of the first character at or after `i` that is not `c`.
pub open spec fn lead_c(s: Seq<char>, i: int, c: char) -> int
    decreases s.len() - i,
{
    if 0 <= i < s.len() && s[i] == c {
        lead_c(s, i + 1, c)
    } else {
        i
    }
}

/// Index just past the last character before `j` that is not `c`.
pub open spec fn trail_c(s: Seq<char>, j: int, c: char) -> int
    decreases j,
{
    if 0 < j <= s.len() && s[j - 1] == c {
        trail_c(s, j - 1, c)
    } else {
        j
    }
}

/// `str::trim_matches(c)`.
pub open spec fn trim_c(s: Seq<char>, c: char) -> Seq<char> {
    let a = lead_c(s, 0, c);
    let b = trail_c(s, s.len() as int, c);
    if a < b {
        s.subrange(a, b)
    } else {
        Seq::empty()
    }
}

pub fn lead_c_exec(s: &[char], i: usize, c: char) -> (r: usize)
    requires
        i <= s.len(),
    ensures
        r == lead_c(s@, i as int, c),
        i <= r <= s.len(),
{
    let mut k = i;
    while k < s.len() && s[k] == c
        invariant
            i <= k <= s.len(),
            lead_c(s@, k as int, c) == lead_c(s@, i as int, c),
        decreases s.len() - k,
    {
        k = k + 1;
    }
    k
}

pub fn trail_c_exec(s: &[char], j: usize, c: char) -> (r: usize)
    requires
        j <= s.len(),
    ensures
        r == trail_c(s@, j as int, c),
        r <= j,
{
    let mut k = j;
    while k > 0 && s[k - 1] == c
        invariant
            k <= j <= s.len(),
            trail_c(s@, k as int, c) == trail_c(s@, j as int, c),
        decreases k,
    {
        k = k - 1;
    }
    k
}

pub fn trim_c_exec(s: &[char], c: char) -> (r: Vec<char>)
    ensures
        r@ == trim_c(s@, c),
{
    let a = lead_c_exec(s, 0, c);
    let b = trail_c_exec(s, s.len(), c);
    if a < b {
        slice_of(s, a, b)
    } else {
        Vec::new()
    }
}

/// Whether `v` holds a sequence equal to `w`.
pub open spec fn holds(v: Seq<Seq<char>>, w: Seq<char>) -> bool {
    exists|i: int| 0 <= i < v.len() && v[i] == w
}

/// Whether `v` holds `w`.
pub fn holds_exec(v: &Vec<Vec<char>>, w: &[char]) -> (r: bool)
    ensures
        r == holds(v@.map_values(|x: Vec<char>| x@), w@),
{
    let ghost vv = v@.map_values(|x: Vec<char>| x@);
    let mut i: usize = 0;
    while i < v.len()
        invariant
            i <= v.len(),
            vv == v@.map_values(|x: Vec<char>| x@),
            forall|m: int| 0 <= m < i ==> vv[m] != w@,
        decreases v.len() - i,
    {
        if chars_eq(&v[i], w) {
            assert(vv[i as int] == w@);
            return true;
        }
        i = i + 1;
    }
    false
}

/// Strings of each character vector.
pub fn strings_of(v: &Vec<Vec<char>>) -> (r: Vec<String>)
    ensures
        r@.map_values(|s: String| s@) == v@.map_values(|x: Vec<char>| x@),
{
    let mut r: Vec<String> = Vec::new();
    let mut i: usize = 0;
    while i < v.len()
        invariant
            i <= v.len(),
            r@.len() == i,
            forall|m: int| 0 <= m < i ==> r@[m]@ == v@[m]@,
        decreases v.len() - i,
    {
        r.push(string_of(&v[i]));
        i = i + 1;
    }
    assert(r@.map_values(|s: String| s@) =~= v@.map_values(|x: Vec<char>| x@));
    r
}

/// Character vectors of each string.
pub fn chars_of_strings(v: &[String]) -> (r: Vec<Vec<char>>)
    ensures
        r@.map_values(|x: Vec<char>| x@) == v@.map_values(|s: String| s@),
{
    let mut r: Vec<Vec<char>> = Vec::new();
    let mut i: usize = 0;
    while i < v.len()
        invariant
            i <= v.len(),
            r@.len() == i,
            forall|m: int| 0 <= m < i ==> r@[m]@ == v@[m]@,
        decreases v.len() - i,
    {
        r.push(chars_of(v[i].as_str()));
        i = i + 1;
    }
    assert(r@.map_values(|x: Vec<char>| x@) =~= v@.map_values(|s: String| s@));
    r
}

} // verus!

verus! {

/// The characters of `s`, in order.
pub fn chars_of(s: &str) -> (out: Vec<char>)
    ensures
        out@ == s@,
{
    let mut out: Vec<char> = Vec::new();
    for c in it: s.chars()
        invariant
            out@ == it.seq().take(it.index() as int),
            it.seq() == s@,
    {
        out.push(c);
    }
    out
}

/// Whether two string slices spell the same text.
pub fn str_eq(a: &str, b: &str) -> (r: bool)
    ensures
        r == (a@ == b@),
{
    chars_eq(&chars_of(a), &chars_of(b))
}

/// A `String` holding exactly `cs`.
pub fn string_of(cs: &[char]) -> (out: String)
    ensures
        out@ == cs@,
{
    let mut out = String::new();
    let mut i: usize = 0;
    while i < cs.len()
        invariant
            i <= cs.len(),
            out@ == cs@.take(i as int),
        decreases cs.len() - i,
    {
        out.push(cs[i]);
        i = i + 1;
        assert(cs@.take(i as int) == cs@.take(i - 1).push(cs@[i - 1]));
    }
    assert(cs@.take(cs.len() as int) == cs@);
    out
}

} // verus!

verus! {

/// Value of a run of ASCII digits.
pub open spec fn digits_value(s: Seq<char>) -> nat
    decreases s.len(),
{
    if s.len() == 0 {
        0
    } else {
        digits_value(s.drop_last()) * 10 + ((s.last() as u32) - 48) as nat
    }
}

pub open spec fn all_digits_c(s: Seq<char>) -> bool {
    forall|i: int| 0 <= i < s.len() ==> is_digit(#[trigger] s[i])
}

/// `usize::from_str` on text: an optional `+`, one or more digits, in range.
pub open spec fn parse_usize_text(s: Seq<char>) -> Option<nat> {
    let d = if s.len() > 0 && s[0] == '+' {
        s.drop_first()
    } else {
        s
    };
    if d.len() == 0 || !all_digits_c(d) || digits_value(d) > usize::MAX {
        None
    } else {
        Some(digits_value(d))
    }
}

proof fn lemma_digits_value_prefix(d: Seq<char>, k: int)
    requires
        0 <= k <= d.len(),
        all_digits_c(d),
    ensures
        digits_value(d) >= digits_value(d.subrange(0, k)),
    decreases d.len(),
{
    if k < d.len() {
        let m = d.drop_last();
        assert(all_digits_c(m));
        lemma_digits_value_prefix(m, k);
        assert(m.subrange(0, k) =~= d.subrange(0, k));
    } else {
        assert(d.subrange(0, k) =~= d);
    }
}

/// `usize::from_str` over characters.
pub fn parse_usize_chars(s: &[char]) -> (r: Option<usize>)
    ensures
        match parse_usize_text(s@) {
            None => r is None,
            Some(n) => r == Some(n as usize),
        },
{
    let start: usize = if s.len() > 0 && s[0] == '+' {
        1
    } else {
        0
    };
    let ghost d = if s@.len() > 0 && s@[0] == '+' {
        s@.drop_first()
    } else {
        s@
    };
    assert(d =~= s@.subrange(start as int, s.len() as int));
    if start == s.len() {
        return None;
    }
    let mut v: usize = 0;
    let mut i = start;
    while i < s.len()
        invariant
            start <= i <= s.len(),
            d == s@.subrange(start as int, s.len() as int),
            d == (if s@.len() > 0 && s@[0] == '+' {
                s@.drop_first()
            } else {
                s@
            }),
            all_digits_c(d.subrange(0, i - start)),
            v == digits_value(d.subrange(0, i - start)),
        decreases s.len() - i,
    {
        let c = s[i];
        if !('0' <= c && c <= '9') {
            assert(d[i - start] == c);
            return None;
        }
        let ghost pre = d.subrange(0, i - start);
        let ghost next = d.subrange(0, i - start + 1);
        assert(next.drop_last() =~= pre);
        assert(next.last() == c);
        assert(all_digits_c(next));
        let dv = (c as u32 - 48) as usize;
        assert(digits_value(next) == v * 10 + dv);
        match v.checked_mul(10) {
            None => {
                proof {
                    if all_digits_c(d) {
                        lemma_digits_value_prefix(d, i - start + 1);
                    }
                }
                return None;
            },
            Some(t) => match t.checked_add(dv) {
                None => {
                    proof {
                        if all_digits_c(d) {
                            lemma_digits_value_prefix(d, i - start + 1);
                        }
                    }
                    return None;
                },
                Some(w) => {
                    v = w;
                },
            },
        }
        i = i + 1;
    }
    assert(d.subrange(0, d.len() as int) =~= d);
    Some(v)
}

/// Decimal digits of `n`, most significant first.
pub open spec fn decimal(n: nat) -> Seq<char>
    decreases n,
{
    if n < 10 {
        seq![((48 + n) as u32) as char]
    } else {
        decimal(n / 10).push(((48 + n % 10) as u32) as char)
    }
}

/// The decimal text of `n` is a run of digits that reads back as `n`.
pub proof fn lemma_decimal_reads_back(n: nat)
    ensures
        decimal(n).len() >= 1,
        all_digits_c(decimal(n)),
        digits_value(decimal(n)) == n,
    decreases n,
{
    let d = decimal(n);
    if n >= 10 {
        lemma_decimal_reads_back(n / 10);
        assert(d.drop_last() == decimal(n / 10));
        assert forall|i: int| 0 <= i < d.len() implies is_digit(#[trigger] d[i]) by {
            if i < d.len() - 1 {
                assert(d[i] == decimal(n / 10)[i]);
            }
        }
        assert((n / 10) * 10 + n % 10 == n);
        let c = ((48 + n % 10) as u32) as char;
        assert(d.last() == c);
        assert(c as u32 == 48 + n % 10);
        assert(digits_value(d) == digits_value(d.drop_last()) * 10 + ((d.last() as u32) - 48) as nat);
        assert(digits_value(d.drop_last()) == n / 10);
        assert(digits_value(d) == (n / 10) * 10 + n % 10);
    } else {
        assert(d.drop_last() =~= Seq::<char>::empty());
        let c = ((48 + n) as u32) as char;
        assert(d.last() == c);
        assert(c as u32 == 48 + n);
        assert(digits_value(d.drop_last()) == 0);
        assert(digits_value(d) == digits_value(d.drop_last()) * 10 + ((d.last() as u32) - 48) as nat);
    }
}

/// Decimal text of `n`, as `{}` formats it.
pub fn decimal_chars(n: u64) -> (r: Vec<char>)
    ensures
        r@ == decimal(n as nat),
    decreases n,
{
    if n < 10 {
        let mut v: Vec<char> = Vec::new();
        v.push(char_from((48 + n) as u32));
        assert(v@ =~= seq![((48 + n) as u32) as char]);
        v
    } else {
        let mut v = decimal_chars(n / 10);
        v.push(char_from((48 + n % 10) as u32));
        v
    }
}

/// Append `s` to `out`.
pub fn push_chars(out: &mut Vec<char>, s: &[char])
    ensures
        final(out)@ == old(out)@ + s@,
{
    let mut k: usize = 0;
    while k < s.len()
        invariant
            k <= s.len(),
            out@ == old(out)@ + s@.subrange(0, k as int),
        decreases s.len() - k,
    {
        out.push(s[k]);
        k = k + 1;
        assert(old(out)@ + s@.subrange(0, k as int) =~= (old(out)@ + s@.subrange(0, k - 1)).push(
            s@[k - 1],
        ));
    }
    assert(s@.subrange(0, s.len() as int) =~= s@);
}

/// Append the characters of `s` to `out`.
pub fn push_str_chars(out: &mut Vec<char>, s: &str)
    ensures
        final(out)@ == old(out)@ + s@,
{
    let cs = chars_of(s);
    push_chars(out, &cs);
}

} // verus!
