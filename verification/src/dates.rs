//! Turn Org timestamps into ordinary dates.
//!
//! `[2026-01-14 Wed 09:12]` becomes `14 Jan 2026 09:12`; a range
//! `[a]--[b]` becomes `a to b`. Text that is not a stamp is left alone.
use vstd::prelude::*;

use crate::text::{
    all_digits_c, chars_of, decimal, decimal_chars, digits_value, find_char, find_char_from,
    push_chars, slice_of, split_on, split_on_exec, starts_with, str_eq, string_of, words,
    words_exec,
};

verus! {

/// `T::from_str` for an unsigned type whose largest value is `max`: an
/// optional `+`, then one or more ASCII digits, at most `max`.
pub open spec fn parse_bounded(s: Seq<char>, max: nat) -> Option<nat> {
    let d = if s.len() > 0 && s[0] == '+' {
        s.drop_first()
    } else {
        s
    };
    if d.len() == 0 || !all_digits_c(d) || digits_value(d) > max {
        None
    } else {
        Some(digits_value(d))
    }
}

proof fn lemma_digits_value_grows(d: Seq<char>, k: int)
    requires
        0 <= k <= d.len(),
        all_digits_c(d),
    ensures
        digits_value(d) >= digits_value(d.subrange(0, k)),
    decreases d.len(),
{
    if k < d.len() {
        let m = d.drop_last();
        assert(all_digits_c(m));
        lemma_digits_value_grows(m, k);
        assert(m.subrange(0, k) =~= d.subrange(0, k));
    } else {
        assert(d.subrange(0, k) =~= d);
    }
}

/// Parse digits as an unsigned value no larger than `max`.
pub fn parse_bounded_chars(s: &[char], max: u64) -> (r: Option<u64>)
    requires
        max < 0x1_0000_0000,
    ensures
        match parse_bounded(s@, max as nat) {
            None => r is None,
            Some(n) => r == Some(n as u64),
        },
{
    let start: usize = if s.len() > 0 && s[0] == '+' {
        1
    } else {
        0
    };
    let ghost d = if s@.len() > 0 && s@[0] == '+' {
        s@.drop_first()
    } else {
        s@
    };
    assert(d =~= s@.subrange(start as int, s.len() as int));
    if start == s.len() {
        return None;
    }
    let mut v: u64 = 0;
    let mut i = start;
    while i < s.len()
        invariant
            start <= i <= s.len(),
            max < 0x1_0000_0000,
            d == s@.subrange(start as int, s.len() as int),
            d == (if s@.len() > 0 && s@[0] == '+' {
                s@.drop_first()
            } else {
                s@
            }),
            all_digits_c(d.subrange(0, i - start)),
            v == digits_value(d.subrange(0, i - start)),
            v <= max,
        decreases s.len() - i,
    {
        let c = s[i];
        if !('0' <= c && c <= '9') {
            assert(d[i - start] == c);
            return None;
        }
        let ghost pre = d.subrange(0, i - start);
        let ghost next = d.subrange(0, i - start + 1);
        assert(next.drop_last() =~= pre);
        assert(next.last() == c);
        assert(all_digits_c(next));
        let dv = (c as u32 - 48) as u64;
        assert(digits_value(next) == v * 10 + dv);
        let w = v * 10 + dv;
        if w > max {
            proof {
                if all_digits_c(d) {
                    lemma_digits_value_grows(d, i - start + 1);
                }
            }
            return None;
        }
        v = w;
        i = i + 1;
    }
    assert(d.subrange(0, d.len() as int) =~= d);
    Some(v)
}

/// Three-letter month names.
pub open spec fn month_name(m: nat) -> Seq<char> {
    if m == 1 {
        "Jan"@
    } else if m == 2 {
        "Feb"@
    } else if m == 3 {
        "Mar"@
    } else if m == 4 {
        "Apr"@
    } else if m == 5 {
        "May"@
    } else if m == 6 {
        "Jun"@
    } else if m == 7 {
        "Jul"@
    } else if m == 8 {
        "Aug"@
    } else if m == 9 {
        "Sep"@
    } else if m == 10 {
        "Oct"@
    } else if m == 11 {
        "Nov"@
    } else {
        "Dec"@
    }
}

/// The month names in calendar order: month `m` (1 to 12) is written as the
/// `m`-th of Jan Feb Mar Apr May Jun Jul Aug Sep Oct Nov Dec, and two
/// different months never share a name.
pub proof fn lemma_month_names(m: nat, n: nat)
    requires
        1 <= m <= 12,
        1 <= n <= 12,
    ensures
        month_name(m) == seq![
            "Jan"@, "Feb"@, "Mar"@, "Apr"@, "May"@, "Jun"@,
            "Jul"@, "Aug"@, "Sep"@, "Oct"@, "Nov"@, "Dec"@,
        ][m - 1],
        m != n ==> month_name(m) != month_name(n),
{
    reveal_strlit("Jan");
    reveal_strlit("Feb");
    reveal_strlit("Mar");
    reveal_strlit("Apr");
    reveal_strlit("May");
    reveal_strlit("Jun");
    reveal_strlit("Jul");
    reveal_strlit("Aug");
    reveal_strlit("Sep");
    reveal_strlit("Oct");
    reveal_strlit("Nov");
    reveal_strlit("Dec");
    if m != n {
        assert(month_name(m)[0] != month_name(n)[0] || month_name(m)[1] != month_name(n)[1]
            || month_name(m)[2] != month_name(n)[2]);
    }
}

fn month_str(m: u64) -> (r: &'static str)
    ensures
        r@ == month_name(m as nat),
{
    if m == 1 {
        "Jan"
    } else if m == 2 {
        "Feb"
    } else if m == 3 {
        "Mar"
    } else if m == 4 {
        "Apr"
    } else if m == 5 {
        "May"
    } else if m == 6 {
        "Jun"
    } else if m == 7 {
        "Jul"
    } else if m == 8 {
        "Aug"
    } else if m == 9 {
        "Sep"
    } else if m == 10 {
        "Oct"
    } else if m == 11 {
        "Nov"
    } else {
        "Dec"
    }
}

/// The English weekday abbreviations Org writes.
pub open spec fn weekday(w: Seq<char>) -> bool {
    w == "Mon"@ || w == "Tue"@ || w == "Wed"@ || w == "Thu"@ || w == "Fri"@ || w == "Sat"@ || w
        == "Sun"@
}

fn is_weekday(w: &str) -> (r: bool)
    ensures
        r == weekday(w@),
{
    str_eq(w, "Mon") || str_eq(w, "Tue") || str_eq(w, "Wed") || str_eq(w, "Thu") || str_eq(w, "Fri")
        || str_eq(w, "Sat") || str_eq(w, "Sun")
}

/// Whether `w` holds a colon.
pub open spec fn has_colon(w: Seq<char>) -> bool {
    find_char_from(w, ':', 0) is Some
}

/// The inside of a stamp (`2026-01-14 Wed 09:12`) as `14 Jan 2026 09:12`:
/// a `Y-M-D` date with month 1 to 12 and day 1 to 31, an optional weekday,
/// and a following word kept when it holds a colon.
pub open spec fn stamp_inner(inner: Seq<char>) -> Option<Seq<char>> {
    let ws = words(inner);
    if ws.len() == 0 {
        None
    } else {
        let bits = split_on(ws[0], '-');
        if bits.len() != 3 {
            None
        } else {
            match (
                parse_bounded(bits[0], 0x7fff_ffff),
                parse_bounded(bits[1], 0xffff_ffff),
                parse_bounded(bits[2], 0xffff_ffff),
            ) {
                (Some(y), Some(m), Some(d)) => if 1 <= m <= 12 && 1 <= d <= 31 {
                    let date = decimal(d) + " "@ + month_name(m) + " "@ + decimal(y);
                    let k: int = if ws.len() > 1 && weekday(ws[1]) {
                        2
                    } else {
                        1
                    };
                    if ws.len() > k && has_colon(ws[k]) {
                        Some(date + " "@ + ws[k])
                    } else {
                        Some(date)
                    }
                } else {
                    None
                },
                _ => None,
            }
        }
    }
}

/// A weekday between the date and the time of a stamp never hides the
/// time: when the word after the date is one of Mon Tue Wed Thu Fri Sat Sun
/// and the word after that holds a colon, the formatted stamp ends with a
/// space and that word.
pub proof fn lemma_weekday_keeps_time(inner: Seq<char>)
    requires
        stamp_inner(inner) is Some,
        words(inner).len() >= 3,
        words(inner)[1] == "Mon"@ || words(inner)[1] == "Tue"@ || words(inner)[1] == "Wed"@ || words(inner)[1]
            == "Thu"@ || words(inner)[1] == "Fri"@ || words(inner)[1] == "Sat"@ || words(inner)[1] == "Sun"@,
        has_colon(words(inner)[2]),
    ensures
        exists|date: Seq<char>| stamp_inner(inner) == Some(date + " "@ + words(inner)[2]),
{
    let ws = words(inner);
    let bits = split_on(ws[0], '-');
    match (
        parse_bounded(bits[0], 0x7fff_ffff),
        parse_bounded(bits[1], 0xffff_ffff),
        parse_bounded(bits[2], 0xffff_ffff),
    ) {
        (Some(y), Some(m), Some(d)) => {
            let date = decimal(d) + " "@ + month_name(m) + " "@ + decimal(y);
            assert(weekday(ws[1]));
            assert(stamp_inner(inner) == Some(date + " "@ + ws[2]));
        },
        _ => {},
    }
}

/// Format the inside of one stamp.
fn format_stamp_inner(inner: &[char]) -> (r: Option<Vec<char>>)
    ensures
        match stamp_inner(inner@) {
            Some(p) => r matches Some(v) && v@ == p,
            None => r is None,
        },
{
    let ws = words_exec(inner);
    let ghost wv = ws@.map_values(|w: Vec<char>| w@);
    assert(wv == words(inner@));
    if ws.len() == 0 {
        return None;
    }
    assert(wv[0] == ws@[0]@);
    let bits = split_on_exec(&ws[0], '-');
    let ghost bv = bits@.map_values(|w: Vec<char>| w@);
    if bits.len() != 3 {
        return None;
    }
    assert(bv[0] == bits@[0]@ && bv[1] == bits@[1]@ && bv[2] == bits@[2]@);
    let year = match parse_bounded_chars(&bits[0], 0x7fff_ffff) {
        Some(y) => y,
        None => return None,
    };
    let month = match parse_bounded_chars(&bits[1], 0xffff_ffff) {
        Some(m) => m,
        None => return None,
    };
    let day = match parse_bounded_chars(&bits[2], 0xffff_ffff) {
        Some(d) => d,
        None => return None,
    };
    if !(1 <= month && month <= 12 && 1 <= day && day <= 31) {
        return None;
    }
    let mut out: Vec<char> = decimal_chars(day);
    crate::text::push_str_chars(&mut out, " ");
    crate::text::push_str_chars(&mut out, month_str(month));
    crate::text::push_str_chars(&mut out, " ");
    let y = decimal_chars(year);
    push_chars(&mut out, &y);
    let k: usize = if ws.len() > 1 && is_weekday(string_of(&ws[1]).as_str()) {
        2
    } else {
        1
    };
    proof {
        if ws.len() > 1 {
            assert(wv[1] == ws@[1]@);
        }
    }
    if ws.len() > k {
        assert(wv[k as int] == ws@[k as int]@);
        if find_char(&ws[k], ':', 0).is_some() {
            crate::text::push_str_chars(&mut out, " ");
            push_chars(&mut out, &ws[k]);
        }
    }
    Some(out)
}

/// Where the next stamp opens, and the character that closes it: the
/// earliest `[` (closed by `]`) or `<` (closed by `>`).
pub open spec fn next_stamp(s: Seq<char>) -> Option<(int, char)> {
    match (find_char_from(s, '[', 0), find_char_from(s, '<', 0)) {
        (Some(a), Some(b)) => if a <= b {
            Some((a, ']'))
        } else {
            Some((b, '>'))
        },
        (Some(a), None) => Some((a, ']')),
        (None, Some(b)) => Some((b, '>')),
        (None, None) => None,
    }
}

fn next_stamp_exec(s: &[char]) -> (r: Option<(usize, char)>)
    ensures
        match next_stamp(s@) {
            Some((i, c)) => r == Some((i as usize, c)) && 0 <= i < s.len(),
            None => r is None,
        },
{
    proof {
        crate::text::lemma_find_char_from(s@, '[', 0);
        crate::text::lemma_find_char_from(s@, '<', 0);
    }
    match (find_char(s, '[', 0), find_char(s, '<', 0)) {
        (Some(a), Some(b)) => if a <= b {
            Some((a, ']'))
        } else {
            Some((b, '>'))
        },
        (Some(a), None) => Some((a, ']')),
        (None, Some(b)) => Some((b, '>')),
        (None, None) => None,
    }
}

/// Whether a stamp range continues after `after`: `--` and then a stamp
/// that opens right there.
pub open spec fn range_follows(after: Seq<char>) -> bool {
    after.len() >= 2 && starts_with(after, "--"@) && (next_stamp(after) == Some((2int, ']')) || next_stamp(after)
        == Some((2int, '>')))
}

/// `s` with every well-formed stamp replaced by its short form.
pub open spec fn stamps_text(s: Seq<char>) -> Seq<char>
    decreases s.len(),
{
    match next_stamp(s) {
        None => s,
        Some((i, close)) => match find_char_from(s, close, i + 1) {
            None => s,
            Some(e) => {
                if 0 <= i < e < s.len() {
                    let after = s.subrange(e + 1, s.len() as int);
                    match stamp_inner(s.subrange(i + 1, e)) {
                        Some(p) => if range_follows(after) {
                            s.subrange(0, i) + p + " to "@ + stamps_text(
                                after.subrange(2, after.len() as int),
                            )
                        } else {
                            s.subrange(0, i) + p + stamps_text(after)
                        },
                        None => s.subrange(0, e + 1) + stamps_text(after),
                    }
                } else {
                    s
                }
            },
        },
    }
}

/// Replace Org active and inactive stamps in `s` with a short date (and
/// time); a range `[a]--[b]` reads `a to b`.
pub fn format_org_stamps(s: &str) -> (r: String)
    ensures
        r@ == stamps_text(s@),
{
    let cs = chars_of(s);
    let mut out: Vec<char> = Vec::new();
    let mut rest: Vec<char> = cs;
    loop
        invariant
            out@ + stamps_text(rest@) == stamps_text(s@),
        decreases rest@.len(),
    {
        let ghost r0 = rest@;
        match next_stamp_exec(&rest) {
            None => {
                push_chars(&mut out, &rest);
                return string_of(&out);
            },
            Some((i, close)) => {
                proof {
                    crate::text::lemma_find_char_from(rest@, close, i + 1);
                }
                match find_char(&rest, close, i + 1) {
                    None => {
                        push_chars(&mut out, &rest);
                        return string_of(&out);
                    },
                    Some(e) => {
                        let inner = slice_of(&rest, i + 1, e);
                        let after = slice_of(&rest, e + 1, rest.len());
                        match format_stamp_inner(&inner) {
                            Some(p) => {
                                let head = slice_of(&rest, 0, i);
                                push_chars(&mut out, &head);
                                push_chars(&mut out, &p);
                                let dash = chars_of("--");
                                let follows = after.len() >= 2 && crate::text::starts_with_exec(&after, &dash) && match next_stamp_exec(&after) {
                                    Some((j, _)) => j == 2,
                                    None => false,
                                };
                                if follows {
                                    crate::text::push_str_chars(&mut out, " to ");
                                    rest = slice_of(&after, 2, after.len());
                                } else {
                                    rest = after;
                                }
                            },
                            None => {
                                let head = slice_of(&rest, 0, e + 1);
                                push_chars(&mut out, &head);
                                rest = after;
                            },
                        }
                    },
                }
            },
        }
    }
}

} // verus!
