//! The HUD log's line format: a UTC timestamp, a level and a message, with
//! empty and repeated messages left out.
use vstd::prelude::*;

use crate::text::{chars_of, decimal, decimal_chars, str_eq, string_of, trim, trim_chars};

verus! {

/// `n` in decimal, padded on the left with zeros to at least `w` digits.
pub open spec fn zero_pad(n: nat, w: nat) -> Seq<char> {
    let d = decimal(n);
    if d.len() >= w {
        d
    } else {
        Seq::new((w - d.len()) as nat, |i: int| '0') + d
    }
}

/// `v` as `{:0w}` prints a signed integer: the sign first, then zeros up to
/// the width.
pub open spec fn signed_pad(v: int, w: nat) -> Seq<char> {
    if v >= 0 {
        zero_pad(v as nat, w)
    } else {
        seq!['-'] + zero_pad((-v) as nat, (w - 1) as nat)
    }
}

/// Unix seconds as the signed 64-bit count they are read back as.
pub open spec fn signed_secs(secs: u64) -> int {
    if secs <= i64::MAX {
        secs as int
    } else {
        secs - 0x1_0000_0000_0000_0000int
    }
}

/// The day of the era, year of the era and era of a day count shifted to
/// start at 0000-03-01.
pub open spec fn civil_parts(days: int) -> (int, int, int) {
    let z = days + 719468;
    let era = z / 146097;
    let doe = z - era * 146097;
    let yoe = (doe - doe / 1460 + doe / 36524 - doe / 146096) / 365;
    (era, doe, yoe)
}

/// The proleptic Gregorian date `days` after 1970-01-01, as
/// `(year, month, day)`.
pub open spec fn civil_int(days: int) -> (int, int, int) {
    let (era, doe, yoe) = civil_parts(days);
    let doy = doe - (365 * yoe + yoe / 4 - yoe / 100);
    let mp = (5 * doy + 2) / 153;
    let day = doy - (153 * mp + 2) / 5 + 1;
    let month = if mp < 10 {
        mp + 3
    } else {
        mp - 9
    };
    let year = yoe + era * 400 + if month <= 2 {
        1int
    } else {
        0int
    };
    (year, month, day)
}

/// [`civil_int`] with the year taken to 32 bits, as the log prints it.
pub open spec fn civil(days: int) -> (i32, int, int) {
    let (y, m, d) = civil_int(days);
    ((y as i64) as i32, m, d)
}

/// Whether `y` is a leap year of the Gregorian calendar.
pub open spec fn is_leap(y: int) -> bool {
    y % 4 == 0 && (y % 100 != 0 || y % 400 == 0)
}

/// How many days month `m` of year `y` has.
pub open spec fn days_in_month(y: int, m: int) -> int {
    if m == 2 {
        if is_leap(y) {
            29
        } else {
            28
        }
    } else if m == 4 || m == 6 || m == 9 || m == 11 {
        30
    } else {
        31
    }
}

/// Whether `(y, m, d)` names a day of the Gregorian calendar.
pub open spec fn valid_date(y: int, m: int, d: int) -> bool {
    1 <= m <= 12 && 1 <= d <= days_in_month(y, m)
}

/// How many days `(y, m, d)` lies after 1970-01-01 (negative before it).
pub open spec fn days_from_civil(y: int, m: int, d: int) -> int {
    let yy = y - if m <= 2 {
        1int
    } else {
        0int
    };
    let era = yy / 400;
    let yoe = yy - era * 400;
    let mp = if m > 2 {
        m - 3
    } else {
        m + 9
    };
    let doy = (153 * mp + 2) / 5 + d - 1;
    let doe = yoe * 365 + yoe / 4 - yoe / 100 + doy;
    era * 146097 + doe - 719468
}

/// `YYYY-MM-DDTHH:MM:SSZ` for Unix seconds.
pub open spec fn utc_text(secs: u64) -> Seq<char> {
    let z = signed_secs(secs);
    let days = z / 86400;
    let tod = z % 86400;
    let (y, m, d) = civil(days);
    signed_pad(y as int, 4) + "-"@ + zero_pad(m as nat, 2) + "-"@ + zero_pad(d as nat, 2) + "T"@
        + zero_pad((tod / 3600) as nat, 2) + ":"@ + zero_pad(((tod % 3600) / 60) as nat, 2) + ":"@
        + zero_pad((tod % 60) as nat, 2) + "Z"@
}

fn push_zero_padded(out: &mut String, n: u64, w: usize)
    requires
        w <= 4,
    ensures
        final(out)@ == old(out)@ + zero_pad(n as nat, w as nat),
{
    let d = decimal_chars(n);
    let mut k: usize = d.len();
    let ghost start = out@;
    while k < w
        invariant
            d.len() <= k <= w || (k == d.len() && k >= w),
            d@ == decimal(n as nat),
            out@ == start + Seq::new((k - d.len()) as nat, |i: int| '0'),
        decreases w - k,
    {
        out.push_str("0");
        proof {
            reveal_strlit("0");
        }
        k = k + 1;
        assert(out@ =~= start + Seq::new((k - d.len()) as nat, |i: int| '0'));
    }
    let tail = string_of(&d);
    out.push_str(tail.as_str());
    proof {
        if d.len() >= w {
            assert(Seq::new((k - d.len()) as nat, |i: int| '0') =~= Seq::<char>::empty());
            assert(out@ =~= start + decimal(n as nat));
        } else {
            assert(k == w);
        }
    }
}

fn push_signed_padded(out: &mut String, v: i32, w: usize)
    requires
        1 <= w <= 4,
    ensures
        final(out)@ == old(out)@ + signed_pad(v as int, w as nat),
{
    if v >= 0 {
        push_zero_padded(out, v as u64, w);
    } else {
        out.push_str("-");
        proof {
            reveal_strlit("-");
        }
        let m: i64 = -(v as i64);
        push_zero_padded(out, m as u64, w - 1);
        assert(out@ =~= old(out)@ + signed_pad(v as int, w as nat));
    }
}

/// Floor division and its non-negative remainder.
pub(crate) fn floor_div_mod(a: i64, b: i64) -> (r: (i64, i64))
    requires
        b > 0,
    ensures
        r.0 == a / b,
        r.1 == a % b,
{
    if a >= 0 {
        (a / b, a % b)
    } else {
        let w: i64 = -(a + 1);
        let q: i64 = w / b;
        let m: i64 = w % b;
        proof {
            assert(w == q * b + m) by (nonlinear_arith)
                requires
                    w >= 0,
                    b > 0,
                    q == w / b,
                    m == w % b,
            ;
            assert(0 <= m < b);
            let qq = -q - 1;
            let rr = b - 1 - m;
            assert(a == qq * b + rr) by (nonlinear_arith)
                requires
                    a == -(w + 1),
                    w == q * b + m,
                    qq == -q - 1,
                    rr == b - 1 - m,
            ;
            assert(0 <= rr < b);
            vstd::arithmetic::div_mod::lemma_fundamental_div_mod_converse(a as int, b as int, qq, rr);
        }
        (-q - 1, b - 1 - m)
    }
}

/// The calendar date `days` after 1970-01-01.
fn civil_from_days(days: i64) -> (r: (i32, u64, u64))
    requires
        -1_000_000_000_000_000 <= days <= 1_000_000_000_000_000,
    ensures
        r.0 == civil(days as int).0,
        r.1 as int == civil(days as int).1,
        r.2 as int == civil(days as int).2,
{
    let z: i64 = days + 719_468;
    let (era, doe0) = floor_div_mod(z, 146_097);
    proof {
        assert(0 <= doe0 < 146097);
        assert(doe0 == z - era * 146097) by (nonlinear_arith)
            requires
                era == z / 146097,
                doe0 == z % 146097,
        ;
    }
    let doe: u64 = doe0 as u64;
    let yoe: u64 = (doe - doe / 1460 + doe / 36_524 - doe / 146_096) / 365;
    proof {
        assert(doe / 1460 <= doe);
        assert(yoe <= 400) by (nonlinear_arith)
            requires
                doe < 146097,
                yoe == (doe - doe / 1460 + doe / 36_524 - doe / 146_096) / 365,
        ;
    }
    let doy: u64 = doe - (365 * yoe + yoe / 4 - yoe / 100);
    let mp: u64 = (5 * doy + 2) / 153;
    let day: u64 = doy - (153 * mp + 2) / 5 + 1;
    let month: u64 = if mp < 10 {
        mp + 3
    } else {
        mp - 9
    };
    proof {
        assert(-10_000_000_000 <= era <= 10_000_000_000) by (nonlinear_arith)
            requires
                era == z / 146097,
                -1_000_000_000_000_000 <= z <= 1_000_000_000_720_000,
        ;
    }
    let mut year: i64 = yoe as i64 + era * 400;
    if month <= 2 {
        year = year + 1;
    }
    (year as i32, month, day)
}

/// UTC `YYYY-MM-DDTHH:MM:SSZ` from Unix seconds.
pub fn format_utc(secs: u64) -> (r: String)
    ensures
        r@ == utc_text(secs),
{
    let z: i64 = secs as i64;
    proof {
        assert(secs <= 0x7fff_ffff_ffff_ffffu64 ==> z == secs) by (bit_vector)
            requires
                z == secs as i64,
        ;
        assert(secs > 0x7fff_ffff_ffff_ffffu64 ==> z < 0 && (secs - 0x8000_0000_0000_0000u64) as i64 == z + 0x8000_0000_0000_0000i128) by (bit_vector)
            requires
                z == secs as i64,
        ;
    }
    proof {
        assert(z == signed_secs(secs));
    }
    let (days, tod0) = floor_div_mod(z, 86_400);
    proof {
        assert(-1_000_000_000_000_000 <= days <= 1_000_000_000_000_000) by (nonlinear_arith)
            requires
                days == z / 86400,
        ;
    }
    let tod: u64 = tod0 as u64;
    let (year, month, day) = civil_from_days(days);
    let mut out = String::new();
    push_signed_padded(&mut out, year, 4);
    out.push_str("-");
    push_zero_padded(&mut out, month, 2);
    out.push_str("-");
    push_zero_padded(&mut out, day, 2);
    out.push_str("T");
    push_zero_padded(&mut out, tod / 3600, 2);
    out.push_str(":");
    push_zero_padded(&mut out, (tod % 3600) / 60, 2);
    out.push_str(":");
    push_zero_padded(&mut out, tod % 60, 2);
    out.push_str("Z");
    out
}

/// The line the log gets for `msg` at `level` when the last message written
/// was `last`, with the time as Unix seconds: none when the trimmed message
/// is empty or repeats `last`.
pub open spec fn log_line(last: Seq<char>, level: Seq<char>, msg: Seq<char>, secs: u64) -> Option<Seq<char>> {
    let m = trim(msg);
    if m.len() == 0 || m == last {
        None
    } else {
        Some(utc_text(secs) + " "@ + level + " "@ + m + "\n"@)
    }
}

/// Decide what to append for a message; `last` becomes the trimmed message
/// whenever a line is written.
pub fn next_line(last: &mut String, level: &str, msg: &str, secs: u64) -> (r: Option<String>)
    ensures
        r matches Some(line) ==> log_line(old(last)@, level@, msg@, secs) == Some(line@),
        r is None <==> log_line(old(last)@, level@, msg@, secs) is None,
        r is Some ==> final(last)@ == trim(msg@),
        r is None ==> final(last)@ == old(last)@,
{
    let m = string_of(&trim_chars(&chars_of(msg)));
    if m.as_str().is_empty() || str_eq(m.as_str(), last.as_str()) {
        return None;
    }
    let mut line = format_utc(secs);
    line.push_str(" ");
    line.push_str(level);
    line.push_str(" ");
    line.push_str(m.as_str());
    line.push_str("\n");
    *last = m;
    Some(line)
}


/// Facts about one day of a 400-year era: its year of the era lies in the
/// era, and its day of that (March-based) year lies in that year, the last
/// day only in a leap year.
proof fn lemma_day_of_era(doe: u32)
    requires
        doe < 146097,
    ensures
        ({
            let yoe = (doe - doe / 1460 + doe / 36524 - doe / 146096) / 365;
            &&& yoe <= 399
            &&& 365 * yoe + yoe / 4 - yoe / 100 <= doe
            &&& doe - (365 * yoe + yoe / 4 - yoe / 100) <= 365
            &&& doe - (365 * yoe + yoe / 4 - yoe / 100) == 365 ==> (yoe + 1) % 4 == 0 && ((yoe + 1) % 100
                != 0 || (yoe + 1) % 400 == 0)
        }),
{
    assert({
        let yoe = (doe - doe / 1460 + doe / 36524 - doe / 146096) / 365;
        &&& yoe <= 399
        &&& 365 * yoe + yoe / 4 - yoe / 100 <= doe
        &&& doe - (365 * yoe + yoe / 4 - yoe / 100) <= 365
        &&& doe - (365 * yoe + yoe / 4 - yoe / 100) == 365 ==> (yoe + 1) % 4 == 0 && ((yoe + 1) % 100
            != 0 || (yoe + 1) % 400 == 0)
    }) by (bit_vector)
        requires
            doe < 146097,
    ;
}

/// Where each day of a March-based year falls: its month offset from March
/// and its day of that month, within the month's length (February's last
/// day only on the year's last day).
proof fn lemma_day_of_year(doy: u32)
    requires
        doy <= 365,
    ensures
        ({
            let mp = (5 * doy + 2) / 153;
            let day = doy - (153 * mp + 2) / 5 + 1;
            &&& mp <= 11
            &&& (153 * mp + 2) / 5 <= doy
            &&& 1 <= day
            &&& mp == 11 ==> day <= 28 || (doy == 365 && day == 29)
            &&& (mp == 1 || mp == 3 || mp == 6 || mp == 8) ==> day <= 30
            &&& day <= 31
        }),
{
    assert({
        let mp = (5 * doy + 2) / 153;
        let day = doy - (153 * mp + 2) / 5 + 1;
        &&& mp <= 11
        &&& (153 * mp + 2) / 5 <= doy
        &&& 1 <= day
        &&& mp == 11 ==> day <= 28 || (doy == 365 && day == 29)
        &&& (mp == 1 || mp == 3 || mp == 6 || mp == 8) ==> day <= 30
        &&& day <= 31
    }) by (bit_vector)
        requires
            doy <= 365,
    ;
}

/// The date of every day count is a calendar date, and counting the days to
/// that date gives the count back.
pub proof fn lemma_civil_round_trip(days: int)
    ensures
        valid_date(civil_int(days).0, civil_int(days).1, civil_int(days).2),
        days_from_civil(civil_int(days).0, civil_int(days).1, civil_int(days).2) == days,
{
    let z = days + 719468;
    let (era, doe, yoe) = civil_parts(days);
    vstd::arithmetic::div_mod::lemma_fundamental_div_mod(z, 146097);
    vstd::arithmetic::div_mod::lemma_mod_bound(z, 146097);
    assert(doe == z % 146097) by (nonlinear_arith)
        requires
            z == 146097 * (z / 146097) + z % 146097,
            era == z / 146097,
            doe == z - era * 146097,
    ;
    assert(0 <= doe < 146097);
    lemma_day_of_era(doe as u32);
    let doy = doe - (365 * yoe + yoe / 4 - yoe / 100);
    lemma_day_of_year(doy as u32);
    let mp = (5 * doy + 2) / 153;
    let day = doy - (153 * mp + 2) / 5 + 1;
    let (y, m, d) = civil_int(days);
    assert(m == if mp < 10 { mp + 3 } else { mp - 9 });
    assert(d == day);
    let yy = yoe + era * 400;
    assert(y - (if m <= 2 { 1int } else { 0int }) == yy);
    vstd::arithmetic::div_mod::lemma_fundamental_div_mod_converse(yy, 400, era, yoe);
    assert(days_from_civil(y, m, d) == days);
    if doy == 365 {
        assert(m == 2);
        assert(y == (yoe + 1) + era * 400);
        vstd::arithmetic::div_mod::lemma_mod_multiples_vanish(100 * era, yoe + 1, 4);
        vstd::arithmetic::div_mod::lemma_mod_multiples_vanish(4 * era, yoe + 1, 100);
        vstd::arithmetic::div_mod::lemma_mod_multiples_vanish(era, yoe + 1, 400);
        assert(4 * (100 * era) + (yoe + 1) == y);
        assert(100 * (4 * era) + (yoe + 1) == y);
        assert(400 * era + (yoe + 1) == y);
        assert(is_leap(y));
    }
}

/// A message written once is not written again while it stays the last one,
/// whatever its level or time.
pub proof fn lemma_repeat_is_skipped(msg: Seq<char>, level: Seq<char>, secs: u64)
    ensures
        log_line(trim(msg), level, msg, secs) is None,
{
}
/// The day count [`days_from_civil`] gives, for any year, month and day
/// that fit these types.
pub fn day_number(y: i32, m: u32, d: u32) -> (r: i64)
    ensures
        r == days_from_civil(y as int, m as int, d as int),
{
    let yy: i64 = if m <= 2 { y as i64 - 1 } else { y as i64 };
    let (era, yoe) = floor_div_mod(yy, 400);
    proof {
        assert(yy == 400 * era + yoe) by (nonlinear_arith)
            requires
                era == yy / 400,
                yoe == yy % 400,
        ;
        assert(0 <= yoe < 400);
        assert(-10_000_000 <= era <= 10_000_000) by (nonlinear_arith)
            requires
                era == yy / 400,
                -3_000_000_000 <= yy <= 3_000_000_000,
        ;
    }
    let mp: i64 = if m > 2 { m as i64 - 3 } else { m as i64 + 9 };
    let doy: i64 = (153 * mp + 2) / 5 + d as i64 - 1;
    let doe: i64 = yoe * 365 + yoe / 4 - yoe / 100 + doy;
    era * 146_097 + doe - 719_468
}

} // verus!
