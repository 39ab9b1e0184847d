//! The rofi picker's decisions: which mode, which action an exit status
//! means, which issue a row names, and where an editor should open.
//!
//! Spawning rofi and the editor is the caller's part.
use vstd::prelude::*;

use crate::config::Layout;
use crate::path::nonempty;
use crate::path::nonempty_text;
use crate::text::{
    chars_of, lead_ws, lemma_first_word, lemma_lead_ws, lemma_word_end, parse_usize_chars,
    parse_usize_text, rfind_char, rfind_char_before, skip_ws, str_eq, word_end, word_end_exec,
    words,
};

verus! {

/// How the picker is populated.
#[derive(Debug, Clone, Copy, PartialEq, Eq, Structural)]
pub enum Mode {
    Ready,
    List,
    Claims,
    Stale,
    New,
}

/// The mode a command-line word names; `all` is another name for `list`.
pub open spec fn mode_named(raw: Seq<char>) -> Option<Mode> {
    if raw == "ready"@ {
        Some(Mode::Ready)
    } else if raw == "list"@ || raw == "all"@ {
        Some(Mode::List)
    } else if raw == "claims"@ {
        Some(Mode::Claims)
    } else if raw == "stale"@ {
        Some(Mode::Stale)
    } else if raw == "new"@ {
        Some(Mode::New)
    } else {
        None
    }
}

/// What `format!("{:?}", s)` prints for the string slice `s`.
pub uninterp spec fn debug_str(s: Seq<char>) -> Seq<char>;

/// Whether `c` is printable ASCII that `Debug` writes as itself inside
/// the quotes `q`: a space through `~`, but not `q` or a backslash.
pub open spec fn plain_in(c: char, q: char) -> bool {
    ' ' <= c <= '~' && c != q && c != '\\'
}

/// `<str as Debug>::fmt`, through `format!("{:?}")`: the quoted, escaped
/// form of `s`. Its exact escaping is std's; text of printable ASCII with no
/// double quote or backslash needs none and comes back between quotes.
#[verifier::external_body]
pub(crate) fn debug_quote(s: &str) -> (r: String)
    ensures
        r@ == debug_str(s@),
        (forall|i: int| 0 <= i < s@.len() ==> plain_in(#[trigger] s@[i], '"')) ==> r@ == "\""@ + s@ + "\""@,
{
    format!("{:?}", s)
}

/// What `format!("{:?}", c)` prints for the character `c`.
pub uninterp spec fn debug_char_str(c: char) -> Seq<char>;

/// `<char as Debug>::fmt`, through `format!("{:?}")`: the quoted, escaped
/// form of `c`. Its exact escaping is std's; printable ASCII other than `'`
/// and a backslash comes back between single quotes.
#[verifier::external_body]
pub(crate) fn debug_char_quote(c: char) -> (r: String)
    ensures
        r@ == debug_char_str(c),
        plain_in(c, '\'') ==> r@ == seq!['\'', c, '\''],
{
    format!("{:?}", c)
}

/// The quoted, escaped forms of `parts`, in order.
pub open spec fn debug_items(parts: Seq<Seq<char>>) -> Seq<Seq<char>> {
    parts.map_values(|p: Seq<char>| debug_str(p))
}

/// What `format!("{:?}", v)` prints for a list of strings `v`: each
/// element's debug form, comma separated, in square brackets.
pub open spec fn debug_list_text(parts: Seq<Seq<char>>) -> Seq<char> {
    "["@ + crate::org::join(debug_items(parts), ", "@) + "]"@
}

/// The join of the first `i + 1` items, from that of the first `i`.
pub proof fn lemma_debug_items_step(parts: Seq<Seq<char>>, i: int)
    requires
        0 <= i < parts.len(),
    ensures
        crate::org::join(debug_items(parts.take(i + 1)), ", "@) == if i == 0 {
            debug_str(parts[0])
        } else {
            crate::org::join(debug_items(parts.take(i)), ", "@) + ", "@ + debug_str(parts[i])
        },
{
    let a = debug_items(parts.take(i + 1));
    assert(a.len() == i + 1);
    assert(a.drop_last() =~= debug_items(parts.take(i)));
    assert(a.last() == debug_str(parts[i]));
    if i == 0 {
        assert(a[0] == debug_str(parts[0]));
    }
}

/// The sentence an unknown mode is refused with.
pub open spec fn unknown_mode_text(raw: Seq<char>) -> Seq<char> {
    "unknown hud mode "@ + debug_str(raw) + "; use ready, list, claims, stale, or new"@
}

/// The prompt shown above the picker in each mode.
pub open spec fn prompt_text(m: Mode) -> Seq<char> {
    match m {
        Mode::Ready => "vissue ready"@,
        Mode::List => "vissue list"@,
        Mode::Claims => "vissue claims"@,
        Mode::Stale => "vissue stale"@,
        Mode::New => "vissue new"@,
    }
}

impl Mode {
    /// The mode a command-line word names.
    pub fn parse(raw: &str) -> (r: Result<Mode, String>)
        ensures
            match mode_named(raw@) {
                Some(m) => r == Ok::<Mode, String>(m),
                None => r matches Err(msg) && msg@ == unknown_mode_text(raw@),
            },
            mode_named(raw@) is None && (forall|i: int| 0 <= i < raw@.len() ==> plain_in(#[trigger] raw@[i], '"'))
                ==> (r matches Err(msg) && msg@ == "unknown hud mode \""@ + raw@
                + "\"; use ready, list, claims, stale, or new"@),
    {
        if str_eq(raw, "ready") {
            Ok(Mode::Ready)
        } else if str_eq(raw, "list") || str_eq(raw, "all") {
            Ok(Mode::List)
        } else if str_eq(raw, "claims") {
            Ok(Mode::Claims)
        } else if str_eq(raw, "stale") {
            Ok(Mode::Stale)
        } else if str_eq(raw, "new") {
            Ok(Mode::New)
        } else {
            let mut msg = String::new();
            msg.push_str("unknown hud mode ");
            let quoted = debug_quote(raw);
            msg.push_str(quoted.as_str());
            msg.push_str("; use ready, list, claims, stale, or new");
            proof {
                reveal_strlit("unknown hud mode ");
                reveal_strlit("\"");
                reveal_strlit("; use ready, list, claims, stale, or new");
                reveal_strlit("unknown hud mode \"");
                reveal_strlit("\"; use ready, list, claims, stale, or new");
            }
            Err(msg)
        }
    }

    /// The prompt the user reads above the picker.
    pub fn prompt(self) -> (r: &'static str)
        ensures
            r@ == prompt_text(self),
    {
        match self {
            Mode::Ready => "vissue ready",
            Mode::List => "vissue list",
            Mode::Claims => "vissue claims",
            Mode::Stale => "vissue stale",
            Mode::New => "vissue new",
        }
    }
}

/// What the user asked for with Return or a custom key.
#[derive(Debug, Clone, Copy, PartialEq, Eq, Structural)]
pub enum Action {
    Open,
    Claim,
    Note,
}

/// Map rofi's dmenu exit status: 0 is Return, 10 and 11 are the first two
/// custom keys; anything else is no action.
pub fn action_from_status(code: i32) -> (r: Option<Action>)
    ensures
        r == if code == 0 {
            Some(Action::Open)
        } else if code == 10 {
            Some(Action::Claim)
        } else if code == 11 {
            Some(Action::Note)
        } else {
            None::<Action>
        },
{
    match code {
        0 => Some(Action::Open),
        10 => Some(Action::Claim),
        11 => Some(Action::Note),
        _ => None,
    }
}

/// The first whitespace-separated field of a row is the issue id.
pub fn id_from_row(line: &str) -> (r: Option<&str>)
    ensures
        match r {
            Some(id) => words(line@).len() > 0 && id@ == words(line@)[0],
            None => words(line@).len() == 0,
        },
{
    let cs = chars_of(line);
    let a = skip_ws(&cs, 0);
    proof {
        lemma_first_word(line@);
        lemma_lead_ws(line@, 0);
    }
    if a >= cs.len() {
        return None;
    }
    let b = word_end_exec(&cs, a);
    proof {
        lemma_word_end(line@, a as int);
    }
    Some(line.substring_char(a, b))
}

/// `path:start-end` split at the last `-` and the last `:` before it, with
/// the start line parsed as `usize::from_str` would.
pub open spec fn file_range(f: Seq<char>) -> Option<(Seq<char>, nat)> {
    match rfind_char_before(f, '-', f.len() as int) {
        None => None,
        Some(dash) => match rfind_char_before(f, ':', dash) {
            None => None,
            Some(colon) => match parse_usize_text(f.subrange(colon + 1, dash)) {
                None => None,
                Some(n) => Some((f.subrange(0, colon), n)),
            },
        },
    }
}

/// Split `path:12-40` into (`path`, 12). The path may contain colons.
pub fn split_file_range(file: &str) -> (r: Option<(&str, usize)>)
    ensures
        match file_range(file@) {
            None => r is None,
            Some((p, n)) => r matches Some((rp, rn)) && rp@ == p && rn == n,
        },
{
    let cs = chars_of(file);
    proof {
        crate::text::lemma_rfind_char_before(file@, '-', file@.len() as int);
    }
    let dash = match rfind_char(&cs, '-', cs.len()) {
        Some(d) => d,
        None => return None,
    };
    proof {
        crate::text::lemma_rfind_char_before(file@, ':', dash as int);
    }
    let colon = match rfind_char(&cs, ':', dash) {
        Some(c) => c,
        None => return None,
    };
    let digits = crate::text::slice_of(&cs, colon + 1, dash);
    match parse_usize_chars(&digits) {
        Some(n) => Some((file.substring_char(0, colon), n)),
        None => None,
    }
}

/// `split_file_range` undoes writing a range: `path:n-rest`, with the start
/// line `n` written in decimal and no `-` in `rest`, splits back into `path`
/// and `n` (its contract is [`file_range`]), whatever colons or dashes the
/// path itself holds.
pub proof fn lemma_file_range_round_trip(p: Seq<char>, n: nat, rest: Seq<char>)
    requires
        n <= usize::MAX,
        forall|i: int| 0 <= i < rest.len() ==> #[trigger] rest[i] != '-',
    ensures
        file_range(p + seq![':'] + crate::text::decimal(n) + seq!['-'] + rest) == Some((p, n)),
{
    let dn = crate::text::decimal(n);
    crate::text::lemma_decimal_reads_back(n);
    let f = p + seq![':'] + dn + seq!['-'] + rest;
    let colon = p.len() as int;
    let dash = colon + 1 + dn.len();
    assert(f[colon] == ':');
    assert(f[dash] == '-');
    crate::text::lemma_rfind_char_before(f, '-', f.len() as int);
    assert(rfind_char_before(f, '-', f.len() as int) == Some(dash)) by {
        match rfind_char_before(f, '-', f.len() as int) {
            Some(k) => {
                if k > dash {
                    assert(f[k] == rest[k - dash - 1]);
                } else if k < dash {
                    assert(f[dash] != '-');
                }
            },
            None => {
                assert(f[dash] != '-');
            },
        }
    }
    crate::text::lemma_rfind_char_before(f, ':', dash);
    assert(rfind_char_before(f, ':', dash) == Some(colon)) by {
        match rfind_char_before(f, ':', dash) {
            Some(k) => {
                if k > colon {
                    assert(f[k] == dn[k - colon - 1]);
                    assert(crate::text::is_digit(dn[k - colon - 1]));
                } else if k < colon {
                    assert(f[colon] != ':');
                }
            },
            None => {
                assert(f[colon] != ':');
            },
        }
    }
    assert(f.subrange(colon + 1, dash) =~= dn);
    assert(f.subrange(0, colon) =~= p);
    assert(dn[0] != '+') by {
        assert(crate::text::is_digit(dn[0]));
    }
}

/// How to spawn rofi, and over which tracker.
#[derive(Debug, Clone)]
pub struct RofiOpts {
    pub layout: Layout,
    pub mode: Mode,
    pub bin: String,
}

/// The rofi binary: the first of `VISSUE_ROFI` and `ROFI` that is set and
/// not blank (trimmed), else the `rofi` found on `PATH`.
pub open spec fn rofi_bin(
    vissue_rofi: Option<Seq<char>>,
    rofi: Option<Seq<char>>,
    on_path: Option<Seq<char>>,
) -> Option<Seq<char>> {
    match nonempty_text(vissue_rofi) {
        Some(b) => Some(b),
        None => match nonempty_text(rofi) {
            Some(b) => Some(b),
            None => on_path,
        },
    }
}

impl RofiOpts {
    /// Options for `mode` over `layout`, with the binary chosen from the
    /// two environment overrides and the `PATH` search result as given.
    pub fn from_env(
        layout: Layout,
        mode: Mode,
        vissue_rofi: Option<&str>,
        rofi: Option<&str>,
        on_path: Option<&str>,
    ) -> (r: Result<RofiOpts, String>)
        ensures
            match rofi_bin(
                match vissue_rofi {
                    Some(s) => Some(s@),
                    None => None,
                },
                match rofi {
                    Some(s) => Some(s@),
                    None => None,
                },
                match on_path {
                    Some(s) => Some(s@),
                    None => None,
                },
            ) {
                Some(b) => r matches Ok(o) && o.bin@ == b && o.mode == mode
                    && o.layout.root_view() == layout.root_view()
                    && o.layout.prefix_view() == layout.prefix_view(),
                None => r matches Err(msg) && msg@ == "rofi is not installed"@,
            },
    {
        let bin = match nonempty(vissue_rofi) {
            Some(b) => b,
            None => match nonempty(rofi) {
                Some(b) => b,
                None => match on_path {
                    Some(p) => p.to_owned(),
                    None => return Err("rofi is not installed".to_owned()),
                },
            },
        };
        Ok(RofiOpts { layout, mode, bin })
    }
}

} // verus!
