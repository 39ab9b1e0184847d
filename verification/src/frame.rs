//! JSONL and LSP `Content-Length` framing on one byte stream.
//!
//! The stream is read as a byte sequence: `read_message` takes the bytes that
//! are available and returns the first framed body in them.
use vstd::prelude::*;

verus! {

/// Hard cap on one JSON-RPC body.
pub const MAX_MESSAGE_BYTES: usize = 8 * 1024 * 1024;

/// Hard cap on LSP header lines.
pub const MAX_HEADER_LINES: usize = 32;

/// How the peer framed the last message. Replies use the same style.
#[derive(Debug, Clone, Copy, PartialEq, Eq, Structural)]
pub enum Framing {
    Jsonl,
    Headers,
}

/// A framing read that cannot produce a body.
#[derive(Debug, Clone, Copy, PartialEq, Eq, Structural)]
pub enum FrameError {
    TooManyHeaders,
    MissingContentLength,
    InvalidContentLength,
    MessageTooLarge,
    Incomplete,
}

pub open spec fn frame_error_text(e: FrameError) -> Seq<char> {
    match e {
        FrameError::TooManyHeaders => "too many framing headers"@,
        FrameError::MissingContentLength => "missing Content-Length"@,
        FrameError::InvalidContentLength => "invalid Content-Length"@,
        FrameError::MessageTooLarge => "message exceeds size limit"@,
        FrameError::Incomplete => "incomplete frame"@,
    }
}

impl FrameError {
    /// The sentence a person reads for this error.
    pub fn message(&self) -> (s: String)
        ensures
            s@ == frame_error_text(*self),
    {
        match self {
            FrameError::TooManyHeaders => String::from_str("too many framing headers"),
            FrameError::MissingContentLength => String::from_str("missing Content-Length"),
            FrameError::InvalidContentLength => String::from_str("invalid Content-Length"),
            FrameError::MessageTooLarge => String::from_str("message exceeds size limit"),
            FrameError::Incomplete => String::from_str("incomplete frame"),
        }
    }
}

/// The kind of an I/O error the framing raises itself, as
/// `std::io::ErrorKind` names it.
#[derive(Debug, Clone, Copy, PartialEq, Eq, Structural)]
pub enum IoKind {
    InvalidInput,
}

/// An I/O error the framing raises itself: its kind and message, as the
/// `std::io::Error` a writer would carry.
#[derive(Debug)]
pub struct IoFailure {
    pub kind: IoKind,
    pub message: String,
}

impl IoFailure {
    /// The error's kind.
    pub fn kind(&self) -> (k: IoKind)
        ensures
            k == self.kind,
    {
        self.kind
    }
}

pub open spec fn b_alpha(b: u8) -> bool {
    (65 <= b <= 90) || (97 <= b <= 122)
}

pub open spec fn b_alnum(b: u8) -> bool {
    b_alpha(b) || (48 <= b <= 57)
}

/// `u8::is_ascii_whitespace`: space, tab, line feed, form feed, carriage return.
pub open spec fn b_ws(b: u8) -> bool {
    b == 32 || b == 9 || b == 10 || b == 12 || b == 13
}

pub open spec fn b_lower(b: u8) -> u8 {
    if 65 <= b <= 90 {
        (b + 32) as u8
    } else {
        b
    }
}

/// A line without its trailing `\n` or `\r\n`.
pub open spec fn trim_crlf(l: Seq<u8>) -> Seq<u8> {
    if l.len() > 0 && l.last() == 10 {
        let m = l.drop_last();
        if m.len() > 0 && m.last() == 13 {
            m.drop_last()
        } else {
            m
        }
    } else {
        l
    }
}

/// From index `i` on, a run of `[A-Za-z0-9-]` that reaches a `:`.
pub open spec fn header_tail(t: Seq<u8>, i: int) -> bool
    decreases t.len() - i,
{
    if i < 0 || i >= t.len() {
        false
    } else if t[i] == 58 {
        true
    } else if b_alnum(t[i]) || t[i] == 45 {
        header_tail(t, i + 1)
    } else {
        false
    }
}

/// First-line rule: `^[A-Za-z][A-Za-z0-9-]*:` is a header.
pub open spec fn header_line(l: Seq<u8>) -> bool {
    let t = trim_crlf(l);
    t.len() > 0 && b_alpha(t[0]) && header_tail(t, 1)
}

pub open spec fn blank_line(l: Seq<u8>) -> bool {
    trim_crlf(l).len() == 0
}

pub open spec fn find_byte(s: Seq<u8>, b: u8, i: int) -> Option<int>
    decreases s.len() - i,
{
    if i < 0 || i >= s.len() {
        None
    } else if s[i] == b {
        Some(i)
    } else {
        find_byte(s, b, i + 1)
    }
}

/// End of the line that starts at `pos`, or the error a bounded line read gives.
pub open spec fn read_line(inp: Seq<u8>, pos: int, max: int) -> Result<int, FrameError> {
    if pos >= inp.len() {
        Err(FrameError::Incomplete)
    } else {
        match find_byte(inp, 10, pos) {
            Some(nl) => if nl + 1 - pos > max {
                Err(FrameError::MessageTooLarge)
            } else {
                Ok(nl + 1)
            },
            None => if inp.len() - pos > max {
                Err(FrameError::MessageTooLarge)
            } else {
                Ok(inp.len() as int)
            },
        }
    }
}

pub open spec fn lead_aws(s: Seq<u8>, i: int) -> int
    decreases s.len() - i,
{
    if 0 <= i < s.len() && b_ws(s[i]) {
        lead_aws(s, i + 1)
    } else {
        i
    }
}

pub open spec fn trail_aws(s: Seq<u8>, j: int) -> int
    decreases j,
{
    if 0 < j <= s.len() && b_ws(s[j - 1]) {
        trail_aws(s, j - 1)
    } else {
        j
    }
}

/// `<[u8]>::trim_ascii`.
pub open spec fn trim_ascii(s: Seq<u8>) -> Seq<u8> {
    let a = lead_aws(s, 0);
    let b = trail_aws(s, s.len() as int);
    if a < b {
        s.subrange(a, b)
    } else {
        Seq::empty()
    }
}

/// The header name a length line carries, lowercase.
pub open spec fn content_length_name() -> Seq<u8> {
    seq![99u8, 111, 110, 116, 101, 110, 116, 45, 108, 101, 110, 103, 116, 104]
}

/// `Content-Length: ` as written.
pub open spec fn content_length_prefix() -> Seq<u8> {
    seq![67u8, 111, 110, 116, 101, 110, 116, 45, 76, 101, 110, 103, 116, 104, 58, 32]
}

pub open spec fn all_digits(s: Seq<u8>) -> bool {
    forall|i: int| 0 <= i < s.len() ==> 48 <= #[trigger] s[i] <= 57
}

/// Decimal value of a run of ASCII digits.
pub open spec fn dec_value(s: Seq<u8>) -> nat
    decreases s.len(),
{
    if s.len() == 0 {
        0
    } else {
        dec_value(s.drop_last()) * 10 + (s.last() - 48) as nat
    }
}

/// Decimal digits of `n`, most significant first.
pub open spec fn dec_digits(n: nat) -> Seq<u8>
    decreases n,
{
    if n < 10 {
        seq![(48 + n) as u8]
    } else {
        dec_digits(n / 10).push((48 + n % 10) as u8)
    }
}

/// `usize::from_str`: an optional `+`, then one or more digits, in range.
pub open spec fn parse_usize(s: Seq<u8>) -> Option<nat> {
    let d = if s.len() > 0 && s[0] == 43 {
        s.drop_first()
    } else {
        s
    };
    if d.len() == 0 || !all_digits(d) || dec_value(d) > usize::MAX {
        None
    } else {
        Some(dec_value(d))
    }
}

/// `None` for a line that is not `Content-Length`; `Some(None)` for a bad value.
pub open spec fn content_length_of(line: Seq<u8>) -> Option<Option<nat>> {
    let t = trim_crlf(line);
    match find_byte(t, 58, 0) {
        None => None,
        Some(colon) => {
            let name = trim_ascii(t.subrange(0, colon));
            if name.map_values(|b: u8| b_lower(b)) != content_length_name() {
                None
            } else {
                Some(parse_usize(trim_ascii(t.subrange(colon + 1, t.len() as int))))
            }
        },
    }
}

/// Header lines from the one at `ls..le` up to the blank line: the length found
/// and where the body starts.
pub open spec fn scan_headers(
    inp: Seq<u8>,
    ls: int,
    le: int,
    count: nat,
    length: Option<nat>,
) -> Result<(Option<nat>, int), FrameError>
    decreases MAX_HEADER_LINES - count,
{
    if blank_line(inp.subrange(ls, le)) {
        Ok((length, le))
    } else if count + 1 > MAX_HEADER_LINES {
        Err(FrameError::TooManyHeaders)
    } else {
        let next_length = match content_length_of(inp.subrange(ls, le)) {
            None => Ok(length),
            Some(None) => Err(FrameError::InvalidContentLength),
            Some(Some(n)) => Ok(Some(n)),
        };
        match next_length {
            Err(e) => Err(e),
            Ok(l2) => match read_line(inp, le, MAX_MESSAGE_BYTES + 1) {
                Err(e) => Err(e),
                Ok(e2) => scan_headers(inp, le, e2, count + 1, l2),
            },
        }
    }
}

/// The body and framing of the first message in `inp`, or why there is none.
pub open spec fn decode(inp: Seq<u8>) -> Result<(Seq<u8>, Framing), FrameError> {
    match read_line(inp, 0, MAX_MESSAGE_BYTES + 2) {
        Err(e) => Err(e),
        Ok(e1) => {
            let first = inp.subrange(0, e1);
            if header_line(first) {
                match scan_headers(inp, 0, e1, 0, None) {
                    Err(e) => Err(e),
                    Ok((None, _)) => Err(FrameError::MissingContentLength),
                    Ok((Some(n), p)) => if n > MAX_MESSAGE_BYTES {
                        Err(FrameError::MessageTooLarge)
                    } else if p + n > inp.len() {
                        Err(FrameError::Incomplete)
                    } else {
                        Ok((inp.subrange(p, p + n), Framing::Headers))
                    },
                }
            } else {
                let body = trim_crlf(first);
                if body.len() > MAX_MESSAGE_BYTES {
                    Err(FrameError::MessageTooLarge)
                } else {
                    Ok((body, Framing::Jsonl))
                }
            }
        },
    }
}

/// The bytes `write_message` puts on the wire for `payload`.
pub open spec fn encode(payload: Seq<u8>, framing: Framing) -> Seq<u8> {
    match framing {
        Framing::Jsonl => payload.push(10),
        Framing::Headers => content_length_prefix() + dec_digits(payload.len()) + seq![
            13u8,
            10,
            13,
            10,
        ] + payload,
    }
}

} // verus!

verus! {

fn bytes_sub(s: &[u8], a: usize, b: usize) -> (r: Vec<u8>)
    requires
        a <= b <= s.len(),
    ensures
        r@ == s@.subrange(a as int, b as int),
{
    let mut r: Vec<u8> = Vec::new();
    let mut k = a;
    while k < b
        invariant
            a <= k <= b <= s.len(),
            r@ == s@.subrange(a as int, k as int),
        decreases b - k,
    {
        r.push(s[k]);
        k = k + 1;
    }
    r
}

/// Length of `line` once its trailing `\n` or `\r\n` is dropped.
fn trim_crlf_end(line: &[u8]) -> (e: usize)
    ensures
        e <= line.len(),
        line@.subrange(0, e as int) == trim_crlf(line@),
{
    let mut e = line.len();
    if e > 0 && line[e - 1] == 10 {
        e = e - 1;
        if e > 0 && line[e - 1] == 13 {
            e = e - 1;
        }
    }
    proof {
        let l = line@;
        if l.len() > 0 && l.last() == 10 {
            let m = l.drop_last();
            assert(m =~= l.subrange(0, l.len() - 1));
            if m.len() > 0 && m.last() == 13 {
                assert(m.drop_last() =~= l.subrange(0, e as int));
            } else {
                assert(m =~= l.subrange(0, e as int));
            }
        } else {
            assert(l =~= l.subrange(0, e as int));
        }
    }
    e
}

fn is_alpha_byte(b: u8) -> (r: bool)
    ensures
        r == b_alpha(b),
{
    (65 <= b && b <= 90) || (97 <= b && b <= 122)
}

fn is_alnum_byte(b: u8) -> (r: bool)
    ensures
        r == b_alnum(b),
{
    is_alpha_byte(b) || (48 <= b && b <= 57)
}

fn is_ws_byte(b: u8) -> (r: bool)
    ensures
        r == b_ws(b),
{
    b == 32 || b == 9 || b == 10 || b == 12 || b == 13
}

/// First-line rule: `^[A-Za-z][A-Za-z0-9-]*:` is headers. Anything else,
/// including a non-`{` JSONL body, is JSONL.
pub fn is_header_line(line: &[u8]) -> (r: bool)
    ensures
        r == header_line(line@),
{
    let e = trim_crlf_end(line);
    let ghost t = line@.subrange(0, e as int);
    if e == 0 {
        return false;
    }
    assert(t[0] == line@[0]);
    if !is_alpha_byte(line[0]) {
        return false;
    }
    let mut i: usize = 1;
    while i < e
        invariant
            1 <= i <= e <= line.len(),
            t == line@.subrange(0, e as int),
            t == trim_crlf(line@),
            b_alpha(t[0]),
            header_tail(t, i as int) == header_tail(t, 1),
        decreases e - i,
    {
        let b = line[i];
        assert(t[i as int] == b);
        if b == 58 {
            return true;
        }
        if !is_alnum_byte(b) && b != 45 {
            return false;
        }
        i = i + 1;
    }
    false
}

/// Classify the first line the way [`read_message`] does.
pub fn classify_first_line(line: &[u8]) -> (f: Framing)
    ensures
        f == (if header_line(line@) {
            Framing::Headers
        } else {
            Framing::Jsonl
        }),
{
    if is_header_line(line) {
        Framing::Headers
    } else {
        Framing::Jsonl
    }
}

fn find_byte_exec(s: &[u8], b: u8, i: usize) -> (r: Option<usize>)
    ensures
        r matches Some(k) ==> find_byte(s@, b, i as int) == Some(k as int),
        r is None ==> find_byte(s@, b, i as int) is None,
{
    let mut k = i;
    while k < s.len()
        invariant
            i <= k,
            find_byte(s@, b, k as int) == find_byte(s@, b, i as int),
        decreases s.len() - k,
    {
        if s[k] == b {
            return Some(k);
        }
        k = k + 1;
    }
    None
}

proof fn lemma_find_byte(s: Seq<u8>, b: u8, i: int)
    requires
        0 <= i,
    ensures
        match find_byte(s, b, i) {
            Some(k) => i <= k < s.len() && s[k] == b && forall|m: int|
                i <= m < k ==> #[trigger] s[m] != b,
            None => forall|m: int| i <= m < s.len() ==> #[trigger] s[m] != b,
        },
    decreases s.len() - i,
{
    if i < s.len() && s[i] != b {
        lemma_find_byte(s, b, i + 1);
    }
}

/// End of the line at `pos`: through its `\n`, or to the end of the input.
fn read_line_limited(inp: &[u8], pos: usize, max: usize) -> (r: Result<usize, FrameError>)
    ensures
        match read_line(inp@, pos as int, max as int) {
            Ok(e) => r matches Ok(f) && f == e,
            Err(e) => r == Err::<usize, FrameError>(e),
        },
        r matches Ok(e) ==> pos < e <= inp.len(),
{
    if pos >= inp.len() {
        return Err(FrameError::Incomplete);
    }
    proof {
        lemma_find_byte(inp@, 10, pos as int);
    }
    match find_byte_exec(inp, 10, pos) {
        Some(nl) => {
            if nl + 1 - pos > max {
                Err(FrameError::MessageTooLarge)
            } else {
                Ok(nl + 1)
            }
        },
        None => {
            if inp.len() - pos > max {
                Err(FrameError::MessageTooLarge)
            } else {
                Ok(inp.len())
            }
        },
    }
}

fn trim_ascii_exec(s: &[u8]) -> (r: Vec<u8>)
    ensures
        r@ == trim_ascii(s@),
{
    let mut a: usize = 0;
    while a < s.len() && is_ws_byte(s[a])
        invariant
            a <= s.len(),
            lead_aws(s@, a as int) == lead_aws(s@, 0),
        decreases s.len() - a,
    {
        a = a + 1;
    }
    let mut b: usize = s.len();
    while b > 0 && is_ws_byte(s[b - 1])
        invariant
            b <= s.len(),
            trail_aws(s@, b as int) == trail_aws(s@, s.len() as int),
        decreases b,
    {
        b = b - 1;
    }
    if a < b {
        bytes_sub(s, a, b)
    } else {
        Vec::new()
    }
}

proof fn lemma_dec_value_prefix(d: Seq<u8>, k: int)
    requires
        0 <= k <= d.len(),
        all_digits(d),
    ensures
        dec_value(d) >= dec_value(d.subrange(0, k)),
    decreases d.len(),
{
    if k < d.len() {
        let m = d.drop_last();
        assert(all_digits(m));
        lemma_dec_value_prefix(m, k);
        assert(m.subrange(0, k) =~= d.subrange(0, k));
    } else {
        assert(d.subrange(0, k) =~= d);
    }
}

fn parse_usize_exec(s: &[u8]) -> (r: Option<usize>)
    ensures
        r matches Some(n) ==> parse_usize(s@) == Some(n as nat),
        r is None ==> parse_usize(s@) is None,
{
    let start: usize = if s.len() > 0 && s[0] == 43 {
        1
    } else {
        0
    };
    let ghost d = if s@.len() > 0 && s@[0] == 43 {
        s@.drop_first()
    } else {
        s@
    };
    assert(d =~= s@.subrange(start as int, s.len() as int));
    if start == s.len() {
        return None;
    }
    let mut v: usize = 0;
    let mut i = start;
    while i < s.len()
        invariant
            start <= i <= s.len(),
            d == s@.subrange(start as int, s.len() as int),
            d == (if s@.len() > 0 && s@[0] == 43 {
                s@.drop_first()
            } else {
                s@
            }),
            all_digits(d.subrange(0, i - start)),
            v == dec_value(d.subrange(0, i - start)),
        decreases s.len() - i,
    {
        let b = s[i];
        if b < 48 || b > 57 {
            assert(d[i - start] == b);
            return None;
        }
        let ghost pre = d.subrange(0, i - start);
        let ghost next = d.subrange(0, i - start + 1);
        assert(next.drop_last() =~= pre);
        assert(next.last() == b);
        assert(all_digits(next));
        assert(dec_value(next) == v * 10 + (b - 48));
        match v.checked_mul(10) {
            None => {
                proof {
                    if all_digits(d) {
                        lemma_dec_value_prefix(d, i - start + 1);
                    }
                }
                return None;
            },
            Some(t) => match t.checked_add((b - 48) as usize) {
                None => {
                    proof {
                        if all_digits(d) {
                            lemma_dec_value_prefix(d, i - start + 1);
                        }
                    }
                    return None;
                },
                Some(w) => {
                    v = w;
                },
            },
        }
        i = i + 1;
    }
    assert(d.subrange(0, d.len() as int) =~= d);
    Some(v)
}

/// `None` for a line that is not `Content-Length`; an error for a bad value.
fn parse_content_length_line(line: &[u8]) -> (r: Option<Result<usize, FrameError>>)
    ensures
        match content_length_of(line@) {
            None => r is None,
            Some(None) => r == Some(Err::<usize, FrameError>(FrameError::InvalidContentLength)),
            Some(Some(n)) => r matches Some(Ok(m)) && m == n,
        },
{
    let e = trim_crlf_end(line);
    let t = bytes_sub(line, 0, e);
    proof {
        lemma_find_byte(t@, 58, 0);
    }
    let colon = match find_byte_exec(&t, 58, 0) {
        None => return None,
        Some(c) => c,
    };
    let head = bytes_sub(&t, 0, colon);
    let name = trim_ascii_exec(&head);
    let expected: Vec<u8> = vec![99u8, 111, 110, 116, 101, 110, 116, 45, 108, 101, 110, 103, 116, 104];
    assert(expected@ =~= content_length_name());
    let ghost lowered = name@.map_values(|b: u8| b_lower(b));
    if name.len() != expected.len() {
        assert(lowered.len() != content_length_name().len());
        return None;
    }
    let mut k: usize = 0;
    while k < name.len()
        invariant
            name.len() == expected.len(),
            k <= name.len(),
            lowered == name@.map_values(|b: u8| b_lower(b)),
            expected@ == content_length_name(),
            t@ == trim_crlf(line@),
            find_byte(t@, 58, 0) == Some(colon as int),
            head@ == t@.subrange(0, colon as int),
            name@ == trim_ascii(head@),
            forall|m: int| 0 <= m < k ==> lowered[m] == expected@[m],
        decreases name.len() - k,
    {
        let b = name[k];
        let lb: u8 = if 65 <= b && b <= 90 {
            b + 32
        } else {
            b
        };
        assert(lowered[k as int] == b_lower(name@[k as int]));
        if lb != expected[k] {
            assert(lowered[k as int] != content_length_name()[k as int]);
            return None;
        }
        k = k + 1;
    }
    assert(lowered =~= content_length_name());
    let tail = bytes_sub(&t, colon + 1, t.len());
    let value = trim_ascii_exec(&tail);
    match parse_usize_exec(&value) {
        Some(n) => Some(Ok(n)),
        None => Some(Err(FrameError::InvalidContentLength)),
    }
}

/// The length from the header block whose first line ends at `first_end`, and
/// where the body starts.
fn read_content_length(inp: &[u8], first_end: usize) -> (r: Result<(usize, usize), FrameError>)
    requires
        0 < first_end <= inp.len(),
    ensures
        match scan_headers(inp@, 0, first_end as int, 0, None) {
            Err(e) => r == Err::<(usize, usize), FrameError>(e),
            Ok((None, _)) => r == Err::<(usize, usize), FrameError>(
                FrameError::MissingContentLength,
            ),
            Ok((Some(n), p)) => if n > MAX_MESSAGE_BYTES {
                r == Err::<(usize, usize), FrameError>(FrameError::MessageTooLarge)
            } else {
                r matches Ok((m, q)) && m == n && q == p && q <= inp.len()
            },
        },
{
    let mut ls: usize = 0;
    let mut le: usize = first_end;
    let mut count: usize = 0;
    let mut length: Option<usize> = None;
    loop
        invariant
            ls < le <= inp.len(),
            count <= MAX_HEADER_LINES,
            scan_headers(inp@, ls as int, le as int, count as nat, match length {
                None => None,
                Some(n) => Some(n as nat),
            }) == scan_headers(inp@, 0, first_end as int, 0, None),
        decreases MAX_HEADER_LINES - count,
    {
        let line = bytes_sub(inp, ls, le);
        let e = trim_crlf_end(&line);
        if e == 0 {
            assert(blank_line(inp@.subrange(ls as int, le as int)));
            assert(scan_headers(inp@, ls as int, le as int, count as nat, match length {
                None => None,
                Some(n) => Some(n as nat),
            }) == Ok::<(Option<nat>, int), FrameError>((match length {
                None => None,
                Some(n) => Some(n as nat),
            }, le as int)));
            return match length {
                None => Err(FrameError::MissingContentLength),
                Some(n) => {
                    if n > MAX_MESSAGE_BYTES {
                        Err(FrameError::MessageTooLarge)
                    } else {
                        Ok((n, le))
                    }
                },
            };
        }
        if count + 1 > MAX_HEADER_LINES {
            return Err(FrameError::TooManyHeaders);
        }
        match parse_content_length_line(&line) {
            None => {},
            Some(Err(err)) => {
                return Err(err);
            },
            Some(Ok(n)) => {
                length = Some(n);
            },
        }
        let next = read_line_limited(inp, le, MAX_MESSAGE_BYTES + 1);
        match next {
            Err(err) => {
                return Err(err);
            },
            Ok(e2) => {
                ls = le;
                le = e2;
                count = count + 1;
            },
        }
    }
}

/// Read one framed body. The returned [`Framing`] is what the reply must use.
///
/// The cap is the body size: a JSONL payload of [`MAX_MESSAGE_BYTES`] plus its
/// terminating newline (or CRLF) is accepted. That matches [`write_message`].
pub fn read_message(input: &[u8]) -> (r: Result<(Vec<u8>, Framing), FrameError>)
    ensures
        match decode(input@) {
            Ok((body, framing)) => r matches Ok((b, f)) && b@ == body && f == framing,
            Err(e) => r == Err::<(Vec<u8>, Framing), FrameError>(e),
        },
{
    let e1 = match read_line_limited(input, 0, MAX_MESSAGE_BYTES + 2) {
        Err(err) => return Err(err),
        Ok(e) => e,
    };
    let first = bytes_sub(input, 0, e1);
    if is_header_line(&first) {
        match read_content_length(input, e1) {
            Err(err) => Err(err),
            Ok((n, p)) => {
                if n > input.len() - p {
                    Err(FrameError::Incomplete)
                } else {
                    let body = bytes_sub(input, p, p + n);
                    Ok((body, Framing::Headers))
                }
            },
        }
    } else {
        let e = trim_crlf_end(&first);
        if e > MAX_MESSAGE_BYTES {
            Err(FrameError::MessageTooLarge)
        } else {
            let body = bytes_sub(&first, 0, e);
            Ok((body, Framing::Jsonl))
        }
    }
}

} // verus!

verus! {

fn push_all(w: &mut Vec<u8>, s: &[u8])
    ensures
        final(w)@ == old(w)@ + s@,
{
    let mut k: usize = 0;
    while k < s.len()
        invariant
            k <= s.len(),
            w@ == old(w)@ + s@.subrange(0, k as int),
        decreases s.len() - k,
    {
        w.push(s[k]);
        k = k + 1;
        assert(old(w)@ + s@.subrange(0, k as int) =~= (old(w)@ + s@.subrange(0, k - 1)).push(
            s@[k - 1],
        ));
    }
    assert(s@.subrange(0, s.len() as int) =~= s@);
}

fn dec_digits_exec(n: usize) -> (r: Vec<u8>)
    ensures
        r@ == dec_digits(n as nat),
    decreases n,
{
    if n < 10 {
        let mut v: Vec<u8> = Vec::new();
        v.push((48 + n) as u8);
        assert(v@ =~= seq![(48 + n) as u8]);
        v
    } else {
        let mut v = dec_digits_exec(n / 10);
        v.push((48 + n % 10) as u8);
        v
    }
}

/// Write `payload` using `framing`. Does not append a second newline to JSON.
/// A payload over the limit is refused as invalid input and nothing is
/// written.
pub fn write_message(writer: &mut Vec<u8>, payload: &[u8], framing: Framing) -> (r: Result<
    (),
    IoFailure,
>)
    ensures
        payload.len() > MAX_MESSAGE_BYTES ==> (r matches Err(e) && e.kind == IoKind::InvalidInput && e.message@
            == "message exceeds size limit"@ && final(writer)@ == old(writer)@),
        payload.len() <= MAX_MESSAGE_BYTES ==> r is Ok && final(writer)@ == old(writer)@ + encode(
            payload@,
            framing,
        ),
{
    if payload.len() > MAX_MESSAGE_BYTES {
        return Err(IoFailure { kind: IoKind::InvalidInput, message: "message exceeds size limit".to_string() });
    }
    match framing {
        Framing::Jsonl => {
            push_all(writer, payload);
            writer.push(10);
            assert(old(writer)@ + payload@.push(10) =~= (old(writer)@ + payload@).push(10));
        },
        Framing::Headers => {
            let prefix: Vec<u8> = vec![67u8, 111, 110, 116, 101, 110, 116, 45, 76, 101, 110, 103, 116, 104, 58, 32];
            assert(prefix@ =~= content_length_prefix());
            let digits = dec_digits_exec(payload.len());
            let crlf2: Vec<u8> = vec![13u8, 10, 13, 10];
            push_all(writer, &prefix);
            push_all(writer, &digits);
            push_all(writer, &crlf2);
            push_all(writer, payload);
            assert(old(writer)@ + encode(payload@, framing) =~= old(writer)@ + prefix@ + digits@
                + crlf2@ + payload@);
        },
    }
    Ok(())
}

proof fn lemma_find_byte_at(s: Seq<u8>, b: u8, i: int, k: int)
    requires
        0 <= i <= k < s.len(),
        s[k] == b,
        forall|m: int| i <= m < k ==> s[m] != b,
    ensures
        find_byte(s, b, i) == Some(k),
    decreases k - i,
{
    if i < k {
        lemma_find_byte_at(s, b, i + 1, k);
    }
}

proof fn lemma_header_tail_at(t: Seq<u8>, i: int, c: int)
    requires
        1 <= i <= c < t.len(),
        t[c] == 58,
        forall|m: int| i <= m < c ==> b_alnum(t[m]) || t[m] == 45,
        forall|m: int| i <= m < c ==> t[m] != 58,
    ensures
        header_tail(t, i),
    decreases c - i,
{
    if i < c {
        lemma_header_tail_at(t, i + 1, c);
    }
}

proof fn lemma_dec_digits(n: nat)
    ensures
        dec_digits(n).len() >= 1,
        all_digits(dec_digits(n)),
        dec_value(dec_digits(n)) == n,
        n < 10000000 ==> dec_digits(n).len() <= 7,
    decreases n,
{
    if n >= 10 {
        lemma_dec_digits(n / 10);
        let d = dec_digits(n);
        assert(d.drop_last() == dec_digits(n / 10));
        assert(all_digits(d)) by {
            assert forall|i: int| 0 <= i < d.len() implies 48 <= #[trigger] d[i] <= 57 by {
                if i < d.len() - 1 {
                    assert(d[i] == dec_digits(n / 10)[i]);
                }
            }
        }
        assert(n < 10000000 ==> n / 10 < 1000000);
        lemma_digits_small(n / 10);
        assert(d.last() == (48 + n % 10) as u8);
        assert(dec_value(d) == dec_value(d.drop_last()) * 10 + (d.last() - 48) as nat);
        assert((n / 10) * 10 + n % 10 == n);
    } else {
        let d = dec_digits(n);
        assert(d.drop_last() =~= Seq::<u8>::empty());
        assert(dec_value(d) == dec_value(d.drop_last()) * 10 + (d.last() - 48) as nat);
    }
}

proof fn lemma_digits_small(n: nat)
    ensures
        n < 1000000 ==> dec_digits(n).len() <= 6,
    decreases n,
{
    if n >= 10 {
        lemma_digits_small5(n / 10);
    }
}

proof fn lemma_digits_small5(n: nat)
    ensures
        n < 100000 ==> dec_digits(n).len() <= 5,
    decreases n,
{
    if n >= 10 {
        lemma_digits_small4(n / 10);
    }
}

proof fn lemma_digits_small4(n: nat)
    ensures
        n < 10000 ==> dec_digits(n).len() <= 4,
    decreases n,
{
    if n >= 10 {
        lemma_digits_small3(n / 10);
    }
}

proof fn lemma_digits_small3(n: nat)
    ensures
        n < 1000 ==> dec_digits(n).len() <= 3,
    decreases n,
{
    if n >= 10 {
        lemma_digits_small2(n / 10);
    }
}

proof fn lemma_digits_small2(n: nat)
    ensures
        n < 100 ==> dec_digits(n).len() <= 2,
    decreases n,
{
    if n >= 10 && n < 100 {
        assert(n / 10 < 10);
        assert(dec_digits(n / 10).len() == 1);
    }
}


proof fn lemma_length_line(n: nat, d: Seq<u8>)
    requires
        d == dec_digits(n),
        n <= usize::MAX,
    ensures
        ({
            let t = content_length_prefix() + d;
            &&& find_byte(t, 58, 0) == Some(14int)
            &&& trim_ascii(t.subrange(0, 14)).map_values(|b: u8| b_lower(b))
                == content_length_name()
            &&& parse_usize(trim_ascii(t.subrange(15, t.len() as int))) == Some(n)
        }),
{
    lemma_dec_digits(n);
    let p = content_length_prefix();
    let t = p + d;
    assert forall|m: int| 0 <= m < 14 implies t[m] != 58 by {
        assert(t[m] == p[m]);
    }
    lemma_find_byte_at(t, 58, 0, 14);
    let name = t.subrange(0, 14);
    assert(name =~= p.subrange(0, 14));
    assert(lead_aws(name, 0) == 0);
    assert(trail_aws(name, 14) == 14);
    assert(trim_ascii(name) =~= name);
    assert(name.map_values(|b: u8| b_lower(b)) =~= content_length_name());
    let value = t.subrange(15, t.len() as int);
    assert(value =~= seq![32u8] + d);
    assert(value[1] == d[0]);
    assert(lead_aws(value, 1) == 1);
    assert(lead_aws(value, 0) == 1);
    assert(value[value.len() - 1] == d[d.len() - 1]);
    assert(trail_aws(value, value.len() as int) == value.len());
    assert(trim_ascii(value) =~= d);
    assert(d[0] != 43);
}

proof fn lemma_header_first_line(n: nat, d: Seq<u8>)
    requires
        d == dec_digits(n),
    ensures
        ({
            let t = content_length_prefix() + d;
            let first = t + seq![13u8, 10];
            &&& trim_crlf(first) == t
            &&& header_line(first)
            &&& !blank_line(first)
        }),
{
    lemma_dec_digits(n);
    let p = content_length_prefix();
    let t = p + d;
    let first = t + seq![13u8, 10];
    assert(first.drop_last() =~= t.push(13));
    assert(t.push(13).drop_last() =~= t);
    assert(trim_crlf(first) == t);
    assert forall|m: int| 1 <= m < 14 implies b_alnum(t[m]) || t[m] == 45 by {
        assert(t[m] == p[m]);
    }
    assert forall|m: int| 1 <= m < 14 implies t[m] != 58 by {
        assert(t[m] == p[m]);
    }
    assert(t[14] == p[14]);
    assert(t[0] == p[0]);
    lemma_header_tail_at(t, 1, 14);
}

#[verifier::rlimit(50)]
proof fn lemma_headers_round_trip(payload: Seq<u8>)
    requires
        payload.len() <= MAX_MESSAGE_BYTES,
    ensures
        decode(encode(payload, Framing::Headers)) == Ok::<(Seq<u8>, Framing), FrameError>(
            (payload, Framing::Headers),
        ),
{
    let inp = encode(payload, Framing::Headers);
    let n = payload.len();
    let p = content_length_prefix();
    let d = dec_digits(n);
    lemma_dec_digits(n);
    let t = p + d;
    let first = t + seq![13u8, 10];
    let e1 = first.len() as int;
    assert(inp =~= first + (seq![13u8, 10] + payload));
    assert forall|m: int| 0 <= m < e1 - 1 implies inp[m] != 10 by {
        if m < 16 {
            assert(inp[m] == p[m]);
        } else if m < 16 + d.len() {
            assert(inp[m] == d[m - 16]);
        } else {
            assert(inp[m] == 13);
        }
    }
    assert(inp[e1 - 1] == 10);
    lemma_find_byte_at(inp, 10, 0, e1 - 1);
    assert(read_line(inp, 0, MAX_MESSAGE_BYTES + 2) == Ok::<int, FrameError>(e1));
    assert(inp.subrange(0, e1) =~= first);
    lemma_header_first_line(n, d);
    lemma_length_line(n, d);
    assert(content_length_of(first) == Some(Some(n as nat)));
    assert(inp[e1] == 13);
    assert(inp[e1 + 1] == 10);
    lemma_find_byte_at(inp, 10, e1, e1 + 1);
    assert(read_line(inp, e1, MAX_MESSAGE_BYTES + 1) == Ok::<int, FrameError>(e1 + 2));
    assert(inp.subrange(e1, e1 + 2) =~= seq![13u8, 10]);
    assert(blank_line(inp.subrange(e1, e1 + 2)));
    assert(scan_headers(inp, e1, e1 + 2, 1, Some(n as nat)) == Ok::<
        (Option<nat>, int),
        FrameError,
    >((Some(n as nat), e1 + 2)));
    assert(scan_headers(inp, 0, e1, 0, None) == Ok::<(Option<nat>, int), FrameError>(
        (Some(n as nat), e1 + 2),
    ));
    assert(inp.subrange(e1 + 2, e1 + 2 + n) =~= payload);
}

/// A message written by [`write_message`] reads back as the same body and
/// framing. A JSONL body must be one line that does not itself read as a
/// header line and does not end in a carriage return.
pub proof fn lemma_frame_round_trip(payload: Seq<u8>, framing: Framing)
    requires
        payload.len() <= MAX_MESSAGE_BYTES,
        framing == Framing::Jsonl ==> {
            &&& forall|i: int| 0 <= i < payload.len() ==> payload[i] != 10
            &&& !header_line(payload)
            &&& !(payload.len() > 0 && payload.last() == 13)
        },
    ensures
        decode(encode(payload, framing)) == Ok::<(Seq<u8>, Framing), FrameError>(
            (payload, framing),
        ),
{
    let inp = encode(payload, framing);
    match framing {
        Framing::Jsonl => {
            lemma_find_byte_at(inp, 10, 0, payload.len() as int);
            assert(inp.subrange(0, inp.len() as int) =~= inp);
            assert(inp.drop_last() =~= payload);
            assert(trim_crlf(payload) == payload);
        },
        Framing::Headers => {
            lemma_headers_round_trip(payload);
        },
    }
}

} // verus!
