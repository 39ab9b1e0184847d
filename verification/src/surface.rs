//! The operation set: every verb named on each surface that carries it
//! (command line, control socket, MCP tool list), and a reader for the
//! schema text that declares it.
use vstd::prelude::*;

use crate::text::{
    chars_of, find_char, find_char_from, find_from, find_seq, lines, lines_exec, slice_of,
    starts_with, starts_with_exec, string_of, trim, trim_chars,
};

verus! {

/// One verb, named on each surface that carries it.
#[derive(Debug, Clone, PartialEq, Eq)]
pub struct Operation {
    /// Subcommand name.
    pub cli: String,
    /// Control-socket method, empty when the verb has none.
    pub socket: String,
    /// MCP tool name, empty when the verb is deliberately not a tool.
    pub mcp: String,
    /// Whether the verb changes a file.
    pub mutates: bool,
    /// Whether the verb only makes sense in the process it is typed into.
    pub local: bool,
    /// Other names the command line answers to for this verb.
    pub aliases: Vec<String>,
    /// Why a surface is empty, when one is.
    pub note: String,
    /// Fields the verb takes, each named per surface.
    pub fields: Vec<Field>,
}

/// One field of one verb, named per surface.
#[derive(Debug, Clone, PartialEq, Eq)]
pub struct Field {
    pub cli: String,
    pub tool: String,
    pub socket: String,
    pub note: String,
    pub tool_type: String,
    pub socket_type: String,
}

/// The names `pick` takes from the operations that `keep` accepts, in order.
pub open spec fn names_where(
    ops: Seq<Operation>,
    keep: spec_fn(Operation) -> bool,
    pick: spec_fn(Operation) -> Seq<char>,
) -> Seq<Seq<char>>
    decreases ops.len(),
{
    if ops.len() == 0 {
        seq![]
    } else {
        names_where(ops.drop_last(), keep, pick) + if keep(ops.last()) {
            seq![pick(ops.last())]
        } else {
            seq![]
        }
    }
}

/// Which name an operation contributes.
#[derive(Clone, Copy)]
enum Pick {
    Socket,
    Cli,
    Mcp,
}

/// The name `p` selects, and whether the operation counts.
fn select(o: &Operation, p: Pick, mutating_only: bool) -> (r: Option<&String>)
    ensures
        r matches Some(n) ==> (!mutating_only || o.mutates) && n@ == match p {
            Pick::Socket => o.socket@,
            Pick::Cli => o.cli@,
            Pick::Mcp => o.mcp@,
        } && n@.len() > 0,
        r is None ==> !((!mutating_only || o.mutates) && match p {
            Pick::Socket => o.socket@,
            Pick::Cli => o.cli@,
            Pick::Mcp => o.mcp@,
        }.len() > 0),
{
    if mutating_only && !o.mutates {
        return None;
    }
    let n = match p {
        Pick::Socket => &o.socket,
        Pick::Cli => &o.cli,
        Pick::Mcp => &o.mcp,
    };
    if n.as_str().is_empty() {
        None
    } else {
        Some(n)
    }
}

fn collect_names(ops: &[Operation], p: Pick, mutating_only: bool, Ghost(keep): Ghost<
    spec_fn(Operation) -> bool,
>, Ghost(pick): Ghost<spec_fn(Operation) -> Seq<char>>) -> (r: Vec<String>)
    requires
        forall|o: Operation|
            #[trigger] keep(o) == ((!mutating_only || o.mutates) && pick(o).len() > 0),
        forall|o: Operation|
            #[trigger] pick(o) == match p {
                Pick::Socket => o.socket@,
                Pick::Cli => o.cli@,
                Pick::Mcp => o.mcp@,
            },
    ensures
        r@.map_values(|s: String| s@) == names_where(ops@, keep, pick),
{
    let mut r: Vec<String> = Vec::new();
    let mut i: usize = 0;
    while i < ops.len()
        invariant
            i <= ops.len(),
            forall|o: Operation|
                #[trigger] keep(o) == ((!mutating_only || o.mutates) && pick(o).len() > 0),
            forall|o: Operation|
                #[trigger] pick(o) == match p {
                    Pick::Socket => o.socket@,
                    Pick::Cli => o.cli@,
                    Pick::Mcp => o.mcp@,
                },
            r@.map_values(|s: String| s@) == names_where(ops@.take(i as int), keep, pick),
        decreases ops.len() - i,
    {
        let ghost before = r@;
        proof {
            assert(ops@.take(i + 1).drop_last() =~= ops@.take(i as int));
            assert(ops@.take(i + 1).last() == ops@[i as int]);
        }
        match select(&ops[i], p, mutating_only) {
            Some(n) => {
                r.push(n.clone());
                assert(r@.map_values(|s: String| s@) =~= before.map_values(|s: String| s@)
                    + seq![n@]);
            },
            None => {
                assert(r@.map_values(|s: String| s@) =~= before.map_values(|s: String| s@)
                    + Seq::<Seq<char>>::empty());
            },
        }
        i = i + 1;
    }
    assert(ops@.take(ops.len() as int) =~= ops@);
    r
}

/// Whether an operation has a socket method.
pub open spec fn on_socket(o: Operation) -> bool {
    o.socket@.len() > 0
}

/// Whether a mutating operation has a socket method.
pub open spec fn mutating_on_socket(o: Operation) -> bool {
    o.mutates && o.socket@.len() > 0
}

/// Whether a mutating operation has a subcommand.
pub open spec fn mutating_on_cli(o: Operation) -> bool {
    o.mutates && o.cli@.len() > 0
}

/// Whether a mutating operation has an MCP tool.
pub open spec fn mutating_on_mcp(o: Operation) -> bool {
    o.mutates && o.mcp@.len() > 0
}

/// An operation's socket method.
pub open spec fn socket_of(o: Operation) -> Seq<char> {
    o.socket@
}

/// An operation's subcommand.
pub open spec fn cli_of(o: Operation) -> Seq<char> {
    o.cli@
}

/// An operation's MCP tool.
pub open spec fn mcp_of(o: Operation) -> Seq<char> {
    o.mcp@
}

/// Verbs that reach the socket, mutating or not.
pub fn socket_methods(ops: &[Operation]) -> (r: Vec<String>)
    ensures
        r@.map_values(|s: String| s@) == names_where(
            ops@,
            |o: Operation| on_socket(o),
            |o: Operation| socket_of(o),
        ),
{
    collect_names(
        ops,
        Pick::Socket,
        false,
        Ghost(|o: Operation| on_socket(o)),
        Ghost(|o: Operation| socket_of(o)),
    )
}

/// Every mutating verb's socket method, skipping the empty ones.
pub fn mutating_socket_methods(ops: &[Operation]) -> (r: Vec<String>)
    ensures
        r@.map_values(|s: String| s@) == names_where(
            ops@,
            |o: Operation| mutating_on_socket(o),
            |o: Operation| socket_of(o),
        ),
{
    collect_names(
        ops,
        Pick::Socket,
        true,
        Ghost(|o: Operation| mutating_on_socket(o)),
        Ghost(|o: Operation| socket_of(o)),
    )
}

/// Every mutating verb's subcommand.
pub fn mutating_cli_verbs(ops: &[Operation]) -> (r: Vec<String>)
    ensures
        r@.map_values(|s: String| s@) == names_where(
            ops@,
            |o: Operation| mutating_on_cli(o),
            |o: Operation| cli_of(o),
        ),
{
    collect_names(
        ops,
        Pick::Cli,
        true,
        Ghost(|o: Operation| mutating_on_cli(o)),
        Ghost(|o: Operation| cli_of(o)),
    )
}

/// Every mutating verb's MCP tool, skipping the ones deliberately absent.
pub fn mutating_mcp_tools(ops: &[Operation]) -> (r: Vec<String>)
    ensures
        r@.map_values(|s: String| s@) == names_where(
            ops@,
            |o: Operation| mutating_on_mcp(o),
            |o: Operation| mcp_of(o),
        ),
{
    collect_names(
        ops,
        Pick::Mcp,
        true,
        Ghost(|o: Operation| mutating_on_mcp(o)),
        Ghost(|o: Operation| mcp_of(o)),
    )
}

/// Every subcommand and its aliases, for operations that have a subcommand.
pub open spec fn verbs_of(ops: Seq<Operation>) -> Seq<Seq<char>>
    decreases ops.len(),
{
    if ops.len() == 0 {
        seq![]
    } else {
        verbs_of(ops.drop_last()) + if ops.last().cli@.len() > 0 {
            seq![ops.last().cli@] + ops.last().aliases@.map_values(|s: String| s@)
        } else {
            seq![]
        }
    }
}

/// Every subcommand the operation set knows, aliases included.
pub fn cli_verbs(ops: &[Operation]) -> (r: Vec<String>)
    ensures
        r@.map_values(|s: String| s@) == verbs_of(ops@),
{
    let mut r: Vec<String> = Vec::new();
    let mut i: usize = 0;
    while i < ops.len()
        invariant
            i <= ops.len(),
            r@.map_values(|s: String| s@) == verbs_of(ops@.take(i as int)),
        decreases ops.len() - i,
    {
        proof {
            assert(ops@.take(i + 1).drop_last() =~= ops@.take(i as int));
            assert(ops@.take(i + 1).last() == ops@[i as int]);
        }
        let o = &ops[i];
        let ghost before = r@.map_values(|s: String| s@);
        if !o.cli.as_str().is_empty() {
            r.push(o.cli.clone());
            let mut k: usize = 0;
            while k < o.aliases.len()
                invariant
                    k <= o.aliases.len(),
                    r@.map_values(|s: String| s@) == before + seq![o.cli@] + o.aliases@.take(
                        k as int,
                    ).map_values(|s: String| s@),
                decreases o.aliases.len() - k,
            {
                let ghost mid = r@;
                let a = o.aliases[k].clone();
                r.push(a);
                proof {
                    assert(r@ == mid.push(a));
                    assert(r@.map_values(|s: String| s@) =~= mid.map_values(|s: String| s@).push(a@));
                    assert(o.aliases@.take(k + 1).map_values(|s: String| s@) =~= o.aliases@.take(
                        k as int,
                    ).map_values(|s: String| s@).push(o.aliases@[k as int]@));
                }
                k = k + 1;
                assert(r@.map_values(|s: String| s@) =~= before + seq![o.cli@] + o.aliases@.take(
                    k as int,
                ).map_values(|s: String| s@));
            }
            assert(o.aliases@.take(o.aliases.len() as int) =~= o.aliases@);
        } else {
            assert(before + Seq::<Seq<char>>::empty() =~= before);
        }
        i = i + 1;
    }
    assert(ops@.take(ops.len() as int) =~= ops@);
    r
}

/// `name = "value"` read from a trimmed schema line: the text between the
/// first two double quotes after the first `name = `.
pub open spec fn quoted(t: Seq<char>, name: Seq<char>) -> Option<Seq<char>> {
    match find_from(t, name + " = "@, 0) {
        None => None,
        Some(at) => {
            let rest = t.subrange(at, t.len() as int);
            match find_char_from(rest, '"', 0) {
                None => None,
                Some(open) => match find_char_from(rest, '"', open + 1) {
                    None => None,
                    Some(close) => Some(rest.subrange(open + 1, close)),
                },
            }
        },
    }
}

/// Whether `t` holds `pat` somewhere.
pub open spec fn holds_text(t: Seq<char>, pat: Seq<char>) -> bool {
    find_from(t, pat, 0) is Some
}

/// The schema rows read from these lines: an operation row (with its three
/// surface names) starts an entry; a field row counts toward the last one.
pub open spec fn schema_rows(ls: Seq<Seq<char>>) -> Seq<(Seq<char>, Seq<char>, Seq<char>, nat)>
    decreases ls.len(),
{
    if ls.len() == 0 {
        seq![]
    } else {
        let out = schema_rows(ls.drop_last());
        let t = trim(ls.last());
        let opener = starts_with(t, "( cli = "@);
        if opener && holds_text(t, "mutates = "@) && quoted(t, "cli"@) is Some && quoted(
            t,
            "socket"@,
        ) is Some && quoted(t, "mcp"@) is Some {
            out.push(
                (
                    quoted(t, "cli"@).unwrap(),
                    quoted(t, "socket"@).unwrap(),
                    quoted(t, "mcp"@).unwrap(),
                    0nat,
                ),
            )
        } else if opener && holds_text(t, "tool = "@) && !holds_text(t, "mutates = "@) && out.len()
            > 0 {
            out.update(
                out.len() - 1,
                (out.last().0, out.last().1, out.last().2, out.last().3 + 1),
            )
        } else {
            out
        }
    }
}

/// What the schema text declares: one entry per operation after
/// `const operations`, as `(cli, socket, mcp, field count)`.
pub open spec fn schema_text(text: Seq<char>) -> Seq<(Seq<char>, Seq<char>, Seq<char>, nat)> {
    match find_from(text, "const operations"@, 0) {
        None => seq![],
        Some(start) => schema_rows(lines(text.subrange(start, text.len() as int))),
    }
}

fn quoted_exec(t: &[char], name: &str) -> (r: Option<Vec<char>>)
    ensures
        match quoted(t@, name@) {
            Some(q) => r matches Some(v) && v@ == q,
            None => r is None,
        },
{
    let mut pat = chars_of(name);
    crate::text::push_str_chars(&mut pat, " = ");
    let at = match find_seq(t, &pat, 0) {
        Some(a) => a,
        None => return None,
    };
    proof {
        crate::text::lemma_find_from(t@, pat@, 0);
    }
    let rest = slice_of(t, at, t.len());
    let open = match find_char(&rest, '"', 0) {
        Some(o) => o,
        None => return None,
    };
    proof {
        crate::text::lemma_find_char_from(rest@, '"', 0);
    }
    let close = match find_char(&rest, '"', open + 1) {
        Some(c) => c,
        None => return None,
    };
    proof {
        crate::text::lemma_find_char_from(rest@, '"', open + 1);
    }
    Some(slice_of(&rest, open + 1, close))
}

/// The view of one parsed row.
pub open spec fn row_view(r: (String, String, String, usize)) -> (Seq<char>, Seq<char>, Seq<char>, nat) {
    (r.0@, r.1@, r.2@, r.3 as nat)
}

/// The schema as its text states it: one entry per operation, as
/// `(cli, socket, mcp, field count)`.
pub fn parse_schema_text(text: &str) -> (r: Vec<(String, String, String, usize)>)
    ensures
        r@.map_values(|e: (String, String, String, usize)| row_view(e)) == schema_text(text@),
{
    let cs = chars_of(text);
    let mut out: Vec<(String, String, String, usize)> = Vec::new();
    let start = match find_seq(&cs, &chars_of("const operations"), 0) {
        Some(s) => s,
        None => {
            assert(out@.map_values(|e: (String, String, String, usize)| row_view(e)) =~= Seq::<
                (Seq<char>, Seq<char>, Seq<char>, nat),
            >::empty());
            return out;
        },
    };
    proof {
        crate::text::lemma_find_from(cs@, "const operations"@, 0);
    }
    let ls = lines_exec(&slice_of(&cs, start, cs.len()));
    let ghost lv = ls@.map_values(|w: Vec<char>| w@);
    let opener = chars_of("( cli = ");
    let mutates = chars_of("mutates = ");
    let tool = chars_of("tool = ");
    let mut i: usize = 0;
    while i < ls.len()
        invariant
            i <= ls.len(),
            lv == ls@.map_values(|w: Vec<char>| w@),
            lv == lines(text@.subrange(start as int, text@.len() as int)),
            opener@ == "( cli = "@,
            mutates@ == "mutates = "@,
            tool@ == "tool = "@,
            out.len() <= i,
            forall|k: int| 0 <= k < out.len() ==> (#[trigger] out@[k]).3 <= i,
            out@.map_values(|e: (String, String, String, usize)| row_view(e)) == schema_rows(
                lv.take(i as int),
            ),
        decreases ls.len() - i,
    {
        proof {
            assert(lv.take(i + 1).drop_last() =~= lv.take(i as int));
            assert(lv.take(i + 1).last() == ls@[i as int]@);
        }
        let t = trim_chars(&ls[i]);
        let is_opener = starts_with_exec(&t, &opener);
        let has_mutates = find_seq(&t, &mutates, 0).is_some();
        let ghost before = out@;
        let ghost bv = before.map_values(|e: (String, String, String, usize)| row_view(e));
        if is_opener && has_mutates {
            let cli = quoted_exec(&t, "cli");
            let socket = quoted_exec(&t, "socket");
            let mcp = quoted_exec(&t, "mcp");
            match (cli, socket, mcp) {
                (Some(c), Some(s), Some(m)) => {
                    out.push((string_of(&c), string_of(&s), string_of(&m), 0));
                    proof {
                        assert(out@.map_values(|e: (String, String, String, usize)| row_view(e))
                            =~= bv.push((c@, s@, m@, 0nat)));
                    }
                    i = i + 1;
                    continue;
                },
                _ => {},
            }
        }
        let has_tool = find_seq(&t, &tool, 0).is_some();
        if is_opener && has_tool && !has_mutates && out.len() > 0 {
            let last = out.len() - 1;
            let (c, s, m, n) = out.remove(last);
            out.push((c, s, m, n + 1));
            proof {
                assert(out@.map_values(|e: (String, String, String, usize)| row_view(e)) =~= bv.update(
                    bv.len() - 1,
                    (bv.last().0, bv.last().1, bv.last().2, bv.last().3 + 1),
                ));
            }
        }
        i = i + 1;
    }
    assert(lv.take(ls.len() as int) =~= lv);
    out
}

} // verus!
