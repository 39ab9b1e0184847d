//! The HUD's action catalog and the `keys.toml` overlay.
//!
//! Defaults live in code. An operator's overlay may remap the remappable
//! actions; an invalid overlay is refused as a whole.
use vstd::prelude::*;

use crate::text::{chars_of, lower_seq, str_eq, string_of};
use crate::textmap::TextMap;
use crate::tomldoc::{TomlValue, TomlView, get_view, lemma_entries, parse_toml, toml_doc, toml_entries, toml_get, toml_view};

verus! {

/// Dotted action id. Remappable except where the catalog says otherwise.
#[derive(Debug, Clone, Copy, PartialEq, Eq, Structural, PartialOrd, Ord, Hash)]
pub enum ActionId {
    ListDown,
    ListUp,
    ListSelect,
    ListDone,
    PaneReady,
    PaneList,
    PaneClaims,
    PaneAgenda,
    PaneSearch,
    PaneNext,
    DetailCycle,
    ProjectCycle,
    Search,
    Add,
    Claim,
    Note,
    StateCycle,
    ConfirmDone,
    ConfirmCancel,
    Open,
    CopyId,
    Reload,
    Help,
}

/// The dotted name of each action.
pub open spec fn action_name(a: ActionId) -> Seq<char> {
    match a {
        ActionId::ListDown => "list.down"@,
        ActionId::ListUp => "list.up"@,
        ActionId::ListSelect => "list.select"@,
        ActionId::ListDone => "list.done"@,
        ActionId::PaneReady => "pane.ready"@,
        ActionId::PaneList => "pane.list"@,
        ActionId::PaneClaims => "pane.claims"@,
        ActionId::PaneAgenda => "pane.agenda"@,
        ActionId::PaneSearch => "pane.search"@,
        ActionId::PaneNext => "pane.next"@,
        ActionId::DetailCycle => "detail.cycle"@,
        ActionId::ProjectCycle => "project.cycle"@,
        ActionId::Search => "board.search"@,
        ActionId::Add => "issue.add"@,
        ActionId::Claim => "issue.claim"@,
        ActionId::Note => "issue.note"@,
        ActionId::StateCycle => "issue.state"@,
        ActionId::ConfirmDone => "issue.done"@,
        ActionId::ConfirmCancel => "issue.cancel"@,
        ActionId::Open => "issue.open"@,
        ActionId::CopyId => "issue.copy"@,
        ActionId::Reload => "board.reload"@,
        ActionId::Help => "board.help"@,
    }
}

/// Every action, in catalog order.
pub open spec fn all_actions_spec() -> Seq<ActionId> {
    seq![
        ActionId::ListDown,
        ActionId::ListUp,
        ActionId::ListSelect,
        ActionId::ListDone,
        ActionId::PaneReady,
        ActionId::PaneList,
        ActionId::PaneClaims,
        ActionId::PaneAgenda,
        ActionId::PaneSearch,
        ActionId::PaneNext,
        ActionId::DetailCycle,
        ActionId::ProjectCycle,
        ActionId::Search,
        ActionId::Add,
        ActionId::Claim,
        ActionId::Note,
        ActionId::StateCycle,
        ActionId::ConfirmDone,
        ActionId::ConfirmCancel,
        ActionId::Open,
        ActionId::CopyId,
        ActionId::Reload,
        ActionId::Help,
    ]
}

/// The first action in catalog order whose name is `raw`.
pub open spec fn first_named(acts: Seq<ActionId>, raw: Seq<char>) -> Option<ActionId>
    decreases acts.len(),
{
    if acts.len() == 0 {
        None
    } else if action_name(acts[0]) == raw {
        Some(acts[0])
    } else {
        first_named(acts.drop_first(), raw)
    }
}

/// The action whose dotted name is `raw`.
pub open spec fn action_named(raw: Seq<char>) -> Option<ActionId> {
    first_named(all_actions_spec(), raw)
}

/// Every action, in catalog order.
pub fn all_actions() -> (r: Vec<ActionId>)
    ensures
        r@ == all_actions_spec(),
{
    let mut r: Vec<ActionId> = Vec::new();
    r.push(ActionId::ListDown);
    r.push(ActionId::ListUp);
    r.push(ActionId::ListSelect);
    r.push(ActionId::ListDone);
    r.push(ActionId::PaneReady);
    r.push(ActionId::PaneList);
    r.push(ActionId::PaneClaims);
    r.push(ActionId::PaneAgenda);
    r.push(ActionId::PaneSearch);
    r.push(ActionId::PaneNext);
    r.push(ActionId::DetailCycle);
    r.push(ActionId::ProjectCycle);
    r.push(ActionId::Search);
    r.push(ActionId::Add);
    r.push(ActionId::Claim);
    r.push(ActionId::Note);
    r.push(ActionId::StateCycle);
    r.push(ActionId::ConfirmDone);
    r.push(ActionId::ConfirmCancel);
    r.push(ActionId::Open);
    r.push(ActionId::CopyId);
    r.push(ActionId::Reload);
    r.push(ActionId::Help);
    assert(r@ =~= all_actions_spec());
    r
}

impl ActionId {
    /// The dotted name.
    pub fn as_str(self) -> (r: &'static str)
        ensures
            r@ == action_name(self),
    {
        match self {
            ActionId::ListDown => "list.down",
            ActionId::ListUp => "list.up",
            ActionId::ListSelect => "list.select",
            ActionId::ListDone => "list.done",
            ActionId::PaneReady => "pane.ready",
            ActionId::PaneList => "pane.list",
            ActionId::PaneClaims => "pane.claims",
            ActionId::PaneAgenda => "pane.agenda",
            ActionId::PaneSearch => "pane.search",
            ActionId::PaneNext => "pane.next",
            ActionId::DetailCycle => "detail.cycle",
            ActionId::ProjectCycle => "project.cycle",
            ActionId::Search => "board.search",
            ActionId::Add => "issue.add",
            ActionId::Claim => "issue.claim",
            ActionId::Note => "issue.note",
            ActionId::StateCycle => "issue.state",
            ActionId::ConfirmDone => "issue.done",
            ActionId::ConfirmCancel => "issue.cancel",
            ActionId::Open => "issue.open",
            ActionId::CopyId => "issue.copy",
            ActionId::Reload => "board.reload",
            ActionId::Help => "board.help",
        }
    }

    /// The action whose dotted name is `raw`.
    pub fn parse(raw: &str) -> (r: Option<ActionId>)
        ensures
            r == action_named(raw@),
    {
        let all = all_actions();
        let mut i: usize = 0;
        assert(all@.subrange(0, all.len() as int) =~= all@);
        while i < all.len()
            invariant
                i <= all.len(),
                all@ == all_actions_spec(),
                first_named(all@.subrange(i as int, all.len() as int), raw@) == action_named(
                    raw@,
                ),
            decreases all.len() - i,
        {
            let a = all[i];
            let ghost rest = all@.subrange(i as int, all.len() as int);
            assert(rest[0] == a);
            assert(rest.drop_first() =~= all@.subrange(i + 1, all.len() as int));
            if str_eq(a.as_str(), raw) {
                return Some(a);
            }
            i = i + 1;
        }
        None
    }
}

/// Where an action applies.
#[derive(Debug, Clone, Copy, PartialEq, Eq, Structural)]
pub enum Scope {
    Global,
    Board,
}

/// The name of each scope.
pub open spec fn scope_name(s: Scope) -> Seq<char> {
    match s {
        Scope::Global => "global"@,
        Scope::Board => "board"@,
    }
}

impl Scope {
    /// The scope's name.
    pub fn as_str(self) -> (r: &'static str)
        ensures
            r@ == scope_name(self),
    {
        match self {
            Scope::Global => "global",
            Scope::Board => "board",
        }
    }
}

/// One catalog row. Defaults stay in this table.
#[derive(Debug, Clone, Copy)]
pub struct ActionRow {
    pub id: ActionId,
    pub scope: Scope,
    pub default: &'static str,
    pub remappable: bool,
}

/// The catalog row of `id`: its scope, default chord, and whether an
/// overlay may move it.
pub open spec fn row_of(id: ActionId) -> (Scope, Seq<char>, bool) {
    match id {
        ActionId::ListDown => (Scope::Board, "j"@, true),
        ActionId::ListUp => (Scope::Board, "k"@, true),
        ActionId::ListSelect => (Scope::Board, "enter"@, false),
        ActionId::ListDone => (Scope::Board, "space"@, true),
        ActionId::PaneReady => (Scope::Board, "1"@, true),
        ActionId::PaneList => (Scope::Board, "2"@, true),
        ActionId::PaneClaims => (Scope::Board, "3"@, true),
        ActionId::PaneAgenda => (Scope::Board, "4"@, true),
        ActionId::PaneSearch => (Scope::Board, "5"@, true),
        ActionId::PaneNext => (Scope::Board, "tab"@, false),
        ActionId::DetailCycle => (Scope::Board, "enter"@, false),
        ActionId::ProjectCycle => (Scope::Board, "p"@, true),
        ActionId::Search => (Scope::Board, "/"@, true),
        ActionId::Add => (Scope::Board, "a"@, true),
        ActionId::Claim => (Scope::Board, "c"@, true),
        ActionId::Note => (Scope::Board, "n"@, true),
        ActionId::StateCycle => (Scope::Board, "s"@, true),
        ActionId::ConfirmDone => (Scope::Board, "D"@, true),
        ActionId::ConfirmCancel => (Scope::Board, "X"@, true),
        ActionId::Open => (Scope::Board, "o"@, true),
        ActionId::CopyId => (Scope::Board, "y"@, true),
        ActionId::Reload => (Scope::Board, "R"@, true),
        ActionId::Help => (Scope::Global, "?"@, false),
    }
}

/// Whether `row` is the catalog's row for its action.
pub open spec fn row_ok(row: ActionRow) -> bool {
    row_of(row.id) == (row.scope, row.default@, row.remappable)
}

/// The catalog row of `id`.
pub fn row_for(id: ActionId) -> (row: ActionRow)
    ensures
        row.id == id,
        row_ok(row),
{
    let (scope, default, remappable): (Scope, &'static str, bool) = match id {
        ActionId::ListDown => (Scope::Board, "j", true),
        ActionId::ListUp => (Scope::Board, "k", true),
        ActionId::ListSelect => (Scope::Board, "enter", false),
        ActionId::ListDone => (Scope::Board, "space", true),
        ActionId::PaneReady => (Scope::Board, "1", true),
        ActionId::PaneList => (Scope::Board, "2", true),
        ActionId::PaneClaims => (Scope::Board, "3", true),
        ActionId::PaneAgenda => (Scope::Board, "4", true),
        ActionId::PaneSearch => (Scope::Board, "5", true),
        ActionId::PaneNext => (Scope::Board, "tab", false),
        ActionId::DetailCycle => (Scope::Board, "enter", false),
        ActionId::ProjectCycle => (Scope::Board, "p", true),
        ActionId::Search => (Scope::Board, "/", true),
        ActionId::Add => (Scope::Board, "a", true),
        ActionId::Claim => (Scope::Board, "c", true),
        ActionId::Note => (Scope::Board, "n", true),
        ActionId::StateCycle => (Scope::Board, "s", true),
        ActionId::ConfirmDone => (Scope::Board, "D", true),
        ActionId::ConfirmCancel => (Scope::Board, "X", true),
        ActionId::Open => (Scope::Board, "o", true),
        ActionId::CopyId => (Scope::Board, "y", true),
        ActionId::Reload => (Scope::Board, "R", true),
        ActionId::Help => (Scope::Global, "?", false),
    };
    ActionRow { id, scope, default, remappable }
}

/// The catalog: one row per action, in catalog order.
pub fn catalog() -> (rows: Vec<ActionRow>)
    ensures
        rows.len() == all_actions_spec().len(),
        forall|i: int|
            0 <= i < rows.len() ==> #[trigger] rows@[i].id == all_actions_spec()[i] && row_ok(
                rows@[i],
            ),
{
    let all = all_actions();
    let mut rows: Vec<ActionRow> = Vec::new();
    let mut i: usize = 0;
    while i < all.len()
        invariant
            i <= all.len(),
            all@ == all_actions_spec(),
            rows.len() == i,
            forall|j: int|
                0 <= j < i ==> #[trigger] rows@[j].id == all@[j] && row_ok(rows@[j]),
        decreases all.len() - i,
    {
        rows.push(row_for(all[i]));
        i = i + 1;
    }
    rows
}

/// Chords the overlay may not steal (compared in ASCII lowercase).
pub open spec fn reserved(chord: Seq<char>) -> bool {
    chord == "esc"@ || chord == "enter"@ || chord == "tab"@ || chord == "?"@
}

/// The default bindings: each catalog row's chord, later rows winning.
pub open spec fn bind_defaults(acts: Seq<ActionId>) -> Map<Seq<char>, ActionId>
    decreases acts.len(),
{
    if acts.len() == 0 {
        Map::empty()
    } else {
        bind_defaults(acts.drop_last()).insert(row_of(acts.last()).1, acts.last())
    }
}

/// Resolved map: chord to action, board scope.
#[derive(Debug, Clone)]
pub struct KeyMap {
    pub by_chord: TextMap<ActionId>,
    pub leader: Option<char>,
    pub leader_timeout_ms: u64,
    pub overlay_error: Option<String>,
}

impl KeyMap {
    /// Chord to action.
    pub open spec fn bindings(&self) -> Map<Seq<char>, ActionId> {
        self.by_chord.view()
    }

    /// The bound chords in ascending order.
    pub open spec fn chords(&self) -> Seq<Seq<char>> {
        self.by_chord.key_seq()
    }

    /// The action of each chord of [`Self::chords`], in the same order.
    pub open spec fn chord_actions(&self) -> Seq<ActionId> {
        self.by_chord.value_seq()
    }

    /// The catalog defaults, with no leader and an 800 ms leader timeout.
    pub fn from_defaults() -> (m: KeyMap)
        ensures
            m.bindings() == bind_defaults(all_actions_spec()),
            m.leader is None,
            m.leader_timeout_ms == 800,
            m.overlay_error is None,
    {
        let rows = catalog();
        let mut by_chord: TextMap<ActionId> = TextMap::new();
        let mut i: usize = 0;
        while i < rows.len()
            invariant
                i <= rows.len(),
                rows.len() == all_actions_spec().len(),
                forall|j: int|
                    0 <= j < rows.len() ==> #[trigger] rows@[j].id == all_actions_spec()[j]
                        && row_ok(rows@[j]),
                by_chord.view() == bind_defaults(all_actions_spec().take(i as int)),
            decreases rows.len() - i,
        {
            let row = rows[i];
            by_chord.insert(row.default.to_owned(), row.id);
            i = i + 1;
            proof {
                let t = all_actions_spec().take(i as int);
                assert(t.drop_last() =~= all_actions_spec().take(i - 1));
                assert(t.last() == rows@[i - 1].id);
            }
        }
        assert(all_actions_spec().take(rows.len() as int) =~= all_actions_spec());
        KeyMap { by_chord, leader: None, leader_timeout_ms: 800, overlay_error: None }
    }

    /// The action bound to `chord`.
    pub fn get(&self, chord: &str) -> (r: Option<ActionId>)
        ensures
            match r {
                Some(a) => self.bindings().contains_key(chord@) && self.bindings()[chord@] == a,
                None => !self.bindings().contains_key(chord@),
            },
    {
        match self.by_chord.get(chord) {
            Some(a) => Some(*a),
            None => None,
        }
    }
}

/// The first chord, in the order given, bound to `id`.
pub open spec fn first_chord(chords: Seq<Seq<char>>, acts: Seq<ActionId>, id: ActionId) -> Option<
    Seq<char>,
>
    decreases chords.len(),
{
    if chords.len() == 0 || acts.len() == 0 {
        None
    } else if acts[0] == id {
        Some(chords[0])
    } else {
        first_chord(chords.drop_first(), acts.drop_first(), id)
    }
}

/// The chord shown for `id`: its first bound chord, else its default.
pub open spec fn shown_chord(m: KeyMap, id: ActionId) -> Seq<char> {
    match first_chord(m.chords(), m.chord_actions(), id) {
        Some(c) => c,
        None => row_of(id).1,
    }
}

/// `s` padded with spaces on the right to `width` characters, as
/// `format!("{:<width$}")` pads.
pub open spec fn pad_right(s: Seq<char>, width: nat) -> Seq<char> {
    if s.len() >= width {
        s
    } else {
        s + Seq::new((width - s.len()) as nat, |_i: int| ' ')
    }
}

/// The help line of `id`: its chord in eight columns, two spaces, its name.
pub open spec fn help_line(m: KeyMap, id: ActionId) -> Seq<char> {
    pad_right(shown_chord(m, id), 8) + "  "@ + action_name(id)
}

/// The table line of `id`: scope in eight columns, name in sixteen, chord.
pub open spec fn table_line(m: KeyMap, id: ActionId) -> Seq<char> {
    pad_right(scope_name(row_of(id).0), 8) + " "@ + pad_right(action_name(id), 16) + " "@
        + shown_chord(m, id)
}

/// Append `s` and pad what was appended to `width` characters.
pub fn push_padded(out: &mut String, s: &str, width: usize)
    ensures
        final(out)@ == old(out)@ + pad_right(s@, width as nat),
{
    out.push_str(s);
    let n = chars_of(s).len();
    if n < width {
        let mut k: usize = n;
        while k < width
            invariant
                n <= k <= width,
                n == s@.len(),
                out@ == old(out)@ + s@ + Seq::new((k - n) as nat, |_i: int| ' '),
            decreases width - k,
        {
            out.push(' ');
            k = k + 1;
            assert(Seq::new((k - n) as nat, |_i: int| ' ') =~= Seq::new(
                (k - 1 - n) as nat,
                |_i: int| ' ',
            ).push(' '));
        }
        assert(old(out)@ + s@ + Seq::new((width - n) as nat, |_i: int| ' ') =~= old(out)@
            + pad_right(s@, width as nat));
    }
}

impl KeyMap {
    /// The chord shown for `id`.
    fn chord_for(&self, id: ActionId, default: &'static str) -> (r: String)
        requires
            default@ == row_of(id).1,
        ensures
            r@ == shown_chord(*self, id),
    {
        let n = self.by_chord.len();
        let mut i: usize = 0;
        assert(self.chords().subrange(0, n as int) =~= self.chords());
        assert(self.chord_actions().subrange(0, n as int) =~= self.chord_actions());
        while i < n
            invariant
                i <= n,
                n == self.chords().len(),
                self.by_chord.shaped(),
                first_chord(
                    self.chords().subrange(i as int, n as int),
                    self.chord_actions().subrange(i as int, n as int),
                    id,
                ) == first_chord(self.chords(), self.chord_actions(), id),
            decreases n - i,
        {
            let ghost cs = self.chords().subrange(i as int, n as int);
            let ghost vs = self.chord_actions().subrange(i as int, n as int);
            assert(cs.drop_first() =~= self.chords().subrange(i + 1, n as int));
            assert(vs.drop_first() =~= self.chord_actions().subrange(i + 1, n as int));
            if *self.by_chord.value_at(i) == id {
                return self.by_chord.key_at(i).clone();
            }
            i = i + 1;
        }
        default.to_owned()
    }

    /// One line per catalog action: its chord, then its name.
    pub fn help_lines(&self) -> (r: Vec<String>)
        ensures
            r.len() == all_actions_spec().len(),
            forall|i: int|
                0 <= i < r.len() ==> #[trigger] r@[i]@ == help_line(*self, all_actions_spec()[i]),
    {
        let rows = catalog();
        let mut r: Vec<String> = Vec::new();
        let mut i: usize = 0;
        while i < rows.len()
            invariant
                i <= rows.len(),
                rows.len() == all_actions_spec().len(),
                forall|j: int|
                    0 <= j < rows.len() ==> #[trigger] rows@[j].id == all_actions_spec()[j]
                        && row_ok(rows@[j]),
                r.len() == i,
                forall|j: int|
                    0 <= j < i ==> #[trigger] r@[j]@ == help_line(*self, all_actions_spec()[j]),
            decreases rows.len() - i,
        {
            let row = rows[i];
            let chord = self.chord_for(row.id, row.default);
            let mut line = String::new();
            push_padded(&mut line, chord.as_str(), 8);
            line.push_str("  ");
            line.push_str(row.id.as_str());
            r.push(line);
            i = i + 1;
        }
        r
    }

    /// One line per catalog action: scope, name, resolved chord.
    pub fn table_lines(&self) -> (r: Vec<String>)
        ensures
            r.len() == all_actions_spec().len(),
            forall|i: int|
                0 <= i < r.len() ==> #[trigger] r@[i]@ == table_line(*self, all_actions_spec()[i]),
    {
        let rows = catalog();
        let mut r: Vec<String> = Vec::new();
        let mut i: usize = 0;
        while i < rows.len()
            invariant
                i <= rows.len(),
                rows.len() == all_actions_spec().len(),
                forall|j: int|
                    0 <= j < rows.len() ==> #[trigger] rows@[j].id == all_actions_spec()[j]
                        && row_ok(rows@[j]),
                r.len() == i,
                forall|j: int|
                    0 <= j < i ==> #[trigger] r@[j]@ == table_line(*self, all_actions_spec()[j]),
            decreases rows.len() - i,
        {
            let row = rows[i];
            let chord = self.chord_for(row.id, row.default);
            let mut line = String::new();
            push_padded(&mut line, row.scope.as_str(), 8);
            line.push_str(" ");
            push_padded(&mut line, row.id.as_str(), 16);
            line.push_str(" ");
            line.push_str(chord.as_str());
            r.push(line);
            i = i + 1;
        }
        r
    }

    /// Every binding as (chord, action name), chords ascending.
    pub fn occupancy(&self) -> (r: Vec<(String, String)>)
        ensures
            r.len() == self.chords().len(),
            forall|i: int|
                0 <= i < r.len() ==> (#[trigger] r@[i]).0@ == self.chords()[i] && r@[i].1@
                    == action_name(self.chord_actions()[i]),
    {
        let n = self.by_chord.len();
        let mut r: Vec<(String, String)> = Vec::new();
        let mut i: usize = 0;
        while i < n
            invariant
                i <= n,
                n == self.chords().len(),
                self.by_chord.shaped(),
                r.len() == i,
                forall|j: int|
                    0 <= j < i ==> (#[trigger] r@[j]).0@ == self.chords()[j] && r@[j].1@
                        == action_name(self.chord_actions()[j]),
            decreases n - i,
        {
            let chord = self.by_chord.key_at(i).clone();
            let name = self.by_chord.value_at(i).as_str().to_owned();
            r.push((chord, name));
            i = i + 1;
        }
        r
    }
}


/// What `keys.toml` holds, as plain values: `leader` when it is a string,
/// `leader_timeout_ms` when it is an integer, and the `[board]` table's
/// entries in key order, each with its chord when that is a string.
#[derive(Debug, Clone)]
pub struct Overlay {
    pub leader: Option<String>,
    pub leader_timeout_ms: Option<i64>,
    pub board: Option<Vec<(String, Option<String>)>>,
}

/// The leader an overlay sets: exactly one character, or a refusal.
pub open spec fn overlay_leader(leader: Option<String>) -> Result<Option<char>, Seq<char>> {
    match leader {
        None => Ok(None),
        Some(s) => if s@.len() == 1 {
            Ok(Some(s@[0]))
        } else {
            Err("leader must be one character"@)
        },
    }
}

/// The leader timeout: a positive overlay value, else 800 ms.
pub open spec fn overlay_timeout(ms: Option<i64>) -> u64 {
    match ms {
        Some(v) => if v > 0 {
            v as u64
        } else {
            800
        },
        None => 800,
    }
}

/// Check each `[board]` entry in order; the first bad one refuses the
/// overlay. A good entry is an action name, a string chord, a remappable
/// action, and a chord that is not reserved in any letter case.
pub open spec fn checked_entries(entries: Seq<(String, Option<String>)>) -> Result<
    Seq<(ActionId, Seq<char>)>,
    Seq<char>,
>
    decreases entries.len(),
{
    if entries.len() == 0 {
        Ok(Seq::empty())
    } else {
        let id = entries[0].0@;
        match action_named(id) {
            None => Err("unknown action "@ + id),
            Some(a) => match entries[0].1 {
                None => Err(id + " chord must be a string"@),
                Some(c) => if !row_of(a).2 {
                    Err(id + " is not remappable"@)
                } else if reserved(lower_seq(c@)) {
                    Err("cannot steal reserved chord "@ + c@)
                } else {
                    match checked_entries(entries.drop_first()) {
                        Err(e) => Err(e),
                        Ok(rest) => Ok(seq![(a, c@)] + rest),
                    }
                },
            },
        }
    }
}

/// Whether some pending remap moves action `a`.
pub open spec fn moves(pending: Seq<(ActionId, Seq<char>)>, a: ActionId) -> bool {
    exists|i: int| 0 <= i < pending.len() && #[trigger] pending[i].0 == a
}

/// The bindings with every chord of a moved action dropped.
pub open spec fn released(m: Map<Seq<char>, ActionId>, pending: Seq<(ActionId, Seq<char>)>) -> Map<
    Seq<char>,
    ActionId,
> {
    Map::new(|k: Seq<char>| m.contains_key(k) && !moves(pending, m[k]), |k: Seq<char>| m[k])
}

/// Bind each pending chord in order; a chord that is already bound refuses
/// the overlay.
pub open spec fn bound(m: Map<Seq<char>, ActionId>, pending: Seq<(ActionId, Seq<char>)>) -> Result<
    Map<Seq<char>, ActionId>,
    Seq<char>,
>
    decreases pending.len(),
{
    if pending.len() == 0 {
        Ok(m)
    } else {
        let (a, c) = pending[0];
        if m.contains_key(c) {
            Err("chord "@ + c + " already bound to "@ + action_name(m[c]))
        } else {
            bound(m.insert(c, a), pending.drop_first())
        }
    }
}

/// What an overlay resolves to: leader, timeout and bindings, or the
/// sentence that refuses it.
pub open spec fn overlay_outcome(o: Overlay) -> Result<
    (Option<char>, u64, Map<Seq<char>, ActionId>),
    Seq<char>,
> {
    match overlay_leader(o.leader) {
        Err(e) => Err(e),
        Ok(leader) => {
            let timeout = overlay_timeout(o.leader_timeout_ms);
            let defaults = bind_defaults(all_actions_spec());
            match o.board {
                None => Ok((leader, timeout, defaults)),
                Some(entries) => match checked_entries(entries@) {
                    Err(e) => Err(e),
                    Ok(pending) => match bound(released(defaults, pending), pending) {
                        Err(e) => Err(e),
                        Ok(m) => Ok((leader, timeout, m)),
                    },
                },
            }
        },
    }
}

/// An overlay as text: the leader, the timeout, and the `[board]` entries.
pub type OverlayText = (Option<Seq<char>>, Option<i64>, Option<Seq<(Seq<char>, Option<Seq<char>>)>>);

/// The texts of an optional string.
pub open spec fn opt_text_of(o: Option<String>) -> Option<Seq<char>> {
    match o {
        Some(s) => Some(s@),
        None => None,
    }
}

/// The texts of `[board]` entries.
pub open spec fn entries_text(e: Seq<(String, Option<String>)>) -> Seq<(Seq<char>, Option<Seq<char>>)> {
    e.map_values(|p: (String, Option<String>)| (p.0@, opt_text_of(p.1)))
}

/// An overlay's texts.
pub open spec fn overlay_view(o: Overlay) -> OverlayText {
    (
        opt_text_of(o.leader),
        o.leader_timeout_ms,
        match o.board {
            Some(b) => Some(entries_text(b@)),
            None => None,
        },
    )
}

/// [`checked_entries`] over the entries' texts.
pub open spec fn checked_texts(entries: Seq<(Seq<char>, Option<Seq<char>>)>) -> Result<
    Seq<(ActionId, Seq<char>)>,
    Seq<char>,
>
    decreases entries.len(),
{
    if entries.len() == 0 {
        Ok(Seq::empty())
    } else {
        let id = entries[0].0;
        match action_named(id) {
            None => Err("unknown action "@ + id),
            Some(a) => match entries[0].1 {
                None => Err(id + " chord must be a string"@),
                Some(c) => if !row_of(a).2 {
                    Err(id + " is not remappable"@)
                } else if reserved(lower_seq(c)) {
                    Err("cannot steal reserved chord "@ + c)
                } else {
                    match checked_texts(entries.drop_first()) {
                        Err(e) => Err(e),
                        Ok(rest) => Ok(seq![(a, c)] + rest),
                    }
                },
            },
        }
    }
}

/// What an overlay's texts resolve to: leader, timeout and bindings, or the
/// sentence that refuses it.
pub open spec fn overlay_text_outcome(v: OverlayText) -> Result<
    (Option<char>, u64, Map<Seq<char>, ActionId>),
    Seq<char>,
> {
    let leader = match v.0 {
        None => Ok(None),
        Some(s) => if s.len() == 1 {
            Ok(Some(s[0]))
        } else {
            Err("leader must be one character"@)
        },
    };
    match leader {
        Err(e) => Err(e),
        Ok(leader) => {
            let timeout = overlay_timeout(v.1);
            let defaults = bind_defaults(all_actions_spec());
            match v.2 {
                None => Ok((leader, timeout, defaults)),
                Some(entries) => match checked_texts(entries) {
                    Err(e) => Err(e),
                    Ok(pending) => match bound(released(defaults, pending), pending) {
                        Err(e) => Err(e),
                        Ok(m) => Ok((leader, timeout, m)),
                    },
                },
            }
        },
    }
}

proof fn lemma_checked_texts(e: Seq<(String, Option<String>)>)
    ensures
        checked_entries(e) == checked_texts(entries_text(e)),
    decreases e.len(),
{
    if e.len() > 0 {
        assert(entries_text(e).drop_first() =~= entries_text(e.drop_first()));
        lemma_checked_texts(e.drop_first());
    }
}

/// An overlay resolves as its texts do.
proof fn lemma_overlay_outcome_text(o: Overlay)
    ensures
        overlay_outcome(o) == overlay_text_outcome(overlay_view(o)),
{
    if let Some(b) = o.board {
        lemma_checked_texts(b@);
    }
}

/// Whether `c` is one of the reserved chords, compared in ASCII lowercase.
fn is_reserved(c: &str) -> (r: bool)
    ensures
        r == reserved(lower_seq(c@)),
{
    let cs = chars_of(c);
    let mut low: Vec<char> = Vec::new();
    let mut i: usize = 0;
    while i < cs.len()
        invariant
            i <= cs.len(),
            cs@ == c@,
            low@ == lower_seq(c@).take(i as int),
        decreases cs.len() - i,
    {
        low.push(crate::text::to_lower(cs[i]));
        i = i + 1;
        assert(low@ =~= lower_seq(c@).take(i as int));
    }
    assert(lower_seq(c@).take(cs.len() as int) =~= lower_seq(c@));
    let l = string_of(&low);
    str_eq(l.as_str(), "esc") || str_eq(l.as_str(), "enter") || str_eq(l.as_str(), "tab")
        || str_eq(l.as_str(), "?")
}

/// The pending remaps of a `[board]` table, or the first entry's refusal.
fn check_board(entries: &Vec<(String, Option<String>)>) -> (r: Result<Vec<(ActionId, String)>, String>)
    ensures
        match checked_entries(entries@) {
            Ok(p) => r matches Ok(v) && v.len() == p.len() && forall|i: int|
                0 <= i < p.len() ==> (#[trigger] v@[i]).0 == p[i].0 && v@[i].1@ == p[i].1,
            Err(e) => r matches Err(msg) && msg@ == e,
        },
{
    let mut pending: Vec<(ActionId, String)> = Vec::new();
    let mut i: usize = 0;
    assert(entries@.subrange(0, entries.len() as int) =~= entries@);
    while i < entries.len()
        invariant
            i <= entries.len(),
            pending.len() == i,
            checked_entries(entries@) == match checked_entries(
                entries@.subrange(i as int, entries.len() as int),
            ) {
                Err(e) => Err(e),
                Ok(rest) => Ok(pending@.map_values(|e: (ActionId, String)| (e.0, e.1@)) + rest),
            },
        decreases entries.len() - i,
    {
        let ghost rest = entries@.subrange(i as int, entries.len() as int);
        assert(rest[0] == entries@[i as int]);
        assert(rest.drop_first() =~= entries@.subrange(i + 1, entries.len() as int));
        let id = &entries[i].0;
        let action = match ActionId::parse(id.as_str()) {
            Some(a) => a,
            None => {
                let mut msg = String::new();
                msg.push_str("unknown action ");
                msg.push_str(id.as_str());
                return Err(msg);
            },
        };
        let chord = match &entries[i].1 {
            Some(c) => c,
            None => {
                let mut msg = id.clone();
                msg.push_str(" chord must be a string");
                return Err(msg);
            },
        };
        let row = row_for(action);
        if !row.remappable {
            let mut msg = id.clone();
            msg.push_str(" is not remappable");
            return Err(msg);
        }
        if is_reserved(chord.as_str()) {
            let mut msg = String::new();
            msg.push_str("cannot steal reserved chord ");
            msg.push_str(chord.as_str());
            return Err(msg);
        }
        let ghost before = pending@;
        pending.push((action, chord.clone()));
        proof {
            let f = |e: (ActionId, String)| (e.0, e.1@);
            assert(pending@.map_values(f) =~= before.map_values(f) + seq![(action, chord@)]);
            match checked_entries(entries@.subrange(i + 1, entries.len() as int)) {
                Err(e) => {},
                Ok(r2) => {
                    assert(before.map_values(f) + (seq![(action, chord@)] + r2) =~= pending@.map_values(f) + r2);
                },
            }
        }
        i = i + 1;
    }
    proof {
        let f = |e: (ActionId, String)| (e.0, e.1@);
        assert(entries@.subrange(i as int, entries.len() as int) =~= Seq::<(String, Option<String>)>::empty());
        assert(pending@.map_values(f) + Seq::<(ActionId, Seq<char>)>::empty() =~= pending@.map_values(f));
        match checked_entries(entries@) {
            Ok(p) => {
                assert forall|j: int| 0 <= j < p.len() implies (#[trigger] pending@[j]).0 == p[j].0 && pending@[j].1@ == p[j].1 by {
                    assert(p[j] == pending@.map_values(f)[j]);
                }
            },
            Err(e) => {},
        }
    }
    Ok(pending)
}


/// Whether some pending remap moves action `a`.
fn moves_exec(pending: &Vec<(ActionId, String)>, a: ActionId) -> (r: bool)
    ensures
        r == exists|i: int| 0 <= i < pending.len() && #[trigger] pending@[i].0 == a,
{
    let mut i: usize = 0;
    while i < pending.len()
        invariant
            i <= pending.len(),
            forall|j: int| 0 <= j < i ==> #[trigger] pending@[j].0 != a,
        decreases pending.len() - i,
    {
        if pending[i].0 == a {
            return true;
        }
        i = i + 1;
    }
    false
}

impl KeyMap {
    /// Drop every chord bound to an action that `pending` moves.
    fn release(&mut self, pending: &Vec<(ActionId, String)>, Ghost(p): Ghost<
        Seq<(ActionId, Seq<char>)>,
    >)
        requires
            p.len() == pending.len(),
            forall|i: int| 0 <= i < p.len() ==> #[trigger] p[i].0 == pending@[i].0,
        ensures
            final(self).bindings() == released(old(self).bindings(), p),
            final(self).leader == old(self).leader,
            final(self).leader_timeout_ms == old(self).leader_timeout_ms,
            final(self).overlay_error == old(self).overlay_error,
    {
        let ghost m0 = self.bindings();
        let n = self.by_chord.len();
        let mut rm: Vec<String> = Vec::new();
        let mut i: usize = 0;
        while i < n
            invariant
                i <= n,
                n == self.chords().len(),
                self.by_chord.shaped(),
                m0 == self.bindings(),
                p.len() == pending.len(),
                forall|j: int| 0 <= j < p.len() ==> #[trigger] p[j].0 == pending@[j].0,
                forall|j: int|
                    0 <= j < rm.len() ==> m0.contains_key(#[trigger] rm@[j]@) && moves(
                        p,
                        m0[rm@[j]@],
                    ),
                forall|j: int|
                    0 <= j < i && moves(p, #[trigger] self.chord_actions()[j]) ==> exists|t: int|
                        0 <= t < rm.len() && #[trigger] rm@[t]@ == self.chords()[j],
            decreases n - i,
        {
            let a = *self.by_chord.value_at(i);
            let hit = moves_exec(pending, a);
            proof {
                if hit {
                    let w = choose|w: int| 0 <= w < pending.len() && #[trigger] pending@[w].0 == a;
                    assert(p[w].0 == a);
                }
                if moves(p, a) {
                    let w = choose|w: int| 0 <= w < p.len() && #[trigger] p[w].0 == a;
                    assert(pending@[w].0 == a);
                }
                assert(self.chords().contains(self.chords()[i as int]));
            }
            if hit {
                let k = self.by_chord.key_at(i).clone();
                let ghost before = rm@;
                rm.push(k);
                proof {
                    assert forall|j: int|
                        0 <= j < i + 1 && moves(p, #[trigger] self.chord_actions()[j]) implies exists|t: int|
                        0 <= t < rm.len() && #[trigger] rm@[t]@ == self.chords()[j] by {
                        if j < i {
                            let t = choose|t: int| 0 <= t < before.len() && #[trigger] before[t]@ == self.chords()[j];
                            assert(rm@[t] == before[t]);
                        } else {
                            assert(rm@[before.len() as int]@ == self.chords()[j]);
                        }
                    }
                }
            }
            i = i + 1;
        }
        let ghost ks = self.chords();
        let ghost vs = self.chord_actions();
        let mut j: usize = 0;
        while j < rm.len()
            invariant
                j <= rm.len(),
                ks.len() == n,
                vs.len() == n,
                forall|k: Seq<char>| #[trigger] m0.contains_key(k) ==> ks.contains(k),
                forall|w: int| 0 <= w < n ==> #[trigger] m0[ks[w]] == vs[w],
                forall|w: int|
                    0 <= w < n && moves(p, #[trigger] vs[w]) ==> exists|t: int|
                        0 <= t < rm.len() && #[trigger] rm@[t]@ == ks[w],
                forall|t: int|
                    0 <= t < rm.len() ==> m0.contains_key(#[trigger] rm@[t]@) && moves(p, m0[rm@[t]@]),
                self.bindings() == Map::new(
                    |k: Seq<char>|
                        m0.contains_key(k) && !(exists|t: int| 0 <= t < j && #[trigger] rm@[t]@ == k),
                    |k: Seq<char>| m0[k],
                ),
                self.leader == old(self).leader,
                self.leader_timeout_ms == old(self).leader_timeout_ms,
                self.overlay_error == old(self).overlay_error,
            decreases rm.len() - j,
        {
            let ghost before = self.bindings();
            self.by_chord.remove(rm[j].as_str());
            j = j + 1;
            proof {
                let target = Map::new(
                    |k: Seq<char>|
                        m0.contains_key(k) && !(exists|t: int| 0 <= t < j && #[trigger] rm@[t]@ == k),
                    |k: Seq<char>| m0[k],
                );
                assert forall|k: Seq<char>| #[trigger] self.bindings().contains_key(k) <==> target.contains_key(k) by {
                    if exists|t: int| 0 <= t < j && #[trigger] rm@[t]@ == k {
                        let t = choose|t: int| 0 <= t < j && #[trigger] rm@[t]@ == k;
                        if t < j - 1 {
                            assert(!before.contains_key(k));
                        }
                    }
                    if exists|t: int| 0 <= t < j - 1 && #[trigger] rm@[t]@ == k {
                        let t = choose|t: int| 0 <= t < j - 1 && #[trigger] rm@[t]@ == k;
                        assert(0 <= t < j && rm@[t]@ == k);
                    }
                }
                assert(self.bindings() =~= target);
            }
        }
        proof {
            let target = released(m0, p);
            assert forall|k: Seq<char>| #[trigger] self.bindings().contains_key(k) <==> target.contains_key(k) by {
                if m0.contains_key(k) && moves(p, m0[k]) {
                    assert(ks.contains(k));
                    let w = choose|w: int| 0 <= w < ks.len() && ks[w] == k;
                    assert(m0[ks[w]] == vs[w]);
                    assert(moves(p, vs[w]));
                    let t = choose|t: int| 0 <= t < rm.len() && #[trigger] rm@[t]@ == ks[w];
                    assert(0 <= t < j && rm@[t]@ == k);
                }
                if exists|t: int| 0 <= t < j && #[trigger] rm@[t]@ == k {
                    let t = choose|t: int| 0 <= t < j && #[trigger] rm@[t]@ == k;
                    assert(moves(p, m0[rm@[t]@]));
                }
            }
            assert(self.bindings() =~= target);
        }
    }

    /// Bind each pending chord in order; a chord already bound refuses.
    fn bind_pending(&mut self, pending: &Vec<(ActionId, String)>, Ghost(p): Ghost<
        Seq<(ActionId, Seq<char>)>,
    >) -> (r: Result<(), String>)
        requires
            p.len() == pending.len(),
            forall|i: int|
                0 <= i < p.len() ==> #[trigger] p[i].0 == pending@[i].0 && p[i].1 == pending@[i].1@,
        ensures
            match bound(old(self).bindings(), p) {
                Ok(m) => r is Ok && final(self).bindings() == m,
                Err(e) => r matches Err(msg) && msg@ == e,
            },
            final(self).leader == old(self).leader,
            final(self).leader_timeout_ms == old(self).leader_timeout_ms,
            final(self).overlay_error == old(self).overlay_error,
    {
        let mut i: usize = 0;
        assert(p.subrange(0, p.len() as int) =~= p);
        while i < pending.len()
            invariant
                i <= pending.len(),
                p.len() == pending.len(),
                forall|j: int|
                    0 <= j < p.len() ==> #[trigger] p[j].0 == pending@[j].0 && p[j].1
                        == pending@[j].1@,
                bound(old(self).bindings(), p) == bound(
                    self.bindings(),
                    p.subrange(i as int, p.len() as int),
                ),
                self.leader == old(self).leader,
                self.leader_timeout_ms == old(self).leader_timeout_ms,
                self.overlay_error == old(self).overlay_error,
            decreases pending.len() - i,
        {
            let ghost rest = p.subrange(i as int, p.len() as int);
            assert(rest[0] == p[i as int]);
            assert(rest.drop_first() =~= p.subrange(i + 1, p.len() as int));
            let (action, chord) = (pending[i].0, &pending[i].1);
            match self.by_chord.insert(chord.clone(), action) {
                Some(prev) => {
                    let mut msg = String::new();
                    msg.push_str("chord ");
                    msg.push_str(chord.as_str());
                    msg.push_str(" already bound to ");
                    msg.push_str(prev.as_str());
                    return Err(msg);
                },
                None => {},
            }
            i = i + 1;
        }
        assert(p.subrange(i as int, p.len() as int) =~= Seq::<(ActionId, Seq<char>)>::empty());
        Ok(())
    }

    /// The defaults with an overlay applied, or the sentence that refuses it.
    pub fn apply_overlay(overlay: &Overlay) -> (r: Result<KeyMap, String>)
        ensures
            match overlay_outcome(*overlay) {
                Ok((leader, timeout, m)) => r matches Ok(k) && k.leader == leader
                    && k.leader_timeout_ms == timeout && k.bindings() == m
                    && k.overlay_error is None,
                Err(e) => r matches Err(msg) && msg@ == e,
            },
    {
        let mut map = KeyMap::from_defaults();
        match &overlay.leader {
            Some(l) => {
                let cs = chars_of(l.as_str());
                if cs.len() != 1 {
                    return Err("leader must be one character".to_owned());
                }
                map.leader = Some(cs[0]);
            },
            None => {},
        }
        match overlay.leader_timeout_ms {
            Some(ms) => if ms > 0 {
                map.leader_timeout_ms = ms as u64;
            },
            None => {},
        }
        match &overlay.board {
            None => Ok(map),
            Some(entries) => {
                let pending = match check_board(entries) {
                    Ok(p) => p,
                    Err(e) => return Err(e),
                };
                let ghost p = match checked_entries(entries@) {
                    Ok(p) => p,
                    Err(_) => Seq::empty(),
                };
                map.release(&pending, Ghost(p));
                match map.bind_pending(&pending, Ghost(p)) {
                    Ok(()) => Ok(map),
                    Err(e) => Err(e),
                }
            },
        }
    }

    /// The defaults with `error` recorded as the reason an overlay was not
    /// applied.
    pub fn with_overlay_error(error: String) -> (m: KeyMap)
        ensures
            m.bindings() == bind_defaults(all_actions_spec()),
            m.leader is None,
            m.leader_timeout_ms == 800,
            m.overlay_error == Some(error),
    {
        let mut map = KeyMap::from_defaults();
        map.overlay_error = Some(error);
        map
    }
}


/// A `[board]` table's entries, each with its chord when that is a string.
pub open spec fn board_texts(t: Seq<(Seq<char>, TomlView)>) -> Seq<(Seq<char>, Option<Seq<char>>)> {
    t.map_values(
        |e: (Seq<char>, TomlView)|
            (
                e.0,
                match e.1 {
                    TomlView::Str(c) => Some(c),
                    _ => None,
                },
            ),
    )
}

/// What the overlay reads of a `keys.toml` document: `leader` when it is a
/// string, `leader_timeout_ms` when it is an integer, and the `[board]`
/// table's entries.
pub open spec fn doc_overlay(d: TomlView) -> OverlayText {
    (
        match get_view(d, "leader"@) {
            Some(TomlView::Str(s)) => Some(s),
            _ => None,
        },
        match get_view(d, "leader_timeout_ms"@) {
            Some(TomlView::Int(i)) => Some(i),
            _ => None,
        },
        match get_view(d, "board"@) {
            Some(TomlView::Table(t)) => Some(board_texts(t)),
            _ => None,
        },
    )
}

/// Take out of a `keys.toml` document the values the overlay reads.
pub fn overlay_of(doc: &TomlValue) -> (o: Overlay)
    ensures
        overlay_view(o) == doc_overlay(toml_view(*doc)),
{
    let leader = match toml_get(doc, "leader") {
        Some(TomlValue::Str(s)) => Some(s.clone()),
        _ => None,
    };
    let timeout = match toml_get(doc, "leader_timeout_ms") {
        Some(TomlValue::Int(i)) => Some(*i),
        _ => None,
    };
    let board = match toml_get(doc, "board") {
        Some(TomlValue::Table(t)) => {
            let ghost tv = toml_entries(t@);
            proof {
                lemma_entries(t@);
            }
            let mut out: Vec<(String, Option<String>)> = Vec::new();
            let mut i: usize = 0;
            while i < t.len()
                invariant
                    i <= t.len(),
                    tv == toml_entries(t@),
                    tv.len() == t@.len(),
                    forall|j: int| 0 <= j < t@.len() ==> #[trigger] tv[j] == (t@[j].0@, toml_view(t@[j].1)),
                    entries_text(out@) == board_texts(tv.take(i as int)),
                decreases t.len() - i,
            {
                let ghost before = entries_text(out@);
                let chord = match &t[i].1 {
                    TomlValue::Str(c) => Some(c.clone()),
                    _ => None,
                };
                let ghost want: Option<Seq<char>> = match toml_view(t@[i as int].1) {
                    TomlView::Str(c) => Some(c),
                    _ => None,
                };
                assert(opt_text_of(chord) == want);
                let key = t[i].0.clone();
                out.push((key, chord));
                assert(entries_text(out@) =~= before.push((t@[i as int].0@, want)));
                assert(tv.take(i + 1) =~= tv.take(i as int).push(tv[i as int]));
                assert(board_texts(tv.take(i + 1)) =~= board_texts(tv.take(i as int)).push((t@[i as int].0@, want)));
                i = i + 1;
            }
            assert(tv.take(t.len() as int) =~= tv);
            Some(out)
        },
        _ => None,
    };
    Overlay { leader, leader_timeout_ms: timeout, board }
}

impl KeyMap {
    /// The key map an overlay file's text gives: the overlay applied, or,
    /// when the text does not parse or the overlay is refused, the defaults
    /// with the reason recorded.
    pub fn from_overlay_text(text: &str) -> (m: KeyMap)
        ensures
            match toml_doc(text@) {
                Err(msg) => m.overlay_error matches Some(e) && e@ == "keys.toml: "@ + msg
                    && m.bindings() == bind_defaults(all_actions_spec()) && m.leader is None
                    && m.leader_timeout_ms == 800,
                Ok(d) => match overlay_text_outcome(doc_overlay(d)) {
                    Ok((leader, timeout, b)) => m.overlay_error is None && m.leader == leader
                        && m.leader_timeout_ms == timeout && m.bindings() == b,
                    Err(why) => m.overlay_error matches Some(e) && e@ == why
                        && m.bindings() == bind_defaults(all_actions_spec()) && m.leader is None
                        && m.leader_timeout_ms == 800,
                },
            },
    {
        match parse_toml(text) {
            Err(e) => {
                let mut msg = "keys.toml: ".to_string();
                msg.push_str(e.as_str());
                KeyMap::with_overlay_error(msg)
            },
            Ok(doc) => {
                let o = overlay_of(&doc);
                proof {
                    lemma_overlay_outcome_text(o);
                }
                match KeyMap::apply_overlay(&o) {
                    Ok(m) => m,
                    Err(e) => KeyMap::with_overlay_error(e),
                }
            },
        }
    }
}

/// What tells the dotted names apart: the length, the first character and
/// the last two.
pub open spec fn name_key(s: Seq<char>) -> (int, char, char, char) {
    (s.len() as int, s[0], s[s.len() - 1], s[s.len() - 2])
}

/// The key of each action's dotted name.
pub open spec fn action_key(a: ActionId) -> (int, char, char, char) {
    match a {
        ActionId::ListDown => (9, 'l', 'n', 'w'),
        ActionId::ListUp => (7, 'l', 'p', 'u'),
        ActionId::ListSelect => (11, 'l', 't', 'c'),
        ActionId::ListDone => (9, 'l', 'e', 'n'),
        ActionId::PaneReady => (10, 'p', 'y', 'd'),
        ActionId::PaneList => (9, 'p', 't', 's'),
        ActionId::PaneClaims => (11, 'p', 's', 'm'),
        ActionId::PaneAgenda => (11, 'p', 'a', 'd'),
        ActionId::PaneSearch => (11, 'p', 'h', 'c'),
        ActionId::PaneNext => (9, 'p', 't', 'x'),
        ActionId::DetailCycle => (12, 'd', 'e', 'l'),
        ActionId::ProjectCycle => (13, 'p', 'e', 'l'),
        ActionId::Search => (12, 'b', 'h', 'c'),
        ActionId::Add => (9, 'i', 'd', 'd'),
        ActionId::Claim => (11, 'i', 'm', 'i'),
        ActionId::Note => (10, 'i', 'e', 't'),
        ActionId::StateCycle => (11, 'i', 'e', 't'),
        ActionId::ConfirmDone => (10, 'i', 'e', 'n'),
        ActionId::ConfirmCancel => (12, 'i', 'l', 'e'),
        ActionId::Open => (10, 'i', 'n', 'e'),
        ActionId::CopyId => (10, 'i', 'y', 'p'),
        ActionId::Reload => (12, 'b', 'd', 'a'),
        ActionId::Help => (10, 'b', 'p', 'l'),
    }
}

proof fn lemma_name_key(a: ActionId)
    ensures
        name_key(action_name(a)) == action_key(a),
{
    match a {
        ActionId::ListDown => {
            reveal_strlit("list.down");
        },
        ActionId::ListUp => {
            reveal_strlit("list.up");
        },
        ActionId::ListSelect => {
            reveal_strlit("list.select");
        },
        ActionId::ListDone => {
            reveal_strlit("list.done");
        },
        ActionId::PaneReady => {
            reveal_strlit("pane.ready");
        },
        ActionId::PaneList => {
            reveal_strlit("pane.list");
        },
        ActionId::PaneClaims => {
            reveal_strlit("pane.claims");
        },
        ActionId::PaneAgenda => {
            reveal_strlit("pane.agenda");
        },
        ActionId::PaneSearch => {
            reveal_strlit("pane.search");
        },
        ActionId::PaneNext => {
            reveal_strlit("pane.next");
        },
        ActionId::DetailCycle => {
            reveal_strlit("detail.cycle");
        },
        ActionId::ProjectCycle => {
            reveal_strlit("project.cycle");
        },
        ActionId::Search => {
            reveal_strlit("board.search");
        },
        ActionId::Add => {
            reveal_strlit("issue.add");
        },
        ActionId::Claim => {
            reveal_strlit("issue.claim");
        },
        ActionId::Note => {
            reveal_strlit("issue.note");
        },
        ActionId::StateCycle => {
            reveal_strlit("issue.state");
        },
        ActionId::ConfirmDone => {
            reveal_strlit("issue.done");
        },
        ActionId::ConfirmCancel => {
            reveal_strlit("issue.cancel");
        },
        ActionId::Open => {
            reveal_strlit("issue.open");
        },
        ActionId::CopyId => {
            reveal_strlit("issue.copy");
        },
        ActionId::Reload => {
            reveal_strlit("board.reload");
        },
        ActionId::Help => {
            reveal_strlit("board.help");
        },
    }
}

/// Each action's dotted name reads back as that action: `parse` undoes
/// `as_str`.
pub proof fn lemma_action_name_round_trip(a: ActionId)
    ensures
        action_named(action_name(a)) == Some(a),
{
    assert forall|c: ActionId| #[trigger] action_name(c) == action_name(a) implies c == a by {
        lemma_name_key(c);
        lemma_name_key(a);
    }
    reveal_with_fuel(first_named, 24);
}

/// No two actions share a dotted name.
pub proof fn lemma_action_names_distinct(a: ActionId, b: ActionId)
    requires
        action_name(a) == action_name(b),
    ensures
        a == b,
{
    lemma_action_name_round_trip(a);
    lemma_action_name_round_trip(b);
}

/// Map a typed character (no modifiers) to a chord token.
pub fn chord_from_char(c: char) -> (r: String)
    ensures
        r@ == seq![c],
{
    let mut r = String::new();
    r.push(c);
    r
}

} // verus!
