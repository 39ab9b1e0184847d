//! The palette's rows and keys, and what a key does to the overlay: the
//! filter, the selection, the excerpt and the note being written. The
//! windowing layer performs the action a key asks for.
use vstd::prelude::*;

use crate::fuzzy::rank_indices;
use crate::text::trim;

verus! {

/// Where a row came from before the filter merge.
#[derive(Debug, Clone, Copy, PartialEq, Eq, Structural)]
pub enum ItemSource {
    Ready,
    Search,
}

/// One selectable palette row.
#[derive(Debug, Clone, PartialEq, Eq)]
pub struct HudItem {
    pub id: String,
    pub title: String,
    pub project: String,
    pub state: String,
    pub priority: String,
    pub source: ItemSource,
    pub claimed_by: Option<String>,
    pub due: Option<String>,
    pub blocked_by: Vec<String>,
    pub extra: String,
    pub parent: Option<String>,
    pub depth: usize,
}

/// Key the overlay understands; the windowing layer maps native keys onto
/// it.
#[derive(Debug, Clone, Copy, PartialEq, Eq, Structural)]
pub enum PaletteKey {
    Char(char),
    Enter,
    Esc,
    Up,
    Down,
    Backspace,
}

/// What the overlay asks its backend to do after a key.
#[derive(Debug, Clone, PartialEq, Eq)]
pub enum PaletteAction {
    /// Nothing beyond the state change.
    Nothing,
    /// Fetch the rows again and refilter: the query changed.
    Reload,
    /// Open the excerpt of this issue.
    ShowExcerpt(String),
    /// Claim this issue, then reload.
    Claim(String),
    /// Add this note to this issue's logbook, then reload.
    SaveNote(String, String),
}

/// The overlay's state: the query and rows, which rows the filter kept and
/// which of them is selected, whether an excerpt is open, the note being
/// written, whether the overlay shows, and the last message.
#[derive(Debug, Clone)]
pub struct PaletteState {
    pub query: String,
    pub items: Vec<HudItem>,
    pub filtered: Vec<usize>,
    pub selected: usize,
    pub excerpt_open: bool,
    pub note_draft: Option<String>,
    pub visible: bool,
    pub message: String,
}

/// The text of an optional string.
pub open spec fn draft_view(d: Option<String>) -> Option<Seq<char>> {
    match d {
        Some(s) => Some(s@),
        None => None,
    }
}

/// The id of the selected row, if the selection names one.
pub open spec fn selected_of(st: PaletteState) -> Option<Seq<char>> {
    if st.selected < st.filtered.len() && st.filtered@[st.selected as int] < st.items.len() {
        Some(st.items@[st.filtered@[st.selected as int] as int].id@)
    } else {
        None
    }
}

/// Whether the selection points into the filtered rows, whenever there are
/// any, and every filtered row into the rows.
pub open spec fn selection_ok(st: PaletteState) -> bool {
    &&& st.filtered.len() > 0 ==> st.selected < st.filtered.len()
    &&& forall|k: int| 0 <= k < st.filtered.len() ==> #[trigger] st.filtered@[k] < st.items.len()
}

/// Where a move of `delta` rows lands among `len` filtered rows from
/// `selected`: clamped to the first and last.
pub open spec fn moved_to(selected: int, delta: int, len: int) -> int {
    if selected + delta < 0 {
        0
    } else if selected + delta > len - 1 {
        len - 1
    } else {
        selected + delta
    }
}

/// Whether the overlay state `st2` and action `r` are what key `key` makes
/// of `st` while a note is being written: text keys edit the note, Enter
/// hands it to the selected issue, Esc drops it and clears the message.
pub open spec fn note_key_done(st: PaletteState, st2: PaletteState, key: PaletteKey, r: PaletteAction) -> bool {
    let d = st.note_draft->0@;
    &&& match key {
        PaletteKey::Esc => st2.note_draft is None && st2.message@.len() == 0 && r == PaletteAction::Nothing,
        PaletteKey::Enter => st2.note_draft is None && st2.message == st.message && match selected_of(st) {
            Some(id) => r matches PaletteAction::SaveNote(i, t) && i@ == id && t@ == d,
            None => r == PaletteAction::Nothing,
        },
        PaletteKey::Backspace => draft_view(st2.note_draft) == Some(
            if d.len() > 0 {
                d.drop_last()
            } else {
                d
            },
        ) && r == PaletteAction::Nothing && st2.message == st.message,
        PaletteKey::Char(c) => draft_view(st2.note_draft) == Some(d.push(c)) && r == PaletteAction::Nothing
            && st2.message == st.message,
        _ => st2.note_draft == st.note_draft && r == PaletteAction::Nothing && st2.message == st.message,
    }
    &&& st2.query == st.query
    &&& st2.items == st.items
    &&& st2.filtered == st.filtered
    &&& st2.selected == st.selected
    &&& st2.excerpt_open == st.excerpt_open
    &&& st2.visible == st.visible
}

/// Whether `st2` keeps everything of `st` but the selection and the
/// excerpt.
pub open spec fn same_but_selection(st: PaletteState, st2: PaletteState) -> bool {
    &&& st2.query == st.query
    &&& st2.items == st.items
    &&& st2.filtered == st.filtered
    &&& st2.note_draft == st.note_draft
    &&& st2.visible == st.visible
    &&& st2.message == st.message
}

/// Whether `st2` is `st` with the selection moved `delta` rows.
pub open spec fn moved_by(st: PaletteState, st2: PaletteState, delta: int) -> bool {
    &&& same_but_selection(st, st2)
    &&& st.filtered.len() == 0 ==> st2 == st
    &&& st.filtered.len() > 0 ==> st2.selected == moved_to(st.selected as int, delta, st.filtered.len() as int)
    &&& st.filtered.len() > 0 && st2.selected != st.selected ==> !st2.excerpt_open
    &&& st.filtered.len() > 0 && st2.selected == st.selected ==> st2.excerpt_open == st.excerpt_open
}

/// Whether the overlay state `st2` and action `r` are what key `key` makes
/// of a showing overlay `st` with no note being written.
pub open spec fn key_done(st: PaletteState, st2: PaletteState, key: PaletteKey, r: PaletteAction) -> bool {
    match key {
        PaletteKey::Esc => if st.excerpt_open {
            !st2.excerpt_open && st2.visible && st2.note_draft == st.note_draft && same_but_selection(st, st2)
                && st2.selected == st.selected && r == PaletteAction::Nothing
        } else {
            !st2.visible && st2.note_draft is None && st2.query == st.query && st2.items == st.items
                && st2.filtered == st.filtered && st2.selected == st.selected && st2.excerpt_open == st.excerpt_open
                && st2.message == st.message && r == PaletteAction::Nothing
        },
        PaletteKey::Enter => st2 == st && match selected_of(st) {
            Some(id) => r matches PaletteAction::ShowExcerpt(i) && i@ == id,
            None => r == PaletteAction::Nothing,
        },
        PaletteKey::Up => moved_by(st, st2, -1) && r == PaletteAction::Nothing,
        PaletteKey::Down => moved_by(st, st2, 1) && r == PaletteAction::Nothing,
        PaletteKey::Backspace => st2.query@ == (if st.query@.len() > 0 {
            st.query@.drop_last()
        } else {
            st.query@
        }) && st2.items == st.items && st2.filtered == st.filtered && st2.selected == st.selected
            && st2.excerpt_open == st.excerpt_open && st2.note_draft == st.note_draft && st2.visible == st.visible
            && st2.message == st.message && r == PaletteAction::Reload,
        PaletteKey::Char(c) => if c == 'c' {
            st2 == st && match selected_of(st) {
                Some(id) => r matches PaletteAction::Claim(i) && i@ == id,
                None => r == PaletteAction::Nothing,
            }
        } else if c == 'n' {
            r == PaletteAction::Nothing && same_but_selection(st, st2) == (selected_of(st) is None)
                && (selected_of(st) is Some ==> draft_view(st2.note_draft) == Some(Seq::<char>::empty()))
                && st2.query == st.query && st2.items == st.items && st2.filtered == st.filtered
                && st2.selected == st.selected && st2.excerpt_open == st.excerpt_open && st2.visible == st.visible
                && st2.message == st.message
        } else {
            st2.query@ == st.query@.push(c) && !st2.excerpt_open && st2.items == st.items
                && st2.filtered == st.filtered && st2.selected == st.selected && st2.note_draft == st.note_draft
                && st2.visible == st.visible && st2.message == st.message && r == PaletteAction::Reload
        },
    }
}

impl PaletteState {
    /// An overlay over `items`, showing, with an empty query.
    pub fn new(items: Vec<HudItem>) -> (st: PaletteState)
        ensures
            st.items@ == items@,
            st.query@ == Seq::<char>::empty(),
            st.visible,
            !st.excerpt_open,
            st.note_draft is None,
            selection_ok(st),
            st.filtered@ == Seq::new(items@.len(), |i: int| i as usize),
            st.selected == 0,
    {
        let mut st = PaletteState {
            query: String::new(),
            items,
            filtered: Vec::new(),
            selected: 0,
            excerpt_open: false,
            note_draft: None,
            visible: true,
            message: String::new(),
        };
        st.refilter();
        proof {
            reveal_strlit("");
            assert(st.query@.len() == 0);
            assert(trim(st.query@) =~= Seq::<char>::empty());
        }
        st
    }

    /// The id of the selected row.
    pub fn selected_id(&self) -> (r: Option<String>)
        ensures
            match selected_of(*self) {
                Some(id) => r matches Some(s) && s@ == id,
                None => r is None,
            },
    {
        if self.selected < self.filtered.len() && self.filtered[self.selected] < self.items.len() {
            Some(self.items[self.filtered[self.selected]].id.clone())
        } else {
            None
        }
    }

    /// The row under the selection, if the selection names one.
    pub fn selected_item(&self) -> (r: Option<&HudItem>)
        ensures
            match r {
                Some(it) => self.selected < self.filtered.len() && self.filtered@[self.selected as int]
                    < self.items.len() && *it == self.items@[self.filtered@[self.selected as int] as int],
                None => !(self.selected < self.filtered.len() && self.filtered@[self.selected as int]
                    < self.items.len()),
            },
    {
        if self.selected < self.filtered.len() && self.filtered[self.selected] < self.items.len() {
            Some(&self.items[self.filtered[self.selected]])
        } else {
            None
        }
    }

    /// Where the selection stands among the filtered rows.
    pub fn selected_index(&self) -> (r: usize)
        ensures
            r == self.selected,
    {
        self.selected
    }

    /// The filtered rows in rank order; an index past the rows is skipped.
    pub fn filtered_items(&self) -> (r: Vec<&HudItem>)
        ensures
            r@.len() == self.filtered@.filter(|i: usize| i < self.items.len()).len(),
            forall|k: int| 0 <= k < r@.len() ==> *(#[trigger] r@[k]) == self.items@[
                self.filtered@.filter(|i: usize| i < self.items.len())[k] as int
            ],
    {
        let ghost keep = |i: usize| i < self.items.len();
        let mut out: Vec<&HudItem> = Vec::new();
        let mut j: usize = 0;
        while j < self.filtered.len()
            invariant
                j <= self.filtered.len(),
                keep == (|i: usize| i < self.items.len()),
                out@.len() == self.filtered@.take(j as int).filter(keep).len(),
                forall|k: int| 0 <= k < out@.len() ==> *(#[trigger] out@[k]) == self.items@[
                    self.filtered@.take(j as int).filter(keep)[k] as int
                ],
            decreases self.filtered.len() - j,
        {
            proof {
                assert(self.filtered@.take(j + 1).drop_last() =~= self.filtered@.take(j as int));
                assert(self.filtered@.take(j + 1).last() == self.filtered@[j as int]);
                reveal(Seq::filter);
            }
            let i = self.filtered[j];
            if i < self.items.len() {
                out.push(&self.items[i]);
            }
            j = j + 1;
        }
        assert(self.filtered@.take(self.filtered.len() as int) =~= self.filtered@);
        out
    }

    /// Rank the rows against the query again; the selection moves to the
    /// last row when it fell off the end.
    pub fn refilter(&mut self)
        ensures
            trim(old(self).query@).len() == 0 ==> final(self).filtered@ == Seq::new(
                old(self).items@.len(),
                |i: int| i as usize,
            ),
            trim(old(self).query@).len() > 0 ==> crate::fuzzy::ranked(
                Seq::new(
                    old(self).items@.len(),
                    |i: int| crate::fuzzy::item_total(old(self).query@, old(self).items@[i].id@, old(self).items@[i].title@) as i32,
                ),
                final(self).filtered@,
            ),
            final(self).selected == if old(self).selected < final(self).filtered.len() {
                old(self).selected
            } else if final(self).filtered.len() == 0 {
                0
            } else {
                (final(self).filtered.len() - 1) as usize
            },
            selection_ok(*final(self)),
            final(self).query == old(self).query,
            final(self).items == old(self).items,
            final(self).excerpt_open == old(self).excerpt_open,
            final(self).note_draft == old(self).note_draft,
            final(self).visible == old(self).visible,
            final(self).message == old(self).message,
    {
        self.filtered = rank_indices(self.query.as_str(), self.items.as_slice());
        if self.selected >= self.filtered.len() {
            self.selected = if self.filtered.len() == 0 { 0 } else { self.filtered.len() - 1 };
        }
    }

    /// Move the selection `delta` rows, clamped; an open excerpt closes
    /// when the selection moves.
    pub fn move_sel(&mut self, delta: i32)
        requires
            selection_ok(*old(self)),
            old(self).filtered.len() <= i32::MAX,
        ensures
            old(self).filtered.len() == 0 ==> *final(self) == *old(self),
            old(self).filtered.len() > 0 ==> final(self).selected == moved_to(
                old(self).selected as int,
                delta as int,
                old(self).filtered.len() as int,
            ),
            old(self).filtered.len() > 0 && final(self).selected != old(self).selected ==> !final(self).excerpt_open,
            old(self).filtered.len() > 0 && final(self).selected == old(self).selected ==> final(self).excerpt_open == old(self).excerpt_open,
            selection_ok(*final(self)),
            final(self).query == old(self).query,
            final(self).items == old(self).items,
            final(self).filtered == old(self).filtered,
            final(self).note_draft == old(self).note_draft,
            final(self).visible == old(self).visible,
            final(self).message == old(self).message,
    {
        if self.filtered.len() == 0 {
            return;
        }
        let len = self.filtered.len() as i64;
        let at = self.selected as i64 + delta as i64;
        let next: i64 = if at < 0 { 0 } else if at > len - 1 { len - 1 } else { at };
        let next = next as usize;
        if next != self.selected {
            self.selected = next;
            self.excerpt_open = false;
        }
    }

    /// Hide the overlay, dropping any note being written.
    pub fn dismiss(&mut self)
        ensures
            !final(self).visible,
            final(self).note_draft is None,
            final(self).query == old(self).query,
            final(self).items == old(self).items,
            final(self).filtered == old(self).filtered,
            final(self).selected == old(self).selected,
            final(self).excerpt_open == old(self).excerpt_open,
            final(self).message == old(self).message,
    {
        self.note_draft = None;
        self.visible = false;
    }

    /// Show the overlay.
    pub fn show(&mut self)
        ensures
            final(self).visible,
            final(self).note_draft == old(self).note_draft,
            final(self).query == old(self).query,
            final(self).items == old(self).items,
            final(self).filtered == old(self).filtered,
            final(self).selected == old(self).selected,
            final(self).excerpt_open == old(self).excerpt_open,
            final(self).message == old(self).message,
    {
        self.visible = true;
    }

    /// Show a hidden overlay, hide a shown one.
    pub fn toggle(&mut self)
        ensures
            final(self).visible == !old(self).visible,
            old(self).visible ==> final(self).note_draft is None,
            !old(self).visible ==> final(self).note_draft == old(self).note_draft,
            final(self).query == old(self).query,
            final(self).items == old(self).items,
            final(self).filtered == old(self).filtered,
            final(self).selected == old(self).selected,
    {
        if self.visible {
            self.dismiss();
        } else {
            self.show();
        }
    }

    /// What a key does while a note is being written: text keys edit it,
    /// Enter hands it to the selected issue, Esc drops it.
    fn note_key(&mut self, key: PaletteKey) -> (r: PaletteAction)
        requires
            old(self).note_draft is Some,
        ensures
            note_key_done(*old(self), *final(self), key, r),
    {
        let mut text = match self.note_draft.take() {
            Some(t) => t,
            None => String::new(),
        };
        match key {
            PaletteKey::Esc => {
                self.message = String::new();
                proof {
                    reveal_strlit("");
                }
                PaletteAction::Nothing
            },
            PaletteKey::Enter => {
                match self.selected_id() {
                    Some(id) => PaletteAction::SaveNote(id, text),
                    None => PaletteAction::Nothing,
                }
            },
            PaletteKey::Backspace => {
                let mut cs = crate::text::chars_of(text.as_str());
                if cs.len() > 0 {
                    cs.pop();
                }
                self.note_draft = Some(crate::text::string_of(&cs));
                PaletteAction::Nothing
            },
            PaletteKey::Char(c) => {
                let mut cs = crate::text::chars_of(text.as_str());
                cs.push(c);
                self.note_draft = Some(crate::text::string_of(&cs));
                PaletteAction::Nothing
            },
            _ => {
                self.note_draft = Some(text);
                PaletteAction::Nothing
            },
        }
    }
}

impl PaletteState {
    /// What a key does to the overlay, and the action it asks for. A hidden
    /// overlay ignores keys; while a note is being written keys edit it.
    pub fn handle_key(&mut self, key: PaletteKey) -> (r: PaletteAction)
        requires
            selection_ok(*old(self)),
            old(self).filtered.len() <= i32::MAX,
        ensures
            !old(self).visible ==> *final(self) == *old(self) && r == PaletteAction::Nothing,
            old(self).visible && old(self).note_draft is Some ==> note_key_done(*old(self), *final(self), key, r),
            old(self).visible && old(self).note_draft is None ==> key_done(*old(self), *final(self), key, r),
            selection_ok(*final(self)),
    {
        if !self.visible {
            return PaletteAction::Nothing;
        }
        if self.note_draft.is_some() {
            return self.note_key(key);
        }
        match key {
            PaletteKey::Esc => {
                if self.excerpt_open {
                    self.excerpt_open = false;
                } else {
                    self.dismiss();
                }
                PaletteAction::Nothing
            },
            PaletteKey::Enter => match self.selected_id() {
                Some(id) => PaletteAction::ShowExcerpt(id),
                None => PaletteAction::Nothing,
            },
            PaletteKey::Up => {
                self.move_sel(-1);
                PaletteAction::Nothing
            },
            PaletteKey::Down => {
                self.move_sel(1);
                PaletteAction::Nothing
            },
            PaletteKey::Backspace => {
                let mut cs = crate::text::chars_of(self.query.as_str());
                if cs.len() > 0 {
                    cs.pop();
                }
                self.query = crate::text::string_of(&cs);
                PaletteAction::Reload
            },
            PaletteKey::Char(c) => {
                if c == 'c' {
                    match self.selected_id() {
                        Some(id) => PaletteAction::Claim(id),
                        None => PaletteAction::Nothing,
                    }
                } else if c == 'n' {
                    if self.selected_id().is_some() {
                        self.note_draft = Some(String::new());
                        proof {
                            reveal_strlit("");
                        }
                    }
                    PaletteAction::Nothing
                } else {
                    let mut cs = crate::text::chars_of(self.query.as_str());
                    cs.push(c);
                    self.query = crate::text::string_of(&cs);
                    self.excerpt_open = false;
                    PaletteAction::Reload
                }
            },
        }
    }

    /// Take fresh rows: the rows a search added last time go; a new ready
    /// page (`None` when it is unchanged or could not be read) replaces the
    /// rest; search hits whose id is not already listed follow; then the
    /// rows are ranked again.
    pub fn apply_reload(&mut self, page: Option<Vec<HudItem>>, hits: Vec<HudItem>)
        ensures
            final(self).items@ == merged(
                match page {
                    Some(p) => p@,
                    None => ready_rows(old(self).items@, old(self).items@.len() as int),
                },
                hits@,
                hits@.len() as int,
            ),
            selection_ok(*final(self)),
            final(self).query == old(self).query,
    {
        let mut old_items: Vec<HudItem> = Vec::new();
        std::mem::swap(&mut old_items, &mut self.items);
        let ghost orig = old_items@;
        let n0 = old_items.len();
        let mut items: Vec<HudItem> = match page {
            Some(p) => p,
            None => {
                let mut kept: Vec<HudItem> = Vec::new();
                let mut i: usize = 0;
                while old_items.len() > 0
                    invariant
                        i + old_items.len() == orig.len(),
                        orig.len() == n0,
                        old_items@ == orig.skip(i as int),
                        kept@ == ready_rows(orig, i as int),
                    decreases old_items.len(),
                {
                    let it = old_items.remove(0);
                    assert(it == orig[i as int]);
                    if it.source == ItemSource::Ready {
                        kept.push(it);
                    }
                    i = i + 1;
                    assert(old_items@ =~= orig.skip(i as int));
                }
                kept
            },
        };
        let ghost base = items@;
        let ghost hv = hits@;
        let mut rest = hits;
        let h0 = rest.len();
        let mut k: usize = 0;
        while rest.len() > 0
            invariant
                k + rest.len() == hv.len(),
                hv.len() == h0,
                rest@ == hv.skip(k as int),
                items@ == merged(base, hv, k as int),
            decreases rest.len(),
        {
            let hit = rest.remove(0);
            assert(hit == hv[k as int]);
            if !has_row(&items, hit.id.as_str()) {
                items.push(hit);
            }
            k = k + 1;
            assert(rest@ =~= hv.skip(k as int));
        }
        self.items = items;
        self.refilter();
    }
}

/// The rows among the first `n` that came from the ready list.
pub open spec fn ready_rows(items: Seq<HudItem>, n: int) -> Seq<HudItem>
    decreases n,
{
    if n <= 0 {
        seq![]
    } else if items[n - 1].source == ItemSource::Ready {
        ready_rows(items, n - 1).push(items[n - 1])
    } else {
        ready_rows(items, n - 1)
    }
}

/// Whether some row carries id `id`.
pub open spec fn lists_row(items: Seq<HudItem>, id: Seq<char>) -> bool {
    exists|i: int| 0 <= i < items.len() && #[trigger] items[i].id@ == id
}

/// `base` followed by the first `n` hits whose id is not listed before them.
pub open spec fn merged(base: Seq<HudItem>, hits: Seq<HudItem>, n: int) -> Seq<HudItem>
    decreases n,
{
    if n <= 0 {
        base
    } else {
        let m = merged(base, hits, n - 1);
        if lists_row(m, hits[n - 1].id@) {
            m
        } else {
            m.push(hits[n - 1])
        }
    }
}

fn has_row(items: &Vec<HudItem>, id: &str) -> (r: bool)
    ensures
        r == lists_row(items@, id@),
{
    let mut i: usize = 0;
    while i < items.len()
        invariant
            i <= items.len(),
            forall|j: int| 0 <= j < i ==> #[trigger] items@[j].id@ != id@,
        decreases items.len() - i,
    {
        if crate::text::str_eq(items[i].id.as_str(), id) {
            return true;
        }
        i = i + 1;
    }
    false
}

} // verus!

verus! {

/// The meta pieces under a HUD row: its parent when it is not nested under
/// it, the extra text unless someone holds the issue, and its due date.
pub open spec fn task_bits(item: HudItem) -> Seq<Seq<char>> {
    (if item.parent is Some && item.depth == 0 {
        seq!["under "@ + item.parent->0@]
    } else {
        seq![]
    }) + (if item.extra@.len() > 0 && item.claimed_by is None {
        seq![item.extra@]
    } else {
        seq![]
    }) + (match item.due {
        Some(d) => seq![d@],
        None => seq![],
    })
}

/// The meta line of a HUD row: its pieces joined by a middle dot, or
/// nothing when there are none.
pub open spec fn task_meta_text(item: HudItem) -> Seq<char> {
    crate::org::join(task_bits(item), "  \u{b7}  "@)
}

/// The meta line under a HUD row.
pub fn task_meta(item: &HudItem) -> (r: String)
    ensures
        r@ == task_meta_text(*item),
{
    let mut bits: Vec<String> = Vec::new();
    let ghost b0 = bits@.map_values(|x: String| x@);
    if let Some(parent) = &item.parent {
        if item.depth == 0 {
            let mut s = "under ".to_string();
            s.push_str(parent.as_str());
            bits.push(s);
        }
    }
    let ghost b1 = bits@.map_values(|x: String| x@);
    assert(b1 =~= if item.parent is Some && item.depth == 0 {
        seq!["under "@ + item.parent->0@]
    } else {
        Seq::<Seq<char>>::empty()
    });
    if chars_len(item.extra.as_str()) > 0 && item.claimed_by.is_none() {
        bits.push(item.extra.clone());
    }
    let ghost b2 = bits@.map_values(|x: String| x@);
    assert(b2 =~= b1 + if item.extra@.len() > 0 && item.claimed_by is None {
        seq![item.extra@]
    } else {
        Seq::<Seq<char>>::empty()
    });
    if let Some(d) = &item.due {
        bits.push(d.clone());
    }
    assert(bits@.map_values(|x: String| x@) =~= task_bits(*item));
    let mut out = String::new();
    crate::report::push_joined(&mut out, &bits, "  \u{b7}  ");
    assert(out@ =~= task_meta_text(*item));
    out
}

fn chars_len(s: &str) -> (n: usize)
    ensures
        n == s@.len(),
{
    crate::text::chars_of(s).len()
}

} // verus!

verus! {

/// What the HUD does once a key has been handled: write the clipboard when
/// the key changed it to something not empty, and resync the window when
/// the key changed whether the HUD shows.
pub fn key_followups(was_visible: bool, now_visible: bool, clip_before: &str, clip_after: &str) -> (r: (
    Option<String>,
    bool,
))
    ensures
        r.0 is Some <==> clip_after@ != clip_before@ && clip_after@.len() > 0,
        r.0 matches Some(c) ==> c@ == clip_after@,
        r.1 == (was_visible != now_visible),
{
    let write = if !crate::text::str_eq(clip_after, clip_before) && chars_len(clip_after) > 0 {
        Some(clip_after.to_string())
    } else {
        None
    };
    (write, was_visible != now_visible)
}

} // verus!
