//! Headless single-line input box with an item list and submit history.
use vstd::prelude::*;
use crate::hook::{key_chars, unmodified, KeyEvent};
use crate::rope_text::is_char_boundary;
use crate::text::{
    byte_at, byte_len, char_is_whitespace, char_len_utf8, chars_to_string, is_white_space,
    lemma_byte_at_len, lemma_byte_at_mono, lemma_byte_at_step, lemma_byte_len_concat,
    lemma_byte_len_ge_len, push_all, str_chars, str_eq,
};

verus! {

/// Where a frontend should render an open prompt.
#[derive(Debug, Clone, Copy, PartialEq, Eq, Default, Structural)]
pub enum PromptPlacement {
    /// Single line anchored to the bottom.
    #[default]
    BottomBar,
    /// Floating palette centered near the top.
    TopPalette,
}

/// One selectable row in a palette-style prompt.
#[derive(Debug, Clone, PartialEq, Eq)]
pub struct PromptItem {
    /// The primary row text (inserted on Tab-completion).
    pub label: String,
    /// Secondary hint text.
    pub hint: Option<String>,
}

impl PromptItem {
    /// Creates an item with no hint.
    pub fn new(label: &str) -> (item: Self)
        ensures
            item.label@ == label@,
            item.hint.is_none(),
    {
        PromptItem { label: label.to_owned(), hint: None }
    }

    /// Creates an item with hint text.
    pub fn with_hint(label: &str, hint: &str) -> (item: Self)
        ensures
            item.label@ == label@,
            item.hint matches Some(h) && h@ == hint@,
    {
        PromptItem { label: label.to_owned(), hint: Some(hint.to_owned()) }
    }
}

/// How a prompt was opened (the view-model a frontend renders).
#[derive(Debug, Clone, PartialEq, Eq)]
pub struct PromptSpec {
    /// Stable id so hooks recognize their own prompt.
    pub id: &'static str,
    /// Leading adornment.
    pub prefix: String,
    /// Ghost text shown while the input is empty.
    pub placeholder: String,
    /// Where the frontend should anchor the box.
    pub placement: PromptPlacement,
    /// Whether the owner refreshes on every keystroke.
    pub live_update: bool,
}

impl PromptSpec {
    /// Creates a prompt spec.
    pub fn new(
        id: &'static str,
        prefix: &str,
        placeholder: &str,
        placement: PromptPlacement,
        live_update: bool,
    ) -> (s: Self)
        ensures
            s.id == id,
            s.prefix@ == prefix@,
            s.placeholder@ == placeholder@,
            s.placement == placement,
            s.live_update == live_update,
    {
        PromptSpec {
            id,
            prefix: prefix.to_owned(),
            placeholder: placeholder.to_owned(),
            placement,
            live_update,
        }
    }
}

/// What [`PromptState::handle_key`] decided for a keystroke.
#[derive(Debug, Clone, PartialEq, Eq)]
pub enum PromptAction {
    /// Consumed as prompt editing; the prompt stays open.
    Editing,
    /// `Enter`: the input was submitted.
    Submitted(String),
    /// `Escape`: the prompt was closed.
    Cancelled,
    /// Not a prompt key; the caller may pass it through.
    Ignored,
}

/// Abstract form of a [`PromptAction`].
pub enum ActionView {
    Editing,
    Submitted(Seq<char>),
    Cancelled,
    Ignored,
}

/// The abstract action of a concrete one.
pub open spec fn action_view(a: PromptAction) -> ActionView {
    match a {
        PromptAction::Editing => ActionView::Editing,
        PromptAction::Submitted(s) => ActionView::Submitted(s@),
        PromptAction::Cancelled => ActionView::Cancelled,
        PromptAction::Ignored => ActionView::Ignored,
    }
}

/// Maximum retained prompt history entries.
pub const HISTORY_LIMIT: usize = 100;

/// Abstract state of a prompt: input characters with a character cursor.
pub struct PromptView {
    pub spec: Option<PromptSpec>,
    pub input: Seq<char>,
    pub cursor: nat,
    pub items: Seq<PromptItem>,
    pub selected: nat,
    pub message: Option<Seq<char>>,
    pub history: Seq<Seq<char>>,
    pub history_idx: Option<nat>,
    pub draft: Seq<char>,
}

/// Headless single-line input + item list + history.
#[derive(Debug, Clone, Default)]
pub struct PromptState {
    spec: Option<PromptSpec>,
    input: Vec<char>,
    cursor: usize,
    items: Vec<PromptItem>,
    selected: usize,
    message: Option<String>,
    history: Vec<String>,
    history_idx: Option<usize>,
    draft: Vec<char>,
}

impl View for PromptState {
    type V = PromptView;

    closed spec fn view(&self) -> PromptView {
        PromptView {
            spec: self.spec,
            input: self.input@,
            cursor: self.cursor as nat,
            items: self.items@,
            selected: self.selected as nat,
            message: match self.message {
                Some(m) => Some(m@),
                None => None,
            },
            history: self.history@.map_values(|s: String| s@),
            history_idx: match self.history_idx {
                Some(i) => Some(i as nat),
                None => None,
            },
            draft: self.draft@,
        }
    }
}

/// Well-formed abstract prompt states.
pub open spec fn prompt_wf(v: PromptView) -> bool {
    &&& v.cursor <= v.input.len()
    &&& byte_len(v.input) <= usize::MAX
    &&& byte_len(v.draft) <= usize::MAX
    &&& (v.selected < v.items.len() || (v.items.len() == 0 && v.selected == 0))
    &&& v.history.len() <= HISTORY_LIMIT
    &&& (v.history_idx matches Some(i) ==> i < v.history.len())
    &&& forall|k: int| 0 <= k < v.history.len() ==> byte_len(#[trigger] v.history[k]) <= usize::MAX
}

/// Leaving history browsing: no history index and an empty draft.
pub open spec fn abandon_history(v: PromptView) -> PromptView {
    PromptView { history_idx: None, draft: Seq::empty(), ..v }
}

/// The state of a freshly opened prompt.
pub open spec fn spec_open(v: PromptView, spec: PromptSpec, initial: Seq<char>) -> PromptView {
    PromptView {
        spec: Some(spec),
        input: initial,
        cursor: initial.len(),
        items: Seq::empty(),
        selected: 0,
        message: None,
        history_idx: None,
        draft: Seq::empty(),
        ..v
    }
}

/// The state of a closed prompt; history is kept.
pub open spec fn spec_close(v: PromptView) -> PromptView {
    PromptView {
        spec: None,
        input: Seq::empty(),
        cursor: 0,
        items: Seq::empty(),
        selected: 0,
        message: None,
        history_idx: None,
        draft: Seq::empty(),
        ..v
    }
}

/// Inserts `text` at the cursor and moves the cursor past it.
pub open spec fn spec_insert(v: PromptView, text: Seq<char>) -> PromptView {
    let w = abandon_history(v);
    PromptView {
        input: v.input.take(v.cursor as int) + text + v.input.skip(v.cursor as int),
        cursor: v.cursor + text.len(),
        ..w
    }
}

/// Removes the character before the cursor, if any.
pub open spec fn spec_backspace_one(v: PromptView) -> PromptView {
    if v.cursor == 0 {
        v
    } else {
        PromptView {
            input: v.input.take(v.cursor - 1) + v.input.skip(v.cursor as int),
            cursor: (v.cursor - 1) as nat,
            ..v
        }
    }
}

/// `Backspace`.
pub open spec fn spec_backspace(v: PromptView) -> PromptView {
    spec_backspace_one(abandon_history(v))
}

/// `Delete`: removes the character after the cursor, if any.
pub open spec fn spec_delete_after(v: PromptView) -> PromptView {
    let w = abandon_history(v);
    if v.cursor < v.input.len() {
        PromptView {
            input: v.input.take(v.cursor as int) + v.input.skip(v.cursor + 1int),
            ..w
        }
    } else {
        w
    }
}

/// Start of the whitespace run that ends at index `i`.
pub open spec fn skip_back_space(s: Seq<char>, i: nat) -> nat
    decreases i,
{
    if i > 0 && is_white_space(s[i - 1]) {
        skip_back_space(s, (i - 1) as nat)
    } else {
        i
    }
}

/// Start of the non-whitespace run that ends at index `i`.
pub open spec fn skip_back_word(s: Seq<char>, i: nat) -> nat
    decreases i,
{
    if i > 0 && !is_white_space(s[i - 1]) {
        skip_back_word(s, (i - 1) as nat)
    } else {
        i
    }
}

/// `Ctrl+W`: deletes trailing whitespace, then the blank-separated word before it.
pub open spec fn spec_delete_word_before(v: PromptView) -> PromptView {
    let w = abandon_history(v);
    let start = skip_back_word(v.input, skip_back_space(v.input, v.cursor));
    PromptView {
        input: v.input.take(start as int) + v.input.skip(v.cursor as int),
        cursor: start,
        ..w
    }
}

/// `Ctrl+U`: deletes everything before the cursor.
pub open spec fn spec_clear_to_start(v: PromptView) -> PromptView {
    let w = abandon_history(v);
    PromptView { input: v.input.skip(v.cursor as int), cursor: 0, ..w }
}

/// Cursor one character left (stays at 0).
pub open spec fn spec_move_left(v: PromptView) -> PromptView {
    PromptView { cursor: if v.cursor == 0 { 0 } else { (v.cursor - 1) as nat }, ..v }
}

/// Cursor one character right (stays at the end).
pub open spec fn spec_move_right(v: PromptView) -> PromptView {
    PromptView { cursor: if v.cursor < v.input.len() { v.cursor + 1 } else { v.cursor }, ..v }
}

/// Cursor at the start.
pub open spec fn spec_move_home(v: PromptView) -> PromptView {
    PromptView { cursor: 0, ..v }
}

/// Cursor at the end.
pub open spec fn spec_move_end(v: PromptView) -> PromptView {
    PromptView { cursor: v.input.len(), ..v }
}

/// Steps back through history; the first step saves the draft.
pub open spec fn spec_history_prev(v: PromptView) -> PromptView {
    if v.history.len() == 0 {
        v
    } else {
        match v.history_idx {
            Some(i) => if i == 0 {
                v
            } else {
                let idx = (i - 1) as nat;
                PromptView {
                    history_idx: Some(idx),
                    input: v.history[idx as int],
                    cursor: v.history[idx as int].len(),
                    ..v
                }
            },
            None => {
                let idx = (v.history.len() - 1) as nat;
                PromptView {
                    draft: v.input,
                    history_idx: Some(idx),
                    input: v.history[idx as int],
                    cursor: v.history[idx as int].len(),
                    ..v
                }
            },
        }
    }
}

/// Steps forward through history, restoring the draft at the end.
pub open spec fn spec_history_next(v: PromptView) -> PromptView {
    match v.history_idx {
        None => v,
        Some(i) => if i + 1 < v.history.len() {
            PromptView {
                history_idx: Some(i + 1),
                input: v.history[i + 1int],
                cursor: v.history[i + 1int].len(),
                ..v
            }
        } else {
            PromptView {
                history_idx: None,
                input: v.draft,
                cursor: v.draft.len(),
                draft: Seq::empty(),
                ..v
            }
        },
    }
}

/// Replaces the items, clamping the selection into range.
pub open spec fn spec_set_items(v: PromptView, items: Seq<PromptItem>) -> PromptView {
    let top: nat = if items.len() == 0 { 0 } else { (items.len() - 1) as nat };
    PromptView { items, selected: if v.selected <= top { v.selected } else { top }, ..v }
}

/// Moves the selection forward, wrapping.
pub open spec fn spec_select_next(v: PromptView) -> PromptView {
    if v.items.len() == 0 {
        v
    } else {
        PromptView { selected: ((v.selected + 1) % v.items.len()) as nat, ..v }
    }
}

/// Moves the selection backward, wrapping.
pub open spec fn spec_select_prev(v: PromptView) -> PromptView {
    if v.items.len() == 0 {
        v
    } else if v.selected == 0 {
        PromptView { selected: (v.items.len() - 1) as nat, ..v }
    } else {
        PromptView { selected: (v.selected - 1) as nat, ..v }
    }
}

/// Copies the selected item's label into the input.
pub open spec fn spec_complete_selected(v: PromptView) -> PromptView {
    if v.selected < v.items.len() {
        let label = v.items[v.selected as int].label@;
        PromptView { input: label, cursor: label.len(), ..abandon_history(v) }
    } else {
        v
    }
}

/// History after submitting `input`: non-empty inputs that differ from the
/// most recent entry are appended, keeping only the last `HISTORY_LIMIT`.
pub open spec fn submitted_history(h: Seq<Seq<char>>, input: Seq<char>) -> Seq<Seq<char>> {
    if input.len() > 0 && (h.len() == 0 || h.last() != input) {
        let g = h.push(input);
        if g.len() > HISTORY_LIMIT {
            g.skip(g.len() - HISTORY_LIMIT)
        } else {
            g
        }
    } else {
        h
    }
}

/// Records the input in history; the prompt stays open.
pub open spec fn spec_submit(v: PromptView) -> PromptView {
    PromptView {
        history: submitted_history(v.history, v.input),
        history_idx: None,
        draft: Seq::empty(),
        ..v
    }
}

/// Lowercase mapping of a string (`str::to_lowercase`).
pub uninterp spec fn lowercase(s: Seq<char>) -> Seq<char>;

/// `str::to_lowercase`.
///
/// Trusted: the result is the Unicode lowercase mapping of `s`; which
/// characters it maps is left to the name. Its length fits memory like any
/// string.
#[verifier::external_body]
pub(crate) fn to_lowercase(s: &str) -> (r: Vec<char>)
    ensures
        r@ == lowercase(s@),
        byte_len(r@) <= usize::MAX,
{
    s.to_lowercase().chars().collect()
}

/// Effect of one keystroke on an open or closed prompt.
pub open spec fn prompt_key(v: PromptView, key: Seq<char>, m: crate::hook::Modifiers) -> (
    PromptView,
    ActionView,
) {
    if v.spec.is_none() {
        (v, ActionView::Ignored)
    } else if key == "escape"@ {
        (spec_close(v), ActionView::Cancelled)
    } else if key == "enter"@ && unmodified(m) {
        (spec_submit(v), ActionView::Submitted(v.input))
    } else if key == "tab"@ {
        if v.selected < v.items.len() {
            (spec_complete_selected(v), ActionView::Editing)
        } else {
            (v, ActionView::Ignored)
        }
    } else if key == "arrowup"@ && unmodified(m) {
        (
            if v.items.len() == 0 { spec_history_prev(v) } else { spec_select_prev(v) },
            ActionView::Editing,
        )
    } else if key == "arrowdown"@ && unmodified(m) {
        (
            if v.items.len() == 0 { spec_history_next(v) } else { spec_select_next(v) },
            ActionView::Editing,
        )
    } else if key == "backspace"@ && unmodified(m) {
        (spec_backspace(v), ActionView::Editing)
    } else if key == "delete"@ && unmodified(m) {
        (spec_delete_after(v), ActionView::Editing)
    } else if key == "arrowleft"@ && unmodified(m) {
        (spec_move_left(v), ActionView::Editing)
    } else if key == "arrowright"@ && unmodified(m) {
        (spec_move_right(v), ActionView::Editing)
    } else if key == "home"@ {
        (spec_move_home(v), ActionView::Editing)
    } else if key == "end"@ {
        (spec_move_end(v), ActionView::Editing)
    } else if m.ctrl && !m.alt && !m.meta {
        let l = lowercase(key);
        if l == "u"@ {
            (spec_clear_to_start(v), ActionView::Editing)
        } else if l == "w"@ {
            (spec_delete_word_before(v), ActionView::Editing)
        } else if l == "a"@ {
            (spec_move_home(v), ActionView::Editing)
        } else if l == "e"@ {
            (spec_move_end(v), ActionView::Editing)
        } else {
            (v, ActionView::Ignored)
        }
    } else if unmodified(m) {
        if key == "space"@ {
            (spec_insert(v, seq![' ']), ActionView::Editing)
        } else if key.len() == 1 {
            (spec_insert(v, key), ActionView::Editing)
        } else {
            (v, ActionView::Ignored)
        }
    } else {
        (v, ActionView::Ignored)
    }
}

fn key_is(key: &String, name: &str) -> (b: bool)
    ensures
        b == (key@ == name@),
{
    str_eq(key.as_str(), name)
}

impl PromptState {
    /// Well-formedness of the concrete state: the cursor lies within the
    /// input, the selection within the items, the history within its limit.
    pub open spec fn wf(&self) -> bool {
        prompt_wf(self@)
    }

    /// Creates a closed prompt.
    pub fn new() -> (p: Self)
        ensures
            p.wf(),
            p@.spec.is_none(),
            p@.input == Seq::<char>::empty(),
            p@.cursor == 0,
            p@.items.len() == 0,
            p@.selected == 0,
            p@.message.is_none(),
            p@.history.len() == 0,
            p@.history_idx.is_none(),
            p@.draft.len() == 0,
    {
        let p = PromptState {
            spec: None,
            input: Vec::new(),
            cursor: 0,
            items: Vec::new(),
            selected: 0,
            message: None,
            history: Vec::new(),
            history_idx: None,
            draft: Vec::new(),
        };
        proof {
            assert(p@.history =~= Seq::<Seq<char>>::empty());
            assert(p@.input =~= Seq::<char>::empty());
        }
        p
    }

    /// Whether a prompt is currently open.
    pub fn is_open(&self) -> (b: bool)
        ensures
            b == self@.spec.is_some(),
    {
        self.spec.is_some()
    }

    /// Returns the active spec, if open.
    pub fn spec(&self) -> (r: Option<&PromptSpec>)
        ensures
            match r {
                Some(s) => self@.spec == Some(*s),
                None => self@.spec.is_none(),
            },
    {
        match &self.spec {
            Some(s) => Some(s),
            None => None,
        }
    }

    /// Current input text.
    pub fn input(&self) -> (s: String)
        ensures
            s@ == self@.input,
    {
        chars_to_string(&self.input)
    }

    /// Byte index of the input cursor (always a char boundary).
    /// The cursor as a byte offset into the input: always a char boundary
    /// of the input, at most its byte length.
    pub fn cursor(&self) -> (c: usize)
        requires
            self.wf(),
        ensures
            c == byte_at(self@.input, self@.cursor as int),
            is_char_boundary(self@.input, c as nat),
            c <= byte_len(self@.input),
    {
        let mut acc: usize = 0;
        let mut i: usize = 0;
        proof {
            assert(self.input@.take(0) =~= Seq::<char>::empty());
        }
        while i < self.cursor
            invariant
                i <= self.cursor <= self.input@.len(),
                acc == byte_at(self.input@, i as int),
                byte_len(self.input@) <= usize::MAX,
            decreases self.cursor - i,
        {
            proof {
                lemma_byte_at_step(self.input@, i as int);
                lemma_byte_at_mono(self.input@, i as int + 1, self.input@.len() as int);
                lemma_byte_at_len(self.input@);
            }
            acc = acc + char_len_utf8(self.input[i]);
            i = i + 1;
        }
        proof {
            lemma_byte_at_mono(self.input@, self.cursor as int, self.input@.len() as int);
            lemma_byte_at_len(self.input@);
            assert(byte_at(self@.input, self@.cursor as int) == acc);
        }
        acc
    }

    /// Current item rows.
    pub fn items(&self) -> (r: &[PromptItem])
        ensures
            r@ == self@.items,
    {
        self.items.as_slice()
    }

    /// Selected item index.
    pub fn selected_index(&self) -> (i: usize)
        ensures
            i == self@.selected,
    {
        self.selected
    }

    /// Selected item, if the list is non-empty.
    pub fn selected_item(&self) -> (r: Option<&PromptItem>)
        ensures
            match r {
                Some(item) => self@.selected < self@.items.len() && *item == self@.items[self@.selected as int],
                None => self@.selected >= self@.items.len(),
            },
    {
        if self.selected < self.items.len() {
            Some(&self.items[self.selected])
        } else {
            None
        }
    }

    /// Validation / error message to show under the box.
    pub fn message(&self) -> (r: Option<&str>)
        ensures
            match r {
                Some(m) => self@.message == Some(m@),
                None => self@.message.is_none(),
            },
    {
        match &self.message {
            Some(m) => Some(m.as_str()),
            None => None,
        }
    }

    /// Submitted-input history, oldest first.
    pub fn history(&self) -> (r: &[String])
        ensures
            r@.map_values(|s: String| s@) == self@.history,
    {
        self.history.as_slice()
    }

    /// Opens a prompt, replacing any active one.
    pub fn open(&mut self, spec: PromptSpec, initial: &str)
        requires
            old(self).wf(),
        ensures
            final(self).wf(),
            final(self)@ == spec_open(old(self)@, spec, initial@),
    {
        let chars = str_chars(initial);
        self.spec = Some(spec);
        self.cursor = chars.len();
        self.input = chars;
        self.items = Vec::new();
        self.selected = 0;
        self.message = None;
        self.history_idx = None;
        self.draft = Vec::new();
        proof {
            assert(self@.items =~= Seq::<PromptItem>::empty());
            assert(self@.draft =~= Seq::<char>::empty());
        }
    }

    /// Closes the prompt, clearing input, items, and message (history kept).
    pub fn close(&mut self)
        requires
            old(self).wf(),
        ensures
            final(self).wf(),
            final(self)@ == spec_close(old(self)@),
    {
        self.spec = None;
        self.input = Vec::new();
        self.cursor = 0;
        self.items = Vec::new();
        self.selected = 0;
        self.message = None;
        self.history_idx = None;
        self.draft = Vec::new();
        proof {
            assert(self@.items =~= Seq::<PromptItem>::empty());
            assert(self@.draft =~= Seq::<char>::empty());
            assert(self@.input =~= Seq::<char>::empty());
        }
    }

    /// Sets the validation / error message.
    pub fn set_message(&mut self, message: &str)
        requires
            old(self).wf(),
        ensures
            final(self).wf(),
            final(self)@ == (PromptView { message: Some(message@), ..old(self)@ }),
    {
        self.message = Some(message.to_owned());
    }

    /// Clears the validation / error message.
    pub fn clear_message(&mut self)
        requires
            old(self).wf(),
        ensures
            final(self).wf(),
            final(self)@ == (PromptView { message: None, ..old(self)@ }),
    {
        self.message = None;
    }

    /// Replaces the item list, clamping the selection into range.
    pub fn set_items(&mut self, items: Vec<PromptItem>)
        requires
            old(self).wf(),
        ensures
            final(self).wf(),
            final(self)@ == spec_set_items(old(self)@, items@),
    {
        let top = if items.len() == 0 { 0 } else { items.len() - 1 };
        self.items = items;
        if self.selected > top {
            self.selected = top;
        }
    }

    fn abandon(&mut self)
        requires
            old(self).wf(),
        ensures
            final(self).wf(),
            final(self)@ == abandon_history(old(self)@),
    {
        self.history_idx = None;
        self.draft = Vec::new();
        proof {
            assert(self@.draft =~= Seq::<char>::empty());
        }
    }

    fn backspace_one(&mut self)
        requires
            old(self).wf(),
        ensures
            final(self).wf(),
            final(self)@ == spec_backspace_one(old(self)@),
    {
        if self.cursor == 0 {
            return;
        }
        let ghost before = self.input@;
        let c = self.cursor;
        self.input.remove(c - 1);
        self.cursor = c - 1;
        proof {
            assert(self.input@ =~= before.take(c - 1) + before.skip(c as int));
            lemma_byte_len_concat(before.take(c - 1), before.skip(c as int));
            lemma_byte_len_concat(before.take(c - 1), before.skip(c - 1));
            assert(before =~= before.take(c - 1) + before.skip(c - 1));
            assert(before.skip(c - 1) =~= seq![before[c - 1]] + before.skip(c as int));
            lemma_byte_len_concat(seq![before[c - 1]], before.skip(c as int));
        }
    }

    fn insert_chars(&mut self, text: &Vec<char>)
        requires
            old(self).wf(),
            byte_len(old(self)@.input) + byte_len(text@) <= usize::MAX,
        ensures
            final(self).wf(),
            final(self)@ == spec_insert(old(self)@, text@),
    {
        self.abandon();
        let ghost before = self.input@;
        let c = self.cursor;
        proof {
            lemma_byte_len_ge_len(before);
            lemma_byte_len_ge_len(text@);
        }
        let mut out: Vec<char> = Vec::new();
        let mut i: usize = 0;
        while i < c
            invariant
                c <= before.len(),
                before == self.input@,
                0 <= i <= c,
                out@ == before.take(i as int),
            decreases c - i,
        {
            out.push(self.input[i]);
            proof {
                assert(out@ =~= before.take(i + 1));
            }
            i = i + 1;
        }
        push_all(&mut out, text);
        let mut j: usize = c;
        while j < self.input.len()
            invariant
                c <= j <= before.len(),
                before == self.input@,
                out@ == before.take(c as int) + text@ + before.subrange(c as int, j as int),
            decreases before.len() - j,
        {
            out.push(self.input[j]);
            proof {
                assert(out@ =~= before.take(c as int) + text@ + before.subrange(c as int, j + 1));
            }
            j = j + 1;
        }
        proof {
            assert(before.subrange(c as int, before.len() as int) =~= before.skip(c as int));
            assert(before =~= before.take(c as int) + before.skip(c as int));
            lemma_byte_len_concat(before.take(c as int), before.skip(c as int));
            lemma_byte_len_concat(before.take(c as int), text@);
            lemma_byte_len_concat(before.take(c as int) + text@, before.skip(c as int));
        }
        self.input = out;
        self.cursor = c + text.len();
    }

    /// Inserts text at the input cursor.
    pub fn insert(&mut self, text: &str)
        requires
            old(self).wf(),
            byte_len(old(self)@.input) + byte_len(text@) <= usize::MAX,
        ensures
            final(self).wf(),
            final(self)@ == spec_insert(old(self)@, text@),
    {
        let chars = str_chars(text);
        self.insert_chars(&chars);
    }

    /// Deletes the char before the input cursor.
    pub fn backspace(&mut self)
        requires
            old(self).wf(),
        ensures
            final(self).wf(),
            final(self)@ == spec_backspace(old(self)@),
    {
        self.abandon();
        self.backspace_one();
    }

    /// Deletes the char after the input cursor.
    pub fn delete_after_cursor(&mut self)
        requires
            old(self).wf(),
        ensures
            final(self).wf(),
            final(self)@ == spec_delete_after(old(self)@),
    {
        self.abandon();
        if self.cursor < self.input.len() {
            let ghost before = self.input@;
            let c = self.cursor;
            self.input.remove(c);
            proof {
                assert(self.input@ =~= before.take(c as int) + before.skip(c + 1));
                assert(before =~= before.take(c as int) + before.skip(c as int));
                assert(before.skip(c as int) =~= seq![before[c as int]] + before.skip(c + 1));
                lemma_byte_len_concat(before.take(c as int), before.skip(c as int));
                lemma_byte_len_concat(before.take(c as int), before.skip(c + 1));
                lemma_byte_len_concat(seq![before[c as int]], before.skip(c + 1));
            }
        }
    }

    /// Deletes back to the previous blank-separated word start (`Ctrl+W`).
    pub fn delete_word_before(&mut self)
        requires
            old(self).wf(),
        ensures
            final(self).wf(),
            final(self)@ == spec_delete_word_before(old(self)@),
    {
        self.abandon();
        let ghost before = self.input@;
        let ghost c0 = self.cursor as nat;
        proof {
            assert(before =~= before.take(c0 as int) + before.skip(c0 as int));
        }
        while self.cursor > 0 && char_is_whitespace(self.input[self.cursor - 1])
            invariant
                self.wf(),
                self@ == (PromptView {
                    input: before.take(self.cursor as int) + before.skip(c0 as int),
                    cursor: self.cursor as nat,
                    ..abandon_history(old(self)@)
                }),
                self.cursor <= c0 <= before.len(),
                skip_back_space(before, self.cursor as nat) == skip_back_space(before, c0),
            decreases self.cursor,
        {
            proof {
                assert(self.input@[self.cursor - 1] == before[self.cursor - 1]);
            }
            self.backspace_one();
            proof {
                assert(self.input@ =~= before.take(self.cursor as int) + before.skip(c0 as int));
            }
        }
        let ghost c1 = self.cursor as nat;
        proof {
            if self.cursor > 0 {
                assert(self.input@[self.cursor - 1] == before[self.cursor - 1]);
            }
            assert(skip_back_space(before, c1) == c1);
        }
        while self.cursor > 0 && !char_is_whitespace(self.input[self.cursor - 1])
            invariant
                self.wf(),
                self@ == (PromptView {
                    input: before.take(self.cursor as int) + before.skip(c0 as int),
                    cursor: self.cursor as nat,
                    ..abandon_history(old(self)@)
                }),
                self.cursor <= c1 <= c0 <= before.len(),
                skip_back_word(before, self.cursor as nat) == skip_back_word(before, c1),
            decreases self.cursor,
        {
            proof {
                assert(self.input@[self.cursor - 1] == before[self.cursor - 1]);
            }
            self.backspace_one();
            proof {
                assert(self.input@ =~= before.take(self.cursor as int) + before.skip(c0 as int));
            }
        }
        proof {
            if self.cursor > 0 {
                assert(self.input@[self.cursor - 1] == before[self.cursor - 1]);
            }
            assert(skip_back_word(before, self.cursor as nat) == self.cursor);
        }
    }

    /// Clears everything before the cursor (`Ctrl+U`).
    pub fn clear_to_start(&mut self)
        requires
            old(self).wf(),
        ensures
            final(self).wf(),
            final(self)@ == spec_clear_to_start(old(self)@),
    {
        self.abandon();
        let ghost before = self.input@;
        let c = self.cursor;
        let mut rest: Vec<char> = Vec::new();
        let mut i: usize = c;
        while i < self.input.len()
            invariant
                c <= i <= before.len(),
                self.input@ == before,
                rest@ == before.subrange(c as int, i as int),
            decreases before.len() - i,
        {
            rest.push(self.input[i]);
            proof {
                assert(rest@ =~= before.subrange(c as int, i + 1));
            }
            i = i + 1;
        }
        proof {
            assert(rest@ =~= before.skip(c as int));
            assert(before =~= before.take(c as int) + before.skip(c as int));
            lemma_byte_len_concat(before.take(c as int), before.skip(c as int));
        }
        self.input = rest;
        self.cursor = 0;
    }

    /// Moves the input cursor one char left.
    pub fn move_left(&mut self)
        requires
            old(self).wf(),
        ensures
            final(self).wf(),
            final(self)@ == spec_move_left(old(self)@),
    {
        if self.cursor > 0 {
            self.cursor = self.cursor - 1;
        }
    }

    /// Moves the input cursor one char right.
    pub fn move_right(&mut self)
        requires
            old(self).wf(),
        ensures
            final(self).wf(),
            final(self)@ == spec_move_right(old(self)@),
    {
        if self.cursor < self.input.len() {
            self.cursor = self.cursor + 1;
        }
    }

    /// Moves the input cursor to the start.
    pub fn move_home(&mut self)
        requires
            old(self).wf(),
        ensures
            final(self).wf(),
            final(self)@ == spec_move_home(old(self)@),
    {
        self.cursor = 0;
    }

    /// Moves the input cursor to the end.
    pub fn move_end(&mut self)
        requires
            old(self).wf(),
        ensures
            final(self).wf(),
            final(self)@ == spec_move_end(old(self)@),
    {
        self.cursor = self.input.len();
    }

    fn history_entry(&self, idx: usize) -> (v: Vec<char>)
        requires
            self.wf(),
            idx < self@.history.len(),
        ensures
            v@ == self@.history[idx as int],
    {
        str_chars(self.history[idx].as_str())
    }

    /// Steps back through submitted-input history.
    pub fn history_prev(&mut self)
        requires
            old(self).wf(),
        ensures
            final(self).wf(),
            final(self)@ == spec_history_prev(old(self)@),
    {
        if self.history.len() == 0 {
            return;
        }
        let idx = match self.history_idx {
            None => {
                self.draft = self.input.clone();
                self.history.len() - 1
            },
            Some(i) => {
                if i == 0 {
                    return;
                }
                i - 1
            },
        };
        let entry = self.history_entry(idx);
        self.history_idx = Some(idx);
        self.cursor = entry.len();
        self.input = entry;
    }

    /// Steps forward through history, restoring the draft at the end.
    pub fn history_next(&mut self)
        requires
            old(self).wf(),
        ensures
            final(self).wf(),
            final(self)@ == spec_history_next(old(self)@),
    {
        let idx = match self.history_idx {
            None => {
                return;
            },
            Some(i) => i,
        };
        if idx + 1 < self.history.len() {
            let entry = self.history_entry(idx + 1);
            self.history_idx = Some(idx + 1);
            self.cursor = entry.len();
            self.input = entry;
        } else {
            self.history_idx = None;
            let mut draft: Vec<char> = Vec::new();
            std::mem::swap(&mut draft, &mut self.draft);
            self.cursor = draft.len();
            self.input = draft;
            proof {
                assert(self.draft@ =~= Seq::<char>::empty());
            }
        }
    }

    /// Moves the item selection forward, wrapping.
    pub fn select_next(&mut self)
        requires
            old(self).wf(),
        ensures
            final(self).wf(),
            final(self)@ == spec_select_next(old(self)@),
    {
        if self.items.len() == 0 {
            return;
        }
        self.selected = (self.selected + 1) % self.items.len();
    }

    /// Moves the item selection backward, wrapping.
    pub fn select_prev(&mut self)
        requires
            old(self).wf(),
        ensures
            final(self).wf(),
            final(self)@ == spec_select_prev(old(self)@),
    {
        if self.items.len() == 0 {
            return;
        }
        if self.selected == 0 {
            self.selected = self.items.len() - 1;
        } else {
            self.selected = self.selected - 1;
        }
    }

    /// Copies the selected item's label into the input (`Tab`).
    pub fn complete_selected(&mut self)
        requires
            old(self).wf(),
        ensures
            final(self).wf(),
            final(self)@ == spec_complete_selected(old(self)@),
    {
        if self.selected < self.items.len() {
            let label = str_chars(self.items[self.selected].label.as_str());
            self.abandon();
            self.cursor = label.len();
            self.input = label;
        }
    }

    /// Records the input in history and returns it; the prompt stays open.
    pub fn submit(&mut self) -> (s: String)
        requires
            old(self).wf(),
        ensures
            final(self).wf(),
            final(self)@ == spec_submit(old(self)@),
            s@ == old(self)@.input,
    {
        let submitted = chars_to_string(&self.input);
        let ghost h0 = self.history@;
        let ghost hv = h0.map_values(|s: String| s@);
        let differs = if self.history.len() == 0 {
            true
        } else {
            let last = self.history.len() - 1;
            !(self.history[last] == submitted)
        };
        if self.input.len() > 0 && differs {
            self.history.push(chars_to_string(&self.input));
            proof {
                assert(self.history@.map_values(|s: String| s@) =~= hv.push(self.input@));
            }
            if self.history.len() > HISTORY_LIMIT {
                let ghost h1 = self.history@;
                self.history.remove(0);
                proof {
                    assert(h1.len() == HISTORY_LIMIT + 1);
                    assert(self.history@.map_values(|s: String| s@) =~= h1.map_values(
                        |s: String| s@,
                    ).skip(1));
                }
            }
        }
        self.history_idx = None;
        self.draft = Vec::new();
        proof {
            assert(self.draft@ =~= Seq::<char>::empty());
            if h0.len() > 0 {
                assert(hv.last() == h0.last()@);
            }
        }
        submitted
    }

    /// Routes one keystroke; `Ignored` when closed or for keys the prompt
    /// does not own.
    pub fn handle_key(&mut self, event: &KeyEvent) -> (a: PromptAction)
        requires
            old(self).wf(),
            byte_len(old(self)@.input) + byte_len(event.key@) + 1 <= usize::MAX,
        ensures
            final(self).wf(),
            final(self)@ == prompt_key(old(self)@, event.key@, event.modifiers).0,
            action_view(a) == prompt_key(old(self)@, event.key@, event.modifiers).1,
    {
        if self.spec.is_none() {
            return PromptAction::Ignored;
        }
        let m = event.modifiers;
        let plain = !m.ctrl && !m.alt && !m.meta;
        let key = &event.key;
        if key_is(key, "escape") {
            self.close();
            PromptAction::Cancelled
        } else if key_is(key, "enter") && plain {
            PromptAction::Submitted(self.submit())
        } else if key_is(key, "tab") {
            if self.selected < self.items.len() {
                self.complete_selected();
                PromptAction::Editing
            } else {
                PromptAction::Ignored
            }
        } else if key_is(key, "arrowup") && plain {
            if self.items.len() == 0 {
                self.history_prev();
            } else {
                self.select_prev();
            }
            PromptAction::Editing
        } else if key_is(key, "arrowdown") && plain {
            if self.items.len() == 0 {
                self.history_next();
            } else {
                self.select_next();
            }
            PromptAction::Editing
        } else if key_is(key, "backspace") && plain {
            self.backspace();
            PromptAction::Editing
        } else if key_is(key, "delete") && plain {
            self.delete_after_cursor();
            PromptAction::Editing
        } else if key_is(key, "arrowleft") && plain {
            self.move_left();
            PromptAction::Editing
        } else if key_is(key, "arrowright") && plain {
            self.move_right();
            PromptAction::Editing
        } else if key_is(key, "home") {
            self.move_home();
            PromptAction::Editing
        } else if key_is(key, "end") {
            self.move_end();
            PromptAction::Editing
        } else if m.ctrl && !m.alt && !m.meta {
            let l = to_lowercase(key.as_str());
            let lowered = chars_to_string(&l);
            if str_eq(lowered.as_str(), "u") {
                self.clear_to_start();
                PromptAction::Editing
            } else if str_eq(lowered.as_str(), "w") {
                self.delete_word_before();
                PromptAction::Editing
            } else if str_eq(lowered.as_str(), "a") {
                self.move_home();
                PromptAction::Editing
            } else if str_eq(lowered.as_str(), "e") {
                self.move_end();
                PromptAction::Editing
            } else {
                PromptAction::Ignored
            }
        } else if plain {
            if key_is(key, "space") {
                let space = vec![' '];
                proof {
                    assert(byte_len(space@) == 1) by {
                        assert(space@.drop_last() =~= Seq::<char>::empty());
                        reveal_with_fuel(byte_len, 2);
                    }
                    assert(space@ =~= seq![' ']);
                }
                self.insert_chars(&space);
                PromptAction::Editing
            } else {
                let chars = key_chars(event);
                if chars.len() == 1 {
                    self.insert_chars(&chars);
                    PromptAction::Editing
                } else {
                    PromptAction::Ignored
                }
            }
        } else {
            PromptAction::Ignored
        }
    }
}

/// Index of the first `c` at or after `pos` in `l`.
pub open spec fn find_from(l: Seq<char>, c: char, pos: nat) -> Option<nat>
    decreases l.len() - pos,
{
    if pos >= l.len() {
        None
    } else if l[pos as int] == c {
        Some(pos)
    } else {
        find_from(l, c, pos + 1)
    }
}

/// Score accumulated while matching `w[qi..]` in order against `l` starting
/// at `pos`; `prev` is the index of the previous match. `None` when some
/// query character has no later match.
pub open spec fn fuzzy_rest(l: Seq<char>, w: Seq<char>, qi: nat, pos: nat, prev: Option<nat>) -> Option<int>
    decreases w.len() - qi,
{
    if qi >= w.len() {
        Some(0)
    } else {
        match find_from(l, w[qi as int], pos) {
            None => None,
            Some(ci) => {
                let bonus: int = 10 + (if qi == 0 && ci == 0 { 20int } else { 0int }) + (
                if prev == Some((ci - 1) as nat) && ci > 0 { 15int } else { 0int });
                match fuzzy_rest(l, w, qi + 1, ci + 1, Some(ci)) {
                    None => None,
                    Some(rest) => Some(bonus + rest),
                }
            },
        }
    }
}

/// Fuzzy score of lowered `l` against lowered query `w`: 10 per matched
/// character, +20 when the first character matches at the start, +15 for
/// each match adjacent to the previous one, minus the candidate length.
pub open spec fn fuzzy_value(l: Seq<char>, w: Seq<char>) -> Option<int> {
    match fuzzy_rest(l, w, 0, 0, None) {
        None => None,
        Some(s) => Some(s - l.len()),
    }
}

/// The score of `candidate` against `query`, as `fuzzy_score` computes it
/// in 64-bit arithmetic.
pub open spec fn fuzzy_spec(candidate: Seq<char>, query: Seq<char>) -> Option<i64> {
    if query.len() == 0 {
        Some(0)
    } else {
        match fuzzy_value(lowercase(candidate), lowercase(query)) {
            None => None,
            Some(s) => Some(s as i64),
        }
    }
}

fn find_from_exec(l: &Vec<char>, c: char, pos: usize) -> (r: Option<usize>)
    ensures
        match r {
            Some(i) => find_from(l@, c, pos as nat) == Some(i as nat),
            None => find_from(l@, c, pos as nat).is_none(),
        },
    decreases l@.len() - pos,
{
    if pos >= l.len() {
        None
    } else if l[pos] == c {
        Some(pos)
    } else {
        find_from_exec(l, c, pos + 1)
    }
}

/// Fuzzy score of already-lowered characters (see [`fuzzy_value`]), in
/// 64-bit two's-complement arithmetic.
pub fn fuzzy_score_chars(lowered: &Vec<char>, wanted: &Vec<char>) -> (r: Option<i64>)
    ensures
        r == (match fuzzy_value(lowered@, wanted@) {
            None => None,
            Some(s) => Some(s as i64),
        }),
{
    let ghost l = lowered@;
    let ghost w = wanted@;
    let mut score: i128 = 0;
    let mut pos: usize = 0;
    let mut prev: Option<usize> = None;
    let mut qi: usize = 0;
    while qi < wanted.len()
        invariant
            0 <= qi <= w.len(),
            l == lowered@,
            w == wanted@,
            0 <= score <= 45 * qi,
            qi <= usize::MAX,
            pos <= l.len(),
            fuzzy_rest(l, w, 0, 0, None) == (match fuzzy_rest(
                l,
                w,
                qi as nat,
                pos as nat,
                match prev {
                    Some(p) => Some(p as nat),
                    None => None,
                },
            ) {
                None => None,
                Some(rest) => Some(score + rest),
            }),
        decreases w.len() - qi,
    {
        let found = find_from_exec(lowered, wanted[qi], pos);
        let ci = match found {
            None => {
                return None;
            },
            Some(ci) => ci,
        };
        proof {
            assert(ci < l.len()) by {
                lemma_find_from_range(l, w[qi as int], pos as nat);
            }
            assert(l.len() == lowered.len());
        }
        let mut bonus: i128 = 10;
        if qi == 0 && ci == 0 {
            bonus = bonus + 20;
        }
        match prev {
            Some(p) => {
                if ci > 0 && p == ci - 1 {
                    bonus = bonus + 15;
                }
            },
            None => {},
        }
        proof {
            assert(prev.is_some() && ci > 0 && prev.unwrap() == ci - 1 <==> (match prev {
                Some(p) => Some(p as nat),
                None => None,
            }) == Some((ci - 1) as nat) && ci > 0);
        }
        score = score + bonus;
        prev = Some(ci);
        pos = ci + 1;
        qi = qi + 1;
    }
    let total = score - lowered.len() as i128;
    Some(total as i64)
}

proof fn lemma_find_from_range(l: Seq<char>, c: char, pos: nat)
    ensures
        find_from(l, c, pos) matches Some(i) ==> pos <= i < l.len() && l[i as int] == c,
    decreases l.len() - pos,
{
    if pos < l.len() && l[pos as int] != c {
        lemma_find_from_range(l, c, pos + 1);
    }
}

/// Scores `candidate` against `query` as a case-insensitive subsequence;
/// `None` when the query is not a subsequence, `Some(0)` for an empty query.
pub fn fuzzy_score(candidate: &str, query: &str) -> (r: Option<i64>)
    ensures
        r == fuzzy_spec(candidate@, query@),
{
    let q = str_chars(query);
    if q.len() == 0 {
        return Some(0);
    }
    let lowered = to_lowercase(candidate);
    let wanted = to_lowercase(query);
    fuzzy_score_chars(&lowered, &wanted)
}

/// Ranking order: higher score first, then lower index.
pub open spec fn ranks_before(a: (usize, i64), b: (usize, i64)) -> bool {
    a.1 > b.1 || (a.1 == b.1 && a.0 < b.0)
}

fn ranks_before_exec(a: (usize, i64), b: (usize, i64)) -> (r: bool)
    ensures
        r == ranks_before(a, b),
{
    a.1 > b.1 || (a.1 == b.1 && a.0 < b.0)
}

/// Filters item labels against `query`, returning `(index, score)` pairs
/// sorted by score descending, index ascending.
pub fn fuzzy_filter(candidates: &[PromptItem], query: &str) -> (ranked: Vec<(usize, i64)>)
    ensures
        forall|i: int, j: int|
            0 <= i < j < ranked@.len() ==> ranks_before(#[trigger] ranked@[i], #[trigger] ranked@[j]),
        forall|k: int|
            #![trigger candidates@[k]]
            0 <= k < candidates@.len() ==> (fuzzy_spec(candidates@[k].label@, query@) matches Some(
                s,
            ) ==> ranked@.contains((k as usize, s))),
        forall|x: (usize, i64)|
            ranked@.contains(x) ==> x.0 < candidates@.len() && fuzzy_spec(
                candidates@[x.0 as int].label@,
                query@,
            ) == Some(x.1),
{
    let mut ranked: Vec<(usize, i64)> = Vec::new();
    let mut k: usize = 0;
    while k < candidates.len()
        invariant
            0 <= k <= candidates@.len(),
            forall|i: int, j: int|
                0 <= i < j < ranked@.len() ==> ranks_before(
                    #[trigger] ranked@[i],
                    #[trigger] ranked@[j],
                ),
            forall|kk: int|
                #![trigger candidates@[kk]]
                0 <= kk < k ==> (fuzzy_spec(candidates@[kk].label@, query@) matches Some(s)
                    ==> ranked@.contains((kk as usize, s))),
            forall|x: (usize, i64)|
                ranked@.contains(x) ==> x.0 < k && fuzzy_spec(
                    candidates@[x.0 as int].label@,
                    query@,
                ) == Some(x.1),
        decreases candidates@.len() - k,
    {
        match fuzzy_score(candidates[k].label.as_str(), query) {
            None => {},
            Some(s) => {
                let entry = (k, s);
                let mut p: usize = 0;
                while p < ranked.len() && ranks_before_exec(ranked[p], entry)
                    invariant
                        0 <= p <= ranked@.len(),
                        forall|q: int| 0 <= q < p ==> ranks_before(#[trigger] ranked@[q], entry),
                    decreases ranked@.len() - p,
                {
                    p = p + 1;
                }
                let ghost old_ranked = ranked@;
                proof {
                    assert forall|q: int| p <= q < old_ranked.len() implies ranks_before(
                        entry,
                        #[trigger] old_ranked[q],
                    ) by {
                        let x = old_ranked[q];
                        assert(old_ranked.contains(x));
                        assert(x.0 < k);
                        if q > p {
                            assert(ranks_before(old_ranked[p as int], old_ranked[q]));
                        }
                        assert(!ranks_before(old_ranked[p as int], entry));
                    }
                }
                ranked.insert(p, entry);
                proof {
                    assert forall|x: (usize, i64)| ranked@.contains(x) implies x.0 < k + 1
                        && fuzzy_spec(candidates@[x.0 as int].label@, query@) == Some(x.1) by {
                        let q = choose|q: int| 0 <= q < ranked@.len() && ranked@[q] == x;
                        if q < p {
                            assert(old_ranked.contains(old_ranked[q]));
                        } else if q > p {
                            assert(ranked@[q] == old_ranked[q - 1]);
                            assert(old_ranked.contains(old_ranked[q - 1]));
                        }
                    }
                    assert forall|kk: int|
                        #![trigger candidates@[kk]]
                        0 <= kk < k + 1 && (fuzzy_spec(candidates@[kk].label@, query@) matches Some(
                            s2,
                        )) implies ranked@.contains(
                        (kk as usize, fuzzy_spec(candidates@[kk].label@, query@).unwrap()),
                    ) by {
                        if kk < k {
                            let y = (kk as usize, fuzzy_spec(candidates@[kk].label@, query@).unwrap());
                            assert(old_ranked.contains(y));
                            let q = choose|q: int| 0 <= q < old_ranked.len() && old_ranked[q] == y;
                            if q < p {
                                assert(ranked@[q] == y);
                            } else {
                                assert(ranked@[q + 1] == y);
                            }
                        } else {
                            assert(ranked@[p as int] == entry);
                        }
                    }
                }
            },
        }
        k = k + 1;
    }
    ranked
}

/// Stepping back into history and forward again gives back the input that
/// was being typed, with the cursor at its end.
pub proof fn law_history_prev_next_restores_draft(v: PromptView)
    requires
        prompt_wf(v),
        v.history_idx.is_none(),
        v.history.len() > 0,
    ensures
        spec_history_next(spec_history_prev(v)).input == v.input,
        spec_history_next(spec_history_prev(v)).cursor == v.input.len(),
        spec_history_next(spec_history_prev(v)).history_idx.is_none(),
        spec_history_next(spec_history_prev(v)).history == v.history,
{
}

/// Typing one character and deleting it with `Backspace` gives back the
/// input and the cursor.
pub proof fn law_insert_backspace(v: PromptView, c: char)
    requires
        prompt_wf(v),
    ensures
        spec_backspace(spec_insert(v, seq![c])).input == v.input,
        spec_backspace(spec_insert(v, seq![c])).cursor == v.cursor,
{
    let w = spec_insert(v, seq![c]);
    assert(w.input.take(w.cursor - 1) + w.input.skip(w.cursor as int) =~= v.input);
}

/// With items listed, moving the selection forward then back (or back then
/// forward) returns to the same row.
pub proof fn law_select_next_prev_inverse(v: PromptView)
    requires
        prompt_wf(v),
        v.items.len() > 0,
    ensures
        spec_select_prev(spec_select_next(v)).selected == v.selected,
        spec_select_next(spec_select_prev(v)).selected == v.selected,
{
    let n = v.items.len();
    if v.selected + 1 < n {
        vstd::arithmetic::div_mod::lemma_small_mod(v.selected + 1, n);
    } else {
        vstd::arithmetic::div_mod::lemma_mod_self_0(n as int);
    }
    if v.selected > 0 {
        vstd::arithmetic::div_mod::lemma_small_mod(v.selected, n);
    } else {
        vstd::arithmetic::div_mod::lemma_mod_self_0(n as int);
    }
}

/// Closing a prompt forgets its input, items and message but keeps the
/// history.
pub proof fn law_close_keeps_history(v: PromptView)
    ensures
        spec_close(v).history == v.history,
        spec_close(v).input.len() == 0,
        spec_close(v).cursor == 0,
        spec_close(v).message.is_none(),
        spec_close(v).spec.is_none(),
{
}

/// Submitting a non-empty input leaves it as the newest history entry,
/// never stores it twice in a row, and keeps at most `HISTORY_LIMIT`
/// entries.
pub proof fn law_submit_records_input(h: Seq<Seq<char>>, input: Seq<char>)
    requires
        h.len() <= HISTORY_LIMIT,
    ensures
        submitted_history(h, input).len() <= HISTORY_LIMIT,
        input.len() > 0 ==> submitted_history(h, input).len() > 0 && submitted_history(
            h,
            input,
        ).last() == input,
        input.len() == 0 ==> submitted_history(h, input) == h,
{
}

} // verus!
