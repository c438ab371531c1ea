//! Find and replace wired to the shared prompt: a hook with a keymap, live
//! match refresh, navigation, replacement and a status line.
use vstd::prelude::*;
use std::ops::Range;
use crate::buffer::{EditorBuffer, min_nat};
use crate::error::EditorError;
use crate::hook::{ctx_ready, EditorHook, HookContext, HookOutcome, KeyEvent, Modifiers};
use crate::prompt::{action_view, prompt_key, to_lowercase, ActionView, PromptAction, PromptPlacement, PromptSpec};
use crate::rope_text::{char_of_byte, is_char_boundary, rope_byte_slice_string};
use crate::search::{
    next_match_index, prev_match_index, query_compiles, range_pairs, refreshed_current, refreshed_pairs,
    refreshed_version, replace_all_query, replace_one_query, same_query, same_state, scan_of, SearchQuery,
    SearchState,
};
use crate::selection::Selection;
use crate::text::{byte_at, byte_len, chars_to_string, decimal_digits, push_decimal, str_chars, str_eq};

verus! {

/// Prompt id of the search field.
pub const SEARCH_PROMPT_ID: &'static str = "search";
/// Prompt id of the replace field.
pub const REPLACE_PROMPT_ID: &'static str = "replace";

/// A stock hook connecting the search engine to the shared prompt.
///
/// Keymap: `Ctrl+F` opens search (a selection becomes the query); typing
/// refreshes matches live; `Enter` / `F3` / `Down` go to the next match and
/// `Shift+F3` / `Up` to the previous; `Alt+Up` / `Alt+Down` walk the input
/// history; `Alt+C` / `Alt+W` / `Alt+H` flip Match Case / Whole Word /
/// Highlight All (also while active with the prompt closed); `Ctrl+H` opens
/// the replace field, whose `Enter` stores the replacement and returns to
/// the search field; `Ctrl+Enter` replaces the current match and advances;
/// `Alt+A` replaces all matches in one undo step; `Escape` closes. Keys
/// pass through untouched while the prompt is closed.
#[derive(Debug, Clone)]
pub struct SearchHook {
    state: SearchState,
    query_text: String,
    replacement: String,
    replace_mode: bool,
    prompt_is_replace: bool,
    active: bool,
    status_cache: String,
    case_sensitive: bool,
    whole_word: bool,
    highlight_all: bool,
}

/// The flag block of the status line: `[Aa|aa] [W|w] [H|h]`.
pub open spec fn status_flags(case_sensitive: bool, whole_word: bool, highlight_all: bool) -> Seq<char> {
    seq!['['] + (if case_sensitive {
        seq!['A', 'a']
    } else {
        seq!['a', 'a']
    }) + seq![']', ' ', '['] + (if whole_word {
        seq!['W']
    } else {
        seq!['w']
    }) + seq![']', ' ', '['] + (if highlight_all {
        seq!['H']
    } else {
        seq!['h']
    }) + seq![']']
}

/// The status line: mode, match position or count, flags.
pub open spec fn status_line(
    replace_mode: bool,
    count: nat,
    current: Option<usize>,
    flags: Seq<char>,
) -> Seq<char> {
    let scope = if replace_mode {
        seq!['R', 'E', 'P', 'L', 'A', 'C', 'E']
    } else {
        seq!['S', 'E', 'A', 'R', 'C', 'H']
    };
    if count == 0 {
        scope + seq![' ', '\u{2014}', ' ', 'n', 'o', ' ', 'm', 'a', 't', 'c', 'h', 'e', 's', ' ']
            + flags
    } else {
        match current {
            Some(i) => scope + seq![' '] + decimal_digits((i + 1) as nat) + seq!['/'] + decimal_digits(count)
                + seq![' '] + flags,
            None => scope + seq![' ', '\u{2014}', ' '] + decimal_digits(count) + seq![
                ' ',
                'm',
                'a',
                't',
                'c',
                'h',
                'e',
                's',
                ' ',
            ] + flags,
        }
    }
}

fn push_chars(out: &mut Vec<char>, s: &str)
    ensures
        final(out)@ == old(out)@ + s@,
{
    let v = str_chars(s);
    crate::text::push_all(out, &v);
}

/// The search field's prompt.
pub open spec fn search_spec_view(sp: PromptSpec) -> bool {
    sp.id@ == SEARCH_PROMPT_ID@ && sp.prefix@ == "/"@ && sp.placeholder@ == "Find in page"@
        && sp.placement == PromptPlacement::BottomBar && sp.live_update
}

/// The replace field's prompt.
pub open spec fn replace_spec_view(sp: PromptSpec) -> bool {
    sp.id@ == REPLACE_PROMPT_ID@ && sp.prefix@ == "Replace"@ && sp.placeholder@ == "Replace with"@
        && sp.placement == PromptPlacement::BottomBar && !sp.live_update
}

/// The search field's prompt spec.
pub fn search_spec() -> (sp: PromptSpec)
    ensures
        search_spec_view(sp),
{
    PromptSpec::new(SEARCH_PROMPT_ID, "/", "Find in page", PromptPlacement::BottomBar, true)
}

/// The replace field's prompt spec.
pub fn replace_spec() -> (sp: PromptSpec)
    ensures
        replace_spec_view(sp),
{
    PromptSpec::new(REPLACE_PROMPT_ID, "Replace", "Replace with", PromptPlacement::BottomBar, false)
}

/// The query a search state holds after a rescan of `text` with the given
/// toggles: a literal query with that pattern and those flags.
pub open spec fn holds_query(s: SearchState, text: Seq<char>, cs: bool, ww: bool) -> bool {
    s.query_view() matches Some(q) && q.pattern@ == text && q.case_sensitive == cs && q.whole_word
        == ww && !q.is_regex
}

/// A rescan of `text` with the toggles, against text `t` at version `v`:
/// an empty text empties the state; otherwise the query is set (which
/// clears the cache) and the cache refreshed.
pub open spec fn rescanned(
    s1: SearchState,
    text: Seq<char>,
    cs: bool,
    ww: bool,
    t: Seq<char>,
    v: nat,
) -> bool {
    if text.len() == 0 {
        s1.query_view().is_none() && s1.matches_view().len() == 0 && s1.current_view().is_none()
    } else {
        &&& holds_query(s1, text, cs, ww)
        &&& ({
            let q = s1.query_view()->0;
            if usize::MAX != v && query_compiles(q) {
                &&& range_pairs(s1.matches_view()) == scan_of(q, t)
                &&& s1.version_view() == v
                &&& s1.current_view().is_none()
            } else {
                &&& s1.matches_view().len() == 0
                &&& s1.current_view().is_none()
                &&& s1.version_view() == usize::MAX
            }
        })
    }
}

/// The byte offset a navigation starts from: past the current match when
/// it starts exactly at `from`.
pub open spec fn nav_from(s: SearchState, from: nat) -> nat {
    if s.current_view() matches Some(i) && i < s.matches_view().len() && s.matches_view()[i as int].start
        == from {
        from + 1
    } else {
        from
    }
}

/// Moving to the next (`forward`) or previous match from `from`, after a
/// refresh against text `t` at version `v`; `found` is the match selected.
pub open spec fn navigated(
    s0: SearchState,
    s1: SearchState,
    t: Seq<char>,
    v: nat,
    from: nat,
    wrap: bool,
    forward: bool,
    found: Option<(nat, nat)>,
) -> bool {
    match refreshed_pairs(s0, t, v) {
        Some(ms) => {
            let f = min_nat(from, byte_len(t));
            let k = if forward {
                next_match_index(ms, f, wrap)
            } else {
                prev_match_index(ms, f, wrap)
            };
            &&& range_pairs(s1.matches_view()) == ms
            &&& s1.version_view() == refreshed_version(s0, v)
            &&& s1.query_view() == s0.query_view()
            &&& match k {
                Some(j) => found == Some(ms[j as int]) && s1.current_view() == Some(j as usize),
                None => found.is_none() && s1.current_view() == if ms.len() == 0 {
                    None
                } else {
                    refreshed_current(s0, t, v)
                },
            }
        },
        None => same_state(s1, s0) && found.is_none(),
    }
}

/// What a key does to the search hook.
#[derive(Debug, Clone, Copy, PartialEq, Eq, Structural)]
pub enum SearchKeyCommand {
    /// Move the prompt to the search field.
    FocusSearch,
    /// Switch between the search and replace fields.
    SwitchField,
    /// Replace the current match and advance.
    ReplaceCurrent,
    /// Replace every match.
    ReplaceAll,
    /// Flip Match Case.
    ToggleCase,
    /// Flip Whole Word.
    ToggleWord,
    /// Flip Highlight All.
    ToggleHighlight,
    /// Step back in the input history.
    HistoryPrev,
    /// Step forward in the input history.
    HistoryNext,
    /// Select the previous match.
    NavigatePrev,
    /// Select the next match.
    NavigateNext,
    /// Turn replace mode on or off.
    ToggleReplace,
    /// Hand the key to the prompt.
    PromptInput,
    /// Open the search field.
    OpenSearch,
    /// Open the replace field.
    OpenReplace,
    /// Not a search key: pass it through.
    Ignore,
}

/// Only `ctrl` among Ctrl, Alt and Meta is held.
pub open spec fn ctrl_only(m: Modifiers) -> bool {
    m.ctrl && !m.alt && !m.meta
}

/// Only `alt` among Ctrl, Alt and Meta is held.
pub open spec fn alt_only(m: Modifiers) -> bool {
    m.alt && !m.ctrl && !m.meta
}

/// None of Ctrl, Alt and Meta is held.
pub open spec fn no_command_mods(m: Modifiers) -> bool {
    !m.ctrl && !m.alt && !m.meta
}

/// The command a key maps to, given whether the hook owns the open prompt,
/// whether any prompt is open, whether the hook is active, whether replace
/// mode is on and whether the query text is empty. `lower` is the key
/// lowercased.
pub open spec fn search_key_command(
    owns: bool,
    open: bool,
    active: bool,
    replace_mode: bool,
    query_empty: bool,
    key: Seq<char>,
    lower: Seq<char>,
    m: Modifiers,
) -> SearchKeyCommand {
    if owns {
        if lower == "f"@ && ctrl_only(m) {
            SearchKeyCommand::FocusSearch
        } else if key == "tab"@ && no_command_mods(m) && replace_mode {
            SearchKeyCommand::SwitchField
        } else if key == "enter"@ && ctrl_only(m) {
            SearchKeyCommand::ReplaceCurrent
        } else if lower == "a"@ && alt_only(m) {
            SearchKeyCommand::ReplaceAll
        } else if lower == "c"@ && alt_only(m) {
            SearchKeyCommand::ToggleCase
        } else if lower == "w"@ && alt_only(m) {
            SearchKeyCommand::ToggleWord
        } else if lower == "h"@ && alt_only(m) {
            SearchKeyCommand::ToggleHighlight
        } else if (key == "arrowup"@ || key == "up"@) && !m.ctrl && !m.meta {
            if m.alt {
                SearchKeyCommand::HistoryPrev
            } else {
                SearchKeyCommand::NavigatePrev
            }
        } else if (key == "arrowdown"@ || key == "down"@) && !m.ctrl && !m.meta {
            if m.alt {
                SearchKeyCommand::HistoryNext
            } else {
                SearchKeyCommand::NavigateNext
            }
        } else if lower == "h"@ && ctrl_only(m) {
            SearchKeyCommand::ToggleReplace
        } else if key == "f3"@ && no_command_mods(m) {
            if m.shift {
                SearchKeyCommand::NavigatePrev
            } else {
                SearchKeyCommand::NavigateNext
            }
        } else {
            SearchKeyCommand::PromptInput
        }
    } else if !open {
        if lower == "f"@ && ctrl_only(m) {
            SearchKeyCommand::OpenSearch
        } else if lower == "h"@ && ctrl_only(m) {
            SearchKeyCommand::OpenReplace
        } else if lower == "c"@ && alt_only(m) && active {
            SearchKeyCommand::ToggleCase
        } else if lower == "w"@ && alt_only(m) && active {
            SearchKeyCommand::ToggleWord
        } else if lower == "h"@ && alt_only(m) && active {
            SearchKeyCommand::ToggleHighlight
        } else if key == "f3"@ && no_command_mods(m) && active && !query_empty {
            if m.shift {
                SearchKeyCommand::NavigatePrev
            } else {
                SearchKeyCommand::NavigateNext
            }
        } else {
            SearchKeyCommand::Ignore
        }
    } else {
        SearchKeyCommand::Ignore
    }
}

fn seq_is(v: &Vec<char>, s: &str) -> (b: bool)
    ensures
        b == (v@ == s@),
{
    let vs = chars_to_string(v);
    str_eq(vs.as_str(), s)
}

/// Maps a key to its search command (see [`search_key_command`]).
pub fn classify_search_key(
    owns: bool,
    open: bool,
    active: bool,
    replace_mode: bool,
    query_empty: bool,
    event: &KeyEvent,
) -> (c: SearchKeyCommand)
    ensures
        c == search_key_command(
            owns,
            open,
            active,
            replace_mode,
            query_empty,
            event.key@,
            crate::prompt::lowercase(event.key@),
            event.modifiers,
        ),
{
    let lower = to_lowercase(event.key.as_str());
    let key = event.key.as_str();
    let m = event.modifiers;
    let ctrl_only = m.ctrl && !m.alt && !m.meta;
    let alt_only = m.alt && !m.ctrl && !m.meta;
    let no_mods = !m.ctrl && !m.alt && !m.meta;
    if owns {
        if seq_is(&lower, "f") && ctrl_only {
            SearchKeyCommand::FocusSearch
        } else if str_eq(key, "tab") && no_mods && replace_mode {
            SearchKeyCommand::SwitchField
        } else if str_eq(key, "enter") && ctrl_only {
            SearchKeyCommand::ReplaceCurrent
        } else if seq_is(&lower, "a") && alt_only {
            SearchKeyCommand::ReplaceAll
        } else if seq_is(&lower, "c") && alt_only {
            SearchKeyCommand::ToggleCase
        } else if seq_is(&lower, "w") && alt_only {
            SearchKeyCommand::ToggleWord
        } else if seq_is(&lower, "h") && alt_only {
            SearchKeyCommand::ToggleHighlight
        } else if (str_eq(key, "arrowup") || str_eq(key, "up")) && !m.ctrl && !m.meta {
            if m.alt {
                SearchKeyCommand::HistoryPrev
            } else {
                SearchKeyCommand::NavigatePrev
            }
        } else if (str_eq(key, "arrowdown") || str_eq(key, "down")) && !m.ctrl && !m.meta {
            if m.alt {
                SearchKeyCommand::HistoryNext
            } else {
                SearchKeyCommand::NavigateNext
            }
        } else if seq_is(&lower, "h") && ctrl_only {
            SearchKeyCommand::ToggleReplace
        } else if str_eq(key, "f3") && no_mods {
            if m.shift {
                SearchKeyCommand::NavigatePrev
            } else {
                SearchKeyCommand::NavigateNext
            }
        } else {
            SearchKeyCommand::PromptInput
        }
    } else if !open {
        if seq_is(&lower, "f") && ctrl_only {
            SearchKeyCommand::OpenSearch
        } else if seq_is(&lower, "h") && ctrl_only {
            SearchKeyCommand::OpenReplace
        } else if seq_is(&lower, "c") && alt_only && active {
            SearchKeyCommand::ToggleCase
        } else if seq_is(&lower, "w") && alt_only && active {
            SearchKeyCommand::ToggleWord
        } else if seq_is(&lower, "h") && alt_only && active {
            SearchKeyCommand::ToggleHighlight
        } else if str_eq(key, "f3") && no_mods && active && !query_empty {
            if m.shift {
                SearchKeyCommand::NavigatePrev
            } else {
                SearchKeyCommand::NavigateNext
            }
        } else {
            SearchKeyCommand::Ignore
        }
    } else {
        SearchKeyCommand::Ignore
    }
}

/// A read-only picture of the search for a frontend.
#[derive(Debug, Clone, PartialEq, Eq)]
pub struct SearchSnapshot {
    /// Whether the search is active.
    pub active: bool,
    /// Whether matching is case-sensitive.
    pub case_sensitive: bool,
    /// Whether matches must span whole words.
    pub whole_word: bool,
    /// Whether every match is highlighted.
    pub highlight_all: bool,
    /// The cached match ranges.
    pub matches: Vec<Range<usize>>,
    /// Index of the current match.
    pub current: Option<usize>,
    /// Whether replace mode is on.
    pub replace_mode: bool,
    /// Whether the open prompt is the replace field.
    pub is_replace_prompt: bool,
    /// The query text.
    pub query: String,
    /// The replacement text.
    pub replacement: String,
}

/// The hook's prompt is open: the search or the replace field.
pub open spec fn owns_prompt(sp: Option<PromptSpec>) -> bool {
    sp matches Some(x) && (x.id@ == SEARCH_PROMPT_ID@ || x.id@ == REPLACE_PROMPT_ID@)
}

/// The other parts of a hook context stay as they were.
pub open spec fn ctx_rest_same(a: HookContext, b: HookContext) -> bool {
    *a.cursor_style == *b.cursor_style && *a.effects == *b.effects
}

/// The match a navigation selects, after a refresh against text `t` at
/// version `v`.
pub open spec fn nav_target(
    s0: SearchState,
    t: Seq<char>,
    v: nat,
    from: nat,
    wrap: bool,
    forward: bool,
) -> Option<(nat, nat)> {
    match refreshed_pairs(s0, t, v) {
        Some(ms) => {
            let f = min_nat(from, byte_len(t));
            let k = if forward {
                next_match_index(ms, f, wrap)
            } else {
                prev_match_index(ms, f, wrap)
            };
            match k {
                Some(j) => Some(ms[j as int]),
                None => None,
            }
        },
        None => None,
    }
}

/// A navigation's effect on the buffer and the selection: a found match
/// moves the cursor to its start and selects it; otherwise nothing changes.
pub open spec fn nav_applied(
    b0: EditorBuffer,
    b1: EditorBuffer,
    s0: Option<Selection>,
    s1: Option<Selection>,
    target: Option<(nat, nat)>,
) -> bool {
    match target {
        Some(m) => {
            let t = b0.text_view();
            &&& b1.text_view() == t
            &&& b1.cursor_view() == byte_at(t, char_of_byte(t, min_nat(m.0, byte_len(t))) as int)
            &&& b1.undo_view() == b0.undo_view()
            &&& b1.redo_view() == b0.redo_view()
            &&& b1.version_view() == b0.version_view()
            &&& s1 == Some(Selection::range_spec(m.0 as usize, m.1 as usize))
        },
        None => b1 == b0 && s1 == s0,
    }
}

impl SearchHook {
    /// The hook's match cache.
    pub closed spec fn state_view(&self) -> SearchState {
        self.state
    }

    /// The status line last rendered.
    pub closed spec fn status_view(&self) -> Seq<char> {
        self.status_cache@
    }

    /// The toggles, in order: case-sensitive, whole word, highlight all.
    pub closed spec fn flags_view(&self) -> (bool, bool, bool) {
        (self.case_sensitive, self.whole_word, self.highlight_all)
    }

    /// Mode flags, in order: active, replace mode, replace prompt.
    pub closed spec fn mode_view(&self) -> (bool, bool, bool) {
        (self.active, self.replace_mode, self.prompt_is_replace)
    }

    /// Stored texts, in order: query, replacement.
    pub closed spec fn texts_view(&self) -> (Seq<char>, Seq<char>) {
        (self.query_text@, self.replacement@)
    }

    /// The status line for the current mode, matches and toggles.
    pub open spec fn fresh_status(&self) -> Seq<char> {
        status_line(
            self.mode_view().1,
            self.state_view().matches_view().len(),
            self.state_view().current_view(),
            status_flags(self.flags_view().0, self.flags_view().1, self.flags_view().2),
        )
    }

    /// Creates an idle hook: case-sensitive, whole word off, highlight all
    /// on, status `SEARCH`.
    pub fn new() -> (h: Self)
        ensures
            h.flags_view() == (true, false, true),
            h.mode_view() == (false, false, false),
            h.texts_view().0.len() == 0,
            h.texts_view().1.len() == 0,
            h.state_view().matches_view().len() == 0,
            h.state_view().current_view().is_none(),
            h.state_view().query_view().is_none(),
            h.status_view() == seq!['S', 'E', 'A', 'R', 'C', 'H'],
    {
        let mut status: Vec<char> = Vec::new();
        status.push('S');
        status.push('E');
        status.push('A');
        status.push('R');
        status.push('C');
        status.push('H');
        SearchHook {
            state: SearchState::new(),
            query_text: String::new(),
            replacement: String::new(),
            replace_mode: false,
            prompt_is_replace: false,
            active: false,
            status_cache: chars_to_string(&status),
            case_sensitive: true,
            whole_word: false,
            highlight_all: true,
        }
    }

    /// Whether the hook currently owns the open prompt.
    pub fn is_active(&self) -> (b: bool)
        ensures
            b == self.mode_view().0,
    {
        self.active
    }

    /// Number of matches for the current query.
    pub fn match_count(&self) -> (n: usize)
        ensures
            n == self.state_view().matches_view().len(),
    {
        self.state.match_count()
    }

    /// The current match range, if navigation has occurred.
    pub fn current_match(&self) -> (m: Option<Range<usize>>)
        ensures
            match self.state_view().current_view() {
                Some(i) => if i < self.state_view().matches_view().len() {
                    m matches Some(r) && r == self.state_view().matches_view()[i as int]
                } else {
                    m.is_none()
                },
                None => m.is_none(),
            },
    {
        self.state.current_match()
    }

    /// The last query text.
    pub fn query_text(&self) -> (s: &str)
        ensures
            s@ == self.texts_view().0,
    {
        self.query_text.as_str()
    }

    /// The stored replacement text.
    pub fn replacement(&self) -> (s: &str)
        ensures
            s@ == self.texts_view().1,
    {
        self.replacement.as_str()
    }

    /// Whether matching is case-sensitive.
    pub fn case_sensitive(&self) -> (b: bool)
        ensures
            b == self.flags_view().0,
    {
        self.case_sensitive
    }

    /// Whether matches must span whole words.
    pub fn whole_word(&self) -> (b: bool)
        ensures
            b == self.flags_view().1,
    {
        self.whole_word
    }

    /// Whether every match is highlighted (rather than only the current one).
    pub fn highlight_all(&self) -> (b: bool)
        ensures
            b == self.flags_view().2,
    {
        self.highlight_all
    }

    /// Whether replace mode is active.
    pub fn is_replace_mode(&self) -> (b: bool)
        ensures
            b == self.mode_view().1,
    {
        self.replace_mode
    }

    /// Whether the open prompt is the replace field.
    pub fn is_replace_prompt(&self) -> (b: bool)
        ensures
            b == self.mode_view().2,
    {
        self.prompt_is_replace
    }

    /// The query the text and toggles describe (never a regex); `None`
    /// when the query text is empty.
    pub fn build_query(&self) -> (q: Option<SearchQuery>)
        ensures
            self.texts_view().0.len() == 0 ==> q.is_none(),
            self.texts_view().0.len() > 0 ==> (q matches Some(x) && x.pattern@ == self.texts_view().0
                && x.case_sensitive == self.flags_view().0 && x.whole_word == self.flags_view().1
                && !x.is_regex),
    {
        if self.query_text.as_str().is_empty() {
            return None;
        }
        Some(SearchQuery::new(self.query_text.as_str(), self.case_sensitive, self.whole_word, false))
    }

    fn update_status(&mut self)
        ensures
            final(self).flags_view() == old(self).flags_view(),
            final(self).mode_view() == old(self).mode_view(),
            final(self).texts_view() == old(self).texts_view(),
            final(self).state_view() == old(self).state_view(),
            final(self).status_view() == final(self).fresh_status(),
    {
        proof {
            use_type_invariant(&self.state);
        }
        let flags = render_flags(self.case_sensitive, self.whole_word, self.highlight_all);
        let out = render_status(
            self.replace_mode,
            self.state.match_count(),
            self.state.current_index(),
            &flags,
        );
        self.status_cache = chars_to_string(&out);
    }

    /// Re-scans the stored query text with the current toggles.
    fn rescan(&mut self, buffer: &EditorBuffer)
        ensures
            final(self).flags_view() == old(self).flags_view(),
            final(self).mode_view() == old(self).mode_view(),
            final(self).texts_view() == old(self).texts_view(),
            rescanned(
                final(self).state_view(),
                old(self).texts_view().0,
                old(self).flags_view().0,
                old(self).flags_view().1,
                buffer.text_view(),
                buffer.version_view(),
            ),
            final(self).status_view() == final(self).fresh_status(),
    {
        if self.query_text.as_str().is_empty() {
            self.state = SearchState::new();
        } else {
            let q = SearchQuery::new(self.query_text.as_str(), self.case_sensitive, self.whole_word, false);
            self.state.set_query(q);
            proof {
                let ms = self.state.matches_view();
                if ms.len() == 0 {
                    assert(range_pairs(ms) =~= Seq::<(nat, nat)>::empty());
                }
            }
            let _ = self.state.refresh(buffer);
        }
        self.update_status();
    }

    /// Flips Match Case and re-scans.
    pub fn toggle_case(&mut self, ctx: &mut HookContext)
        ensures
            final(self).flags_view() == (
                !old(self).flags_view().0,
                old(self).flags_view().1,
                old(self).flags_view().2,
            ),
            final(self).mode_view() == old(self).mode_view(),
            final(self).texts_view() == old(self).texts_view(),
            rescanned(
                final(self).state_view(),
                old(self).texts_view().0,
                !old(self).flags_view().0,
                old(self).flags_view().1,
                old(ctx).buffer.text_view(),
                old(ctx).buffer.version_view(),
            ),
            final(self).status_view() == final(self).fresh_status(),
            *final(ctx).buffer == *old(ctx).buffer,
            *final(ctx).selection == *old(ctx).selection,
            *final(ctx).prompt == *old(ctx).prompt,
            ctx_rest_same(*final(ctx), *old(ctx)),
    {
        self.case_sensitive = !self.case_sensitive;
        self.rescan(ctx.buffer);
    }

    /// Flips Whole Word and re-scans.
    pub fn toggle_word(&mut self, ctx: &mut HookContext)
        ensures
            final(self).flags_view() == (
                old(self).flags_view().0,
                !old(self).flags_view().1,
                old(self).flags_view().2,
            ),
            final(self).mode_view() == old(self).mode_view(),
            final(self).texts_view() == old(self).texts_view(),
            rescanned(
                final(self).state_view(),
                old(self).texts_view().0,
                old(self).flags_view().0,
                !old(self).flags_view().1,
                old(ctx).buffer.text_view(),
                old(ctx).buffer.version_view(),
            ),
            final(self).status_view() == final(self).fresh_status(),
            *final(ctx).buffer == *old(ctx).buffer,
            *final(ctx).selection == *old(ctx).selection,
            *final(ctx).prompt == *old(ctx).prompt,
            ctx_rest_same(*final(ctx), *old(ctx)),
    {
        self.whole_word = !self.whole_word;
        self.rescan(ctx.buffer);
    }

    /// Flips the highlight-all wash and refreshes the status line.
    pub fn toggle_highlight(&mut self)
        ensures
            final(self).flags_view() == (
                old(self).flags_view().0,
                old(self).flags_view().1,
                !old(self).flags_view().2,
            ),
            final(self).mode_view() == old(self).mode_view(),
            final(self).texts_view() == old(self).texts_view(),
            final(self).state_view() == old(self).state_view(),
            final(self).status_view() == final(self).fresh_status(),
    {
        self.highlight_all = !self.highlight_all;
        self.update_status();
    }

    /// Re-scans from the prompt input with the current toggles.
    fn refresh_from_input(&mut self, ctx: &mut HookContext)
        ensures
            final(self).flags_view() == old(self).flags_view(),
            final(self).mode_view() == old(self).mode_view(),
            final(self).texts_view() == (old(ctx).prompt@.input, old(self).texts_view().1),
            rescanned(
                final(self).state_view(),
                old(ctx).prompt@.input,
                old(self).flags_view().0,
                old(self).flags_view().1,
                old(ctx).buffer.text_view(),
                old(ctx).buffer.version_view(),
            ),
            final(self).status_view() == final(self).fresh_status(),
            *final(ctx).buffer == *old(ctx).buffer,
            *final(ctx).selection == *old(ctx).selection,
            *final(ctx).prompt == *old(ctx).prompt,
            ctx_rest_same(*final(ctx), *old(ctx)),
    {
        self.query_text = ctx.prompt.input();
        self.rescan(ctx.buffer);
    }

    /// Opens the search prompt with `initial` as the query and re-scans.
    pub fn open_search(&mut self, ctx: &mut HookContext, initial: &str)
        requires
            old(ctx).prompt.wf(),
        ensures
            final(ctx).prompt.wf(),
            final(ctx).prompt@.spec matches Some(sp) && search_spec_view(sp) && final(ctx).prompt@
                == crate::prompt::spec_open(old(ctx).prompt@, sp, initial@),
            final(self).flags_view() == old(self).flags_view(),
            final(self).mode_view() == (true, old(self).mode_view().1, false),
            final(self).texts_view() == (initial@, old(self).texts_view().1),
            rescanned(
                final(self).state_view(),
                initial@,
                old(self).flags_view().0,
                old(self).flags_view().1,
                old(ctx).buffer.text_view(),
                old(ctx).buffer.version_view(),
            ),
            final(self).status_view() == final(self).fresh_status(),
            *final(ctx).buffer == *old(ctx).buffer,
            *final(ctx).selection == *old(ctx).selection,
            ctx_rest_same(*final(ctx), *old(ctx)),
    {
        ctx.prompt.open(search_spec(), initial);
        self.query_text = initial.to_owned();
        self.active = true;
        self.prompt_is_replace = false;
        self.refresh_from_input(ctx);
    }

    /// Opens the replace prompt with the stored replacement, stashing the
    /// search field's input as the query.
    pub fn open_replace(&mut self, ctx: &mut HookContext)
        requires
            old(ctx).prompt.wf(),
        ensures
            final(ctx).prompt.wf(),
            final(ctx).prompt@.spec matches Some(sp) && replace_spec_view(sp) && final(ctx).prompt@
                == crate::prompt::spec_open(old(ctx).prompt@, sp, old(self).texts_view().1),
            final(self).flags_view() == old(self).flags_view(),
            final(self).mode_view() == (true, true, true),
            final(self).texts_view() == (
                if old(ctx).prompt@.spec matches Some(sp) && sp.id@ == SEARCH_PROMPT_ID@ {
                    old(ctx).prompt@.input
                } else {
                    old(self).texts_view().0
                },
                old(self).texts_view().1,
            ),
            final(self).state_view() == old(self).state_view(),
            final(self).status_view() == old(self).status_view(),
            *final(ctx).buffer == *old(ctx).buffer,
            *final(ctx).selection == *old(ctx).selection,
            ctx_rest_same(*final(ctx), *old(ctx)),
    {
        let is_search = match ctx.prompt.spec() {
            Some(sp) => str_eq(sp.id, SEARCH_PROMPT_ID),
            None => false,
        };
        if is_search {
            self.query_text = ctx.prompt.input();
        }
        let replacement = self.replacement.clone();
        ctx.prompt.open(replace_spec(), replacement.as_str());
        self.active = true;
        self.replace_mode = true;
        self.prompt_is_replace = true;
    }

    /// Closes the hook's prompt and leaves replace mode.
    pub fn close(&mut self, ctx: &mut HookContext)
        requires
            old(ctx).prompt.wf(),
        ensures
            final(ctx).prompt.wf(),
            final(ctx).prompt@ == crate::prompt::spec_close(old(ctx).prompt@),
            final(self).flags_view() == old(self).flags_view(),
            final(self).mode_view() == (false, false, false),
            final(self).texts_view() == old(self).texts_view(),
            final(self).state_view() == old(self).state_view(),
            final(self).status_view() == final(self).fresh_status(),
            *final(ctx).buffer == *old(ctx).buffer,
            *final(ctx).selection == *old(ctx).selection,
            ctx_rest_same(*final(ctx), *old(ctx)),
    {
        ctx.prompt.close();
        self.active = false;
        self.replace_mode = false;
        self.prompt_is_replace = false;
        self.update_status();
    }

    /// Moves the prompt to the search field (from the replace field),
    /// storing the replace field's input as the replacement.
    pub fn focus_search(&mut self, ctx: &mut HookContext)
        requires
            old(ctx).prompt.wf(),
        ensures
            final(ctx).prompt.wf(),
            *final(ctx).buffer == *old(ctx).buffer,
            *final(ctx).selection == *old(ctx).selection,
            ctx_rest_same(*final(ctx), *old(ctx)),
            final(self).flags_view() == old(self).flags_view(),
            !old(self).mode_view().2 ==> final(self).mode_view() == old(self).mode_view()
                && final(self).texts_view() == old(self).texts_view() && final(self).state_view()
                == old(self).state_view() && final(self).status_view() == old(self).status_view()
                && *final(ctx).prompt == *old(ctx).prompt,
            old(self).mode_view().2 ==> ({
                &&& final(ctx).prompt@.spec matches Some(sp) && search_spec_view(sp)
                    && final(ctx).prompt@ == crate::prompt::spec_open(
                    old(ctx).prompt@,
                    sp,
                    old(self).texts_view().0,
                )
                &&& final(self).mode_view() == (old(self).mode_view().0, old(self).mode_view().1, false)
                &&& final(self).texts_view() == (old(self).texts_view().0, old(ctx).prompt@.input)
                &&& rescanned(
                    final(self).state_view(),
                    old(self).texts_view().0,
                    old(self).flags_view().0,
                    old(self).flags_view().1,
                    old(ctx).buffer.text_view(),
                    old(ctx).buffer.version_view(),
                )
                &&& final(self).status_view() == final(self).fresh_status()
            }),
    {
        if self.prompt_is_replace {
            self.replacement = ctx.prompt.input();
            let query = self.query_text.clone();
            ctx.prompt.open(search_spec(), query.as_str());
            self.prompt_is_replace = false;
            self.refresh_from_input(ctx);
        }
    }

    /// Moves the prompt to the replace field (from the search field).
    pub fn focus_replace(&mut self, ctx: &mut HookContext)
        requires
            old(ctx).prompt.wf(),
        ensures
            final(ctx).prompt.wf(),
            *final(ctx).buffer == *old(ctx).buffer,
            *final(ctx).selection == *old(ctx).selection,
            ctx_rest_same(*final(ctx), *old(ctx)),
            final(self).flags_view() == old(self).flags_view(),
            final(self).state_view() == old(self).state_view(),
            final(self).status_view() == old(self).status_view(),
            old(self).mode_view().2 ==> final(self).mode_view() == old(self).mode_view()
                && final(self).texts_view() == old(self).texts_view() && *final(ctx).prompt
                == *old(ctx).prompt,
            !old(self).mode_view().2 ==> final(self).mode_view() == (true, true, true)
                && (final(ctx).prompt@.spec matches Some(sp) && replace_spec_view(sp)),
    {
        if !self.prompt_is_replace {
            self.open_replace(ctx);
        }
    }

    /// Turns replace mode off (moving to the search field if the replace
    /// field is open) or on (opening the replace field).
    pub fn toggle_replace(&mut self, ctx: &mut HookContext)
        requires
            old(ctx).prompt.wf(),
        ensures
            final(ctx).prompt.wf(),
            *final(ctx).buffer == *old(ctx).buffer,
            *final(ctx).selection == *old(ctx).selection,
            ctx_rest_same(*final(ctx), *old(ctx)),
            final(self).flags_view() == old(self).flags_view(),
            final(self).mode_view().1 == !old(self).mode_view().1,
            !old(self).mode_view().1 ==> final(self).mode_view() == (true, true, true)
                && (final(ctx).prompt@.spec matches Some(sp) && replace_spec_view(sp)),
            old(self).mode_view().1 && !old(self).mode_view().2 ==> final(self).mode_view() == (
                old(self).mode_view().0,
                false,
                false,
            ) && final(self).texts_view() == old(self).texts_view() && *final(ctx).prompt
                == *old(ctx).prompt && final(self).state_view() == old(self).state_view(),
            old(self).mode_view().1 && old(self).mode_view().2 ==> final(self).mode_view() == (
                old(self).mode_view().0,
                false,
                false,
            ) && final(self).texts_view() == (old(self).texts_view().0, old(ctx).prompt@.input)
                && (final(ctx).prompt@.spec matches Some(sp) && search_spec_view(sp)),
    {
        if self.replace_mode {
            self.replace_mode = false;
            if self.prompt_is_replace {
                self.focus_search(ctx);
            }
        } else {
            self.open_replace(ctx);
        }
    }

    /// Selects the next match at or after the cursor (see
    /// [`Self::navigate_next_from`]).
    pub fn navigate_next(&mut self, ctx: &mut HookContext, wrap: bool) -> (found: bool)
        ensures
            ({
                let t = old(ctx).buffer.text_view();
                let v = old(ctx).buffer.version_view();
                let from = nav_from(old(self).state_view(), old(ctx).buffer.cursor_view());
                let target = nav_target(old(self).state_view(), t, v, from, wrap, true);
                &&& navigated(old(self).state_view(), final(self).state_view(), t, v, from, wrap, true, target)
                &&& found == target.is_some()
                &&& nav_applied(*old(ctx).buffer, *final(ctx).buffer, *old(ctx).selection, *final(ctx).selection, target)
            }),
            final(self).flags_view() == old(self).flags_view(),
            final(self).mode_view() == old(self).mode_view(),
            final(self).texts_view() == old(self).texts_view(),
            final(self).status_view() == final(self).fresh_status(),
            *final(ctx).prompt == *old(ctx).prompt,
            ctx_rest_same(*final(ctx), *old(ctx)),
    {
        let from = ctx.buffer.cursor_offset();
        self.navigate_next_from(ctx, from, wrap)
    }

    /// Selects the next match at or after `from`; sitting exactly on the
    /// current match's start steps past it, so repeated `Enter` / `F3`
    /// walks forward.
    pub fn navigate_next_from(&mut self, ctx: &mut HookContext, from: usize, wrap: bool) -> (found: bool)
        ensures
            ({
                let t = old(ctx).buffer.text_view();
                let v = old(ctx).buffer.version_view();
                let f = nav_from(old(self).state_view(), from as nat);
                let target = nav_target(old(self).state_view(), t, v, f, wrap, true);
                &&& navigated(old(self).state_view(), final(self).state_view(), t, v, f, wrap, true, target)
                &&& found == target.is_some()
                &&& nav_applied(*old(ctx).buffer, *final(ctx).buffer, *old(ctx).selection, *final(ctx).selection, target)
            }),
            final(self).flags_view() == old(self).flags_view(),
            final(self).mode_view() == old(self).mode_view(),
            final(self).texts_view() == old(self).texts_view(),
            final(self).status_view() == final(self).fresh_status(),
            *final(ctx).prompt == *old(ctx).prompt,
            ctx_rest_same(*final(ctx), *old(ctx)),
    {
        let len = ctx.buffer.len_bytes();
        let start_from = match self.state.current_match() {
            Some(m) => if m.start == from {
                from.saturating_add(1)
            } else {
                from
            },
            None => from,
        };
        let r = self.state.next(ctx.buffer, start_from, wrap);
        let found = match r {
            Ok(Some(m)) => {
                ctx.buffer.set_cursor_offset(m.start);
                *ctx.selection = Some(Selection::range(m.start, m.end));
                true
            },
            _ => false,
        };
        self.update_status();
        found
    }

    /// Selects the previous match before the cursor.
    pub fn navigate_prev(&mut self, ctx: &mut HookContext, wrap: bool) -> (found: bool)
        ensures
            ({
                let t = old(ctx).buffer.text_view();
                let v = old(ctx).buffer.version_view();
                let from = old(ctx).buffer.cursor_view();
                let target = nav_target(old(self).state_view(), t, v, from, wrap, false);
                &&& navigated(old(self).state_view(), final(self).state_view(), t, v, from, wrap, false, target)
                &&& found == target.is_some()
                &&& nav_applied(*old(ctx).buffer, *final(ctx).buffer, *old(ctx).selection, *final(ctx).selection, target)
            }),
            final(self).flags_view() == old(self).flags_view(),
            final(self).mode_view() == old(self).mode_view(),
            final(self).texts_view() == old(self).texts_view(),
            final(self).status_view() == final(self).fresh_status(),
            *final(ctx).prompt == *old(ctx).prompt,
            ctx_rest_same(*final(ctx), *old(ctx)),
    {
        let from = ctx.buffer.cursor_offset();
        self.navigate_prev_from(ctx, from, wrap)
    }

    /// Selects the previous match starting before `from`.
    pub fn navigate_prev_from(&mut self, ctx: &mut HookContext, from: usize, wrap: bool) -> (found: bool)
        ensures
            ({
                let t = old(ctx).buffer.text_view();
                let v = old(ctx).buffer.version_view();
                let target = nav_target(old(self).state_view(), t, v, from as nat, wrap, false);
                &&& navigated(old(self).state_view(), final(self).state_view(), t, v, from as nat, wrap, false, target)
                &&& found == target.is_some()
                &&& nav_applied(*old(ctx).buffer, *final(ctx).buffer, *old(ctx).selection, *final(ctx).selection, target)
            }),
            final(self).flags_view() == old(self).flags_view(),
            final(self).mode_view() == old(self).mode_view(),
            final(self).texts_view() == old(self).texts_view(),
            final(self).status_view() == final(self).fresh_status(),
            *final(ctx).prompt == *old(ctx).prompt,
            ctx_rest_same(*final(ctx), *old(ctx)),
    {
        let r = self.state.prev(ctx.buffer, from, wrap);
        let found = match r {
            Ok(Some(m)) => {
                ctx.buffer.set_cursor_offset(m.start);
                *ctx.selection = Some(Selection::range(m.start, m.end));
                true
            },
            _ => false,
        };
        self.update_status();
        found
    }
}

/// Index of the first pair from `i` on that contains `from`.
pub open spec fn first_containing(ps: Seq<(nat, nat)>, from: nat, i: nat) -> Option<nat>
    decreases ps.len() - i,
{
    if i >= ps.len() {
        None
    } else if ps[i as int].0 <= from <= ps[i as int].1 {
        Some(i)
    } else {
        first_containing(ps, from, i + 1)
    }
}

/// The match a replacement targets: the first containing `from`, else the
/// first starting at or after it, else the first of all.
pub open spec fn replace_target(ps: Seq<(nat, nat)>, from: nat) -> Option<(nat, nat)> {
    match first_containing(ps, from, 0) {
        Some(k) => Some(ps[k as int]),
        None => match crate::search::first_at_or_after(ps, from, 0) {
            Some(k) => Some(ps[k as int]),
            None => if ps.len() > 0 {
                Some(ps[0])
            } else {
                None
            },
        },
    }
}

/// The first match holding `from` is the one found from `i` on, when no
/// match between `i` and it holds `from`.
proof fn lemma_first_containing_is(ps: Seq<(nat, nat)>, from: nat, i: nat, k: nat)
    requires
        i <= k < ps.len(),
        ps[k as int].0 <= from <= ps[k as int].1,
        forall|j: int| i <= j < k ==> !((#[trigger] ps[j]).0 <= from <= ps[j].1),
    ensures
        first_containing(ps, from, i) == Some(k),
    decreases k - i,
{
    if i < k {
        lemma_first_containing_is(ps, from, i + 1, k);
    }
}

/// Replacing targets the match under the cursor: when some match holds
/// `from` (its start at or before it, its end at or after it), the target
/// is the first such match, whatever matches follow.
pub proof fn law_replace_targets_match_at_cursor(ps: Seq<(nat, nat)>, from: nat, k: nat)
    requires
        k < ps.len(),
        ps[k as int].0 <= from <= ps[k as int].1,
        forall|j: int| 0 <= j < k ==> !((#[trigger] ps[j]).0 <= from <= ps[j].1),
    ensures
        replace_target(ps, from) == Some(ps[k as int]),
{
    lemma_first_containing_is(ps, from, 0, k);
}

proof fn lemma_none_containing(ps: Seq<(nat, nat)>, from: nat, i: nat)
    requires
        forall|j: int| 0 <= j < ps.len() ==> !((#[trigger] ps[j]).0 <= from <= ps[j].1),
    ensures
        first_containing(ps, from, i) is None,
    decreases ps.len() - i,
{
    if i < ps.len() {
        lemma_none_containing(ps, from, i + 1);
    }
}

proof fn lemma_first_at_or_after_is(ps: Seq<(nat, nat)>, from: nat, i: nat)
    ensures
        crate::search::first_at_or_after(ps, from, i) matches Some(k) ==> i <= k < ps.len() && ps[k as int].0
            >= from && forall|j: int| i <= j < k ==> (#[trigger] ps[j]).0 < from,
        crate::search::first_at_or_after(ps, from, i) is None ==> forall|j: int| i <= j < ps.len() ==> (
        #[trigger] ps[j]).0 < from,
    decreases ps.len() - i,
{
    if i < ps.len() {
        lemma_first_at_or_after_is(ps, from, i + 1);
    }
}

/// With no match under the cursor, replacing targets the first match that
/// starts at or after the cursor, and wraps to the first match when every
/// match starts before it.
pub proof fn law_replace_target_next_or_wrap(ps: Seq<(nat, nat)>, from: nat)
    requires
        forall|j: int| 0 <= j < ps.len() ==> !((#[trigger] ps[j]).0 <= from <= ps[j].1),
    ensures
        forall|k: int|
            0 <= k < ps.len() && (#[trigger] ps[k]).0 >= from && (forall|j: int| 0 <= j < k ==> ps[j].0 < from)
                ==> replace_target(ps, from) == Some(ps[k]),
        (forall|j: int| 0 <= j < ps.len() ==> (#[trigger] ps[j]).0 < from) ==> replace_target(ps, from) == if ps.len()
            > 0 {
            Some(ps[0])
        } else {
            None
        },
{
    lemma_none_containing(ps, from, 0);
    lemma_first_at_or_after_is(ps, from, 0);
    assert forall|k: int|
        0 <= k < ps.len() && (#[trigger] ps[k]).0 >= from && (forall|j: int| 0 <= j < k ==> ps[j].0 < from)
            implies replace_target(ps, from) == Some(ps[k]) by {
        match crate::search::first_at_or_after(ps, from, 0) {
            Some(k2) => {
                if k2 < k {
                    assert(ps[k2 as int].0 < from);
                } else if k < k2 {
                    assert(ps[k].0 < from);
                }
            },
            None => {
                assert(ps[k].0 < from);
            },
        }
    }
    if forall|j: int| 0 <= j < ps.len() ==> (#[trigger] ps[j]).0 < from {
        if crate::search::first_at_or_after(ps, from, 0) is Some {
            let k2 = crate::search::first_at_or_after(ps, from, 0)->0;
            assert(ps[k2 as int].0 < from);
        }
    }
}

proof fn lemma_first_containing(ps: Seq<(nat, nat)>, from: nat, i: nat)
    ensures
        first_containing(ps, from, i) matches Some(k) ==> i <= k < ps.len(),
    decreases ps.len() - i,
{
    if i < ps.len() {
        lemma_first_containing(ps, from, i + 1);
    }
}

/// Picks the match a replacement targets (see [`replace_target`]).
#[verifier::loop_isolation(false)]
fn pick_replace_target(ms: &[Range<usize>], from: usize) -> (r: Option<Range<usize>>)
    ensures
        match replace_target(range_pairs(ms@), from as nat) {
            Some(p) => r matches Some(m) && (m.start as nat, m.end as nat) == p,
            None => r.is_none(),
        },
{
    let ghost ps = range_pairs(ms@);
    let mut i: usize = 0;
    while i < ms.len()
        invariant
            i <= ms@.len(),
            first_containing(ps, from as nat, i as nat) == first_containing(ps, from as nat, 0),
        decreases ms@.len() - i,
    {
        if ms[i].start <= from && from <= ms[i].end {
            return Some(ms[i].start..ms[i].end);
        }
        i = i + 1;
    }
    let mut j: usize = 0;
    while j < ms.len()
        invariant
            j <= ms@.len(),
            first_containing(ps, from as nat, 0) is None,
            crate::search::first_at_or_after(ps, from as nat, j as nat) == crate::search::first_at_or_after(
                ps,
                from as nat,
                0,
            ),
        decreases ms@.len() - j,
    {
        if ms[j].start >= from {
            return Some(ms[j].start..ms[j].end);
        }
        j = j + 1;
    }
    if ms.len() > 0 {
        Some(ms[0].start..ms[0].end)
    } else {
        None
    }
}

/// A query value with the given pattern and flags, literal.
pub open spec fn literal_query(q: SearchQuery, pattern: Seq<char>, cs: bool, ww: bool) -> bool {
    q.pattern@ == pattern && q.case_sensitive == cs && q.whole_word == ww && !q.is_regex
}

/// The message a replace-all reports: `Replaced <n> match` or `matches`.
pub open spec fn replaced_message(n: nat) -> Seq<char> {
    "Replaced "@ + decimal_digits(n) + " match"@ + if n == 1 {
        Seq::empty()
    } else {
        "es"@
    }
}

fn replaced_message_exec(n: usize) -> (s: String)
    ensures
        s@ == replaced_message(n as nat),
{
    let mut out: Vec<char> = Vec::new();
    push_chars(&mut out, "Replaced ");
    push_decimal(&mut out, n);
    push_chars(&mut out, " match");
    if n != 1 {
        push_chars(&mut out, "es");
    }
    proof {
        reveal_strlit("Replaced ");
        reveal_strlit(" match");
        reveal_strlit("es");
        assert(out@ =~= replaced_message(n as nat));
    }
    chars_to_string(&out)
}

impl SearchHook {
    /// Replaces the match containing the cursor (else the next match, else
    /// the first) and advances to the following match. `Ok(false)` when
    /// there is nothing to replace.
    pub fn replace_current(&mut self, ctx: &mut HookContext) -> (r: Result<bool, EditorError>)
        ensures
            final(self).flags_view() == old(self).flags_view(),
            final(self).mode_view() == old(self).mode_view(),
            final(self).texts_view().0 == old(self).texts_view().0,
            final(self).texts_view().1 == if old(ctx).prompt@.spec matches Some(sp) && sp.id@
                == REPLACE_PROMPT_ID@ {
                old(ctx).prompt@.input
            } else {
                old(self).texts_view().1
            },
            *final(ctx).prompt == *old(ctx).prompt,
            ctx_rest_same(*final(ctx), *old(ctx)),
            old(self).texts_view().0.len() == 0 ==> (r matches Ok(false)) && *final(ctx).buffer
                == *old(ctx).buffer && *final(ctx).selection == *old(ctx).selection,
            !(r matches Ok(true)) ==> final(ctx).buffer.text_view() == old(ctx).buffer.text_view(),
            ({
                let t = old(ctx).buffer.text_view();
                let ps = match refreshed_pairs(old(self).state_view(), t, old(ctx).buffer.version_view()) {
                    Some(ms) => ms,
                    None => range_pairs(old(self).state_view().matches_view()),
                };
                let target = replace_target(ps, old(ctx).buffer.cursor_view());
                let tg: (nat, nat) = match target {
                    Some(p) => p,
                    None => (0, 0),
                };
                &&& (old(self).texts_view().0.len() > 0 && target is None ==> r matches Ok(false))
                &&& (old(self).texts_view().0.len() > 0 && target is Some && tg.0 < tg.1 && tg.1
                    <= byte_len(t) && is_char_boundary(t, tg.0) && is_char_boundary(t, tg.1)
                    ==> forall|q: SearchQuery|
                    literal_query(q, old(self).texts_view().0, old(self).flags_view().0, old(self).flags_view().1)
                        ==> ({
                        let found = crate::search::replacement_at(
                            crate::search::replacements_for(q, t, final(self).texts_view().1),
                            tg.0,
                            tg.1,
                            0,
                        );
                        &&& (!query_compiles(q) ==> r is Err)
                        &&& (query_compiles(q) && found is Some && byte_len(t) + byte_len(found->0)
                            <= usize::MAX ==> r matches Ok(true))
                    }))
                &&& (r matches Ok(true) ==> target is Some && forall|q: SearchQuery|
                    literal_query(q, old(self).texts_view().0, old(self).flags_view().0, old(self).flags_view().1)
                        ==> (crate::search::replacement_at(
                        crate::search::replacements_for(q, t, final(self).texts_view().1),
                        tg.0,
                        tg.1,
                        0,
                    ) matches Some(x) && byte_len(t) + byte_len(x) <= usize::MAX
                        && final(ctx).buffer.text_view() == crate::buffer::insert_at(
                        crate::buffer::remove_range(
                            t,
                            char_of_byte(t, tg.0),
                            char_of_byte(t, tg.1),
                        ),
                        char_of_byte(t, tg.0),
                        x,
                    )))
            }),
    {
        let is_replace = match ctx.prompt.spec() {
            Some(sp) => str_eq(sp.id, REPLACE_PROMPT_ID),
            None => false,
        };
        if is_replace {
            self.replacement = ctx.prompt.input();
        }
        if self.query_text.as_str().is_empty() {
            return Ok(false);
        }
        let _ = self.state.refresh(ctx.buffer);
        let from = ctx.buffer.cursor_offset();
        let target = match pick_replace_target(self.state.matches(), from) {
            Some(t) => t,
            None => {
                return Ok(false);
            },
        };
        let query = SearchQuery::new(self.query_text.as_str(), self.case_sensitive, self.whole_word, false);
        let replacement = self.replacement.clone();
        let ghost t = ctx.buffer.text_view();
        proof {
            assert forall|q: SearchQuery|
                literal_query(q, self.query_text@, self.case_sensitive, self.whole_word) implies
                crate::search::replacements_for(q, t, replacement@) == crate::search::replacements_for(
                    query,
                    t,
                    replacement@,
                ) && query_compiles(q) == query_compiles(query) by {
                assert(crate::search::query_source(q) == crate::search::query_source(query));
            }
        }
        match replace_one_query(ctx.buffer, &query, target, replacement.as_str()) {
            Err(e) => {
                return Err(e);
            },
            Ok(false) => {
                return Ok(false);
            },
            Ok(true) => {},
        }
        let _ = self.state.refresh(ctx.buffer);
        self.navigate_next(ctx, true);
        Ok(true)
    }

    /// Replaces all matches as one undoable transaction, reports the count
    /// in the prompt message and clears the selection. Returns the number
    /// of replacements.
    pub fn replace_all(&mut self, ctx: &mut HookContext) -> (r: Result<usize, EditorError>)
        requires
            old(ctx).prompt.wf(),
        ensures
            final(ctx).prompt.wf(),
            final(self).flags_view() == old(self).flags_view(),
            final(self).mode_view() == old(self).mode_view(),
            final(self).texts_view().0 == old(self).texts_view().0,
            final(self).texts_view().1 == if old(ctx).prompt@.spec matches Some(sp) && sp.id@
                == REPLACE_PROMPT_ID@ {
                old(ctx).prompt@.input
            } else {
                old(self).texts_view().1
            },
            ctx_rest_same(*final(ctx), *old(ctx)),
            old(self).texts_view().0.len() == 0 ==> (r matches Ok(0usize)) && *final(ctx).buffer
                == *old(ctx).buffer && *final(ctx).selection == *old(ctx).selection
                && *final(ctx).prompt == *old(ctx).prompt,
            r is Err ==> final(ctx).buffer.text_view() == old(ctx).buffer.text_view(),
            old(self).texts_view().0.len() > 0 ==> forall|q: SearchQuery|
                literal_query(q, old(self).texts_view().0, old(self).flags_view().0, old(self).flags_view().1)
                    ==> ({
                    let t = old(ctx).buffer.text_view();
                    let reps = crate::search::replacements_for(q, t, final(self).texts_view().1);
                    &&& query_compiles(q) ==> (r matches Ok(n) && n == reps.len())
                    &&& !query_compiles(q) ==> r is Err
                    &&& r is Ok ==> final(ctx).buffer.text_view() == (if reps.len() == 0 {
                        t
                    } else {
                        crate::buffer::replaced_all(t, reps)
                    })
                }),
            r matches Ok(n) ==> (old(self).texts_view().0.len() > 0 ==> *final(ctx).selection
                == None::<Selection> && final(ctx).prompt@ == (crate::prompt::PromptView {
                message: Some(replaced_message(n as nat)),
                ..old(ctx).prompt@
            }) && final(self).status_view() == final(self).fresh_status()),
    {
        let is_replace = match ctx.prompt.spec() {
            Some(sp) => str_eq(sp.id, REPLACE_PROMPT_ID),
            None => false,
        };
        if is_replace {
            self.replacement = ctx.prompt.input();
        }
        if self.query_text.as_str().is_empty() {
            return Ok(0);
        }
        let query = SearchQuery::new(self.query_text.as_str(), self.case_sensitive, self.whole_word, false);
        let replacement = self.replacement.clone();
        let ghost t = ctx.buffer.text_view();
        proof {
            assert forall|q: SearchQuery|
                literal_query(q, self.query_text@, self.case_sensitive, self.whole_word) implies
                crate::search::replacements_for(q, t, replacement@) == crate::search::replacements_for(
                    query,
                    t,
                    replacement@,
                ) && query_compiles(q) == query_compiles(query) by {
                assert(crate::search::query_source(q) == crate::search::query_source(query));
            }
        }
        let n = match replace_all_query(ctx.buffer, &query, replacement.as_str()) {
            Ok(n) => n,
            Err(e) => {
                return Err(e);
            },
        };
        let _ = self.state.refresh(ctx.buffer);
        *ctx.selection = None;
        let message = replaced_message_exec(n);
        ctx.prompt.set_message(message.as_str());
        self.update_status();
        Ok(n)
    }

    /// The initial query for `Ctrl+F`: the selected text (clamped to the
    /// document), else the last query.
    fn ctrl_f_initial(&self, buffer: &EditorBuffer, selection: Option<Selection>) -> (s: String)
        requires
            selection matches Some(sel) ==> is_char_boundary(buffer.text_view(), sel.start_spec() as nat)
                && is_char_boundary(buffer.text_view(), sel.end_spec() as nat),
        ensures
            s@ == match selection {
                Some(sel) => if sel.start_spec() < sel.end_spec() {
                    let t = buffer.text_view();
                    t.subrange(
                        char_of_byte(t, sel.start_spec() as nat) as int,
                        char_of_byte(t, sel.end_spec() as nat) as int,
                    )
                } else {
                    self.texts_view().0
                },
                None => self.texts_view().0,
            },
    {
        match selection {
            Some(sel) => {
                let range = sel.byte_range();
                if range.start < range.end {
                    let len = buffer.len_bytes();
                    proof {
                        crate::buffer::lemma_boundary(buffer.text_view(), range.start as nat);
                        crate::buffer::lemma_boundary(buffer.text_view(), range.end as nat);
                    }
                    let end = if range.end < len {
                        range.end
                    } else {
                        len
                    };
                    let start = if range.start < end {
                        range.start
                    } else {
                        end
                    };
                    return rope_byte_slice_string(buffer.text(), start, end);
                }
            },
            None => {},
        }
        self.query_text.clone()
    }

    /// A picture of the search for a frontend while the hook is active.
    pub fn search_snapshot(&self) -> (snap: Option<SearchSnapshot>)
        ensures
            !self.mode_view().0 ==> snap.is_none(),
            self.mode_view().0 ==> (snap matches Some(x) && x.active && x.case_sensitive
                == self.flags_view().0 && x.whole_word == self.flags_view().1 && x.highlight_all
                == self.flags_view().2 && x.matches@ == self.state_view().matches_view() && x.current
                == self.state_view().current_view() && x.replace_mode == self.mode_view().1
                && x.is_replace_prompt == self.mode_view().2 && x.query@ == self.texts_view().0
                && x.replacement@ == self.texts_view().1),
    {
        if !self.active {
            return None;
        }
        let ms = self.state.matches();
        let mut matches: Vec<Range<usize>> = Vec::new();
        let mut i: usize = 0;
        while i < ms.len()
            invariant
                i <= ms@.len(),
                matches@ == ms@.take(i as int),
            decreases ms@.len() - i,
        {
            matches.push(ms[i].start..ms[i].end);
            proof {
                assert(matches@ =~= ms@.take(i + 1));
            }
            i = i + 1;
        }
        proof {
            assert(ms@.take(i as int) =~= ms@);
        }
        Some(SearchSnapshot {
            active: true,
            case_sensitive: self.case_sensitive,
            whole_word: self.whole_word,
            highlight_all: self.highlight_all,
            matches,
            current: self.state.current_index(),
            replace_mode: self.replace_mode,
            is_replace_prompt: self.prompt_is_replace,
            query: self.query_text.clone(),
            replacement: self.replacement.clone(),
        })
    }
}

/// Whether the prompt spec is one of the hook's own fields.
fn owns_spec(sp: Option<&PromptSpec>) -> (b: bool)
    ensures
        b == match sp {
            Some(x) => x.id@ == SEARCH_PROMPT_ID@ || x.id@ == REPLACE_PROMPT_ID@,
            None => false,
        },
{
    match sp {
        Some(x) => str_eq(x.id, SEARCH_PROMPT_ID) || str_eq(x.id, REPLACE_PROMPT_ID),
        None => false,
    }
}

impl EditorHook for SearchHook {
    /// Routes a key through the search keymap (see [`search_key_command`]):
    /// every command consumes the key; a key that is not a search key is
    /// passed through and changes nothing.
    fn on_key(&mut self, ctx: &mut HookContext, event: &KeyEvent) -> (outcome: HookOutcome)
        ensures
            ({
                let cmd = search_key_command(
                    owns_prompt(old(ctx).prompt@.spec),
                    old(ctx).prompt@.spec is Some,
                    old(self).mode_view().0,
                    old(self).mode_view().1,
                    old(self).texts_view().0.len() == 0,
                    event.key@,
                    crate::prompt::lowercase(event.key@),
                    event.modifiers,
                );
                &&& outcome == if cmd == SearchKeyCommand::Ignore {
                    HookOutcome::PassThrough
                } else {
                    HookOutcome::Consumed
                }
                &&& cmd == SearchKeyCommand::Ignore ==> *final(ctx).buffer == *old(ctx).buffer
                    && *final(ctx).selection == *old(ctx).selection && *final(ctx).prompt
                    == *old(ctx).prompt && final(self).state_view() == old(self).state_view()
                    && final(self).texts_view() == old(self).texts_view() && final(self).mode_view()
                    == old(self).mode_view() && final(self).flags_view() == old(self).flags_view()
                &&& cmd == SearchKeyCommand::ToggleCase ==> final(self).flags_view().0
                    != old(self).flags_view().0 && *final(ctx).buffer == *old(ctx).buffer && *final(ctx).selection == *old(ctx).selection && rescanned(
                    final(self).state_view(),
                    old(self).texts_view().0,
                    !old(self).flags_view().0,
                    old(self).flags_view().1,
                    old(ctx).buffer.text_view(),
                    old(ctx).buffer.version_view(),
                )
                &&& cmd == SearchKeyCommand::ToggleWord ==> final(self).flags_view().1
                    != old(self).flags_view().1 && *final(ctx).buffer == *old(ctx).buffer && *final(ctx).selection == *old(ctx).selection && rescanned(
                    final(self).state_view(),
                    old(self).texts_view().0,
                    old(self).flags_view().0,
                    !old(self).flags_view().1,
                    old(ctx).buffer.text_view(),
                    old(ctx).buffer.version_view(),
                )
                &&& cmd == SearchKeyCommand::ToggleHighlight ==> final(self).flags_view().2
                    != old(self).flags_view().2 && final(self).state_view() == old(self).state_view()
                    && *final(ctx).buffer == *old(ctx).buffer && *final(ctx).selection == *old(ctx).selection
                &&& cmd == SearchKeyCommand::HistoryPrev ==> final(ctx).prompt@
                    == crate::prompt::spec_history_prev(old(ctx).prompt@) && *final(ctx).buffer == *old(ctx).buffer && *final(ctx).selection == *old(ctx).selection
                &&& cmd == SearchKeyCommand::HistoryNext ==> final(ctx).prompt@
                    == crate::prompt::spec_history_next(old(ctx).prompt@) && *final(ctx).buffer == *old(ctx).buffer && *final(ctx).selection == *old(ctx).selection
                &&& cmd == SearchKeyCommand::OpenSearch ==> final(self).mode_view().0
                    && !final(self).mode_view().1 && (final(ctx).prompt@.spec matches Some(sp)
                    && search_spec_view(sp)) && *final(ctx).buffer == *old(ctx).buffer && *final(ctx).selection == *old(ctx).selection
                &&& cmd == SearchKeyCommand::OpenReplace ==> final(self).mode_view() == (true, true, true)
                    && (final(ctx).prompt@.spec matches Some(sp) && replace_spec_view(sp)) && *final(ctx).buffer == *old(ctx).buffer && *final(ctx).selection == *old(ctx).selection
                &&& cmd == SearchKeyCommand::NavigateNext ==> ({
                    let t = old(ctx).buffer.text_view();
                    let v = old(ctx).buffer.version_view();
                    let from = nav_from(old(self).state_view(), old(ctx).buffer.cursor_view());
                    let target = nav_target(old(self).state_view(), t, v, from, true, true);
                    &&& navigated(old(self).state_view(), final(self).state_view(), t, v, from, true, true, target)
                    &&& nav_applied(*old(ctx).buffer, *final(ctx).buffer, *old(ctx).selection, *final(ctx).selection, target)
                    &&& final(self).texts_view() == old(self).texts_view()
                    &&& final(self).mode_view() == old(self).mode_view()
                })
                &&& cmd == SearchKeyCommand::NavigatePrev ==> ({
                    let t = old(ctx).buffer.text_view();
                    let v = old(ctx).buffer.version_view();
                    let from = old(ctx).buffer.cursor_view();
                    let target = nav_target(old(self).state_view(), t, v, from, true, false);
                    &&& navigated(old(self).state_view(), final(self).state_view(), t, v, from, true, false, target)
                    &&& nav_applied(*old(ctx).buffer, *final(ctx).buffer, *old(ctx).selection, *final(ctx).selection, target)
                    &&& final(self).texts_view() == old(self).texts_view()
                    &&& final(self).mode_view() == old(self).mode_view()
                })
                &&& cmd == SearchKeyCommand::ToggleReplace ==> final(self).mode_view().1 == !old(self).mode_view().1
                    && *final(ctx).buffer == *old(ctx).buffer
                &&& cmd == SearchKeyCommand::FocusSearch ==> *final(ctx).buffer == *old(ctx).buffer
                    && !final(self).mode_view().2
                &&& cmd == SearchKeyCommand::ReplaceAll ==> ({
                    let t = old(ctx).buffer.text_view();
                    &&& old(self).texts_view().0.len() == 0 ==> *final(ctx).buffer == *old(ctx).buffer
                    &&& old(self).texts_view().0.len() > 0 ==> forall|q: SearchQuery|
                        literal_query(q, old(self).texts_view().0, old(self).flags_view().0, old(self).flags_view().1)
                            ==> ({
                            let reps = crate::search::replacements_for(q, t, final(self).texts_view().1);
                            &&& query_compiles(q) ==> final(ctx).buffer.text_view() == (if reps.len() == 0 {
                                t
                            } else {
                                crate::buffer::replaced_all(t, reps)
                            })
                            &&& !query_compiles(q) ==> final(ctx).buffer.text_view() == t
                        })
                })
                &&& cmd == SearchKeyCommand::ReplaceCurrent ==> ({
                    let t = old(ctx).buffer.text_view();
                    let ps = match refreshed_pairs(old(self).state_view(), t, old(ctx).buffer.version_view()) {
                        Some(ms) => ms,
                        None => range_pairs(old(self).state_view().matches_view()),
                    };
                    let target = replace_target(ps, old(ctx).buffer.cursor_view());
                    let tg: (nat, nat) = match target {
                        Some(p) => p,
                        None => (0, 0),
                    };
                    &&& final(self).texts_view().1 == if old(ctx).prompt@.spec matches Some(sp) && sp.id@
                        == REPLACE_PROMPT_ID@ {
                        old(ctx).prompt@.input
                    } else {
                        old(self).texts_view().1
                    }
                    &&& old(self).texts_view().0.len() == 0 ==> *final(ctx).buffer == *old(ctx).buffer
                    &&& target is None ==> final(ctx).buffer.text_view() == t
                    &&& (old(self).texts_view().0.len() > 0 && target is Some && tg.0 < tg.1 && tg.1
                        <= byte_len(t) && is_char_boundary(t, tg.0) && is_char_boundary(t, tg.1)
                        ==> forall|q: SearchQuery|
                        literal_query(q, old(self).texts_view().0, old(self).flags_view().0, old(self).flags_view().1)
                            ==> ({
                            let found = crate::search::replacement_at(
                                crate::search::replacements_for(q, t, final(self).texts_view().1),
                                tg.0,
                                tg.1,
                                0,
                            );
                            &&& (!query_compiles(q) ==> final(ctx).buffer.text_view() == t)
                            &&& (query_compiles(q) && !(found is Some && byte_len(t) + byte_len(found->0)
                                <= usize::MAX) ==> final(ctx).buffer.text_view() == t)
                            &&& (query_compiles(q) && found is Some && byte_len(t) + byte_len(found->0)
                                <= usize::MAX ==> final(ctx).buffer.text_view() == crate::buffer::insert_at(
                                crate::buffer::remove_range(
                                    t,
                                    char_of_byte(t, tg.0),
                                    char_of_byte(t, tg.1),
                                ),
                                char_of_byte(t, tg.0),
                                found->0,
                            ))
                        }))
                })
                &&& cmd == SearchKeyCommand::SwitchField ==> *final(ctx).buffer == *old(ctx).buffer
                    && final(self).mode_view().2 == !old(self).mode_view().2
                    && (final(ctx).prompt@.spec matches Some(sp) && if old(self).mode_view().2 {
                    search_spec_view(sp)
                } else {
                    replace_spec_view(sp)
                })
                &&& cmd == SearchKeyCommand::PromptInput ==> ({
                    let pk = crate::prompt::prompt_key(old(ctx).prompt@, event.key@, event.modifiers);
                    let in_replace = old(ctx).prompt@.spec matches Some(sp) && sp.id@ == REPLACE_PROMPT_ID@;
                    &&& pk.1 is Cancelled ==> final(ctx).prompt@ == pk.0 && !final(self).mode_view().0
                        && !final(self).mode_view().1 && *final(ctx).buffer == *old(ctx).buffer
                    &&& pk.1 is Ignored ==> final(ctx).prompt@ == pk.0 && final(self).texts_view()
                        == old(self).texts_view() && *final(ctx).buffer == *old(ctx).buffer
                    &&& pk.1 is Editing ==> final(ctx).prompt@ == pk.0 && *final(ctx).buffer == *old(ctx).buffer
                        && if in_replace {
                        final(self).texts_view() == (old(self).texts_view().0, pk.0.input)
                    } else {
                        &&& final(self).texts_view() == (pk.0.input, old(self).texts_view().1)
                        &&& rescanned(
                            final(self).state_view(),
                            pk.0.input,
                            old(self).flags_view().0,
                            old(self).flags_view().1,
                            old(ctx).buffer.text_view(),
                            old(ctx).buffer.version_view(),
                        )
                        &&& final(self).status_view() == final(self).fresh_status()
                    }
                    &&& pk.1 matches crate::prompt::ActionView::Submitted(input) ==> if in_replace {
                        &&& final(self).texts_view() == (old(self).texts_view().0, input)
                        &&& final(self).mode_view().1
                        &&& !final(self).mode_view().2
                        &&& *final(ctx).buffer == *old(ctx).buffer
                        &&& final(ctx).prompt@.spec matches Some(sp) && search_spec_view(sp)
                            && final(ctx).prompt@ == crate::prompt::spec_open(pk.0, sp, old(self).texts_view().0)
                        &&& rescanned(
                            final(self).state_view(),
                            old(self).texts_view().0,
                            old(self).flags_view().0,
                            old(self).flags_view().1,
                            old(ctx).buffer.text_view(),
                            old(ctx).buffer.version_view(),
                        )
                        &&& final(self).status_view() == final(self).fresh_status()
                    } else {
                        let t = old(ctx).buffer.text_view();
                        let v = old(ctx).buffer.version_view();
                        let from = nav_from(old(self).state_view(), old(ctx).buffer.cursor_view());
                        let target = nav_target(old(self).state_view(), t, v, from, true, true);
                        &&& final(self).texts_view() == (input, old(self).texts_view().1)
                        &&& final(ctx).prompt@ == pk.0
                        &&& navigated(old(self).state_view(), final(self).state_view(), t, v, from, true, true, target)
                        &&& nav_applied(*old(ctx).buffer, *final(ctx).buffer, *old(ctx).selection, *final(ctx).selection, target)
                        &&& final(self).status_view() == final(self).fresh_status()
                    }
                })
                &&& ctx_rest_same(*final(ctx), *old(ctx))
            }),
    {
        let open = ctx.prompt.is_open();
        let owns = open && owns_spec(ctx.prompt.spec());
        let cmd = classify_search_key(
            owns,
            open,
            self.active,
            self.replace_mode,
            self.query_text.as_str().is_empty(),
            event,
        );
        match cmd {
            SearchKeyCommand::FocusSearch => {
                self.focus_search(ctx);
            },
            SearchKeyCommand::SwitchField => {
                if self.prompt_is_replace {
                    self.focus_search(ctx);
                } else {
                    self.focus_replace(ctx);
                }
            },
            SearchKeyCommand::ReplaceCurrent => {
                let _ = self.replace_current(ctx);
            },
            SearchKeyCommand::ReplaceAll => {
                let _ = self.replace_all(ctx);
            },
            SearchKeyCommand::ToggleCase => {
                self.toggle_case(ctx);
            },
            SearchKeyCommand::ToggleWord => {
                self.toggle_word(ctx);
            },
            SearchKeyCommand::ToggleHighlight => {
                self.toggle_highlight();
            },
            SearchKeyCommand::HistoryPrev => {
                ctx.prompt.history_prev();
            },
            SearchKeyCommand::HistoryNext => {
                ctx.prompt.history_next();
            },
            SearchKeyCommand::NavigatePrev => {
                self.navigate_prev(ctx, true);
            },
            SearchKeyCommand::NavigateNext => {
                self.navigate_next(ctx, true);
            },
            SearchKeyCommand::ToggleReplace => {
                self.toggle_replace(ctx);
            },
            SearchKeyCommand::PromptInput => {
                let is_replace = match ctx.prompt.spec() {
                    Some(sp) => str_eq(sp.id, REPLACE_PROMPT_ID),
                    None => false,
                };
                match ctx.prompt.handle_key(event) {
                    PromptAction::Editing => {
                        if is_replace {
                            self.replacement = ctx.prompt.input();
                        } else {
                            self.refresh_from_input(ctx);
                        }
                    },
                    PromptAction::Submitted(input) => {
                        if is_replace {
                            self.replacement = input;
                            let query = self.query_text.clone();
                            ctx.prompt.open(search_spec(), query.as_str());
                            self.replace_mode = true;
                            self.prompt_is_replace = false;
                            self.refresh_from_input(ctx);
                        } else {
                            self.query_text = input;
                            self.navigate_next(ctx, true);
                        }
                    },
                    PromptAction::Cancelled => {
                        self.active = false;
                        self.replace_mode = false;
                        self.prompt_is_replace = false;
                        self.update_status();
                    },
                    PromptAction::Ignored => {},
                }
            },
            SearchKeyCommand::OpenSearch => {
                let initial = self.ctrl_f_initial(ctx.buffer, *ctx.selection);
                self.replace_mode = false;
                self.open_search(ctx, initial.as_str());
            },
            SearchKeyCommand::OpenReplace => {
                if !self.active {
                    let initial = self.ctrl_f_initial(ctx.buffer, *ctx.selection);
                    self.open_search(ctx, initial.as_str());
                }
                self.open_replace(ctx);
            },
            SearchKeyCommand::Ignore => {
                return HookOutcome::PassThrough;
            },
        }
        HookOutcome::Consumed
    }

    /// The status line while the hook is active.
    fn status_text(&self) -> (s: Option<&str>)
        ensures
            self.mode_view().0 ==> (s matches Some(x) && x@ == self.status_view()),
            !self.mode_view().0 ==> s.is_none(),
    {
        if self.active {
            Some(self.status_cache.as_str())
        } else {
            None
        }
    }
}

fn render_flags(case_sensitive: bool, whole_word: bool, highlight_all: bool) -> (flags: Vec<char>)
    ensures
        flags@ == status_flags(case_sensitive, whole_word, highlight_all),
{
    let mut flags: Vec<char> = Vec::new();
    flags.push('[');
    if case_sensitive {
        flags.push('A');
        flags.push('a');
    } else {
        flags.push('a');
        flags.push('a');
    }
    flags.push(']');
    flags.push(' ');
    flags.push('[');
    flags.push(if whole_word { 'W' } else { 'w' });
    flags.push(']');
    flags.push(' ');
    flags.push('[');
    flags.push(if highlight_all { 'H' } else { 'h' });
    flags.push(']');
    proof {
        assert(flags@ =~= status_flags(case_sensitive, whole_word, highlight_all));
    }
    flags
}

fn render_status(replace_mode: bool, count: usize, current: Option<usize>, flags: &Vec<char>) -> (out: Vec<char>)
    requires
        current matches Some(i) ==> i < count,
    ensures
        out@ == status_line(replace_mode, count as nat, current, flags@),
{
    let mut out: Vec<char> = Vec::new();
    if replace_mode {
        push_chars(&mut out, "REPLACE");
    } else {
        push_chars(&mut out, "SEARCH");
    }
    proof {
        reveal_strlit("REPLACE");
        reveal_strlit("SEARCH");
    }
    let ghost scope = out@;
    if count == 0 {
        push_chars(&mut out, " \u{2014} no matches ");
        proof {
            reveal_strlit(" \u{2014} no matches ");
        }
    } else {
        match current {
            Some(i) => {
                out.push(' ');
                push_decimal(&mut out, i + 1);
                out.push('/');
                push_decimal(&mut out, count);
                out.push(' ');
            },
            None => {
                push_chars(&mut out, " \u{2014} ");
                push_decimal(&mut out, count);
                push_chars(&mut out, " matches ");
                proof {
                    reveal_strlit(" \u{2014} ");
                    reveal_strlit(" matches ");
                }
            },
        }
    }
    crate::text::push_all(&mut out, flags);
    proof {
        assert(out@ =~= status_line(replace_mode, count as nat, current, flags@));
    }
    out
}

} // verus!
