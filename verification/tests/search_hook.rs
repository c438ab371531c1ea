use twrite_core::buffer::EditorBuffer;
use twrite_core::hook::{CursorStyle, EditorHook, HookContext, HookEffect, HookOutcome, KeyEvent, Modifiers};
use twrite_core::prompt::PromptState;
use twrite_core::search_hook::{
    classify_search_key, SearchHook, SearchKeyCommand, REPLACE_PROMPT_ID, SEARCH_PROMPT_ID,
};
use twrite_core::selection::Selection;

struct Harness {
    buffer: EditorBuffer,
    selection: Option<Selection>,
    cursor_style: CursorStyle,
    prompt: PromptState,
    effects: Vec<HookEffect>,
    hook: SearchHook,
}

impl Harness {
    fn new(text: &str) -> Self {
        Self {
            buffer: EditorBuffer::new(text),
            selection: None,
            cursor_style: CursorStyle::Bar,
            prompt: PromptState::new(),
            effects: Vec::new(),
            hook: SearchHook::new(),
        }
    }

    fn key(&mut self, key: &str) -> HookOutcome {
        let event = KeyEvent::plain(key);
        let Harness {
            buffer,
            selection,
            cursor_style,
            prompt,
            effects,
            hook,
        } = self;
        let mut ctx = HookContext::new(buffer, selection, cursor_style, prompt, effects);
        hook.on_key(&mut ctx, &event)
    }

    fn key_mod(&mut self, key: &str, ctrl: bool, alt: bool, shift: bool) -> HookOutcome {
        let event = KeyEvent {
            key: key.to_string(),
            modifiers: Modifiers {
                ctrl,
                alt,
                shift,
                meta: false,
            },
        };
        let Harness {
            buffer,
            selection,
            cursor_style,
            prompt,
            effects,
            hook,
        } = self;
        let mut ctx = HookContext::new(buffer, selection, cursor_style, prompt, effects);
        hook.on_key(&mut ctx, &event)
    }

    fn ctx_text(&self) -> String {
        self.buffer.text().to_string()
    }

    fn type_into_prompt(&mut self, text: &str) {
        for ch in text.chars() {
            self.key(&ch.to_string());
        }
    }

    fn with_ctx<R>(&mut self, f: impl FnOnce(&mut HookContext<'_>, &mut SearchHook) -> R) -> R {
        let Harness {
            buffer,
            selection,
            cursor_style,
            prompt,
            effects,
            hook,
        } = self;
        let mut ctx = HookContext::new(buffer, selection, cursor_style, prompt, effects);
        f(&mut ctx, hook)
    }
}

#[test]
fn idle_hook_passes_everything_through() {
    let mut h = Harness::new("hello");
    assert_eq!(h.key("a"), HookOutcome::PassThrough);
    assert_eq!(h.key("enter"), HookOutcome::PassThrough);
    assert!(h.hook.status_text().is_none());
}

#[test]
fn ctrl_f_opens_search_with_selection_as_initial() {
    let mut h = Harness::new("hello world");
    h.selection = Some(Selection::range(0, 5));
    assert_eq!(h.key_mod("f", true, false, false), HookOutcome::Consumed);
    assert!(h.prompt.is_open());
    assert_eq!(h.prompt.input(), "hello");
    assert_eq!(h.hook.match_count(), 1);
    assert!(h.hook.status_text().is_some());
}

#[test]
fn typing_live_refreshes_and_enter_navigates() {
    let mut h = Harness::new("foo bar foo");
    assert_eq!(h.key_mod("f", true, false, false), HookOutcome::Consumed);

    for k in ["f", "o", "o"] {
        assert_eq!(h.key(k), HookOutcome::Consumed);
    }
    assert_eq!(h.hook.match_count(), 2);

    assert_eq!(h.key("enter"), HookOutcome::Consumed);
    assert_eq!(h.selection.unwrap().byte_range(), 0..3);
    assert_eq!(h.hook.status_text(), Some("SEARCH 1/2 [Aa] [w] [H]"));

    assert_eq!(h.key("enter"), HookOutcome::Consumed);
    assert_eq!(h.selection.unwrap().byte_range(), 8..11);
    assert_eq!(h.hook.status_text(), Some("SEARCH 2/2 [Aa] [w] [H]"));
}

#[test]
fn toggle_case_rescans_case_insensitively() {
    let mut h = Harness::new("Foo foo FOO");
    h.key_mod("f", true, false, false);
    for k in ["f", "o", "o"] {
        h.key(k);
    }
    assert_eq!(h.hook.match_count(), 1);
    assert!(h.hook.case_sensitive());

    h.with_ctx(|ctx, hook| hook.toggle_case(ctx));
    assert!(!h.hook.case_sensitive());
    assert_eq!(h.hook.match_count(), 3);
    assert_eq!(
        h.hook.status_text(),
        Some("SEARCH — 3 matches [aa] [w] [H]")
    );

    h.with_ctx(|ctx, hook| hook.toggle_case(ctx));
    assert_eq!(h.hook.match_count(), 1);
}

#[test]
fn toggle_word_filters_substring_matches() {
    let mut h = Harness::new("foo foobar foo");
    h.key_mod("f", true, false, false);
    for k in ["f", "o", "o"] {
        h.key(k);
    }
    assert_eq!(h.hook.match_count(), 3);

    h.with_ctx(|ctx, hook| hook.toggle_word(ctx));
    assert!(h.hook.whole_word());
    assert_eq!(h.hook.match_count(), 2);
    assert_eq!(
        h.hook.status_text(),
        Some("SEARCH — 2 matches [Aa] [W] [H]")
    );
}

#[test]
fn toggle_highlight_flips_without_rescanning() {
    let mut h = Harness::new("foo foo");
    h.key_mod("f", true, false, false);
    h.key("f");
    assert!(h.hook.highlight_all());

    h.with_ctx(|ctx, hook| {
        hook.toggle_highlight();
        let _ = ctx;
    });
    assert!(!h.hook.highlight_all());
    assert_eq!(h.hook.match_count(), 2);
    assert!(h.hook.status_text().unwrap().ends_with("[Aa] [w] [h]"));
}

#[test]
fn replace_honors_toggle_flags() {
    let mut h = Harness::new("Foo foo");
    h.key_mod("f", true, false, false);
    for k in ["f", "o", "o"] {
        h.key(k);
    }
    h.with_ctx(|ctx, hook| hook.toggle_case(ctx));
    h.key_mod("h", true, false, false);
    for k in ["b", "a", "r"] {
        h.key(k);
    }
    h.key("enter");
    h.with_ctx(|ctx, hook| {
        assert_eq!(hook.replace_all(ctx).unwrap(), 2);
    });
    assert_eq!(h.ctx_text(), "bar bar");
}

#[test]
fn build_query_is_none_when_empty() {
    let hook = SearchHook::new();
    assert!(hook.build_query().is_none());
}

#[test]
fn alt_h_toggles_highlight_via_key() {
    let mut h = Harness::new("foo foo");
    h.key_mod("f", true, false, false);
    h.key("f");
    assert!(h.hook.highlight_all());
    assert_eq!(h.key_mod("h", false, true, false), HookOutcome::Consumed);
    assert!(!h.hook.highlight_all());
    // Prompt stays open; matching is untouched.
    assert!(h.prompt.is_open());
    assert_eq!(h.hook.match_count(), 2);
}

#[test]
fn snapshot_reports_state_while_active() {
    let mut h = Harness::new("foo bar foo");
    assert!(h.hook.search_snapshot().is_none());
    h.key_mod("f", true, false, false);
    for k in ["f", "o", "o"] {
        h.key(k);
    }
    h.key("enter");
    let snap = h.hook.search_snapshot().expect("snapshot while active");
    assert!(snap.active);
    assert!(snap.case_sensitive);
    assert!(!snap.whole_word);
    assert!(snap.highlight_all);
    assert_eq!(snap.matches, vec![0..3, 8..11]);
    assert_eq!(snap.current, Some(0));
    h.key("escape");
    assert!(h.hook.search_snapshot().is_none());
}

#[test]
fn alt_c_and_alt_w_toggle_via_keys() {
    let mut h = Harness::new("Foo foo foobar");
    h.key_mod("f", true, false, false);
    for k in ["f", "o", "o"] {
        h.key(k);
    }
    assert_eq!(h.hook.match_count(), 2);

    assert_eq!(h.key_mod("c", false, true, false), HookOutcome::Consumed);
    assert_eq!(h.hook.match_count(), 3);

    assert_eq!(h.key_mod("w", false, true, false), HookOutcome::Consumed);
    assert_eq!(h.hook.match_count(), 2);
    assert_eq!(
        h.hook.status_text(),
        Some("SEARCH — 2 matches [aa] [W] [H]")
    );
}

#[test]
fn up_down_navigate_matches_and_alt_reaches_history() {
    let mut h = Harness::new("foo bar foo");
    h.key_mod("f", true, false, false);
    for k in ["f", "o", "o"] {
        h.key(k);
    }
    h.key("enter");
    assert_eq!(h.selection.unwrap().byte_range(), 0..3);

    // Down advances instead of walking history.
    assert_eq!(h.key("down"), HookOutcome::Consumed);
    assert_eq!(h.selection.unwrap().byte_range(), 8..11);
    assert_eq!(h.key("up"), HookOutcome::Consumed);
    assert_eq!(h.selection.unwrap().byte_range(), 0..3);

    // History moved to Alt+Up.
    h.key("enter");
    h.type_into_prompt("zzz");
    assert_eq!(
        h.key_mod("arrowup", false, true, false),
        HookOutcome::Consumed
    );
    assert_eq!(h.prompt.input(), "foo");
}

#[test]
fn f3_keys_navigate_without_typing() {
    let mut h = Harness::new("aa aa");
    h.key_mod("f", true, false, false);
    h.key("a");
    h.key("a");
    h.key("enter");
    assert_eq!(h.selection.unwrap().byte_range(), 0..2);

    assert_eq!(h.key("f3"), HookOutcome::Consumed);
    assert_eq!(h.selection.unwrap().byte_range(), 3..5);

    assert_eq!(h.key_mod("f3", false, false, true), HookOutcome::Consumed);
    assert_eq!(h.selection.unwrap().byte_range(), 0..2);
}

#[test]
fn escape_closes_and_resets_mode() {
    let mut h = Harness::new("foo foo");
    h.key_mod("f", true, false, false);
    assert!(h.prompt.is_open());
    assert_eq!(h.key("escape"), HookOutcome::Consumed);
    assert!(!h.prompt.is_open());
    assert!(h.hook.status_text().is_none());
    assert_eq!(h.key("a"), HookOutcome::PassThrough);
}

#[test]
fn ctrl_h_replace_flow_replaces_current_and_all() {
    let mut h = Harness::new("foo bar foo");
    h.key_mod("f", true, false, false);
    for k in ["f", "o", "o"] {
        h.key(k);
    }

    // Ctrl+H stashes the query and asks for replacement text.
    assert_eq!(h.key_mod("h", true, false, false), HookOutcome::Consumed);
    assert_eq!(h.prompt.spec().unwrap().id, REPLACE_PROMPT_ID);
    for k in ["b", "a", "z"] {
        h.key(k);
    }
    assert_eq!(h.key("enter"), HookOutcome::Consumed);
    // Back on the search prompt with the query restored.
    assert_eq!(h.prompt.spec().unwrap().id, SEARCH_PROMPT_ID);
    assert_eq!(h.prompt.input(), "foo");
    assert_eq!(h.hook.replacement(), "baz");

    // Ctrl+Enter replaces the match at the cursor and advances.
    assert_eq!(
        h.key_mod("enter", true, false, false),
        HookOutcome::Consumed
    );
    assert_eq!(h.ctx_text(), "baz bar foo");
    assert_eq!(h.selection.unwrap().byte_range(), 8..11);

    // Alt+A replaces the rest in one undo step.
    assert_eq!(h.key_mod("a", false, true, false), HookOutcome::Consumed);
    assert_eq!(h.ctx_text(), "baz bar baz");
    assert_eq!(h.prompt.message(), Some("Replaced 1 match"));
    h.buffer.undo();
    assert_eq!(h.ctx_text(), "baz bar foo");
}

#[test]
fn public_api_drives_vim_style_flows() {
    let mut h = Harness::new("foo bar foo");
    let Harness {
        buffer,
        selection,
        cursor_style,
        prompt,
        effects,
        hook,
    } = &mut h;
    let mut ctx = HookContext::new(buffer, selection, cursor_style, prompt, effects);

    hook.open_search(&mut ctx, "foo");
    assert_eq!(hook.match_count(), 2);
    assert!(hook.navigate_next(&mut ctx, true));
    assert_eq!(ctx.selection.unwrap().byte_range(), 0..3);
    assert!(hook.navigate_prev(&mut ctx, true));
    assert_eq!(ctx.selection.unwrap().byte_range(), 8..11);

    hook.close(&mut ctx);
    assert!(!ctx.prompt.is_open());
    assert!(!hook.is_active());
}

#[test]
fn replace_while_typing_in_replace_prompt_with_ctrl_enter_and_alt_a() {
    let mut h = Harness::new("alpha beta alpha");
    h.key_mod("f", true, false, false);
    for k in ["a", "l", "p", "h", "a"] {
        h.key(k);
    }
    assert_eq!(h.hook.match_count(), 2);

    assert_eq!(h.key_mod("h", true, false, false), HookOutcome::Consumed);
    assert_eq!(h.prompt.spec().unwrap().id, REPLACE_PROMPT_ID);

    for k in ["o", "m", "e", "g", "a"] {
        h.key(k);
    }
    assert_eq!(h.hook.replacement(), "omega");

    assert_eq!(
        h.key_mod("enter", true, false, false),
        HookOutcome::Consumed
    );
    assert_eq!(h.ctx_text(), "omega beta alpha");

    assert_eq!(h.key_mod("a", false, true, false), HookOutcome::Consumed);
    assert_eq!(h.ctx_text(), "omega beta omega");
}

#[test]
fn tab_toggles_between_search_and_replace_in_replace_mode() {
    let mut h = Harness::new("one two one");
    h.key_mod("f", true, false, false);
    for k in ["o", "n", "e"] {
        h.key(k);
    }
    h.key_mod("h", true, false, false);
    assert!(h.hook.is_replace_mode());
    assert!(h.hook.is_replace_prompt());

    h.key("tab");
    assert!(!h.hook.is_replace_prompt());
    assert_eq!(h.prompt.spec().unwrap().id, SEARCH_PROMPT_ID);
    assert_eq!(h.prompt.input(), "one");

    h.key("tab");
    assert!(h.hook.is_replace_prompt());
    assert_eq!(h.prompt.spec().unwrap().id, REPLACE_PROMPT_ID);
}

#[test]
fn search_snapshot_reflects_replace_state() {
    let mut h = Harness::new("test test");
    h.key_mod("f", true, false, false);
    h.type_into_prompt("test");
    let snap = h.hook.search_snapshot().unwrap();
    assert_eq!(snap.query, "test");
    assert!(!snap.replace_mode);
    assert!(!snap.is_replace_prompt);

    h.key_mod("h", true, false, false);
    h.type_into_prompt("passed");
    let snap = h.hook.search_snapshot().unwrap();
    assert_eq!(snap.query, "test");
    assert_eq!(snap.replacement, "passed");
    assert!(snap.replace_mode);
    assert!(snap.is_replace_prompt);
}

#[test]
fn classify_routes_keys_by_prompt_ownership() {
    let ctrl_f = KeyEvent { key: "F".to_string(), modifiers: Modifiers { ctrl: true, ..Modifiers::empty() } };
    assert_eq!(classify_search_key(false, false, false, false, true, &ctrl_f), SearchKeyCommand::OpenSearch);
    assert_eq!(classify_search_key(true, true, true, false, false, &ctrl_f), SearchKeyCommand::FocusSearch);
    assert_eq!(classify_search_key(false, true, true, false, false, &ctrl_f), SearchKeyCommand::Ignore);
    let f3 = KeyEvent::plain("f3");
    assert_eq!(classify_search_key(false, false, true, false, true, &f3), SearchKeyCommand::Ignore);
    assert_eq!(classify_search_key(false, false, true, false, false, &f3), SearchKeyCommand::NavigateNext);
    let tab = KeyEvent::plain("tab");
    assert_eq!(classify_search_key(true, true, true, false, false, &tab), SearchKeyCommand::PromptInput);
    assert_eq!(classify_search_key(true, true, true, true, false, &tab), SearchKeyCommand::SwitchField);
}

#[test]
fn replace_all_reports_plural_count() {
    let mut h = Harness::new("ab ab ab");
    h.key_mod("f", true, false, false);
    h.type_into_prompt("ab");
    h.key_mod("h", true, false, false);
    h.type_into_prompt("x");
    assert_eq!(h.key_mod("a", false, true, false), HookOutcome::Consumed);
    assert_eq!(h.ctx_text(), "x x x");
    assert_eq!(h.prompt.message(), Some("Replaced 3 matches"));
    assert_eq!(h.hook.status_text(), Some("REPLACE \u{2014} no matches [Aa] [w] [H]"));
}

#[test]
fn ctrl_f_without_selection_reuses_last_query() {
    let mut h = Harness::new("one two one");
    h.key_mod("f", true, false, false);
    h.type_into_prompt("one");
    h.key("escape");
    assert!(!h.hook.is_active());
    h.key_mod("f", true, false, false);
    assert_eq!(h.prompt.input(), "one");
    assert_eq!(h.hook.match_count(), 2);
    assert_eq!(h.hook.status_text(), Some("SEARCH \u{2014} 2 matches [Aa] [w] [H]"));
    let _ = Selection::point(0);
    let _ = SEARCH_PROMPT_ID;
}
