use twrite_core::buffer::EditorBuffer;
use twrite_core::hook::{
    AutoPairsHook, CursorStyle, EditorHook, HookContext, HookEffect, HookOutcome, KeyEvent,
    Modifiers,
};
use twrite_core::prompt::{PromptAction, PromptPlacement, PromptSpec, PromptState};
use twrite_core::search::{SearchQuery, SearchState};
use twrite_core::selection::Selection;

struct MockModalHook {
    mode: String,
}

impl EditorHook for MockModalHook {
    fn on_key(&mut self, ctx: &mut HookContext, event: &KeyEvent) -> HookOutcome {
        if event.key == "escape" {
            self.mode = "NORMAL".into();
            *ctx.cursor_style = CursorStyle::Block;
            *ctx.selection = None;
            return HookOutcome::Consumed;
        }

        if self.mode == "NORMAL" {
            match event.key.as_str() {
                "i" => {
                    self.mode = "INSERT".into();
                    *ctx.cursor_style = CursorStyle::Bar;
                    HookOutcome::Consumed
                }
                "v" => {
                    self.mode = "VISUAL".into();
                    *ctx.selection = Some(Selection::point(ctx.buffer.cursor_offset()));
                    HookOutcome::Consumed
                }
                "x" => {
                    ctx.buffer.delete();
                    HookOutcome::Consumed
                }
                _ => HookOutcome::Consumed,
            }
        } else {
            HookOutcome::PassThrough
        }
    }

    fn status_text(&self) -> Option<&str> {
        Some(&self.mode)
    }
}

#[test]
fn test_modal_hook_transitions() {
    let mut buffer = EditorBuffer::new("hello");
    let mut selection = None;
    let mut cursor_style = CursorStyle::Block;
    let mut prompt = PromptState::new();
    let mut effects = Vec::new();
    let mut hook = MockModalHook {
        mode: "NORMAL".into(),
    };

    let mut ctx = HookContext::new(
        &mut buffer,
        &mut selection,
        &mut cursor_style,
        &mut prompt,
        &mut effects,
    );

    assert_eq!(hook.status_text(), Some("NORMAL"));

    let outcome = hook.on_key(&mut ctx, &KeyEvent::plain("i"));
    assert_eq!(outcome, HookOutcome::Consumed);
    assert_eq!(hook.status_text(), Some("INSERT"));
    assert_eq!(*ctx.cursor_style, CursorStyle::Bar);

    let outcome = hook.on_key(&mut ctx, &KeyEvent::plain("a"));
    assert_eq!(outcome, HookOutcome::PassThrough);

    let outcome = hook.on_key(&mut ctx, &KeyEvent::plain("escape"));
    assert_eq!(outcome, HookOutcome::Consumed);
    assert_eq!(hook.status_text(), Some("NORMAL"));
    assert_eq!(*ctx.cursor_style, CursorStyle::Block);

    let outcome = hook.on_key(&mut ctx, &KeyEvent::plain("v"));
    assert_eq!(outcome, HookOutcome::Consumed);
    assert_eq!(hook.status_text(), Some("VISUAL"));
    assert!(ctx.selection.is_some());
}

#[test]
fn test_autopairs_insert_and_wrap() {
    let mut buffer = EditorBuffer::new("");
    let mut selection = None;
    let mut cursor_style = CursorStyle::Bar;
    let mut prompt = PromptState::new();
    let mut effects = Vec::new();
    let mut autopairs = AutoPairsHook::new();

    let mut ctx = HookContext::new(
        &mut buffer,
        &mut selection,
        &mut cursor_style,
        &mut prompt,
        &mut effects,
    );

    let outcome = autopairs.on_key(&mut ctx, &KeyEvent::plain("("));
    assert_eq!(outcome, HookOutcome::Consumed);
    assert_eq!(ctx.buffer.text().to_string(), "()");
    assert_eq!(ctx.buffer.cursor_offset(), 1);

    let outcome = autopairs.on_key(&mut ctx, &KeyEvent::plain(")"));
    assert_eq!(outcome, HookOutcome::Consumed);
    assert_eq!(ctx.buffer.text().to_string(), "()");
    assert_eq!(ctx.buffer.cursor_offset(), 2);

    ctx.buffer.set_cursor_offset(1);
    let outcome = autopairs.on_key(&mut ctx, &KeyEvent::plain("backspace"));
    assert_eq!(outcome, HookOutcome::Consumed);
    assert_eq!(ctx.buffer.text().to_string(), "");
    assert_eq!(ctx.buffer.cursor_offset(), 0);

    ctx.buffer.insert("word");
    *ctx.selection = Some(Selection::range(0, 4));
    let outcome = autopairs.on_key(&mut ctx, &KeyEvent::plain("\""));
    assert_eq!(outcome, HookOutcome::Consumed);
    assert_eq!(ctx.buffer.text().to_string(), "\"word\"");
}

/// A vim-style search and ex-command loop built from hooks and the core
/// alone: `/` opens a live search prompt, `Enter` jumps to the match; `:`
/// opens an ex prompt whose `w` / `q` push effects for the host.
struct MiniVim {
    search: SearchState,
}

impl EditorHook for MiniVim {
    fn on_key(&mut self, ctx: &mut HookContext, event: &KeyEvent) -> HookOutcome {
        if ctx.prompt.is_open() {
            let is_search = ctx.prompt.spec().is_some_and(|s| s.id == "search");
            match ctx.prompt.handle_key(event) {
                PromptAction::Editing => {
                    if is_search && !ctx.prompt.input().is_empty() {
                        let input = ctx.prompt.input().to_string();
                        self.search.set_query(SearchQuery::literal(&input));
                        let _ = self.search.refresh(ctx.buffer);
                    }
                    return HookOutcome::Consumed;
                }
                PromptAction::Submitted(input) => {
                    if is_search {
                        let from = ctx.buffer.cursor_offset();
                        if let Ok(Some(m)) = self.search.next(ctx.buffer, from, true) {
                            ctx.buffer.set_cursor_offset(m.start);
                            *ctx.selection = Some(Selection::range(m.start, m.end));
                        }
                    } else {
                        match input.as_str() {
                            "w" => ctx.effects.push(HookEffect::Save { path: None }),
                            "q" => ctx.effects.push(HookEffect::Quit { force: false }),
                            "q!" => ctx.effects.push(HookEffect::Quit { force: true }),
                            other => ctx.effects.push(HookEffect::Message(format!(
                                "E492: Not an editor command: {other}"
                            ))),
                        }
                    }
                    ctx.prompt.close();
                    return HookOutcome::Consumed;
                }
                PromptAction::Cancelled | PromptAction::Ignored => {
                    return HookOutcome::Consumed;
                }
            }
        }
        match event.key.as_str() {
            "/" => {
                ctx.prompt.open(
                    PromptSpec::new("search", "/", "Search", PromptPlacement::BottomBar, true),
                    "",
                );
                HookOutcome::Consumed
            }
            ":" => {
                ctx.prompt.open(
                    PromptSpec::new("vim-ex", ":", "", PromptPlacement::BottomBar, false),
                    "",
                );
                HookOutcome::Consumed
            }
            _ => HookOutcome::PassThrough,
        }
    }
}

#[test]
fn test_hook_only_vim_search_and_ex_commands() {
    let mut buffer = EditorBuffer::new("foo bar foo");
    let mut selection = None;
    let mut cursor_style = CursorStyle::Bar;
    let mut prompt = PromptState::new();
    let mut effects = Vec::new();
    let mut vim = MiniVim {
        search: SearchState::new(),
    };
    let mut ctx = HookContext::new(
        &mut buffer,
        &mut selection,
        &mut cursor_style,
        &mut prompt,
        &mut effects,
    );

    // `/foo` + Enter jumps to the first match and selects it.
    assert_eq!(
        vim.on_key(&mut ctx, &KeyEvent::plain("/")),
        HookOutcome::Consumed
    );
    assert!(ctx.prompt.is_open());
    for k in ["f", "o", "o"] {
        assert_eq!(
            vim.on_key(&mut ctx, &KeyEvent::plain(k)),
            HookOutcome::Consumed
        );
    }
    assert_eq!(vim.search.match_count(), 2);
    assert_eq!(
        vim.on_key(&mut ctx, &KeyEvent::plain("enter")),
        HookOutcome::Consumed
    );
    assert!(!ctx.prompt.is_open());
    assert_eq!(ctx.selection.unwrap().byte_range(), 0..3);

    // `:w` queues a save effect for the host.
    assert_eq!(
        vim.on_key(&mut ctx, &KeyEvent::plain(":")),
        HookOutcome::Consumed
    );
    assert_eq!(
        vim.on_key(&mut ctx, &KeyEvent::plain("w")),
        HookOutcome::Consumed
    );
    assert_eq!(
        vim.on_key(&mut ctx, &KeyEvent::plain("enter")),
        HookOutcome::Consumed
    );
    assert_eq!(ctx.effects.as_slice(), &[HookEffect::Save { path: None }]);

    // `:q` queues a quit effect.
    assert_eq!(
        vim.on_key(&mut ctx, &KeyEvent::plain(":")),
        HookOutcome::Consumed
    );
    assert_eq!(
        vim.on_key(&mut ctx, &KeyEvent::plain("q")),
        HookOutcome::Consumed
    );
    assert_eq!(
        vim.on_key(&mut ctx, &KeyEvent::plain("enter")),
        HookOutcome::Consumed
    );
    assert_eq!(
        ctx.effects.as_slice(),
        &[
            HookEffect::Save { path: None },
            HookEffect::Quit { force: false },
        ]
    );
}

fn run_autopairs(text: &str, cursor: usize, sel: Option<Selection>, key: &str) -> (HookOutcome, String, usize, Option<Selection>) {
    let mut buffer = EditorBuffer::new(text);
    buffer.set_cursor_offset(cursor);
    let mut selection = sel;
    let mut cursor_style = CursorStyle::Bar;
    let mut prompt = PromptState::new();
    let mut effects = Vec::new();
    let mut ctx = HookContext::new(&mut buffer, &mut selection, &mut cursor_style, &mut prompt, &mut effects);
    let out = AutoPairsHook::new().on_key(&mut ctx, &KeyEvent::plain(key));
    let text = ctx.buffer.text().to_string();
    let cur = ctx.buffer.cursor_offset();
    let sel = *ctx.selection;
    (out, text, cur, sel)
}

#[test]
fn autopairs_steps_over_quotes_and_closers() {
    let (out, text, cur, _) = run_autopairs("a\"b", 1, None, "\"");
    assert_eq!(out, HookOutcome::Consumed);
    assert_eq!((text.as_str(), cur), ("a\"b", 2));
    let (out, text, cur, _) = run_autopairs("x]", 1, None, "]");
    assert_eq!(out, HookOutcome::Consumed);
    assert_eq!((text.as_str(), cur), ("x]", 2));
    let (out, text, _, _) = run_autopairs("x", 1, None, "]");
    assert_eq!(out, HookOutcome::PassThrough);
    assert_eq!(text, "x");
}

#[test]
fn autopairs_passes_modified_and_unpaired_keys() {
    let mut buffer = EditorBuffer::new("ab");
    let mut selection = None;
    let mut cursor_style = CursorStyle::Bar;
    let mut prompt = PromptState::new();
    let mut effects = Vec::new();
    let mut ctx = HookContext::new(&mut buffer, &mut selection, &mut cursor_style, &mut prompt, &mut effects);
    let event = KeyEvent { key: "(".to_string(), modifiers: Modifiers { ctrl: true, ..Modifiers::empty() } };
    assert_eq!(AutoPairsHook::new().on_key(&mut ctx, &event), HookOutcome::PassThrough);
    assert_eq!(AutoPairsHook::new().on_key(&mut ctx, &KeyEvent::plain("x")), HookOutcome::PassThrough);
    ctx.buffer.set_cursor_offset(1);
    assert_eq!(AutoPairsHook::new().on_key(&mut ctx, &KeyEvent::plain("backspace")), HookOutcome::PassThrough);
    assert_eq!(ctx.buffer.text().to_string(), "ab");
}

#[test]
fn autopairs_wraps_multibyte_selection_and_inserts_brace_pair() {
    let (out, text, cur, sel) = run_autopairs("héllo", 0, Some(Selection::range(6, 0)), "[");
    assert_eq!(out, HookOutcome::Consumed);
    assert_eq!(text, "[héllo]");
    assert_eq!(cur, 8);
    assert_eq!(sel.unwrap().byte_range(), 1..7);
    let (_, text, cur, _) = run_autopairs("é", 2, None, "{");
    assert_eq!((text.as_str(), cur), ("é{}", 3));
    assert!(AutoPairsHook::matching_close('<').is_none());
    assert!(AutoPairsHook::is_pair('`', '`'));
}
