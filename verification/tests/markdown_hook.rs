use twrite_core::buffer::EditorBuffer;
use twrite_core::coordinates::Point;
use twrite_core::hook::{CursorStyle, EditorHook, HookContext, HookEffect, HookOutcome, KeyEvent, Modifiers};
use twrite_core::markdown::config::{MarkdownConfig, MarkdownHook};
use twrite_core::markdown::editing::{parse_usize_chars, table_tab_target, toggle_checkbox};
use twrite_core::markdown::list_tab::{indents_fit_check, list_tab_limits};
use twrite_core::prompt::PromptState;
use twrite_core::selection::Selection;

fn key(name: &str, ctrl: bool, shift: bool) -> KeyEvent {
    KeyEvent {
        key: name.to_string(),
        modifiers: Modifiers { ctrl, alt: false, shift, meta: false },
    }
}

struct Editor {
    buffer: EditorBuffer,
    selection: Option<Selection>,
    cursor_style: CursorStyle,
    prompt: PromptState,
    effects: Vec<HookEffect>,
}

impl Editor {
    fn new(text: &str) -> Self {
        Editor {
            buffer: EditorBuffer::new(text),
            selection: None,
            cursor_style: CursorStyle::Bar,
            prompt: PromptState::new(),
            effects: Vec::new(),
        }
    }

    fn press(&mut self, hook: &mut MarkdownHook, event: &KeyEvent) -> HookOutcome {
        let mut ctx = HookContext::new(
            &mut self.buffer,
            &mut self.selection,
            &mut self.cursor_style,
            &mut self.prompt,
            &mut self.effects,
        );
        hook.on_key(&mut ctx, event)
    }

    fn click(&mut self, hook: &mut MarkdownHook, row: usize, col: usize) -> HookOutcome {
        let mut ctx = HookContext::new(
            &mut self.buffer,
            &mut self.selection,
            &mut self.cursor_style,
            &mut self.prompt,
            &mut self.effects,
        );
        hook.on_click(&mut ctx, row, col)
    }

    fn text(&self) -> String {
        self.buffer.text().to_string()
    }
}

#[test]
fn hook_test_markdown_hook_bold_wrapping() {
    let mut ed = Editor::new("hello world");
    ed.selection = Some(Selection::range(0, 5));
    let mut hook = MarkdownHook::new();
    let outcome = ed.press(&mut hook, &key("b", true, false));
    assert_eq!(outcome, HookOutcome::Consumed);
    assert_eq!(ed.text(), "**hello** world");
    assert_eq!(ed.selection.unwrap().byte_range(), 2..7);
}

#[test]
fn hook_test_markdown_hook_checkbox_toggle() {
    let mut ed = Editor::new("- [ ] Task item");
    let mut hook = MarkdownHook::new();
    let event = key("enter", true, false);
    let outcome = ed.press(&mut hook, &event);
    assert_eq!(outcome, HookOutcome::Consumed);
    assert_eq!(ed.text(), "- [x] Task item");

    let outcome2 = ed.press(&mut hook, &event);
    assert_eq!(outcome2, HookOutcome::Consumed);
    assert_eq!(ed.text(), "- [ ] Task item");
}

#[test]
fn hook_test_markdown_hook_numbered_list_continuation() {
    let mut ed = Editor::new("1. First item");
    ed.buffer.set_cursor_offset(13);
    let mut hook = MarkdownHook::new();
    let outcome = ed.press(&mut hook, &KeyEvent::plain("enter"));
    assert_eq!(outcome, HookOutcome::Consumed);
    assert_eq!(ed.text(), "1. First item\n2. ");
}

#[test]
fn hook_test_markdown_hook_on_click_toggles_task() {
    let mut ed = Editor::new("- [ ] Task one\n- [x] Task two");
    let mut hook = MarkdownHook::new();

    // Click row 1 (checked -> unchecked), cursor stays put.
    ed.buffer.set_cursor_offset(0);
    assert_eq!(ed.click(&mut hook, 1, 0), HookOutcome::Consumed);
    assert_eq!(ed.text(), "- [ ] Task one\n- [ ] Task two");
    assert_eq!(ed.buffer.cursor_offset(), 0);

    // Click row 0 (unchecked -> checked).
    assert_eq!(ed.click(&mut hook, 0, 2), HookOutcome::Consumed);
    assert_eq!(ed.text(), "- [x] Task one\n- [ ] Task two");

    // Uppercase [X] also toggles.
    ed.buffer.replace_range(0..14, "- [X] Task one");
    assert_eq!(ed.click(&mut hook, 0, 3), HookOutcome::Consumed);
    assert_eq!(ed.text(), "- [ ] Task one\n- [ ] Task two");

    // Plain line passes through.
    let mut plain = Editor::new("hello");
    assert_eq!(plain.click(&mut hook, 0, 0), HookOutcome::PassThrough);
}

#[test]
fn hook_test_markdown_hook_on_click_respects_config() {
    let mut ed = Editor::new("- [ ] Task");
    let mut config = MarkdownConfig::default();
    config.interactive_tasks = false;
    let mut hook = MarkdownHook::with_config(config);
    assert_eq!(ed.click(&mut hook, 0, 0), HookOutcome::PassThrough);
    assert_eq!(ed.text(), "- [ ] Task");
}

#[test]
fn hook_test_table_hook_tab_moves_between_cells() {
    let mut ed = Editor::new("| a | b |\n| --- | --- |\n| c | d |");
    let mut hook = MarkdownHook::new();
    ed.buffer.set_cursor_offset(0);
    assert_eq!(ed.press(&mut hook, &KeyEvent::plain("tab")), HookOutcome::Consumed);
    assert_eq!(ed.buffer.cursor_offset(), 2); // start of `a`
    assert_eq!(ed.press(&mut hook, &KeyEvent::plain("tab")), HookOutcome::Consumed);
    assert_eq!(ed.buffer.cursor_offset(), 6); // start of `b`
    // Shift+Tab goes back.
    assert_eq!(ed.press(&mut hook, &key("tab", false, true)), HookOutcome::Consumed);
    assert_eq!(ed.buffer.cursor_offset(), 2);
}

#[test]
fn hook_test_table_hook_tab_appends_row_at_end() {
    let mut ed = Editor::new("| a |\n| --- |\n| b |");
    let mut hook = MarkdownHook::new();
    let end = ed.buffer.len_bytes();
    ed.buffer.set_cursor_offset(end);
    assert_eq!(ed.press(&mut hook, &KeyEvent::plain("tab")), HookOutcome::Consumed);
    assert_eq!(ed.text(), "| a |\n| --- |\n| b |\n| |");
}

#[test]
fn hook_test_table_hook_tab_passthrough_outside_tables() {
    let mut ed = Editor::new("plain text");
    let mut hook = MarkdownHook::new();
    ed.buffer.set_cursor_offset(3);
    assert_eq!(ed.press(&mut hook, &KeyEvent::plain("tab")), HookOutcome::PassThrough);

    let mut disabled = Editor::new("| a |\n| --- |\n| b |");
    disabled.buffer.set_cursor_offset(0);
    let mut config = MarkdownConfig::default();
    config.table_navigation = false;
    let mut hook_off = MarkdownHook::with_config(config);
    assert_eq!(disabled.press(&mut hook_off, &KeyEvent::plain("tab")), HookOutcome::PassThrough);
}

#[test]
fn hook_test_table_hook_enter_continues_and_exits() {
    // Continuation inserts a skeleton row at the cursor.
    let mut ed = Editor::new("| a | b |\n| --- | --- |\n| c | d |");
    let end = ed.buffer.len_bytes();
    ed.buffer.set_cursor_offset(end);
    let mut hook = MarkdownHook::new();
    assert_eq!(ed.press(&mut hook, &KeyEvent::plain("enter")), HookOutcome::Consumed);
    assert_eq!(ed.text(), "| a | b |\n| --- | --- |\n| c | d |\n| | |");

    // An all-blank row exits the table like empty list items do.
    let mut empty = Editor::new("| a |\n| --- |\n| |");
    let end = empty.buffer.len_bytes();
    empty.buffer.set_cursor_offset(end);
    assert_eq!(empty.press(&mut hook, &KeyEvent::plain("enter")), HookOutcome::Consumed);
    assert_eq!(empty.text(), "| a |\n| --- |\n");
}

#[test]
fn test_markdown_hook_list_tab_indent_and_outdent_bullet() {
    let mut ed = Editor::new("- Parent\n- Child");
    let off = ed.buffer.point_to_offset(Point::new(1, 2));
    ed.buffer.set_cursor_offset(off);
    let mut hook = MarkdownHook::new();
    assert_eq!(ed.press(&mut hook, &KeyEvent::plain("tab")), HookOutcome::Consumed);
    assert_eq!(ed.text(), "- Parent\n  - Child");
    assert_eq!(ed.press(&mut hook, &key("tab", false, true)), HookOutcome::Consumed);
    assert_eq!(ed.text(), "- Parent\n- Child");
}

#[test]
fn test_markdown_hook_list_tab_ordered_nesting_and_renumbering() {
    let mut ed = Editor::new("1. One\n2. Two\n3. Three");
    let off = ed.buffer.point_to_offset(Point::new(1, 3));
    ed.buffer.set_cursor_offset(off);
    let mut hook = MarkdownHook::new();
    assert_eq!(ed.press(&mut hook, &KeyEvent::plain("tab")), HookOutcome::Consumed);
    assert_eq!(ed.text(), "1. One\n  1. Two\n2. Three");
    assert_eq!(ed.press(&mut hook, &key("tab", false, true)), HookOutcome::Consumed);
    assert_eq!(ed.text(), "1. One\n2. Two\n3. Three");
}

#[test]
fn test_markdown_hook_list_tab_tasks() {
    let mut ed = Editor::new("- [ ] Task 1\n- [x] Task 2");
    let off = ed.buffer.point_to_offset(Point::new(1, 4));
    ed.buffer.set_cursor_offset(off);
    let mut hook = MarkdownHook::new();
    assert_eq!(ed.press(&mut hook, &KeyEvent::plain("tab")), HookOutcome::Consumed);
    assert_eq!(ed.text(), "- [ ] Task 1\n  - [x] Task 2");
}

#[test]
fn test_markdown_hook_list_tab_multiline_selection() {
    let mut ed = Editor::new("- A\n- B\n- C\n- D");
    let start = ed.buffer.point_to_offset(Point::new(1, 0));
    let end = ed.buffer.point_to_offset(Point::new(2, 3));
    ed.selection = Some(Selection::range(start, end));
    let mut hook = MarkdownHook::new();
    assert_eq!(ed.press(&mut hook, &KeyEvent::plain("tab")), HookOutcome::Consumed);
    assert_eq!(ed.text(), "- A\n  - B\n  - C\n- D");
    assert_eq!(ed.press(&mut hook, &key("tab", false, true)), HookOutcome::Consumed);
    assert_eq!(ed.text(), "- A\n- B\n- C\n- D");
}

#[test]
fn test_markdown_hook_list_tab_non_list_passes_through() {
    let mut ed = Editor::new("Paragraph text here");
    ed.buffer.set_cursor_offset(5);
    let mut hook = MarkdownHook::new();
    assert_eq!(ed.press(&mut hook, &KeyEvent::plain("tab")), HookOutcome::PassThrough);
}

#[test]
fn test_markdown_hook_list_tab_undo_redo() {
    let mut ed = Editor::new("1. One\n2. Two\n3. Three");
    let off = ed.buffer.point_to_offset(Point::new(1, 3));
    ed.buffer.set_cursor_offset(off);
    let mut hook = MarkdownHook::new();
    assert_eq!(ed.press(&mut hook, &KeyEvent::plain("tab")), HookOutcome::Consumed);
    assert_eq!(ed.text(), "1. One\n  1. Two\n2. Three");

    // Single undo reverts all lines and restores the cursor offset
    ed.buffer.undo();
    assert_eq!(ed.text(), "1. One\n2. Two\n3. Three");
    assert_eq!(ed.buffer.cursor_offset(), off);

    // Redo re-applies the indentation
    ed.buffer.redo();
    assert_eq!(ed.text(), "1. One\n  1. Two\n2. Three");
}

#[test]
fn test_markdown_hook_list_tab_outdent_at_root() {
    let mut ed = Editor::new("- One\n- Two");
    let off = ed.buffer.point_to_offset(Point::new(1, 2));
    ed.buffer.set_cursor_offset(off);
    let mut hook = MarkdownHook::new();
    assert_eq!(ed.press(&mut hook, &key("tab", false, true)), HookOutcome::Consumed);
    assert_eq!(ed.text(), "- One\n- Two");
}

#[test]
fn test_markdown_hook_list_tab_custom_indent_size() {
    let mut ed = Editor::new("- Parent\n- Child");
    let off = ed.buffer.point_to_offset(Point::new(1, 2));
    ed.buffer.set_cursor_offset(off);
    let mut hook = MarkdownHook::new();
    hook.set_list_indent_size(4);
    assert_eq!(hook.list_indent_size(), 4);
    assert_eq!(ed.press(&mut hook, &KeyEvent::plain("tab")), HookOutcome::Consumed);
    assert_eq!(ed.text(), "- Parent\n    - Child");
}

#[test]
fn test_markdown_hook_list_tab_parenthesis_delimiter() {
    let mut ed = Editor::new("1) One\n2) Two\n3) Three");
    let off = ed.buffer.point_to_offset(Point::new(1, 3));
    ed.buffer.set_cursor_offset(off);
    let mut hook = MarkdownHook::new();
    assert_eq!(ed.press(&mut hook, &KeyEvent::plain("tab")), HookOutcome::Consumed);
    assert_eq!(ed.text(), "1) One\n  1) Two\n2) Three");
}

#[test]
fn test_markdown_hook_list_tab_disabled() {
    let mut ed = Editor::new("- Parent\n- Child");
    let off = ed.buffer.point_to_offset(Point::new(1, 2));
    ed.buffer.set_cursor_offset(off);
    let mut hook = MarkdownHook::new();
    hook.set_list_indentation(false);
    assert!(!hook.list_indentation());
    assert_eq!(ed.press(&mut hook, &KeyEvent::plain("tab")), HookOutcome::PassThrough);
}

#[test]
fn test_markdown_hook_click_follows_wikilink() {
    let mut ed = Editor::new("See [[Note]] here");
    let mut hook = MarkdownHook::new();
    assert_eq!(ed.click(&mut hook, 0, 6), HookOutcome::Consumed);
    assert_eq!(
        ed.effects.as_slice(),
        &[HookEffect::FollowLink { target: "Note".to_string(), fragment: None, label: None }]
    );
}

#[test]
fn test_markdown_hook_click_reports_full_target() {
    let mut ed = Editor::new("See [[Note#Heading|Alias]] here");
    let mut hook = MarkdownHook::new();
    assert_eq!(ed.click(&mut hook, 0, 8), HookOutcome::Consumed);
    assert_eq!(
        ed.effects.as_slice(),
        &[HookEffect::FollowLink {
            target: "Note".to_string(),
            fragment: Some("Heading".to_string()),
            label: Some("Alias".to_string()),
        }]
    );
}

#[test]
fn test_markdown_hook_click_outside_wikilink_passes_through() {
    let mut ed = Editor::new("See [[Note]] here");
    let mut hook = MarkdownHook::new();
    assert_eq!(ed.click(&mut hook, 0, 0), HookOutcome::PassThrough);
    assert!(ed.effects.is_empty());
}

#[test]
fn test_markdown_hook_enter_follows_wikilink() {
    let mut ed = Editor::new("See [[Note]] here");
    ed.buffer.set_cursor_offset(6);
    let mut hook = MarkdownHook::new();
    assert_eq!(ed.press(&mut hook, &KeyEvent::plain("enter")), HookOutcome::Consumed);
    assert_eq!(
        ed.effects.as_slice(),
        &[HookEffect::FollowLink { target: "Note".to_string(), fragment: None, label: None }]
    );
}

#[test]
fn markdown_italic_and_link_wrap_and_insert() {
    let mut ed = Editor::new("see docs");
    ed.selection = Some(Selection::range(4, 8));
    let mut hook = MarkdownHook::new();
    assert_eq!(ed.press(&mut hook, &key("k", true, false)), HookOutcome::Consumed);
    assert_eq!(ed.text(), "see [docs](url)");
    assert_eq!(ed.selection.unwrap().byte_range(), 11..14);

    let mut ed = Editor::new("ab");
    ed.buffer.set_cursor_offset(1);
    assert_eq!(ed.press(&mut hook, &key("i", true, false)), HookOutcome::Consumed);
    assert_eq!(ed.text(), "a**b");
    assert_eq!(ed.buffer.cursor_offset(), 2);

    let mut ed = Editor::new("");
    assert_eq!(ed.press(&mut hook, &key("b", true, false)), HookOutcome::Consumed);
    assert_eq!(ed.text(), "****");
    assert_eq!(ed.buffer.cursor_offset(), 2);

    let mut ed = Editor::new("x");
    ed.buffer.set_cursor_offset(1);
    assert_eq!(ed.press(&mut hook, &key("k", true, false)), HookOutcome::Consumed);
    assert_eq!(ed.text(), "x[](url)");
    assert_eq!(ed.buffer.cursor_offset(), 2);
}

#[test]
fn markdown_enter_continues_bullets_tasks_and_ends_empty_items() {
    let mut hook = MarkdownHook::new();
    let mut ed = Editor::new("  * item");
    ed.buffer.set_cursor_offset(8);
    assert_eq!(ed.press(&mut hook, &KeyEvent::plain("enter")), HookOutcome::Consumed);
    assert_eq!(ed.text(), "  * item\n  * ");
    assert_eq!(ed.buffer.cursor_offset(), 13);
    // The empty item is cleared back to the line start.
    assert_eq!(ed.press(&mut hook, &KeyEvent::plain("enter")), HookOutcome::Consumed);
    assert_eq!(ed.text(), "  * item\n");
    assert_eq!(ed.buffer.cursor_offset(), 9);

    let mut ed = Editor::new("- [x] done");
    ed.buffer.set_cursor_offset(10);
    assert_eq!(ed.press(&mut hook, &KeyEvent::plain("enter")), HookOutcome::Consumed);
    assert_eq!(ed.text(), "- [x] done\n- [ ] ");

    let mut ed = Editor::new("+9. odd");
    ed.buffer.set_cursor_offset(7);
    assert_eq!(ed.press(&mut hook, &KeyEvent::plain("enter")), HookOutcome::Consumed);
    assert_eq!(ed.text(), "+9. odd\n10. ");

    let mut ed = Editor::new("plain");
    ed.buffer.set_cursor_offset(5);
    assert_eq!(ed.press(&mut hook, &KeyEvent::plain("enter")), HookOutcome::PassThrough);
    assert_eq!(ed.text(), "plain");
    // Shift+Enter is left alone.
    let mut ed = Editor::new("- item");
    ed.buffer.set_cursor_offset(6);
    assert_eq!(ed.press(&mut hook, &key("enter", false, true)), HookOutcome::PassThrough);
}

#[test]
fn markdown_ctrl_enter_star_tasks_and_fallthrough() {
    let mut buffer = EditorBuffer::new("* [x] a");
    assert!(toggle_checkbox(&mut buffer, 0));
    assert_eq!(buffer.text().to_string(), "* [ ] a");
    assert_eq!(buffer.cursor_offset(), 6);
    let mut plain = EditorBuffer::new("no box");
    assert!(!toggle_checkbox(&mut plain, 0));

    // Without a box, Ctrl+Enter continues the list like Enter.
    let mut hook = MarkdownHook::new();
    let mut ed = Editor::new("- a");
    ed.buffer.set_cursor_offset(3);
    assert_eq!(ed.press(&mut hook, &key("enter", true, false)), HookOutcome::Consumed);
    assert_eq!(ed.text(), "- a\n- ");

    // A click on `* [X] ` comes back as `- [ ] `.
    let mut ed = Editor::new("* [X] b");
    assert_eq!(ed.click(&mut hook, 0, 0), HookOutcome::Consumed);
    assert_eq!(ed.text(), "- [ ] b");
}

#[test]
fn markdown_table_tab_wraps_rows_and_status() {
    let mut buffer = EditorBuffer::new("| a | b |\n| --- | --- |\n| c | d |");
    // After `b`, the next start is the one past the closing pipe.
    buffer.set_cursor_offset(7);
    assert_eq!(table_tab_target(&mut buffer, false), Some(9));
    // Past the last start of the header: first cell of the body row.
    buffer.set_cursor_offset(9);
    assert_eq!(table_tab_target(&mut buffer, false), Some(26));
    // Backwards from the body row's first cell: last start of the header.
    buffer.set_cursor_offset(26);
    assert_eq!(table_tab_target(&mut buffer, true), Some(9));
    buffer.set_cursor_offset(13);
    assert_eq!(table_tab_target(&mut buffer, false), None);

    let hook = MarkdownHook::new();
    assert_eq!(hook.status_text(), Some("MARKDOWN"));
}

#[test]
fn markdown_parse_usize_matches_std() {
    for s in ["0", "42", "+7", "", "+", "-1", "1a", "18446744073709551615", "99999999999999999999999"] {
        let cs: Vec<char> = s.chars().collect();
        assert_eq!(parse_usize_chars(&cs), s.parse::<usize>().ok(), "{}", s);
    }
}

#[test]
fn markdown_list_tab_limits_reflect_machine_bounds() {
    let buffer = EditorBuffer::new("- a\n\t- b\n3. c");
    assert!(indents_fit_check(&buffer));
    assert!(list_tab_limits(&buffer, None, 2));
    // No room to grow the text by that indent.
    assert!(!list_tab_limits(&buffer, None, usize::MAX));
    // An ordered number with no room to count over its block's rows.
    let huge = EditorBuffer::new("18446744073709551614. x\n- y");
    assert!(!list_tab_limits(&huge, None, 2));
    // A large number in another block does not stand in the way.
    let mut apart = EditorBuffer::new("18446744073709551614. x\n\n- y");
    assert!(!list_tab_limits(&apart, None, 2));
    apart.set_cursor_offset(26);
    assert!(list_tab_limits(&apart, None, 2));
    assert!(list_tab_limits(&apart, Some(Selection::range(25, 28)), 2));
}

#[test]
fn markdown_test_markdown_hook_bold_wrapping() {
    hook_test_markdown_hook_bold_wrapping();
}

#[test]
fn markdown_test_markdown_hook_checkbox_toggle() {
    hook_test_markdown_hook_checkbox_toggle();
}

#[test]
fn markdown_test_markdown_hook_numbered_list_continuation() {
    hook_test_markdown_hook_numbered_list_continuation();
}

#[test]
fn markdown_test_markdown_hook_on_click_toggles_task() {
    hook_test_markdown_hook_on_click_toggles_task();
}

#[test]
fn markdown_test_markdown_hook_on_click_respects_config() {
    hook_test_markdown_hook_on_click_respects_config();
}

#[test]
fn markdown_test_table_hook_tab_moves_between_cells() {
    hook_test_table_hook_tab_moves_between_cells();
}

#[test]
fn markdown_test_table_hook_tab_appends_row_at_end() {
    hook_test_table_hook_tab_appends_row_at_end();
}

#[test]
fn markdown_test_table_hook_tab_passthrough_outside_tables() {
    hook_test_table_hook_tab_passthrough_outside_tables();
}

#[test]
fn markdown_test_table_hook_enter_continues_and_exits() {
    hook_test_table_hook_enter_continues_and_exits();
}

fn hook_with_notes() -> MarkdownHook {
    let mut hook = MarkdownHook::new();
    hook.set_completion_provider(std::sync::Arc::new(|query: &str| {
        ["Notebook", "Note", "Blog"]
            .into_iter()
            .filter(|name| name.contains(query))
            .map(twrite_core::prompt::PromptItem::new)
            .collect()
    }));
    hook
}

impl Editor {
    /// `on_key`, then the selection-change broadcast that follows every input.
    fn press_completion(&mut self, hook: &mut MarkdownHook, event: &KeyEvent) -> HookOutcome {
        let outcome = self.press(hook, event);
        hook.on_selection_change(&self.buffer, self.selection.as_ref());
        outcome
    }
}

fn plain(name: &str) -> KeyEvent {
    KeyEvent::plain(name)
}

#[test]
fn test_completion_opens_on_second_bracket() {
    let mut ed = Editor::new("See [");
    ed.buffer.set_cursor_offset(5);
    let mut hook = hook_with_notes();
    assert!(hook.has_completion_provider());
    let outcome = ed.press_completion(&mut hook, &plain("["));
    assert_eq!(outcome, HookOutcome::Consumed);
    assert_eq!(ed.text(), "See [[");
    let snapshot = hook.completion_snapshot().expect("session must be open");
    assert_eq!(snapshot.items.len(), 3);
    assert_eq!(snapshot.selected, 0);
}

#[test]
fn test_completion_ignores_single_bracket() {
    let mut ed = Editor::new("See ");
    ed.buffer.set_cursor_offset(4);
    let mut hook = hook_with_notes();
    let outcome = ed.press_completion(&mut hook, &plain("["));
    assert_eq!(outcome, HookOutcome::PassThrough);
    assert!(hook.completion_snapshot().is_none());
}

#[test]
fn test_completion_filters_as_you_type() {
    let mut ed = Editor::new("See [");
    ed.buffer.set_cursor_offset(5);
    let mut hook = hook_with_notes();
    assert_eq!(ed.press_completion(&mut hook, &plain("[")), HookOutcome::Consumed);
    for key in ["N", "o", "t", "e"] {
        let outcome = ed.press_completion(&mut hook, &plain(key));
        assert_eq!(outcome, HookOutcome::Consumed);
    }
    assert_eq!(ed.text(), "See [[Note");
    let snapshot = hook.completion_snapshot().expect("session must be open");
    assert_eq!(snapshot.items.len(), 2);
    assert!(snapshot.items.iter().all(|item| item.label.contains("Note")));
}

#[test]
fn test_completion_enter_accepts_selected_label() {
    let mut ed = Editor::new("See [");
    ed.buffer.set_cursor_offset(5);
    let mut hook = hook_with_notes();
    for key in ["[", "B", "l", "o", "g"] {
        ed.press_completion(&mut hook, &plain(key));
    }
    let outcome = ed.press_completion(&mut hook, &plain("enter"));
    assert_eq!(outcome, HookOutcome::Consumed);
    assert_eq!(ed.text(), "See [[Blog]]");
    assert_eq!(ed.buffer.cursor_offset(), 10);
    assert!(hook.completion_snapshot().is_none());
}

#[test]
fn test_completion_navigates_and_tabs_to_accept() {
    let mut ed = Editor::new("[");
    ed.buffer.set_cursor_offset(1);
    let mut hook = hook_with_notes();
    ed.press_completion(&mut hook, &plain("["));
    ed.press_completion(&mut hook, &plain("down"));
    let snapshot = hook.completion_snapshot().expect("session must be open");
    assert_eq!(snapshot.selected, 1);
    ed.press_completion(&mut hook, &plain("up"));
    let snapshot = hook.completion_snapshot().expect("session must be open");
    assert_eq!(snapshot.selected, 0);
    let outcome = ed.press_completion(&mut hook, &plain("tab"));
    assert_eq!(outcome, HookOutcome::Consumed);
    assert_eq!(ed.text(), "[[Notebook]]");
    assert!(hook.completion_snapshot().is_none());
}

#[test]
fn test_completion_escape_keeps_typed_text() {
    let mut ed = Editor::new("[");
    ed.buffer.set_cursor_offset(1);
    let mut hook = hook_with_notes();
    ed.press_completion(&mut hook, &plain("["));
    ed.press_completion(&mut hook, &plain("x"));
    let outcome = ed.press_completion(&mut hook, &plain("escape"));
    assert_eq!(outcome, HookOutcome::Consumed);
    assert_eq!(ed.text(), "[[x");
    assert!(hook.completion_snapshot().is_none());
}

#[test]
fn test_completion_backspace_to_anchor_dismisses() {
    let mut ed = Editor::new("[");
    ed.buffer.set_cursor_offset(1);
    let mut hook = hook_with_notes();
    ed.press_completion(&mut hook, &plain("["));
    assert!(hook.completion_snapshot().is_some());
    let outcome = ed.press_completion(&mut hook, &plain("backspace"));
    assert_eq!(outcome, HookOutcome::PassThrough);
    assert!(hook.completion_snapshot().is_none());
}

#[test]
fn test_completion_cursor_leave_dismisses() {
    let mut ed = Editor::new("See [");
    ed.buffer.set_cursor_offset(5);
    let mut hook = hook_with_notes();
    ed.press_completion(&mut hook, &plain("["));
    assert!(hook.completion_snapshot().is_some());
    ed.buffer.set_cursor_offset(0);
    hook.on_selection_change(&ed.buffer, ed.selection.as_ref());
    assert!(hook.completion_snapshot().is_none());
}

#[test]
fn test_completion_mouse_select_accepts_row() {
    let mut ed = Editor::new("[");
    ed.buffer.set_cursor_offset(1);
    let mut hook = hook_with_notes();
    ed.press_completion(&mut hook, &plain("["));
    let mut ctx = HookContext::new(
        &mut ed.buffer,
        &mut ed.selection,
        &mut ed.cursor_style,
        &mut ed.prompt,
        &mut ed.effects,
    );
    assert_eq!(hook.on_completion_select(&mut ctx, 1), HookOutcome::Consumed);
    assert_eq!(ctx.buffer.text().to_string(), "[[Note]]");
    assert!(hook.completion_snapshot().is_none());
}

#[test]
fn test_completion_preserves_alias_suffix_on_accept() {
    let mut ed = Editor::new("[");
    ed.buffer.set_cursor_offset(1);
    let mut hook = hook_with_notes();
    for key in ["[", "N", "o", "t", "e", "b", "|", "m", "y"] {
        ed.press_completion(&mut hook, &plain(key));
    }
    assert_eq!(ed.text(), "[[Noteb|my");
    let outcome = ed.press_completion(&mut hook, &plain("enter"));
    assert_eq!(outcome, HookOutcome::Consumed);
    assert_eq!(ed.text(), "[[Notebook|my]]");
    assert!(hook.completion_snapshot().is_none());
}

#[test]
fn completion_without_provider_changes_nothing() {
    let mut ed = Editor::new("See [");
    ed.buffer.set_cursor_offset(5);
    let mut hook = MarkdownHook::new();
    assert!(!hook.has_completion_provider());
    assert_eq!(ed.press_completion(&mut hook, &plain("[")), HookOutcome::PassThrough);
    assert_eq!(ed.text(), "See [");
    assert!(hook.completion_snapshot().is_none());
}
