use twrite_core::hook::{KeyEvent, Modifiers};
use twrite_core::prompt::{
    fuzzy_filter, fuzzy_score, PromptAction, PromptItem, PromptPlacement, PromptSpec, PromptState,
};

fn search_spec() -> PromptSpec {
    PromptSpec::new("search", "/", "Search", PromptPlacement::BottomBar, true)
}

fn palette_spec() -> PromptSpec {
    PromptSpec::new("commands", "", "Type a command", PromptPlacement::TopPalette, false)
}

fn key(k: &str) -> KeyEvent {
    KeyEvent::plain(k)
}

fn ctrl(k: &str) -> KeyEvent {
    KeyEvent {
        key: k.to_string(),
        modifiers: Modifiers {
            ctrl: true,
            ..Default::default()
        },
    }
}

#[test]
fn open_close_lifecycle() {
    let mut prompt = PromptState::new();
    assert!(!prompt.is_open());
    assert_eq!(prompt.handle_key(&key("a")), PromptAction::Ignored);

    prompt.open(search_spec(), "init");
    assert!(prompt.is_open());
    assert_eq!(prompt.spec().unwrap().id, "search");
    assert_eq!(prompt.input(), "init");
    assert_eq!(prompt.cursor(), 4);

    prompt.close();
    assert!(!prompt.is_open());
    assert_eq!(prompt.input(), "");
    assert_eq!(prompt.cursor(), 0);
    assert!(prompt.message().is_none());
}

#[test]
fn typing_and_cursor_movement() {
    let mut prompt = PromptState::new();
    prompt.open(search_spec(), "");

    prompt.insert("hello");
    assert_eq!(prompt.input(), "hello");
    assert_eq!(prompt.cursor(), 5);

    prompt.move_left();
    prompt.move_left();
    prompt.insert("X");
    assert_eq!(prompt.input(), "helXlo");

    prompt.move_home();
    assert_eq!(prompt.cursor(), 0);
    prompt.move_end();
    assert_eq!(prompt.cursor(), 6);
}

#[test]
fn editing_is_unicode_safe() {
    let mut prompt = PromptState::new();
    prompt.open(search_spec(), "");
    prompt.insert("héllo");
    assert_eq!(prompt.cursor(), "héllo".len());

    prompt.move_home();
    prompt.move_right();
    assert_eq!(prompt.cursor(), 1);
    prompt.move_right();
    assert_eq!(prompt.cursor(), 3);

    prompt.backspace();
    assert_eq!(prompt.input(), "hllo");
    assert!(prompt.input().is_char_boundary(prompt.cursor()));
}

#[test]
fn backspace_delete_word_and_clear_line() {
    let mut prompt = PromptState::new();
    prompt.open(search_spec(), "");
    prompt.insert("foo bar baz");

    prompt.delete_word_before();
    assert_eq!(prompt.input(), "foo bar ");

    prompt.delete_word_before();
    assert_eq!(prompt.input(), "foo ");

    prompt.clear_to_start();
    assert_eq!(prompt.input(), "");
    assert_eq!(prompt.cursor(), 0);
}

#[test]
fn enter_submits_and_records_history() {
    let mut prompt = PromptState::new();
    prompt.open(search_spec(), "");

    prompt.insert("first");
    assert_eq!(
        prompt.handle_key(&key("enter")),
        PromptAction::Submitted("first".to_string())
    );
    assert!(prompt.is_open());
    assert_eq!(prompt.history(), &["first".to_string()]);
    prompt.close();

    prompt.open(search_spec(), "");
    prompt.insert("second");
    prompt.submit();
    prompt.close();
    assert_eq!(prompt.history(), &["first".to_string(), "second".to_string()]);

    prompt.open(search_spec(), "");
    prompt.history_prev();
    assert_eq!(prompt.input(), "second");
    prompt.history_prev();
    assert_eq!(prompt.input(), "first");
    prompt.history_next();
    assert_eq!(prompt.input(), "second");
    prompt.history_next();
    assert_eq!(prompt.input(), "");
}

#[test]
fn escape_cancels_and_closes() {
    let mut prompt = PromptState::new();
    prompt.open(search_spec(), "");
    prompt.insert("abc");
    assert_eq!(prompt.handle_key(&key("escape")), PromptAction::Cancelled);
    assert!(!prompt.is_open());
    assert_eq!(prompt.input(), "");
}

#[test]
fn handle_key_routes_editing_keys() {
    let mut prompt = PromptState::new();
    prompt.open(search_spec(), "");

    assert_eq!(prompt.handle_key(&key("a")), PromptAction::Editing);
    assert_eq!(prompt.input(), "a");
    assert_eq!(prompt.handle_key(&key("backspace")), PromptAction::Editing);
    assert_eq!(prompt.input(), "");
    assert_eq!(prompt.handle_key(&key("arrowleft")), PromptAction::Editing);

    assert_eq!(prompt.handle_key(&key("space")), PromptAction::Editing);
    assert_eq!(prompt.input(), " ");
}

#[test]
fn ctrl_shortcuts_edit_input() {
    let mut prompt = PromptState::new();
    prompt.open(search_spec(), "");
    prompt.insert("hello");

    assert_eq!(prompt.handle_key(&ctrl("a")), PromptAction::Editing);
    assert_eq!(prompt.cursor(), 0);
    assert_eq!(prompt.handle_key(&ctrl("e")), PromptAction::Editing);
    assert_eq!(prompt.cursor(), 5);
    assert_eq!(prompt.handle_key(&ctrl("u")), PromptAction::Editing);
    assert_eq!(prompt.input(), "");
}

#[test]
fn items_selection_wraps_and_clamps() {
    let mut prompt = PromptState::new();
    prompt.open(palette_spec(), "");
    prompt.set_items(vec![
        PromptItem::new("save"),
        PromptItem::new("quit"),
        PromptItem::new("write"),
    ]);
    assert_eq!(prompt.selected_index(), 0);

    prompt.select_prev();
    assert_eq!(prompt.selected_index(), 2);
    prompt.select_next();
    assert_eq!(prompt.selected_index(), 0);
    assert_eq!(prompt.selected_item().unwrap().label, "save");

    prompt.set_items(vec![PromptItem::new("only")]);
    assert_eq!(prompt.selected_index(), 0);
    prompt.set_items(vec![]);
    assert!(prompt.selected_item().is_none());
}

#[test]
fn tab_completes_selected_label() {
    let mut prompt = PromptState::new();
    prompt.open(palette_spec(), "");
    prompt.set_items(vec![PromptItem::with_hint("save-file", "Ctrl+S")]);
    assert_eq!(prompt.handle_key(&key("tab")), PromptAction::Editing);
    assert_eq!(prompt.input(), "save-file");
}

#[test]
fn up_down_prefer_items_over_history() {
    let mut prompt = PromptState::new();
    prompt.open(palette_spec(), "");
    prompt.insert("x");
    prompt.submit();
    prompt.insert("y");

    assert_eq!(prompt.handle_key(&key("arrowup")), PromptAction::Editing);
    assert_eq!(prompt.input(), "x");

    prompt.set_items(vec![PromptItem::new("one"), PromptItem::new("two")]);
    assert_eq!(prompt.handle_key(&key("arrowdown")), PromptAction::Editing);
    assert_eq!(prompt.selected_index(), 1);
    assert_eq!(prompt.input(), "x");
}

#[test]
fn message_roundtrip() {
    let mut prompt = PromptState::new();
    prompt.open(search_spec(), "");
    assert!(prompt.message().is_none());
    prompt.set_message("E486: Pattern not found");
    assert_eq!(prompt.message(), Some("E486: Pattern not found"));
    prompt.clear_message();
    assert!(prompt.message().is_none());
}

#[test]
fn fuzzy_score_matches_subsequence_case_insensitively() {
    assert!(fuzzy_score("save-file", "satek").is_none());
    assert!(fuzzy_score("Save-File", "sf").is_some());
    assert!(fuzzy_score("quit", "sf").is_none());
    let strong = fuzzy_score("save", "sa").unwrap();
    let weak = fuzzy_score("xsave", "sa").unwrap();
    assert!(strong > weak);
    assert_eq!(fuzzy_score("anything", ""), Some(0));
}

#[test]
fn fuzzy_filter_sorts_by_score_then_index() {
    let items = vec![
        PromptItem::new("quit"),
        PromptItem::new("save-file"),
        PromptItem::new("save-all"),
    ];
    let ranked = fuzzy_filter(&items, "save");
    let ids: Vec<usize> = ranked.iter().map(|(i, _)| *i).collect();
    assert_eq!(ids, vec![2, 1]);

    let tied = vec![PromptItem::new("abx"), PromptItem::new("aby")];
    let ranked = fuzzy_filter(&tied, "ab");
    let ids: Vec<usize> = ranked.iter().map(|(i, _)| *i).collect();
    assert_eq!(ids, vec![0, 1]);
}

#[test]
fn history_walk_restores_draft() {
    let mut prompt = PromptState::new();
    prompt.open(search_spec(), "");
    prompt.insert("one");
    prompt.submit();
    prompt.insert("draft");
    assert_eq!(prompt.input(), "onedraft");
    prompt.history_prev();
    assert_eq!(prompt.input(), "one");
    prompt.history_next();
    assert_eq!(prompt.input(), "onedraft");
}

#[test]
fn insert_then_backspace_restores_input() {
    let mut prompt = PromptState::new();
    prompt.open(search_spec(), "ab");
    prompt.insert("é");
    prompt.backspace();
    assert_eq!(prompt.input(), "ab");
    assert_eq!(prompt.cursor(), 2);
}
