use twrite_core::buffer::EditorBuffer;
use twrite_core::selection::Selection;
use twrite_core::context_menu::{
    collect_context_items, default_context_items, ContextMenuCaps, ContextMenuContext, ContextMenuItem,
    ContextMenuState,
    COPY_ID, SELECT_ALL_ID,
};

fn caps_all() -> ContextMenuCaps {
    ContextMenuCaps {
        has_selection: true,
        clipboard_has_text: true,
        can_undo: true,
        can_redo: true,
        is_full_doc_selected: false,
    }
}

#[test]
fn defaults_enablement_matrix() {
    let items = default_context_items(ContextMenuCaps::default());
    for item in &items {
        if item.id == SELECT_ALL_ID {
            assert!(item.enabled);
        } else {
            assert!(!item.enabled, "{} should be disabled", item.id);
        }
    }
    assert!(items.last().unwrap().divider_after);

    let items = default_context_items(caps_all());
    assert!(items.iter().all(|i| i.enabled));
}

#[test]
fn select_all_disabled_when_full_doc_selected() {
    let caps = ContextMenuCaps {
        is_full_doc_selected: true,
        ..caps_all()
    };
    let select = default_context_items(caps)
        .into_iter()
        .find(|i| i.id == SELECT_ALL_ID)
        .unwrap();
    assert!(!select.enabled);
}

#[test]
fn state_open_close_lifecycle() {
    let mut state = ContextMenuState::new();
    assert!(!state.is_open());
    state.open(default_context_items(caps_all()));
    assert!(state.is_open());
    assert_eq!(state.items().len(), 7);
    state.close();
    assert!(!state.is_open());
    assert!(state.items().is_empty());
}

#[test]
fn collect_merges_hooks_after_defaults() {
    let merged = collect_context_items(
        true,
        caps_all(),
        vec![vec![ContextMenuItem::new("md.toggle-task", "Toggle task")]],
    );
    assert_eq!(merged.len(), 8);
    assert_eq!(merged[7].id, "md.toggle-task");
    assert!(merged[6].divider_after);
}

#[test]
fn collect_drops_trailing_divider_without_hooks() {
    let merged = collect_context_items(true, caps_all(), vec![]);
    assert!(!merged.last().unwrap().divider_after);
}

#[test]
fn collect_hook_overrides_default_by_id() {
    let merged = collect_context_items(
        true,
        ContextMenuCaps::default(),
        vec![vec![ContextMenuItem::new(COPY_ID, "Copy link")]],
    );
    let copy = merged.iter().find(|i| i.id == COPY_ID).unwrap();
    assert_eq!(copy.label, "Copy link");
    assert!(copy.enabled);
    assert_eq!(merged.len(), 7);
}

#[test]
fn collect_without_defaults_uses_hooks_only() {
    let merged = collect_context_items(
        false,
        ContextMenuCaps::default(),
        vec![vec![ContextMenuItem::new("custom", "Custom")]],
    );
    assert_eq!(merged.len(), 1);
}

#[test]
fn caps_from_buffer_derives_selection_and_history() {
    let mut buffer = EditorBuffer::new("hello world");
    buffer.insert("!");
    let sel = Selection::range(0, 5);
    let caps = ContextMenuCaps::from_buffer(&buffer, Some(&sel), true);
    assert!(caps.has_selection);
    assert!(caps.clipboard_has_text);
    assert!(caps.can_undo);
    assert!(!caps.can_redo);
    assert!(!caps.is_full_doc_selected);

    let full = Selection::range(0, buffer.len_bytes());
    let caps = ContextMenuCaps::from_buffer(&buffer, Some(&full), false);
    assert!(caps.is_full_doc_selected);

    let caps = ContextMenuCaps::from_buffer(&buffer, None, false);
    assert!(!caps.has_selection);
}

#[test]
fn context_menu_context_carries_click_state() {
    let buffer = EditorBuffer::new("- [ ] task\nplain");
    let selection = Selection::range(0, 3);
    let caps = ContextMenuCaps::from_buffer(&buffer, Some(&selection), false);
    let ctx = ContextMenuContext {
        buffer: &buffer,
        selection: Some(&selection),
        cursor_offset: 3,
        clicked_row: 1,
        clicked_col: 2,
        caps,
    };
    assert_eq!(ctx.buffer.len_lines(), 2);
    assert_eq!(ctx.selection.map(|s| s.byte_range()), Some(0..3));
    assert_eq!((ctx.cursor_offset, ctx.clicked_row, ctx.clicked_col), (3, 1, 2));
    assert_eq!(ctx.caps, caps);
}
