//! Headless right-click menu: built-in edit rows merged with hook rows.
use vstd::prelude::*;
use crate::buffer::EditorBuffer;
use crate::selection::Selection;
use crate::text::{byte_len, str_eq};

verus! {

/// Well-known id for the built-in Cut action.
pub const CUT_ID: &'static str = "cut";
/// Well-known id for the built-in Copy action.
pub const COPY_ID: &'static str = "copy";
/// Well-known id for the built-in Paste action.
pub const PASTE_ID: &'static str = "paste";
/// Well-known id for the built-in Select All action.
pub const SELECT_ALL_ID: &'static str = "select_all";
/// Well-known id for the built-in Undo action.
pub const UNDO_ID: &'static str = "undo";
/// Well-known id for the built-in Redo action.
pub const REDO_ID: &'static str = "redo";
/// Well-known id for the built-in Delete action.
pub const DELETE_ID: &'static str = "delete";

/// Frontend-supplied capabilities the core cannot observe headlessly.
#[derive(Debug, Clone, Copy, PartialEq, Eq, Default, Structural)]
pub struct ContextMenuCaps {
    /// Whether a non-empty selection exists.
    pub has_selection: bool,
    /// Whether the OS clipboard currently holds text.
    pub clipboard_has_text: bool,
    /// Whether an undo transaction is available.
    pub can_undo: bool,
    /// Whether a redo transaction is available.
    pub can_redo: bool,
    /// Whether the selection already spans the whole document.
    pub is_full_doc_selected: bool,
}

impl ContextMenuCaps {
    /// Derives the buffer-observable capabilities; the host supplies
    /// whether the clipboard holds text.
    pub fn from_buffer(buffer: &EditorBuffer, selection: Option<&Selection>, clipboard_has_text: bool) -> (c: Self)
        ensures
            c.has_selection == (selection matches Some(s) && s.start_spec() < s.end_spec()),
            c.clipboard_has_text == clipboard_has_text,
            c.can_undo == (buffer.undo_view().len() > 0),
            c.can_redo == (buffer.redo_view().len() > 0),
            c.is_full_doc_selected == (selection matches Some(s) && s.start_spec() == 0
                && s.end_spec() == byte_len(buffer.text_view()) && s.start_spec() < s.end_spec()),
    {
        let (has_selection, is_full_doc_selected) = match selection {
            Some(s) => {
                let range = s.byte_range();
                let non_empty = range.start < range.end;
                (non_empty, range.start == 0 && range.end == buffer.len_bytes() && non_empty)
            },
            None => (false, false),
        };
        ContextMenuCaps {
            has_selection,
            clipboard_has_text,
            can_undo: buffer.can_undo(),
            can_redo: buffer.can_redo(),
            is_full_doc_selected,
        }
    }
}

/// One row in the right-click context menu.
#[derive(Debug, Clone, PartialEq, Eq)]
pub struct ContextMenuItem {
    /// Stable id (`"cut"`, `"copy"`, ... or hook-defined).
    pub id: &'static str,
    /// Primary row text.
    pub label: String,
    /// Secondary hint text.
    pub hint: Option<String>,
    /// Whether the row is clickable.
    pub enabled: bool,
    /// Whether a separator renders directly below this row.
    pub divider_after: bool,
}

/// Abstract content of a menu row.
pub struct ItemView {
    pub id: Seq<char>,
    pub label: Seq<char>,
    pub hint: Option<Seq<char>>,
    pub enabled: bool,
    pub divider_after: bool,
}

/// The abstract content of a row.
pub open spec fn item_view(i: ContextMenuItem) -> ItemView {
    ItemView {
        id: i.id@,
        label: i.label@,
        hint: match i.hint {
            Some(h) => Some(h@),
            None => None,
        },
        enabled: i.enabled,
        divider_after: i.divider_after,
    }
}

/// Abstract content of a list of rows.
pub open spec fn items_view(s: Seq<ContextMenuItem>) -> Seq<ItemView> {
    s.map_values(|i: ContextMenuItem| item_view(i))
}

impl ContextMenuItem {
    /// Creates an enabled item with no hint.
    pub fn new(id: &'static str, label: &str) -> (item: Self)
        ensures
            item_view(item) == (ItemView {
                id: id@,
                label: label@,
                hint: None,
                enabled: true,
                divider_after: false,
            }),
            item.id == id,
    {
        ContextMenuItem { id, label: label.to_owned(), hint: None, enabled: true, divider_after: false }
    }

    /// Creates an enabled item with hint text.
    pub fn with_hint(id: &'static str, label: &str, hint: &str) -> (item: Self)
        ensures
            item_view(item) == (ItemView {
                id: id@,
                label: label@,
                hint: Some(hint@),
                enabled: true,
                divider_after: false,
            }),
            item.id == id,
    {
        ContextMenuItem {
            id,
            label: label.to_owned(),
            hint: Some(hint.to_owned()),
            enabled: true,
            divider_after: false,
        }
    }

    /// Marks the item as disabled.
    pub fn disabled(self) -> (item: Self)
        ensures
            item_view(item) == (ItemView { enabled: false, ..item_view(self) }),
            item.id == self.id,
    {
        let mut item = self;
        item.enabled = false;
        item
    }

    /// Requests a separator directly below this row.
    pub fn with_divider(self) -> (item: Self)
        ensures
            item_view(item) == (ItemView { divider_after: true, ..item_view(self) }),
            item.id == self.id,
    {
        let mut item = self;
        item.divider_after = true;
        item
    }
}

/// Headless open/closed menu state + resolved item list.
#[derive(Debug, Clone, Default)]
pub struct ContextMenuState {
    items: Vec<ContextMenuItem>,
    open: bool,
}

impl ContextMenuState {
    /// Whether the menu is open.
    pub closed spec fn spec_open(&self) -> bool {
        self.open
    }

    /// The rows of the menu.
    pub closed spec fn spec_items(&self) -> Seq<ContextMenuItem> {
        self.items@
    }

    /// Creates a closed menu.
    pub fn new() -> (s: Self)
        ensures
            !s.spec_open(),
            s.spec_items().len() == 0,
    {
        ContextMenuState { items: Vec::new(), open: false }
    }

    /// Whether a menu is currently open.
    pub fn is_open(&self) -> (b: bool)
        ensures
            b == self.spec_open(),
    {
        self.open
    }

    /// Current item rows.
    pub fn items(&self) -> (r: &[ContextMenuItem])
        ensures
            r@ == self.spec_items(),
    {
        self.items.as_slice()
    }

    /// Opens the menu with a pre-merged item list.
    pub fn open(&mut self, items: Vec<ContextMenuItem>)
        ensures
            final(self).spec_open(),
            final(self).spec_items() == items@,
    {
        self.items = items;
        self.open = true;
    }

    /// Closes the menu, clearing the item list.
    pub fn close(&mut self)
        ensures
            !final(self).spec_open(),
            final(self).spec_items().len() == 0,
    {
        self.items = Vec::new();
        self.open = false;
    }
}

/// A built-in row with the given enablement.
pub open spec fn row(id: Seq<char>, label: Seq<char>, hint: Option<Seq<char>>, enabled: bool, divider: bool) -> ItemView {
    ItemView { id, label, hint, enabled, divider_after: divider }
}

/// The built-in rows: Undo, Redo, Cut, Copy, Paste, Delete, Select All; the
/// last one carries the divider before hook rows.
pub open spec fn default_items_view(caps: ContextMenuCaps) -> Seq<ItemView> {
    seq![
        row(UNDO_ID@, "Undo"@, Some("Ctrl+Z"@), caps.can_undo, false),
        row(REDO_ID@, "Redo"@, Some("Ctrl+Y"@), caps.can_redo, false),
        row(CUT_ID@, "Cut"@, Some("Ctrl+X"@), caps.has_selection, false),
        row(COPY_ID@, "Copy"@, Some("Ctrl+C"@), caps.has_selection, false),
        row(PASTE_ID@, "Paste"@, Some("Ctrl+V"@), caps.clipboard_has_text, false),
        row(DELETE_ID@, "Delete"@, None, caps.has_selection, false),
        row(SELECT_ALL_ID@, "Select All"@, Some("Ctrl+A"@), !caps.is_full_doc_selected, true),
    ]
}

fn with_enabled(item: ContextMenuItem, enabled: bool) -> (r: ContextMenuItem)
    ensures
        item_view(r) == (ItemView { enabled, ..item_view(item) }),
        r.id == item.id,
{
    let mut item = item;
    item.enabled = enabled;
    item
}

/// Builds the built-in edit rows for the given capabilities.
pub fn default_context_items(caps: ContextMenuCaps) -> (items: Vec<ContextMenuItem>)
    ensures
        items_view(items@) == default_items_view(caps),
{
    let mut items: Vec<ContextMenuItem> = Vec::new();
    items.push(with_enabled(ContextMenuItem::with_hint(UNDO_ID, "Undo", "Ctrl+Z"), caps.can_undo));
    items.push(with_enabled(ContextMenuItem::with_hint(REDO_ID, "Redo", "Ctrl+Y"), caps.can_redo));
    items.push(with_enabled(ContextMenuItem::with_hint(CUT_ID, "Cut", "Ctrl+X"), caps.has_selection));
    items.push(
        with_enabled(ContextMenuItem::with_hint(COPY_ID, "Copy", "Ctrl+C"), caps.has_selection),
    );
    items.push(
        with_enabled(
            ContextMenuItem::with_hint(PASTE_ID, "Paste", "Ctrl+V"),
            caps.clipboard_has_text,
        ),
    );
    items.push(with_enabled(ContextMenuItem::new(DELETE_ID, "Delete"), caps.has_selection));
    let select_all = if caps.is_full_doc_selected {
        ContextMenuItem::with_hint(SELECT_ALL_ID, "Select All", "Ctrl+A").disabled()
    } else {
        ContextMenuItem::with_hint(SELECT_ALL_ID, "Select All", "Ctrl+A")
    };
    items.push(select_all.with_divider());
    proof {
        assert(items_view(items@) =~= default_items_view(caps));
    }
    items
}

/// Index of the first row with id `id`.
pub open spec fn find_id(m: Seq<ItemView>, id: Seq<char>) -> Option<nat>
    decreases m.len(),
{
    if m.len() == 0 {
        None
    } else {
        match find_id(m.drop_last(), id) {
            Some(p) => Some(p),
            None => if m.last().id == id {
                Some((m.len() - 1) as nat)
            } else {
                None
            },
        }
    }
}

/// Merges one hook row: it replaces the first row with its id in place, or
/// appends and counts as a new hook row.
pub open spec fn merge_one(st: (Seq<ItemView>, nat), r: ItemView) -> (Seq<ItemView>, nat) {
    match find_id(st.0, r.id) {
        Some(p) => (st.0.update(p as int, r), st.1),
        None => (st.0.push(r), st.1 + 1),
    }
}

/// Merges a list of rows in order.
pub open spec fn merge_rows(st: (Seq<ItemView>, nat), rows: Seq<ItemView>) -> (Seq<ItemView>, nat)
    decreases rows.len(),
{
    if rows.len() == 0 {
        st
    } else {
        merge_one(merge_rows(st, rows.drop_last()), rows.last())
    }
}

/// Merges every hook's rows, hook by hook.
pub open spec fn merge_groups(st: (Seq<ItemView>, nat), groups: Seq<Seq<ItemView>>) -> (Seq<ItemView>, nat)
    decreases groups.len(),
{
    if groups.len() == 0 {
        st
    } else {
        merge_rows(merge_groups(st, groups.drop_last()), groups.last())
    }
}

/// Drops the trailing divider when no hook row was appended.
pub open spec fn finish_merge(st: (Seq<ItemView>, nat)) -> Seq<ItemView> {
    if st.1 == 0 && st.0.len() > 0 {
        st.0.update(st.0.len() - 1, ItemView { divider_after: false, ..st.0.last() })
    } else {
        st.0
    }
}

/// The merged menu: defaults (when requested) followed by hook rows, hook
/// rows overriding same-id rows in place.
pub open spec fn collected_view(include_defaults: bool, caps: ContextMenuCaps, groups: Seq<Seq<ItemView>>) -> Seq<ItemView> {
    let base: Seq<ItemView> = if include_defaults { default_items_view(caps) } else { Seq::empty() };
    finish_merge(merge_groups((base, 0), groups))
}

/// A copy of a row.
fn copy_item(i: &ContextMenuItem) -> (r: ContextMenuItem)
    ensures
        r == *i,
{
    ContextMenuItem {
        id: i.id,
        label: i.label.clone(),
        hint: match &i.hint {
            Some(h) => Some(h.clone()),
            None => None,
        },
        enabled: i.enabled,
        divider_after: i.divider_after,
    }
}

fn find_id_exec(m: &Vec<ContextMenuItem>, id: &'static str) -> (r: Option<usize>)
    ensures
        match r {
            Some(p) => find_id(items_view(m@), id@) == Some(p as nat),
            None => find_id(items_view(m@), id@).is_none(),
        },
{
    let mut i: usize = 0;
    while i < m.len()
        invariant
            0 <= i <= m@.len(),
            find_id(items_view(m@.take(i as int)), id@).is_none(),
        decreases m@.len() - i,
    {
        proof {
            assert(items_view(m@.take(i + 1)).drop_last() =~= items_view(m@.take(i as int)));
        }
        if str_eq(m[i].id, id) {
            proof {
                lemma_find_id_prefix(items_view(m@), id@, i + 1);
                assert(items_view(m@).take(i + 1) =~= items_view(m@.take(i + 1)));
            }
            return Some(i);
        }
        i = i + 1;
    }
    proof {
        assert(m@.take(m@.len() as int) =~= m@);
    }
    None
}

/// A hit of `find_id` is a row with that id.
proof fn lemma_find_id_range(m: Seq<ItemView>, id: Seq<char>)
    ensures
        find_id(m, id) matches Some(p) ==> p < m.len() && m[p as int].id == id,
    decreases m.len(),
{
    if m.len() > 0 {
        lemma_find_id_range(m.drop_last(), id);
    }
}

/// `find_id` only looks as far as its first hit: a hit within a prefix is
/// the hit of the whole sequence.
proof fn lemma_find_id_prefix(m: Seq<ItemView>, id: Seq<char>, n: int)
    requires
        0 <= n <= m.len(),
        find_id(m.take(n), id).is_some(),
    ensures
        find_id(m, id) == find_id(m.take(n), id),
    decreases m.len(),
{
    if n < m.len() {
        assert(m.drop_last().take(n) =~= m.take(n));
        lemma_find_id_prefix(m.drop_last(), id, n);
    } else {
        assert(m.take(n) =~= m);
    }
}

/// Merges defaults with hook-contributed rows: hook rows append in order;
/// a hook row whose id matches an earlier row replaces it in place; the
/// trailing divider is dropped when no hook row was appended.
pub fn collect_context_items(
    include_defaults: bool,
    caps: ContextMenuCaps,
    hook_rows: Vec<Vec<ContextMenuItem>>,
) -> (merged: Vec<ContextMenuItem>)
    ensures
        items_view(merged@) == collected_view(
            include_defaults,
            caps,
            hook_rows@.map_values(|g: Vec<ContextMenuItem>| items_view(g@)),
        ),
{
    let mut merged: Vec<ContextMenuItem> = if include_defaults {
        default_context_items(caps)
    } else {
        Vec::new()
    };
    let ghost base = items_view(merged@);
    proof {
        if !include_defaults {
            assert(base =~= Seq::<ItemView>::empty());
        }
    }
    let ghost groups = hook_rows@.map_values(|g: Vec<ContextMenuItem>| items_view(g@));
    let mut hook_count: usize = 0;
    let mut g: usize = 0;
    proof {
        assert(groups.take(0) =~= Seq::<Seq<ItemView>>::empty());
        assert(merge_groups((base, 0), groups.take(0)) == (base, 0nat));
    }
    while g < hook_rows.len()
        invariant
            0 <= g <= hook_rows@.len(),
            groups == hook_rows@.map_values(|g: Vec<ContextMenuItem>| items_view(g@)),
            merge_groups((base, 0), groups.take(g as int)) == (items_view(merged@), hook_count as nat),
            hook_count as nat <= merged@.len(),
        decreases hook_rows@.len() - g,
    {
        let rows = &hook_rows[g];
        let ghost st0 = (items_view(merged@), hook_count as nat);
        let ghost rv = items_view(rows@);
        let mut k: usize = 0;
        proof {
            assert(rv.take(0) =~= Seq::<ItemView>::empty());
        }
        while k < rows.len()
            invariant
                0 <= k <= rows@.len(),
                rv == items_view(rows@),
                merge_rows(st0, rv.take(k as int)) == (items_view(merged@), hook_count as nat),
                hook_count as nat <= merged@.len(),
            decreases rows@.len() - k,
        {
            let row = copy_item(&rows[k]);
            proof {
                assert(rv.take(k + 1).drop_last() =~= rv.take(k as int));
            }
            match find_id_exec(&merged, row.id) {
                Some(p) => {
                    let ghost m0 = merged@;
                    proof {
                        lemma_find_id_range(items_view(merged@), row.id@);
                    }
                    merged.set(p, row);
                    proof {
                        assert(items_view(merged@) =~= items_view(m0).update(p as int, item_view(row)));
                    }
                },
                None => {
                    merged.push(row);
                    let n = merged.len();
                    hook_count = hook_count + 1;
                    proof {
                        assert(hook_count <= n);
                    }
                },
            }
            k = k + 1;
        }
        proof {
            assert(rv.take(rows@.len() as int) =~= rv);
            assert(groups.take(g + 1).drop_last() =~= groups.take(g as int));
        }
        g = g + 1;
    }
    proof {
        assert(groups.take(hook_rows@.len() as int) =~= groups);
    }
    if hook_count == 0 && merged.len() > 0 {
        let last = merged.len() - 1;
        let ghost m0 = merged@;
        let mut item = copy_item(&merged[last]);
        item.divider_after = false;
        merged.set(last, item);
        proof {
            assert(items_view(merged@) =~= items_view(m0).update(
                last as int,
                ItemView { divider_after: false, ..items_view(m0).last() },
            ));
        }
    }
    merged
}


/// Read-only editor state handed to menu item contributors for a
/// right-click: the buffer, the selection, the cursor, the clicked row and
/// byte column within that row, and the frontend's capabilities.
pub struct ContextMenuContext<'a> {
    /// The underlying text buffer.
    pub buffer: &'a EditorBuffer,
    /// The active selection, if any.
    pub selection: Option<&'a Selection>,
    /// Current cursor byte offset.
    pub cursor_offset: usize,
    /// Zero-based buffer row that was right-clicked.
    pub clicked_row: usize,
    /// Byte offset within the clicked line that was right-clicked.
    pub clicked_col: usize,
    /// Frontend-supplied capabilities (clipboard, undo/redo availability).
    pub caps: ContextMenuCaps,
}

} // verus!
