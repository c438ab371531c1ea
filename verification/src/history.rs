//! Undo/redo records: edits grouped into transactions.
use vstd::prelude::*;
use std::ops::Range;

verus! {

/// One replacement of a byte range.
#[derive(Debug)]
pub struct Edit {
    /// Byte range the edit replaced, in the text before it.
    pub bytes_range: Range<usize>,
    /// Text that went in at `bytes_range.start`.
    pub inserted_text: String,
    /// Text that the edit removed.
    pub deleted_text: String,
}

/// An [`Edit`] as values.
pub struct EditView {
    /// Start of the replaced byte range.
    pub start: nat,
    /// End of the replaced byte range.
    pub end: nat,
    /// Characters inserted.
    pub inserted: Seq<char>,
    /// Characters deleted.
    pub deleted: Seq<char>,
}

impl View for Edit {
    type V = EditView;

    open spec fn view(&self) -> EditView {
        EditView {
            start: self.bytes_range.start as nat,
            end: self.bytes_range.end as nat,
            inserted: self.inserted_text@,
            deleted: self.deleted_text@,
        }
    }
}

/// A group of edits undone and redone together, with the cursor before and
/// after.
#[derive(Debug)]
pub struct Transaction {
    /// The edits, in the order they were applied.
    pub edits: Vec<Edit>,
    /// Cursor byte offset before the transaction.
    pub previous_cursor: usize,
    /// Cursor byte offset after the transaction.
    pub resulting_cursor: usize,
}

/// A [`Transaction`] as values.
pub struct TransactionView {
    /// The edits in application order.
    pub edits: Seq<EditView>,
    /// Cursor before.
    pub previous_cursor: nat,
    /// Cursor after.
    pub resulting_cursor: nat,
}

impl View for Transaction {
    type V = TransactionView;

    open spec fn view(&self) -> TransactionView {
        TransactionView {
            edits: self.edits@.map_values(|e: Edit| e@),
            previous_cursor: self.previous_cursor as nat,
            resulting_cursor: self.resulting_cursor as nat,
        }
    }
}

/// Undo and redo stacks; the last entry of each is the next to apply.
#[derive(Debug)]
pub struct History {
    /// Transactions that `undo` reverts, most recent last.
    pub undo_stack: Vec<Transaction>,
    /// Transactions that `redo` reapplies, most recently undone last.
    pub redo_stack: Vec<Transaction>,
}

/// A stack of transactions as values.
pub open spec fn stack_view(s: Seq<Transaction>) -> Seq<TransactionView> {
    s.map_values(|t: Transaction| t@)
}

impl History {
    /// An empty history.
    pub fn new() -> (h: Self)
        ensures
            h.undo_stack@.len() == 0,
            h.redo_stack@.len() == 0,
    {
        History { undo_stack: Vec::new(), redo_stack: Vec::new() }
    }
}

} // verus!
