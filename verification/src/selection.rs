use vstd::prelude::*;
use std::ops::Range;

verus! {

/// A text selection: a fixed anchor and a moving head, both byte offsets.
#[derive(Debug, Clone, Copy, PartialEq, Eq, Structural)]
pub struct Selection {
    /// The byte offset where the selection started.
    pub anchor: usize,
    /// The current cursor position (byte offset).
    pub head: usize,
}

impl Selection {
    /// Creates a collapsed selection with the cursor at `offset`.
    pub fn point(offset: usize) -> (s: Self)
        ensures
            s.anchor == offset,
            s.head == offset,
    {
        Selection { anchor: offset, head: offset }
    }

    /// A selection from an anchor to a head, as a value.
    pub open spec fn range_spec(anchor: usize, head: usize) -> Selection {
        Selection { anchor, head }
    }

    /// Creates a selection from an anchor to a head (not reordered).
    pub fn range(anchor: usize, head: usize) -> (s: Self)
        ensures
            s.anchor == anchor,
            s.head == head,
            s == Selection::range_spec(anchor, head),
    {
        Selection { anchor, head }
    }

    /// Whether the selection is collapsed.
    pub fn is_empty(&self) -> (b: bool)
        ensures
            b == (self.anchor == self.head),
    {
        self.anchor == self.head
    }

    /// Smaller end of the selection.
    pub open spec fn start_spec(self) -> usize {
        if self.anchor <= self.head { self.anchor } else { self.head }
    }

    /// Larger end of the selection.
    pub open spec fn end_spec(self) -> usize {
        if self.anchor <= self.head { self.head } else { self.anchor }
    }

    /// The normalized byte range covered by the selection.
    pub fn byte_range(&self) -> (r: Range<usize>)
        ensures
            r.start == self.start_spec(),
            r.end == self.end_spec(),
            r.start <= r.end,
    {
        if self.anchor <= self.head {
            self.anchor..self.head
        } else {
            self.head..self.anchor
        }
    }
}

} // verus!
