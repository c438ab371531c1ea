//! Collapsible fold ranges and their collapsed state.
//!
//! A [`FoldRange`] names a row span whose first row (the header) always
//! stays visible; rows after it hide while collapsed.
use std::collections::BTreeSet;
use vstd::prelude::*;

verus! {

/// A collapsible row span with inclusive bounds; hiding applies to
/// `start_row + 1..=end_row`.
#[derive(Debug, Clone, Copy, PartialEq, Eq, Structural)]
pub struct FoldRange {
    /// First row of the fold; always visible.
    pub start_row: usize,
    /// Last hidden row while collapsed (inclusive).
    pub end_row: usize,
}

/// Which fold starts are collapsed.
#[derive(Debug, Clone, Default)]
pub struct FoldState {
    collapsed: BTreeSet<usize>,
}

/// Whether range `r` hides `row` when its start `s` is collapsed.
pub open spec fn covers(r: FoldRange, s: usize, row: usize) -> bool {
    r.start_row == s && s < row && row <= r.end_row
}

/// Whether collapsed start `s` hides `row` through some range of `rs`.
pub open spec fn start_hides(c: Set<usize>, rs: Seq<FoldRange>, row: usize, s: usize) -> bool {
    c.contains(s) && exists|j: int| 0 <= j < rs.len() && covers(#[trigger] rs[j], s, row)
}

/// Whether `row` is hidden by some collapsed range.
pub open spec fn row_hidden(c: Set<usize>, rs: Seq<FoldRange>, row: usize) -> bool {
    exists|s: usize| start_hides(c, rs, row, s)
}

/// `j` is the first range of `rs` through which `s` hides `row`.
pub open spec fn first_cover(rs: Seq<FoldRange>, s: usize, row: usize, j: int) -> bool {
    &&& 0 <= j < rs.len()
    &&& covers(rs[j], s, row)
    &&& forall|k: int| 0 <= k < j ==> !covers(#[trigger] rs[k], s, row)
}

/// `x` is the range `hidden_range_at` reports: among the collapsed starts
/// hiding `row`, the smallest; among its covering ranges, the first.
pub open spec fn is_hiding_range(c: Set<usize>, rs: Seq<FoldRange>, row: usize, x: FoldRange) -> bool {
    exists|s: usize, j: int|
        #![trigger start_hides(c, rs, row, s), rs[j]]
        start_hides(c, rs, row, s) && (forall|t: usize| start_hides(c, rs, row, t) ==> s <= t)
            && first_cover(rs, s, row, j) && x == rs[j]
}

/// First visible row strictly below `row` within `0..=last`, or `row`.
pub open spec fn visible_below(c: Set<usize>, rs: Seq<FoldRange>, row: usize, last: usize, r: usize) -> bool {
    ||| (row < r <= last && !row_hidden(c, rs, r) && forall|q: usize|
        row < q < r ==> row_hidden(c, rs, q))
    ||| (r == row && forall|q: usize| row < q <= last ==> row_hidden(c, rs, q))
}

impl View for FoldState {
    type V = Set<usize>;

    closed spec fn view(&self) -> Set<usize> {
        self.collapsed@
    }
}

impl FoldState {
    /// Creates an empty fold state with nothing collapsed.
    pub fn new() -> (f: Self)
        ensures
            f@ == Set::<usize>::empty(),
    {
        FoldState { collapsed: BTreeSet::new() }
    }

    /// Toggles the fold starting at `start_row`; returns whether it ends up
    /// collapsed. A row that starts no range still flips, so that a fold
    /// appearing there later is found collapsed.
    pub fn toggle(&mut self, start_row: usize) -> (collapsed: bool)
        ensures
            collapsed == !old(self)@.contains(start_row),
            final(self)@ == toggled(old(self)@, start_row),
    {
        if self.collapsed.remove(&start_row) {
            false
        } else {
            self.collapsed.insert(start_row);
            true
        }
    }

    /// Reports whether the fold starting at `start_row` is collapsed.
    pub fn is_collapsed(&self, start_row: usize) -> (b: bool)
        ensures
            b == self@.contains(start_row),
    {
        self.collapsed.contains(&start_row)
    }

    /// Drops collapsed starts that start no range of `ranges`.
    pub fn retain(&mut self, ranges: &[FoldRange])
        ensures
            final(self)@ == old(self)@.filter(
                |s: usize| exists|j: int| 0 <= j < ranges@.len() && (#[trigger] ranges@[j]).start_row == s,
            ),
    {
        let mut kept: BTreeSet<usize> = BTreeSet::new();
        let mut j: usize = 0;
        while j < ranges.len()
            invariant
                0 <= j <= ranges@.len(),
                forall|x: usize|
                    kept@.contains(x) <==> self@.contains(x) && (exists|q: int|
                        0 <= q < j && (#[trigger] ranges@[q]).start_row == x),
            decreases ranges@.len() - j,
        {
            let start = ranges[j].start_row;
            if self.collapsed.contains(&start) {
                kept.insert(start);
            }
            proof {
                assert forall|x: usize|
                    kept@.contains(x) <==> self@.contains(x) && (exists|q: int|
                        0 <= q < j + 1 && (#[trigger] ranges@[q]).start_row == x) by {
                    if exists|q: int| 0 <= q < j + 1 && (#[trigger] ranges@[q]).start_row == x {
                        let q = choose|q: int| 0 <= q < j + 1 && (#[trigger] ranges@[q]).start_row == x;
                        if q < j {
                            assert(exists|q: int| 0 <= q < j && (#[trigger] ranges@[q]).start_row == x);
                        }
                    }
                    if x == start {
                        assert(ranges@[j as int].start_row == x);
                    }
                }
            }
            j = j + 1;
        }
        let ghost s0 = self@;
        self.collapsed = kept;
        proof {
            let f = |s: usize| exists|j: int| 0 <= j < ranges@.len() && (#[trigger] ranges@[j]).start_row == s;
            assert(self@ =~= s0.filter(f));
        }
    }

    /// Returns the collapsed range hiding `row`, if any: the smallest
    /// collapsed start that hides it, through the first such range.
    pub fn hidden_range_at<'a>(&self, ranges: &'a [FoldRange], row: usize) -> (r: Option<&'a FoldRange>)
        ensures
            match r {
                Some(x) => is_hiding_range(self@, ranges@, row, *x),
                None => !row_hidden(self@, ranges@, row),
            },
    {
        let mut best: Option<usize> = None;
        let mut j: usize = 0;
        while j < ranges.len()
            invariant
                0 <= j <= ranges@.len(),
                match best {
                    Some(b) => {
                        let s = ranges@[b as int].start_row;
                        &&& b < j
                        &&& self@.contains(s)
                        &&& first_cover(ranges@, s, row, b as int)
                        &&& forall|k: int|
                            0 <= k < j && self@.contains(ranges@[k].start_row) && covers(
                                #[trigger] ranges@[k],
                                ranges@[k].start_row,
                                row,
                            ) ==> s <= ranges@[k].start_row
                    },
                    None => forall|k: int|
                        0 <= k < j ==> !(self@.contains(ranges@[k].start_row) && covers(
                            #[trigger] ranges@[k],
                            ranges@[k].start_row,
                            row,
                        )),
                },
            decreases ranges@.len() - j,
        {
            let s = ranges[j].start_row;
            if s < row && row <= ranges[j].end_row && self.collapsed.contains(&s) {
                let better = match best {
                    Some(b) => s < ranges[b].start_row,
                    None => true,
                };
                if better {
                    proof {
                        assert forall|k: int| 0 <= k < j implies !covers(#[trigger] ranges@[k], s, row) by {
                            if covers(ranges@[k], s, row) {
                                assert(ranges@[k].start_row == s);
                            }
                        }
                    }
                    best = Some(j);
                }
            }
            j = j + 1;
        }
        match best {
            Some(b) => {
                proof {
                    let s = ranges@[b as int].start_row;
                    assert(start_hides(self@, ranges@, row, s));
                    assert forall|t: usize| start_hides(self@, ranges@, row, t) implies s <= t by {
                        let k = choose|k: int| 0 <= k < ranges@.len() && covers(#[trigger] ranges@[k], t, row);
                        assert(ranges@[k].start_row == t);
                    }
                    assert(is_hiding_range(self@, ranges@, row, ranges@[b as int]));
                }
                Some(&ranges[b])
            },
            None => {
                proof {
                    assert forall|t: usize| !start_hides(self@, ranges@, row, t) by {
                        if start_hides(self@, ranges@, row, t) {
                            let k = choose|k: int| 0 <= k < ranges@.len() && covers(#[trigger] ranges@[k], t, row);
                            assert(ranges@[k].start_row == t);
                        }
                    }
                }
                None
            },
        }
    }

    /// Reports whether `row` hides inside a collapsed range.
    pub fn is_row_hidden(&self, ranges: &[FoldRange], row: usize) -> (b: bool)
        ensures
            b == row_hidden(self@, ranges@, row),
    {
        let r = self.hidden_range_at(ranges, row);
        proof {
            if r.is_some() {
                let x = *r.unwrap();
                let (s, j) = choose|s: usize, j: int|
                    start_hides(self@, ranges@, row, s) && (forall|t: usize|
                        start_hides(self@, ranges@, row, t) ==> s <= t) && first_cover(ranges@, s, row, j)
                        && x == ranges@[j];
                assert(start_hides(self@, ranges@, row, s));
            }
        }
        r.is_some()
    }

    /// Steps one visible row from `row`, skipping collapsed spans; stays put
    /// when no visible row exists in that direction.
    pub fn step_visible_row(&self, ranges: &[FoldRange], row: usize, total_lines: usize, down: bool) -> (r: usize)
        ensures
            total_lines == 0 ==> r == 0,
            total_lines > 0 && down && row < total_lines ==> visible_below(self@, ranges@, row, (total_lines - 1) as usize, r),
            total_lines > 0 && down && row >= total_lines ==> r == row,
            total_lines > 0 && !down ==> r == (if row == 0 {
                0usize
            } else if row_hidden(self@, ranges@, (row - 1) as usize) {
                (choose|x: FoldRange| #[trigger] is_hiding_range(self@, ranges@, (row - 1) as usize, x)).start_row
            } else {
                (row - 1) as usize
            }),
    {
        if total_lines == 0 {
            return 0;
        }
        let last = total_lines - 1;
        if down {
            let mut next = if row == usize::MAX { row } else { row + 1 };
            if row >= total_lines {
                proof {
                    assert(next > last);
                }
                return row;
            }
            while next <= last
                invariant
                    total_lines > 0,
                    last == total_lines - 1,
                    down,
                    row < total_lines,
                    row < next,
                    last < usize::MAX,
                    row <= last,
                    forall|q: usize| row < q < next ==> row_hidden(self@, ranges@, q),
                decreases (if next > last { 0int } else { last + 1 - next }),
            {
                match self.hidden_range_at(ranges, next) {
                    Some(range) => {
                        let ghost x = *range;
                        proof {
                            let (s, j) = choose|s: usize, j: int|
                                start_hides(self@, ranges@, next, s) && (forall|t: usize|
                                    start_hides(self@, ranges@, next, t) ==> s <= t) && first_cover(
                                    ranges@,
                                    s,
                                    next,
                                    j,
                                ) && x == ranges@[j];
                            assert(covers(ranges@[j], s, next));
                            assert(next <= x.end_row);
                            assert forall|q: usize| next <= q <= x.end_row implies row_hidden(
                                self@,
                                ranges@,
                                q,
                            ) by {
                                assert(covers(ranges@[j], s, q));
                                assert(start_hides(self@, ranges@, q, s));
                            }
                        }
                        assert(range.end_row >= next);
                        if range.end_row == usize::MAX {
                            proof {
                                assert forall|q: usize| row < q <= last implies row_hidden(
                                    self@,
                                    ranges@,
                                    q,
                                ) by {
                                    if q >= next {
                                    }
                                }
                            }
                            return row;
                        }
                        next = range.end_row + 1;
                    },
                    None => {
                        return next;
                    },
                }
            }
            row
        } else {
            if row == 0 {
                return 0;
            }
            let next = row - 1;
            match self.hidden_range_at(ranges, next) {
                Some(range) => {
                    proof {
                        let x = *range;
                        let (s, j) = choose|s: usize, j: int|
                            start_hides(self@, ranges@, next, s) && (forall|t: usize|
                                start_hides(self@, ranges@, next, t) ==> s <= t) && first_cover(
                                ranges@,
                                s,
                                next,
                                j,
                            ) && x == ranges@[j];
                        assert(row_hidden(self@, ranges@, next));
                        lemma_hiding_range_unique(self@, ranges@, next, x);
                    }
                    range.start_row
                },
                None => next,
            }
        }
    }
}

/// The hiding range of a row is unique.
pub proof fn lemma_hiding_range_unique(c: Set<usize>, rs: Seq<FoldRange>, row: usize, x: FoldRange)
    requires
        is_hiding_range(c, rs, row, x),
    ensures
        x == choose|y: FoldRange| #[trigger] is_hiding_range(c, rs, row, y),
{
    let y = choose|y: FoldRange| #[trigger] is_hiding_range(c, rs, row, y);
    let (s1, j1) = choose|s: usize, j: int|
        start_hides(c, rs, row, s) && (forall|t: usize| start_hides(c, rs, row, t) ==> s <= t)
            && first_cover(rs, s, row, j) && x == rs[j];
    let (s2, j2) = choose|s: usize, j: int|
        start_hides(c, rs, row, s) && (forall|t: usize| start_hides(c, rs, row, t) ==> s <= t)
            && first_cover(rs, s, row, j) && y == rs[j];
    assert(s1 <= s2 && s2 <= s1);
    if j1 < j2 {
        assert(!covers(rs[j1], s2, row));
    } else if j2 < j1 {
        assert(!covers(rs[j2], s1, row));
    }
}

/// The collapsed set after toggling `s`.
pub open spec fn toggled(c: Set<usize>, s: usize) -> Set<usize> {
    if c.contains(s) {
        c.remove(s)
    } else {
        c.insert(s)
    }
}

/// Toggling the same fold twice gives back the collapsed set.
pub proof fn law_toggle_twice(c: Set<usize>, s: usize)
    ensures
        toggled(toggled(c, s), s) == c,
{
    if c.contains(s) {
        assert(c.remove(s).insert(s) =~= c);
    } else {
        assert(c.insert(s).remove(s) =~= c);
    }
}

/// With nothing collapsed no row is hidden.
pub proof fn law_nothing_collapsed_hides_nothing(rs: Seq<FoldRange>, row: usize)
    ensures
        !row_hidden(Set::empty(), rs, row),
{
}

/// A fold's first row is never hidden by that fold.
pub proof fn law_header_not_hidden_by_own_fold(r: FoldRange)
    ensures
        !covers(r, r.start_row, r.start_row),
{
}

} // verus!
