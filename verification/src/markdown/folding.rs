//! Line classification for Markdown fold ranges: headings and list items.
use vstd::prelude::*;
use crate::buffer::EditorBuffer;
use crate::folding::FoldRange;
use crate::markdown::list::{digit_run, indent_of, indent_run, is_bullet_char};
use crate::markdown::list_tab::{indents_fit, line_at, strip_breaks};
use crate::markdown::table::count_below;
use crate::rope_text::line_count;
use crate::text::{skip_space, str_chars, trim_start};
use std::ops::Range;

verus! {

/// Number of `#` characters starting at `i`.
pub open spec fn hash_run(cs: Seq<char>, i: nat) -> nat
    decreases cs.len() - i,
{
    if i < cs.len() && cs[i as int] == '#' {
        1 + hash_run(cs, i + 1)
    } else {
        0
    }
}

/// Heading level of a left-trimmed line: one to six `#` followed by a space.
pub open spec fn heading_level_of(cs: Seq<char>) -> Option<u8> {
    let k = hash_run(cs, 0);
    if 1 <= k <= 6 && k < cs.len() && cs[k as int] == ' ' {
        Some(k as u8)
    } else {
        None
    }
}

/// Heading level (1-6) for a left-trimmed line.
pub fn heading_level(trimmed_start: &str) -> (r: Option<u8>)
    ensures
        r == heading_level_of(trimmed_start@),
{
    let cs = str_chars(trimmed_start);
    let mut k: usize = 0;
    while k < cs.len() && cs[k] == '#'
        invariant
            k <= cs@.len(),
            hash_run(cs@, 0) == k + hash_run(cs@, k as nat),
        decreases cs@.len() - k,
    {
        k = k + 1;
    }
    if 1 <= k && k <= 6 && k < cs.len() && cs[k] == ' ' {
        Some(k as u8)
    } else {
        None
    }
}

/// Leading whitespace width in columns (tabs advance to 4-column stops).
pub fn indent_width(line: &str) -> (w: usize)
    requires
        indent_of(line@).0 <= usize::MAX,
    ensures
        w == indent_of(line@).0,
{
    crate::markdown::list::parse_indent(line).0
}

/// Whether a left-trimmed line opens a list item: a bullet alone or
/// followed by a space, or digits and `.`/`)` followed by a space or the
/// line end.
pub open spec fn list_item_start(t: Seq<char>) -> bool {
    let d = digit_run(t, 0);
    if t.len() == 1 && is_bullet_char(t[0]) {
        true
    } else if t.len() >= 2 && is_bullet_char(t[0]) && t[1] == ' ' {
        true
    } else if d == 0 || d >= t.len() {
        false
    } else {
        (t[d as int] == '.' || t[d as int] == ')') && (d + 1 == t.len() || t[d + 1int] == ' ')
    }
}

/// Reports whether a left-trimmed line opens a list item.
pub fn is_list_item(trimmed_start: &str) -> (b: bool)
    ensures
        b == list_item_start(trimmed_start@),
{
    let t = str_chars(trimmed_start);
    let n = t.len();
    if n == 1 && (t[0] == '-' || t[0] == '*' || t[0] == '+') {
        return true;
    }
    if n >= 2 && (t[0] == '-' || t[0] == '*' || t[0] == '+') && t[1] == ' ' {
        return true;
    }
    let mut d: usize = 0;
    while d < n && '0' <= t[d] && t[d] <= '9'
        invariant
            d <= n == t@.len(),
            digit_run(t@, 0) == d + digit_run(t@, d as nat),
        decreases n - d,
    {
        d = d + 1;
    }
    if d == 0 || d >= n {
        return false;
    }
    (t[d] == '.' || t[d] == ')') && (d + 1 == n || t[d + 1] == ' ')
}


/// A row range as a pair of bounds.
pub open spec fn range_view(r: Option<&Range<usize>>) -> Option<(nat, nat)> {
    match r {
        Some(b) => Some((b.start as nat, b.end as nat)),
        None => None,
    }
}

/// Row `r` without its trailing line-break characters.
pub open spec fn row_text(t: Seq<char>, r: nat) -> Seq<char> {
    strip_breaks(line_at(t, r))
}

/// Row `r` holds nothing but whitespace.
pub open spec fn row_blank(t: Seq<char>, r: nat) -> bool {
    trim_start(row_text(t, r)).len() == 0
}

/// Row `r` lies in fenced code (an odd number of fence rows above it) or in
/// the frontmatter block; such rows never open folds.
pub open spec fn row_opaque(r: nat, fences: Seq<usize>, fm: Option<(nat, nat)>) -> bool {
    count_below(fences, r as usize) % 2 == 1 || (fm matches Some(b) && b.0 <= r && r < b.1)
}

/// Heading level of row `r` when it opens a section.
pub open spec fn row_heading(t: Seq<char>, r: nat, fences: Seq<usize>, fm: Option<(nat, nat)>) -> Option<u8> {
    if row_opaque(r, fences, fm) {
        None
    } else {
        heading_level_of(trim_start(row_text(t, r)))
    }
}

/// Row `r` opens a list item.
pub open spec fn row_list(t: Seq<char>, r: nat, fences: Seq<usize>, fm: Option<(nat, nat)>) -> bool {
    !row_opaque(r, fences, fm) && list_item_start(trim_start(row_text(t, r)))
}

/// Indentation width of row `r`.
pub open spec fn row_indent(t: Seq<char>, r: nat) -> nat {
    indent_of(row_text(t, r)).0
}

/// Row `c` ends the fold opened at row `r`: a heading section ends at the
/// next heading of the same or a higher level; a list subtree ends at the
/// next heading, the next item indented no deeper, or the next other
/// non-blank row indented less.
pub open spec fn closes(t: Seq<char>, fences: Seq<usize>, fm: Option<(nat, nat)>, r: nat, c: nat) -> bool {
    &&& !row_blank(t, c)
    &&& match row_heading(t, r, fences, fm) {
        Some(level) => row_heading(t, c, fences, fm) matches Some(l2) && l2 <= level,
        None => row_heading(t, c, fences, fm) is Some || (row_list(t, c, fences, fm) && row_indent(t, c)
            <= row_indent(t, r)) || (!row_list(t, c, fences, fm) && row_indent(t, c) < row_indent(t, r)),
    }
}

/// The first row from `c` on that ends the fold opened at `r`, or the row
/// count.
pub open spec fn close_row(t: Seq<char>, fences: Seq<usize>, fm: Option<(nat, nat)>, r: nat, c: nat) -> nat
    decreases line_count(t) - c,
{
    if c >= line_count(t) {
        line_count(t)
    } else if closes(t, fences, fm, r, c) {
        c
    } else {
        close_row(t, fences, fm, r, c + 1)
    }
}

/// `e`, moved up past blank rows but not above `r`.
pub open spec fn trim_blank_rows(t: Seq<char>, r: nat, e: nat) -> nat
    decreases e,
{
    if e > r && row_blank(t, e) {
        trim_blank_rows(t, r, (e - 1) as nat)
    } else {
        e
    }
}

/// Row `r` opens a fold.
pub open spec fn opens_fold(t: Seq<char>, fences: Seq<usize>, fm: Option<(nat, nat)>, r: nat) -> bool {
    row_heading(t, r, fences, fm) is Some || row_list(t, r, fences, fm)
}

/// Last row of the fold opened at `r`, trailing blank rows trimmed.
pub open spec fn fold_end(t: Seq<char>, fences: Seq<usize>, fm: Option<(nat, nat)>, r: nat) -> nat {
    trim_blank_rows(t, r, (close_row(t, fences, fm, r, r + 1) - 1) as nat)
}

/// The folds opened at rows `r..`, in row order; a fold spanning one row
/// is dropped.
pub open spec fn folds_from(t: Seq<char>, fences: Seq<usize>, fm: Option<(nat, nat)>, r: nat) -> Seq<FoldRange>
    decreases line_count(t) - r,
{
    if r >= line_count(t) {
        Seq::empty()
    } else {
        let rest = folds_from(t, fences, fm, r + 1);
        let e = fold_end(t, fences, fm, r);
        if opens_fold(t, fences, fm, r) && e > r {
            seq![FoldRange { start_row: r as usize, end_row: e as usize }] + rest
        } else {
            rest
        }
    }
}

/// Per-row structure used by the fold scan.
struct StructureRow {
    blank: bool,
    heading: Option<u8>,
    list: bool,
    indent: usize,
}

/// The row facts the scan reads match the text.
spec fn row_ok(x: StructureRow, t: Seq<char>, fences: Seq<usize>, fm: Option<(nat, nat)>, r: nat) -> bool {
    &&& x.blank == row_blank(t, r)
    &&& x.heading == row_heading(t, r, fences, fm)
    &&& x.list == row_list(t, r, fences, fm)
    &&& x.indent == row_indent(t, r)
}

fn structure_row(buffer: &EditorBuffer, row: usize, fences: &[usize], frontmatter: Option<&Range<usize>>) -> (x: StructureRow)
    requires
        row < line_count(buffer.text_view()),
        indents_fit(buffer.text_view()),
    ensures
        row_ok(x, buffer.text_view(), fences@, range_view(frontmatter), row as nat),
{
    let ghost t = buffer.text_view();
    let raw = buffer.line_to_string(row);
    let rc = str_chars(raw.as_str());
    let text = crate::markdown::list_tab::strip_breaks_exec(&rc);
    let k = crate::text::skip_space_exec(&text, 0);
    let trimmed_v = crate::text::slice_chars(&text, k, text.len());
    let trimmed = crate::text::chars_to_string(&trimmed_v);
    let text_s = crate::text::chars_to_string(&text);
    proof {
        assert(rc@ == line_at(t, row as nat));
        assert(trimmed@ =~= trim_start(text@));
        assert(indent_of(text_s@).0 <= usize::MAX);
    }
    let opaque = crate::markdown::table::is_fenced_row(fences, row) || match frontmatter {
        Some(b) => b.start <= row && row < b.end,
        None => false,
    };
    let heading = if opaque {
        None
    } else {
        heading_level(trimmed.as_str())
    };
    let list = !opaque && is_list_item(trimmed.as_str());
    StructureRow { blank: trimmed_v.len() == 0, heading, list, indent: indent_width(text_s.as_str()) }
}

/// Computes the foldable ranges of the buffer, sorted by start row: heading
/// sections run to the next heading of equal or higher level, list
/// subtrees over the rows that continue them; trailing blank rows trim off
/// and single-row spans are dropped. Rows inside fenced code (`fences`
/// lists the fence rows) or the frontmatter block never open folds.
pub fn markdown_fold_ranges(buffer: &EditorBuffer, fences: &[usize], frontmatter: Option<&Range<usize>>) -> (ranges: Vec<FoldRange>)
    requires
        indents_fit(buffer.text_view()),
    ensures
        ranges@ == folds_from(buffer.text_view(), fences@, range_view(frontmatter), 0),
{
    let ghost t = buffer.text_view();
    let ghost f = fences@;
    let ghost fm = range_view(frontmatter);
    let total = buffer.len_lines();
    let mut rows: Vec<StructureRow> = Vec::new();
    let mut row: usize = 0;
    while row < total
        invariant
            total == line_count(t),
            t == buffer.text_view(),
            f == fences@,
            indents_fit(t),
            row <= total,
            rows@.len() == row,
            fm == range_view(frontmatter),
            forall|q: int| 0 <= q < row ==> row_ok(#[trigger] rows@[q], t, f, fm, q as nat),
        decreases total - row,
    {
        let x = structure_row(buffer, row, fences, frontmatter);
        rows.push(x);
        row = row + 1;
    }
    let mut out: Vec<FoldRange> = Vec::new();
    let mut r: usize = total;
    while r > 0
        invariant
            total == line_count(t),
            r <= total,
            rows@.len() == total,
            forall|q: int| 0 <= q < total ==> row_ok(#[trigger] rows@[q], t, f, fm, q as nat),
            out@ == folds_from(t, f, fm, r as nat),
        decreases r,
    {
        r = r - 1;
        let opener = rows[r].heading.is_some() || rows[r].list;
        proof {
            assert(row_ok(rows@[r as int], t, f, fm, r as nat));
        }
        if opener {
            let mut c: usize = r + 1;
            while c < total
                invariant
                    total == line_count(t),
                    r < c <= total,
                    rows@.len() == total,
                    forall|q: int| 0 <= q < total ==> row_ok(#[trigger] rows@[q], t, f, fm, q as nat),
                    close_row(t, f, fm, r as nat, (r + 1) as nat) == close_row(t, f, fm, r as nat, c as nat),
                ensures
                    r < c <= total,
                    close_row(t, f, fm, r as nat, (r + 1) as nat) == close_row(t, f, fm, r as nat, c as nat),
                    c < total ==> closes(t, f, fm, r as nat, c as nat),
                decreases total - c,
            {
                proof {
                    assert(row_ok(rows@[c as int], t, f, fm, c as nat));
                    assert(row_ok(rows@[r as int], t, f, fm, r as nat));
                }
                let stop = !rows[c].blank && match rows[r].heading {
                    Some(level) => match rows[c].heading {
                        Some(l2) => l2 <= level,
                        None => false,
                    },
                    None => rows[c].heading.is_some() || (rows[c].list && rows[c].indent <= rows[r].indent) || (
                    !rows[c].list && rows[c].indent < rows[r].indent),
                };
                if stop {
                    break;
                }
                c = c + 1;
            }
            let mut end: usize = c - 1;
            while end > r && rows[end].blank
                invariant
                    r <= end < total,
                    rows@.len() == total,
                    forall|q: int| 0 <= q < total ==> row_ok(#[trigger] rows@[q], t, f, fm, q as nat),
                    trim_blank_rows(t, r as nat, (c - 1) as nat) == trim_blank_rows(t, r as nat, end as nat),
                decreases end,
            {
                proof {
                    assert(row_ok(rows@[end as int], t, f, fm, end as nat));
                }
                end = end - 1;
            }
            proof {
                assert(close_row(t, f, fm, r as nat, (r + 1) as nat) == c);
                assert(fold_end(t, f, fm, r as nat) == end);
            }
            if end > r {
                let mut next: Vec<FoldRange> = Vec::new();
                next.push(FoldRange { start_row: r, end_row: end });
                next.append(&mut out);
                out = next;
                proof {
                    assert(out@ =~= folds_from(t, f, fm, r as nat));
                }
            }
        }
    }
    out
}


proof fn lemma_close_row_bounds(t: Seq<char>, fences: Seq<usize>, fm: Option<(nat, nat)>, r: nat, c: nat)
    requires
        c <= line_count(t),
    ensures
        c <= close_row(t, fences, fm, r, c) <= line_count(t),
    decreases line_count(t) - c,
{
    if c < line_count(t) && !closes(t, fences, fm, r, c) {
        lemma_close_row_bounds(t, fences, fm, r, c + 1);
    }
}

proof fn lemma_trim_blank_rows(t: Seq<char>, r: nat, e: nat)
    ensures
        trim_blank_rows(t, r, e) <= e,
        e >= r ==> trim_blank_rows(t, r, e) >= r,
    decreases e,
{
    if e > r && row_blank(t, e) {
        lemma_trim_blank_rows(t, r, (e - 1) as nat);
    }
}

proof fn lemma_folds_from(t: Seq<char>, fences: Seq<usize>, fm: Option<(nat, nat)>, r: nat)
    requires
        line_count(t) <= usize::MAX,
    ensures
        forall|k: int|
            0 <= k < folds_from(t, fences, fm, r).len() ==> r <= (#[trigger] folds_from(t, fences, fm, r)[k]).start_row
                < folds_from(t, fences, fm, r)[k].end_row < line_count(t),
        forall|i: int, j: int|
            0 <= i < j < folds_from(t, fences, fm, r).len() ==> (#[trigger] folds_from(t, fences, fm, r)[i]).start_row
                < (#[trigger] folds_from(t, fences, fm, r)[j]).start_row,
    decreases line_count(t) - r,
{
    if r < line_count(t) {
        lemma_folds_from(t, fences, fm, r + 1);
        lemma_close_row_bounds(t, fences, fm, r, r + 1);
        let c = close_row(t, fences, fm, r, r + 1);
        lemma_trim_blank_rows(t, r, (c - 1) as nat);
        let rest = folds_from(t, fences, fm, r + 1);
        let all = folds_from(t, fences, fm, r);
        if opens_fold(t, fences, fm, r) && fold_end(t, fences, fm, r) > r {
            assert forall|k: int| 0 < k < all.len() implies all[k] == rest[k - 1] by {}
        }
    }
}

/// Fold ranges come in strictly increasing start order, and each one spans
/// at least two rows of the text.
pub proof fn law_fold_ranges_ordered(t: Seq<char>, fences: Seq<usize>, fm: Option<(nat, nat)>)
    requires
        line_count(t) <= usize::MAX,
    ensures
        forall|k: int|
            0 <= k < folds_from(t, fences, fm, 0).len() ==> (#[trigger] folds_from(t, fences, fm, 0)[k]).start_row
                < folds_from(t, fences, fm, 0)[k].end_row < line_count(t),
        forall|i: int, j: int|
            0 <= i < j < folds_from(t, fences, fm, 0).len() ==> (#[trigger] folds_from(t, fences, fm, 0)[i]).start_row
                < (#[trigger] folds_from(t, fences, fm, 0)[j]).start_row,
{
    lemma_folds_from(t, fences, fm, 0);
}


/// Row `q` is a heading of level `level` or higher (a smaller number).
pub open spec fn heading_at_most(t: Seq<char>, fences: Seq<usize>, fm: Option<(nat, nat)>, q: nat, level: u8) -> bool {
    row_heading(t, q, fences, fm) matches Some(l2) && l2 <= level
}

proof fn lemma_heading_close(t: Seq<char>, fences: Seq<usize>, fm: Option<(nat, nat)>, r: nat, level: u8, c: nat)
    requires
        row_heading(t, r, fences, fm) == Some(level),
        c <= line_count(t),
    ensures
        c <= close_row(t, fences, fm, r, c) <= line_count(t),
        forall|q: nat|
            c <= q < close_row(t, fences, fm, r, c) ==> !#[trigger] heading_at_most(t, fences, fm, q, level),
        close_row(t, fences, fm, r, c) < line_count(t) ==> heading_at_most(
            t,
            fences,
            fm,
            close_row(t, fences, fm, r, c),
            level,
        ),
    decreases line_count(t) - c,
{
    if c < line_count(t) && !closes(t, fences, fm, r, c) {
        lemma_heading_close(t, fences, fm, r, level, c + 1);
    }
}

/// A heading section ends exactly at the next heading of the same or a
/// higher level (or the end of the text): every row before it, blank rows
/// included, stays in the section.
pub proof fn law_heading_section_end(t: Seq<char>, fences: Seq<usize>, fm: Option<(nat, nat)>, r: nat, level: u8)
    requires
        r < line_count(t),
        row_heading(t, r, fences, fm) == Some(level),
    ensures
        r < close_row(t, fences, fm, r, r + 1) <= line_count(t),
        forall|q: nat|
            r < q < close_row(t, fences, fm, r, r + 1) ==> !#[trigger] heading_at_most(t, fences, fm, q, level),
        close_row(t, fences, fm, r, r + 1) < line_count(t) ==> heading_at_most(
            t,
            fences,
            fm,
            close_row(t, fences, fm, r, r + 1),
            level,
        ),
{
    lemma_heading_close(t, fences, fm, r, level, r + 1);
}

proof fn lemma_close_row_first(t: Seq<char>, fences: Seq<usize>, fm: Option<(nat, nat)>, r: nat, c: nat)
    requires
        c <= line_count(t),
    ensures
        c <= close_row(t, fences, fm, r, c) <= line_count(t),
        forall|q: nat| c <= q < close_row(t, fences, fm, r, c) ==> !#[trigger] closes(t, fences, fm, r, q),
        close_row(t, fences, fm, r, c) < line_count(t) ==> closes(t, fences, fm, r, close_row(t, fences, fm, r, c)),
    decreases line_count(t) - c,
{
    if c < line_count(t) && !closes(t, fences, fm, r, c) {
        lemma_close_row_first(t, fences, fm, r, c + 1);
    }
}

/// Row `q` ends a list subtree opened at a row indented `ind`: a heading,
/// an item indented no deeper, or another non-blank line indented less.
pub open spec fn ends_list(t: Seq<char>, fences: Seq<usize>, fm: Option<(nat, nat)>, q: nat, ind: nat) -> bool {
    &&& !row_blank(t, q)
    &&& row_heading(t, q, fences, fm) is Some || (row_list(t, q, fences, fm) && row_indent(t, q) <= ind) || (
    !row_list(t, q, fences, fm) && row_indent(t, q) < ind)
}

/// A list item's subtree runs over blank rows, deeper items and lines
/// indented at least as deep as the item, and ends at the first later
/// heading, item indented no deeper, or other line indented less (or at
/// the end of the text).
pub proof fn law_list_subtree_end(t: Seq<char>, fences: Seq<usize>, fm: Option<(nat, nat)>, r: nat)
    requires
        r < line_count(t),
        row_heading(t, r, fences, fm) is None,
        row_list(t, r, fences, fm),
    ensures
        r < close_row(t, fences, fm, r, r + 1) <= line_count(t),
        forall|q: nat|
            r < q < close_row(t, fences, fm, r, r + 1) ==> !#[trigger] ends_list(t, fences, fm, q, row_indent(t, r)),
        close_row(t, fences, fm, r, r + 1) < line_count(t) ==> ends_list(
            t,
            fences,
            fm,
            close_row(t, fences, fm, r, r + 1),
            row_indent(t, r),
        ),
{
    lemma_close_row_first(t, fences, fm, r, r + 1);
    assert forall|q: nat| r < q < close_row(t, fences, fm, r, r + 1) implies !#[trigger] ends_list(
        t,
        fences,
        fm,
        q,
        row_indent(t, r),
    ) by {
        assert(!closes(t, fences, fm, r, q));
    }
}

proof fn lemma_folds_open(t: Seq<char>, fences: Seq<usize>, fm: Option<(nat, nat)>, r: nat)
    requires
        line_count(t) <= usize::MAX,
    ensures
        forall|k: int|
            0 <= k < folds_from(t, fences, fm, r).len() ==> opens_fold(
                t,
                fences,
                fm,
                (#[trigger] folds_from(t, fences, fm, r)[k]).start_row as nat,
            ),
    decreases line_count(t) - r,
{
    if r < line_count(t) {
        lemma_folds_open(t, fences, fm, r + 1);
        let rest = folds_from(t, fences, fm, r + 1);
        let all = folds_from(t, fences, fm, r);
        if opens_fold(t, fences, fm, r) && fold_end(t, fences, fm, r) > r {
            assert forall|k: int| 0 < k < all.len() implies all[k] == rest[k - 1] by {}
        }
    }
}

/// Rows inside fenced code or the frontmatter block never open a fold.
pub proof fn law_opaque_rows_open_no_fold(t: Seq<char>, fences: Seq<usize>, fm: Option<(nat, nat)>)
    requires
        line_count(t) <= usize::MAX,
    ensures
        forall|k: int|
            0 <= k < folds_from(t, fences, fm, 0).len() ==> !row_opaque(
                (#[trigger] folds_from(t, fences, fm, 0)[k]).start_row as nat,
                fences,
                fm,
            ),
{
    lemma_folds_open(t, fences, fm, 0);
}

proof fn lemma_trim_keeps(t: Seq<char>, r: nat, e: nat, c: nat)
    requires
        r < c <= e,
        !row_blank(t, c),
    ensures
        trim_blank_rows(t, r, e) >= c,
    decreases e,
{
    if e > c && row_blank(t, e) {
        lemma_trim_keeps(t, r, (e - 1) as nat, c);
    }
}

proof fn lemma_folds_hold(t: Seq<char>, fences: Seq<usize>, fm: Option<(nat, nat)>, s: nat, r: nat)
    requires
        s <= r < line_count(t),
        opens_fold(t, fences, fm, r),
        fold_end(t, fences, fm, r) > r,
    ensures
        exists|k: int|
            0 <= k < folds_from(t, fences, fm, s).len() && #[trigger] folds_from(t, fences, fm, s)[k] == (FoldRange {
                start_row: r as usize,
                end_row: fold_end(t, fences, fm, r) as usize,
            }),
    decreases r - s,
{
    let f = FoldRange { start_row: r as usize, end_row: fold_end(t, fences, fm, r) as usize };
    let all = folds_from(t, fences, fm, s);
    if s == r {
        assert(all[0] == f);
    } else {
        lemma_folds_hold(t, fences, fm, s + 1, r);
        let rest = folds_from(t, fences, fm, s + 1);
        let k = choose|k: int| 0 <= k < rest.len() && #[trigger] rest[k] == f;
        if opens_fold(t, fences, fm, s) && fold_end(t, fences, fm, s) > s {
            assert(all[k + 1] == f);
        } else {
            assert(all[k] == f);
        }
    }
}

/// A heading's fold covers its section: when no heading of the same or a
/// higher level comes between heading row `r` and a later non-blank row
/// `c`, the fold ranges hold one starting at `r` that reaches at least
/// `c`; blank rows in between never end it.
pub proof fn law_heading_fold_covers_section(
    t: Seq<char>,
    fences: Seq<usize>,
    fm: Option<(nat, nat)>,
    r: nat,
    level: u8,
    c: nat,
)
    requires
        line_count(t) <= usize::MAX,
        row_heading(t, r, fences, fm) == Some(level),
        r < c < line_count(t),
        !row_blank(t, c),
        forall|q: nat| r < q <= c ==> !#[trigger] heading_at_most(t, fences, fm, q, level),
    ensures
        exists|k: int|
            0 <= k < folds_from(t, fences, fm, 0).len() && (#[trigger] folds_from(t, fences, fm, 0)[k]).start_row
                == r && folds_from(t, fences, fm, 0)[k].end_row >= c,
{
    lemma_heading_close(t, fences, fm, r, level, r + 1);
    let e = close_row(t, fences, fm, r, r + 1);
    if e <= c {
        assert(heading_at_most(t, fences, fm, e, level));
    }
    lemma_trim_keeps(t, r, (e - 1) as nat, c);
    lemma_trim_blank_rows(t, r, (e - 1) as nat);
    lemma_folds_hold(t, fences, fm, 0, r);
    let f = FoldRange { start_row: r as usize, end_row: fold_end(t, fences, fm, r) as usize };
    let k = choose|k: int| 0 <= k < folds_from(t, fences, fm, 0).len() && #[trigger] folds_from(t, fences, fm, 0)[k] == f;
    assert(folds_from(t, fences, fm, 0)[k].start_row == r);
}

/// The frontmatter block: row 0 reads `---` (surrounding whitespace aside)
/// and the block runs through the first later row, outside fenced code,
/// that reads `---` or `...`; `None` when unclosed.
pub open spec fn frontmatter_from(t: Seq<char>, fences: Seq<usize>, row: nat) -> Option<(nat, nat)>
    decreases line_count(t) - row,
{
    if row >= line_count(t) {
        None
    } else if count_below(fences, row as usize) % 2 == 0 && (crate::text::trim(line_at(t, row)) == seq!['-', '-', '-']
        || crate::text::trim(line_at(t, row)) == seq!['.', '.', '.']) {
        Some((0, row + 1))
    } else {
        frontmatter_from(t, fences, row + 1)
    }
}

/// The document-leading frontmatter block's rows.
pub open spec fn frontmatter_spec(t: Seq<char>, fences: Seq<usize>) -> Option<(nat, nat)> {
    if crate::text::trim(line_at(t, 0)) == seq!['-', '-', '-'] {
        frontmatter_from(t, fences, 1)
    } else {
        None
    }
}

fn is_rule_of(cs: &Vec<char>, c: char) -> (b: bool)
    ensures
        b == (cs@ == seq![c, c, c]),
{
    let b = cs.len() == 3 && cs[0] == c && cs[1] == c && cs[2] == c;
    proof {
        if b {
            assert(cs@ =~= seq![c, c, c]);
        }
    }
    b
}

/// Locates a document-leading YAML frontmatter block: row 0 must read
/// `---` and the returned rows run through the first later `---` or `...`
/// row outside fenced code. An unclosed opener yields `None`.
pub fn scan_frontmatter(buffer: &EditorBuffer, fences: &[usize]) -> (r: Option<Range<usize>>)
    ensures
        match r {
            Some(b) => frontmatter_spec(buffer.text_view(), fences@) == Some((b.start as nat, b.end as nat)),
            None => frontmatter_spec(buffer.text_view(), fences@) is None,
        },
{
    let ghost t = buffer.text_view();
    let first = crate::text::trim_chars(&str_chars(buffer.line_to_string(0).as_str()));
    proof {
        if line_count(t) == 0 {
            assert(line_at(t, 0) =~= Seq::<char>::empty());
        }
    }
    if !is_rule_of(&first, '-') {
        return None;
    }
    assert(first@ == crate::text::trim(line_at(t, 0)));
    let n = buffer.len_lines();
    let mut row: usize = 1;
    while row < n
        invariant
            n == line_count(t),
            t == buffer.text_view(),
            1 <= row,
            crate::text::trim(line_at(t, 0)) == seq!['-', '-', '-'],
            frontmatter_from(t, fences@, 1) == frontmatter_from(t, fences@, row as nat),
        decreases n - row,
    {
        if !crate::markdown::table::is_fenced_row(fences, row) {
            let cs = crate::text::trim_chars(&str_chars(buffer.line_to_string(row).as_str()));
            if is_rule_of(&cs, '-') || is_rule_of(&cs, '.') {
                proof {
                    assert(cs@ == crate::text::trim(line_at(t, row as nat)));
                    assert(frontmatter_from(t, fences@, row as nat) == Some((0nat, (row + 1) as nat)));
                }
                return Some(0..row + 1);
            }
            proof {
                assert(cs@ == crate::text::trim(line_at(t, row as nat)));
            }
        }
        row = row + 1;
    }
    None
}

impl crate::markdown::config::MarkdownHighlighter {
    /// Whether `row` sits inside a fenced code block.
    pub fn is_in_fenced_code_block(&self, buffer: &EditorBuffer, current_row: usize) -> (b: bool)
        ensures
            b == (count_below(
                crate::markdown::table::fences_upto(buffer.text_view(), line_count(buffer.text_view())),
                current_row,
            ) % 2 == 1),
    {
        let fences = crate::markdown::table::fence_rows(buffer);
        crate::markdown::table::is_fenced_row(fences.as_slice(), current_row)
    }

    /// The document's fold ranges (see [`markdown_fold_ranges`]), with the
    /// buffer's own fence rows and frontmatter block; none when some line's
    /// indentation width would not fit in a `usize`.
    pub fn foldable_ranges(&self, buffer: &EditorBuffer) -> (ranges: Vec<FoldRange>)
        ensures
            ({
                let t = buffer.text_view();
                let f = crate::markdown::table::fences_upto(t, line_count(t));
                if indents_fit(t) {
                    ranges@ == folds_from(t, f, frontmatter_spec(t, f), 0)
                } else {
                    ranges@.len() == 0
                }
            }),
    {
        if !crate::markdown::list_tab::indents_fit_check(buffer) {
            return Vec::new();
        }
        let fences = crate::markdown::table::fence_rows(buffer);
        let fm = scan_frontmatter(buffer, fences.as_slice());
        match fm {
            Some(b) => markdown_fold_ranges(buffer, fences.as_slice(), Some(&b)),
            None => markdown_fold_ranges(buffer, fences.as_slice(), None),
        }
    }
}

} // verus!
