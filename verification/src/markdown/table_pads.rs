//! Display padding that lines up a table row's cells with its block's
//! column widths.
use vstd::prelude::*;
use crate::buffer::{min_nat, EditorBuffer};
use crate::markdown::table::{
    cell_spans, layout_matches, layouts_from, fences_upto, row_kind, strip_eol, TableAlignment, TableLayout,
    TableRowKind,
};
use crate::rope_text::line_count;
use crate::syntax::{first_at_least, str_display_width, ConcealedLine, DisplayPad};
use crate::text::{byte_at, byte_len, str_chars};

verus! {

/// The first character of `d`, from `k` on, starting at or after byte `b`.
pub open spec fn char_at_or_after(d: Seq<char>, b: nat, k: nat) -> nat
    decreases d.len() - k,
{
    if k >= d.len() || byte_at(d, k as int) >= b {
        k
    } else {
        char_at_or_after(d, b, k + 1)
    }
}

/// The last character of `d`, at or before `k`, starting at or before
/// byte `b` (character 0 when none does).
pub open spec fn char_at_or_before(d: Seq<char>, b: nat, k: nat) -> nat
    decreases k,
{
    if k == 0 || byte_at(d, k as int) <= b {
        k
    } else {
        char_at_or_before(d, b, (k - 1) as nat)
    }
}

/// Byte `i` (capped at the end) moved forward to a character boundary.
pub open spec fn snap_fwd(d: Seq<char>, i: nat) -> nat {
    byte_at(d, char_at_or_after(d, min_nat(i, byte_len(d)), 0) as int)
}

/// Byte `i` (capped at the end) moved back to a character boundary.
pub open spec fn snap_back(d: Seq<char>, i: nat) -> nat {
    byte_at(d, char_at_or_before(d, min_nat(i, byte_len(d)), d.len()) as int)
}

proof fn lemma_char_at_or_after(d: Seq<char>, b: nat, k: nat)
    requires
        k <= d.len(),
    ensures
        k <= char_at_or_after(d, b, k) <= d.len(),
    decreases d.len() - k,
{
    if k < d.len() && byte_at(d, k as int) < b {
        lemma_char_at_or_after(d, b, k + 1);
    }
}

proof fn lemma_char_at_or_before(d: Seq<char>, b: nat, k: nat)
    ensures
        char_at_or_before(d, b, k) <= k,
    decreases k,
{
    if k > 0 && byte_at(d, k as int) > b {
        lemma_char_at_or_before(d, b, (k - 1) as nat);
    }
}

/// Snaps a display byte offset forward to a character boundary.
pub fn snap_display_fwd(display: &str, i: usize) -> (r: usize)
    ensures
        r == snap_fwd(display@, i as nat),
{
    let d = str_chars(display);
    let offs = crate::text::char_offsets(&d);
    let n = d.len();
    let len = offs[n];
    proof {
        crate::text::lemma_byte_at_len(d@);
    }
    let j = if i < len {
        i
    } else {
        len
    };
    let mut k: usize = 0;
    while k < n && offs[k] < j
        invariant
            n == d@.len(),
            offs@.len() == n + 1,
            forall|m: int| 0 <= m <= n ==> offs@[m] == byte_at(d@, m),
            k <= n,
            char_at_or_after(d@, j as nat, 0) == char_at_or_after(d@, j as nat, k as nat),
        decreases n - k,
    {
        k = k + 1;
    }
    offs[k]
}

/// Snaps a display byte offset back to a character boundary.
pub fn snap_display_back(display: &str, i: usize) -> (r: usize)
    ensures
        r == snap_back(display@, i as nat),
{
    let d = str_chars(display);
    let offs = crate::text::char_offsets(&d);
    let n = d.len();
    let len = offs[n];
    proof {
        crate::text::lemma_byte_at_len(d@);
    }
    let j = if i < len {
        i
    } else {
        len
    };
    let mut k: usize = n;
    while k > 0 && offs[k] > j
        invariant
            n == d@.len(),
            offs@.len() == n + 1,
            forall|m: int| 0 <= m <= n ==> offs@[m] == byte_at(d@, m),
            k <= n,
            char_at_or_before(d@, j as nat, n as nat) == char_at_or_before(d@, j as nat, k as nat),
        decreases k,
    {
        k = k - 1;
    }
    offs[k]
}

/// First character index from `i` on, before `end`, that is not a space
/// or tab.
pub open spec fn skip_blanks_to(d: Seq<char>, i: nat, end: nat) -> nat
    decreases end - i,
{
    if i < end && (d[i as int] == ' ' || d[i as int] == '\t') {
        skip_blanks_to(d, i + 1, end)
    } else {
        i
    }
}

/// `e`, moved back over spaces and tabs but not below `lo`.
pub open spec fn back_blanks_to(d: Seq<char>, e: nat, lo: nat) -> nat
    decreases e,
{
    if e > lo && (d[e - 1] == ' ' || d[e - 1] == '\t') {
        back_blanks_to(d, (e - 1) as nat, lo)
    } else {
        e
    }
}

/// The display offset of source byte `x` as [`ConcealedLine::source_to_display`]
/// computes it.
pub open spec fn to_display(c: ConcealedLine, x: usize) -> nat {
    let p = first_at_least(c.source_map(), x, c.source_map().len());
    if p <= byte_len(c.display_view()) {
        p
    } else {
        byte_len(c.display_view())
    }
}

/// The padding for cell `i` of a table row: the cell's display slice,
/// blanks trimmed, is widened to the column width: delimiter rows extend
/// the dash run (before a trailing `:`), other rows pad with spaces on the
/// side the column's alignment leaves free (both sides when centred).
pub open spec fn cell_pads(
    widths: Seq<nat>,
    aligns: Seq<TableAlignment>,
    kind: TableRowKind,
    source: Seq<char>,
    c: ConcealedLine,
    i: int,
) -> Seq<DisplayPad> {
    let d = c.display_view();
    let sc = strip_eol(source);
    let cell = cell_spans(sc)[i];
    let a = min_nat(byte_at(sc, cell.0 as int), byte_len(source));
    let b = min_nat(byte_at(sc, cell.1 as int), byte_len(source));
    let ds = snap_fwd(d, to_display(c, a as usize));
    let de = snap_back(d, to_display(c, b as usize));
    let dsi = char_at_or_after(d, min_nat(to_display(c, a as usize), byte_len(d)), 0);
    let dei = char_at_or_before(d, min_nat(to_display(c, b as usize), byte_len(d)), d.len());
    let csi = skip_blanks_to(d, dsi, dei);
    let cei = back_blanks_to(d, dei, csi);
    let cw = str_display_width(d.subrange(csi as int, cei as int));
    let width = widths[i];
    if ds >= de || cw >= width {
        Seq::empty()
    } else {
        let need = (width - cw) as usize;
        let cs = byte_at(d, csi as int) as usize;
        let ce = byte_at(d, cei as int) as usize;
        if kind == TableRowKind::Delimiter {
            let at = if cei > csi && d[cei - 1] == ':' {
                byte_at(d, cei - 1) as usize
            } else {
                ce
            };
            seq![DisplayPad { display_at: at, fill: '-', len: need }]
        } else {
            let align = if i < aligns.len() {
                aligns[i]
            } else {
                TableAlignment::Unaligned
            };
            match align {
                TableAlignment::Right => seq![DisplayPad { display_at: cs, fill: ' ', len: need }],
                TableAlignment::Center => {
                    let left = (need / 2) as usize;
                    let right = (need - left) as usize;
                    (if left > 0 {
                        seq![DisplayPad { display_at: cs, fill: ' ', len: left }]
                    } else {
                        Seq::empty()
                    }) + (if right > 0 {
                        seq![DisplayPad { display_at: ce, fill: ' ', len: right }]
                    } else {
                        Seq::empty()
                    })
                },
                _ => seq![DisplayPad { display_at: ce, fill: ' ', len: need }],
            }
        }
    }
}

/// Column widths as numbers.
pub open spec fn widths_view(w: Seq<usize>) -> Seq<nat> {
    w.map_values(|x: usize| x as nat)
}

/// The padding for cells `0..n` of a table row, in cell order.
pub open spec fn row_pads(
    widths: Seq<nat>,
    aligns: Seq<TableAlignment>,
    kind: TableRowKind,
    source: Seq<char>,
    c: ConcealedLine,
    n: nat,
) -> Seq<DisplayPad>
    decreases n,
{
    if n == 0 {
        Seq::empty()
    } else {
        row_pads(widths, aligns, kind, source, c, (n - 1) as nat) + cell_pads(
            widths,
            aligns,
            kind,
            source,
            c,
            n - 1,
        )
    }
}


/// The padding for cell `i` (see [`cell_pads`]).
#[verifier::rlimit(40)]
fn cell_pads_exec(
    layout: &TableLayout,
    kind: TableRowKind,
    source: &str,
    concealed: &ConcealedLine,
    d: &Vec<char>,
    offs: &Vec<usize>,
    cells: &Vec<std::ops::Range<usize>>,
    srclen: usize,
    i: usize,
) -> (pads: Vec<DisplayPad>)
    requires
        d@ == concealed.display_view(),
        byte_len(d@) <= usize::MAX,
        offs@.len() == d@.len() + 1,
        forall|m: int| 0 <= m <= d@.len() ==> offs@[m] == byte_at(d@, m),
        srclen == byte_len(source@),
        cells@.len() == cell_spans(strip_eol(source@)).len(),
        forall|k: int|
            0 <= k < cells@.len() ==> cells@[k].start == byte_at(strip_eol(source@), cell_spans(strip_eol(source@))[k].0 as int)
                && cells@[k].end == byte_at(strip_eol(source@), cell_spans(strip_eol(source@))[k].1 as int),
        i < cells@.len(),
        i < layout.col_widths@.len(),
    ensures
        pads@ == cell_pads(widths_view(layout.col_widths@), layout.block.aligns@, kind, source@, *concealed, i as int),
{
    let ghost sc = strip_eol(source@);
    let n = d.len();
    let dlen = offs[n];
    proof {
        crate::text::lemma_byte_at_len(d@);
    }
    let mut pads: Vec<DisplayPad> = Vec::new();
    let width = layout.col_widths[i];
    let a = if cells[i].start < srclen {
        cells[i].start
    } else {
        srclen
    };
    let b = if cells[i].end < srclen {
        cells[i].end
    } else {
        srclen
    };
    let x0 = concealed.source_to_display(a);
    let y0 = concealed.source_to_display(b);
    let x = if x0 < dlen {
        x0
    } else {
        dlen
    };
    let y = if y0 < dlen {
        y0
    } else {
        dlen
    };
    let mut dsi: usize = 0;
    while dsi < n && offs[dsi] < x
        invariant
            n == d@.len(),
            offs@.len() == n + 1,
            forall|m: int| 0 <= m <= n ==> offs@[m] == byte_at(d@, m),
            dsi <= n,
            char_at_or_after(d@, x as nat, 0) == char_at_or_after(d@, x as nat, dsi as nat),
        decreases n - dsi,
    {
        dsi = dsi + 1;
    }
    let mut dei: usize = n;
    while dei > 0 && offs[dei] > y
        invariant
            n == d@.len(),
            offs@.len() == n + 1,
            forall|m: int| 0 <= m <= n ==> offs@[m] == byte_at(d@, m),
            dei <= n,
            char_at_or_before(d@, y as nat, n as nat) == char_at_or_before(d@, y as nat, dei as nat),
        decreases dei,
    {
        dei = dei - 1;
    }
    proof {
        let sa = min_nat(byte_at(sc, cell_spans(sc)[i as int].0 as int), byte_len(source@));
        let sb = min_nat(byte_at(sc, cell_spans(sc)[i as int].1 as int), byte_len(source@));
        assert(cells@[i as int].start == byte_at(sc, cell_spans(sc)[i as int].0 as int));
        assert(cells@[i as int].end == byte_at(sc, cell_spans(sc)[i as int].1 as int));
        assert(a == sa);
        assert(b == sb);
        assert(dsi == char_at_or_after(d@, min_nat(to_display(*concealed, sa as usize), byte_len(d@)), 0));
        assert(dei == char_at_or_before(d@, min_nat(to_display(*concealed, sb as usize), byte_len(d@)), d@.len()));
    }
    if offs[dsi] >= offs[dei] {
        return pads;
    }
    proof {
        if dsi >= dei {
            crate::text::lemma_byte_at_mono(d@, dei as int, dsi as int);
        }
    }
    let mut csi: usize = dsi;
    while csi < dei && (d[csi] == ' ' || d[csi] == '\t')
        invariant
            n == d@.len(),
            dsi <= csi <= dei <= n,
            skip_blanks_to(d@, dsi as nat, dei as nat) == skip_blanks_to(d@, csi as nat, dei as nat),
        decreases dei - csi,
    {
        csi = csi + 1;
    }
    let mut cei: usize = dei;
    while cei > csi && (d[cei - 1] == ' ' || d[cei - 1] == '\t')
        invariant
            n == d@.len(),
            csi <= cei <= dei <= n,
            back_blanks_to(d@, dei as nat, csi as nat) == back_blanks_to(d@, cei as nat, csi as nat),
        decreases cei,
    {
        cei = cei - 1;
    }
    let slice = crate::text::slice_chars(d, csi, cei);
    let cw = crate::syntax::display_width(crate::text::chars_to_string(&slice).as_str());
    if cw >= width {
        return pads;
    }
    let need = width - cw;
    let cs = offs[csi];
    let ce = offs[cei];
    if kind == TableRowKind::Delimiter {
        let at = if cei > csi && d[cei - 1] == ':' {
            offs[cei - 1]
        } else {
            ce
        };
        pads.push(DisplayPad { display_at: at, fill: '-', len: need });
        proof {
            assert(pads@ =~= cell_pads(widths_view(layout.col_widths@), layout.block.aligns@, kind, source@, *concealed, i as int));
        }
        return pads;
    }
    let align = if i < layout.block.aligns.len() {
        layout.block.aligns[i]
    } else {
        TableAlignment::Unaligned
    };
    match align {
        TableAlignment::Right => {
            pads.push(DisplayPad { display_at: cs, fill: ' ', len: need });
        },
        TableAlignment::Center => {
            let left = need / 2;
            let right = need - left;
            if left > 0 {
                pads.push(DisplayPad { display_at: cs, fill: ' ', len: left });
            }
            if right > 0 {
                pads.push(DisplayPad { display_at: ce, fill: ' ', len: right });
            }
        },
        _ => {
            pads.push(DisplayPad { display_at: ce, fill: ' ', len: need });
        },
    }
    proof {
        assert(pads@ =~= cell_pads(widths_view(layout.col_widths@), layout.block.aligns@, kind, source@, *concealed, i as int));
    }
    pads
}

/// Computes display-only padding aligning one table row's cells to the
/// block's column widths: `source` is the row's text, `concealed` its
/// collapsed display form. Column widths are measured on unconcealed
/// source text, so per-row padding absorbs concealment shrinkage and pipes
/// align on active and inactive rows alike.
pub fn table_row_pads(layout: &TableLayout, kind: TableRowKind, source: &str, concealed: &ConcealedLine) -> (pads: Vec<DisplayPad>)
    ensures
        pads@ == row_pads(
            widths_view(layout.col_widths@),
            layout.block.aligns@,
            kind,
            source@,
            *concealed,
            min_nat(cell_spans(strip_eol(source@)).len(), layout.col_widths@.len()),
        ),
{
    let d = str_chars(concealed.display_str());
    let offs = crate::text::char_offsets(&d);
    let (_, cells) = crate::markdown::table::split_table_cells(source);
    let srclen = crate::text::str_byte_len(source);
    let limit = if cells.len() < layout.col_widths.len() {
        cells.len()
    } else {
        layout.col_widths.len()
    };
    let mut pads: Vec<DisplayPad> = Vec::new();
    let mut i: usize = 0;
    while i < limit
        invariant
            d@ == concealed.display_view(),
            byte_len(d@) <= usize::MAX,
            offs@.len() == d@.len() + 1,
            forall|m: int| 0 <= m <= d@.len() ==> offs@[m] == byte_at(d@, m),
            srclen == byte_len(source@),
            cells@.len() == cell_spans(strip_eol(source@)).len(),
            forall|k: int|
                0 <= k < cells@.len() ==> cells@[k].start == byte_at(strip_eol(source@), cell_spans(strip_eol(source@))[k].0 as int)
                    && cells@[k].end == byte_at(strip_eol(source@), cell_spans(strip_eol(source@))[k].1 as int),
            limit == min_nat(cells@.len(), layout.col_widths@.len()),
            i <= limit,
            pads@ == row_pads(widths_view(layout.col_widths@), layout.block.aligns@, kind, source@, *concealed, i as nat),
        decreases limit - i,
    {
        let mut cp = cell_pads_exec(layout, kind, source, concealed, &d, &offs, &cells, srclen, i);
        let ghost before = pads@;
        pads.append(&mut cp);
        proof {
            assert(pads@ =~= row_pads(widths_view(layout.col_widths@), layout.block.aligns@, kind, source@, *concealed, (i + 1) as nat));
        }
        i = i + 1;
    }
    pads
}


/// Index of the first block of `ls`, from `k` on, holding `row`.
pub open spec fn layout_index(ls: Seq<(nat, nat, nat, Seq<TableAlignment>)>, row: nat, k: nat) -> Option<nat>
    decreases ls.len() - k,
{
    if k >= ls.len() {
        None
    } else if crate::markdown::links::in_block(ls[k as int], row) {
        Some(k)
    } else {
        layout_index(ls, row, k + 1)
    }
}

/// Which part of block `s` row `row` is.
pub open spec fn kind_in(s: (nat, nat, nat, Seq<TableAlignment>), row: nat) -> TableRowKind {
    if row == s.0 {
        TableRowKind::Header
    } else if row == s.1 {
        TableRowKind::Delimiter
    } else {
        TableRowKind::Body
    }
}

impl crate::markdown::config::MarkdownHighlighter {
    /// Display padding for row `row` (collapsed as `concealed`) that lines
    /// its cells up with its table's column widths; none when aligned
    /// tables are off or the row is in no table.
    pub fn expand_line(&self, buffer: &EditorBuffer, row: usize, concealed: &ConcealedLine) -> (pads: Vec<DisplayPad>)
        ensures
            ({
                let t = buffer.text_view();
                let c = self.spec_config();
                let ls = layouts_from(t, fences_upto(t, line_count(t)), 0);
                if !(c.visual_tables && c.table_alignment) {
                    pads@.len() == 0
                } else {
                    match layout_index(ls, row as nat, 0) {
                        None => pads@.len() == 0,
                        Some(k) => {
                            let s = ls[k as int];
                            let w = crate::markdown::table::block_widths(t, s.0, s.2, s.3.len());
                            let src = strip_eol(crate::markdown::list_tab::line_at(t, row as nat));
                            pads@ == row_pads(w, s.3, kind_in(s, row as nat), src, *concealed, min_nat(cell_spans(strip_eol(src)).len(), w.len()))
                        },
                    }
                }
            }),
    {
        let c = self.config();
        if !(c.visual_tables && c.table_alignment) {
            return Vec::new();
        }
        let layouts = crate::markdown::table::table_layouts(buffer);
        let ghost t = buffer.text_view();
        let ghost ls = layouts_from(t, fences_upto(t, line_count(t)), 0);
        let mut k: usize = 0;
        while k < layouts.len()
            invariant
                t == buffer.text_view(),
                ls == layouts_from(t, fences_upto(t, line_count(t)), 0),
                self.spec_config().visual_tables && self.spec_config().table_alignment,
                layouts@.len() == ls.len(),
                forall|m: int| 0 <= m < layouts@.len() ==> layout_matches(#[trigger] layouts@[m], ls[m], t),
                k <= layouts@.len(),
                layout_index(ls, row as nat, 0) == layout_index(ls, row as nat, k as nat),
            decreases layouts@.len() - k,
        {
            proof {
                assert(layout_matches(layouts@[k as int], ls[k as int], t));
            }
            match layouts[k].block.kind_at(row) {
                Some(kind) => {
                    let raw = buffer.line_to_string(row);
                    let src = crate::text::chars_to_string(
                        &crate::markdown::table::clean_table_line(&str_chars(raw.as_str())),
                    );
                    proof {
                        assert(layout_index(ls, row as nat, k as nat) == Some(k as nat));
                        assert(kind == kind_in(ls[k as int], row as nat));
                        assert(widths_view(layouts@[k as int].col_widths@) == crate::markdown::table::block_widths(
                            t,
                            ls[k as int].0,
                            ls[k as int].2,
                            ls[k as int].3.len(),
                        ));
                        assert(raw@ == crate::markdown::list_tab::line_at(t, row as nat));
                    }
                    return table_row_pads(&layouts[k], kind, src.as_str(), concealed);
                },
                None => {},
            }
            k = k + 1;
        }
        Vec::new()
    }
}

} // verus!
