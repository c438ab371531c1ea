//! GFM pipe-table line parsing: separator pipes, cells and delimiter rows.
//!
//! Lines are scanned as characters; results are UTF-8 byte offsets.
use vstd::prelude::*;
use std::ops::Range;
use crate::buffer::EditorBuffer;
use crate::rope_text::{line_count, line_text};
use crate::syntax::{display_width, str_display_width};
use crate::text::{
    chars_to_string,
    byte_at, byte_len, char_offsets, lemma_byte_len_prefix, skip_space, skip_space_back,
    skip_space_back_exec, skip_space_exec, slice_chars, str_chars, trim, trim_chars, trim_end,
    trim_start,
};

verus! {

/// Custom highlight tag name for GFM table header cells.
pub const TABLE_HEADER_TAG: &'static str = "markdown.table.header";
/// Custom highlight tag name for GFM table body cells.
pub const TABLE_CELL_TAG: &'static str = "markdown.table.cell";
/// Custom highlight tag name for GFM table delimiter rows.
pub const TABLE_DELIMITER_TAG: &'static str = "markdown.table.delimiter";

/// Column alignment parsed from a GFM delimiter cell.
#[derive(Debug, Clone, Copy, PartialEq, Eq, Structural)]
pub enum TableAlignment {
    /// `:--`.
    Left,
    /// `:-:`.
    Center,
    /// `--:`.
    Right,
    /// `---`: no colon on either side.
    Unaligned,
}

/// Which row of a [`TableBlock`] a buffer row is.
#[derive(Debug, Clone, Copy, PartialEq, Eq, Structural)]
pub enum TableRowKind {
    /// First row of the block.
    Header,
    /// Second row (`| --- | --- |`).
    Delimiter,
    /// Any data row below the delimiter.
    Body,
}

/// A contiguous GFM pipe-table block: header + delimiter + body rows.
#[derive(Debug, Clone, PartialEq, Eq)]
pub struct TableBlock {
    /// Buffer row of the header line.
    pub header_row: usize,
    /// Buffer row of the delimiter line.
    pub delimiter_row: usize,
    /// Last body row (inclusive); equals `delimiter_row` when bodiless.
    pub end_row: usize,
    /// Number of columns.
    pub col_count: usize,
    /// Per-column alignment from the delimiter row.
    pub aligns: Vec<TableAlignment>,
}

/// The kind of `row` within a block.
pub open spec fn row_kind(b: TableBlock, row: usize) -> Option<TableRowKind> {
    if row == b.header_row {
        Some(TableRowKind::Header)
    } else if row == b.delimiter_row {
        Some(TableRowKind::Delimiter)
    } else if row > b.delimiter_row && row <= b.end_row {
        Some(TableRowKind::Body)
    } else {
        None
    }
}

impl TableBlock {
    /// Returns which part of the block `row` is, or `None` when outside it.
    pub fn kind_at(&self, row: usize) -> (k: Option<TableRowKind>)
        ensures
            k == row_kind(*self, row),
    {
        if row == self.header_row {
            Some(TableRowKind::Header)
        } else if row == self.delimiter_row {
            Some(TableRowKind::Delimiter)
        } else if row > self.delimiter_row && row <= self.end_row {
            Some(TableRowKind::Body)
        } else {
            None
        }
    }

    /// Returns whether `row` lies anywhere inside the block.
    pub fn contains(&self, row: usize) -> (b: bool)
        ensures
            b == row_kind(*self, row).is_some(),
    {
        self.kind_at(row).is_some()
    }
}

/// `cs` without one trailing `\r\n` or `\n`.
pub open spec fn strip_eol(cs: Seq<char>) -> Seq<char> {
    if cs.len() >= 2 && cs[cs.len() - 2] == '\r' && cs[cs.len() - 1] == '\n' {
        cs.take(cs.len() - 2)
    } else if cs.len() >= 1 && cs[cs.len() - 1] == '\n' {
        cs.take(cs.len() - 1)
    } else {
        cs
    }
}

/// Strips a single trailing `\n` / `\r\n`.
pub fn clean_table_line(raw: &Vec<char>) -> (c: Vec<char>)
    ensures
        c@ == strip_eol(raw@),
{
    let n = raw.len();
    let keep = if n >= 2 && raw[n - 2] == '\r' && raw[n - 1] == '\n' {
        n - 2
    } else if n >= 1 && raw[n - 1] == '\n' {
        n - 1
    } else {
        n
    };
    let mut c: Vec<char> = Vec::new();
    let mut i: usize = 0;
    while i < keep
        invariant
            keep <= n == raw@.len(),
            0 <= i <= keep,
            c@ == raw@.take(i as int),
        decreases keep - i,
    {
        c.push(raw[i]);
        proof {
            assert(c@ =~= raw@.take(i + 1));
        }
        i = i + 1;
    }
    proof {
        if keep == n {
            assert(raw@.take(n as int) =~= raw@);
        }
    }
    c
}

/// Whether the trimmed line opens or closes a code fence.
pub open spec fn is_fence(cs: Seq<char>) -> bool {
    let t = trim_start(cs);
    t.len() >= 3 && ((t[0] == '`' && t[1] == '`' && t[2] == '`') || (t[0] == '~' && t[1] == '~'
        && t[2] == '~'))
}

/// Reports whether a cleaned line is a fence marker (```` ``` ```` or `~~~`).
pub fn is_fence_line(cs: &Vec<char>) -> (b: bool)
    ensures
        b == is_fence(cs@),
{
    let s = skip_space_exec(cs, 0);
    let n = cs.len();
    n - s >= 3 && ((cs[s] == '`' && cs[s + 1] == '`' && cs[s + 2] == '`') || (cs[s] == '~' && cs[s
        + 1] == '~' && cs[s + 2] == '~'))
}

/// Length of the backtick run starting at `i`.
pub open spec fn tick_run(cs: Seq<char>, i: nat) -> nat
    decreases cs.len() - i,
{
    if i < cs.len() && cs[i as int] == '`' {
        1 + tick_run(cs, i + 1)
    } else {
        0
    }
}

/// Where a `\x` escape at `i` resumes scanning.
pub open spec fn after_escape(cs: Seq<char>, i: nat) -> nat {
    if i + 1 < cs.len() { i + 2 } else { i + 1 }
}

/// A backtick run starting inside the line stays inside it.
pub proof fn lemma_tick_run_bound(cs: Seq<char>, i: nat)
    requires
        i <= cs.len(),
    ensures
        i + tick_run(cs, i) <= cs.len(),
        i < cs.len() && cs[i as int] == '`' ==> tick_run(cs, i) >= 1,
    decreases cs.len() - i,
{
    if i < cs.len() && cs[i as int] == '`' {
        lemma_tick_run_bound(cs, i + 1);
    }
}

/// End of the closing backtick run of exactly `run` ticks at or after `j`.
pub open spec fn find_close(cs: Seq<char>, j: nat, run: nat) -> Option<nat>
    decreases cs.len() - j,
{
    if j >= cs.len() {
        None
    } else if cs[j as int] == '\\' {
        find_close(cs, after_escape(cs, j), run)
    } else if cs[j as int] == '`' {
        let k = tick_run(cs, j);
        proof {
            lemma_tick_run_bound(cs, j);
        }
        if k == run {
            Some(j + k)
        } else {
            find_close(cs, j + k, run)
        }
    } else {
        find_close(cs, j + 1, run)
    }
}

/// A closing run found from `j` ends after `j` and inside the line.
pub proof fn lemma_find_close_bound(cs: Seq<char>, j: nat, run: nat)
    requires
        j <= cs.len(),
    ensures
        match find_close(cs, j, run) {
            Some(e) => j < e <= cs.len(),
            None => true,
        },
    decreases cs.len() - j,
{
    if j < cs.len() {
        if cs[j as int] == '\\' {
            lemma_find_close_bound(cs, after_escape(cs, j), run);
        } else if cs[j as int] == '`' {
            lemma_tick_run_bound(cs, j);
            if tick_run(cs, j) != run {
                lemma_find_close_bound(cs, j + tick_run(cs, j), run);
            }
        } else {
            lemma_find_close_bound(cs, j + 1, run);
        }
    }
}

/// Inline code spans (character ranges) found scanning from `i`: a run of
/// `n` backticks opens a span closed by the next run of exactly `n`;
/// `\x` escapes are skipped and unmatched runs are literal.
pub open spec fn code_spans_from(cs: Seq<char>, i: nat) -> Seq<(nat, nat)>
    decreases cs.len() - i,
{
    if i >= cs.len() {
        Seq::empty()
    } else if cs[i as int] == '\\' {
        code_spans_from(cs, after_escape(cs, i))
    } else if cs[i as int] != '`' {
        code_spans_from(cs, i + 1)
    } else {
        let run = tick_run(cs, i);
        proof {
            lemma_tick_run_bound(cs, i);
            lemma_find_close_bound(cs, i + run, run);
        }
        match find_close(cs, i + run, run) {
            Some(end) => seq![(i, end)] + code_spans_from(cs, end),
            None => code_spans_from(cs, i + run),
        }
    }
}

/// Number of backslashes directly before index `i`.
pub open spec fn slashes_before(cs: Seq<char>, i: nat) -> nat
    decreases i,
{
    if 0 < i <= cs.len() && cs[i - 1] == '\\' {
        1 + slashes_before(cs, (i - 1) as nat)
    } else {
        0
    }
}

/// Whether index `i` falls inside one of the code spans.
pub open spec fn in_code(spans: Seq<(nat, nat)>, i: nat) -> bool {
    exists|k: int| 0 <= k < spans.len() && (#[trigger] spans[k]).0 <= i && i < spans[k].1
}

/// Whether character `i` is a cell-separator pipe: a `|` that is neither
/// escaped by an odd run of backslashes nor inside an inline code span.
pub open spec fn is_sep_pipe(cs: Seq<char>, i: nat) -> bool {
    i < cs.len() && cs[i as int] == '|' && slashes_before(cs, i) % 2 == 0 && !in_code(
        code_spans_from(cs, 0),
        i,
    )
}

/// Character indices `< n` of separator pipes, ascending.
pub open spec fn pipes_upto(cs: Seq<char>, n: nat) -> Seq<nat>
    decreases n,
{
    if n == 0 {
        Seq::empty()
    } else if is_sep_pipe(cs, (n - 1) as nat) {
        pipes_upto(cs, (n - 1) as nat).push((n - 1) as nat)
    } else {
        pipes_upto(cs, (n - 1) as nat)
    }
}

/// Separator pipes of a cleaned line (character indices).
pub open spec fn sep_pipes(cs: Seq<char>) -> Seq<nat> {
    pipes_upto(cs, cs.len())
}

fn tick_run_exec(cs: &Vec<char>, i: usize) -> (r: usize)
    requires
        i <= cs@.len(),
    ensures
        r == tick_run(cs@, i as nat),
        i + r <= cs@.len(),
{
    let mut k: usize = i;
    while k < cs.len() && cs[k] == '`'
        invariant
            i <= k <= cs@.len(),
            tick_run(cs@, i as nat) == (k - i) + tick_run(cs@, k as nat),
        decreases cs@.len() - k,
    {
        k = k + 1;
    }
    k - i
}

fn find_close_exec(cs: &Vec<char>, from: usize, run: usize) -> (r: Option<usize>)
    requires
        from <= cs@.len(),
    ensures
        match r {
            Some(e) => find_close(cs@, from as nat, run as nat) == Some(e as nat),
            None => find_close(cs@, from as nat, run as nat).is_none(),
        },
{
    let mut j = from;
    while j < cs.len()
        invariant
            j <= cs@.len(),
            find_close(cs@, j as nat, run as nat) == find_close(cs@, from as nat, run as nat),
        decreases cs@.len() - j,
    {
        if cs[j] == '\\' {
            j = if j + 1 < cs.len() { j + 2 } else { j + 1 };
        } else if cs[j] == '`' {
            let k = tick_run_exec(cs, j);
            proof {
                lemma_tick_run_bound(cs@, j as nat);
            }
            if k == run {
                return Some(j + k);
            }
            j = j + k;
        } else {
            j = j + 1;
        }
    }
    None
}

/// Every entry of `pipes_upto(cs, n)` is a separator pipe below `n`, and
/// the entries ascend strictly.
pub proof fn lemma_pipes_upto(cs: Seq<char>, n: nat)
    ensures
        forall|k: int|
            0 <= k < pipes_upto(cs, n).len() ==> #[trigger] pipes_upto(cs, n)[k] < n
                && is_sep_pipe(cs, pipes_upto(cs, n)[k]),
        forall|a: int, b: int|
            0 <= a < b < pipes_upto(cs, n).len() ==> pipes_upto(cs, n)[a] < pipes_upto(
                cs,
                n,
            )[b],
    decreases n,
{
    if n > 0 {
        let m = (n - 1) as nat;
        lemma_pipes_upto(cs, m);
        let prev = pipes_upto(cs, m);
        let cur = pipes_upto(cs, n);
        if is_sep_pipe(cs, m) {
            assert(cur == prev.push(m));
            assert forall|k: int| 0 <= k < cur.len() implies #[trigger] cur[k] < n && is_sep_pipe(
                cs,
                cur[k],
            ) by {
                if k < prev.len() {
                    assert(cur[k] == prev[k]);
                }
            }
            assert forall|a: int, b: int| 0 <= a < b < cur.len() implies cur[a] < cur[b] by {
                assert(cur[a] == prev[a]);
                if b < prev.len() {
                    assert(cur[b] == prev[b]);
                }
            }
        } else {
            assert(cur == prev);
        }
    }
}

/// Code spans viewed with unbounded integers.
pub open spec fn nat_pairs(v: Seq<(usize, usize)>) -> Seq<(nat, nat)> {
    v.map_values(|p: (usize, usize)| (p.0 as nat, p.1 as nat))
}

fn code_spans(cs: &Vec<char>) -> (spans: Vec<(usize, usize)>)
    ensures
        nat_pairs(spans@) == code_spans_from(cs@, 0),
{
    let mut spans: Vec<(usize, usize)> = Vec::new();
    let mut i: usize = 0;
    proof {
        assert(nat_pairs(spans@) =~= Seq::<(nat, nat)>::empty());
        assert(nat_pairs(spans@) + code_spans_from(cs@, 0) =~= code_spans_from(cs@, 0));
    }
    while i < cs.len()
        invariant
            i <= cs@.len(),
            nat_pairs(spans@) + code_spans_from(cs@, i as nat) == code_spans_from(cs@, 0),
        decreases cs@.len() - i,
    {
        if cs[i] == '\\' {
            i = if i + 1 < cs.len() {
                i + 2
            } else {
                i + 1
            };
        } else if cs[i] != '`' {
            i = i + 1;
        } else {
            let run = tick_run_exec(cs, i);
            proof {
                lemma_tick_run_bound(cs@, i as nat);
                lemma_find_close_bound(cs@, (i + run) as nat, run as nat);
            }
            match find_close_exec(cs, i + run, run) {
                Some(end) => {
                    let ghost before = spans@;
                    spans.push((i, end));
                    proof {
                        assert(nat_pairs(spans@) =~= nat_pairs(before).push((i as nat, end as nat)));
                        assert(nat_pairs(spans@) + code_spans_from(cs@, end as nat) =~= nat_pairs(
                            before,
                        ) + (seq![(i as nat, end as nat)] + code_spans_from(cs@, end as nat)));
                    }
                    i = end;
                },
                None => {
                    i = i + run;
                },
            }
        }
    }
    proof {
        assert(nat_pairs(spans@) + code_spans_from(cs@, i as nat) =~= nat_pairs(spans@));
    }
    spans
}

fn slashes_before_exec(cs: &Vec<char>, i: usize) -> (r: usize)
    requires
        i <= cs@.len(),
    ensures
        r == slashes_before(cs@, i as nat),
{
    let mut k: usize = i;
    while k > 0 && cs[k - 1] == '\\'
        invariant
            k <= i <= cs@.len(),
            slashes_before(cs@, i as nat) == (i - k) + slashes_before(cs@, k as nat),
        decreases k,
    {
        k = k - 1;
    }
    i - k
}

fn in_spans(spans: &Vec<(usize, usize)>, i: usize) -> (b: bool)
    ensures
        b == in_code(nat_pairs(spans@), i as nat),
{
    let mut k: usize = 0;
    while k < spans.len()
        invariant
            k <= spans@.len(),
            forall|m: int|
                0 <= m < k ==> !(spans@[m].0 <= i && i < spans@[m].1),
        decreases spans@.len() - k,
    {
        if spans[k].0 <= i && i < spans[k].1 {
            proof {
                assert(nat_pairs(spans@)[k as int] == (spans@[k as int].0 as nat, spans@[k as int].1 as nat));
            }
            return true;
        }
        k = k + 1;
    }
    proof {
        assert forall|m: int| 0 <= m < nat_pairs(spans@).len() implies !((#[trigger] nat_pairs(
            spans@,
        )[m]).0 <= i && i < nat_pairs(spans@)[m].1) by {
            assert(nat_pairs(spans@)[m] == (spans@[m].0 as nat, spans@[m].1 as nat));
        }
    }
    false
}

/// Character indices of the separator pipes of `cs`, ascending.
fn pipe_chars(cs: &Vec<char>) -> (pipes: Vec<usize>)
    ensures
        pipes@.len() == sep_pipes(cs@).len(),
        forall|k: int| 0 <= k < pipes@.len() ==> pipes@[k] == sep_pipes(cs@)[k],
{
    let spans = code_spans(cs);
    let mut pipes: Vec<usize> = Vec::new();
    let mut p: usize = 0;
    while p < cs.len()
        invariant
            p <= cs@.len(),
            nat_pairs(spans@) == code_spans_from(cs@, 0),
            pipes@.len() == pipes_upto(cs@, p as nat).len(),
            forall|k: int| 0 <= k < pipes@.len() ==> pipes@[k] == pipes_upto(cs@, p as nat)[k],
        decreases cs@.len() - p,
    {
        if cs[p] == '|' {
            let sl = slashes_before_exec(cs, p);
            if sl % 2 == 0 && !in_spans(&spans, p) {
                pipes.push(p);
            }
        }
        p = p + 1;
    }
    pipes
}

/// Byte offsets of cell-separator pipes in `line`.
///
/// Ignores `\|` escapes and pipes inside inline code spans. Every returned
/// offset is that of an ASCII `|`.
pub fn find_unescaped_pipes(line: &str) -> (pipes: Vec<usize>)
    ensures
        pipes@.len() == sep_pipes(strip_eol(line@)).len(),
        forall|k: int|
            0 <= k < pipes@.len() ==> pipes@[k] == byte_at(
                strip_eol(line@),
                sep_pipes(strip_eol(line@))[k] as int,
            ),
{
    let raw = str_chars(line);
    let cs = clean_table_line(&raw);
    proof {
        assert(cs@ =~= raw@.take(cs@.len() as int));
        lemma_byte_len_prefix(raw@, cs@.len() as int);
    }
    let offs = char_offsets(&cs);
    let idx = pipe_chars(&cs);
    proof {
        lemma_pipes_upto(cs@, cs@.len());
    }
    let mut out: Vec<usize> = Vec::new();
    let mut k: usize = 0;
    while k < idx.len()
        invariant
            k <= idx@.len(),
            idx@.len() == sep_pipes(cs@).len(),
            forall|m: int| 0 <= m < idx@.len() ==> idx@[m] == sep_pipes(cs@)[m],
            forall|m: int| 0 <= m < sep_pipes(cs@).len() ==> #[trigger] sep_pipes(cs@)[m] < cs@.len(),
            offs@.len() == cs@.len() + 1,
            forall|m: int| 0 <= m <= cs@.len() ==> offs@[m] == byte_at(cs@, m),
            out@.len() == k,
            forall|m: int| 0 <= m < k ==> out@[m] == byte_at(cs@, sep_pipes(cs@)[m] as int),
        decreases idx@.len() - k,
    {
        assert(sep_pipes(cs@)[k as int] < cs@.len());
        out.push(offs[idx[k]]);
        k = k + 1;
    }
    out
}

/// Cells between consecutive pipes (character ranges); the segment after a
/// pipe starts one past it.
pub open spec fn raw_cells(p: Seq<nat>, n: nat) -> Seq<(nat, nat)> {
    Seq::new(
        (p.len() + 1) as nat,
        |i: int|
            (if i == 0 {
                0nat
            } else {
                p[i - 1] + 1
            }, if i < p.len() {
                p[i]
            } else {
                n
            }),
    )
}

/// The trimmed line begins with `|`.
pub open spec fn starts_with_pipe(cs: Seq<char>) -> bool {
    trim_start(cs).len() > 0 && trim_start(cs)[0] == '|'
}

/// The trimmed line ends with `|`.
pub open spec fn ends_with_pipe(cs: Seq<char>) -> bool {
    trim_end(cs).len() > 0 && trim_end(cs)[trim_end(cs).len() - 1] == '|'
}

/// Cell character ranges of `cs`: the separator pipes of `strip_eol(cs)`
/// split `cs`; a leading `|` drops the empty first segment and a trailing
/// `|` the last one. Without pipes the whole line is one cell.
pub open spec fn cell_spans(cs: Seq<char>) -> Seq<(nat, nat)> {
    let p = sep_pipes(strip_eol(cs));
    if p.len() == 0 {
        seq![(0nat, cs.len())]
    } else {
        let raw = raw_cells(p, cs.len());
        let a = if starts_with_pipe(cs) {
            raw.drop_first()
        } else {
            raw
        };
        if ends_with_pipe(cs) && a.len() > 0 {
            a.drop_last()
        } else {
            a
        }
    }
}

/// `strip_eol(cs)` is a prefix of `cs`.
pub proof fn lemma_strip_eol_prefix(cs: Seq<char>)
    ensures
        strip_eol(cs).len() <= cs.len(),
        strip_eol(cs) == cs.take(strip_eol(cs).len() as int),
{
}

pub(crate) fn cell_char_spans(cs: &Vec<char>) -> (r: (Vec<usize>, Vec<(usize, usize)>))
    ensures
        r.0@.len() == sep_pipes(strip_eol(cs@)).len(),
        forall|k: int| 0 <= k < r.0@.len() ==> r.0@[k] == sep_pipes(strip_eol(cs@))[k],
        nat_pairs(r.1@) == cell_spans(cs@),
        forall|k: int| 0 <= k < r.1@.len() ==> (#[trigger] r.1@[k]).0 <= r.1@[k].1 <= cs@.len(),
{
    let inner = clean_table_line(cs);
    let pipes = pipe_chars(&inner);
    let n = cs.len();
    let ghost p = sep_pipes(strip_eol(cs@));
    proof {
        lemma_strip_eol_prefix(cs@);
        lemma_pipes_upto(inner@, inner@.len());
    }
    if pipes.len() == 0 {
        let mut cells: Vec<(usize, usize)> = Vec::new();
        cells.push((0, n));
        proof {
            assert(nat_pairs(cells@) =~= seq![(0nat, n as nat)]);
        }
        return (pipes, cells);
    }
    let mut cells: Vec<(usize, usize)> = Vec::new();
    let mut i: usize = 0;
    while i < pipes.len()
        invariant
            1 <= pipes@.len() == p.len(),
            forall|k: int| 0 <= k < pipes@.len() ==> pipes@[k] == p[k],
            forall|k: int| 0 <= k < p.len() ==> #[trigger] p[k] < inner@.len(),
            forall|a: int, b: int| 0 <= a < b < p.len() ==> p[a] < p[b],
            inner@.len() <= n == cs@.len(),
            i <= pipes@.len(),
            nat_pairs(cells@) == raw_cells(p, n as nat).take(i as int),
            forall|k: int| 0 <= k < cells@.len() ==> (#[trigger] cells@[k]).0 <= cells@[k].1 <= n,
        decreases pipes@.len() - i,
    {
        let start = if i == 0 {
            0
        } else {
            assert(p[i - 1] < inner@.len());
            pipes[i - 1] + 1
        };
        let end = pipes[i];
        proof {
            assert(p[i as int] < inner@.len());
            if 0 < i {
                assert(p[i - 1] < p[i as int]);
            }
        }
        let ghost before = cells@;
        cells.push((start, end));
        proof {
            assert(nat_pairs(cells@) =~= nat_pairs(before).push((start as nat, end as nat)));
            assert(raw_cells(p, n as nat).take(i + 1) =~= raw_cells(p, n as nat).take(
                i as int,
            ).push((start as nat, end as nat)));
        }
        i = i + 1;
    }
    assert(p[i - 1] < inner@.len());
    let start = pipes[i - 1] + 1;
    let ghost before = cells@;
    cells.push((start, n));
    proof {
        assert(nat_pairs(cells@) =~= nat_pairs(before).push((start as nat, n as nat)));
        assert(raw_cells(p, n as nat) =~= raw_cells(p, n as nat).take(i as int).push(
            (start as nat, n as nat),
        ));
    }
    let s = skip_space_exec(cs, 0);
    if s < n && cs[s] == '|' {
        let ghost before = cells@;
        cells.remove(0);
        proof {
            assert(nat_pairs(cells@) =~= nat_pairs(before).drop_first());
        }
    }
    let e = skip_space_back_exec(cs, n);
    if e > 0 && cs[e - 1] == '|' && cells.len() > 0 {
        let ghost before = cells@;
        cells.pop();
        proof {
            assert(nat_pairs(cells@) =~= nat_pairs(before).drop_last());
        }
    }
    (pipes, cells)
}

/// Splits `line` into separator pipe offsets plus cell-content byte ranges.
///
/// Outer pipes are optional: a leading `|` drops the empty segment before
/// it and a trailing `|` the one after it. With no pipes at all the whole
/// line is a single cell.
pub fn split_table_cells(line: &str) -> (r: (Vec<usize>, Vec<Range<usize>>))
    ensures
        ({
            let c = strip_eol(line@);
            let p = sep_pipes(strip_eol(c));
            let cells = cell_spans(c);
            &&& r.0@.len() == p.len()
            &&& forall|k: int| 0 <= k < p.len() ==> r.0@[k] == byte_at(c, p[k] as int)
            &&& r.1@.len() == cells.len()
            &&& forall|k: int|
                0 <= k < cells.len() ==> r.1@[k].start == byte_at(c, cells[k].0 as int)
                    && r.1@[k].end == byte_at(c, cells[k].1 as int)
        }),
{
    let raw = str_chars(line);
    let cs = clean_table_line(&raw);
    proof {
        assert(cs@ =~= raw@.take(cs@.len() as int));
        lemma_byte_len_prefix(raw@, cs@.len() as int);
        lemma_strip_eol_prefix(cs@);
        lemma_pipes_upto(strip_eol(cs@), strip_eol(cs@).len());
    }
    let offs = char_offsets(&cs);
    let (idx, spans) = cell_char_spans(&cs);
    let ghost c = cs@;
    let ghost p = sep_pipes(strip_eol(c));
    let mut pipes: Vec<usize> = Vec::new();
    let mut k: usize = 0;
    while k < idx.len()
        invariant
            k <= idx@.len() == p.len(),
            forall|m: int| 0 <= m < idx@.len() ==> idx@[m] == p[m],
            forall|m: int| 0 <= m < p.len() ==> #[trigger] p[m] < strip_eol(c).len(),
            strip_eol(c).len() <= c.len(),
            c == cs@,
            offs@.len() == c.len() + 1,
            forall|m: int| 0 <= m <= c.len() ==> offs@[m] == byte_at(c, m),
            pipes@.len() == k,
            forall|m: int| 0 <= m < k ==> pipes@[m] == byte_at(c, p[m] as int),
        decreases idx@.len() - k,
    {
        assert(p[k as int] < strip_eol(c).len());
        pipes.push(offs[idx[k]]);
        k = k + 1;
    }
    let mut cells: Vec<Range<usize>> = Vec::new();
    let mut j: usize = 0;
    while j < spans.len()
        invariant
            j <= spans@.len(),
            nat_pairs(spans@) == cell_spans(c),
            forall|m: int| 0 <= m < spans@.len() ==> (#[trigger] spans@[m]).0 <= spans@[m].1 <= c.len(),
            c == cs@,
            offs@.len() == c.len() + 1,
            forall|m: int| 0 <= m <= c.len() ==> offs@[m] == byte_at(c, m),
            cells@.len() == j,
            forall|m: int|
                0 <= m < j ==> cells@[m].start == byte_at(c, spans@[m].0 as int) && cells@[m].end
                    == byte_at(c, spans@[m].1 as int),
        decreases spans@.len() - j,
    {
        let (a, b) = spans[j];
        cells.push(offs[a]..offs[b]);
        j = j + 1;
    }
    proof {
        assert forall|m: int| 0 <= m < cell_spans(c).len() implies cells@[m].start == byte_at(
            c,
            cell_spans(c)[m].0 as int,
        ) && cells@[m].end == byte_at(c, cell_spans(c)[m].1 as int) by {
            assert(nat_pairs(spans@)[m] == (spans@[m].0 as nat, spans@[m].1 as nat));
        }
    }
    (pipes, cells)
}

/// Alignment of one trimmed delimiter cell, `None` unless it reads `:?-+:?`.
pub open spec fn delim_cell(t: Seq<char>) -> Option<TableAlignment> {
    let left = t.len() > 0 && t[0] == ':';
    let lo: int = if left {
        1
    } else {
        0
    };
    let right = t.len() > lo && t[t.len() - 1] == ':';
    let hi: int = if right {
        t.len() - 1
    } else {
        t.len() as int
    };
    if hi > lo && forall|k: int| lo <= k < hi ==> t[k] == '-' {
        Some(
            if left && right {
                TableAlignment::Center
            } else if left {
                TableAlignment::Left
            } else if right {
                TableAlignment::Right
            } else {
                TableAlignment::Unaligned
            },
        )
    } else {
        Option::None
    }
}

#[verifier::loop_isolation(false)]
fn delim_cell_exec(t: &Vec<char>) -> (r: Option<TableAlignment>)
    ensures
        r == delim_cell(t@),
{
    let n = t.len();
    let left = n > 0 && t[0] == ':';
    let lo: usize = if left {
        1
    } else {
        0
    };
    let right = n > lo && t[n - 1] == ':';
    let hi: usize = if right {
        n - 1
    } else {
        n
    };
    if hi <= lo {
        return Option::None;
    }
    let mut k: usize = lo;
    while k < hi
        invariant
            lo <= k <= hi <= n == t@.len(),
            forall|m: int| lo <= m < k ==> t@[m] == '-',
        decreases hi - k,
    {
        if t[k] != '-' {
            assert(t@[k as int] != '-');
            return Option::None;
        }
        k = k + 1;
    }
    Some(
        if left && right {
            TableAlignment::Center
        } else if left {
            TableAlignment::Left
        } else if right {
            TableAlignment::Right
        } else {
            TableAlignment::Unaligned
        },
    )
}

/// Trimmed text of cell `k` of `cs`, its ranges taken on `strip_eol(cs)`.
pub open spec fn cell_text(cs: Seq<char>, k: int) -> Seq<char> {
    let r = cell_spans(strip_eol(cs))[k];
    trim(cs.subrange(r.0 as int, r.1 as int))
}

/// Column alignments of a delimiter row, `None` when the line is blank,
/// has no cells, or any cell is not `:?-+:?`.
pub open spec fn delimiter_aligns(cs: Seq<char>) -> Option<Seq<TableAlignment>> {
    let n = cell_spans(strip_eol(cs)).len();
    if trim(cs).len() == 0 || n == 0 {
        Option::None
    } else if forall|k: int| 0 <= k < n ==> (#[trigger] delim_cell(cell_text(cs, k))).is_some() {
        Some(Seq::new(n, |k: int| delim_cell(cell_text(cs, k)).unwrap()))
    } else {
        Option::None
    }
}

/// Parses a GFM delimiter row into per-column alignments.
///
/// Returns `None` when the line is blank or any cell is not `:?-+:?` after
/// trimming whitespace.
pub fn parse_delimiter_row(line: &str) -> (r: Option<Vec<TableAlignment>>)
    ensures
        match r {
            Some(v) => delimiter_aligns(strip_eol(line@)) == Some(v@),
            Option::None => delimiter_aligns(strip_eol(line@)).is_none(),
        },
{
    let raw = str_chars(line);
    let cs = clean_table_line(&raw);
    delimiter_aligns_exec(&cs)
}

#[verifier::loop_isolation(false)]
fn delimiter_aligns_exec(cs: &Vec<char>) -> (r: Option<Vec<TableAlignment>>)
    ensures
        match r {
            Some(v) => delimiter_aligns(cs@) == Some(v@),
            Option::None => delimiter_aligns(cs@).is_none(),
        },
{
    let ghost c = cs@;
    let t = trim_chars(cs);
    if t.len() == 0 {
        return Option::None;
    }
    let inner = clean_table_line(cs);
    proof {
        lemma_strip_eol_prefix(c);
    }
    let (_, cells) = cell_char_spans(&inner);
    if cells.len() == 0 {
        return Option::None;
    }
    let ghost n = cells@.len();
    let mut aligns: Vec<TableAlignment> = Vec::new();
    let mut k: usize = 0;
    while k < cells.len()
        invariant
            k <= cells@.len() == n,
            c == cs@,
            inner@ == strip_eol(c),
            inner@.len() <= c.len(),
            nat_pairs(cells@) == cell_spans(strip_eol(c)),
            forall|m: int| 0 <= m < cells@.len() ==> (#[trigger] cells@[m]).0 <= cells@[m].1 <= inner@.len(),
            aligns@.len() == k,
            forall|m: int|
                0 <= m < k ==> (#[trigger] delim_cell(cell_text(c, m))).is_some() && aligns@[m]
                    == delim_cell(cell_text(c, m)).unwrap(),
        decreases cells@.len() - k,
    {
        let (a, b) = cells[k];
        proof {
            assert(nat_pairs(cells@)[k as int] == (a as nat, b as nat));
        }
        let sub = slice_chars(cs, a, b);
        let content = trim_chars(&sub);
        assert(content@ == cell_text(c, k as int));
        match delim_cell_exec(&content) {
            Some(al) => {
                aligns.push(al);
            },
            Option::None => {
                assert(delim_cell(cell_text(c, k as int)).is_none());
                return Option::None;
            },
        }
        k = k + 1;
    }
    proof {
        assert(aligns@ =~= Seq::new(n, |m: int| delim_cell(cell_text(c, m)).unwrap()));
    }
    Some(aligns)
}

/// Number of entries of `fences` below `row`.
pub open spec fn count_below(fences: Seq<usize>, row: usize) -> nat
    decreases fences.len(),
{
    if fences.len() == 0 {
        0
    } else {
        count_below(fences.drop_last(), row) + if fences.last() < row {
            1nat
        } else {
            0nat
        }
    }
}

/// Returns whether `row` sits inside a fenced code block: an odd number of
/// fence markers lie strictly above it.
///
/// `fences` is the sorted list of fence-marker rows.
pub fn is_fenced_row(fences: &[usize], row: usize) -> (b: bool)
    ensures
        b == (count_below(fences@, row) % 2 == 1),
{
    let mut n: usize = 0;
    let mut i: usize = 0;
    while i < fences.len()
        invariant
            i <= fences@.len(),
            n == count_below(fences@.take(i as int), row),
            n <= i,
        decreases fences@.len() - i,
    {
        proof {
            assert(fences@.take(i + 1).drop_last() =~= fences@.take(i as int));
        }
        if fences[i] < row {
            n = n + 1;
        }
        i = i + 1;
    }
    proof {
        assert(fences@.take(i as int) =~= fences@);
    }
    n % 2 == 1
}

/// Line `r` of the text without its line break (empty past the end).
pub open spec fn clean_row(t: Seq<char>, r: nat) -> Seq<char> {
    strip_eol(
        if r < line_count(t) {
            line_text(t, r)
        } else {
            Seq::empty()
        },
    )
}

/// The cleaned line holds a separator pipe.
pub open spec fn has_pipe(c: Seq<char>) -> bool {
    sep_pipes(strip_eol(c)).len() > 0
}

/// The cleaned line is empty once trimmed.
pub open spec fn blank_line(c: Seq<char>) -> bool {
    trim(c).len() == 0
}

/// Fence-marker rows among the first `n` lines, ascending.
pub open spec fn fences_upto(t: Seq<char>, n: nat) -> Seq<usize>
    decreases n,
{
    if n == 0 {
        Seq::empty()
    } else if is_fence(clean_row(t, (n - 1) as nat)) {
        fences_upto(t, (n - 1) as nat).push((n - 1) as usize)
    } else {
        fences_upto(t, (n - 1) as nat)
    }
}

fn clean_row_exec(buffer: &EditorBuffer, r: usize) -> (c: Vec<char>)
    ensures
        c@ == clean_row(buffer.text_view(), r as nat),
{
    let s = buffer.line_to_string(r);
    let raw = str_chars(s.as_str());
    clean_table_line(&raw)
}

fn has_pipe_exec(c: &Vec<char>) -> (b: bool)
    ensures
        b == has_pipe(c@),
{
    let inner = clean_table_line(c);
    pipe_chars(&inner).len() > 0
}

fn blank_exec(c: &Vec<char>) -> (b: bool)
    ensures
        b == blank_line(c@),
{
    trim_chars(c).len() == 0
}

/// Collects every fence-marker row in one pass, ascending.
pub fn fence_rows(buffer: &EditorBuffer) -> (fences: Vec<usize>)
    ensures
        fences@ == fences_upto(buffer.text_view(), line_count(buffer.text_view())),
{
    let total = buffer.len_lines();
    let mut fences: Vec<usize> = Vec::new();
    let mut r: usize = 0;
    while r < total
        invariant
            r <= total == line_count(buffer.text_view()),
            fences@ == fences_upto(buffer.text_view(), r as nat),
        decreases total - r,
    {
        let c = clean_row_exec(buffer, r);
        if is_fence_line(&c) {
            fences.push(r);
        }
        r = r + 1;
    }
    fences
}

/// Upward search for a delimiter row from row `j`, through piped body
/// rows, with `budget` rows left to look at.
pub open spec fn walk_up(t: Seq<char>, j: nat, budget: nat) -> Option<nat>
    decreases j,
{
    if budget == 0 {
        None
    } else {
        let text = clean_row(t, j);
        if blank_line(text) || is_fence(text) {
            None
        } else if delimiter_aligns(strip_eol(text)).is_some() {
            Some(j)
        } else if !has_pipe(text) {
            None
        } else if j == 0 {
            None
        } else {
            walk_up(t, (j - 1) as nat, (budget - 1) as nat)
        }
    }
}

/// The delimiter row for a table touching `row`: `row` itself, the line
/// below it, or found walking up (at most 512 rows).
pub open spec fn find_delim(t: Seq<char>, row: nat) -> Option<nat> {
    if delimiter_aligns(strip_eol(clean_row(t, row))).is_some() {
        Some(row)
    } else if row + 1 < line_count(t) && !is_fence(clean_row(t, row + 1)) && delimiter_aligns(
        strip_eol(clean_row(t, row + 1)),
    ).is_some() {
        Some(row + 1)
    } else if row > 0 {
        walk_up(t, (row - 1) as nat, 512)
    } else {
        None
    }
}

/// Last body row: contiguous piped, non-blank, non-fence rows from `r` on
/// (at most 4096 rows past the delimiter `d`).
pub open spec fn extend_end(t: Seq<char>, d: nat, r: nat, end: nat) -> nat
    decreases line_count(t) - r,
{
    if r >= line_count(t) {
        end
    } else {
        let text = clean_row(t, r);
        if blank_line(text) || is_fence(text) || !has_pipe(text) {
            end
        } else if r + 1 - d > 4096 {
            r
        } else {
            extend_end(t, d, r + 1, r)
        }
    }
}

/// The table block holding `row` as (header, delimiter, last row,
/// alignments).
pub open spec fn table_block_spec(t: Seq<char>, row: nat, fences: Seq<usize>) -> Option<
    (nat, nat, nat, Seq<TableAlignment>),
> {
    let cur = clean_row(t, row);
    if row >= line_count(t) || blank_line(cur) || is_fence(cur) || (trim_start(cur).len() > 0
        && trim_start(cur)[0] == '>') {
        None
    } else if count_below(fences, row as usize) % 2 == 1 {
        None
    } else {
        match find_delim(t, row) {
            None => None,
            Some(d) => if d == 0 {
                None
            } else {
                let header = clean_row(t, (d - 1) as nat);
                let delim_text = clean_row(t, d);
                if blank_line(header) || is_fence(header) {
                    None
                } else if !has_pipe(header) && !has_pipe(delim_text) {
                    None
                } else {
                    match delimiter_aligns(strip_eol(delim_text)) {
                        None => None,
                        Some(aligns) => if cell_spans(strip_eol(header)).len() != aligns.len() {
                            None
                        } else {
                            let end = extend_end(t, d, d + 1, d);
                            if row < d - 1 || row > end {
                                None
                            } else {
                                Some(((d - 1) as nat, d, end, aligns))
                            }
                        },
                    }
                }
            },
        }
    }
}

/// `b` describes the block `s`.
pub open spec fn block_matches(b: TableBlock, s: (nat, nat, nat, Seq<TableAlignment>)) -> bool {
    &&& b.header_row == s.0
    &&& b.delimiter_row == s.1
    &&& b.end_row == s.2
    &&& b.aligns@ == s.3
    &&& b.col_count == s.3.len()
}

fn delim_of_clean(c: &Vec<char>) -> (r: Option<Vec<TableAlignment>>)
    ensures
        match r {
            Some(v) => delimiter_aligns(strip_eol(c@)) == Some(v@),
            Option::None => delimiter_aligns(strip_eol(c@)).is_none(),
        },
{
    let inner = clean_table_line(c);
    delimiter_aligns_exec(&inner)
}

/// [`table_block_at`] with a caller-provided fence index.
pub fn table_block_at_with_fences(buffer: &EditorBuffer, row: usize, fences: &[usize]) -> (r:
    Option<TableBlock>)
    ensures
        match r {
            Some(b) => table_block_spec(buffer.text_view(), row as nat, fences@) matches Some(s)
                && block_matches(b, s),
            Option::None => table_block_spec(buffer.text_view(), row as nat, fences@).is_none(),
        },
{
    let ghost t = buffer.text_view();
    let total = buffer.len_lines();
    if row >= total {
        return Option::None;
    }
    let cur = clean_row_exec(buffer, row);
    if blank_exec(&cur) || is_fence_line(&cur) {
        return Option::None;
    }
    let s0 = skip_space_exec(&cur, 0);
    if s0 < cur.len() && cur[s0] == '>' {
        return Option::None;
    }
    if is_fenced_row(fences, row) {
        return Option::None;
    }
    let mut delim: Option<usize> = Option::None;
    if delim_of_clean(&cur).is_some() {
        delim = Some(row);
    } else if row + 1 < total {
        let next = clean_row_exec(buffer, row + 1);
        if !is_fence_line(&next) && delim_of_clean(&next).is_some() {
            delim = Some(row + 1);
        }
    }
    if delim.is_none() && row > 0 {
        let mut j: usize = row - 1;
        let mut budget: usize = 512;
        loop
            invariant_except_break
                delim.is_none(),
            invariant
                j < row < total,
                t == buffer.text_view(),
                walk_up(t, j as nat, budget as nat) == walk_up(t, (row - 1) as nat, 512),
            ensures
                match delim {
                    Some(d) => walk_up(t, (row - 1) as nat, 512) == Some(d as nat) && d < total,
                    Option::None => walk_up(t, (row - 1) as nat, 512).is_none(),
                },
            decreases j,
        {
            if budget == 0 {
                break;
            }
            let text = clean_row_exec(buffer, j);
            if blank_exec(&text) || is_fence_line(&text) {
                break;
            }
            if delim_of_clean(&text).is_some() {
                delim = Some(j);
                break;
            }
            if !has_pipe_exec(&text) {
                break;
            }
            if j == 0 {
                break;
            }
            j = j - 1;
            budget = budget - 1;
        }
    }
    let d = match delim {
        Some(d) => d,
        Option::None => {
            return Option::None;
        },
    };
    assert(find_delim(t, row as nat) == Some(d as nat));
    if d == 0 {
        return Option::None;
    }
    let header = clean_row_exec(buffer, d - 1);
    if blank_exec(&header) || is_fence_line(&header) {
        return Option::None;
    }
    let header_pipes = has_pipe_exec(&header);
    let delim_text = clean_row_exec(buffer, d);
    let delim_pipes = has_pipe_exec(&delim_text);
    if !header_pipes && !delim_pipes {
        return Option::None;
    }
    let aligns = match delim_of_clean(&delim_text) {
        Some(a) => a,
        Option::None => {
            return Option::None;
        },
    };
    let header_inner = clean_table_line(&header);
    let (_, header_cells) = cell_char_spans(&header_inner);
    proof {
        assert(nat_pairs(header_cells@).len() == header_cells@.len());
    }
    if header_cells.len() != aligns.len() {
        return Option::None;
    }
    let mut end = d;
    let mut r = d + 1;
    loop
        invariant_except_break
            extend_end(t, d as nat, r as nat, end as nat) == extend_end(
                t,
                d as nat,
                (d + 1) as nat,
                d as nat,
            ),
        invariant
            d < total,
            d < r <= total,
            end < r,
            t == buffer.text_view(),
            total == line_count(t),
        ensures
            end == extend_end(t, d as nat, (d + 1) as nat, d as nat),
        decreases total - r,
    {
        if r >= total {
            break;
        }
        let text = clean_row_exec(buffer, r);
        if blank_exec(&text) || is_fence_line(&text) || !has_pipe_exec(&text) {
            break;
        }
        end = r;
        r = r + 1;
        if r - d > 4096 {
            break;
        }
    }
    if row < d - 1 || row > end {
        return Option::None;
    }
    let col_count = aligns.len();
    Some(TableBlock { header_row: d - 1, delimiter_row: d, end_row: end, col_count, aligns })
}

/// Locates the GFM pipe-table block containing `row`, if any: a header /
/// delimiter pair adjacent to `row`, extended through contiguous piped
/// body rows. Blank lines, fence lines, blockquotes, fenced rows and
/// pipe-less `text` / `---` pairs are never tables.
pub fn table_block_at(buffer: &EditorBuffer, row: usize) -> (r: Option<TableBlock>)
    ensures
        ({
            let t = buffer.text_view();
            let f = fences_upto(t, line_count(t));
            match r {
                Some(b) => table_block_spec(t, row as nat, f) matches Some(s) && block_matches(b, s),
                Option::None => table_block_spec(t, row as nat, f).is_none(),
            }
        }),
{
    let fences = fence_rows(buffer);
    table_block_at_with_fences(buffer, row, fences.as_slice())
}

/// Display-column widths for one [`TableBlock`], measured on unconcealed
/// source cell content.
#[derive(Debug, Clone, PartialEq, Eq)]
pub struct TableLayout {
    /// The block these widths were measured for.
    pub block: TableBlock,
    /// Max trimmed content width per column (minimum 3).
    pub col_widths: Vec<usize>,
}

/// Trimmed text of cell `i` of a cleaned line.
pub open spec fn layout_cell_text(line: Seq<char>, i: int) -> Seq<char> {
    let r = cell_spans(strip_eol(line))[i];
    trim(line.subrange(r.0 as int, r.1 as int))
}

/// Widths after measuring one cleaned row: each of the first `w.len()`
/// cells widens its column to its display width.
pub open spec fn widen(w: Seq<nat>, line: Seq<char>) -> Seq<nat> {
    Seq::new(
        w.len(),
        |i: int|
            if i < cell_spans(strip_eol(line)).len() {
                let cw = str_display_width(layout_cell_text(line, i));
                if w[i] >= cw {
                    w[i]
                } else {
                    cw
                }
            } else {
                w[i]
            },
    )
}

/// Column widths after measuring rows `from..to` of the text, starting
/// from `w`.
pub open spec fn widths_over(t: Seq<char>, w: Seq<nat>, from: nat, to: nat) -> Seq<nat>
    decreases to - from,
{
    if from >= to {
        w
    } else {
        widths_over(t, widen(w, clean_row(t, from)), from + 1, to)
    }
}

/// Column widths of a block: at least 3, widened over every row.
pub open spec fn block_widths(t: Seq<char>, header: nat, end: nat, cols: nat) -> Seq<nat> {
    widths_over(t, Seq::new(cols, |i: int| 3nat), header, end + 1)
}

fn copy_block(b: &TableBlock) -> (c: TableBlock)
    ensures
        c.header_row == b.header_row,
        c.delimiter_row == b.delimiter_row,
        c.end_row == b.end_row,
        c.col_count == b.col_count,
        c.aligns@ == b.aligns@,
{
    let mut aligns: Vec<TableAlignment> = Vec::new();
    let mut i: usize = 0;
    while i < b.aligns.len()
        invariant
            i <= b.aligns@.len(),
            aligns@ == b.aligns@.take(i as int),
        decreases b.aligns@.len() - i,
    {
        aligns.push(b.aligns[i]);
        proof {
            assert(aligns@ =~= b.aligns@.take(i + 1));
        }
        i = i + 1;
    }
    proof {
        assert(b.aligns@.take(i as int) =~= b.aligns@);
    }
    TableBlock {
        header_row: b.header_row,
        delimiter_row: b.delimiter_row,
        end_row: b.end_row,
        col_count: b.col_count,
        aligns,
    }
}

fn widen_exec(w: &mut Vec<usize>, line: &Vec<char>)
    ensures
        final(w)@.len() == old(w)@.len(),
        forall|i: int|
            0 <= i < final(w)@.len() ==> final(w)@[i] == widen(
                old(w)@.map_values(|x: usize| x as nat),
                line@,
            )[i],
{
    let inner = clean_table_line(line);
    let (_, cells) = cell_char_spans(&inner);
    let ghost w0 = w@;
    let ghost wn = w0.map_values(|x: usize| x as nat);
    let n = if cells.len() < w.len() {
        cells.len()
    } else {
        w.len()
    };
    let mut i: usize = 0;
    proof {
        lemma_strip_eol_prefix(line@);
    }
    while i < n
        invariant
            i <= n <= w@.len() == w0.len(),
            wn == w0.map_values(|x: usize| x as nat),
            n <= cells@.len(),
            n == if cells@.len() < w0.len() { cells@.len() } else { w0.len() },
            inner@ == strip_eol(line@),
            inner@.len() <= line@.len(),
            nat_pairs(cells@) == cell_spans(strip_eol(line@)),
            forall|m: int| 0 <= m < cells@.len() ==> (#[trigger] cells@[m]).0 <= cells@[m].1 <= inner@.len(),
            forall|m: int| 0 <= m < i ==> w@[m] == widen(wn, line@)[m],
            forall|m: int| i <= m < w@.len() ==> w@[m] == w0[m],
        decreases n - i,
    {
        let (a, b) = cells[i];
        proof {
            assert(nat_pairs(cells@)[i as int] == (a as nat, b as nat));
        }
        let sub = slice_chars(line, a, b);
        let content = trim_chars(&sub);
        let s = chars_to_string(&content);
        let cw = display_width(s.as_str());
        let cur = w[i];
        proof {
            assert(content@ == layout_cell_text(line@, i as int));
            assert(wn[i as int] == w0[i as int] as nat);
        }
        if cw > cur {
            w.set(i, cw);
        }
        i = i + 1;
    }
}

impl TableLayout {
    /// Measures column widths for `block` from its header, delimiter and
    /// body rows.
    pub fn build(buffer: &EditorBuffer, block: &TableBlock) -> (l: Self)
        requires
            block.end_row < usize::MAX,
        ensures
            l.block.header_row == block.header_row,
            l.block.delimiter_row == block.delimiter_row,
            l.block.end_row == block.end_row,
            l.block.col_count == block.col_count,
            l.block.aligns@ == block.aligns@,
            l.col_widths@.map_values(|x: usize| x as nat) == block_widths(
                buffer.text_view(),
                block.header_row as nat,
                block.end_row as nat,
                block.col_count as nat,
            ),
    {
        let ghost t = buffer.text_view();
        let mut col_widths: Vec<usize> = Vec::new();
        let mut k: usize = 0;
        while k < block.col_count
            invariant
                k <= block.col_count,
                col_widths@ == Seq::new(k as nat, |i: int| 3usize),
            decreases block.col_count - k,
        {
            col_widths.push(3);
            proof {
                assert(col_widths@ =~= Seq::new((k + 1) as nat, |i: int| 3usize));
            }
            k = k + 1;
        }
        let ghost init = Seq::new(block.col_count as nat, |i: int| 3nat);
        proof {
            assert(col_widths@.map_values(|x: usize| x as nat) =~= init);
        }
        let mut row = block.header_row;
        while row <= block.end_row
            invariant
                block.end_row < usize::MAX,
                block.header_row <= row <= block.end_row + 1 || (row == block.header_row
                    && block.header_row > block.end_row),
                t == buffer.text_view(),
                widths_over(t, col_widths@.map_values(|x: usize| x as nat), row as nat, (block.end_row + 1) as nat)
                    == block_widths(t, block.header_row as nat, block.end_row as nat, block.col_count as nat),
            decreases block.end_row + 1 - row,
        {
            let line = clean_row_exec(buffer, row);
            let ghost before = col_widths@.map_values(|x: usize| x as nat);
            widen_exec(&mut col_widths, &line);
            proof {
                assert(col_widths@.map_values(|x: usize| x as nat) =~= widen(before, line@));
            }
            row = row + 1;
        }
        proof {
            let w = col_widths@.map_values(|x: usize| x as nat);
            if block.header_row > block.end_row {
                assert(widths_over(t, w, row as nat, (block.end_row + 1) as nat) == w);
            }
        }
        TableLayout { block: copy_block(block), col_widths }
    }
}

proof fn lemma_walk_up_bound(t: Seq<char>, j: nat, budget: nat)
    ensures
        walk_up(t, j, budget) matches Some(x) ==> x <= j,
    decreases j,
{
    if budget > 0 && j > 0 {
        lemma_walk_up_bound(t, (j - 1) as nat, (budget - 1) as nat);
    }
}

proof fn lemma_extend_end_bound(t: Seq<char>, d: nat, r: nat, end: nat)
    requires
        end < line_count(t),
        end < r,
    ensures
        end <= extend_end(t, d, r, end) < line_count(t),
    decreases line_count(t) - r,
{
    if r < line_count(t) {
        lemma_extend_end_bound(t, d, r + 1, r);
    }
}

/// A block found for `row` spans it and lies inside the text.
pub proof fn lemma_block_bounds(t: Seq<char>, row: nat, fences: Seq<usize>)
    ensures
        table_block_spec(t, row, fences) matches Some(b) ==> b.0 + 1 == b.1 && b.0 <= row <= b.2
            && b.1 <= b.2 < line_count(t),
{
    if row < line_count(t) && row > 0 {
        lemma_walk_up_bound(t, (row - 1) as nat, 512);
    }
    match find_delim(t, row) {
        Some(d) => {
            if d > 0 && d < line_count(t) {
                lemma_extend_end_bound(t, d, d + 1, d);
            }
        },
        None => {},
    }
}

/// Table blocks met scanning rows from `row` on, each scan resuming after
/// the block it found.
pub open spec fn layouts_from(t: Seq<char>, fences: Seq<usize>, row: nat) -> Seq<
    (nat, nat, nat, Seq<TableAlignment>),
>
    decreases line_count(t) - row,
{
    if row >= line_count(t) {
        Seq::empty()
    } else {
        proof {
            lemma_block_bounds(t, row, fences);
        }
        match table_block_spec(t, row, fences) {
            Some(b) => seq![b] + layouts_from(t, fences, b.2 + 1),
            None => layouts_from(t, fences, row + 1),
        }
    }
}

/// `l` is the layout of the block `s` in the text `t`.
pub open spec fn layout_matches(l: TableLayout, s: (nat, nat, nat, Seq<TableAlignment>), t: Seq<
    char,
>) -> bool {
    &&& block_matches(l.block, s)
    &&& l.col_widths@.map_values(|x: usize| x as nat) == block_widths(t, s.0, s.2, s.3.len())
}

/// [`table_layouts`] with a caller-provided fence index.
pub fn table_layouts_with_fences(buffer: &EditorBuffer, fences: &[usize]) -> (ls: Vec<TableLayout>)
    ensures
        ls@.len() == layouts_from(buffer.text_view(), fences@, 0).len(),
        forall|k: int|
            0 <= k < ls@.len() ==> layout_matches(
                #[trigger] ls@[k],
                layouts_from(buffer.text_view(), fences@, 0)[k],
                buffer.text_view(),
            ),
{
    let ghost t = buffer.text_view();
    let ghost all = layouts_from(t, fences@, 0);
    let mut layouts: Vec<TableLayout> = Vec::new();
    let mut row: usize = 0;
    let total = buffer.len_lines();
    while row < total
        invariant
            row <= total == line_count(t),
            t == buffer.text_view(),
            all == layouts_from(t, fences@, 0),
            layouts@.len() + layouts_from(t, fences@, row as nat).len() == all.len(),
            forall|k: int| 0 <= k < layouts@.len() ==> layout_matches(#[trigger] layouts@[k], all[k], t),
            forall|k: int|
                0 <= k < layouts_from(t, fences@, row as nat).len() ==> #[trigger] layouts_from(
                    t,
                    fences@,
                    row as nat,
                )[k] == all[layouts@.len() + k],
        decreases total - row,
    {
        proof {
            lemma_block_bounds(t, row as nat, fences@);
        }
        match table_block_at_with_fences(buffer, row, fences) {
            Some(block) => {
                let ghost sb = table_block_spec(t, row as nat, fences@).unwrap();
                let ghost rest = layouts_from(t, fences@, row as nat);
                assert(rest == seq![sb] + layouts_from(t, fences@, (block.end_row + 1) as nat));
                assert(rest[0] == sb);
                let end = block.end_row;
                let layout = TableLayout::build(buffer, &block);
                let ghost old_len = layouts@.len();
                assert(layout_matches(layout, sb, t));
                layouts.push(layout);
                proof {
                    assert(layouts@[old_len as int] == layout);
                    assert forall|k: int|
                        0 <= k < layouts_from(t, fences@, (end + 1) as nat).len() implies #[trigger] layouts_from(
                        t,
                        fences@,
                        (end + 1) as nat,
                    )[k] == all[layouts@.len() + k] by {
                        assert(layouts_from(t, fences@, (end + 1) as nat)[k] == rest[k + 1]);
                    }
                }
                row = end + 1;
            },
            Option::None => {
                row = row + 1;
            },
        }
    }
    layouts
}

/// Finds every table block in the buffer with its measured layout.
pub fn table_layouts(buffer: &EditorBuffer) -> (ls: Vec<TableLayout>)
    ensures
        ({
            let t = buffer.text_view();
            let f = fences_upto(t, line_count(t));
            &&& ls@.len() == layouts_from(t, f, 0).len()
            &&& forall|k: int|
                0 <= k < ls@.len() ==> layout_matches(#[trigger] ls@[k], layouts_from(t, f, 0)[k], t)
        }),
{
    let fences = fence_rows(buffer);
    table_layouts_with_fences(buffer, fences.as_slice())
}

} // verus!
