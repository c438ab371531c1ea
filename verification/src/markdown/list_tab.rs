//! `Tab` / `Shift+Tab` inside Markdown lists: indent or outdent the
//! targeted items, renumber ordered runs and keep the cursor or selection
//! on the same text.
use std::collections::HashMap;
use vstd::prelude::*;
use crate::buffer::{
    batch_edits, batch_valid, batch_view, offset_of_point, point_of_offset, replaced_all, EditorBuffer,
};
use crate::coordinates::Point;
use crate::hook::HookContext;
use crate::rope_text::char_of_byte;
use crate::selection::Selection;
use crate::markdown::list::{format_list_prefix, digit_run, indent_of, indent_run, list_item, list_prefix, parse_list_item, ListMarker, ParsedListItem};
use crate::rope_text::{line_count, line_start, line_text};
use crate::text::{
    byte_at, byte_len, char_width, chars_to_string, lemma_byte_at_len, lemma_byte_at_mono, lemma_byte_at_step,
    lemma_byte_len_ge_len, slice_chars, str_byte_len, str_chars, str_eq, trim_start,
};

verus! {

/// Line `r` as the buffer returns it, line break included (empty past the
/// end).
pub open spec fn line_at(t: Seq<char>, r: nat) -> Seq<char> {
    if r < line_count(t) {
        line_text(t, r)
    } else {
        Seq::empty()
    }
}

/// `cs` without its trailing `\r` and `\n` characters.
pub open spec fn strip_breaks(cs: Seq<char>) -> Seq<char>
    decreases cs.len(),
{
    if cs.len() > 0 && (cs.last() == '\r' || cs.last() == '\n') {
        strip_breaks(cs.drop_last())
    } else {
        cs
    }
}

/// A line that ends a list block: blank, or a heading.
pub open spec fn block_stop(cs: Seq<char>) -> bool {
    let tt = trim_start(strip_breaks(cs));
    tt.len() == 0 || tt[0] == '#'
}

/// A line that continues a list block: not a stop, and a list item.
pub open spec fn block_item(cs: Seq<char>) -> bool {
    !block_stop(cs) && list_item(strip_breaks(cs)) is Some
}

/// First row of the list block reaching up from row `r`.
pub open spec fn block_up(t: Seq<char>, r: nat) -> nat
    decreases r,
{
    if r == 0 {
        0
    } else if block_item(line_at(t, (r - 1) as nat)) {
        block_up(t, (r - 1) as nat)
    } else {
        r
    }
}

/// Last row of the list block reaching down from row `r`.
pub open spec fn block_down(t: Seq<char>, r: nat) -> nat
    decreases line_count(t) - r,
{
    if r + 1 < line_count(t) && block_item(line_at(t, r + 1)) {
        block_down(t, r + 1)
    } else {
        r
    }
}

/// Every line's indentation width, with and without its line break, fits
/// in a `usize`.
pub open spec fn indents_fit(t: Seq<char>) -> bool {
    forall|r: nat|
        r < line_count(t) ==> indent_of(#[trigger] line_at(t, r)).0 <= usize::MAX && indent_of(
            strip_breaks(line_at(t, r)),
        ).0 <= usize::MAX
}

pub(crate) fn strip_breaks_exec(v: &Vec<char>) -> (r: Vec<char>)
    ensures
        r@ == strip_breaks(v@),
{
    let mut n = v.len();
    proof {
        assert(v@.take(n as int) =~= v@);
    }
    while n > 0 && (v[n - 1] == '\r' || v[n - 1] == '\n')
        invariant
            n <= v@.len(),
            strip_breaks(v@) == strip_breaks(v@.take(n as int)),
        decreases n,
    {
        proof {
            assert(v@.take(n as int).drop_last() =~= v@.take(n - 1));
        }
        n = n - 1;
    }
    proof {
        if n == v@.len() {
            assert(v@.take(n as int) =~= v@);
        }
    }
    crate::text::slice_chars(v, 0, n)
}

/// Whether a buffer line continues a list block.
fn line_is_block_item(buffer: &EditorBuffer, row: usize) -> (b: bool)
    requires
        row < line_count(buffer.text_view()),
        indents_fit(buffer.text_view()),
    ensures
        b == block_item(line_at(buffer.text_view(), row as nat)),
{
    let line = buffer.line_to_string(row);
    let chars = str_chars(line.as_str());
    let stripped = strip_breaks_exec(&chars);
    let lead = crate::text::skip_space_exec(&stripped, 0);
    if lead >= stripped.len() || stripped[lead] == '#' {
        proof {
            assert(trim_start(stripped@) =~= stripped@.skip(lead as int));
        }
        return false;
    }
    proof {
        assert(trim_start(stripped@) =~= stripped@.skip(lead as int));
        assert(indent_of(strip_breaks(line_at(buffer.text_view(), row as nat))).0 <= usize::MAX);
    }
    let s = crate::text::chars_to_string(&stripped);
    parse_list_item(s.as_str()).is_some()
}

/// The contiguous list block around rows `start_row..=end_row`: it grows
/// over neighbouring list items and stops at blank lines, headings and
/// other lines.
pub fn find_list_block_range(buffer: &EditorBuffer, start_row: usize, end_row: usize) -> (r: (
    usize,
    usize,
))
    requires
        start_row < line_count(buffer.text_view()),
        end_row < line_count(buffer.text_view()),
        indents_fit(buffer.text_view()),
    ensures
        r.0 == block_up(buffer.text_view(), start_row as nat),
        r.1 == block_down(buffer.text_view(), end_row as nat),
        r.0 <= start_row,
        end_row <= r.1 < line_count(buffer.text_view()),
{
    let ghost t = buffer.text_view();
    let total_lines = buffer.len_lines();
    let mut block_start = start_row;
    while block_start > 0
        invariant
            block_start <= start_row < line_count(t),
            t == buffer.text_view(),
            indents_fit(t),
            block_up(t, start_row as nat) == block_up(t, block_start as nat),
        ensures
            block_up(t, start_row as nat) == block_start,
            block_start <= start_row,
        decreases block_start,
    {
        let previous_row = block_start - 1;
        if !line_is_block_item(buffer, previous_row) {
            break;
        }
        block_start = previous_row;
    }
    let mut block_end = end_row;
    while block_end + 1 < total_lines
        invariant
            end_row <= block_end < line_count(t),
            total_lines == line_count(t),
            t == buffer.text_view(),
            indents_fit(t),
            block_down(t, end_row as nat) == block_down(t, block_end as nat),
        ensures
            block_down(t, end_row as nat) == block_end,
            end_row <= block_end < line_count(t),
        decreases total_lines - block_end,
    {
        let next_row = block_end + 1;
        if !line_is_block_item(buffer, next_row) {
            break;
        }
        block_end = next_row;
    }
    (block_start, block_end)
}


/// Characters of a scanned indentation run are spaces or tabs.
proof fn lemma_indent_run_chars(cs: Seq<char>, i: nat, width: nat)
    ensures
        forall|k: int|
            i <= k < indent_run(cs, i, width).1 ==> cs[k] == ' ' || cs[k] == '\t',
    decreases cs.len() - i,
{
    crate::markdown::list::lemma_indent_run_grows(cs, i, width);
    if i < cs.len() && cs[i as int] == ' ' {
        lemma_indent_run_chars(cs, i + 1, width + 1);
    } else if i < cs.len() && cs[i as int] == '\t' {
        lemma_indent_run_chars(cs, i + 1, (width + 4 - width % 4) as nat);
    }
}

/// Digits counted by `digit_run` are ASCII digits.
proof fn lemma_digit_run_chars(t: Seq<char>, i: nat)
    ensures
        i + digit_run(t, i) <= t.len() || digit_run(t, i) == 0,
        forall|k: int| i <= k < i + digit_run(t, i) ==> '0' <= t[k] && t[k] <= '9',
    decreases t.len() - i,
{
    if i < t.len() && '0' <= t[i as int] && t[i as int] <= '9' {
        lemma_digit_run_chars(t, i + 1);
    }
}

/// A list item's prefix (up to its content) is ASCII and lies in the line.
pub proof fn lemma_list_item_ascii(cs: Seq<char>)
    requires
        cs.len() <= usize::MAX,
    ensures
        list_item(cs) matches Some(it) ==> {
            &&& it.indent_bytes <= it.content_start_byte <= cs.len()
            &&& forall|k: int| 0 <= k < it.content_start_byte ==> char_width(#[trigger] cs[k]) == 1
        },
{
    let b = indent_of(cs).1;
    lemma_indent_run_chars(cs, 0, 0);
    crate::markdown::list::lemma_indent_run_grows(cs, 0, 0);
    let t = cs.skip(b as int);
    lemma_digit_run_chars(t, 0);
    let d = digit_run(t, 0);
    if let Some(it) = list_item(cs) {
        let csb = it.content_start_byte as nat;
        assert(it.indent_bytes == b);
        assert(b <= csb <= cs.len()) by {
            if t.len() >= 2 && crate::markdown::list::is_bullet_char(t[0]) && t[1] == ' ' {
                assert(t.skip(2).len() == t.len() - 2);
            } else if !(t.len() == 1 && crate::markdown::list::is_bullet_char(t[0])) {
                assert(t.skip(d + 1int).len() == t.len() - d - 1);
            }
        }
        assert forall|k: int| 0 <= k < csb implies char_width(#[trigger] cs[k]) == 1 by {
            if k >= b {
                assert(cs[k] == t[k - b]);
                if t.len() >= 2 && crate::markdown::list::is_bullet_char(t[0]) && t[1] == ' ' {
                    if k - b >= 2 {
                        assert(t.skip(2)[k - b - 2] == t[k - b]);
                    }
                } else if !(t.len() == 1 && crate::markdown::list::is_bullet_char(t[0])) {
                    if k - b > d {
                        assert(t.skip(d + 1int)[k - b - d - 1] == t[k - b]);
                        let after = t.skip(d + 1int);
                        if k - b > d + 1 {
                            assert(after.skip(1)[k - b - d - 2] == t[k - b]);
                        }
                    }
                }
            }
        }
    }
}

/// Bytes of a run of one-byte characters.
proof fn lemma_byte_at_ascii(t: Seq<char>, c: nat, k: nat)
    requires
        c + k <= t.len(),
        forall|i: int| c <= i < c + k ==> char_width(#[trigger] t[i]) == 1,
    ensures
        byte_at(t, (c + k) as int) == byte_at(t, c as int) + k,
    decreases k,
{
    if k > 0 {
        lemma_byte_at_ascii(t, c, (k - 1) as nat);
        lemma_byte_at_step(t, c + k - 1);
    }
}

/// The rows a Tab acts on: the selection's rows (a selection ending at the
/// start of a later row leaves that row out), else the cursor's row.
pub open spec fn tab_rows(t: Seq<char>, cursor: nat, sel: Option<Selection>) -> (nat, nat) {
    match sel {
        Some(s) => {
            let sp = point_of_offset(t, s.start_spec() as nat);
            let ep = point_of_offset(t, s.end_spec() as nat);
            (sp.0, if ep.0 > sp.0 && ep.1 == 0 {
                (ep.0 - 1) as nat
            } else {
                ep.0
            })
        },
        None => {
            let p = point_of_offset(t, cursor);
            (p.0, p.0)
        },
    }
}

/// Whether a row in `s..=e` holds a list item.
pub open spec fn any_item(t: Seq<char>, s: nat, e: nat) -> bool {
    exists|r: nat| s <= r <= e && (#[trigger] list_item(line_at(t, r))) is Some
}

/// The indentation a planned row gets: the targeted rows move by `size`
/// (outdenting stops at zero), the others keep theirs.
pub open spec fn target_indent(it: ParsedListItem, r: nat, ts: nat, te: nat, outdent: bool, size: nat) -> nat {
    if ts <= r <= te {
        if outdent {
            if it.indent_bytes >= size {
                (it.indent_bytes - size) as nat
            } else {
                0
            }
        } else {
            (it.indent_bytes + size) as nat
        }
    } else {
        it.indent_bytes as nat
    }
}

/// The list rows of `r..=be`, each with its item and target indentation.
pub open spec fn tab_plans(
    t: Seq<char>,
    r: nat,
    be: nat,
    ts: nat,
    te: nat,
    outdent: bool,
    size: nat,
) -> Seq<(nat, ParsedListItem, nat)>
    decreases be + 1 - r,
{
    if r > be {
        Seq::empty()
    } else {
        let rest = tab_plans(t, r + 1, be, ts, te, outdent, size);
        match list_item(line_at(t, r)) {
            Some(it) => seq![(r, it, target_indent(it, r, ts, te, outdent, size))] + rest,
            None => rest,
        }
    }
}

/// The open ordered sequences (indentation to last number) without those
/// deeper than `indent`.
pub open spec fn open_up_to(act: Map<nat, nat>, indent: nat) -> Map<nat, nat> {
    Map::new(|l: nat| act.contains_key(l) && l <= indent, |l: nat| act[l])
}

/// Renumbered markers for plans `k..`: each ordered item continues the
/// open sequence at its indentation, or starts one (at 1 for targeted rows,
/// at its own number otherwise); sequences deeper than an item end; a
/// bullet ends the sequence at its indentation.
pub closed spec fn renumber(
    plans: Seq<(nat, ParsedListItem, nat)>,
    ts: nat,
    te: nat,
    k: nat,
    act: Map<nat, nat>,
) -> Seq<ListMarker>
    decreases plans.len() - k,
{
    if k >= plans.len() {
        Seq::empty()
    } else {
        let row = plans[k as int].0;
        let it = plans[k as int].1;
        let ind = plans[k as int].2;
        let a1 = open_up_to(act, ind);
        match it.marker {
            ListMarker::Bullet { .. } => seq![it.marker] + renumber(plans, ts, te, k + 1, a1.remove(ind)),
            ListMarker::Ordered { number, delimiter, task } => {
                let next: nat = if a1.contains_key(ind) {
                    a1[ind] + 1
                } else if ts <= row <= te {
                    1
                } else {
                    number as nat
                };
                seq![ListMarker::Ordered { number: next as usize, delimiter, task }] + renumber(
                    plans,
                    ts,
                    te,
                    k + 1,
                    a1.insert(ind, next),
                )
            },
        }
    }
}

/// Byte offset where row `r` starts.
pub open spec fn row_start(t: Seq<char>, r: nat) -> nat {
    byte_at(t, line_start(t, r) as int)
}

/// The prefix edits for plans `k..`: each row whose new prefix differs
/// from the old gets its prefix replaced.
pub open spec fn tab_reps(
    t: Seq<char>,
    plans: Seq<(nat, ParsedListItem, nat)>,
    markers: Seq<ListMarker>,
    k: nat,
) -> Seq<(nat, nat, Seq<char>)>
    decreases plans.len() - k,
{
    if k >= plans.len() {
        Seq::empty()
    } else {
        let row = plans[k as int].0;
        let csb = plans[k as int].1.content_start_byte as nat;
        let newp = list_prefix(plans[k as int].2, markers[k as int]);
        let rest = tab_reps(t, plans, markers, k + 1);
        if newp != line_at(t, row).take(csb as int) {
            seq![(row_start(t, row), row_start(t, row) + csb, newp)] + rest
        } else {
            rest
        }
    }
}

/// Old and new prefix lengths of the first plan from `k` on for `row`.
pub open spec fn prefix_delta(
    plans: Seq<(nat, ParsedListItem, nat)>,
    markers: Seq<ListMarker>,
    row: nat,
    k: nat,
) -> Option<(nat, nat)>
    decreases plans.len() - k,
{
    if k >= plans.len() {
        None
    } else if plans[k as int].0 == row {
        Some(
            (
                plans[k as int].1.content_start_byte as nat,
                byte_len(list_prefix(plans[k as int].2, markers[k as int])),
            ),
        )
    } else {
        prefix_delta(plans, markers, row, k + 1)
    }
}

/// A column moved with its row's prefix: inside the old prefix it lands
/// at the end of the new one, past it it keeps its distance.
pub open spec fn shift_col(d: Option<(nat, nat)>, col: nat) -> nat {
    match d {
        Some(p) => if col <= p.0 {
            p.1
        } else {
            (p.1 + (col - p.0)) as nat
        },
        None => col,
    }
}

/// Every ordered number on rows `lo..=hi` leaves room for counting on
/// over the rows of that range.
pub open spec fn numbers_fit(t: Seq<char>, lo: nat, hi: nat) -> bool {
    forall|r: nat|
        lo <= r <= hi && r < line_count(t) ==> (#[trigger] list_item(line_at(t, r)) matches Some(it) ==> (
        it.marker matches ListMarker::Ordered { number, .. } ==> number + (hi + 1 - lo) < usize::MAX))
}

/// The ordered numbers of the list block that `Tab` renumbers leave room
/// for the counting it does.
pub open spec fn tab_numbers_fit(t: Seq<char>, cursor: nat, sel: Option<Selection>) -> bool {
    let rows = tab_rows(t, cursor, sel);
    numbers_fit(t, block_up(t, rows.0), block_down(t, rows.1))
}

/// The plans list rows in order, each one a list item of its row.
proof fn lemma_tab_plans(t: Seq<char>, r: nat, be: nat, ts: nat, te: nat, outdent: bool, size: nat)
    ensures
        r <= be + 1 ==> tab_plans(t, r, be, ts, te, outdent, size).len() <= be + 1 - r,
        forall|k: int|
            0 <= k < tab_plans(t, r, be, ts, te, outdent, size).len() ==> {
                let p = #[trigger] tab_plans(t, r, be, ts, te, outdent, size)[k];
                &&& r <= p.0 <= be
                &&& list_item(line_at(t, p.0)) == Some(p.1)
                &&& p.2 == target_indent(p.1, p.0, ts, te, outdent, size)
            },
        forall|i: int, j: int|
            0 <= i < j < tab_plans(t, r, be, ts, te, outdent, size).len() ==> (#[trigger] tab_plans(
                t,
                r,
                be,
                ts,
                te,
                outdent,
                size,
            )[i]).0 < (#[trigger] tab_plans(t, r, be, ts, te, outdent, size)[j]).0,
    decreases be + 1 - r,
{
    if r <= be {
        lemma_tab_plans(t, r + 1, be, ts, te, outdent, size);
        let rest = tab_plans(t, r + 1, be, ts, te, outdent, size);
        match list_item(line_at(t, r)) {
            Some(it) => {
                let ps = tab_plans(t, r, be, ts, te, outdent, size);
                assert forall|i: int, j: int| 0 <= i < j < ps.len() implies (#[trigger] ps[i]).0 < (
                #[trigger] ps[j]).0 by {
                    if i == 0 {
                        assert(ps[j] == rest[j - 1]);
                    } else {
                        assert(ps[i] == rest[i - 1] && ps[j] == rest[j - 1]);
                    }
                }
                assert forall|k: int| 0 <= k < ps.len() implies {
                    let p = #[trigger] ps[k];
                    &&& r <= p.0 <= be
                    &&& list_item(line_at(t, p.0)) == Some(p.1)
                    &&& p.2 == target_indent(p.1, p.0, ts, te, outdent, size)
                } by {
                    if k > 0 {
                        assert(ps[k] == rest[k - 1]);
                    }
                }
            },
            None => {},
        }
    }
}

/// Ends the open sequences deeper than `indent`.
fn drop_deeper(active: &mut HashMap<usize, usize>, indent: usize)
    ensures
        counts_view(final(active)@) == open_up_to(counts_view(old(active)@), indent as nat),
        forall|l: usize| #[trigger] final(active)@.contains_key(l) ==> old(active)@.contains_key(l)
            && final(active)@[l] == old(active)@[l],
{
    let ghost a0 = active@;
    let mut deeper: Vec<usize> = Vec::new();
    for key in it: active.keys()
        invariant
            active@ == a0,
            forall|i: int| 0 <= i < deeper@.len() ==> deeper@[i] > indent,
            forall|l: usize|
                a0.contains_key(l) && l > indent && !deeper@.contains(l) ==> exists|i: int|
                    it.index() <= i < it.seq().len() && *it.seq()[i] == l,
    {
        let ghost d0 = deeper@;
        proof {
            assert(*key == *it.seq()[it.index()]);
        }
        if *key > indent {
            deeper.push(*key);
        }
        proof {
            assert forall|l: usize| a0.contains_key(l) && l > indent && !deeper@.contains(l) implies exists|i: int|
                it.index() + 1 <= i < it.seq().len() && *it.seq()[i] == l by {
                if d0.contains(l) {
                    let q = choose|q: int| 0 <= q < d0.len() && d0[q] == l;
                    assert(deeper@[q] == l);
                }
                let i = choose|i: int| it.index() <= i < it.seq().len() && *it.seq()[i] == l;
                if *key > indent {
                    assert(deeper@[d0.len() as int] == *key);
                }
                assert(i != it.index());
            }
        }
    }
    let mut i: usize = 0;
    while i < deeper.len()
        invariant
            0 <= i <= deeper@.len(),
            forall|j: int| 0 <= j < deeper@.len() ==> deeper@[j] > indent,
            forall|l: usize| a0.contains_key(l) && l > indent ==> deeper@.contains(l),
            forall|l: usize|
                #[trigger] active@.contains_key(l) <==> a0.contains_key(l) && !deeper@.take(i as int).contains(l),
            forall|l: usize| #[trigger] active@.contains_key(l) ==> active@[l] == a0[l],
        decreases deeper@.len() - i,
    {
        let d = deeper[i];
        let ghost m0 = active@;
        active.remove(&d);
        proof {
            let pre = deeper@.take(i as int);
            assert(deeper@.take(i + 1) =~= pre.push(d));
            assert forall|l: usize| pre.push(d).contains(l) <==> pre.contains(l) || l == d by {
                if pre.push(d).contains(l) {
                    let q = choose|q: int| 0 <= q < pre.len() + 1 && pre.push(d)[q] == l;
                    if q < pre.len() {
                        assert(pre[q] == l);
                    }
                }
                if pre.contains(l) {
                    let q = choose|q: int| 0 <= q < pre.len() && pre[q] == l;
                    assert(pre.push(d)[q] == l);
                }
                if l == d {
                    assert(pre.push(d)[pre.len() as int] == l);
                }
            }
            assert(active@ == m0.remove(d));
        }
        i = i + 1;
    }
    proof {
        assert(deeper@.take(i as int) =~= deeper@);
        assert(counts_view(active@) =~= open_up_to(counts_view(a0), indent as nat));
    }
}

/// The open sequences of the exec map, as values.
pub open spec fn counts_view(m: Map<usize, usize>) -> Map<nat, nat> {
    Map::new(|l: nat| l <= usize::MAX && m.contains_key(l as usize), |l: nat| m[l as usize] as nat)
}

/// Plans as values.
pub open spec fn plans_view(v: Seq<(usize, ParsedListItem, usize)>) -> Seq<(nat, ParsedListItem, nat)> {
    v.map_values(|p: (usize, ParsedListItem, usize)| (p.0 as nat, p.1, p.2 as nat))
}

fn copy_marker(m: &ListMarker) -> (r: ListMarker)
    ensures
        r == *m,
{
    match m {
        ListMarker::Bullet { bullet, task } => ListMarker::Bullet { bullet: *bullet, task: *task },
        ListMarker::Ordered { number, delimiter, task } => ListMarker::Ordered {
            number: *number,
            delimiter: *delimiter,
            task: *task,
        },
    }
}

fn copy_item(it: &ParsedListItem) -> (r: ParsedListItem)
    ensures
        r == *it,
{
    ParsedListItem {
        indent_width: it.indent_width,
        indent_bytes: it.indent_bytes,
        marker: copy_marker(&it.marker),
        content_start_byte: it.content_start_byte,
    }
}

/// Renumbers the planned rows (see [`renumber`]).
fn renumber_exec(plans: &Vec<(usize, ParsedListItem, usize)>, ts: usize, te: usize, room: Ghost<nat>) -> (markers: Vec<ListMarker>)
    requires
        plans@.len() <= room@,
        room@ < usize::MAX,
        forall|k: int|
            0 <= k < plans@.len() ==> ((#[trigger] plans@[k]).1.marker matches ListMarker::Ordered { number, .. } ==> number + room@ < usize::MAX),
    ensures
        markers@ == renumber(plans_view(plans@), ts as nat, te as nat, 0, Map::empty()),
{
    let ghost pv = plans_view(plans@);
    let mut active: HashMap<usize, usize> = HashMap::new();
    let mut markers: Vec<ListMarker> = Vec::new();
    let mut k: usize = 0;
    proof {
        assert(counts_view(active@) =~= Map::<nat, nat>::empty());
        assert(markers@ + renumber(pv, ts as nat, te as nat, 0, Map::empty()) =~= renumber(pv, ts as nat, te as nat, 0, Map::empty()));
    }
    while k < plans.len()
        invariant
            k <= plans@.len() <= room@ < usize::MAX,
            pv == plans_view(plans@),
            forall|j: int|
                0 <= j < plans@.len() ==> ((#[trigger] plans@[j]).1.marker matches ListMarker::Ordered { number, .. } ==> number + room@ < usize::MAX),
            markers@ + renumber(pv, ts as nat, te as nat, k as nat, counts_view(active@)) == renumber(
                pv,
                ts as nat,
                te as nat,
                0,
                Map::empty(),
            ),
            forall|l: usize| #[trigger] active@.contains_key(l) ==> active@[l] + (room@ - k) < usize::MAX,
        decreases plans@.len() - k,
    {
        let row = plans[k].0;
        let cur = plans[k].2;
        let ghost a0 = counts_view(active@);
        drop_deeper(&mut active, cur);
        proof {
            assert(pv[k as int] == (row as nat, plans@[k as int].1, cur as nat));
        }
        let ghost a1 = counts_view(active@);
        let m = match &plans[k].1.marker {
            ListMarker::Bullet { .. } => {
                active.remove(&cur);
                proof {
                    assert(counts_view(active@) =~= a1.remove(cur as nat));
                }
                copy_marker(&plans[k].1.marker)
            },
            ListMarker::Ordered { number, delimiter, task } => {
                let next = match active.get(&cur) {
                    Some(previous) => *previous + 1,
                    None => if ts <= row && row <= te {
                        1
                    } else {
                        *number
                    },
                };
                proof {
                    assert(a1.contains_key(cur as nat) == active@.contains_key(cur));
                }
                active.insert(cur, next);
                proof {
                    assert(counts_view(active@) =~= a1.insert(cur as nat, next as nat));
                }
                ListMarker::Ordered { number: next, delimiter: *delimiter, task: *task }
            },
        };
        let ghost before = markers@;
        markers.push(m);
        proof {
            assert(renumber(pv, ts as nat, te as nat, k as nat, a0) == seq![m] + renumber(
                pv,
                ts as nat,
                te as nat,
                (k + 1) as nat,
                counts_view(active@),
            ));
            assert(markers@ + renumber(pv, ts as nat, te as nat, (k + 1) as nat, counts_view(active@))
                =~= before + renumber(pv, ts as nat, te as nat, k as nat, a0));
        }
        k = k + 1;
    }
    proof {
        assert(renumber(pv, ts as nat, te as nat, k as nat, counts_view(active@)) =~= Seq::<ListMarker>::empty());
        assert(markers@ + Seq::<ListMarker>::empty() =~= markers@);
    }
    markers
}

/// A row's line lies in the text, and its start is a byte offset no later
/// than the next row's.
pub(crate) proof fn lemma_row(t: Seq<char>, r: nat)
    requires
        r < line_count(t),
    ensures
        line_at(t, r).len() <= byte_len(line_at(t, r)) <= byte_len(t),
        line_start(t, r) + line_at(t, r).len() == line_start(t, r + 1) <= t.len(),
        forall|i: int| 0 <= i < line_at(t, r).len() ==> line_at(t, r)[i] == t[line_start(t, r) + i],
        row_start(t, r) <= row_start(t, r + 1) <= byte_len(t),
{
    crate::rope_text::lemma_line_start_bounds(t, r);
    let a = line_start(t, r);
    let b = line_start(t, r + 1);
    crate::rope_text::lemma_byte_len_subrange(t, a as int, b as int);
    lemma_byte_at_mono(t, a as int, b as int);
    lemma_byte_at_mono(t, b as int, t.len() as int);
    lemma_byte_at_len(t);
    lemma_byte_len_ge_len(line_at(t, r));
}

/// Row starts ascend.
proof fn lemma_row_start_mono(t: Seq<char>, a: nat, b: nat)
    requires
        a <= b,
    ensures
        row_start(t, a) <= row_start(t, b),
{
    crate::rope_text::lemma_first_reach_mono(t, a, b, 0);
    crate::rope_text::lemma_first_reach_bound(t, b, 0);
    lemma_byte_at_mono(t, line_start(t, a) as int, line_start(t, b) as int);
}

/// Row and column of every byte offset name an existing row.
pub(crate) proof fn lemma_point_row(t: Seq<char>, o: nat)
    ensures
        point_of_offset(t, o).0 < line_count(t),
{
    let b = crate::buffer::min_nat(o, byte_len(t));
    crate::rope_text::lemma_char_of_byte(t, b);
    crate::rope_text::lemma_breaks_mono(t, crate::rope_text::char_of_byte(t, b), t.len());
}

/// A column shifted with its row's prefix; saturates where the exact value
/// would not fit (any column past the row's end lands on the end anyway).
fn shift_col_exec(d: Option<(usize, usize)>, col: usize) -> (r: usize)
    ensures
        r == crate::buffer::min_nat(
            shift_col(
                match d {
                    Some(p) => Some((p.0 as nat, p.1 as nat)),
                    None => None,
                },
                col as nat,
            ),
            usize::MAX as nat,
        ),
{
    match d {
        Some((old_len, new_len)) => if col <= old_len {
            new_len
        } else {
            new_len.saturating_add(col - old_len)
        },
        None => col,
    }
}

/// Clamping a column first to `usize` does not move the offset of a point.
proof fn lemma_offset_of_point_clamp(t: Seq<char>, row: nat, col: nat)
    requires
        byte_len(t) <= usize::MAX,
    ensures
        offset_of_point(t, row, crate::buffer::min_nat(col, usize::MAX as nat)) == offset_of_point(t, row, col),
{
    if row < line_count(t) {
        lemma_row(t, row);
    }
}

fn find_delta(plans: &Vec<(usize, ParsedListItem, usize)>, deltas: &Vec<(usize, usize)>, row: usize) -> (r: Option<(usize, usize)>)
    requires
        deltas@.len() == plans@.len(),
    ensures
        match r {
            Some(p) => exists|k: int| 0 <= k < plans@.len() && plans@[k].0 == row && deltas@[k] == p
                && (forall|j: int| 0 <= j < k ==> plans@[j].0 != row),
            None => forall|k: int| 0 <= k < plans@.len() ==> plans@[k].0 != row,
        },
{
    let mut k: usize = 0;
    while k < plans.len()
        invariant
            k <= plans@.len() == deltas@.len(),
            forall|j: int| 0 <= j < k ==> plans@[j].0 != row,
        decreases plans@.len() - k,
    {
        if plans[k].0 == row {
            return Some(deltas[k]);
        }
        k = k + 1;
    }
    None
}

/// `prefix_delta` finds the first plan for the row.
proof fn lemma_prefix_delta(
    pv: Seq<(nat, ParsedListItem, nat)>,
    m: Seq<ListMarker>,
    row: nat,
    i: nat,
    k: Option<nat>,
)
    requires
        i <= pv.len(),
        forall|j: int| i <= j < pv.len() && (k matches Some(kk) ==> j < kk) ==> pv[j].0 != row,
        k matches Some(kk) ==> i <= kk < pv.len() && pv[kk as int].0 == row,
    ensures
        prefix_delta(pv, m, row, i) == match k {
            Some(kk) => Some(
                (
                    pv[kk as int].1.content_start_byte as nat,
                    byte_len(list_prefix(pv[kk as int].2, m[kk as int])),
                ),
            ),
            None => None::<(nat, nat)>,
        },
    decreases pv.len() - i,
{
    if i < pv.len() && !(k matches Some(kk) && kk == i) {
        lemma_prefix_delta(pv, m, row, i + 1, k);
    }
}

/// Renumbering gives one marker per plan.
proof fn lemma_renumber_len(plans: Seq<(nat, ParsedListItem, nat)>, ts: nat, te: nat, k: nat, act: Map<nat, nat>)
    requires
        k <= plans.len(),
    ensures
        renumber(plans, ts, te, k, act).len() == plans.len() - k,
    decreases plans.len() - k,
{
    if k < plans.len() {
        let ind = plans[k as int].2;
        let a1 = open_up_to(act, ind);
        match plans[k as int].1.marker {
            ListMarker::Bullet { .. } => lemma_renumber_len(plans, ts, te, k + 1, a1.remove(ind)),
            ListMarker::Ordered { number, .. } => {
                let next: nat = if a1.contains_key(ind) {
                    a1[ind] + 1
                } else if ts <= plans[k as int].0 <= te {
                    1
                } else {
                    number as nat
                };
                lemma_renumber_len(plans, ts, te, k + 1, a1.insert(ind, next));
            },
        }
    }
}

/// The rows a Tab acts on (see [`tab_rows`]).
fn tab_target_rows(buffer: &EditorBuffer, selection: Option<Selection>) -> (r: (usize, usize))
    ensures
        (r.0 as nat, r.1 as nat) == tab_rows(buffer.text_view(), buffer.cursor_view(), selection),
        r.0 < line_count(buffer.text_view()),
        r.1 < line_count(buffer.text_view()),
        r.0 <= r.1,
{
    let ghost t = buffer.text_view();
    match selection {
        Some(sel) => {
            let range = sel.byte_range();
            let sp = buffer.offset_to_point(range.start);
            let ep = buffer.offset_to_point(range.end);
            proof {
                lemma_point_row(t, range.start as nat);
                lemma_point_row(t, range.end as nat);
                let a = crate::buffer::min_nat(range.start as nat, byte_len(t));
                let b = crate::buffer::min_nat(range.end as nat, byte_len(t));
                crate::rope_text::lemma_char_of_byte_mono(t, a, b);
                crate::rope_text::lemma_breaks_mono(t, char_of_byte(t, a), char_of_byte(t, b));
            }
            let adjusted = if ep.row > sp.row && ep.column == 0 {
                ep.row - 1
            } else {
                ep.row
            };
            (sp.row, adjusted)
        },
        None => {
            let p = buffer.cursor_point();
            proof {
                lemma_point_row(t, buffer.cursor_view());
            }
            (p.row, p.row)
        },
    }
}

/// Whether a row in `ts..=te` holds a list item.
fn rows_have_item(buffer: &EditorBuffer, ts: usize, te: usize) -> (b: bool)
    requires
        te < line_count(buffer.text_view()),
        line_count(buffer.text_view()) < usize::MAX,
        indents_fit(buffer.text_view()),
    ensures
        b == any_item(buffer.text_view(), ts as nat, te as nat),
{
    let ghost t = buffer.text_view();
    let mut r = ts;
    while r <= te
        invariant
            ts <= r,
            te < line_count(t) < usize::MAX,
            t == buffer.text_view(),
            indents_fit(t),
            forall|q: nat| ts <= q < r ==> (#[trigger] list_item(line_at(t, q))) is None,
        decreases te + 1 - r,
    {
        let line = buffer.line_to_string(r);
        proof {
            assert(indent_of(line_at(t, r as nat)).0 <= usize::MAX);
        }
        if parse_list_item(line.as_str()).is_some() {
            proof {
                assert(list_item(line_at(t, r as nat)) is Some);
            }
            return true;
        }
        r = r + 1;
    }
    false
}

/// The list rows of `bs..=be` with their target indentation (see
/// [`tab_plans`]).
fn collect_plans(
    buffer: &EditorBuffer,
    bs: usize,
    be: usize,
    ts: usize,
    te: usize,
    outdent: bool,
    indent_size: usize,
) -> (plans: Vec<(usize, ParsedListItem, usize)>)
    requires
        be < line_count(buffer.text_view()) < usize::MAX,
        indents_fit(buffer.text_view()),
        byte_len(buffer.text_view()) + indent_size <= usize::MAX,
    ensures
        plans_view(plans@) == tab_plans(
            buffer.text_view(),
            bs as nat,
            be as nat,
            ts as nat,
            te as nat,
            outdent,
            indent_size as nat,
        ),
{
    let ghost t = buffer.text_view();
    let ghost size = indent_size as nat;
    let ghost full = tab_plans(t, bs as nat, be as nat, ts as nat, te as nat, outdent, size);
    let mut plans: Vec<(usize, ParsedListItem, usize)> = Vec::new();
    let mut r = bs;
    proof {
        assert(plans_view(plans@) + full =~= full);
    }
    while r <= be
        invariant
            bs <= r,
            be < line_count(t) < usize::MAX,
            t == buffer.text_view(),
            indents_fit(t),
            byte_len(t) + indent_size <= usize::MAX,
            size == indent_size,
            plans_view(plans@) + tab_plans(t, r as nat, be as nat, ts as nat, te as nat, outdent, size)
                == full,
        decreases be + 1 - r,
    {
        let line = buffer.line_to_string(r);
        proof {
            assert(indent_of(line_at(t, r as nat)).0 <= usize::MAX);
            lemma_row(t, r as nat);
            lemma_list_item_ascii(line_at(t, r as nat));
        }
        let ghost rest = tab_plans(t, (r + 1) as nat, be as nat, ts as nat, te as nat, outdent, size);
        let ghost here = tab_plans(t, r as nat, be as nat, ts as nat, te as nat, outdent, size);
        let ghost before = plans_view(plans@);
        match parse_list_item(line.as_str()) {
            Some(it) => {
                let target = if ts <= r && r <= te {
                    if outdent {
                        it.indent_bytes.saturating_sub(indent_size)
                    } else {
                        it.indent_bytes + indent_size
                    }
                } else {
                    it.indent_bytes
                };
                proof {
                    assert(target as nat == target_indent(it, r as nat, ts as nat, te as nat, outdent, size));
                    assert(here == seq![(r as nat, it, target as nat)] + rest);
                }
                plans.push((r, it, target));
                proof {
                    assert(plans_view(plans@) =~= before.push((r as nat, it, target as nat)));
                    assert(plans_view(plans@) + rest =~= before + (seq![(r as nat, it, target as nat)] + rest));
                }
            },
            None => {
                proof {
                    assert(here == rest);
                }
            },
        }
        r = r + 1;
    }
    proof {
        assert(tab_plans(t, r as nat, be as nat, ts as nat, te as nat, outdent, size) =~= Seq::<(nat, ParsedListItem, nat)>::empty());
        assert(plans_view(plans@) =~= full);
    }
    plans
}

/// The prefix edits for the planned rows (see [`tab_reps`]), usable as a
/// batch, and each plan's old and new prefix lengths.
fn build_reps(
    buffer: &EditorBuffer,
    plans: &Vec<(usize, ParsedListItem, usize)>,
    markers: &Vec<ListMarker>,
    Ghost(bs): Ghost<nat>,
    Ghost(be): Ghost<nat>,
) -> (r: (Vec<(std::ops::Range<usize>, String)>, Vec<(usize, usize)>))
    requires
        markers@.len() == plans@.len(),
        be < line_count(buffer.text_view()),
        forall|j: int|
            0 <= j < plans@.len() ==> {
                let p = #[trigger] plans@[j];
                &&& bs <= p.0 <= be
                &&& list_item(line_at(buffer.text_view(), p.0 as nat)) == Some(p.1)
            },
        forall|i: int, j: int| 0 <= i < j < plans@.len() ==> (#[trigger] plans@[i]).0 < (#[trigger] plans@[j]).0,
    ensures
        batch_view(r.0@) == tab_reps(buffer.text_view(), plans_view(plans@), markers@, 0),
        batch_valid(buffer.text_view(), batch_view(r.0@)),
        r.1@.len() == plans@.len(),
        forall|j: int|
            0 <= j < plans@.len() ==> (#[trigger] r.1@[j]).0 == plans@[j].1.content_start_byte
                && r.1@[j].1 == byte_len(list_prefix(plans_view(plans@)[j].2, markers@[j])),
{
    let ghost t = buffer.text_view();
    let ghost pv = plans_view(plans@);
    let len = buffer.len_bytes();
    let mut reps: Vec<(std::ops::Range<usize>, String)> = Vec::new();
    let mut deltas: Vec<(usize, usize)> = Vec::new();
    let mut k: usize = 0;
    let ghost full_reps = tab_reps(t, pv, markers@, 0);
    proof {
        assert(batch_view(reps@) + full_reps =~= full_reps);
    }
    while k < plans.len()
        invariant
            k <= plans@.len() == markers@.len(),
            pv == plans_view(plans@),
            t == buffer.text_view(),
            byte_len(t) == len,
            be < line_count(t),
            full_reps == tab_reps(t, pv, markers@, 0),
            batch_view(reps@) + tab_reps(t, pv, markers@, k as nat) == full_reps,
            batch_valid(t, batch_view(reps@)),
            k < plans@.len() && batch_view(reps@).len() > 0 ==> batch_view(reps@).last().1 <= row_start(
                t,
                plans@[k as int].0 as nat,
            ),
            deltas@.len() == k,
            forall|j: int|
                0 <= j < k ==> (#[trigger] deltas@[j]).0 == plans@[j].1.content_start_byte && deltas@[j].1
                    == byte_len(list_prefix(pv[j].2, markers@[j])),
            forall|j: int|
                0 <= j < plans@.len() ==> {
                    let p = #[trigger] plans@[j];
                    &&& bs <= p.0 <= be
                    &&& list_item(line_at(t, p.0 as nat)) == Some(p.1)
                },
            forall|i: int, j: int| 0 <= i < j < plans@.len() ==> (#[trigger] plans@[i]).0 < (#[trigger] plans@[j]).0,
        decreases plans@.len() - k,
    {
        let row = plans[k].0;
        let csb = plans[k].1.content_start_byte;
        proof {
            assert(pv[k as int] == (row as nat, plans@[k as int].1, plans@[k as int].2 as nat));
            lemma_row(t, row as nat);
            lemma_list_item_ascii(line_at(t, row as nat));
        }
        let new_prefix = format_list_prefix(plans[k].2, &markers[k]);
        let line = buffer.line_to_string(row);
        let chars = str_chars(line.as_str());
        let old_prefix = chars_to_string(&slice_chars(&chars, 0, csb));
        let line_start_byte = buffer.point_to_offset(Point::new(row, 0));
        let ghost lsc = line_start(t, row as nat);
        proof {
            assert(line_start_byte == row_start(t, row as nat));
            assert forall|i: int| lsc <= i < lsc + csb implies char_width(#[trigger] t[i]) == 1 by {
                assert(line_at(t, row as nat)[i - lsc] == t[i]);
            }
            lemma_byte_at_ascii(t, lsc, csb as nat);
            lemma_byte_at_mono(t, (lsc + csb) as int, line_start(t, (row + 1) as nat) as int);
            assert(old_prefix@ =~= line_at(t, row as nat).take(csb as int));
        }
        let new_len = str_byte_len(new_prefix.as_str());
        let ghost before = batch_view(reps@);
        let ghost rest = tab_reps(t, pv, markers@, (k + 1) as nat);
        if !str_eq(new_prefix.as_str(), old_prefix.as_str()) {
            proof {
                let x = (line_start_byte as nat, (line_start_byte + csb) as nat, new_prefix@);
                assert(crate::rope_text::is_char_boundary(t, line_start_byte as nat)) by {
                    assert(byte_at(t, lsc as int) == line_start_byte);
                }
                assert(crate::rope_text::is_char_boundary(t, (line_start_byte + csb) as nat)) by {
                    assert(byte_at(t, (lsc + csb) as int) == line_start_byte + csb);
                }
                crate::buffer::lemma_batch_push(t, before, x);
            }
            reps.push((line_start_byte..line_start_byte + csb, new_prefix));
            proof {
                assert(batch_view(reps@) =~= before.push(
                    (line_start_byte as nat, (line_start_byte + csb) as nat, new_prefix@),
                ));
                assert(batch_view(reps@) + rest =~= before + (seq![
                    (line_start_byte as nat, (line_start_byte + csb) as nat, new_prefix@),
                ] + rest));
            }
        }
        deltas.push((csb, new_len));
        proof {
            if k + 1 < plans@.len() {
                assert(plans@[k as int].0 < plans@[k + 1].0);
                lemma_row_start_mono(t, (row + 1) as nat, plans@[k + 1].0 as nat);
            }
        }
        k = k + 1;
    }
    proof {
        assert(tab_reps(t, pv, markers@, k as nat) =~= Seq::<(nat, nat, Seq<char>)>::empty());
        assert(batch_view(reps@) =~= full_reps);
    }
    (reps, deltas)
}

/// `Tab` (or `Shift+Tab` with `outdent`) on list rows: when a targeted row
/// (the selection's rows, else the cursor's) holds a list item, re-indents
/// the targeted items of the surrounding list block by `indent_size`,
/// renumbers ordered runs, replaces the changed prefixes in one undoable
/// edit and moves the cursor (and selection) with the prefixes. Returns
/// whether it acted.
#[verifier::spinoff_prover]
#[verifier::rlimit(60)]
pub fn handle_list_tab(ctx: &mut HookContext, outdent: bool, indent_size: usize) -> (handled: bool)
    requires
        indents_fit(old(ctx).buffer.text_view()),
        tab_numbers_fit(old(ctx).buffer.text_view(), old(ctx).buffer.cursor_view(), *old(ctx).selection),
        byte_len(old(ctx).buffer.text_view()) + indent_size <= usize::MAX,
        line_count(old(ctx).buffer.text_view()) < usize::MAX,
    ensures
        handled ==> final(ctx).buffer.text_view() == list_tab_text(
            old(ctx).buffer.text_view(),
            old(ctx).buffer.cursor_view(),
            *old(ctx).selection,
            outdent,
            indent_size as nat,
        ),
        handled ==> (final(ctx).buffer.cursor_view(), *final(ctx).selection) == list_tab_marks(
            old(ctx).buffer.text_view(),
            old(ctx).buffer.cursor_view(),
            *old(ctx).selection,
            outdent,
            indent_size as nat,
        ),
        ({
            let t = old(ctx).buffer.text_view();
            let rows = tab_rows(t, old(ctx).buffer.cursor_view(), *old(ctx).selection);
            let ts = rows.0;
            let te = rows.1;
            &&& handled == any_item(t, ts, te)
            &&& !handled ==> *final(ctx).buffer == *old(ctx).buffer && *final(ctx).selection
                == *old(ctx).selection
            &&& handled ==> {
                let plans = tab_plans(t, block_up(t, ts), block_down(t, te), ts, te, outdent, indent_size as nat);
                let markers = renumber(plans, ts, te, 0, Map::empty());
                let reps = tab_reps(t, plans, markers, 0);
                let t2 = if reps.len() == 0 {
                    t
                } else {
                    replaced_all(t, reps)
                };
                &&& final(ctx).buffer.text_view() == t2
                &&& reps.len() == 0 ==> final(ctx).buffer.undo_view() == old(ctx).buffer.undo_view()
                &&& reps.len() > 0 ==> final(ctx).buffer.undo_view().drop_last()
                    == old(ctx).buffer.undo_view() && final(ctx).buffer.undo_view().last().edits
                    == batch_edits(t, reps)
                &&& match *old(ctx).selection {
                    Some(s) => {
                        let sp = point_of_offset(t2, s.start_spec() as nat);
                        let ep = point_of_offset(t2, s.end_spec() as nat);
                        let ns = offset_of_point(t2, sp.0, shift_col(prefix_delta(plans, markers, sp.0, 0), sp.1));
                        let ne = offset_of_point(t2, ep.0, shift_col(prefix_delta(plans, markers, ep.0, 0), ep.1));
                        &&& *final(ctx).selection == Some(Selection::range_spec(ns as usize, ne as usize))
                        &&& final(ctx).buffer.cursor_view() == byte_at(
                            t2,
                            char_of_byte(t2, crate::buffer::min_nat(ne, byte_len(t2))) as int,
                        )
                    },
                    None => {
                        let p = point_of_offset(t, old(ctx).buffer.cursor_view());
                        let o = offset_of_point(t2, p.0, shift_col(prefix_delta(plans, markers, p.0, 0), p.1));
                        &&& *final(ctx).selection == *old(ctx).selection
                        &&& final(ctx).buffer.cursor_view() == byte_at(
                            t2,
                            char_of_byte(t2, crate::buffer::min_nat(o, byte_len(t2))) as int,
                        )
                    },
                }
            }
            &&& *final(ctx).prompt == *old(ctx).prompt
            &&& *final(ctx).cursor_style == *old(ctx).cursor_style
            &&& *final(ctx).effects == *old(ctx).effects
        }),
{
    let ghost t = ctx.buffer.text_view();
    let _len = ctx.buffer.len_bytes();
    let (ts, te) = tab_target_rows(ctx.buffer, *ctx.selection);
    if !rows_have_item(ctx.buffer, ts, te) {
        return false;
    }
    let (bs, be) = find_list_block_range(ctx.buffer, ts, te);
    let plans = collect_plans(ctx.buffer, bs, be, ts, te, outdent, indent_size);
    let ghost pv = plans_view(plans@);
    proof {
        lemma_tab_plans(t, bs as nat, be as nat, ts as nat, te as nat, outdent, indent_size as nat);
        assert forall|k: int| 0 <= k < plans@.len() implies ((#[trigger] plans@[k]).1.marker matches ListMarker::Ordered { number, .. } ==> number + (be + 1 - bs) < usize::MAX) by {
            assert(pv[k] == (plans@[k].0 as nat, plans@[k].1, plans@[k].2 as nat));
            assert(list_item(line_at(t, plans@[k].0 as nat)) == Some(plans@[k].1));
        }
        assert forall|j: int| 0 <= j < plans@.len() implies {
            let p = #[trigger] plans@[j];
            &&& bs <= p.0 <= be
            &&& list_item(line_at(t, p.0 as nat)) == Some(p.1)
        } by {
            assert(pv[j] == (plans@[j].0 as nat, plans@[j].1, plans@[j].2 as nat));
        }
        assert forall|i: int, j: int| 0 <= i < j < plans@.len() implies (#[trigger] plans@[i]).0 < (#[trigger] plans@[j]).0 by {
            assert(pv[i].0 == plans@[i].0 && pv[j].0 == plans@[j].0);
        }
    }
    let markers = renumber_exec(&plans, ts, te, Ghost((be + 1 - bs) as nat));
    proof {
        lemma_renumber_len(pv, ts as nat, te as nat, 0, Map::empty());
    }
    let (reps, deltas) = build_reps(ctx.buffer, &plans, &markers, Ghost(bs as nat), Ghost(be as nat));
    let initial_cursor = ctx.buffer.cursor_point();
    let initial_selection = *ctx.selection;
    if reps.len() > 0 {
        ctx.buffer.replace_many(reps);
    }
    let ghost t2 = ctx.buffer.text_view();
    let _len2 = ctx.buffer.len_bytes();
    match initial_selection {
        Some(sel) => {
            let range = sel.byte_range();
            let sp = ctx.buffer.offset_to_point(range.start);
            let ep = ctx.buffer.offset_to_point(range.end);
            let ds = find_delta(&plans, &deltas, sp.row);
            let de = find_delta(&plans, &deltas, ep.row);
            let sc = shift_col_exec(ds, sp.column);
            let ec = shift_col_exec(de, ep.column);
            proof {
                lemma_delta_found(pv, markers@, plans@, deltas@, sp.row, ds);
                lemma_delta_found(pv, markers@, plans@, deltas@, ep.row, de);
                lemma_offset_of_point_clamp(t2, sp.row as nat, shift_col(prefix_delta(pv, markers@, sp.row as nat, 0), sp.column as nat));
                lemma_offset_of_point_clamp(t2, ep.row as nat, shift_col(prefix_delta(pv, markers@, ep.row as nat, 0), ep.column as nat));
            }
            let new_start = ctx.buffer.point_to_offset(Point::new(sp.row, sc));
            let new_end = ctx.buffer.point_to_offset(Point::new(ep.row, ec));
            *ctx.selection = Some(Selection::range(new_start, new_end));
            ctx.buffer.set_cursor_offset(new_end);
        },
        None => {
            let d = find_delta(&plans, &deltas, initial_cursor.row);
            let c = shift_col_exec(d, initial_cursor.column);
            proof {
                lemma_delta_found(pv, markers@, plans@, deltas@, initial_cursor.row, d);
                lemma_offset_of_point_clamp(t2, initial_cursor.row as nat, shift_col(prefix_delta(pv, markers@, initial_cursor.row as nat, 0), initial_cursor.column as nat));
            }
            let o = ctx.buffer.point_to_offset(Point::new(initial_cursor.row, c));
            ctx.buffer.set_cursor_offset(o);
        },
    }
    true
}

/// What `find_delta` returns is the row's `prefix_delta`.
proof fn lemma_delta_found(
    pv: Seq<(nat, ParsedListItem, nat)>,
    m: Seq<ListMarker>,
    plans: Seq<(usize, ParsedListItem, usize)>,
    deltas: Seq<(usize, usize)>,
    row: usize,
    d: Option<(usize, usize)>,
)
    requires
        pv == plans_view(plans),
        deltas.len() == plans.len(),
        forall|j: int|
            0 <= j < plans.len() ==> (#[trigger] deltas[j]).0 == plans[j].1.content_start_byte
                && deltas[j].1 == byte_len(list_prefix(pv[j].2, m[j])),
        match d {
            Some(p) => exists|k: int| 0 <= k < plans.len() && plans[k].0 == row && deltas[k] == p
                && (forall|j: int| 0 <= j < k ==> plans[j].0 != row),
            None => forall|k: int| 0 <= k < plans.len() ==> plans[k].0 != row,
        },
    ensures
        prefix_delta(pv, m, row as nat, 0) == match d {
            Some(p) => Some((p.0 as nat, p.1 as nat)),
            None => None::<(nat, nat)>,
        },
{
    match d {
        Some(p) => {
            let k = choose|k: int| 0 <= k < plans.len() && plans[k].0 == row && deltas[k] == p
                && (forall|j: int| 0 <= j < k ==> plans[j].0 != row);
            assert forall|j: int| 0 <= j < pv.len() && j < k implies pv[j].0 != row by {
                assert(pv[j].0 == plans[j].0);
            }
            assert(pv[k].0 == row);
            lemma_prefix_delta(pv, m, row as nat, 0, Some(k as nat));
        },
        None => {
            assert forall|j: int| 0 <= j < pv.len() implies pv[j].0 != row by {
                assert(pv[j].0 == plans[j].0);
            }
            lemma_prefix_delta(pv, m, row as nat, 0, None);
        },
    }
}


/// The text after a handled list `Tab`: the targeted items re-indented,
/// ordered runs renumbered.
pub open spec fn list_tab_text(t: Seq<char>, cur: nat, sel: Option<Selection>, outdent: bool, size: nat) -> Seq<char> {
    let rows = tab_rows(t, cur, sel);
    let plans = tab_plans(t, block_up(t, rows.0), block_down(t, rows.1), rows.0, rows.1, outdent, size);
    let markers = renumber(plans, rows.0, rows.1, 0, Map::empty());
    let reps = tab_reps(t, plans, markers, 0);
    if reps.len() == 0 {
        t
    } else {
        replaced_all(t, reps)
    }
}

/// The cursor and selection after a handled list `Tab`: each end keeps its
/// row and moves with that row's prefix; the cursor lands on the
/// selection's end (when there is one).
pub open spec fn list_tab_marks(t: Seq<char>, cur: nat, sel: Option<Selection>, outdent: bool, size: nat) -> (nat, Option<Selection>) {
    let rows = tab_rows(t, cur, sel);
    let plans = tab_plans(t, block_up(t, rows.0), block_down(t, rows.1), rows.0, rows.1, outdent, size);
    let markers = renumber(plans, rows.0, rows.1, 0, Map::empty());
    let t2 = list_tab_text(t, cur, sel, outdent, size);
    match sel {
        Some(s) => {
            let sp = point_of_offset(t2, s.start_spec() as nat);
            let ep = point_of_offset(t2, s.end_spec() as nat);
            let ns = offset_of_point(t2, sp.0, shift_col(prefix_delta(plans, markers, sp.0, 0), sp.1));
            let ne = offset_of_point(t2, ep.0, shift_col(prefix_delta(plans, markers, ep.0, 0), ep.1));
            (
                byte_at(t2, char_of_byte(t2, crate::buffer::min_nat(ne, byte_len(t2))) as int),
                Some(Selection::range_spec(ns as usize, ne as usize)),
            )
        },
        None => {
            let p = point_of_offset(t, cur);
            let o = offset_of_point(t2, p.0, shift_col(prefix_delta(plans, markers, p.0, 0), p.1));
            (byte_at(t2, char_of_byte(t2, crate::buffer::min_nat(o, byte_len(t2))) as int), None)
        },
    }
}

/// Indentation width of `cs`, `None` when it does not fit in a `usize`.
fn indent_width_checked(cs: &Vec<char>) -> (r: Option<usize>)
    ensures
        match r {
            Some(w) => w == indent_of(cs@).0,
            None => indent_of(cs@).0 > usize::MAX,
        },
{
    let mut width: usize = 0;
    let mut i: usize = 0;
    while i < cs.len() && (cs[i] == ' ' || cs[i] == '\t')
        invariant
            i <= cs@.len(),
            indent_run(cs@, i as nat, width as nat) == indent_of(cs@),
        decreases cs@.len() - i,
    {
        if cs[i] == ' ' {
            if width == usize::MAX {
                proof {
                    crate::markdown::list::lemma_indent_run_grows(cs@, (i + 1) as nat, (width + 1) as nat);
                }
                return None;
            }
            width = width + 1;
        } else {
            let step: usize = 4 - width % 4;
            if width > usize::MAX - step {
                proof {
                    crate::markdown::list::lemma_indent_run_grows(cs@, (i + 1) as nat, (width + step) as nat);
                }
                return None;
            }
            width = width + step;
        }
        i = i + 1;
    }
    Some(width)
}

/// Whether every line's indentation width fits in a `usize`.
pub fn indents_fit_check(buffer: &EditorBuffer) -> (ok: bool)
    ensures
        ok == indents_fit(buffer.text_view()),
{
    let ghost t = buffer.text_view();
    let n = buffer.len_lines();
    let mut r: usize = 0;
    while r < n
        invariant
            n == line_count(t),
            t == buffer.text_view(),
            r <= n,
            forall|q: nat|
                q < r ==> indent_of(#[trigger] line_at(t, q)).0 <= usize::MAX && indent_of(
                    strip_breaks(line_at(t, q)),
                ).0 <= usize::MAX,
        decreases n - r,
    {
        let line = buffer.line_to_string(r);
        let cs = str_chars(line.as_str());
        proof {
            assert(cs@ == line_at(t, r as nat));
        }
        match indent_width_checked(&cs) {
            None => {
                return false;
            },
            Some(_) => {},
        }
        let sb = strip_breaks_exec(&cs);
        match indent_width_checked(&sb) {
            None => {
                return false;
            },
            Some(_) => {},
        }
        r = r + 1;
    }
    true
}

/// Whether the list `Tab` edit can be made on this buffer, cursor and
/// selection with this indent size: every line's indentation fits, the
/// ordered numbers of the block it renumbers leave room for the counting
/// it does, and the text can grow by one indent.
pub fn list_tab_limits(buffer: &EditorBuffer, selection: Option<Selection>, indent_size: usize) -> (ok: bool)
    ensures
        ok == (indents_fit(buffer.text_view()) && tab_numbers_fit(
            buffer.text_view(),
            buffer.cursor_view(),
            selection,
        ) && byte_len(buffer.text_view()) + indent_size <= usize::MAX && line_count(buffer.text_view())
            < usize::MAX),
{
    let ghost t = buffer.text_view();
    let n = buffer.len_lines();
    let len = buffer.len_bytes();
    if indent_size > usize::MAX - len || n == usize::MAX {
        return false;
    }
    if !indents_fit_check(buffer) {
        return false;
    }
    let (ts, te) = tab_target_rows(buffer, selection);
    let (bs, be) = find_list_block_range(buffer, ts, te);
    let room = be + 1 - bs;
    let mut r: usize = bs;
    while r <= be
        invariant
            n == line_count(t),
            t == buffer.text_view(),
            bs <= r <= be + 1,
            be < n < usize::MAX,
            room == be + 1 - bs,
            indents_fit(t),
            (ts as nat, te as nat) == tab_rows(t, buffer.cursor_view(), selection),
            bs == block_up(t, ts as nat),
            be == block_down(t, te as nat),
            forall|q: nat|
                bs <= q < r ==> (#[trigger] list_item(line_at(t, q)) matches Some(it) ==> (
                it.marker matches ListMarker::Ordered { number, .. } ==> number + room < usize::MAX)),
        decreases be + 1 - r,
    {
        let line = buffer.line_to_string(r);
        proof {
            assert(line@ == line_at(t, r as nat));
            assert(indent_of(line_at(t, r as nat)).0 <= usize::MAX);
        }
        match parse_list_item(line.as_str()) {
            Some(it) => match it.marker {
                ListMarker::Ordered { number, .. } => {
                    if number >= usize::MAX - room {
                        proof {
                            assert(list_item(line_at(t, r as nat)) == Some(it));
                            assert(bs <= r as nat <= be && (r as nat) < line_count(t));
                        }
                        return false;
                    }
                },
                ListMarker::Bullet { .. } => {},
            },
            None => {},
        }
        r = r + 1;
    }
    true
}

} // verus!
