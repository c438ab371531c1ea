//! Markdown editing keys: emphasis and link wrapping, task toggles, list
//! and table continuation on `Enter`, table cell navigation and list
//! indentation on `Tab`, and wikilink following.
use vstd::prelude::*;
use crate::buffer::{insert_at, remove_range, EditorBuffer};
use crate::coordinates::Point;
use crate::hook::{ctx_ready, EditorHook, HookContext, HookEffect, HookOutcome, KeyEvent, Modifiers};
use crate::markdown::config::MarkdownHook;
use crate::markdown::completion::{
    accept_completion, accepted, completion_spec, completion_step, completion_trigger_at, query_spec,
    session_ends, session_wf, trigger_spec, CompletionSession, CompletionStep, MAX_COMPLETION_ITEMS,
};
use crate::hook::unmodified;
use crate::markdown::list_tab::{any_item, handle_list_tab, indents_fit, list_tab_limits, list_tab_marks, list_tab_text, tab_numbers_fit, tab_rows};
use crate::selection::Selection;
use crate::markdown::links::{parse_wikilinks, target_matches, wikilinks_from, opt_view, WikiSpan};
use crate::markdown::list_tab::{line_at, row_start};
use crate::markdown::list::{decimal_value, starts_with};
use crate::markdown::table::{cell_spans, fences_upto, sep_pipes, starts_with_pipe, strip_eol, table_block_spec, TableAlignment};
use crate::buffer::point_of_offset;
use crate::text::{decimal_digits, skip_space};
use crate::rope_text::{char_of_byte, is_char_boundary, lemma_char_of_byte_at, line_count, line_start};
use crate::text::{byte_at, byte_len, char_width, lemma_byte_at_mono, lemma_byte_len_concat, str_byte_len, str_chars, str_eq};

verus! {

/// `p` occurs in `s` at character index `i`.
pub open spec fn occurs_at(s: Seq<char>, p: Seq<char>, i: nat) -> bool {
    i + p.len() <= s.len() && s.subrange(i as int, (i + p.len()) as int) == p
}

/// The first character index from `i` on where `p` occurs in `s`.
pub open spec fn first_occurrence(s: Seq<char>, p: Seq<char>, i: nat) -> Option<nat>
    decreases s.len() + 1 - i,
{
    if i + p.len() > s.len() {
        None
    } else if occurs_at(s, p, i) {
        Some(i)
    } else {
        first_occurrence(s, p, i + 1)
    }
}

/// A found occurrence is one, at or after the start.
pub proof fn lemma_first_occurrence(s: Seq<char>, p: Seq<char>, i: nat)
    ensures
        first_occurrence(s, p, i) matches Some(k) ==> i <= k && occurs_at(s, p, k),
    decreases s.len() + 1 - i,
{
    if i + p.len() <= s.len() && !occurs_at(s, p, i) {
        lemma_first_occurrence(s, p, i + 1);
    }
}

/// Finds the first occurrence of `p` in `s` (a character index).
pub fn find_chars(s: &Vec<char>, p: &Vec<char>) -> (r: Option<usize>)
    ensures
        match r {
            Some(i) => first_occurrence(s@, p@, 0) == Some(i as nat),
            None => first_occurrence(s@, p@, 0).is_none(),
        },
{
    let slen: usize = s.len();
    if p.len() > slen {
        return None;
    }
    let mut i: usize = 0;
    while i <= slen - p.len()
        invariant
            slen == s@.len(),
            p@.len() <= s@.len(),
            first_occurrence(s@, p@, i as nat) == first_occurrence(s@, p@, 0),
        decreases s@.len() + 1 - i,
    {
        let mut j: usize = 0;
        while j < p.len()
            invariant
                slen == s@.len(),
                p@.len() <= s@.len(),
                i <= s@.len() - p@.len(),
                j <= p@.len(),
                forall|k: int| 0 <= k < j ==> s@[i + k] == p@[k],
            ensures
                j <= p@.len(),
                forall|k: int| 0 <= k < j ==> s@[i + k] == p@[k],
                j < p@.len() ==> s@[i + j] != p@[j as int],
            decreases p@.len() - j,
        {
            let idx: usize = i + j;
            if s[idx] != p[j] {
                break;
            }
            j = j + 1;
        }
        if j == p.len() {
            proof {
                assert(s@.subrange(i as int, i + p@.len()) =~= p@);
            }
            return Some(i);
        }
        proof {
            assert(s@.subrange(i as int, i + p@.len())[j as int] != p@[j as int]);
        }
        i = i + 1;
    }
    None
}

/// Every character of `s` is one byte wide.
pub open spec fn all_ascii(s: Seq<char>) -> bool {
    forall|k: int| 0 <= k < s.len() ==> char_width(#[trigger] s[k]) == 1
}

/// Bytes of a run of one-byte characters inside `t`.
proof fn lemma_ascii_run(t: Seq<char>, c: nat, k: nat)
    requires
        c + k <= t.len(),
        forall|i: int| c <= i < c + k ==> char_width(#[trigger] t[i]) == 1,
    ensures
        byte_at(t, (c + k) as int) == byte_at(t, c as int) + k,
    decreases k,
{
    if k > 0 {
        lemma_ascii_run(t, c, (k - 1) as nat);
        crate::text::lemma_byte_at_step(t, c + k - 1);
    }
}

/// Character index in `t` of the first occurrence of `pat` on row `row`.
pub open spec fn match_on_row(t: Seq<char>, row: nat, pat: Seq<char>) -> Option<nat> {
    match first_occurrence(line_at(t, row), pat, 0) {
        Some(ci) => Some(line_start(t, row) + ci),
        None => None,
    }
}

/// Replacing the first occurrence of `pat` on row `row` by `repl`.
pub open spec fn replaced_first(t: Seq<char>, row: nat, pat: Seq<char>, repl: Seq<char>) -> Option<Seq<char>> {
    match match_on_row(t, row, pat) {
        Some(c) => Some(insert_at(remove_range(t, c, c + pat.len()), c, repl)),
        None => None,
    }
}

/// Replaces the first occurrence of `pat` on row `row` with `repl` as one
/// edit; nothing when `pat` does not occur there.
fn replace_first(buffer: &mut EditorBuffer, row: usize, pat: &str, repl: &str) -> (found: bool)
    requires
        row < line_count(old(buffer).text_view()),
        all_ascii(pat@),
        pat@.len() > 0,
        byte_len(repl@) == pat@.len(),
    ensures
        found == (replaced_first(old(buffer).text_view(), row as nat, pat@, repl@) is Some),
        !found ==> *final(buffer) == *old(buffer),
        found ==> final(buffer).text_view() == replaced_first(old(buffer).text_view(), row as nat, pat@, repl@)->0,
        found ==> final(buffer).version_view() == crate::buffer::next_version(old(buffer).version_view()),
        found ==> final(buffer).cursor_view() == byte_at(
            old(buffer).text_view(),
            match_on_row(old(buffer).text_view(), row as nat, pat@)->0 as int,
        ) + pat@.len(),
{
    let ghost t = buffer.text_view();
    let line = buffer.line_to_string(row);
    let chars = str_chars(line.as_str());
    let pv = str_chars(pat);
    let found = find_chars(&chars, &pv);
    match found {
        None => false,
        Some(ci) => {
            proof {
                lemma_first_occurrence(chars@, pv@, 0);
            }
            let line_start_byte = buffer.point_to_offset(Point::new(row, 0));
            let prefix = crate::text::slice_chars(&chars, 0, ci);
            let prefix_s = crate::text::chars_to_string(&prefix);
            let pre_bytes = str_byte_len(prefix_s.as_str());
            let n = pv.len();
            let ghost lsc = line_start(t, row as nat);
            let _len = buffer.len_bytes();
            proof {
                crate::rope_text::lemma_line_start_bounds(t, row as nat);
                let line_v = line_at(t, row as nat);
                assert(chars@ == line_v);
                assert(lsc + line_v.len() == line_start(t, (row + 1) as nat));
                assert(forall|i: int| 0 <= i < line_v.len() ==> line_v[i] == t[lsc + i]);
                assert(t.subrange(lsc as int, (lsc + ci) as int) =~= prefix@);
                assert(t.take((lsc + ci) as int) =~= t.take(lsc as int) + prefix@);
                crate::text::lemma_byte_len_concat(t.take(lsc as int), prefix@);
                assert forall|i: int| lsc + ci <= i < lsc + ci + n implies char_width(#[trigger] t[i]) == 1 by {
                    assert(t[i] == line_v[i - lsc]);
                    assert(line_v.subrange(ci as int, ci + n)[i - lsc - ci] == pv@[i - lsc - ci]);
                }
                lemma_ascii_run(t, (lsc + ci) as nat, n as nat);
                lemma_byte_at_mono(t, (lsc + ci + n) as int, t.len() as int);
                crate::text::lemma_byte_at_len(t);
                lemma_char_of_byte_at(t, (lsc + ci) as nat);
                lemma_char_of_byte_at(t, (lsc + ci + n) as nat);
                assert(is_char_boundary(t, (line_start_byte + pre_bytes) as nat));
                assert(is_char_boundary(t, (line_start_byte + pre_bytes + n) as nat));
            }
            let start = line_start_byte + pre_bytes;
            buffer.replace_range(start..start + n, repl);
            true
        },
    }
}


/// A string of one-byte characters has as many bytes as characters.
pub proof fn lemma_ascii_byte_len(s: Seq<char>)
    requires
        all_ascii(s),
    ensures
        byte_len(s) == s.len(),
    decreases s.len(),
{
    if s.len() > 0 {
        assert(all_ascii(s.drop_last())) by {
            assert forall|k: int| 0 <= k < s.drop_last().len() implies char_width(
                #[trigger] s.drop_last()[k],
            ) == 1 by {
                assert(s.drop_last()[k] == s[k]);
            }
        }
        lemma_ascii_byte_len(s.drop_last());
    }
}

/// A usable marker replacement: non-empty, one-byte characters, same length.
pub open spec fn pair_ok(p: (Seq<char>, Seq<char>)) -> bool {
    &&& all_ascii(p.0)
    &&& all_ascii(p.1)
    &&& p.0.len() > 0
    &&& p.0.len() == p.1.len()
}

/// Marker replacements viewed as character sequences.
pub open spec fn pair_views(v: Seq<(&'static str, &'static str)>) -> Seq<(Seq<char>, Seq<char>)> {
    v.map_values(|p: (&'static str, &'static str)| (p.0@, p.1@))
}

/// The edit made by the first pair whose pattern occurs on row `row`: the
/// new text and the byte offset just after the replaced marker.
pub open spec fn toggle_with(t: Seq<char>, row: nat, pairs: Seq<(Seq<char>, Seq<char>)>) -> Option<(Seq<char>, nat)>
    decreases pairs.len(),
{
    if pairs.len() == 0 {
        None
    } else {
        let pat = pairs[0].0;
        match match_on_row(t, row, pat) {
            Some(c) => Some(
                (insert_at(remove_range(t, c, c + pat.len()), c, pairs[0].1), byte_at(t, c as int) + pat.len()),
            ),
            None => toggle_with(t, row, pairs.drop_first()),
        }
    }
}

/// Applies the first pair whose pattern occurs on row `row`, as one edit.
fn toggle_first(buffer: &mut EditorBuffer, row: usize, pairs: &Vec<(&'static str, &'static str)>) -> (found: bool)
    requires
        row < line_count(old(buffer).text_view()),
        forall|k: int| 0 <= k < pairs@.len() ==> pair_ok(#[trigger] pair_views(pairs@)[k]),
    ensures
        ({
            let r = toggle_with(old(buffer).text_view(), row as nat, pair_views(pairs@));
            &&& found == r is Some
            &&& !found ==> *final(buffer) == *old(buffer)
            &&& found ==> final(buffer).text_view() == r.unwrap().0 && final(buffer).cursor_view() == r.unwrap().1
                && final(buffer).version_view() == crate::buffer::next_version(old(buffer).version_view())
        }),
{
    let ghost t = buffer.text_view();
    let ghost pv = pair_views(pairs@);
    let mut i: usize = 0;
    proof {
        assert(pv.skip(0) =~= pv);
    }
    while i < pairs.len()
        invariant
            *buffer == *old(buffer),
            t == buffer.text_view(),
            pv == pair_views(pairs@),
            i <= pairs@.len(),
            row < line_count(t),
            forall|k: int| 0 <= k < pairs@.len() ==> pair_ok(#[trigger] pair_views(pairs@)[k]),
            toggle_with(t, row as nat, pv) == toggle_with(t, row as nat, pv.skip(i as int)),
        decreases pairs@.len() - i,
    {
        let (pat, repl) = pairs[i];
        proof {
            assert(pv[i as int] == (pat@, repl@));
            assert(pair_ok(pv[i as int]));
            lemma_ascii_byte_len(repl@);
            assert(pv.skip(i as int)[0] == pv[i as int]);
            assert(pv.skip(i as int).drop_first() =~= pv.skip(i + 1));
        }
        if replace_first(buffer, row, pat, repl) {
            return true;
        }
        i = i + 1;
    }
    false
}

/// `Ctrl+Enter` task toggles, tried in order.
pub open spec fn task_key_pairs() -> Seq<(Seq<char>, Seq<char>)> {
    seq![
        ("- [ ] "@, "- [x] "@),
        ("- [x] "@, "- [ ] "@),
        ("* [ ] "@, "* [x] "@),
        ("* [x] "@, "* [ ] "@),
    ]
}

/// Click task toggles, tried in order: unchecked boxes first, then checked
/// ones (either case of `x`), which come back as `- [ ] `.
pub open spec fn task_click_pairs() -> Seq<(Seq<char>, Seq<char>)> {
    seq![
        ("- [ ] "@, "- [x] "@),
        ("* [ ] "@, "* [x] "@),
        ("- [x] "@, "- [ ] "@),
        ("- [X] "@, "- [ ] "@),
        ("* [x] "@, "- [ ] "@),
        ("* [X] "@, "- [ ] "@),
    ]
}

proof fn lemma_markers_ascii()
    ensures
        pair_ok(("- [ ] "@, "- [x] "@)),
        pair_ok(("- [x] "@, "- [ ] "@)),
        pair_ok(("* [ ] "@, "* [x] "@)),
        pair_ok(("* [x] "@, "* [ ] "@)),
        pair_ok(("- [X] "@, "- [ ] "@)),
        pair_ok(("* [x] "@, "- [ ] "@)),
        pair_ok(("* [X] "@, "- [ ] "@)),
{
    reveal_strlit("- [ ] ");
    reveal_strlit("- [x] ");
    reveal_strlit("- [X] ");
    reveal_strlit("* [ ] ");
    reveal_strlit("* [x] ");
    reveal_strlit("* [X] ");
}

/// A task box: bullet `b`, a space, then `[s] `.
pub open spec fn task_box(b: char, s: char) -> Seq<char> {
    seq![b, ' ', '[', s, ']', ' ']
}

/// The other state of a task box.
pub open spec fn flipped_state(s: char) -> char {
    if s == ' ' {
        'x'
    } else {
        ' '
    }
}

/// The keyboard toggle's preference among task boxes: `-` boxes before
/// `*` boxes, unchecked before checked.
pub open spec fn box_rank(b: char, s: char) -> nat {
    (if b == '*' {
        2nat
    } else {
        0nat
    }) + (if s == 'x' {
        1nat
    } else {
        0nat
    })
}

/// `Ctrl+Enter` flips a task box, for each bullet (`-`, `*`) and state
/// (` `, `x`): when row `row` holds the box `b [s] ` and no box the toggle
/// prefers to it, the toggle succeeds, turns the first such box into the
/// same bullet with the other state, and puts the cursor just after it.
pub proof fn law_task_toggle_flips(t: Seq<char>, row: nat, b: char, s: char)
    requires
        b == '-' || b == '*',
        s == ' ' || s == 'x',
        match_on_row(t, row, task_box(b, s)) is Some,
        forall|b2: char, s2: char|
            (b2 == '-' || b2 == '*') && (s2 == ' ' || s2 == 'x') && box_rank(b2, s2) < box_rank(b, s)
                ==> match_on_row(t, row, #[trigger] task_box(b2, s2)) is None,
    ensures
        ({
            let c = match_on_row(t, row, task_box(b, s))->0;
            toggle_with(t, row, task_key_pairs()) == Some(
                (
                    insert_at(remove_range(t, c, c + 6), c, task_box(b, flipped_state(s))),
                    byte_at(t, c as int) + 6,
                ),
            )
        }),
{
    reveal_strlit("- [ ] ");
    reveal_strlit("- [x] ");
    reveal_strlit("* [ ] ");
    reveal_strlit("* [x] ");
    let p0 = task_key_pairs();
    let p1 = p0.drop_first();
    let p2 = p1.drop_first();
    let p3 = p2.drop_first();
    assert(task_box('-', ' ') =~= "- [ ] "@);
    assert(task_box('-', 'x') =~= "- [x] "@);
    assert(task_box('*', ' ') =~= "* [ ] "@);
    assert(task_box('*', 'x') =~= "* [x] "@);
    assert(p0[0] == (task_box('-', ' '), task_box('-', 'x')));
    assert(p1[0] == (task_box('-', 'x'), task_box('-', ' ')));
    assert(p2[0] == (task_box('*', ' '), task_box('*', 'x')));
    assert(p3[0] == (task_box('*', 'x'), task_box('*', ' ')));
    assert(p1.len() == 3 && p2.len() == 2 && p3.len() == 1);
    if box_rank(b, s) >= 1 {
        assert(match_on_row(t, row, task_box('-', ' ')) is None);
    }
    if box_rank(b, s) >= 2 {
        assert(match_on_row(t, row, task_box('-', 'x')) is None);
    }
    if box_rank(b, s) >= 3 {
        assert(match_on_row(t, row, task_box('*', ' ')) is None);
    }
    assert(toggle_with(t, row, p0) == if match_on_row(t, row, task_box('-', ' ')) is Some {
        toggle_with(t, row, p0)
    } else {
        toggle_with(t, row, p1)
    });
    assert(toggle_with(t, row, p1) == if match_on_row(t, row, task_box('-', 'x')) is Some {
        toggle_with(t, row, p1)
    } else {
        toggle_with(t, row, p2)
    });
    assert(toggle_with(t, row, p2) == if match_on_row(t, row, task_box('*', ' ')) is Some {
        toggle_with(t, row, p2)
    } else {
        toggle_with(t, row, p3)
    });
}

/// `Ctrl+Enter` toggles nothing on a row without a task box.
pub proof fn law_task_toggle_needs_box(t: Seq<char>, row: nat)
    requires
        forall|b: char, s: char|
            (b == '-' || b == '*') && (s == ' ' || s == 'x') ==> match_on_row(t, row, #[trigger] task_box(b, s))
                is None,
    ensures
        toggle_with(t, row, task_key_pairs()) is None,
{
    reveal_strlit("- [ ] ");
    reveal_strlit("- [x] ");
    reveal_strlit("* [ ] ");
    reveal_strlit("* [x] ");
    let p0 = task_key_pairs();
    let p1 = p0.drop_first();
    let p2 = p1.drop_first();
    let p3 = p2.drop_first();
    assert(task_box('-', ' ') =~= "- [ ] "@);
    assert(task_box('-', 'x') =~= "- [x] "@);
    assert(task_box('*', ' ') =~= "* [ ] "@);
    assert(task_box('*', 'x') =~= "* [x] "@);
    assert(match_on_row(t, row, task_box('-', ' ')) is None);
    assert(match_on_row(t, row, task_box('-', 'x')) is None);
    assert(match_on_row(t, row, task_box('*', ' ')) is None);
    assert(match_on_row(t, row, task_box('*', 'x')) is None);
    assert(p0[0].0 == task_box('-', ' '));
    assert(p1[0].0 == task_box('-', 'x'));
    assert(p2[0].0 == task_box('*', ' '));
    assert(p3[0].0 == task_box('*', 'x'));
    assert(p1.len() == 3 && p2.len() == 2 && p3.len() == 1);
    assert(toggle_with(t, row, p3.drop_first()) is None);
    assert(toggle_with(t, row, p3) is None);
    assert(toggle_with(t, row, p2) is None);
    assert(toggle_with(t, row, p1) is None);
}

/// Toggles the first task box on row `row` for `Ctrl+Enter`; the cursor
/// lands after the box.
pub fn toggle_checkbox(buffer: &mut EditorBuffer, row: usize) -> (found: bool)
    requires
        row < line_count(old(buffer).text_view()),
    ensures
        ({
            let r = toggle_with(old(buffer).text_view(), row as nat, task_key_pairs());
            &&& found == r is Some
            &&& !found ==> *final(buffer) == *old(buffer)
            &&& found ==> final(buffer).text_view() == r.unwrap().0 && final(buffer).cursor_view() == r.unwrap().1
                && final(buffer).version_view() == crate::buffer::next_version(old(buffer).version_view())
        }),
{
    let pairs = vec![("- [ ] ", "- [x] "), ("- [x] ", "- [ ] "), ("* [ ] ", "* [x] "), ("* [x] ", "* [ ] ")];
    proof {
        lemma_markers_ascii();
        assert(pair_views(pairs@) =~= task_key_pairs());
    }
    toggle_first(buffer, row, &pairs)
}

/// Toggles the first task box on row `row` for a click, keeping the cursor
/// where it was; rows past the end hold no box.
pub fn toggle_marker_at_row(buffer: &mut EditorBuffer, row: usize) -> (found: bool)
    ensures
        ({
            let t = old(buffer).text_view();
            let r = toggle_with(t, row as nat, task_click_pairs());
            &&& found == (row < line_count(t) && r is Some)
            &&& !found ==> *final(buffer) == *old(buffer)
            &&& found ==> final(buffer).text_view() == r.unwrap().0
                && final(buffer).version_view() == crate::buffer::next_version(old(buffer).version_view())
                && final(buffer).cursor_view() == byte_at(
                    r.unwrap().0,
                    char_of_byte(
                        r.unwrap().0,
                        crate::buffer::min_nat(old(buffer).cursor_view(), byte_len(r.unwrap().0)),
                    ) as int,
                )
        }),
{
    if row >= buffer.len_lines() {
        return false;
    }
    let old_cursor = buffer.cursor_offset();
    let pairs = vec![
        ("- [ ] ", "- [x] "),
        ("* [ ] ", "* [x] "),
        ("- [x] ", "- [ ] "),
        ("- [X] ", "- [ ] "),
        ("* [x] ", "- [ ] "),
        ("* [X] ", "- [ ] "),
    ];
    proof {
        lemma_markers_ascii();
        assert(pair_views(pairs@) =~= task_click_pairs());
    }
    if toggle_first(buffer, row, &pairs) {
        buffer.set_cursor_offset(old_cursor);
        true
    } else {
        false
    }
}


/// Index of the first wikilink of `ws`, from `k` on, whose bytes in `cs`
/// cover column `col`.
pub open spec fn hit_from(cs: Seq<char>, ws: Seq<WikiSpan>, col: nat, k: nat) -> Option<nat>
    decreases ws.len() - k,
{
    if k >= ws.len() {
        None
    } else if byte_at(cs, ws[k as int].full.0 as int) <= col < byte_at(cs, ws[k as int].full.1 as int) {
        Some(k)
    } else {
        hit_from(cs, ws, col, k + 1)
    }
}

/// A found hit is a wikilink index at or after the start.
proof fn lemma_hit_from(cs: Seq<char>, ws: Seq<WikiSpan>, col: nat, k: nat)
    ensures
        hit_from(cs, ws, col, k) matches Some(j) ==> k <= j < ws.len() && byte_at(cs, ws[j as int].full.0 as int)
            <= col < byte_at(cs, ws[j as int].full.1 as int),
    decreases ws.len() - k,
{
    if k < ws.len() {
        lemma_hit_from(cs, ws, col, k + 1);
    }
}

/// The wikilink on row `row` covering byte column `col`, if any.
pub open spec fn link_at(t: Seq<char>, row: nat, col: nat) -> Option<WikiSpan> {
    if row < line_count(t) {
        let cs = line_at(t, row);
        let ws = wikilinks_from(cs, 0);
        match hit_from(cs, ws, col, 0) {
            Some(k) => Some(ws[k as int]),
            None => None,
        }
    } else {
        None
    }
}

/// `e` asks the host to follow the wikilink `w`.
pub open spec fn follows(e: HookEffect, w: WikiSpan) -> bool {
    &&& e matches HookEffect::FollowLink { target, fragment, label }
    &&& e->target@ == w.note
    &&& opt_view(e->fragment) == w.heading
    &&& opt_view(e->label) == w.alias
}

/// Reports the wikilink covering `col` on `row` as a `FollowLink` effect
/// for the host to resolve; returns whether a wikilink was hit.
pub fn follow_wikilink_at(buffer: &EditorBuffer, effects: &mut Vec<HookEffect>, row: usize, col: usize) -> (hit: bool)
    ensures
        ({
            let w = link_at(buffer.text_view(), row as nat, col as nat);
            &&& hit == w is Some
            &&& !hit ==> final(effects)@ == old(effects)@
            &&& hit ==> final(effects)@.len() == old(effects)@.len() + 1 && final(effects)@.drop_last()
                == old(effects)@ && follows(final(effects)@.last(), w->0)
        }),
{
    if row >= buffer.len_lines() {
        return false;
    }
    let line = buffer.line_to_string(row);
    let mut targets = parse_wikilinks(line.as_str());
    let ghost cs = line@;
    let ghost ws = wikilinks_from(cs, 0);
    let mut k: usize = 0;
    assert(line_at(buffer.text_view(), row as nat) == cs);
    while k < targets.len()
        invariant
            cs == line@,
            line_at(buffer.text_view(), row as nat) == cs,
            ws == wikilinks_from(cs, 0),
            targets@.len() == ws.len(),
            forall|j: int| 0 <= j < targets@.len() ==> target_matches(#[trigger] targets@[j], ws[j], cs),
            k <= targets@.len(),
            hit_from(cs, ws, col as nat, 0) == hit_from(cs, ws, col as nat, k as nat),
            *effects == *old(effects),
        decreases targets@.len() - k,
    {
        let start = targets[k].full_range.start;
        let end = targets[k].full_range.end;
        proof {
            assert(target_matches(targets@[k as int], ws[k as int], cs));
        }
        if start <= col && col < end {
            let ghost before = targets@;
            let tgt = targets.remove(k);
            proof {
                assert(tgt == before[k as int]);
                assert(target_matches(tgt, ws[k as int], cs));
            }
            effects.push(HookEffect::FollowLink { target: tgt.note, fragment: tgt.heading, label: tgt.alias });
            proof {
                assert(effects@.drop_last() =~= old(effects)@);
                assert(line_at(buffer.text_view(), row as nat) == cs);
                assert(hit_from(cs, ws, col as nat, k as nat) == Some(k as nat));
                assert(link_at(buffer.text_view(), row as nat, col as nat) == Some(ws[k as int]));
            }
            return true;
        }
        k = k + 1;
    }
    proof {
        assert(line_at(buffer.text_view(), row as nat) == cs);
    }
    false
}


/// Offsets inside a run of one-byte characters inserted at character `c`.
proof fn lemma_ascii_insert_offsets(t: Seq<char>, c: nat, s: Seq<char>, j: nat)
    requires
        c <= t.len(),
        all_ascii(s),
        j <= s.len(),
    ensures
        byte_at(insert_at(t, c, s), (c + j) as int) == byte_at(t, c as int) + j,
{
    let t2 = insert_at(t, c, s);
    assert(t2.take((c + j) as int) =~= t.take(c as int) + s.take(j as int));
    lemma_byte_len_concat(t.take(c as int), s.take(j as int));
    assert(all_ascii(s.take(j as int))) by {
        assert forall|k: int| 0 <= k < s.take(j as int).len() implies char_width(#[trigger] s.take(j as int)[k]) == 1 by {
            assert(s.take(j as int)[k] == s[k]);
        }
    }
    lemma_ascii_byte_len(s.take(j as int));
}

/// Inserts the one-byte characters of `s` at the cursor as one edit, then
/// steps the cursor back `back` characters.
fn insert_markup(buffer: &mut EditorBuffer, s: &str, back: usize)
    requires
        is_char_boundary(old(buffer).text_view(), old(buffer).cursor_view()),
        byte_len(old(buffer).text_view()) + s@.len() <= usize::MAX,
        all_ascii(s@),
        back <= s@.len(),
    ensures
        final(buffer).text_view() == insert_at(
            old(buffer).text_view(),
            char_of_byte(old(buffer).text_view(), old(buffer).cursor_view()),
            s@,
        ),
        final(buffer).cursor_view() == old(buffer).cursor_view() + s@.len() - back,
        final(buffer).version_view() == crate::buffer::next_version(old(buffer).version_view()),
{
    let ghost t = buffer.text_view();
    let ghost cur = buffer.cursor_view();
    let ghost c = char_of_byte(t, cur);
    proof {
        crate::buffer::lemma_boundary(t, cur);
        lemma_ascii_byte_len(s@);
    }
    buffer.insert(s);
    let ghost t2 = buffer.text_view();
    let ghost n = s@.len();
    let mut k: usize = 0;
    proof {
        lemma_ascii_insert_offsets(t, c, s@, n);
    }
    while k < back
        invariant
            buffer.text_view() == t2,
            t2 == insert_at(t, c, s@),
            c <= t.len(),
            byte_at(t, c as int) == cur,
            all_ascii(s@),
            n == s@.len(),
            back <= n,
            k <= back,
            buffer.cursor_view() == cur + n - k,
            buffer.version_view() == crate::buffer::next_version(old(buffer).version_view()),
        decreases back - k,
    {
        proof {
            lemma_ascii_insert_offsets(t, c, s@, (n - k) as nat);
            lemma_ascii_insert_offsets(t, c, s@, (n - k - 1) as nat);
            lemma_char_of_byte_at(t2, (c + n - k) as nat);
            lemma_byte_at_mono(t2, (c + n - k) as int, t2.len() as int);
            crate::text::lemma_byte_at_len(t2);
        }
        buffer.move_cursor_left();
        k = k + 1;
    }
}

/// The text with the selected characters `cs..ce` wrapped in `open` and
/// `close`.
pub open spec fn markup_wrapped(t: Seq<char>, cs: nat, ce: nat, open: Seq<char>, close: Seq<char>) -> Seq<char> {
    insert_at(remove_range(t, cs, ce), cs, open + t.subrange(cs as int, ce as int) + close)
}

/// Wraps the bytes `start..end` (character boundaries) in `open` and
/// `close` as one edit.
fn wrap_markup(buffer: &mut EditorBuffer, start: usize, end: usize, open: &str, close: &str)
    requires
        start <= end,
        is_char_boundary(old(buffer).text_view(), start as nat),
        is_char_boundary(old(buffer).text_view(), end as nat),
        byte_len(old(buffer).text_view()) + open@.len() + close@.len() <= usize::MAX,
        all_ascii(open@),
        all_ascii(close@),
    ensures
        final(buffer).text_view() == markup_wrapped(
            old(buffer).text_view(),
            char_of_byte(old(buffer).text_view(), start as nat),
            char_of_byte(old(buffer).text_view(), end as nat),
            open@,
            close@,
        ),
        final(buffer).cursor_view() == end + open@.len() + close@.len(),
        final(buffer).version_view() == crate::buffer::next_version(old(buffer).version_view()),
{
    let ghost t = buffer.text_view();
    proof {
        crate::buffer::lemma_boundary(t, start as nat);
        crate::buffer::lemma_boundary(t, end as nat);
    }
    let inner = crate::rope_text::rope_byte_slice_string(buffer.text(), start, end);
    let mut w: Vec<char> = str_chars(open);
    let inner_chars = str_chars(inner.as_str());
    crate::text::push_all(&mut w, &inner_chars);
    let close_chars = str_chars(close);
    crate::text::push_all(&mut w, &close_chars);
    let ws = crate::text::chars_to_string(&w);
    proof {
        let cs = char_of_byte(t, start as nat);
        let ce = char_of_byte(t, end as nat);
        assert(ws@ =~= open@ + inner@ + close@);
        lemma_ascii_byte_len(open@);
        lemma_ascii_byte_len(close@);
        lemma_byte_len_concat(open@, inner@);
        lemma_byte_len_concat(open@ + inner@, close@);
        if cs > ce {
            lemma_byte_at_mono(t, ce as int, cs as int);
        }
        crate::rope_text::lemma_byte_len_subrange(t, cs as int, ce as int);
        if start == end {
            assert(remove_range(t, cs, ce) =~= t);
            assert(t.subrange(cs as int, ce as int) =~= Seq::<char>::empty());
            assert(open@ + inner@ + close@ =~= open@ + close@);
        }
    }
    buffer.replace_range(start..end, ws.as_str());
}


/// Every character of `s` is an ASCII digit.
pub open spec fn all_digits(s: Seq<char>) -> bool {
    forall|k: int| 0 <= k < s.len() ==> '0' <= #[trigger] s[k] && s[k] <= '9'
}

/// `str::parse::<usize>`: an optional `+`, then one or more ASCII digits
/// whose value fits in a `usize`.
pub open spec fn usize_parse(s: Seq<char>) -> Option<nat> {
    let ds = if s.len() > 0 && s[0] == '+' {
        s.drop_first()
    } else {
        s
    };
    if ds.len() > 0 && all_digits(ds) && decimal_value(ds) <= usize::MAX {
        Some(decimal_value(ds))
    } else {
        None
    }
}

/// Parses `s` as `str::parse::<usize>` does.
pub fn parse_usize_chars(s: &Vec<char>) -> (r: Option<usize>)
    ensures
        match r {
            Some(v) => usize_parse(s@) == Some(v as nat),
            None => usize_parse(s@) is None,
        },
{
    let from: usize = if s.len() > 0 && s[0] == '+' {
        1
    } else {
        0
    };
    let ds = crate::text::slice_chars(s, from, s.len());
    proof {
        if from == 1 {
            assert(ds@ =~= s@.drop_first());
        } else {
            assert(ds@ =~= s@);
        }
    }
    if ds.len() == 0 {
        return None;
    }
    let mut k: usize = 0;
    while k < ds.len()
        invariant
            k <= ds@.len(),
            forall|m: int| 0 <= m < k ==> '0' <= #[trigger] ds@[m] && ds@[m] <= '9',
            from == 1 ==> ds@ == s@.drop_first(),
            from == 0 ==> ds@ == s@,
            from <= 1,
            from == 1 <==> (s@.len() > 0 && s@[0] == '+'),
        decreases ds@.len() - k,
    {
        if ds[k] < '0' || ds[k] > '9' {
            proof {
                assert(!all_digits(ds@));
            }
            return None;
        }
        k = k + 1;
    }
    crate::markdown::list::parse_decimal(&ds)
}

/// Whether `x` is nothing but a line break, or nothing at all.
pub open spec fn eol_only(x: Seq<char>) -> bool {
    x.len() == 0 || x == seq!['\n'] || x == seq!['\r', '\n']
}

fn eol_only_exec(x: &Vec<char>) -> (b: bool)
    ensures
        b == eol_only(x@),
{
    let n = x.len();
    let b = n == 0 || (n == 1 && x[0] == '\n') || (n == 2 && x[0] == '\r' && x[1] == '\n');
    proof {
        if n == 1 && x@[0] == '\n' {
            assert(x@ =~= seq!['\n']);
        }
        if n == 2 && x@[0] == '\r' && x@[1] == '\n' {
            assert(x@ =~= seq!['\r', '\n']);
        }
    }
    b
}

/// Every cell of the cleaned table line `c` is blank.
pub open spec fn cells_blank(c: Seq<char>) -> bool {
    forall|k: int|
        0 <= k < cell_spans(c).len() ==> {
            let sp = #[trigger] cell_spans(c)[k];
            skip_space(c.subrange(sp.0 as int, sp.1 as int), 0) == sp.1 - sp.0
        }
}

/// `n` empty table cells: ` |` repeated.
pub open spec fn cell_bars(n: nat) -> Seq<char>
    decreases n,
{
    if n == 0 {
        Seq::empty()
    } else {
        cell_bars((n - 1) as nat) + seq![' ', '|']
    }
}

/// Column count of the table whose header or body row is `row`.
pub open spec fn table_row_cols(t: Seq<char>, row: nat) -> Option<nat> {
    match table_block_spec(t, row, fences_upto(t, line_count(t))) {
        Some(s) => if row == s.0 || (s.1 < row && row <= s.2) {
            Some(s.3.len())
        } else {
            None
        },
        None => None,
    }
}

/// An ordered item head: the number before the first `. ` and that
/// separator's index, when the number parses and can be counted past.
pub open spec fn numbered(trimmed: Seq<char>) -> Option<(nat, nat)> {
    match first_occurrence(trimmed, seq!['.', ' '], 0) {
        Some(d) => match usize_parse(trimmed.take(d as int)) {
            Some(n) => if n < usize::MAX {
                Some((n, d))
            } else {
                None
            },
            None => None,
        },
        None => None,
    }
}

/// What plain `Enter` does.
pub enum EnterPlan {
    /// Delete from the start of the line to the cursor (an empty item or
    /// an all-blank table row ends the list or table).
    ClearLine,
    /// Insert this continuation at the cursor.
    Continue(Seq<char>),
    /// Follow this wikilink under the cursor.
    Follow(WikiSpan),
    /// Leave the key to the editor.
    Plain,
}

/// The `Enter` behaviour at byte `cur` of `t`: table rows (when table
/// navigation is on) get a skeleton row, task items a fresh `- [ ] `,
/// bullets the same bullet, ordered items the next number (each at the
/// line's indentation); an item with nothing after its marker is cleared;
/// otherwise a wikilink under the cursor is followed.
pub open spec fn enter_plan(t: Seq<char>, cur: nat, tables: bool) -> EnterPlan {
    let row = point_of_offset(t, cur).0;
    let line = line_at(t, row);
    let k = skip_space(line, 0);
    let trimmed = line.skip(k as int);
    let indent = line.take(k as int);
    let ls = row_start(t, row);
    if tables && table_row_cols(t, row) is Some {
        let c = strip_eol(line);
        if cells_blank(c) {
            EnterPlan::ClearLine
        } else {
            EnterPlan::Continue(
                seq!['\n'] + c.take(skip_space(c, 0) as int) + seq!['|'] + cell_bars(table_row_cols(t, row)->0),
            )
        }
    } else if starts_with(trimmed, seq!['-', ' ', '[', ' ', ']', ' ']) || starts_with(
        trimmed,
        seq!['-', ' ', '[', 'x', ']', ' '],
    ) {
        if eol_only(trimmed.skip(6)) {
            EnterPlan::ClearLine
        } else {
            EnterPlan::Continue(seq!['\n'] + indent + seq!['-', ' ', '[', ' ', ']', ' '])
        }
    } else if trimmed.len() >= 2 && trimmed[1] == ' ' && (trimmed[0] == '-' || trimmed[0] == '*'
        || trimmed[0] == '+') {
        if eol_only(trimmed.skip(2)) {
            EnterPlan::ClearLine
        } else {
            EnterPlan::Continue(seq!['\n'] + indent + trimmed.take(2))
        }
    } else if numbered(trimmed) is Some {
        let (n, d) = numbered(trimmed)->0;
        if eol_only(trimmed.skip(d + 2int)) {
            EnterPlan::ClearLine
        } else {
            EnterPlan::Continue(seq!['\n'] + indent + decimal_digits(n + 1) + seq!['.', ' '])
        }
    } else {
        match link_at(t, row, if cur >= ls { (cur - ls) as nat } else { 0 }) {
            Some(w) => EnterPlan::Follow(w),
            None => EnterPlan::Plain,
        }
    }
}


/// Skipping blanks stays inside the sequence.
proof fn lemma_skip_space_bound(cs: Seq<char>, i: nat)
    requires
        i <= cs.len(),
    ensures
        i <= skip_space(cs, i) <= cs.len(),
        forall|m: int| i <= m < skip_space(cs, i) ==> crate::text::is_white_space(#[trigger] cs[m]),
    decreases cs.len() - i,
{
    if i < cs.len() && crate::text::is_white_space(cs[i as int]) {
        lemma_skip_space_bound(cs, i + 1);
    }
}

/// `Enter` on a line outside a table keeps the line's indentation: the
/// continuation it inserts is a line break, then exactly the line's
/// leading blanks, then the new marker, which does not start with a
/// blank. This holds alike for task, bullet and ordered items.
pub proof fn law_enter_keeps_indent(t: Seq<char>, cur: nat, tables: bool)
    requires
        tables ==> table_row_cols(t, point_of_offset(t, cur).0) is None,
    ensures
        ({
            let line = line_at(t, point_of_offset(t, cur).0);
            let k = skip_space(line, 0);
            enter_plan(t, cur, tables) matches EnterPlan::Continue(x) ==> {
                &&& x.len() > k + 1
                &&& x[0] == '\n'
                &&& x.subrange(1, k + 1int) == line.take(k as int)
                &&& !crate::text::is_white_space(x[k + 1int])
            }
        }),
{
    let row = point_of_offset(t, cur).0;
    let line = line_at(t, row);
    let k = skip_space(line, 0);
    let trimmed = line.skip(k as int);
    let indent = line.take(k as int);
    lemma_skip_space_bound(line, 0);
    assert(indent.len() == k);
    if enter_plan(t, cur, tables) is Continue {
        let x = enter_plan(t, cur, tables)->Continue_0;
        if starts_with(trimmed, seq!['-', ' ', '[', ' ', ']', ' ']) || starts_with(
            trimmed,
            seq!['-', ' ', '[', 'x', ']', ' '],
        ) {
            let m = seq!['-', ' ', '[', ' ', ']', ' '];
            assert(x == seq!['\n'] + indent + m);
            assert(x[k + 1int] == m[0]);
            assert(x.subrange(1, k + 1int) =~= indent);
        } else if trimmed.len() >= 2 && trimmed[1] == ' ' && (trimmed[0] == '-' || trimmed[0] == '*'
            || trimmed[0] == '+') {
            let m = trimmed.take(2);
            assert(x == seq!['\n'] + indent + m);
            assert(x[k + 1int] == trimmed[0]);
            assert(x.subrange(1, k + 1int) =~= indent);
        } else {
            let (n, d) = numbered(trimmed)->0;
            crate::markdown::list::lemma_decimal_digits(n + 1);
            let m = decimal_digits(n + 1) + seq!['.', ' '];
            assert(x == seq!['\n'] + indent + m);
            assert(x[k + 1int] == decimal_digits(n + 1)[0]);
            assert(x.subrange(1, k + 1int) =~= indent);
        }
    }
}

/// A task line (`- [ ] ` or `- [x] ` after the indentation).
pub open spec fn task_head(trimmed: Seq<char>) -> bool {
    starts_with(trimmed, seq!['-', ' ', '[', ' ', ']', ' ']) || starts_with(trimmed, seq!['-', ' ', '[', 'x', ']', ' '])
}

/// A bullet line (`- `, `* ` or `+ ` after the indentation).
pub open spec fn bullet_head(trimmed: Seq<char>) -> bool {
    trimmed.len() >= 2 && trimmed[1] == ' ' && (trimmed[0] == '-' || trimmed[0] == '*' || trimmed[0] == '+')
}

/// `Enter` on a list line outside a table continues the list with the
/// next item: after a task an unchecked `- [ ] ` box, after a bullet the
/// same bullet, after ordered item `n` the number `n + 1` (as digits,
/// read back) and `. `; an item with nothing after its marker is cleared
/// instead, ending the list.
pub proof fn law_enter_continues_list(t: Seq<char>, cur: nat, tables: bool)
    requires
        tables ==> table_row_cols(t, point_of_offset(t, cur).0) is None,
    ensures
        ({
            let line = line_at(t, point_of_offset(t, cur).0);
            let k = skip_space(line, 0);
            let trimmed = line.skip(k as int);
            let plan = enter_plan(t, cur, tables);
            &&& task_head(trimmed) ==> if eol_only(trimmed.skip(6)) {
                plan is ClearLine
            } else {
                plan matches EnterPlan::Continue(x) && x.skip(k + 1int) == seq!['-', ' ', '[', ' ', ']', ' ']
            }
            &&& !task_head(trimmed) && bullet_head(trimmed) ==> if eol_only(trimmed.skip(2)) {
                plan is ClearLine
            } else {
                plan matches EnterPlan::Continue(x) && x.skip(k + 1int) == trimmed.take(2)
            }
            &&& !task_head(trimmed) && !bullet_head(trimmed) ==> (numbered(trimmed) matches Some((n, d)) ==> if eol_only(
                trimmed.skip(d + 2int),
            ) {
                plan is ClearLine
            } else {
                plan matches EnterPlan::Continue(x) && {
                    let digits = x.skip(k + 1int).drop_last().drop_last();
                    &&& x.skip(k + 1int).len() >= 3
                    &&& x.skip(k + 1int).last() == ' '
                    &&& x.skip(k + 1int)[x.skip(k + 1int).len() - 2] == '.'
                    &&& forall|m: int| 0 <= m < digits.len() ==> '0' <= #[trigger] digits[m] && digits[m] <= '9'
                    &&& decimal_value(digits) == n + 1
                }
            })
        }),
{
    let row = point_of_offset(t, cur).0;
    let line = line_at(t, row);
    let k = skip_space(line, 0);
    let trimmed = line.skip(k as int);
    let indent = line.take(k as int);
    lemma_skip_space_bound(line, 0);
    assert(indent.len() == k);
    if !task_head(trimmed) && !bullet_head(trimmed) && numbered(trimmed) is Some {
        let (n, d) = numbered(trimmed)->0;
        if !eol_only(trimmed.skip(d + 2int)) {
            let x = seq!['\n'] + indent + decimal_digits(n + 1) + seq!['.', ' '];
            crate::markdown::list::lemma_decimal_digits(n + 1);
            assert(x.skip(k + 1int) =~= decimal_digits(n + 1) + seq!['.', ' ']);
            assert(x.skip(k + 1int).drop_last().drop_last() =~= decimal_digits(n + 1));
        }
    }
    if task_head(trimmed) && !eol_only(trimmed.skip(6)) {
        let x = seq!['\n'] + indent + seq!['-', ' ', '[', ' ', ']', ' '];
        assert(x.skip(k + 1int) =~= seq!['-', ' ', '[', ' ', ']', ' ']);
    }
    if !task_head(trimmed) && bullet_head(trimmed) && !eol_only(trimmed.skip(2)) {
        let x = seq!['\n'] + indent + trimmed.take(2);
        assert(x.skip(k + 1int) =~= trimmed.take(2));
    }
}

proof fn lemma_cell_bars(n: nat)
    ensures
        cell_bars(n).len() == 2 * n,
        forall|i: int| 0 <= i < n ==> #[trigger] cell_bars(n)[2 * i] == ' ' && cell_bars(n)[2 * i + 1] == '|',
    decreases n,
{
    if n > 0 {
        lemma_cell_bars((n - 1) as nat);
        let prev = cell_bars((n - 1) as nat);
        assert forall|i: int| 0 <= i < n implies #[trigger] cell_bars(n)[2 * i] == ' ' && cell_bars(n)[2 * i + 1]
            == '|' by {
            if i < n - 1 {
                assert(cell_bars(n)[2 * i] == prev[2 * i]);
                assert(cell_bars(n)[2 * i + 1] == prev[2 * i + 1]);
            }
        }
    }
}

/// `Enter` in a table row (with table navigation on) whose cells are not
/// all blank opens a fresh row below with the same indentation and as
/// many empty cells as the table has columns: a line break, the row's
/// leading blanks, `|`, then one ` |` per column.
#[verifier::spinoff_prover]
pub proof fn law_enter_table_row_cells(t: Seq<char>, cur: nat)
    requires
        table_row_cols(t, point_of_offset(t, cur).0) is Some,
    ensures
        cells_blank(strip_eol(line_at(t, point_of_offset(t, cur).0))) ==> enter_plan(t, cur, true) is ClearLine,
        ({
            let line = strip_eol(line_at(t, point_of_offset(t, cur).0));
            let lead = skip_space(line, 0);
            let n = table_row_cols(t, point_of_offset(t, cur).0)->0;
            !cells_blank(line) ==> (enter_plan(t, cur, true) matches EnterPlan::Continue(x) && {
                &&& x.len() == lead + 2 + 2 * n
                &&& x[0] == '\n'
                &&& x.subrange(1, lead + 1int) == line.take(lead as int)
                &&& x[lead + 1int] == '|'
                &&& forall|i: int| 0 <= i < n ==> #[trigger] x[lead + 2 + 2 * i] == ' ' && x[lead + 3 + 2 * i] == '|'
            })
        }),
{
    let line = strip_eol(line_at(t, point_of_offset(t, cur).0));
    let lead = skip_space(line, 0);
    let n = table_row_cols(t, point_of_offset(t, cur).0)->0;
    lemma_skip_space_bound(line, 0);
    lemma_cell_bars(n);
    if !cells_blank(line) {
        let bars = cell_bars(n);
        let x = seq!['\n'] + line.take(lead as int) + seq!['|'] + bars;
        assert(enter_plan(t, cur, true) == EnterPlan::Continue(x));
        assert(line.take(lead as int).len() == lead);
        assert(x.len() == lead + 2 + 2 * n);
        assert(x[0] == '\n');
        assert(x[lead + 1int] == '|');
        assert(x.subrange(1, lead + 1int) =~= line.take(lead as int));
        assert forall|i: int| 0 <= i < n implies #[trigger] x[lead + 2 + 2 * i] == ' ' && x[lead + 3 + 2 * i]
            == '|' by {
            assert(x[lead + 2 + 2 * i] == bars[2 * i]);
            assert(x[lead + 3 + 2 * i] == bars[2 * i + 1]);
        }
    }
}

/// Deletes from the start of the cursor's row to the cursor as one edit
/// (nothing when the cursor is at the row's start).
fn clear_to_line_start(buffer: &mut EditorBuffer, ls: usize)
    requires
        is_char_boundary(old(buffer).text_view(), old(buffer).cursor_view()),
        is_char_boundary(old(buffer).text_view(), ls as nat),
        ls <= old(buffer).cursor_view(),
    ensures
        ({
            let t = old(buffer).text_view();
            &&& final(buffer).text_view() == remove_range(t, char_of_byte(t, ls as nat), char_of_byte(t, old(buffer).cursor_view()))
            &&& final(buffer).cursor_view() == ls
            &&& final(buffer).version_view() == if ls < old(buffer).cursor_view() {
                crate::buffer::next_version(old(buffer).version_view())
            } else {
                old(buffer).version_view()
            }
        }),
{
    let ghost t = buffer.text_view();
    let cursor = buffer.cursor_offset();
    proof {
        crate::buffer::lemma_boundary(t, ls as nat);
        crate::buffer::lemma_boundary(t, cursor as nat);
        if ls == cursor {
            assert(remove_range(t, char_of_byte(t, ls as nat), char_of_byte(t, ls as nat)) =~= t);
        }
    }
    buffer.delete_range(ls..cursor);
}

/// Inserts the continuation `x` at the cursor when the result fits in
/// memory; returns whether it did.
fn insert_continuation(buffer: &mut EditorBuffer, x: &Vec<char>) -> (done: bool)
    requires
        is_char_boundary(old(buffer).text_view(), old(buffer).cursor_view()),
    ensures
        ({
            let t = old(buffer).text_view();
            &&& done == (byte_len(t) + byte_len(x@) <= usize::MAX)
            &&& !done ==> *final(buffer) == *old(buffer)
            &&& done ==> final(buffer).text_view() == insert_at(t, char_of_byte(t, old(buffer).cursor_view()), x@)
                && final(buffer).cursor_view() == old(buffer).cursor_view() + byte_len(x@)
                && final(buffer).version_view() == crate::buffer::next_version(old(buffer).version_view())
        }),
{
    let s = crate::text::chars_to_string(x);
    let n = str_byte_len(s.as_str());
    let len = buffer.len_bytes();
    if n > usize::MAX - len {
        return false;
    }
    proof {
        crate::buffer::lemma_boundary(buffer.text_view(), buffer.cursor_view());
    }
    buffer.insert(s.as_str());
    true
}

/// Whether every cell of the cleaned table line `c` is blank.
fn cells_blank_exec(c: &Vec<char>) -> (b: bool)
    ensures
        b == cells_blank(c@),
{
    let (_, cells) = crate::markdown::table::cell_char_spans(c);
    let mut j: usize = 0;
    while j < cells.len()
        invariant
            crate::markdown::table::nat_pairs(cells@) == cell_spans(c@),
            forall|k: int| 0 <= k < cells@.len() ==> (#[trigger] cells@[k]).0 <= cells@[k].1 <= c@.len(),
            j <= cells@.len(),
            forall|m: int|
                0 <= m < j ==> {
                    let sp = #[trigger] cell_spans(c@)[m];
                    skip_space(c@.subrange(sp.0 as int, sp.1 as int), 0) == sp.1 - sp.0
                },
        decreases cells@.len() - j,
    {
        let (a, b) = cells[j];
        let sub = crate::text::slice_chars(c, a, b);
        proof {
            assert(cell_spans(c@)[j as int] == (a as nat, b as nat));
        }
        if crate::text::skip_space_exec(&sub, 0) != sub.len() {
            return false;
        }
        j = j + 1;
    }
    true
}

/// Carries out plain `Enter` as [`enter_plan`] describes; returns whether
/// the key was used. A continuation that would not fit in memory is not
/// inserted, and the key is left to the editor.
#[verifier::spinoff_prover]
#[verifier::rlimit(40)]
pub fn handle_enter(buffer: &mut EditorBuffer, effects: &mut Vec<HookEffect>, tables: bool) -> (used: bool)
    requires
        is_char_boundary(old(buffer).text_view(), old(buffer).cursor_view()),
    ensures
        ({
            let t = old(buffer).text_view();
            let cur = old(buffer).cursor_view();
            let row = point_of_offset(t, cur).0;
            let unchanged = *final(buffer) == *old(buffer) && final(effects)@ == old(effects)@;
            match enter_plan(t, cur, tables) {
                EnterPlan::ClearLine => {
                    &&& used
                    &&& final(effects)@ == old(effects)@
                    &&& final(buffer).text_view() == remove_range(t, line_start(t, row), char_of_byte(t, cur))
                    &&& final(buffer).cursor_view() == row_start(t, row)
                },
                EnterPlan::Continue(x) => if byte_len(t) + byte_len(x) <= usize::MAX {
                    &&& used
                    &&& final(effects)@ == old(effects)@
                    &&& final(buffer).text_view() == insert_at(t, char_of_byte(t, cur), x)
                    &&& final(buffer).cursor_view() == cur + byte_len(x)
                    &&& final(buffer).version_view() == crate::buffer::next_version(old(buffer).version_view())
                } else {
                    !used && unchanged
                },
                EnterPlan::Follow(w) => {
                    &&& used
                    &&& *final(buffer) == *old(buffer)
                    &&& final(effects)@.len() == old(effects)@.len() + 1
                    &&& final(effects)@.drop_last() == old(effects)@
                    &&& follows(final(effects)@.last(), w)
                },
                EnterPlan::Plain => !used && unchanged,
            }
        }),
{
    let ghost t = buffer.text_view();
    let ghost cur = buffer.cursor_view();
    let cursor = buffer.cursor_offset();
    let p = buffer.cursor_point();
    let row = p.row;
    let line = buffer.line_to_string(row);
    let lc = str_chars(line.as_str());
    let k = crate::text::skip_space_exec(&lc, 0);
    let trimmed = crate::text::slice_chars(&lc, k, lc.len());
    let indent = crate::text::slice_chars(&lc, 0, k);
    let ls = buffer.point_to_offset(Point::new(row, 0));
    proof {
        crate::markdown::list_tab::lemma_point_row(t, cur);
        crate::markdown::list_tab::lemma_row(t, row as nat);
        crate::buffer::lemma_boundary(t, cur);
        crate::rope_text::lemma_line_start_le(t, char_of_byte(t, cur));
        lemma_byte_at_mono(t, line_start(t, row as nat) as int, char_of_byte(t, cur) as int);
        lemma_char_of_byte_at(t, line_start(t, row as nat));
        assert(lc@ == line_at(t, row as nat));
        assert(ls == row_start(t, row as nat));
        assert(is_char_boundary(t, ls as nat));
        assert(ls <= cursor);
        assert(trimmed@ =~= lc@.skip(k as int));
        assert(indent@ =~= lc@.take(k as int));
    }
    if tables {
        match crate::markdown::table::table_block_at(buffer, row) {
            Some(block) => {
                let is_row = match block.kind_at(row) {
                    Some(crate::markdown::table::TableRowKind::Header) => true,
                    Some(crate::markdown::table::TableRowKind::Body) => true,
                    _ => false,
                };
                if is_row {
                    let c = crate::markdown::table::clean_table_line(&lc);
                    if cells_blank_exec(&c) {
                        clear_to_line_start(buffer, ls);
                        return true;
                    }
                    let ci = crate::text::skip_space_exec(&c, 0);
                    let mut x: Vec<char> = Vec::new();
                    x.push('\n');
                    let head = crate::text::slice_chars(&c, 0, ci);
                    crate::text::push_all(&mut x, &head);
                    x.push('|');
                    let mut j: usize = 0;
                    proof {
                        assert(x@ =~= seq!['\n'] + c@.take(ci as int) + seq!['|'] + cell_bars(0));
                    }
                    while j < block.col_count
                        invariant
                            j <= block.col_count,
                            x@ == seq!['\n'] + c@.take(ci as int) + seq!['|'] + cell_bars(j as nat),
                        decreases block.col_count - j,
                    {
                        x.push(' ');
                        x.push('|');
                        j = j + 1;
                        proof {
                            assert(x@ =~= seq!['\n'] + c@.take(ci as int) + seq!['|'] + cell_bars(j as nat));
                        }
                    }
                    return insert_continuation(buffer, &x);
                }
            },
            None => {},
        }
    }
    let n = trimmed.len();
    if n >= 6 && trimmed[0] == '-' && trimmed[1] == ' ' && trimmed[2] == '[' && (trimmed[3] == ' '
        || trimmed[3] == 'x') && trimmed[4] == ']' && trimmed[5] == ' ' {
        let rest = crate::text::slice_chars(&trimmed, 6, n);
        proof {
            assert(rest@ =~= trimmed@.skip(6));
            if trimmed@[3] == ' ' {
                assert(trimmed@.take(6) =~= seq!['-', ' ', '[', ' ', ']', ' ']);
            } else {
                assert(trimmed@.take(6) =~= seq!['-', ' ', '[', 'x', ']', ' ']);
            }
        }
        if eol_only_exec(&rest) {
            clear_to_line_start(buffer, ls);
            return true;
        }
        let mut x: Vec<char> = Vec::new();
        x.push('\n');
        crate::text::push_all(&mut x, &indent);
        let tail = vec!['-', ' ', '[', ' ', ']', ' '];
        crate::text::push_all(&mut x, &tail);
        proof {
            assert(x@ =~= seq!['\n'] + indent@ + seq!['-', ' ', '[', ' ', ']', ' ']);
        }
        return insert_continuation(buffer, &x);
    }
    proof {
        if starts_with(trimmed@, seq!['-', ' ', '[', ' ', ']', ' ']) {
            assert(trimmed@.take(6)[3] == ' ');
        }
        if starts_with(trimmed@, seq!['-', ' ', '[', 'x', ']', ' ']) {
            assert(trimmed@.take(6)[3] == 'x');
        }
    }
    if n >= 2 && trimmed[1] == ' ' && (trimmed[0] == '-' || trimmed[0] == '*' || trimmed[0] == '+') {
        let rest = crate::text::slice_chars(&trimmed, 2, n);
        proof {
            assert(rest@ =~= trimmed@.skip(2));
        }
        if eol_only_exec(&rest) {
            clear_to_line_start(buffer, ls);
            return true;
        }
        let mut x: Vec<char> = Vec::new();
        x.push('\n');
        crate::text::push_all(&mut x, &indent);
        let bullet = crate::text::slice_chars(&trimmed, 0, 2);
        crate::text::push_all(&mut x, &bullet);
        proof {
            assert(x@ =~= seq!['\n'] + indent@ + trimmed@.take(2));
        }
        return insert_continuation(buffer, &x);
    }
    let sep = vec!['.', ' '];
    proof {
        assert(sep@ =~= seq!['.', ' ']);
    }
    match find_chars(&trimmed, &sep) {
        Some(d) => {
            proof {
                lemma_first_occurrence(trimmed@, sep@, 0);
            }
            let num_chars = crate::text::slice_chars(&trimmed, 0, d);
            proof {
                assert(num_chars@ =~= trimmed@.take(d as int));
            }
            match parse_usize_chars(&num_chars) {
                Some(num) => {
                    if num < usize::MAX {
                        let rest = crate::text::slice_chars(&trimmed, d + 2, n);
                        proof {
                            assert(rest@ =~= trimmed@.skip(d + 2int));
                        }
                        if eol_only_exec(&rest) {
                            clear_to_line_start(buffer, ls);
                            return true;
                        }
                        let mut x: Vec<char> = Vec::new();
                        x.push('\n');
                        crate::text::push_all(&mut x, &indent);
                        crate::text::push_decimal(&mut x, num + 1);
                        x.push('.');
                        x.push(' ');
                        proof {
                            assert(x@ =~= seq!['\n'] + indent@ + decimal_digits((num + 1) as nat) + seq!['.', ' ']);
                        }
                        return insert_continuation(buffer, &x);
                    }
                },
                None => {},
            }
        },
        None => {},
    }
    let col: usize = if cursor >= ls {
        cursor - ls
    } else {
        0
    };
    follow_wikilink_at(buffer, effects, row, col)
}


/// Index of the first character at or after `i` that is not a space or a
/// tab.
pub open spec fn skip_blanks(c: Seq<char>, i: nat) -> nat
    decreases c.len() - i,
{
    if i < c.len() && (c[i as int] == ' ' || c[i as int] == '\t') {
        skip_blanks(c, i + 1)
    } else {
        i
    }
}

/// Where the content of each cell of the cleaned table line `c` starts
/// (character indices): after each separator pipe, past one run of spaces
/// and tabs, and at `0` first when the line does not open with a pipe.
pub open spec fn cell_starts(c: Seq<char>) -> Seq<nat> {
    let head: Seq<nat> = if starts_with_pipe(c) {
        Seq::empty()
    } else {
        seq![0nat]
    };
    head + sep_pipes(strip_eol(c)).map_values(
        |p: nat| skip_blanks(c, crate::buffer::min_nat(p + 1, c.len())),
    )
}

/// The cell starts of `c` as byte offsets.
pub open spec fn cell_start_bytes(c: Seq<char>) -> Seq<nat> {
    cell_starts(c).map_values(|i: nat| byte_at(c, i as int))
}

/// The first entry of `v`, from `k` on, above `x`.
pub open spec fn first_above(v: Seq<nat>, x: nat, k: nat) -> Option<nat>
    decreases v.len() - k,
{
    if k >= v.len() {
        None
    } else if v[k as int] > x {
        Some(v[k as int])
    } else {
        first_above(v, x, k + 1)
    }
}

/// The last entry among the first `k` of `v` below `x`.
pub open spec fn last_below(v: Seq<nat>, x: nat, k: nat) -> Option<nat>
    decreases k,
{
    if k == 0 || k > v.len() {
        None
    } else if v[k - 1] < x {
        Some(v[k - 1])
    } else {
        last_below(v, x, (k - 1) as nat)
    }
}

/// Header and body rows of a table block (not its delimiter row).
pub open spec fn data_row(s: (nat, nat, nat, Seq<TableAlignment>), r: nat) -> bool {
    r == s.0 || (s.1 < r && r <= s.2)
}

/// The first data row of `s` in `r..=s.2`.
pub open spec fn next_data_row(s: (nat, nat, nat, Seq<TableAlignment>), r: nat) -> Option<nat>
    decreases s.2 + 1 - r,
{
    if r > s.2 {
        None
    } else if data_row(s, r) {
        Some(r)
    } else {
        next_data_row(s, r + 1)
    }
}

/// The last data row of `s` in `s.0..r`.
pub open spec fn prev_data_row(s: (nat, nat, nat, Seq<TableAlignment>), r: nat) -> Option<nat>
    decreases r,
{
    if r <= s.0 {
        None
    } else if data_row(s, (r - 1) as nat) {
        Some((r - 1) as nat)
    } else {
        prev_data_row(s, (r - 1) as nat)
    }
}

/// The cleaned text of row `r`.
pub open spec fn clean_line(t: Seq<char>, r: nat) -> Seq<char> {
    strip_eol(line_at(t, r))
}

/// What `Tab` / `Shift+Tab` does inside a table.
pub enum TabPlan {
    /// Move the cursor to this byte offset.
    MoveTo(nat),
    /// Insert this skeleton row at this byte offset (the row's end), then
    /// put the cursor at the given offset.
    AppendRow(Seq<char>, nat, nat),
    /// Not in a table's header or body row, or nowhere to go back to.
    Outside,
}

/// Table cell navigation from byte `cur` of `t`: forward to the next cell
/// start on the row, else the first cell of the next data row, else a new
/// skeleton row appended after the row; backward to the previous cell
/// start, else the last cell of the previous data row.
pub open spec fn table_tab_plan(t: Seq<char>, cur: nat, backwards: bool) -> TabPlan {
    let row = point_of_offset(t, cur).0;
    match table_block_spec(t, row, fences_upto(t, line_count(t))) {
        Some(s) => if !data_row(s, row) {
            TabPlan::Outside
        } else {
            let ls = row_start(t, row);
            let c = clean_line(t, row);
            let cc = crate::buffer::min_nat(if cur >= ls { (cur - ls) as nat } else { 0 }, byte_len(c));
            let st = cell_start_bytes(c);
            if !backwards {
                match first_above(st, cc, 0) {
                    Some(b) => TabPlan::MoveTo(ls + b),
                    None => match next_data_row(s, row + 1) {
                        Some(r) => {
                            let sr = cell_start_bytes(clean_line(t, r));
                            TabPlan::MoveTo(row_start(t, r) + if sr.len() > 0 { sr[0] } else { 0 })
                        },
                        None => {
                            let ind = c.take(skip_space(c, 0) as int);
                            let end = ls + byte_len(c);
                            TabPlan::AppendRow(
                                seq!['\n'] + ind + seq!['|'] + cell_bars(s.3.len()),
                                end,
                                end + 1 + byte_len(ind) + 2,
                            )
                        },
                    },
                }
            } else {
                match last_below(st, cc, st.len()) {
                    Some(b) => TabPlan::MoveTo(ls + b),
                    None => match prev_data_row(s, row) {
                        Some(r) => {
                            let sr = cell_start_bytes(clean_line(t, r));
                            TabPlan::MoveTo(row_start(t, r) + if sr.len() > 0 { sr[sr.len() - 1] } else { 0 })
                        },
                        None => TabPlan::Outside,
                    },
                }
            }
        },
        None => TabPlan::Outside,
    }
}


fn starts_with_pipe_exec(c: &Vec<char>) -> (b: bool)
    ensures
        b == starts_with_pipe(c@),
{
    let k = crate::text::skip_space_exec(c, 0);
    proof {
        assert(crate::text::trim_start(c@) =~= c@.skip(k as int));
    }
    k < c.len() && c[k] == '|'
}

/// Byte offsets where the cells of the cleaned table line `c` start.
fn cell_start_bytes_exec(c: &Vec<char>) -> (v: Vec<usize>)
    requires
        byte_len(c@) <= usize::MAX,
    ensures
        v@.len() == cell_start_bytes(c@).len(),
        forall|k: int| 0 <= k < v@.len() ==> v@[k] == cell_start_bytes(c@)[k],
{
    let offs = crate::text::char_offsets(c);
    let (pipes, _) = crate::markdown::table::cell_char_spans(c);
    let n = c.len();
    let ghost sp = sep_pipes(strip_eol(c@));
    let ghost all = cell_start_bytes(c@);
    proof {
        crate::markdown::table::lemma_strip_eol_prefix(c@);
        crate::markdown::table::lemma_pipes_upto(strip_eol(c@), strip_eol(c@).len());
    }
    let mut v: Vec<usize> = Vec::new();
    let lead = !starts_with_pipe_exec(c);
    let ghost h: int = if lead { 1 } else { 0 };
    if lead {
        v.push(offs[0]);
    }
    let mut j: usize = 0;
    while j < pipes.len()
        invariant
            n == c@.len(),
            offs@.len() == c@.len() + 1,
            forall|m: int| 0 <= m <= c@.len() ==> offs@[m] == byte_at(c@, m),
            pipes@.len() == sp.len(),
            forall|k: int| 0 <= k < pipes@.len() ==> pipes@[k] == sp[k],
            forall|k: int| 0 <= k < sp.len() ==> #[trigger] sp[k] < strip_eol(c@).len(),
            strip_eol(c@).len() <= c@.len(),
            sp == sep_pipes(strip_eol(c@)),
            all == cell_start_bytes(c@),
            h == (if starts_with_pipe(c@) { 0int } else { 1int }),
            j <= pipes@.len(),
            v@.len() == h + j,
            forall|k: int| 0 <= k < v@.len() ==> v@[k] == all[k],
        decreases pipes@.len() - j,
    {
        let p = pipes[j];
        assert(p < n) by {
            assert(sp[j as int] < strip_eol(c@).len());
        }
        let mut q: usize = if p + 1 < n {
            p + 1
        } else {
            n
        };
        let ghost q0 = q;
        while q < n && (c[q] == ' ' || c[q] == '\t')
            invariant
                q0 <= q <= n,
                n == c@.len(),
                skip_blanks(c@, q as nat) == skip_blanks(c@, q0 as nat),
            decreases n - q,
        {
            q = q + 1;
        }
        proof {
            assert(cell_starts(c@)[h + j] == skip_blanks(c@, q0 as nat));
        }
        v.push(offs[q]);
        j = j + 1;
    }
    proof {
        assert(cell_starts(c@).len() == h + sp.len());
    }
    v
}

/// Bytes of line `r` up to character `k` sit at the row's start plus
/// their offset within the line.
proof fn lemma_line_byte(t: Seq<char>, r: nat, k: nat)
    requires
        r < line_count(t),
        k <= line_at(t, r).len(),
    ensures
        byte_at(t, (line_start(t, r) + k) as int) == row_start(t, r) + byte_at(line_at(t, r), k as int),
        line_start(t, r) + k <= t.len(),
{
    crate::markdown::list_tab::lemma_row(t, r);
    let a = line_start(t, r);
    assert(t.take((a + k) as int) =~= t.take(a as int) + line_at(t, r).take(k as int));
    lemma_byte_len_concat(t.take(a as int), line_at(t, r).take(k as int));
}


/// Row `r`'s text without its line break, its start offset and the cell
/// starts within it.
fn row_cells(buffer: &EditorBuffer, r: usize) -> (res: (usize, Vec<usize>))
    requires
        r < line_count(buffer.text_view()),
    ensures
        res.0 == row_start(buffer.text_view(), r as nat),
        res.1@.len() == cell_start_bytes(clean_line(buffer.text_view(), r as nat)).len(),
        forall|k: int| 0 <= k < res.1@.len() ==> res.1@[k] == cell_start_bytes(clean_line(buffer.text_view(), r as nat))[k],
{
    let rs = buffer.point_to_offset(Point::new(r, 0));
    let raw = str_chars(buffer.line_to_string(r).as_str());
    let c = crate::markdown::table::clean_table_line(&raw);
    proof {
        crate::markdown::table::lemma_strip_eol_prefix(raw@);
        crate::text::lemma_byte_len_prefix(raw@, c@.len() as int);
    }
    let v = cell_start_bytes_exec(&c);
    (rs, v)
}

/// The cursor target for `Tab` (forward) or `Shift+Tab` (backward) in a
/// table's header or body row, as [`table_tab_plan`] describes; appending
/// a skeleton row when tabbing past the last cell. `None` outside tables,
/// and where a skeleton row would not fit in memory.
#[verifier::spinoff_prover]
#[verifier::rlimit(60)]
#[verifier::loop_isolation(false)]
pub fn table_tab_target(buffer: &mut EditorBuffer, backwards: bool) -> (target: Option<usize>)
    requires
        is_char_boundary(old(buffer).text_view(), old(buffer).cursor_view()),
    ensures
        ({
            let t = old(buffer).text_view();
            match table_tab_plan(t, old(buffer).cursor_view(), backwards) {
                TabPlan::MoveTo(b) => b <= usize::MAX && target == Some(b as usize) && *final(buffer) == *old(buffer),
                TabPlan::AppendRow(x, at, to) => if byte_len(t) + byte_len(x) < usize::MAX {
                    &&& to <= usize::MAX
                    &&& target == Some(to as usize)
                    &&& final(buffer).text_view() == insert_at(t, char_of_byte(t, at), x)
                    &&& final(buffer).version_view() == crate::buffer::next_version(old(buffer).version_view())
                } else {
                    target is None && *final(buffer) == *old(buffer)
                },
                TabPlan::Outside => target is None && *final(buffer) == *old(buffer),
            }
        }),
{
    let ghost t = buffer.text_view();
    let ghost cur = buffer.cursor_view();
    let cursor = buffer.cursor_offset();
    let row = buffer.cursor_point().row;
    let _lines = buffer.len_lines();
    let _bytes = buffer.len_bytes();
    let ghost f = fences_upto(t, line_count(t));
    proof {
        crate::markdown::list_tab::lemma_point_row(t, cur);
        crate::markdown::table::lemma_block_bounds(t, row as nat, f);
    }
    let block = match crate::markdown::table::table_block_at(buffer, row) {
        Some(b) => b,
        None => {
            return None;
        },
    };
    let ghost sb = table_block_spec(t, row as nat, f)->0;
    let is_row = match block.kind_at(row) {
        Some(crate::markdown::table::TableRowKind::Header) => true,
        Some(crate::markdown::table::TableRowKind::Body) => true,
        _ => false,
    };
    if !is_row {
        return None;
    }
    let (ls, starts) = row_cells(buffer, row);
    let raw = str_chars(buffer.line_to_string(row).as_str());
    let c = crate::markdown::table::clean_table_line(&raw);
    let cstr = crate::text::chars_to_string(&c);
    let clen = str_byte_len(cstr.as_str());
    let ghost st = cell_start_bytes(c@);
    proof {
        crate::markdown::list_tab::lemma_row(t, row as nat);
        crate::markdown::table::lemma_strip_eol_prefix(raw@);
        crate::text::lemma_byte_len_prefix(raw@, c@.len() as int);
        assert(c@ == clean_line(t, row as nat));
    }
    let rel: usize = if cursor >= ls {
        cursor - ls
    } else {
        0
    };
    let cc: usize = if rel < clen {
        rel
    } else {
        clen
    };
    if !backwards {
        let mut k: usize = 0;
        while k < starts.len()
            invariant
                starts@.len() == st.len(),
                forall|m: int| 0 <= m < starts@.len() ==> starts@[m] == st[m],
                k <= starts@.len(),
                first_above(st, cc as nat, 0) == first_above(st, cc as nat, k as nat),
            decreases starts@.len() - k,
        {
            if starts[k] > cc {
                proof {
                    assert(first_above(st, cc as nat, k as nat) == Some(st[k as int]));
                    lemma_cell_start_bound(t, row as nat, k as nat);
                }
                return Some(ls + starts[k]);
            }
            k = k + 1;
        }
        let mut r: usize = row + 1;
        while r <= block.end_row
            invariant
                block_matches_spec(block, sb),
                sb.0 <= row <= sb.2 < line_count(t),
                row + 1 <= r <= sb.2 + 1,
                *buffer == *old(buffer),
                t == buffer.text_view(),
                next_data_row(sb, (row + 1) as nat) == next_data_row(sb, r as nat),
            decreases sb.2 + 1 - r,
        {
            let is_data = match block.kind_at(r) {
                Some(crate::markdown::table::TableRowKind::Header) => true,
                Some(crate::markdown::table::TableRowKind::Body) => true,
                _ => false,
            };
            if is_data {
                let (rs, sr) = row_cells(buffer, r);
                let first: usize = if sr.len() > 0 {
                    sr[0]
                } else {
                    0
                };
                proof {
                    assert(next_data_row(sb, r as nat) == Some(r as nat));
                    if sr@.len() > 0 {
                        lemma_cell_start_bound(t, r as nat, 0);
                    }
                    crate::markdown::list_tab::lemma_row(t, r as nat);
                    crate::markdown::list_tab::lemma_row(t, row as nat);
                }
                return Some(rs + first);
            }
            r = r + 1;
        }
        let ci = crate::text::skip_space_exec(&c, 0);
        let head = crate::text::slice_chars(&c, 0, ci);
        let mut x: Vec<char> = Vec::new();
        x.push('\n');
        crate::text::push_all(&mut x, &head);
        x.push('|');
        let mut j: usize = 0;
        proof {
            assert(x@ =~= seq!['\n'] + c@.take(ci as int) + seq!['|'] + cell_bars(0));
        }
        while j < block.col_count
            invariant
                j <= block.col_count,
                x@ == seq!['\n'] + c@.take(ci as int) + seq!['|'] + cell_bars(j as nat),
            decreases block.col_count - j,
        {
            x.push(' ');
            x.push('|');
            j = j + 1;
            proof {
                assert(x@ =~= seq!['\n'] + c@.take(ci as int) + seq!['|'] + cell_bars(j as nat));
            }
        }
        let xs = crate::text::chars_to_string(&x);
        let n = str_byte_len(xs.as_str());
        let len = buffer.len_bytes();
        if n >= usize::MAX - len {
            return None;
        }
        let hs = crate::text::chars_to_string(&head);
        let indl = str_byte_len(hs.as_str());
        proof {
            lemma_byte_len_concat(seq!['\n'], c@.take(ci as int));
            lemma_byte_len_concat(seq!['\n'] + c@.take(ci as int), seq!['|']);
            lemma_byte_len_concat(seq!['\n'] + c@.take(ci as int) + seq!['|'], cell_bars(block.col_count as nat));
            crate::text::lemma_byte_len_single('\n');
            crate::text::lemma_byte_len_single('|');
            crate::markdown::list_tab::lemma_row(t, row as nat);
            lemma_line_byte(t, row as nat, c@.len());
            assert(line_at(t, row as nat).take(c@.len() as int) == c@);
            lemma_char_of_byte_at(t, line_start(t, row as nat) + c@.len());
            lemma_byte_at_mono(t, (line_start(t, row as nat) + c@.len()) as int, t.len() as int);
            crate::text::lemma_byte_at_len(t);
        }
        let end = ls + clen;
        buffer.set_cursor_offset(end);
        buffer.insert(xs.as_str());
        Some(end + 1 + indl + 2)
    } else {
        let mut k: usize = starts.len();
        while k > 0
            invariant
                starts@.len() == st.len(),
                forall|m: int| 0 <= m < starts@.len() ==> starts@[m] == st[m],
                k <= starts@.len(),
                last_below(st, cc as nat, st.len()) == last_below(st, cc as nat, k as nat),
            decreases k,
        {
            if starts[k - 1] < cc {
                proof {
                    assert(last_below(st, cc as nat, k as nat) == Some(st[k - 1]));
                    lemma_cell_start_bound(t, row as nat, (k - 1) as nat);
                }
                return Some(ls + starts[k - 1]);
            }
            k = k - 1;
        }
        let mut r: usize = row;
        while r > block.header_row
            invariant
                block_matches_spec(block, sb),
                sb.0 <= r <= row <= sb.2 < line_count(t),
                *buffer == *old(buffer),
                t == buffer.text_view(),
                prev_data_row(sb, row as nat) == prev_data_row(sb, r as nat),
            decreases r,
        {
            let is_data = match block.kind_at(r - 1) {
                Some(crate::markdown::table::TableRowKind::Header) => true,
                Some(crate::markdown::table::TableRowKind::Body) => true,
                _ => false,
            };
            if is_data {
                let (rs, sr) = row_cells(buffer, r - 1);
                let last: usize = if sr.len() > 0 {
                    sr[sr.len() - 1]
                } else {
                    0
                };
                proof {
                    assert(prev_data_row(sb, r as nat) == Some((r - 1) as nat));
                    if sr@.len() > 0 {
                        lemma_cell_start_bound(t, (r - 1) as nat, (sr@.len() - 1) as nat);
                    }
                    crate::markdown::list_tab::lemma_row(t, (r - 1) as nat);
                }
                return Some(rs + last);
            }
            r = r - 1;
        }
        None
    }
}

/// `b` describes the block `s`.
pub open spec fn block_matches_spec(b: crate::markdown::table::TableBlock, s: (nat, nat, nat, Seq<TableAlignment>)) -> bool {
    crate::markdown::table::block_matches(b, s)
}

/// A cell start lies within its row.
proof fn lemma_cell_start_bound(t: Seq<char>, r: nat, k: nat)
    requires
        r < line_count(t),
        k < cell_start_bytes(clean_line(t, r)).len(),
    ensures
        cell_start_bytes(clean_line(t, r))[k as int] <= byte_len(clean_line(t, r)),
        row_start(t, r) + byte_len(clean_line(t, r)) <= byte_len(t),
{
    let c = clean_line(t, r);
    crate::markdown::list_tab::lemma_row(t, r);
    crate::rope_text::lemma_byte_len_subrange(t, line_start(t, r) as int, line_start(t, r + 1) as int);
    crate::markdown::table::lemma_strip_eol_prefix(line_at(t, r));
    crate::text::lemma_byte_len_prefix(line_at(t, r), c.len() as int);
    lemma_cell_starts_bound(c);
    lemma_byte_at_mono(c, cell_starts(c)[k as int] as int, c.len() as int);
    crate::text::lemma_byte_at_len(c);
}

/// Cell starts are character indices of the line.
proof fn lemma_cell_starts_bound(c: Seq<char>)
    ensures
        forall|k: int| 0 <= k < cell_starts(c).len() ==> #[trigger] cell_starts(c)[k] <= c.len(),
{
    let sp = sep_pipes(strip_eol(c));
    crate::markdown::table::lemma_strip_eol_prefix(c);
    crate::markdown::table::lemma_pipes_upto(strip_eol(c), strip_eol(c).len());
    assert forall|k: int| 0 <= k < cell_starts(c).len() implies #[trigger] cell_starts(c)[k] <= c.len() by {
        let h: int = if starts_with_pipe(c) { 0 } else { 1 };
        if k >= h {
            lemma_skip_blanks_bound(c, crate::buffer::min_nat(sp[k - h] + 1, c.len()));
        }
    }
}

proof fn lemma_skip_blanks_bound(c: Seq<char>, i: nat)
    requires
        i <= c.len(),
    ensures
        i <= skip_blanks(c, i) <= c.len(),
    decreases c.len() - i,
{
    if i < c.len() && (c[i as int] == ' ' || c[i as int] == '\t') {
        lemma_skip_blanks_bound(c, i + 1);
    }
}


/// Which Markdown command a key press asks for.
pub enum MdKey {
    /// `Ctrl+B`: bold.
    Bold,
    /// `Ctrl+I`: italic.
    Italic,
    /// `Ctrl+K`: link.
    Link,
    /// `Ctrl+Enter`: toggle the task box on the cursor's row.
    ToggleTask,
    /// Plain `Enter`.
    Enter,
    /// `Tab`, or `Shift+Tab` when the flag is set.
    Tab(bool),
    /// Anything else.
    Other,
}

/// The command for `key` under modifiers `m` (`Cmd` counts as `Ctrl`).
pub open spec fn md_key(key: Seq<char>, m: Modifiers) -> MdKey {
    let cmd = m.ctrl || m.meta;
    if cmd && key == "b"@ {
        MdKey::Bold
    } else if cmd && key == "i"@ {
        MdKey::Italic
    } else if cmd && key == "k"@ {
        MdKey::Link
    } else if cmd && key == "enter"@ {
        MdKey::ToggleTask
    } else if key == "enter"@ && !m.shift {
        MdKey::Enter
    } else if key == "tab"@ && !m.ctrl && !m.meta && !m.alt {
        MdKey::Tab(m.shift)
    } else {
        MdKey::Other
    }
}

/// The markup edit: a selection is wrapped in `open` and `close` and
/// reselected (inside the markers, or on the `url` placeholder for links);
/// without one, `open` and `close` go in at the cursor, which steps back
/// `back` characters.
pub open spec fn markup_result(
    t: Seq<char>,
    cur: nat,
    sel: Option<Selection>,
    open: Seq<char>,
    close: Seq<char>,
    back: nat,
    link: bool,
    t2: Seq<char>,
    cur2: nat,
    sel2: Option<Selection>,
) -> bool {
    match sel {
        Some(s) => {
            &&& t2 == markup_wrapped(
                t,
                char_of_byte(t, s.start_spec() as nat),
                char_of_byte(t, s.end_spec() as nat),
                open,
                close,
            )
            &&& cur2 == s.end_spec() + open.len() + close.len()
            &&& sel2 == Some(
                if link {
                    Selection::range_spec((s.end_spec() + 3) as usize, (s.end_spec() + 6) as usize)
                } else {
                    Selection::range_spec((s.start_spec() + open.len()) as usize, (s.end_spec() + open.len()) as usize)
                },
            )
        },
        None => {
            &&& t2 == insert_at(t, char_of_byte(t, cur), open + close)
            &&& cur2 == cur + open.len() + close.len() - back
            &&& sel2 is None
        },
    }
}

/// Room for the longest markup edit.
pub open spec fn markup_fits(t: Seq<char>) -> bool {
    byte_len(t) + 8 <= usize::MAX
}

/// Applies a markup key; passes when the text could not grow by a markup.
fn markup_key(ctx: &mut HookContext, open: &str, close: &str, both: &str, back: usize, link: bool) -> (outcome: HookOutcome)
    requires
        ctx_ready(*old(ctx).buffer, *old(ctx).selection, *old(ctx).prompt),
        all_ascii(open@),
        all_ascii(close@),
        both@ == open@ + close@,
        open@.len() + close@.len() <= 8,
        back <= both@.len(),
        link ==> open@.len() == 1,
    ensures
        *final(ctx).cursor_style == *old(ctx).cursor_style,
        *final(ctx).prompt == *old(ctx).prompt,
        final(ctx).effects@ == old(ctx).effects@,
        if markup_fits(old(ctx).buffer.text_view()) {
            &&& outcome == HookOutcome::Consumed
            &&& markup_result(
                old(ctx).buffer.text_view(),
                old(ctx).buffer.cursor_view(),
                *old(ctx).selection,
                open@,
                close@,
                back as nat,
                link,
                final(ctx).buffer.text_view(),
                final(ctx).buffer.cursor_view(),
                *final(ctx).selection,
            )
        } else {
            outcome == HookOutcome::PassThrough && *final(ctx).buffer == *old(ctx).buffer
                && *final(ctx).selection == *old(ctx).selection
        },
{
    let len = ctx.buffer.len_bytes();
    if len > usize::MAX - 8 {
        return HookOutcome::PassThrough;
    }
    match *ctx.selection {
        Some(sel) => {
            let r = sel.byte_range();
            proof {
                crate::buffer::lemma_boundary(ctx.buffer.text_view(), r.end as nat);
            }
            let open_len = str_byte_len(open);
            proof {
                lemma_ascii_byte_len(open@);
            }
            *ctx.selection = None;
            wrap_markup(ctx.buffer, r.start, r.end, open, close);
            if link {
                *ctx.selection = Some(Selection::range(r.end + 3, r.end + 6));
            } else {
                *ctx.selection = Some(Selection::range(r.start + open_len, r.end + open_len));
            }
        },
        None => {
            proof {
                assert forall|k: int| 0 <= k < both@.len() implies char_width(#[trigger] both@[k]) == 1 by {
                    if k < open@.len() {
                        assert(both@[k] == open@[k]);
                    } else {
                        assert(both@[k] == close@[k - open@.len()]);
                    }
                }
            }
            insert_markup(ctx.buffer, both, back);
        },
    }
    HookOutcome::Consumed
}

/// Whether the key leaves the editor state as it was.
pub open spec fn ctx_unchanged(b0: EditorBuffer, s0: Option<Selection>, e0: Seq<HookEffect>, b1: EditorBuffer, s1: Option<Selection>, e1: Seq<HookEffect>) -> bool {
    b1 == b0 && s1 == s0 && e1 == e0
}

/// The result of plain `Enter` as [`handle_enter`] states it.
pub open spec fn enter_result(
    b0: EditorBuffer,
    e0: Seq<HookEffect>,
    tables: bool,
    b1: EditorBuffer,
    e1: Seq<HookEffect>,
    used: bool,
) -> bool {
    let t = b0.text_view();
    let cur = b0.cursor_view();
    let row = point_of_offset(t, cur).0;
    match enter_plan(t, cur, tables) {
        EnterPlan::ClearLine => {
            &&& used
            &&& e1 == e0
            &&& b1.text_view() == remove_range(t, line_start(t, row), char_of_byte(t, cur))
            &&& b1.cursor_view() == row_start(t, row)
        },
        EnterPlan::Continue(x) => if byte_len(t) + byte_len(x) <= usize::MAX {
            &&& used
            &&& e1 == e0
            &&& b1.text_view() == insert_at(t, char_of_byte(t, cur), x)
            &&& b1.cursor_view() == cur + byte_len(x)
        } else {
            !used && b1 == b0 && e1 == e0
        },
        EnterPlan::Follow(w) => {
            &&& used
            &&& b1 == b0
            &&& e1.len() == e0.len() + 1
            &&& e1.drop_last() == e0
            &&& follows(e1.last(), w)
        },
        EnterPlan::Plain => !used && b1 == b0 && e1 == e0,
    }
}

/// Whether table navigation moves the cursor for this `Tab`.
pub open spec fn table_tab_moves(t: Seq<char>, cur: nat, backwards: bool) -> bool {
    match table_tab_plan(t, cur, backwards) {
        TabPlan::MoveTo(_) => true,
        TabPlan::AppendRow(x, _, _) => byte_len(t) + byte_len(x) < usize::MAX,
        TabPlan::Outside => false,
    }
}

/// The cursor after moving to byte `b`: the start of the character there.
pub open spec fn snapped(t: Seq<char>, b: nat) -> nat {
    byte_at(t, char_of_byte(t, crate::buffer::min_nat(b, byte_len(t))) as int)
}


/// What the Markdown keys do (see [`MarkdownHook::on_key`]): the buffer,
/// selection and effects go from `b0`, `s0`, `e0` to `b1`, `s1`, `e1`
/// under settings `st`, and `outcome` says whether the key was consumed.
pub open spec fn md_key_outcome(
    st: crate::markdown::config::HookSettings,
    key: Seq<char>,
    m: Modifiers,
    b0: EditorBuffer,
    s0: Option<Selection>,
    e0: Seq<HookEffect>,
    b1: EditorBuffer,
    s1: Option<Selection>,
    e1: Seq<HookEffect>,
    outcome: HookOutcome,
) -> bool {
            let t = b0.text_view();
            let cur = b0.cursor_view();
            let consumed = outcome == HookOutcome::Consumed;
            let same = ctx_unchanged(b0, s0, e0, b1, s1, e1);
            match md_key(key, m) {
                MdKey::Bold => if markup_fits(t) {
                    consumed && e1 == e0 && markup_result(
                        t, cur, s0, "**"@, "**"@, 2, false, b1.text_view(), b1.cursor_view(), s1,
                    )
                } else {
                    !consumed && same
                },
                MdKey::Italic => if markup_fits(t) {
                    consumed && e1 == e0 && markup_result(
                        t, cur, s0, "*"@, "*"@, 1, false, b1.text_view(), b1.cursor_view(), s1,
                    )
                } else {
                    !consumed && same
                },
                MdKey::Link => if markup_fits(t) {
                    consumed && e1 == e0 && markup_result(
                        t, cur, s0, "["@, "](url)"@, 6, true, b1.text_view(), b1.cursor_view(), s1,
                    )
                } else {
                    !consumed && same
                },
                MdKey::ToggleTask => {
                    let r = toggle_with(t, point_of_offset(t, cur).0, task_key_pairs());
                    if r is Some {
                        &&& consumed
                        &&& b1.text_view() == r.unwrap().0
                        &&& b1.cursor_view() == r.unwrap().1
                        &&& s1 == s0 && e1 == e0
                    } else if !m.shift {
                        s1 == s0 && enter_result(b0, e0, st.table_navigation, b1, e1, consumed)
                    } else {
                        !consumed && same
                    }
                },
                MdKey::Enter => s1 == s0 && enter_result(b0, e0, st.table_navigation, b1, e1, consumed),
                MdKey::Tab(back) => if st.table_navigation && table_tab_moves(t, cur, back) {
                    &&& consumed
                    &&& s1 is None
                    &&& e1 == e0
                    &&& match table_tab_plan(t, cur, back) {
                        TabPlan::MoveTo(b) => b1.text_view() == t && b1.cursor_view() == snapped(t, b),
                        TabPlan::AppendRow(x, at, to) => {
                            let t2 = insert_at(t, char_of_byte(t, at), x);
                            b1.text_view() == t2 && b1.cursor_view() == snapped(t2, to)
                        },
                        TabPlan::Outside => false,
                    }
                } else if st.list_indentation && indents_fit(t) && tab_numbers_fit(t, cur, s0) && byte_len(t)
                    + st.list_indent_size <= usize::MAX && line_count(t) < usize::MAX && any_item(
                    t,
                    tab_rows(t, cur, s0).0,
                    tab_rows(t, cur, s0).1,
                ) {
                    &&& consumed
                    &&& e1 == e0
                    &&& b1.text_view() == list_tab_text(t, cur, s0, back, st.list_indent_size as nat)
                    &&& (b1.cursor_view(), s1) == list_tab_marks(t, cur, s0, back, st.list_indent_size as nat)
                } else {
                    !consumed && same
                },
                MdKey::Other => !consumed && same,
            }
        }

impl MarkdownHook {
    /// The Markdown keys without completion (see [`md_key_outcome`]).
    #[verifier::spinoff_prover]
    #[verifier::rlimit(80)]
    fn key_features(&self, ctx: &mut HookContext, event: &KeyEvent) -> (outcome: HookOutcome)
        requires
            ctx_ready(*old(ctx).buffer, *old(ctx).selection, *old(ctx).prompt),
            byte_len(old(ctx).prompt@.input) + byte_len(event.key@) + 1 <= usize::MAX,
        ensures
            *final(ctx).cursor_style == *old(ctx).cursor_style,
            *final(ctx).prompt == *old(ctx).prompt,
            md_key_outcome(
                self.settings(),
                event.key@,
                event.modifiers,
                *old(ctx).buffer,
                *old(ctx).selection,
                old(ctx).effects@,
                *final(ctx).buffer,
                *final(ctx).selection,
                final(ctx).effects@,
                outcome,
            ),
    {
        let m = event.modifiers;
        let key = event.key.as_str();
        let ghost t = ctx.buffer.text_view();
        let ghost cur = ctx.buffer.cursor_view();
        proof {
            reveal_strlit("**");
            reveal_strlit("*");
            reveal_strlit("[");
            reveal_strlit("](url)");
            reveal_strlit("****");
            reveal_strlit("[](url)");
            reveal_strlit("b");
            reveal_strlit("i");
            reveal_strlit("k");
            reveal_strlit("enter");
            reveal_strlit("tab");
        }
        if m.ctrl || m.meta {
            if str_eq(key, "b") {
                proof {
                    assert("****"@ =~= "**"@ + "**"@);
                }
                return markup_key(ctx, "**", "**", "****", 2, false);
            }
            if str_eq(key, "i") {
                proof {
                    assert("**"@ =~= "*"@ + "*"@);
                }
                return markup_key(ctx, "*", "*", "**", 1, false);
            }
            if str_eq(key, "k") {
                proof {
                    assert("[](url)"@ =~= "["@ + "](url)"@);
                }
                return markup_key(ctx, "[", "](url)", "[](url)", 6, true);
            }
            if str_eq(key, "enter") {
                let row = ctx.buffer.cursor_point().row;
                proof {
                    crate::markdown::list_tab::lemma_point_row(t, cur);
                }
                if toggle_checkbox(ctx.buffer, row) {
                    return HookOutcome::Consumed;
                }
            }
        }
        if str_eq(key, "enter") && !m.shift {
            if handle_enter(ctx.buffer, ctx.effects, self.table_navigation()) {
                return HookOutcome::Consumed;
            }
            return HookOutcome::PassThrough;
        }
        if str_eq(key, "tab") && !m.ctrl && !m.meta && !m.alt {
            if self.table_navigation() {
                match table_tab_target(ctx.buffer, m.shift) {
                    Some(target) => {
                        ctx.buffer.set_cursor_offset(target);
                        *ctx.selection = None;
                        return HookOutcome::Consumed;
                    },
                    None => {},
                }
            }
            if self.list_indentation() {
                let size = self.list_indent_size();
                if list_tab_limits(ctx.buffer, *ctx.selection, size) {
                    if handle_list_tab(ctx, m.shift, size) {
                        return HookOutcome::Consumed;
                    }
                }
            }
        }
        HookOutcome::PassThrough
    }
}

/// A session's rows re-ranked from the provider (when one is installed),
/// keeping its anchor and clamping its selection.
pub open spec fn requeried(sess: CompletionSession, c1: Option<CompletionSession>, has_provider: bool) -> bool {
    if has_provider {
        c1 matches Some(n) && n.trigger_start == sess.trigger_start && n.trigger_row == sess.trigger_row
            && n.items@.len() <= MAX_COMPLETION_ITEMS && session_wf(&n) && n.selected == if n.items@.len() == 0 {
            0
        } else if sess.selected < n.items@.len() {
            sess.selected
        } else {
            (n.items@.len() - 1) as usize
        }
    } else {
        c1 == Some(sess)
    }
}

/// What a key does with completion in play: an open session routes it
/// through [`completion_spec`]; a second `[` with a provider installed
/// opens a session at the first; otherwise (and for keys a session
/// releases) the Markdown keys of [`md_key_outcome`] apply. `c0` / `c1`
/// are the session before and after.
pub open spec fn md_completion_outcome(
    st: crate::markdown::config::HookSettings,
    has_provider: bool,
    c0: Option<CompletionSession>,
    c1: Option<CompletionSession>,
    key: Seq<char>,
    m: Modifiers,
    b0: EditorBuffer,
    s0: Option<Selection>,
    e0: Seq<HookEffect>,
    b1: EditorBuffer,
    s1: Option<Selection>,
    e1: Seq<HookEffect>,
    outcome: HookOutcome,
) -> bool {
    let t = b0.text_view();
    let cur = b0.cursor_view();
    let consumed = outcome == HookOutcome::Consumed;
    let same = ctx_unchanged(b0, s0, e0, b1, s1, e1);
    let fall = md_key_outcome(st, key, m, b0, s0, e0, b1, s1, e1, outcome);
    match c0 {
        Some(sess) => {
            let ts = sess.trigger_start as nat;
            let n = sess.items@.len();
            let step = completion_spec(
                n,
                sess.selected as nat,
                query_spec(t, cur, ts, sess.trigger_row as nat) is Some,
                cur > ts + 2,
                key,
                m,
            );
            match step {
                CompletionStep::Release => c1 is None && fall,
                CompletionStep::PassThrough => c1 == c0 && fall,
                CompletionStep::Dismiss => consumed && c1 is None && same,
                CompletionStep::Select(i) => consumed && same && c1 == Some(
                    CompletionSession { selected: i, ..sess },
                ),
                CompletionStep::Accept(i) => if i < n {
                    let label = sess.items@[i as int].label@;
                    &&& consumed
                    &&& c1 is None
                    &&& e1 == e0
                    &&& if byte_len(t) + byte_len(label) + 2 <= usize::MAX {
                        match accepted(t, cur, ts, label) {
                            None => b1 == b0 && s1 == s0,
                            Some(r) => b1.text_view() == r.0 && b1.cursor_view() == r.1 && s1 is None,
                        }
                    } else {
                        b1 == b0 && s1 == s0
                    }
                } else {
                    consumed && same && c1 == c0
                },
                CompletionStep::Backspace => {
                    let c = char_of_byte(t, cur);
                    &&& consumed
                    &&& s1 == s0 && e1 == e0
                    &&& b1.text_view() == remove_range(t, (c - 1) as nat, c)
                    &&& b1.cursor_view() == byte_at(t, c - 1)
                    &&& requeried(sess, c1, has_provider)
                },
                CompletionStep::Insert(_) => if byte_len(t) + byte_len(key) <= usize::MAX {
                    &&& consumed
                    &&& s1 == s0 && e1 == e0
                    &&& b1.text_view() == insert_at(t, char_of_byte(t, cur), key)
                    &&& b1.cursor_view() == cur + byte_len(key)
                    &&& requeried(sess, c1, has_provider)
                } else {
                    c1 is None && fall
                },
            }
        },
        None => if has_provider && key == "["@ && unmodified(m) && trigger_spec(t, cur) is Some
            && byte_len(t) + 1 <= usize::MAX {
            let ts = trigger_spec(t, cur)->0;
            &&& consumed
            &&& s1 == s0 && e1 == e0
            &&& b1.text_view() == insert_at(t, char_of_byte(t, cur), seq!['['])
            &&& b1.cursor_view() == cur + 1
            &&& c1 matches Some(ns) && ns.trigger_start == ts && ns.trigger_row == point_of_offset(
                b1.text_view(),
                ts,
            ).0 && ns.items@.len() <= MAX_COMPLETION_ITEMS && session_wf(&ns) && ns.selected == 0
        } else {
            c1 is None && fall
        },
    }
}


impl MarkdownHook {
    /// Accepts row `index` of the open session (a click on the popup): the
    /// row's label replaces the query as `Enter` would. `Consumed` when a
    /// label went in; a row past the list leaves everything as it was.
    pub fn on_completion_select(&mut self, ctx: &mut HookContext, index: usize) -> (outcome: HookOutcome)
        ensures
            final(self).settings() == old(self).settings(),
            final(self).has_provider_view() == old(self).has_provider_view(),
            *final(ctx).cursor_style == *old(ctx).cursor_style,
            *final(ctx).prompt == *old(ctx).prompt,
            final(ctx).effects@ == old(ctx).effects@,
            ({
                let t = old(ctx).buffer.text_view();
                let cur = old(ctx).buffer.cursor_view();
                match old(self).completion_view() {
                    Some(sess) if index < sess.items@.len() && byte_len(t) + byte_len(sess.items@[index as int].label@) + 2 <= usize::MAX => {
                        &&& final(self).completion_view() is None
                        &&& match accepted(t, cur, sess.trigger_start as nat, sess.items@[index as int].label@) {
                            None => outcome == HookOutcome::PassThrough && *final(ctx).buffer == *old(ctx).buffer
                                && *final(ctx).selection == *old(ctx).selection,
                            Some(r) => outcome == HookOutcome::Consumed && final(ctx).buffer.text_view() == r.0
                                && final(ctx).buffer.cursor_view() == r.1 && (*final(ctx).selection) is None,
                        }
                    },
                    _ => outcome == HookOutcome::PassThrough && final(self).completion_view() == old(self).completion_view()
                        && *final(ctx).buffer == *old(ctx).buffer && *final(ctx).selection == *old(ctx).selection,
                }
            }),
    {
        let taken = self.take_completion();
        match taken {
            Some(sess) => {
                if index < sess.items.len() {
                    let len = ctx.buffer.len_bytes();
                    let ll = str_byte_len(sess.items[index].label.as_str());
                    if len <= usize::MAX - 2 && ll <= usize::MAX - 2 - len {
                        if accept_completion(ctx.buffer, sess.trigger_start, sess.items[index].label.as_str()) {
                            *ctx.selection = None;
                            return HookOutcome::Consumed;
                        }
                        return HookOutcome::PassThrough;
                    }
                }
                self.set_completion(Some(sess));
                HookOutcome::PassThrough
            },
            None => HookOutcome::PassThrough,
        }
    }
}

impl EditorHook for MarkdownHook {
    /// Markdown keys: `Ctrl+B` / `Ctrl+I` / `Ctrl+K` wrap the selection in
    /// bold, italic or link markup (or insert empty markup); `Ctrl+Enter`
    /// toggles the row's task box; plain `Enter` continues tables, tasks,
    /// bullets and ordered items, ends empty ones, or follows a wikilink;
    /// `Tab` / `Shift+Tab` move between table cells, else indent or
    /// outdent list items. Everything else passes through.
    #[verifier::rlimit(80)]
    fn on_key(&mut self, ctx: &mut HookContext, event: &KeyEvent) -> (outcome: HookOutcome)
        ensures
            final(self).settings() == old(self).settings(),
            final(self).has_provider_view() == old(self).has_provider_view(),
            *final(ctx).cursor_style == *old(ctx).cursor_style,
            *final(ctx).prompt == *old(ctx).prompt,
            md_completion_outcome(
                old(self).settings(),
                old(self).has_provider_view(),
                old(self).completion_view(),
                final(self).completion_view(),
                event.key@,
                event.modifiers,
                *old(ctx).buffer,
                *old(ctx).selection,
                old(ctx).effects@,
                *final(ctx).buffer,
                *final(ctx).selection,
                final(ctx).effects@,
                outcome,
            ),
    {
        let taken = self.take_completion();
        match taken {
            Some(sess) => {
                let step = completion_step(&sess, ctx.buffer, event);
                match step {
                    CompletionStep::Release => self.key_features(ctx, event),
                    CompletionStep::PassThrough => {
                        self.set_completion(Some(sess));
                        self.key_features(ctx, event)
                    },
                    CompletionStep::Dismiss => HookOutcome::Consumed,
                    CompletionStep::Select(i) => {
                        let mut next = sess;
                        next.selected = i;
                        self.set_completion(Some(next));
                        HookOutcome::Consumed
                    },
                    CompletionStep::Accept(i) => {
                        if i < sess.items.len() {
                            let len = ctx.buffer.len_bytes();
                            let ll = str_byte_len(sess.items[i].label.as_str());
                            if len <= usize::MAX - 2 && ll <= usize::MAX - 2 - len {
                                if accept_completion(ctx.buffer, sess.trigger_start, sess.items[i].label.as_str()) {
                                    *ctx.selection = None;
                                }
                            }
                        } else {
                            self.set_completion(Some(sess));
                        }
                        HookOutcome::Consumed
                    },
                    CompletionStep::Backspace => {
                        ctx.buffer.backspace();
                        let mut next = sess;
                        self.requery(ctx.buffer, &mut next);
                        self.set_completion(Some(next));
                        HookOutcome::Consumed
                    },
                    CompletionStep::Insert(_) => {
                        let len = ctx.buffer.len_bytes();
                        if len <= usize::MAX - str_byte_len(event.key.as_str()) {
                            ctx.buffer.insert(event.key.as_str());
                            let mut next = sess;
                            self.requery(ctx.buffer, &mut next);
                            self.set_completion(Some(next));
                            HookOutcome::Consumed
                        } else {
                            self.key_features(ctx, event)
                        }
                    },
                }
            },
            None => {
                let m = event.modifiers;
                proof {
                    reveal_strlit("[");
                    assert("["@ =~= seq!['[']);
                    assert(seq!['['].drop_last() =~= Seq::<char>::empty());
                    assert(byte_len(Seq::<char>::empty()) == 0);
                    assert(seq!['['].last() == '[');
                    assert(byte_len(seq!['[']) == 1);
                }
                if self.completion_provider_set() && !m.ctrl && !m.alt && !m.meta && str_eq(event.key.as_str(), "[") {
                    match completion_trigger_at(ctx.buffer) {
                        Some(ts) => {
                            if ctx.buffer.len_bytes() < usize::MAX {
                                ctx.buffer.insert("[");
                                let row = ctx.buffer.offset_to_point(ts).row;
                                let mut sess = CompletionSession {
                                    trigger_start: ts,
                                    trigger_row: row,
                                    items: Vec::new(),
                                    selected: 0,
                                };
                                self.fill_session(&mut sess, "");
                                self.set_completion(Some(sess));
                                return HookOutcome::Consumed;
                            }
                        },
                        None => {},
                    }
                }
                self.key_features(ctx, event)
            },
        }
    }

    /// A cursor or selection move ends the open session once the cursor
    /// leaves its anchor (see [`session_ends`]).
    fn on_selection_change(&mut self, buffer: &EditorBuffer, selection: Option<&Selection>)
        ensures
            final(self).settings() == old(self).settings(),
            final(self).has_provider_view() == old(self).has_provider_view(),
            final(self).completion_view() == match old(self).completion_view() {
                Some(s) => if session_ends(
                    buffer.text_view(),
                    buffer.cursor_view(),
                    s.trigger_start as nat,
                    s.trigger_row as nat,
                ) {
                    None
                } else {
                    Some(s)
                },
                None => None,
            },
    {
        self.dismiss_if_left(buffer);
    }

    /// A click toggles the clicked row's task box (when interactive tasks
    /// are on), else follows the wikilink under the click.
    fn on_click(&mut self, ctx: &mut HookContext, row: usize, col: usize) -> (outcome: HookOutcome)
        ensures
            final(self).settings() == old(self).settings(),
            *final(ctx).cursor_style == *old(ctx).cursor_style,
            *final(ctx).prompt == *old(ctx).prompt,
            *final(ctx).selection == *old(ctx).selection,
            ({
                let t = old(ctx).buffer.text_view();
                let r = toggle_with(t, row as nat, task_click_pairs());
                let w = link_at(t, row as nat, col as nat);
                if old(self).settings().interactive_tasks && row < line_count(t) && r is Some {
                    &&& outcome == HookOutcome::Consumed
                    &&& final(ctx).effects@ == old(ctx).effects@
                    &&& final(ctx).buffer.text_view() == r.unwrap().0
                    &&& final(ctx).buffer.cursor_view() == snapped(r.unwrap().0, old(ctx).buffer.cursor_view())
                } else if w is Some {
                    &&& outcome == HookOutcome::Consumed
                    &&& *final(ctx).buffer == *old(ctx).buffer
                    &&& final(ctx).effects@.len() == old(ctx).effects@.len() + 1
                    &&& final(ctx).effects@.drop_last() == old(ctx).effects@
                    &&& follows(final(ctx).effects@.last(), w.unwrap())
                } else {
                    &&& outcome == HookOutcome::PassThrough
                    &&& *final(ctx).buffer == *old(ctx).buffer
                    &&& final(ctx).effects@ == old(ctx).effects@
                }
            }),
    {
        if self.interactive_tasks() && toggle_marker_at_row(ctx.buffer, row) {
            return HookOutcome::Consumed;
        }
        if follow_wikilink_at(ctx.buffer, ctx.effects, row, col) {
            return HookOutcome::Consumed;
        }
        HookOutcome::PassThrough
    }

    /// The mode name shown in status bars.
    fn status_text(&self) -> (s: Option<&str>)
        ensures
            s matches Some(x) && x@ == "MARKDOWN"@,
    {
        Some("MARKDOWN")
    }
}

} // verus!
