//! The `[[` wikilink completion session: where a session opens, the query
//! it reads between its anchor and the cursor, how a keystroke steps it,
//! and the rows it keeps from a ranked candidate list.
use vstd::prelude::*;
use crate::buffer::{point_of_offset, EditorBuffer};
use crate::hook::{unmodified, KeyEvent, Modifiers};
use crate::prompt::PromptItem;
use crate::buffer::{insert_at, min_nat, remove_range};
use crate::rope_text::{char_of_byte, is_char_boundary, rope_byte_slice_string};
use crate::text::{byte_at, byte_len, str_chars, str_eq};

verus! {

/// Maximum rows kept per completion refresh.
pub const MAX_COMPLETION_ITEMS: usize = 8;

/// An in-progress `[[` completion: its anchor and ranked rows.
#[derive(Clone)]
pub struct CompletionSession {
    /// Buffer byte offset of the opening `[[`.
    pub trigger_start: usize,
    /// Buffer row of the anchor (sessions never span lines).
    pub trigger_row: usize,
    /// Ranked candidate rows.
    pub items: Vec<PromptItem>,
    /// Selected row index.
    pub selected: usize,
}

/// What one keystroke does to an open session.
#[derive(Debug, Clone, Copy, PartialEq, Eq, Structural)]
pub enum CompletionStep {
    /// The session ends and the key falls through to normal handling.
    Release,
    /// The session ends and the key is consumed (`Esc`).
    Dismiss,
    /// The selection moves to this row; the key is consumed.
    Select(usize),
    /// This row is accepted over the query; the key is consumed.
    Accept(usize),
    /// The character before the cursor is deleted and the rows re-ranked.
    Backspace,
    /// The character is inserted at the cursor and the rows re-ranked.
    Insert(char),
    /// The session stays open and the key falls through.
    PassThrough,
}

/// The text `cs` between byte offsets `a` and `b`, when both are character
/// boundaries in order within it.
pub open spec fn byte_slice(cs: Seq<char>, a: nat, b: nat) -> Option<Seq<char>> {
    if a <= b && b <= byte_len(cs) && is_char_boundary(cs, a) && is_char_boundary(cs, b) {
        Some(cs.subrange(char_of_byte(cs, a) as int, char_of_byte(cs, b) as int))
    } else {
        None
    }
}

/// Where typing a second `[` opens a session: the offset of the `[` right
/// before the cursor.
pub open spec fn trigger_spec(t: Seq<char>, cursor: nat) -> Option<nat> {
    if cursor > 0 && byte_slice(t, (cursor - 1) as nat, cursor) == Some(seq!['[']) {
        Some((cursor - 1) as nat)
    } else {
        None
    }
}

/// The live query of a session anchored at `ts` on row `trow`: the text
/// between the `[[` and the cursor, or `None` once edits broke the anchor
/// (the cursor left the row or moved before the query, the `[[` is gone).
pub open spec fn query_spec(t: Seq<char>, cursor: nat, ts: nat, trow: nat) -> Option<Seq<char>> {
    if cursor < ts + 2 || point_of_offset(t, cursor).0 != trow {
        None
    } else if byte_slice(t, ts, ts + 2) != Some(seq!['[', '[']) {
        None
    } else {
        byte_slice(t, ts + 2, cursor)
    }
}

/// The completable part of a query: its text up to any `|alias`.
pub open spec fn fragment_spec(q: Seq<char>) -> Seq<char>
    decreases q.len(),
{
    if q.len() == 0 {
        q
    } else if q[0] == '|' {
        Seq::empty()
    } else {
        seq![q[0]] + fragment_spec(q.skip(1))
    }
}

/// The step a key takes in a session with `n` rows and row `selected`
/// chosen; `live` says the anchor still holds, `room` that the cursor is
/// past the `[[`.
pub open spec fn completion_spec(n: nat, selected: nat, live: bool, room: bool, key: Seq<char>, m: Modifiers) -> CompletionStep {
    if !live {
        CompletionStep::Release
    } else if key == "escape"@ {
        CompletionStep::Dismiss
    } else if key == "up"@ && unmodified(m) {
        CompletionStep::Select(
            if n == 0 {
                selected as usize
            } else if selected == 0 {
                (n - 1) as usize
            } else {
                (selected - 1) as usize
            },
        )
    } else if key == "down"@ && unmodified(m) {
        CompletionStep::Select(if n == 0 { selected as usize } else { ((selected + 1) % n) as usize })
    } else if key == "enter"@ && !m.shift && unmodified(m) {
        if n > 0 { CompletionStep::Accept(selected as usize) } else { CompletionStep::Release }
    } else if key == "tab"@ && unmodified(m) {
        if n > 0 { CompletionStep::Accept(selected as usize) } else { CompletionStep::PassThrough }
    } else if key == "backspace"@ && unmodified(m) {
        if room { CompletionStep::Backspace } else { CompletionStep::Release }
    } else if key.len() == 1 && unmodified(m) {
        if key[0] == ']' { CompletionStep::Release } else { CompletionStep::Insert(key[0]) }
    } else {
        CompletionStep::PassThrough
    }
}

/// A session's row choice is one of its rows (or 0 with none).
pub open spec fn session_wf(s: &CompletionSession) -> bool {
    s.selected < s.items@.len() || (s.items@.len() == 0 && s.selected == 0)
}

fn slice_of(buffer: &EditorBuffer, a: usize, b: usize) -> (r: Option<String>)
    ensures
        match r {
            Some(s) => byte_slice(buffer.text_view(), a as nat, b as nat) == Some(s@),
            None => byte_slice(buffer.text_view(), a as nat, b as nat) is None,
        },
{
    let len = buffer.len_bytes();
    if a <= b && b <= len && buffer.is_char_boundary(a) && buffer.is_char_boundary(b) {
        Some(rope_byte_slice_string(buffer.text(), a, b))
    } else {
        None
    }
}

/// The offset of the `[` right before the cursor, where typing a second
/// `[` opens a session.
pub fn completion_trigger_at(buffer: &EditorBuffer) -> (r: Option<usize>)
    ensures
        match r {
            Some(o) => trigger_spec(buffer.text_view(), buffer.cursor_view()) == Some(o as nat),
            None => trigger_spec(buffer.text_view(), buffer.cursor_view()) is None,
        },
{
    let cursor = buffer.cursor_offset();
    if cursor == 0 {
        return None;
    }
    match slice_of(buffer, cursor - 1, cursor) {
        Some(s) => {
            proof {
                reveal_strlit("[");
                assert("["@ =~= seq!['[']);
            }
            if str_eq(s.as_str(), "[") {
                Some(cursor - 1)
            } else {
                None
            }
        },
        None => None,
    }
}

/// The live query between a session's `[[` and the cursor; `None` once
/// edits broke the anchor, and the session then ends.
pub fn completion_query(buffer: &EditorBuffer, session: &CompletionSession) -> (r: Option<String>)
    ensures
        match r {
            Some(q) => query_spec(
                buffer.text_view(),
                buffer.cursor_view(),
                session.trigger_start as nat,
                session.trigger_row as nat,
            ) == Some(q@),
            None => query_spec(
                buffer.text_view(),
                buffer.cursor_view(),
                session.trigger_start as nat,
                session.trigger_row as nat,
            ) is None,
        },
{
    let cursor = buffer.cursor_offset();
    let ts = session.trigger_start;
    if cursor < 2 || cursor - 2 < ts {
        return None;
    }
    if buffer.cursor_point().row != session.trigger_row {
        return None;
    }
    match slice_of(buffer, ts, ts + 2) {
        Some(s) => {
            proof {
                reveal_strlit("[[");
                assert("[["@ =~= seq!['[', '[']);
            }
            if !str_eq(s.as_str(), "[[") {
                return None;
            }
        },
        None => {
            return None;
        },
    }
    slice_of(buffer, ts + 2, cursor)
}

/// The completable part of a query: its text up to any `|alias`, which
/// stays as typed and is never sent to the provider.
pub fn completion_fragment(query: &str) -> (f: String)
    ensures
        f@ == fragment_spec(query@),
{
    let cs = str_chars(query);
    let n = cs.len();
    let mut i: usize = 0;
    proof {
        assert(cs@.skip(0) =~= cs@);
        assert(cs@.take(0) + fragment_spec(cs@) =~= fragment_spec(cs@));
    }
    while i < n && cs[i] != '|'
        invariant
            n == cs@.len(),
            i <= n,
            fragment_spec(cs@) == cs@.take(i as int) + fragment_spec(cs@.skip(i as int)),
        decreases n - i,
    {
        proof {
            let r = cs@.skip(i as int);
            assert(r[0] == cs@[i as int]);
            assert(r.skip(1) =~= cs@.skip(i + 1));
            assert(cs@.take(i + 1) =~= cs@.take(i as int) + seq![cs@[i as int]]);
            assert(cs@.take(i as int) + fragment_spec(r) =~= cs@.take(i + 1) + fragment_spec(cs@.skip(i + 1)));
        }
        i = i + 1;
    }
    proof {
        let r = cs@.skip(i as int);
        if i < n {
            assert(r[0] == '|');
        } else {
            assert(r.len() == 0);
        }
        assert(fragment_spec(r) =~= Seq::<char>::empty());
        assert(cs@.take(i as int) + fragment_spec(r) =~= cs@.take(i as int));
    }
    let kept = crate::text::slice_chars(&cs, 0, i);
    proof {
        assert(kept@ =~= cs@.take(i as int));
    }
    crate::text::chars_to_string(&kept)
}


/// How a keystroke steps an open session (see [`completion_spec`]): the
/// anchor is checked first, then `Esc`, `Up`/`Down`, `Enter`/`Tab`,
/// `Backspace` and typed characters.
pub fn completion_step(session: &CompletionSession, buffer: &EditorBuffer, event: &KeyEvent) -> (s: CompletionStep)
    ensures
        s == completion_spec(
            session.items@.len(),
            session.selected as nat,
            query_spec(
                buffer.text_view(),
                buffer.cursor_view(),
                session.trigger_start as nat,
                session.trigger_row as nat,
            ) is Some,
            buffer.cursor_view() > session.trigger_start + 2,
            event.key@,
            event.modifiers,
        ),
{
    let live = match completion_query(buffer, session) {
        Some(_) => true,
        None => false,
    };
    if !live {
        return CompletionStep::Release;
    }
    let n = session.items.len();
    let sel = session.selected;
    let m = event.modifiers;
    let key = event.key.as_str();
    let plain = !m.ctrl && !m.alt && !m.meta;
    if str_eq(key, "escape") {
        return CompletionStep::Dismiss;
    }
    if str_eq(key, "up") && plain {
        return CompletionStep::Select(
            if n == 0 {
                sel
            } else if sel == 0 {
                n - 1
            } else {
                sel - 1
            },
        );
    }
    if str_eq(key, "down") && plain {
        if n == 0 {
            return CompletionStep::Select(sel);
        }
        let r = sel % n;
        proof {
            if n > 1 {
                vstd::arithmetic::div_mod::lemma_small_mod(1, n as nat);
            }
            vstd::arithmetic::div_mod::lemma_add_mod_noop(sel as int, 1, n as int);
            vstd::arithmetic::div_mod::lemma_mod_self_0(n as int);
        }
        return CompletionStep::Select((r + 1) % n);
    }
    if str_eq(key, "enter") && !m.shift && plain {
        return if n > 0 { CompletionStep::Accept(sel) } else { CompletionStep::Release };
    }
    if str_eq(key, "tab") && plain {
        return if n > 0 { CompletionStep::Accept(sel) } else { CompletionStep::PassThrough };
    }
    if str_eq(key, "backspace") && plain {
        let cursor = buffer.cursor_offset();
        let room = cursor > 2 && cursor - 2 > session.trigger_start;
        return if room { CompletionStep::Backspace } else { CompletionStep::Release };
    }
    let cs = crate::hook::key_chars(event);
    if cs.len() == 1 && plain {
        return if cs[0] == ']' { CompletionStep::Release } else { CompletionStep::Insert(cs[0]) };
    }
    CompletionStep::PassThrough
}

/// Two rows with the same label and hint.
pub open spec fn same_item(a: PromptItem, b: PromptItem) -> bool {
    a.label@ == b.label@ && match (a.hint, b.hint) {
        (Some(x), Some(y)) => x@ == y@,
        (None, None) => true,
        _ => false,
    }
}

/// `item` is a row of `candidates` whose label matches `q`.
pub open spec fn matching_candidate(item: PromptItem, candidates: Seq<PromptItem>, q: Seq<char>) -> bool {
    exists|j: int|
        0 <= j < candidates.len() && same_item(item, #[trigger] candidates[j])
            && crate::prompt::fuzzy_spec(candidates[j].label@, q) is Some
}

fn copy_item(c: &PromptItem) -> (r: PromptItem)
    ensures
        same_item(r, *c),
{
    match &c.hint {
        Some(h) => PromptItem::with_hint(c.label.as_str(), h.as_str()),
        None => PromptItem::new(c.label.as_str()),
    }
}

/// The rows a session keeps from `candidates` ranked as `ranked`: the
/// candidates of the first [`MAX_COMPLETION_ITEMS`] entries, in order.
pub fn kept_rows(candidates: &Vec<PromptItem>, ranked: &Vec<(usize, i64)>) -> (rows: Vec<PromptItem>)
    requires
        forall|k: int| 0 <= k < ranked@.len() ==> (#[trigger] ranked@[k]).0 < candidates@.len(),
    ensures
        rows@.len() == if ranked@.len() < MAX_COMPLETION_ITEMS { ranked@.len() } else { MAX_COMPLETION_ITEMS as nat },
        forall|k: int| 0 <= k < rows@.len() ==> same_item(#[trigger] rows@[k], candidates@[ranked@[k].0 as int]),
{
    let mut rows: Vec<PromptItem> = Vec::new();
    let mut k: usize = 0;
    while k < ranked.len() && k < MAX_COMPLETION_ITEMS
        invariant
            forall|j: int| 0 <= j < ranked@.len() ==> (#[trigger] ranked@[j]).0 < candidates@.len(),
            k <= ranked@.len(),
            k <= MAX_COMPLETION_ITEMS,
            rows@.len() == k,
            forall|j: int| 0 <= j < k ==> same_item(#[trigger] rows@[j], candidates@[ranked@[j].0 as int]),
        decreases ranked@.len() - k,
    {
        proof {
            assert(ranked@[k as int].0 < candidates@.len());
        }
        let c = copy_item(&candidates[ranked[k].0]);
        rows.push(c);
        k = k + 1;
    }
    rows
}

/// A selection kept within `n` rows: the last row when it ran past them.
pub fn clamp_selection(selected: usize, n: usize) -> (r: usize)
    ensures
        r == if n == 0 { 0 } else if selected < n { selected } else { (n - 1) as usize },
{
    if n == 0 {
        0
    } else if selected < n {
        selected
    } else {
        n - 1
    }
}

/// Re-ranks a session's rows from the provider's `candidates` for `query`
/// (its completable fragment): the best matches first, at most
/// [`MAX_COMPLETION_ITEMS`] of them, each a candidate whose label matches,
/// with the selection kept within them.
pub fn refresh_session(session: &mut CompletionSession, candidates: &Vec<PromptItem>, query: &str)
    ensures
        final(session).trigger_start == old(session).trigger_start,
        final(session).trigger_row == old(session).trigger_row,
        final(session).items@.len() <= MAX_COMPLETION_ITEMS,
        session_wf(&*final(session)),
        final(session).selected == if final(session).items@.len() == 0 {
            0
        } else if old(session).selected < final(session).items@.len() {
            old(session).selected
        } else {
            (final(session).items@.len() - 1) as usize
        },
        forall|k: int|
            0 <= k < final(session).items@.len() ==> matching_candidate(
                #[trigger] final(session).items@[k],
                candidates@,
                fragment_spec(query@),
            ),
{
    let frag = completion_fragment(query);
    let ranked = crate::prompt::fuzzy_filter(candidates.as_slice(), frag.as_str());
    proof {
        assert forall|k: int| 0 <= k < ranked@.len() implies (#[trigger] ranked@[k]).0 < candidates@.len() by {
            assert(ranked@.contains(ranked@[k]));
        }
    }
    let rows = kept_rows(candidates, &ranked);
    proof {
        assert forall|k: int| 0 <= k < rows@.len() implies matching_candidate(
            #[trigger] rows@[k],
            candidates@,
            fragment_spec(query@),
        ) by {
            assert(ranked@.contains(ranked@[k]));
            let j = ranked@[k].0 as int;
            assert(same_item(rows@[k], candidates@[j]));
        }
    }
    let n = rows.len();
    let ghost rv = rows@;
    session.items = rows;
    session.selected = clamp_selection(session.selected, n);
    proof {
        assert(session.items@ == rv);
    }
}


/// The first index from `i` on where `q` holds a `|`.
pub open spec fn bar_at(q: Seq<char>, i: nat) -> Option<nat>
    decreases q.len() - i,
{
    if i >= q.len() {
        None
    } else if q[i as int] == '|' {
        Some(i)
    } else {
        bar_at(q, i + 1)
    }
}

/// The offset a cursor moved to `o` lands on: the start of the character
/// holding `o`, within the text.
pub open spec fn snapped(t: Seq<char>, o: nat) -> nat {
    byte_at(t, char_of_byte(t, min_nat(o, byte_len(t))) as int)
}

/// The text and cursor after accepting `label` in the session anchored at
/// `ts`: the label replaces the query up to any `|alias` (which stays),
/// `]]` follows the alias unless it is already there, and the cursor sits
/// after the label. `None` when the query cannot be read.
pub open spec fn accepted(t: Seq<char>, cursor: nat, ts: nat, label: Seq<char>) -> Option<(Seq<char>, nat)> {
    let qs = ts + 2;
    if cursor < qs {
        None
    } else {
        match byte_slice(t, qs, cursor) {
            None => None,
            Some(q) => {
                let re = match bar_at(q, 0) {
                    Some(k) => qs + byte_at(q, k as int),
                    None => cursor,
                };
                let cq = char_of_byte(t, qs);
                let t1 = if qs == re {
                    insert_at(t, cq, label)
                } else {
                    insert_at(remove_range(t, cq, char_of_byte(t, re)), cq, label)
                };
                let le = qs + byte_len(label);
                let se = (le + (cursor - re)) as nat;
                let t2 = if byte_slice(t1, se, se + 2) == Some(seq![']', ']']) {
                    t1
                } else {
                    insert_at(t1, char_of_byte(t1, snapped(t1, se)), seq![']', ']'])
                };
                Some((t2, snapped(t2, le)))
            },
        }
    }
}

proof fn lemma_byte_at_split(t: Seq<char>, a: int, b: int, k: int)
    requires
        0 <= a <= b <= t.len(),
        0 <= k <= b - a,
    ensures
        byte_at(t, a + k) == byte_at(t, a) + byte_at(t.subrange(a, b), k),
{
    let sub = t.subrange(a, b);
    assert(t.take(a + k) =~= t.take(a) + sub.take(k));
    crate::text::lemma_byte_len_concat(t.take(a), sub.take(k));
}

proof fn lemma_snapped_le(t: Seq<char>, o: nat)
    ensures
        snapped(t, o) <= byte_len(t),
{
    let b = min_nat(o, byte_len(t));
    crate::rope_text::lemma_chars_before(t, b, t.len());
    crate::text::lemma_byte_at_mono(t, char_of_byte(t, b) as int, t.len() as int);
    crate::text::lemma_byte_at_len(t);
}


proof fn lemma_splice_len(t: Seq<char>, a: nat, b: nat, s: Seq<char>)
    requires
        a <= b <= t.len(),
    ensures
        byte_len(insert_at(remove_range(t, a, b), a, s)) <= byte_len(t) + byte_len(s),
        byte_len(insert_at(t, a, s)) == byte_len(t) + byte_len(s),
{
    let r = remove_range(t, a, b);
    assert(r.take(a as int) =~= t.take(a as int));
    assert(r.skip(a as int) =~= t.skip(b as int));
    crate::text::lemma_byte_len_concat(t.take(a as int), s);
    crate::text::lemma_byte_len_concat(t.take(a as int) + s, t.skip(b as int));
    crate::text::lemma_byte_len_concat(t.take(a as int) + s, t.skip(a as int));
    crate::text::lemma_byte_len_concat(t.take(b as int), t.skip(b as int));
    crate::text::lemma_byte_len_concat(t.take(a as int), t.skip(a as int));
    assert(t.take(b as int) + t.skip(b as int) =~= t);
    assert(t.take(a as int) + t.skip(a as int) =~= t);
    crate::text::lemma_byte_at_mono(t, a as int, b as int);
}

/// Accepts `label` for the session anchored at `trigger_start` (see
/// [`accepted`]); returns whether the query could be read and the label
/// went in.
#[verifier::rlimit(80)]
pub fn accept_completion(buffer: &mut EditorBuffer, trigger_start: usize, label: &str) -> (ok: bool)
    requires
        byte_len(old(buffer).text_view()) + byte_len(label@) + 2 <= usize::MAX,
    ensures
        match accepted(old(buffer).text_view(), old(buffer).cursor_view(), trigger_start as nat, label@) {
            None => !ok && *final(buffer) == *old(buffer),
            Some(r) => ok && final(buffer).text_view() == r.0 && final(buffer).cursor_view() == r.1,
        },
{
    let ghost t = buffer.text_view();
    let cursor = buffer.cursor_offset();
    if cursor < 2 || cursor - 2 < trigger_start {
        return false;
    }
    let qs = trigger_start + 2;
    let q = match slice_of(buffer, qs, cursor) {
        Some(q) => q,
        None => {
            return false;
        },
    };
    let qc = str_chars(q.as_str());
    let n = qc.len();
    let mut k: usize = 0;
    while k < n && qc[k] != '|'
        invariant
            n == qc@.len(),
            k <= n,
            bar_at(qc@, k as nat) == bar_at(qc@, 0),
        decreases n - k,
    {
        k = k + 1;
    }
    let ghost cq = char_of_byte(t, qs as nat);
    let ghost cc = char_of_byte(t, cursor as nat);
    proof {
        crate::buffer::lemma_boundary(t, qs as nat);
        crate::buffer::lemma_boundary(t, cursor as nat);
        if cq > cc {
            crate::text::lemma_byte_at_mono(t, cc as int, cq as int);
        }
        crate::rope_text::lemma_byte_len_subrange(t, cq as int, cc as int);
    }
    let re = if k < n {
        let offs = crate::text::char_offsets(&qc);
        proof {
            lemma_byte_at_split(t, cq as int, cc as int, k as int);
            crate::text::lemma_byte_at_mono(qc@, k as int, n as int);
            crate::text::lemma_byte_at_len(qc@);
            assert(is_char_boundary(t, (qs + offs@[k as int]) as nat)) by {
                assert(byte_at(t, cq + k) == qs + offs@[k as int]);
            }
        }
        qs + offs[k]
    } else {
        cursor
    };
    let suffix = cursor - re;
    proof {
        reveal_strlit("]]");
        assert("]]"@ =~= seq![']', ']']);
        crate::buffer::lemma_boundary(t, re as nat);
        let cre = char_of_byte(t, re as nat);
        if cq > cre {
            crate::markdown::highlight::lemma_byte_at_gap(t, cre as int, cq as int);
        }
        lemma_splice_len(t, cq, cre, label@);
        if re != qs {
            crate::text::lemma_byte_at_mono(t, cq as int, char_of_byte(t, re as nat) as int);
        }
    }
    buffer.replace_range(qs..re, label);
    proof {
        let cre = char_of_byte(t, re as nat);
        let t1 = buffer.text_view();
        assert(byte_len(t1) <= byte_len(t) + byte_len(label@));
        assert(seq![']', ']'].drop_last() =~= seq![']']);
        assert(seq![']'].drop_last() =~= Seq::<char>::empty());
        assert(byte_len(Seq::<char>::empty()) == 0);
        assert(seq![']'].last() == ']');
        assert(byte_len(seq![']']) == 1);
        assert(seq![']', ']'].last() == ']');
        assert(byte_len(seq![']', ']']) == 2);
    }
    let le = qs + crate::text::str_byte_len(label);
    let se = le + suffix;
    let close = match slice_of(buffer, se, se + 2) {
        Some(sl) => {
            proof {
                reveal_strlit("]]");
                assert("]]"@ =~= seq![']', ']']);
            }
            str_eq(sl.as_str(), "]]")
        },
        None => false,
    };
    if !close {
        buffer.set_cursor_offset(se);
        proof {
            lemma_snapped_le(buffer.text_view(), se as nat);
        }
        buffer.insert("]]");
    }
    buffer.set_cursor_offset(le);
    true
}


/// The host's callback supplying wikilink completion candidates for a
/// query. Its contents are the host's code and stay hidden.
#[verifier::external_body]
pub struct CompletionProvider {
    f: std::sync::Arc<dyn Fn(&str) -> Vec<PromptItem> + Send + Sync>,
}

/// Wraps a host callback as a provider.
#[verifier::external_body]
fn make_provider<F: Fn(&str) -> Vec<PromptItem> + Send + Sync + 'static>(f: std::sync::Arc<F>) -> (p: CompletionProvider) {
    CompletionProvider { f }
}

/// Calls the host's provider on a query. Nothing is stated of the rows it
/// returns: they are whatever the host's code yields.
#[verifier::external_body]
fn call_provider(p: &CompletionProvider, query: &str) -> (items: Vec<PromptItem>) {
    (p.f)(query)
}

/// The rows and selection an open session shows.
pub struct CompletionSnapshot {
    /// The ranked rows.
    pub items: Vec<PromptItem>,
    /// The selected row.
    pub selected: usize,
}

/// A provider built from a host callback.
pub fn provider_of<F: Fn(&str) -> Vec<PromptItem> + Send + Sync + 'static>(f: std::sync::Arc<F>) -> (p: CompletionProvider) {
    make_provider(f)
}

/// Asks the provider for the candidates of `query` (its completable
/// fragment) and re-ranks the session's rows from them.
pub fn refresh_from_provider(session: &mut CompletionSession, provider: &CompletionProvider, query: &str)
    ensures
        final(session).trigger_start == old(session).trigger_start,
        final(session).trigger_row == old(session).trigger_row,
        final(session).items@.len() <= MAX_COMPLETION_ITEMS,
        session_wf(&*final(session)),
        final(session).selected == if final(session).items@.len() == 0 {
            0
        } else if old(session).selected < final(session).items@.len() {
            old(session).selected
        } else {
            (final(session).items@.len() - 1) as usize
        },
{
    let frag = completion_fragment(query);
    let candidates = call_provider(provider, frag.as_str());
    refresh_session(session, &candidates, frag.as_str());
}

/// The items a snapshot copies, row for row.
pub open spec fn same_rows(a: Seq<PromptItem>, b: Seq<PromptItem>) -> bool {
    a.len() == b.len() && forall|k: int| 0 <= k < a.len() ==> same_item(#[trigger] a[k], b[k])
}

/// A copy of a session's rows and selection.
pub fn snapshot_of(s: &CompletionSession) -> (r: CompletionSnapshot)
    ensures
        same_rows(r.items@, s.items@),
        r.selected == s.selected,
{
    let mut items: Vec<PromptItem> = Vec::new();
    let mut k: usize = 0;
    while k < s.items.len()
        invariant
            k <= s.items@.len(),
            items@.len() == k,
            forall|j: int| 0 <= j < k ==> same_item(#[trigger] items@[j], s.items@[j]),
        decreases s.items@.len() - k,
    {
        items.push(copy_item(&s.items[k]));
        k = k + 1;
    }
    CompletionSnapshot { items, selected: s.selected }
}

/// `x` holds `]]` at index `k`.
pub open spec fn closes_at(x: Seq<char>, k: int) -> bool {
    0 <= k && k + 1 < x.len() && x[k] == ']' && x[k + 1] == ']'
}

/// A session ends once the cursor leaves its row, moves before its `[[`,
/// or the text since the `[[` can no longer be read or holds `]]` or a
/// line feed.
pub open spec fn session_ends(t: Seq<char>, cursor: nat, ts: nat, trow: nat) -> bool {
    point_of_offset(t, cursor).0 != trow || cursor < ts || match byte_slice(t, ts, cursor) {
        None => true,
        Some(x) => x.contains('\n') || exists|k: int| #[trigger] closes_at(x, k),
    }
}

/// Whether a session anchored at `ts` on row `trow` ends with the cursor
/// where it is now (see [`session_ends`]).
pub fn session_ended(buffer: &EditorBuffer, ts: usize, trow: usize) -> (b: bool)
    ensures
        b == session_ends(buffer.text_view(), buffer.cursor_view(), ts as nat, trow as nat),
{
    let cursor = buffer.cursor_offset();
    if buffer.cursor_point().row != trow || cursor < ts {
        return true;
    }
    let x = match slice_of(buffer, ts, cursor) {
        Some(x) => str_chars(x.as_str()),
        None => {
            return true;
        },
    };
    let n = x.len();
    let mut k: usize = 0;
    while k < n
        invariant
            n == x@.len(),
            k <= n,
            cursor == buffer.cursor_view(),
            point_of_offset(buffer.text_view(), cursor as nat).0 == trow,
            cursor >= ts,
            byte_slice(buffer.text_view(), ts as nat, cursor as nat) == Some(x@),
            forall|j: int| 0 <= j < k ==> x@[j] != '\n',
            forall|j: int| 0 <= j < k ==> !#[trigger] closes_at(x@, j),
        decreases n - k,
    {
        if x[k] == '\n' {
            proof {
                assert(x@.contains('\n'));
            }
            return true;
        }
        if k + 1 < n && x[k] == ']' && x[k + 1] == ']' {
            proof {
                assert(closes_at(x@, k as int));
            }
            return true;
        }
        k = k + 1;
    }
    proof {
        assert forall|j: int| !#[trigger] closes_at(x@, j) by {
            if 0 <= j < n {
                assert(!closes_at(x@, j));
            }
        }
    }
    false
}


/// The text between a `[[` at `ts` and the cursor, or nothing when it
/// cannot be read.
pub fn query_after(buffer: &EditorBuffer, ts: usize) -> (q: String)
    ensures
        q@ == match byte_slice(buffer.text_view(), ts as nat + 2, buffer.cursor_view()) {
            Some(x) => x,
            None => Seq::empty(),
        },
{
    let cursor = buffer.cursor_offset();
    if ts > usize::MAX - 2 {
        proof {
            assert(buffer.cursor_view() == cursor);
        }
        return String::new();
    }
    match slice_of(buffer, ts + 2, cursor) {
        Some(x) => x,
        None => String::new(),
    }
}

} // verus!
