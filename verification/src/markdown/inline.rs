//! Inline Markdown highlighting of one line: emphasis, strikethrough, code
//! spans, links and task markers from the CommonMark parse, then `==mark==`
//! pairs and wikilinks, each concealing its delimiters unless the cursor
//! sits inside it.
use vstd::prelude::*;
use pulldown_cmark::{Options, Parser, Tag, TagEnd};
use pulldown_cmark::Event::{Code, End, Start, TaskListMarker};
use InlineEvent::{
    CodeSpan, EmphasisEnd, EmphasisStart, LinkEnd, LinkStart, Other, StrikeEnd, StrikeStart, StrongEnd,
    StrongStart, TaskMarker,
};
use crate::markdown::links::{boundary, char_at, char_index_at, link_label, link_label_exec};
use crate::syntax::{HighlightTag, StyleSpan, StyleValue, TextStyle};
use crate::text::{byte_at, byte_len, char_offsets, str_chars};

verus! {

/// A CommonMark parser event as inline highlighting reads it, with the
/// byte offsets of its source range.
pub enum InlineEvent {
    /// `Start(Strong)` at this offset.
    StrongStart(usize),
    /// `End(Strong)`; its source ends at this offset.
    StrongEnd(usize),
    /// `Start(Emphasis)` at this offset.
    EmphasisStart(usize),
    /// `End(Emphasis)`; its source ends at this offset.
    EmphasisEnd(usize),
    /// `Start(Strikethrough)` at this offset.
    StrikeStart(usize),
    /// `End(Strikethrough)`; its source ends at this offset.
    StrikeEnd(usize),
    /// A code span starting at this offset, with the byte length of its text.
    CodeSpan(usize, usize),
    /// `Start(Link)` at this offset.
    LinkStart(usize),
    /// `End(Link)`; its source ends at this offset.
    LinkEnd(usize),
    /// A task list marker over this range, checked or not.
    TaskMarker(usize, usize, bool),
    /// Any other event.
    Other,
}

/// [`InlineEvent`] over mathematical integers.
pub enum InlineEventView {
    StrongStart(nat),
    StrongEnd(nat),
    EmphasisStart(nat),
    EmphasisEnd(nat),
    StrikeStart(nat),
    StrikeEnd(nat),
    Code(nat, nat),
    LinkStart(nat),
    LinkEnd(nat),
    TaskMarker(nat, nat, bool),
    Other,
}

impl View for InlineEvent {
    type V = InlineEventView;

    open spec fn view(&self) -> InlineEventView {
        match self {
            InlineEvent::StrongStart(s) => InlineEventView::StrongStart(*s as nat),
            InlineEvent::StrongEnd(e) => InlineEventView::StrongEnd(*e as nat),
            InlineEvent::EmphasisStart(s) => InlineEventView::EmphasisStart(*s as nat),
            InlineEvent::EmphasisEnd(e) => InlineEventView::EmphasisEnd(*e as nat),
            InlineEvent::StrikeStart(s) => InlineEventView::StrikeStart(*s as nat),
            InlineEvent::StrikeEnd(e) => InlineEventView::StrikeEnd(*e as nat),
            InlineEvent::CodeSpan(s, l) => InlineEventView::Code(*s as nat, *l as nat),
            InlineEvent::LinkStart(s) => InlineEventView::LinkStart(*s as nat),
            InlineEvent::LinkEnd(e) => InlineEventView::LinkEnd(*e as nat),
            InlineEvent::TaskMarker(s, e, c) => InlineEventView::TaskMarker(*s as nat, *e as nat, *c),
            InlineEvent::Other => InlineEventView::Other,
        }
    }
}

/// The inline events pulldown-cmark reports for `line`, with
/// strikethrough, task lists and tables enabled.
pub uninterp spec fn cmark_inline_events(line: Seq<char>) -> Seq<InlineEventView>;

/// `pulldown_cmark::Parser::new_ext` over `line` (strikethrough, task
/// lists and tables on) walked with `into_offset_iter`, each event mapped
/// to its [`InlineEvent`]. The sequence is named, not stated: it is
/// whatever the parser reports for the line.
#[verifier::external_body]
fn inline_events(line: &str) -> (evs: Vec<InlineEvent>)
    ensures
        evs@.map_values(|e: InlineEvent| e@) == cmark_inline_events(line@),
{
    Parser::new_ext(line, Options::ENABLE_STRIKETHROUGH | Options::ENABLE_TASKLISTS | Options::ENABLE_TABLES)
        .into_offset_iter().map(|(e, r)| match e {
        Start(Tag::Strong) => StrongStart(r.start),
        End(TagEnd::Strong) => StrongEnd(r.end),
        Start(Tag::Emphasis) => EmphasisStart(r.start),
        End(TagEnd::Emphasis) => EmphasisEnd(r.end),
        Start(Tag::Strikethrough) => StrikeStart(r.start),
        End(TagEnd::Strikethrough) => StrikeEnd(r.end),
        Code(x) => CodeSpan(r.start, x.len()),
        Start(Tag::Link { .. }) => LinkStart(r.start),
        End(TagEnd::Link) => LinkEnd(r.end),
        TaskListMarker(c) => TaskMarker(r.start, r.end, c),
        _ => Other,
    }).collect()
}

/// A style span as its byte range and style.
pub open spec fn span_view(s: StyleSpan) -> (nat, nat, StyleValue) {
    (s.range.start as nat, s.range.end as nat, s.style)
}

/// Style spans as byte ranges and styles.
pub open spec fn spans_view(v: Seq<StyleSpan>) -> Seq<(nat, nat, StyleValue)> {
    v.map_values(|s: StyleSpan| span_view(s))
}

/// A span of the semantic tag `t`.
pub open spec fn tagged(s: nat, e: nat, t: HighlightTag) -> (nat, nat, StyleValue) {
    (s, e, StyleValue::Tag(t))
}

/// The cursor sits inside `s..e` (the end is exclusive).
pub open spec fn cursor_inside(cursor: Option<usize>, s: nat, e: nat) -> bool {
    cursor matches Some(c) && s <= c && c < e
}

/// The strikethrough style.
pub open spec fn strike_style() -> StyleValue {
    StyleValue::Direct(
        TextStyle {
            color: None,
            background: None,
            bold: false,
            italic: false,
            underline: None,
            strikethrough: true,
        },
    )
}

/// A construct over `s..e` with delimiters `w` bytes wide: its delimiters
/// concealed with `delim` and the inside styled `inner`, unless the cursor
/// is inside, the construct is too short, or nothing conceals; then the
/// whole range styled `inner`.
pub open spec fn delimited(
    s: nat,
    e: nat,
    w: nat,
    inner: StyleValue,
    cursor: Option<usize>,
    delim: Option<HighlightTag>,
) -> Seq<(nat, nat, StyleValue)> {
    if !cursor_inside(cursor, s, e) && e >= s + 2 * w && delim is Some {
        seq![tagged(s, s + w, delim->0), (s + w, (e - w) as nat, inner), tagged((e - w) as nat, e, delim->0)]
    } else {
        seq![(s, e, inner)]
    }
}

/// The spans a closed link over `s..e` gets: its brackets (or angle
/// brackets) and destination concealed around a `Link` label, unless the
/// cursor is inside, nothing conceals, or no label stands apart.
pub open spec fn link_spans(
    cs: Seq<char>,
    s: nat,
    e: nat,
    cursor: Option<usize>,
    delim: Option<HighlightTag>,
) -> Seq<(nat, nat, StyleValue)> {
    if !cursor_inside(cursor, s, e) && delim is Some && boundary(cs, s) && boundary(cs, e) {
        let l = link_label(cs.subrange(char_at(cs, s) as int, char_at(cs, e) as int), s, e);
        if l == (s, e) {
            seq![tagged(s, e, HighlightTag::Link)]
        } else {
            seq![tagged(s, l.0, delim->0), tagged(l.0, l.1, HighlightTag::Link), tagged(l.1, e, delim->0)]
        }
    } else {
        seq![tagged(s, e, HighlightTag::Link)]
    }
}

/// The smaller of `a` and `b`.
pub open spec fn min_of(a: nat, b: nat) -> nat {
    if a < b { a } else { b }
}

/// The constructs still open while walking the events: where the
/// innermost strong, emphasis, strikethrough and link started.
pub type OpenAt = (Option<nat>, Option<nat>, Option<nat>, Option<nat>);

/// The spans the events from `k` on produce over the line `cs`, given the
/// constructs open so far. A construct closes against the start seen last
/// and spans up to its end (capped at the line's length), when that is
/// past its start.
pub open spec fn event_spans(
    cs: Seq<char>,
    cursor: Option<usize>,
    delim: Option<HighlightTag>,
    evs: Seq<InlineEventView>,
    k: nat,
    open: OpenAt,
) -> Seq<(nat, nat, StyleValue)>
    decreases evs.len() - k,
{
    if k >= evs.len() {
        Seq::empty()
    } else {
        let len = byte_len(cs);
        let next = k + 1;
        match evs[k as int] {
            InlineEventView::StrongStart(s) => event_spans(cs, cursor, delim, evs, next, (Some(s), open.1, open.2, open.3)),
            InlineEventView::StrongEnd(e0) => {
                let rest = event_spans(cs, cursor, delim, evs, next, (None, open.1, open.2, open.3));
                match open.0 {
                    Some(s) => {
                        let e = min_of(e0, len);
                        if s < e {
                            delimited(s, e, 2, StyleValue::Tag(HighlightTag::Bold), cursor, delim) + rest
                        } else {
                            rest
                        }
                    },
                    None => rest,
                }
            },
            InlineEventView::EmphasisStart(s) => event_spans(cs, cursor, delim, evs, next, (open.0, Some(s), open.2, open.3)),
            InlineEventView::EmphasisEnd(e0) => {
                let rest = event_spans(cs, cursor, delim, evs, next, (open.0, None, open.2, open.3));
                match open.1 {
                    Some(s) => {
                        let e = min_of(e0, len);
                        if s < e {
                            delimited(s, e, 1, StyleValue::Tag(HighlightTag::Italic), cursor, delim) + rest
                        } else {
                            rest
                        }
                    },
                    None => rest,
                }
            },
            InlineEventView::StrikeStart(s) => event_spans(cs, cursor, delim, evs, next, (open.0, open.1, Some(s), open.3)),
            InlineEventView::StrikeEnd(e0) => {
                let rest = event_spans(cs, cursor, delim, evs, next, (open.0, open.1, None, open.3));
                match open.2 {
                    Some(s) => {
                        let e = min_of(e0, len);
                        if s < e {
                            delimited(s, e, 2, strike_style(), cursor, delim) + rest
                        } else {
                            rest
                        }
                    },
                    None => rest,
                }
            },
            InlineEventView::Code(s, l) => delimited(
                s,
                min_of(s + l + 2, len),
                1,
                StyleValue::Tag(HighlightTag::Code),
                cursor,
                delim,
            ) + event_spans(cs, cursor, delim, evs, next, open),
            InlineEventView::LinkStart(s) => event_spans(cs, cursor, delim, evs, next, (open.0, open.1, open.2, Some(s))),
            InlineEventView::LinkEnd(e0) => {
                let rest = event_spans(cs, cursor, delim, evs, next, (open.0, open.1, open.2, None));
                match open.3 {
                    Some(s) => {
                        let e = min_of(e0, len);
                        if s < e {
                            link_spans(cs, s, e, cursor, delim) + rest
                        } else {
                            rest
                        }
                    },
                    None => rest,
                }
            },
            InlineEventView::TaskMarker(s, e, checked) => seq![tagged(
                s,
                e,
                if checked { HighlightTag::String } else { HighlightTag::Comment },
            )] + event_spans(cs, cursor, delim, evs, next, open),
            InlineEventView::Other => event_spans(cs, cursor, delim, evs, next, open),
        }
    }
}


/// ASCII whitespace: space, tab, line feed, form feed, carriage return.
pub open spec fn ascii_ws(c: char) -> bool {
    c == ' ' || c == '\t' || c == '\n' || c == '\x0C' || c == '\r'
}

/// The first `==` at character index `i` or later that can open
/// (`opening`: not followed by whitespace or a third `=`) or close (not
/// preceded by whitespace or `=`) a mark.
pub open spec fn find_mark(cs: Seq<char>, i: nat, opening: bool) -> Option<nat>
    decreases cs.len() - i,
{
    if i + 1 < cs.len() {
        if cs[i as int] == '=' && cs[i + 1 as int] == '=' {
            let adj: int = if opening {
                i + 2 as int
            } else if i >= 1 {
                i - 1 as int
            } else {
                0
            };
            if adj >= cs.len() || (!ascii_ws(cs[adj]) && cs[adj] != '=') {
                Some(i)
            } else {
                find_mark(cs, i + 1, opening)
            }
        } else {
            find_mark(cs, i + 1, opening)
        }
    } else {
        None
    }
}

/// A found `==` lies at or after where the search began, with its second
/// `=` inside the line.
pub proof fn lemma_find_mark(cs: Seq<char>, i: nat, opening: bool)
    ensures
        find_mark(cs, i, opening) matches Some(j) ==> i <= j && j + 1 < cs.len() && cs[j as int]
            == '=' && cs[j + 1 as int] == '=',
    decreases cs.len() - i,
{
    if i + 1 < cs.len() {
        lemma_find_mark(cs, i + 1, opening);
    }
}

/// Code, concealed and dimmed spans, which a mark or wikilink must not
/// cross.
pub open spec fn reserved_style(v: StyleValue) -> bool {
    v == StyleValue::Tag(HighlightTag::Code) || v == StyleValue::Tag(HighlightTag::Hidden) || v
        == StyleValue::Tag(HighlightTag::Dimmed)
}

/// Some span of `acc` with a reserved style meets bytes `s..e`.
pub open spec fn overlaps_reserved(acc: Seq<(nat, nat, StyleValue)>, s: nat, e: nat) -> bool {
    exists|j: int| 0 <= j < acc.len() && reserved_style((#[trigger] acc[j]).2) && acc[j].0 < e && s < acc[j].1
}

/// Some `Link` span of `acc` meets bytes `s..e`.
pub open spec fn overlaps_link(acc: Seq<(nat, nat, StyleValue)>, s: nat, e: nat) -> bool {
    exists|j: int| 0 <= j < acc.len() && (#[trigger] acc[j]).2 == StyleValue::Tag(HighlightTag::Link) && acc[j].0
        < e && s < acc[j].1
}

/// The spans `acc` with the `==mark==` pairs found from character `from`
/// on added: a pair with no content, or meeting a reserved span, stays
/// literal and the opener search resumes one character later.
pub open spec fn mark_pass(
    cs: Seq<char>,
    cursor: Option<usize>,
    delim: Option<HighlightTag>,
    acc: Seq<(nat, nat, StyleValue)>,
    from: nat,
) -> Seq<(nat, nat, StyleValue)>
    decreases cs.len() - from,
{
    if from + 1 < cs.len() {
        proof {
            lemma_find_mark(cs, from, true);
        }
        match find_mark(cs, from, true) {
            None => acc,
            Some(open) => {
                proof {
                    lemma_find_mark(cs, open + 2, false);
                }
                match find_mark(cs, open + 2, false) {
                    None => acc,
                    Some(close) => {
                        let bo = byte_at(cs, open as int);
                        let be = byte_at(cs, close + 2 as int);
                        if close == open + 2 || overlaps_reserved(acc, bo, be) {
                            mark_pass(cs, cursor, delim, acc, open + 1)
                        } else {
                            mark_pass(
                                cs,
                                cursor,
                                delim,
                                acc + delimited(bo, be, 2, StyleValue::Tag(HighlightTag::Highlight), cursor, delim),
                                close + 2,
                            )
                        }
                    },
                }
            },
        }
    } else {
        acc
    }
}

/// The spans a wikilink over bytes `s..e` with its label at `ds..de`
/// adds: the label as a link with the rest concealed, or the whole as a
/// link when the cursor is inside or nothing conceals.
pub open spec fn wikilink_spans(
    s: nat,
    e: nat,
    ds: nat,
    de: nat,
    cursor: Option<usize>,
    delim: Option<HighlightTag>,
) -> Seq<(nat, nat, StyleValue)> {
    if cursor_inside(cursor, s, e) || delim is None {
        seq![tagged(s, e, HighlightTag::Link)]
    } else {
        (if ds > s { seq![tagged(s, ds, delim->0)] } else { Seq::empty() }) + seq![tagged(ds, de, HighlightTag::Link)]
            + (if de < e { seq![tagged(de, e, delim->0)] } else { Seq::empty() })
    }
}

/// The spans `acc` with the wikilinks `ws[k..]` of the line `cs` added,
/// each unless it meets a link or reserved span already there.
pub open spec fn wiki_pass(
    cs: Seq<char>,
    cursor: Option<usize>,
    delim: Option<HighlightTag>,
    ws: Seq<crate::markdown::links::WikiSpan>,
    k: nat,
    acc: Seq<(nat, nat, StyleValue)>,
) -> Seq<(nat, nat, StyleValue)>
    decreases ws.len() - k,
{
    if k >= ws.len() {
        acc
    } else {
        let w = ws[k as int];
        let s = byte_at(cs, w.full.0 as int);
        let e = byte_at(cs, w.full.1 as int);
        let next = if overlaps_link(acc, s, e) || overlaps_reserved(acc, s, e) {
            acc
        } else {
            acc + wikilink_spans(
                s,
                e,
                byte_at(cs, w.display.0 as int),
                byte_at(cs, w.display.1 as int),
                cursor,
                delim,
            )
        };
        wiki_pass(cs, cursor, delim, ws, k + 1, next)
    }
}

/// The spans inline highlighting leaves, starting from `acc`, for the line
/// `cs` with the parser events `evs`: the parsed constructs, then the
/// `==mark==` pairs, then the wikilinks.
pub open spec fn inline_spans(
    cs: Seq<char>,
    cursor: Option<usize>,
    delim: Option<HighlightTag>,
    evs: Seq<InlineEventView>,
    acc: Seq<(nat, nat, StyleValue)>,
) -> Seq<(nat, nat, StyleValue)> {
    let a1 = acc + event_spans(cs, cursor, delim, evs, 0, (None, None, None, None));
    let a2 = mark_pass(cs, cursor, delim, a1, 0);
    wiki_pass(cs, cursor, delim, crate::markdown::links::wikilinks_from(cs, 0), 0, a2)
}

pub(crate) fn push_span(spans: &mut Vec<StyleSpan>, s: usize, e: usize, style: StyleValue)
    ensures
        spans_view(final(spans)@) == spans_view(old(spans)@).push((s as nat, e as nat, style)),
{
    let ghost before = spans@;
    spans.push(StyleSpan::new(s..e, style));
    proof {
        assert(spans_view(spans@) =~= spans_view(before).push((s as nat, e as nat, style)));
    }
}

pub(crate) fn is_inside(cursor: Option<usize>, s: usize, e: usize) -> (b: bool)
    ensures
        b == cursor_inside(cursor, s as nat, e as nat),
{
    match cursor {
        Some(c) => s <= c && c < e,
        None => false,
    }
}

fn push_delimited(
    spans: &mut Vec<StyleSpan>,
    s: usize,
    e: usize,
    w: usize,
    inner: StyleValue,
    cursor: Option<usize>,
    delim: Option<HighlightTag>,
)
    requires
        w <= 2,
    ensures
        spans_view(final(spans)@) == spans_view(old(spans)@) + delimited(
            s as nat,
            e as nat,
            w as nat,
            inner,
            cursor,
            delim,
        ),
{
    let ghost before = spans_view(spans@);
    let inside = is_inside(cursor, s, e);
    match delim {
        Some(d) => {
            if !inside && e >= s && e - s >= 2 * w {
                push_span(spans, s, s + w, StyleValue::Tag(d));
                push_span(spans, s + w, e - w, inner);
                push_span(spans, e - w, e, StyleValue::Tag(d));
                proof {
                    assert(spans_view(spans@) =~= before + delimited(s as nat, e as nat, w as nat, inner, cursor, delim));
                }
                return;
            }
        },
        None => {},
    }
    push_span(spans, s, e, inner);
    proof {
        assert(spans_view(spans@) =~= before + delimited(s as nat, e as nat, w as nat, inner, cursor, delim));
    }
}

fn push_link(
    cs: &Vec<char>,
    offs: &Vec<usize>,
    spans: &mut Vec<StyleSpan>,
    s: usize,
    e: usize,
    cursor: Option<usize>,
    delim: Option<HighlightTag>,
)
    requires
        offs@.len() == cs@.len() + 1,
        forall|m: int| 0 <= m <= cs@.len() ==> offs@[m] == byte_at(cs@, m),
        byte_len(cs@) <= usize::MAX,
        s < e,
    ensures
        spans_view(final(spans)@) == spans_view(old(spans)@) + link_spans(cs@, s as nat, e as nat, cursor, delim),
{
    let ghost before = spans_view(spans@);
    let inside = is_inside(cursor, s, e);
    if !inside {
        match delim {
            Some(d) => match char_index_at(cs, offs, s) {
                Some(ci) => match char_index_at(cs, offs, e) {
                    Some(cj) => {
                        proof {
                            assert(byte_at(cs@, ci as int) == s);
                            assert(byte_at(cs@, cj as int) == e);
                            if ci > cj {
                                crate::text::lemma_byte_at_mono(cs@, cj as int, ci as int);
                            }
                        }
                        let lab = link_label_exec(cs, offs, ci, cj, s, e);
                        if lab.0 == s && lab.1 == e {
                            push_span(spans, s, e, StyleValue::Tag(HighlightTag::Link));
                        } else {
                            push_span(spans, s, lab.0, StyleValue::Tag(d));
                            push_span(spans, lab.0, lab.1, StyleValue::Tag(HighlightTag::Link));
                            push_span(spans, lab.1, e, StyleValue::Tag(d));
                        }
                        proof {
                            assert(spans_view(spans@) =~= before + link_spans(cs@, s as nat, e as nat, cursor, delim));
                        }
                        return;
                    },
                    None => {},
                },
                None => {},
            },
            None => {},
        }
    }
    push_span(spans, s, e, StyleValue::Tag(HighlightTag::Link));
    proof {
        assert(spans_view(spans@) =~= before + link_spans(cs@, s as nat, e as nat, cursor, delim));
    }
}

fn strike() -> (v: StyleValue)
    ensures
        v == strike_style(),
{
    let mut st = TextStyle::new();
    st.strikethrough = true;
    StyleValue::Direct(st)
}

/// The open constructs as a spec tuple.
pub open spec fn open_at(a: Option<usize>, b: Option<usize>, c: Option<usize>, d: Option<usize>) -> OpenAt {
    (
        match a { Some(x) => Some(x as nat), None => None },
        match b { Some(x) => Some(x as nat), None => None },
        match c { Some(x) => Some(x as nat), None => None },
        match d { Some(x) => Some(x as nat), None => None },
    )
}

#[verifier::rlimit(60)]
fn push_event_spans(
    cs: &Vec<char>,
    offs: &Vec<usize>,
    cursor: Option<usize>,
    delim: Option<HighlightTag>,
    evs: &Vec<InlineEvent>,
    spans: &mut Vec<StyleSpan>,
)
    requires
        offs@.len() == cs@.len() + 1,
        forall|m: int| 0 <= m <= cs@.len() ==> offs@[m] == byte_at(cs@, m),
        byte_len(cs@) <= usize::MAX,
    ensures
        spans_view(final(spans)@) == spans_view(old(spans)@) + event_spans(
            cs@,
            cursor,
            delim,
            evs@.map_values(|e: InlineEvent| e@),
            0,
            (None, None, None, None),
        ),
{
    let ghost ev = evs@.map_values(|e: InlineEvent| e@);
    let ghost all = spans_view(spans@) + event_spans(cs@, cursor, delim, ev, 0, (None, None, None, None));
    let len = offs[cs.len()];
    proof {
        crate::text::lemma_byte_at_len(cs@);
        assert(open_at(None, None, None, None) == (None::<nat>, None::<nat>, None::<nat>, None::<nat>));
    }
    let mut strong: Option<usize> = None;
    let mut emph: Option<usize> = None;
    let mut strk: Option<usize> = None;
    let mut link: Option<usize> = None;
    let mut k: usize = 0;
    while k < evs.len()
        invariant
            offs@.len() == cs@.len() + 1,
            forall|m: int| 0 <= m <= cs@.len() ==> offs@[m] == byte_at(cs@, m),
            byte_len(cs@) <= usize::MAX,
            len == byte_len(cs@),
            ev == evs@.map_values(|e: InlineEvent| e@),
            k <= evs@.len(),
            spans_view(spans@) + event_spans(cs@, cursor, delim, ev, k as nat, open_at(strong, emph, strk, link)) == all,
        decreases evs@.len() - k,
    {
        let ghost pre = spans_view(spans@);
        let ghost o = open_at(strong, emph, strk, link);
        proof {
            assert(ev[k as int] == evs@[k as int]@);
        }
        match &evs[k] {
            InlineEvent::StrongStart(s) => {
                strong = Some(*s);
            },
            InlineEvent::StrongEnd(e0) => {
                match strong {
                    Some(s) => {
                        let e = if *e0 < len { *e0 } else { len };
                        if s < e {
                            push_delimited(spans, s, e, 2, StyleValue::Tag(HighlightTag::Bold), cursor, delim);
                        }
                    },
                    None => {},
                }
                strong = None;
            },
            InlineEvent::EmphasisStart(s) => {
                emph = Some(*s);
            },
            InlineEvent::EmphasisEnd(e0) => {
                match emph {
                    Some(s) => {
                        let e = if *e0 < len { *e0 } else { len };
                        if s < e {
                            push_delimited(spans, s, e, 1, StyleValue::Tag(HighlightTag::Italic), cursor, delim);
                        }
                    },
                    None => {},
                }
                emph = None;
            },
            InlineEvent::StrikeStart(s) => {
                strk = Some(*s);
            },
            InlineEvent::StrikeEnd(e0) => {
                match strk {
                    Some(s) => {
                        let e = if *e0 < len { *e0 } else { len };
                        if s < e {
                            push_delimited(spans, s, e, 2, strike(), cursor, delim);
                        }
                    },
                    None => {},
                }
                strk = None;
            },
            InlineEvent::CodeSpan(s, l) => {
                let s = *s;
                let l = *l;
                let e = if s <= len && l <= len - s && len - s - l >= 2 { s + l + 2 } else { len };
                push_delimited(spans, s, e, 1, StyleValue::Tag(HighlightTag::Code), cursor, delim);
            },
            InlineEvent::LinkStart(s) => {
                link = Some(*s);
            },
            InlineEvent::LinkEnd(e0) => {
                match link {
                    Some(s) => {
                        let e = if *e0 < len { *e0 } else { len };
                        if s < e {
                            push_link(cs, offs, spans, s, e, cursor, delim);
                        }
                    },
                    None => {},
                }
                link = None;
            },
            InlineEvent::TaskMarker(s, e, checked) => {
                let t = if *checked { HighlightTag::String } else { HighlightTag::Comment };
                push_span(spans, *s, *e, StyleValue::Tag(t));
            },
            InlineEvent::Other => {},
        }
        proof {
            let rest = event_spans(cs@, cursor, delim, ev, (k + 1) as nat, open_at(strong, emph, strk, link));
            assert(pre + event_spans(cs@, cursor, delim, ev, k as nat, o) =~= spans_view(spans@) + rest);
        }
        k = k + 1;
    }
}


fn find_mark_exec(cs: &Vec<char>, from: usize, opening: bool) -> (r: Option<usize>)
    ensures
        match r {
            Some(j) => find_mark(cs@, from as nat, opening) == Some(j as nat),
            None => find_mark(cs@, from as nat, opening) is None,
        },
{
    let n = cs.len();
    let mut i = from;
    while i < n && n - i > 1
        invariant
            n == cs@.len(),
            from <= i,
            find_mark(cs@, i as nat, opening) == find_mark(cs@, from as nat, opening),
        decreases n - i,
    {
        if cs[i] == '=' && cs[i + 1] == '=' {
            let ok = if opening {
                if i + 2 >= n {
                    true
                } else {
                    let c = cs[i + 2];
                    !(c == ' ' || c == '\t' || c == '\n' || c == '\x0C' || c == '\r') && c != '='
                }
            } else {
                let adj = if i >= 1 { i - 1 } else { 0 };
                let c = cs[adj];
                !(c == ' ' || c == '\t' || c == '\n' || c == '\x0C' || c == '\r') && c != '='
            };
            if ok {
                return Some(i);
            }
        }
        i = i + 1;
    }
    None
}

fn reserved_exec(v: &StyleValue) -> (b: bool)
    ensures
        b == reserved_style(*v),
{
    match v {
        StyleValue::Tag(HighlightTag::Code) => true,
        StyleValue::Tag(HighlightTag::Hidden) => true,
        StyleValue::Tag(HighlightTag::Dimmed) => true,
        _ => false,
    }
}

fn is_link_style(v: &StyleValue) -> (b: bool)
    ensures
        b == (*v == StyleValue::Tag(HighlightTag::Link)),
{
    match v {
        StyleValue::Tag(HighlightTag::Link) => true,
        _ => false,
    }
}

/// Whether a span of `spans` meets bytes `s..e` with a reserved style
/// (`links` false) or as a link (`links` true).
fn overlaps_exec(spans: &Vec<StyleSpan>, s: usize, e: usize, links: bool) -> (b: bool)
    ensures
        links ==> b == overlaps_link(spans_view(spans@), s as nat, e as nat),
        !links ==> b == overlaps_reserved(spans_view(spans@), s as nat, e as nat),
{
    let ghost sv = spans_view(spans@);
    let mut j: usize = 0;
    while j < spans.len()
        invariant
            sv == spans_view(spans@),
            j <= spans@.len(),
            links ==> forall|m: int| 0 <= m < j ==> !((#[trigger] sv[m]).2 == StyleValue::Tag(HighlightTag::Link) && sv[m].0 < e && s < sv[m].1),
            !links ==> forall|m: int| 0 <= m < j ==> !(reserved_style((#[trigger] sv[m]).2) && sv[m].0 < e && s < sv[m].1),
        decreases spans@.len() - j,
    {
        proof {
            assert(sv[j as int] == span_view(spans@[j as int]));
        }
        let hit = if links { is_link_style(&spans[j].style) } else { reserved_exec(&spans[j].style) };
        if hit && spans[j].range.start < e && s < spans[j].range.end {
            return true;
        }
        j = j + 1;
    }
    false
}

fn push_mark_spans(
    cs: &Vec<char>,
    offs: &Vec<usize>,
    cursor: Option<usize>,
    delim: Option<HighlightTag>,
    spans: &mut Vec<StyleSpan>,
)
    requires
        offs@.len() == cs@.len() + 1,
        forall|m: int| 0 <= m <= cs@.len() ==> offs@[m] == byte_at(cs@, m),
    ensures
        spans_view(final(spans)@) == mark_pass(cs@, cursor, delim, spans_view(old(spans)@), 0),
{
    let ghost all = mark_pass(cs@, cursor, delim, spans_view(spans@), 0);
    let n = cs.len();
    let mut from: usize = 0;
    while n > 0 && from < n - 1
        invariant
            n == cs@.len(),
            offs@.len() == cs@.len() + 1,
            forall|m: int| 0 <= m <= cs@.len() ==> offs@[m] == byte_at(cs@, m),
            from <= n,
            mark_pass(cs@, cursor, delim, spans_view(spans@), from as nat) == all,
        decreases n - from,
    {
        proof {
            lemma_find_mark(cs@, from as nat, true);
        }
        match find_mark_exec(cs, from, true) {
            None => {
                from = n;
            },
            Some(open) => {
                proof {
                    lemma_find_mark(cs@, open as nat + 2, false);
                }
                match find_mark_exec(cs, open + 2, false) {
                    None => {
                        from = n;
                    },
                    Some(close) => {
                        let bo = offs[open];
                        let be = offs[close + 2];
                        if close == open + 2 || overlaps_exec(spans, bo, be, false) {
                            from = open + 1;
                        } else {
                            push_delimited(spans, bo, be, 2, StyleValue::Tag(HighlightTag::Highlight), cursor, delim);
                            from = close + 2;
                        }
                    },
                }
            },
        }
    }
}

fn push_wikilink_spans(
    line_text: &str,
    cursor: Option<usize>,
    delim: Option<HighlightTag>,
    spans: &mut Vec<StyleSpan>,
)
    ensures
        spans_view(final(spans)@) == wiki_pass(
            line_text@,
            cursor,
            delim,
            crate::markdown::links::wikilinks_from(line_text@, 0),
            0,
            spans_view(old(spans)@),
        ),
{
    let targets = crate::markdown::links::parse_wikilinks(line_text);
    let ghost ws = crate::markdown::links::wikilinks_from(line_text@, 0);
    let ghost all = wiki_pass(line_text@, cursor, delim, ws, 0, spans_view(spans@));
    let mut k: usize = 0;
    while k < targets.len()
        invariant
            ws == crate::markdown::links::wikilinks_from(line_text@, 0),
            targets@.len() == ws.len(),
            forall|m: int| 0 <= m < targets@.len() ==> crate::markdown::links::target_matches(#[trigger] targets@[m], ws[m], line_text@),
            k <= targets@.len(),
            wiki_pass(line_text@, cursor, delim, ws, k as nat, spans_view(spans@)) == all,
        decreases targets@.len() - k,
    {
        proof {
            assert(crate::markdown::links::target_matches(targets@[k as int], ws[k as int], line_text@));
        }
        let s = targets[k].full_range.start;
        let e = targets[k].full_range.end;
        let ds = targets[k].display_range.start;
        let de = targets[k].display_range.end;
        let ghost before = spans_view(spans@);
        let skip = overlaps_exec(spans, s, e, true) || overlaps_exec(spans, s, e, false);
        if !skip {
            let inside = is_inside(cursor, s, e);
            match delim {
                Some(d) => {
                    if inside {
                        push_span(spans, s, e, StyleValue::Tag(HighlightTag::Link));
                    } else {
                        if ds > s {
                            push_span(spans, s, ds, StyleValue::Tag(d));
                        }
                        push_span(spans, ds, de, StyleValue::Tag(HighlightTag::Link));
                        if de < e {
                            push_span(spans, de, e, StyleValue::Tag(d));
                        }
                    }
                },
                None => {
                    push_span(spans, s, e, StyleValue::Tag(HighlightTag::Link));
                },
            }
            proof {
                assert(spans_view(spans@) =~= before + wikilink_spans(s as nat, e as nat, ds as nat, de as nat, cursor, delim));
            }
        }
        k = k + 1;
    }
}

/// Appends the inline spans of `line_text` given its CommonMark events
/// `evs`: strong, emphasis, strikethrough, code spans, links and task
/// markers from the events, then `==mark==` pairs, then wikilinks. A
/// construct the cursor (`cursor_offset`, a byte offset on this line) is
/// inside keeps its delimiters visible; otherwise they take
/// `delimiter_tag` when there is one.
pub fn inline_spans_of_events(
    line_text: &str,
    cursor_offset: Option<usize>,
    delimiter_tag: Option<HighlightTag>,
    evs: &Vec<InlineEvent>,
    spans: &mut Vec<StyleSpan>,
)
    ensures
        spans_view(final(spans)@) == inline_spans(
            line_text@,
            cursor_offset,
            delimiter_tag,
            evs@.map_values(|e: InlineEvent| e@),
            spans_view(old(spans)@),
        ),
{
    let cs = str_chars(line_text);
    let offs = char_offsets(&cs);
    push_event_spans(&cs, &offs, cursor_offset, delimiter_tag, evs, spans);
    push_mark_spans(&cs, &offs, cursor_offset, delimiter_tag, spans);
    push_wikilink_spans(line_text, cursor_offset, delimiter_tag, spans);
}

/// Parses the inline CommonMark and GFM elements of one line (bold,
/// italic, strikethrough, code, links, task markers) and appends their
/// style spans, then those of `==mark==` pairs and wikilinks. A construct
/// whose source range holds the cursor keeps its delimiters visible so it
/// can be edited; every other construct conceals them.
pub fn highlight_inline_markdown(
    line_text: &str,
    cursor_offset: Option<usize>,
    delimiter_tag: Option<HighlightTag>,
    spans: &mut Vec<StyleSpan>,
)
    ensures
        spans_view(final(spans)@) == inline_spans(
            line_text@,
            cursor_offset,
            delimiter_tag,
            cmark_inline_events(line_text@),
            spans_view(old(spans)@),
        ),
{
    let evs = inline_events(line_text);
    inline_spans_of_events(line_text, cursor_offset, delimiter_tag, &evs, spans);
}

} // verus!
