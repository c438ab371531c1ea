//! Wikilink references (`[[Note]]`, `[[Note#Heading]]`, `[[Note|Alias]]`)
//! and the link URLs built from them.
use vstd::prelude::*;
use std::ops::Range;
use pulldown_cmark::{Event, Options, Parser, Tag, TagEnd};
use crate::buffer::EditorBuffer;
use crate::text::{
    byte_at, byte_len, char_offsets, chars_to_string, push_all, slice_chars, str_chars, trim,
    trim_chars,
};

verus! {

/// URL scheme prefix marking wikilink destinations.
pub const WIKILINK_SCHEME: &'static str = "wikilink:";

/// A parsed `[[Note]]`, `[[Note|Alias]]`, or `[[Note#Heading]]` reference.
#[derive(Debug)]
pub struct WikilinkTarget {
    /// Byte range of the whole `[[...]]` construct within the line.
    pub full_range: Range<usize>,
    /// Byte range of the visible label (alias when present, else the target text).
    pub display_range: Range<usize>,
    /// Target note name, trimmed.
    pub note: String,
    /// Target heading within the note, if any.
    pub heading: Option<String>,
    /// Display alias, if any.
    pub alias: Option<String>,
}

/// A wikilink described by character indices into its line.
pub struct WikiSpan {
    /// Character range of the whole `[[...]]`.
    pub full: (nat, nat),
    /// Character range of the visible label.
    pub display: (nat, nat),
    /// Trimmed note name.
    pub note: Seq<char>,
    /// Trimmed heading, if any.
    pub heading: Option<Seq<char>>,
    /// Trimmed alias, if any.
    pub alias: Option<Seq<char>>,
}

/// Index of the first `c` in `s`.
pub open spec fn first_index(s: Seq<char>, c: char) -> Option<nat>
    decreases s.len(),
{
    if s.len() == 0 {
        None
    } else {
        match first_index(s.drop_last(), c) {
            Some(i) => Some(i),
            None => if s.last() == c {
                Some((s.len() - 1) as nat)
            } else {
                None
            },
        }
    }
}

/// Where an opener `[[` starts at or after `i`, skipping `![[` embeds and
/// escaped `\[[`.
pub open spec fn wl_open(cs: Seq<char>, i: nat) -> Option<nat>
    decreases cs.len() - i,
{
    if i + 1 < cs.len() {
        if cs[i as int] == '[' && cs[i + 1int] == '[' {
            if !(i > 0 && (cs[i - 1] == '!' || cs[i - 1] == '\\')) {
                Some(i)
            } else {
                wl_open(cs, i + 2)
            }
        } else {
            wl_open(cs, i + 1)
        }
    } else {
        None
    }
}

/// Where the closing `]]` starts at or after `i`; a nested `[[` first
/// means no close.
pub open spec fn wl_close(cs: Seq<char>, i: nat) -> Option<nat>
    decreases cs.len() - i,
{
    if i + 1 < cs.len() {
        if cs[i as int] == '[' && cs[i + 1int] == '[' {
            None
        } else if cs[i as int] == ']' && cs[i + 1int] == ']' {
            Some(i)
        } else {
            wl_close(cs, i + 1)
        }
    } else {
        None
    }
}

/// Bounds of the opener and closer searches.
pub proof fn lemma_wl_bounds(cs: Seq<char>, i: nat)
    ensures
        match wl_open(cs, i) {
            Some(o) => i <= o && o + 1 < cs.len(),
            None => true,
        },
        match wl_close(cs, i) {
            Some(c) => i <= c && c + 1 < cs.len(),
            None => true,
        },
    decreases cs.len() - i,
{
    if i + 1 < cs.len() {
        lemma_wl_bounds(cs, i + 1);
        lemma_wl_bounds(cs, i + 2);
    }
}

/// The wikilink whose content is `cs[open + 2..close]`, if it parses: the
/// content is not blank, an alias after `|` and a heading after `#` are not
/// blank, and the trimmed note is non-empty and holds no bracket.
pub open spec fn wikilink_content(cs: Seq<char>, open: nat, close: nat) -> Option<WikiSpan> {
    let start = open + 2;
    let content = cs.subrange(start as int, close as int);
    let pipe = first_index(content, '|');
    let target = match pipe {
        Some(p) => content.take(p as int),
        None => content,
    };
    let alias = match pipe {
        Some(p) => Some(trim(content.skip(p + 1int))),
        None => None,
    };
    let hash = first_index(target, '#');
    let note_text = match hash {
        Some(h) => target.take(h as int),
        None => target,
    };
    let heading = match hash {
        Some(h) => Some(trim(target.skip(h + 1int))),
        None => None,
    };
    let note = trim(note_text);
    if trim(content).len() == 0 {
        None
    } else if alias matches Some(a) && a.len() == 0 {
        None
    } else if heading matches Some(h) && h.len() == 0 {
        None
    } else if note.len() == 0 || note.contains('[') || note.contains(']') {
        None
    } else {
        Some(
            WikiSpan {
                full: (open, close + 2),
                display: match pipe {
                    Some(p) => (start + p + 1, close),
                    None => (start, close),
                },
                note,
                heading,
                alias,
            },
        )
    }
}

/// Wikilinks of `cs` found scanning from `i`, left to right.
pub open spec fn wikilinks_from(cs: Seq<char>, i: nat) -> Seq<WikiSpan>
    decreases cs.len() - i,
{
    if i + 1 < cs.len() {
        proof {
            lemma_wl_bounds(cs, i);
        }
        match wl_open(cs, i) {
            None => Seq::empty(),
            Some(open) => {
                proof {
                    lemma_wl_bounds(cs, open + 2);
                }
                match wl_close(cs, open + 2) {
                    None => Seq::empty(),
                    Some(close) => match wikilink_content(cs, open, close) {
                        Some(t) => seq![t] + wikilinks_from(cs, close + 2),
                        None => wikilinks_from(cs, open + 2),
                    },
                }
            },
        }
    } else {
        Seq::empty()
    }
}

fn first_index_exec(s: &Vec<char>, c: char) -> (r: Option<usize>)
    ensures
        match r {
            Some(i) => first_index(s@, c) == Some(i as nat) && i < s@.len(),
            None => first_index(s@, c).is_none(),
        },
{
    let mut i: usize = 0;
    while i < s.len()
        invariant
            i <= s@.len(),
            first_index(s@.take(i as int), c).is_none(),
        decreases s@.len() - i,
    {
        proof {
            assert(s@.take(i + 1).drop_last() =~= s@.take(i as int));
        }
        if s[i] == c {
            proof {
                lemma_first_index_extend(s@, (i + 1) as nat, c);
            }
            return Some(i);
        }
        i = i + 1;
    }
    proof {
        assert(s@.take(i as int) =~= s@);
    }
    None
}

/// A first occurrence inside a prefix is the first occurrence overall.
pub proof fn lemma_first_index_extend(s: Seq<char>, n: nat, c: char)
    requires
        n <= s.len(),
        first_index(s.take(n as int), c).is_some(),
    ensures
        first_index(s, c) == first_index(s.take(n as int), c),
    decreases s.len() - n,
{
    if n < s.len() {
        assert(s.take(n + 1int).drop_last() =~= s.take(n as int));
        lemma_first_index_extend(s, n + 1, c);
    } else {
        assert(s.take(n as int) =~= s);
    }
}

fn wl_open_exec(cs: &Vec<char>, from: usize) -> (r: Option<usize>)
    ensures
        match r {
            Some(o) => wl_open(cs@, from as nat) == Some(o as nat),
            None => wl_open(cs@, from as nat).is_none(),
        },
{
    let mut i: usize = from;
    while i < cs.len() && i + 1 < cs.len()
        invariant
            from <= i,
            wl_open(cs@, i as nat) == wl_open(cs@, from as nat),
        decreases cs@.len() - i,
    {
        if cs[i] == '[' && cs[i + 1] == '[' {
            if !(i > 0 && (cs[i - 1] == '!' || cs[i - 1] == '\\')) {
                return Some(i);
            }
            i = i + 2;
        } else {
            i = i + 1;
        }
    }
    None
}

fn wl_close_exec(cs: &Vec<char>, from: usize) -> (r: Option<usize>)
    ensures
        match r {
            Some(c) => wl_close(cs@, from as nat) == Some(c as nat),
            None => wl_close(cs@, from as nat).is_none(),
        },
{
    let mut i: usize = from;
    while i < cs.len() && i + 1 < cs.len()
        invariant
            from <= i,
            wl_close(cs@, i as nat) == wl_close(cs@, from as nat),
        decreases cs@.len() - i,
    {
        if cs[i] == '[' && cs[i + 1] == '[' {
            return None;
        }
        if cs[i] == ']' && cs[i + 1] == ']' {
            return Some(i);
        }
        i = i + 1;
    }
    None
}

fn contains_char(s: &Vec<char>, c: char) -> (b: bool)
    ensures
        b == s@.contains(c),
{
    let mut i: usize = 0;
    while i < s.len()
        invariant
            i <= s@.len(),
            forall|k: int| 0 <= k < i ==> s@[k] != c,
        decreases s@.len() - i,
    {
        if s[i] == c {
            return true;
        }
        i = i + 1;
    }
    false
}

/// Character-level result of parsing one wikilink's content.
struct WikiParts {
    display: (usize, usize),
    note: Vec<char>,
    heading: Option<Vec<char>>,
    alias: Option<Vec<char>>,
}

#[verifier::loop_isolation(false)]
fn wikilink_content_exec(cs: &Vec<char>, open: usize, close: usize) -> (r: Option<WikiParts>)
    requires
        open + 2 <= close <= cs@.len(),
    ensures
        match r {
            Some(p) => wikilink_content(cs@, open as nat, close as nat) matches Some(w) && w.full == (
                open as nat,
                (close + 2) as nat,
            ) && w.display == (p.display.0 as nat, p.display.1 as nat) && w.note == p.note@
                && w.heading == (match p.heading {
                Some(v) => Some(v@),
                None => None,
            }) && w.alias == (match p.alias {
                Some(v) => Some(v@),
                None => None,
            }),
            None => wikilink_content(cs@, open as nat, close as nat).is_none(),
        },
        match r {
            Some(p) => p.display.0 <= p.display.1 <= close,
            None => true,
        },
{
    let start = open + 2;
    let content = slice_chars(cs, start, close);
    let ghost cv = cs@.subrange(start as int, close as int);
    if trim_chars(&content).len() == 0 {
        return None;
    }
    let pipe = first_index_exec(&content, '|');
    let mut alias: Option<Vec<char>> = None;
    let target = match pipe {
        Some(p) => {
            let after = slice_chars(&content, p + 1, content.len());
            assert(after@ =~= cv.skip(p + 1int));
            let a = trim_chars(&after);
            if a.len() == 0 {
                return None;
            }
            alias = Some(a);
            let t = slice_chars(&content, 0, p);
            assert(t@ =~= cv.take(p as int));
            t
        },
        None => slice_chars(&content, 0, content.len()),
    };
    proof {
        if pipe.is_none() {
            assert(target@ =~= cv);
        }
    }
    let hash = first_index_exec(&target, '#');
    let mut heading: Option<Vec<char>> = None;
    let note_text = match hash {
        Some(h) => {
            let after = slice_chars(&target, h + 1, target.len());
            assert(after@ =~= target@.skip(h + 1int));
            let hd = trim_chars(&after);
            if hd.len() == 0 {
                return None;
            }
            heading = Some(hd);
            let t = slice_chars(&target, 0, h);
            assert(t@ =~= target@.take(h as int));
            t
        },
        None => slice_chars(&target, 0, target.len()),
    };
    proof {
        if hash.is_none() {
            assert(note_text@ =~= target@);
        }
    }
    let note = trim_chars(&note_text);
    if note.len() == 0 || contains_char(&note, '[') || contains_char(&note, ']') {
        return None;
    }
    let display = match pipe {
        Some(p) => (start + p + 1, close),
        None => (start, close),
    };
    Some(WikiParts { display, note, heading, alias })
}

/// Option-of-string viewed as an option of character sequences.
pub open spec fn opt_view(o: Option<String>) -> Option<Seq<char>> {
    match o {
        Some(s) => Some(s@),
        None => None,
    }
}

/// `t` is the byte-offset rendering of `w` within the line `cs`.
pub open spec fn target_matches(t: WikilinkTarget, w: WikiSpan, cs: Seq<char>) -> bool {
    &&& t.full_range.start == byte_at(cs, w.full.0 as int)
    &&& t.full_range.end == byte_at(cs, w.full.1 as int)
    &&& t.display_range.start == byte_at(cs, w.display.0 as int)
    &&& t.display_range.end == byte_at(cs, w.display.1 as int)
    &&& t.note@ == w.note
    &&& opt_view(t.heading) == w.heading
    &&& opt_view(t.alias) == w.alias
}

fn opt_string(o: Option<Vec<char>>) -> (r: Option<String>)
    ensures
        opt_view(r) == match o {
            Some(v) => Some(v@),
            None => None,
        },
{
    match o {
        Some(v) => Some(chars_to_string(&v)),
        None => None,
    }
}

/// Parses the wikilink references of a single line, left to right.
///
/// `![[...]]` embeds and escaped `\[[` stay literal; empty content,
/// unclosed openers and nested openers never parse.
pub fn parse_wikilinks(line_text: &str) -> (targets: Vec<WikilinkTarget>)
    ensures
        targets@.len() == wikilinks_from(line_text@, 0).len(),
        forall|k: int|
            0 <= k < targets@.len() ==> target_matches(
                #[trigger] targets@[k],
                wikilinks_from(line_text@, 0)[k],
                line_text@,
            ),
{
    let cs = str_chars(line_text);
    let offs = char_offsets(&cs);
    let ghost all = wikilinks_from(cs@, 0);
    let mut targets: Vec<WikilinkTarget> = Vec::new();
    let mut from: usize = 0;
    while from < cs.len() && from + 1 < cs.len()
        invariant
            cs@ == line_text@,
            offs@.len() == cs@.len() + 1,
            forall|m: int| 0 <= m <= cs@.len() ==> offs@[m] == byte_at(cs@, m),
            targets@.len() + wikilinks_from(cs@, from as nat).len() == all.len(),
            forall|k: int| 0 <= k < targets@.len() ==> target_matches(#[trigger] targets@[k], all[k], cs@),
            forall|k: int|
                0 <= k < wikilinks_from(cs@, from as nat).len() ==> #[trigger] wikilinks_from(cs@, from as nat)[k]
                    == all[targets@.len() + k],
        ensures
            wikilinks_from(cs@, from as nat).len() == 0,
        decreases cs@.len() - from,
    {
        proof {
            lemma_wl_bounds(cs@, from as nat);
        }
        let open = match wl_open_exec(&cs, from) {
            Some(o) => o,
            None => {
                assert(wikilinks_from(cs@, from as nat).len() == 0);
                break;
            },
        };
        proof {
            lemma_wl_bounds(cs@, (open + 2) as nat);
        }
        let close = match wl_close_exec(&cs, open + 2) {
            Some(c) => c,
            None => {
                assert(wikilinks_from(cs@, from as nat).len() == 0);
                break;
            },
        };
        match wikilink_content_exec(&cs, open, close) {
            Some(parts) => {
                let ghost w = wikilink_content(cs@, open as nat, close as nat).unwrap();
                let ghost before = wikilinks_from(cs@, from as nat);
                assert(before == seq![w] + wikilinks_from(cs@, (close + 2) as nat));
                assert(before[0] == w);
                let WikiParts { display, note, heading, alias } = parts;
                let t = WikilinkTarget {
                    full_range: offs[open]..offs[close + 2],
                    display_range: offs[display.0]..offs[display.1],
                    note: chars_to_string(&note),
                    heading: opt_string(heading),
                    alias: opt_string(alias),
                };
                let ghost old_len = targets@.len();
                assert(all[old_len as int] == w);
                assert(target_matches(t, w, cs@));
                targets.push(t);
                proof {
                    assert(targets@[old_len as int] == t);
                    assert forall|k: int|
                        0 <= k < wikilinks_from(cs@, (close + 2) as nat).len() implies #[trigger] wikilinks_from(
                        cs@,
                        (close + 2) as nat,
                    )[k] == all[targets@.len() + k] by {
                        assert(wikilinks_from(cs@, (close + 2) as nat)[k] == before[k + 1]);
                    }
                }
                from = close + 2;
            },
            None => {
                from = open + 2;
            },
        }
    }
    targets
}

/// The link URL of a wikilink target: the scheme, the note and, when
/// present, `#` and the heading.
pub open spec fn wikilink_url_spec(note: Seq<char>, heading: Option<Seq<char>>) -> Seq<char> {
    match heading {
        Some(h) => WIKILINK_SCHEME@ + note + seq!['#'] + h,
        None => WIKILINK_SCHEME@ + note,
    }
}

/// Builds the link URL for a wikilink target (`wikilink:Note#Heading`).
pub fn wikilink_url(note: &str, heading: Option<&str>) -> (url: String)
    ensures
        url@ == wikilink_url_spec(
            note@,
            match heading {
                Some(h) => Some(h@),
                None => None,
            },
        ),
{
    let mut out = str_chars(WIKILINK_SCHEME);
    let nc = str_chars(note);
    push_all(&mut out, &nc);
    match heading {
        Some(h) => {
            out.push('#');
            let hc = str_chars(h);
            push_all(&mut out, &hc);
        },
        None => {},
    }
    chars_to_string(&out)
}

/// Reports whether an extracted link URL points at a wikilink target.
pub fn is_wikilink_url(url: &str) -> (b: bool)
    ensures
        b == (WIKILINK_SCHEME@.len() <= url@.len() && url@.take(WIKILINK_SCHEME@.len() as int)
            == WIKILINK_SCHEME@),
{
    let u = str_chars(url);
    let p = str_chars(WIKILINK_SCHEME);
    if p.len() > u.len() {
        return false;
    }
    let mut i: usize = 0;
    while i < p.len()
        invariant
            p@ == WIKILINK_SCHEME@,
            u@ == url@,
            p@.len() <= u@.len(),
            i <= p@.len(),
            forall|k: int| 0 <= k < i ==> u@[k] == p@[k],
        decreases p@.len() - i,
    {
        if u[i] != p[i] {
            assert(u@.take(p@.len() as int)[i as int] != p@[i as int]);
            return false;
        }
        i = i + 1;
    }
    assert(u@.take(p@.len() as int) =~= p@);
    true
}

/// Every URL built for a wikilink is recognised as one.
pub proof fn law_wikilink_url_recognised(note: Seq<char>, heading: Option<Seq<char>>)
    ensures
        ({
            let u = wikilink_url_spec(note, heading);
            WIKILINK_SCHEME@.len() <= u.len() && u.take(WIKILINK_SCHEME@.len() as int)
                == WIKILINK_SCHEME@
        }),
{
    let u = wikilink_url_spec(note, heading);
    match heading {
        Some(h) => {
            assert(u.take(WIKILINK_SCHEME@.len() as int) =~= WIKILINK_SCHEME@);
        },
        None => {
            assert(u.take(WIKILINK_SCHEME@.len() as int) =~= WIKILINK_SCHEME@);
        },
    }
}


/// A CommonMark parser event as link extraction reads it.
pub enum LinkEvent {
    /// A link opens at this byte offset, with this destination.
    Start(usize, String),
    /// A link closes; its source ends at this byte offset.
    End(usize),
    /// Any other event.
    Other,
}

/// [`LinkEvent`] with the destination as characters.
pub enum LinkEventView {
    /// A link opens at this byte offset, with this destination.
    Start(nat, Seq<char>),
    /// A link closes at this byte offset.
    End(nat),
    /// Any other event.
    Other,
}

impl View for LinkEvent {
    type V = LinkEventView;

    open spec fn view(&self) -> LinkEventView {
        match self {
            LinkEvent::Start(s, d) => LinkEventView::Start(*s as nat, d@),
            LinkEvent::End(e) => LinkEventView::End(*e as nat),
            LinkEvent::Other => LinkEventView::Other,
        }
    }
}

/// The link events pulldown-cmark reports for `line`, with strikethrough
/// and task lists enabled.
pub uninterp spec fn cmark_link_events(line: Seq<char>) -> Seq<LinkEventView>;

/// `pulldown_cmark::Parser::new_ext` over `line` (strikethrough and task
/// lists on) walked with `into_offset_iter`: a link start becomes its start
/// offset and destination URL, a link end its end offset, anything else
/// `Other`. The sequence is named, not stated: it is whatever the parser
/// reports for the line.
#[verifier::external_body]
fn link_events(line: &str) -> (evs: Vec<LinkEvent>)
    ensures
        evs@.map_values(|e: LinkEvent| e@) == cmark_link_events(line@),
{
    let mut options = Options::empty();
    options.insert(Options::ENABLE_STRIKETHROUGH);
    options.insert(Options::ENABLE_TASKLISTS);
    Parser::new_ext(line, options).into_offset_iter().map(|(event, range)| match event {
        Event::Start(Tag::Link { dest_url, .. }) => LinkEvent::Start(range.start, dest_url.to_string()),
        Event::End(TagEnd::Link) => LinkEvent::End(range.end),
        _ => LinkEvent::Other,
    }).collect()
}

/// `b` is the byte offset of a character boundary of `cs`.
pub open spec fn boundary(cs: Seq<char>, b: nat) -> bool {
    exists|k: nat| k <= cs.len() && #[trigger] byte_at(cs, k as int) == b
}

/// The character index at byte `b` of `cs`, when `b` is a boundary.
pub open spec fn char_at(cs: Seq<char>, b: nat) -> nat {
    choose|k: nat| k <= cs.len() && #[trigger] byte_at(cs, k as int) == b
}

/// The label bytes of a link whose source runs over bytes `s..e` (the
/// characters `sub`): up to `](` or `][` after the opening bracket, inside
/// `<...>` for autolinks, else the whole source.
pub open spec fn link_label(sub: Seq<char>, s: nat, e: nat) -> (nat, nat) {
    match crate::markdown::editing::first_occurrence(sub, seq![']', '('], 0) {
        Some(k) => (s + 1, s + byte_at(sub, k as int)),
        None => match crate::markdown::editing::first_occurrence(sub, seq![']', '['], 0) {
            Some(k) => (s + 1, s + byte_at(sub, k as int)),
            None => if sub.len() > 0 && sub[0] == '<' && sub.last() == '>' {
                (s + 1, (e - 1) as nat)
            } else {
                (s, e)
            },
        },
    }
}

/// The links closed by the events from `k` on, each with its label bytes
/// and destination; `open` is the link start seen last and not yet closed.
/// A link whose source bytes do not fall on character boundaries is
/// skipped.
pub open spec fn links_from(cs: Seq<char>, evs: Seq<LinkEventView>, k: nat, open: Option<(nat, Seq<char>)>) -> Seq<((nat, nat), Seq<char>)>
    decreases evs.len() - k,
{
    if k >= evs.len() {
        Seq::empty()
    } else {
        match evs[k as int] {
            LinkEventView::Start(s, d) => links_from(cs, evs, k + 1, Some((s, d))),
            LinkEventView::End(e0) => match open {
                Some(o) => {
                    let s = o.0;
                    let e = if e0 < byte_len(cs) { e0 } else { byte_len(cs) };
                    let rest = links_from(cs, evs, k + 1, None);
                    if s <= e && boundary(cs, s) && boundary(cs, e) {
                        seq![(link_label(cs.subrange(char_at(cs, s) as int, char_at(cs, e) as int), s, e), o.1)] + rest
                    } else {
                        rest
                    }
                },
                None => links_from(cs, evs, k + 1, None),
            },
            LinkEventView::Other => links_from(cs, evs, k + 1, open),
        }
    }
}

/// The byte range `r` meets `fs..fe`.
pub open spec fn bytes_overlap(r: (nat, nat), fs: nat, fe: nat) -> bool {
    r.0 < fe && fs < r.1
}

/// The links `acc` with the wikilinks `ws[k..]` added, each unless its
/// bytes overlap a link already there; a wikilink's label is its display
/// range and its URL the wikilink URL.
pub open spec fn with_wikilinks(cs: Seq<char>, ws: Seq<WikiSpan>, k: nat, acc: Seq<((nat, nat), Seq<char>)>) -> Seq<((nat, nat), Seq<char>)>
    decreases ws.len() - k,
{
    if k >= ws.len() {
        acc
    } else {
        let w = ws[k as int];
        let fs = byte_at(cs, w.full.0 as int);
        let fe = byte_at(cs, w.full.1 as int);
        if exists|j: int| 0 <= j < acc.len() && bytes_overlap((#[trigger] acc[j]).0, fs, fe) {
            with_wikilinks(cs, ws, k + 1, acc)
        } else {
            with_wikilinks(
                cs,
                ws,
                k + 1,
                acc.push(((byte_at(cs, w.display.0 as int), byte_at(cs, w.display.1 as int)), wikilink_url_spec(w.note, w.heading))),
            )
        }
    }
}

/// Links of a line as (label bytes, destination).
pub open spec fn links_view(v: Seq<(Range<usize>, String)>) -> Seq<((nat, nat), Seq<char>)> {
    v.map_values(|p: (Range<usize>, String)| ((p.0.start as nat, p.0.end as nat), p.1@))
}


/// The open link as offset and destination characters.
pub open spec fn open_view(o: Option<(usize, String)>) -> Option<(nat, Seq<char>)> {
    match o {
        Some(p) => Some((p.0 as nat, p.1@)),
        None => None,
    }
}

/// Index of the character of `cs` starting at byte `b`, when one does.
pub(crate) fn char_index_at(cs: &Vec<char>, offs: &Vec<usize>, b: usize) -> (r: Option<usize>)
    requires
        offs@.len() == cs@.len() + 1,
        forall|m: int| 0 <= m <= cs@.len() ==> offs@[m] == byte_at(cs@, m),
    ensures
        match r {
            Some(k) => boundary(cs@, b as nat) && k == char_at(cs@, b as nat) && k <= cs@.len(),
            None => !boundary(cs@, b as nat),
        },
{
    let mut i: usize = 0;
    while i < offs.len()
        invariant
            offs@.len() == cs@.len() + 1,
            forall|m: int| 0 <= m <= cs@.len() ==> offs@[m] == byte_at(cs@, m),
            i <= offs@.len(),
            forall|m: int| 0 <= m < i ==> byte_at(cs@, m) != b,
        decreases offs@.len() - i,
    {
        if offs[i] == b {
            proof {
                assert(byte_at(cs@, i as int) == b);
                assert(boundary(cs@, b as nat));
                let k = char_at(cs@, b as nat);
                if k != i {
                    if k < i {
                        crate::text::lemma_byte_at_mono(cs@, k as int, i as int);
                    } else {
                        crate::text::lemma_byte_at_mono(cs@, i as int, k as int);
                    }
                }
            }
            return Some(i);
        }
        i = i + 1;
    }
    proof {
        if boundary(cs@, b as nat) {
            let k = char_at(cs@, b as nat);
            assert(byte_at(cs@, k as int) == b);
        }
    }
    None
}

/// The label range of a link whose source runs over bytes `s..e`.
pub(crate) fn link_label_exec(cs: &Vec<char>, offs: &Vec<usize>, cs_i: usize, ce_i: usize, s: usize, e: usize) -> (r: (usize, usize))
    requires
        offs@.len() == cs@.len() + 1,
        forall|m: int| 0 <= m <= cs@.len() ==> offs@[m] == byte_at(cs@, m),
        cs_i <= ce_i <= cs@.len(),
        byte_at(cs@, cs_i as int) == s,
        byte_at(cs@, ce_i as int) == e,
        byte_len(cs@) <= usize::MAX,
    ensures
        (r.0 as nat, r.1 as nat) == link_label(cs@.subrange(cs_i as int, ce_i as int), s as nat, e as nat),
{
    let sub = crate::text::slice_chars(cs, cs_i, ce_i);
    proof {
        crate::rope_text::lemma_byte_len_subrange(cs@, cs_i as int, ce_i as int);
        crate::text::lemma_byte_at_mono(cs@, cs_i as int, ce_i as int);
        crate::text::lemma_byte_at_mono(cs@, ce_i as int, cs@.len() as int);
        crate::text::lemma_byte_at_len(cs@);
    }
    let p1 = vec![']', '('];
    let p2 = vec![']', '['];
    proof {
        assert(p1@ =~= seq![']', '(']);
        assert(p2@ =~= seq![']', '[']);
    }
    match crate::markdown::editing::find_chars(&sub, &p1) {
        Some(k) => {
            proof {
                crate::markdown::editing::lemma_first_occurrence(sub@, p1@, 0);
                assert(sub@.take(k as int) =~= cs@.subrange(cs_i as int, cs_i + k));
                assert(cs@.take(cs_i + k) =~= cs@.take(cs_i as int) + sub@.take(k as int));
                crate::text::lemma_byte_len_concat(cs@.take(cs_i as int), sub@.take(k as int));
                crate::text::lemma_byte_at_mono(cs@, (cs_i + k) as int, cs@.len() as int);
            }
            let off = crate::text::str_byte_len(crate::text::chars_to_string(&crate::text::slice_chars(&sub, 0, k)).as_str());
            return (s + 1, s + off);
        },
        None => {},
    }
    match crate::markdown::editing::find_chars(&sub, &p2) {
        Some(k) => {
            proof {
                crate::markdown::editing::lemma_first_occurrence(sub@, p2@, 0);
                assert(cs@.take(cs_i + k) =~= cs@.take(cs_i as int) + sub@.take(k as int));
                crate::text::lemma_byte_len_concat(cs@.take(cs_i as int), sub@.take(k as int));
                crate::text::lemma_byte_at_mono(cs@, (cs_i + k) as int, cs@.len() as int);
            }
            let off = crate::text::str_byte_len(crate::text::chars_to_string(&crate::text::slice_chars(&sub, 0, k)).as_str());
            return (s + 1, s + off);
        },
        None => {},
    }
    let n = sub.len();
    if n > 0 && sub[0] == '<' && sub[n - 1] == '>' {
        proof {
            assert(sub@.last() == sub@[n - 1]);
            assert(s < e) by {
                crate::text::lemma_byte_at_mono(cs@, cs_i as int, ce_i as int);
            }
        }
        (s + 1, e - 1)
    } else {
        (s, e)
    }
}

/// Extracts the hyperlinks of a single line as (label byte range,
/// destination): Markdown links from the CommonMark parse, then each
/// wikilink that overlaps none of them, labelled by its display text and
/// pointing at its `wikilink:` URL.
pub fn extract_markdown_links(line_text: &str) -> (links: Vec<(Range<usize>, String)>)
    ensures
        links_view(links@) == with_wikilinks(
            line_text@,
            wikilinks_from(line_text@, 0),
            0,
            links_from(line_text@, cmark_link_events(line_text@), 0, None),
        ),
{
    let evs = link_events(line_text);
    links_of_events(line_text, &evs)
}

/// The hyperlinks of a line given its CommonMark link events `evs`: each
/// closed link's label bytes and destination, then the wikilinks that
/// overlap none of them.
pub fn links_of_events(line_text: &str, evs: &Vec<LinkEvent>) -> (links: Vec<(Range<usize>, String)>)
    ensures
        links_view(links@) == with_wikilinks(
            line_text@,
            wikilinks_from(line_text@, 0),
            0,
            links_from(line_text@, evs@.map_values(|e: LinkEvent| e@), 0, None),
        ),
{
    let cs = str_chars(line_text);
    let offs = char_offsets(&cs);
    let len = offs[cs.len()];
    let ghost ev = evs@.map_values(|e: LinkEvent| e@);
    let ghost all = links_from(cs@, ev, 0, None);
    let mut links: Vec<(Range<usize>, String)> = Vec::new();
    let mut open: Option<(usize, String)> = None;
    let mut k: usize = 0;
    proof {
        assert(links_view(links@) =~= Seq::<((nat, nat), Seq<char>)>::empty());
        crate::text::lemma_byte_at_len(cs@);
    }
    while k < evs.len()
        invariant
            cs@ == line_text@,
            offs@.len() == cs@.len() + 1,
            forall|m: int| 0 <= m <= cs@.len() ==> offs@[m] == byte_at(cs@, m),
            len == byte_len(cs@),
            byte_len(cs@) <= usize::MAX,
            evs@.map_values(|e: LinkEvent| e@) == ev,
            k <= evs@.len(),
            links_view(links@) + links_from(cs@, ev, k as nat, open_view(open)) == all,
        decreases evs@.len() - k,
    {
        proof {
            assert(ev[k as int] == evs@[k as int]@);
            crate::text::lemma_byte_at_len(cs@);
        }
        match &evs[k] {
            LinkEvent::Start(s, d) => {
                open = Some((*s, d.clone()));
            },
            LinkEvent::End(e0) => {
                match open {
                    Some((s, d)) => {
                        let e = if *e0 < len {
                            *e0
                        } else {
                            len
                        };
                        let ghost rest = links_from(cs@, ev, (k + 1) as nat, None);
                        if s <= e {
                            match char_index_at(&cs, &offs, s) {
                                Some(ci) => match char_index_at(&cs, &offs, e) {
                                    Some(cj) => {
                                        proof {
                                            if ci > cj {
                                                crate::text::lemma_byte_at_mono(cs@, cj as int, ci as int);
                                            }
                                        }
                                        let lab = link_label_exec(&cs, &offs, ci, cj, s, e);
                                        let ghost before = links_view(links@);
                                        links.push((lab.0..lab.1, d));
                                        proof {
                                            assert(links_view(links@) =~= before.push(((lab.0 as nat, lab.1 as nat), open_view(open).unwrap().1)));
                                            assert(links_view(links@) + rest =~= before + (seq![((lab.0 as nat, lab.1 as nat), open_view(open).unwrap().1)] + rest));
                                        }
                                    },
                                    None => {},
                                },
                                None => {},
                            }
                        }
                        open = None;
                    },
                    None => {},
                }
            },
            LinkEvent::Other => {},
        }
        k = k + 1;
    }
    let targets = parse_wikilinks(line_text);
    let ghost ws = wikilinks_from(cs@, 0);
    let mut j: usize = 0;
    while j < targets.len()
        invariant
            cs@ == line_text@,
            ws == wikilinks_from(cs@, 0),
            targets@.len() == ws.len(),
            forall|m: int| 0 <= m < targets@.len() ==> target_matches(#[trigger] targets@[m], ws[m], cs@),
            j <= targets@.len(),
            with_wikilinks(cs@, ws, j as nat, links_view(links@)) == with_wikilinks(cs@, ws, 0, all),
        decreases targets@.len() - j,
    {
        let fs = targets[j].full_range.start;
        let fe = targets[j].full_range.end;
        proof {
            assert(target_matches(targets@[j as int], ws[j as int], cs@));
        }
        let mut overlaps = false;
        let mut q: usize = 0;
        while q < links.len()
            invariant
                q <= links@.len(),
                overlaps == exists|m: int| 0 <= m < q && bytes_overlap((#[trigger] links_view(links@)[m]).0, fs as nat, fe as nat),
            decreases links@.len() - q,
        {
            let r0 = links[q].0.start;
            let r1 = links[q].0.end;
            proof {
                assert(links_view(links@)[q as int].0 == (r0 as nat, r1 as nat));
            }
            if r0 < fe && fs < r1 {
                overlaps = true;
            }
            proof {
                if overlaps {
                    if r0 < fe && fs < r1 {
                        assert(bytes_overlap(links_view(links@)[q as int].0, fs as nat, fe as nat));
                    }
                }
            }
            q = q + 1;
        }
        if !overlaps {
            let url = {
                let h = match &targets[j].heading {
                    Some(h) => Some(h.as_str()),
                    None => None,
                };
                wikilink_url(targets[j].note.as_str(), h)
            };
            let ds = targets[j].display_range.start;
            let de = targets[j].display_range.end;
            let ghost before = links_view(links@);
            links.push((ds..de, url));
            proof {
                assert(links_view(links@) =~= before.push(((ds as nat, de as nat), url@)));
            }
        }
        j = j + 1;
    }
    links
}


/// `row` is the header, the delimiter or a body row of block `s`.
pub open spec fn in_block(s: (nat, nat, nat, Seq<crate::markdown::table::TableAlignment>), row: nat) -> bool {
    row == s.0 || row == s.1 || (s.1 < row && row <= s.2)
}

impl crate::markdown::config::MarkdownHighlighter {
    /// The clickable links of row `row` (text `line_text`): none unless the
    /// line holds a `[` or a `<`, none inside the frontmatter block (its
    /// values stay plain metadata), else [`extract_markdown_links`].
    pub fn extract_links(&self, buffer: &EditorBuffer, row: usize, line_text: &str) -> (links: Vec<(Range<usize>, String)>)
        ensures
            ({
                let t = buffer.text_view();
                let fm = crate::markdown::folding::frontmatter_spec(
                    t,
                    crate::markdown::table::fences_upto(t, crate::rope_text::line_count(t)),
                );
                if !(line_text@.contains('[') || line_text@.contains('<')) || (fm matches Some(b) && b.0 <= row
                    && row < b.1) {
                    links@.len() == 0
                } else {
                    links_view(links@) == with_wikilinks(
                        line_text@,
                        wikilinks_from(line_text@, 0),
                        0,
                        links_from(line_text@, cmark_link_events(line_text@), 0, None),
                    )
                }
            }),
    {
        let cs = str_chars(line_text);
        let mut found = false;
        let mut i: usize = 0;
        while i < cs.len()
            invariant
                i <= cs@.len(),
                found == exists|k: int| 0 <= k < i && (cs@[k] == '[' || cs@[k] == '<'),
            decreases cs@.len() - i,
        {
            if cs[i] == '[' || cs[i] == '<' {
                found = true;
            }
            i = i + 1;
        }
        proof {
            if found {
                let k = choose|k: int| 0 <= k < i && (cs@[k] == '[' || cs@[k] == '<');
                if cs@[k] == '[' {
                    assert(line_text@.contains('['));
                } else {
                    assert(line_text@.contains('<'));
                }
            } else {
                if line_text@.contains('[') {
                    let k = choose|k: int| 0 <= k < line_text@.len() && line_text@[k] == '[';
                    assert(cs@[k] == '[');
                }
                if line_text@.contains('<') {
                    let k = choose|k: int| 0 <= k < line_text@.len() && line_text@[k] == '<';
                    assert(cs@[k] == '<');
                }
            }
        }
        if !found {
            return Vec::new();
        }
        let fences = crate::markdown::table::fence_rows(buffer);
        match crate::markdown::folding::scan_frontmatter(buffer, fences.as_slice()) {
            Some(b) => {
                if b.start <= row && row < b.end {
                    return Vec::new();
                }
            },
            None => {},
        }
        extract_markdown_links(line_text)
    }

    /// Whether row `row` may soft-wrap: with aligned tables on, rows inside
    /// a table block do not.
    pub fn should_wrap_line(&self, buffer: &EditorBuffer, row: usize) -> (wrap: bool)
        ensures
            ({
                let t = buffer.text_view();
                let c = self.spec_config();
                let ls = crate::markdown::table::layouts_from(
                    t,
                    crate::markdown::table::fences_upto(t, crate::rope_text::line_count(t)),
                    0,
                );
                wrap == (!(c.visual_tables && c.table_alignment) || !(exists|k: int|
                    0 <= k < ls.len() && in_block(#[trigger] ls[k], row as nat)))
            }),
    {
        let c = self.config();
        if !(c.visual_tables && c.table_alignment) {
            return true;
        }
        let layouts = crate::markdown::table::table_layouts(buffer);
        let ghost t = buffer.text_view();
        let ghost ls = crate::markdown::table::layouts_from(
            t,
            crate::markdown::table::fences_upto(t, crate::rope_text::line_count(t)),
            0,
        );
        let mut k: usize = 0;
        while k < layouts.len()
            invariant
                t == buffer.text_view(),
                ls == crate::markdown::table::layouts_from(
                    t,
                    crate::markdown::table::fences_upto(t, crate::rope_text::line_count(t)),
                    0,
                ),
                self.spec_config().visual_tables && self.spec_config().table_alignment,
                layouts@.len() == ls.len(),
                forall|m: int| 0 <= m < layouts@.len() ==> crate::markdown::table::layout_matches(#[trigger] layouts@[m], ls[m], t),
                k <= layouts@.len(),
                forall|m: int| 0 <= m < k ==> !in_block(#[trigger] ls[m], row as nat),
            decreases layouts@.len() - k,
        {
            proof {
                assert(crate::markdown::table::layout_matches(layouts@[k as int], ls[k as int], t));
            }
            if layouts[k].block.contains(row) {
                proof {
                    assert(in_block(ls[k as int], row as nat));
                }
                return false;
            }
            k = k + 1;
        }
        true
    }
}

} // verus!
