//! Headless styling tokens, interval splitting and concealed display lines.
use vstd::prelude::*;
use std::ops::Range;
use crate::text::{
    char_offsets, push_all, slice_chars,
    byte_at, byte_len, char_len_utf8, char_width, chars_to_string, lemma_byte_at_len,
    lemma_byte_at_mono, lemma_byte_at_step, str_byte_len, str_chars,
};

verus! {

/// An 8-bit per channel RGBA color.
#[derive(Debug, Clone, Copy, PartialEq, Eq, Hash, Structural)]
pub struct Rgba {
    /// Red color component.
    pub r: u8,
    /// Green color component.
    pub g: u8,
    /// Blue color component.
    pub b: u8,
    /// Alpha opacity component.
    pub a: u8,
}

impl Rgba {
    /// Creates a new color with red, green, blue, and alpha values.
    pub fn new(r: u8, g: u8, b: u8, a: u8) -> (c: Self)
        ensures
            c == (Rgba { r, g, b, a }),
    {
        Rgba { r, g, b, a }
    }

    /// Creates an opaque color with red, green, and blue values.
    pub fn rgb(r: u8, g: u8, b: u8) -> (c: Self)
        ensures
            c == (Rgba { r, g, b, a: 255 }),
    {
        Rgba { r, g, b, a: 255 }
    }

    /// Converts a hexadecimal color code (e.g. `0xFF5500`) to opaque RGBA:
    /// bits 16..24 are red, 8..16 green, 0..8 blue.
    pub fn hex(hex: u32) -> (c: Self)
        ensures
            c.r == (hex / 0x10000) % 0x100,
            c.g == (hex / 0x100) % 0x100,
            c.b == hex % 0x100,
            c.a == 255,
    {
        let r = ((hex >> 16) & 0xFF) as u8;
        let g = ((hex >> 8) & 0xFF) as u8;
        let b = (hex & 0xFF) as u8;
        assert(((hex >> 16) & 0xFF) == (hex / 0x10000) % 0x100) by (bit_vector);
        assert(((hex >> 8) & 0xFF) == (hex / 0x100) % 0x100) by (bit_vector);
        assert((hex & 0xFF) == hex % 0x100) by (bit_vector);
        Rgba { r, g, b, a: 255 }
    }
}

/// Visual style for underlined text.
#[derive(Debug, Clone, Copy, PartialEq, Eq, Hash, Structural)]
pub enum UnderlineDecoration {
    /// Solid straight line.
    Solid,
    /// Wavy squiggly line.
    Wavy,
}

/// The kind of a callout block (`> [!NOTE]` and the like).
#[derive(Debug, Clone, Copy, PartialEq, Eq, Hash, Structural)]
pub enum CalloutKind {
    /// `[!NOTE]`.
    Note,
    /// `[!TIP]`.
    Tip,
    /// `[!IMPORTANT]`.
    Important,
    /// `[!WARNING]`.
    Warning,
    /// `[!CAUTION]`.
    Caution,
    /// Any other kind name.
    Other,
}

/// Semantic categorization for syntax tokens.
#[derive(Debug, Clone, Copy, PartialEq, Eq, Hash)]
pub enum HighlightTag {
    /// Programming language keywords.
    Keyword,
    /// Function names and declarations.
    Function,
    /// Type and struct names.
    Type,
    /// String literals.
    String,
    /// Numeric literals.
    Number,
    /// Comments.
    Comment,
    /// Operators.
    Operator,
    /// Punctuation symbols.
    Punctuation,
    /// Document heading; level is `1..=6`.
    Heading(u8),
    /// Bold text.
    Bold,
    /// Italic text.
    Italic,
    /// Monospace code spans or blocks.
    Code,
    /// Hyperlinks.
    Link,
    /// Structural tag: blockquote line.
    Blockquote,
    /// Structural tag: thematic break.
    HorizontalRule,
    /// Structural tag: unchecked task marker.
    TaskUnchecked,
    /// Structural tag: checked task marker.
    TaskChecked,
    /// Dimmed syntax delimiters.
    Dimmed,
    /// Fully concealed syntax delimiters.
    Hidden,
    /// Highlighted (`==mark==`) text.
    Highlight,
    /// Structural tag: a line of a callout block of this kind.
    Callout(CalloutKind),
    /// Open extension for custom languages (dotted names).
    Custom(&'static str),
}

/// Direct styling attributes for a span of text.
#[derive(Debug, Clone, Copy, PartialEq, Eq, Hash, Default, Structural)]
pub struct TextStyle {
    /// Text foreground color.
    pub color: Option<Rgba>,
    /// Background highlight color.
    pub background: Option<Rgba>,
    /// Bold font weight.
    pub bold: bool,
    /// Italic font style.
    pub italic: bool,
    /// Underline decoration style if any.
    pub underline: Option<UnderlineDecoration>,
    /// Strikethrough line through the text.
    pub strikethrough: bool,
}

impl TextStyle {
    /// Creates an empty text style.
    pub fn new() -> (s: Self)
        ensures
            s == (TextStyle {
                color: None,
                background: None,
                bold: false,
                italic: false,
                underline: None,
                strikethrough: false,
            }),
    {
        TextStyle {
            color: None,
            background: None,
            bold: false,
            italic: false,
            underline: None,
            strikethrough: false,
        }
    }

    /// Sets foreground color.
    pub fn color(self, color: Rgba) -> (s: Self)
        ensures
            s == (TextStyle { color: Some(color), ..self }),
    {
        TextStyle { color: Some(color), ..self }
    }

    /// Sets background color.
    pub fn background(self, background: Rgba) -> (s: Self)
        ensures
            s == (TextStyle { background: Some(background), ..self }),
    {
        TextStyle { background: Some(background), ..self }
    }

    /// Sets bold attribute.
    pub fn bold(self) -> (s: Self)
        ensures
            s == (TextStyle { bold: true, ..self }),
    {
        TextStyle { bold: true, ..self }
    }

    /// Sets italic attribute.
    pub fn italic(self) -> (s: Self)
        ensures
            s == (TextStyle { italic: true, ..self }),
    {
        TextStyle { italic: true, ..self }
    }

    /// Sets underline attribute.
    pub fn underline(self, underline: UnderlineDecoration) -> (s: Self)
        ensures
            s == (TextStyle { underline: Some(underline), ..self }),
    {
        TextStyle { underline: Some(underline), ..self }
    }

    /// Sets strikethrough attribute.
    pub fn strikethrough(self) -> (s: Self)
        ensures
            s == (TextStyle { strikethrough: true, ..self }),
    {
        TextStyle { strikethrough: true, ..self }
    }
}

/// The style applied to a token: a semantic tag or direct attributes.
#[derive(Debug, Clone, Copy, PartialEq, Eq)]
pub enum StyleValue {
    /// Styled according to the theme's mapping for this tag.
    Tag(HighlightTag),
    /// Explicit styling attributes.
    Direct(TextStyle),
}

impl From<HighlightTag> for StyleValue {
    fn from(tag: HighlightTag) -> (s: Self) {
        StyleValue::Tag(tag)
    }
}

impl vstd::std_specs::convert::FromSpecImpl<HighlightTag> for StyleValue {
    open spec fn obeys_from_spec() -> bool {
        true
    }

    open spec fn from_spec(tag: HighlightTag) -> StyleValue {
        StyleValue::Tag(tag)
    }
}

/// A styled region of text on a single line (byte range within the line).
#[derive(Debug, PartialEq, Eq)]
pub struct StyleSpan {
    /// Byte range within the line string.
    pub range: Range<usize>,
    /// The style applied to this range.
    pub style: StyleValue,
}

impl Clone for StyleSpan {
    fn clone(&self) -> (s: Self)
        ensures
            s == *self,
    {
        StyleSpan { range: self.range.start..self.range.end, style: self.style }
    }
}

impl StyleSpan {
    /// Creates a new style span for a given range and style.
    pub fn new(range: Range<usize>, style: StyleValue) -> (s: Self)
        ensures
            s.range == range,
            s.style == style,
    {
        StyleSpan { range, style }
    }

    /// Convenience constructor for semantic tag styling.
    pub fn tag(range: Range<usize>, tag: HighlightTag) -> (s: Self)
        ensures
            s.range == range,
            s.style == StyleValue::Tag(tag),
    {
        StyleSpan { range, style: StyleValue::Tag(tag) }
    }

    /// Convenience constructor for direct text styling.
    pub fn direct(range: Range<usize>, style: TextStyle) -> (s: Self)
        ensures
            s.range == range,
            s.style == StyleValue::Direct(style),
    {
        StyleSpan { range, style: StyleValue::Direct(style) }
    }
}

/// Trait implemented by language tokenizers and syntax highlighters.
pub trait SyntaxHighlighter: Send + Sync + 'static {
    /// Analyzes a single line of text and returns all highlight spans for
    /// that line; span ranges are byte offsets into `line_text`.
    fn highlight_line(&self, buffer: &crate::buffer::EditorBuffer, row: usize, line_text: &str) -> Vec<StyleSpan>;

    /// Hyperlinks on this line (source byte range, URL); none by default.
    fn extract_links(&self, buffer: &crate::buffer::EditorBuffer, row: usize, line_text: &str) -> (links: Vec<(Range<usize>, String)>)
        default_ensures
            links@.len() == 0,
    {
        Vec::new()
    }

    /// Display-only padding for this line, in collapsed display
    /// coordinates; none by default.
    fn expand_line(&self, buffer: &crate::buffer::EditorBuffer, row: usize, concealed: &ConcealedLine) -> (pads: Vec<DisplayPad>)
        default_ensures
            pads@.len() == 0,
    {
        Vec::new()
    }

    /// Whether this line may soft-wrap; yes by default.
    fn should_wrap_line(&self, buffer: &crate::buffer::EditorBuffer, row: usize) -> (wrap: bool)
        default_ensures
            wrap,
    {
        true
    }
}

/// A contiguous segment of a line with its resolved style and selection status.
#[derive(Debug, PartialEq, Eq)]
pub struct StyledSegment<'a> {
    /// Byte range within the line.
    pub range: Range<usize>,
    /// The style value covering this segment, if any.
    pub style: Option<&'a StyleValue>,
    /// Whether this segment is within the active selection.
    pub is_selected: bool,
}

/// `x` clamped to `len`.
pub open spec fn clamp(x: usize, len: usize) -> usize {
    if x <= len { x } else { len }
}

/// Whether `x` is a split point: a line edge, a clamped selection edge or a
/// clamped span edge.
pub open spec fn is_boundary(line_len: usize, spans: Seq<StyleSpan>, sel: Option<(usize, usize)>, x: usize) -> bool {
    ||| x == 0
    ||| x == line_len
    ||| (sel matches Some((s, e)) && (x == clamp(s, line_len) || x == clamp(e, line_len)))
    ||| exists|j: int|
        0 <= j < spans.len() && (x == clamp((#[trigger] spans[j]).range.start, line_len) || x
            == clamp(spans[j].range.end, line_len))
}

/// Span `j` covers `start..end`.
pub open spec fn span_covers(sp: StyleSpan, start: usize, end: usize) -> bool {
    sp.range.start <= start && end <= sp.range.end
}

/// The style of `start..end`: the last span covering it.
pub open spec fn segment_style(spans: Seq<StyleSpan>, start: usize, end: usize, r: Option<&StyleValue>) -> bool {
    match r {
        Some(st) => exists|j: int|
            0 <= j < spans.len() && span_covers(#[trigger] spans[j], start, end) && *st == spans[j].style
                && forall|k: int| j < k < spans.len() ==> !span_covers(#[trigger] spans[k], start, end),
        None => forall|k: int| 0 <= k < spans.len() ==> !span_covers(#[trigger] spans[k], start, end),
    }
}

/// Whether `start..end` lies inside the selection.
pub open spec fn segment_selected(sel: Option<(usize, usize)>, start: usize, end: usize) -> bool {
    match sel {
        Some((s, e)) => start >= s && end <= e,
        None => false,
    }
}

/// Inserts `x` into a strictly increasing vector unless already present.
#[verifier::spinoff_prover]
#[verifier::rlimit(40)]
fn insert_unique(v: &mut Vec<usize>, x: usize)
    requires
        forall|i: int, j: int| 0 <= i < j < old(v)@.len() ==> old(v)@[i] < old(v)@[j],
    ensures
        forall|i: int, j: int| 0 <= i < j < final(v)@.len() ==> final(v)@[i] < final(v)@[j],
        forall|y: usize| final(v)@.contains(y) <==> (old(v)@.contains(y) || y == x),
{
    let ghost v0 = v@;
    let mut p: usize = 0;
    while p < v.len() && v[p] < x
        invariant
            p <= v@.len(),
            v@ == v0,
            forall|i: int| 0 <= i < p ==> v@[i] < x,
        decreases v@.len() - p,
    {
        p = p + 1;
    }
    if p < v.len() && v[p] == x {
        proof {
            assert(v0[p as int] == x);
            assert(v0.contains(x));
        }
        return;
    }
    v.insert(p, x);
    proof {
        assert(v@ =~= v0.take(p as int) + seq![x] + v0.skip(p as int));
        assert forall|y: usize| #[trigger] v@.contains(y) implies (v0.contains(y) || y == x) by {
            let i = choose|i: int| 0 <= i < v@.len() && v@[i] == y;
            if i < p {
                assert(v0[i] == y);
            } else if i > p {
                assert(v0[i - 1] == y);
            }
        }
        assert forall|y: usize| v0.contains(y) || y == x implies #[trigger] v@.contains(y) by {
            if y == x {
                assert(v@[p as int] == y);
            } else {
                let i = choose|i: int| 0 <= i < v0.len() && v0[i] == y;
                if i < p {
                    assert(v@[i] == y);
                } else {
                    assert(v@[i + 1] == y);
                }
            }
        }
        assert forall|i: int, j: int| 0 <= i < j < v@.len() implies v@[i] < v@[j] by {
            if j == p {
                assert(v0[i] < x);
            } else if i == p {
                assert(v0[p as int] >= x);
                if j - 1 > p {
                    assert(v0[p as int] < v0[j - 1]);
                }
            }
        }
    }
}

/// Index of the last span covering `start..end`.
fn last_covering(spans: &[StyleSpan], start: usize, end: usize) -> (r: Option<usize>)
    ensures
        match r {
            Some(j) => j < spans@.len() && span_covers(spans@[j as int], start, end) && forall|k: int|
                j < k < spans@.len() ==> !span_covers(#[trigger] spans@[k], start, end),
            None => forall|k: int| 0 <= k < spans@.len() ==> !span_covers(#[trigger] spans@[k], start, end),
        },
{
    let mut k: usize = spans.len();
    while k > 0
        invariant
            0 <= k <= spans@.len(),
            forall|q: int| k <= q < spans@.len() ==> !span_covers(#[trigger] spans@[q], start, end),
        decreases k,
    {
        if spans[k - 1].range.start <= start && end <= spans[k - 1].range.end {
            return Some(k - 1);
        }
        k = k - 1;
    }
    None
}

/// Computes disjoint, sorted styled segments for a line by splitting across
/// span and selection boundaries.
pub fn split_line_intervals<'a>(
    line_len: usize,
    spans: &'a [StyleSpan],
    selection_range: Option<(usize, usize)>,
) -> (segs: Vec<StyledSegment<'a>>)
    ensures
        line_len == 0 ==> segs@.len() == 0,
        line_len > 0 ==> {
            &&& segs@.len() > 0
            &&& segs@[0].range.start == 0
            &&& segs@.last().range.end == line_len
        },
        forall|i: int|
            0 <= i < segs@.len() ==> {
                let g = #[trigger] segs@[i];
                &&& g.range.start < g.range.end
                &&& is_boundary(line_len, spans@, selection_range, g.range.start)
                &&& is_boundary(line_len, spans@, selection_range, g.range.end)
                &&& forall|x: usize|
                    g.range.start < x < g.range.end ==> !is_boundary(
                        line_len,
                        spans@,
                        selection_range,
                        x,
                    )
                &&& g.is_selected == segment_selected(selection_range, g.range.start, g.range.end)
                &&& segment_style(spans@, g.range.start, g.range.end, g.style)
                &&& (i + 1 < segs@.len() ==> g.range.end == segs@[i + 1].range.start)
            },
{
    if line_len == 0 {
        return Vec::new();
    }
    let mut bounds: Vec<usize> = Vec::new();
    insert_unique(&mut bounds, 0);
    insert_unique(&mut bounds, line_len);
    match selection_range {
        Some((s, e)) => {
            insert_unique(&mut bounds, if s <= line_len { s } else { line_len });
            insert_unique(&mut bounds, if e <= line_len { e } else { line_len });
        },
        None => {},
    }
    let mut j: usize = 0;
    while j < spans.len()
        invariant
            0 <= j <= spans@.len(),
            line_len > 0,
            forall|a: int, b: int| 0 <= a < b < bounds@.len() ==> bounds@[a] < bounds@[b],
            forall|y: usize|
                bounds@.contains(y) <==> (y == 0 || y == line_len || (selection_range matches Some((
                    s,
                    e,
                )) && (y == clamp(s, line_len) || y == clamp(e, line_len))) || exists|q: int|
                    0 <= q < j && (y == clamp((#[trigger] spans@[q]).range.start, line_len) || y
                        == clamp(spans@[q].range.end, line_len))),
        decreases spans@.len() - j,
    {
        let st = spans[j].range.start;
        let en = spans[j].range.end;
        insert_unique(&mut bounds, if st <= line_len { st } else { line_len });
        insert_unique(&mut bounds, if en <= line_len { en } else { line_len });
        proof {
            assert forall|y: usize|
                bounds@.contains(y) <==> (y == 0 || y == line_len || (selection_range matches Some((
                    s,
                    e,
                )) && (y == clamp(s, line_len) || y == clamp(e, line_len))) || exists|q: int|
                    0 <= q < j + 1 && (y == clamp((#[trigger] spans@[q]).range.start, line_len) || y
                        == clamp(spans@[q].range.end, line_len))) by {
                if exists|q: int|
                    0 <= q < j + 1 && (y == clamp((#[trigger] spans@[q]).range.start, line_len) || y
                        == clamp(spans@[q].range.end, line_len)) {
                    let q = choose|q: int|
                        0 <= q < j + 1 && (y == clamp((#[trigger] spans@[q]).range.start, line_len)
                            || y == clamp(spans@[q].range.end, line_len));
                    if q < j {
                        assert(exists|q: int|
                            0 <= q < j && (y == clamp((#[trigger] spans@[q]).range.start, line_len)
                                || y == clamp(spans@[q].range.end, line_len)));
                    }
                }
            }
        }
        j = j + 1;
    }
    proof {
        assert forall|y: usize| bounds@.contains(y) <==> is_boundary(line_len, spans@, selection_range, y) by {
        }
        // every boundary is at most line_len, and 0 is the first
        assert forall|a: int| 0 <= a < bounds@.len() implies bounds@[a] <= line_len by {
            assert(bounds@.contains(bounds@[a]));
        }
        assert(bounds@.contains(0));
        assert(bounds@.contains(line_len));
    }
    let ghost bs = bounds@;
    proof {
        let i0 = choose|i: int| 0 <= i < bs.len() && bs[i] == 0usize;
        if i0 > 0 {
            assert(bs[0] < bs[i0]);
        }
        assert(bs[0] == 0);
        let il = choose|i: int| 0 <= i < bs.len() && bs[i] == line_len;
        if il < bs.len() - 1 {
            assert(bs[il] < bs[bs.len() - 1]);
            assert(bs.contains(bs[bs.len() - 1]));
        }
        assert(bs[bs.len() - 1] == line_len);
        assert(bs.len() >= 2);
    }
    let mut segs: Vec<StyledSegment<'a>> = Vec::new();
    let mut w: usize = 0;
    while w < bounds.len() - 1
        invariant
            bounds@ == bs,
            bs.len() >= 2,
            bs[0] == 0,
            bs[bs.len() - 1] == line_len,
            forall|a: int, b: int| 0 <= a < b < bs.len() ==> bs[a] < bs[b],
            forall|y: usize| bs.contains(y) <==> is_boundary(line_len, spans@, selection_range, y),
            w + 1 <= bs.len(),
            segs@.len() == w,
            forall|i: int|
                0 <= i < w ==> (#[trigger] segs@[i]).range.start == bs[i] && segs@[i].range.end
                    == bs[i + 1] && segs@[i].is_selected == segment_selected(
                    selection_range,
                    bs[i],
                    bs[i + 1],
                ) && segment_style(spans@, bs[i], bs[i + 1], segs@[i].style),
        decreases bs.len() - w,
    {
        let start = bounds[w];
        let end = bounds[w + 1];
        let is_selected = match selection_range {
            Some((s, e)) => start >= s && end <= e,
            None => false,
        };
        let style: Option<&'a StyleValue> = match last_covering(spans, start, end) {
            Some(j) => Some(&spans[j].style),
            None => None,
        };
        segs.push(StyledSegment { range: start..end, is_selected, style });
        w = w + 1;
    }
    proof {
        assert forall|i: int| 0 <= i < segs@.len() implies {
            let g = #[trigger] segs@[i];
            &&& g.range.start < g.range.end
            &&& is_boundary(line_len, spans@, selection_range, g.range.start)
            &&& is_boundary(line_len, spans@, selection_range, g.range.end)
            &&& forall|x: usize|
                g.range.start < x < g.range.end ==> !is_boundary(line_len, spans@, selection_range, x)
            &&& g.is_selected == segment_selected(selection_range, g.range.start, g.range.end)
            &&& segment_style(spans@, g.range.start, g.range.end, g.style)
            &&& (i + 1 < segs@.len() ==> g.range.end == segs@[i + 1].range.start)
        } by {
            assert(bs.contains(bs[i]));
            assert(bs.contains(bs[i + 1]));
            assert forall|x: usize| bs[i] < x < bs[i + 1] implies !is_boundary(
                line_len,
                spans@,
                selection_range,
                x,
            ) by {
                if bs.contains(x) {
                    let m = choose|m: int| 0 <= m < bs.len() && bs[m] == x;
                    if m <= i {
                        if m < i {
                            assert(bs[m] < bs[i]);
                        }
                    } else if m >= i + 1 {
                        if m > i + 1 {
                            assert(bs[i + 1] < bs[m]);
                        }
                    }
                }
            }
        }
    }
    segs
}


/// Whether a span conceals its text.
pub open spec fn is_hidden_span(sp: StyleSpan) -> bool {
    sp.style == StyleValue::Tag(HighlightTag::Hidden)
}

/// Whether some span conceals text.
pub open spec fn any_hidden(spans: Seq<StyleSpan>) -> bool {
    exists|j: int| 0 <= j < spans.len() && is_hidden_span(#[trigger] spans[j])
}

/// Whether source byte `b` lies inside a concealing span.
pub open spec fn byte_hidden(spans: Seq<StyleSpan>, b: nat) -> bool {
    exists|j: int|
        0 <= j < spans.len() && is_hidden_span(#[trigger] spans[j]) && spans[j].range.start <= b
            && b < spans[j].range.end
}

/// Consecutive byte offsets `start..start + w`.
pub open spec fn byte_run(start: nat, w: nat) -> Seq<usize> {
    Seq::new(w, |k: int| (start + k) as usize)
}

/// Characters of the first `n` characters of `cs` that stay visible.
pub open spec fn shown_chars(cs: Seq<char>, spans: Seq<StyleSpan>, n: nat) -> Seq<char>
    decreases n,
{
    if n == 0 || n > cs.len() {
        Seq::empty()
    } else {
        let prev = shown_chars(cs, spans, (n - 1) as nat);
        if byte_hidden(spans, byte_at(cs, n - 1)) {
            prev
        } else {
            prev.push(cs[n - 1])
        }
    }
}

/// Source offsets of the display bytes of the first `n` characters.
pub open spec fn shown_map(cs: Seq<char>, spans: Seq<StyleSpan>, n: nat) -> Seq<usize>
    decreases n,
{
    if n == 0 || n > cs.len() {
        Seq::empty()
    } else {
        let prev = shown_map(cs, spans, (n - 1) as nat);
        if byte_hidden(spans, byte_at(cs, n - 1)) {
            prev
        } else {
            prev + byte_run(byte_at(cs, n - 1), char_width(cs[n - 1]))
        }
    }
}

/// Display characters of a concealed line.
pub open spec fn conceal_display(cs: Seq<char>, spans: Seq<StyleSpan>) -> Seq<char> {
    shown_chars(cs, spans, cs.len())
}

/// Display-to-source byte map of a concealed line: one entry per display
/// byte plus the source line length.
pub open spec fn conceal_map(cs: Seq<char>, spans: Seq<StyleSpan>) -> Seq<usize> {
    shown_map(cs, spans, cs.len()).push(byte_len(cs) as usize)
}

/// First index at or after `i` whose entry is at least `x`.
pub open spec fn first_ge_from(m: Seq<usize>, x: usize, i: nat) -> Option<nat>
    decreases m.len() - i,
{
    if i >= m.len() {
        None
    } else if m[i as int] >= x {
        Some(i)
    } else {
        first_ge_from(m, x, i + 1)
    }
}

/// First index of `m` whose source offset is at least `x`, else `dflt`.
pub open spec fn first_at_least(m: Seq<usize>, x: usize, dflt: nat) -> nat {
    match first_ge_from(m, x, 0) {
        Some(i) => i,
        None => dflt,
    }
}

/// Spans remapped into display coordinates: concealing spans dropped,
/// each boundary moved to the first display byte whose source offset
/// reaches it, empty results dropped.
pub open spec fn remap_spans(spans: Seq<StyleSpan>, m: Seq<usize>, dlen: nat) -> Seq<StyleSpan>
    decreases spans.len(),
{
    if spans.len() == 0 {
        Seq::empty()
    } else {
        let prev = remap_spans(spans.drop_last(), m, dlen);
        let sp = spans.last();
        let ns = first_at_least(m, sp.range.start, dlen);
        let ne = first_at_least(m, sp.range.end, dlen);
        if is_hidden_span(sp) || ns >= ne {
            prev
        } else {
            prev.push(StyleSpan { range: Range { start: ns as usize, end: ne as usize }, style: sp.style })
        }
    }
}

/// Display padding spliced into a [`ConcealedLine`]'s display text.
#[derive(Debug, Clone, Copy, PartialEq, Eq, Structural)]
pub struct DisplayPad {
    /// Collapsed-display byte offset the padding is inserted before.
    pub display_at: usize,
    /// Fill character.
    pub fill: char,
    /// Number of times `fill` is repeated.
    pub len: usize,
}

/// A display line with concealed tokens collapsed, mapped back to source
/// byte offsets.
#[derive(Debug)]
pub struct ConcealedLine {
    /// The transformed text rendered on screen.
    pub display_text: String,
    /// Highlight spans in display coordinates.
    pub spans: Vec<StyleSpan>,
    byte_map: Vec<usize>,
}

fn copy_spans(spans: &[StyleSpan]) -> (v: Vec<StyleSpan>)
    ensures
        v@ == spans@,
{
    let mut v: Vec<StyleSpan> = Vec::new();
    let mut i: usize = 0;
    while i < spans.len()
        invariant
            0 <= i <= spans@.len(),
            v@ == spans@.take(i as int),
        decreases spans@.len() - i,
    {
        v.push(spans[i].clone());
        proof {
            assert(v@ =~= spans@.take(i + 1));
        }
        i = i + 1;
    }
    proof {
        assert(spans@.take(spans@.len() as int) =~= spans@);
    }
    v
}

fn is_hidden_exec(sp: &StyleSpan) -> (b: bool)
    ensures
        b == is_hidden_span(*sp),
{
    match sp.style {
        StyleValue::Tag(HighlightTag::Hidden) => true,
        _ => false,
    }
}

fn any_hidden_exec(spans: &[StyleSpan]) -> (b: bool)
    ensures
        b == any_hidden(spans@),
{
    let mut i: usize = 0;
    while i < spans.len()
        invariant
            0 <= i <= spans@.len(),
            forall|k: int| 0 <= k < i ==> !is_hidden_span(#[trigger] spans@[k]),
        decreases spans@.len() - i,
    {
        if is_hidden_exec(&spans[i]) {
            return true;
        }
        i = i + 1;
    }
    false
}

fn byte_hidden_exec(spans: &[StyleSpan], b: usize) -> (r: bool)
    ensures
        r == byte_hidden(spans@, b as nat),
{
    let mut i: usize = 0;
    while i < spans.len()
        invariant
            0 <= i <= spans@.len(),
            forall|k: int|
                0 <= k < i ==> !(is_hidden_span(#[trigger] spans@[k]) && spans@[k].range.start <= b
                    && b < spans@[k].range.end),
        decreases spans@.len() - i,
    {
        if is_hidden_exec(&spans[i]) && spans[i].range.start <= b && b < spans[i].range.end {
            return true;
        }
        i = i + 1;
    }
    false
}

fn first_at_least_exec(m: &Vec<usize>, x: usize, dflt: usize) -> (r: usize)
    ensures
        r == first_at_least(m@, x, dflt as nat),
{
    let mut i: usize = 0;
    while i < m.len()
        invariant
            0 <= i <= m@.len(),
            first_ge_from(m@, x, 0) == first_ge_from(m@, x, i as nat),
        decreases m@.len() - i,
    {
        if m[i] >= x {
            return i;
        }
        i = i + 1;
    }
    dflt
}

impl ConcealedLine {
    /// The display-to-source byte map.
    pub closed spec fn source_map(&self) -> Seq<usize> {
        self.byte_map@
    }

    /// The display text.
    pub closed spec fn display_view(&self) -> Seq<char> {
        self.display_text@
    }

    /// The spans in display coordinates.
    pub closed spec fn spans_view(&self) -> Seq<StyleSpan> {
        self.spans@
    }

    /// The display text, borrowed.
    pub fn display_str(&self) -> (s: &str)
        ensures
            s@ == self.display_view(),
    {
        self.display_text.as_str()
    }

    /// Constructs a concealed line from raw line text and syntax spans:
    /// characters starting inside a concealing span are dropped and the
    /// remaining spans are remapped to display coordinates.
    pub fn build(line_text: &str, spans: &[StyleSpan]) -> (c: Self)
        ensures
            c.display_view() == conceal_display(line_text@, spans@),
            c.source_map() == conceal_map(line_text@, spans@),
            c.source_map().len() == byte_len(c.display_view()) + 1,
            !any_hidden(spans@) ==> c.spans_view() == spans@,
            any_hidden(spans@) ==> c.spans_view() == remap_spans(
                spans@,
                conceal_map(line_text@, spans@),
                byte_len(conceal_display(line_text@, spans@)),
            ),
    {
        let cs = str_chars(line_text);
        let has_hidden = any_hidden_exec(spans);
        let mut shown: Vec<char> = Vec::new();
        let mut map: Vec<usize> = Vec::new();
        let mut off: usize = 0;
        let mut dlen: usize = 0;
        let mut i: usize = 0;
        proof {
            assert(cs@.take(0) =~= Seq::<char>::empty());
        }
        while i < cs.len()
            invariant
                cs@ == line_text@,
                byte_len(cs@) <= usize::MAX,
                has_hidden == any_hidden(spans@),
                0 <= i <= cs@.len(),
                off == byte_at(cs@, i as int),
                shown@ == shown_chars(cs@, spans@, i as nat),
                map@ == shown_map(cs@, spans@, i as nat),
                dlen == byte_len(shown@),
                dlen <= off,
            decreases cs@.len() - i,
        {
            let c = cs[i];
            let w = char_len_utf8(c);
            proof {
                lemma_byte_at_step(cs@, i as int);
                lemma_byte_at_mono(cs@, i as int + 1, cs@.len() as int);
                lemma_byte_at_len(cs@);
            }
            let hidden = has_hidden && byte_hidden_exec(spans, off);
            proof {
                if !has_hidden && byte_hidden(spans@, off as nat) {
                    let j = choose|j: int|
                        0 <= j < spans@.len() && is_hidden_span(#[trigger] spans@[j])
                            && spans@[j].range.start <= off && off < spans@[j].range.end;
                    assert(is_hidden_span(spans@[j]));
                }
            }
            if !hidden {
                let ghost m0 = map@;
                let mut k: usize = 0;
                while k < w
                    invariant
                        0 <= k <= w,
                        off + w <= usize::MAX,
                        map@ == m0 + byte_run(off as nat, k as nat),
                    decreases w - k,
                {
                    map.push(off + k);
                    proof {
                        assert(map@ =~= m0 + byte_run(off as nat, (k + 1) as nat));
                    }
                    k = k + 1;
                }
                let ghost s0 = shown@;
                shown.push(c);
                proof {
                    assert(shown@.drop_last() =~= s0);
                }
                dlen = dlen + w;
            }
            off = off + w;
            i = i + 1;
        }
        proof {
            lemma_byte_at_len(cs@);
        }
        map.push(off);
        let display_text = chars_to_string(&shown);
        let new_spans = if has_hidden {
            let mut out: Vec<StyleSpan> = Vec::new();
            let mut j: usize = 0;
            proof {
                assert(spans@.take(0) =~= Seq::<StyleSpan>::empty());
            }
            while j < spans.len()
                invariant
                    0 <= j <= spans@.len(),
                    out@ == remap_spans(spans@.take(j as int), map@, dlen as nat),
                decreases spans@.len() - j,
            {
                proof {
                    assert(spans@.take(j + 1).drop_last() =~= spans@.take(j as int));
                }
                if !is_hidden_exec(&spans[j]) {
                    let ns = first_at_least_exec(&map, spans[j].range.start, dlen);
                    let ne = first_at_least_exec(&map, spans[j].range.end, dlen);
                    if ns < ne {
                        out.push(StyleSpan { range: ns..ne, style: spans[j].style });
                    }
                }
                j = j + 1;
            }
            proof {
                assert(spans@.take(spans@.len() as int) =~= spans@);
            }
            out
        } else {
            copy_spans(spans)
        };
        proof {
            lemma_shown_map(line_text@, spans@, line_text@.len());
        }
        ConcealedLine { display_text, spans: new_spans, byte_map: map }
    }

    /// Converts a display byte offset to a source line byte offset: past the
    /// map's end, the last source offset (0 for an empty map).
    pub fn display_to_source(&self, display_col: usize) -> (r: usize)
        ensures
            r == (if display_col < self.source_map().len() {
                self.source_map()[display_col as int]
            } else if self.source_map().len() > 0 {
                self.source_map().last()
            } else {
                0
            }),
            r == source_of_display(self.source_map(), display_col),
    {
        if display_col >= self.byte_map.len() {
            if self.byte_map.len() > 0 {
                self.byte_map[self.byte_map.len() - 1]
            } else {
                0
            }
        } else {
            self.byte_map[display_col]
        }
    }

    /// Converts a source line byte offset to the first display byte whose
    /// source offset reaches it, capped at the display length.
    pub fn source_to_display(&self, source_col: usize) -> (r: usize)
        ensures
            r == (if first_at_least(self.source_map(), source_col, self.source_map().len())
                <= byte_len(self.display_view()) as usize {
                first_at_least(self.source_map(), source_col, self.source_map().len())
            } else {
                byte_len(self.display_view()) as usize as nat
            }),
            r == display_of_source(self.source_map(), byte_len(self.display_view()), source_col),
    {
        let p = first_at_least_exec(&self.byte_map, source_col, self.byte_map.len());
        let dl = str_byte_len(self.display_text.as_str());
        if p <= dl {
            p
        } else {
            dl
        }
    }
}

/// `p` placed after every pad of the sorted `s` whose position is not
/// greater (a stable insertion).
pub open spec fn insert_pad(s: Seq<DisplayPad>, p: DisplayPad) -> Seq<DisplayPad>
    decreases s.len(),
{
    if s.len() == 0 {
        seq![p]
    } else if s.last().display_at <= p.display_at {
        s.push(p)
    } else {
        insert_pad(s.drop_last(), p).push(s.last())
    }
}

/// `s` sorted by position, pads at equal positions keeping their order.
pub open spec fn sort_pads(s: Seq<DisplayPad>) -> Seq<DisplayPad>
    decreases s.len(),
{
    if s.len() == 0 {
        Seq::empty()
    } else {
        insert_pad(sort_pads(s.drop_last()), s.last())
    }
}

fn insert_pad_exec(v: &mut Vec<DisplayPad>, p: DisplayPad)
    ensures
        final(v)@ == insert_pad(old(v)@, p),
{
    let ghost s = v@;
    let mut pos = v.len();
    proof {
        assert(s.take(pos as int) =~= s);
        assert(s.skip(pos as int) =~= Seq::<DisplayPad>::empty());
    }
    while pos > 0 && v[pos - 1].display_at > p.display_at
        invariant
            pos <= s.len(),
            v@ == s,
            insert_pad(s, p) == insert_pad(s.take(pos as int), p) + s.skip(pos as int),
        decreases pos,
    {
        proof {
            let t = s.take(pos as int);
            assert(t.drop_last() =~= s.take(pos - 1));
            assert(t.last() == s[pos - 1]);
            assert(insert_pad(t, p) == insert_pad(s.take(pos - 1), p).push(s[pos - 1]));
            assert(s.skip(pos - 1) =~= seq![s[pos - 1]] + s.skip(pos as int));
            assert(insert_pad(s.take(pos - 1), p).push(s[pos - 1]) + s.skip(pos as int)
                =~= insert_pad(s.take(pos - 1), p) + s.skip(pos - 1));
        }
        pos = pos - 1;
    }
    proof {
        let t = s.take(pos as int);
        if pos > 0 {
            assert(insert_pad(t, p) == t.push(p));
        } else {
            assert(t =~= Seq::<DisplayPad>::empty());
        }
        assert(insert_pad(t, p) + s.skip(pos as int) =~= s.take(pos as int).push(p) + s.skip(
            pos as int,
        ));
    }
    v.insert(pos, p);
    proof {
        assert(v@ =~= s.take(pos as int).push(p) + s.skip(pos as int));
    }
}

fn sort_pads_exec(pads: &[DisplayPad]) -> (v: Vec<DisplayPad>)
    ensures
        v@ == sort_pads(pads@),
{
    let mut v: Vec<DisplayPad> = Vec::new();
    let mut i: usize = 0;
    proof {
        assert(pads@.take(0) =~= Seq::<DisplayPad>::empty());
    }
    while i < pads.len()
        invariant
            i <= pads@.len(),
            v@ == sort_pads(pads@.take(i as int)),
        decreases pads@.len() - i,
    {
        proof {
            assert(pads@.take(i + 1).drop_last() =~= pads@.take(i as int));
            assert(pads@.take(i + 1).last() == pads@[i as int]);
        }
        insert_pad_exec(&mut v, pads[i]);
        i = i + 1;
    }
    proof {
        assert(pads@.take(i as int) =~= pads@);
    }
    v
}

/// First character of `d`, from index `k` on, whose byte offset reaches
/// `b` (the character count when none does).
pub open spec fn first_char_from(d: Seq<char>, b: nat, k: nat) -> nat
    decreases d.len() - k,
{
    if k >= d.len() {
        d.len()
    } else if byte_at(d, k as int) >= b {
        k
    } else {
        first_char_from(d, b, k + 1)
    }
}

proof fn lemma_first_char_from(d: Seq<char>, b: nat, k: nat)
    requires
        k <= d.len(),
    ensures
        k <= first_char_from(d, b, k) <= d.len(),
    decreases d.len() - k,
{
    if k < d.len() && byte_at(d, k as int) < b {
        lemma_first_char_from(d, b, k + 1);
    }
}

/// The character index a pad is inserted before: the first character
/// boundary at or after its position, clamped to the text's end.
pub open spec fn pad_char(d: Seq<char>, p: DisplayPad) -> nat {
    first_char_from(
        d,
        if (p.display_at as nat) < byte_len(d) {
            p.display_at as nat
        } else {
            byte_len(d)
        },
        0,
    )
}

/// Bytes a pad adds.
pub open spec fn pad_bytes(p: DisplayPad) -> nat {
    p.len as nat * char_width(p.fill)
}

/// Bytes added by pads `i` onward.
pub open spec fn pads_total_from(ps: Seq<DisplayPad>, i: nat) -> nat
    decreases ps.len() - i,
{
    if i >= ps.len() {
        0
    } else {
        pad_bytes(ps[i as int]) + pads_total_from(ps, i + 1)
    }
}

/// Bytes added before display byte `b` by the sorted pads from `i` on:
/// pads are counted while their position is at most `b`.
pub open spec fn shift_sum(ps: Seq<DisplayPad>, b: nat, i: nat) -> nat
    decreases ps.len() - i,
{
    if i >= ps.len() {
        0
    } else if ps[i as int].display_at <= b {
        pad_bytes(ps[i as int]) + shift_sum(ps, b, i + 1)
    } else {
        0
    }
}

proof fn lemma_shift_sum_bound(ps: Seq<DisplayPad>, b: nat, i: nat)
    ensures
        shift_sum(ps, b, i) <= pads_total_from(ps, i),
        pads_total_from(ps, i) <= pads_total_from(ps, 0),
    decreases ps.len() - i,
{
    if i < ps.len() {
        lemma_shift_sum_bound(ps, b, i + 1);
    }
    lemma_total_suffix(ps, i);
}

proof fn lemma_total_suffix(ps: Seq<DisplayPad>, i: nat)
    ensures
        pads_total_from(ps, i) <= pads_total_from(ps, 0),
    decreases i,
{
    if i > 0 && i <= ps.len() {
        lemma_total_suffix(ps, (i - 1) as nat);
    }
}

/// The text and byte map of a line with the sorted pads `ps` from `i` on
/// spliced in, `cc` characters of the original already consumed.
pub open spec fn expand_from(d: Seq<char>, m: Seq<usize>, ps: Seq<DisplayPad>, i: nat, cc: nat) -> (
    Seq<char>,
    Seq<usize>,
)
    decreases ps.len() - i,
{
    if i >= ps.len() {
        (d.skip(cc as int), m.skip(byte_at(d, cc as int) as int))
    } else {
        let p = ps[i as int];
        let at = pad_char(d, p);
        if p.len == 0 || at < cc {
            expand_from(d, m, ps, i + 1, cc)
        } else {
            let rest = expand_from(d, m, ps, i + 1, at);
            let ab = byte_at(d, at as int);
            (
                d.subrange(cc as int, at as int) + Seq::new(p.len as nat, |k: int| p.fill) + rest.0,
                m.subrange(byte_at(d, cc as int) as int, ab as int) + Seq::new(
                    pad_bytes(p),
                    |k: int| m[ab as int],
                ) + rest.1,
            )
        }
    }
}

/// A span with both ends moved right past the pads placed at or before
/// them.
pub open spec fn shift_span(sp: StyleSpan, ps: Seq<DisplayPad>) -> StyleSpan {
    StyleSpan {
        range: (sp.range.start + shift_sum(ps, sp.range.start as nat, 0)) as usize..(sp.range.end
            + shift_sum(ps, sp.range.end as nat, 0)) as usize,
        style: sp.style,
    }
}

fn shift_exec(ps: &Vec<DisplayPad>, b: usize) -> (r: usize)
    requires
        b + pads_total_from(ps@, 0) <= usize::MAX,
    ensures
        r == b + shift_sum(ps@, b as nat, 0),
{
    let mut out = b;
    let mut i: usize = 0;
    proof {
        lemma_shift_sum_bound(ps@, b as nat, 0);
    }
    while i < ps.len() && ps[i].display_at <= b
        invariant
            i <= ps@.len(),
            b + pads_total_from(ps@, 0) <= usize::MAX,
            shift_sum(ps@, b as nat, 0) <= pads_total_from(ps@, 0),
            out + shift_sum(ps@, b as nat, i as nat) == b + shift_sum(ps@, b as nat, 0),
        decreases ps@.len() - i,
    {
        proof {
            assert(shift_sum(ps@, b as nat, i as nat) == pad_bytes(ps@[i as int]) + shift_sum(
                ps@,
                b as nat,
                (i + 1) as nat,
            ));
        }
        let w = char_len_utf8(ps[i].fill);
        let n = mul_bounded(ps[i].len, w, (usize::MAX - out) as usize);
        out = out + n;
        i = i + 1;
    }
    out
}

fn mul_bounded(a: usize, b: usize, cap: usize) -> (r: usize)
    requires
        a * b <= cap,
    ensures
        r == a * b,
{
    assert(a * b <= usize::MAX) by (nonlinear_arith)
        requires
            a * b <= cap,
            cap <= usize::MAX,
    ;
    a * b
}

fn push_range_usize(out: &mut Vec<usize>, m: &Vec<usize>, lo: usize, hi: usize)
    requires
        lo <= hi <= m@.len(),
    ensures
        final(out)@ == old(out)@ + m@.subrange(lo as int, hi as int),
{
    let mut j: usize = lo;
    while j < hi
        invariant
            lo <= j <= hi <= m@.len(),
            out@ == old(out)@ + m@.subrange(lo as int, j as int),
        decreases hi - j,
    {
        out.push(m[j]);
        proof {
            assert(out@ =~= old(out)@ + m@.subrange(lo as int, j + 1));
        }
        j = j + 1;
    }
}

fn push_repeat_char(out: &mut Vec<char>, c: char, n: usize)
    ensures
        final(out)@ == old(out)@ + Seq::new(n as nat, |k: int| c),
{
    let mut j: usize = 0;
    while j < n
        invariant
            j <= n,
            out@ == old(out)@ + Seq::new(j as nat, |k: int| c),
        decreases n - j,
    {
        out.push(c);
        proof {
            assert(out@ =~= old(out)@ + Seq::new((j + 1) as nat, |k: int| c));
        }
        j = j + 1;
    }
}

fn push_repeat_usize(out: &mut Vec<usize>, x: usize, n: usize)
    ensures
        final(out)@ == old(out)@ + Seq::new(n as nat, |k: int| x),
{
    let mut j: usize = 0;
    while j < n
        invariant
            j <= n,
            out@ == old(out)@ + Seq::new(j as nat, |k: int| x),
        decreases n - j,
    {
        out.push(x);
        proof {
            assert(out@ =~= old(out)@ + Seq::new((j + 1) as nat, |k: int| x));
        }
        j = j + 1;
    }
}

fn copy_usizes(m: &Vec<usize>) -> (r: Vec<usize>)
    ensures
        r@ == m@,
{
    let mut r: Vec<usize> = Vec::new();
    push_range_usize(&mut r, m, 0, m.len());
    proof {
        assert(m@.subrange(0, m@.len() as int) =~= m@);
    }
    r
}

impl ConcealedLine {
    /// Returns a copy of this line with display-only padding spliced in.
    ///
    /// Pads apply in ascending position order against the original
    /// collapsed coordinates, each at the first character boundary at or
    /// after its position; a pad landing before text already consumed is
    /// skipped. Span boundaries at or after a pad's position shift right
    /// past it, and every padding byte maps back to the source offset of
    /// the display byte it was inserted before.
    pub fn expanded(&self, pads: &[DisplayPad]) -> (c: Self)
        requires
            self.source_map().len() > byte_len(self.display_view()),
            pads_total_from(sort_pads(pads@), 0) + self.source_map().len() <= usize::MAX,
            forall|k: int|
                0 <= k < self.spans_view().len() ==> (#[trigger] self.spans_view()[k]).range.start
                    + pads_total_from(sort_pads(pads@), 0) <= usize::MAX
                    && self.spans_view()[k].range.end + pads_total_from(sort_pads(pads@), 0)
                    <= usize::MAX,
        ensures
            pads@.len() == 0 ==> c.display_view() == self.display_view() && c.source_map()
                == self.source_map() && c.spans_view() == self.spans_view(),
            pads@.len() > 0 ==> ({
                let ps = sort_pads(pads@);
                let r = expand_from(self.display_view(), self.source_map(), ps, 0, 0);
                &&& c.display_view() == r.0
                &&& c.source_map() == r.1
                &&& c.spans_view() == self.spans_view().map_values(
                    |sp: StyleSpan| shift_span(sp, ps),
                )
            }),
    {
        if pads.len() == 0 {
            return ConcealedLine {
                display_text: self.display_text.clone(),
                spans: copy_spans(self.spans.as_slice()),
                byte_map: copy_usizes(&self.byte_map),
            };
        }
        let sorted = sort_pads_exec(pads);
        let ghost ps = sorted@;
        let ghost dd = self.display_view();
        let ghost mm = self.source_map();
        let ghost full = expand_from(dd, mm, ps, 0, 0);
        let d = str_chars(self.display_text.as_str());
        let offs = char_offsets(&d);
        proof {
            lemma_byte_at_len(dd);
            lemma_total_suffix(ps, 0);
        }
        let lb = offs[d.len()];
        let mut text: Vec<char> = Vec::new();
        let mut map: Vec<usize> = Vec::new();
        let mut cc: usize = 0;
        let mut i: usize = 0;
        proof {
            assert(text@ + full.0 =~= full.0);
            assert(map@ + full.1 =~= full.1);
        }
        while i < sorted.len()
            invariant
                i <= ps.len() == sorted@.len(),
                ps == sorted@,
                d@ == dd,
                dd == self.display_view(),
                mm == self.source_map(),
                mm.len() > byte_len(dd),
                offs@.len() == dd.len() + 1,
                forall|m: int| 0 <= m <= dd.len() ==> offs@[m] == byte_at(dd, m),
                lb == byte_len(dd),
                pads_total_from(ps, 0) + mm.len() <= usize::MAX,
                cc <= dd.len(),
                text@ + expand_from(dd, mm, ps, i as nat, cc as nat).0 == full.0,
                map@ + expand_from(dd, mm, ps, i as nat, cc as nat).1 == full.1,
            decreases ps.len() - i,
        {
            let p = sorted[i];
            if p.len != 0 {
                let target = if p.display_at < lb {
                    p.display_at
                } else {
                    lb
                };
                let mut k: usize = 0;
                while k < d.len() && offs[k] < target
                    invariant
                        k <= dd.len(),
                        d@ == dd,
                        offs@.len() == dd.len() + 1,
                        forall|m: int| 0 <= m <= dd.len() ==> offs@[m] == byte_at(dd, m),
                        first_char_from(dd, target as nat, k as nat) == first_char_from(
                            dd,
                            target as nat,
                            0,
                        ),
                    decreases dd.len() - k,
                {
                    k = k + 1;
                }
                assert(k == pad_char(dd, p));
                if k >= cc {
                    let ghost t0 = text@;
                    let ghost m0 = map@;
                    let ghost rest = expand_from(dd, mm, ps, (i + 1) as nat, k as nat);
                    proof {
                        lemma_byte_at_len(dd);
                        lemma_byte_at_mono(dd, cc as int, k as int);
                        lemma_byte_at_mono(dd, k as int, dd.len() as int);
                        lemma_shift_sum_bound(ps, 0, i as nat);
                        assert(pads_total_from(ps, i as nat) == pad_bytes(p) + pads_total_from(
                            ps,
                            (i + 1) as nat,
                        ));
                    }
                    let seg = slice_chars(&d, cc, k);
                    push_all(&mut text, &seg);
                    push_range_usize(&mut map, &self.byte_map, offs[cc], offs[k]);
                    let anchor = self.byte_map[offs[k]];
                    push_repeat_char(&mut text, p.fill, p.len);
                    let w = char_len_utf8(p.fill);
                    let n = mul_bounded(p.len, w, usize::MAX);
                    push_repeat_usize(&mut map, anchor, n);
                    proof {
                        assert(text@ + rest.0 =~= t0 + expand_from(dd, mm, ps, i as nat, cc as nat).0);
                        assert(map@ + rest.1 =~= m0 + expand_from(dd, mm, ps, i as nat, cc as nat).1);
                    }
                    cc = k;
                }
            }
            i = i + 1;
        }
        let ghost t0 = text@;
        let ghost m0 = map@;
        let tail = slice_chars(&d, cc, d.len());
        push_all(&mut text, &tail);
        proof {
            lemma_byte_at_mono(dd, cc as int, dd.len() as int);
        }
        push_range_usize(&mut map, &self.byte_map, offs[cc], self.byte_map.len());
        proof {
            assert(text@ =~= t0 + dd.skip(cc as int));
            assert(map@ =~= m0 + mm.skip(byte_at(dd, cc as int) as int));
        }
        let mut spans: Vec<StyleSpan> = Vec::new();
        let mut j: usize = 0;
        while j < self.spans.len()
            invariant
                j <= self.spans@.len(),
                ps == sorted@,
                forall|k: int|
                    0 <= k < self.spans_view().len() ==> (#[trigger] self.spans_view()[k]).range.start
                        + pads_total_from(ps, 0) <= usize::MAX && self.spans_view()[k].range.end
                        + pads_total_from(ps, 0) <= usize::MAX,
                self.spans_view() == self.spans@,
                spans@ == self.spans@.take(j as int).map_values(|sp: StyleSpan| shift_span(sp, ps)),
            decreases self.spans@.len() - j,
        {
            let sp = &self.spans[j];
            proof {
                lemma_shift_sum_bound(ps, sp.range.start as nat, 0);
                lemma_shift_sum_bound(ps, sp.range.end as nat, 0);
            }
            let a = shift_exec(&sorted, sp.range.start);
            let b = shift_exec(&sorted, sp.range.end);
            spans.push(StyleSpan { range: a..b, style: sp.style });
            proof {
                assert(spans@ =~= self.spans@.take(j + 1).map_values(|sp: StyleSpan| shift_span(sp, ps)));
            }
            j = j + 1;
        }
        proof {
            assert(self.spans@.take(j as int) =~= self.spans@);
        }
        ConcealedLine { display_text: chars_to_string(&text), spans, byte_map: map }
    }
}

/// Display width in terminal columns of a string, as `unicode-width`
/// measures it.
pub uninterp spec fn str_display_width(s: Seq<char>) -> nat;

/// Returns the display width of `s` in columns (`UnicodeWidthStr::width`).
///
/// Trusted: the result is the width `unicode-width` computes for the
/// characters of `s`; which width each character has is left to the name.
#[verifier::external_body]
pub fn display_width(s: &str) -> (w: usize)
    ensures
        w == str_display_width(s@),
{
    unicode_width::UnicodeWidthStr::width(s)
}


/// A search for the first offset reaching `x2` from `i` finds nothing
/// earlier than the search for `x1 <= x2`, and never passes the end.
proof fn lemma_first_ge_mono(m: Seq<usize>, x1: usize, x2: usize, i: nat)
    requires
        x1 <= x2,
    ensures
        first_ge_from(m, x1, i) matches Some(a) ==> i <= a < m.len(),
        first_ge_from(m, x2, i) matches Some(b) ==> first_ge_from(m, x1, i) matches Some(a) && a <= b,
    decreases m.len() - i,
{
    if i < m.len() {
        lemma_first_ge_mono(m, x1, x2, i + 1);
    }
}

/// The display offset `source_to_display` gives for source offset `s`.
pub open spec fn display_of_source(map: Seq<usize>, dlen: nat, s: usize) -> nat {
    let p = first_at_least(map, s, map.len());
    if p <= dlen as usize { p } else { dlen as usize as nat }
}

/// Mapping source offsets to display offsets keeps their order and never
/// passes the end of the display text.
pub proof fn law_source_to_display_monotone(c: ConcealedLine, s1: usize, s2: usize)
    requires
        s1 <= s2,
        byte_len(c.display_view()) <= usize::MAX,
    ensures
        display_of_source(c.source_map(), byte_len(c.display_view()), s1) <= display_of_source(
            c.source_map(),
            byte_len(c.display_view()),
            s2,
        ),
        display_of_source(c.source_map(), byte_len(c.display_view()), s2) <= byte_len(c.display_view()),
{
    lemma_first_ge_mono(c.source_map(), s1, s2, 0);
    lemma_first_ge_mono(c.source_map(), s2, s2, 0);
}


/// The source offset `display_to_source` gives for display offset `d`.
pub open spec fn source_of_display(map: Seq<usize>, d: usize) -> usize {
    if d < map.len() {
        map[d as int]
    } else if map.len() > 0 {
        map.last()
    } else {
        0
    }
}

/// The map of the first `n` characters has one entry per shown byte, in
/// increasing order, all before the `n`-th character's offset.
proof fn lemma_shown_map(cs: Seq<char>, spans: Seq<StyleSpan>, n: nat)
    requires
        n <= cs.len(),
        byte_len(cs) <= usize::MAX,
    ensures
        shown_map(cs, spans, n).len() == byte_len(shown_chars(cs, spans, n)),
        forall|i: int, j: int|
            0 <= i < j < shown_map(cs, spans, n).len() ==> shown_map(cs, spans, n)[i] < shown_map(cs, spans, n)[j],
        forall|i: int| 0 <= i < shown_map(cs, spans, n).len() ==> shown_map(cs, spans, n)[i] < byte_at(cs, n as int),
    decreases n,
{
    if n > 0 {
        lemma_shown_map(cs, spans, (n - 1) as nat);
        crate::text::lemma_byte_at_step(cs, n - 1);
        crate::text::lemma_byte_at_mono(cs, n as int, cs.len() as int);
        crate::text::lemma_byte_at_len(cs);
        let prev = shown_map(cs, spans, (n - 1) as nat);
        let pc = shown_chars(cs, spans, (n - 1) as nat);
        if !byte_hidden(spans, byte_at(cs, n - 1)) {
            let b = byte_at(cs, n - 1);
            let w = char_width(cs[n - 1]);
            let run = byte_run(b, w);
            assert forall|k: int| 0 <= k < run.len() implies run[k] == b + k by {}
            let m = prev + run;
            assert(m == shown_map(cs, spans, n));
            assert(pc.push(cs[n - 1]).drop_last() =~= pc);
            assert forall|i: int, j: int| 0 <= i < j < m.len() implies m[i] < m[j] by {
                if j >= prev.len() && i < prev.len() {
                    assert(m[j] == run[j - prev.len()]);
                }
            }
        }
    }
}

/// A shown character's first byte is in the map, right after the entries
/// of the characters before it.
proof fn lemma_shown_at(cs: Seq<char>, spans: Seq<StyleSpan>, k: nat, n: nat)
    requires
        k < n <= cs.len(),
        byte_len(cs) <= usize::MAX,
        !byte_hidden(spans, byte_at(cs, k as int)),
    ensures
        shown_map(cs, spans, k).len() < shown_map(cs, spans, n).len(),
        shown_map(cs, spans, n)[shown_map(cs, spans, k).len() as int] == byte_at(cs, k as int),
    decreases n,
{
    crate::text::lemma_byte_at_mono(cs, k as int, cs.len() as int);
    crate::text::lemma_byte_at_len(cs);
    if n == k + 1 {
        let w = char_width(cs[k as int]);
        assert(w >= 1);
        assert(byte_run(byte_at(cs, k as int), w)[0] == byte_at(cs, k as int));
    } else {
        lemma_shown_at(cs, spans, k, (n - 1) as nat);
    }
}

/// A visible source byte survives the trip to display and back: the
/// display offset it maps to maps back to it.
pub proof fn law_display_round_trip(c: ConcealedLine, line: Seq<char>, spans: Seq<StyleSpan>, s: usize)
    requires
        c.display_view() == conceal_display(line, spans),
        c.source_map() == conceal_map(line, spans),
        byte_len(line) <= usize::MAX,
        byte_len(c.display_view()) <= usize::MAX,
        s < byte_len(line),
        crate::rope_text::is_char_boundary(line, s as nat),
        !byte_hidden(spans, s as nat),
    ensures
        source_of_display(
            c.source_map(),
            display_of_source(c.source_map(), byte_len(c.display_view()), s) as usize,
        ) == s,
{
    let k = crate::rope_text::char_of_byte(line, s as nat);
    crate::buffer::lemma_boundary(line, s as nat);
    if k >= line.len() {
        crate::text::lemma_byte_at_len(line);
        assert(k == line.len());
    }
    assert(k < line.len());
    let n = line.len();
    lemma_shown_map(line, spans, n);
    lemma_shown_at(line, spans, k, n);
    let sm = shown_map(line, spans, n);
    let map = conceal_map(line, spans);
    let j = shown_map(line, spans, k).len();
    crate::text::lemma_byte_at_len(line);
    assert(map[j as int] == s);
    assert forall|i: int| 0 <= i < j implies map[i] < s by {}
    lemma_first_ge_at(map, s, 0, j);
    assert(first_at_least(map, s, map.len()) == j);
    assert(j < byte_len(c.display_view()));
    assert(display_of_source(c.source_map(), byte_len(c.display_view()), s) == j);
    assert(j < map.len());
}

proof fn lemma_first_ge_at(m: Seq<usize>, x: usize, i: nat, j: nat)
    requires
        i <= j < m.len(),
        m[j as int] == x,
        forall|k: int| 0 <= k < j ==> m[k] < x,
    ensures
        first_ge_from(m, x, i) == Some(j),
    decreases j - i,
{
    if i < j {
        lemma_first_ge_at(m, x, i + 1, j);
    }
}

} // verus!
