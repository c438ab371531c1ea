//! Markdown list items: indentation, bullet and ordered markers, task boxes.
//!
//! Indentation and markers are ASCII, so the character counts reported here
//! are byte offsets as well.
use vstd::prelude::*;
use crate::text::{
    byte_len, chars_to_string, decimal_digits, lemma_byte_len_ge_len, push_decimal, slice_chars,
    str_chars,
};

verus! {

/// Marker style for a Markdown list item.
#[derive(Debug, Clone, PartialEq, Eq)]
pub enum ListMarker {
    /// `-`, `*` or `+`, with an optional task box character.
    Bullet { bullet: char, task: Option<char> },
    /// `N.` or `N)`, with an optional task box character.
    Ordered { number: usize, delimiter: char, task: Option<char> },
}

impl ListMarker {
    /// The number of an ordered marker.
    pub fn number(&self) -> (n: Option<usize>)
        ensures
            n == match *self {
                ListMarker::Ordered { number, .. } => Some(number),
                ListMarker::Bullet { .. } => None,
            },
    {
        match self {
            ListMarker::Ordered { number, .. } => Some(*number),
            ListMarker::Bullet { .. } => None,
        }
    }
}

/// Parsed structure of a single list item line.
#[derive(Debug, Clone, PartialEq, Eq)]
pub struct ParsedListItem {
    /// Indentation width in columns (tabs advance to the next multiple of 4).
    pub indent_width: usize,
    /// Byte length of the indentation.
    pub indent_bytes: usize,
    /// The marker.
    pub marker: ListMarker,
    /// Byte offset where the item's content begins.
    pub content_start_byte: usize,
}

/// Width and length of the run of spaces and tabs starting at `i`, with
/// `width` columns already counted.
pub open spec fn indent_run(cs: Seq<char>, i: nat, width: nat) -> (nat, nat)
    decreases cs.len() - i,
{
    if i < cs.len() && cs[i as int] == ' ' {
        indent_run(cs, i + 1, width + 1)
    } else if i < cs.len() && cs[i as int] == '\t' {
        indent_run(cs, i + 1, (width + 4 - width % 4) as nat)
    } else {
        (width, i)
    }
}

/// The indentation width never shrinks while scanning.
pub proof fn lemma_indent_run_grows(cs: Seq<char>, i: nat, width: nat)
    ensures
        indent_run(cs, i, width).0 >= width,
        i <= cs.len() ==> i <= indent_run(cs, i, width).1 <= cs.len(),
    decreases cs.len() - i,
{
    if i < cs.len() && cs[i as int] == ' ' {
        lemma_indent_run_grows(cs, i + 1, width + 1);
    } else if i < cs.len() && cs[i as int] == '\t' {
        lemma_indent_run_grows(cs, i + 1, (width + 4 - width % 4) as nat);
    }
}

/// Leading indentation of `cs`: (column width, length).
pub open spec fn indent_of(cs: Seq<char>) -> (nat, nat) {
    indent_run(cs, 0, 0)
}

/// Computes leading indentation column width and byte length.
pub fn parse_indent(line: &str) -> (r: (usize, usize))
    requires
        indent_of(line@).0 <= usize::MAX,
    ensures
        r.0 == indent_of(line@).0,
        r.1 == indent_of(line@).1,
{
    let cs = str_chars(line);
    indent_chars(&cs)
}

fn indent_chars(cs: &Vec<char>) -> (r: (usize, usize))
    requires
        indent_of(cs@).0 <= usize::MAX,
    ensures
        r.0 == indent_of(cs@).0,
        r.1 == indent_of(cs@).1,
        r.1 <= cs@.len(),
{
    let mut width: usize = 0;
    let mut i: usize = 0;
    proof {
        lemma_indent_run_grows(cs@, 0, 0);
    }
    while i < cs.len() && (cs[i] == ' ' || cs[i] == '\t')
        invariant
            i <= cs@.len(),
            indent_run(cs@, i as nat, width as nat) == indent_of(cs@),
            indent_of(cs@).0 <= usize::MAX,
        decreases cs@.len() - i,
    {
        if cs[i] == ' ' {
            proof {
                lemma_indent_run_grows(cs@, (i + 1) as nat, (width + 1) as nat);
            }
            width = width + 1;
        } else {
            proof {
                lemma_indent_run_grows(cs@, (i + 1) as nat, (width + 4 - width % 4) as nat);
            }
            width = width + (4 - width % 4);
        }
        i = i + 1;
    }
    proof {
        lemma_indent_run_grows(cs@, 0, 0);
    }
    (width, i)
}

/// `-`, `*` or `+`.
pub open spec fn is_bullet_char(c: char) -> bool {
    c == '-' || c == '*' || c == '+'
}

/// Whether `s` begins with `p`.
pub open spec fn starts_with(s: Seq<char>, p: Seq<char>) -> bool {
    p.len() <= s.len() && s.take(p.len() as int) == p
}

/// Task box at the start of `rest`: `[ ] ` gives `' '`, `[x] ` / `[X] `
/// give the box character.
pub open spec fn task_of(rest: Seq<char>) -> Option<char> {
    if rest.len() >= 4 && rest[0] == '[' && rest[2] == ']' && rest[3] == ' ' && (rest[1] == ' '
        || rest[1] == 'x' || rest[1] == 'X') {
        Some(rest[1])
    } else {
        None
    }
}

/// Number of ASCII digits starting at `i`.
pub open spec fn digit_run(t: Seq<char>, i: nat) -> nat
    decreases t.len() - i,
{
    if i < t.len() && '0' <= t[i as int] && t[i as int] <= '9' {
        1 + digit_run(t, i + 1)
    } else {
        0
    }
}

/// Value of a run of ASCII digits.
pub open spec fn decimal_value(ds: Seq<char>) -> nat
    decreases ds.len(),
{
    if ds.len() == 0 {
        0
    } else {
        decimal_value(ds.drop_last()) * 10 + ((ds.last() as u32) - ('0' as u32)) as nat
    }
}

/// A list item with the given indentation, marker and content offset.
pub open spec fn mk_item(w: nat, b: nat, m: ListMarker, csb: nat) -> ParsedListItem {
    ParsedListItem {
        indent_width: w as usize,
        indent_bytes: b as usize,
        marker: m,
        content_start_byte: csb as usize,
    }
}

/// The list item a line describes, if it starts with a recognised marker.
pub open spec fn list_item(cs: Seq<char>) -> Option<ParsedListItem> {
    let w = indent_of(cs).0;
    let b = indent_of(cs).1;
    let t = cs.skip(b as int);
    if t.len() == 0 {
        None
    } else if t.len() == 1 && is_bullet_char(t[0]) {
        Some(mk_item(w, b, ListMarker::Bullet { bullet: t[0], task: None }, b + 1))
    } else if t.len() >= 2 && is_bullet_char(t[0]) && t[1] == ' ' {
        let task = task_of(t.skip(2));
        Some(
            mk_item(
                w,
                b,
                ListMarker::Bullet { bullet: t[0], task },
                if task.is_some() {
                    b + 6
                } else {
                    b + 2
                },
            ),
        )
    } else {
        let d = digit_run(t, 0);
        let v = decimal_value(t.take(d as int));
        if d > 0 && d < t.len() && (t[d as int] == '.' || t[d as int] == ')') {
            let after = t.skip(d + 1int);
            if after.len() == 0 || after[0] == '\n' || after[0] == '\r' {
                if v <= usize::MAX {
                    Some(
                        mk_item(
                            w,
                            b,
                            ListMarker::Ordered { number: v as usize, delimiter: t[d as int], task: None },
                            b + d + 1,
                        ),
                    )
                } else {
                    None
                }
            } else if after[0] == ' ' && v <= usize::MAX {
                let task = task_of(after.skip(1));
                Some(
                    mk_item(
                        w,
                        b,
                        ListMarker::Ordered { number: v as usize, delimiter: t[d as int], task },
                        if task.is_some() {
                            b + d + 6
                        } else {
                            b + d + 2
                        },
                    ),
                )
            } else {
                None
            }
        } else {
            None
        }
    }
}

/// Digit values only grow as more digits are read.
pub proof fn lemma_decimal_value_mono(ds: Seq<char>, i: int, j: int)
    requires
        0 <= i <= j <= ds.len(),
        forall|k: int| 0 <= k < ds.len() ==> '0' <= #[trigger] ds[k] && ds[k] <= '9',
    ensures
        decimal_value(ds.take(i)) <= decimal_value(ds.take(j)),
    decreases j - i,
{
    if i < j {
        lemma_decimal_value_mono(ds, i, j - 1);
        assert(ds.take(j).drop_last() =~= ds.take(j - 1));
        assert(ds.take(j).last() == ds[j - 1]);
    }
}

fn digit_run_exec(t: &Vec<char>, from: usize) -> (d: usize)
    requires
        from <= t@.len(),
    ensures
        d == digit_run(t@, from as nat),
        from + d <= t@.len(),
        forall|k: int| from <= k < from + d ==> '0' <= #[trigger] t@[k] && t@[k] <= '9',
{
    let mut k: usize = from;
    while k < t.len() && '0' <= t[k] && t[k] <= '9'
        invariant
            from <= k <= t@.len(),
            digit_run(t@, from as nat) == (k - from) + digit_run(t@, k as nat),
            forall|m: int| from <= m < k ==> '0' <= #[trigger] t@[m] && t@[m] <= '9',
        decreases t@.len() - k,
    {
        k = k + 1;
    }
    k - from
}

/// Value of the digit run `ds`, `None` when it does not fit in a `usize`.
pub(crate) fn parse_decimal(ds: &Vec<char>) -> (r: Option<usize>)
    requires
        forall|k: int| 0 <= k < ds@.len() ==> '0' <= #[trigger] ds@[k] && ds@[k] <= '9',
    ensures
        match r {
            Some(v) => v == decimal_value(ds@),
            None => decimal_value(ds@) > usize::MAX,
        },
{
    let mut acc: usize = 0;
    let mut k: usize = 0;
    proof {
        assert(ds@.take(0) =~= Seq::<char>::empty());
    }
    while k < ds.len()
        invariant
            k <= ds@.len(),
            acc == decimal_value(ds@.take(k as int)),
            forall|m: int| 0 <= m < ds@.len() ==> '0' <= #[trigger] ds@[m] && ds@[m] <= '9',
        decreases ds@.len() - k,
    {
        proof {
            assert(ds@.take(k + 1).drop_last() =~= ds@.take(k as int));
            assert(ds@.take(k + 1).last() == ds@[k as int]);
            lemma_decimal_value_mono(ds@, k + 1, ds@.len() as int);
            assert(ds@.take(ds@.len() as int) =~= ds@);
        }
        let c = ds[k];
        let dig: usize = ((c as u32) - ('0' as u32)) as usize;
        match acc.checked_mul(10) {
            None => {
                return None;
            },
            Some(m) => match m.checked_add(dig) {
                None => {
                    return None;
                },
                Some(x) => {
                    acc = x;
                },
            },
        }
        k = k + 1;
    }
    proof {
        assert(ds@.take(k as int) =~= ds@);
    }
    Some(acc)
}

fn task_of_exec(t: &Vec<char>, from: usize) -> (r: Option<char>)
    requires
        from <= t@.len(),
    ensures
        r == task_of(t@.skip(from as int)),
{
    if t.len() - from >= 4 && t[from] == '[' && t[from + 2] == ']' && t[from + 3] == ' ' && (t[from
        + 1] == ' ' || t[from + 1] == 'x' || t[from + 1] == 'X') {
        Some(t[from + 1])
    } else {
        None
    }
}

/// Parses a line into list item metadata if it starts with a recognised
/// list marker.
pub fn parse_list_item(line: &str) -> (r: Option<ParsedListItem>)
    requires
        indent_of(line@).0 <= usize::MAX,
    ensures
        r == list_item(line@),
{
    let cs = str_chars(line);
    proof {
        lemma_byte_len_ge_len(cs@);
    }
    let (w, b) = indent_chars(&cs);
    let t = slice_chars(&cs, b, cs.len());
    let ghost tv = cs@.skip(b as int);
    assert(t@ =~= tv);
    let n = t.len();
    if n == 0 {
        return None;
    }
    if n == 1 && (t[0] == '-' || t[0] == '*' || t[0] == '+') {
        return Some(
            ParsedListItem {
                indent_width: w,
                indent_bytes: b,
                marker: ListMarker::Bullet { bullet: t[0], task: None },
                content_start_byte: b + 1,
            },
        );
    }
    if n >= 2 && (t[0] == '-' || t[0] == '*' || t[0] == '+') && t[1] == ' ' {
        let task = task_of_exec(&t, 2);
        let csb = if task.is_some() {
            b + 6
        } else {
            b + 2
        };
        return Some(
            ParsedListItem {
                indent_width: w,
                indent_bytes: b,
                marker: ListMarker::Bullet { bullet: t[0], task },
                content_start_byte: csb,
            },
        );
    }
    let d = digit_run_exec(&t, 0);
    if d > 0 && d < n && (t[d] == '.' || t[d] == ')') {
        let digits = slice_chars(&t, 0, d);
        assert(digits@ =~= t@.take(d as int));
        let delimiter = t[d];
        let rest = n - (d + 1);
        if rest == 0 || t[d + 1] == '\n' || t[d + 1] == '\r' {
            match parse_decimal(&digits) {
                Some(number) => {
                    return Some(
                        ParsedListItem {
                            indent_width: w,
                            indent_bytes: b,
                            marker: ListMarker::Ordered { number, delimiter, task: None },
                            content_start_byte: b + d + 1,
                        },
                    );
                },
                None => {
                    return None;
                },
            }
        }
        if t[d + 1] == ' ' {
            match parse_decimal(&digits) {
                Some(number) => {
                    let task = task_of_exec(&t, d + 2);
                    proof {
                        assert(t@.skip(d + 1int).skip(1) =~= t@.skip(d + 2int));
                    }
                    let csb = if task.is_some() {
                        b + d + 6
                    } else {
                        b + d + 2
                    };
                    return Some(
                        ParsedListItem {
                            indent_width: w,
                            indent_bytes: b,
                            marker: ListMarker::Ordered { number, delimiter, task },
                            content_start_byte: csb,
                        },
                    );
                },
                None => {
                    return None;
                },
            }
        }
    }
    None
}

/// The line prefix (indentation, marker, trailing space) of a list item.
pub open spec fn list_prefix(indent: nat, m: ListMarker) -> Seq<char> {
    Seq::new(indent, |i: int| ' ') + match m {
        ListMarker::Bullet { bullet, task: None } => seq![bullet, ' '],
        ListMarker::Bullet { bullet, task: Some(c) } => seq![bullet, ' ', '[', c, ']', ' '],
        ListMarker::Ordered { number, delimiter, task: None } => decimal_digits(number as nat)
            + seq![delimiter, ' '],
        ListMarker::Ordered { number, delimiter, task: Some(c) } => decimal_digits(number as nat)
            + seq![delimiter, ' ', '[', c, ']', ' '],
    }
}

/// Formats the line prefix (leading indentation + marker + trailing space)
/// for a list item.
pub fn format_list_prefix(indent_spaces: usize, marker: &ListMarker) -> (s: String)
    ensures
        s@ == list_prefix(indent_spaces as nat, *marker),
{
    let mut out: Vec<char> = Vec::new();
    let mut i: usize = 0;
    while i < indent_spaces
        invariant
            i <= indent_spaces,
            out@ == Seq::new(i as nat, |k: int| ' '),
        decreases indent_spaces - i,
    {
        out.push(' ');
        proof {
            assert(out@ =~= Seq::new((i + 1) as nat, |k: int| ' '));
        }
        i = i + 1;
    }
    let ghost pre = out@;
    match marker {
        ListMarker::Bullet { bullet, task } => {
            out.push(*bullet);
            out.push(' ');
            if let Some(c) = task {
                out.push('[');
                out.push(*c);
                out.push(']');
                out.push(' ');
            }
        },
        ListMarker::Ordered { number, delimiter, task } => {
            push_decimal(&mut out, *number);
            out.push(*delimiter);
            out.push(' ');
            if let Some(c) = task {
                out.push('[');
                out.push(*c);
                out.push(']');
                out.push(' ');
            }
        },
    }
    proof {
        assert(out@ =~= list_prefix(indent_spaces as nat, *marker));
    }
    chars_to_string(&out)
}


/// A task box character a formatted marker may carry: none, or ` `, `x`, `X`.
pub open spec fn task_ok(t: Option<char>) -> bool {
    t is None || t == Some(' ') || t == Some('x') || t == Some('X')
}

/// A marker the parser can give back: a `-`, `*` or `+` bullet, or a
/// number with a `.` or `)` delimiter, each with a valid task box.
pub open spec fn marker_ok(m: ListMarker) -> bool {
    match m {
        ListMarker::Bullet { bullet, task } => is_bullet_char(bullet) && task_ok(task),
        ListMarker::Ordered { number, delimiter, task } => (delimiter == '.' || delimiter == ')')
            && task_ok(task),
    }
}

/// The task box of a marker.
pub open spec fn marker_task(m: ListMarker) -> Option<char> {
    match m {
        ListMarker::Bullet { task, .. } => task,
        ListMarker::Ordered { task, .. } => task,
    }
}

proof fn lemma_indent_spaces(cs: Seq<char>, n: nat, i: nat)
    requires
        i <= n < cs.len(),
        forall|k: int| 0 <= k < n ==> cs[k] == ' ',
        cs[n as int] != ' ' && cs[n as int] != '\t',
    ensures
        indent_run(cs, i, i) == (n, n),
    decreases n - i,
{
    if i < n {
        lemma_indent_spaces(cs, n, i + 1);
    }
}

proof fn lemma_digit_char(d: nat)
    requires
        d < 10,
    ensures
        '0' <= crate::text::digit_char(d) && crate::text::digit_char(d) <= '9',
        ((crate::text::digit_char(d) as u32) - ('0' as u32)) as nat == d,
{
    if d == 0 {
    } else if d == 1 {
    } else if d == 2 {
    } else if d == 3 {
    } else if d == 4 {
    } else if d == 5 {
    } else if d == 6 {
    } else if d == 7 {
    } else if d == 8 {
    } else {
    }
}

pub(crate) proof fn lemma_decimal_digits(v: nat)
    ensures
        decimal_digits(v).len() >= 1,
        forall|k: int| 0 <= k < decimal_digits(v).len() ==> '0' <= #[trigger] decimal_digits(v)[k] && decimal_digits(v)[k] <= '9',
        decimal_value(decimal_digits(v)) == v,
    decreases v,
{
    let ds = decimal_digits(v);
    if v >= 10 {
        lemma_decimal_digits(v / 10);
        lemma_digit_char(v % 10);
        assert(ds.drop_last() =~= decimal_digits(v / 10));
        assert(ds.last() == crate::text::digit_char(v % 10));
        assert(decimal_value(ds) == decimal_value(decimal_digits(v / 10)) * 10 + v % 10);
        assert((v / 10) * 10 + v % 10 == v);
    } else {
        lemma_digit_char(v);
        assert(ds.drop_last() =~= Seq::<char>::empty());
        assert(decimal_value(ds) == decimal_value(Seq::<char>::empty()) * 10 + v);
    }
}

proof fn lemma_digit_run_prefix(t: Seq<char>, ds: Seq<char>, i: nat)
    requires
        i <= ds.len() < t.len(),
        t.take(ds.len() as int) == ds,
        forall|k: int| 0 <= k < ds.len() ==> '0' <= #[trigger] ds[k] && ds[k] <= '9',
        !('0' <= t[ds.len() as int] && t[ds.len() as int] <= '9'),
    ensures
        digit_run(t, i) == ds.len() - i,
    decreases ds.len() - i,
{
    if i < ds.len() {
        assert(t[i as int] == t.take(ds.len() as int)[i as int]);
        lemma_digit_run_prefix(t, ds, i + 1);
    }
}

proof fn lemma_parse_bullet_prefix(n: nat, m: ListMarker, c: Seq<char>)
    requires
        m is Bullet,
        marker_ok(m),
        marker_task(m) is None ==> task_of(c) is None,
        byte_len(list_prefix(n, m) + c) <= usize::MAX,
    ensures
        list_item(list_prefix(n, m) + c) == Some(mk_item(n, n, m, list_prefix(n, m).len())),
{
    let p = list_prefix(n, m);
    let cs = p + c;
    crate::text::lemma_byte_len_ge_len(cs);
    let mk = p.skip(n as int);
    assert(cs.skip(n as int) =~= mk + c);
    let t = cs.skip(n as int);
    match m {
        ListMarker::Bullet { bullet, task } => {
            assert(cs[n as int] == bullet);
            lemma_indent_spaces(cs, n, 0);
            match task {
                None => {
                    assert(t.skip(2) =~= c);
                },
                Some(x) => {
                    assert(t.skip(2) =~= seq!['[', x, ']', ' '] + c);
                },
            }
        },
        ListMarker::Ordered { .. } => {},
    }
}

proof fn lemma_parse_ordered_prefix(n: nat, m: ListMarker, c: Seq<char>)
    requires
        m is Ordered,
        marker_ok(m),
        marker_task(m) is None ==> task_of(c) is None,
        byte_len(list_prefix(n, m) + c) <= usize::MAX,
    ensures
        list_item(list_prefix(n, m) + c) == Some(mk_item(n, n, m, list_prefix(n, m).len())),
{
    let p = list_prefix(n, m);
    let cs = p + c;
    crate::text::lemma_byte_len_ge_len(cs);
    let mk = p.skip(n as int);
    assert(cs.skip(n as int) =~= mk + c);
    let t = cs.skip(n as int);
    match m {
        ListMarker::Ordered { number, delimiter, task } => {
            let ds = decimal_digits(number as nat);
            lemma_decimal_digits(number as nat);
            assert(cs[n as int] == ds[0]);
            lemma_indent_spaces(cs, n, 0);
            assert(t.take(ds.len() as int) =~= ds);
            assert(t[ds.len() as int] == delimiter);
            lemma_digit_run_prefix(t, ds, 0);
            let after = t.skip(ds.len() + 1int);
            match task {
                None => {
                    assert(after =~= seq![' '] + c);
                    assert(after.skip(1) =~= c);
                },
                Some(x) => {
                    assert(after =~= seq![' ', '[', x, ']', ' '] + c);
                    assert(after.skip(1) =~= seq!['[', x, ']', ' '] + c);
                },
            }
        },
        ListMarker::Bullet { .. } => {},
    }
}

/// Parsing a formatted list prefix followed by content `c` gives the
/// marker back: the indentation as that many spaces, the content starting
/// right after the prefix. A marker without a task box needs content that
/// does not itself start with one.
pub proof fn law_parse_formatted_prefix(n: nat, m: ListMarker, c: Seq<char>)
    requires
        marker_ok(m),
        marker_task(m) is None ==> task_of(c) is None,
        byte_len(list_prefix(n, m) + c) <= usize::MAX,
    ensures
        list_item(list_prefix(n, m) + c) == Some(mk_item(n, n, m, list_prefix(n, m).len())),
{
    crate::text::lemma_byte_len_ge_len(list_prefix(n, m) + c);
    if m is Bullet {
        lemma_parse_bullet_prefix(n, m, c);
    } else {
        lemma_parse_ordered_prefix(n, m, c);
    }
}

} // verus!
