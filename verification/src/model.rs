//! The mathematical model of an INI document: a sequence of lines, and the
//! meaning of every operation on it as a spec function.
use vstd::prelude::*;
use crate::text::{end_from, find, lines, split_lines, start_from, trim};

verus! {

/// One line of a document, as the specifications see it.
///
/// Each line carries its text `raw` without the line break, and the break
/// `end` that follows it: `\n`, `\r\n`, or nothing for a last line that has
/// none.
pub enum LineView {
    /// A line of whitespace only, kept as read.
    Blank { raw: Seq<char>, end: Seq<char> },
    /// A comment (`;` or `#`), or a line of no other kind, kept as read.
    Comment { raw: Seq<char>, end: Seq<char> },
    /// A section header such as `[Player]`.
    Section { raw: Seq<char>, name: Seq<char>, end: Seq<char> },
    /// A `key = value` line; `modified` once its value has been set.
    Property {
        raw: Seq<char>,
        key: Seq<char>,
        value: Seq<char>,
        modified: bool,
        end: Seq<char>,
    },
}

/// The line break that follows a line.
pub open spec fn line_end(l: LineView) -> Seq<char> {
    match l {
        LineView::Blank { end, .. } => end,
        LineView::Comment { end, .. } => end,
        LineView::Section { end, .. } => end,
        LineView::Property { end, .. } => end,
    }
}

/// A line with its line break replaced by `e`.
pub open spec fn with_end(l: LineView, e: Seq<char>) -> LineView {
    match l {
        LineView::Blank { raw, .. } => LineView::Blank { raw, end: e },
        LineView::Comment { raw, .. } => LineView::Comment { raw, end: e },
        LineView::Section { raw, name, .. } => LineView::Section { raw, name, end: e },
        LineView::Property { raw, key, value, modified, .. } => LineView::Property {
            raw,
            key,
            value,
            modified,
            end: e,
        },
    }
}

/// A line that gets a line break `\n` where it has none, so that a line can
/// follow it.
pub open spec fn fix_end(l: LineView) -> LineView {
    if line_end(l).len() == 0 {
        with_end(l, seq!['\n'])
    } else {
        l
    }
}

/// The line break of lines added after `l`: that of `l`, or `\n` where `l`
/// has none.
pub open spec fn eol_after(l: LineView) -> Seq<char> {
    line_end(fix_end(l))
}

/// Whether a line is a section header named `s`.
pub open spec fn is_header_named(l: LineView, s: Seq<char>) -> bool {
    l matches LineView::Section { name, .. } && name == s
}

// ---------------------------------------------------------------- parsing

/// A line whose trimmed text opens a section header that is never closed.
pub open spec fn is_bad_header(raw: Seq<char>) -> bool {
    let t = trim(raw);
    &&& t.len() > 0
    &&& t[0] != ';' && t[0] != '#'
    &&& t[0] == '['
    &&& find(t, ']') is None
}

/// How one line of input, followed by the break `end`, is read, for a line
/// that is not a bad header.
pub open spec fn classify(raw: Seq<char>, end: Seq<char>) -> LineView {
    let t = trim(raw);
    if t.len() == 0 {
        LineView::Blank { raw, end }
    } else if t[0] == ';' || t[0] == '#' {
        LineView::Comment { raw, end }
    } else if t[0] == '[' {
        let e = find(t, ']')->0;
        LineView::Section { raw, name: trim(t.subrange(1, e)), end }
    } else {
        match find(raw, '=') {
            Some(p) => LineView::Property {
                raw,
                key: trim(raw.subrange(0, p)),
                value: trim(raw.subrange(p + 1, raw.len() as int)),
                modified: false,
                end,
            },
            None => LineView::Comment { raw, end },
        }
    }
}

/// The text of the error that a bad header line gives.
pub open spec fn header_error(raw: Seq<char>) -> Seq<char> {
    "Invalid section header: "@ + raw
}

/// How a sequence of input lines, each with its break, is read.
pub open spec fn classify_all(ls: Seq<(Seq<char>, Seq<char>)>) -> Seq<LineView> {
    ls.map_values(|l: (Seq<char>, Seq<char>)| classify(l.0, l.1))
}

/// The lines that parsing `input` gives, when it succeeds.
pub open spec fn parsed(input: Seq<char>) -> Seq<LineView> {
    classify_all(split_lines(input))
}

/// Whether some line of `input` is a bad header, so that parsing fails.
pub open spec fn has_bad_header(input: Seq<char>) -> bool {
    exists|i: int| 0 <= i < lines(input).len() && is_bad_header(#[trigger] lines(input)[i])
}

// ---------------------------------------------------------------- sections

/// The name of the section that is open at position `i`: that of the last
/// header among the lines before `i`.
pub open spec fn section_at(ls: Seq<LineView>, i: int) -> Option<Seq<char>>
    decreases i,
{
    if i <= 0 {
        None
    } else {
        match ls[i - 1] {
            LineView::Section { name, .. } => Some(name),
            _ => section_at(ls, i - 1),
        }
    }
}

/// Whether line `i` belongs to section `s`: it is its header, or it stands
/// below that header and above the next one.
pub open spec fn in_section(ls: Seq<LineView>, i: int, s: Seq<char>) -> bool {
    section_at(ls, i + 1) == Some(s)
}

/// Whether line `i` is a property `k` inside section `s`.
pub open spec fn is_match(ls: Seq<LineView>, i: int, s: Seq<char>, k: Seq<char>) -> bool {
    &&& 0 <= i < ls.len()
    &&& ls[i] matches LineView::Property { key, .. } && key == k
    &&& section_at(ls, i) == Some(s)
}

pub open spec fn first_match_from(ls: Seq<LineView>, s: Seq<char>, k: Seq<char>, i: int) -> Option<
    int,
>
    decreases ls.len() - i,
{
    if i < 0 || i >= ls.len() {
        None
    } else if is_match(ls, i, s, k) {
        Some(i)
    } else {
        first_match_from(ls, s, k, i + 1)
    }
}

/// The index of the first property `k` of section `s`, if there is one.
pub open spec fn lookup(ls: Seq<LineView>, s: Seq<char>, k: Seq<char>) -> Option<int> {
    first_match_from(ls, s, k, 0)
}

/// Whether some header names section `s`.
pub open spec fn has_section(ls: Seq<LineView>, s: Seq<char>) -> bool {
    exists|j: int| 0 <= j < ls.len() && is_header_named(#[trigger] ls[j], s)
}

/// The last of the first `n` lines that belongs to section `s`.
pub open spec fn last_in_section(ls: Seq<LineView>, s: Seq<char>, n: int) -> Option<int>
    decreases n,
{
    if n <= 0 {
        None
    } else if in_section(ls, n - 1, s) {
        Some(n - 1)
    } else {
        last_in_section(ls, s, n - 1)
    }
}

// ---------------------------------------------------------------- queries

/// What `get` answers: the value of the first property `k` of section `s`,
/// or nothing where there is none or its value is empty.
pub open spec fn spec_get(ls: Seq<LineView>, s: Seq<char>, k: Seq<char>) -> Option<Seq<char>> {
    match lookup(ls, s, k) {
        Some(i) => match ls[i] {
            LineView::Property { value, .. } => if value.len() == 0 {
                None
            } else {
                Some(value)
            },
            _ => None,
        },
        None => None,
    }
}

/// The distinct section names among the first `n` lines, in order of first
/// appearance.
pub open spec fn sections_upto(ls: Seq<LineView>, n: int) -> Seq<Seq<char>>
    decreases n,
{
    if n <= 0 {
        seq![]
    } else {
        let r = sections_upto(ls, n - 1);
        match ls[n - 1] {
            LineView::Section { name, .. } => if r.contains(name) {
                r
            } else {
                r.push(name)
            },
            _ => r,
        }
    }
}

pub open spec fn spec_sections(ls: Seq<LineView>) -> Seq<Seq<char>> {
    sections_upto(ls, ls.len() as int)
}

/// The key/value pairs of section `s` among the first `n` lines, in order.
pub open spec fn keys_upto(ls: Seq<LineView>, s: Seq<char>, n: int) -> Seq<(Seq<char>, Seq<char>)>
    decreases n,
{
    if n <= 0 {
        seq![]
    } else {
        let r = keys_upto(ls, s, n - 1);
        match ls[n - 1] {
            LineView::Property { key, value, .. } => if section_at(ls, n - 1) == Some(s) {
                r.push((key, value))
            } else {
                r
            },
            _ => r,
        }
    }
}

pub open spec fn spec_keys(ls: Seq<LineView>, s: Seq<char>) -> Seq<(Seq<char>, Seq<char>)> {
    keys_upto(ls, s, ls.len() as int)
}

// ---------------------------------------------------------------- changes

/// A property written by `set` where none stood, followed by the break `e`.
pub open spec fn new_property(k: Seq<char>, v: Seq<char>, e: Seq<char>) -> LineView {
    LineView::Property { raw: seq![], key: k, value: v, modified: true, end: e }
}

/// The header that a new section `s` gets: `[s]`, followed by the break `e`.
pub open spec fn new_header(s: Seq<char>, e: Seq<char>) -> LineView {
    LineView::Section { raw: seq!['['] + s + seq![']'], name: s, end: e }
}

/// The line break of lines appended to a document: that of its last line,
/// or `\n`.
pub open spec fn eol(ls: Seq<LineView>) -> Seq<char> {
    if ls.len() == 0 {
        seq!['\n']
    } else {
        eol_after(ls.last())
    }
}

/// The document made ready for lines after its last: a last line without a
/// break gets one.
pub open spec fn close(ls: Seq<LineView>) -> Seq<LineView> {
    if ls.len() == 0 {
        ls
    } else {
        ls.update(ls.len() - 1, fix_end(ls.last()))
    }
}

/// The blank line that separates a new section from what precedes it: none
/// where the document already ends with a blank line.
pub open spec fn separator(ls: Seq<LineView>, e: Seq<char>) -> Seq<LineView> {
    if ls.len() > 0 && ls.last() is Blank {
        seq![]
    } else {
        seq![LineView::Blank { raw: seq![], end: e }]
    }
}

/// A property line with its value replaced by `v`, marked as modified.
pub open spec fn with_value(l: LineView, v: Seq<char>) -> LineView {
    match l {
        LineView::Property { raw, key, end, .. } => LineView::Property {
            raw,
            key,
            value: v,
            modified: true,
            end,
        },
        _ => l,
    }
}

/// The document after `set(s, k, v)`: the first property `k` of section `s`
/// takes the value `v`; else a new property goes right after the last line of
/// the section; else the section and the property are appended. Added lines
/// end with the line break of the line before them.
pub open spec fn spec_set(ls: Seq<LineView>, s: Seq<char>, k: Seq<char>, v: Seq<char>) -> Seq<
    LineView,
> {
    match lookup(ls, s, k) {
        Some(i) => ls.update(i, with_value(ls[i], v)),
        None => match last_in_section(ls, s, ls.len() as int) {
            Some(j) => ls.update(j, fix_end(ls[j])).insert(
                j + 1,
                new_property(k, v, eol_after(ls[j])),
            ),
            None => close(ls) + separator(ls, eol(ls)) + seq![
                new_header(s, eol(ls)),
                new_property(k, v, eol(ls)),
            ],
        },
    }
}

/// The document after `remove(s, k)`: the first property `k` of section `s`
/// is gone, if there was one.
pub open spec fn spec_remove(ls: Seq<LineView>, s: Seq<char>, k: Seq<char>) -> Seq<LineView> {
    match lookup(ls, s, k) {
        Some(i) => ls.remove(i),
        None => ls,
    }
}

/// The document after `add_section(s)`: unchanged where the section exists,
/// else with its header appended.
pub open spec fn spec_add_section(ls: Seq<LineView>, s: Seq<char>) -> Seq<LineView> {
    if has_section(ls, s) {
        ls
    } else {
        close(ls) + separator(ls, eol(ls)) + seq![new_header(s, eol(ls))]
    }
}

/// The first `n` lines without those that belong to section `s`.
pub open spec fn drop_section_upto(ls: Seq<LineView>, s: Seq<char>, n: int) -> Seq<LineView>
    decreases n,
{
    if n <= 0 {
        seq![]
    } else {
        let r = drop_section_upto(ls, s, n - 1);
        if in_section(ls, n - 1, s) {
            r
        } else {
            r.push(ls[n - 1])
        }
    }
}

/// The document after `remove_section(s)`: every line from a header named `s`
/// to just before the next header is gone.
pub open spec fn spec_remove_section(ls: Seq<LineView>, s: Seq<char>) -> Seq<LineView> {
    drop_section_upto(ls, s, ls.len() as int)
}

// ---------------------------------------------------------------- output

/// Whether the text before `=` ends with a space.
pub open spec fn space_before(raw: Seq<char>, p: int) -> bool {
    p > 0 && raw[p - 1] == ' '
}

/// How a property that has been set is written. Where its line has an `=` at
/// `p`, the line is kept and only the old value, between the whitespace after
/// `=` and the whitespace at the end, is replaced; where nothing followed `=`,
/// a space goes before the value if one stands before `=`. A property without
/// such a line is written `key = value`.
pub open spec fn render_property(raw: Seq<char>, key: Seq<char>, value: Seq<char>) -> Seq<char> {
    match find(raw, '=') {
        Some(p) => {
            let vs = start_from(raw, p + 1);
            let ve = end_from(raw, vs, raw.len() as int);
            raw.subrange(0, vs) + (if p + 1 == raw.len() && space_before(raw, p) {
                seq![' ']
            } else {
                seq![]
            }) + value + raw.subrange(ve, raw.len() as int)
        },
        None => key + " = "@ + value,
    }
}

/// The text of one line, without its line break.
pub open spec fn render_line(l: LineView) -> Seq<char> {
    match l {
        LineView::Blank { raw, .. } => raw,
        LineView::Comment { raw, .. } => raw,
        LineView::Section { raw, .. } => raw,
        LineView::Property { raw, key, value, modified, .. } => if modified {
            render_property(raw, key, value)
        } else {
            raw
        },
    }
}

/// The text of a document: every line followed by its line break.
pub open spec fn render(ls: Seq<LineView>) -> Seq<char>
    decreases ls.len(),
{
    if ls.len() == 0 {
        seq![]
    } else {
        render(ls.drop_last()) + render_line(ls.last()) + line_end(ls.last())
    }
}

} // verus!
