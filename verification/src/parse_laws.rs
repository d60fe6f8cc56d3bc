//! What parsing gives, stated over the lines of the input text.
use vstd::prelude::*;
use crate::lemmas::header_name;
use crate::model::{
    classify, has_bad_header, is_bad_header, keys_upto, line_end, parsed, render_line, section_at,
    spec_keys, LineView,
};
use crate::reparse_laws::has_no;
use crate::shape::prop_kv;
use crate::text::{find, lemma_find, lines, split_lines, trim};

verus! {

/// The name of the section that a line of text opens, if it is a header: the
/// trimmed text between its `[` and its first `]`.
pub open spec fn header_text_name(l: Seq<char>) -> Option<Seq<char>> {
    let t = trim(l);
    if t.len() > 0 && t[0] == '[' && find(t, ']') is Some {
        Some(trim(t.subrange(1, find(t, ']')->0)))
    } else {
        None
    }
}

/// The key and value of a line of text that is a property: a line whose
/// trimmed text is not empty, does not start with `;`, `#` or `[`, and holds
/// an `=`; the key and value are the trimmed text before and after the first
/// `=`.
pub open spec fn property_text(l: Seq<char>) -> Option<(Seq<char>, Seq<char>)> {
    let t = trim(l);
    if t.len() > 0 && t[0] != ';' && t[0] != '#' && t[0] != '[' && find(l, '=') is Some {
        let p = find(l, '=')->0;
        Some((trim(l.subrange(0, p)), trim(l.subrange(p + 1, l.len() as int))))
    } else {
        None
    }
}

/// The section that the nearest header line before line `i` opens.
pub open spec fn text_section_at(ls: Seq<Seq<char>>, i: int) -> Option<Seq<char>>
    decreases i,
{
    if i <= 0 {
        None
    } else {
        match header_text_name(ls[i - 1]) {
            Some(n) => Some(n),
            None => text_section_at(ls, i - 1),
        }
    }
}

/// The key/value pairs of the property lines among the first `n` lines of text
/// whose nearest header line before them opens section `s`, in order.
pub open spec fn text_keys(ls: Seq<Seq<char>>, s: Seq<char>, n: int) -> Seq<(Seq<char>, Seq<char>)>
    decreases n,
{
    if n <= 0 {
        seq![]
    } else {
        let r = text_keys(ls, s, n - 1);
        match property_text(ls[n - 1]) {
            Some(kv) => if text_section_at(ls, n - 1) == Some(s) {
                r.push(kv)
            } else {
                r
            },
            None => r,
        }
    }
}

/// A line whose trimmed text starts with `[` and holds no `]` at all: a
/// section header that is opened and never closed.
pub open spec fn opens_unclosed(l: Seq<char>) -> bool {
    let t = trim(l);
    t.len() > 0 && t[0] == '[' && has_no(t, ']')
}

/// A line is refused as a header exactly when, trimmed, it starts with `[`
/// and holds no `]`; a `]` anywhere after the `[`, whatever follows it, makes
/// the line a header.
pub proof fn law_bad_header(l: Seq<char>)
    ensures
        is_bad_header(l) <==> opens_unclosed(l),
{
    lemma_find(trim(l), ']');
}

/// Parsing fails exactly when some line of the input, trimmed, starts with
/// `[` and holds no `]`.
pub proof fn law_parse_fails(input: Seq<char>)
    ensures
        has_bad_header(input) <==> exists|i: int|
            0 <= i < lines(input).len() && opens_unclosed(#[trigger] lines(input)[i]),
{
    let ls = lines(input);
    if has_bad_header(input) {
        let i = choose|i: int| 0 <= i < ls.len() && is_bad_header(#[trigger] ls[i]);
        law_bad_header(ls[i]);
    }
    if exists|i: int| 0 <= i < ls.len() && opens_unclosed(#[trigger] ls[i]) {
        let i = choose|i: int| 0 <= i < ls.len() && opens_unclosed(#[trigger] ls[i]);
        law_bad_header(ls[i]);
    }
}

/// A line whose trimmed text starts with `[` and has its first `]` at `p` is
/// read as the header of the section named by the trimmed text between them,
/// whatever follows the `]`.
pub proof fn law_header_read(l: Seq<char>, e: Seq<char>, p: int)
    requires
        0 < p < trim(l).len(),
        trim(l)[0] == '[',
        trim(l)[p] == ']',
        forall|j: int| 0 <= j < p ==> trim(l)[j] != ']',
    ensures
        !is_bad_header(l),
        classify(l, e) == (LineView::Section {
            raw: l,
            name: trim(trim(l).subrange(1, p)),
            end: e,
        }),
{
    let t = trim(l);
    lemma_find(t, ']');
    assert(find(t, ']') is Some);
    let q = find(t, ']')->0;
    assert(q == p) by {
        if q < p {
            assert(t[q] == ']');
        }
        if q > p {
            assert(t[p] != ']');
        }
    }
}

/// What kind of line a line of text is read as: blank when it trims to
/// nothing; a comment when it starts with `;` or `#`, or is neither a header
/// nor holds an `=`; a header when it starts with `[`; a property when it
/// holds an `=` and starts with none of these. The line keeps its text and
/// its break either way.
pub proof fn law_line_kinds(l: Seq<char>, e: Seq<char>)
    requires
        !is_bad_header(l),
    ensures
        ({
            let t = trim(l);
            let x = classify(l, e);
            &&& x is Blank <==> t.len() == 0
            &&& x is Comment <==> t.len() > 0 && (t[0] == ';' || t[0] == '#' || (t[0] != '['
                && has_no(l, '=')))
            &&& x is Section <==> t.len() > 0 && t[0] == '['
            &&& x is Property <==> t.len() > 0 && t[0] != ';' && t[0] != '#' && t[0] != '['
                && !has_no(l, '=')
            &&& render_line(x) == l
            &&& line_end(x) == e
        }),
{
    lemma_find(l, '=');
}

/// A line of text is read as the header or property it reads as.
pub proof fn lemma_classify_shape(l: Seq<char>, e: Seq<char>)
    requires
        !is_bad_header(l),
    ensures
        header_name(classify(l, e)) == header_text_name(l),
        prop_kv(classify(l, e)) == property_text(l),
{
}

proof fn lemma_parse_keys_upto(input: Seq<char>, s: Seq<char>, n: int)
    requires
        !has_bad_header(input),
        0 <= n <= lines(input).len(),
    ensures
        section_at(parsed(input), n) == text_section_at(lines(input), n),
        keys_upto(parsed(input), s, n) == text_keys(lines(input), s, n),
    decreases n,
{
    let ps = parsed(input);
    let ls = lines(input);
    let sp = split_lines(input);
    if n > 0 {
        lemma_parse_keys_upto(input, s, n - 1);
        assert(ps[n - 1] == classify(ls[n - 1], sp[n - 1].1));
        assert(!is_bad_header(ls[n - 1]));
        lemma_classify_shape(ls[n - 1], sp[n - 1].1);
        let l = ps[n - 1];
        if l is Section {
            assert(header_name(l) == Some(l->name));
        }
        if l is Property {
            assert(prop_kv(l) == Some((l->key, l->value)));
        }
    }
}

/// For text that parses, the keys of section `s` are, in order, the key/value
/// pairs of the property lines of the text whose nearest header line before
/// them opens section `s`.
pub proof fn law_parse_keys(input: Seq<char>, s: Seq<char>)
    requires
        !has_bad_header(input),
    ensures
        spec_keys(parsed(input), s) == text_keys(lines(input), s, lines(input).len() as int),
{
    lemma_parse_keys_upto(input, s, lines(input).len() as int);
}

} // verus!
