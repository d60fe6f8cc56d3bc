//! Writing a document out and reading the text back: after `set`, the text
//! that comes out reads back as a document that says the same.
use vstd::prelude::*;
use crate::laws::{
    law_get_after_set, law_roundtrip, lemma_render_append, lemma_render_classify, lemma_render_one,
    lemma_set_lookup,
};
use crate::lemmas::{lemma_first_match, lemma_last_in_section};
use crate::lemmas::header_name;
use crate::model::{
    classify, close, eol, eol_after, fix_end, has_bad_header, is_bad_header, last_in_section,
    line_end, lookup, new_header, new_property, parsed, render, render_line, separator,
    space_before, spec_add_section, spec_get, spec_keys, spec_sections, spec_set, with_end,
    with_value, has_section, LineView,
};
use crate::section_laws::{law_add_section, law_sections};
use crate::shape::{lemma_same_shape, prop_kv, same_shape_upto};
use crate::text::{
    end_from, find, is_ws, lemma_end_from, lemma_find, lemma_start_from, line_break, lines,
    split_from, split_lines, start_from, strip_cr, trim,
};

verus! {

/// Text that holds no `c`.
pub open spec fn has_no(s: Seq<char>, c: char) -> bool {
    forall|i: int| 0 <= i < s.len() ==> s[i] != c
}

/// Text of a single line: no line feed and no carriage return.
pub open spec fn plain(s: Seq<char>) -> bool {
    has_no(s, '\n') && has_no(s, '\r')
}

// ------------------------------------------------------------ text facts

/// `find` gives the first occurrence.
pub proof fn lemma_find_at(s: Seq<char>, c: char, p: int)
    requires
        0 <= p < s.len(),
        s[p] == c,
        forall|j: int| 0 <= j < p ==> s[j] != c,
    ensures
        find(s, c) == Some(p),
{
    lemma_find(s, c);
}

/// Text whose first and last characters that are not whitespace stand at `a`
/// and `b - 1` trims to `s[a..b]`.
pub proof fn lemma_trim_at(s: Seq<char>, a: int, b: int)
    requires
        0 <= a < b <= s.len(),
        forall|j: int| 0 <= j < a ==> is_ws(s[j]),
        !is_ws(s[a]),
        !is_ws(s[b - 1]),
        forall|j: int| b <= j < s.len() ==> is_ws(s[j]),
    ensures
        start_from(s, 0) == a,
        end_from(s, a, s.len() as int) == b,
        trim(s) == s.subrange(a, b),
{
    lemma_start_from(s, 0);
    lemma_end_from(s, a, s.len() as int);
}

/// Whitespace alone trims to nothing.
pub proof fn lemma_trim_blank(s: Seq<char>)
    requires
        forall|j: int| 0 <= j < s.len() ==> is_ws(s[j]),
    ensures
        trim(s).len() == 0,
{
    lemma_start_from(s, 0);
    lemma_end_from(s, start_from(s, 0), s.len() as int);
}

/// Text that trims to itself and is not empty starts and ends with a character
/// that is not whitespace.
pub proof fn lemma_trimmed(v: Seq<char>)
    requires
        trim(v) == v,
        v.len() > 0,
    ensures
        !is_ws(v[0]),
        !is_ws(v[v.len() - 1]),
{
    lemma_start_from(v, 0);
    let lo = start_from(v, 0);
    lemma_end_from(v, lo, v.len() as int);
    assert(trim(v).len() == end_from(v, lo, v.len() as int) - lo);
}

/// Text that trims to itself keeps doing so with whitespace around it.
pub proof fn lemma_trim_around(w1: Seq<char>, v: Seq<char>, w2: Seq<char>)
    requires
        trim(v) == v,
        forall|j: int| 0 <= j < w1.len() ==> is_ws(w1[j]),
        forall|j: int| 0 <= j < w2.len() ==> is_ws(w2[j]),
    ensures
        trim(w1 + v + w2) == v,
{
    let x = w1 + v + w2;
    if v.len() > 0 {
        lemma_trimmed(v);
        lemma_trim_at(x, w1.len() as int, (w1.len() + v.len()) as int);
        assert(x.subrange(w1.len() as int, (w1.len() + v.len()) as int) =~= v);
    } else {
        assert forall|j: int| 0 <= j < x.len() implies is_ws(x[j]) by {
            if j < w1.len() {
                assert(x[j] == w1[j]);
            } else {
                assert(x[j] == w2[j - w1.len()]);
            }
        }
        lemma_trim_blank(x);
        assert(trim(x) =~= v);
    }
}

// ------------------------------------------------------------ splitting

proof fn lemma_split_skip(x: Seq<char>, st: int, i: int, j: int)
    requires
        0 <= st <= i <= j <= x.len(),
        forall|q: int| i <= q < j ==> x[q] != '\n',
    ensures
        split_from(x, st, i) == split_from(x, st, j),
    decreases j - i,
{
    if i < j {
        lemma_split_skip(x, st, i + 1, j);
    }
}

proof fn lemma_split_shift(a: Seq<char>, b: Seq<char>, st: int, i: int)
    requires
        0 <= st <= i <= b.len(),
    ensures
        split_from(a + b, a.len() + st, a.len() + i) == split_from(b, st, i),
    decreases b.len() - i,
{
    let x = a + b;
    let n = a.len() as int;
    if i < b.len() {
        assert(x[n + i] == b[i]);
        assert(x.subrange(n + st, n + i) =~= b.subrange(st, i));
        lemma_split_shift(a, b, st, i + 1);
        if b[i] == '\n' {
            lemma_split_shift(a, b, i + 1, i + 1);
        }
    } else {
        assert(x.subrange(n + st, x.len() as int) =~= b.subrange(st, b.len() as int));
    }
}

/// A line of text followed by a line feed and more text splits into that line
/// and the lines of the rest.
proof fn lemma_split_line(a: Seq<char>, b: Seq<char>)
    requires
        plain(a),
    ensures
        split_from(a + seq!['\n'] + b, 0, 0) == seq![(a, seq!['\n'])] + split_from(b, 0, 0),
{
    let x = a + seq!['\n'] + b;
    let n = a.len() as int;
    assert forall|q: int| 0 <= q < n implies x[q] != '\n' by {
        assert(x[q] == a[q]);
    }
    lemma_split_skip(x, 0, 0, n);
    assert(x[n] == '\n');
    assert(x.subrange(0, n) =~= a);
    if n > 0 {
        assert(a.last() == a[n - 1]);
    }
    assert(strip_cr(a) == a);
    assert(line_break(a) == seq!['\n']);
    assert(x =~= (a + seq!['\n']) + b);
    lemma_split_shift(a + seq!['\n'], b, 0, 0);
}

/// A last line without a break splits as itself.
proof fn lemma_split_last(a: Seq<char>)
    requires
        plain(a),
        a.len() > 0,
    ensures
        split_from(a, 0, 0) == seq![(a, Seq::<char>::empty())],
{
    lemma_split_skip(a, 0, 0, a.len() as int);
    assert(a.subrange(0, a.len() as int) =~= a);
}

/// The lines of a document as written: the text of each line and its break.
pub open spec fn written(ls: Seq<LineView>) -> Seq<(Seq<char>, Seq<char>)> {
    ls.map_values(|l: LineView| (render_line(l), line_end(l)))
}

/// A document whose text splits back into its lines: no line holds a line
/// break, every line but the last ends with a line feed, and the last ends
/// with one too or is not empty.
pub open spec fn well_broken(ls: Seq<LineView>) -> bool {
    &&& forall|i: int| 0 <= i < ls.len() ==> plain(render_line(#[trigger] ls[i]))
    &&& forall|i: int| 0 <= i < ls.len() - 1 ==> line_end(#[trigger] ls[i]) == seq!['\n']
    &&& ls.len() > 0 ==> (line_end(ls.last()) == seq!['\n'] || (line_end(ls.last()).len() == 0
        && render_line(ls.last()).len() > 0))
}

/// The text of a well broken document splits into its lines.
pub proof fn lemma_split_render(ls: Seq<LineView>)
    requires
        well_broken(ls),
    ensures
        split_lines(render(ls)) == written(ls),
    decreases ls.len(),
{
    if ls.len() == 0 {
        assert(split_lines(render(ls)) =~= written(ls));
    } else {
        let l = ls[0];
        let rest = ls.drop_first();
        assert(ls =~= seq![l] + rest);
        lemma_render_append(seq![l], rest);
        lemma_render_one(l);
        let a = render_line(l);
        assert(plain(a));
        if rest.len() > 0 {
            assert(line_end(l) == seq!['\n']);
            assert(well_broken(rest)) by {
                assert forall|i: int| 0 <= i < rest.len() implies plain(
                    render_line(#[trigger] rest[i]),
                ) by {
                    assert(rest[i] == ls[i + 1]);
                }
                assert forall|i: int| 0 <= i < rest.len() - 1 implies line_end(#[trigger] rest[i])
                    == seq!['\n'] by {
                    assert(rest[i] == ls[i + 1]);
                }
                assert(rest.last() == ls.last());
            }
            lemma_split_render(rest);
            lemma_split_line(a, render(rest));
            assert(render(ls) == a + seq!['\n'] + render(rest));
            assert(split_lines(render(ls)) == seq![(a, seq!['\n'])] + written(rest));
            assert(written(ls) =~= seq![(a, seq!['\n'])] + written(rest));
        } else {
            assert(l == ls.last());
            assert(render(rest) =~= Seq::<char>::empty());
            if line_end(l) == seq!['\n'] {
                lemma_split_line(a, Seq::<char>::empty());
                assert(a + seq!['\n'] + Seq::<char>::empty() =~= a + seq!['\n']);
                assert(split_from(Seq::<char>::empty(), 0, 0) =~= Seq::<
                    (Seq<char>, Seq<char>),
                >::empty());
                assert(render(ls) =~= a + seq!['\n'] + Seq::<char>::empty());
                assert(split_lines(render(ls)) =~= seq![(a, line_end(l))]);
            } else {
                lemma_split_last(a);
                assert(line_end(l) =~= Seq::<char>::empty());
                assert(render(ls) =~= a);
                assert(split_lines(render(ls)) =~= seq![(a, line_end(l))]);
            }
            assert(render(ls) == a + line_end(l) + render(rest));
            assert(written(ls) =~= seq![(a, line_end(l))]);
        }
    }
}

// ------------------------------------------------------------ reading back

/// A line whose text reads back as a line that says the same: not a bad
/// header, with the same header name or key and value.
pub open spec fn reads_back(l: LineView) -> bool {
    &&& !is_bad_header(render_line(l))
    &&& header_name(classify(render_line(l), line_end(l))) == header_name(l)
    &&& prop_kv(classify(render_line(l), line_end(l))) == prop_kv(l)
}

/// A line as it was read: reading its text gives it back exactly.
pub open spec fn is_read(l: LineView) -> bool {
    &&& !is_bad_header(render_line(l))
    &&& classify(render_line(l), line_end(l)) == l
}

/// How a line reads does not depend on its break.
pub proof fn lemma_classify_end(r: Seq<char>, e: Seq<char>, e2: Seq<char>)
    ensures
        classify(r, e2) == with_end(classify(r, e), e2),
{
}

/// A line as read keeps being one when it gets a line break.
pub proof fn lemma_fix_read(l: LineView)
    requires
        is_read(l),
    ensures
        is_read(fix_end(l)),
        reads_back(l),
        reads_back(fix_end(l)),
        render_line(fix_end(l)) == render_line(l),
{
    lemma_classify_end(render_line(l), line_end(l), seq!['\n']);
}

/// The whitespace test on the characters that the lines below are built of.
pub proof fn lemma_ws_chars()
    ensures
        is_ws(' '),
        !is_ws('='),
        !is_ws('['),
        !is_ws(']'),
{
}

/// Whitespace around text does not change what the text trims to.
pub proof fn lemma_trim_any(w1: Seq<char>, v: Seq<char>, w2: Seq<char>)
    requires
        forall|j: int| 0 <= j < w1.len() ==> is_ws(w1[j]),
        forall|j: int| 0 <= j < w2.len() ==> is_ws(w2[j]),
    ensures
        trim(w1 + v + w2) == trim(v),
{
    let x = w1 + v + w2;
    let n = v.len() as int;
    let o = w1.len() as int;
    lemma_start_from(v, 0);
    let a = start_from(v, 0);
    if a == n {
        lemma_trim_blank(v);
        assert forall|j: int| 0 <= j < x.len() implies is_ws(x[j]) by {
            if j < o {
                assert(x[j] == w1[j]);
            } else if j < o + n {
                assert(x[j] == v[j - o]);
            } else {
                assert(x[j] == w2[j - o - n]);
            }
        }
        lemma_trim_blank(x);
        assert(trim(x) =~= trim(v));
    } else {
        lemma_end_from(v, a, n);
        let b = end_from(v, a, n);
        assert(b > a) by {
            if b == a {
                assert(is_ws(v[a]));
            }
        }
        assert forall|j: int| 0 <= j < o + a implies is_ws(x[j]) by {
            if j < o {
                assert(x[j] == w1[j]);
            } else {
                assert(x[j] == v[j - o]);
            }
        }
        assert forall|j: int| o + b <= j < x.len() implies is_ws(x[j]) by {
            if j < o + n {
                assert(x[j] == v[j - o]);
            } else {
                assert(x[j] == w2[j - o - n]);
            }
        }
        assert(x[o + a] == v[a]);
        assert(x[o + b - 1] == v[b - 1]);
        lemma_trim_at(x, o + a, o + b);
        lemma_trim_at(v, a, b);
        assert(x.subrange(o + a, o + b) =~= v.subrange(a, b));
    }
}

/// How a property whose value has been set to `v` is written, for every `v`,
/// the empty one too: its line is kept up to and including its first `=`, the
/// text after that `=` trims to `v` trimmed, so the old value is never written
/// again, and reading the line back gives the same key with `v` trimmed as its
/// value.
pub proof fn law_set_value_written(raw: Seq<char>, e: Seq<char>, v: Seq<char>)
    requires
        !is_bad_header(raw),
        classify(raw, e) is Property,
    ensures
        ({
            let w = render_line(with_value(classify(raw, e), v));
            let p = find(raw, '=')->0;
            &&& find(raw, '=') is Some
            &&& find(w, '=') == Some(p)
            &&& w.subrange(0, p + 1) == raw.subrange(0, p + 1)
            &&& trim(w.subrange(p + 1, w.len() as int)) == trim(v)
            &&& !is_bad_header(w)
            &&& classify(w, e) == (LineView::Property {
                raw: w,
                key: trim(raw.subrange(0, p)),
                value: trim(v),
                modified: false,
                end: e,
            })
        }),
{
    lemma_ws_chars();
    let l = classify(raw, e);
    let l1 = with_value(l, v);
    let n = raw.len() as int;
    lemma_find(raw, '=');
    let p = find(raw, '=')->0;
    assert(0 <= p < n && raw[p] == '=');
    lemma_start_from(raw, p + 1);
    let vs = start_from(raw, p + 1);
    lemma_end_from(raw, vs, n);
    let ve = end_from(raw, vs, n);
    let sp: Seq<char> = if p + 1 == n && space_before(raw, p) {
        seq![' ']
    } else {
        seq![]
    };
    let r = raw.subrange(0, vs) + sp + v + raw.subrange(ve, n);
    assert(render_line(l1) == r);
    assert forall|j: int| 0 <= j < vs implies r[j] == raw[j] by {}
    lemma_find_at(r, '=', p);
    assert(r.subrange(0, p + 1) =~= raw.subrange(0, p + 1));
    // where the text starts
    lemma_start_from(raw, 0);
    let q = start_from(raw, 0);
    assert(q <= p);
    lemma_end_from(raw, q, n);
    assert(trim(raw).len() > 0);
    assert(trim(raw)[0] == raw[q]);
    lemma_start_from(r, 0);
    let q2 = start_from(r, 0);
    if q2 < q {
        assert(r[q2] == raw[q2]);
    }
    if q2 > q {
        assert(is_ws(r[q]));
    }
    assert(q2 == q);
    lemma_end_from(r, q, r.len() as int);
    assert(trim(r).len() > 0);
    assert(trim(r)[0] == raw[q]);
    // key and value
    assert(r.subrange(0, p) =~= raw.subrange(0, p));
    let w1 = raw.subrange(p + 1, vs) + sp;
    let w2 = raw.subrange(ve, n);
    assert(r.subrange(p + 1, r.len() as int) =~= w1 + v + w2);
    assert forall|j: int| 0 <= j < w1.len() implies is_ws(w1[j]) by {
        if j < vs - (p + 1) {
            assert(w1[j] == raw[p + 1 + j]);
        }
    }
    assert forall|j: int| 0 <= j < w2.len() implies is_ws(w2[j]) by {
        assert(w2[j] == raw[ve + j]);
    }
    lemma_trim_any(w1, v, w2);
}

/// The style of a line around `=` survives a new value that is not empty and
/// has no whitespace around it: whitespace follows the `=` in the written line
/// exactly when it did in the line as read, or when nothing followed the `=`
/// and a space stood before it.
pub proof fn law_set_value_spacing(raw: Seq<char>, e: Seq<char>, v: Seq<char>)
    requires
        !is_bad_header(raw),
        classify(raw, e) is Property,
        trim(v) == v,
        v.len() > 0,
    ensures
        ({
            let w = render_line(with_value(classify(raw, e), v));
            let p = find(raw, '=')->0;
            let n = raw.len() as int;
            &&& p + 1 < w.len()
            &&& is_ws(w[p + 1]) <==> (p + 1 < n && is_ws(raw[p + 1])) || (p + 1 == n && p > 0
                && raw[p - 1] == ' ')
        }),
{
    lemma_ws_chars();
    lemma_trimmed(v);
    let l1 = with_value(classify(raw, e), v);
    let n = raw.len() as int;
    lemma_find(raw, '=');
    let p = find(raw, '=')->0;
    lemma_start_from(raw, p + 1);
    let vs = start_from(raw, p + 1);
    lemma_end_from(raw, vs, n);
    let ve = end_from(raw, vs, n);
    let sp: Seq<char> = if p + 1 == n && space_before(raw, p) {
        seq![' ']
    } else {
        seq![]
    };
    let r = raw.subrange(0, vs) + sp + v + raw.subrange(ve, n);
    assert(render_line(l1) == r);
    if vs > p + 1 {
        assert(r[p + 1] == raw[p + 1]);
    } else if sp.len() > 0 {
        assert(r[p + 1] == ' ');
    } else {
        assert(r[p + 1] == v[0]);
    }
}

/// A property whose value has been set reads back with its key and the new
/// value, for a value that has no whitespace around it.
pub proof fn lemma_splice_reads_back(raw: Seq<char>, e: Seq<char>, v: Seq<char>)
    requires
        !is_bad_header(raw),
        classify(raw, e) is Property,
        trim(v) == v,
    ensures
        reads_back(with_value(classify(raw, e), v)),
        render_line(with_value(classify(raw, e), v)).len() > 0,
        plain(raw) && plain(v) ==> plain(render_line(with_value(classify(raw, e), v))),
{
    law_set_value_written(raw, e, v);
    let l1 = with_value(classify(raw, e), v);
    let n = raw.len() as int;
    lemma_find(raw, '=');
    let p = find(raw, '=')->0;
    lemma_start_from(raw, p + 1);
    let vs = start_from(raw, p + 1);
    lemma_end_from(raw, vs, n);
    let ve = end_from(raw, vs, n);
    let sp: Seq<char> = if p + 1 == n && space_before(raw, p) {
        seq![' ']
    } else {
        seq![]
    };
    let r = raw.subrange(0, vs) + sp + v + raw.subrange(ve, n);
    assert(render_line(l1) == r);
    if plain(raw) && plain(v) {
        assert forall|j: int| 0 <= j < r.len() implies r[j] != '\n' && r[j] != '\r' by {
            if j < vs {
            } else if j < vs + sp.len() {
            } else if j < vs + sp.len() + v.len() {
                assert(r[j] == v[j - vs - sp.len()]);
            } else {
                assert(r[j] == raw[ve + (j - vs - sp.len() - v.len())]);
            }
        }
    }
}

/// A property added by `set` reads back with its key and value.
pub proof fn lemma_new_property_reads_back(k: Seq<char>, v: Seq<char>, e: Seq<char>)
    requires
        trim(k) == k,
        has_no(k, '='),
        k.len() > 0 ==> k[0] != ';' && k[0] != '#' && k[0] != '[',
        trim(v) == v,
    ensures
        reads_back(new_property(k, v, e)),
        render_line(new_property(k, v, e)) == k + seq![' ', '=', ' '] + v,
        plain(k) && plain(v) ==> plain(render_line(new_property(k, v, e))),
{
    lemma_ws_chars();
    reveal_strlit(" = ");
    let x = new_property(k, v, e);
    assert(find(Seq::<char>::empty(), '=') is None);
    assert(" = "@ =~= seq![' ', '=', ' ']);
    let r = k + seq![' ', '=', ' '] + v;
    assert(render_line(x) == r);
    let n = r.len() as int;
    let p = k.len() as int + 1;
    assert forall|j: int| 0 <= j < p implies r[j] != '=' by {
        if j < k.len() {
            assert(r[j] == k[j]);
        }
    }
    lemma_find_at(r, '=', p);
    let b: int = if v.len() > 0 {
        n
    } else {
        p + 1
    };
    if v.len() > 0 {
        lemma_trimmed(v);
        assert(r[n - 1] == v[v.len() - 1]);
    }
    let a: int = if k.len() > 0 {
        0
    } else {
        1
    };
    if k.len() > 0 {
        lemma_trimmed(k);
        assert(r[0] == k[0]);
    }
    lemma_trim_at(r, a, b);
    assert(trim(r).len() > 0);
    assert(trim(r)[0] == r[a]);
    assert(r.subrange(0, p) =~= k + seq![' ']);
    assert(r.subrange(p + 1, n) =~= seq![' '] + v);
    lemma_trim_around(Seq::<char>::empty(), k, seq![' ']);
    assert(Seq::<char>::empty() + k + seq![' '] =~= k + seq![' ']);
    lemma_trim_around(seq![' '], v, Seq::<char>::empty());
    assert(seq![' '] + v + Seq::<char>::empty() =~= seq![' '] + v);
    assert(classify(r, e) == LineView::Property {
        raw: r,
        key: k,
        value: v,
        modified: false,
        end: e,
    });
    if plain(k) && plain(v) {
        assert forall|j: int| 0 <= j < n implies r[j] != '\n' && r[j] != '\r' by {
            if j < k.len() {
                assert(r[j] == k[j]);
            } else if j >= p + 2 {
                assert(r[j] == v[j - p - 2]);
            }
        }
    }
}

/// The header of a new section reads back with its name.
pub proof fn lemma_new_header_reads_back(s: Seq<char>, e: Seq<char>)
    requires
        trim(s) == s,
        has_no(s, ']'),
    ensures
        reads_back(new_header(s, e)),
        plain(s) ==> plain(render_line(new_header(s, e))),
{
    lemma_ws_chars();
    let r = seq!['['] + s + seq![']'];
    let n = r.len() as int;
    assert(r[0] == '[' && r[n - 1] == ']');
    lemma_trim_at(r, 0, n);
    assert(r.subrange(0, n) =~= r);
    assert forall|j: int| 0 <= j < s.len() + 1 implies r[j] != ']' by {
        if j > 0 {
            assert(r[j] == s[j - 1]);
        }
    }
    lemma_find_at(r, ']', s.len() + 1 as int);
    assert(r.subrange(1, s.len() + 1 as int) =~= s);
    if plain(s) {
        assert forall|j: int| 0 <= j < n implies r[j] != '\n' && r[j] != '\r' by {
            if 0 < j < n - 1 {
                assert(r[j] == s[j - 1]);
            }
        }
    }
}

// ------------------------------------------------------------ documents

/// The pieces of text without carriage returns are single lines, each ending
/// with a line feed but for a last piece that is not empty.
proof fn lemma_split_props(s: Seq<char>, start: int, i: int)
    requires
        has_no(s, '\r'),
        0 <= start <= i <= s.len(),
        forall|j: int| start <= j < i ==> s[j] != '\n',
    ensures
        ({
            let r = split_from(s, start, i);
            &&& forall|j: int| 0 <= j < r.len() ==> plain(#[trigger] r[j].0)
            &&& forall|j: int| 0 <= j < r.len() - 1 ==> #[trigger] r[j].1 == seq!['\n']
            &&& r.len() > 0 ==> (r.last().1 == seq!['\n'] || (r.last().1.len() == 0
                && r.last().0.len() > 0))
        }),
    decreases s.len() - i,
{
    if i >= s.len() {
        if start < s.len() {
            let x = s.subrange(start, s.len() as int);
            assert(split_from(s, start, i) =~= seq![(x, Seq::<char>::empty())]);
            assert(plain(x));
        }
    } else if s[i] == '\n' {
        let c = s.subrange(start, i);
        assert(plain(c));
        if c.len() > 0 {
            assert(c.last() == s[i - 1]);
        }
        assert(strip_cr(c) == c);
        assert(line_break(c) == seq!['\n']);
        let rest = split_from(s, i + 1, i + 1);
        lemma_split_props(s, i + 1, i + 1);
        let r = split_from(s, start, i);
        assert(r == seq![(c, seq!['\n'])] + rest);
        assert forall|j: int| 0 <= j < r.len() implies plain(#[trigger] r[j].0) by {
            if j > 0 {
                assert(r[j] == rest[j - 1]);
            }
        }
        assert forall|j: int| 0 <= j < r.len() - 1 implies #[trigger] r[j].1 == seq!['\n'] by {
            if j > 0 {
                assert(r[j] == rest[j - 1]);
            }
        }
        if rest.len() > 0 {
            assert(r.last() == rest.last());
        }
    } else {
        lemma_split_props(s, start, i + 1);
    }
}

/// Text without carriage returns that parses gives a well broken document of
/// lines as read.
pub proof fn lemma_parsed_read(input: Seq<char>)
    requires
        has_no(input, '\r'),
        !has_bad_header(input),
    ensures
        well_broken(parsed(input)),
        forall|i: int| 0 <= i < parsed(input).len() ==> is_read(#[trigger] parsed(input)[i]),
{
    lemma_split_props(input, 0, 0);
    let sp = split_lines(input);
    let ls = parsed(input);
    assert forall|i: int| 0 <= i < ls.len() implies is_read(#[trigger] ls[i]) && render_line(ls[i])
        == sp[i].0 && line_end(ls[i]) == sp[i].1 by {
        assert(ls[i] == classify(sp[i].0, sp[i].1));
        assert(lines(input)[i] == sp[i].0);
        lemma_render_classify(sp[i].0, sp[i].1);
    }
    if ls.len() > 0 {
        assert(ls.last() == ls[ls.len() - 1]);
        assert(sp.last() == sp[sp.len() - 1]);
    }
}

/// The line break that lines added to a well broken document get is a line
/// feed.
proof fn lemma_eol_feed(l: LineView)
    requires
        line_end(l) == seq!['\n'] || line_end(l).len() == 0,
    ensures
        eol_after(l) == seq!['\n'],
        line_end(fix_end(l)) == seq!['\n'],
        render_line(fix_end(l)) == render_line(l),
{
    if line_end(l).len() == 0 {
        assert(line_end(l) =~= Seq::<char>::empty());
    }
}

/// What `set` may be given so that its result reads back.
pub open spec fn plain_args(s: Seq<char>, k: Seq<char>, v: Seq<char>) -> bool {
    &&& plain(s) && plain(k) && plain(v)
    &&& trim(s) == s && trim(k) == k && trim(v) == v
    &&& has_no(s, ']')
    &&& has_no(k, '=')
    &&& k.len() > 0 ==> k[0] != ';' && k[0] != '#' && k[0] != '['
}

/// `set` on a well broken document of lines as read gives a well broken
/// document whose lines read back.
#[verifier::spinoff_prover]
#[verifier::rlimit(40)]
pub proof fn lemma_set_reads_back(ls: Seq<LineView>, s: Seq<char>, k: Seq<char>, v: Seq<char>)
    requires
        well_broken(ls),
        forall|i: int| 0 <= i < ls.len() ==> is_read(#[trigger] ls[i]),
        plain_args(s, k, v),
    ensures
        well_broken(spec_set(ls, s, k, v)),
        forall|i: int|
            0 <= i < spec_set(ls, s, k, v).len() ==> reads_back(#[trigger] spec_set(ls, s, k, v)[i]),
{
    let ls1 = spec_set(ls, s, k, v);
    let n = ls.len() as int;
    assert forall|i: int| 0 <= i < n implies line_end(#[trigger] ls[i]) == seq!['\n'] || line_end(
        ls[i],
    ).len() == 0 by {
        if i < n - 1 {
        } else {
            assert(ls.last() == ls[i]);
        }
    }
    assert forall|i: int| 0 <= i < n implies reads_back(#[trigger] ls[i]) by {
        lemma_fix_read(ls[i]);
    }
    lemma_first_match(ls, s, k);
    match lookup(ls, s, k) {
        Some(i) => {
            let l = ls[i];
            assert(is_read(l));
            let r0 = render_line(l);
            assert(l == classify(r0, line_end(l)));
            lemma_splice_reads_back(r0, line_end(l), v);
            assert(ls1 == ls.update(i, with_value(l, v)));
            assert(line_end(with_value(l, v)) == line_end(l));
            assert forall|j: int| 0 <= j < ls1.len() implies reads_back(#[trigger] ls1[j]) by {
                if j != i {
                    assert(ls1[j] == ls[j]);
                }
            }
            assert forall|j: int| 0 <= j < ls1.len() implies plain(render_line(#[trigger] ls1[j])) by {
                if j != i {
                    assert(ls1[j] == ls[j]);
                }
            }
            assert forall|j: int| 0 <= j < ls1.len() - 1 implies line_end(#[trigger] ls1[j])
                == seq!['\n'] by {
                if j != i {
                    assert(ls1[j] == ls[j]);
                }
            }
            assert(ls1.last() == ls1[n - 1]);
            assert(ls.last() == ls[n - 1]);
        },
        None => {
            lemma_last_in_section(ls, s, n);
            match last_in_section(ls, s, n) {
                Some(j) => {
                    let p = j + 1;
                    lemma_eol_feed(ls[j]);
                    lemma_fix_read(ls[j]);
                    let x = new_property(k, v, eol_after(ls[j]));
                    lemma_new_property_reads_back(k, v, eol_after(ls[j]));
                    let ls0 = ls.update(j, fix_end(ls[j]));
                    assert(ls1 == ls0.insert(p, x));
                    assert forall|q: int| 0 <= q < ls1.len() implies reads_back(#[trigger] ls1[q])
                        && plain(render_line(ls1[q])) by {
                        if q < j {
                            assert(ls1[q] == ls[q]);
                        } else if q == j {
                            assert(ls1[q] == fix_end(ls[j]));
                        } else if q == p {
                            assert(ls1[q] == x);
                        } else {
                            assert(ls1[q] == ls[q - 1]);
                        }
                    }
                    assert forall|q: int| 0 <= q < ls1.len() - 1 implies line_end(
                        #[trigger] ls1[q],
                    ) == seq!['\n'] by {
                        if q < j {
                            assert(ls1[q] == ls[q]);
                        } else if q == j {
                            assert(ls1[q] == fix_end(ls[j]));
                        } else if q == p {
                            assert(ls1[q] == x);
                        } else {
                            assert(ls1[q] == ls[q - 1]);
                        }
                    }
                    assert(ls1.last() == ls1[ls1.len() - 1]);
                    if p < n {
                        assert(ls1[ls1.len() - 1] == ls[n - 1]);
                        assert(ls.last() == ls[n - 1]);
                    } else {
                        assert(ls1[ls1.len() - 1] == x);
                    }
                },
                None => {
                    let e = eol(ls);
                    if n > 0 {
                        lemma_eol_feed(ls.last());
                        lemma_fix_read(ls.last());
                    }
                    assert(e == seq!['\n']);
                    let c = close(ls);
                    let sep = separator(ls, e);
                    let h = new_header(s, e);
                    let x = new_property(k, v, e);
                    lemma_new_property_reads_back(k, v, e);
                    lemma_new_header_reads_back(s, e);
                    assert(ls1 == c + sep + seq![h, x]);
                    let m = sep.len() as int;
                    assert forall|q: int| 0 <= q < ls1.len() implies reads_back(#[trigger] ls1[q])
                        && plain(render_line(ls1[q])) && (q < ls1.len() - 1 ==> line_end(ls1[q])
                        == seq!['\n']) by {
                        if q < n - 1 {
                            assert(ls1[q] == ls[q]);
                        } else if q == n - 1 {
                            assert(ls1[q] == fix_end(ls.last()));
                        } else if q < n + m {
                            assert(ls1[q] == sep[q - n]);
                            assert(find(Seq::<char>::empty(), '=') is None);
                        } else if q == n + m {
                            assert(ls1[q] == h);
                        } else {
                            assert(ls1[q] == x);
                        }
                    }
                    assert(ls1.last() == x);
                },
            }
        },
    }
}

/// The text of a well broken document whose lines read back reads back as a
/// document of the same shape.
pub proof fn lemma_reparse_shape(ls: Seq<LineView>)
    requires
        well_broken(ls),
        forall|i: int| 0 <= i < ls.len() ==> reads_back(#[trigger] ls[i]),
    ensures
        !has_bad_header(render(ls)),
        parsed(render(ls)).len() == ls.len(),
        same_shape_upto(parsed(render(ls)), ls, ls.len() as int),
{
    lemma_split_render(ls);
    let t = render(ls);
    let ps = parsed(t);
    assert forall|i: int| 0 <= i < ls.len() implies ps[i] == classify(
        render_line(#[trigger] ls[i]),
        line_end(ls[i]),
    ) && lines(t)[i] == render_line(ls[i]) by {
        assert(split_lines(t)[i] == written(ls)[i]);
    }
    assert forall|i: int| 0 <= i < lines(t).len() implies !is_bad_header(#[trigger] lines(t)[i]) by {
        assert(lines(t)[i] == render_line(ls[i]));
    }
}

/// Text without carriage returns that parses, changed by `set` with a section
/// name, key and value of one line each that have no whitespace around them
/// (a name without `]`, a key without `=` that does not start like a comment
/// or a header, and any such value, the empty one too), is written as text
/// that parses again, writes back the same, and says the same: the same
/// sections, the same keys, and the value just set, which `get` answers
/// unless it is empty.
pub proof fn law_reparse_after_set(input: Seq<char>, s: Seq<char>, k: Seq<char>, v: Seq<char>, t: Seq<char>)
    requires
        has_no(input, '\r'),
        !has_bad_header(input),
        plain_args(s, k, v),
    ensures
        ({
            let ls1 = spec_set(parsed(input), s, k, v);
            let out = render(ls1);
            &&& !has_bad_header(out)
            &&& render(parsed(out)) == out
            &&& spec_sections(parsed(out)) == spec_sections(ls1)
            &&& spec_keys(parsed(out), t) == spec_keys(ls1, t)
            &&& lookup(parsed(out), s, k) is Some
            &&& prop_kv(parsed(out)[lookup(parsed(out), s, k)->0]) == Some((k, v))
            &&& spec_get(parsed(out), s, k) == (if v.len() == 0 {
                None
            } else {
                Some(v)
            })
        }),
{
    let ls = parsed(input);
    let ls1 = spec_set(ls, s, k, v);
    lemma_parsed_read(input);
    lemma_set_reads_back(ls, s, k, v);
    lemma_reparse_shape(ls1);
    let out = render(ls1);
    law_roundtrip(out);
    lemma_same_shape(parsed(out), ls1);
    law_get_after_set(ls, s, k, v);
    lemma_set_lookup(ls, s, k, v);
    lemma_first_match(ls1, s, k);
}

/// `add_section` on a well broken document of lines as read, with a name of
/// one line that has no whitespace around it and no `]`, gives a well broken
/// document whose lines read back.
pub proof fn lemma_add_section_reads_back(ls: Seq<LineView>, s: Seq<char>)
    requires
        well_broken(ls),
        forall|i: int| 0 <= i < ls.len() ==> is_read(#[trigger] ls[i]),
        plain(s),
        trim(s) == s,
        has_no(s, ']'),
    ensures
        well_broken(spec_add_section(ls, s)),
        forall|i: int|
            0 <= i < spec_add_section(ls, s).len() ==> reads_back(
                #[trigger] spec_add_section(ls, s)[i],
            ),
{
    let ls1 = spec_add_section(ls, s);
    let n = ls.len() as int;
    assert forall|i: int| 0 <= i < n implies reads_back(#[trigger] ls[i]) by {
        lemma_fix_read(ls[i]);
    }
    if !has_section(ls, s) {
        let e = eol(ls);
        if n > 0 {
            assert(ls.last() == ls[n - 1]);
            lemma_eol_feed(ls.last());
            lemma_fix_read(ls.last());
        }
        assert(e == seq!['\n']);
        let c = close(ls);
        let sep = separator(ls, e);
        let h = new_header(s, e);
        lemma_new_header_reads_back(s, e);
        assert(ls1 == c + sep + seq![h]);
        let m = sep.len() as int;
        assert forall|q: int| 0 <= q < ls1.len() implies reads_back(#[trigger] ls1[q]) && plain(
            render_line(ls1[q]),
        ) && (q < ls1.len() - 1 ==> line_end(ls1[q]) == seq!['\n']) by {
            if q < n - 1 {
                assert(ls1[q] == ls[q]);
            } else if q == n - 1 {
                assert(ls1[q] == fix_end(ls.last()));
            } else if q < n + m {
                assert(ls1[q] == sep[q - n]);
                assert(find(Seq::<char>::empty(), '=') is None);
            } else {
                assert(ls1[q] == h);
            }
        }
        assert(ls1.last() == h);
    }
}

/// Text without carriage returns that parses, given a section that it lacks by
/// `add_section` with a name of one line that has no whitespace around it and
/// no `]`, is written as text that parses again, has that section, and gives
/// every key of every section the same value as before.
pub proof fn law_reparse_after_add_section(input: Seq<char>, s: Seq<char>, s2: Seq<char>, k: Seq<char>)
    requires
        has_no(input, '\r'),
        !has_bad_header(input),
        plain(s),
        trim(s) == s,
        has_no(s, ']'),
    ensures
        ({
            let out = render(spec_add_section(parsed(input), s));
            &&& !has_bad_header(out)
            &&& has_section(parsed(out), s)
            &&& spec_get(parsed(out), s2, k) == spec_get(parsed(input), s2, k)
            &&& spec_keys(parsed(out), s2) == spec_keys(parsed(input), s2)
        }),
{
    let ls = parsed(input);
    let ls1 = spec_add_section(ls, s);
    lemma_parsed_read(input);
    lemma_add_section_reads_back(ls, s);
    lemma_reparse_shape(ls1);
    let out = render(ls1);
    lemma_same_shape(parsed(out), ls1);
    law_add_section(ls, s, s2, k);
    law_sections(ls1, s);
    law_sections(parsed(out), s);
}

} // verus!
