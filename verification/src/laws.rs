//! The laws of the library: what holds of its operations for every document,
//! each proved over the model.
use vstd::prelude::*;
use crate::text::{line_break, lemma_line_break, split_from, strip_cr};
use crate::lemmas::{
    header_name, lemma_first_match, lemma_has_section, lemma_last_in_section, lemma_lookup_is,
    lemma_lookup_none, lemma_match_unique, lemma_section_at_append, lemma_section_at_header,
    lemma_section_at_insert, lemma_section_at_same,
};
use crate::model::{
    classify, classify_all, close, eol, eol_after, fix_end, has_section, is_match,
    last_in_section, line_end, lookup, new_header, new_property, parsed, render, render_line,
    section_at, separator, spec_get, spec_remove, spec_set, with_value, LineView,
};
use crate::shape::{lemma_prefix, lemma_same_shape, prop_kv, same_shape_upto};

verus! {

/// The text of a document is the text of its first lines followed by that of
/// the rest.
pub proof fn lemma_render_append(a: Seq<LineView>, b: Seq<LineView>)
    ensures
        render(a + b) == render(a) + render(b),
    decreases b.len(),
{
    if b.len() == 0 {
        assert(a + b =~= a);
        assert(render(a) + render(b) =~= render(a));
    } else {
        lemma_render_append(a, b.drop_last());
        assert((a + b).drop_last() =~= a + b.drop_last());
        assert((a + b).last() == b.last());
        assert(render(a + b) =~= render(a) + render(b));
    }
}

/// The text of a single line: the line and its break.
pub proof fn lemma_render_one(l: LineView)
    ensures
        render(seq![l]) == render_line(l) + line_end(l),
{
    assert(seq![l].drop_last() =~= Seq::<LineView>::empty());
    assert(render(Seq::<LineView>::empty()) =~= Seq::<char>::empty());
    assert(seq![l].last() == l);
    assert(render(seq![l]) =~= render_line(l) + line_end(l));
}

/// A line as read is written back as it was, with the break it was read with.
pub proof fn lemma_render_classify(l: Seq<char>, e: Seq<char>)
    ensures
        render_line(classify(l, e)) == l,
        line_end(classify(l, e)) == e,
{
}

proof fn lemma_roundtrip_from(s: Seq<char>, start: int, i: int)
    requires
        0 <= start <= i <= s.len(),
        forall|j: int| start <= j < i ==> s[j] != '\n',
    ensures
        render(classify_all(split_from(s, start, i))) == s.subrange(start, s.len() as int),
    decreases s.len() - i,
{
    if i >= s.len() {
        if start < s.len() {
            let x = s.subrange(start, s.len() as int);
            let e = Seq::<char>::empty();
            assert(split_from(s, start, i) =~= seq![(x, e)]);
            assert(classify_all(seq![(x, e)]) =~= seq![classify(x, e)]);
            lemma_render_one(classify(x, e));
            assert(render_line(classify(x, e)) + line_end(classify(x, e)) =~= x);
        } else {
            assert(split_from(s, start, i) =~= Seq::<(Seq<char>, Seq<char>)>::empty());
            assert(classify_all(Seq::<(Seq<char>, Seq<char>)>::empty()) =~= Seq::<
                LineView,
            >::empty());
            assert(s.subrange(start, s.len() as int) =~= Seq::<char>::empty());
        }
    } else if s[i] == '\n' {
        let c = s.subrange(start, i);
        let pair = (strip_cr(c), line_break(c));
        let rest = split_from(s, i + 1, i + 1);
        assert(split_from(s, start, i) == seq![pair] + rest);
        lemma_roundtrip_from(s, i + 1, i + 1);
        let x = classify(pair.0, pair.1);
        assert(classify_all(seq![pair] + rest) =~= seq![x] + classify_all(rest));
        lemma_render_append(seq![x], classify_all(rest));
        lemma_render_one(x);
        lemma_line_break(c);
        assert(s.subrange(start, s.len() as int) =~= c + seq!['\n'] + s.subrange(
            i + 1,
            s.len() as int,
        ));
    } else {
        lemma_roundtrip_from(s, start, i + 1);
    }
}

/// Reading any text and writing it back gives the same text.
pub proof fn law_roundtrip(s: Seq<char>)
    ensures
        render(parsed(s)) == s,
{
    lemma_roundtrip_from(s, 0, 0);
    assert(s.subrange(0, s.len() as int) =~= s);
}

/// Giving a line a break keeps what it says.
pub proof fn lemma_fix_shape(ls: Seq<LineView>, j: int)
    requires
        0 <= j < ls.len(),
    ensures
        same_shape_upto(ls.update(j, fix_end(ls[j])), ls, ls.len() as int),
        ls.update(j, fix_end(ls[j])).len() == ls.len(),
{
    let ls0 = ls.update(j, fix_end(ls[j]));
    assert forall|q: int| 0 <= q < ls.len() implies header_name(#[trigger] ls0[q]) == header_name(
        ls[q],
    ) && prop_kv(ls0[q]) == prop_kv(ls[q]) by {}
}

/// Closing a document keeps what it says.
pub proof fn lemma_close_shape(ls: Seq<LineView>)
    ensures
        same_shape_upto(close(ls), ls, ls.len() as int),
        close(ls).len() == ls.len(),
{
    if ls.len() > 0 {
        lemma_fix_shape(ls, ls.len() - 1);
    }
}

/// Where `set` puts the value: afterwards the first property `k` of section
/// `s` holds `v` and is marked as modified.
pub proof fn lemma_set_lookup(ls: Seq<LineView>, s: Seq<char>, k: Seq<char>, v: Seq<char>)
    ensures
        ({
            let ls1 = spec_set(ls, s, k, v);
            &&& lookup(ls1, s, k) is Some
            &&& 0 <= lookup(ls1, s, k)->0 < ls1.len()
            &&& ls1[lookup(ls1, s, k)->0] is Property
            &&& ls1[lookup(ls1, s, k)->0]->value == v
            &&& ls1[lookup(ls1, s, k)->0]->modified
        }),
{
    set_lookups(ls, s, k, v, s, k);
}

/// Where section `s` does not exist, `set(s, k, v)` appends its header and the
/// property at the end, and exactly one blank line stands between them and
/// the lines before: one is added unless the document already ends with a
/// blank line. A last line without a line break gets one first.
pub proof fn law_set_new_section(ls: Seq<LineView>, s: Seq<char>, k: Seq<char>, v: Seq<char>)
    requires
        !has_section(ls, s),
    ensures
        spec_set(ls, s, k, v) == close(ls) + separator(ls, eol(ls)) + seq![
            new_header(s, eol(ls)),
            new_property(k, v, eol(ls)),
        ],
        spec_set(ls, s, k, v)[ls.len() + separator(ls, eol(ls)).len() - 1] is Blank,
{
    lemma_first_match(ls, s, k);
    lemma_last_in_section(ls, s, ls.len() as int);
    lemma_has_section(ls, s);
    if let Some(m) = lookup(ls, s, k) {
        lemma_section_at_header(ls, s, m);
    }
    let ls1 = spec_set(ls, s, k, v);
    let sep = separator(ls, eol(ls));
    if sep.len() == 0 {
        assert(ls1[ls.len() - 1] == close(ls)[ls.len() - 1]);
    } else {
        assert(ls1[ls.len() as int] == sep[0]);
    }
}

/// `set(s, k, v)` changes what `get` answers for no other (section, key) pair.
pub proof fn law_set_keeps_other_keys(
    ls: Seq<LineView>,
    s: Seq<char>,
    k: Seq<char>,
    v: Seq<char>,
    s2: Seq<char>,
    k2: Seq<char>,
)
    requires
        s2 != s || k2 != k,
    ensures
        spec_get(spec_set(ls, s, k, v), s2, k2) == spec_get(ls, s2, k2),
{
    set_lookups(ls, s, k, v, s2, k2);
}

/// After `set(s, k, v)`, `get(s, k)` gives `v`, or nothing where `v` is empty.
pub proof fn law_get_after_set(ls: Seq<LineView>, s: Seq<char>, k: Seq<char>, v: Seq<char>)
    ensures
        spec_get(spec_set(ls, s, k, v), s, k) == (if v.len() == 0 {
            None
        } else {
            Some(v)
        }),
{
    lemma_set_lookup(ls, s, k, v);
}

/// Setting the same value twice is setting it once.
pub proof fn law_set_idempotent(ls: Seq<LineView>, s: Seq<char>, k: Seq<char>, v: Seq<char>)
    ensures
        spec_set(spec_set(ls, s, k, v), s, k, v) == spec_set(ls, s, k, v),
{
    let ls1 = spec_set(ls, s, k, v);
    lemma_set_lookup(ls, s, k, v);
    let m = lookup(ls1, s, k)->0;
    assert(with_value(ls1[m], v) == ls1[m]);
    assert(spec_set(ls1, s, k, v) == ls1.update(m, with_value(ls1[m], v)));
    assert(ls1.update(m, ls1[m]) =~= ls1);
}

/// `remove(s, k)` changes what `get` answers for no other (section, key) pair.
pub proof fn law_remove_keeps_other_keys(
    ls: Seq<LineView>,
    s: Seq<char>,
    k: Seq<char>,
    s2: Seq<char>,
    k2: Seq<char>,
)
    requires
        s2 != s || k2 != k,
    ensures
        spec_get(spec_remove(ls, s, k), s2, k2) == spec_get(ls, s2, k2),
{
    lemma_first_match(ls, s, k);
    lemma_first_match(ls, s2, k2);
    if let Some(i) = lookup(ls, s, k) {
        let ls1 = ls.remove(i);
        let x = ls[i];
        assert(ls1.insert(i, x) =~= ls);
        assert forall|q: int| 0 <= q <= ls1.len() implies (q <= i ==> section_at(ls, q)
            == section_at(ls1, q)) && (q >= i ==> section_at(ls, q + 1) == section_at(ls1, q)) by {
            lemma_section_at_insert(ls1, i, x, q);
        }
        assert forall|q: int| 0 <= q < i implies #[trigger] is_match(ls1, q, s2, k2) == is_match(
            ls,
            q,
            s2,
            k2,
        ) by {
            assert(ls1[q] == ls[q]);
        }
        assert forall|q: int| i <= q < ls1.len() implies #[trigger] is_match(ls1, q, s2, k2)
            == is_match(ls, q + 1, s2, k2) by {
            assert(ls1[q] == ls[q + 1]);
        }
        match lookup(ls, s2, k2) {
            Some(m) => {
                if m == i {
                    lemma_match_unique(ls, i, s, k, s2, k2);
                } else if m < i {
                    lemma_lookup_is(ls1, s2, k2, m);
                } else {
                    assert(is_match(ls1, m - 1, s2, k2));
                    assert forall|q: int| 0 <= q < m - 1 implies !is_match(ls1, q, s2, k2) by {
                        if q >= i {
                            assert(is_match(ls1, q, s2, k2) == is_match(ls, q + 1, s2, k2));
                        }
                    }
                    lemma_lookup_is(ls1, s2, k2, m - 1);
                    assert(ls1[m - 1] == ls[m]);
                }
            },
            None => {
                assert forall|q: int| 0 <= q < ls1.len() implies !is_match(ls1, q, s2, k2) by {
                    if q >= i {
                        assert(is_match(ls1, q, s2, k2) == is_match(ls, q + 1, s2, k2));
                    }
                }
                lemma_lookup_none(ls1, s2, k2);
            },
        }
    }
}

/// How the matches of a (section, key) pair move under `set(s, k, v)`: the
/// first match of `(s2, k2)` afterwards holds the same line as before, unless
/// the pair is `(s, k)`, whose first match then holds `v`.
proof fn set_lookups(
    ls: Seq<LineView>,
    s: Seq<char>,
    k: Seq<char>,
    v: Seq<char>,
    s2: Seq<char>,
    k2: Seq<char>,
)
    ensures
        ({
            let ls1 = spec_set(ls, s, k, v);
            &&& (s2 == s && k2 == k) ==> {
                &&& lookup(ls1, s, k) is Some
                &&& 0 <= lookup(ls1, s, k)->0 < ls1.len()
                &&& ls1[lookup(ls1, s, k)->0] is Property
                &&& ls1[lookup(ls1, s, k)->0]->value == v
                &&& ls1[lookup(ls1, s, k)->0]->modified
            }
            &&& (s2 != s || k2 != k) ==> spec_get(ls1, s2, k2) == spec_get(ls, s2, k2)
        }),
{
    let ls1 = spec_set(ls, s, k, v);
    let same = s2 == s && k2 == k;
    lemma_first_match(ls, s, k);
    lemma_first_match(ls, s2, k2);
    match lookup(ls, s, k) {
        Some(i) => {
            let w = with_value(ls[i], v);
            assert(ls1 == ls.update(i, w));
            assert forall|j: int| 0 <= j < ls.len() implies header_name(#[trigger] ls1[j])
                == header_name(ls[j]) by {}
            lemma_section_at_same(ls1, ls, ls.len() as int);
            assert forall|j: int| #[trigger]
                is_match(ls1, j, s2, k2) == is_match(ls, j, s2, k2) by {
                if 0 <= j < ls.len() {
                    assert(section_at(ls1, j) == section_at(ls, j));
                }
            }
            if same {
                lemma_lookup_is(ls1, s, k, i);
            } else {
                match lookup(ls, s2, k2) {
                    Some(m) => {
                        lemma_lookup_is(ls1, s2, k2, m);
                        if m == i {
                            lemma_match_unique(ls, i, s, k, s2, k2);
                        }
                    },
                    None => {
                        lemma_lookup_none(ls1, s2, k2);
                    },
                }
            }
        },
        None => {
            lemma_last_in_section(ls, s, ls.len() as int);
            match last_in_section(ls, s, ls.len() as int) {
                Some(j) => {
                    let p = j + 1;
                    let x = new_property(k, v, eol_after(ls[j]));
                    let ls0 = ls.update(j, fix_end(ls[j]));
                    lemma_fix_shape(ls, j);
                    lemma_same_shape(ls0, ls);
                    lemma_prefix(ls0, ls, ls.len() as int);
                    lemma_first_match(ls0, s2, k2);
                    assert(ls1 == ls0.insert(p, x));
                    assert forall|i: int| 0 <= i <= ls0.len() implies (i <= p ==> section_at(
                        ls1,
                        i,
                    ) == section_at(ls0, i)) && (i >= p ==> section_at(ls1, i + 1) == section_at(
                        ls0,
                        i,
                    )) by {
                        lemma_section_at_insert(ls0, p, x, i);
                    }
                    assert(section_at(ls, p) == Some(s));
                    assert(section_at(ls0, p) == Some(s));
                    assert(section_at(ls1, p) == Some(s));
                    assert forall|q: int| 0 <= q < p implies #[trigger] is_match(ls1, q, s2, k2)
                        == is_match(ls0, q, s2, k2) by {
                        assert(ls1[q] == ls0[q]);
                    }
                    assert forall|q: int| p < q <= ls0.len() implies #[trigger] is_match(
                        ls1,
                        q,
                        s2,
                        k2,
                    ) == is_match(ls0, q - 1, s2, k2) by {
                        assert(ls1[q] == ls0[q - 1]);
                        assert(section_at(ls1, (q - 1) + 1) == section_at(ls0, q - 1));
                    }
                    assert(is_match(ls1, p, s2, k2) == same);
                    if same {
                        lemma_lookup_is(ls1, s, k, p);
                    } else {
                        match lookup(ls0, s2, k2) {
                            Some(m) => {
                                if m < p {
                                    lemma_lookup_is(ls1, s2, k2, m);
                                } else {
                                    assert(is_match(ls1, m + 1, s2, k2));
                                    assert forall|q: int| 0 <= q < m + 1 implies !is_match(
                                        ls1,
                                        q,
                                        s2,
                                        k2,
                                    ) by {
                                        if q > p {
                                            assert(is_match(ls1, q, s2, k2) == is_match(
                                                ls0,
                                                q - 1,
                                                s2,
                                                k2,
                                            ));
                                        }
                                    }
                                    lemma_lookup_is(ls1, s2, k2, m + 1);
                                    assert(ls1[m + 1] == ls0[m]);
                                }
                            },
                            None => {
                                assert forall|q: int| 0 <= q < ls1.len() implies !is_match(
                                    ls1,
                                    q,
                                    s2,
                                    k2,
                                ) by {
                                    if q > p {
                                        assert(is_match(ls1, q, s2, k2) == is_match(
                                            ls0,
                                            q - 1,
                                            s2,
                                            k2,
                                        ));
                                    }
                                }
                                lemma_lookup_none(ls1, s2, k2);
                            },
                        }
                    }
                },
                None => {
                    let x = new_property(k, v, eol(ls));
                    let t = separator(ls, eol(ls)) + seq![new_header(s, eol(ls)), x];
                    let c = close(ls);
                    lemma_close_shape(ls);
                    lemma_same_shape(c, ls);
                    lemma_first_match(c, s2, k2);
                    assert(ls1 =~= c + t);
                    lemma_section_at_append(c, t);
                    let last = ls1.len() - 1;
                    assert(ls1[last] == x);
                    assert(ls1[last - 1] == new_header(s, eol(ls)));
                    assert(section_at(ls1, last) == Some(s));
                    assert(is_match(ls1, last, s2, k2) == same);
                    assert forall|q: int| 0 <= q < c.len() implies #[trigger] is_match(
                        ls1,
                        q,
                        s2,
                        k2,
                    ) == is_match(c, q, s2, k2) by {
                        assert(ls1[q] == c[q]);
                    }
                    assert forall|q: int| c.len() <= q < last implies !is_match(
                        ls1,
                        q,
                        s2,
                        k2,
                    ) by {
                        assert(!(ls1[q] is Property));
                    }
                    if same {
                        lemma_lookup_is(ls1, s, k, last);
                    } else {
                        match lookup(c, s2, k2) {
                            Some(m) => {
                                lemma_lookup_is(ls1, s2, k2, m);
                            },
                            None => {
                                lemma_lookup_none(ls1, s2, k2);
                            },
                        }
                    }
                },
            }
        },
    }
}

} // verus!
