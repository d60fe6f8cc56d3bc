//! What `set` and `remove` change, and what they leave alone, stated over the
//! keys, the sections and the text of a document.
use vstd::prelude::*;
use crate::laws::{
    law_set_new_section, lemma_close_shape, lemma_fix_shape, lemma_render_append, lemma_render_one,
};
use crate::lemmas::{
    header_name, lemma_first_match, lemma_has_section, lemma_last_in_section,
    lemma_section_at_insert,
};
use crate::model::{
    close, eol, eol_after, fix_end, has_section, in_section, keys_upto, last_in_section, line_end,
    lookup, new_header, new_property, render, render_line, section_at, sections_upto, separator,
    spec_add_section, spec_keys, spec_remove, spec_sections, spec_set, with_value, LineView,
};
use crate::section_laws::law_sections;
use crate::shape::{
    lemma_keys_insert, lemma_keys_lookup, lemma_keys_prefix, lemma_keys_stable, lemma_prefix,
    lemma_same_shape, lemma_section_absent, lemma_sections_insert, prop_kv,
};
use crate::text::find;

verus! {

/// The text of a document around its line `i`.
pub proof fn lemma_render_split(ls: Seq<LineView>, i: int)
    requires
        0 <= i < ls.len(),
    ensures
        render(ls) == render(ls.take(i)) + render_line(ls[i]) + line_end(ls[i]) + render(
            ls.skip(i + 1),
        ),
{
    assert(ls =~= ls.take(i) + seq![ls[i]] + ls.skip(i + 1));
    lemma_render_append(ls.take(i) + seq![ls[i]], ls.skip(i + 1));
    lemma_render_append(ls.take(i), seq![ls[i]]);
    lemma_render_one(ls[i]);
}

/// The keys and sections of a document with a property line `x` at `i`, in
/// terms of the document without it.
proof fn lemma_replace_line(ls: Seq<LineView>, i: int, x: LineView, t: Seq<char>)
    requires
        0 <= i < ls.len(),
        x is Property,
        ls[i] is Property,
    ensures
        ({
            let r = ls.remove(i);
            let ls1 = ls.update(i, x);
            let idx = keys_upto(ls, t, i).len() as int;
            &&& idx <= keys_upto(r, t, r.len() as int).len()
            &&& spec_keys(ls, t) == if section_at(ls, i) == Some(t) {
                keys_upto(r, t, r.len() as int).insert(idx, prop_kv(ls[i])->0)
            } else {
                keys_upto(r, t, r.len() as int)
            }
            &&& spec_keys(ls1, t) == if section_at(ls, i) == Some(t) {
                keys_upto(r, t, r.len() as int).insert(idx, prop_kv(x)->0)
            } else {
                keys_upto(r, t, r.len() as int)
            }
            &&& spec_sections(ls) == sections_upto(r, r.len() as int)
            &&& spec_sections(ls1) == sections_upto(r, r.len() as int)
        }),
{
    let r = ls.remove(i);
    assert(r.insert(i, ls[i]) =~= ls);
    assert(r.insert(i, x) =~= ls.update(i, x));
    lemma_keys_insert(r, i, ls[i], t, r.len() as int);
    lemma_keys_insert(r, i, x, t, r.len() as int);
    lemma_sections_insert(r, i, ls[i], r.len() as int);
    lemma_sections_insert(r, i, x, r.len() as int);
    lemma_section_at_insert(r, i, ls[i], i);
    assert forall|j: int| 0 <= j < i implies header_name(#[trigger] ls[j]) == header_name(r[j])
        && prop_kv(ls[j]) == prop_kv(r[j]) by {}
    lemma_prefix(ls, r, i);
    lemma_keys_prefix(r, t, i, r.len() as int);
}

/// `set(s, k, v)` on a key that section `s` has: the first pair with key `k`
/// among the keys of `s` takes the value `v`; the keys of every other section,
/// the list of sections, and every line but that of the key stay as they were.
pub proof fn law_set_existing_key(
    ls: Seq<LineView>,
    s: Seq<char>,
    k: Seq<char>,
    v: Seq<char>,
    t: Seq<char>,
)
    requires
        lookup(ls, s, k) is Some,
    ensures
        ({
            let ls1 = spec_set(ls, s, k, v);
            let i = lookup(ls, s, k)->0;
            let ks = spec_keys(ls, s);
            let idx = keys_upto(ls, s, i).len() as int;
            &&& 0 <= idx < ks.len()
            &&& ks[idx].0 == k
            &&& forall|u: int| 0 <= u < idx ==> #[trigger] ks[u].0 != k
            &&& spec_keys(ls1, s) == ks.update(idx, (k, v))
            &&& t != s ==> spec_keys(ls1, t) == spec_keys(ls, t)
            &&& spec_sections(ls1) == spec_sections(ls)
            &&& ls1.len() == ls.len()
            &&& forall|j: int| 0 <= j < ls.len() && j != i ==> #[trigger] ls1[j] == ls[j]
            &&& render(ls) == render(ls.take(i)) + render_line(ls[i]) + line_end(ls[i]) + render(
                ls.skip(i + 1),
            )
            &&& render(ls1) == render(ls.take(i)) + render_line(ls1[i]) + line_end(ls[i]) + render(
                ls.skip(i + 1),
            )
        }),
{
    let i = lookup(ls, s, k)->0;
    lemma_first_match(ls, s, k);
    lemma_keys_lookup(ls, s, k);
    let x = with_value(ls[i], v);
    let ls1 = ls.update(i, x);
    assert(spec_set(ls, s, k, v) == ls1);
    lemma_replace_line(ls, i, x, s);
    lemma_replace_line(ls, i, x, t);
    let r = ls.remove(i);
    let idx = keys_upto(ls, s, i).len() as int;
    let kr = keys_upto(r, s, r.len() as int);
    assert(kr.insert(idx, prop_kv(ls[i])->0).update(idx, (k, v)) =~= kr.insert(idx, (k, v)));
    lemma_render_split(ls, i);
    lemma_render_split(ls1, i);
    assert(ls1.take(i) =~= ls.take(i));
    assert(ls1.skip(i + 1) =~= ls.skip(i + 1));
}

/// `remove(s, k)` finds the key exactly when some pair among the keys of `s`
/// has key `k`; then the first such pair is gone from the keys of `s`, only
/// its line is gone from the text, and the keys of every other section and
/// the list of sections stay as they were.
pub proof fn law_remove_effects(ls: Seq<LineView>, s: Seq<char>, k: Seq<char>, t: Seq<char>)
    ensures
        ({
            let ls1 = spec_remove(ls, s, k);
            let ks = spec_keys(ls, s);
            &&& (lookup(ls, s, k) is Some) == (exists|u: int|
                0 <= u < ks.len() && #[trigger] ks[u].0 == k)
            &&& t != s ==> spec_keys(ls1, t) == spec_keys(ls, t)
            &&& spec_sections(ls1) == spec_sections(ls)
            &&& lookup(ls, s, k) matches Some(i) ==> {
                let idx = keys_upto(ls, s, i).len() as int;
                &&& 0 <= idx < ks.len()
                &&& ks[idx].0 == k
                &&& forall|u: int| 0 <= u < idx ==> #[trigger] ks[u].0 != k
                &&& spec_keys(ls1, s) == ks.remove(idx)
                &&& render(ls) == render(ls.take(i)) + render_line(ls[i]) + line_end(ls[i])
                    + render(ls.skip(i + 1))
                &&& render(ls1) == render(ls.take(i)) + render(ls.skip(i + 1))
            }
        }),
{
    lemma_first_match(ls, s, k);
    lemma_keys_lookup(ls, s, k);
    if let Some(i) = lookup(ls, s, k) {
        let r = ls.remove(i);
        let ks = spec_keys(ls, s);
        let idx = keys_upto(ls, s, i).len() as int;
        assert(ks[idx].0 == k);
        lemma_replace_line(ls, i, ls[i], s);
        lemma_replace_line(ls, i, ls[i], t);
        let kr = keys_upto(r, s, r.len() as int);
        assert(kr.insert(idx, prop_kv(ls[i])->0).remove(idx) =~= kr);
        lemma_render_split(ls, i);
        assert(r =~= ls.take(i) + ls.skip(i + 1));
        lemma_render_append(ls.take(i), ls.skip(i + 1));
    }
}

/// `set(s, k, v)` for a key that section `s` lacks: `(k, v)` is appended to
/// the keys of `s`, as the line `k = v` right after the last line of the
/// section (which gets a line break if it had none); nothing else changes.
pub proof fn law_set_new_key(ls: Seq<LineView>, s: Seq<char>, k: Seq<char>, v: Seq<char>, t: Seq<char>)
    requires
        has_section(ls, s),
        forall|u: int| 0 <= u < spec_keys(ls, s).len() ==> #[trigger] spec_keys(ls, s)[u].0 != k,
    ensures
        ({
            let ls1 = spec_set(ls, s, k, v);
            let j = last_in_section(ls, s, ls.len() as int)->0;
            &&& 0 <= j < ls.len()
            &&& in_section(ls, j, s)
            &&& forall|m: int| j < m < ls.len() ==> !in_section(ls, m, s)
            &&& spec_keys(ls1, s) == spec_keys(ls, s).push((k, v))
            &&& t != s ==> spec_keys(ls1, t) == spec_keys(ls, t)
            &&& spec_sections(ls1) == spec_sections(ls)
            &&& render(ls) == render(ls.take(j)) + render_line(ls[j]) + line_end(ls[j]) + render(
                ls.skip(j + 1),
            )
            &&& render(ls1) == render(ls.take(j)) + render_line(ls[j]) + eol_after(ls[j]) + (k
                + " = "@ + v) + eol_after(ls[j]) + render(ls.skip(j + 1))
        }),
{
    lemma_keys_lookup(ls, s, k);
    lemma_has_section(ls, s);
    lemma_last_in_section(ls, s, ls.len() as int);
    let j = last_in_section(ls, s, ls.len() as int)->0;
    let p = j + 1;
    let e = eol_after(ls[j]);
    let x = new_property(k, v, e);
    let ls0 = ls.update(j, fix_end(ls[j]));
    let ls1 = ls0.insert(p, x);
    assert(spec_set(ls, s, k, v) == ls1);
    lemma_fix_shape(ls, j);
    lemma_same_shape(ls0, ls);
    lemma_prefix(ls0, ls, ls.len() as int);
    assert(section_at(ls0, p) == Some(s));
    lemma_keys_insert(ls0, p, x, s, ls0.len() as int);
    lemma_keys_insert(ls0, p, x, t, ls0.len() as int);
    lemma_sections_insert(ls0, p, x, ls0.len() as int);
    assert forall|q: int| p <= q < ls0.len() implies !(#[trigger] ls0[q] is Property && section_at(
        ls0,
        q,
    ) == Some(s)) by {
        assert(!in_section(ls, q, s));
        if ls0[q] is Property {
            assert(section_at(ls, q + 1) == section_at(ls, q));
            assert(section_at(ls0, q) == section_at(ls, q));
        }
    }
    lemma_keys_stable(ls0, s, p, ls0.len() as int);
    let k0 = keys_upto(ls0, s, ls0.len() as int);
    assert(k0.insert(k0.len() as int, (k, v)) =~= k0.push((k, v)));
    // the text
    lemma_render_split(ls, j);
    assert(ls1 =~= ls.take(j) + seq![fix_end(ls[j]), x] + ls.skip(j + 1));
    lemma_render_append(ls.take(j) + seq![fix_end(ls[j]), x], ls.skip(j + 1));
    lemma_render_append(ls.take(j), seq![fix_end(ls[j]), x]);
    assert(seq![fix_end(ls[j]), x] =~= seq![fix_end(ls[j])] + seq![x]);
    lemma_render_append(seq![fix_end(ls[j])], seq![x]);
    lemma_render_one(fix_end(ls[j]));
    lemma_render_one(x);
    assert(find(Seq::<char>::empty(), '=') is None);
    assert(render_line(x) == k + " = "@ + v);
    assert(render_line(fix_end(ls[j])) == render_line(ls[j]));
}

/// The line break that closing a document adds to its text.
pub open spec fn closing_break(ls: Seq<LineView>) -> Seq<char> {
    if ls.len() > 0 && line_end(ls.last()).len() == 0 {
        seq!['\n']
    } else {
        seq![]
    }
}

/// The text of the blank line that separates a new section, if one is added.
pub open spec fn separator_text(ls: Seq<LineView>, e: Seq<char>) -> Seq<char> {
    if ls.len() > 0 && ls.last() is Blank {
        seq![]
    } else {
        e
    }
}

/// `add_section(s)` leaves a document that has section `s` as it is. For a
/// section that does not exist, the text is the text before, then a line
/// break where its last line had none, then a blank line unless the document
/// already ends with one, then `[s]` on a line of its own.
pub proof fn law_add_section_text(ls: Seq<LineView>, s: Seq<char>)
    ensures
        has_section(ls, s) ==> spec_add_section(ls, s) == ls,
        !has_section(ls, s) ==> render(spec_add_section(ls, s)) == render(ls) + closing_break(ls)
            + separator_text(ls, eol(ls)) + (seq!['['] + s + seq![']']) + eol(ls),
{
    if !has_section(ls, s) {
        let e = eol(ls);
        let c = close(ls);
        let sep = separator(ls, e);
        let h = new_header(s, e);
        let ls1 = spec_add_section(ls, s);
        assert(ls1 == c + sep + seq![h]);
        let n = ls.len() as int;
        lemma_render_append(c + sep, seq![h]);
        lemma_render_append(c, sep);
        lemma_render_one(h);
        if sep.len() > 0 {
            assert(sep =~= seq![sep[0]]);
            lemma_render_one(sep[0]);
        }
        assert(render(sep) == separator_text(ls, e));
        if n > 0 {
            assert(c.drop_last() =~= ls.drop_last());
            assert(render(c) == render(ls) + closing_break(ls));
        } else {
            assert(render(c) =~= render(ls) + closing_break(ls));
        }
        assert(render(ls1) =~= render(ls) + closing_break(ls) + separator_text(ls, e) + (seq!['[']
            + s + seq![']']) + e);
    }
}

/// `set(s, k, v)` for a section that does not exist: the text gets, after a
/// line break for a last line without one and a blank line, `[s]` and
/// `k = v`; the section is appended to the list with `(k, v)` as its only
/// key, and the keys of every other section stay as they were.
pub proof fn law_set_new_section_effects(
    ls: Seq<LineView>,
    s: Seq<char>,
    k: Seq<char>,
    v: Seq<char>,
    t: Seq<char>,
)
    requires
        !has_section(ls, s),
    ensures
        ({
            let ls1 = spec_set(ls, s, k, v);
            let e = eol(ls);
            &&& render(ls1) == render(ls) + closing_break(ls) + separator_text(ls, e) + (seq!['[']
                + s + seq![']']) + e + (k + " = "@ + v) + e
            &&& spec_sections(ls1) == spec_sections(ls).push(s)
            &&& spec_keys(ls1, s) == seq![(k, v)]
            &&& t != s ==> spec_keys(ls1, t) == spec_keys(ls, t)
        }),
{
    law_set_new_section(ls, s, k, v);
    let e = eol(ls);
    let c = close(ls);
    let sep = separator(ls, e);
    let h = new_header(s, e);
    let x = new_property(k, v, e);
    let ls1 = spec_set(ls, s, k, v);
    assert(ls1 == c + sep + seq![h, x]);
    let n = ls.len() as int;
    let m = sep.len() as int;
    // the text
    lemma_render_append(c + sep, seq![h, x]);
    lemma_render_append(c, sep);
    assert(seq![h, x] =~= seq![h] + seq![x]);
    lemma_render_append(seq![h], seq![x]);
    lemma_render_one(h);
    lemma_render_one(x);
    assert(find(Seq::<char>::empty(), '=') is None);
    if m > 0 {
        assert(sep =~= seq![sep[0]]);
        lemma_render_one(sep[0]);
    }
    assert(render(sep) == separator_text(ls, e));
    assert(render(seq![h, x]) == (seq!['['] + s + seq![']']) + e + ((k + " = "@ + v) + e));
    if n > 0 {
        assert(c.drop_last() =~= ls.drop_last());
        assert(render(c) == render(ls) + closing_break(ls));
    } else {
        assert(render(c) =~= render(ls) + closing_break(ls));
    }
    assert(render(ls1) =~= render(ls) + closing_break(ls) + separator_text(ls, e) + (seq!['[']
        + s + seq![']']) + e + (k + " = "@ + v) + e);
    // what it says
    lemma_close_shape(ls);
    assert forall|q: int| 0 <= q < n implies header_name(#[trigger] ls1[q]) == header_name(ls[q])
        && prop_kv(ls1[q]) == prop_kv(ls[q]) by {
        assert(ls1[q] == c[q]);
    }
    lemma_prefix(ls1, ls, n);
    assert forall|q: int| n <= q < n + m implies ls1[q] is Blank by {
        assert(ls1[q] == sep[q - n]);
    }
    assert(ls1[n + m] == h);
    assert(ls1[n + m + 1] == x);
    law_sections(ls, s);
    lemma_section_absent(ls, s, n);
    assert(sections_upto(ls1, n + m) == sections_upto(ls1, n)) by {
        if m > 0 {
            assert(ls1[n] is Blank);
        }
    }
    assert(sections_upto(ls1, n) == spec_sections(ls));
    assert(!spec_sections(ls).contains(s));
    assert(sections_upto(ls1, n + m + 1) == spec_sections(ls).push(s));
    assert(sections_upto(ls1, n + m + 2) == sections_upto(ls1, n + m + 1));
    assert(keys_upto(ls1, s, n + m) == keys_upto(ls1, s, n)) by {
        if m > 0 {
            assert(ls1[n] is Blank);
        }
    }
    assert(keys_upto(ls1, t, n + m) == keys_upto(ls1, t, n)) by {
        if m > 0 {
            assert(ls1[n] is Blank);
        }
    }
    assert(section_at(ls1, n + m + 1) == Some(s));
    if t != s {
        assert(keys_upto(ls1, t, n + m + 1) == keys_upto(ls1, t, n + m));
        assert(section_at(ls1, n + m + 1) != Some(t));
        assert(keys_upto(ls1, t, n + m + 2) == keys_upto(ls1, t, n + m + 1));
        assert(keys_upto(ls1, t, n) == keys_upto(ls, t, n));
    }
    assert(keys_upto(ls1, s, n + m + 1) == keys_upto(ls1, s, n + m));
    assert(keys_upto(ls1, s, n) == keys_upto(ls, s, n));
    assert(keys_upto(ls1, s, n + m + 1) =~= Seq::<(Seq<char>, Seq<char>)>::empty());
    assert(keys_upto(ls1, s, n + m + 2) == keys_upto(ls1, s, n + m + 1).push((k, v)));
    assert(keys_upto(ls1, s, n + m + 2) =~= seq![(k, v)]);
}

} // verus!
