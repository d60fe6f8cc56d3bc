//! What a document says (its sections, the keys and values in them) depends
//! only on the shape of its lines: the names of its headers and the keys and
//! values of its properties. Facts about that, and about how the answers move
//! when a line is inserted.
use vstd::prelude::*;
use crate::lemmas::{
    header_name, lemma_first_match, lemma_section_at_header, lemma_section_at_insert,
    lemma_section_at_same,
};
use crate::model::{
    first_match_from, is_header_named, is_match, keys_upto, lookup, section_at, sections_upto,
    spec_get, spec_keys, spec_sections, LineView,
};

verus! {

/// The value of the first property `k` of section `s` among the first `n`
/// lines, if there is one.
pub open spec fn first_value_upto(ls: Seq<LineView>, s: Seq<char>, k: Seq<char>, n: int) -> Option<
    Seq<char>,
>
    decreases n,
{
    if n <= 0 {
        None
    } else {
        match first_value_upto(ls, s, k, n - 1) {
            Some(v) => Some(v),
            None => if is_match(ls, n - 1, s, k) {
                Some(ls[n - 1]->value)
            } else {
                None
            },
        }
    }
}

/// What `get` answers, given the value of the first match.
pub open spec fn answer(fv: Option<Seq<char>>) -> Option<Seq<char>> {
    match fv {
        Some(v) => if v.len() == 0 {
            None
        } else {
            Some(v)
        },
        None => None,
    }
}

pub proof fn lemma_first_value_lookup(ls: Seq<LineView>, s: Seq<char>, k: Seq<char>, n: int)
    requires
        0 <= n <= ls.len(),
    ensures
        first_value_upto(ls, s, k, n) == match lookup(ls, s, k) {
            Some(m) => if m < n {
                Some(ls[m]->value)
            } else {
                None
            },
            None => None,
        },
    decreases n,
{
    lemma_first_match(ls, s, k);
    if n > 0 {
        lemma_first_value_lookup(ls, s, k, n - 1);
    }
}

/// `get` answers from the value of the first match.
pub proof fn lemma_get_by_value(ls: Seq<LineView>, s: Seq<char>, k: Seq<char>)
    ensures
        spec_get(ls, s, k) == answer(first_value_upto(ls, s, k, ls.len() as int)),
{
    lemma_first_match(ls, s, k);
    lemma_first_value_lookup(ls, s, k, ls.len() as int);
}

/// The key and value of a property line.
pub open spec fn prop_kv(l: LineView) -> Option<(Seq<char>, Seq<char>)> {
    match l {
        LineView::Property { key, value, .. } => Some((key, value)),
        _ => None,
    }
}

/// Whether the first `n` lines of `a` and `b` have the same headers and the
/// same properties.
pub open spec fn same_shape_upto(a: Seq<LineView>, b: Seq<LineView>, n: int) -> bool {
    forall|j: int|
        0 <= j < n ==> header_name(#[trigger] a[j]) == header_name(b[j]) && prop_kv(a[j])
            == prop_kv(b[j])
}

/// Documents whose first `n` lines have the same shape agree on what those
/// lines say.
pub proof fn lemma_prefix(a: Seq<LineView>, b: Seq<LineView>, n: int)
    requires
        0 <= n <= a.len(),
        n <= b.len(),
        same_shape_upto(a, b, n),
    ensures
        forall|s: Seq<char>, k: Seq<char>| #[trigger]
            first_value_upto(a, s, k, n) == first_value_upto(b, s, k, n),
        forall|s: Seq<char>| #[trigger] keys_upto(a, s, n) == keys_upto(b, s, n),
        forall|i: int| 0 <= i <= n ==> #[trigger] section_at(a, i) == section_at(b, i),
        sections_upto(a, n) == sections_upto(b, n),
    decreases n,
{
    assert forall|j: int| 0 <= j < n implies header_name(#[trigger] a[j]) == header_name(b[j]) by {}
    lemma_section_at_same(a, b, n);
    if n > 0 {
        lemma_prefix(a, b, n - 1);
        let l = a[n - 1];
        let m = b[n - 1];
        assert(header_name(l) == header_name(m) && prop_kv(l) == prop_kv(m));
        assert(l is Property <==> m is Property);
        assert(l is Section <==> m is Section);
        if l is Property {
            assert(l->key == m->key && l->value == m->value);
        }
        if l is Section {
            assert(l->name == m->name);
        }
        assert forall|s: Seq<char>, k: Seq<char>| #[trigger]
            first_value_upto(a, s, k, n) == first_value_upto(b, s, k, n) by {
            assert(first_value_upto(a, s, k, n - 1) == first_value_upto(b, s, k, n - 1));
            assert(section_at(a, n - 1) == section_at(b, n - 1));
        }
        assert forall|s: Seq<char>| #[trigger] keys_upto(a, s, n) == keys_upto(b, s, n) by {
            assert(keys_upto(a, s, n - 1) == keys_upto(b, s, n - 1));
            assert(section_at(a, n - 1) == section_at(b, n - 1));
        }
    }
}

proof fn lemma_lookup_from_eq(a: Seq<LineView>, b: Seq<LineView>, s: Seq<char>, k: Seq<char>, i: int)
    requires
        a.len() == b.len(),
        forall|j: int| 0 <= j < a.len() ==> #[trigger] is_match(a, j, s, k) == is_match(b, j, s, k),
    ensures
        first_match_from(a, s, k, i) == first_match_from(b, s, k, i),
    decreases a.len() - i,
{
    if 0 <= i < a.len() {
        lemma_lookup_from_eq(a, b, s, k, i + 1);
    }
}

/// Documents of the same shape give the same answers.
pub proof fn lemma_same_shape(a: Seq<LineView>, b: Seq<LineView>)
    requires
        a.len() == b.len(),
        same_shape_upto(a, b, a.len() as int),
    ensures
        forall|s: Seq<char>, k: Seq<char>| #[trigger] lookup(a, s, k) == lookup(b, s, k),
        forall|s: Seq<char>, k: Seq<char>| #[trigger] spec_get(a, s, k) == spec_get(b, s, k),
        forall|s: Seq<char>| #[trigger] spec_keys(a, s) == spec_keys(b, s),
        spec_sections(a) == spec_sections(b),
{
    lemma_prefix(a, b, a.len() as int);
    assert forall|s: Seq<char>, k: Seq<char>| #[trigger] lookup(a, s, k) == lookup(b, s, k) by {
        assert forall|j: int| 0 <= j < a.len() implies #[trigger] is_match(a, j, s, k)
            == is_match(b, j, s, k) by {
            assert(header_name(a[j]) == header_name(b[j]) && prop_kv(a[j]) == prop_kv(b[j]));
            assert(section_at(a, j) == section_at(b, j));
        }
        lemma_lookup_from_eq(a, b, s, k, 0);
    }
    assert forall|s: Seq<char>, k: Seq<char>| #[trigger] spec_get(a, s, k) == spec_get(b, s, k) by {
        lemma_get_by_value(a, s, k);
        lemma_get_by_value(b, s, k);
        assert(first_value_upto(a, s, k, a.len() as int) == first_value_upto(
            b,
            s,
            k,
            b.len() as int,
        ));
    }
}

/// Lines that are no properties add nothing to what a document says.
pub proof fn lemma_no_properties(ls: Seq<LineView>, lo: int, n: int)
    requires
        0 <= lo <= n <= ls.len(),
        forall|j: int| lo <= j < n ==> !(#[trigger] ls[j] is Property),
    ensures
        forall|s: Seq<char>, k: Seq<char>| #[trigger]
            first_value_upto(ls, s, k, n) == first_value_upto(ls, s, k, lo),
        forall|s: Seq<char>| #[trigger] keys_upto(ls, s, n) == keys_upto(ls, s, lo),
    decreases n - lo,
{
    if n > lo {
        lemma_no_properties(ls, lo, n - 1);
        assert(!(ls[n - 1] is Property));
        assert forall|s: Seq<char>, k: Seq<char>| #[trigger]
            first_value_upto(ls, s, k, n) == first_value_upto(ls, s, k, lo) by {
            assert(first_value_upto(ls, s, k, n - 1) == first_value_upto(ls, s, k, lo));
        }
        assert forall|s: Seq<char>| #[trigger] keys_upto(ls, s, n) == keys_upto(ls, s, lo) by {
            assert(keys_upto(ls, s, n - 1) == keys_upto(ls, s, lo));
        }
    }
}

/// Where section `s` is open nowhere, it has no properties.
pub proof fn lemma_section_absent(ls: Seq<LineView>, s: Seq<char>, n: int)
    requires
        0 <= n <= ls.len(),
        forall|j: int| 0 <= j < ls.len() ==> !is_header_named(#[trigger] ls[j], s),
    ensures
        forall|k: Seq<char>| #[trigger] first_value_upto(ls, s, k, n) is None,
        keys_upto(ls, s, n).len() == 0,
        forall|i: int| 0 <= i <= n ==> #[trigger] section_at(ls, i) != Some(s),
    decreases n,
{
    assert forall|i: int| 0 <= i <= n implies #[trigger] section_at(ls, i) != Some(s) by {
        if section_at(ls, i) == Some(s) {
            lemma_section_at_header(ls, s, i);
        }
    }
    if n > 0 {
        lemma_section_absent(ls, s, n - 1);
        assert(section_at(ls, n - 1) != Some(s));
        assert forall|k: Seq<char>| #[trigger] first_value_upto(ls, s, k, n) is None by {
            assert(first_value_upto(ls, s, k, n - 1) is None);
        }
    }
}

/// The distinct names among the first `n` lines are those of their headers,
/// each once.
pub proof fn lemma_sections_upto(ls: Seq<LineView>, n: int)
    requires
        0 <= n <= ls.len(),
    ensures
        sections_upto(ls, n).no_duplicates(),
        forall|name: Seq<char>| #[trigger]
            sections_upto(ls, n).contains(name) <==> exists|j: int|
                0 <= j < n && is_header_named(#[trigger] ls[j], name),
    decreases n,
{
    if n > 0 {
        lemma_sections_upto(ls, n - 1);
        let r = sections_upto(ls, n - 1);
        assert forall|name: Seq<char>| #[trigger]
            sections_upto(ls, n).contains(name) <==> exists|j: int|
                0 <= j < n && is_header_named(#[trigger] ls[j], name) by {
            if sections_upto(ls, n).contains(name) {
                if !r.contains(name) {
                    let t = choose|t: int|
                        0 <= t < sections_upto(ls, n).len() && sections_upto(ls, n)[t] == name;
                    assert(t == r.len());
                    assert(is_header_named(ls[n - 1], name));
                }
            }
            if exists|j: int| 0 <= j < n && is_header_named(#[trigger] ls[j], name) {
                let j = choose|j: int| 0 <= j < n && is_header_named(#[trigger] ls[j], name);
                if j < n - 1 {
                    assert(r.contains(name));
                    let t = choose|t: int| 0 <= t < r.len() && r[t] == name;
                    assert(sections_upto(ls, n)[t] == name);
                } else if !r.contains(name) {
                    assert(sections_upto(ls, n)[r.len() as int] == name);
                }
            }
        }
    }
}

/// The keys of the first `a` lines come first among those of the first `b`.
pub proof fn lemma_keys_prefix(ls: Seq<LineView>, t: Seq<char>, a: int, b: int)
    requires
        0 <= a <= b <= ls.len(),
    ensures
        keys_upto(ls, t, a).len() <= keys_upto(ls, t, b).len(),
        keys_upto(ls, t, b).take(keys_upto(ls, t, a).len() as int) == keys_upto(ls, t, a),
    decreases b - a,
{
    if b > a {
        lemma_keys_prefix(ls, t, a, b - 1);
        let ka = keys_upto(ls, t, a);
        let kb1 = keys_upto(ls, t, b - 1);
        let kb = keys_upto(ls, t, b);
        assert(kb.take(ka.len() as int) =~= kb1.take(ka.len() as int));
    } else {
        assert(keys_upto(ls, t, a).take(keys_upto(ls, t, a).len() as int) =~= keys_upto(ls, t, a));
    }
}

/// Lines that are no properties of section `t` add nothing to its keys.
pub proof fn lemma_keys_stable(ls: Seq<LineView>, t: Seq<char>, lo: int, n: int)
    requires
        0 <= lo <= n <= ls.len(),
        forall|q: int|
            lo <= q < n ==> !(#[trigger] ls[q] is Property && section_at(ls, q) == Some(t)),
    ensures
        keys_upto(ls, t, n) == keys_upto(ls, t, lo),
    decreases n - lo,
{
    if n > lo {
        lemma_keys_stable(ls, t, lo, n - 1);
        assert(!(ls[n - 1] is Property && section_at(ls, n - 1) == Some(t)));
    }
}

/// Where no line before `n` matches `(s, k)`, no key of `s` among them is `k`.
proof fn lemma_keys_no_key(ls: Seq<LineView>, s: Seq<char>, k: Seq<char>, n: int)
    requires
        0 <= n <= ls.len(),
        forall|j: int| 0 <= j < n ==> !is_match(ls, j, s, k),
    ensures
        forall|t: int| 0 <= t < keys_upto(ls, s, n).len() ==> #[trigger] keys_upto(ls, s, n)[t].0 != k,
    decreases n,
{
    if n > 0 {
        lemma_keys_no_key(ls, s, k, n - 1);
        assert(!is_match(ls, n - 1, s, k));
        let r = keys_upto(ls, s, n - 1);
        assert forall|t: int| 0 <= t < keys_upto(ls, s, n).len() implies #[trigger] keys_upto(
            ls,
            s,
            n,
        )[t].0 != k by {
            if t < r.len() {
                assert(keys_upto(ls, s, n)[t] == r[t]);
            }
        }
    }
}

/// The first property `k` of section `s` is the first pair with key `k` among
/// the keys of `s`.
pub proof fn lemma_keys_lookup(ls: Seq<LineView>, s: Seq<char>, k: Seq<char>)
    ensures
        match lookup(ls, s, k) {
            Some(m) => {
                let idx = keys_upto(ls, s, m).len() as int;
                &&& 0 <= m < ls.len()
                &&& idx < spec_keys(ls, s).len()
                &&& prop_kv(ls[m]) is Some
                &&& spec_keys(ls, s)[idx] == prop_kv(ls[m])->0
                &&& spec_keys(ls, s)[idx].0 == k
                &&& forall|t: int| 0 <= t < idx ==> #[trigger] spec_keys(ls, s)[t].0 != k
            },
            None => forall|t: int|
                0 <= t < spec_keys(ls, s).len() ==> #[trigger] spec_keys(ls, s)[t].0 != k,
        },
{
    lemma_first_match(ls, s, k);
    match lookup(ls, s, k) {
        Some(m) => {
            lemma_keys_no_key(ls, s, k, m);
            let km = keys_upto(ls, s, m);
            assert(keys_upto(ls, s, m + 1) == km.push(prop_kv(ls[m])->0));
            lemma_keys_prefix(ls, s, m + 1, ls.len() as int);
            let all = spec_keys(ls, s);
            assert(all.take(km.len() + 1 as int)[km.len() as int] == all[km.len() as int]);
            assert forall|t: int| 0 <= t < km.len() implies #[trigger] all[t].0 != k by {
                assert(all.take(km.len() + 1 as int)[t] == all[t]);
                assert(keys_upto(ls, s, m + 1)[t] == km[t]);
            }
        },
        None => {
            lemma_keys_no_key(ls, s, k, ls.len() as int);
        },
    }
}

/// Inserting a line that is no header adds its key and value, if it is a
/// property of section `t`, at its place among the keys of `t`.
pub proof fn lemma_keys_insert(ls: Seq<LineView>, p: int, x: LineView, t: Seq<char>, n: int)
    requires
        0 <= p <= n <= ls.len(),
        !(x is Section),
    ensures
        keys_upto(ls.insert(p, x), t, n + 1) == if x is Property && section_at(ls, p) == Some(t) {
            keys_upto(ls, t, n).insert(keys_upto(ls, t, p).len() as int, prop_kv(x)->0)
        } else {
            keys_upto(ls, t, n)
        },
    decreases n - p,
{
    let ins = ls.insert(p, x);
    assert forall|j: int| 0 <= j < p implies header_name(#[trigger] ins[j]) == header_name(ls[j])
        && prop_kv(ins[j]) == prop_kv(ls[j]) by {
        assert(ins[j] == ls[j]);
    }
    lemma_prefix(ins, ls, p);
    lemma_section_at_insert(ls, p, x, p);
    assert(ins[p] == x);
    if n == p {
        let k = keys_upto(ls, t, p);
        assert(keys_upto(ins, t, p) == k);
        assert(section_at(ins, p) == section_at(ls, p));
        if x is Property && section_at(ls, p) == Some(t) {
            assert(keys_upto(ins, t, p + 1) == k.push(prop_kv(x)->0));
            assert(k.insert(k.len() as int, prop_kv(x)->0) =~= k.push(prop_kv(x)->0));
        } else {
            assert(keys_upto(ins, t, p + 1) == k);
        }
    } else {
        lemma_keys_insert(ls, p, x, t, n - 1);
        lemma_section_at_insert(ls, p, x, n - 1);
        assert(ins[n] == ls[n - 1]);
        assert(section_at(ins, n) == section_at(ls, n - 1));
        lemma_keys_prefix(ls, t, p, n - 1);
        let k = keys_upto(ls, t, n - 1);
        let i = keys_upto(ls, t, p).len() as int;
        let added = ls[n - 1] is Property && section_at(ls, n - 1) == Some(t);
        if added {
            assert(keys_upto(ls, t, n) == k.push(prop_kv(ls[n - 1])->0));
        } else {
            assert(keys_upto(ls, t, n) == k);
        }
        if x is Property && section_at(ls, p) == Some(t) {
            let y = prop_kv(x)->0;
            assert(keys_upto(ins, t, n) == k.insert(i, y));
            if added {
                let z = prop_kv(ls[n - 1])->0;
                assert(keys_upto(ins, t, n + 1) == k.insert(i, y).push(z));
                assert(k.insert(i, y).push(z) =~= k.push(z).insert(i, y));
            } else {
                assert(keys_upto(ins, t, n + 1) == k.insert(i, y));
            }
        } else {
            assert(keys_upto(ins, t, n) == k);
            if added {
                assert(keys_upto(ins, t, n + 1) == k.push(prop_kv(ls[n - 1])->0));
            } else {
                assert(keys_upto(ins, t, n + 1) == k);
            }
        }
    }
}

/// Inserting a line that is no header leaves the sections as they were.
pub proof fn lemma_sections_insert(ls: Seq<LineView>, p: int, x: LineView, n: int)
    requires
        0 <= p <= n <= ls.len(),
        !(x is Section),
    ensures
        sections_upto(ls.insert(p, x), n + 1) == sections_upto(ls, n),
    decreases n - p,
{
    let ins = ls.insert(p, x);
    assert forall|j: int| 0 <= j < p implies header_name(#[trigger] ins[j]) == header_name(ls[j])
        && prop_kv(ins[j]) == prop_kv(ls[j]) by {
        assert(ins[j] == ls[j]);
    }
    lemma_prefix(ins, ls, p);
    assert(ins[p] == x);
    if n > p {
        lemma_sections_insert(ls, p, x, n - 1);
        assert(ins[n] == ls[n - 1]);
    }
}

} // verus!
