//! Facts about the model's spec functions that the operations and the laws
//! rest on.
use vstd::prelude::*;
use crate::model::{first_match_from, has_section, in_section, is_header_named, section_at, is_match, last_in_section, lookup, LineView};

verus! {

pub proof fn lemma_first_match_from(ls: Seq<LineView>, s: Seq<char>, k: Seq<char>, i: int)
    requires
        0 <= i,
    ensures
        first_match_from(ls, s, k, i) matches Some(m) ==> i <= m < ls.len() && is_match(ls, m, s, k)
            && forall|j: int| i <= j < m ==> !is_match(ls, j, s, k),
        first_match_from(ls, s, k, i) is None ==> forall|j: int|
            i <= j < ls.len() ==> !is_match(ls, j, s, k),
    decreases ls.len() - i,
{
    if i < ls.len() && !is_match(ls, i, s, k) {
        lemma_first_match_from(ls, s, k, i + 1);
    }
}

/// `lookup` gives the first line that matches, or tells that none does.
pub proof fn lemma_first_match(ls: Seq<LineView>, s: Seq<char>, k: Seq<char>)
    ensures
        lookup(ls, s, k) matches Some(m) ==> 0 <= m < ls.len() && is_match(ls, m, s, k) && forall|
            j: int,
        | 0 <= j < m ==> !is_match(ls, j, s, k),
        lookup(ls, s, k) is None ==> forall|j: int| 0 <= j < ls.len() ==> !is_match(ls, j, s, k),
{
    lemma_first_match_from(ls, s, k, 0);
}

/// `last_in_section` gives the last line among the first `n` that belongs to
/// the section, or tells that none does.
pub proof fn lemma_last_in_section(ls: Seq<LineView>, s: Seq<char>, n: int)
    ensures
        last_in_section(ls, s, n) matches Some(j) ==> 0 <= j < n && in_section(ls, j, s) && forall|
            m: int,
        | j < m < n ==> !in_section(ls, m, s),
        last_in_section(ls, s, n) is None ==> forall|m: int| 0 <= m < n ==> !in_section(ls, m, s),
    decreases n,
{
    if n > 0 && !in_section(ls, n - 1, s) {
        lemma_last_in_section(ls, s, n - 1);
    }
}

/// A header named `s` before position `i` is what opens section `s` there.
pub proof fn lemma_section_at_header(ls: Seq<LineView>, s: Seq<char>, i: int)
    requires
        0 <= i <= ls.len(),
        section_at(ls, i) == Some(s),
    ensures
        exists|h: int| 0 <= h < i && is_header_named(#[trigger] ls[h], s),
    decreases i,
{
    if !(ls[i - 1] is Section) {
        lemma_section_at_header(ls, s, i - 1);
    }
}

/// A section exists exactly when some line belongs to it.
pub proof fn lemma_has_section(ls: Seq<LineView>, s: Seq<char>)
    ensures
        has_section(ls, s) <==> exists|j: int| 0 <= j < ls.len() && #[trigger] in_section(ls, j, s),
{
    if has_section(ls, s) {
        let h = choose|h: int| 0 <= h < ls.len() && is_header_named(#[trigger] ls[h], s);
        assert(in_section(ls, h, s));
    }
    if exists|j: int| 0 <= j < ls.len() && #[trigger] in_section(ls, j, s) {
        let j = choose|j: int| 0 <= j < ls.len() && #[trigger] in_section(ls, j, s);
        lemma_section_at_header(ls, s, j + 1);
    }
}

/// The name a line gives the section below it, if it is a header.
pub open spec fn header_name(l: LineView) -> Option<Seq<char>> {
    match l {
        LineView::Section { name, .. } => Some(name),
        _ => None,
    }
}

/// Two documents with the same headers in their first `n` lines have the same
/// section open at each of the first `n + 1` positions.
pub proof fn lemma_section_at_same(a: Seq<LineView>, b: Seq<LineView>, n: int)
    requires
        0 <= n <= a.len(),
        n <= b.len(),
        forall|j: int| 0 <= j < n ==> header_name(#[trigger] a[j]) == header_name(b[j]),
    ensures
        forall|i: int| 0 <= i <= n ==> #[trigger] section_at(a, i) == section_at(b, i),
    decreases n,
{
    if n > 0 {
        lemma_section_at_same(a, b, n - 1);
        assert(header_name(a[n - 1]) == header_name(b[n - 1]));
        assert forall|i: int| 0 <= i <= n implies #[trigger] section_at(a, i) == section_at(b, i) by {
            if i == n {
                assert(section_at(a, n - 1) == section_at(b, n - 1));
            }
        }
    }
}

/// Appending lines leaves the sections of the earlier positions unchanged.
pub proof fn lemma_section_at_append(ls: Seq<LineView>, t: Seq<LineView>)
    ensures
        forall|i: int| 0 <= i <= ls.len() ==> #[trigger] section_at(ls + t, i) == section_at(ls, i),
{
    lemma_section_at_same(ls + t, ls, ls.len() as int);
}

/// Inserting a line that is not a header shifts the sections after it.
pub proof fn lemma_section_at_insert(ls: Seq<LineView>, p: int, x: LineView, i: int)
    requires
        0 <= p <= ls.len(),
        !(x is Section),
        0 <= i <= ls.len(),
    ensures
        i <= p ==> section_at(ls.insert(p, x), i) == section_at(ls, i),
        i >= p ==> section_at(ls.insert(p, x), i + 1) == section_at(ls, i),
    decreases i,
{
    let ins = ls.insert(p, x);
    if i <= p {
        lemma_section_at_same(ins, ls, p);
    }
    if i == p {
        assert(ins[p] == x);
    } else if i > p {
        lemma_section_at_insert(ls, p, x, i - 1);
        assert(ins[i] == ls[i - 1]);
    }
}

/// A match with no match before it is what `lookup` finds.
pub proof fn lemma_lookup_is(ls: Seq<LineView>, s: Seq<char>, k: Seq<char>, m: int)
    requires
        is_match(ls, m, s, k),
        forall|j: int| 0 <= j < m ==> !is_match(ls, j, s, k),
    ensures
        lookup(ls, s, k) == Some(m),
{
    lemma_first_match(ls, s, k);
}

/// Where nothing matches, `lookup` finds nothing.
pub proof fn lemma_lookup_none(ls: Seq<LineView>, s: Seq<char>, k: Seq<char>)
    requires
        forall|j: int| 0 <= j < ls.len() ==> !is_match(ls, j, s, k),
    ensures
        lookup(ls, s, k) is None,
{
    lemma_first_match(ls, s, k);
}

/// A line that matches two (section, key) pairs matches one pair only.
pub proof fn lemma_match_unique(
    ls: Seq<LineView>,
    j: int,
    s: Seq<char>,
    k: Seq<char>,
    s2: Seq<char>,
    k2: Seq<char>,
)
    requires
        is_match(ls, j, s, k),
        is_match(ls, j, s2, k2),
    ensures
        s == s2 && k == k2,
{
}

} // verus!
