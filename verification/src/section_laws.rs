//! The laws about whole sections: the list of sections, `add_section` and
//! `remove_section`.
use vstd::prelude::*;
use crate::lemmas::header_name;
use crate::model::{
    close, drop_section_upto, eol, has_section, in_section, is_header_named, is_match, keys_upto,
    new_header, section_at, separator, spec_add_section, spec_get, spec_keys, spec_remove_section,
    spec_sections, LineView,
};
use crate::shape::{
    first_value_upto, lemma_get_by_value, lemma_no_properties, lemma_prefix, lemma_section_absent,
    lemma_sections_upto, prop_kv,
};

verus! {

/// What `remove_section` keeps of the first `n` lines: no header of `s`, and
/// everything the other sections say.
proof fn lemma_drop_section(ls: Seq<LineView>, s: Seq<char>, n: int)
    requires
        0 <= n <= ls.len(),
    ensures
        ({
            let d = drop_section_upto(ls, s, n);
            &&& forall|j: int| 0 <= j < d.len() ==> !is_header_named(#[trigger] d[j], s)
            &&& section_at(ls, n) != Some(s) ==> section_at(d, d.len() as int) == section_at(ls, n)
            &&& forall|s2: Seq<char>, k: Seq<char>|
                s2 != s ==> #[trigger] first_value_upto(d, s2, k, d.len() as int)
                    == first_value_upto(ls, s2, k, n)
            &&& forall|s2: Seq<char>|
                s2 != s ==> #[trigger] keys_upto(d, s2, d.len() as int) == keys_upto(ls, s2, n)
        }),
    decreases n,
{
    if n > 0 {
        lemma_drop_section(ls, s, n - 1);
        let d0 = drop_section_upto(ls, s, n - 1);
        let d = drop_section_upto(ls, s, n);
        let l = ls[n - 1];
        let m = d0.len() as int;
        if !(l is Section) {
            assert(section_at(ls, n) == section_at(ls, n - 1));
        }
        if in_section(ls, n - 1, s) {
            assert(d == d0);
            assert forall|s2: Seq<char>, k: Seq<char>|
                s2 != s implies #[trigger] first_value_upto(d, s2, k, d.len() as int)
                    == first_value_upto(ls, s2, k, n) by {
                assert(!is_match(ls, n - 1, s2, k));
            }
        } else {
            assert(d == d0.push(l));
            assert forall|j: int| 0 <= j < m implies header_name(#[trigger] d[j]) == header_name(
                d0[j],
            ) && prop_kv(d[j]) == prop_kv(d0[j]) by {
                assert(d[j] == d0[j]);
            }
            lemma_prefix(d, d0, m);
            assert(d[m] == l);
            assert forall|j: int| 0 <= j < d.len() implies !is_header_named(#[trigger] d[j], s) by {
                if j < m {
                    assert(d[j] == d0[j]);
                }
            }
            if l is Property {
                assert(section_at(d, m) == section_at(ls, n - 1));
            }
            assert forall|s2: Seq<char>, k: Seq<char>|
                s2 != s implies #[trigger] first_value_upto(d, s2, k, d.len() as int)
                    == first_value_upto(ls, s2, k, n) by {
                assert(first_value_upto(d, s2, k, m) == first_value_upto(d0, s2, k, m));
                assert(is_match(d, m, s2, k) == is_match(ls, n - 1, s2, k));
            }
            assert forall|s2: Seq<char>|
                s2 != s implies #[trigger] keys_upto(d, s2, d.len() as int) == keys_upto(
                ls,
                s2,
                n,
            ) by {
                assert(keys_upto(d, s2, m) == keys_upto(d0, s2, m));
            }
        }
    }
}

/// The positions, in order, of the first `n` lines that do not belong to
/// section `s`.
pub open spec fn outside_upto(ls: Seq<LineView>, s: Seq<char>, n: int) -> Seq<int>
    decreases n,
{
    if n <= 0 {
        seq![]
    } else {
        let r = outside_upto(ls, s, n - 1);
        if in_section(ls, n - 1, s) {
            r
        } else {
            r.push(n - 1)
        }
    }
}

proof fn lemma_outside_upto(ls: Seq<LineView>, s: Seq<char>, n: int)
    requires
        0 <= n <= ls.len(),
    ensures
        ({
            let d = drop_section_upto(ls, s, n);
            let idx = outside_upto(ls, s, n);
            &&& idx.len() == d.len()
            &&& forall|t: int|
                0 <= t < idx.len() ==> 0 <= #[trigger] idx[t] < n && !in_section(ls, idx[t], s)
                    && d[t] == ls[idx[t]]
            &&& forall|t1: int, t2: int| 0 <= t1 < t2 < idx.len() ==> idx[t1] < idx[t2]
            &&& forall|j: int| 0 <= j < n && !in_section(ls, j, s) ==> idx.contains(j)
        }),
    decreases n,
{
    if n > 0 {
        lemma_outside_upto(ls, s, n - 1);
        let d0 = drop_section_upto(ls, s, n - 1);
        let k0 = outside_upto(ls, s, n - 1);
        let k = outside_upto(ls, s, n);
        if !in_section(ls, n - 1, s) {
            let m = k0.len() as int;
            assert(k[m] == n - 1);
            assert forall|j: int| 0 <= j < n && !in_section(ls, j, s) implies k.contains(j) by {
                if j == n - 1 {
                    assert(k[m] == j);
                } else {
                    assert(k0.contains(j));
                    let t = choose|t: int| 0 <= t < k0.len() && k0[t] == j;
                    assert(k[t] == j);
                }
            }
        }
    }
}

/// `remove_section(s)` keeps, in their order and unchanged, exactly the lines
/// that do not belong to section `s`: the lines it gives are those at the
/// positions `idx`, which rise strictly, each hold a line outside the section,
/// and take in every line outside it. Comments and blank lines of other
/// sections, and those above the first header, all stay.
pub proof fn law_remove_section_keeps(ls: Seq<LineView>, s: Seq<char>) -> (idx: Seq<int>)
    ensures
        idx.len() == spec_remove_section(ls, s).len(),
        forall|t: int|
            0 <= t < idx.len() ==> 0 <= #[trigger] idx[t] < ls.len() && !in_section(ls, idx[t], s)
                && spec_remove_section(ls, s)[t] == ls[idx[t]],
        forall|t1: int, t2: int| 0 <= t1 < t2 < idx.len() ==> idx[t1] < idx[t2],
        forall|j: int| 0 <= j < ls.len() && !in_section(ls, j, s) ==> idx.contains(j),
{
    lemma_outside_upto(ls, s, ls.len() as int);
    outside_upto(ls, s, ls.len() as int)
}

/// A line belongs to section `s` exactly when a header named `s` stands at or
/// above it with no other header between them: a section runs from its header
/// to just before the next one.
pub proof fn law_in_section_run(ls: Seq<LineView>, j: int, s: Seq<char>)
    requires
        0 <= j < ls.len(),
    ensures
        in_section(ls, j, s) <==> exists|h: int|
            0 <= h <= j && is_header_named(#[trigger] ls[h], s) && forall|m: int|
                h < m <= j ==> !(#[trigger] ls[m] is Section),
    decreases j,
{
    if ls[j] is Section {
        if in_section(ls, j, s) {
            assert(is_header_named(ls[j], s));
        }
        if exists|h: int|
            0 <= h <= j && is_header_named(#[trigger] ls[h], s) && forall|m: int|
                h < m <= j ==> !(#[trigger] ls[m] is Section) {
            let h = choose|h: int|
                0 <= h <= j && is_header_named(#[trigger] ls[h], s) && forall|m: int|
                    h < m <= j ==> !(#[trigger] ls[m] is Section);
            assert(h == j) by {
                if h < j {
                    assert(!(ls[j] is Section));
                }
            }
        }
    } else {
        assert(section_at(ls, j + 1) == section_at(ls, j));
        if j > 0 {
            law_in_section_run(ls, j - 1, s);
            if in_section(ls, j, s) {
                let h = choose|h: int|
                    0 <= h <= j - 1 && is_header_named(#[trigger] ls[h], s) && forall|m: int|
                        h < m <= j - 1 ==> !(#[trigger] ls[m] is Section);
                assert(forall|m: int| h < m <= j ==> !(#[trigger] ls[m] is Section));
            }
            if exists|h: int|
                0 <= h <= j && is_header_named(#[trigger] ls[h], s) && forall|m: int|
                    h < m <= j ==> !(#[trigger] ls[m] is Section) {
                let h = choose|h: int|
                    0 <= h <= j && is_header_named(#[trigger] ls[h], s) && forall|m: int|
                        h < m <= j ==> !(#[trigger] ls[m] is Section);
                assert(h < j);
                assert(forall|m: int| h < m <= j - 1 ==> !(#[trigger] ls[m] is Section));
            }
        } else {
            assert(section_at(ls, 0) is None);
            if exists|h: int|
                0 <= h <= j && is_header_named(#[trigger] ls[h], s) && forall|m: int|
                    h < m <= j ==> !(#[trigger] ls[m] is Section) {
                let h = choose|h: int|
                    0 <= h <= j && is_header_named(#[trigger] ls[h], s) && forall|m: int|
                        h < m <= j ==> !(#[trigger] ls[m] is Section);
                assert(h == 0);
            }
        }
    }
}

/// `sections()` names every section of the document, each once.
pub proof fn law_sections(ls: Seq<LineView>, name: Seq<char>)
    ensures
        spec_sections(ls).no_duplicates(),
        spec_sections(ls).contains(name) <==> has_section(ls, name),
{
    lemma_sections_upto(ls, ls.len() as int);
}

/// After `add_section(s)` the section exists, and every other question about
/// the document gets the same answer as before.
pub proof fn law_add_section(ls: Seq<LineView>, s: Seq<char>, s2: Seq<char>, k: Seq<char>)
    ensures
        has_section(spec_add_section(ls, s), s),
        spec_get(spec_add_section(ls, s), s2, k) == spec_get(ls, s2, k),
        spec_keys(spec_add_section(ls, s), s2) == spec_keys(ls, s2),
{
    let ls1 = spec_add_section(ls, s);
    if !has_section(ls, s) {
        let c = close(ls);
        let t = separator(ls, eol(ls)) + seq![new_header(s, eol(ls))];
        assert(ls1 =~= c + t);
        assert(is_header_named(ls1[ls1.len() - 1], s));
        assert forall|j: int| 0 <= j < ls.len() implies header_name(#[trigger] ls1[j])
            == header_name(ls[j]) && prop_kv(ls1[j]) == prop_kv(ls[j]) by {
            assert(ls1[j] == c[j]);
        }
        lemma_prefix(ls1, ls, ls.len() as int);
        assert forall|j: int| ls.len() <= j < ls1.len() implies !(#[trigger] ls1[j] is Property) by {}
        lemma_no_properties(ls1, ls.len() as int, ls1.len() as int);
        lemma_get_by_value(ls1, s2, k);
        lemma_get_by_value(ls, s2, k);
        assert(first_value_upto(ls1, s2, k, ls1.len() as int) == first_value_upto(
            ls,
            s2,
            k,
            ls.len() as int,
        ));
        assert(keys_upto(ls1, s2, ls1.len() as int) == keys_upto(ls, s2, ls.len() as int));
    }
}

/// After `remove_section(s)` the section is gone with all its keys, and every
/// other section gives the same answers as before.
pub proof fn law_remove_section(ls: Seq<LineView>, s: Seq<char>, s2: Seq<char>, k: Seq<char>)
    ensures
        !has_section(spec_remove_section(ls, s), s),
        spec_get(spec_remove_section(ls, s), s, k) is None,
        spec_keys(spec_remove_section(ls, s), s).len() == 0,
        s2 != s ==> spec_get(spec_remove_section(ls, s), s2, k) == spec_get(ls, s2, k),
        s2 != s ==> spec_keys(spec_remove_section(ls, s), s2) == spec_keys(ls, s2),
{
    let d = spec_remove_section(ls, s);
    lemma_drop_section(ls, s, ls.len() as int);
    lemma_section_absent(d, s, d.len() as int);
    lemma_get_by_value(d, s, k);
    if s2 != s {
        lemma_get_by_value(d, s2, k);
        lemma_get_by_value(ls, s2, k);
        assert(first_value_upto(d, s2, k, d.len() as int) == first_value_upto(
            ls,
            s2,
            k,
            ls.len() as int,
        ));
        assert(keys_upto(d, s2, d.len() as int) == keys_upto(ls, s2, ls.len() as int));
    }
}

} // verus!
