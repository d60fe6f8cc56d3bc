//! Character-level building blocks: whitespace, trimming, searching and
//! splitting text into lines, each given as a spec function over `Seq<char>`
//! together with an executable counterpart proved against it.
use vstd::prelude::*;
use vstd::std_specs::iter::IteratorSpec;

verus! {

broadcast use vstd::string::group_string_axioms;

/// The characters that `char::is_whitespace` accepts: the Unicode
/// `White_Space` property.
pub open spec fn is_ws(c: char) -> bool {
    ||| c == ' '
    ||| ('\u{9}' <= c && c <= '\u{d}')
    ||| c == '\u{85}'
    ||| c == '\u{a0}'
    ||| c == '\u{1680}'
    ||| ('\u{2000}' <= c && c <= '\u{200a}')
    ||| c == '\u{2028}'
    ||| c == '\u{2029}'
    ||| c == '\u{202f}'
    ||| c == '\u{205f}'
    ||| c == '\u{3000}'
}

/// First index at or after `i` that does not hold whitespace (or the length).
pub open spec fn start_from(s: Seq<char>, i: int) -> int
    decreases s.len() - i,
{
    if 0 <= i < s.len() && is_ws(s[i]) {
        start_from(s, i + 1)
    } else {
        i
    }
}

/// One past the last index in `lo..j` that does not hold whitespace (or `lo`).
pub open spec fn end_from(s: Seq<char>, lo: int, j: int) -> int
    decreases j - lo,
{
    if lo < j && is_ws(s[j - 1]) {
        end_from(s, lo, j - 1)
    } else {
        j
    }
}

/// `s` with leading and trailing whitespace removed, as `str::trim` does.
pub open spec fn trim(s: Seq<char>) -> Seq<char> {
    let lo = start_from(s, 0);
    s.subrange(lo, end_from(s, lo, s.len() as int))
}

/// Index of the first occurrence of `c` in `s` at or after `i`.
pub open spec fn find_from(s: Seq<char>, c: char, i: int) -> Option<int>
    decreases s.len() - i,
{
    if i < 0 || i >= s.len() {
        None
    } else if s[i] == c {
        Some(i)
    } else {
        find_from(s, c, i + 1)
    }
}

/// Index of the first occurrence of `c` in `s`, as `str::find` with a `char`
/// pattern (counted in characters).
pub open spec fn find(s: Seq<char>, c: char) -> Option<int> {
    find_from(s, c, 0)
}

/// `s` without one trailing carriage return.
pub open spec fn strip_cr(s: Seq<char>) -> Seq<char> {
    if s.len() > 0 && s.last() == '\r' {
        s.drop_last()
    } else {
        s
    }
}

/// The line break that ends the piece `c` of text before a line feed: `\r\n`
/// where `c` ends with a carriage return, else `\n`.
pub open spec fn line_break(c: Seq<char>) -> Seq<char> {
    if c.len() > 0 && c.last() == '\r' {
        seq!['\r', '\n']
    } else {
        seq!['\n']
    }
}

/// The lines of `s[start..]`, each with the line break that ends it, where
/// `s[start..i]` is known to hold no line feed: each line ends at a `'\n'`,
/// which is its break together with a `'\r'` just before it; a final piece
/// without `'\n'` is a line of its own with an empty break.
pub open spec fn split_from(s: Seq<char>, start: int, i: int) -> Seq<(Seq<char>, Seq<char>)>
    decreases s.len() - i,
{
    if i < start || i >= s.len() {
        if 0 <= start < s.len() {
            seq![(s.subrange(start, s.len() as int), Seq::<char>::empty())]
        } else {
            seq![]
        }
    } else if s[i] == '\n' {
        seq![(strip_cr(s.subrange(start, i)), line_break(s.subrange(start, i)))] + split_from(
            s,
            i + 1,
            i + 1,
        )
    } else {
        split_from(s, start, i + 1)
    }
}

/// The lines of `s`, each with the line break that ends it.
pub open spec fn split_lines(s: Seq<char>) -> Seq<(Seq<char>, Seq<char>)> {
    split_from(s, 0, 0)
}

/// The lines of `s`, as `str::lines` yields them.
pub open spec fn lines(s: Seq<char>) -> Seq<Seq<char>> {
    split_lines(s).map_values(|p: (Seq<char>, Seq<char>)| p.0)
}

/// A line and its break make up the text they were split from.
pub proof fn lemma_line_break(c: Seq<char>)
    ensures
        strip_cr(c) + line_break(c) == c + seq!['\n'],
{
    if c.len() > 0 && c.last() == '\r' {
        assert(c.drop_last() + seq!['\r', '\n'] =~= c + seq!['\n']);
    } else {
        assert(c + seq!['\n'] =~= c + seq!['\n']);
    }
}

pub proof fn lemma_start_from(s: Seq<char>, i: int)
    requires
        0 <= i <= s.len(),
    ensures
        i <= start_from(s, i) <= s.len(),
        forall|j: int| i <= j < start_from(s, i) ==> is_ws(s[j]),
        start_from(s, i) < s.len() ==> !is_ws(s[start_from(s, i)]),
    decreases s.len() - i,
{
    if i < s.len() && is_ws(s[i]) {
        lemma_start_from(s, i + 1);
    }
}

pub proof fn lemma_end_from(s: Seq<char>, lo: int, j: int)
    requires
        0 <= lo <= j <= s.len(),
    ensures
        lo <= end_from(s, lo, j) <= j,
        forall|k: int| end_from(s, lo, j) <= k < j ==> is_ws(s[k]),
        end_from(s, lo, j) > lo ==> !is_ws(s[end_from(s, lo, j) - 1]),
    decreases j - lo,
{
    if lo < j && is_ws(s[j - 1]) {
        lemma_end_from(s, lo, j - 1);
    }
}

pub proof fn lemma_find_from(s: Seq<char>, c: char, i: int)
    requires
        0 <= i,
    ensures
        find_from(s, c, i) matches Some(k) ==> i <= k < s.len() && s[k] == c && forall|j: int|
            i <= j < k ==> s[j] != c,
        find_from(s, c, i) is None ==> forall|j: int| i <= j < s.len() ==> s[j] != c,
    decreases s.len() - i,
{
    if i < s.len() && s[i] != c {
        lemma_find_from(s, c, i + 1);
    }
}

/// What `find` returns, in terms of the characters of `s`.
pub proof fn lemma_find(s: Seq<char>, c: char)
    ensures
        find(s, c) matches Some(k) ==> 0 <= k < s.len() && s[k] == c && forall|j: int|
            0 <= j < k ==> s[j] != c,
        find(s, c) is None ==> forall|j: int| 0 <= j < s.len() ==> s[j] != c,
{
    lemma_find_from(s, c, 0);
}

/// Whether `c` is whitespace in the sense of `char::is_whitespace`.
pub fn is_whitespace(c: char) -> (r: bool)
    ensures
        r == is_ws(c),
{
    c == ' ' || ('\u{9}' <= c && c <= '\u{d}') || c == '\u{85}' || c == '\u{a0}' || c
        == '\u{1680}' || ('\u{2000}' <= c && c <= '\u{200a}') || c == '\u{2028}' || c
        == '\u{2029}' || c == '\u{202f}' || c == '\u{205f}' || c == '\u{3000}'
}

/// The characters of `s`, in order.
pub fn chars_of(s: &str) -> (v: Vec<char>)
    ensures
        v@ == s@,
{
    let mut v: Vec<char> = Vec::new();
    let mut it = s.chars();
    loop
        invariant
            v@ + it.remaining() == s@,
        ensures
            v@ == s@,
        decreases s@.len() - v@.len(),
    {
        let ghost before = it.remaining();
        match it.next() {
            Some(c) => {
                v.push(c);
                assert(v@ + it.remaining() =~= s@) by {
                    assert(before == seq![c] + it.remaining());
                }
            },
            None => {
                assert(v@ =~= s@);
                break ;
            },
        }
    }
    v
}

/// Appends one character to a `String` (`String::push`).
#[verifier::external_body]
pub(crate) fn push_char(s: &mut String, c: char)
    ensures
        final(s)@ == old(s)@.push(c),
{
    s.push(c);
}

/// The text made of the characters `v[lo..hi]`.
pub fn string_of(v: &Vec<char>, lo: usize, hi: usize) -> (r: String)
    requires
        lo <= hi <= v@.len(),
    ensures
        r@ == v@.subrange(lo as int, hi as int),
{
    let mut r = String::new();
    let mut i = lo;
    while i < hi
        invariant
            lo <= i <= hi <= v@.len(),
            r@ == v@.subrange(lo as int, i as int),
        decreases hi - i,
    {
        push_char(&mut r, v[i]);
        assert(r@ =~= v@.subrange(lo as int, i + 1));
        i = i + 1;
    }
    r
}

/// The characters `v[lo..hi]` as a vector of their own.
pub fn sub_chars(v: &Vec<char>, lo: usize, hi: usize) -> (r: Vec<char>)
    requires
        lo <= hi <= v@.len(),
    ensures
        r@ == v@.subrange(lo as int, hi as int),
{
    let mut r: Vec<char> = Vec::new();
    let mut i = lo;
    while i < hi
        invariant
            lo <= i <= hi <= v@.len(),
            r@ == v@.subrange(lo as int, i as int),
        decreases hi - i,
    {
        r.push(v[i]);
        assert(r@ =~= v@.subrange(lo as int, i + 1));
        i = i + 1;
    }
    r
}

/// The bounds of the text in `v[lo..]` without its surrounding whitespace:
/// `start_from(v@, lo)` and `end_from` from there.
pub fn trim_bounds_from(v: &Vec<char>, lo: usize) -> (r: (usize, usize))
    requires
        lo <= v@.len(),
    ensures
        r.0 == start_from(v@, lo as int),
        r.1 == end_from(v@, r.0 as int, v@.len() as int),
        lo <= r.0 <= r.1 <= v@.len(),
{
    let ghost s = v@;
    proof {
        lemma_start_from(s, lo as int);
    }
    let mut i: usize = lo;
    while i < v.len() && is_whitespace(v[i])
        invariant
            lo <= i <= s.len(),
            s == v@,
            start_from(s, lo as int) == start_from(s, i as int),
        decreases s.len() - i,
    {
        i = i + 1;
    }
    let mut j: usize = v.len();
    while j > i && is_whitespace(v[j - 1])
        invariant
            i <= j <= s.len(),
            s == v@,
            start_from(s, lo as int) == i,
            end_from(s, i as int, s.len() as int) == end_from(s, i as int, j as int),
        decreases j - i,
    {
        j = j - 1;
    }
    proof {
        lemma_end_from(s, i as int, s.len() as int);
    }
    (i, j)
}

/// The bounds of `trim(v@)` inside `v@`.
pub fn trim_bounds(v: &Vec<char>) -> (r: (usize, usize))
    ensures
        r.0 <= r.1 <= v@.len(),
        v@.subrange(r.0 as int, r.1 as int) == trim(v@),
{
    trim_bounds_from(v, 0)
}

/// `trim(v@)` as a vector of its own.
pub fn trim_chars(v: &Vec<char>) -> (r: Vec<char>)
    ensures
        r@ == trim(v@),
{
    let (lo, hi) = trim_bounds(v);
    sub_chars(v, lo, hi)
}

/// The index of the first `c` in `v`, as `find` gives it.
pub fn find_char(v: &Vec<char>, c: char) -> (r: Option<usize>)
    ensures
        match r {
            Some(k) => find(v@, c) == Some(k as int),
            None => find(v@, c) is None,
        },
{
    let mut i: usize = 0;
    while i < v.len()
        invariant
            0 <= i <= v@.len(),
            find(v@, c) == find_from(v@, c, i as int),
        decreases v@.len() - i,
    {
        if v[i] == c {
            return Some(i);
        }
        i = i + 1;
    }
    None
}

} // verus!
