//! The format-preserving INI document and its operations.
use vstd::prelude::*;
use vstd::string::StringExecFns;
use crate::model::{
    classify, classify_all, close, eol, eol_after, fix_end, line_end, drop_section_upto, first_match_from, has_bad_header, has_section,
    header_error, in_section, is_bad_header, is_header_named, keys_upto, last_in_section, lookup,
    new_header, new_property, parsed, render, render_property, section_at, sections_upto,
    separator, spec_add_section, spec_get, spec_keys, spec_remove, spec_remove_section,
    spec_sections, spec_set, with_value, LineView,
};
use crate::lemmas::{lemma_first_match, lemma_has_section, lemma_last_in_section};
use crate::text::{
    chars_of, find_char, lemma_find, line_break, lines, push_char, split_from, split_lines, string_of,
    strip_cr, sub_chars, trim_bounds_from, trim_chars,
};

verus! {

broadcast use vstd::string::group_string_axioms;

/// A single line of an INI file, with the line break that follows it.
#[derive(Clone, Debug)]
enum Line {
    /// A blank line (kept as read)
    Blank {
        /// Raw line
        raw: String,
        /// Line break after it: "\n", "\r\n", or empty for a last line without one
        end: String,
    },
    /// A comment line starting with ; or #, or a line of no other kind (kept as read)
    Comment {
        /// Raw line
        raw: String,
        /// Line break after it
        end: String,
    },
    /// A section header like [SectionName]
    Section {
        /// Raw line (e.g. "[Player]")
        raw: String,
        /// Section name (e.g. "Player")
        name: String,
        /// Line break after it
        end: String,
    },
    /// A key=value property
    Property {
        /// Raw line as read (e.g. "Width = 1920"); empty for a property that was added
        raw: String,
        /// Key (e.g. "Width")
        key: String,
        /// Current value (may differ from raw once modified)
        value: String,
        /// Whether the value has been set since parsing
        modified: bool,
        /// Line break after it
        end: String,
    },
}

impl View for Line {
    type V = LineView;

    closed spec fn view(&self) -> LineView {
        match self {
            Line::Blank { raw, end } => LineView::Blank { raw: raw@, end: end@ },
            Line::Comment { raw, end } => LineView::Comment { raw: raw@, end: end@ },
            Line::Section { raw, name, end } => LineView::Section {
                raw: raw@,
                name: name@,
                end: end@,
            },
            Line::Property { raw, key, value, modified, end } => LineView::Property {
                raw: raw@,
                key: key@,
                value: value@,
                modified: *modified,
                end: end@,
            },
        }
    }
}

/// The line break that follows a line.
fn end_of(l: &Line) -> (r: &String)
    ensures
        r@ == line_end(l@),
{
    match l {
        Line::Blank { end, .. } => end,
        Line::Comment { end, .. } => end,
        Line::Section { end, .. } => end,
        Line::Property { end, .. } => end,
    }
}

/// A line that gets the line break `\n` where it has none.
fn fix_line_end(l: Line) -> (r: Line)
    ensures
        r@ == fix_end(l@),
{
    let missing = end_of(&l).as_str().is_empty();
    if !missing {
        return l;
    }
    let mut e = String::new();
    push_char(&mut e, '\n');
    assert(e@ =~= seq!['\n']);
    match l {
        Line::Blank { raw, .. } => Line::Blank { raw, end: e },
        Line::Comment { raw, .. } => Line::Comment { raw, end: e },
        Line::Section { raw, name, .. } => Line::Section { raw, name, end: e },
        Line::Property { raw, key, value, modified, .. } => Line::Property {
            raw,
            key,
            value,
            modified,
            end: e,
        },
    }
}

/// A format-preserving INI document.
///
/// Stores every line of the text it was read from. When written back, unmodified lines
/// come out exactly as they were read; modified properties are written with the
/// key and spacing style of their line.
#[derive(Clone, Debug)]
pub struct Ini {
    lines: Vec<Line>,
}

impl View for Ini {
    type V = Seq<LineView>;

    closed spec fn view(&self) -> Seq<LineView> {
        line_views(self.lines@)
    }
}

/// The views of a sequence of lines.
spec fn line_views(v: Seq<Line>) -> Seq<LineView> {
    v.map_values(|l: Line| l@)
}

/// The text of `v`.
fn chars_to_string(v: &Vec<char>) -> (r: String)
    ensures
        r@ == v@,
{
    let r = string_of(v, 0, v.len());
    assert(v@.subrange(0, v@.len() as int) =~= v@);
    r
}

/// Reads one line of input (without its line break), followed by the break `end`.
fn read_line(line: &Vec<char>, end: String) -> (r: Result<Line, String>)
    ensures
        match r {
            Ok(l) => !is_bad_header(line@) && l@ == classify(line@, end@),
            Err(e) => is_bad_header(line@) && e@ == header_error(line@),
        },
{
    let raw = chars_to_string(line);
    let t = trim_chars(line);
    if t.len() == 0 {
        Ok(Line::Blank { raw, end })
    } else if t[0] == ';' || t[0] == '#' {
        Ok(Line::Comment { raw, end })
    } else if t[0] == '[' {
        match find_char(&t, ']') {
            Some(e) => {
                proof {
                    lemma_find(t@, ']');
                }
                let inner = sub_chars(&t, 1, e);
                let name = trim_chars(&inner);
                Ok(Line::Section { raw, name: chars_to_string(&name), end })
            },
            None => {
                let mut msg = String::from_str("Invalid section header: ");
                msg.append(raw.as_str());
                Err(msg)
            },
        }
    } else {
        match find_char(line, '=') {
            Some(p) => {
                proof {
                    lemma_find(line@, '=');
                }
                assert(p < line.len());
                let key = trim_chars(&sub_chars(line, 0, p));
                let value = trim_chars(&sub_chars(line, p + 1, line.len()));
                Ok(
                    Line::Property {
                        raw,
                        key: chars_to_string(&key),
                        value: chars_to_string(&value),
                        modified: false,
                        end,
                    },
                )
            },
            None => Ok(Line::Comment { raw, end }),
        }
    }
}

/// Appends `v[lo..hi]` to `out`.
fn append_chars(out: &mut String, v: &Vec<char>, lo: usize, hi: usize)
    requires
        lo <= hi <= v@.len(),
    ensures
        final(out)@ == old(out)@ + v@.subrange(lo as int, hi as int),
{
    let mut i = lo;
    while i < hi
        invariant
            lo <= i <= hi <= v@.len(),
            out@ == old(out)@ + v@.subrange(lo as int, i as int),
        decreases hi - i,
    {
        push_char(out, v[i]);
        assert(out@ =~= old(out)@ + v@.subrange(lo as int, i + 1));
        i = i + 1;
    }
}

/// Appends to `out` how a property that has been set is written.
fn write_property(out: &mut String, raw: &String, key: &String, value: &String)
    ensures
        final(out)@ == old(out)@ + render_property(raw@, key@, value@),
{
    let rc = chars_of(raw.as_str());
    match find_char(&rc, '=') {
        Some(p) => {
            proof {
                lemma_find(rc@, '=');
            }
            assert(p < rc.len());
            let (vs, ve) = trim_bounds_from(&rc, p + 1);
            let space = p + 1 == rc.len() && p > 0 && rc[p - 1] == ' ';
            append_chars(out, &rc, 0, vs);
            if space {
                push_char(out, ' ');
            }
            out.append(value.as_str());
            append_chars(out, &rc, ve, rc.len());
            proof {
                let sp: Seq<char> = if space {
                    seq![' ']
                } else {
                    seq![]
                };
                assert(final(out)@ =~= old(out)@ + (rc@.subrange(0, vs as int) + sp + value@
                    + rc@.subrange(ve as int, rc@.len() as int)));
            }
        },
        None => {
            out.append(key.as_str());
            out.append(" = ");
            out.append(value.as_str());
            assert(final(out)@ =~= old(out)@ + (key@ + " = "@ + value@));
        },
    }
}

impl Ini {
    /// Create an empty INI document.
    pub fn new() -> (r: Self)
        ensures
            r@ == Seq::<LineView>::empty(),
    {
        let r = Ini { lines: Vec::new() };
        assert(r@ =~= Seq::<LineView>::empty());
        r
    }

    /// Parse an INI document from a string.
    ///
    /// Fails only on a line that opens a section header with `[` and never
    /// closes it; the error names the first such line.
    pub fn parse(input: &str) -> (r: Result<Self, String>)
        ensures
            match r {
                Ok(ini) => !has_bad_header(input@) && ini@ == parsed(input@),
                Err(e) => exists|i: int|
                    0 <= i < lines(input@).len() && is_bad_header(#[trigger] lines(input@)[i])
                        && (forall|j: int| 0 <= j < i ==> !is_bad_header(lines(input@)[j]))
                        && e@ == header_error(lines(input@)[i]),
            },
    {
        let chars = chars_of(input);
        let ghost s = chars@;
        let n = chars.len();
        let mut out: Vec<Line> = Vec::new();
        let ghost mut done: Seq<(Seq<char>, Seq<char>)> = seq![];
        let mut start: usize = 0;
        let mut i: usize = 0;
        while i < n
            invariant
                s == chars@,
                s == input@,
                n == s.len(),
                0 <= start <= i <= n,
                split_lines(s) == done + split_from(s, start as int, i as int),
                line_views(out@) == classify_all(done),
                forall|j: int| 0 <= j < done.len() ==> !is_bad_header(#[trigger] done[j].0),
            decreases n - i,
        {
            if chars[i] == '\n' {
                let ghost c = s.subrange(start as int, i as int);
                let mut end = String::new();
                let mut hi = i;
                if hi > start && chars[hi - 1] == '\r' {
                    hi = hi - 1;
                    push_char(&mut end, '\r');
                }
                push_char(&mut end, '\n');
                let line = sub_chars(&chars, start, hi);
                assert(line@ == strip_cr(c) && end@ == line_break(c)) by {
                    if i > start {
                        assert(c.drop_last() =~= s.subrange(start as int, i - 1));
                        assert(c.last() == s[i - 1]);
                    }
                    if hi < i {
                        assert(end@ =~= seq!['\r', '\n']);
                    } else {
                        assert(end@ =~= seq!['\n']);
                    }
                }
                let ghost rest = split_from(s, i + 1, i + 1);
                let ghost pair = (line@, end@);
                assert(split_from(s, start as int, i as int) == seq![pair] + rest);
                match read_line(&line, end) {
                    Ok(l) => {
                        let ghost old_out = out@;
                        let ghost lv = l@;
                        out.push(l);
                        proof {
                            assert(line_views(out@) =~= line_views(old_out).push(lv));
                            assert(classify_all(done.push(pair)) =~= classify_all(done).push(
                                classify(pair.0, pair.1),
                            ));
                            done = done.push(pair);
                            assert(split_lines(s) =~= done + rest);
                        }
                    },
                    Err(e) => {
                        proof {
                            assert(split_lines(s) =~= done + (seq![pair] + rest));
                            assert(lines(s)[done.len() as int] == line@);
                            assert forall|j: int| 0 <= j < done.len() implies !is_bad_header(
                                lines(s)[j],
                            ) by {
                                assert(lines(s)[j] == done[j].0);
                            }
                        }
                        return Err(e);
                    },
                }
                start = i + 1;
            }
            i = i + 1;
        }
        if start < n {
            let line = sub_chars(&chars, start, n);
            let end = String::new();
            let ghost pair = (line@, end@);
            assert(split_from(s, start as int, n as int) =~= seq![pair]);
            match read_line(&line, end) {
                Ok(l) => {
                    let ghost old_out = out@;
                    let ghost lv = l@;
                    out.push(l);
                    proof {
                        assert(line_views(out@) =~= line_views(old_out).push(lv));
                        assert(classify_all(done.push(pair)) =~= classify_all(done).push(
                            classify(pair.0, pair.1),
                        ));
                        done = done.push(pair);
                    }
                },
                Err(e) => {
                    proof {
                        assert(split_lines(s) =~= done + seq![pair]);
                        assert(lines(s)[done.len() as int] == line@);
                        assert forall|j: int| 0 <= j < done.len() implies !is_bad_header(
                            lines(s)[j],
                        ) by {
                            assert(lines(s)[j] == done[j].0);
                        }
                    }
                    return Err(e);
                },
            }
        } else {
            assert(split_from(s, start as int, n as int) =~= Seq::<(Seq<char>, Seq<char>)>::empty());
        }
        proof {
            assert(split_lines(s) =~= done);
            assert forall|j: int| 0 <= j < lines(s).len() implies !is_bad_header(
                #[trigger] lines(s)[j],
            ) by {
                assert(lines(s)[j] == done[j].0);
            }
        }
        let r = Ini { lines: out };
        assert(r@ =~= parsed(input@));
        Ok(r)
    }

    /// The text of the document, in the format it was read in: each line
    /// followed by its line break.
    pub fn to_string(&self) -> (r: String)
        ensures
            r@ == render(self@),
    {
        let mut out = String::new();
        let n = self.lines.len();
        let mut i: usize = 0;
        while i < n
            invariant
                n == self.lines@.len(),
                0 <= i <= n,
                out@ == render(self@.take(i as int)),
            decreases n - i,
        {
            match &self.lines[i] {
                Line::Blank { raw, .. } => out.append(raw.as_str()),
                Line::Comment { raw, .. } => out.append(raw.as_str()),
                Line::Section { raw, .. } => out.append(raw.as_str()),
                Line::Property { raw, key, value, modified, .. } => {
                    if *modified {
                        write_property(&mut out, raw, key, value);
                    } else {
                        out.append(raw.as_str());
                    }
                },
            }
            out.append(end_of(&self.lines[i]).as_str());
            proof {
                assert(self@.take(i + 1).drop_last() =~= self@.take(i as int));
                assert(self@.take(i + 1).last() == self@[i as int]);
            }
            i = i + 1;
        }
        assert(self@.take(n as int) =~= self@);
        out
    }
}

impl Ini {
    /// Get a value by section and key. Returns `None` if not found or empty.
    pub fn get(&self, section: &str, key: &str) -> (r: Option<&str>)
        ensures
            match r {
                Some(v) => spec_get(self@, section@, key@) == Some(v@),
                None => spec_get(self@, section@, key@) is None,
            },
    {
        let ghost ls = self@;
        let sec = String::from_str(section);
        let k = String::from_str(key);
        let n = self.lines.len();
        let mut in_sec = false;
        let mut i: usize = 0;
        while i < n
            invariant
                ls == self@,
                n == ls.len(),
                0 <= i <= n,
                sec@ == section@,
                k@ == key@,
                in_sec == (section_at(ls, i as int) == Some(sec@)),
                lookup(ls, sec@, k@) == first_match_from(ls, sec@, k@, i as int),
            decreases n - i,
        {
            assert(ls[i as int] == self.lines@[i as int]@);
            match &self.lines[i] {
                Line::Section { name, .. } => {
                    in_sec = *name == sec;
                },
                Line::Property { key: kk, value: v, .. } => {
                    if in_sec && *kk == k {
                        if v.as_str().is_empty() {
                            return None;
                        }
                        return Some(v.as_str());
                    }
                },
                _ => {},
            }
            i = i + 1;
        }
        None
    }

    /// Scans for the first property `key` of `section`; also gives the last
    /// line that belongs to `section`.
    fn scan(&self, sec: &String, k: &String) -> (r: (Option<usize>, Option<usize>))
        ensures
            match r.0 {
                Some(i) => lookup(self@, sec@, k@) == Some(i as int),
                None => lookup(self@, sec@, k@) is None,
            },
            r.0 is None ==> match r.1 {
                Some(j) => last_in_section(self@, sec@, self@.len() as int) == Some(j as int),
                None => last_in_section(self@, sec@, self@.len() as int) is None,
            },
    {
        let ghost ls = self@;
        let n = self.lines.len();
        let mut in_sec = false;
        let mut last: Option<usize> = None;
        let mut i: usize = 0;
        while i < n
            invariant
                ls == self@,
                n == ls.len(),
                0 <= i <= n,
                in_sec == (section_at(ls, i as int) == Some(sec@)),
                lookup(ls, sec@, k@) == first_match_from(ls, sec@, k@, i as int),
                match last {
                    Some(j) => last_in_section(ls, sec@, i as int) == Some(j as int),
                    None => last_in_section(ls, sec@, i as int) is None,
                },
            decreases n - i,
        {
            assert(ls[i as int] == self.lines@[i as int]@);
            match &self.lines[i] {
                Line::Section { name, .. } => {
                    in_sec = *name == *sec;
                    if in_sec {
                        last = Some(i);
                    }
                },
                Line::Property { key: kk, .. } => {
                    if in_sec && *kk == *k {
                        return (Some(i), last);
                    }
                    if in_sec {
                        last = Some(i);
                    }
                },
                _ => {
                    if in_sec {
                        last = Some(i);
                    }
                },
            }
            i = i + 1;
        }
        (None, last)
    }
}

/// The header line `[name]`, followed by the break `e`.
fn header_line(section: &str, e: String) -> (r: Line)
    ensures
        r@ == new_header(section@, e@),
{
    let mut raw = String::new();
    push_char(&mut raw, '[');
    raw.append(section);
    push_char(&mut raw, ']');
    assert(raw@ =~= seq!['['] + section@ + seq![']']);
    Line::Section { raw, name: String::from_str(section), end: e }
}

/// A property line added by `set`, followed by the break `e`.
fn property_line(key: &str, value: &str, e: String) -> (r: Line)
    ensures
        r@ == new_property(key@, value@, e@),
{
    let raw = String::new();
    Line::Property {
        raw,
        key: String::from_str(key),
        value: String::from_str(value),
        modified: true,
        end: e,
    }
}

/// The break `\n`.
fn line_feed() -> (r: String)
    ensures
        r@ == seq!['\n'],
{
    let mut e = String::new();
    push_char(&mut e, '\n');
    assert(e@ =~= seq!['\n']);
    e
}

impl Ini {
    /// Gives line `j` the break `\n` if it has none; returns the break of lines
    /// added after it.
    fn fix_line(&mut self, j: usize) -> (e: String)
        requires
            j < old(self)@.len(),
        ensures
            final(self)@ == old(self)@.update(j as int, fix_end(old(self)@[j as int])),
            e@ == eol_after(old(self)@[j as int]),
    {
        let ghost ls = self@;
        assert(ls[j as int] == self.lines@[j as int]@);
        let mut l = Line::Blank { raw: String::new(), end: String::new() };
        std::mem::swap(&mut l, &mut self.lines[j]);
        let l = fix_line_end(l);
        let e = end_of(&l).clone();
        self.lines.set(j, l);
        assert(self@ =~= ls.update(j as int, fix_end(ls[j as int])));
        e
    }

    /// Makes the document ready for lines after its last; returns their break.
    fn close_last(&mut self) -> (e: String)
        ensures
            final(self)@ == close(old(self)@),
            e@ == eol(old(self)@),
    {
        let n = self.lines.len();
        if n == 0 {
            return line_feed();
        }
        self.fix_line(n - 1)
    }

    /// Appends the blank line that separates a new section from what precedes
    /// it, ending with the break `e`; `was` is the document before it was
    /// closed.
    fn push_separator(&mut self, e: String, Ghost(was): Ghost<Seq<LineView>>)
        requires
            old(self)@ == close(was),
        ensures
            final(self)@ == old(self)@ + separator(was, e@),
    {
        let n = self.lines.len();
        if n == 0 {
            let ghost before = self.lines@;
            self.lines.push(Line::Blank { raw: String::new(), end: e });
            assert(self@ =~= old(self)@ + separator(was, e@)) by {
                assert(self.lines@ == before.push(self.lines@[0]));
            }
            return ;
        }
        assert(self@.last() == self.lines@[n - 1]@);
        assert(was.len() == n);
        assert(was.last() is Blank <==> self@.last() is Blank);
        let ends_blank = match &self.lines[n - 1] {
            Line::Blank { .. } => true,
            _ => false,
        };
        if ends_blank {
            assert(self@ =~= old(self)@ + separator(was, e@));
        } else {
            let ghost before = self.lines@;
            self.lines.push(Line::Blank { raw: String::new(), end: e });
            assert(self@ =~= old(self)@ + separator(was, e@)) by {
                assert(self.lines@ == before.push(self.lines@[n as int]));
            }
        }
    }

    /// Appends one line at the end.
    fn push_line(&mut self, l: Line)
        ensures
            final(self)@ == old(self)@.push(l@),
    {
        self.lines.push(l);
        assert(self@ =~= old(self)@.push(l@));
    }

    /// Set a value by section and key.
    ///
    /// If the key exists in the section, its value is updated in place.
    /// If the key doesn't exist but the section does, a new line is added right
    /// after the last line of the section.
    /// If the section doesn't exist, both section and key are appended at the
    /// end, separated from what precedes them by one blank line (none is added
    /// where the document already ends with a blank line).
    /// Added lines end with the line break of the line before them; a last line
    /// without a line break gets one first.
    pub fn set(&mut self, section: &str, key: &str, value: &str)
        ensures
            final(self)@ == spec_set(old(self)@, section@, key@, value@),
    {
        let ghost ls = self@;
        let sec = String::from_str(section);
        let k = String::from_str(key);
        let (found, last) = self.scan(&sec, &k);
        proof {
            lemma_first_match(ls, sec@, k@);
        }
        match found {
            Some(i) => {
                assert(ls[i as int] == self.lines@[i as int]@);
                let (raw, kk) = match &self.lines[i] {
                    Line::Property { raw, key, .. } => (raw.clone(), key.clone()),
                    _ => {
                        assert(false);
                        return ;
                    },
                };
                let end = end_of(&self.lines[i]).clone();
                let l = Line::Property {
                    raw,
                    key: kk,
                    value: String::from_str(value),
                    modified: true,
                    end,
                };
                self.lines.set(i, l);
                assert(self@ =~= ls.update(i as int, with_value(ls[i as int], value@)));
            },
            None => match last {
                Some(j) => {
                    proof {
                        lemma_last_in_section(ls, sec@, ls.len() as int);
                        assert(ls.len() == self.lines@.len());
                    }
                    assert(j < self.lines.len());
                    let e = self.fix_line(j);
                    let ghost fixed = self@;
                    assert(self.lines@.len() == fixed.len());
                    let l = property_line(key, value, e);
                    let ghost lv = l@;
                    self.lines.insert(j + 1, l);
                    assert(self@ =~= fixed.insert(j + 1, lv));
                },
                None => {
                    let e = self.close_last();
                    self.push_separator(e.clone(), Ghost(ls));
                    self.push_line(header_line(section, e.clone()));
                    self.push_line(property_line(key, value, e));
                    assert(self@ =~= close(ls) + separator(ls, eol(ls)) + seq![
                        new_header(section@, eol(ls)),
                        new_property(key@, value@, eol(ls)),
                    ]);
                },
            },
        }
    }

    /// Add a section header on its own, unless a section of that name exists.
    /// One blank line separates it from what precedes it (none is added where
    /// the document already ends with a blank line).
    pub fn add_section(&mut self, section: &str)
        ensures
            final(self)@ == spec_add_section(old(self)@, section@),
    {
        let ghost ls = self@;
        let sec = String::from_str(section);
        let n = self.lines.len();
        let mut i: usize = 0;
        while i < n
            invariant
                ls == self@,
                n == ls.len(),
                0 <= i <= n,
                sec@ == section@,
                forall|j: int| 0 <= j < i ==> !is_header_named(#[trigger] ls[j], sec@),
            decreases n - i,
        {
            assert(ls[i as int] == self.lines@[i as int]@);
            match &self.lines[i] {
                Line::Section { name, .. } => {
                    if *name == sec {
                        return ;
                    }
                },
                _ => {},
            }
            i = i + 1;
        }
        let e = self.close_last();
        self.push_separator(e.clone(), Ghost(ls));
        self.push_line(header_line(section, e));
        assert(self@ =~= close(ls) + separator(ls, eol(ls)) + seq![new_header(section@, eol(ls))]);
    }

    /// Remove a key from a section. Returns true if the key was found and removed.
    pub fn remove(&mut self, section: &str, key: &str) -> (r: bool)
        ensures
            r == (lookup(old(self)@, section@, key@) is Some),
            final(self)@ == spec_remove(old(self)@, section@, key@),
    {
        let ghost ls = self@;
        let sec = String::from_str(section);
        let k = String::from_str(key);
        let (found, _) = self.scan(&sec, &k);
        proof {
            lemma_first_match(ls, sec@, k@);
        }
        match found {
            Some(i) => {
                self.lines.remove(i);
                assert(self@ =~= ls.remove(i as int));
                true
            },
            None => false,
        }
    }
}

/// The texts of a sequence of string slices.
pub open spec fn str_views(v: Seq<&str>) -> Seq<Seq<char>> {
    v.map_values(|x: &str| x@)
}

/// The texts of a sequence of pairs of string slices.
pub open spec fn pair_views(v: Seq<(&str, &str)>) -> Seq<(Seq<char>, Seq<char>)> {
    v.map_values(|p: (&str, &str)| (p.0@, p.1@))
}

impl Ini {
    /// The names of all sections, each once, in order of first appearance.
    pub fn sections(&self) -> (r: Vec<&str>)
        ensures
            str_views(r@) == spec_sections(self@),
    {
        let ghost ls = self@;
        let n = self.lines.len();
        let mut result: Vec<&str> = Vec::new();
        // the line of the header that each name in `result` comes from
        let mut from: Vec<usize> = Vec::new();
        let mut i: usize = 0;
        while i < n
            invariant
                ls == self@,
                n == ls.len(),
                0 <= i <= n,
                str_views(result@) == sections_upto(ls, i as int),
                from@.len() == result@.len(),
                forall|t: int|
                    0 <= t < from@.len() ==> #[trigger] from@[t] < n && is_header_named(
                        ls[from@[t] as int],
                        result@[t]@,
                    ),
            decreases n - i,
        {
            assert(ls[i as int] == self.lines@[i as int]@);
            match &self.lines[i] {
                Line::Section { name, .. } => {
                    let mut seen = false;
                    let mut t: usize = 0;
                    while t < from.len()
                        invariant
                            ls == self@,
                            n == ls.len(),
                            0 <= t <= from@.len(),
                            from@.len() == result@.len(),
                            forall|u: int|
                                0 <= u < from@.len() ==> #[trigger] from@[u] < n && is_header_named(
                                    ls[from@[u] as int],
                                    result@[u]@,
                                ),
                            seen == (exists|u: int| 0 <= u < t && #[trigger] result@[u]@ == name@),
                        decreases from@.len() - t,
                    {
                        let f = from[t];
                        assert(ls[f as int] == self.lines@[f as int]@);
                        match &self.lines[f] {
                            Line::Section { name: other, .. } => {
                                if *other == *name {
                                    seen = true;
                                }
                            },
                            _ => {},
                        }
                        t = t + 1;
                    }
                    proof {
                        let r = sections_upto(ls, i as int);
                        if r.contains(name@) {
                            let u = choose|u: int| 0 <= u < r.len() && r[u] == name@;
                            assert(result@[u]@ == r[u]);
                        }
                        if seen {
                            let u = choose|u: int| 0 <= u < t && #[trigger] result@[u]@ == name@;
                            assert(r[u] == name@);
                        }
                    }
                    if !seen {
                        let ghost old_result = result@;
                        result.push(name.as_str());
                        from.push(i);
                        assert(str_views(result@) =~= str_views(old_result).push(name@));
                    }
                },
                _ => {},
            }
            i = i + 1;
        }
        result
    }

    /// All key/value pairs of a section, in order.
    pub fn keys(&self, section: &str) -> (r: Vec<(&str, &str)>)
        ensures
            pair_views(r@) == spec_keys(self@, section@),
    {
        let ghost ls = self@;
        let sec = String::from_str(section);
        let n = self.lines.len();
        let mut result: Vec<(&str, &str)> = Vec::new();
        let mut in_sec = false;
        let mut i: usize = 0;
        while i < n
            invariant
                ls == self@,
                n == ls.len(),
                0 <= i <= n,
                sec@ == section@,
                in_sec == (section_at(ls, i as int) == Some(sec@)),
                pair_views(result@) == keys_upto(ls, sec@, i as int),
            decreases n - i,
        {
            assert(ls[i as int] == self.lines@[i as int]@);
            match &self.lines[i] {
                Line::Section { name, .. } => {
                    in_sec = *name == sec;
                },
                Line::Property { key, value, .. } => {
                    if in_sec {
                        let ghost old_result = result@;
                        result.push((key.as_str(), value.as_str()));
                        assert(pair_views(result@) =~= pair_views(old_result).push((key@, value@)));
                    }
                },
                _ => {},
            }
            i = i + 1;
        }
        result
    }

    /// Remove every section named `section`: each run of lines from such a
    /// header to just before the next header, keys, comments and blank lines
    /// included. Returns true if there was such a section.
    pub fn remove_section(&mut self, section: &str) -> (r: bool)
        ensures
            r == has_section(old(self)@, section@),
            final(self)@ == spec_remove_section(old(self)@, section@),
    {
        let ghost ls = self@;
        let sec = String::from_str(section);
        let mut old_lines: Vec<Line> = Vec::new();
        std::mem::swap(&mut old_lines, &mut self.lines);
        let ghost orig = old_lines@;
        assert(line_views(orig) == ls);
        let n = old_lines.len();
        let mut kept: Vec<Line> = Vec::new();
        let mut in_sec = false;
        let mut removed = false;
        let mut i: usize = 0;
        while i < n
            invariant
                n == ls.len(),
                n == orig.len(),
                line_views(orig) == ls,
                old_lines@.len() == n,
                0 <= i <= n,
                sec@ == section@,
                forall|j: int| i <= j < n ==> #[trigger] old_lines@[j] == orig[j],
                in_sec == (section_at(ls, i as int) == Some(sec@)),
                removed == (exists|j: int| 0 <= j < i && #[trigger] in_section(ls, j, sec@)),
                line_views(kept@) == drop_section_upto(ls, sec@, i as int),
            decreases n - i,
        {
            let mut l = Line::Blank { raw: String::new(), end: String::new() };
            std::mem::swap(&mut l, &mut old_lines[i]);
            assert(l == orig[i as int]);
            assert(ls[i as int] == l@);
            match &l {
                Line::Section { name, .. } => {
                    in_sec = *name == sec;
                },
                _ => {},
            }
            assert(in_sec == in_section(ls, i as int, sec@));
            if in_sec {
                removed = true;
            } else {
                let ghost old_kept = kept@;
                let ghost lv = l@;
                kept.push(l);
                assert(line_views(kept@) =~= line_views(old_kept).push(lv));
            }
            i = i + 1;
        }
        self.lines = kept;
        proof {
            lemma_has_section(ls, sec@);
        }
        removed
    }
}

impl Default for Ini {
    fn default() -> (r: Self)
        ensures
            r@ == Seq::<LineView>::empty(),
    {
        Ini::new()
    }
}

} // verus!
