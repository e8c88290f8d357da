//! Sections: a `[Specifier]` line and the lines under it, down to the next
//! section at the same indentation, a shallower line, or the end.

use vstd::prelude::*;
use crate::scanner::{first_line, line_step, FromNext, StrScanner};
use crate::text::{chars_of, find, find_char, string_range, trim, trim_range};
use crate::utils::{tab_len, tab_len_in};

verus! {

/// A section: `<tab>[<specifier>]` and its body.
#[derive(Debug, PartialEq, Clone)]
pub struct Section {
    /// the spaces and tabs before the specifier
    pub tab: String,
    pub specifier: String,
    /// the lines of the section, with their line breaks
    pub body: String,
}

#[derive(Debug, PartialEq, Clone)]
pub enum SectionParseError {
    /// The first line is not of the form `[...]`.
    InvalidSpecifier,
}

/// `t` starts with `[` and ends with `]`.
pub open spec fn is_bracketed(t: Seq<char>) -> bool {
    t.len() > 0 && t[0] == '[' && t.last() == ']'
}

/// A line ends a section indented by the spaces and tabs `tab`: it is
/// indented less (and is not an unindented blank line), or it opens a
/// section after exactly the same spaces and tabs.
pub open spec fn ends_section(line: Seq<char>, tab: Seq<char>) -> bool {
    let lt = tab_len(line);
    let tl = trim(line);
    ||| (lt > 0 && lt < tab.len())
    ||| (lt == 0 && tab.len() > 0 && tl.len() > 0)
    ||| (line.take(lt as int) == tab && is_bracketed(tl))
}

/// Where the body that starts at `pos` in `s` ends.
pub open spec fn body_end(s: Seq<char>, pos: int, tab: Seq<char>) -> int
    decreases s.len() - pos,
{
    if pos < 0 || pos >= s.len() {
        pos
    } else if ends_section(first_line(s.skip(pos)), tab) {
        pos
    } else if line_step(s.skip(pos)) <= 0 || pos + line_step(s.skip(pos)) > s.len() {
        pos
    } else {
        body_end(s, pos + line_step(s.skip(pos)), tab)
    }
}

/// A section as plain values.
pub struct SectionView {
    pub tab: Seq<char>,
    pub specifier: Seq<char>,
    pub body: Seq<char>,
}

impl View for Section {
    type V = SectionView;

    open spec fn view(&self) -> SectionView {
        SectionView { tab: self.tab@, specifier: self.specifier@, body: self.body@ }
    }
}

/// The section at the start of `s` and how much of `s` it takes up.
pub open spec fn section_of(s: Seq<char>) -> Option<(int, SectionView)> {
    let line = first_line(s);
    if s.len() == 0 || !is_bracketed(trim(line)) {
        None
    } else {
        let tab = line.take(tab_len(line) as int);
        let ob = find(line, '[').unwrap();
        let cb = find(line, ']').unwrap();
        let start = line_step(s);
        let end = body_end(s, start, tab);
        Some(
            (
                end,
                SectionView {
                    tab,
                    specifier: trim(line.subrange(ob + 1, cb)),
                    body: s.subrange(start, end),
                },
            ),
        )
    }
}

proof fn lemma_body_end(s: Seq<char>, pos: int, tab: Seq<char>)
    requires
        0 <= pos <= s.len(),
    ensures
        pos <= body_end(s, pos, tab) <= s.len(),
    decreases s.len() - pos,
{
    if pos < s.len() && !ends_section(first_line(s.skip(pos)), tab) && line_step(s.skip(pos)) > 0
        && pos + line_step(s.skip(pos)) <= s.len() {
        crate::text::lemma_find_facts(s.skip(pos), '\n');
        lemma_body_end(s, pos + line_step(s.skip(pos)), tab);
    }
}

/// Whether `a` and `b` start with the same `n` characters.
fn same_prefix(a: &Vec<char>, b: &Vec<char>, n: usize) -> (r: bool)
    requires
        n <= a.len(),
        n <= b.len(),
    ensures
        r == (a@.take(n as int) == b@.take(n as int)),
{
    let mut i: usize = 0;
    while i < n
        invariant
            n <= a.len(),
            n <= b.len(),
            0 <= i <= n,
            forall|j: int| 0 <= j < i ==> a@[j] == b@[j],
        decreases n - i,
    {
        if a[i] != b[i] {
            assert(a@.take(n as int)[i as int] != b@.take(n as int)[i as int]);
            return false;
        }
        i += 1;
    }
    assert(a@.take(n as int) =~= b@.take(n as int));
    true
}

/// Whether the text of `v[lo..hi]`, trimmed, is bracketed.
fn bracketed_in(v: &Vec<char>, lo: usize, hi: usize) -> (r: bool)
    requires
        lo <= hi <= v.len(),
    ensures
        r == is_bracketed(trim(v@.subrange(lo as int, hi as int))),
{
    let (a, b) = trim_range(v, lo, hi);
    if a == b {
        return false;
    }
    assert(v@.subrange(a as int, b as int)[0] == v@[a as int]);
    assert(v@.subrange(a as int, b as int).last() == v@[b - 1]);
    v[a] == '[' && v[b - 1] == ']'
}

impl Section {
    /// Scans a section off the front of `s`: the specifier line, then the
    /// lines of its body; with how much of `s` it takes up, so that scanning
    /// can go on after it.
    pub fn parse_next(s: &str) -> (r: Result<(usize, Section), SectionParseError>)
        ensures
            match section_of(s@) {
                Some((n, sv)) => r matches Ok((m, sec)) && m == n && sec@ == sv,
                None => r == Err::<(usize, Section), SectionParseError>(
                    SectionParseError::InvalidSpecifier,
                ),
            },
    {
        let mut scan = StrScanner::create(s);
        assert(scan.rest() =~= s@);
        let specifier_line = match scan.next_line() {
            Ok(l) => l,
            Err(()) => {
                return Err(SectionParseError::InvalidSpecifier);
            },
        };
        let lv = chars_of(specifier_line.as_str());
        let ln = lv.len();
        assert(lv@.subrange(0, ln as int) =~= lv@);
        if !bracketed_in(&lv, 0, ln) {
            return Err(SectionParseError::InvalidSpecifier);
        }
        let tab_n = tab_len_in(&lv, 0, ln);
        let ghost tab_v = lv@.take(tab_n as int);
        let ghost line = lv@;
        let (ta, tb) = trim_range(&lv, 0, ln);
        assert(trim(line)[0] == lv@[ta as int]);
        assert(trim(line).last() == lv@[tb - 1]);
        assert(lv@[ta as int] == '[' && lv@[tb - 1] == ']');
        let ob = match find_char(&lv, 0, ln, '[') {
            Some(x) => x,
            None => {
                return Err(SectionParseError::InvalidSpecifier);
            },
        };
        let cb = match find_char(&lv, 0, ln, ']') {
            Some(x) => x,
            None => {
                return Err(SectionParseError::InvalidSpecifier);
            },
        };
        assert(ob == ta) by {
            if ob < ta {
                assert(crate::text::is_ws(lv@[ob as int]));
            }
        }
        if cb <= ob {
            assert(crate::text::is_ws(lv@[cb as int]) || cb == ta);
            return Err(SectionParseError::InvalidSpecifier);
        }
        let (sa, sb) = trim_range(&lv, ob + 1, cb);
        let specifier = string_range(&lv, sa, sb);
        let body_start = scan.cur;
        let ghost whole = s@;
        assert(whole.skip(body_start as int) == scan.rest());
        loop
            invariant
                scan.wf(),
                scan.stream == s,
                body_start <= scan.cur,
                body_end(whole, body_start as int, tab_v) == body_end(
                    whole,
                    scan.cur as int,
                    tab_v,
                ),
                whole == s@,
                tab_n <= lv@.len(),
                tab_v == lv@.take(tab_n as int),
            ensures
                scan.wf(),
                scan.stream == s,
                body_start <= scan.cur,
                body_end(whole, body_start as int, tab_v) == scan.cur,
            decreases s@.len() - scan.cur,
        {
            let ghost rest = scan.rest();
            assert(rest == whole.skip(scan.cur as int));
            let (len, l) = match scan.peek_line() {
                Ok(x) => x,
                Err(()) => {
                    assert(scan.cur == whole.len());
                    break;
                },
            };
            let w = chars_of(l.as_str());
            let wn = w.len();
            assert(w@.subrange(0, wn as int) =~= w@);
            let lt = tab_len_in(&w, 0, wn);
            let (wa, wb) = trim_range(&w, 0, wn);
            let blank = wa == wb;
            let stop = (lt > 0 && lt < tab_n) || (lt == 0 && tab_n > 0 && !blank) || (lt == tab_n
                && same_prefix(&w, &lv, lt) && bracketed_in(&w, 0, wn));
            assert(lt == tab_n ==> (w@.take(lt as int) == tab_v) == (w@.take(lt as int) == lv@.take(
                lt as int,
            )));
            assert(w@.take(lt as int) == tab_v ==> w@.take(lt as int).len() == tab_v.len());
            assert(stop == ends_section(first_line(rest), tab_v));
            if stop {
                assert(body_end(whole, scan.cur as int, tab_v) == scan.cur);
                break;
            }
            proof {
                crate::text::lemma_find_facts(rest, '\n');
            }
            scan.advance(len);
        }
        proof {
            lemma_body_end(whole, body_start as int, tab_v);
        }
        let body = string_range(&scan.text, body_start, scan.cur);
        let tab_s = string_range(&lv, 0, tab_n);
        assert(tab_s@ == line.take(tab_n as int));

        Ok((scan.cur, Section { tab: tab_s, specifier, body }))
    }

    /// Parses the section at the start of `s`; what follows it is dropped.
    pub fn parse(s: &str) -> (r: Result<Section, SectionParseError>)
        ensures
            match section_of(s@) {
                Some((n, sv)) => r matches Ok(sec) && sec@ == sv,
                None => r == Err::<Section, SectionParseError>(SectionParseError::InvalidSpecifier),
            },
    {
        let (_n, out) = Section::parse_next(s)?;
        Ok(out)
    }
}

impl FromNext for Section {
    type Err = SectionParseError;

    fn next(s: &str) -> (r: Result<(usize, Section), SectionParseError>)
        ensures
            match section_of(s@) {
                Some((n, sv)) => r matches Ok((m, sec)) && m == n && sec@ == sv,
                None => r == Err::<(usize, Section), SectionParseError>(
                    SectionParseError::InvalidSpecifier,
                ),
            },
    {
        let r = Section::parse_next(s);
        proof {
            if let Some((n, _)) = section_of(s@) {
                let line = first_line(s@);
                crate::text::lemma_find_facts(s@, '\n');
                lemma_body_end(s@, line_step(s@), line.take(tab_len(line) as int));
            }
        }
        r
    }
}

impl std::str::FromStr for Section {
    type Err = SectionParseError;

    fn from_str(s: &str) -> (r: Result<Section, SectionParseError>)
        ensures
            match section_of(s@) {
                Some((n, sv)) => r matches Ok(sec) && sec@ == sv,
                None => r == Err::<Section, SectionParseError>(SectionParseError::InvalidSpecifier),
            },
    {
        Section::parse(s)
    }
}

} // verus!
