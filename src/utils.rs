//! Searching and scanning helpers for strings and characters.

use vstd::prelude::*;
use vstd::string::StrSliceExecFns;
use crate::text::chars_of;

verus! {

/// Search and scanning functions over a string.
pub struct StrUtils<'a>(pub &'a str);

/// Whether `c` occurs in `s`.
pub open spec fn occurs(s: Seq<char>, c: char) -> bool {
    exists|j: int| 0 <= j < s.len() && s[j] == c
}

/// The number of times `c` occurs in `s`.
pub open spec fn count_of(s: Seq<char>, c: char) -> int
    decreases s.len(),
{
    if s.len() == 0 {
        0
    } else {
        count_of(s.drop_last(), c) + if s.last() == c {
            1int
        } else {
            0
        }
    }
}

fn contains_char(v: &Vec<char>, c: char) -> (r: bool)
    ensures
        r == occurs(v@, c),
{
    let mut j: usize = 0;
    while j < v.len()
        invariant
            0 <= j <= v.len(),
            forall|k: int| 0 <= k < j ==> v@[k] != c,
        decreases v.len() - j,
    {
        if v[j] == c {
            return true;
        }
        j += 1;
    }
    false
}

pub open spec fn is_tab(c: char) -> bool {
    c == ' ' || c == '\t'
}

/// The number of spaces and tabs that `s` starts with.
pub open spec fn tab_len(s: Seq<char>) -> nat
    decreases s.len(),
{
    if s.len() > 0 && is_tab(s[0]) {
        1 + tab_len(s.drop_first())
    } else {
        0
    }
}

/// The number of spaces and tabs at the start of `v[lo..hi]`.
pub fn tab_len_in(v: &Vec<char>, lo: usize, hi: usize) -> (r: usize)
    requires
        lo <= hi <= v.len(),
    ensures
        r == tab_len(v@.subrange(lo as int, hi as int)),
        r <= hi - lo,
{
    let mut i = lo;
    while i < hi && (v[i] == ' ' || v[i] == '\t')
        invariant
            lo <= i <= hi <= v.len(),
            tab_len(v@.subrange(lo as int, hi as int)) == (i - lo) + tab_len(
                v@.subrange(i as int, hi as int),
            ),
        decreases hi - i,
    {
        assert(v@.subrange(i as int, hi as int).drop_first() =~= v@.subrange(i + 1, hi as int));
        i += 1;
    }
    i - lo
}

impl<'a> StrUtils<'a> {
    /// The spaces and tabs that the string starts with.
    pub fn tabs(&self) -> (r: &'a str)
        ensures
            r@ == self.0@.take(tab_len(self.0@) as int),
    {
        let v = chars_of(self.0);
        assert(v@.subrange(0, v.len() as int) =~= v@);
        let n = tab_len_in(&v, 0, v.len());
        self.0.substring_char(0, n)
    }

    /// Whether every character of `chars` occurs in the string.
    pub fn contains_all(&self, chars: &str) -> (r: bool)
        ensures
            r == forall|i: int| 0 <= i < chars@.len() ==> occurs(self.0@, #[trigger] chars@[i]),
    {
        let s = chars_of(self.0);
        let cs = chars_of(chars);
        let mut i: usize = 0;
        while i < cs.len()
            invariant
                0 <= i <= cs.len(),
                s@ == self.0@,
                cs@ == chars@,
                forall|k: int| 0 <= k < i ==> occurs(s@, #[trigger] cs@[k]),
            decreases cs.len() - i,
        {
            if !contains_char(&s, cs[i]) {
                return false;
            }
            i += 1;
        }
        true
    }

    /// Whether the string equals one of `v`.
    pub fn in_any(&self, v: &[&str]) -> (r: bool)
        ensures
            r == exists|i: int| 0 <= i < v@.len() && (#[trigger] v@[i])@ == self.0@,
    {
        let s = chars_of(self.0);
        assert(s@.subrange(0, s.len() as int) =~= s@);
        let mut i: usize = 0;
        while i < v.len()
            invariant
                0 <= i <= v@.len(),
                s@ == self.0@,
                s@.subrange(0, s@.len() as int) == s@,
                forall|k: int| 0 <= k < i ==> (#[trigger] v@[k])@ != self.0@,
            decreases v@.len() - i,
        {
            if crate::text::range_eq(&s, 0, s.len(), v[i]) {
                return true;
            }
            i += 1;
        }
        false
    }

    /// The number of times `occurance` occurs in the string.
    pub fn count_char(&self, occurance: char) -> (r: i32)
        requires
            self.0@.len() <= i32::MAX,
        ensures
            r == count_of(self.0@, occurance),
    {
        let s = chars_of(self.0);
        let mut n: i32 = 0;
        let mut i: usize = 0;
        while i < s.len()
            invariant
                0 <= i <= s.len(),
                s@ == self.0@,
                s@.len() <= i32::MAX,
                n == count_of(s@.take(i as int), occurance),
                0 <= n <= i,
            decreases s.len() - i,
        {
            assert(s@.take(i + 1).drop_last() =~= s@.take(i as int));
            if s[i] == occurance {
                n = n + 1;
            }
            i += 1;
        }
        assert(s@.take(s.len() as int) =~= s@);
        n
    }

    /// Whether any character of `chars` occurs in the string.
    pub fn contains_any(&self, chars: &str) -> (r: bool)
        ensures
            r == exists|i: int| 0 <= i < chars@.len() && occurs(self.0@, #[trigger] chars@[i]),
    {
        let s = chars_of(self.0);
        let cs = chars_of(chars);
        let mut i: usize = 0;
        while i < cs.len()
            invariant
                0 <= i <= cs.len(),
                s@ == self.0@,
                cs@ == chars@,
                forall|k: int| 0 <= k < i ==> !occurs(s@, #[trigger] cs@[k]),
            decreases cs.len() - i,
        {
            if contains_char(&s, cs[i]) {
                return true;
            }
            i += 1;
        }
        false
    }
}

/// A character, with matching against character patterns.
pub struct CharUtils(pub char);

/// A pattern of single characters and ranges `a-z`: each range has ASCII
/// ends, the first below the second.
pub open spec fn pattern_valid(p: Seq<char>) -> bool
    decreases p.len(),
{
    if p.len() == 0 {
        true
    } else if p.len() >= 2 && p[1] == '-' {
        p.len() >= 3 && (p[0] as int) < (p[2] as int) && (p[2] as int) < 128 && pattern_valid(
            p.skip(3),
        )
    } else {
        pattern_valid(p.skip(1))
    }
}

/// Whether `c` is one of the characters of pattern `p`.
pub open spec fn pattern_has(p: Seq<char>, c: char) -> bool
    decreases p.len(),
{
    if p.len() == 0 {
        false
    } else if p.len() >= 3 && p[1] == '-' {
        (p[0] <= c && c <= p[2]) || pattern_has(p.skip(3), c)
    } else {
        p[0] == c || pattern_has(p.skip(1), c)
    }
}

impl CharUtils {
    /// Whether the character matches `pat`, a list of characters and
    /// ranges such as `"0-9"`, `"a-zA-Z"`, `"01-9"`.
    pub fn is_in(&self, pat: &str) -> (r: bool)
        requires
            pattern_valid(pat@),
        ensures
            r == pattern_has(pat@, self.0),
    {
        let p = chars_of(pat);
        let n = p.len();
        let c = self.0;
        let mut i: usize = 0;
        assert(p@.skip(0) =~= p@);
        while i < n
            invariant
                0 <= i <= n == p@.len(),
                p@ == pat@,
                c == self.0,
                pattern_valid(p@.skip(i as int)),
                pattern_has(pat@, c) == pattern_has(p@.skip(i as int), c),
            decreases n - i,
        {
            let ghost q = p@.skip(i as int);
            if i + 1 < n && p[i + 1] == '-' {
                assert(q[0] == p@[i as int] && q[1] == p@[i + 1] && q[2] == p@[i + 2]);
                assert(q.skip(3) =~= p@.skip(i + 3));
                if p[i] <= c && c <= p[i + 2] {
                    assert(q.len() >= 3);
                    assert(pattern_has(q, c));
                    return true;
                }
                i += 3;
            } else {
                assert(q[0] == p@[i as int]);
                assert(q.skip(1) =~= p@.skip(i + 1));
                if i + 1 < n {
                    assert(q[1] == p@[i + 1]);
                }
                if p[i] == c {
                    assert(!(q.len() >= 3 && q[1] == '-'));
                    assert(pattern_has(q, c));
                    return true;
                }
                i += 1;
            }
        }
        false
    }
}

/// The result with its error replaced by `()`.
pub fn result_err_to_unit<T, E>(res: Result<T, E>) -> (r: Result<T, ()>)
    ensures
        match res {
            Ok(v) => r == Ok::<T, ()>(v),
            Err(_) => r == Err::<T, ()>(()),
        },
{
    match res {
        Ok(v) => Ok(v),
        Err(_) => Err(()),
    }
}

} // verus!
