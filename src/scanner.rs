//! A cursor over a string from which integers, words, lines, characters and
//! delimited tokens are scanned one after another. Positions and lengths
//! count characters.

use vstd::prelude::*;
use vstd::string::StrSliceExecFns;
use crate::integer::digits_value;
use crate::text::{chars_of, find, find_char, is_whitespace, is_ws, string_range, trim_end, trim_end_at};

verus! {

/// A string and a cursor into it; what lies after the cursor is unconsumed.
pub struct StrScanner<'a> {
    /// the text scanned
    pub stream: &'a str,
    /// the number of characters consumed so far
    pub cur: usize,
    /// the characters of `stream`, for access by position
    pub text: Vec<char>,
}

/// A type that can be scanned off the front of a string.
pub trait FromNext: Sized {
    type Err;

    /// Scans one `Self` off the front of `s`, with the number of characters
    /// that it takes up.
    fn next(s: &str) -> (r: Result<(usize, Self), Self::Err>)
        ensures
            r matches Ok((n, _)) ==> n <= s@.len(),
    ;
}

/// Whether `T::next`, called on a string that holds `t`, returned `r`.
pub open spec fn next_gives<T: FromNext>(t: Seq<char>, r: Result<(usize, T), T::Err>) -> bool {
    exists|u: &str| u@ == t && #[trigger] call_ensures(T::next, (u,), r)
}

/// Whether `end`, called on a string that holds `t`, returned `r`.
pub open spec fn ends_at<F: Fn(&str) -> Option<usize>>(end: F, t: Seq<char>, r: Option<usize>) -> bool {
    exists|u: &str| u@ == t && #[trigger] end.ensures((u,), r)
}

/// The first position at or after `i` that holds no whitespace, or the end.
pub open spec fn skip_ws(s: Seq<char>, i: int) -> int
    decreases s.len() - i,
{
    if i < 0 || i >= s.len() {
        s.len() as int
    } else if is_ws(s[i]) {
        skip_ws(s, i + 1)
    } else {
        i
    }
}

/// The first position at or after `i` that holds whitespace, or the end.
pub open spec fn skip_word(s: Seq<char>, i: int) -> int
    decreases s.len() - i,
{
    if i < 0 || i >= s.len() {
        s.len() as int
    } else if !is_ws(s[i]) {
        skip_word(s, i + 1)
    } else {
        i
    }
}

pub open spec fn is_digit(c: char) -> bool {
    '0' <= c && c <= '9'
}

/// The first position at or after `i` that holds no decimal digit, or the end.
pub open spec fn skip_digits(s: Seq<char>, i: int) -> int
    decreases s.len() - i,
{
    if i < 0 || i >= s.len() {
        s.len() as int
    } else if is_digit(s[i]) {
        skip_digits(s, i + 1)
    } else {
        i
    }
}

/// Where the first line of `s` ends, before its `\n` or at the end.
pub open spec fn line_len(s: Seq<char>) -> int {
    match find(s, '\n') {
        Some(j) => j,
        None => s.len() as int,
    }
}

/// How much of `s` its first line takes up, with its `\n`.
pub open spec fn line_step(s: Seq<char>) -> int {
    match find(s, '\n') {
        Some(j) => j + 1,
        None => s.len() as int,
    }
}

/// The first line of `s`, without trailing whitespace.
pub open spec fn first_line(s: Seq<char>) -> Seq<char> {
    trim_end(s.take(line_len(s)))
}

/// What scanning a word off `s` gives: skip whitespace, take the
/// characters up to the next whitespace, and consume that one too.
pub open spec fn word_scan(s: Seq<char>) -> Option<(int, Seq<char>)> {
    let a = skip_ws(s, 0);
    let e = skip_word(s, a);
    if a >= s.len() {
        None
    } else if e < s.len() {
        Some((e + 1, s.subrange(a, e)))
    } else {
        Some((e, s.subrange(a, e)))
    }
}

/// What scanning an integer off `s` gives: an optional `-`, then as many
/// decimal digits as follow, at least one; the value must fit in an `i32`.
pub open spec fn int_scan(s: Seq<char>) -> Option<(int, int)> {
    let start: int = if s.len() > 0 && s[0] == '-' {
        1
    } else {
        0
    };
    let e = skip_digits(s, start);
    let mag = digits_value(s.subrange(start, e), 10);
    let v = if start == 1 {
        -mag
    } else {
        mag
    };
    if e == start || v < i32::MIN || v > i32::MAX {
        None
    } else {
        Some((e, v))
    }
}

pub proof fn lemma_skip_bounds(s: Seq<char>, i: int)
    requires
        0 <= i <= s.len(),
    ensures
        i <= skip_ws(s, i) <= s.len(),
        i <= skip_word(s, i) <= s.len(),
        i <= skip_digits(s, i) <= s.len(),
        forall|j: int| i <= j < skip_digits(s, i) ==> is_digit(#[trigger] s[j]),
        skip_digits(s, i) < s.len() ==> !is_digit(s[skip_digits(s, i)]),
    decreases s.len() - i,
{
    if i < s.len() {
        lemma_skip_bounds(s, i + 1);
    }
}

proof fn lemma_digits_value_grows(s: Seq<char>, k: int)
    requires
        0 <= k <= s.len(),
        forall|j: int| 0 <= j < s.len() ==> is_digit(#[trigger] s[j]),
    ensures
        digits_value(s, 10) >= digits_value(s.take(k), 10) >= 0,
    decreases s.len(),
{
    if s.len() > 0 {
        if k == s.len() {
            assert(s.take(k) =~= s);
            lemma_digits_value_grows(s.drop_last(), k - 1);
            assert(s.drop_last().take(k - 1) =~= s.drop_last());
        } else {
            lemma_digits_value_grows(s.drop_last(), k);
            assert(s.drop_last().take(k) =~= s.take(k));
        }
    } else {
        assert(s.take(k) =~= s);
    }
}

impl<'a> StrScanner<'a> {
    /// The text mirrors `stream` and the cursor lies within it.
    pub open spec fn wf(&self) -> bool {
        &&& self.text@ == self.stream@
        &&& self.cur <= self.text@.len()
    }

    /// What is left to scan.
    pub open spec fn rest(&self) -> Seq<char> {
        self.stream@.skip(self.cur as int)
    }

    /// A scanner at the start of `stream`.
    pub fn create(stream: &'a str) -> (r: Self)
        ensures
            r.wf(),
            r.stream == stream,
            r.cur == 0,
    {
        StrScanner { stream, cur: 0, text: chars_of(stream) }
    }

    /// Scans a `T` off what is left, without moving the cursor.
    pub fn peek<T: FromNext>(&mut self) -> (r: Result<(usize, T), T::Err>)
        requires
            old(self).wf(),
        ensures
            *final(self) == *old(self),
            next_gives::<T>(old(self).rest(), r),
            r matches Ok((n, _)) ==> n <= old(self).rest().len(),
    {
        let rest = self.stream.substring_char(self.cur, self.text.len());
        let r = T::next(rest);
        assert(rest@ =~= self.rest());
        r
    }

    /// Consumes `n` more characters.
    pub fn advance(&mut self, n: usize)
        requires
            old(self).wf(),
            n <= old(self).rest().len(),
        ensures
            final(self).wf(),
            final(self).stream == old(self).stream,
            final(self).cur == old(self).cur + n,
    {
        let total = self.text.len();
        assert(self.rest().len() == total - self.cur);
        self.cur = self.cur + n;
    }

    /// Gives back the last `n` characters consumed.
    pub fn rewind(&mut self, n: usize)
        requires
            old(self).wf(),
            n <= old(self).cur,
        ensures
            final(self).wf(),
            final(self).stream == old(self).stream,
            final(self).cur == old(self).cur - n,
    {
        self.cur = self.cur - n;
    }

    /// Scans a `T` off what is left and consumes it.
    pub fn next<T: FromNext>(&mut self) -> (r: Result<T, T::Err>)
        requires
            old(self).wf(),
        ensures
            final(self).wf(),
            final(self).stream == old(self).stream,
            match r {
                Ok(x) => final(self).cur >= old(self).cur && next_gives::<T>(
                    old(self).rest(),
                    Ok(((final(self).cur - old(self).cur) as usize, x)),
                ),
                Err(e) => next_gives::<T>(old(self).rest(), Err(e)) && *final(self) == *old(self),
            },
    {
        let (len, elem) = match self.peek::<T>() {
            Ok(x) => x,
            Err(e) => {
                return Err(e);
            },
        };
        assert(next_gives::<T>(old(self).rest(), Ok((len, elem))));
        self.advance(len);
        Ok(elem)
    }

    /// The next token up to the first position at which `end` reports a
    /// separator, with that separator; the cursor does not move. Where no
    /// separator comes, the token runs to the end and the separator is empty.
    pub fn peek_token<F: Fn(&str) -> Option<usize>>(&mut self, end: F) -> (r: Result<
        (usize, String, String),
        (),
    >)
        requires
            old(self).wf(),
            forall|t: &str| #[trigger] end.requires((t,)),
            forall|t: &str, k: usize| #[trigger] end.ensures((t,), Some(k)) ==> k <= t@.len(),
        ensures
            *final(self) == *old(self),
            ({
                let s = old(self).rest();
                match r {
                    Err(()) => s.len() == 0,
                    Ok((n, tok, sep)) => {
                        &&& s.len() > 0
                        &&& n <= s.len()
                        &&& tok@ == s.take(tok@.len() as int)
                        &&& forall|j: int| 0 <= j < tok@.len() ==> ends_at(end, s.skip(j), None)
                        &&& if tok@.len() == s.len() {
                            n == s.len() && sep@.len() == 0
                        } else {
                            &&& tok@.len() < s.len()
                            &&& n == tok@.len() + sep@.len()
                            &&& sep@ == s.subrange(tok@.len() as int, n as int)
                            &&& ends_at(end, s.skip(tok@.len() as int), Some(sep@.len() as usize))
                        }
                    },
                }
            }),
    {
        let ghost s = self.rest();
        let len = self.text.len();
        if self.cur == len {
            return Err(());
        }
        let mut i: usize = self.cur;
        while i < len
            invariant
                self.wf(),
                self.cur <= i <= len == self.text@.len(),
                s == self.rest(),
                forall|t: &str| #[trigger] end.requires((t,)),
                forall|t: &str, k: usize| #[trigger] end.ensures((t,), Some(k)) ==> k <= t@.len(),
                forall|j: int| 0 <= j < i - self.cur ==> ends_at(end, s.skip(j), None),
            decreases len - i,
        {
            let t = self.stream.substring_char(i, len);
            assert(t@ =~= s.skip(i - self.cur));
            match end(t) {
                Some(k) => {
                    assert(ends_at(end, s.skip(i - self.cur), Some(k)));
                    if k == 0 {
                        assert(ends_at(end, s.skip(i - self.cur), Some(0usize)));
                    }
                    let tok = string_range(&self.text, self.cur, i);
                    let sep = string_range(&self.text, i, i + k);
                    assert(tok@ =~= s.take(i - self.cur));
                    assert(sep@ =~= s.subrange(i - self.cur, i - self.cur + k));
                    return Ok((i - self.cur + k, tok, sep));
                },
                None => {
                    assert(ends_at(end, s.skip(i - self.cur), None));
                },
            }
            i += 1;
        }
        let tok = string_range(&self.text, self.cur, len);
        let sep = string_range(&self.text, len, len);
        assert(tok@ =~= s.take(tok@.len() as int));
        Ok((len - self.cur, tok, sep))
    }

    /// Scans the next token and its separator as `peek_token` does, and
    /// consumes both.
    pub fn next_token<F: Fn(&str) -> Option<usize>>(&mut self, end: F) -> (r: Result<
        (String, String),
        (),
    >)
        requires
            old(self).wf(),
            forall|t: &str| #[trigger] end.requires((t,)),
            forall|t: &str, k: usize| #[trigger] end.ensures((t,), Some(k)) ==> k <= t@.len(),
        ensures
            final(self).wf(),
            final(self).stream == old(self).stream,
            match r {
                Err(()) => old(self).rest().len() == 0 && *final(self) == *old(self),
                Ok((tok, sep)) => {
                    &&& final(self).cur == old(self).cur + tok@.len() + sep@.len()
                    &&& old(self).rest().take((tok@.len() + sep@.len()) as int) == tok@ + sep@
                },
            },
    {
        let (len, token, sep) = self.peek_token(end)?;
        proof {
            let s = old(self).rest();
            if len == token@.len() {
                assert(s.take(len as int) =~= token@ + sep@);
            } else {
                assert(s.take(len as int) =~= token@ + sep@);
            }
        }
        self.advance(len);
        Ok((token, sep))
    }

    /// The next whitespace-delimited word, without moving the cursor.
    pub fn peek_word(&mut self) -> (r: Result<(usize, String), ()>)
        requires
            old(self).wf(),
        ensures
            *final(self) == *old(self),
            match word_scan(old(self).rest()) {
                Some((n, w)) => r matches Ok((m, x)) && m == n && x@ == w,
                None => r is Err,
            },
    {
        let ghost s = self.rest();
        let len = self.text.len();
        let mut a = self.cur;
        while a < len && is_whitespace(self.text[a])
            invariant
                self.wf(),
                self.cur <= a <= len == self.text@.len(),
                s == self.rest(),
                skip_ws(s, 0) == skip_ws(s, a - self.cur),
            decreases len - a,
        {
            assert(s[a - self.cur] == self.text@[a as int]);
            a += 1;
        }
        if a == len {
            return Err(());
        }
        assert(s[a - self.cur] == self.text@[a as int]);
        let mut e = a;
        while e < len && !is_whitespace(self.text[e])
            invariant
                self.wf(),
                self.cur <= a <= e <= len == self.text@.len(),
                s == self.rest(),
                skip_ws(s, 0) == a - self.cur,
                skip_word(s, a - self.cur) == skip_word(s, e - self.cur),
            decreases len - e,
        {
            assert(s[e - self.cur] == self.text@[e as int]);
            e += 1;
        }
        if e < len {
            assert(s[e - self.cur] == self.text@[e as int]);
        }
        let w = string_range(&self.text, a, e);
        assert(w@ =~= s.subrange(a - self.cur, e - self.cur));
        if e < len {
            Ok((e + 1 - self.cur, w))
        } else {
            Ok((e - self.cur, w))
        }
    }

    /// Scans the next word and consumes it, with one whitespace after it.
    pub fn next_word(&mut self) -> (r: Result<String, ()>)
        requires
            old(self).wf(),
        ensures
            final(self).wf(),
            final(self).stream == old(self).stream,
            match word_scan(old(self).rest()) {
                Some((n, w)) => r matches Ok(x) && x@ == w && final(self).cur == old(self).cur + n,
                None => r is Err && *final(self) == *old(self),
            },
    {
        let (len, out) = self.peek_word()?;
        proof {
            let s = old(self).rest();
            lemma_skip_bounds(s, 0);
            lemma_skip_bounds(s, skip_ws(s, 0));
        }
        self.advance(len);
        Ok(out)
    }

    /// The next line, up to `\\n` or the end, without trailing whitespace;
    /// the cursor does not move. The length counts the `\\n`.
    pub fn peek_line(&mut self) -> (r: Result<(usize, String), ()>)
        requires
            old(self).wf(),
        ensures
            *final(self) == *old(self),
            old(self).rest().len() == 0 ==> r is Err,
            old(self).rest().len() > 0 ==> (r matches Ok((n, l)) && n == line_step(old(self).rest())
                && l@ == first_line(old(self).rest())),
    {
        let ghost s = self.rest();
        let len = self.text.len();
        if self.cur == len {
            return Err(());
        }
        assert(s =~= self.text@.subrange(self.cur as int, len as int));
        let (j, n) = match find_char(&self.text, self.cur, len, '\n') {
            Some(j) => (j, j + 1 - self.cur),
            None => (len, len - self.cur),
        };
        let b = trim_end_at(&self.text, self.cur, j);
        assert(s.take(line_len(s)) =~= self.text@.subrange(self.cur as int, j as int));
        Ok((n, string_range(&self.text, self.cur, b)))
    }

    /// Scans the next line and consumes it with its `\\n`.
    pub fn next_line(&mut self) -> (r: Result<String, ()>)
        requires
            old(self).wf(),
        ensures
            final(self).wf(),
            final(self).stream == old(self).stream,
            old(self).rest().len() == 0 ==> r is Err && *final(self) == *old(self),
            old(self).rest().len() > 0 ==> (r matches Ok(l) && l@ == first_line(old(self).rest())
                && final(self).cur == old(self).cur + line_step(old(self).rest())),
    {
        let (len, out) = self.peek_line()?;
        proof {
            lemma_find_step(old(self).rest());
        }
        self.advance(len);
        Ok(out)
    }

    /// The next character, without moving the cursor.
    pub fn peek_char(&mut self) -> (r: Result<(usize, char), ()>)
        requires
            old(self).wf(),
        ensures
            *final(self) == *old(self),
            old(self).rest().len() == 0 ==> r is Err,
            old(self).rest().len() > 0 ==> r == Ok::<(usize, char), ()>((1, old(self).rest()[0])),
    {
        if self.cur == self.text.len() {
            return Err(());
        }
        assert(self.rest()[0] == self.text@[self.cur as int]);
        Ok((1, self.text[self.cur]))
    }

    /// Scans the next character and consumes it.
    pub fn next_char(&mut self) -> (r: Result<char, ()>)
        requires
            old(self).wf(),
        ensures
            final(self).wf(),
            final(self).stream == old(self).stream,
            old(self).rest().len() == 0 ==> r is Err && *final(self) == *old(self),
            old(self).rest().len() > 0 ==> r == Ok::<char, ()>(old(self).rest()[0])
                && final(self).cur == old(self).cur + 1,
    {
        let (len, out) = self.peek_char()?;
        self.advance(len);
        Ok(out)
    }

    /// Scans an integer, an optional `-` and then decimal digits, without
    /// moving the cursor. Nothing need follow the digits.
    pub fn peek_int(&mut self) -> (r: Result<(usize, i32), ()>)
        requires
            old(self).wf(),
        ensures
            *final(self) == *old(self),
            match int_scan(old(self).rest()) {
                Some((n, v)) => r == Ok::<(usize, i32), ()>((n as usize, v as i32)),
                None => r is Err,
            },
    {
        let ghost s = self.rest();
        let len = self.text.len();
        let neg = self.cur < len && self.text[self.cur] == '-';
        if self.cur < len {
            assert(s[0] == self.text@[self.cur as int]);
        }
        let start: usize = if neg {
            self.cur + 1
        } else {
            self.cur
        };
        let ghost st = start - self.cur;
        let mut i = start;
        let mut num: i64 = 0;
        while i < len && '0' <= self.text[i] && self.text[i] <= '9' && num <= 2147483648
            invariant
                self.wf(),
                self.cur <= start <= i <= len == self.text@.len(),
                st == start - self.cur,
                s == self.rest(),
                0 <= num <= 2147483648 * 10 + 9,
                skip_digits(s, st) == skip_digits(s, i - self.cur),
                forall|j: int| st <= j < i - self.cur ==> is_digit(#[trigger] s[j]),
                num == digits_value(s.subrange(st, i - self.cur), 10),
            decreases len - i,
        {
            assert(s[i - self.cur] == self.text@[i as int]);
            let d = (self.text[i] as u32 - '0' as u32) as i64;
            assert(s.subrange(st, i - self.cur + 1).drop_last() =~= s.subrange(st, i - self.cur));
            num = num * 10 + d;
            i += 1;
        }
        let ghost e = skip_digits(s, st);
        proof {
            lemma_skip_bounds(s, st);
            if i < len && !(num <= 2147483648) {
                let ds = s.subrange(st, e);
                assert(s.subrange(st, i - self.cur) =~= ds.take(i - self.cur - st));
                lemma_digits_value_grows(ds, i - self.cur - st);
            } else if i < len {
                assert(s[i - self.cur] == self.text@[i as int]);
            }
        }
        if i == start || num > 2147483648 {
            return Err(());
        }
        let v: i64 = if neg {
            -num
        } else {
            num
        };
        if v > 2147483647 {
            return Err(());
        }
        Ok((i - self.cur, v as i32))
    }

    /// Scans an integer as `peek_int` does and consumes it.
    pub fn next_int(&mut self) -> (r: Result<i32, ()>)
        requires
            old(self).wf(),
        ensures
            final(self).wf(),
            final(self).stream == old(self).stream,
            match int_scan(old(self).rest()) {
                Some((n, v)) => r == Ok::<i32, ()>(v as i32) && final(self).cur == old(self).cur + n,
                None => r is Err && *final(self) == *old(self),
            },
    {
        let total = self.text.len();
        let (step, out) = self.peek_int()?;
        proof {
            let s = old(self).rest();
            lemma_skip_bounds(s, 0);
            if s.len() > 0 {
                lemma_skip_bounds(s, 1);
            }
        }
        self.advance(step);
        Ok(out)
    }

    /// Consumes `exp` where what is left starts with it.
    pub fn match_next(&mut self, exp: &str) -> (r: Result<(), ()>)
        requires
            old(self).wf(),
        ensures
            final(self).wf(),
            final(self).stream == old(self).stream,
            r is Ok <==> (exp@.len() <= old(self).rest().len() && old(self).rest().take(
                exp@.len() as int,
            ) == exp@),
            r is Ok ==> final(self).cur == old(self).cur + exp@.len(),
            r is Err ==> *final(self) == *old(self),
    {
        let ghost s = self.rest();
        let w = chars_of(exp);
        if w.len() > self.text.len() - self.cur {
            return Err(());
        }
        let mut i: usize = 0;
        while i < w.len()
            invariant
                self.wf(),
                s == self.rest(),
                w@ == exp@,
                w.len() <= self.text.len() - self.cur,
                0 <= i <= w.len(),
                forall|j: int| 0 <= j < i ==> s[j] == w@[j],
            decreases w.len() - i,
        {
            assert(s[i as int] == self.text@[self.cur + i]);
            if self.text[self.cur + i] != w[i] {
                assert(s.take(w.len() as int)[i as int] != w@[i as int]);
                return Err(());
            }
            i += 1;
        }
        assert(s.take(w.len() as int) =~= w@);
        self.cur = self.cur + w.len();
        Ok(())
    }
}

proof fn lemma_find_step(s: Seq<char>)
    ensures
        0 <= line_len(s) <= line_step(s) <= s.len(),
{
    crate::text::lemma_find_facts(s, '\n');
}

} // verus!
