//! Progress counters: `2/5`, `/0xFF`, `!/-`, `0/!`, `?` and the like.

use vstd::prelude::*;
use crate::integer::{all_digits, auto_int, digit_value, has_prefix, lemma_auto_int_nonneg, parse_integer_auto};
use crate::text::{chars_of, string_of, find, find_char, string_range, trim_end, trim_end_at, trim_range, trim_start};

verus! {

/// A progress counter.
#[derive(Debug, PartialEq, Eq, Clone, Copy, Structural)]
pub enum Stat {
    /// `act` done out of `exp` expected (`2/5`); either side may be absent.
    Count { act: Option<i32>, exp: Option<i32> },
    /// Done or not (`!`, `-`), and required or not; `act` defaults to not
    /// done and `exp` to required.
    Bool { act: bool, exp: bool },
    /// A count with only a requirement flag as its objective (`5/-`).
    RequiredCount { act: i32, exp: bool },
    /// Status not yet known (`?`).
    Unknown,
}

/// Why a progress counter did not parse.
#[derive(Debug, PartialEq, Clone)]
pub enum StatParseError {
    /// No form of counter matches the text, which is carried.
    NoStatVariant(String),
}

impl View for StatParseError {
    type V = Seq<char>;

    open spec fn view(&self) -> Seq<char> {
        match self {
            StatParseError::NoStatVariant(t) => t@,
        }
    }
}

impl Stat {
    pub fn from_count(act: Option<i32>, exp: Option<i32>) -> (r: Self)
        ensures
            r == (Stat::Count { act, exp }),
    {
        Stat::Count { act, exp }
    }

    pub fn from_bool(act: bool, exp: bool) -> (r: Self)
        ensures
            r == (Stat::Bool { act, exp }),
    {
        Stat::Bool { act, exp }
    }
}

impl Stat {
    /// Parses a progress counter. The whole text must be one counter form:
    /// whitespace around it is refused.
    pub fn parse(s: &str) -> (r: Result<Stat, StatParseError>)
        ensures
            stat_result(s@, r),
    {
        let v = chars_of(s);
        assert(v@.subrange(0, v.len() as int) =~= v@);
        match stat_in(&v, 0, v.len()) {
            Some(st) => Ok(st),
            None => Err(StatParseError::NoStatVariant(string_of(v))),
        }
    }
}

impl std::str::FromStr for Stat {
    type Err = StatParseError;

    fn from_str(s: &str) -> (r: Result<Stat, StatParseError>)
        ensures
            stat_result(s@, r),
    {
        Stat::parse(s)
    }
}

/// Integer tokens hold no `-`, so their values are never negative.
pub proof fn lemma_token_int_nonneg(t: Seq<char>)
    ensures
        token_int(t) matches Some(x) ==> 0 <= x <= i32::MAX,
{
    if is_int_token(t) {
        assert forall|i: int| 0 <= i < t.len() implies t[i] != '-' by {
            if i >= 2 && (has_prefix(t, '0', 'x') || has_prefix(t, '0', 'o') || has_prefix(
                t,
                '0',
                'b',
            )) && t.len() > 2 && !all_digits(t, 10) {
                assert(t[i] == t.skip(2)[i - 2]);
            }
        }
        lemma_auto_int_nonneg(t);
    }
}

/// An integer as a counter writes it: decimal digits, or `0x`, `0o`, `0b`
/// followed by digits of that radix. No sign.
pub open spec fn is_int_token(t: Seq<char>) -> bool {
    ||| (has_prefix(t, '0', 'x') && t.len() > 2 && all_digits(t.skip(2), 16))
    ||| (has_prefix(t, '0', 'o') && t.len() > 2 && all_digits(t.skip(2), 8))
    ||| (has_prefix(t, '0', 'b') && t.len() > 2 && all_digits(t.skip(2), 2))
    ||| (t.len() > 0 && all_digits(t, 10))
}

/// The value of an integer token, where it fits in an `i32`.
pub open spec fn token_int(t: Seq<char>) -> Option<int> {
    if is_int_token(t) {
        auto_int(t)
    } else {
        None
    }
}

/// `!` is true (done, required), `-` is false.
pub open spec fn token_flag(t: Seq<char>) -> Option<bool> {
    if t == seq!['!'] {
        Some(true)
    } else if t == seq!['-'] {
        Some(false)
    } else {
        None
    }
}

/// The counter that `s` denotes. Forms are tried in order: count, flag pair,
/// required count, unknown. Around `/` whitespace may stand; nowhere else.
pub open spec fn stat_of(s: Seq<char>) -> Option<Stat> {
    match find(s, '/') {
        None => {
            if let Some(a) = token_int(s) {
                Some(Stat::Count { act: Some(a as i32), exp: None })
            } else if let Some(a) = token_flag(s) {
                Some(Stat::Bool { act: a, exp: true })
            } else if s == seq!['?'] {
                Some(Stat::Unknown)
            } else {
                None
            }
        },
        Some(i) => {
            let left = s.take(i);
            let l = trim_end(left);
            let r = trim_start(s.skip(i + 1));
            if left.len() == 0 {
                if let Some(e) = token_int(r) {
                    Some(Stat::Count { act: None, exp: Some(e as i32) })
                } else if let Some(e) = token_flag(r) {
                    Some(Stat::Bool { act: false, exp: e })
                } else {
                    None
                }
            } else if token_int(l) is Some && token_int(r) is Some {
                Some(
                    Stat::Count {
                        act: Some(token_int(l).unwrap() as i32),
                        exp: Some(token_int(r).unwrap() as i32),
                    },
                )
            } else if token_flag(l) is Some && token_flag(r) is Some {
                Some(Stat::Bool { act: token_flag(l).unwrap(), exp: token_flag(r).unwrap() })
            } else if token_int(l) is Some && token_flag(r) is Some {
                Some(
                    Stat::RequiredCount {
                        act: token_int(l).unwrap() as i32,
                        exp: token_flag(r).unwrap(),
                    },
                )
            } else {
                None
            }
        },
    }
}

/// Whether `r` is what parsing `s` as a counter gives.
pub open spec fn stat_result(s: Seq<char>, r: Result<Stat, StatParseError>) -> bool {
    match stat_of(s) {
        Some(st) => r == Ok::<Stat, StatParseError>(st),
        None => r matches Err(StatParseError::NoStatVariant(t)) && t@ == s,
    }
}

pub fn digit_val(c: char) -> (r: u32)
    ensures
        r == digit_value(c),
{
    if '0' <= c && c <= '9' {
        (c as u32) - ('0' as u32)
    } else if 'a' <= c && c <= 'z' {
        (c as u32) - ('a' as u32) + 10
    } else if 'A' <= c && c <= 'Z' {
        (c as u32) - ('A' as u32) + 10
    } else {
        36
    }
}

fn all_digits_in(v: &Vec<char>, lo: usize, hi: usize, radix: u32) -> (r: bool)
    requires
        lo <= hi <= v.len(),
    ensures
        r == all_digits(v@.subrange(lo as int, hi as int), radix as int),
{
    let mut i = lo;
    while i < hi
        invariant
            lo <= i <= hi <= v.len(),
            forall|j: int| lo <= j < i ==> digit_value(#[trigger] v@[j]) < radix,
        decreases hi - i,
    {
        if digit_val(v[i]) >= radix {
            assert(v@.subrange(lo as int, hi as int)[i - lo] == v@[i as int]);
            return false;
        }
        i += 1;
    }
    assert forall|j: int| 0 <= j < hi - lo implies digit_value(
        #[trigger] v@.subrange(lo as int, hi as int)[j],
    ) < radix by {
        assert(v@.subrange(lo as int, hi as int)[j] == v@[lo + j]);
    }
    true
}

/// The value of the integer token `v[lo..hi]`.
pub fn token_int_in(v: &Vec<char>, lo: usize, hi: usize) -> (r: Option<i32>)
    requires
        lo <= hi <= v.len(),
    ensures
        match token_int(v@.subrange(lo as int, hi as int)) {
            Some(x) => r == Some(x as i32),
            None => r is None,
        },
{
    let ghost t = v@.subrange(lo as int, hi as int);
    let prefixed = hi - lo > 2 && v[lo] == '0' && (v[lo + 1] == 'x' || v[lo + 1] == 'o' || v[
        lo + 1
    ] == 'b');
    let ok = if prefixed {
        let radix: u32 = if v[lo + 1] == 'x' {
            16
        } else if v[lo + 1] == 'o' {
            8
        } else {
            2
        };
        assert(t.skip(2) =~= v@.subrange(lo + 2, hi as int));
        all_digits_in(v, lo + 2, hi, radix)
    } else {
        hi > lo && all_digits_in(v, lo, hi, 10)
    };
    proof {
        if hi - lo >= 2 {
            assert(t[0] == v@[lo as int] && t[1] == v@[lo + 1]);
        }
        if !prefixed && hi - lo > 0 && (has_prefix(t, '0', 'x') || has_prefix(t, '0', 'o')
            || has_prefix(t, '0', 'b')) {
            assert(digit_value(t[1]) >= 10);
        }
    }
    if !ok {
        return None;
    }
    let text = string_range(v, lo, hi);
    match parse_integer_auto(text.as_str()) {
        Ok(x) => Some(x),
        Err(_) => None,
    }
}

/// The flag that `v[lo..hi]` writes, `!` or `-`.
pub fn token_flag_in(v: &Vec<char>, lo: usize, hi: usize) -> (r: Option<bool>)
    requires
        lo <= hi <= v.len(),
    ensures
        r == token_flag(v@.subrange(lo as int, hi as int)),
{
    let ghost t = v@.subrange(lo as int, hi as int);
    assert(seq!['!'][0] == '!' && seq!['-'][0] == '-' && seq!['!'].len() == 1 && seq!['-'].len() == 1);
    if hi - lo != 1 {
        assert(t.len() != 1);
        assert(t != seq!['!'] && t != seq!['-']);
        return None;
    }
    assert(t =~= seq![v@[lo as int]]);
    if v[lo] == '!' {
        assert(t =~= seq!['!']);
        Some(true)
    } else if v[lo] == '-' {
        assert(t =~= seq!['-']);
        Some(false)
    } else {
        assert(t[0] != '!' && t[0] != '-');
        None
    }
}

/// Parses the counter `v[lo..hi]`; `None` where no form matches.
pub fn stat_in(v: &Vec<char>, lo: usize, hi: usize) -> (r: Option<Stat>)
    requires
        lo <= hi <= v.len(),
    ensures
        r == stat_of(v@.subrange(lo as int, hi as int)),
{
    let ghost s = v@.subrange(lo as int, hi as int);
    assert(seq!['?'][0] == '?' && seq!['?'].len() == 1);
    match find_char(v, lo, hi, '/') {
        None => {
            if let Some(a) = token_int_in(v, lo, hi) {
                Some(Stat::Count { act: Some(a), exp: None })
            } else if let Some(a) = token_flag_in(v, lo, hi) {
                Some(Stat::Bool { act: a, exp: true })
            } else if hi - lo == 1 && v[lo] == '?' {
                assert(s =~= seq!['?']);
                Some(Stat::Unknown)
            } else {
                assert(s != seq!['?']) by {
                    if s.len() == 1 {
                        assert(s[0] == v@[lo as int]);
                    }
                }
                None
            }
        },
        Some(i) => {
            let lb = trim_end_at(v, lo, i);
            let (ra, _rb) = trim_range(v, i + 1, hi);
            assert(s.take(i - lo) =~= v@.subrange(lo as int, i as int));
            assert(s.skip(i - lo + 1) =~= v@.subrange(i + 1, hi as int));
            let ghost k = i - lo;
            assert(find(s, '/') == Some(k));
            assert(s.take(k) == v@.subrange(lo as int, i as int));
            assert(trim_end(s.take(k)) == v@.subrange(lo as int, lb as int));
            assert(trim_start(s.skip(k + 1)) == v@.subrange(ra as int, hi as int));
            let ri = token_int_in(v, ra, hi);
            let rf = token_flag_in(v, ra, hi);
            if i == lo {
                if let Some(e) = ri {
                    Some(Stat::Count { act: None, exp: Some(e) })
                } else if let Some(e) = rf {
                    Some(Stat::Bool { act: false, exp: e })
                } else {
                    None
                }
            } else {
                let li = token_int_in(v, lo, lb);
                let lf = token_flag_in(v, lo, lb);
                if li.is_some() && ri.is_some() {
                    Some(Stat::Count { act: li, exp: ri })
                } else if lf.is_some() && rf.is_some() {
                    Some(Stat::Bool { act: lf.unwrap(), exp: rf.unwrap() })
                } else if li.is_some() && rf.is_some() {
                    Some(Stat::RequiredCount { act: li.unwrap(), exp: rf.unwrap() })
                } else {
                    None
                }
            }
        },
    }
}

} // verus!
