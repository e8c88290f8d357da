//! Calendar week codes: `W8T`, `W333`, `Y20S-W8M`, `Y20M-WF`.

use vstd::prelude::*;
use crate::integer::{auto_int, is_hex_letter, lemma_auto_int_nonneg, parse_integer_auto};
use crate::stat::{lemma_token_int_nonneg, token_int, token_int_in};
use crate::text::{chars_of, find, find_char, range_eq, string_of, string_range, trim, trim_range};

verus! {

#[derive(Debug, PartialEq, Eq, Clone, Copy, Structural)]
pub enum Season {
    Summer,
    Fall,
    Winter,
    Spring,
}

#[derive(Debug, PartialEq, Eq, Clone, Copy, Structural)]
pub enum Weekday {
    Mon,
    Tue,
    Wed,
    Thu,
    Fri,
    Sat,
    Sun,
}

/// A week, optionally with a day, optionally within a year and season.
#[derive(Debug, PartialEq, Eq, Clone, Copy, Structural)]
pub enum Date {
    DateCode { year: u32, season: Season, week: u32, day: Weekday },
    WeekDateCode { year: u32, season: Season, week: u32 },
    ShortDateCode { week: u32, day: Weekday },
    ShortWeekDateCode { week: u32 },
}

/// Why a season, a weekday or a date code did not parse; each carries the text.
#[derive(Debug, PartialEq, Clone)]
pub enum DateParseError {
    InvalidSeason(String),
    InvalidWeekday(String),
    InvalidDateCode(String),
}

/// A date error as plain values.
pub enum DateFault {
    InvalidSeason(Seq<char>),
    InvalidWeekday(Seq<char>),
    InvalidDateCode(Seq<char>),
}

impl View for DateParseError {
    type V = DateFault;

    open spec fn view(&self) -> DateFault {
        match self {
            DateParseError::InvalidSeason(t) => DateFault::InvalidSeason(t@),
            DateParseError::InvalidWeekday(t) => DateFault::InvalidWeekday(t@),
            DateParseError::InvalidDateCode(t) => DateFault::InvalidDateCode(t@),
        }
    }
}

/// The season that a one-letter code names: `M`, `F`, `W`, `S`.
pub open spec fn season_code(c: char) -> Option<Season> {
    if c == 'M' {
        Some(Season::Summer)
    } else if c == 'F' {
        Some(Season::Fall)
    } else if c == 'W' {
        Some(Season::Winter)
    } else if c == 'S' {
        Some(Season::Spring)
    } else {
        None
    }
}

/// The weekday that a one-letter code names: `M`, `T`, `W`, `R`, `F`, `S`, `U`.
pub open spec fn day_code(c: char) -> Option<Weekday> {
    if c == 'M' {
        Some(Weekday::Mon)
    } else if c == 'T' {
        Some(Weekday::Tue)
    } else if c == 'W' {
        Some(Weekday::Wed)
    } else if c == 'R' {
        Some(Weekday::Thu)
    } else if c == 'F' {
        Some(Weekday::Fri)
    } else if c == 'S' {
        Some(Weekday::Sat)
    } else if c == 'U' {
        Some(Weekday::Sun)
    } else {
        None
    }
}

/// A week number: an integer token, or one hex letter `A-F` (10 to 15).
pub open spec fn week_of(t: Seq<char>) -> Option<int> {
    if t.len() == 1 && is_hex_letter(t[0]) {
        auto_int(t)
    } else {
        token_int(t)
    }
}

/// The text after `W`: a week, then optionally a weekday code; the form
/// with the weekday is tried first.
pub open spec fn short_date_of(b: Seq<char>) -> Option<Date> {
    if b.len() > 0 && day_code(b.last()) is Some && week_of(b.drop_last()) is Some {
        Some(
            Date::ShortDateCode {
                week: week_of(b.drop_last()).unwrap() as u32,
                day: day_code(b.last()).unwrap(),
            },
        )
    } else if week_of(b) is Some {
        Some(Date::ShortWeekDateCode { week: week_of(b).unwrap() as u32 })
    } else {
        None
    }
}

pub open spec fn is_w(c: char) -> bool {
    c == 'W' || c == 'w'
}

pub open spec fn is_y(c: char) -> bool {
    c == 'Y' || c == 'y'
}

/// A code of the long form, `Y<year><season>-W<week>[<weekday>]`.
pub open spec fn year_date_of(u: Seq<char>) -> Option<Date> {
    match find(u, '-') {
        None => None,
        Some(k) => {
            let left = u.subrange(1, k);
            let right = u.skip(k + 1);
            if left.len() > 0 && season_code(left.last()) is Some && token_int(left.drop_last()) is Some
                && right.len() > 0 && is_w(right[0]) {
                let year = token_int(left.drop_last()).unwrap() as u32;
                let season = season_code(left.last()).unwrap();
                match short_date_of(right.skip(1)) {
                    Some(Date::ShortDateCode { week, day }) => Some(
                        Date::DateCode { year, season, week, day },
                    ),
                    Some(Date::ShortWeekDateCode { week }) => Some(
                        Date::WeekDateCode { year, season, week },
                    ),
                    _ => None,
                }
            } else {
                None
            }
        },
    }
}

/// The date code that `u` writes, as it stands.
pub open spec fn code_of(u: Seq<char>) -> Option<Date> {
    if u.len() == 0 {
        None
    } else if is_w(u[0]) {
        short_date_of(u.skip(1))
    } else if is_y(u[0]) {
        year_date_of(u)
    } else {
        None
    }
}

/// The date code that `s` writes, once trimmed. `Y` and `W` may be of
/// either case; season and weekday codes are upper case.
pub open spec fn date_of(s: Seq<char>) -> Option<Date> {
    code_of(trim(s))
}

fn season_code_of(c: char) -> (r: Option<Season>)
    ensures
        r == season_code(c),
{
    match c {
        'M' => Some(Season::Summer),
        'F' => Some(Season::Fall),
        'W' => Some(Season::Winter),
        'S' => Some(Season::Spring),
        _ => None,
    }
}

fn day_code_of(c: char) -> (r: Option<Weekday>)
    ensures
        r == day_code(c),
{
    match c {
        'M' => Some(Weekday::Mon),
        'T' => Some(Weekday::Tue),
        'W' => Some(Weekday::Wed),
        'R' => Some(Weekday::Thu),
        'F' => Some(Weekday::Fri),
        'S' => Some(Weekday::Sat),
        'U' => Some(Weekday::Sun),
        _ => None,
    }
}

fn week_in(v: &Vec<char>, lo: usize, hi: usize) -> (r: Option<u32>)
    requires
        lo <= hi <= v.len(),
    ensures
        match week_of(v@.subrange(lo as int, hi as int)) {
            Some(x) => r == Some(x as u32),
            None => r is None,
        },
{
    let ghost t = v@.subrange(lo as int, hi as int);
    if hi - lo == 1 && (('A' <= v[lo] && v[lo] <= 'F') || ('a' <= v[lo] && v[lo] <= 'f')) {
        assert(t[0] == v@[lo as int]);
        proof {
            lemma_auto_int_nonneg(t);
        }
        match parse_integer_auto(string_range(v, lo, hi).as_str()) {
            Ok(x) => Some(x as u32),
            Err(_) => None,
        }
    } else {
        proof {
            if t.len() == 1 {
                assert(t[0] == v@[lo as int]);
            }
            lemma_token_int_nonneg(t);
        }
        match token_int_in(v, lo, hi) {
            Some(x) => Some(x as u32),
            None => None,
        }
    }
}

fn short_date_in(v: &Vec<char>, lo: usize, hi: usize) -> (r: Option<Date>)
    requires
        lo <= hi <= v.len(),
    ensures
        r == short_date_of(v@.subrange(lo as int, hi as int)),
{
    let ghost b = v@.subrange(lo as int, hi as int);
    if hi > lo {
        assert(b.last() == v@[hi - 1]);
        assert(b.drop_last() =~= v@.subrange(lo as int, hi - 1));
        if let Some(day) = day_code_of(v[hi - 1]) {
            if let Some(week) = week_in(v, lo, hi - 1) {
                return Some(Date::ShortDateCode { week, day });
            }
        }
    }
    match week_in(v, lo, hi) {
        Some(week) => Some(Date::ShortWeekDateCode { week }),
        None => None,
    }
}

fn year_date_in(v: &Vec<char>, a: usize, b: usize) -> (r: Option<Date>)
    requires
        a < b <= v.len(),
        is_y(v@[a as int]),
    ensures
        r == year_date_of(v@.subrange(a as int, b as int)),
{
    let ghost u = v@.subrange(a as int, b as int);
    let k = match find_char(v, a, b, '-') {
        Some(k) => k,
        None => {
            return None;
        },
    };
    assert(u[0] == v@[a as int]);
    let ghost left = u.subrange(1, k - a);
    let ghost right = u.skip(k - a + 1);
    if k == a + 1 || k + 1 == b {
        return None;
    }
    assert(left =~= v@.subrange(a + 1, k as int));
    assert(right =~= v@.subrange(k + 1, b as int));
    assert(left.last() == v@[k - 1]);
    assert(left.drop_last() =~= v@.subrange(a + 1, k - 1));
    assert(right[0] == v@[k + 1]);
    assert(right.skip(1) =~= v@.subrange(k + 2, b as int));
    let season = match season_code_of(v[k - 1]) {
        Some(x) => x,
        None => {
            return None;
        },
    };
    proof {
        lemma_token_int_nonneg(left.drop_last());
    }
    let year = match token_int_in(v, a + 1, k - 1) {
        Some(x) => x as u32,
        None => {
            return None;
        },
    };
    if !(v[k + 1] == 'W' || v[k + 1] == 'w') {
        return None;
    }
    match short_date_in(v, k + 2, b) {
        Some(Date::ShortDateCode { week, day }) => Some(Date::DateCode { year, season, week, day }),
        Some(Date::ShortWeekDateCode { week }) => Some(Date::WeekDateCode { year, season, week }),
        _ => None,
    }
}

fn date_in(v: &Vec<char>, lo: usize, hi: usize) -> (r: Option<Date>)
    requires
        lo <= hi <= v.len(),
    ensures
        r == date_of(v@.subrange(lo as int, hi as int)),
{
    let (a, b) = trim_range(v, lo, hi);
    let ghost u = v@.subrange(a as int, b as int);
    if a == b {
        return None;
    }
    assert(u[0] == v@[a as int]);
    if v[a] == 'W' || v[a] == 'w' {
        assert(u.skip(1) =~= v@.subrange(a + 1, b as int));
        return short_date_in(v, a + 1, b);
    }
    if !(v[a] == 'Y' || v[a] == 'y') {
        return None;
    }
    year_date_in(v, a, b)
}

/// Whether `r` is what parsing `s` as a date code gives.
pub open spec fn date_result(s: Seq<char>, r: Result<Date, DateParseError>) -> bool {
    match date_of(s) {
        Some(d) => r == Ok::<Date, DateParseError>(d),
        None => r matches Err(DateParseError::InvalidDateCode(t)) && t@ == s,
    }
}

impl Date {
    /// Parses a date code, trimmed first; the most specific form that
    /// matches wins.
    pub fn parse(s: &str) -> (r: Result<Date, DateParseError>)
        ensures
            date_result(s@, r),
    {
        let v = chars_of(s);
        assert(v@.subrange(0, v.len() as int) =~= v@);
        match date_in(&v, 0, v.len()) {
            Some(d) => Ok(d),
            None => Err(DateParseError::InvalidDateCode(string_of(v))),
        }
    }
}

/// The weekday that `t` names: one letter, three letters or in full.
pub open spec fn weekday_name(t: Seq<char>) -> Option<Weekday> {
    if t == "M"@ || t == "Mon"@ || t == "Monday"@ {
        Some(Weekday::Mon)
    } else if t == "T"@ || t == "Tue"@ || t == "Tuesday"@ {
        Some(Weekday::Tue)
    } else if t == "W"@ || t == "Wed"@ || t == "Wednesday"@ {
        Some(Weekday::Wed)
    } else if t == "R"@ || t == "Thu"@ || t == "Thursday"@ {
        Some(Weekday::Thu)
    } else if t == "F"@ || t == "Fri"@ || t == "Friday"@ {
        Some(Weekday::Fri)
    } else if t == "S"@ || t == "Sat"@ || t == "Saturday"@ {
        Some(Weekday::Sat)
    } else if t == "U"@ || t == "Sun"@ || t == "Sunday"@ {
        Some(Weekday::Sun)
    } else {
        None
    }
}

/// The season that `t` names: `M`, `F`, `W` or `S`.
pub open spec fn season_name(t: Seq<char>) -> Option<Season> {
    if t == "M"@ {
        Some(Season::Summer)
    } else if t == "F"@ {
        Some(Season::Fall)
    } else if t == "W"@ {
        Some(Season::Winter)
    } else if t == "S"@ {
        Some(Season::Spring)
    } else {
        None
    }
}

fn is_one_of(v: &Vec<char>, a: &str, b: &str, c: &str) -> (r: bool)
    ensures
        r == (v@ == a@ || v@ == b@ || v@ == c@),
{
    let n = v.len();
    assert(v@.subrange(0, n as int) =~= v@);
    range_eq(v, 0, n, a) || range_eq(v, 0, n, b) || range_eq(v, 0, n, c)
}

impl Season {
    pub fn parse(s: &str) -> (r: Result<Season, DateParseError>)
        ensures
            match season_name(s@) {
                Some(x) => r == Ok::<Season, DateParseError>(x),
                None => r matches Err(DateParseError::InvalidSeason(t)) && t@ == s@,
            },
    {
        let v = chars_of(s);
        if is_one_of(&v, "M", "M", "M") {
            Ok(Season::Summer)
        } else if is_one_of(&v, "F", "F", "F") {
            Ok(Season::Fall)
        } else if is_one_of(&v, "W", "W", "W") {
            Ok(Season::Winter)
        } else if is_one_of(&v, "S", "S", "S") {
            Ok(Season::Spring)
        } else {
            Err(DateParseError::InvalidSeason(string_of(v)))
        }
    }
}

impl std::str::FromStr for Season {
    type Err = DateParseError;

    fn from_str(s: &str) -> (r: Result<Season, DateParseError>)
        ensures
            match season_name(s@) {
                Some(x) => r == Ok::<Season, DateParseError>(x),
                None => r matches Err(DateParseError::InvalidSeason(t)) && t@ == s@,
            },
    {
        Season::parse(s)
    }
}

impl Weekday {
    pub fn parse(s: &str) -> (r: Result<Weekday, DateParseError>)
        ensures
            match weekday_name(s@) {
                Some(x) => r == Ok::<Weekday, DateParseError>(x),
                None => r matches Err(DateParseError::InvalidWeekday(t)) && t@ == s@,
            },
    {
        let v = chars_of(s);
        if is_one_of(&v, "M", "Mon", "Monday") {
            Ok(Weekday::Mon)
        } else if is_one_of(&v, "T", "Tue", "Tuesday") {
            Ok(Weekday::Tue)
        } else if is_one_of(&v, "W", "Wed", "Wednesday") {
            Ok(Weekday::Wed)
        } else if is_one_of(&v, "R", "Thu", "Thursday") {
            Ok(Weekday::Thu)
        } else if is_one_of(&v, "F", "Fri", "Friday") {
            Ok(Weekday::Fri)
        } else if is_one_of(&v, "S", "Sat", "Saturday") {
            Ok(Weekday::Sat)
        } else if is_one_of(&v, "U", "Sun", "Sunday") {
            Ok(Weekday::Sun)
        } else {
            Err(DateParseError::InvalidWeekday(string_of(v)))
        }
    }
}

impl std::str::FromStr for Weekday {
    type Err = DateParseError;

    fn from_str(s: &str) -> (r: Result<Weekday, DateParseError>)
        ensures
            match weekday_name(s@) {
                Some(x) => r == Ok::<Weekday, DateParseError>(x),
                None => r matches Err(DateParseError::InvalidWeekday(t)) && t@ == s@,
            },
    {
        Weekday::parse(s)
    }
}

impl std::str::FromStr for Date {
    type Err = DateParseError;

    fn from_str(s: &str) -> (r: Result<Date, DateParseError>)
        ensures
            date_result(s@, r),
    {
        Date::parse(s)
    }
}

} // verus!
