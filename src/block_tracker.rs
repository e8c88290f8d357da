//! Block tracker entries: seven day counters and a name, separated by
//! whitespace, as in `?  !  !  !  !  /- 4/4 PROJECT`.

use vstd::prelude::*;
use crate::scanner::{lemma_skip_bounds, skip_ws, word_scan, StrScanner};
use crate::stat::{stat_in, stat_of, Stat};
use crate::text::chars_of;

verus! {

#[derive(Debug, Clone, Copy, PartialEq, Eq, Structural)]
pub enum WeekDay {
    M,
    T,
    W,
    R,
    F,
    S,
    U,
}

/// The position of a day in the week, Monday first.
pub open spec fn day_index(d: WeekDay) -> int {
    match d {
        WeekDay::M => 0,
        WeekDay::T => 1,
        WeekDay::W => 2,
        WeekDay::R => 3,
        WeekDay::F => 4,
        WeekDay::S => 5,
        WeekDay::U => 6,
    }
}

/// A row of a block tracker.
#[derive(Debug, PartialEq, Clone)]
pub struct BlockTrackerEntry {
    pub entry_name: String,
    pub week_stats: [Stat; 7],
}

#[derive(Debug, PartialEq, Clone)]
pub enum BlockTrackerEntryParseError {
    /// The counter at this position did not parse.
    StatParseError(usize),
    TooManyEntryTokens,
    TooFewEntryTokens,
}

/// The whitespace-separated words of `s`.
pub open spec fn words_of(s: Seq<char>) -> Seq<Seq<char>>
    decreases s.len(),
{
    match word_scan(s) {
        Some((n, w)) => if 0 < n <= s.len() {
            seq![w] + words_of(s.skip(n))
        } else {
            seq![w]
        },
        None => Seq::empty(),
    }
}

/// The tokens of an entry: its words, or one empty token where it has none.
pub open spec fn entry_tokens(s: Seq<char>) -> Seq<Seq<char>> {
    if words_of(s).len() == 0 {
        seq![Seq::empty()]
    } else {
        words_of(s)
    }
}

/// The first of the counter tokens (the first seven) that does not parse.
pub open spec fn first_bad_stat(t: Seq<Seq<char>>, i: int) -> Option<int>
    decreases 7 - i,
{
    if i < 0 || i >= 7 || i >= t.len() {
        None
    } else if stat_of(t[i]) is None {
        Some(i)
    } else {
        first_bad_stat(t, i + 1)
    }
}

proof fn lemma_word_scan(s: Seq<char>)
    ensures
        word_scan(s) matches Some((n, w)) ==> 0 < n <= s.len(),
{
    lemma_skip_bounds(s, 0);
    if skip_ws(s, 0) < s.len() {
        lemma_skip_bounds(s, skip_ws(s, 0));
    }
}

/// Whether `r` is what parsing `s` as an entry gives: the first counter
/// that does not parse is reported; then too many or too few tokens.
pub open spec fn entry_result(
    s: Seq<char>,
    r: Result<BlockTrackerEntry, BlockTrackerEntryParseError>,
) -> bool {
    let t = entry_tokens(s);
    match first_bad_stat(t, 0) {
        Some(i) => r == Err::<BlockTrackerEntry, BlockTrackerEntryParseError>(
            BlockTrackerEntryParseError::StatParseError(i as usize),
        ),
        None => if t.len() > 8 {
            r == Err::<BlockTrackerEntry, BlockTrackerEntryParseError>(
                BlockTrackerEntryParseError::TooManyEntryTokens,
            )
        } else if t.len() < 8 {
            r == Err::<BlockTrackerEntry, BlockTrackerEntryParseError>(
                BlockTrackerEntryParseError::TooFewEntryTokens,
            )
        } else {
            r matches Ok(e) && e.entry_name@ == t[7] && forall|i: int|
                0 <= i < 7 ==> Some(#[trigger] e.week_stats[i]) == stat_of(t[i])
        },
    }
}

impl BlockTrackerEntry {
    /// The counter of `day`.
    pub fn index(&self, day: WeekDay) -> (r: &Stat)
        ensures
            *r == self.week_stats[day_index(day)],
    {
        match day {
            WeekDay::M => &self.week_stats[0],
            WeekDay::T => &self.week_stats[1],
            WeekDay::W => &self.week_stats[2],
            WeekDay::R => &self.week_stats[3],
            WeekDay::F => &self.week_stats[4],
            WeekDay::S => &self.week_stats[5],
            WeekDay::U => &self.week_stats[6],
        }
    }

    /// Parses seven counters and a name. The first counter that does not
    /// parse is reported; then too many or too few tokens.
    pub fn parse(s: &str) -> (r: Result<BlockTrackerEntry, BlockTrackerEntryParseError>)
        ensures
            entry_result(s@, r),
    {
        let mut scan = StrScanner::create(s);
        let mut words: Vec<String> = Vec::new();
        let ghost whole = s@;
        assert(scan.rest() =~= whole);
        loop
            invariant
                scan.wf(),
                scan.stream == s,
                whole == s@,
                forall|i: int| 0 <= i < words@.len() ==> (#[trigger] words@[i])@ == words_of(whole)[i],
                words@.len() + words_of(scan.rest()).len() == words_of(whole).len(),
                forall|i: int|
                    0 <= i < words_of(scan.rest()).len() ==> #[trigger] words_of(scan.rest())[i]
                        == words_of(whole)[words@.len() + i],
            ensures
                words@.len() == words_of(whole).len(),
                forall|i: int| 0 <= i < words@.len() ==> (#[trigger] words@[i])@ == words_of(whole)[i],
            decreases scan.rest().len(),
        {
            let ghost rest = scan.rest();
            proof {
                lemma_word_scan(rest);
            }
            match scan.next_word() {
                Ok(w) => {
                    let ghost n = scan.cur - (scan.cur - (w@.len() as int));
                    assert(scan.rest() =~= rest.skip(word_scan(rest).unwrap().0));
                    assert forall|i: int| 0 <= i < words_of(scan.rest()).len() implies #[trigger] words_of(
                        scan.rest(),
                    )[i] == words_of(whole)[words@.len() + 1 + i] by {
                        assert(words_of(rest)[i + 1] == words_of(scan.rest())[i]);
                    }
                    assert(words_of(rest)[0] == w@);
                    words.push(w);
                },
                Err(()) => {
                    break;
                },
            }
        }
        let ghost t = entry_tokens(whole);
        let mut stats: [Stat; 7] = [Stat::Unknown; 7];
        let mut i: usize = 0;
        let count = if words.len() == 0 {
            1
        } else {
            words.len()
        };
        while i < 7 && i < count
            invariant
                0 <= i <= 7,
                count == t.len(),
                words@.len() == words_of(whole).len(),
                forall|k: int| 0 <= k < words@.len() ==> (#[trigger] words@[k])@ == words_of(whole)[k],
                t == entry_tokens(whole),
                whole == s@,
                first_bad_stat(t, 0) == first_bad_stat(t, i as int),
                forall|k: int| 0 <= k < i ==> Some(#[trigger] stats[k]) == stat_of(t[k]),
            decreases 7 - i,
        {
            let tv = if words.len() == 0 {
                assert(t[0] =~= Seq::<char>::empty());
                Vec::new()
            } else {
                chars_of(words[i].as_str())
            };
            assert(tv@ == t[i as int]);
            assert(tv@.subrange(0, tv.len() as int) =~= tv@);
            match stat_in(&tv, 0, tv.len()) {
                Some(st) => {
                    stats[i] = st;
                },
                None => {
                    assert(first_bad_stat(t, i as int) == Some(i as int));
                    assert(first_bad_stat(t, 0) == Some(i as int));
                    return Err(BlockTrackerEntryParseError::StatParseError(i));
                },
            }
            i += 1;
        }
        assert(first_bad_stat(t, i as int) is None);
        if count > 8 {
            return Err(BlockTrackerEntryParseError::TooManyEntryTokens);
        }
        if count < 8 {
            return Err(BlockTrackerEntryParseError::TooFewEntryTokens);
        }
        let entry_name = words[7].clone();
        Ok(BlockTrackerEntry { entry_name, week_stats: stats })
    }
}

impl std::str::FromStr for BlockTrackerEntry {
    type Err = BlockTrackerEntryParseError;

    fn from_str(s: &str) -> (r: Result<BlockTrackerEntry, BlockTrackerEntryParseError>)
        ensures
            entry_result(s@, r),
    {
        BlockTrackerEntry::parse(s)
    }
}

} // verus!
