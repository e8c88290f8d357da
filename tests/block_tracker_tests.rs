use ttm::block_tracker::{BlockTrackerEntry, BlockTrackerEntryParseError, WeekDay};
use ttm::stat::Stat;

#[test]
fn test_block_tracker_entry_parse() {
    fn assert_parses(s: &str, exp: BlockTrackerEntry) {
        println!("test {}", s);
        let res = s.parse::<BlockTrackerEntry>().expect("failed to parse:");
        assert_eq!(res, exp);
    }

    assert_parses(
        "0  0  0  0  0  0  0   PROJECT",
        BlockTrackerEntry { entry_name: "PROJECT".to_string(), week_stats: [Stat::Count { act: Some(0), exp: None }; 7] },
    );
    assert_parses(
        "?  ?  ?  ?  ?  ?  ?   PROJECT",
        BlockTrackerEntry { entry_name: "PROJECT".to_string(), week_stats: [Stat::Unknown; 7] },
    );
    assert_parses(
        "-  -  -  -  -  -  -   PR0JECT",
        BlockTrackerEntry { entry_name: "PR0JECT".to_string(), week_stats: [Stat::Bool { act: false, exp: true }; 7] },
    );

    let bool_stat = Stat::Bool { act: true, exp: true };
    assert_parses(
        "?  !  !  !  !  /- 4/4 PR0JECT",
        BlockTrackerEntry {
            entry_name: "PR0JECT".to_string(),
            week_stats: [
                Stat::Unknown,
                bool_stat,
                bool_stat,
                bool_stat,
                bool_stat,
                Stat::Bool { act: false, exp: false },
                Stat::Count { act: Some(4), exp: Some(4) },
            ],
        },
    );
}

#[test]
fn test_block_tracker_errors() {
    assert_eq!("".parse::<BlockTrackerEntry>(), Err(BlockTrackerEntryParseError::StatParseError(0)));
    assert_eq!("0 0 x 0 0 0 0 P".parse::<BlockTrackerEntry>(), Err(BlockTrackerEntryParseError::StatParseError(2)));
    assert_eq!("0 0 0 0 0 0 0".parse::<BlockTrackerEntry>(), Err(BlockTrackerEntryParseError::TooFewEntryTokens));
    assert_eq!("0 0 0 0 0 0 0 P Q".parse::<BlockTrackerEntry>(), Err(BlockTrackerEntryParseError::TooManyEntryTokens));
}

#[test]
fn test_block_tracker_index() {
    let e = "? ! - 1 2 3 4 P".parse::<BlockTrackerEntry>().unwrap();
    assert_eq!(*e.index(WeekDay::M), Stat::Unknown);
    assert_eq!(*e.index(WeekDay::U), Stat::Count { act: Some(4), exp: None });
}
