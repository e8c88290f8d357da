use ttm::date::{Date, DateParseError, Weekday};
use ttm::stat::{Stat, StatParseError};
use ttm::task::{
    parse_stat_tuple, parse_tuple_arguments, StatTupleError, Task, TaskFlag, TaskFlags,
    TaskParseError,
};

fn assert_parses_as(s: &str, exp: &Task) {
    match s.parse::<Task>() {
        Ok(act) => assert_eq!(&act, exp),
        Err(e) => panic!("\nExpected \"{}\" to parse but got {:?}\n", s, e),
    }
}

fn parse_error(s: &str) -> TaskParseError {
    s.parse::<Task>().unwrap_err()
}

#[test]
fn test_parse_no_suffix_tasks() {
    assert_parses_as(
        "() no suffix Task 0",
        &Task::from_name_and_stats("no suffix Task 0", (None, None, None)),
    );
    assert_parses_as(
        "(0) no suffix Task 1",
        &Task::from_name_and_stats("no suffix Task 1", (Some(Stat::from_count(Some(0), None)), None, None)),
    );
    assert_parses_as(
        "(0,1) no suffix Task 2",
        &Task::from_name_and_stats(
            "no suffix Task 2",
            (Some(Stat::from_count(Some(0), None)), Some(Stat::from_count(Some(1), None)), None),
        ),
    );
    assert_parses_as(
        "(0,1,2) no suffix Task 3",
        &Task::from_name_and_stats(
            "no suffix Task 3",
            (
                Some(Stat::from_count(Some(0), None)),
                Some(Stat::from_count(Some(1), None)),
                Some(Stat::from_count(Some(2), None)),
            ),
        ),
    );
    assert!(matches!(parse_error("(0,1,2,3) no suffix Task 4"), TaskParseError::InvalidPrefixDescriptor(_)));
    assert_parses_as(
        "(-,-,-) no suffix Task 5",
        &Task::from_name_and_stats(
            "no suffix Task 5",
            (
                Some(Stat::from_bool(false, true)),
                Some(Stat::from_bool(false, true)),
                Some(Stat::from_bool(false, true)),
            ),
        ),
    );
    assert!(matches!(parse_error("(-,-,-,-) no suffix Task 6"), TaskParseError::InvalidPrefixDescriptor(_)));
}

#[test]
fn test_parse_task_flags() {
    assert_parses_as(
        ">B(2/15) Current Blocked Task",
        Task::from_name_and_stats("Current Blocked Task", (Some(Stat::from_count(Some(2), Some(15))), None, None))
            .build_flags(TaskFlags::of(TaskFlag::Current).union(TaskFlags::of(TaskFlag::Blocked))),
    );
    assert_parses_as(
        "~(,,11/12) Complete!",
        Task::from_name_and_stats("Complete!", (None, None, Some(Stat::from_count(Some(11), Some(12)))))
            .build_flags(TaskFlags::of(TaskFlag::Done)),
    );
    assert_parses_as(
        "~~LL() Very Complete... Very Late!",
        Task::from_name_and_stats("Very Complete... Very Late!", (None, None, None))
            .build_flags(TaskFlags::of(TaskFlag::Done).union(TaskFlags::of(TaskFlag::Late))),
    );
}

#[test]
fn task_test_parse_general() {
    assert_parses_as(
        ">(2/15) My Exercise Task! (*P[My note!]; gPushups: 0/10; due: W2M; gPlancks: -,0,0;)",
        Task::from_name_and_stats("My Exercise Task!", (Some(Stat::from_count(Some(2), Some(15))), None, None))
            .build_flags(TaskFlags::of(TaskFlag::Current))
            .build_note_link("P[My note!]")
            .build_other_stat("Pushups", [Some(Stat::from_count(Some(0), Some(10))), None, None])
            .build_due_date("W2M".parse().unwrap())
            .build_other_stat(
                "Plancks",
                [
                    Some(Stat::from_bool(false, true)),
                    Some(Stat::from_count(Some(0), None)),
                    Some(Stat::from_count(Some(0), None)),
                ],
            ),
    );
}

#[test]
fn test_general_fields() {
    let t = ">(2/15) My Exercise Task! (*P[My note!]; gPushups: 0/10; due: W2M)".parse::<Task>().unwrap();
    assert_eq!(t.note_link, "P[My note!]");
    assert_eq!(t.other_stats, vec![("Pushups".to_string(), [Some(Stat::Count { act: Some(0), exp: Some(10) }), None, None])]);
    assert_eq!(t.due_date, Some(Date::ShortDateCode { week: 2, day: Weekday::Mon }));
    assert_eq!(t.priority, 99);
}

#[test]
fn test_suffix_deadlines_and_priority() {
    let t = "~~LL() Late (due: Y21W-W3U; hard: Y21W-W4T; prior: 5)".parse::<Task>().unwrap();
    assert_eq!(t.name, "Late");
    assert_eq!(t.due_date, "Y21W-W3U".parse::<Date>().ok());
    assert_eq!(t.hard_date, "Y21W-W4T".parse::<Date>().ok());
    assert_eq!(t.priority, 5);
    let mut exp = Task::from_name("Late");
    exp.build_flags(TaskFlags::of(TaskFlag::Done).union(TaskFlags::of(TaskFlag::Late)))
        .build_due_date("Y21W-W3U".parse().unwrap())
        .build_hard_date("Y21W-W4T".parse().unwrap())
        .build_priority(5);
    assert_eq!(t, exp.build());
}

#[test]
fn test_task_errors() {
    assert_eq!(parse_error("no descriptors"), TaskParseError::NoTaskDescriptorsFound);
    assert_eq!(parse_error("() name (unclosed"), TaskParseError::InvalidSuffixDescriptor);
    assert_eq!(parse_error("X() name"), TaskParseError::InvalidTaskFlags("X".to_string()));
    assert_eq!(parse_error(")( name"), TaskParseError::InvalidSuffixDescriptor);
    assert_eq!(
        parse_error("(1,2,3,4) name"),
        TaskParseError::InvalidPrefixDescriptor(Some(StatTupleError::TooManyStats))
    );
    assert_eq!(
        parse_error("(x) name"),
        TaskParseError::InvalidPrefixDescriptor(Some(StatTupleError::InvalidStat(StatParseError::NoStatVariant("x".to_string()))))
    );
    assert_eq!(parse_error("() name (prior: 100)"), TaskParseError::InvalidPriorityValue);
    assert_eq!(parse_error("() name (prior: soon)"), TaskParseError::InvalidPriorityValue);
    assert_eq!(
        parse_error("() name (due: tomorrow)"),
        TaskParseError::InvalidDueDate(DateParseError::InvalidDateCode(" tomorrow".to_string()))
    );
    assert_eq!(
        parse_error("() name (hard: never)"),
        TaskParseError::InvalidHardDate(DateParseError::InvalidDateCode(" never".to_string()))
    );
    assert_eq!(
        parse_error("() name (gRun: 1,2,3,4)"),
        TaskParseError::InvalidGoalStats(StatTupleError::TooManyStats)
    );
    assert_eq!(
        parse_error("() name (rept: W)"),
        TaskParseError::UnsupportedDescriptorKey { key: "rept".to_string(), field: "rept: W".to_string() }
    );
}

#[test]
fn test_flags() {
    assert_eq!("".parse::<TaskFlags>(), Ok(TaskFlags::empty()));
    let f = " >~ ".parse::<TaskFlags>().unwrap();
    assert!(f.contains(TaskFlag::Current) && f.contains(TaskFlag::Done));
    assert!(!f.contains(TaskFlag::Late) && !f.contains(TaskFlag::Blocked));
    let mut g = TaskFlags::empty();
    g.insert(TaskFlag::Late);
    assert!(g.contains(TaskFlag::Late));
}

#[test]
fn test_goal_replaced() {
    let t = "() g (gA: 1; gA: 2)".parse::<Task>().unwrap();
    assert_eq!(t.other_stats, vec![("A".to_string(), [Some(Stat::Count { act: Some(2), exp: None }), None, None])]);
}

#[test]
fn test_fn_parse_stat_pair() {
    assert_eq!(
        parse_stat_tuple("0/0").unwrap(),
        [Some(Stat::Count { act: Some(0), exp: Some(0) }), None, None]
    );
    assert_eq!(
        parse_stat_tuple("0,0").unwrap(),
        [Some(Stat::Count { act: Some(0), exp: None }), Some(Stat::Count { act: Some(0), exp: None }), None]
    );
    assert_eq!(
        parse_stat_tuple("1 /2 , 333/111").unwrap(),
        [Some(Stat::Count { act: Some(1), exp: Some(2) }), Some(Stat::Count { act: Some(333), exp: Some(111) }), None]
    );
}

#[test]
fn test_fn_parse_tuple_arguments() {
    assert_eq!(
        parse_tuple_arguments("(A; B; C)"),
        Ok(vec!["A".to_string(), "B".to_string(), "C".to_string()])
    );
    assert_eq!(
        parse_tuple_arguments("(A;;C)"),
        Ok(vec!["A".to_string(), "".to_string(), "C".to_string()])
    );
    assert_eq!(
        parse_tuple_arguments("(;;C)"),
        Ok(vec!["".to_string(), "".to_string(), "C".to_string()])
    );
    assert_eq!(
        parse_tuple_arguments("(ABCabc012!@#; Key: Val)"),
        Ok(vec!["ABCabc012!@#".to_string(), "Key: Val".to_string()])
    );
    assert_eq!(parse_tuple_arguments("(A)"), Ok(vec!["A".to_string()]));
    assert_eq!(parse_tuple_arguments("()"), Ok(vec!["".to_string()]));
    assert_eq!(parse_tuple_arguments("(;)"), Ok(vec!["".to_string(), "".to_string()]));
}

#[test]
fn test_tuple_arguments_unbalanced() {
    assert!(parse_tuple_arguments("A; B)").is_err());
    assert!(parse_tuple_arguments("(A; B").is_err());
    assert!(parse_tuple_arguments("(A); B)").is_err());
}

#[test]
fn test_fourth_slot_refused_even_empty() {
    assert_eq!(parse_stat_tuple("0,1,2,"), Err(StatTupleError::TooManyStats));
    assert_eq!(parse_stat_tuple(",,,"), Err(StatTupleError::TooManyStats));
    assert_eq!(parse_stat_tuple(",,"), Ok([None, None, None]));
    assert_eq!(parse_stat_tuple(""), Ok([None, None, None]));
    assert_eq!(
        parse_error("(0,1,2,) x"),
        TaskParseError::InvalidPrefixDescriptor(Some(StatTupleError::TooManyStats))
    );
}
