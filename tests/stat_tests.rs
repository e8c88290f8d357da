use ttm::stat::{Stat, StatParseError};

fn assert_parses(stat_format: &str, exp_stat: &Stat) {
    println!("test format: {}", stat_format);
    assert_eq!(stat_format.parse::<Stat>().unwrap(), *exp_stat);
}

fn assert_fails(invalid_stat_format: &str) {
    println!("test format: {}", invalid_stat_format);
    assert!(invalid_stat_format.parse::<Stat>().is_err());
}

fn integer_token_is_functional() -> bool {
    regex::Regex::new(r"((?x) 0x[a-fA-F0-9]+ | 0o[0-7]+ | 0b[0-1]+ | \d+)")
        .unwrap()
        .captures("0")
        .is_some()
}

#[test]
fn ttm_io_test_stat_parse() {
    assert!(integer_token_is_functional(), "invalid INTEGER token");

    assert_parses("0/5", &Stat::Count { act: Some(0), exp: Some(5) });
    assert_parses("2/020", &Stat::Count { act: Some(2), exp: Some(20) });
    assert_parses("/0xFF", &Stat::Count { act: None, exp: Some(0xFF) });
    assert_parses("0x0/0b0", &Stat::Count { act: Some(0), exp: Some(0) });
    assert_parses("5 /  5", &Stat::Count { act: Some(5), exp: Some(5) });
    assert_parses("3", &Stat::Count { act: Some(3), exp: None });
    assert_parses("999", &Stat::Count { act: Some(999), exp: None });

    assert_parses("/-", &Stat::Bool { act: false, exp: false });
    assert_parses("-", &Stat::Bool { act: false, exp: true });
    assert_parses("/!", &Stat::Bool { act: false, exp: true });
    assert_parses("!/-", &Stat::Bool { act: true, exp: false });
    assert_parses("!", &Stat::Bool { act: true, exp: true });

    assert_parses("0/-", &Stat::RequiredCount { act: 0, exp: false });
    assert_parses("1/!", &Stat::RequiredCount { act: 1, exp: true });

    assert_parses("?", &Stat::Unknown);

    assert_fails("Should obviously fail!");

    assert_fails(" 0/5");
    assert_fails("0     ");

    assert_fails("/");
    assert_fails(",999");
    assert_fails("(999)");
    assert_fails("999 // beep boop");
}

#[test]
fn stat_test_stat_parse() {
    assert!(integer_token_is_functional(), "invalid INTEGER token");

    assert_parses("0/5", &Stat::Count { act: Some(0), exp: Some(5) });
    assert_parses("2/020", &Stat::Count { act: Some(2), exp: Some(20) });
    assert_parses("/0xFF", &Stat::Count { act: None, exp: Some(0xFF) });
    assert_parses("0x0/0b0", &Stat::Count { act: Some(0), exp: Some(0) });
    assert_parses("5 /  5", &Stat::Count { act: Some(5), exp: Some(5) });
    assert_parses("5 /5", &Stat::Count { act: Some(5), exp: Some(5) });
    assert_parses("3", &Stat::Count { act: Some(3), exp: None });
    assert_parses("999", &Stat::Count { act: Some(999), exp: None });

    assert_parses("/-", &Stat::Bool { act: false, exp: false });
    assert_parses("-", &Stat::Bool { act: false, exp: true });
    assert_parses("/!", &Stat::Bool { act: false, exp: true });
    assert_parses("!/-", &Stat::Bool { act: true, exp: false });
    assert_parses("!", &Stat::Bool { act: true, exp: true });

    assert_parses("0/-", &Stat::RequiredCount { act: 0, exp: false });
    assert_parses("1/!", &Stat::RequiredCount { act: 1, exp: true });

    assert_parses("?", &Stat::Unknown);

    assert_fails("Should obviously fail!");

    assert_fails(" 0/5");
    assert_fails("0     ");

    assert_fails("/");
    assert_fails(",999");
    assert_fails("(999)");
    assert_fails("999 // beep boop");
}

#[test]
fn test_stat_error_carries_text() {
    assert_eq!(Stat::parse("1/x"), Err(StatParseError::NoStatVariant("1/x".to_string())));
    assert_eq!(Stat::parse("-5"), Err(StatParseError::NoStatVariant("-5".to_string())));
    assert_eq!(Stat::parse("99999999999"), Err(StatParseError::NoStatVariant("99999999999".to_string())));
    assert_eq!(Stat::parse("1F"), Err(StatParseError::NoStatVariant("1F".to_string())));
}

#[test]
fn test_stat_constructors() {
    assert_eq!(Stat::from_count(Some(1), None), Stat::Count { act: Some(1), exp: None });
    assert_eq!(Stat::from_bool(true, false), Stat::Bool { act: true, exp: false });
}
