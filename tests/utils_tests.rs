use ttm::integer::parse_integer_auto;
use ttm::utils::{result_err_to_unit, CharUtils, StrUtils};

#[test]
fn common_test_contains_any() {
    assert_eq!(StrUtils("0xDeadFeed").contains_any("ABCDEFabcdef"), true);
    assert_eq!(StrUtils("456").contains_any("123"), false);
}

#[test]
fn common_test_contains_all() {
    assert_eq!(StrUtils("[ContainsBrackets]").contains_all("[]"), true);
    assert_eq!(StrUtils("[01]").contains_all("01"), true);
    assert_eq!(StrUtils("[1]").contains_all("01"), false);
}

#[test]
fn test_in_any() {
    assert_eq!(StrUtils("OK").in_any(&vec!["OK", "PASS"]), true);
    assert_eq!(StrUtils("NO").in_any(&vec!["OK", "PASS"]), false);
}

#[test]
fn test_count_char() {
    assert_eq!(StrUtils("a(b(c))").count_char(')'), 2);
    assert_eq!(StrUtils("").count_char(')'), 0);
}

#[test]
fn test_tabs() {
    assert_eq!(StrUtils(" \t \tTest").tabs(), " \t \t".to_string());
    assert_eq!(StrUtils("Test").tabs(), "");
}

#[test]
fn test_is_in() {
    assert_eq!(CharUtils('1').is_in("0-9"), true);
    assert_eq!(CharUtils('a').is_in("0-9"), false);
    assert_eq!(CharUtils('a').is_in("0-9a"), true);
    assert_eq!(CharUtils('c').is_in("abd-z"), false);
    assert_eq!(CharUtils('e').is_in("01-9abd-z"), true);
}

#[test]
fn common_test_parse_integer_auto() {
    fn run_test(s: &str, exp: i32) {
        println!("test: {}", s);
        assert_eq!(parse_integer_auto(s).unwrap(), exp);
    }

    run_test("10", 10);
    run_test("0x10", 0x10);
    run_test("-0x10", -0x10);
    run_test("-0b01010101", -0b01010101);
    run_test("0o777", 0o777);
}

#[test]
fn test_parse_integer_auto_round_trips() {
    for n in [0i32, 1, 7, 255, 1000, i32::MAX, -1, -255, -i32::MAX] {
        let m = n.unsigned_abs();
        let sign = if n < 0 { "-" } else { "" };
        assert_eq!(parse_integer_auto(&format!("{}{}", sign, m)), Ok(n));
        assert_eq!(parse_integer_auto(&format!("{}0x{:x}", sign, m)), Ok(n));
        assert_eq!(parse_integer_auto(&format!("{}0o{:o}", sign, m)), Ok(n));
        assert_eq!(parse_integer_auto(&format!("{}0b{:b}", sign, m)), Ok(n));
    }
}

#[test]
fn test_parse_integer_auto_edges() {
    assert_eq!(parse_integer_auto("ff"), Ok(255));
    assert_eq!(parse_integer_auto("1e5"), Ok(0x1e5));
    assert_eq!(parse_integer_auto("2147483648"), Err(()));
    assert_eq!(parse_integer_auto("-2147483648"), Err(()));
    assert_eq!(parse_integer_auto(""), Err(()));
    assert_eq!(parse_integer_auto("0x"), Err(()));
    assert_eq!(parse_integer_auto("12z"), Err(()));
}

#[test]
fn test_result_err_to_unit() {
    assert_eq!(result_err_to_unit::<i32, &str>(Ok(3)), Ok(3));
    assert_eq!(result_err_to_unit::<i32, &str>(Err("no")), Err(()));
}

#[test]
fn common_test_macros() {}

#[test]
fn test_parse_integer_auto_any_digits() {
    assert_eq!(parse_integer_auto("007"), Ok(7));
    assert_eq!(parse_integer_auto("-0x00FF"), Ok(-255));
    assert_eq!(parse_integer_auto("0b0011"), Ok(3));
    assert_eq!(parse_integer_auto("-0o017"), Ok(-15));
}
