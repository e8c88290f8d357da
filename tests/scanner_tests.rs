use ttm::scanner::StrScanner;
use ttm::section::Section;

#[test]
fn test_next_int() {
    assert_eq!(StrScanner::create("10").next_int(), Ok(10));
    assert_eq!(StrScanner::create("00").next_int(), Ok(0));
    assert_eq!(StrScanner::create("-999").next_int(), Ok(-999));
    assert_eq!(StrScanner::create("not a valid int!").next_int(), Err(()));
    assert_eq!(StrScanner::create("100pancakes!").next_int(), Ok(100));

    let mut scanner = StrScanner::create("192.168.1.1");
    assert_eq!(scanner.next_int(), Ok(192));
    assert_eq!(scanner.next_char(), Ok('.'));
    assert_eq!(scanner.next_int(), Ok(168));
    assert_eq!(scanner.next_char(), Ok('.'));
    assert_eq!(scanner.next_int(), Ok(1));
    assert_eq!(scanner.next_char(), Ok('.'));
    assert_eq!(scanner.next_int(), Ok(1));
    assert_eq!(scanner.next_int(), Err(()));
}

#[test]
fn test_next_int_edges() {
    let mut scanner = StrScanner::create("-x");
    assert_eq!(scanner.next_int(), Err(()));
    assert_eq!(scanner.cur, 0);
    assert_eq!(StrScanner::create("-2147483648").next_int(), Ok(i32::MIN));
    assert_eq!(StrScanner::create("2147483648").next_int(), Err(()));
    assert_eq!(StrScanner::create("99999999999999999999").next_int(), Err(()));
}

#[test]
fn test_next_word() {
    let mut scanner = StrScanner::create("I love cereal!");
    assert_eq!(scanner.next_word(), Ok("I".into()));
    assert_eq!(scanner.next_word(), Ok("love".into()));
    assert_eq!(scanner.next_word(), Ok("cereal!".into()));
    assert_eq!(scanner.next_word(), Err(()));

    let mut scanner = StrScanner::create("   Trim   your spaces!   ");
    assert_eq!(scanner.next_word(), Ok("Trim".into()));
    assert_eq!(scanner.next_word(), Ok("your".into()));
    assert_eq!(scanner.next_word(), Ok("spaces!".into()));
    assert_eq!(scanner.next_word(), Err(()));
}

#[test]
fn test_next_token() {
    let mut scanner = StrScanner::create("Comma, Separated, Values!, 999");
    let is_sep = |s: &str| if s.starts_with(',') { Some(1) } else { None };
    assert_eq!(scanner.next_token(is_sep), Ok(("Comma".into(), ",".into())));
    assert_eq!(scanner.next_token(is_sep), Ok((" Separated".into(), ",".into())));
    assert_eq!(scanner.next_token(is_sep), Ok((" Values!".into(), ",".into())));
    assert_eq!(&scanner.stream[scanner.cur..], " 999");
    assert_eq!(scanner.next_token(is_sep), Ok((" 999".into(), "".into())));
    assert_eq!(scanner.next_token(is_sep), Err(()));
}

#[test]
fn test_next_line() {
    let mut scanner = StrScanner::create("
            Roses are red.\r
            Violets are blue!
            I thought...    
            I could be with you!");

    assert_eq!(scanner.next_line(), Ok("".into()));
    assert_eq!(scanner.next_line(), Ok("            Roses are red.".into()));
    assert_eq!(scanner.next_line(), Ok("            Violets are blue!".into()));
    assert_eq!(scanner.next_line(), Ok("            I thought...".into()));
    assert_eq!(scanner.next_line(), Ok("            I could be with you!".into()));
    assert_eq!(scanner.next_line(), Err(()));
}

#[test]
fn test_match_rewind_peek() {
    let mut scanner = StrScanner::create("let x");
    assert_eq!(scanner.match_next("lex"), Err(()));
    assert_eq!(scanner.cur, 0);
    assert_eq!(scanner.match_next("let"), Ok(()));
    assert_eq!(scanner.cur, 3);
    assert_eq!(scanner.peek_char(), Ok((1, ' ')));
    assert_eq!(scanner.peek_word(), Ok((2, "x".to_string())));
    assert_eq!(scanner.cur, 3);
    scanner.rewind(3);
    assert_eq!(scanner.peek_line(), Ok((5, "let x".to_string())));
    scanner.advance(5);
    assert_eq!(scanner.next_char(), Err(()));
}

#[test]
fn test_next_section() {
    let mut scanner = StrScanner::create("[A]\na\n[B]\nb");
    let a: Section = scanner.next().unwrap();
    assert_eq!(a.specifier, "A");
    let b: Section = scanner.next().unwrap();
    assert_eq!(b.body, "b");
    assert!(scanner.next::<Section>().is_err());
}

#[test]
fn test_next_moves_by_scanned_length() {
    let mut scanner = StrScanner::create("x\n[A]\na");
    assert_eq!(scanner.next_line(), Ok("x".to_string()));
    let before = scanner.cur;
    let a: Section = scanner.next().unwrap();
    assert_eq!(a.body, "a");
    assert_eq!(scanner.cur, before + 5);
}
