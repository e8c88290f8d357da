use ttm::date::{Date, DateParseError, Season, Weekday};

#[test]
fn test_basic_parsing() {
    fn assert_parsing(s: &str, act: Date) {
        let exp: Date = s.parse().unwrap();
        assert_eq!(exp, act);
    }

    assert_parsing("W8T", Date::ShortDateCode { week: 8, day: Weekday::Tue });
    assert_parsing("W333", Date::ShortWeekDateCode { week: 333 });
    assert_parsing("Y20S-W8M", Date::DateCode { year: 20, season: Season::Spring, week: 8, day: Weekday::Mon });
    assert_parsing("Y22M-W1", Date::WeekDateCode { year: 22, season: Season::Summer, week: 1 });
    assert_parsing("Y20M-WF", Date::WeekDateCode { year: 20, season: Season::Summer, week: 0xF });
    assert_parsing("Y20S-WAU", Date::DateCode { year: 20, season: Season::Spring, week: 0xA, day: Weekday::Sun });
}

#[test]
fn test_date_edges() {
    assert_eq!(Date::parse("  W2M "), Ok(Date::ShortDateCode { week: 2, day: Weekday::Mon }));
    assert_eq!(Date::parse("W1F"), Ok(Date::ShortDateCode { week: 1, day: Weekday::Fri }));
    assert_eq!(Date::parse("w0x10"), Ok(Date::ShortWeekDateCode { week: 16 }));
    assert_eq!(Date::parse("W"), Err(DateParseError::InvalidDateCode("W".to_string())));
    assert_eq!(Date::parse("Y20-W1"), Err(DateParseError::InvalidDateCode("Y20-W1".to_string())));
    assert_eq!(Date::parse("Y21W-W3U-2321"), Err(DateParseError::InvalidDateCode("Y21W-W3U-2321".to_string())));
    assert_eq!(Date::parse(""), Err(DateParseError::InvalidDateCode("".to_string())));
}

#[test]
fn test_names() {
    assert_eq!("Thursday".parse::<Weekday>(), Ok(Weekday::Thu));
    assert_eq!("R".parse::<Weekday>(), Ok(Weekday::Thu));
    assert_eq!("Sun".parse::<Weekday>(), Ok(Weekday::Sun));
    assert_eq!("Someday".parse::<Weekday>(), Err(DateParseError::InvalidWeekday("Someday".to_string())));
    assert_eq!("W".parse::<Season>(), Ok(Season::Winter));
    assert_eq!("X".parse::<Season>(), Err(DateParseError::InvalidSeason("X".to_string())));
}
