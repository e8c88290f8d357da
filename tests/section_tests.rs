use ttm::section::{Section, SectionParseError};

fn assert_parses_as(s: &str, exp: &Section) {
    match s.parse::<Section>() {
        Ok(act) => assert_eq!(&act, exp),
        Err(e) => panic!("\nExpected \"{}\" to parse but got {:?}\n", s, e),
    }
}

fn section(tab: &str, specifier: &str, body: &str) -> Section {
    Section { tab: tab.into(), specifier: specifier.into(), body: body.into() }
}

#[test]
fn test_section_parsing() {
    assert_parses_as(
        "[Test Section]\n\
        Some Body here!\n\
        And here too!\
        "
        .trim(),
        &section("", "Test Section", "Some Body here!\n\
                   And here too!"),
    );

    assert_parses_as(
        r#"    [Habits]
    This is a tabbed entry.
    Do take note of that.
    "#,
        &section(
            "    ",
            "Habits",
            r#"    This is a tabbed entry.
    Do take note of that.
    "#,
        ),
    );
}

#[test]
fn test_parse_tabs() {
    assert_parses_as(
        "\t\t [Mixed Tabs Section]\n\t\t Testing that mixed tabs are picked on and expected in the body\n",
        &section(
            "\t\t ",
            "Mixed Tabs Section",
            "\t\t Testing that mixed tabs are picked on and expected in the body\n",
        ),
    );

    assert_parses_as(
        "\t\t [Untabbed Body]\nBody not tabbed, body does not belong to section!\n",
        &section("\t\t ", "Untabbed Body", ""),
    );
}

#[test]
fn test_parse_partial_section() {
    assert_parses_as(
        r#"[Section A]
This section describes the recipe for baking a cake.

[Section B]
This section describes the ingredients for the cake

[Section C]
this section is for personal notes."#,
        &section("", "Section A", "This section describes the recipe for baking a cake.\n\n"),
    );
}

#[test]
fn test_parse_embedded_sections() {
    assert_parses_as(
        r#"[Section A]
    This section describes the recipe for baking a cake.

    [Section A1]
    This section describes the ingredients for the cake

    [Section A2]
    this section is for personal notes."#,
        &section(
            "",
            "Section A",
            r#"    This section describes the recipe for baking a cake.

    [Section A1]
    This section describes the ingredients for the cake

    [Section A2]
    this section is for personal notes."#,
        ),
    );
}

#[test]
fn test_entry() {}

#[test]
fn test_sections_in_turn() {
    let doc = "[A]\na\n[B]\nb\n[C]\nc";
    let (n, first) = Section::parse_next(doc).unwrap();
    assert_eq!(first, section("", "A", "a\n"));
    let (m, second) = Section::parse_next(&doc[n..]).unwrap();
    assert_eq!(second, section("", "B", "b\n"));
    let (_, third) = Section::parse_next(&doc[n + m..]).unwrap();
    assert_eq!(third, section("", "C", "c"));
}

#[test]
fn test_invalid_specifier() {
    assert_eq!("no brackets\nbody".parse::<Section>(), Err(SectionParseError::InvalidSpecifier));
    assert_eq!("".parse::<Section>(), Err(SectionParseError::InvalidSpecifier));
    assert_eq!("  [open\n".parse::<Section>(), Err(SectionParseError::InvalidSpecifier));
}

#[test]
fn test_outdented_line_ends_section() {
    assert_eq!(
        "    [S]\n    in\n  out\n    later".parse::<Section>(),
        Ok(section("    ", "S", "    in\n"))
    );
}

#[test]
fn test_same_width_other_whitespace_does_not_end_section() {
    assert_eq!(
        "  [A]\n  a\n\t [B]\nb".parse::<Section>(),
        Ok(section("  ", "A", "  a\n\t [B]\n"))
    );
    assert_eq!("  [A]\n  a\n  [B]\nb".parse::<Section>(), Ok(section("  ", "A", "  a\n")));
}
