use ini_core::{Item, Parser};

fn check(s: &str, expected: &[Item]) {
    let value: Vec<_> = Parser::new(s).collect();
    assert_eq!(value, expected);
}

fn check_err(s: &str, line: usize) {
    for (index, item) in Parser::new(s).collect().into_iter().enumerate() {
        if index == line {
            assert!(matches!(item, Item::Error(_)));
        }
    }
}

#[test]
fn test_eos() {
    check("\r\n[SECTION]", &[Item::Blank, Item::SectionEnd, Item::Section("SECTION"), Item::SectionEnd]);
    check("\r\n[SECTION]\n", &[Item::Blank, Item::SectionEnd, Item::Section("SECTION"), Item::SectionEnd]);
    check("\r\n;comment", &[Item::Blank, Item::Comment("comment"), Item::SectionEnd]);
    check("\r\n;comment\n", &[Item::Blank, Item::Comment("comment"), Item::SectionEnd]);
    check("\r\nKey=Value", &[Item::Blank, Item::Property("Key", Some("Value")), Item::SectionEnd]);
    check("\r\nKey=Value\n", &[Item::Blank, Item::Property("Key", Some("Value")), Item::SectionEnd]);
    check("\r\nKey=Value\r", &[Item::Blank, Item::Property("Key", Some("Value")), Item::SectionEnd]);
    check("\r\nKey=Value\r\n", &[Item::Blank, Item::Property("Key", Some("Value")), Item::SectionEnd]);
    check("\r\nAction", &[Item::Blank, Item::Property("Action", None), Item::SectionEnd]);
    check("\r\nAction\n", &[Item::Blank, Item::Property("Action", None), Item::SectionEnd]);
    check("\r\nAction\r", &[Item::Blank, Item::Property("Action", None), Item::SectionEnd]);
    check("\r\nAction\r\n", &[Item::Blank, Item::Property("Action", None), Item::SectionEnd]);
}

#[test]
fn test_empty_strings() {
    check("[]\n=\r\n = \n;\n \r= \r\n =\n=", &[
        Item::SectionEnd,
        Item::Section(""),
        Item::Property("", Some("")),
        Item::Property(" ", Some(" ")),
        Item::Comment(""),
        Item::Property(" ", None),
        Item::Property("", Some(" ")),
        Item::Property(" ", Some("")),
        Item::Property("", Some("")),
        Item::SectionEnd,
    ]);
}

#[test]
fn test_syntax_errors() {
    check_err("[foo] ", 1);
    check_err("[foo] \r", 1);
    check_err("[foo] \n", 1);
    check_err("[foo", 1);
    check_err("[foo\r", 1);
    check_err("[foo\n", 1);
    check_err("[", 1);
    check_err("[\r", 1);
    check_err("[\n", 1);
    check_err("[foo]\n[", 3);
}

#[test]
fn test_blank_lines() {
    check("\n\r\n\r", &[Item::Blank, Item::Blank, Item::Blank, Item::SectionEnd]);
    check("\r\r\n\r", &[Item::Blank, Item::Blank, Item::Blank, Item::SectionEnd]);
    check("\r\r\r\n", &[Item::Blank, Item::Blank, Item::Blank, Item::SectionEnd]);
}

#[test]
fn test_terminates() {
    // Ensure syntax errors advance the internal parser state
    check("[\n[] \r\n", &[
        Item::SectionEnd,
        Item::Error("["),
        Item::Error("[] "),
    ]);
    let mut parser = Parser::new("[");
    while let Some(_) = parser.next() {}
    let mut parser = Parser::new("[] ");
    while let Some(_) = parser.next() {}
}

#[test]
fn syntax_errors_are_where_expected() {
    for s in ["[foo] ", "[foo] \r", "[foo] \n", "[foo", "[foo\r", "[foo\n", "[", "[\r", "[\n"] {
        let items = Parser::new(s).collect();
        assert_eq!(items.len(), 2);
        assert_eq!(items[0], Item::SectionEnd);
        assert!(matches!(items[1], Item::Error(_)));
    }
    let items = Parser::new("[foo]\n[").collect();
    assert_eq!(items.len(), 4);
    assert_eq!(items[3], Item::Error("["));
}

#[test]
fn error_holds_the_raw_line() {
    check("[foo] \r\nx", &[
        Item::SectionEnd,
        Item::Error("[foo] "),
        Item::Property("x", None),
    ]);
    // The raw line is not trimmed either.
    let items = Parser::new("[ foo \t\n").auto_trim(true).collect();
    assert_eq!(items, [Item::SectionEnd, Item::Error("[ foo \t")]);
}

#[test]
fn section_comment_property() {
    check("[SECTION]\n;c\nK=V", &[
        Item::SectionEnd,
        Item::Section("SECTION"),
        Item::Comment("c"),
        Item::Property("K", Some("V")),
        Item::SectionEnd,
    ]);
}

#[test]
fn documented_example() {
    check("[SECTION]\n;this is a comment\nKey=Value", &[
        Item::SectionEnd,
        Item::Section("SECTION"),
        Item::Comment("this is a comment"),
        Item::Property("Key", Some("Value")),
        Item::SectionEnd,
    ]);
}

#[test]
fn malformed_header_then_nonsense() {
    check("[SECTION\nnonsense", &[
        Item::SectionEnd,
        Item::Error("[SECTION"),
        Item::Property("nonsense", None),
    ]);
}

#[test]
fn empty_document() {
    let mut parser = Parser::new("");
    assert_eq!(parser.next(), Some(Item::SectionEnd));
    assert_eq!(parser.next(), None);
    assert_eq!(parser.next(), None);
    assert_eq!(parser.line(), 0);
    assert_eq!(parser.remainder(), "");
}

#[test]
fn header_at_the_end() {
    check("[foo]\n[", &[
        Item::SectionEnd,
        Item::Section("foo"),
        Item::SectionEnd,
        Item::Error("["),
    ]);
}

#[test]
fn malformed_header_opens_no_section() {
    check("[bad\nk=v\n[good]\n[worse\n", &[
        Item::SectionEnd,
        Item::Error("[bad"),
        Item::Property("k", Some("v")),
        Item::Section("good"),
        Item::SectionEnd,
        Item::Error("[worse"),
    ]);
    let mut parser = Parser::new("[");
    assert_eq!(parser.next(), Some(Item::SectionEnd));
    assert_eq!(parser.next(), Some(Item::Error("[")));
    assert_eq!(parser.next(), None);
    assert_eq!(parser.next(), None);
}

#[test]
fn untrimmed_properties() {
    check("=\n = ", &[
        Item::Property("", Some("")),
        Item::Property(" ", Some(" ")),
        Item::SectionEnd,
    ]);
}

#[test]
fn padding_is_kept_by_default() {
    check("[ SECTION ]\nKEY = VALUE\n; comment", &[
        Item::SectionEnd,
        Item::Section(" SECTION "),
        Item::Property("KEY ", Some(" VALUE")),
        Item::Comment(" comment"),
        Item::SectionEnd,
    ]);
}

#[test]
fn auto_trim_strips_every_text() {
    let items = Parser::new("[ SECTION ]\n KEY\t=  VALUE \r\n;  comment \n  Action  \n").auto_trim(true).collect();
    assert_eq!(items, [
        Item::SectionEnd,
        Item::Section("SECTION"),
        Item::Property("KEY", Some("VALUE")),
        Item::Comment("comment"),
        Item::Property("Action", None),
        Item::SectionEnd,
    ]);
}

#[test]
fn whitespace_line_is_blank_when_trimmed() {
    let items = Parser::new(" \t \nK\n").auto_trim(true).collect();
    assert_eq!(items, [Item::Blank, Item::Property("K", None), Item::SectionEnd]);
    // Without trimming the same line is a key.
    check(" \t \nK\n", &[
        Item::Property(" \t ", None),
        Item::Property("K", None),
        Item::SectionEnd,
    ]);
}

#[test]
fn trimmed_empty_key_with_value_stays_a_property() {
    let items = Parser::new("  = v ").auto_trim(true).collect();
    assert_eq!(items, [Item::Property("", Some("v")), Item::SectionEnd]);
}

#[test]
fn custom_comment_char() {
    let items = Parser::new("#c\n;k=v\n").comment_char(b'#').collect();
    assert_eq!(items, [
        Item::Comment("c"),
        Item::Property(";k", Some("v")),
        Item::SectionEnd,
    ]);
}

#[test]
fn comment_char_is_masked_to_seven_bits() {
    // 0xA3 & 0x7f is b'#'
    let items = Parser::new("#c\n").comment_char(0xA3).collect();
    assert_eq!(items, [Item::Comment("c"), Item::SectionEnd]);
}

#[test]
fn comment_char_wins_over_header_and_separator() {
    let items = Parser::new("[x]\n").comment_char(b'[').collect();
    assert_eq!(items, [Item::Comment("x]"), Item::SectionEnd]);
    let items = Parser::new("=x\n").comment_char(b'=').collect();
    assert_eq!(items, [Item::Comment("x"), Item::SectionEnd]);
}

#[test]
fn newline_as_comment_char_is_still_a_blank_line() {
    let items = Parser::new("\nk\n").comment_char(b'\n').collect();
    assert_eq!(items, [Item::Blank, Item::Property("k", None), Item::SectionEnd]);
}

#[test]
fn value_may_hold_separators_and_brackets() {
    check("a=b=c\nk=[v]\n", &[
        Item::Property("a", Some("b=c")),
        Item::Property("k", Some("[v]")),
        Item::SectionEnd,
    ]);
}

#[test]
fn section_name_may_hold_brackets() {
    check("[a]b]\n[[]]", &[
        Item::SectionEnd,
        Item::Section("a]b"),
        Item::SectionEnd,
        Item::Section("[]"),
        Item::SectionEnd,
    ]);
}

#[test]
fn line_counts_consumed_lines() {
    let mut parser = Parser::new("a=1\r\n\n[s]\rlast");
    assert_eq!(parser.line(), 0);
    assert_eq!(parser.next(), Some(Item::Property("a", Some("1"))));
    assert_eq!(parser.line(), 1);
    assert_eq!(parser.next(), Some(Item::Blank));
    assert_eq!(parser.line(), 2);
    // Closing the open section consumes nothing.
    assert_eq!(parser.next(), Some(Item::SectionEnd));
    assert_eq!(parser.line(), 2);
    assert_eq!(parser.next(), Some(Item::Section("s")));
    assert_eq!(parser.line(), 3);
    // The last line has no terminator and is not counted.
    assert_eq!(parser.next(), Some(Item::Property("last", None)));
    assert_eq!(parser.line(), 3);
    assert_eq!(parser.next(), Some(Item::SectionEnd));
    assert_eq!(parser.next(), None);
    assert_eq!(parser.line(), 3);
}

#[test]
fn remainder_shrinks_line_by_line() {
    let mut parser = Parser::new("a=1\r\n[s]\nrest");
    assert_eq!(parser.remainder(), "a=1\r\n[s]\nrest");
    parser.next();
    assert_eq!(parser.remainder(), "[s]\nrest");
    assert_eq!(parser.next(), Some(Item::SectionEnd));
    assert_eq!(parser.remainder(), "[s]\nrest");
    parser.next();
    assert_eq!(parser.remainder(), "rest");
    parser.next();
    assert_eq!(parser.remainder(), "");
}

#[test]
fn exhausted_parser_stays_exhausted() {
    let mut parser = Parser::new("k=v");
    while let Some(_) = parser.next() {}
    for _ in 0..5 {
        assert_eq!(parser.next(), None);
    }
}

#[test]
fn clone_parses_the_same_rest() {
    let mut parser = Parser::new("a\nb\nc").auto_trim(true).comment_char(b'#');
    parser.next();
    let copy = parser.clone();
    assert_eq!(copy.line(), parser.line());
    assert_eq!(copy.remainder(), parser.remainder());
    assert_eq!(copy.collect(), parser.collect());
}

#[test]
fn texts_that_are_not_ascii() {
    check("[секция]\r\nключ=значение\n;注释\nñ", &[
        Item::SectionEnd,
        Item::Section("секция"),
        Item::Property("ключ", Some("значение")),
        Item::Comment("注释"),
        Item::Property("ñ", None),
        Item::SectionEnd,
    ]);
    let items = Parser::new(" é = ü \n").auto_trim(true).collect();
    assert_eq!(items, [Item::Property("é", Some("ü")), Item::SectionEnd]);
}

#[test]
fn only_open_brackets_terminate() {
    let document = "[".repeat(10_000);
    let items = Parser::new(&document).collect();
    assert_eq!(items, [Item::SectionEnd, Item::Error(&document)]);
    let lines = "[\n".repeat(1_000);
    let items = Parser::new(&lines).collect();
    assert_eq!(items.len(), 1_000 + 1);
    assert_eq!(items[0], Item::SectionEnd);
    assert!(items[1..].iter().all(|item| *item == Item::Error("[")));
}

#[test]
fn items_are_written_as_lines() {
    assert_eq!(Item::Error("[oops").to_string(), "[oops\n");
    assert_eq!(Item::Section("name").to_string(), "[name]\n");
    assert_eq!(Item::SectionEnd.to_string(), "");
    assert_eq!(Item::Property("k", Some("v")).to_string(), "k=v\n");
    assert_eq!(Item::Property("k", None).to_string(), "k\n");
    assert_eq!(Item::Comment(" c").to_string(), "; c\n");
    assert_eq!(Item::Blank.to_string(), "\n");
}
