use ini_core::{trim, Item, Parser};

fn count(items: &[Item], wanted: fn(&Item) -> bool) -> usize {
    items.iter().filter(|item| wanted(item)).count()
}

fn is_section_end(item: &Item) -> bool {
    matches!(item, Item::SectionEnd)
}

fn is_section(item: &Item) -> bool {
    matches!(item, Item::Section(_))
}

const DOCUMENTS: [&str; 10] = [
    "",
    "[",
    "[[[[",
    "[a]\n[b]\n[c]",
    "k=v\n[a]\nk=v\r\n\r\n[b\n[c]\r;x\n",
    "\n\n\n",
    "[a]\n[b] \n[c]\n",
    " = \n[ x ]\r\n; c \n",
    "no terminator",
    "[]\n=\r\n = \n;\n \r= \r\n =\n=",
];

#[test]
fn section_ends_are_one_more_than_sections() {
    for document in DOCUMENTS {
        let items = Parser::new(document).collect();
        assert_eq!(count(&items, is_section_end), count(&items, is_section) + 1);
    }
    let items = Parser::new("[a]\nk=v\n[b]\n\n[c]").collect();
    assert_eq!(count(&items, is_section), 3);
    assert_eq!(count(&items, is_section_end), 4);
    let items = Parser::new("[").collect();
    assert_eq!(count(&items, is_section), 0);
    assert_eq!(count(&items, is_section_end), 1);
}

#[test]
fn line_counter_never_decreases() {
    for document in DOCUMENTS {
        let mut parser = Parser::new(document);
        loop {
            let before = parser.line();
            let item = parser.next();
            assert!(before <= parser.line() && parser.line() <= before + 1);
            if item.is_none() {
                break;
            }
        }
    }
}

#[test]
fn section_ends_never_follow_each_other() {
    for document in DOCUMENTS {
        let items = Parser::new(document).collect();
        for pair in items.windows(2) {
            assert!(!(pair[0] == Item::SectionEnd && pair[1] == Item::SectionEnd));
        }
    }
}

#[test]
fn elements_are_bounded_by_the_input() {
    for document in DOCUMENTS {
        let items = Parser::new(document).collect();
        assert!(items.len() <= 2 * document.len() + 1);
    }
}

#[test]
fn every_pull_consumes_or_closes() {
    for document in DOCUMENTS {
        let mut parser = Parser::new(document);
        loop {
            let before = parser.remainder().len();
            match parser.next() {
                Some(Item::SectionEnd) => assert_eq!(parser.remainder().len(), before),
                Some(_) => assert!(parser.remainder().len() < before),
                None => break,
            }
        }
        assert_eq!(parser.remainder(), "");
    }
}

#[test]
fn untrimmed_items_reproduce_the_document() {
    for document in DOCUMENTS {
        let mut parser = Parser::new(document);
        let mut written = String::new();
        loop {
            let before = parser.remainder();
            let item = match parser.next() {
                Some(item) => item,
                None => break,
            };
            let consumed = &before[..before.len() - parser.remainder().len()];
            let line = item.to_string();
            let line = line.strip_suffix('\n').unwrap_or(&line);
            assert!(consumed.starts_with(line));
            let terminator = &consumed[line.len()..];
            assert!(matches!(terminator, "" | "\r\n" | "\n" | "\r"));
            written.push_str(line);
            written.push_str(terminator);
        }
        assert_eq!(written, document);
    }
}

#[test]
fn trim_removes_ascii_whitespace() {
    assert_eq!(trim("  a b \t\r\n"), "a b");
    assert_eq!(trim("\x0Cx\x0C"), "x");
    assert_eq!(trim(""), "");
    assert_eq!(trim(" \t\n\r\x0C"), "");
    assert_eq!(trim("x"), "x");
    // Vertical tab and no-break space are no ASCII whitespace.
    assert_eq!(trim("\x0Bx\x0B"), "\x0Bx\x0B");
    assert_eq!(trim("\u{a0}x\u{a0}"), "\u{a0}x\u{a0}");
    assert_eq!(trim(" é "), "é");
}

#[test]
fn trim_is_idempotent() {
    for text in ["", " ", "  a  ", "\ta b\n", "x", " \u{2003} ", "\r\n[ s ]\r\n"] {
        assert_eq!(trim(trim(text)), trim(text));
    }
}

#[test]
fn trimmed_parse_returns_trimmed_texts() {
    for document in DOCUMENTS {
        for item in Parser::new(document).auto_trim(true).collect() {
            match item {
                Item::Section(text) | Item::Comment(text) | Item::Property(text, None) => {
                    assert_eq!(trim(text), text);
                }
                Item::Property(key, Some(value)) => {
                    assert_eq!(trim(key), key);
                    assert_eq!(trim(value), value);
                }
                Item::Error(_) | Item::SectionEnd | Item::Blank => {}
            }
        }
    }
}
