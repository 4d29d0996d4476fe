use ini_core::import::sections;
use ini_core::{Item, Parser};

#[test]
fn document_is_grouped_by_section() {
    let items = Parser::new("a=1\n;c\n[s]\nb=2\nc=3\n\n[t]\n").collect();
    let groups = sections(&items).unwrap();
    assert_eq!(groups.len(), 3);
    assert_eq!(groups[0].name, None);
    assert_eq!(groups[0].properties, [("a", "1")]);
    assert_eq!(groups[1].name, Some("s"));
    assert_eq!(groups[1].properties, [("b", "2"), ("c", "3")]);
    assert_eq!(groups[2].name, Some("t"));
    assert!(groups[2].properties.is_empty());
}

#[test]
fn document_without_headers_is_one_group() {
    let groups = sections(&Parser::new("").collect()).unwrap();
    assert_eq!(groups.len(), 1);
    assert_eq!(groups[0].name, None);
    assert!(groups[0].properties.is_empty());
    let groups = sections(&Parser::new("k=v").collect()).unwrap();
    assert_eq!(groups.len(), 1);
    assert_eq!(groups[0].properties, [("k", "v")]);
}

#[test]
fn groups_are_one_more_than_sections() {
    let items = Parser::new("[a]\n[b]\n[c]\n").collect();
    let headers = items.iter().filter(|item| matches!(item, Item::Section(_))).count();
    assert_eq!(sections(&items).unwrap().len(), headers + 1);
}

#[test]
fn malformed_header_is_a_fault() {
    let items = Parser::new("k=v\n[oops\nx=y").collect();
    // Property, SectionEnd, Error
    assert_eq!(sections(&items).unwrap_err(), 2);
}

#[test]
fn key_without_value_is_a_fault() {
    let items = Parser::new("[s]\nk=v\naction\n[t").collect();
    // SectionEnd, Section, Property, Property without value
    assert_eq!(sections(&items).unwrap_err(), 3);
    assert_eq!(sections(&[Item::Property("k", None)]).unwrap_err(), 0);
}

#[test]
fn any_list_of_items_is_grouped() {
    let groups = sections(&[
        Item::Property("k", Some("v")),
        Item::SectionEnd,
        Item::Blank,
        Item::Comment("c"),
        Item::Property("l", Some("w")),
    ])
    .unwrap();
    assert_eq!(groups.len(), 1);
    assert_eq!(groups[0].properties, [("k", "v"), ("l", "w")]);
}
