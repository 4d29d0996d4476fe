//! The elements that the parser hands out.

use vstd::prelude::*;
use vstd::string::*;

verus! {

/// What an [`Item`] holds, as bytes: the mathematical model that the
/// parser's contracts are stated over.
pub enum Element {
    /// Raw line of a malformed section header.
    Error(Seq<u8>),
    /// Name of a section.
    Section(Seq<u8>),
    /// End of a section.
    SectionEnd,
    /// Key, and the value where the line had a `=`.
    Property(Seq<u8>, Option<Seq<u8>>),
    /// Text of a comment.
    Comment(Seq<u8>),
    /// Blank line.
    Blank,
}

/// Ini element.
///
/// Every text in it is a sub-slice of the document that was parsed.
///
/// # Notes
///
/// The texts are not checked or escaped. A consumer that writes them out
/// again has to make sure that they hold no newlines.
#[derive(Copy, Clone, Debug, Eq, PartialEq, Hash)]
pub enum Item<'a> {
    /// Syntax error.
    ///
    /// Section header element was malformed: the line starts with `[` but
    /// does not end with `]`. Holds the whole line.
    Error(&'a str),
    /// Section header element. Holds the text between `[` and `]`.
    Section(&'a str),
    /// End of section.
    ///
    /// Pseudo element emitted before the header line that follows an open
    /// section, and at the end of the document where a section is still
    /// open. This helps processing sections after their properties finished
    /// parsing.
    SectionEnd,
    /// Property element.
    ///
    /// The key holds no `=`. The value is `None` if the line has no `=`.
    Property(&'a str, Option<&'a str>),
    /// Comment. Holds the text after the comment character.
    Comment(&'a str),
    /// Blank line.
    ///
    /// Allows faithful reproduction of the whole document including blank
    /// lines.
    Blank,
}

impl<'a> View for Item<'a> {
    type V = Element;

    open spec fn view(&self) -> Element {
        match *self {
            Item::Error(text) => Element::Error(text.spec_bytes()),
            Item::Section(name) => Element::Section(name.spec_bytes()),
            Item::SectionEnd => Element::SectionEnd,
            Item::Property(key, Some(value)) => Element::Property(
                key.spec_bytes(),
                Some(value.spec_bytes()),
            ),
            Item::Property(key, None) => Element::Property(key.spec_bytes(), None),
            Item::Comment(text) => Element::Comment(text.spec_bytes()),
            Item::Blank => Element::Blank,
        }
    }
}

/// The line that stands for `item` in a document, with `;` for the comment
/// character and `\n` for the line terminator. A section end stands for no
/// line.
pub open spec fn displayed(item: Item<'_>) -> Seq<char> {
    match item {
        Item::Error(text) => text@ + seq!['\n'],
        Item::Section(name) => seq!['['] + name@ + seq![']', '\n'],
        Item::SectionEnd => Seq::empty(),
        Item::Property(key, Some(value)) => key@ + seq!['='] + value@ + seq!['\n'],
        Item::Property(key, None) => key@ + seq!['\n'],
        Item::Comment(text) => seq![';'] + text@ + seq!['\n'],
        Item::Blank => seq!['\n'],
    }
}

impl<'a> Item<'a> {
    /// Writes the element as a line of a document.
    ///
    /// The texts are written as they are, neither checked nor escaped.
    pub fn to_string(&self) -> (r: String)
        ensures
            r@ == displayed(*self),
    {
        proof {
            reveal_strlit("");
            reveal_strlit("\n");
            reveal_strlit("[");
            reveal_strlit("]\n");
            reveal_strlit("=");
            reveal_strlit(";");
        }
        let mut r = String::from_str("");
        match *self {
            Item::Error(text) => {
                r.append(text);
                r.append("\n");
            },
            Item::Section(name) => {
                r.append("[");
                r.append(name);
                r.append("]\n");
            },
            Item::SectionEnd => {},
            Item::Property(key, Some(value)) => {
                r.append(key);
                r.append("=");
                r.append(value);
                r.append("\n");
            },
            Item::Property(key, None) => {
                r.append(key);
                r.append("\n");
            },
            Item::Comment(text) => {
                r.append(";");
                r.append(text);
                r.append("\n");
            },
            Item::Blank => {
                r.append("\n");
            },
        }
        proof {
            assert(r@ =~= displayed(*self));
        }
        r
    }
}

/// The model of what one pull returned.
pub open spec fn pulled(r: Option<Item<'_>>) -> Option<Element> {
    match r {
        Some(item) => Some(item@),
        None => None,
    }
}

} // verus!
