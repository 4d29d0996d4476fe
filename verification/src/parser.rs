//! The streaming parser and the state machine it implements.

use vstd::prelude::*;
use vstd::string::*;
use vstd::utf8::*;
use crate::ascii::{
    is_ascii_byte, lemma_boundary_after_ascii, lemma_boundary_at_end,
    lemma_boundary_before_ascii,
};
use crate::item::{pulled, Element, Item};
use crate::parse::{
    boundary, boundary_or, find_nl, find_nl_chr, is_newline, lemma_boundary_or_is_first, CR, LF,
};
use crate::trim::{trim, trim_bytes};

verus! {

/// `[`, which opens a section header.
pub const OPEN: u8 = 0x5B;

/// `]`, which closes a section header.
pub const CLOSE: u8 = 0x5D;

/// `=`, which separates a key from its value.
pub const SEPARATOR: u8 = 0x3D;

/// `;`, the comment character of a new parser.
pub const SEMICOLON: u8 = 0x3B;

/// The state of a parser, as plain values.
pub struct Cursor {
    /// The part of the document that was not consumed yet.
    pub rest: Seq<u8>,
    /// How many lines were consumed.
    pub line: u32,
    /// The byte that starts a comment line.
    pub comment_char: u8,
    /// Whether returned texts are trimmed.
    pub auto_trim: bool,
    /// Whether the open section was closed already, so that a section
    /// header may start the next one.
    pub section_ended: bool,
}

/// `s` without the line terminator it starts with: `\r\n`, `\n` or `\r`.
pub open spec fn after_newline(s: Seq<u8>) -> Seq<u8> {
    if s.len() > 0 && s[0] == CR {
        if s.len() > 1 && s[1] == LF {
            s.skip(2)
        } else {
            s.skip(1)
        }
    } else if s.len() > 0 && s[0] == LF {
        s.skip(1)
    } else {
        s
    }
}

/// The line counter after one more line. It never decreases: at
/// `u32::MAX` it stays where it is.
pub open spec fn bump(line: u32) -> u32 {
    if line == u32::MAX {
        line
    } else {
        (line + 1) as u32
    }
}

/// The cursor after the rest of a line was consumed, where `s` is the
/// input from the end of that line's content on. At the end of the input
/// nothing is counted.
pub open spec fn advance(c: Cursor, s: Seq<u8>) -> Cursor {
    Cursor {
        rest: after_newline(s),
        line: if s.len() > 0 {
            bump(c.line)
        } else {
            c.line
        },
        ..c
    }
}

/// A text as it is returned: trimmed where the parser is set to trim.
pub open spec fn returned(c: Cursor, text: Seq<u8>) -> Seq<u8> {
    if c.auto_trim {
        trim_bytes(text)
    } else {
        text
    }
}

/// One pull on a section header line, the open section being closed.
///
/// A line that ends with `]` opens the section it names. Any other line is
/// a malformed header: it is returned whole and consumed, and opens
/// nothing, so that the next header needs no section end before it.
pub open spec fn step_section(c: Cursor) -> (Option<Element>, Cursor) {
    let s = c.rest;
    let i: int = boundary(s);
    if s[i - 1] != CLOSE {
        (Some(Element::Error(s.take(i))), advance(c, s.skip(i)))
    } else {
        (
            Some(Element::Section(returned(c, s.subrange(1, i - 1)))),
            advance(Cursor { section_ended: false, ..c }, s.skip(i)),
        )
    }
}

/// One pull on a line that is neither blank, a comment nor a header.
pub open spec fn step_property(c: Cursor) -> (Option<Element>, Cursor) {
    let s = c.rest;
    let i: int = boundary_or(s, SEPARATOR);
    let key = returned(c, s.take(i));
    if i < s.len() && s[i] == SEPARATOR {
        let t = s.skip(i + 1);
        let j: int = boundary(t);
        (Some(Element::Property(key, Some(returned(c, t.take(j))))), advance(c, t.skip(j)))
    } else if key.len() == 0 {
        (Some(Element::Blank), advance(c, s.skip(i)))
    } else {
        (Some(Element::Property(key, None)), advance(c, s.skip(i)))
    }
}

/// One pull: the element that is returned, if any, and the state after it.
///
/// The first byte of the remaining input decides. In this order: at the end
/// of the input the open section is closed once, and then nothing more is
/// returned; a line terminator is a blank line; the comment character
/// starts a comment; `[` closes the open section without consuming
/// anything, or starts a header when the section is closed already;
/// anything else is a property.
pub open spec fn step(c: Cursor) -> (Option<Element>, Cursor) {
    let s = c.rest;
    if s.len() == 0 {
        if c.section_ended {
            (None, c)
        } else {
            (Some(Element::SectionEnd), Cursor { section_ended: true, ..c })
        }
    } else if is_newline(s[0]) {
        (Some(Element::Blank), advance(c, s))
    } else if s[0] == c.comment_char {
        let t = s.skip(1);
        let i: int = boundary(t);
        (Some(Element::Comment(returned(c, t.take(i)))), advance(c, t.skip(i)))
    } else if s[0] == OPEN {
        if c.section_ended {
            step_section(c)
        } else {
            (Some(Element::SectionEnd), Cursor { section_ended: true, ..c })
        }
    } else {
        step_property(c)
    }
}

/// What is left to do: two units for each byte that was not consumed, and
/// one for the open section that is still to be closed.
pub open spec fn work(c: Cursor) -> nat {
    2 * c.rest.len() + if c.section_ended {
        0nat
    } else {
        1nat
    }
}

/// Removing a line terminator removes at most two bytes, and at least one
/// where there is a terminator.
pub proof fn lemma_after_newline_len(s: Seq<u8>)
    ensures
        s.len() - 2 <= after_newline(s).len() <= s.len(),
        s.len() > 0 && is_newline(s[0]) ==> after_newline(s).len() < s.len(),
        exists|k: int| 0 <= k <= 2 && k <= s.len() && after_newline(s) == #[trigger] s.skip(k),
{
    if s.len() > 0 && s[0] == CR {
        if s.len() > 1 && s[1] == LF {
            assert(after_newline(s) == s.skip(2));
        } else {
            assert(after_newline(s) == s.skip(1));
        }
    } else if s.len() > 0 && s[0] == LF {
        assert(after_newline(s) == s.skip(1));
    } else {
        assert(s.skip(0) =~= s);
    }
}

/// Every pull makes progress: it consumes at least one byte, or it closes
/// the open section and consumes nothing. Once nothing is returned, the
/// state no longer changes.
pub proof fn lemma_pull_makes_progress(c: Cursor)
    ensures
        step(c).0 is Some ==> work(step(c).1) < work(c),
        step(c).0 is Some ==> step(c).1.rest.len() < c.rest.len() || (!c.section_ended
            && step(c).0 == Some(Element::SectionEnd) && step(c).1 == Cursor {
            section_ended: true,
            ..c
        }),
        step(c).0 is None <==> c.rest.len() == 0 && c.section_ended,
        step(c).0 is None ==> step(c).1 == c,
        step(c).1.comment_char == c.comment_char,
        step(c).1.auto_trim == c.auto_trim,
        step(c).1.line >= c.line,
        step(c).1.line <= c.line + 1,
{
    let s = c.rest;
    if s.len() == 0 {
    } else if is_newline(s[0]) {
        lemma_after_newline_len(s);
    } else if s[0] == c.comment_char {
        let t = s.skip(1);
        lemma_boundary_or_is_first(t, LF);
        lemma_after_newline_len(t.skip(boundary(t)));
    } else if s[0] == OPEN {
        if c.section_ended {
            lemma_boundary_or_is_first(s, LF);
            lemma_after_newline_len(s.skip(boundary(s)));
        }
    } else {
        lemma_boundary_or_is_first(s, SEPARATOR);
        let i = boundary_or(s, SEPARATOR);
        lemma_after_newline_len(s.skip(i));
        if i < s.len() && s[i] == SEPARATOR {
            let t = s.skip(i + 1);
            lemma_boundary_or_is_first(t, LF);
            lemma_after_newline_len(t.skip(boundary(t)));
        }
    }
}

/// Every element that is pulled from the state `c` on, in order, until
/// nothing more is returned.
pub open spec fn elements(c: Cursor) -> Seq<Element>
    decreases work(c),
{
    match step(c).0 {
        Some(e) => {
            proof {
                lemma_pull_makes_progress(c);
            }
            seq![e] + elements(step(c).1)
        },
        None => Seq::empty(),
    }
}

/// The models of the items of `v`, in order.
pub open spec fn models(v: Seq<Item<'_>>) -> Seq<Element> {
    v.map_values(|item: Item<'_>| item@)
}

/// Ini streaming parser.
///
/// The whole document must be available before parsing starts.
/// The parser then returns each element as it is being parsed.
#[derive(Debug)]
pub struct Parser<'a> {
    line: u32,
    comment_char: u8,
    auto_trim: bool,
    section_ended: bool,
    state: &'a str,
}

/// Cuts `s` in two at `i`, which is the end of `s` or lies next to an
/// ASCII byte.
fn cut<'a>(s: &'a str, i: usize) -> (r: (&'a str, &'a str))
    requires
        i <= s.spec_bytes().len(),
        i == s.spec_bytes().len() || is_ascii_byte(s.spec_bytes()[i as int]) || (i > 0
            && is_ascii_byte(s.spec_bytes()[i - 1])),
    ensures
        r.0.spec_bytes() == s.spec_bytes().take(i as int),
        r.1.spec_bytes() == s.spec_bytes().skip(i as int),
{
    broadcast use encode_utf8_valid_utf8;

    proof {
        let b = s.spec_bytes();
        if i == b.len() {
            lemma_boundary_at_end(b);
        } else if is_ascii_byte(b[i as int]) {
            lemma_boundary_before_ascii(b, i as int);
        } else {
            lemma_boundary_after_ascii(b, i - 1);
        }
    }
    let r = s.split_at(i);
    proof {
        let b = s.spec_bytes();
        assert(b.take(i as int) =~= b.subrange(0, i as int));
        assert(b.skip(i as int) =~= b.subrange(i as int, b.len() as int));
    }
    r
}

impl<'a> View for Parser<'a> {
    type V = Cursor;

    closed spec fn view(&self) -> Cursor {
        Cursor {
            rest: self.state.spec_bytes(),
            line: self.line,
            comment_char: self.comment_char,
            auto_trim: self.auto_trim,
            section_ended: self.section_ended,
        }
    }
}

impl<'a> Clone for Parser<'a> {
    fn clone(&self) -> (p: Self)
        ensures
            p@ == self@,
    {
        proof {
            use_type_invariant(self);
        }
        Parser {
            line: self.line,
            comment_char: self.comment_char,
            auto_trim: self.auto_trim,
            section_ended: self.section_ended,
            state: self.state,
        }
    }
}

impl<'a> Parser<'a> {
    /// The comment character is ASCII, so that cutting it off a line leaves
    /// a text.
    #[verifier::type_invariant]
    spec fn comment_char_is_ascii(self) -> bool {
        is_ascii_byte(self.comment_char)
    }

    /// Constructs a new `Parser` instance: at the start of `s`, with `;` for
    /// the comment character and without trimming.
    pub fn new(s: &'a str) -> (p: Parser<'a>)
        ensures
            p@ == (Cursor {
                rest: s.spec_bytes(),
                line: 0,
                comment_char: SEMICOLON,
                auto_trim: false,
                section_ended: false,
            }),
    {
        Parser { line: 0, comment_char: SEMICOLON, auto_trim: false, section_ended: false, state: s }
    }

    /// Sets the comment character, eg. `b'#'`.
    ///
    /// The default is `b';'`. The high bit of `chr` is masked off, so that no
    /// multi-byte character is ever cut.
    #[must_use]
    pub fn comment_char(self, chr: u8) -> (p: Parser<'a>)
        ensures
            p@ == (Cursor { comment_char: chr & 0x7f, ..self@ }),
            is_ascii_byte(p@.comment_char),
    {
        let comment_char: u8 = chr & 0x7f;
        assert(chr & 0x7f < 0x80) by (bit_vector);
        Parser {
            line: self.line,
            comment_char,
            auto_trim: self.auto_trim,
            section_ended: self.section_ended,
            state: self.state,
        }
    }

    /// Sets auto trimming of all returned strings.
    ///
    /// The default is `false`.
    #[must_use]
    pub fn auto_trim(self, auto_trim: bool) -> (p: Parser<'a>)
        ensures
            p@ == (Cursor { auto_trim, ..self@ }),
    {
        proof {
            use_type_invariant(&self);
        }
        Parser {
            line: self.line,
            comment_char: self.comment_char,
            auto_trim,
            section_ended: self.section_ended,
            state: self.state,
        }
    }

    /// Returns the line number the parser is currently at.
    pub fn line(&self) -> (n: u32)
        ensures
            n == self@.line,
    {
        self.line
    }

    /// Returns the remainder of the input string.
    pub fn remainder(&self) -> (r: &'a str)
        ensures
            r.spec_bytes() == self@.rest,
    {
        self.state
    }

    /// Returns the next element, or `None` once the document is exhausted.
    ///
    /// Each call consumes one line, or closes the open section without
    /// consuming anything. A malformed header is returned as
    /// [`Item::Error`] and parsing goes on with the next line.
    pub fn next(&mut self) -> (r: Option<Item<'a>>)
        ensures
            pulled(r) == step(old(self)@).0,
            final(self)@ == step(old(self)@).1,
    {
        proof {
            use_type_invariant(&*self);
        }
        let s: &'a str = self.state;
        let b = s.as_bytes();
        if b.len() == 0 {
            if self.section_ended {
                None
            } else {
                self.section_ended = true;
                Some(Item::SectionEnd)
            }
        } else if b[0] == CR || b[0] == LF {
            self.skip_ln(s);
            Some(Item::Blank)
        } else if b[0] == self.comment_char {
            let (_, t) = cut(s, 1);
            let i = find_nl(t.as_bytes());
            let (comment, rest) = cut(t, i);
            let comment = self.text(comment);
            self.skip_ln(rest);
            Some(Item::Comment(comment))
        } else if b[0] == OPEN {
            if self.section_ended {
                Some(self.next_section(s))
            } else {
                self.section_ended = true;
                Some(Item::SectionEnd)
            }
        } else {
            Some(self.next_property(s))
        }
    }

    /// Pulls until the document is exhausted and returns every element, in
    /// order.
    pub fn collect(self) -> (v: Vec<Item<'a>>)
        ensures
            models(v@) == elements(self@),
    {
        let mut parser = self;
        let mut v: Vec<Item<'a>> = Vec::new();
        proof {
            assert(models(v@) =~= Seq::<Element>::empty());
        }
        loop
            invariant
                models(v@) + elements(parser@) == elements(self@),
            ensures
                models(v@) == elements(self@),
            decreases work(parser@),
        {
            let ghost before = parser@;
            let ghost done = models(v@);
            proof {
                lemma_pull_makes_progress(before);
            }
            match parser.next() {
                Some(item) => {
                    v.push(item);
                    proof {
                        assert(models(v@) =~= done + seq![item@]);
                        assert(done + (seq![item@] + elements(parser@)) =~= (done + seq![
                            item@,
                        ]) + elements(parser@));
                    }
                },
                None => {
                    proof {
                        assert(done + Seq::<Element>::empty() =~= done);
                    }
                    break ;
                },
            }
        }
        v
    }

    /// Parses the header line that the remaining input `s` starts with.
    fn next_section(&mut self, s: &'a str) -> (r: Item<'a>)
        requires
            old(self)@.rest == s.spec_bytes(),
            s.spec_bytes().len() > 0,
            s.spec_bytes()[0] == OPEN,
        ensures
            Some(r@) == step_section(old(self)@).0,
            final(self)@ == step_section(old(self)@).1,
    {
        proof {
            use_type_invariant(&*self);
        }
        let b = s.as_bytes();
        let i = find_nl(b);
        let (line, rest) = cut(s, i);
        let ghost bytes = s.spec_bytes();
        if b[i - 1] != CLOSE {
            self.skip_ln(rest);
            return Item::Error(line);
        }
        let (_, inner) = cut(line, 1);
        let (name, _) = cut(inner, i - 2);
        proof {
            assert(name.spec_bytes() =~= bytes.subrange(1, i - 1));
        }
        let name = self.text(name);
        self.section_ended = false;
        self.skip_ln(rest);
        Item::Section(name)
    }

    /// Parses the property line that the remaining input `s` starts with.
    fn next_property(&mut self, s: &'a str) -> (r: Item<'a>)
        requires
            old(self)@.rest == s.spec_bytes(),
        ensures
            Some(r@) == step_property(old(self)@).0,
            final(self)@ == step_property(old(self)@).1,
    {
        proof {
            use_type_invariant(&*self);
        }
        let b = s.as_bytes();
        let i = find_nl_chr(b, SEPARATOR);
        let (key, rest) = cut(s, i);
        let key = self.text(key);
        if i < b.len() && b[i] == SEPARATOR {
            let (_, t) = cut(rest, 1);
            let ghost bytes = s.spec_bytes();
            proof {
                assert(t.spec_bytes() =~= bytes.skip(i + 1));
            }
            let j = find_nl(t.as_bytes());
            let (value, rest) = cut(t, j);
            let value = self.text(value);
            self.skip_ln(rest);
            Item::Property(key, Some(value))
        } else {
            self.skip_ln(rest);
            if key.as_bytes().len() == 0 {
                Item::Blank
            } else {
                Item::Property(key, None)
            }
        }
    }

    /// Applies the trimming that the parser is set to.
    fn text(&self, s: &'a str) -> (r: &'a str)
        ensures
            r.spec_bytes() == returned(self@, s.spec_bytes()),
    {
        if self.auto_trim {
            trim(s)
        } else {
            s
        }
    }

    /// Moves past the line terminator that `s` starts with and counts the
    /// line. At the end of the input there is nothing to count, and a
    /// counter at `u32::MAX` stays there.
    fn skip_ln(&mut self, s: &'a str)
        ensures
            final(self)@ == advance(old(self)@, s.spec_bytes()),
    {
        proof {
            use_type_invariant(&*self);
        }
        let mut s: &'a str = s;
        let ghost start = s.spec_bytes();
        if s.as_bytes().len() > 0 {
            if s.as_bytes()[0] == CR {
                s = cut(s, 1).1;
            }
            if s.as_bytes().len() > 0 && s.as_bytes()[0] == LF {
                s = cut(s, 1).1;
            }
            if self.line < u32::MAX {
                self.line += 1;
            }
        }
        proof {
            assert(s.spec_bytes() =~= after_newline(start));
        }
        self.state = s;
    }
}

} // verus!
