//! What holds of every document: how sections are closed, that parsing
//! ends, and that nothing of the document is lost.

use vstd::prelude::*;
use crate::item::Element;
use crate::parse::{boundary, boundary_or, is_newline, lemma_boundary_or_is_first, CR, LF};
use crate::trim::{is_trimmed, lemma_trim_is_range};
use crate::parser::{
    after_newline, elements, lemma_after_newline_len, lemma_pull_makes_progress, step, work,
    Cursor, CLOSE, OPEN, SEPARATOR,
};

verus! {

/// The kind of an element, without its texts.
#[derive(PartialEq, Eq, Structural)]
pub enum Kind {
    Error,
    Section,
    SectionEnd,
    Property,
    Comment,
    Blank,
}

/// The kind of `e`.
pub open spec fn kind(e: Element) -> Kind {
    match e {
        Element::Error(_) => Kind::Error,
        Element::Section(_) => Kind::Section,
        Element::SectionEnd => Kind::SectionEnd,
        Element::Property(_, _) => Kind::Property,
        Element::Comment(_) => Kind::Comment,
        Element::Blank => Kind::Blank,
    }
}

/// How many elements of `es` are of the kind `k`.
pub open spec fn count(es: Seq<Element>, k: Kind) -> nat
    decreases es.len(),
{
    if es.len() == 0 {
        0
    } else {
        count(es.drop_first(), k) + if kind(es[0]) == k {
            1nat
        } else {
            0nat
        }
    }
}

/// The two states of the parser and what moves it from one to the other.
///
/// A section end is only returned while a section is open; it closes the
/// section and consumes nothing. A header is only read while no section is
/// open; a well-formed one opens its section. Nothing else touches the
/// flag: a malformed header leaves it as it is.
pub proof fn lemma_transitions(c: Cursor)
    ensures
        step(c).0 is Some && kind(step(c).0->0) == Kind::SectionEnd ==> !c.section_ended && step(
            c,
        ).1 == (Cursor { section_ended: true, ..c }),
        step(c).0 is Some && kind(step(c).0->0) == Kind::Section ==> c.section_ended && !step(
            c,
        ).1.section_ended,
        step(c).0 is Some && kind(step(c).0->0) == Kind::Error ==> c.section_ended && step(
            c,
        ).1.section_ended,
        step(c).0 is Some && kind(step(c).0->0) != Kind::SectionEnd && kind(step(c).0->0)
            != Kind::Section ==> step(c).1.section_ended == c.section_ended,
{
}

/// The run from `c` on is its first element followed by the run from the
/// next state on.
pub proof fn lemma_elements_unfold(c: Cursor)
    requires
        step(c).0 is Some,
    ensures
        elements(c).len() > 0,
        elements(c)[0] == step(c).0->0,
        elements(c).drop_first() == elements(step(c).1),
{
    lemma_pull_makes_progress(c);
    assert(elements(c) == seq![step(c).0->0] + elements(step(c).1));
    assert(elements(c).drop_first() =~= elements(step(c).1));
}

/// Parsing ends: from any state, no more elements are returned than there
/// is work left, two for each byte and one for the open section.
pub proof fn lemma_elements_are_bounded(c: Cursor)
    ensures
        elements(c).len() <= work(c),
    decreases work(c),
{
    lemma_pull_makes_progress(c);
    if step(c).0 is Some {
        lemma_elements_unfold(c);
        lemma_elements_are_bounded(step(c).1);
    }
}

/// Every section that is opened is closed: the section ends are as many as
/// the sections, and one more for the scope that is open at the start
/// (none more where the run starts with no section open).
pub proof fn lemma_section_ends_balance(c: Cursor)
    ensures
        count(elements(c), Kind::SectionEnd) + (if c.section_ended {
            1nat
        } else {
            0nat
        }) == count(elements(c), Kind::Section) + 1,
    decreases work(c),
{
    lemma_pull_makes_progress(c);
    if step(c).0 is Some {
        lemma_elements_unfold(c);
        lemma_transitions(c);
        lemma_section_ends_balance(step(c).1);
    }
}

/// In every document, parsed from its start, the section ends are one more
/// than the sections.
pub proof fn lemma_one_section_end_per_section(c: Cursor)
    requires
        !c.section_ended,
    ensures
        count(elements(c), Kind::SectionEnd) == count(elements(c), Kind::Section) + 1,
{
    lemma_section_ends_balance(c);
}

/// The line counter never decreases over a run, and a pull counts at most
/// one line.
pub proof fn lemma_line_never_decreases(c: Cursor)
    ensures
        c.line <= step(c).1.line <= c.line + 1,
        step(c).0 == Some(Element::SectionEnd) || step(c).0 is None ==> step(c).1.line == c.line,
{
    lemma_pull_makes_progress(c);
}

/// No two section ends follow each other: between two of them a header
/// line was consumed.
pub proof fn lemma_no_two_section_ends_in_a_row(c: Cursor, i: int)
    requires
        0 <= i,
        i + 1 < elements(c).len(),
    ensures
        !(kind(elements(c)[i]) == Kind::SectionEnd && kind(elements(c)[i + 1])
            == Kind::SectionEnd),
    decreases work(c),
{
    lemma_pull_makes_progress(c);
    lemma_elements_unfold(c);
    let next = step(c).1;
    assert(elements(c)[i + 1] == elements(next)[i]);
    if i == 0 {
        lemma_transitions(c);
        lemma_elements_unfold(next);
        lemma_transitions(next);
    } else {
        assert(elements(c)[i] == elements(next)[i - 1]);
        lemma_no_two_section_ends_in_a_row(next, i - 1);
    }
}

/// Every text of `e` but the raw line of an error is trimmed.
pub open spec fn texts_are_trimmed(e: Element) -> bool {
    match e {
        Element::Section(name) => is_trimmed(name),
        Element::Property(key, Some(value)) => is_trimmed(key) && is_trimmed(value),
        Element::Property(key, None) => is_trimmed(key),
        Element::Comment(text) => is_trimmed(text),
        _ => true,
    }
}

/// With trimming on, no returned text starts or ends with whitespace, so
/// trimming it again changes nothing.
pub proof fn lemma_trimmed_pull_returns_trimmed_texts(c: Cursor)
    requires
        c.auto_trim,
        step(c).0 is Some,
    ensures
        texts_are_trimmed(step(c).0->0),
{
    let s = c.rest;
    if s.len() == 0 || is_newline(s[0]) {
    } else if s[0] == c.comment_char {
        let t = s.skip(1);
        lemma_trim_is_range(t.take(boundary(t)));
    } else if s[0] == OPEN {
        if c.section_ended {
            lemma_trim_is_range(s.subrange(1, boundary(s) - 1));
        }
    } else {
        let i = boundary_or(s, SEPARATOR);
        lemma_trim_is_range(s.take(i));
        let t = s.skip(i + 1);
        lemma_trim_is_range(t.take(boundary(t)));
    }
}

/// The line that `e` was read from, without its terminator, where the
/// parser does not trim.
pub open spec fn written(e: Element, comment_char: u8) -> Seq<u8> {
    match e {
        Element::Error(text) => text,
        Element::Section(name) => seq![OPEN] + name + seq![CLOSE],
        Element::SectionEnd => Seq::empty(),
        Element::Property(key, Some(value)) => key + seq![SEPARATOR] + value,
        Element::Property(key, None) => key,
        Element::Comment(text) => seq![comment_char] + text,
        Element::Blank => Seq::empty(),
    }
}

/// What ends a line: `\r\n`, `\n`, `\r`, or the end of the document.
pub open spec fn is_terminator(t: Seq<u8>) -> bool {
    t == Seq::<u8>::empty() || t == seq![CR, LF] || t == seq![LF] || t == seq![CR]
}

/// The line terminator that `s` starts with; empty where it starts with
/// none.
pub open spec fn terminator(s: Seq<u8>) -> Seq<u8> {
    s.take(s.len() - after_newline(s).len())
}

/// Without trimming nothing of the document is lost: what a pull consumes
/// is the line of the element it returns, as [`written`] gives it,
/// followed by that line's terminator. Only the last line of the document
/// may lack a terminator.
pub proof fn lemma_untrimmed_pull_reproduces_input(c: Cursor)
    requires
        !c.auto_trim,
        step(c).0 is Some,
    ensures
        ({
            let line = written(step(c).0->0, c.comment_char);
            let end = terminator(c.rest.skip(line.len() as int));
            &&& c.rest == line + end + step(c).1.rest
            &&& is_terminator(end)
            &&& end.len() == 0 ==> step(c).1.rest.len() == 0 || step(c).0->0
                == Element::SectionEnd
        }),
{
    let s = c.rest;
    let e = step(c).0->0;
    let line = written(e, c.comment_char);
    if s.len() == 0 {
        assert(s.skip(0) =~= s);
        assert(terminator(s) =~= Seq::<u8>::empty());
        assert(s =~= line + terminator(s) + step(c).1.rest);
    } else if is_newline(s[0]) {
        assert(s.skip(0) =~= s);
        lemma_line_end(s, 0);
    } else if s[0] == c.comment_char {
        let t = s.skip(1);
        let i = boundary(t);
        lemma_boundary_or_is_first(t, LF);
        assert(line =~= s.take(i + 1));
        assert(t.skip(i) =~= s.skip(i + 1));
        lemma_line_end(s, i + 1);
    } else if s[0] == OPEN {
        if c.section_ended {
            let i = boundary(s);
            lemma_boundary_or_is_first(s, LF);
            assert(line =~= s.take(i));
            lemma_line_end(s, i);
        } else {
            assert(s.skip(0) =~= s);
            assert(!is_newline(s[0]));
            assert(terminator(s) =~= Seq::<u8>::empty());
            assert(s =~= line + terminator(s) + step(c).1.rest);
        }
    } else {
        let i = boundary_or(s, SEPARATOR);
        lemma_boundary_or_is_first(s, SEPARATOR);
        if i < s.len() && s[i] == SEPARATOR {
            let t = s.skip(i + 1);
            let j = boundary(t);
            lemma_boundary_or_is_first(t, LF);
            assert(line =~= s.take(i + 1 + j));
            assert(t.skip(j) =~= s.skip(i + 1 + j));
            lemma_line_end(s, i + 1 + j);
        } else {
            assert(s.take(i).len() > 0);
            assert(line =~= s.take(i));
            lemma_line_end(s, i);
        }
    }
}

/// Where the line's content ends at `n`, at a terminator or at the end of
/// `s`, the input is the content, the terminator and what follows it.
proof fn lemma_line_end(s: Seq<u8>, n: int)
    requires
        0 <= n <= s.len(),
        n < s.len() ==> is_newline(s[n]),
    ensures
        s == s.take(n) + terminator(s.skip(n)) + after_newline(s.skip(n)),
        is_terminator(terminator(s.skip(n))),
        terminator(s.skip(n)).len() == 0 ==> after_newline(s.skip(n)).len() == 0,
{
    let t = s.skip(n);
    lemma_after_newline_len(t);
    let end = terminator(t);
    if t.len() == 0 {
        assert(end =~= Seq::<u8>::empty());
    } else if t[0] == CR && t.len() > 1 && t[1] == LF {
        assert(end =~= seq![CR, LF]);
    } else if t[0] == CR {
        assert(end =~= seq![CR]);
    } else {
        assert(end =~= seq![LF]);
    }
    assert(s =~= s.take(n) + end + after_newline(t));
}

} // verus!
