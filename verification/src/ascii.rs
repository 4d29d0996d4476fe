//! Why cutting a text at an ASCII byte is safe.
//!
//! The parser only ever cuts the document next to a byte below `0x80`. In
//! UTF-8 such a byte is a whole character, so both sides of the cut are
//! character boundaries and the pieces are texts again.

use vstd::prelude::*;
use vstd::utf8::*;

verus! {

/// A byte that is a whole character in UTF-8.
pub open spec fn is_ascii_byte(b: u8) -> bool {
    b < 0x80
}

/// An ASCII byte starts a character.
pub proof fn lemma_boundary_before_ascii(bytes: Seq<u8>, i: int)
    requires
        valid_utf8(bytes),
        0 <= i < bytes.len(),
        is_ascii_byte(bytes[i]),
    ensures
        is_char_boundary(bytes, i),
{
    is_char_boundary_iff_not_is_continuation_byte(bytes, i);
}

/// The end of a text is a character boundary.
pub proof fn lemma_boundary_at_end(bytes: Seq<u8>)
    requires
        valid_utf8(bytes),
    ensures
        is_char_boundary(bytes, bytes.len() as int),
{
    is_char_boundary_start_end_of_seq(bytes);
}

/// An ASCII byte is one character wide: the next character starts right
/// after it.
pub proof fn lemma_boundary_after_ascii(bytes: Seq<u8>, i: int)
    requires
        valid_utf8(bytes),
        0 <= i < bytes.len(),
        is_ascii_byte(bytes[i]),
    ensures
        is_char_boundary(bytes, i + 1),
{
    lemma_boundary_before_ascii(bytes, i);
    valid_utf8_split(bytes, i);
    let tail = bytes.subrange(i, bytes.len() as int);
    assert(tail[0] == bytes[i]);
    let rest = pop_first_scalar(tail);
    assert(valid_utf8(rest));
    if i + 1 == bytes.len() {
        lemma_boundary_at_end(bytes);
    } else {
        assert(rest[0] == bytes[i + 1]);
        assert(valid_first_scalar(rest));
        is_char_boundary_iff_is_leading_byte(bytes, i + 1);
    }
}

} // verus!
