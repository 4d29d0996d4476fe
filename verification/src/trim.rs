//! Trimming of ASCII whitespace.

use vstd::prelude::*;
use vstd::string::*;
use vstd::utf8::*;
use crate::ascii::{
    lemma_boundary_after_ascii, lemma_boundary_at_end, lemma_boundary_before_ascii,
};

verus! {

/// ASCII whitespace: space, horizontal tab, line feed, form feed and
/// carriage return.
pub open spec fn is_space(b: u8) -> bool {
    b == 0x20 || b == 0x09 || b == 0x0A || b == 0x0C || b == 0x0D
}

/// `s` without its leading whitespace.
pub open spec fn trim_start_bytes(s: Seq<u8>) -> Seq<u8>
    decreases s.len(),
{
    if s.len() > 0 && is_space(s[0]) {
        trim_start_bytes(s.drop_first())
    } else {
        s
    }
}

/// `s` without its trailing whitespace.
pub open spec fn trim_end_bytes(s: Seq<u8>) -> Seq<u8>
    decreases s.len(),
{
    if s.len() > 0 && is_space(s.last()) {
        trim_end_bytes(s.drop_last())
    } else {
        s
    }
}

/// `s` without its leading and trailing whitespace.
pub open spec fn trim_bytes(s: Seq<u8>) -> Seq<u8> {
    trim_end_bytes(trim_start_bytes(s))
}

/// Nothing is left to trim: `s` neither starts nor ends with whitespace.
pub open spec fn is_trimmed(s: Seq<u8>) -> bool {
    s.len() > 0 ==> !is_space(s[0]) && !is_space(s.last())
}

/// What trimming the start leaves is the end of `s`, and does not start
/// with whitespace.
pub proof fn lemma_trim_start(s: Seq<u8>)
    ensures
        trim_start_bytes(s).len() <= s.len(),
        trim_start_bytes(s) == s.skip(s.len() - trim_start_bytes(s).len()),
        trim_start_bytes(s).len() > 0 ==> !is_space(trim_start_bytes(s)[0]),
        forall|j: int| 0 <= j < s.len() - trim_start_bytes(s).len() ==> is_space(#[trigger] s[j]),
    decreases s.len(),
{
    if s.len() > 0 && is_space(s[0]) {
        let t = s.drop_first();
        lemma_trim_start(t);
        let r = trim_start_bytes(t);
        assert(t.skip(t.len() - r.len()) =~= s.skip(s.len() - r.len()));
        assert forall|j: int| 0 <= j < s.len() - r.len() implies is_space(#[trigger] s[j]) by {
            if j > 0 {
                assert(s[j] == t[j - 1]);
            }
        }
    } else {
        assert(s.skip(0) =~= s);
    }
}

/// What trimming the end leaves is the start of `s`, and does not end with
/// whitespace.
pub proof fn lemma_trim_end(s: Seq<u8>)
    ensures
        trim_end_bytes(s).len() <= s.len(),
        trim_end_bytes(s) == s.take(trim_end_bytes(s).len() as int),
        trim_end_bytes(s).len() > 0 ==> !is_space(trim_end_bytes(s).last()),
        forall|j: int| trim_end_bytes(s).len() <= j < s.len() ==> is_space(#[trigger] s[j]),
    decreases s.len(),
{
    if s.len() > 0 && is_space(s.last()) {
        let t = s.drop_last();
        lemma_trim_end(t);
        let r = trim_end_bytes(t);
        assert(t.take(r.len() as int) =~= s.take(r.len() as int));
        assert forall|j: int| r.len() <= j < s.len() implies is_space(#[trigger] s[j]) by {
            if j < t.len() {
                assert(s[j] == t[j]);
            }
        }
    } else {
        assert(s.take(s.len() as int) =~= s);
    }
}

/// A trimmed text is a range of the text it was taken from, with nothing
/// but whitespace before and after it, and nothing is left to trim.
pub proof fn lemma_trim_is_range(s: Seq<u8>)
    ensures
        is_trimmed(trim_bytes(s)),
        exists|a: int, b: int|
            0 <= a <= b <= s.len() && trim_bytes(s) == #[trigger] s.subrange(a, b) && (forall|
                j: int,
            |
                0 <= j < a || b <= j < s.len() ==> is_space(#[trigger] s[j])),
{
    lemma_trim_start(s);
    let t = trim_start_bytes(s);
    lemma_trim_end(t);
    let r = trim_end_bytes(t);
    let a = s.len() - t.len();
    let b = a + r.len();
    assert(r =~= s.subrange(a, b));
    assert forall|j: int| 0 <= j < a || b <= j < s.len() implies is_space(#[trigger] s[j]) by {
        if j >= b {
            assert(s[j] == t[j - a]);
        }
    }
    if r.len() > 0 {
        assert(r[0] == t[0]);
    }
}

/// Where nothing is left to trim, trimming changes nothing.
pub proof fn lemma_trim_of_trimmed(s: Seq<u8>)
    requires
        is_trimmed(s),
    ensures
        trim_bytes(s) == s,
{
}

/// Trimming twice is trimming once.
pub proof fn lemma_trim_idempotent(s: Seq<u8>)
    ensures
        trim_bytes(trim_bytes(s)) == trim_bytes(s),
{
    lemma_trim_is_range(s);
    lemma_trim_of_trimmed(trim_bytes(s));
}

fn is_space_byte(b: u8) -> (r: bool)
    ensures
        r == is_space(b),
{
    b == 0x20 || b == 0x09 || b == 0x0A || b == 0x0C || b == 0x0D
}

/// Trims ascii whitespace from the start and end of the string slice.
///
/// The result is the sub-slice of `s` between its first and its last byte
/// that is not whitespace; it is empty when `s` holds nothing else.
pub fn trim(s: &str) -> (r: &str)
    ensures
        r.spec_bytes() == trim_bytes(s.spec_bytes()),
{
    broadcast use encode_utf8_valid_utf8;

    let b = s.as_bytes();
    let mut start: usize = 0;
    proof {
        assert(b@.skip(0) =~= b@);
        is_char_boundary_start_end_of_seq(b@);
    }
    while start < b.len() && is_space_byte(b[start])
        invariant
            start <= b.len(),
            valid_utf8(b@),
            is_char_boundary(b@, start as int),
            trim_start_bytes(b@.skip(start as int)) == trim_start_bytes(b@),
        decreases b.len() - start,
    {
        proof {
            assert(b@.skip(start as int).drop_first() =~= b@.skip(start as int + 1));
            lemma_boundary_after_ascii(b@, start as int);
        }
        start += 1;
    }
    let mut end: usize = b.len();
    while end > start && is_space_byte(b[end - 1])
        invariant
            start <= end <= b.len(),
            end < b.len() ==> is_space(b@[end as int]),
            trim_end_bytes(b@.subrange(start as int, end as int)) == trim_end_bytes(
                b@.skip(start as int),
            ),
        decreases end - start,
    {
        proof {
            assert(b@.subrange(start as int, end as int).drop_last() =~= b@.subrange(
                start as int,
                end as int - 1,
            ));
        }
        end -= 1;
    }
    proof {
        assert(b@.subrange(start as int, b@.len() as int) =~= b@.skip(start as int));
    }
    let (_, tail) = s.split_at(start);
    proof {
        let t = tail.spec_bytes();
        assert(t =~= b@.skip(start as int));
        if end < b.len() {
            lemma_boundary_before_ascii(t, end - start);
        } else {
            lemma_boundary_at_end(t);
        }
    }
    let (r, _) = tail.split_at(end - start);
    proof {
        assert(r.spec_bytes() =~= b@.subrange(start as int, end as int));
    }
    r
}

} // verus!
