//! Portable scanner: one byte at a time.

use vstd::prelude::*;
use super::{boundary, boundary_or, is_boundary_or, lemma_boundary_or_unique, CR, LF};

verus! {

/// Finds the first `\r` or `\n` in `s` and returns its index, or the length
/// of `s` if there is none.
pub fn find_nl(s: &[u8]) -> (i: usize)
    ensures
        i == boundary(s@),
        is_boundary_or(s@, LF, i as int),
{
    let mut i: usize = 0;
    while i < s.len() && !(s[i] == LF || s[i] == CR)
        invariant
            i <= s.len(),
            forall|j: int| 0 <= j < i ==> !super::is_stop(#[trigger] s@[j], LF),
        decreases s.len() - i,
    {
        i += 1;
    }
    proof {
        lemma_boundary_or_unique(s@, LF, i as int);
    }
    i
}

/// Finds the first `\r`, `\n` or `chr` in `s` and returns its index, or the
/// length of `s` if there is none.
pub fn find_nl_chr(s: &[u8], chr: u8) -> (i: usize)
    ensures
        i == boundary_or(s@, chr),
        is_boundary_or(s@, chr, i as int),
{
    let mut i: usize = 0;
    while i < s.len() && !(s[i] == LF || s[i] == CR || s[i] == chr)
        invariant
            i <= s.len(),
            forall|j: int| 0 <= j < i ==> !super::is_stop(#[trigger] s@[j], chr),
        decreases s.len() - i,
    {
        i += 1;
    }
    proof {
        lemma_boundary_or_unique(s@, chr, i as int);
    }
    i
}

} // verus!
