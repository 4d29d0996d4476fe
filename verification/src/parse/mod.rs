//! Boundary scanners: where does the current line (or key) end?
//!
//! Every scanner in this module meets one contract, stated over
//! [`boundary_or`]: it returns the offset of the first line terminator (or of
//! the extra target byte), or the length of the input when there is none.
//! So they all return the same index on the same input, and the functions
//! of this module may pick any of them: the word-parallel scanner that
//! matches the pointer width, or the portable one.

use vstd::prelude::*;

pub mod generic;
pub mod swar32;
pub mod swar64;

verus! {

/// Line feed.
pub const LF: u8 = 0x0A;

/// Carriage return.
pub const CR: u8 = 0x0D;

/// A byte that ends a line.
pub open spec fn is_newline(b: u8) -> bool {
    b == LF || b == CR
}

/// A byte at which a scan for `chr` or a line terminator stops.
pub open spec fn is_stop(b: u8, chr: u8) -> bool {
    is_newline(b) || b == chr
}

/// Offset of the first byte of `s` that is a line terminator or equals
/// `chr`; the length of `s` when no byte is.
pub open spec fn boundary_or(s: Seq<u8>, chr: u8) -> int
    decreases s.len(),
{
    if s.len() == 0 || is_stop(s[0], chr) {
        0
    } else {
        1 + boundary_or(s.drop_first(), chr)
    }
}

/// Offset of the first line terminator of `s`; the length of `s` when it
/// holds none.
pub open spec fn boundary(s: Seq<u8>) -> int {
    boundary_or(s, LF)
}

/// `i` is where a scan of `s` for `chr` or a line terminator stops: nothing
/// before `i` stops the scan, and `i` is a stop byte or the end of `s`.
pub open spec fn is_boundary_or(s: Seq<u8>, chr: u8, i: int) -> bool {
    &&& 0 <= i <= s.len()
    &&& forall|j: int| 0 <= j < i ==> !is_stop(#[trigger] s[j], chr)
    &&& i < s.len() ==> is_stop(s[i], chr)
}

/// The recursive definition and the first-stop characterisation agree.
pub proof fn lemma_boundary_or_is_first(s: Seq<u8>, chr: u8)
    ensures
        is_boundary_or(s, chr, boundary_or(s, chr)),
    decreases s.len(),
{
    if s.len() == 0 || is_stop(s[0], chr) {
    } else {
        let t = s.drop_first();
        lemma_boundary_or_is_first(t, chr);
        let i = boundary_or(s, chr);
        assert forall|j: int| 0 <= j < i implies !is_stop(#[trigger] s[j], chr) by {
            if j > 0 {
                assert(s[j] == t[j - 1]);
            }
        }
        if i < s.len() {
            assert(s[i] == t[i - 1]);
        }
    }
}

/// The first stop is unique: any index that meets the characterisation is
/// the one the definition gives.
pub proof fn lemma_boundary_or_unique(s: Seq<u8>, chr: u8, i: int)
    requires
        is_boundary_or(s, chr, i),
    ensures
        i == boundary_or(s, chr),
{
    lemma_boundary_or_is_first(s, chr);
    let k = boundary_or(s, chr);
    if i < k {
        assert(!is_stop(s[i], chr));
    } else if k < i {
        assert(!is_stop(s[k], chr));
    }
}

/// A scan may start anywhere behind a stretch without stops: the first
/// stop of `s` is the first stop of what follows the stretch.
pub proof fn lemma_boundary_after_clear_prefix(s: Seq<u8>, chr: u8, n: int)
    requires
        0 <= n <= s.len(),
        forall|j: int| 0 <= j < n ==> !is_stop(#[trigger] s[j], chr),
    ensures
        boundary_or(s, chr) == n + boundary_or(s.subrange(n, s.len() as int), chr),
{
    let t = s.subrange(n, s.len() as int);
    lemma_boundary_or_is_first(t, chr);
    let k = boundary_or(t, chr);
    assert forall|j: int| 0 <= j < n + k implies !is_stop(#[trigger] s[j], chr) by {
        if j >= n {
            assert(s[j] == t[j - n]);
        }
    }
    if n + k < s.len() {
        assert(s[n + k] == t[k]);
    }
    lemma_boundary_or_unique(s, chr, n + k);
}

/// Finds the first `\r` or `\n` in `s` and returns its index, or the length
/// of `s` if there is none.
pub fn find_nl(s: &[u8]) -> (i: usize)
    ensures
        i == boundary(s@),
        is_boundary_or(s@, LF, i as int),
{
    if usize::BITS == 64 {
        swar64::find_nl(s)
    } else if usize::BITS == 32 {
        swar32::find_nl(s)
    } else {
        generic::find_nl(s)
    }
}

/// Finds the first `\r`, `\n` or `chr` in `s` and returns its index, or the
/// length of `s` if there is none.
pub fn find_nl_chr(s: &[u8], chr: u8) -> (i: usize)
    ensures
        i == boundary_or(s@, chr),
        is_boundary_or(s@, chr, i as int),
{
    if usize::BITS == 64 {
        swar64::find_nl_chr(s, chr)
    } else if usize::BITS == 32 {
        swar32::find_nl_chr(s, chr)
    } else {
        generic::find_nl_chr(s, chr)
    }
}

} // verus!
