//! Word-parallel scanner: eight bytes at a time, packed into a 64-bit word.
//!
//! A word is searched for a byte by comparing all of its lanes at once. The
//! comparison leaves `0x80` in every lane that matches and zero in the
//! others, so the lowest set bit of the result marks the first match.

use vstd::prelude::*;
use vstd::std_specs::bits::{axiom_u64_trailing_zeros, u64_trailing_zeros};
use super::{
    boundary, boundary_or, is_boundary_or, is_stop, lemma_boundary_after_clear_prefix,
    lemma_boundary_or_is_first, lemma_boundary_or_unique, CR, LF,
};

verus! {

/// How many bytes one word holds.
pub const WIDTH: usize = 8;

/// `0x01` in every lane.
pub const ONES: u64 = 0x0101010101010101;

/// The low seven bits of every lane.
pub const LOW_BITS: u64 = 0x7f7f7f7f7f7f7f7f;

/// The high bit of every lane.
pub const HIGH_BITS: u64 = 0x8080808080808080;

/// What a lane holds after a comparison that matched there.
pub const HIT: u64 = 0x80;

/// Lane `k` of the word `w`, lane 0 being the lowest byte.
pub open spec fn lane(w: u64, k: u64) -> u64 {
    (w >> (k << 3)) & 0xff
}

/// `m` marks, lane by lane, the bytes of the word `w` that are a line
/// terminator or equal `chr`.
pub open spec fn marks_stops(m: u64, w: u64, chr: u8) -> bool {
    forall|k: u64|
        k < 8 ==> #[trigger] lane(m, k) == if lane(w, k) == LF || lane(w, k) == CR || lane(w, k)
            == chr {
            HIT
        } else {
            0
        }
}

proof fn lemma_equal_lanes(needle: u64, haystack: u64, t0: u64, mask: u64, k: u64)
    by (bit_vector)
    requires
        k < 8,
        t0 == (!(needle ^ haystack) & 0x7f7f7f7f7f7f7f7f) + 0x0101010101010101,
        mask == t0 & (!(needle ^ haystack) & 0x8080808080808080),
    ensures
        (mask >> (k << 3)) & 0xff == if (needle >> (k << 3)) & 0xff == (haystack >> (k << 3))
            & 0xff {
            0x80u64
        } else {
            0u64
        },
{
}

/// Compares the two words lane by lane: `0x80` in every lane in which they
/// hold the same byte, zero in the others.
pub fn cmpeq(needle: u64, haystack: u64) -> (mask: u64)
    ensures
        forall|k: u64|
            k < 8 ==> #[trigger] lane(mask, k) == if lane(needle, k) == lane(haystack, k) {
                HIT
            } else {
                0
            },
{
    let neq = !(needle ^ haystack);
    assert(neq & 0x7f7f7f7f7f7f7f7f <= 0x7f7f7f7f7f7f7f7f) by (bit_vector);
    let t0 = (neq & LOW_BITS) + ONES;
    let t1 = neq & HIGH_BITS;
    let mask = t0 & t1;
    assert forall|k: u64| k < 8 implies #[trigger] lane(mask, k) == if lane(needle, k) == lane(
        haystack,
        k,
    ) {
        HIT
    } else {
        0
    } by {
        lemma_equal_lanes(needle, haystack, t0, mask, k);
    }
    mask
}

proof fn lemma_splat_lane(b: u64, w: u64, k: u64)
    by (bit_vector)
    requires
        k < 8,
        b < 256,
        w == b * 0x0101010101010101,
    ensures
        (w >> (k << 3)) & 0xff == b,
{
}

/// The word that holds `b` in every lane.
fn splat(b: u8) -> (w: u64)
    ensures
        forall|k: u64| k < 8 ==> #[trigger] lane(w, k) == b,
{
    let w = (b as u64) * ONES;
    assert forall|k: u64| k < 8 implies #[trigger] lane(w, k) == b by {
        lemma_splat_lane(b as u64, w, k);
    }
    w
}

proof fn lemma_packed_lane(
    b0: u64,
    b1: u64,
    b2: u64,
    b3: u64,
    b4: u64,
    b5: u64,
    b6: u64,
    b7: u64,
    w: u64,
    k: u64,
)
    by (bit_vector)
    requires
        k < 8,
        b0 < 256,
        b1 < 256,
        b2 < 256,
        b3 < 256,
        b4 < 256,
        b5 < 256,
        b6 < 256,
        b7 < 256,
        w == b0 | (b1 << 8) | (b2 << 16) | (b3 << 24) | (b4 << 32) | (b5 << 40) | (b6 << 48) | (b7
            << 56),
    ensures
        (w >> (k << 3)) & 0xff == if k == 0 {
            b0
        } else if k == 1 {
            b1
        } else if k == 2 {
            b2
        } else if k == 3 {
            b3
        } else if k == 4 {
            b4
        } else if k == 5 {
            b5
        } else if k == 6 {
            b6
        } else {
            b7
        },
{
}

/// Reads the eight bytes of `s` from `offset` on into one word, the first
/// byte into the lowest lane.
fn load(s: &[u8], offset: usize) -> (w: u64)
    requires
        offset + 8 <= s@.len(),
    ensures
        forall|k: u64| k < 8 ==> #[trigger] lane(w, k) == s@[offset + k],
{
    let b0 = s[offset] as u64;
    let b1 = s[offset + 1] as u64;
    let b2 = s[offset + 2] as u64;
    let b3 = s[offset + 3] as u64;
    let b4 = s[offset + 4] as u64;
    let b5 = s[offset + 5] as u64;
    let b6 = s[offset + 6] as u64;
    let b7 = s[offset + 7] as u64;
    let w = b0 | (b1 << 8) | (b2 << 16) | (b3 << 24) | (b4 << 32) | (b5 << 40) | (b6 << 48) | (b7
        << 56);
    assert forall|k: u64| k < 8 implies #[trigger] lane(w, k) == s@[offset + k] by {
        lemma_packed_lane(b0, b1, b2, b3, b4, b5, b6, b7, w, k);
    }
    w
}

proof fn lemma_joined_lane(a: u64, b: u64, k: u64)
    by (bit_vector)
    requires
        k < 8,
    ensures
        ((a | b) >> (k << 3)) & 0xff == ((a >> (k << 3)) & 0xff) | ((b >> (k << 3)) & 0xff),
        0x80u64 | 0x80u64 == 0x80u64,
        0x80u64 | 0u64 == 0x80u64,
        0u64 | 0x80u64 == 0x80u64,
        0u64 | 0u64 == 0u64,
{
}

/// Marks the line terminators in the word `w`.
fn newline_mask(w: u64) -> (m: u64)
    ensures
        marks_stops(m, w, LF),
{
    let lf = splat(LF);
    let cr = splat(CR);
    let n = cmpeq(lf, w);
    let r = cmpeq(cr, w);
    let m = n | r;
    assert forall|k: u64| k < 8 implies #[trigger] lane(m, k) == if lane(w, k) == LF || lane(w, k)
        == CR || lane(w, k) == LF {
        HIT
    } else {
        0
    } by {
        lemma_joined_lane(n, r, k);
        assert(lane(lf, k) == LF && lane(cr, k) == CR);
        assert(lane(n, k) == HIT || lane(n, k) == 0);
        assert(lane(r, k) == HIT || lane(r, k) == 0);
    }
    m
}

/// Marks the line terminators and the bytes equal to `chr` in the word `w`.
fn stop_mask(w: u64, chr: u8) -> (m: u64)
    ensures
        marks_stops(m, w, chr),
{
    let lf = splat(LF);
    let cr = splat(CR);
    let extra = splat(chr);
    let n = cmpeq(lf, w);
    let r = cmpeq(cr, w);
    let c = cmpeq(extra, w);
    let m = n | r | c;
    assert forall|k: u64| k < 8 implies #[trigger] lane(m, k) == if lane(w, k) == LF || lane(w, k)
        == CR || lane(w, k) == chr {
        HIT
    } else {
        0
    } by {
        lemma_joined_lane(n, r, k);
        lemma_joined_lane(n | r, c, k);
        assert(lane(lf, k) == LF && lane(cr, k) == CR && lane(extra, k) == chr);
        assert(lane(n, k) == HIT || lane(n, k) == 0);
        assert(lane(r, k) == HIT || lane(r, k) == 0);
        assert(lane(c, k) == HIT || lane(c, k) == 0);
    }
    m
}

proof fn lemma_lowest_bit_lane(m: u64, t: u64)
    by (bit_vector)
    requires
        t < 64,
        (m >> t) & 1 == 1,
    ensures
        (t >> 3) < 8,
        (m >> ((t >> 3) << 3)) & 0xff != 0,
{
}

proof fn lemma_hit_sets_high_bit(m: u64, t: u64, k: u64)
    by (bit_vector)
    requires
        t < 64,
        k < (t >> 3),
        (m >> (k << 3)) & 0xff == 0x80,
    ensures
        ((k << 3) | 7) < t,
        (m >> ((k << 3) | 7)) & 1 == 1,
{
}

/// The first lane that the non-zero mask `m` marks.
fn first_hit(m: u64) -> (r: usize)
    requires
        m != 0,
        forall|k: u64| k < 8 ==> #[trigger] lane(m, k) == HIT || lane(m, k) == 0,
    ensures
        r < 8,
        lane(m, r as u64) == HIT,
        forall|k: u64| k < r ==> #[trigger] lane(m, k) == 0,
{
    let tz = m.trailing_zeros();
    let r = tz >> 3;
    proof {
        axiom_u64_trailing_zeros(m);
        let t = tz as u64;
        assert(r == t >> 3) by (bit_vector)
            requires
                r == tz >> 3,
                t == tz as u64,
        ;
        lemma_lowest_bit_lane(m, t);
        assert forall|k: u64| k < r implies #[trigger] lane(m, k) == 0 by {
            if lane(m, k) == HIT {
                lemma_hit_sets_high_bit(m, t, k);
                let j = (k << 3) | 7;
                assert((m >> j) & 1u64 == 0u64);
            }
        }
    }
    r as usize
}

proof fn lemma_empty_mask_lane(k: u64)
    by (bit_vector)
    ensures
        (0u64 >> (k << 3)) & 0xff == 0,
{
}

/// Scans `s` word by word with `chr` as the extra target; `newline_only`
/// says that `chr` is a line terminator anyway.
fn scan(s: &[u8], chr: u8, newline_only: bool) -> (i: usize)
    requires
        newline_only ==> chr == LF,
    ensures
        i == boundary_or(s@, chr),
        is_boundary_or(s@, chr, i as int),
{
    let mut offset: usize = 0;
    while s.len() - offset >= WIDTH
        invariant
            offset <= s.len(),
            newline_only ==> chr == LF,
            forall|j: int| 0 <= j < offset ==> !is_stop(#[trigger] s@[j], chr),
        decreases s.len() - offset,
    {
        let word = load(s, offset);
        let mask = if newline_only {
            newline_mask(word)
        } else {
            stop_mask(word, chr)
        };
        if mask != 0 {
            let r = first_hit(mask);
            proof {
                let i = offset + r;
                assert(lane(mask, r as u64) == HIT);
                assert forall|j: int| 0 <= j < i implies !is_stop(#[trigger] s@[j], chr) by {
                    if j >= offset {
                        let k = (j - offset) as u64;
                        assert(lane(mask, k) == 0);
                    }
                }
                lemma_boundary_or_unique(s@, chr, i);
            }
            return offset + r;
        }
        proof {
            assert forall|j: int| 0 <= j < offset + 8 implies !is_stop(#[trigger] s@[j], chr) by {
                if j >= offset {
                    let k = (j - offset) as u64;
                    lemma_empty_mask_lane(k);
                    assert(lane(mask, k) == 0);
                }
            }
        }
        offset += WIDTH;
    }
    let tail = super::generic::find_nl_chr(&s[offset..s.len()], chr);
    proof {
        lemma_boundary_after_clear_prefix(s@, chr, offset as int);
        lemma_boundary_or_is_first(s@, chr);
    }
    offset + tail
}

/// Finds the first `\r` or `\n` in `s` and returns its index, or the length
/// of `s` if there is none.
pub fn find_nl(s: &[u8]) -> (i: usize)
    ensures
        i == boundary(s@),
        is_boundary_or(s@, LF, i as int),
{
    scan(s, LF, true)
}

/// Finds the first `\r`, `\n` or `chr` in `s` and returns its index, or the
/// length of `s` if there is none.
pub fn find_nl_chr(s: &[u8], chr: u8) -> (i: usize)
    ensures
        i == boundary_or(s@, chr),
        is_boundary_or(s@, chr, i as int),
{
    scan(s, chr, false)
}

} // verus!
