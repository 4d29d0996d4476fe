//! Word-parallel scanner: four bytes at a time, packed into a 32-bit word.
//!
//! A word is searched for a byte by comparing all of its lanes at once. The
//! comparison leaves `0x80` in every lane that matches and zero in the
//! others, so the lowest set bit of the result marks the first match.

use vstd::prelude::*;
use vstd::std_specs::bits::{axiom_u32_trailing_zeros, u32_trailing_zeros};
use super::{
    boundary, boundary_or, is_boundary_or, is_stop, lemma_boundary_after_clear_prefix,
    lemma_boundary_or_is_first, lemma_boundary_or_unique, CR, LF,
};

verus! {

/// How many bytes one word holds.
pub const WIDTH: usize = 4;

/// `0x01` in every lane.
pub const ONES: u32 = 0x01010101;

/// The low seven bits of every lane.
pub const LOW_BITS: u32 = 0x7f7f7f7f;

/// The high bit of every lane.
pub const HIGH_BITS: u32 = 0x80808080;

/// What a lane holds after a comparison that matched there.
pub const HIT: u32 = 0x80;

/// Lane `k` of the word `w`, lane 0 being the lowest byte.
pub open spec fn lane(w: u32, k: u32) -> u32 {
    (w >> (k << 3)) & 0xff
}

/// `m` marks, lane by lane, the bytes of the word `w` that are a line
/// terminator or equal `chr`.
pub open spec fn marks_stops(m: u32, w: u32, chr: u8) -> bool {
    forall|k: u32|
        k < 4 ==> #[trigger] lane(m, k) == if lane(w, k) == LF || lane(w, k) == CR || lane(w, k)
            == chr {
            HIT
        } else {
            0
        }
}

proof fn lemma_equal_lanes(needle: u32, haystack: u32, t0: u32, mask: u32, k: u32)
    by (bit_vector)
    requires
        k < 4,
        t0 == (!(needle ^ haystack) & 0x7f7f7f7f) + 0x01010101,
        mask == t0 & (!(needle ^ haystack) & 0x80808080),
    ensures
        (mask >> (k << 3)) & 0xff == if (needle >> (k << 3)) & 0xff == (haystack >> (k << 3))
            & 0xff {
            0x80u32
        } else {
            0u32
        },
{
}

/// Compares the two words lane by lane: `0x80` in every lane in which they
/// hold the same byte, zero in the others.
pub fn cmpeq(needle: u32, haystack: u32) -> (mask: u32)
    ensures
        forall|k: u32|
            k < 4 ==> #[trigger] lane(mask, k) == if lane(needle, k) == lane(haystack, k) {
                HIT
            } else {
                0
            },
{
    let neq = !(needle ^ haystack);
    assert(neq & 0x7f7f7f7f <= 0x7f7f7f7f) by (bit_vector);
    let t0 = (neq & LOW_BITS) + ONES;
    let t1 = neq & HIGH_BITS;
    let mask = t0 & t1;
    assert forall|k: u32| k < 4 implies #[trigger] lane(mask, k) == if lane(needle, k) == lane(
        haystack,
        k,
    ) {
        HIT
    } else {
        0
    } by {
        lemma_equal_lanes(needle, haystack, t0, mask, k);
    }
    mask
}

proof fn lemma_splat_lane(b: u32, w: u32, k: u32)
    by (bit_vector)
    requires
        k < 4,
        b < 256,
        w == b * 0x01010101,
    ensures
        (w >> (k << 3)) & 0xff == b,
{
}

/// The word that holds `b` in every lane.
fn splat(b: u8) -> (w: u32)
    ensures
        forall|k: u32| k < 4 ==> #[trigger] lane(w, k) == b,
{
    let w = (b as u32) * ONES;
    assert forall|k: u32| k < 4 implies #[trigger] lane(w, k) == b by {
        lemma_splat_lane(b as u32, w, k);
    }
    w
}

proof fn lemma_packed_lane(
    b0: u32,
    b1: u32,
    b2: u32,
    b3: u32,
    w: u32,
    k: u32,
)
    by (bit_vector)
    requires
        k < 4,
        b0 < 256,
        b1 < 256,
        b2 < 256,
        b3 < 256,
        w == b0 | (b1 << 8) | (b2 << 16) | (b3 << 24),
    ensures
        (w >> (k << 3)) & 0xff == if k == 0 {
            b0
        } else if k == 1 {
            b1
        } else if k == 2 {
            b2
        } else {
            b3
        },
{
}

/// Reads the four bytes of `s` from `offset` on into one word, the first
/// byte into the lowest lane.
fn load(s: &[u8], offset: usize) -> (w: u32)
    requires
        offset + 4 <= s@.len(),
    ensures
        forall|k: u32| k < 4 ==> #[trigger] lane(w, k) == s@[offset + k],
{
    let b0 = s[offset] as u32;
    let b1 = s[offset + 1] as u32;
    let b2 = s[offset + 2] as u32;
    let b3 = s[offset + 3] as u32;
    let w = b0 | (b1 << 8) | (b2 << 16) | (b3 << 24);
    assert forall|k: u32| k < 4 implies #[trigger] lane(w, k) == s@[offset + k] by {
        lemma_packed_lane(b0, b1, b2, b3, w, k);
    }
    w
}

proof fn lemma_joined_lane(a: u32, b: u32, k: u32)
    by (bit_vector)
    requires
        k < 4,
    ensures
        ((a | b) >> (k << 3)) & 0xff == ((a >> (k << 3)) & 0xff) | ((b >> (k << 3)) & 0xff),
        0x80u32 | 0x80u32 == 0x80u32,
        0x80u32 | 0u32 == 0x80u32,
        0u32 | 0x80u32 == 0x80u32,
        0u32 | 0u32 == 0u32,
{
}

/// Marks the line terminators in the word `w`.
fn newline_mask(w: u32) -> (m: u32)
    ensures
        marks_stops(m, w, LF),
{
    let lf = splat(LF);
    let cr = splat(CR);
    let n = cmpeq(lf, w);
    let r = cmpeq(cr, w);
    let m = n | r;
    assert forall|k: u32| k < 4 implies #[trigger] lane(m, k) == if lane(w, k) == LF || lane(w, k)
        == CR || lane(w, k) == LF {
        HIT
    } else {
        0
    } by {
        lemma_joined_lane(n, r, k);
        assert(lane(lf, k) == LF && lane(cr, k) == CR);
        assert(lane(n, k) == HIT || lane(n, k) == 0);
        assert(lane(r, k) == HIT || lane(r, k) == 0);
    }
    m
}

/// Marks the line terminators and the bytes equal to `chr` in the word `w`.
fn stop_mask(w: u32, chr: u8) -> (m: u32)
    ensures
        marks_stops(m, w, chr),
{
    let lf = splat(LF);
    let cr = splat(CR);
    let extra = splat(chr);
    let n = cmpeq(lf, w);
    let r = cmpeq(cr, w);
    let c = cmpeq(extra, w);
    let m = n | r | c;
    assert forall|k: u32| k < 4 implies #[trigger] lane(m, k) == if lane(w, k) == LF || lane(w, k)
        == CR || lane(w, k) == chr {
        HIT
    } else {
        0
    } by {
        lemma_joined_lane(n, r, k);
        lemma_joined_lane(n | r, c, k);
        assert(lane(lf, k) == LF && lane(cr, k) == CR && lane(extra, k) == chr);
        assert(lane(n, k) == HIT || lane(n, k) == 0);
        assert(lane(r, k) == HIT || lane(r, k) == 0);
        assert(lane(c, k) == HIT || lane(c, k) == 0);
    }
    m
}

proof fn lemma_lowest_bit_lane(m: u32, t: u32)
    by (bit_vector)
    requires
        t < 32,
        (m >> t) & 1 == 1,
    ensures
        (t >> 3) < 4,
        (m >> ((t >> 3) << 3)) & 0xff != 0,
{
}

proof fn lemma_hit_sets_high_bit(m: u32, t: u32, k: u32)
    by (bit_vector)
    requires
        t < 32,
        k < (t >> 3),
        (m >> (k << 3)) & 0xff == 0x80,
    ensures
        ((k << 3) | 7) < t,
        (m >> ((k << 3) | 7)) & 1 == 1,
{
}

/// The first lane that the non-zero mask `m` marks.
fn first_hit(m: u32) -> (r: usize)
    requires
        m != 0,
        forall|k: u32| k < 4 ==> #[trigger] lane(m, k) == HIT || lane(m, k) == 0,
    ensures
        r < 4,
        lane(m, r as u32) == HIT,
        forall|k: u32| k < r ==> #[trigger] lane(m, k) == 0,
{
    let tz = m.trailing_zeros();
    let r = tz >> 3;
    proof {
        axiom_u32_trailing_zeros(m);
        let t = tz;
        lemma_lowest_bit_lane(m, t);
        assert forall|k: u32| k < r implies #[trigger] lane(m, k) == 0 by {
            if lane(m, k) == HIT {
                lemma_hit_sets_high_bit(m, t, k);
                let j = (k << 3) | 7;
                assert((m >> j) & 1u32 == 0u32);
            }
        }
    }
    r as usize
}

proof fn lemma_empty_mask_lane(k: u32)
    by (bit_vector)
    ensures
        (0u32 >> (k << 3)) & 0xff == 0,
{
}

/// Scans `s` word by word with `chr` as the extra target; `newline_only`
/// says that `chr` is a line terminator anyway.
fn scan(s: &[u8], chr: u8, newline_only: bool) -> (i: usize)
    requires
        newline_only ==> chr == LF,
    ensures
        i == boundary_or(s@, chr),
        is_boundary_or(s@, chr, i as int),
{
    let mut offset: usize = 0;
    while s.len() - offset >= WIDTH
        invariant
            offset <= s.len(),
            newline_only ==> chr == LF,
            forall|j: int| 0 <= j < offset ==> !is_stop(#[trigger] s@[j], chr),
        decreases s.len() - offset,
    {
        let word = load(s, offset);
        let mask = if newline_only {
            newline_mask(word)
        } else {
            stop_mask(word, chr)
        };
        if mask != 0 {
            let r = first_hit(mask);
            proof {
                let i = offset + r;
                assert(lane(mask, r as u32) == HIT);
                assert forall|j: int| 0 <= j < i implies !is_stop(#[trigger] s@[j], chr) by {
                    if j >= offset {
                        let k = (j - offset) as u32;
                        assert(lane(mask, k) == 0);
                    }
                }
                lemma_boundary_or_unique(s@, chr, i);
            }
            return offset + r;
        }
        proof {
            assert forall|j: int| 0 <= j < offset + 4 implies !is_stop(#[trigger] s@[j], chr) by {
                if j >= offset {
                    let k = (j - offset) as u32;
                    lemma_empty_mask_lane(k);
                    assert(lane(mask, k) == 0);
                }
            }
        }
        offset += WIDTH;
    }
    let tail = super::generic::find_nl_chr(&s[offset..s.len()], chr);
    proof {
        lemma_boundary_after_clear_prefix(s@, chr, offset as int);
        lemma_boundary_or_is_first(s@, chr);
    }
    offset + tail
}

/// Finds the first `\r` or `\n` in `s` and returns its index, or the length
/// of `s` if there is none.
pub fn find_nl(s: &[u8]) -> (i: usize)
    ensures
        i == boundary(s@),
        is_boundary_or(s@, LF, i as int),
{
    scan(s, LF, true)
}

/// Finds the first `\r`, `\n` or `chr` in `s` and returns its index, or the
/// length of `s` if there is none.
pub fn find_nl_chr(s: &[u8], chr: u8) -> (i: usize)
    ensures
        i == boundary_or(s@, chr),
        is_boundary_or(s@, chr, i as int),
{
    scan(s, chr, false)
}

} // verus!
