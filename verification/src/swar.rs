//! Safe SIMD-within-a-register (SWAR) byte helpers: pure `u64` lane
//! arithmetic that tests eight bytes at once.
use vstd::prelude::*;

verus! {

/// Whether every byte lane of `w` equals `n`.
pub open spec fn all_lanes_eq(w: u64, n: u64) -> bool {
    &&& w & 0xff == n
    &&& (w >> 8u64) & 0xff == n
    &&& (w >> 16u64) & 0xff == n
    &&& (w >> 24u64) & 0xff == n
    &&& (w >> 32u64) & 0xff == n
    &&& (w >> 40u64) & 0xff == n
    &&& (w >> 48u64) & 0xff == n
    &&& (w >> 56u64) & 0xff == n
}

/// Whether some byte lane of `w` equals `n`.
pub open spec fn some_lane_eq(w: u64, n: u64) -> bool {
    ||| w & 0xff == n
    ||| (w >> 8u64) & 0xff == n
    ||| (w >> 16u64) & 0xff == n
    ||| (w >> 24u64) & 0xff == n
    ||| (w >> 32u64) & 0xff == n
    ||| (w >> 40u64) & 0xff == n
    ||| (w >> 48u64) & 0xff == n
    ||| (w >> 56u64) & 0xff == n
}

/// Whether some byte lane of `w` is below `n`.
pub open spec fn some_lane_below(w: u64, n: u64) -> bool {
    ||| w & 0xff < n
    ||| (w >> 8u64) & 0xff < n
    ||| (w >> 16u64) & 0xff < n
    ||| (w >> 24u64) & 0xff < n
    ||| (w >> 32u64) & 0xff < n
    ||| (w >> 40u64) & 0xff < n
    ||| (w >> 48u64) & 0xff < n
    ||| (w >> 56u64) & 0xff < n
}

/// Whether some byte lane of `w` is at least `n`.
pub open spec fn some_lane_at_least(w: u64, n: u64) -> bool {
    ||| w & 0xff >= n
    ||| (w >> 8u64) & 0xff >= n
    ||| (w >> 16u64) & 0xff >= n
    ||| (w >> 24u64) & 0xff >= n
    ||| (w >> 32u64) & 0xff >= n
    ||| (w >> 40u64) & 0xff >= n
    ||| (w >> 48u64) & 0xff >= n
    ||| (w >> 56u64) & 0xff >= n
}

/// Byte-lane broadcast: replicates `byte` into all eight lanes.
pub fn broadcast(byte: u8) -> (r: u64)
    ensures
        all_lanes_eq(r, byte as u64),
{
    let b = byte as u64;
    let r = b * 0x0101_0101_0101_0101u64;
    assert(all_lanes_eq(r, b)) by (bit_vector)
        requires
            b < 256,
            r == b * 0x0101_0101_0101_0101u64,
    ;
    r
}

/// Whether some byte lane of `v` is zero.
pub fn haszero(v: u64) -> (r: bool)
    ensures
        r == some_lane_eq(v, 0),
{
    let r = v.wrapping_sub(0x0101_0101_0101_0101) & !v & 0x8080_8080_8080_8080 != 0;
    assert(r == some_lane_eq(v, 0)) by (bit_vector)
        requires
            r == ((v.wrapping_sub(0x0101_0101_0101_0101u64) & !v & 0x8080_8080_8080_8080u64)
                != 0),
    ;
    r
}

/// Whether some byte of `word` equals the lane value of `needle_mask`.
pub fn hasbyte(word: u64, needle_mask: u64) -> (r: bool)
    ensures
        forall|n: u64| #[trigger] all_lanes_eq(needle_mask, n) ==> (r == some_lane_eq(word, n)),
{
    let r = haszero(word ^ needle_mask);
    assert forall|n: u64| #[trigger] all_lanes_eq(needle_mask, n) implies (r == some_lane_eq(
        word,
        n,
    )) by {
        let x = word ^ needle_mask;
        assert(all_lanes_eq(needle_mask, n) ==> (some_lane_eq(x, 0) == some_lane_eq(word, n)))
            by (bit_vector)
            requires
                x == word ^ needle_mask,
        ;
    }
    r
}

/// Whether some byte of `word` is below the lane value of `limit_mask`
/// (a limit of at most `0x80`).
pub fn hasless(word: u64, limit_mask: u64) -> (r: bool)
    ensures
        forall|n: u64| #[trigger] all_lanes_eq(limit_mask, n) && n <= 0x80 ==> (r
            == some_lane_below(word, n)),
{
    let r = word.wrapping_sub(limit_mask) & !word & 0x8080_8080_8080_8080 != 0;
    assert forall|n: u64| #[trigger] all_lanes_eq(limit_mask, n) && n <= 0x80 implies (r
        == some_lane_below(word, n)) by {
        assert(all_lanes_eq(limit_mask, n) && n <= 0x80 ==> (((word.wrapping_sub(limit_mask)
            & !word & 0x8080_8080_8080_8080u64) != 0) == some_lane_below(word, n)))
            by (bit_vector);
    }
    r
}

/// Whether some byte of `word` is non-ASCII (`>= 0x80`).
pub fn has_non_ascii(word: u64) -> (r: bool)
    ensures
        r == some_lane_at_least(word, 0x80),
{
    let r = word & 0x8080_8080_8080_8080 != 0;
    assert(r == some_lane_at_least(word, 0x80)) by (bit_vector)
        requires
            r == ((word & 0x8080_8080_8080_8080u64) != 0),
    ;
    r
}

/// Loads `bytes[i..i + 8]` as a `u64`, `bytes[i]` in the lowest lane.
pub fn load_word(bytes: &[u8], i: usize) -> (r: u64)
    requires
        i + 8 <= bytes@.len(),
    ensures
        r & 0xff == bytes@[i as int],
        (r >> 8u64) & 0xff == bytes@[i + 1],
        (r >> 16u64) & 0xff == bytes@[i + 2],
        (r >> 24u64) & 0xff == bytes@[i + 3],
        (r >> 32u64) & 0xff == bytes@[i + 4],
        (r >> 40u64) & 0xff == bytes@[i + 5],
        (r >> 48u64) & 0xff == bytes@[i + 6],
        (r >> 56u64) & 0xff == bytes@[i + 7],
{
    let b0 = bytes[i] as u64;
    let b1 = bytes[i + 1] as u64;
    let b2 = bytes[i + 2] as u64;
    let b3 = bytes[i + 3] as u64;
    let b4 = bytes[i + 4] as u64;
    let b5 = bytes[i + 5] as u64;
    let b6 = bytes[i + 6] as u64;
    let b7 = bytes[i + 7] as u64;
    let r = b0 | (b1 << 8u64) | (b2 << 16u64) | (b3 << 24u64) | (b4 << 32u64) | (b5 << 40u64) | (
    b6 << 48u64) | (b7 << 56u64);
    assert(r & 0xff == b0 && (r >> 8u64) & 0xff == b1 && (r >> 16u64) & 0xff == b2 && (r
        >> 24u64) & 0xff == b3 && (r >> 32u64) & 0xff == b4 && (r >> 40u64) & 0xff == b5 && (r
        >> 48u64) & 0xff == b6 && (r >> 56u64) & 0xff == b7) by (bit_vector)
        requires
            b0 < 256 && b1 < 256 && b2 < 256 && b3 < 256 && b4 < 256 && b5 < 256 && b6 < 256 && b7
                < 256,
            r == b0 | (b1 << 8u64) | (b2 << 16u64) | (b3 << 24u64) | (b4 << 32u64) | (b5 << 40u64)
                | (b6 << 48u64) | (b7 << 56u64),
    ;
    r
}

} // verus!
