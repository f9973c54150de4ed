use vstd::prelude::*;

verus! {

/// Magnitude of a binary32 bit pattern: the pattern with its sign bit cleared.
pub open spec fn magnitude(bits: u32) -> int {
    bits as int % 0x8000_0000
}

/// The bit pattern has its sign bit set.
pub open spec fn is_negative_pattern(bits: u32) -> bool {
    bits as int >= 0x8000_0000
}

/// The bit pattern encodes a NaN: all exponent bits set and a non-zero mantissa.
pub open spec fn is_nan(bits: u32) -> bool {
    magnitude(bits) > 0x7f80_0000
}

/// Position of a binary32 value in the ranking order.
///
/// Numbers are ordered as IEEE-754 orders them (both zeros rank alike,
/// infinities at the ends); every NaN ranks below every number.
pub open spec fn rank(bits: u32) -> int {
    if is_nan(bits) {
        -0x7f80_0001
    } else if is_negative_pattern(bits) {
        -magnitude(bits)
    } else {
        magnitude(bits)
    }
}

/// `similarity >= threshold` as binary32 comparison: false whenever either is NaN.
pub open spec fn meets(similarity: u32, threshold: u32) -> bool {
    !is_nan(similarity) && !is_nan(threshold) && rank(similarity) >= rank(threshold)
}

/// Computes `rank` of a binary32 bit pattern.
pub fn score_rank(bits: u32) -> (r: i64)
    ensures
        r == rank(bits),
{
    let mag: u32 = bits % 0x8000_0000;
    if mag > 0x7f80_0000 {
        -0x7f80_0001
    } else if bits >= 0x8000_0000 {
        -(mag as i64)
    } else {
        mag as i64
    }
}

/// Whether a similarity reaches the threshold (inclusive), both given as
/// binary32 bit patterns.
pub fn meets_threshold(similarity: u32, threshold: u32) -> (r: bool)
    ensures
        r == meets(similarity, threshold),
{
    let s_mag: u32 = similarity % 0x8000_0000;
    let t_mag: u32 = threshold % 0x8000_0000;
    if s_mag > 0x7f80_0000 || t_mag > 0x7f80_0000 {
        false
    } else {
        score_rank(similarity) >= score_rank(threshold)
    }
}

} // verus!
