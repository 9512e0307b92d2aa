use vstd::prelude::*;

verus! {

/// Bit pattern of binary32 `0.0`.
pub const F32_ZERO_BITS: u32 = 0;

/// Bit pattern of binary32 machine epsilon (2^-23).
pub const F32_EPSILON_BITS: u32 = 0x3400_0000;

/// The bit pattern without its sign bit.
pub open spec fn f32_magnitude(b: u32) -> int {
    (b % 0x8000_0000) as int
}

/// A binary32 NaN: all exponent bits set and a nonzero fraction.
pub open spec fn f32_is_nan(b: u32) -> bool {
    f32_magnitude(b) > 0x7f80_0000
}

/// The position of a non-NaN binary32 value on the number line: the order of
/// ranks is the order of the values, and both zeros share rank 0.
pub open spec fn f32_rank(b: u32) -> int {
    if b >= 0x8000_0000 {
        -f32_magnitude(b)
    } else {
        f32_magnitude(b)
    }
}

/// IEEE-754 `a < b` on binary32 bit patterns (false when either is NaN).
pub open spec fn f32_lt(a: u32, b: u32) -> bool {
    !f32_is_nan(a) && !f32_is_nan(b) && f32_rank(a) < f32_rank(b)
}

/// IEEE-754 `a <= b` on binary32 bit patterns (false when either is NaN).
pub open spec fn f32_le(a: u32, b: u32) -> bool {
    !f32_is_nan(a) && !f32_is_nan(b) && f32_rank(a) <= f32_rank(b)
}

/// IEEE-754 `a == b` on binary32 bit patterns (false when either is NaN;
/// true for `0.0 == -0.0`).
pub open spec fn f32_eq(a: u32, b: u32) -> bool {
    !f32_is_nan(a) && !f32_is_nan(b) && f32_rank(a) == f32_rank(b)
}

/// The bit pattern with `-0.0` replaced by `0.0`.
pub open spec fn normalized_bits(b: u32) -> u32 {
    if f32_magnitude(b) == 0 {
        0
    } else {
        b
    }
}

fn magnitude(b: u32) -> (m: u32)
    ensures
        m == f32_magnitude(b),
{
    b % 0x8000_0000
}

fn rank_parts(b: u32) -> (r: (bool, u32))
    ensures
        r.1 == f32_magnitude(b),
        r.0 == (b >= 0x8000_0000),
{
    (b >= 0x8000_0000, magnitude(b))
}

/// `a < b` for binary32 values given by their bit patterns.
pub fn f32_less(a: u32, b: u32) -> (r: bool)
    ensures
        r == f32_lt(a, b),
{
    let (na, ma) = rank_parts(a);
    let (nb, mb) = rank_parts(b);
    if ma > 0x7f80_0000 || mb > 0x7f80_0000 {
        return false;
    }
    if na {
        if nb {
            mb < ma
        } else {
            !(ma == 0 && mb == 0)
        }
    } else {
        if nb {
            false
        } else {
            ma < mb
        }
    }
}

/// `a <= b` for binary32 values given by their bit patterns.
pub fn f32_less_eq(a: u32, b: u32) -> (r: bool)
    ensures
        r == f32_le(a, b),
{
    let (na, ma) = rank_parts(a);
    let (nb, mb) = rank_parts(b);
    if ma > 0x7f80_0000 || mb > 0x7f80_0000 {
        return false;
    }
    if na {
        if nb {
            mb <= ma
        } else {
            true
        }
    } else {
        if nb {
            ma == 0 && mb == 0
        } else {
            ma <= mb
        }
    }
}

/// The bit pattern of a binary32 value with negative zero mapped to positive
/// zero, so that equal values share one pattern (NaNs keep theirs).
pub fn normalized_f32_bits(value: u32) -> (r: u32)
    ensures
        r == normalized_bits(value),
{
    if magnitude(value) == 0 {
        0
    } else {
        value
    }
}

/// `<` on binary32 is a strict order on the values it relates: irreflexive
/// and transitive.
pub proof fn law_f32_less_is_strict_order(a: u32, b: u32, c: u32)
    ensures
        !f32_lt(a, a),
        f32_lt(a, b) && f32_lt(b, c) ==> f32_lt(a, c),
        f32_lt(a, b) ==> !f32_lt(b, a),
{
}

/// `<=` on binary32 is `<` or numeric equality; NaN is unordered.
pub proof fn law_f32_less_eq_splits(a: u32, b: u32)
    ensures
        f32_le(a, b) <==> (f32_lt(a, b) || f32_eq(a, b)),
        f32_is_nan(a) ==> !f32_le(a, b) && !f32_le(b, a),
{
}

/// Normalizing keeps the value: a pattern and its normalized form compare equal,
/// and two non-NaN patterns normalize alike exactly when their values are equal.
pub proof fn law_normalized_bits_keeps_value(a: u32, b: u32)
    ensures
        !f32_is_nan(a) ==> f32_eq(a, normalized_bits(a)),
        !f32_is_nan(a) && !f32_is_nan(b) ==> (normalized_bits(a) == normalized_bits(b) <==> f32_eq(a, b)),
{
}

} // verus!
