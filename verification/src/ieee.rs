//! IEEE 754 bit patterns: which numbers a narrower format holds exactly.
//!
//! A number is carried as the bit pattern of its 64-bit form. `same16` and `same32`
//! say when a 16-bit or 32-bit pattern denotes the number that a 64-bit pattern
//! denotes.

use vstd::prelude::*;

verus! {

/// The pattern is a NaN: an all-ones exponent and a fraction that is not zero.
pub open spec fn is_nan_bits(bits: u64) -> bool {
    (bits >> 52u64) & 0x7ff == 0x7ff && bits & 0xf_ffff_ffff_ffff != 0
}

/// `sig` is `f` scaled by `2` to the power `k`, with nothing lost.
pub open spec fn scaled(sig: u64, f: u64, k: u64) -> bool {
    (sig >> k) == f && ((sig >> k) << k) == sig
}

/// The 16-bit pattern `h` denotes the number that the 64-bit pattern `bits` denotes.
/// The cases are: infinity, zero, a subnormal half (in units of `2^-24`), a normal
/// half.
pub open spec fn same16(h: u16, bits: u64) -> bool {
    let e = (h as u64 >> 10u64) & 0x1f;
    let f = h as u64 & 0x3ff;
    let ee = (bits >> 52u64) & 0x7ff;
    let ff = bits & 0xf_ffff_ffff_ffff;
    &&& (h as u64 >> 15u64) == (bits >> 63u64)
    &&& if e == 0x1f {
        f == 0 && ee == 0x7ff && ff == 0
    } else if e == 0 && f == 0 {
        ee == 0 && ff == 0
    } else if e == 0 {
        999 <= ee <= 1008 && scaled(0x10_0000_0000_0000 | ff, f, (1051 - ee) as u64)
    } else {
        ee == e + 1008 && ff == f << 42u64
    }
}

/// The 32-bit pattern `s` denotes the number that the 64-bit pattern `bits` denotes.
/// The cases are those of `same16`, with subnormals in units of `2^-149`.
pub open spec fn same32(s: u32, bits: u64) -> bool {
    let e = (s as u64 >> 23u64) & 0xff;
    let f = s as u64 & 0x7f_ffff;
    let ee = (bits >> 52u64) & 0x7ff;
    let ff = bits & 0xf_ffff_ffff_ffff;
    &&& (s as u64 >> 31u64) == (bits >> 63u64)
    &&& if e == 0xff {
        f == 0 && ee == 0x7ff && ff == 0
    } else if e == 0 && f == 0 {
        ee == 0 && ff == 0
    } else if e == 0 {
        874 <= ee <= 896 && scaled(0x10_0000_0000_0000 | ff, f, (926 - ee) as u64)
    } else {
        ee == e + 896 && ff == f << 29u64
    }
}

/// The half that denotes the number, where there is one.
pub open spec fn as_half(bits: u64) -> Option<u16> {
    if exists|h: u16| same16(h, bits) {
        Some(choose|h: u16| same16(h, bits))
    } else {
        None
    }
}

/// The single that denotes the number, where there is one.
pub open spec fn as_single(bits: u64) -> Option<u32> {
    if exists|s: u32| same32(s, bits) {
        Some(choose|s: u32| same32(s, bits))
    } else {
        None
    }
}

/// At most one half denotes a given number.
pub proof fn half_unique(a: u16, b: u16, bits: u64)
    requires
        same16(a, bits),
        same16(b, bits),
    ensures
        a == b,
{
    assert(same16(a, bits) && same16(b, bits) ==> a == b) by (bit_vector);
}

/// At most one single denotes a given number.
pub proof fn single_unique(a: u32, b: u32, bits: u64)
    requires
        same32(a, bits),
        same32(b, bits),
    ensures
        a == b,
{
    assert(same32(a, bits) && same32(b, bits) ==> a == b) by (bit_vector);
}

/// A half denotes one number: equal halves come from equal patterns.
pub proof fn half_determines(h: u16, a: u64, b: u64)
    requires
        same16(h, a),
        same16(h, b),
    ensures
        a == b,
{
    assert(same16(h, a) && same16(h, b) ==> a == b) by (bit_vector);
}

/// A single denotes one number: equal singles come from equal patterns.
pub proof fn single_determines(s: u32, a: u64, b: u64)
    requires
        same32(s, a),
        same32(s, b),
    ensures
        a == b,
{
    assert(same32(s, a) && same32(s, b) ==> a == b) by (bit_vector);
}

/// Every number that a half holds, a single holds.
pub proof fn half_within_single(h: u16, bits: u64)
    requires
        same16(h, bits),
    ensures
        as_single(bits) is Some,
{
    let e = (bits >> 52u64) & 0x7ff;
    let s: u32 = if e == 0x7ff {
        ((bits >> 63u64) << 31u64 | 0x7f80_0000) as u32
    } else if e == 0 {
        ((bits >> 63u64) << 31u64) as u32
    } else {
        ((bits >> 63u64) << 31u64 | ((e - 896) as u64) << 23u64 | (bits & 0xf_ffff_ffff_ffff)
            >> 29u64) as u32
    };
    assert(same32(s, bits)) by (bit_vector)
        requires
            same16(h, bits),
            e == (bits >> 52u64) & 0x7ff,
            s == if e == 0x7ff {
                ((bits >> 63u64) << 31u64 | 0x7f80_0000) as u32
            } else if e == 0 {
                ((bits >> 63u64) << 31u64) as u32
            } else {
                ((bits >> 63u64) << 31u64 | ((e - 896) as u64) << 23u64 | (bits
                    & 0xf_ffff_ffff_ffff) >> 29u64) as u32
            },
    ;
}

/// Whether the pattern is a NaN.
pub fn is_nan(bits: u64) -> (r: bool)
    ensures
        r == is_nan_bits(bits),
{
    (bits >> 52u64) & 0x7ff == 0x7ff && bits & 0xf_ffff_ffff_ffff != 0
}

/// The patterns denote equal numbers: a NaN equals nothing, and the two zeros are equal.
pub open spec fn equal_bits(a: u64, b: u64) -> bool {
    &&& !is_nan_bits(a)
    &&& !is_nan_bits(b)
    &&& a == b || ((a == 0 || a == 0x8000_0000_0000_0000) && (b == 0 || b == 0x8000_0000_0000_0000))
}

/// Whether two patterns denote equal numbers.
pub fn equal_numbers(a: u64, b: u64) -> (r: bool)
    ensures
        r == equal_bits(a, b),
{
    !is_nan(a) && !is_nan(b) && (a == b || ((a == 0 || a == 0x8000_0000_0000_0000) && (b == 0 || b
        == 0x8000_0000_0000_0000)))
}

/// The exponent and fraction that a half would need for this number.
spec fn half_body(bits: u64) -> u64 {
    let e = (bits >> 52u64) & 0x7ff;
    let f = bits & 0xf_ffff_ffff_ffff;
    if e == 0x7ff {
        0x7c00
    } else if e < 999 || e > 1038 {
        0
    } else if e <= 1008 {
        (0x10_0000_0000_0000 | f) >> ((1051 - e) as u64)
    } else {
        (((e - 1008) as u64) << 10u64) | (f >> 42u64)
    }
}

/// A half loses nothing of this number.
spec fn half_fits(bits: u64) -> bool {
    let e = (bits >> 52u64) & 0x7ff;
    let f = bits & 0xf_ffff_ffff_ffff;
    if e == 0x7ff || e == 0 {
        f == 0
    } else if e < 999 || e > 1038 {
        false
    } else if e <= 1008 {
        (half_body(bits) << ((1051 - e) as u64)) == 0x10_0000_0000_0000 | f
    } else {
        ((f >> 42u64) << 42u64) == f
    }
}

proof fn lemma_half(bits: u64)
    ensures
        half_fits(bits) ==> as_half(bits) == Some((((bits >> 63u64) << 15u64) | half_body(bits)) as u16),
        !half_fits(bits) ==> as_half(bits) is None,
{
    let x = (((bits >> 63u64) << 15u64) | half_body(bits)) as u16;
    if half_fits(bits) {
        assert(same16(x, bits)) by (bit_vector)
            requires
                half_fits(bits),
                x == (((bits >> 63u64) << 15u64) | half_body(bits)) as u16,
        ;
        half_unique(x, choose|y: u16| same16(y, bits), bits);
    } else {
        assert forall|y: u16| !same16(y, bits) by {
            assert(same16(y, bits) ==> half_fits(bits)) by (bit_vector);
        }
    }
}

/// The half that denotes the number, if one does.
pub fn to_half(bits: u64) -> (r: Option<u16>)
    ensures
        r == as_half(bits),
{
    let e: u64 = (bits >> 52u64) & 0x7ff;
    let f: u64 = bits & 0xf_ffff_ffff_ffff;
    assert(e <= 0x7ff) by (bit_vector)
        requires
            e == (bits >> 52u64) & 0x7ff,
    ;
    let body: u64 = if e == 0x7ff {
        0x7c00
    } else if e < 999 || e > 1038 {
        0
    } else if e <= 1008 {
        (0x10_0000_0000_0000 | f) >> (1051 - e)
    } else {
        ((e - 1008) << 10u64) | (f >> 42u64)
    };
    let fits: bool = if e == 0x7ff || e == 0 {
        f == 0
    } else if e < 999 || e > 1038 {
        false
    } else if e <= 1008 {
        (body << (1051 - e)) == 0x10_0000_0000_0000 | f
    } else {
        ((f >> 42u64) << 42u64) == f
    };
    proof {
        lemma_half(bits);
    }
    if fits {
        Some((((bits >> 63u64) << 15u64) | body) as u16)
    } else {
        None
    }
}

/// The exponent and fraction that a single would need for this number.
spec fn single_body(bits: u64) -> u64 {
    let e = (bits >> 52u64) & 0x7ff;
    let f = bits & 0xf_ffff_ffff_ffff;
    if e == 0x7ff {
        0x7f80_0000
    } else if e < 874 || e > 1150 {
        0
    } else if e <= 896 {
        (0x10_0000_0000_0000 | f) >> ((926 - e) as u64)
    } else {
        (((e - 896) as u64) << 23u64) | (f >> 29u64)
    }
}

/// A single loses nothing of this number.
spec fn single_fits(bits: u64) -> bool {
    let e = (bits >> 52u64) & 0x7ff;
    let f = bits & 0xf_ffff_ffff_ffff;
    if e == 0x7ff || e == 0 {
        f == 0
    } else if e < 874 || e > 1150 {
        false
    } else if e <= 896 {
        (single_body(bits) << ((926 - e) as u64)) == 0x10_0000_0000_0000 | f
    } else {
        ((f >> 29u64) << 29u64) == f
    }
}

proof fn lemma_single(bits: u64)
    ensures
        single_fits(bits) ==> as_single(bits) == Some((((bits >> 63u64) << 31u64) | single_body(bits)) as u32),
        !single_fits(bits) ==> as_single(bits) is None,
{
    let x = (((bits >> 63u64) << 31u64) | single_body(bits)) as u32;
    if single_fits(bits) {
        assert(same32(x, bits)) by (bit_vector)
            requires
                single_fits(bits),
                x == (((bits >> 63u64) << 31u64) | single_body(bits)) as u32,
        ;
        single_unique(x, choose|y: u32| same32(y, bits), bits);
    } else {
        assert forall|y: u32| !same32(y, bits) by {
            assert(same32(y, bits) ==> single_fits(bits)) by (bit_vector);
        }
    }
}

/// The single that denotes the number, if one does.
pub fn to_single(bits: u64) -> (r: Option<u32>)
    ensures
        r == as_single(bits),
{
    let e: u64 = (bits >> 52u64) & 0x7ff;
    let f: u64 = bits & 0xf_ffff_ffff_ffff;
    assert(e <= 0x7ff) by (bit_vector)
        requires
            e == (bits >> 52u64) & 0x7ff,
    ;
    let body: u64 = if e == 0x7ff {
        0x7f80_0000
    } else if e < 874 || e > 1150 {
        0
    } else if e <= 896 {
        (0x10_0000_0000_0000 | f) >> (926 - e)
    } else {
        ((e - 896) << 23u64) | (f >> 29u64)
    };
    let fits: bool = if e == 0x7ff || e == 0 {
        f == 0
    } else if e < 874 || e > 1150 {
        false
    } else if e <= 896 {
        (body << (926 - e)) == 0x10_0000_0000_0000 | f
    } else {
        ((f >> 29u64) << 29u64) == f
    };
    proof {
        lemma_single(bits);
    }
    if fits {
        Some((((bits >> 63u64) << 31u64) | body) as u32)
    } else {
        None
    }
}

} // verus!
