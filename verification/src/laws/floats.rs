//! Which number a pattern of bits stands for, and when a shorter one stands for the same.

use vstd::arithmetic::power2::{
    lemma2_to64, lemma2_to64_rest, lemma_pow2_adds, lemma_pow2_pos, lemma_pow2_strictly_increases,
    pow2,
};
use vstd::bits::{lemma_u64_shl_is_mul, lemma_u64_shr_is_div};
use vstd::prelude::*;
use crate::ieee::{same16, same32, scaled};

verus! {

/// The magnitude of a finite number in units of two to the power -1074, from an exponent and a
/// fraction of 52 bits: without a leading one where the exponent is zero, with one otherwise.
pub open spec fn magnitude(e: int, f: int) -> int {
    if e == 0 {
        f
    } else {
        (0x10_0000_0000_0000 + f) * pow2((e - 1) as nat)
    }
}

/// The same for a half: ten bits, and a least unit of two to the power -24.
pub open spec fn magnitude16(e: int, f: int) -> int {
    if e == 0 {
        f * pow2(1050)
    } else {
        (0x400 + f) * pow2((e + 1049) as nat)
    }
}

/// The same for a single: 23 bits, and a least unit of two to the power -149.
pub open spec fn magnitude32(e: int, f: int) -> int {
    if e == 0 {
        f * pow2(925)
    } else {
        (0x80_0000 + f) * pow2((e + 924) as nat)
    }
}

/// A half stands for the number that a double does if and only if they have the same sign and,
/// where both are finite, the same magnitude; an infinity is the same as an infinity, and a NaN
/// as nothing.
pub proof fn half_is_the_same_number(h: u16, bits: u64)
    ensures
        ({
            let e = (h / 0x400 % 0x20) as int;
            let f = (h % 0x400) as int;
            let ee = (bits / 0x10_0000_0000_0000 % 0x800) as int;
            let ff = (bits % 0x10_0000_0000_0000) as int;
            let alike = if e == 0x1f || ee == 0x7ff {
                e == 0x1f && ee == 0x7ff && f == 0 && ff == 0
            } else {
                magnitude16(e, f) == magnitude(ee, ff)
            };
            same16(h, bits) <==> (h >= 0x8000) == (bits >= 0x8000_0000_0000_0000) && alike
        }),
{
    let e = (h / 0x400 % 0x20) as int;
    let f = (h % 0x400) as int;
    let ee = (bits / 0x10_0000_0000_0000 % 0x800) as int;
    let ff = (bits % 0x10_0000_0000_0000) as int;
    lemma_double(bits);
    assert((h as u64 >> 10u64) & 0x1f == h / 0x400 % 0x20 && h as u64 & 0x3ff == h % 0x400 && (h
        as u64 >> 15u64 == 1 <==> h >= 0x8000) && (h as u64 >> 15u64) <= 1 && (h as u64 & 0x3ff)
        << 42u64 == (h % 0x400) * 0x400_0000_0000) by (bit_vector);
    lemma2_to64();
    lemma2_to64_rest();
    if e != 0x1f && ee != 0x7ff {
        if e > 0 {
            lemma_normal(10, 1050, e, f, ee, ff);
        } else if f > 0 {
            lemma_subnormal(10, 1050, f, ee, ff);
            if 999 <= ee <= 1008 {
                lemma_scaled(bits, f, ee, ff, 1050);
            }
        } else {
            lemma_zero(ee, ff);
        }
    }
}

/// So for a single.
pub proof fn single_is_the_same_number(s: u32, bits: u64)
    ensures
        ({
            let e = (s / 0x80_0000 % 0x100) as int;
            let f = (s % 0x80_0000) as int;
            let ee = (bits / 0x10_0000_0000_0000 % 0x800) as int;
            let ff = (bits % 0x10_0000_0000_0000) as int;
            let alike = if e == 0xff || ee == 0x7ff {
                e == 0xff && ee == 0x7ff && f == 0 && ff == 0
            } else {
                magnitude32(e, f) == magnitude(ee, ff)
            };
            same32(s, bits) <==> (s >= 0x8000_0000) == (bits >= 0x8000_0000_0000_0000) && alike
        }),
{
    let e = (s / 0x80_0000 % 0x100) as int;
    let f = (s % 0x80_0000) as int;
    let ee = (bits / 0x10_0000_0000_0000 % 0x800) as int;
    let ff = (bits % 0x10_0000_0000_0000) as int;
    lemma_double(bits);
    assert((s as u64 >> 23u64) & 0xff == s / 0x80_0000 % 0x100 && s as u64 & 0x7f_ffff == s
        % 0x80_0000 && (s as u64 >> 31u64 == 1 <==> s >= 0x8000_0000) && (s as u64 >> 31u64) <= 1
        && (s as u64 & 0x7f_ffff) << 29u64 == (s % 0x80_0000) * 0x2000_0000) by (bit_vector);
    lemma2_to64();
    lemma2_to64_rest();
    if e != 0xff && ee != 0x7ff {
        if e > 0 {
            lemma_normal(23, 925, e, f, ee, ff);
        } else if f > 0 {
            lemma_subnormal(23, 925, f, ee, ff);
            if 874 <= ee <= 896 {
                lemma_scaled(bits, f, ee, ff, 925);
            }
        } else {
            lemma_zero(ee, ff);
        }
    }
}

proof fn lemma_double(bits: u64)
    ensures
        (bits >> 52u64) & 0x7ff == bits / 0x10_0000_0000_0000 % 0x800,
        bits & 0xf_ffff_ffff_ffff == bits % 0x10_0000_0000_0000,
        (bits >> 63u64) == 1 <==> bits >= 0x8000_0000_0000_0000,
        (bits >> 63u64) <= 1,
        0x10_0000_0000_0000 | (bits & 0xf_ffff_ffff_ffff) == 0x10_0000_0000_0000 + bits
            % 0x10_0000_0000_0000,
{
    assert((bits >> 52u64) & 0x7ff == bits / 0x10_0000_0000_0000 % 0x800 && bits
        & 0xf_ffff_ffff_ffff == bits % 0x10_0000_0000_0000 && ((bits >> 63u64) == 1 <==> bits
        >= 0x8000_0000_0000_0000) && (bits >> 63u64) <= 1 && 0x10_0000_0000_0000 | (bits
        & 0xf_ffff_ffff_ffff) == 0x10_0000_0000_0000 + bits % 0x10_0000_0000_0000) by (bit_vector);
}

proof fn lemma_zero(ee: int, ff: int)
    requires
        0 <= ee,
        0 <= ff,
    ensures
        magnitude(ee, ff) == 0 <==> ee == 0 && ff == 0,
{
    if ee > 0 {
        lemma_pow2_pos((ee - 1) as nat);
        let p = pow2((ee - 1) as nat) as int;
        assert((0x10_0000_0000_0000 + ff) * p > 0) by (nonlinear_arith)
            requires
                p > 0,
                ff >= 0,
        ;
    }
}

/// Numbers with a leading one in the same place are equal only piece by piece.
proof fn lemma_pieces(m: int, a: nat, n: int, b: nat)
    requires
        0x10_0000_0000_0000 <= m < 0x20_0000_0000_0000,
        0x10_0000_0000_0000 <= n < 0x20_0000_0000_0000,
        m * pow2(a) == n * pow2(b),
    ensures
        a == b,
        m == n,
{
    lemma_pow2_pos(a);
    lemma_pow2_pos(b);
    let x = pow2(a) as int;
    let y = pow2(b) as int;
    if a < b {
        lemma_apart(a, b);
        assert(false) by (nonlinear_arith)
            requires
                m * x == n * y,
                y >= 2 * x,
                x > 0,
                m < 0x20_0000_0000_0000,
                n >= 0x10_0000_0000_0000,
        ;
    } else if b < a {
        lemma_apart(b, a);
        assert(false) by (nonlinear_arith)
            requires
                m * x == n * y,
                x >= 2 * y,
                y > 0,
                n < 0x20_0000_0000_0000,
                m >= 0x10_0000_0000_0000,
        ;
    } else {
        assert(m == n) by (nonlinear_arith)
            requires
                m * x == n * x,
                x > 0,
        ;
    }
}

proof fn lemma_apart(a: nat, b: nat)
    requires
        a < b,
    ensures
        pow2(b) >= 2 * pow2(a),
{
    let d = (b - a) as nat;
    lemma_pow2_adds(a, d);
    lemma2_to64();
    if d > 1 {
        lemma_pow2_strictly_increases(1, d);
    }
    lemma_pow2_pos(a);
    let x = pow2(a) as int;
    let y = pow2(d) as int;
    assert(x * y >= 2 * x) by (nonlinear_arith)
        requires
            y >= 2,
            x > 0,
    ;
}

/// A shorter number with a leading one and `w` bits behind it.
proof fn lemma_normal(w: nat, unit: nat, e: int, f: int, ee: int, ff: int)
    requires
        w == 10 && unit == 1050 || w == 23 && unit == 925,
        0 < e,
        0 <= f < pow2(w),
        0 <= ee,
        0 <= ff < 0x10_0000_0000_0000,
    ensures
        (pow2(w) + f) * pow2((e - 1 + unit) as nat) == magnitude(ee, ff) <==> ee == e + unit - 52
            + w && ff == f * pow2((52 - w) as nat),
{
    lemma2_to64();
    lemma2_to64_rest();
    let rest = (52 - w) as nat;
    let up = (e - 1 + unit) as nat;
    let a = (up - rest) as nat;
    lemma_pow2_adds(rest, a);
    lemma_pow2_pos(a);
    let r = pow2(rest) as int;
    let x = pow2(a) as int;
    let m = (pow2(w) + f) * r;
    assert((pow2(w) + f) * pow2(up) == m * x) by (nonlinear_arith)
        requires
            pow2(up) == r * x,
            m == (pow2(w) + f) * r,
    ;
    lemma_pow2_adds(w, rest);
    lemma_pow2_pos(rest);
    let top = pow2(w) as int;
    assert(m == top * r + f * r && 0 <= f * r < top * r) by (nonlinear_arith)
        requires
            m == (top + f) * r,
            0 <= f < top,
            0 < r,
    ;
    if ee == 0 {
        assert(m * x >= 0x10_0000_0000_0000) by (nonlinear_arith)
            requires
                m >= 0x10_0000_0000_0000,
                x >= 1,
        ;
    } else {
        let b = (ee - 1) as nat;
        let n = 0x10_0000_0000_0000 + ff;
        if m * x == n * pow2(b) {
            lemma_pieces(m, a, n, b);
        }
    }
}

/// A shorter number without a leading one: its fraction, moved up, is the longer one with its
/// leading one.
proof fn lemma_subnormal(w: nat, unit: nat, f: int, ee: int, ff: int)
    requires
        w == 10 && unit == 1050 || w == 23 && unit == 925,
        0 < f < pow2(w),
        0 <= ee,
        0 <= ff < 0x10_0000_0000_0000,
    ensures
        f * pow2(unit) == magnitude(ee, ff) <==> unit - 51 <= ee <= unit - 52 + w
            && 0x10_0000_0000_0000 + ff == f * pow2((unit + 1 - ee) as nat),
{
    lemma2_to64();
    lemma2_to64_rest();
    let sig = 0x10_0000_0000_0000 + ff;
    if ee == 0 {
        lemma_pow2_strictly_increases(52, unit);
        let u = pow2(unit) as int;
        assert(f * u >= u) by (nonlinear_arith)
            requires
                f >= 1,
                u > 0,
        ;
    } else if ee > unit {
        let d = (ee - 1 - unit) as nat;
        lemma_pow2_adds(unit, d);
        lemma_pow2_pos(unit);
        lemma_pow2_pos(d);
        let u = pow2(unit) as int;
        let p = pow2(d) as int;
        assert(sig * (u * p) > f * u) by (nonlinear_arith)
            requires
                sig > f,
                f > 0,
                u > 0,
                p >= 1,
        ;
    } else {
        let k = (unit + 1 - ee) as nat;
        let b = (ee - 1) as nat;
        lemma_pow2_adds(k, b);
        lemma_pow2_pos(b);
        let p = pow2(k) as int;
        let x = pow2(b) as int;
        assert(f * (p * x) == sig * x <==> f * p == sig) by (nonlinear_arith)
            requires
                x > 0,
        ;
        if f * p == sig {
            if k > 52 {
                lemma_pow2_strictly_increases(52, k);
                if k > 53 {
                    lemma_pow2_strictly_increases(53, k);
                }
                assert(f * p >= p) by (nonlinear_arith)
                    requires
                        f >= 1,
                        p > 0,
                ;
            }
            if k <= 52 - w {
                if k < 52 - w {
                    lemma_pow2_strictly_increases(k, (52 - w) as nat);
                }
                lemma_pow2_adds(w, (52 - w) as nat);
                let q = pow2((52 - w) as nat) as int;
                let top = pow2(w) as int;
                assert(f * p < top * q) by (nonlinear_arith)
                    requires
                        0 < f < top,
                        0 < p <= q,
                ;
            }
        }
    }
}

proof fn lemma_scaled(bits: u64, f: int, ee: int, ff: int, unit: nat)
    requires
        unit == 1050 || unit == 925,
        ff == bits % 0x10_0000_0000_0000,
        0 < f < 0x80_0000,
        unit - 51 <= ee <= unit - 29,
    ensures
        scaled(
            0x10_0000_0000_0000 | (bits & 0xf_ffff_ffff_ffff),
            f as u64,
            (unit + 1 - ee) as u64,
        ) <==> 0x10_0000_0000_0000 + ff == f * pow2((unit + 1 - ee) as nat),
{
    lemma_double(bits);
    lemma2_to64();
    lemma2_to64_rest();
    let sig = 0x10_0000_0000_0000u64 | (bits & 0xf_ffff_ffff_ffff);
    let k = (unit + 1 - ee) as u64;
    lemma_u64_shr_is_div(sig, k);
    lemma_pow2_pos(k as nat);
    let p = pow2(k as nat) as int;
    let q = (sig >> k) as int;
    vstd::arithmetic::div_mod::lemma_fundamental_div_mod(sig as int, p);
    assert(q == sig as int / p);
    assert(0 <= q * p <= sig) by (nonlinear_arith)
        requires
            sig == p * q + sig as int % p,
            0 <= sig as int % p,
            0 <= q,
            0 < p,
    ;
    lemma_u64_shl_is_mul(sig >> k, k);
    if sig == f * p {
        assert(f * p == p * f) by (nonlinear_arith);
        vstd::arithmetic::div_mod::lemma_div_multiples_vanish(f, p);
    }
}

} // verus!
