//! Whole numbers as quantities and back.

use vstd::arithmetic::div_mod::{lemma_div_denominator, lemma_fundamental_div_mod_converse};
use vstd::arithmetic::power2::{
    lemma2_to64, lemma2_to64_rest, lemma_pow2_adds, lemma_pow2_pos, lemma_pow2_unfold, pow2,
};
use vstd::bits::lemma_u64_shr_is_div;
use vstd::prelude::*;

use crate::scalar::{value, Scalar, INFINITY_BITS};

verus! {

/// Two to the 52nd: the weight of the leading one over the stored fraction.
pub const LEADING: u64 = 0x10_0000_0000_0000;

/// Two to the 53rd: every whole number up to it has a quantity of its own.
pub const WHOLE_LIMIT: u64 = 0x20_0000_0000_0000;

/// The quantity `k` times two to the power of `base` less 1022.
fn scaled(k: u64, base: u64) -> (r: Scalar)
    requires
        k < WHOLE_LIMIT,
        100 <= base <= 1900,
    ensures
        value(r) == k * pow2((52 + base) as nat),
        r.magnitude() < INFINITY_BITS,
        !r.negative(),
{
    if k == 0 {
        proof {
            assert(0 * pow2((52 + base) as nat) == 0) by (nonlinear_arith);
        }
        return Scalar { bits: 0 };
    }
    let mut m: u64 = k;
    let mut e: u64 = 52;
    proof {
        lemma2_to64();
        assert(k * pow2(0) == k) by (nonlinear_arith)
            requires
                pow2(0) == 1,
        ;
    }
    while m < LEADING
        invariant
            0 < k < WHOLE_LIMIT,
            0 < m < WHOLE_LIMIT,
            e <= 52,
            m == k * pow2((52 - e) as nat),
        decreases e,
    {
        proof {
            lemma2_to64_rest();
            lemma2_to64();
            lemma_pow2_unfold((53 - e) as nat);
            let p = pow2((52 - e) as nat);
            if e == 0 {
                assert(k * p >= p) by (nonlinear_arith)
                    requires
                        k >= 1,
                        p >= 0,
                ;
                assert(pow2(52) == LEADING);
                assert(false);
            }
            assert(2 * (k * p) == k * (2 * p)) by (nonlinear_arith);
        }
        m = 2 * m;
        e = e - 1;
    }
    let r = Scalar { bits: (base + e) * LEADING + m };
    proof {
        let unit = LEADING as int;
        let field = base + e + 1;
        let fraction = m - unit;
        assert(r.bits == field * unit + fraction) by (nonlinear_arith)
            requires
                r.bits == (base + e) * unit + m,
                field == base + e + 1,
                fraction == m - unit,
        ;
        assert(r.magnitude() == r.bits);
        lemma_fundamental_div_mod_converse(r.bits as int, unit, field as int, fraction);
        let p = pow2((52 - e) as nat);
        let q = pow2((base + e) as nat);
        lemma_pow2_adds((52 - e) as nat, (base + e) as nat);
        assert(value(r) == m * q);
        assert((k * p) * q == k * (p * q)) by (nonlinear_arith);
    }
    r
}

/// A whole number as a quantity.
pub fn from_whole(n: u64) -> (r: Scalar)
    requires
        n < WHOLE_LIMIT,
    ensures
        value(r) == n * pow2(1074),
        r.magnitude() < INFINITY_BITS,
        !r.negative(),
{
    scaled(n, 1022)
}

/// A whole number over two to the 53rd as a quantity.
pub fn unit_fraction(k: u64) -> (r: Scalar)
    requires
        k < WHOLE_LIMIT,
    ensures
        value(r) == k * pow2(1021),
        r.magnitude() < INFINITY_BITS,
        !r.negative(),
{
    scaled(k, 969)
}

/// The whole part of a quantity. Zero for what is below zero or not a number,
/// the largest number for what exceeds it.
pub open spec fn whole_spec(v: Scalar) -> int {
    if v.nan() || v.negative() {
        0
    } else if v.magnitude() == INFINITY_BITS || value(v) / (pow2(1074) as int) > u64::MAX {
        u64::MAX as int
    } else {
        value(v) / (pow2(1074) as int)
    }
}

/// The whole part of a quantity.
pub fn whole(v: Scalar) -> (r: u64)
    ensures
        r == whole_spec(v),
{
    if v.is_nan() || v.bits >= 0x8000_0000_0000_0000 {
        return 0;
    }
    let field: u64 = v.bits / LEADING;
    let fraction: u64 = v.bits % LEADING;
    let ghost one = pow2(1074) as int;
    proof {
        lemma_pow2_pos(1074);
        lemma2_to64();
        lemma2_to64_rest();
        assert(v.magnitude() == v.bits);
    }
    if field < 1023 {
        proof {
            lemma_below_one(v);
        }
        return 0;
    }
    let m: u64 = LEADING + fraction;
    let s: u64 = field - 1023;
    proof {
        assert(field == v.magnitude() / 0x10_0000_0000_0000);
        assert(fraction == v.magnitude() % 0x10_0000_0000_0000);
    }
    if s >= 64 {
        proof {
            if v.magnitude() != INFINITY_BITS {
                lemma_shifted_up(v, m as int, s as int);
                let q = pow2((s - 52) as nat);
                assert(pow2((s - 52) as nat) >= pow2(12)) by {
                    lemma_pow2_adds(12, (s - 64) as nat);
                    lemma_pow2_pos((s - 64) as nat);
                    assert(pow2(12) * pow2((s - 64) as nat) >= pow2(12)) by (nonlinear_arith)
                        requires
                            pow2((s - 64) as nat) >= 1,
                            pow2(12) >= 0,
                    ;
                }
                assert(m * q >= 0x10_0000_0000_0000 * 4096) by (nonlinear_arith)
                    requires
                        m >= 0x10_0000_0000_0000,
                        q >= 4096,
                ;
            }
        }
        return u64::MAX;
    }
    if s <= 52 {
        proof {
            lemma_shifted_down(v, m as int, s as int);
            lemma_u64_shr_is_div(m, (52 - s) as u64);
            lemma_pow2_pos((52 - s) as nat);
            let d = pow2((52 - s) as nat) as int;
            let whole_m = m as int;
            assert(whole_m / d <= whole_m) by (nonlinear_arith)
                requires
                    d >= 1,
                    whole_m >= 0,
            ;
        }
        m >> (52 - s)
    } else {
        let up: u64 = 1u64 << (s - 52);
        proof {
            lemma_shifted_up(v, m as int, s as int);
            vstd::bits::lemma_u64_shl_is_mul(1, (s - 52) as u64);
            let q = pow2((s - 52) as nat);
            assert(q <= pow2(11)) by {
                lemma_pow2_adds((s - 52) as nat, (63 - s) as nat);
                lemma_pow2_pos((63 - s) as nat);
                assert(q * pow2((63 - s) as nat) >= q) by (nonlinear_arith)
                    requires
                        pow2((63 - s) as nat) >= 1,
                        q >= 0,
                ;
            }
            assert(m * q <= 0x1f_ffff_ffff_ffff * 2048) by (nonlinear_arith)
                requires
                    0 <= m <= 0x1f_ffff_ffff_ffff,
                    0 <= q <= 2048,
            ;
        }
        m * up
    }
}

proof fn lemma_below_one(v: Scalar)
    requires
        !v.negative(),
        v.magnitude() / 0x10_0000_0000_0000 < 1023,
    ensures
        0 <= value(v) < pow2(1074),
        value(v) / (pow2(1074) as int) == 0,
{
    let field = v.magnitude() / 0x10_0000_0000_0000;
    let fraction = v.magnitude() % 0x10_0000_0000_0000;
    let one = pow2(1074) as int;
    lemma2_to64_rest();
    lemma_pow2_pos(1021);
    lemma_pow2_pos(1074);
    lemma_pow2_adds(53, 1021);
    assert(pow2(53) == 0x20_0000_0000_0000);
    let q = pow2(1021) as int;
    assert(0x20_0000_0000_0000 * q == one);
    if field == 0 {
        assert(fraction < 0x20_0000_0000_0000 * q) by (nonlinear_arith)
            requires
                fraction < 0x10_0000_0000_0000,
                q >= 1,
        ;
    } else {
        let p = pow2((field - 1) as nat) as int;
        lemma_pow2_pos((field - 1) as nat);
        lemma_pow2_adds((field - 1) as nat, (1022 - field) as nat);
        lemma_pow2_pos((1022 - field) as nat);
        let d = pow2((1022 - field) as nat) as int;
        assert(p <= q) by (nonlinear_arith)
            requires
                p * d == q,
                d >= 1,
                p >= 0,
        ;
        let m = 0x10_0000_0000_0000 + fraction;
        assert(0 <= m * p < 0x20_0000_0000_0000 * q) by (nonlinear_arith)
            requires
                0 <= m < 0x20_0000_0000_0000,
                0 < p <= q,
        ;
    }
    assert(value(v) / one == 0) by (nonlinear_arith)
        requires
            0 <= value(v) < one,
    ;
}

/// A quantity whose leading one weighs at least two to the 52nd is whole.
proof fn lemma_shifted_up(v: Scalar, m: int, s: int)
    requires
        !v.negative(),
        v.magnitude() / 0x10_0000_0000_0000 == s + 1023,
        m == 0x10_0000_0000_0000 + v.magnitude() % 0x10_0000_0000_0000,
        s >= 52,
    ensures
        value(v) / (pow2(1074) as int) == m * pow2((s - 52) as nat),
{
    let q = pow2((s - 52) as nat) as int;
    let one = pow2(1074) as int;
    lemma_pow2_pos(1074);
    lemma_pow2_adds(1074, (s - 52) as nat);
    assert(value(v) == m * pow2((1022 + s) as nat));
    assert(m * (one * q) == (m * q) * one) by (nonlinear_arith);
    assert(0 <= m * q) by (nonlinear_arith)
        requires
            m >= 0,
            q >= 0,
    ;
    lemma_fundamental_div_mod_converse(value(v), one, m * q, 0);
}

/// Below that the whole part is what is left of the leading bits.
proof fn lemma_shifted_down(v: Scalar, m: int, s: int)
    requires
        !v.negative(),
        v.magnitude() / 0x10_0000_0000_0000 == s + 1023,
        m == 0x10_0000_0000_0000 + v.magnitude() % 0x10_0000_0000_0000,
        0 <= s <= 52,
    ensures
        value(v) / (pow2(1074) as int) == m / (pow2((52 - s) as nat) as int),
{
    let low = pow2((1022 + s) as nat) as int;
    let d = pow2((52 - s) as nat) as int;
    let one = pow2(1074) as int;
    lemma_pow2_pos((1022 + s) as nat);
    lemma_pow2_pos((52 - s) as nat);
    lemma_pow2_adds((1022 + s) as nat, (52 - s) as nat);
    assert(value(v) == m * low);
    assert(m * low == low * m) by (nonlinear_arith);
    lemma_div_denominator(low * m, low, d);
    assert(low * m / low == m) by {
        assert(low * m == m * low) by (nonlinear_arith);
        lemma_fundamental_div_mod_converse(low * m, low, m, 0);
    }
}

/// A whole number that became a quantity comes back.
pub proof fn law_whole_number_comes_back(n: u64, r: Scalar)
    requires
        value(r) == n * pow2(1074),
        r.magnitude() < INFINITY_BITS,
        !r.negative(),
    ensures
        whole_spec(r) == n,
{
    lemma_pow2_pos(1074);
    lemma_fundamental_div_mod_converse(value(r), pow2(1074) as int, n as int, 0);
}

/// The whole part of a quantity that lies from a whole number on and below the next
/// one is that number. What is negative or no number has none, and what exceeds
/// every whole number that can be told gives the largest of them.
pub proof fn law_whole_part_is_the_floor(v: Scalar, n: u64)
    ensures
        !v.nan() && !v.negative() && v.magnitude() < INFINITY_BITS && n * pow2(1074) <= value(v)
            < (n + 1) * pow2(1074) ==> whole_spec(v) == n,
        v.nan() || v.negative() ==> whole_spec(v) == 0,
        !v.nan() && !v.negative() && (v.magnitude() == INFINITY_BITS || value(v) >= (u64::MAX + 1)
            * pow2(1074)) ==> whole_spec(v) == u64::MAX,
{
    let one = pow2(1074) as int;
    lemma_pow2_pos(1074);
    if n * one <= value(v) < (n + 1) * one {
        let left = value(v) - n * one;
        assert((n + 1) * one == n * one + one) by (nonlinear_arith);
        lemma_fundamental_div_mod_converse(value(v), one, n as int, left);
    }
    if value(v) >= (u64::MAX + 1) * one {
        let most = (u64::MAX + 1) as int;
        let whole_part = value(v) / one;
        let all = value(v);
        assert(whole_part >= most) by (nonlinear_arith)
            requires
                all >= most * one,
                one > 0,
                whole_part == all / one,
        ;
    }
}

} // verus!
