//! Numbers with a fraction, by the 64 bits of their IEEE 754 form.

use vstd::arithmetic::div_mod;
use vstd::arithmetic::power2;
use vstd::prelude::*;

verus! {

/// 2 to the 52: as many fractions there are.
pub const FRACTIONS: u64 = 0x10_0000_0000_0000;

/// 2 to the 63: the first number that an `i64` cannot hold.
pub const LIMIT: u64 = 0x8000_0000_0000_0000;

/// The eleven bits of the exponent.
pub open spec fn exponent_bits(bits: u64) -> int {
    bits as int / FRACTIONS as int % 2048
}

/// The number is below zero, or the zero with a sign.
pub open spec fn is_negative(bits: u64) -> bool {
    bits >= LIMIT
}

/// The bits stand for no number.
pub open spec fn is_nan(bits: u64) -> bool {
    exponent_bits(bits) == 2047 && bits as int % FRACTIONS as int != 0
}

/// The whole number by which a power of two is multiplied.
pub open spec fn mantissa(bits: u64) -> int {
    if exponent_bits(bits) == 0 {
        bits as int % FRACTIONS as int
    } else {
        bits as int % FRACTIONS as int + FRACTIONS
    }
}

/// The exponent of that power of two.
pub open spec fn scale(bits: u64) -> int {
    if exponent_bits(bits) == 0 {
        -1074
    } else {
        exponent_bits(bits) - 1075
    }
}

/// The number without its sign, with its fraction cut off. (What stands for infinity comes to
/// more than an `i64` can hold.)
pub open spec fn size_down(bits: u64) -> int {
    if scale(bits) >= 0 {
        mantissa(bits) * power2::pow2(scale(bits) as nat)
    } else {
        mantissa(bits) / (power2::pow2((-scale(bits)) as nat) as int)
    }
}

/// The number without its sign, rounded up.
pub open spec fn size_up(bits: u64) -> int {
    if scale(bits) >= 0 {
        mantissa(bits) * power2::pow2(scale(bits) as nat)
    } else {
        let p = power2::pow2((-scale(bits)) as nat) as int;
        (mantissa(bits) + p - 1) / p
    }
}

/// The `i64` that is nearest to a number.
pub open spec fn nearest(n: int) -> i64 {
    if n > i64::MAX {
        i64::MAX
    } else if n < i64::MIN {
        i64::MIN
    } else {
        n as i64
    }
}

/// The number with its fraction cut off, as a cast to `i64` does it.
pub open spec fn cut_off(bits: u64) -> i64 {
    if is_nan(bits) {
        0
    } else if is_negative(bits) {
        nearest(-size_down(bits))
    } else {
        nearest(size_down(bits))
    }
}

/// The number rounded up, and cast to `i64`.
pub open spec fn rounded_up(bits: u64) -> i64 {
    if is_nan(bits) {
        0
    } else if is_negative(bits) {
        nearest(-size_down(bits))
    } else {
        nearest(size_up(bits))
    }
}

/// 2 to the `e`.
fn power(e: u64) -> (r: u64)
    requires
        e <= 52,
    ensures
        r == power2::pow2(e as nat),
        1 <= r <= FRACTIONS,
{
    let mut r: u64 = 1;
    let mut i: u64 = 0;
    proof {
        power2::lemma2_to64();
        power2::lemma2_to64_rest();
    }
    while i < e
        invariant
            i <= e <= 52,
            r == power2::pow2(i as nat),
            power2::pow2(52) == FRACTIONS,
        decreases e - i,
    {
        proof {
            power2::lemma_pow2_unfold((i + 1) as nat);
            if i + 1 < 52 {
                power2::lemma_pow2_strictly_increases((i + 1) as nat, 52);
            }
        }
        r = 2 * r;
        i = i + 1;
    }
    proof {
        power2::lemma_pow2_pos(e as nat);
        if e < 52 {
            power2::lemma_pow2_strictly_increases(e as nat, 52);
        }
    }
    r
}

proof fn lemma_too_large(m: int, e: nat)
    requires
        m >= FRACTIONS,
        e >= 11,
    ensures
        m * power2::pow2(e) >= LIMIT,
{
    power2::lemma2_to64();
    if e > 11 {
        power2::lemma_pow2_strictly_increases(11, e);
    }
    let p = power2::pow2(e) as int;
    assert(m * p >= FRACTIONS * 2048) by (nonlinear_arith)
        requires
            m >= FRACTIONS,
            p >= 2048,
    ;
}

proof fn lemma_too_small(m: int, e: nat)
    requires
        0 <= m < 2 * FRACTIONS,
        e >= 53,
    ensures
        m / (power2::pow2(e) as int) == 0,
        (m + power2::pow2(e) - 1) / (power2::pow2(e) as int) == if m > 0 {
            1int
        } else {
            0
        },
{
    power2::lemma2_to64();
    power2::lemma2_to64_rest();
    if e > 53 {
        power2::lemma_pow2_strictly_increases(53, e);
    }
    let p = power2::pow2(e) as int;
    div_mod::lemma_fundamental_div_mod_converse(m, p, 0, m);
    if m > 0 {
        div_mod::lemma_fundamental_div_mod_converse(m + p - 1, p, 1, m - 1);
    } else {
        div_mod::lemma_fundamental_div_mod_converse(p - 1, p, 0, p - 1);
    }
}

/// The number without its sign, cut off and rounded up; `LIMIT` in place of what is greater.
fn sizes(bits: u64) -> (r: (u64, u64))
    ensures
        r.0 == if size_down(bits) < LIMIT {
            size_down(bits)
        } else {
            LIMIT as int
        },
        r.1 == if size_up(bits) < LIMIT {
            size_up(bits)
        } else {
            LIMIT as int
        },
{
    let e: u64 = bits / FRACTIONS % 2048;
    let f: u64 = bits % FRACTIONS;
    let m: u64 = if e == 0 {
        f
    } else {
        f + FRACTIONS
    };
    let e: u64 = if e == 0 {
        1
    } else {
        e
    };
    if e >= 1075 {
        let up: u64 = e - 1075;
        if up >= 11 {
            proof {
                lemma_too_large(m as int, up as nat);
            }
            (LIMIT, LIMIT)
        } else {
            let p: u64 = power(up);
            proof {
                power2::lemma2_to64();
                if up < 10 {
                    power2::lemma_pow2_strictly_increases(up as nat, 10);
                }
            }
            assert(m * p < LIMIT) by (nonlinear_arith)
                requires
                    m < 2 * FRACTIONS,
                    p <= 1024,
            ;
            (m * p, m * p)
        }
    } else {
        let down: u64 = 1075 - e;
        if down >= 53 {
            proof {
                lemma_too_small(m as int, down as nat);
            }
            (0, if m > 0 {
                1
            } else {
                0
            })
        } else {
            let p: u64 = power(down);
            let r: (u64, u64) = (m / p, (m + p - 1) / p);
            proof {
                div_mod::lemma_div_is_ordered_by_denominator(m as int, 1, p as int);
                div_mod::lemma_div_is_ordered_by_denominator(m + p - 1, 1, p as int);
            }
            r
        }
    }
}

/// The number with its sign, brought into the range of `i64`.
fn signed(bits: u64, size: u64) -> (r: i64)
    requires
        size <= LIMIT,
    ensures
        r == nearest(
            if is_negative(bits) {
                -(size as int)
            } else {
                size as int
            },
        ),
{
    if bits >= LIMIT {
        (-(size as i128)) as i64
    } else if size >= LIMIT {
        i64::MAX
    } else {
        size as i64
    }
}

/// Whether the bits stand for no number.
fn no_number(bits: u64) -> (r: bool)
    ensures
        r == is_nan(bits),
{
    bits / FRACTIONS % 2048 == 2047 && bits % FRACTIONS != 0
}

/// The number with its fraction cut off, as a cast to `i64` does it.
pub fn cut(bits: u64) -> (r: i64)
    ensures
        r == cut_off(bits),
{
    if no_number(bits) {
        return 0;
    }
    signed(bits, sizes(bits).0)
}

/// The number rounded up, and cast to `i64`.
pub fn round_up(bits: u64) -> (r: i64)
    ensures
        r == rounded_up(bits),
{
    if no_number(bits) {
        return 0;
    }
    let (down, up) = sizes(bits);
    if bits >= LIMIT {
        signed(bits, down)
    } else {
        signed(bits, up)
    }
}

/// A number that is rounded up exceeds the same number with its fraction cut off by one at most.
pub proof fn law_rounded_up_is_near(bits: u64)
    ensures
        cut_off(bits) <= rounded_up(bits) <= cut_off(bits) + 1,
{
    if scale(bits) < 0 {
        let e = (-scale(bits)) as nat;
        let p = power2::pow2(e) as int;
        let m = mantissa(bits);
        power2::lemma_pow2_pos(e);
        div_mod::lemma_div_is_ordered(m, m + p - 1, p);
        div_mod::lemma_div_is_ordered(m + p - 1, m + p, p);
        div_mod::lemma_div_plus_one(m, p);
    }
}

/// A number between zero and what an `i64` can hold, from its bits: with its fraction cut off it
/// is the greatest whole number that is not above it, and rounded up the least that is not below
/// it. `f` is the fraction's bits and `e` the exponent's.
pub proof fn law_whole_numbers_around(bits: u64, f: int, e: int)
    requires
        bits == f + e * FRACTIONS,
        0 <= f < FRACTIONS,
        1 <= e < 1075,
    ensures
        ({
            let p = power2::pow2((1075 - e) as nat) as int;
            let m = f + FRACTIONS;
            &&& cut_off(bits) * p <= m < (cut_off(bits) + 1) * p
            &&& (rounded_up(bits) - 1) * p < m <= rounded_up(bits) * p
        }),
{
    let p = power2::pow2((1075 - e) as nat) as int;
    let m = f + FRACTIONS;
    power2::lemma_pow2_pos((1075 - e) as nat);
    div_mod::lemma_fundamental_div_mod_converse(bits as int, FRACTIONS as int, e, f);
    assert(exponent_bits(bits) == e);
    assert(mantissa(bits) == m);
    assert(bits < LIMIT);
    let down = m / p;
    let up = (m + p - 1) / p;
    div_mod::lemma_fundamental_div_mod(m, p);
    div_mod::lemma_fundamental_div_mod(m + p - 1, p);
    div_mod::lemma_mod_bound(m, p);
    div_mod::lemma_mod_bound(m + p - 1, p);
    assert(down * p <= m < (down + 1) * p) by (nonlinear_arith)
        requires
            m == p * down + m % p,
            0 <= m % p < p,
    ;
    assert((up - 1) * p < m <= up * p) by (nonlinear_arith)
        requires
            m + p - 1 == p * up + (m + p - 1) % p,
            0 <= (m + p - 1) % p < p,
    ;
    assert(0 <= down <= m && up <= m + 1) by (nonlinear_arith)
        requires
            down * p <= m,
            (up - 1) * p < m,
            m < (down + 1) * p,
            p >= 1,
            m >= 0,
    ;
}

/// A number below zero is cut off as its opposite is, and rounded up by that alone; and what is smaller than one, or no number,
/// comes to nothing.
pub proof fn law_signs_and_nothing(bits: u64)
    requires
        bits < LIMIT,
    ensures
        cut_off(bits) < i64::MAX ==> cut_off((bits + LIMIT) as u64) == -cut_off(bits),
        rounded_up((bits + LIMIT) as u64) == cut_off((bits + LIMIT) as u64),
        bits < FRACTIONS ==> cut_off(bits) == 0,
        is_nan(bits) ==> cut_off(bits) == 0 && rounded_up(bits) == 0,
        cut_off(bits) >= 0,
{
    let other = (bits + LIMIT) as u64;
    let q = bits as int / FRACTIONS as int;
    let r = bits as int % FRACTIONS as int;
    assert(LIMIT == 2048 * FRACTIONS);
    div_mod::lemma_fundamental_div_mod(bits as int, FRACTIONS as int);
    div_mod::lemma_fundamental_div_mod_converse(
        other as int,
        FRACTIONS as int,
        q + 2048,
        r,
    );
    assert(exponent_bits(other) == exponent_bits(bits));
    assert(mantissa(other) == mantissa(bits) && scale(other) == scale(bits));
    assert(size_down(bits) >= 0) by {
        if scale(bits) >= 0 {
            let m = mantissa(bits);
            let p = power2::pow2(scale(bits) as nat) as int;
            assert(m * p >= 0) by (nonlinear_arith)
                requires
                    m >= 0,
                    p >= 0,
            ;
        } else {
            power2::lemma_pow2_pos((-scale(bits)) as nat);
            div_mod::lemma_div_pos_is_pos(
                mantissa(bits),
                power2::pow2((-scale(bits)) as nat) as int,
            );
        }
    }
    if bits < FRACTIONS {
        assert(exponent_bits(bits) == 0);
        power2::lemma2_to64();
        power2::lemma2_to64_rest();
        power2::lemma_pow2_strictly_increases(52, 1074);
        div_mod::lemma_basic_div(mantissa(bits), power2::pow2(1074) as int);
    }
}

/// A whole number that the bits stand for, with the exponent of a number above 2 to the 52, is
/// kept as it is where an `i64` can hold it; a greater one, and what stands for infinity, comes to
/// the greatest that it can hold.
pub proof fn law_whole_number_kept(bits: u64, f: int, e: int)
    requires
        bits == f + e * FRACTIONS,
        0 <= f < FRACTIONS,
        1075 <= e < 2047 || e == 2047 && f == 0,
    ensures
        ({
            let n = (f + FRACTIONS) * power2::pow2((e - 1075) as nat);
            &&& n <= i64::MAX ==> cut_off(bits) == n && rounded_up(bits) == n
            &&& n > i64::MAX ==> cut_off(bits) == i64::MAX && rounded_up(bits) == i64::MAX
        }),
{
    div_mod::lemma_fundamental_div_mod_converse(bits as int, FRACTIONS as int, e, f);
    assert(exponent_bits(bits) == e);
    assert(bits < LIMIT);
    let p = power2::pow2((e - 1075) as nat) as int;
    let m = f + FRACTIONS;
    assert(m * p >= 0) by (nonlinear_arith)
        requires
            m >= 0,
            p >= 0,
    ;
}

}
