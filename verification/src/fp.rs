//! Exact integer-to-float coercion, carried out on IEEE 754 bit patterns.
//!
//! The verified pipeline never computes with floats; a float value is its
//! 64-bit IEEE 754 pattern. When a column widened to float, integer values
//! still arrive for it and must be coerced. Every integer of magnitude at
//! most 2^53 is exactly representable, and its bit pattern is a pure
//! function of the integer, built here from sign, exponent and mantissa
//! with integer arithmetic alone.

use vstd::prelude::*;
use vstd::arithmetic::power2::pow2;

verus! {

/// The magnitude bound under which an integer is exactly representable as
/// a 64-bit float.
pub const FLOAT_EXACT_BOUND: i64 = 9007199254740992;

/// Position of the highest set bit (floor of the base-2 logarithm).
pub open spec fn top_bit(m: nat) -> nat
    decreases m,
{
    if m <= 1 {
        0
    } else {
        1 + top_bit((m / 2) as nat)
    }
}

/// `pow2(top_bit(m)) <= m < pow2(top_bit(m) + 1)` for every `m >= 1`.
pub proof fn lemma_top_bit_bounds(m: nat)
    requires
        m >= 1,
    ensures
        pow2(top_bit(m)) <= m < pow2(top_bit(m) + 1),
    decreases m,
{
    if m <= 1 {
        vstd::arithmetic::power2::lemma2_to64();
    } else {
        let h = (m / 2) as nat;
        lemma_top_bit_bounds(h);
        let t = top_bit(h);
        assert(pow2(t + 1) == 2 * pow2(t)) by {
            vstd::arithmetic::power2::lemma_pow2_unfold(t + 1);
        }
        assert(pow2(t + 2) == 2 * pow2(t + 1)) by {
            vstd::arithmetic::power2::lemma_pow2_unfold(t + 2);
        }
        assert(m >= 2 * h);
        assert(m <= 2 * h + 1);
        assert(top_bit(m) == t + 1);
    }
}

/// The IEEE 754 double-precision bit pattern of an integer of magnitude at
/// most 2^53: sign bit, biased exponent, and the mantissa left after
/// removing the implicit leading one.
pub open spec fn spec_int_to_float_bits(i: int) -> u64
    recommends
        -(FLOAT_EXACT_BOUND as int) <= i <= FLOAT_EXACT_BOUND as int,
{
    if i == 0 {
        0
    } else {
        let s: int = if i < 0 {
            0x8000000000000000
        } else {
            0
        };
        let m: nat = (if i < 0 {
            -i
        } else {
            i
        }) as nat;
        let e = top_bit(m);
        if e >= 53 {
            (s + 0x4340000000000000) as u64
        } else {
            let mant = m * pow2((52 - e) as nat) - pow2(52);
            (s + (e + 1023) * 0x10000000000000 + mant) as u64
        }
    }
}

/// Executable twin of `spec_int_to_float_bits`.
#[verifier::loop_isolation(false)]
pub fn int_to_float_bits(i: i64) -> (r: u64)
    requires
        -FLOAT_EXACT_BOUND <= i <= FLOAT_EXACT_BOUND,
    ensures
        r == spec_int_to_float_bits(i as int),
{
    if i == 0 {
        return 0;
    }
    let neg = i < 0;
    let m: u64 = if neg {
        (-i) as u64
    } else {
        i as u64
    };
    let sign: u64 = if neg {
        0x8000000000000000
    } else {
        0
    };
    proof {
        vstd::arithmetic::power2::lemma2_to64_rest();
        lemma_top_bit_bounds(m as nat);
        assert(top_bit(m as nat) <= 53) by {
            if top_bit(m as nat) > 53 {
                vstd::arithmetic::power2::lemma_pow2_strictly_increases(53, top_bit(m as nat));
            }
        }
    }
    // Find the position of the highest set bit.
    let mut e: u64 = 0;
    let mut t: u64 = m;
    while t >= 2
        invariant
            1 <= t <= m,
            top_bit(m as nat) == e + top_bit(t as nat),
        decreases t,
    {
        t = t / 2;
        e = e + 1;
    }
    assert(e == top_bit(m as nat));
    if e >= 53 {
        // The only admissible magnitude with its top bit at 53 is 2^53
        // itself, whose mantissa field is zero.
        assert(e == 53 && m == 0x20000000000000) by {
            if top_bit(m as nat) > 53 {
                vstd::arithmetic::power2::lemma_pow2_strictly_increases(
                    53,
                    top_bit(m as nat),
                );
            }
        }
        return sign + 0x4340000000000000;
    }
    // Scale the magnitude so its top bit sits at position 52.
    proof {
        vstd::arithmetic::power2::lemma2_to64();
        if e + 1 < 53 {
            vstd::arithmetic::power2::lemma_pow2_strictly_increases((e + 1) as nat, 53);
        }
        assert(m < 0x20000000000000);
        assert(m * pow2(0) == m);
    }
    let mut sc: u64 = m;
    let mut d: u64 = e;
    while d < 52
        invariant
            e <= d <= 52,
            e == top_bit(m as nat),
            e <= 52,
            m < 0x20000000000000,
            sc == m * pow2((d - e) as nat),
            sc < pow2((d + 1) as nat),
            pow2((d - e) as nat) >= 1,
        decreases 52 - d,
    {
        proof {
            vstd::arithmetic::power2::lemma_pow2_unfold((d + 1 - e) as nat);
            vstd::arithmetic::power2::lemma_pow2_unfold((d + 2) as nat);
            assert(pow2((d + 2) as nat) <= pow2(54)) by {
                if ((d + 2) as nat) < 54 {
                    vstd::arithmetic::power2::lemma_pow2_strictly_increases(
                        (d + 2) as nat,
                        54,
                    );
                }
            }
            vstd::arithmetic::power2::lemma2_to64_rest();
            let p = pow2((d - e) as nat);
            assert(pow2((d + 1 - e) as nat) == 2 * p);
            assert(m * (2 * p) == (m * p) * 2) by (nonlinear_arith);
        }
        sc = sc * 2;
        d = d + 1;
    }
    proof {
        assert(sc == m * pow2((52 - e) as nat));
        assert(pow2(52) <= sc < pow2(53)) by {
            assert(m >= pow2(e as nat));
            vstd::arithmetic::power::lemma_pow_multiplies(2, e as nat, (52 - e) as nat);
            assert(pow2(e as nat) * pow2((52 - e) as nat) == pow2(52)) by {
                vstd::arithmetic::power2::lemma_pow2_adds(e as nat, (52 - e) as nat);
            }
            vstd::arithmetic::mul::lemma_mul_inequality(
                pow2(e as nat) as int,
                m as int,
                pow2((52 - e) as nat) as int,
            );
        }
    }
    let mant: u64 = sc - 0x10000000000000;
    let bits: u64 = sign + (e + 1023) * 0x10000000000000 + mant;
    proof {
        assert((e + 1023) * 0x10000000000000 <= 1075 * 0x10000000000000) by (nonlinear_arith)
            requires
                e <= 52,
        ;
    }
    bits
}

} // verus!
