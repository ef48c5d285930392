//! Arithmetic in the field Z_q, q = 2^23 - 2^13 + 1.  Every executable
//! operation returns the canonical residue in [0, q); the contracts state the
//! results as integer arithmetic mod q.  Reduction for the larger moduli used
//! by the rounding machinery goes through a proved Barrett reduction.
use vstd::arithmetic::div_mod::{
    lemma_fundamental_div_mod, lemma_mod_multiples_vanish, lemma_small_mod,
};
use vstd::arithmetic::power::{lemma_pow_adds, lemma_pow1, pow};
use vstd::prelude::*;

use crate::param::Q;

verus! {

/// The quotient produced by the Barrett step is close enough: for any
/// `big >= m * m`, with `t = big / m` and `quo = (x * t) / big`, the value
/// `x - quo * m` lies in [0, 2m).
proof fn lemma_barrett_quotient(x: int, m: int, big: int) by (nonlinear_arith)
    requires
        2 <= m,
        0 <= x < m * m,
        m * m <= big,
    ensures
        0 <= x - ((x * (big / m)) / big) * m < 2 * m,
{
    let t = big / m;
    let quo = (x * t) / big;
    lemma_fundamental_div_mod(big, m);
    lemma_fundamental_div_mod(x * t, big);
    assert(m * t <= big && big < m * t + m);
    assert(big * quo <= x * t && x * t < big * quo + big);
    // upper bound: quo * m <= x
    assert(big * (quo * m) <= (x * t) * m);
    assert((x * t) * m == x * (t * m));
    assert(x * (t * m) <= x * big);
    assert(big * (quo * m) <= big * x);
    assert(quo * m <= x);
    // lower bound: x - quo * m < 2 * m
    assert(big * quo > x * t - big);
    assert(m * (big * quo) > m * (x * t) - m * big);
    assert(x * (big - m) <= x * (m * t));
    assert(m * (x * t) >= x * big - x * m);
    assert(x * m < (m * m) * m);
    assert((m * m) * m <= big * m);
    assert(big * (m * quo) > big * x - big * m - big * m);
    assert(m * quo > x - 2 * m);
}

/// Barrett reduction: `x mod m` for any modulus `2 <= m <= 2^23` and input
/// `x < m * m`, computed with one multiplication, one division by a power of
/// two's stand-in `big`, and at most one corrective subtraction.
pub fn barrett_reduce(x: u64, m: u32) -> (r: u32)
    requires
        2 <= m,
        m <= 0x800000,
        x < (m as u64) * (m as u64),
    ensures
        r == x as int % m as int,
        r < m,
{
    // find big = smallest power of two above m, squared
    let mut p: u64 = 1;
    while p <= m as u64
        invariant
            1 <= p,
            p <= 2 * (m as u64),
            m <= 0x800000,
        decreases 2 * (m as u64) - p,
    {
        p = p * 2;
    }
    proof {
        assert((m as u64) < p && p <= 2 * (m as u64));
        assert((p as int) * (p as int) <= 4 * 0x800000 * 2 * 0x800000) by (nonlinear_arith)
            requires
                0 <= (p as int),
                (p as int) <= 2 * 0x800000,
        ;
    }
    let big: u64 = p * p;
    proof {
        assert((m as int) * (m as int) <= (p as int) * (p as int)) by (nonlinear_arith)
            requires
                (m as int) < (p as int),
                0 <= (m as int),
        ;
    }
    let t: u64 = big / m as u64;
    proof {
        lemma_barrett_quotient(x as int, m as int, big as int);
        assert((x as int) * (t as int) < 0x10000000000000000 * 0x10000000000000000)
            by (nonlinear_arith)
            requires
                0 <= (x as int) < 0x10000000000000000,
                0 <= (t as int) < 0x10000000000000000,
        ;
    }
    let prod: u128 = (x as u128) * (t as u128);
    proof {
        assert((prod as int) / (big as int) <= (x as int)) by (nonlinear_arith)
            requires
                prod == (x as int) * (t as int),
                0 <= (x as int),
                0 <= (t as int) <= (big as int),
                0 < (big as int),
        ;
    }
    let quo: u64 = (prod / (big as u128)) as u64;
    let rem: u64 = x - quo * (m as u64);
    if rem < m as u64 {
        proof {
            assert(x as int == (m as int) * (quo as int) + rem) by (nonlinear_arith)
                requires
                    rem == x - (quo as int) * (m as int),
            ;
            lemma_mod_multiples_vanish(quo as int, rem as int, m as int);
            lemma_small_mod(rem as nat, m as nat);
        }
        rem as u32
    } else {
        proof {
            assert(x as int == (m as int) * (quo as int + 1) + (rem - m)) by (nonlinear_arith)
                requires
                    rem == x - (quo as int) * (m as int),
            ;
            lemma_mod_multiples_vanish(quo as int + 1, (rem - m) as int, m as int);
            lemma_small_mod((rem - m) as nat, m as nat);
        }
        (rem - m as u64) as u32
    }
}

/// Addition mod q.
pub fn fe_add(a: u32, b: u32) -> (r: u32)
    requires
        a < Q,
        b < Q,
    ensures
        r == (a + b) % (Q as int),
        r < Q,
{
    let s = a + b;
    if s >= Q {
        proof {
            lemma_mod_multiples_vanish(1, s - Q, Q as int);
            lemma_small_mod((s - Q) as nat, Q as nat);
        }
        s - Q
    } else {
        proof {
            lemma_small_mod(s as nat, Q as nat);
        }
        s
    }
}

/// Subtraction mod q, stated over the centered difference `a - b`.
pub fn fe_sub(a: u32, b: u32) -> (r: u32)
    requires
        a < Q,
        b < Q,
    ensures
        r == (a - b) % (Q as int),
        r < Q,
{
    let s = a + Q - b;
    proof {
        if s >= Q {
            lemma_mod_multiples_vanish(1, s - Q, Q as int);
            lemma_small_mod((s - Q) as nat, Q as nat);
        } else {
            lemma_small_mod(s as nat, Q as nat);
        }
        lemma_mod_multiples_vanish(-1, s as int, Q as int);
    }
    if s >= Q {
        s - Q
    } else {
        s
    }
}

/// Negation mod q.
pub fn fe_neg(a: u32) -> (r: u32)
    requires
        a < Q,
    ensures
        r == (-(a as int)) % (Q as int),
        r < Q,
{
    fe_sub(0, a)
}

/// Multiplication mod q, through Barrett reduction.
pub fn fe_mul(a: u32, b: u32) -> (r: u32)
    requires
        a < Q,
        b < Q,
    ensures
        r == (a * b) % (Q as int),
        r < Q,
{
    proof {
        assert((a as int) * (b as int) < (Q as int) * (Q as int)) by (nonlinear_arith)
            requires
                0 <= (a as int) < (Q as int),
                0 <= (b as int) < (Q as int),
        ;
    }
    barrett_reduce((a as u64) * (b as u64), Q)
}

/// `base^exp mod q` by repeated multiplication.
pub fn fe_pow(base: u32, exp: u32) -> (r: u32)
    requires
        base < Q,
        exp <= 0xffff,
    ensures
        r == pow(base as int, exp as nat) % (Q as int),
        r < Q,
{
    let mut r: u32 = 1;
    proof {
        vstd::arithmetic::power::lemma_pow0(base as int);
        lemma_small_mod(1nat, Q as nat);
    }
    let mut i: u32 = 0;
    while i < exp
        invariant
            i <= exp,
            exp <= 0xffff,
            base < Q,
            r < Q,
            r == pow(base as int, i as nat) % (Q as int),
        decreases exp - i,
    {
        proof {
            lemma_pow_adds(base as int, i as nat, 1nat);
            lemma_pow1(base as int);
            // (r * base) % q == (pow(base, i) * base) % q
            vstd::arithmetic::div_mod::lemma_mul_mod_noop_left(
                pow(base as int, i as nat),
                base as int,
                Q as int,
            );
        }
        r = fe_mul(r, base);
        i = i + 1;
    }
    r
}

} // verus!
