//! The rounding machinery of FIPS 204: centered reduction (`mod±`),
//! `power2round`, `decompose`, high and low bits, the hint bit, and the
//! infinity norm — all on single coefficients.  Polynomial and vector
//! variants live with the polynomial types; the laws relating these
//! functions are proved here.
use vstd::arithmetic::div_mod::{
    lemma_fundamental_div_mod, lemma_fundamental_div_mod_converse, lemma_mod_multiples_vanish,
    lemma_mod_self_0, lemma_small_mod,
};
use vstd::prelude::*;

use crate::field::barrett_reduce;
use crate::poly::{Polynomial, PolynomialVector};
use crate::param::Q;

verus! {

/// The centered representative of `x` modulo `m`: the unique value
/// congruent to `x` in (-m/2, m/2] (for even m; in [-(m-1)/2, (m-1)/2]
/// for odd m).
pub open spec fn mod_pm(x: int, m: int) -> int
    recommends
        m >= 2,
{
    let r = x % m;
    if r <= m / 2 {
        r
    } else {
        r - m
    }
}

/// A signed value in (-q, q) as its canonical residue in [0, q).
pub open spec fn to_fe(v: int) -> int
    recommends
        -(Q as int) < v < Q,
{
    if v < 0 {
        v + Q
    } else {
        v
    }
}

/// The infinity norm of a coefficient: the absolute value of its centered
/// representative.
pub open spec fn fe_norm(x: int) -> int
    recommends
        0 <= x < Q,
{
    if x <= (Q - 1) / 2 {
        x
    } else {
        Q - x
    }
}

/// The low part of `decompose`: `mod±` with the single adjustment that keeps
/// the high part in range when `x - r0` hits q - 1.
pub open spec fn decompose_r0(x: int, tg: int) -> int
    recommends
        0 <= x < Q,
        tg >= 2,
{
    let r0 = mod_pm(x, tg);
    if x - r0 == Q - 1 {
        r0 - 1
    } else {
        r0
    }
}

/// The high part of `decompose`.
pub open spec fn decompose_r1(x: int, tg: int) -> int
    recommends
        0 <= x < Q,
        tg >= 2,
{
    let r0 = mod_pm(x, tg);
    if x - r0 == Q - 1 {
        0
    } else {
        (x - r0) / tg
    }
}

/// The hint bit of FIPS 204 `MakeHint`: whether adding `z` changes the high
/// part of `r`.
pub open spec fn make_hint_spec(z: int, r: int, tg: int) -> bool
    recommends
        0 <= z < Q,
        0 <= r < Q,
        tg >= 2,
{
    decompose_r1(r, tg) != decompose_r1((r + z) % (Q as int), tg)
}

/// The corrected high part of FIPS 204 `UseHint`.
pub open spec fn use_hint_spec(h: bool, x: int, tg: int) -> int
    recommends
        0 <= x < Q,
        tg >= 2,
{
    let m = (Q - 1) / tg;
    let r1 = decompose_r1(x, tg);
    let r0f = to_fe(decompose_r0(x, tg));
    if !h {
        r1
    } else if r0f <= tg / 2 {
        (r1 + 1) % m
    } else {
        (r1 + m - 1) % m
    }
}

/// The Power2Round law: with `r0 = mod± 2^13` and `r1 = (r - r0) / 2^13`,
/// the split is exact — `r == r1 * 2^13 + r0` — and `|r0| <= 2^12`.
pub proof fn lemma_power2round(x: int)
    requires
        0 <= x < Q,
    ensures
        ((x - mod_pm(x, 8192)) / 8192) * 8192 + mod_pm(x, 8192) == x,
        -4096 < mod_pm(x, 8192) <= 4096,
        0 <= (x - mod_pm(x, 8192)) / 8192 < 1024,
{
    lemma_fundamental_div_mod(x, 8192);
}

/// The Decompose law: `r == r1 * (2*gamma2) + r0 (mod q)` with `|r0| <= gamma2`
/// and `0 <= r1 < (q-1)/(2*gamma2)`.
pub proof fn lemma_decompose(x: int, tg: int)
    requires
        0 <= x < Q,
        tg == 190464 || tg == 523776,
    ensures
        (decompose_r1(x, tg) * tg + decompose_r0(x, tg)) % (Q as int) == x % (Q as int),
        -(tg / 2) <= decompose_r0(x, tg) <= tg / 2,
        0 <= decompose_r1(x, tg) < (Q - 1) / tg,
{
    lemma_fundamental_div_mod(x, tg);
    let r0 = mod_pm(x, tg);
    if x - r0 == Q - 1 {
        vstd::arithmetic::div_mod::lemma_mod_multiples_vanish(-1, x, Q as int);
        lemma_small_mod(x as nat, Q as nat);
    } else {
        lemma_small_mod(x as nat, Q as nat);
    }
}

/// The high part of `decompose` as one closed formula: shifting by
/// `gamma2 - 1` turns the centered rounding into a floor division, and the
/// overflow correction becomes reduction mod `(q-1)/tg`.
proof fn lemma_r1_char(x: int, tg: int)
    requires
        0 <= x < Q,
        tg == 190464 || tg == 523776,
    ensures
        decompose_r1(x, tg) == ((x + tg / 2 - 1) / tg) % ((Q - 1) / tg),
{
    let q = Q as int;
    let g = tg / 2;
    let m = (q - 1) / tg;
    let a = x / tg;
    let b = x % tg;
    lemma_fundamental_div_mod(x, tg);
    if b <= g {
        // mod_pm(x, tg) == b, and x + g - 1 == a * tg + (b + g - 1)
        lemma_fundamental_div_mod_converse(x + g - 1, tg, a, b + g - 1);
        assert(x - mod_pm(x, tg) == a * tg);
        if a == m {
            assert(a * tg == q - 1);
            assert(decompose_r1(x, tg) == 0);
            lemma_mod_self_0(m);
        } else {
            assert(a < m) by {
                assert(a * tg <= x);
                assert(a > m ==> a * tg >= (m + 1) * tg > q - 1 + tg);
            }
            assert((a * tg) / tg == a) by {
                lemma_fundamental_div_mod_converse(a * tg, tg, a, 0);
            }
            lemma_small_mod(a as nat, m as nat);
        }
    } else {
        // mod_pm(x, tg) == b - tg, and x + g - 1 == (a + 1) * tg + (b - g - 1)
        lemma_fundamental_div_mod_converse(x + g - 1, tg, a + 1, b - tg + g - 1);
        assert(x - mod_pm(x, tg) == (a + 1) * tg);
        if a + 1 == m {
            assert(decompose_r1(x, tg) == 0);
            lemma_mod_self_0(m);
        } else {
            assert(a + 1 < m) by {
                assert(a + 1 > m ==> (a + 1) * tg >= (m + 1) * tg > q - 1 + tg);
            }
            assert(((a + 1) * tg) / tg == a + 1) by {
                lemma_fundamental_div_mod_converse((a + 1) * tg, tg, a + 1, 0);
            }
            lemma_small_mod((a + 1) as nat, m as nat);
        }
    }
}

/// The branch `UseHint` takes — whether the stored low part is at most
/// gamma2 — in terms of the shifted quotient and remainder of its argument.
proof fn lemma_r0_branch(x: int, tg: int)
    requires
        0 <= x < Q,
        tg == 190464 || tg == 523776,
    ensures
        (to_fe(decompose_r0(x, tg)) <= tg / 2) <==> ((x + tg / 2 - 1) / tg < (Q - 1) / tg && (x
            + tg / 2 - 1) % tg >= tg / 2 - 1),
{
    let q = Q as int;
    let g = tg / 2;
    let m = (q - 1) / tg;
    let a = x / tg;
    let b = x % tg;
    lemma_fundamental_div_mod(x, tg);
    if b <= g {
        lemma_fundamental_div_mod_converse(x + g - 1, tg, a, b + g - 1);
        assert(x - mod_pm(x, tg) == a * tg);
        if a == m {
        } else {
            assert(a < m) by {
                assert(a > m ==> a * tg >= (m + 1) * tg > q - 1 + tg);
            }
        }
    } else {
        lemma_fundamental_div_mod_converse(x + g - 1, tg, a + 1, b - tg + g - 1);
        assert(x - mod_pm(x, tg) == (a + 1) * tg);
        if a + 1 == m {
        } else {
            assert(a + 1 < m) by {
                assert(a + 1 > m ==> (a + 1) * tg >= (m + 1) * tg > q - 1 + tg);
            }
        }
    }
}

/// Hint correctness: for `|z|` (centered) strictly below gamma2, the hint bit
/// produced by `MakeHint(z, r)` lets `UseHint` recover the high part of
/// `r + z` from `r` alone.
#[verifier::rlimit(100)]
#[verifier::spinoff_prover]
pub proof fn lemma_hint_correct(z: int, r: int, tg: int)
    requires
        0 <= z < Q,
        0 <= r < Q,
        tg == 190464 || tg == 523776,
        fe_norm(z) < tg / 2,
    ensures
        use_hint_spec(make_hint_spec(z, r, tg), r, tg) == decompose_r1(
            (r + z) % (Q as int),
            tg,
        ),
{
    let q = Q as int;
    let g = tg / 2;
    let m = (q - 1) / tg;
    let zc = mod_pm(z, q);
    let v = (r + z) % q;
    // v is r + zc brought back into [0, q)
    lemma_small_mod(z as nat, q as nat);
    assert(-g < zc < g);
    if zc == z {
        if r + z < q {
            lemma_small_mod((r + z) as nat, q as nat);
        } else {
            lemma_mod_multiples_vanish(-1, r + z, q);
            lemma_small_mod((r + z - q) as nat, q as nat);
        }
    } else {
        assert(zc == z - q);
        lemma_mod_multiples_vanish(1, r + zc, q);
        if r + zc >= 0 {
            lemma_small_mod((r + zc) as nat, q as nat);
        } else {
            lemma_mod_multiples_vanish(1, r + zc, q);
            lemma_small_mod((r + zc + q) as nat, q as nat);
        }
    }
    assert(v == r + zc || v == r + zc - q || v == r + zc + q);
    assert(0 <= v < q);
    lemma_r1_char(r, tg);
    lemma_r1_char(v, tg);
    let a = r / tg;
    let b = r % tg;
    lemma_fundamental_div_mod(r, tg);
    lemma_fundamental_div_mod(r + g - 1, tg);
    lemma_fundamental_div_mod(v + g - 1, tg);
    // the shifted remainder of r decides every case
    let sa = (r + g - 1) / tg;
    let sb = (r + g - 1) % tg;
    if b <= g {
        lemma_fundamental_div_mod_converse(r + g - 1, tg, a, b + g - 1);
    } else {
        lemma_fundamental_div_mod_converse(r + g - 1, tg, a + 1, b - tg + g - 1);
    }
    assert(sa * tg + sb == r + g - 1);
    // v + g - 1 == sa * tg + (sb + zc), with sb + zc in (-tg, 2 * tg)
    if v == r + zc {
        if sb + zc < 0 {
            lemma_fundamental_div_mod_converse(v + g - 1, tg, sa - 1, sb + zc + tg);
        } else if sb + zc < tg {
            lemma_fundamental_div_mod_converse(v + g - 1, tg, sa, sb + zc);
        } else {
            lemma_fundamental_div_mod_converse(v + g - 1, tg, sa + 1, sb + zc - tg);
        }
    } else if v == r + zc - q {
        // r near the top: sa is m and the quotient wraps to 0
        assert(v + g - 1 == (sa - m) * tg + (sb + zc - 1));
        if sb + zc - 1 < 0 {
            lemma_fundamental_div_mod_converse(v + g - 1, tg, sa - m - 1, sb + zc - 1 + tg);
        } else if sb + zc - 1 < tg {
            lemma_fundamental_div_mod_converse(v + g - 1, tg, sa - m, sb + zc - 1);
        } else {
            lemma_fundamental_div_mod_converse(v + g - 1, tg, sa - m + 1, sb + zc - 1 - tg);
        }
    } else {
        // r near the bottom: the quotient wraps up to m
        assert(v + g - 1 == (sa + m) * tg + (sb + zc + 1));
        if sb + zc + 1 < 0 {
            lemma_fundamental_div_mod_converse(v + g - 1, tg, sa + m - 1, sb + zc + 1 + tg);
        } else if sb + zc + 1 < tg {
            lemma_fundamental_div_mod_converse(v + g - 1, tg, sa + m, sb + zc + 1);
        } else {
            lemma_fundamental_div_mod_converse(v + g - 1, tg, sa + m + 1, sb + zc + 1 - tg);
        }
    }
    // both high parts are now pinned as shifted quotients; each case below is
    // one congruence class of sv - sa mod m
    let sv = (v + g - 1) / tg;
    lemma_r0_branch(r, tg);
    lemma_mod_step(sa, m);
    lemma_mod_step(sa + 1, m);
    lemma_mod_step(sa - 1, m);
    let r1 = sa % m;
    let v1 = sv % m;
    assert(decompose_r1(r, tg) == r1);
    assert(decompose_r1(v, tg) == v1);
    // the wrap cases pin sa at the ends of its range
    if v == r + zc - q {
        assert(sa == m);
        assert(sb <= g - 1);
    }
    if v == r + zc + q {
        assert(sa == 0);
        assert(sb == r + g - 1);
    }
    if sv == sa || sv == sa - m || sv == sa + m {
        assert(v1 == r1);
    } else if sv == sa + 1 || sv == sa - m + 1 || sv == sa + m + 1 {
        assert(v1 == (sa + 1) % m);
        assert(v1 != r1);
        // the step up happens only above the branch threshold
        assert(sa < m && sb >= g - 1);
        assert(to_fe(decompose_r0(r, tg)) <= g);
        assert(use_hint_spec(true, r, tg) == ((sa % m) + 1) % m);
        assert(v1 == use_hint_spec(true, r, tg));
    } else {
        assert(sv == sa - 1 || sv == sa - m - 1 || sv == sa + m - 1);
        assert(v1 == (sa - 1) % m);
        assert(v1 != r1);
        // the step down happens only below the threshold or at the wrap
        assert(!(sa < m && sb >= g - 1));
        assert(!(to_fe(decompose_r0(r, tg)) <= g));
        assert(use_hint_spec(true, r, tg) == ((sa % m) + m - 1) % m);
        assert(v1 == use_hint_spec(true, r, tg));
    }
}

/// Stepping facts about `x % m` for the two concrete values of `(q-1)/tg`:
/// shifting by `m` is invisible, and stepping by one changes the residue.
proof fn lemma_mod_step(s: int, m: int)
    requires
        m == 44 || m == 16,
    ensures
        (s + m) % m == s % m,
        (s - m) % m == s % m,
        ((s % m) + 1) % m == (s + 1) % m,
        ((s % m) + m - 1) % m == (s - 1) % m,
        (s + 1) % m != s % m,
        (s - 1) % m != s % m,
{
    lemma_fundamental_div_mod(s, m);
    let d = s / m;
    let sm = s % m;
    lemma_fundamental_div_mod_converse(s + m, m, d + 1, sm);
    lemma_fundamental_div_mod_converse(s - m, m, d - 1, sm);
    if sm < m - 1 {
        lemma_fundamental_div_mod_converse(s + 1, m, d, sm + 1);
        lemma_small_mod((sm + 1) as nat, m as nat);
    } else {
        lemma_fundamental_div_mod_converse(s + 1, m, d + 1, 0);
        lemma_mod_self_0(m);
    }
    if sm >= 1 {
        lemma_fundamental_div_mod_converse(s - 1, m, d, sm - 1);
        lemma_mod_multiples_vanish(1, sm - 1, m);
        lemma_small_mod((sm - 1) as nat, m as nat);
    } else {
        lemma_fundamental_div_mod_converse(s - 1, m, d - 1, m - 1);
        lemma_mod_multiples_vanish(1, m - 1, m);
        lemma_small_mod((m - 1) as nat, m as nat);
    }
}

/// `mod±`: the centered representative of a field element for modulus `m`,
/// returned as a canonical residue in [0, q).
pub fn mod_plus_minus_fe(x: u32, m: u32) -> (r: u32)
    requires
        x < Q,
        4096 <= m,
        m <= 0x800000,
    ensures
        r == to_fe(mod_pm(x as int, m as int)),
        r < Q,
{
    proof {
        assert((Q as int) <= (m as int) * (m as int)) by (nonlinear_arith)
            requires
                4096 <= (m as int),
        ;
    }
    let raw = barrett_reduce(x as u64, m);
    if raw <= m / 2 {
        raw
    } else {
        raw + Q - m
    }
}

/// The infinity norm of a field element.
pub fn infinity_norm_fe(x: u32) -> (r: u32)
    requires
        x < Q,
    ensures
        r == fe_norm(x as int),
        r <= (Q - 1) / 2,
{
    if x <= (Q - 1) / 2 {
        x
    } else {
        Q - x
    }
}

/// `power2round`: split `x` as `r1 * 2^13 + r0` with `r0` centered in
/// (-2^12, 2^12].  Returns `(r1, r0)` with `r0` as a canonical residue.
pub fn power2round_fe(x: u32) -> (r: (u32, u32))
    requires
        x < Q,
    ensures
        r.1 == to_fe(mod_pm(x as int, 8192)),
        r.0 == (x - mod_pm(x as int, 8192)) / 8192,
        r.0 * 8192 + mod_pm(x as int, 8192) == x,
        r.0 < 1024,
        r.1 < Q,
{
    let raw = barrett_reduce(x as u64, 8192);
    proof {
        lemma_fundamental_div_mod(x as int, 8192);
    }
    if raw <= 4096 {
        let r1 = (x - raw) / 8192;
        (r1, raw)
    } else {
        let r1 = (x - raw + 8192) / 8192;
        (r1, raw + Q - 8192)
    }
}

/// `decompose` for `2 * gamma2` equal to `tg`: split `x` as
/// `r1 * tg + r0` with `r0` centered, correcting the single overflow case so
/// that `r1` stays in `[0, (q-1)/tg)`.  Returns `(r1, r0)` with `r0` as a
/// canonical residue.
pub fn decompose_fe(x: u32, tg: u32) -> (r: (u32, u32))
    requires
        x < Q,
        tg == 190464 || tg == 523776,
    ensures
        r.0 == decompose_r1(x as int, tg as int),
        r.1 == to_fe(decompose_r0(x as int, tg as int)),
        r.0 < (Q - 1) / (tg as int),
        r.1 < Q,
{
    let raw = barrett_reduce(x as u64, tg);
    proof {
        lemma_fundamental_div_mod(x as int, tg as int);
    }
    if raw <= tg / 2 {
        // r0 = raw >= 0
        let t = x - raw;
        if t == Q - 1 {
            (0, raw + Q - 1)
        } else {
            (t / tg, raw)
        }
    } else {
        // r0 = raw - tg < 0
        let t = x - raw + tg;
        if t == Q - 1 {
            (0, raw + Q - tg - 1)
        } else {
            (t / tg, raw + Q - tg)
        }
    }
}

/// `HighBits`: the high part of `decompose`.
pub fn high_bits_fe(x: u32, tg: u32) -> (r: u32)
    requires
        x < Q,
        tg == 190464 || tg == 523776,
    ensures
        r == decompose_r1(x as int, tg as int),
{
    let (r1, _r0) = decompose_fe(x, tg);
    r1
}

/// `LowBits`: the low part of `decompose`, as a canonical residue.
pub fn low_bits_fe(x: u32, tg: u32) -> (r: u32)
    requires
        x < Q,
        tg == 190464 || tg == 523776,
    ensures
        r == to_fe(decompose_r0(x as int, tg as int)),
        r < Q,
{
    let (_r1, r0) = decompose_fe(x, tg);
    r0
}

/// `MakeHint`: one hint bit.
pub fn make_hint_fe(z: u32, r: u32, tg: u32) -> (h: bool)
    requires
        z < Q,
        r < Q,
        tg == 190464 || tg == 523776,
    ensures
        h == make_hint_spec(z as int, r as int, tg as int),
{
    let r1 = high_bits_fe(r, tg);
    let sum = crate::field::fe_add(r, z);
    proof {
        lemma_small_mod(((r + z) % (Q as int)) as nat, Q as nat);
    }
    let v1 = high_bits_fe(sum, tg);
    r1 != v1
}

/// `UseHint`: recover the corrected high part from the hint bit.
pub fn use_hint_fe(h: bool, x: u32, tg: u32) -> (r: u32)
    requires
        x < Q,
        tg == 190464 || tg == 523776,
    ensures
        r == use_hint_spec(h, x as int, tg as int),
        r < (Q - 1) / (tg as int),
{
    let m: u32 = (Q - 1) / tg;
    let (r1, r0) = decompose_fe(x, tg);
    if !h {
        r1
    } else if r0 <= tg / 2 {
        (r1 + 1) % m
    } else {
        (r1 + m - 1) % m
    }
}

/// `power2round` over a whole vector: splits every coefficient.
pub fn power2round_vector(t: &PolynomialVector, k: usize) -> (r: (
    PolynomialVector,
    PolynomialVector,
))
    requires
        t.wf(k as int),
    ensures
        r.0.wf(k as int),
        r.1.wf(k as int),
        forall|i: int, j: int|
            0 <= i < k && 0 <= j < 256 ==> r.0.polys@[i].coeffs@[j] == (t.polys@[i].coeffs@[j]
                - mod_pm(t.polys@[i].coeffs@[j] as int, 8192)) / 8192,
        forall|i: int, j: int|
            0 <= i < k && 0 <= j < 256 ==> r.1.polys@[i].coeffs@[j] == to_fe(
                mod_pm(t.polys@[i].coeffs@[j] as int, 8192),
            ),
        forall|i: int, j: int| 0 <= i < k && 0 <= j < 256 ==> r.0.polys@[i].coeffs@[j] < 1024,
{
    let mut hi: Vec<Polynomial> = Vec::new();
    let mut lo: Vec<Polynomial> = Vec::new();
    let mut i: usize = 0;
    while i < k
        invariant
            i <= k,
            t.wf(k as int),
            hi@.len() == i,
            lo@.len() == i,
            forall|a: int| 0 <= a < i ==> (#[trigger] hi@[a]).wf(),
            forall|a: int| 0 <= a < i ==> (#[trigger] lo@[a]).wf(),
            forall|a: int, j: int|
                0 <= a < i && 0 <= j < 256 ==> hi@[a].coeffs@[j] == (t.polys@[a].coeffs@[j]
                    - mod_pm(t.polys@[a].coeffs@[j] as int, 8192)) / 8192,
            forall|a: int, j: int|
                0 <= a < i && 0 <= j < 256 ==> lo@[a].coeffs@[j] == to_fe(
                    mod_pm(t.polys@[a].coeffs@[j] as int, 8192),
                ),
            forall|a: int, j: int| 0 <= a < i && 0 <= j < 256 ==> hi@[a].coeffs@[j] < 1024,
        decreases k - i,
    {
        let mut hc: Vec<u32> = Vec::new();
        let mut lc: Vec<u32> = Vec::new();
        let mut j: usize = 0;
        while j < 256
            invariant
                j <= 256,
                i < k,
                t.wf(k as int),
                hc@.len() == j,
                lc@.len() == j,
                forall|s: int|
                    0 <= s < j ==> hc@[s] == (t.polys@[i as int].coeffs@[s] - mod_pm(
                        t.polys@[i as int].coeffs@[s] as int,
                        8192,
                    )) / 8192,
                forall|s: int|
                    0 <= s < j ==> lc@[s] == to_fe(
                        mod_pm(t.polys@[i as int].coeffs@[s] as int, 8192),
                    ),
                forall|s: int| 0 <= s < j ==> hc@[s] < 1024,
                forall|s: int| 0 <= s < j ==> lc@[s] < Q,
            decreases 256 - j,
        {
            let (r1, r0) = power2round_fe(t.polys[i].coeffs[j]);
            hc.push(r1);
            lc.push(r0);
            j = j + 1;
        }
        hi.push(Polynomial { coeffs: hc });
        lo.push(Polynomial { coeffs: lc });
        i = i + 1;
    }
    (PolynomialVector { polys: hi }, PolynomialVector { polys: lo })
}

/// `HighBits` over a whole vector.
pub fn high_bits_vector(v: &PolynomialVector, tg: u32, k: usize) -> (r: PolynomialVector)
    requires
        v.wf(k as int),
        tg == 190464 || tg == 523776,
    ensures
        r.wf(k as int),
        forall|i: int, j: int|
            0 <= i < k && 0 <= j < 256 ==> r.polys@[i].coeffs@[j] == decompose_r1(
                v.polys@[i].coeffs@[j] as int,
                tg as int,
            ),
        forall|i: int, j: int|
            0 <= i < k && 0 <= j < 256 ==> r.polys@[i].coeffs@[j] < (Q - 1) / (tg as int),
{
    let mut out: Vec<Polynomial> = Vec::new();
    let mut i: usize = 0;
    while i < k
        invariant
            i <= k,
            v.wf(k as int),
            tg == 190464 || tg == 523776,
            out@.len() == i,
            forall|a: int| 0 <= a < i ==> (#[trigger] out@[a]).wf(),
            forall|a: int, j: int|
                0 <= a < i && 0 <= j < 256 ==> out@[a].coeffs@[j] == decompose_r1(
                    v.polys@[a].coeffs@[j] as int,
                    tg as int,
                ),
            forall|a: int, j: int|
                0 <= a < i && 0 <= j < 256 ==> out@[a].coeffs@[j] < (Q - 1) / (tg as int),
        decreases k - i,
    {
        let mut c: Vec<u32> = Vec::new();
        let mut j: usize = 0;
        while j < 256
            invariant
                j <= 256,
                i < k,
                v.wf(k as int),
                tg == 190464 || tg == 523776,
                c@.len() == j,
                forall|s: int|
                    0 <= s < j ==> c@[s] == decompose_r1(
                        v.polys@[i as int].coeffs@[s] as int,
                        tg as int,
                    ),
                forall|s: int| 0 <= s < j ==> c@[s] < (Q - 1) / (tg as int),
            decreases 256 - j,
        {
            c.push(high_bits_fe(v.polys[i].coeffs[j], tg));
            j = j + 1;
        }
        out.push(Polynomial { coeffs: c });
        i = i + 1;
    }
    PolynomialVector { polys: out }
}

/// `LowBits` over a whole vector, canonical residues.
pub fn low_bits_vector(v: &PolynomialVector, tg: u32, k: usize) -> (r: PolynomialVector)
    requires
        v.wf(k as int),
        tg == 190464 || tg == 523776,
    ensures
        r.wf(k as int),
        forall|i: int, j: int|
            0 <= i < k && 0 <= j < 256 ==> r.polys@[i].coeffs@[j] == to_fe(
                decompose_r0(v.polys@[i].coeffs@[j] as int, tg as int),
            ),
{
    let mut out: Vec<Polynomial> = Vec::new();
    let mut i: usize = 0;
    while i < k
        invariant
            i <= k,
            v.wf(k as int),
            tg == 190464 || tg == 523776,
            out@.len() == i,
            forall|a: int| 0 <= a < i ==> (#[trigger] out@[a]).wf(),
            forall|a: int, j: int|
                0 <= a < i && 0 <= j < 256 ==> out@[a].coeffs@[j] == to_fe(
                    decompose_r0(v.polys@[a].coeffs@[j] as int, tg as int),
                ),
        decreases k - i,
    {
        let mut c: Vec<u32> = Vec::new();
        let mut j: usize = 0;
        while j < 256
            invariant
                j <= 256,
                i < k,
                v.wf(k as int),
                tg == 190464 || tg == 523776,
                c@.len() == j,
                forall|s: int|
                    0 <= s < j ==> c@[s] == to_fe(
                        decompose_r0(v.polys@[i as int].coeffs@[s] as int, tg as int),
                    ),
                forall|s: int| 0 <= s < j ==> c@[s] < Q,
            decreases 256 - j,
        {
            c.push(low_bits_fe(v.polys[i].coeffs[j], tg));
            j = j + 1;
        }
        out.push(Polynomial { coeffs: c });
        i = i + 1;
    }
    PolynomialVector { polys: out }
}

} // verus!
