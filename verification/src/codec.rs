//! Fixed-width little-endian bit packing.  A 256-coefficient array packed at
//! width `d` is specified through one number: the packed bytes are exactly
//! the base-256 digits of `sum_j v[j] * 2^(d*j)`, and decoding extracts the
//! base-2^d digits back.  `SimpleBitPack` handles unsigned ranges; `BitPack`
//! maps the signed range [-a, b] through `y = b - x` first.
use vstd::arithmetic::div_mod::{
    lemma_fundamental_div_mod, lemma_fundamental_div_mod_converse, lemma_small_mod,
};
use vstd::arithmetic::power2::{lemma2_to64, lemma_pow2_adds, pow2};
use vstd::prelude::*;

use crate::param::Q;
use crate::poly::{Polynomial, PolynomialVector};

verus! {

/// `2^e` as an int.
pub open spec fn p2(e: int) -> int
    recommends
        e >= 0,
{
    pow2(e as nat) as int
}

/// The packed value of the first `i` entries of `v` at bit width `d`:
/// `sum_{j < i} v[j] * 2^(d*j)`.
pub open spec fn packed_nat(v: Seq<int>, d: int, i: int) -> int
    decreases i,
{
    if i <= 0 {
        0
    } else {
        packed_nat(v, d, i - 1) + v[i - 1] * p2(d * (i - 1))
    }
}

/// The value of the first `i` bytes of `b` read little-endian:
/// `sum_{j < i} b[j] * 256^j`.
pub open spec fn bytes_nat(b: Seq<u8>, i: int) -> int
    decreases i,
{
    if i <= 0 {
        0
    } else {
        bytes_nat(b, i - 1) + b[i - 1] * p2(8 * (i - 1))
    }
}

/// A sequence of u32 values as mathematical integers.
pub open spec fn ints_of(s: Seq<u32>) -> Seq<int> {
    s.map_values(|x: u32| x as int)
}

/// Two sequences that agree on a prefix pack to the same value there.
proof fn lemma_packed_prefix(v1: Seq<int>, v2: Seq<int>, d: int, i: int)
    requires
        0 <= i <= v1.len(),
        i <= v2.len(),
        forall|j: int| 0 <= j < i ==> v1[j] == v2[j],
    ensures
        packed_nat(v1, d, i) == packed_nat(v2, d, i),
    decreases i,
{
    if i > 0 {
        lemma_packed_prefix(v1, v2, d, i - 1);
    }
}

/// Two byte strings that agree on a prefix have the same value there.
proof fn lemma_bytes_prefix(b1: Seq<u8>, b2: Seq<u8>, i: int)
    requires
        0 <= i <= b1.len(),
        i <= b2.len(),
        forall|j: int| 0 <= j < i ==> b1[j] == b2[j],
    ensures
        bytes_nat(b1, i) == bytes_nat(b2, i),
    decreases i,
{
    if i > 0 {
        lemma_bytes_prefix(b1, b2, i - 1);
    }
}

/// A packed prefix of `i` width-`d` values is below `2^(d*i)`.
proof fn lemma_packed_bound(v: Seq<int>, d: int, i: int)
    requires
        d >= 1,
        0 <= i <= v.len(),
        forall|j: int| 0 <= j < i ==> 0 <= #[trigger] v[j] < p2(d),
    ensures
        0 <= packed_nat(v, d, i) < p2(d * i),
    decreases i,
{
    vstd::arithmetic::power2::lemma_pow2_pos((d * i) as nat);
    if i > 0 {
        lemma_packed_bound(v, d, i - 1);
        lemma_pow2_adds((d * (i - 1)) as nat, d as nat);
        assert(p2(d * (i - 1)) * p2(d) == p2(d * i)) by {
            assert(d * (i - 1) + d == d * i) by (nonlinear_arith);
        }
        assert(0 <= packed_nat(v, d, i) < p2(d * i)) by (nonlinear_arith)
            requires
                packed_nat(v, d, i) == packed_nat(v, d, i - 1) + v[i - 1] * p2(d * (i - 1)),
                0 <= packed_nat(v, d, i - 1) < p2(d * (i - 1)),
                0 <= v[i - 1] < p2(d),
                p2(d * (i - 1)) * p2(d) == p2(d * i),
        ;
    }
}

/// Digit extraction: dividing the packed value by `2^(d*j)` and reducing mod
/// `2^d` recovers the j-th entry.
pub proof fn lemma_packed_extract(v: Seq<int>, d: int, i: int, j: int)
    requires
        d >= 1,
        0 <= i <= v.len(),
        0 <= j < i,
        forall|t: int| 0 <= t < i ==> 0 <= #[trigger] v[t] < p2(d),
    ensures
        (packed_nat(v, d, i) / p2(d * j)) % p2(d) == v[j],
    decreases i,
{
    vstd::arithmetic::power2::lemma_pow2_pos((d * j) as nat);
    vstd::arithmetic::power2::lemma_pow2_pos(d as nat);
    if j == i - 1 {
        lemma_packed_bound(v, d, i - 1);
        // packed(i) == packed(i-1) + v[j] * p2(d*j), packed(i-1) < p2(d*j)
        assert(packed_nat(v, d, i) / p2(d * j) == v[j]) by {
            lemma_fundamental_div_mod_converse(
                packed_nat(v, d, i),
                p2(d * j),
                v[j],
                packed_nat(v, d, i - 1),
            );
        }
        lemma_small_mod(v[j] as nat, p2(d) as nat);
    } else {
        lemma_packed_extract(v, d, i - 1, j);
        // the top entry adds a multiple of p2(d*(j+1)); it shifts the
        // quotient by a multiple of p2(d) and vanishes mod p2(d)
        let lo = packed_nat(v, d, i - 1);
        let top = v[i - 1] * p2(d * (i - 1));
        lemma_pow2_adds((d * j) as nat, d as nat);
        assert(d * j + d == d * (j + 1)) by (nonlinear_arith);
        let c = v[i - 1] * p2(d * (i - 1) - d * (j + 1)) * p2(d);
        assert(top == c * p2(d * j)) by {
            lemma_pow2_adds((d * (i - 1) - d * (j + 1)) as nat, d as nat);
            lemma_pow2_adds((d * (i - 1) - d * j) as nat, (d * j) as nat);
            assert(d * (i - 1) - d * (j + 1) >= 0) by (nonlinear_arith)
                requires
                    j + 1 <= i - 1,
                    d >= 1,
            ;
            assert(v[i - 1] * p2(d * (i - 1) - d * (j + 1)) * p2(d) * p2(d * j) == v[i - 1] * (p2(
                d * (i - 1) - d * (j + 1)) * p2(d) * p2(d * j))) by (nonlinear_arith);
            assert(p2(d * (i - 1) - d * (j + 1)) * p2(d) * p2(d * j) == p2(d * (i - 1)))
                by (nonlinear_arith)
                requires
                    p2(d * (i - 1) - d * (j + 1)) * p2(d) == p2(d * (i - 1) - d * j),
                    p2(d * (i - 1) - d * j) * p2(d * j) == p2(d * (i - 1)),
            ;
        }
        lemma_fundamental_div_mod(lo, p2(d * j));
        let qq = lo / p2(d * j);
        let rr = lo % p2(d * j);
        assert(lo + top == (qq + c) * p2(d * j) + rr) by (nonlinear_arith)
            requires
                lo == qq * p2(d * j) + rr,
                top == c * p2(d * j),
        ;
        lemma_fundamental_div_mod_converse(lo + top, p2(d * j), qq + c, rr);
        // (qq + c) % p2(d) == qq % p2(d) since c is a multiple of p2(d)
        assert((qq + v[i - 1] * p2(d * (i - 1) - d * (j + 1)) * p2(d)) % p2(d) == qq % p2(d)) by {
            vstd::arithmetic::div_mod::lemma_mod_multiples_vanish(
                v[i - 1] * p2(d * (i - 1) - d * (j + 1)),
                qq,
                p2(d),
            );
            assert(p2(d) * (v[i - 1] * p2(d * (i - 1) - d * (j + 1))) == v[i - 1] * p2(
                d * (i - 1) - d * (j + 1)) * p2(d)) by (nonlinear_arith);
        }
    }
}

/// A byte string as mathematical integers.
pub open spec fn byte_ints(b: Seq<u8>) -> Seq<int> {
    b.map_values(|x: u8| x as int)
}

/// The little-endian byte value is the width-8 packed value of the bytes.
proof fn lemma_bytes_nat_is_packed(b: Seq<u8>, i: int)
    requires
        0 <= i <= b.len(),
    ensures
        bytes_nat(b, i) == packed_nat(byte_ints(b), 8, i),
    decreases i,
{
    if i > 0 {
        lemma_bytes_nat_is_packed(b, i - 1);
    }
}

/// Byte extraction: each byte of a string is a base-256 digit of its value,
/// so the value and the length pin the bytes.
pub proof fn lemma_bytes_extract(b: Seq<u8>, i: int, t: int)
    requires
        0 <= t < i <= b.len(),
    ensures
        b[t] as int == (bytes_nat(b, i) / p2(8 * t)) % 256,
{
    lemma_bytes_nat_is_packed(b, i);
    assert(p2(8) == 256) by {
        lemma2_to64();
    }
    assert forall|u: int| 0 <= u < i implies 0 <= #[trigger] byte_ints(b)[u] < p2(8) by {
        assert(byte_ints(b)[u] == b[u] as int);
    }
    lemma_packed_extract(byte_ints(b), 8, i, t);
}

/// Two byte strings of the same length with the same value are equal.
pub proof fn lemma_bytes_unique(b1: Seq<u8>, b2: Seq<u8>, n: int)
    requires
        b1.len() == n,
        b2.len() == n,
        0 <= n,
        bytes_nat(b1, n) == bytes_nat(b2, n),
    ensures
        b1 == b2,
{
    assert forall|t: int| 0 <= t < n implies b1[t] == b2[t] by {
        lemma_bytes_extract(b1, n, t);
        lemma_bytes_extract(b2, n, t);
    }
    assert(b1 =~= b2);
}

/// `2^e` as a machine word.
pub fn pow2_u64(e: usize) -> (r: u64)
    requires
        e <= 32,
    ensures
        r == p2(e as int),
        r >= 1,
{
    proof {
        lemma2_to64();
    }
    let mut r: u64 = 1;
    let mut i: usize = 0;
    while i < e
        invariant
            i <= e <= 32,
            r == p2(i as int),
        decreases e - i,
    {
        proof {
            lemma_pow2_adds(i as nat, 1nat);
            lemma2_to64();
            vstd::arithmetic::power2::lemma_pow2_strictly_increases(i as nat, 33nat);
        }
        r = r * 2;
        i = i + 1;
    }
    r
}

/// `SimpleBitPack`: pack 256 values of `d` bits each into `32 * d` bytes,
/// little-endian.  The bytes are the base-256 digits of the packed value.
pub fn simple_bit_pack(vals: &Vec<u32>, d: usize) -> (r: Vec<u8>)
    requires
        vals@.len() == 256,
        1 <= d <= 20,
        forall|j: int| 0 <= j < 256 ==> (vals@[j] as int) < p2(d as int),
    ensures
        r@.len() == 32 * d,
        bytes_nat(r@, 32 * (d as int)) == packed_nat(ints_of(vals@), d as int, 256),
{
    let pd: u64 = pow2_u64(d);
    let mut out: Vec<u8> = Vec::new();
    let mut acc: u64 = 0;
    let mut bits: usize = 0;
    let mut pw: u64 = 1;
    let mut j: usize = 0;
    proof {
        lemma2_to64();
    }
    while j < 256
        invariant
            j <= 256,
            1 <= d <= 20,
            vals@.len() == 256,
            forall|t: int| 0 <= t < 256 ==> (vals@[t] as int) < p2(d as int),
            pd == p2(d as int),
            bits < 8,
            pw == p2(bits as int),
            acc < pw,
            8 * out@.len() + bits == d * j,
            bytes_nat(out@, out@.len() as int) + acc * p2(8 * out@.len() as int) == packed_nat(
                ints_of(vals@),
                d as int,
                j as int,
            ),
        decreases 256 - j,
    {
        let ghost old_out = out@;
        let ghost old_acc = acc as int;
        let ghost m = out@.len() as int;
        proof {
            lemma2_to64();
            lemma_pow2_adds(bits as nat, d as nat);
            // pw * pd == p2(bits + d) and the pushed value lands at 2^(d*j)
            assert(p2(bits as int) * p2(d as int) == p2(bits + d as int));
            assert((vals@[j as int] as int) * pw * p2(8 * m) == (vals@[j as int] as int) * p2(
                d * (j as int))) by {
                lemma_pow2_adds(bits as nat, (8 * m) as nat);
                assert(bits + 8 * m == d * j);
                assert((vals@[j as int] as int) * pw * p2(8 * m) == (vals@[j as int] as int) * (
                pw * p2(8 * m))) by (nonlinear_arith);
            }
            assert(pw <= 128) by {
                if bits < 7 {
                    vstd::arithmetic::power2::lemma_pow2_strictly_increases(bits as nat, 7nat);
                }
            }
            assert(pd <= 0x100000) by {
                if d < 20 {
                    vstd::arithmetic::power2::lemma_pow2_strictly_increases(d as nat, 20nat);
                }
            }
            assert(d * (j + 1) == d * j + d) by (nonlinear_arith);
            assert((vals@[j as int] as int) * pw <= 0x100000 * 128) by (nonlinear_arith)
                requires
                    0 <= (vals@[j as int] as int) < p2(d as int),
                    1 <= pw <= 128,
                    p2(d as int) <= 0x100000,
            ;
            // the new accumulator still fits and stays below p2(bits + d)
            assert(old_acc + (vals@[j as int] as int) * pw < p2(bits + d as int)) by (
            nonlinear_arith)
                requires
                    old_acc < pw,
                    (vals@[j as int] as int) < p2(d as int),
                    pw >= 1,
                    p2(d as int) >= 1,
                    pw * p2(d as int) == p2(bits + d as int),
            ;
            // distribute over the invariant sum
            assert((old_acc + (vals@[j as int] as int) * pw) * p2(8 * m) == old_acc * p2(8 * m) + (
            vals@[j as int] as int) * pw * p2(8 * m)) by (nonlinear_arith);
        }
        acc = acc + (vals[j] as u64) * pw;
        bits = bits + d;
        pw = pw * pd;
        while bits >= 8
            invariant
                bits <= 27,
                pw == p2(bits as int),
                acc < pw,
                8 * out@.len() + bits == d * (j + 1),
                bytes_nat(out@, out@.len() as int) + acc * p2(8 * out@.len() as int)
                    == packed_nat(ints_of(vals@), d as int, j + 1),
                vals@.len() == 256,
            decreases bits,
        {
            let ghost m2 = out@.len() as int;
            let ghost prev = out@;
            let ghost a2 = acc as int;
            let b = (acc % 256) as u8;
            proof {
                lemma2_to64();
                lemma_pow2_adds((bits - 8) as nat, 8nat);
                lemma_fundamental_div_mod(a2, 256);
                assert(bytes_nat(prev.push(b), m2 + 1) == bytes_nat(prev, m2) + (a2 % 256) * p2(
                    8 * m2,
                )) by {
                    lemma_bytes_prefix(prev.push(b), prev, m2);
                }
                lemma_pow2_adds((8 * m2) as nat, 8nat);
                assert((a2 / 256) * p2(8 * m2 + 8) == ((a2 / 256) * 256) * p2(8 * m2)) by (
                nonlinear_arith)
                    requires
                        p2(8 * m2 + 8) == p2(8 * m2) * 256,
                ;
                assert((a2 % 256) * p2(8 * m2) + ((a2 / 256) * 256) * p2(8 * m2) == a2 * p2(
                    8 * m2,
                )) by (nonlinear_arith)
                    requires
                        a2 == 256 * (a2 / 256) + a2 % 256,
                ;
                // pw / 256 == p2(bits - 8) and the bound carries over
                assert(pw == p2((bits - 8) as int) * 256);
                assert(pw / 256 == p2((bits - 8) as int)) by {
                    lemma_fundamental_div_mod_converse(
                        pw as int,
                        256,
                        p2((bits - 8) as int),
                        0,
                    );
                }
                assert(a2 / 256 < p2((bits - 8) as int)) by (nonlinear_arith)
                    requires
                        a2 < p2((bits - 8) as int) * 256,
                        a2 >= 0,
                ;
            }
            out.push(b);
            acc = acc / 256;
            pw = pw / 256;
            bits = bits - 8;
        }
        j = j + 1;
    }
    proof {
        // 8 * len + bits == 256 * d with bits < 8 forces bits == 0
        assert(out@.len() == 32 * d && bits == 0);
        assert(acc == 0);
    }
    out
}

/// `SimpleBitUnpack`: read back 256 values of `d` bits each; each value is a
/// base-2^d digit of the packed byte value.
pub fn simple_bit_unpack(bytes: &Vec<u8>, d: usize) -> (r: Vec<u32>)
    requires
        1 <= d <= 20,
        bytes@.len() == 32 * d,
    ensures
        r@.len() == 256,
        forall|j: int| 0 <= j < 256 ==> (r@[j] as int) < p2(d as int),
        bytes_nat(bytes@, 32 * (d as int)) == packed_nat(ints_of(r@), d as int, 256),
        forall|j: int|
            0 <= j < 256 ==> (r@[j] as int) == (bytes_nat(bytes@, 32 * (d as int)) / p2(
                (d as int) * j,
            )) % p2(d as int),
{
    let pd: u64 = pow2_u64(d);
    let mut out: Vec<u32> = Vec::new();
    let mut acc: u64 = 0;
    let mut bits: usize = 0;
    let mut pw: u64 = 1;
    let mut m: usize = 0;
    proof {
        lemma2_to64();
        if d < 20 {
            vstd::arithmetic::power2::lemma_pow2_strictly_increases(d as nat, 20nat);
        }
        assert(out@.len() == 0);
        assert(d * out@.len() == 0) by (nonlinear_arith)
            requires
                out@.len() == 0,
        ;
    }
    while out.len() < 256
        invariant
            out@.len() <= 256,
            1 <= d <= 20,
            bytes@.len() == 32 * d,
            pd == p2(d as int),
            1 <= pd <= 0x100000,
            bits < 8 + d,
            bits < 8 || out@.len() < 256,
            pw == p2(bits as int),
            acc < pw,
            m <= bytes@.len(),
            8 * m == d * out@.len() + bits,
            forall|t: int| 0 <= t < out@.len() ==> (out@[t] as int) < p2(d as int),
            bytes_nat(bytes@, m as int) == packed_nat(ints_of(out@), d as int, out@.len() as int)
                + acc * p2((d as int) * out@.len() as int),
        decreases bytes@.len() - m + 256 - out@.len(),
    {
        if bits >= d {
            // emit one value
            let ghost n = out@.len() as int;
            let ghost a2 = acc as int;
            let ghost prevout = out@;
            let x = (acc % pd) as u32;
            proof {
                lemma_fundamental_div_mod(a2, pd as int);
                lemma_pow2_adds(d as nat, (bits - d) as nat);
                assert(p2((bits - d) as int) * (pd as int) == p2(bits as int)) by (
                nonlinear_arith)
                    requires
                        p2(bits as int) == p2(d as int) * p2((bits - d) as int),
                        (pd as int) == p2(d as int),
                ;
                assert(pw as int == p2((bits - d) as int) * (pd as int) + 0);
                lemma_fundamental_div_mod_converse(
                    pw as int,
                    pd as int,
                    p2((bits - d) as int),
                    0,
                );
                assert(a2 < p2((bits - d) as int) * (pd as int));
                assert(a2 / (pd as int) < p2((bits - d) as int)) by (nonlinear_arith)
                    requires
                        a2 < p2((bits - d) as int) * (pd as int),
                        a2 >= 0,
                        (pd as int) >= 1,
                ;
                // the emitted digit extends the packed prefix
                lemma_packed_prefix(ints_of(prevout.push(x)), ints_of(prevout), d as int, n);
                lemma_pow2_adds(((d as int) * n) as nat, d as nat);
                assert((d as int) * n + d == (d as int) * (n + 1)) by (nonlinear_arith);
                assert((d as int) * (n + 1) == (d as int) * n + d) by (nonlinear_arith);
                assert(a2 * p2((d as int) * n) == (a2 % (pd as int)) * p2((d as int) * n) + (a2 / (
                pd as int)) * p2((d as int) * (n + 1))) by (nonlinear_arith)
                    requires
                        a2 == (pd as int) * (a2 / (pd as int)) + a2 % (pd as int),
                        p2((d as int) * (n + 1)) == p2((d as int) * n) * (pd as int),
                ;
            }
            out.push(x);
            acc = acc / pd;
            pw = pw / pd;
            bits = bits - d;
        } else {
            // absorb one byte
            let ghost n = out@.len() as int;
            let ghost a2 = acc as int;
            proof {
                lemma2_to64();
                assert(m < bytes@.len()) by {
                    assert(8 * m == d * n + bits);
                    assert(n < 256);
                    assert(d * n + d <= d * 256) by (nonlinear_arith)
                        requires
                            n + 1 <= 256,
                            d >= 1,
                ;
                }
                lemma_pow2_adds(bits as nat, 8nat);
                assert(pw <= p2(27));
                // the absorbed byte lands at 2^(8*m) == 2^(d*n + bits)
                lemma_pow2_adds(((d as int) * n) as nat, bits as nat);
                assert((bytes@[m as int] as int) * (pw as int) * p2((d as int) * n) == (bytes@[
                m as int] as int) * p2(8 * m as int)) by (nonlinear_arith)
                    requires
                        p2((d as int) * n) * (pw as int) == p2(8 * (m as int)),
                ;
                assert((a2 + (bytes@[m as int] as int) * (pw as int)) * p2((d as int) * n) == a2
                    * p2((d as int) * n) + (bytes@[m as int] as int) * (pw as int) * p2(
                    (d as int) * n,
                )) by (nonlinear_arith);
                assert(a2 + (bytes@[m as int] as int) * (pw as int) < p2((bits + 8) as int)) by (
                nonlinear_arith)
                    requires
                        a2 < pw as int,
                        (bytes@[m as int] as int) < 256,
                        (pw as int) >= 1,
                        (pw as int) * 256 == p2((bits + 8) as int),
                ;
            }
            acc = acc + (bytes[m] as u64) * pw;
            pw = pw * 256;
            bits = bits + 8;
            m = m + 1;
        }
    }
    proof {
        assert(m == bytes@.len() && bits == 0 && acc == 0) by {
            assert(8 * m == d * 256 + bits && bits < 8);
        }
        assert forall|j: int| 0 <= j < 256 implies (out@[j] as int) == (bytes_nat(
            bytes@,
            32 * (d as int),
        ) / p2((d as int) * j)) % p2(d as int) by {
            lemma_packed_extract(ints_of(out@), d as int, 256, j);
        }
    }
    out
}

/// What it means for `32 * d` bytes to be the `SimpleBitPack` encoding of a
/// 256-coefficient array at width `d`.
pub open spec fn simple_encoded(bytes: Seq<u8>, vals: Seq<u32>, d: int) -> bool {
    &&& bytes.len() == 32 * d
    &&& vals.len() == 256
    &&& (forall|j: int| 0 <= j < 256 ==> (#[trigger] vals[j] as int) < p2(d))
    &&& bytes_nat(bytes, 32 * d) == packed_nat(ints_of(vals), d, 256)
}

/// The j-th width-`d` digit of a packed byte string.
pub open spec fn digit(bytes: Seq<u8>, d: int, j: int) -> int {
    (bytes_nat(bytes, 32 * d) / p2(d * j)) % p2(d)
}

/// The codec round trip at the value level: unpacking a packed byte string
/// returns every coefficient unchanged, because the digits of
/// `sum v[j] * 2^(d*j)` are the `v[j]` themselves.
pub proof fn lemma_simple_round_trip(bytes: Seq<u8>, vals: Seq<u32>, d: int)
    requires
        1 <= d <= 20,
        simple_encoded(bytes, vals, d),
    ensures
        forall|j: int| 0 <= j < 256 ==> digit(bytes, d, j) == vals[j] as int,
{
    assert forall|j: int| 0 <= j < 256 implies digit(bytes, d, j) == vals[j] as int by {
        lemma_packed_extract(ints_of(vals), d, 256, j);
    }
}

/// The value `y = b - x` encoded for a coefficient `x` that represents a
/// signed value in [-a, b] (negatives stored as q + value).
pub open spec fn signed_y(x: int, b: int) -> int {
    if x <= b {
        b - x
    } else {
        b + (Q as int) - x
    }
}

/// A stored coefficient that represents a signed value in [-a, b].
pub open spec fn in_signed_range(x: int, a: int, b: int) -> bool {
    0 <= x < Q && (x <= b || x >= (Q as int) - a)
}

/// The stored coefficient recovered from a decoded digit `z`: `b - z`,
/// brought back into [0, q).
pub open spec fn signed_decode(z: int, b: int) -> int {
    if b - z >= 0 {
        b - z
    } else {
        b - z + (Q as int)
    }
}

/// The signed sequence `b - x` over a coefficient array.
pub open spec fn signed_seq(s: Seq<u32>, b: int) -> Seq<int> {
    s.map_values(|x: u32| signed_y(x as int, b))
}

/// What it means for bytes to be the `BitPack` encoding for range [-a, b].
pub open spec fn signed_encoded(bytes: Seq<u8>, vals: Seq<u32>, a: int, b: int, d: int) -> bool {
    &&& bytes.len() == 32 * d
    &&& vals.len() == 256
    &&& (forall|j: int| 0 <= j < 256 ==> in_signed_range(#[trigger] vals[j] as int, a, b))
    &&& bytes_nat(bytes, 32 * d) == packed_nat(signed_seq(vals, b), d, 256)
}

/// The signed round trip on one coefficient: decoding the encoded value
/// gives the stored coefficient back.
pub proof fn lemma_signed_round_trip(x: int, a: int, b: int)
    requires
        0 <= a,
        0 <= b,
        a + b < Q,
        in_signed_range(x, a, b),
    ensures
        signed_decode(signed_y(x, b), b) == x,
        0 <= signed_y(x, b) <= a + b,
{
}

/// `BitPack`: encode 256 coefficients representing signed values in [-a, b]
/// at width `d = bitlen(a + b)`.
pub fn bit_pack(vals: &Vec<u32>, a: u32, b: u32, d: usize) -> (r: Vec<u8>)
    requires
        vals@.len() == 256,
        1 <= d <= 20,
        a <= 0x100000,
        b <= 0x100000,
        ((a + b) as int) < p2(d as int),
        forall|j: int| 0 <= j < 256 ==> in_signed_range(#[trigger] vals@[j] as int, a as int, b as int),
    ensures
        r@.len() == 32 * d,
        signed_encoded(r@, vals@, a as int, b as int, d as int),
{
    let mut ys: Vec<u32> = Vec::new();
    let mut j: usize = 0;
    while j < 256
        invariant
            j <= 256,
            vals@.len() == 256,
            a <= 0x100000,
            b <= 0x100000,
            forall|t: int|
                0 <= t < 256 ==> in_signed_range(#[trigger] vals@[t] as int, a as int, b as int),
            ys@.len() == j,
            forall|t: int|
                0 <= t < j ==> (#[trigger] ys@[t] as int) == signed_y(vals@[t] as int, b as int),
            forall|t: int| 0 <= t < j ==> (#[trigger] ys@[t]) <= a + b,
        decreases 256 - j,
    {
        let x = vals[j];
        let y = if x <= b {
            b - x
        } else {
            b + Q - x
        };
        ys.push(y);
        j = j + 1;
    }
    let r = simple_bit_pack(&ys, d);
    proof {
        assert(ints_of(ys@) =~= signed_seq(vals@, b as int));
    }
    r
}

/// `BitUnpack`: decode 256 signed coefficients; fails exactly when some
/// decoded digit falls outside [0, a + b].
pub fn bit_unpack(bytes: &Vec<u8>, a: u32, b: u32, d: usize) -> (r: Option<Vec<u32>>)
    requires
        1 <= d <= 20,
        a <= 0x100000,
        b <= 0x100000,
        1 <= a + b,
        ((a + b) as int) < p2(d as int),
        bytes@.len() == 32 * d,
    ensures
        r is Some <==> (forall|j: int|
            0 <= j < 256 ==> #[trigger] digit(bytes@, d as int, j) <= a + b),
        r matches Some(v) ==> v@.len() == 256 && (forall|j: int|
            0 <= j < 256 ==> (#[trigger] v@[j] as int) == signed_decode(
                digit(bytes@, d as int, j),
                b as int,
            )) && (forall|j: int|
            0 <= j < 256 ==> in_signed_range(#[trigger] v@[j] as int, a as int, b as int)),
{
    let zs = simple_bit_unpack(bytes, d);
    let mut out: Vec<u32> = Vec::new();
    let mut j: usize = 0;
    while j < 256
        invariant
            j <= 256,
            zs@.len() == 256,
            a <= 0x100000,
            b <= 0x100000,
            1 <= a + b,
            forall|t: int|
                0 <= t < 256 ==> (#[trigger] zs@[t] as int) == digit(bytes@, d as int, t),
            forall|t: int| 0 <= t < j ==> #[trigger] digit(bytes@, d as int, t) <= a + b,
            out@.len() == j,
            forall|t: int|
                0 <= t < j ==> (#[trigger] out@[t] as int) == signed_decode(
                    digit(bytes@, d as int, t),
                    b as int,
                ),
            forall|t: int|
                0 <= t < j ==> in_signed_range(#[trigger] out@[t] as int, a as int, b as int),
        decreases 256 - j,
    {
        let z = zs[j];
        if z > a + b {
            proof {
                assert(digit(bytes@, d as int, j as int) > a + b);
            }
            return None;
        }
        let v = if z <= b {
            b - z
        } else {
            b + Q - z
        };
        out.push(v);
        j = j + 1;
    }
    Some(out)
}

/// A byte string is the `SimpleBitPack` encoding of at most one coefficient
/// array: the digits of the packed value pin every entry.
pub proof fn lemma_simple_encoded_unique(bytes: Seq<u8>, v1: Seq<u32>, v2: Seq<u32>, d: int)
    requires
        1 <= d <= 20,
        simple_encoded(bytes, v1, d),
        simple_encoded(bytes, v2, d),
    ensures
        v1 == v2,
{
    lemma_simple_round_trip(bytes, v1, d);
    lemma_simple_round_trip(bytes, v2, d);
    assert(v1 =~= v2);
}

/// A byte string is the `BitPack` encoding of at most one coefficient array:
/// the digits pin the shifted values, and `y = b - x` is injective on the
/// signed range.
pub proof fn lemma_signed_encoded_unique(
    bytes: Seq<u8>,
    v1: Seq<u32>,
    v2: Seq<u32>,
    a: int,
    b: int,
    d: int,
)
    requires
        1 <= d <= 20,
        0 <= a,
        0 <= b,
        1 <= a + b < Q,
        a + b < p2(d),
        signed_encoded(bytes, v1, a, b, d),
        signed_encoded(bytes, v2, a, b, d),
    ensures
        v1 == v2,
{
    assert forall|j: int| 0 <= j < 256 implies v1[j] == v2[j] by {
        assert forall|t: int| 0 <= t < 256 implies 0 <= #[trigger] signed_seq(v1, b)[t] < p2(
            d,
        ) by {
            lemma_signed_round_trip(v1[t] as int, a, b);
        }
        assert forall|t: int| 0 <= t < 256 implies 0 <= #[trigger] signed_seq(v2, b)[t] < p2(
            d,
        ) by {
            lemma_signed_round_trip(v2[t] as int, a, b);
        }
        lemma_packed_extract(signed_seq(v1, b), d, 256, j);
        lemma_packed_extract(signed_seq(v2, b), d, 256, j);
        lemma_signed_round_trip(v1[j] as int, a, b);
        lemma_signed_round_trip(v2[j] as int, a, b);
    }
    assert(v1 =~= v2);
}

/// The digits of a `BitPack` encoding are the shifted values themselves, so
/// every digit is within the range bound and decoding succeeds.
pub proof fn lemma_signed_encoded_digits(bytes: Seq<u8>, v: Seq<u32>, a: int, b: int, d: int)
    requires
        1 <= d <= 20,
        0 <= a,
        0 <= b,
        1 <= a + b < Q,
        a + b < p2(d),
        signed_encoded(bytes, v, a, b, d),
    ensures
        forall|j: int| 0 <= j < 256 ==> #[trigger] digit(bytes, d, j) <= a + b,
{
    assert forall|j: int| 0 <= j < 256 implies #[trigger] digit(bytes, d, j) <= a + b by {
        assert forall|t: int| 0 <= t < 256 implies 0 <= #[trigger] signed_seq(v, b)[t] < p2(
            d,
        ) by {
            lemma_signed_round_trip(v[t] as int, a, b);
        }
        lemma_packed_extract(signed_seq(v, b), d, 256, j);
        lemma_signed_round_trip(v[j] as int, a, b);
    }
}

/// The bytes of a `SimpleBitPack` encoding as a function of the values: the
/// base-256 digits of the packed number.
pub open spec fn simple_packed_bytes(vals: Seq<u32>, d: int) -> Seq<u8> {
    Seq::new(
        (32 * d) as nat,
        |t: int| ((packed_nat(ints_of(vals), d, 256) / p2(8 * t)) % 256) as u8,
    )
}

/// An encoding relation pins the bytes: any byte string `SimpleBitPack`-
/// encoding `vals` is exactly `simple_packed_bytes(vals, d)`.
pub proof fn lemma_simple_encoded_bytes(bytes: Seq<u8>, vals: Seq<u32>, d: int)
    requires
        1 <= d <= 20,
        simple_encoded(bytes, vals, d),
    ensures
        bytes == simple_packed_bytes(vals, d),
{
    assert forall|t: int| 0 <= t < 32 * d implies bytes[t] == simple_packed_bytes(vals, d)[t] by {
        lemma_bytes_extract(bytes, 32 * d, t);
    }
    assert(bytes =~= simple_packed_bytes(vals, d));
}

/// The bytes of a whole packed vector as a function of its polynomials: the
/// per-polynomial encodings in index order.
pub open spec fn packed_vector_bytes(vs: Seq<Seq<u32>>, d: int, k: int) -> Seq<u8> {
    Seq::new(
        (k * (32 * d)) as nat,
        |t: int| simple_packed_bytes(vs[t / (32 * d)], d)[t % (32 * d)],
    )
}

/// A vector encoding relation pins the bytes: any byte string whose chunks
/// `SimpleBitPack`-encode the polynomials is exactly `packed_vector_bytes`.
pub proof fn lemma_vector_encoded_bytes(b: Seq<u8>, vs: Seq<Seq<u32>>, d: int, k: int)
    requires
        1 <= d <= 20,
        0 <= k,
        b.len() == k * (32 * d),
        vs.len() == k,
        forall|i: int|
            0 <= i < k ==> simple_encoded(
                #[trigger] b.subrange(i * (32 * d), (i + 1) * (32 * d)),
                vs[i],
                d,
            ),
    ensures
        b == packed_vector_bytes(vs, d, k),
{
    let sz = 32 * d;
    assert forall|t: int| 0 <= t < k * sz implies b[t] == packed_vector_bytes(vs, d, k)[t] by {
        let i = t / sz;
        let r = t % sz;
        lemma_fundamental_div_mod(t, sz);
        assert(0 <= i && i < k && 0 <= i * sz && i * sz + sz <= k * sz && (i + 1) * sz == i * sz
            + sz && i * sz == sz * i) by (nonlinear_arith)
            requires
                t == sz * i + r,
                0 <= r < sz,
                0 <= t,
                t < k * sz,
                sz >= 1,
        ;
        let c = b.subrange(i * sz, (i + 1) * sz);
        assert(simple_encoded(c, vs[i], d));
        lemma_simple_encoded_bytes(c, vs[i], d);
        assert(c[r] == b[i * sz + r]);
        assert(i * sz + r == t);
    }
    assert(b =~= packed_vector_bytes(vs, d, k));
}

/// Copy one `len`-byte chunk out of a byte string.
pub fn take_chunk(bytes: &Vec<u8>, start: usize, len: usize) -> (r: Vec<u8>)
    requires
        start + len <= bytes@.len(),
    ensures
        r@ == bytes@.subrange(start as int, start as int + len as int),
{
    let bl = bytes.len();
    let mut chunk: Vec<u8> = Vec::new();
    let mut t: usize = 0;
    while t < len
        invariant
            t <= len,
            start + len <= bl,
            bl == bytes@.len(),
            chunk@ == bytes@.subrange(start as int, start as int + t as int),
        decreases len - t,
    {
        chunk.push(bytes[start + t]);
        proof {
            assert(chunk@ =~= bytes@.subrange(start as int, start as int + t as int + 1));
        }
        t = t + 1;
    }
    chunk
}

/// Pack a whole vector: the encodings of its polynomials in index order.
pub fn simple_bit_pack_vector(v: &PolynomialVector, d: usize, k: usize) -> (r: Vec<u8>)
    requires
        v.wf(k as int),
        1 <= d <= 20,
        k <= 8,
        forall|i: int, j: int|
            0 <= i < k && 0 <= j < 256 ==> (v.polys@[i].coeffs@[j] as int) < p2(d as int),
    ensures
        r@.len() == k * (32 * d),
        forall|i: int|
            0 <= i < k ==> simple_encoded(
                #[trigger] r@.subrange(i * (32 * d), (i + 1) * (32 * d)),
                v.polys@[i].coeffs@,
                d as int,
            ),
{
    let sz = 32 * d;
    let mut out: Vec<u8> = Vec::new();
    let mut i: usize = 0;
    while i < k
        invariant
            i <= k <= 8,
            1 <= d <= 20,
            sz == 32 * d,
            v.wf(k as int),
            forall|a: int, j: int|
                0 <= a < k && 0 <= j < 256 ==> (v.polys@[a].coeffs@[j] as int) < p2(d as int),
            out@.len() == i * sz,
            forall|a: int|
                0 <= a < i ==> simple_encoded(
                    #[trigger] out@.subrange(a * (32 * d), (a + 1) * (32 * d)),
                    v.polys@[a].coeffs@,
                    d as int,
                ),
        decreases k - i,
    {
        let ghost prev = out@;
        let mut enc = simple_bit_pack(&v.polys[i].coeffs, d);
        let ghost encview = enc@;
        proof {
            assert((i + 1) * sz == i * sz + sz) by (nonlinear_arith);
        }
        out.append(&mut enc);
        proof {
            assert forall|a: int|
                0 <= a < i + 1 implies simple_encoded(
                #[trigger] out@.subrange(a * (32 * d), (a + 1) * (32 * d)),
                v.polys@[a].coeffs@,
                d as int,
            ) by {
                assert(a * sz >= 0) by (nonlinear_arith)
                    requires
                        a >= 0,
                        sz >= 1,
                ;
                if a < i {
                    assert((a + 1) * sz <= i * sz) by (nonlinear_arith)
                        requires
                            a + 1 <= i,
                            sz >= 1,
                    ;
                    assert((a + 1) * sz == a * sz + sz) by (nonlinear_arith);
                    assert(out@.subrange(a * (32 * d), (a + 1) * (32 * d)) =~= prev.subrange(
                        a * (32 * d),
                        (a + 1) * (32 * d),
                    ));
                } else {
                    assert((a + 1) * sz == a * sz + sz) by (nonlinear_arith);
                    assert(out@.subrange(a * (32 * d), (a + 1) * (32 * d)) =~= encview);
                }
            }
        }
        i = i + 1;
    }
    out
}

/// Unpack a whole vector from concatenated encodings.
pub fn simple_bit_unpack_vector(bytes: &Vec<u8>, d: usize, k: usize) -> (r: PolynomialVector)
    requires
        1 <= d <= 20,
        k <= 8,
        bytes@.len() == k * (32 * d),
    ensures
        r.wf(k as int),
        forall|i: int|
            0 <= i < k ==> simple_encoded(
                #[trigger] bytes@.subrange(i * (32 * d), (i + 1) * (32 * d)),
                r.polys@[i].coeffs@,
                d as int,
            ),
{
    let sz = 32 * d;
    let bl = bytes.len();
    let mut polys: Vec<Polynomial> = Vec::new();
    let mut i: usize = 0;
    proof {
        lemma2_to64();
        if d < 20 {
            vstd::arithmetic::power2::lemma_pow2_strictly_increases(d as nat, 20nat);
        }
    }
    while i < k
        invariant
            i <= k <= 8,
            1 <= d <= 20,
            sz == 32 * d,
            bl == bytes@.len(),
            p2(d as int) <= 0x100000,
            bytes@.len() == k * (32 * d),
            polys@.len() == i,
            forall|a: int| 0 <= a < i ==> (#[trigger] polys@[a]).wf(),
            forall|a: int|
                0 <= a < i ==> simple_encoded(
                    #[trigger] bytes@.subrange(a * (32 * d), (a + 1) * (32 * d)),
                    polys@[a].coeffs@,
                    d as int,
                ),
        decreases k - i,
    {
        proof {
            assert((i + 1) * sz == i * sz + sz) by (nonlinear_arith);
            assert((i + 1) * sz <= k * sz) by (nonlinear_arith)
                requires
                    i + 1 <= k,
                    sz >= 1,
            ;
            assert(i * sz >= 0) by (nonlinear_arith)
                requires
                    i >= 0,
                    sz >= 1,
            ;
            assert(k * sz == k * (32 * d)) by (nonlinear_arith)
                requires
                    sz == 32 * d,
            ;
        }
        let chunk = take_chunk(bytes, i * sz, sz);
        let vals = simple_bit_unpack(&chunk, d);
        polys.push(Polynomial { coeffs: vals });
        i = i + 1;
    }
    PolynomialVector { polys }
}

/// Pack a whole vector of signed-range polynomials.
pub fn bit_pack_vector(v: &PolynomialVector, a: u32, b: u32, d: usize, k: usize) -> (r: Vec<u8>)
    requires
        v.wf(k as int),
        1 <= d <= 20,
        k <= 8,
        a <= 0x100000,
        b <= 0x100000,
        ((a + b) as int) < p2(d as int),
        forall|i: int, j: int|
            0 <= i < k && 0 <= j < 256 ==> in_signed_range(
                v.polys@[i].coeffs@[j] as int,
                a as int,
                b as int,
            ),
    ensures
        r@.len() == k * (32 * d),
        forall|i: int|
            0 <= i < k ==> signed_encoded(
                #[trigger] r@.subrange(i * (32 * d), (i + 1) * (32 * d)),
                v.polys@[i].coeffs@,
                a as int,
                b as int,
                d as int,
            ),
{
    let sz = 32 * d;
    let mut out: Vec<u8> = Vec::new();
    let mut i: usize = 0;
    while i < k
        invariant
            i <= k <= 8,
            1 <= d <= 20,
            sz == 32 * d,
            a <= 0x100000,
            b <= 0x100000,
            ((a + b) as int) < p2(d as int),
            v.wf(k as int),
            forall|t: int, j: int|
                0 <= t < k && 0 <= j < 256 ==> in_signed_range(
                    v.polys@[t].coeffs@[j] as int,
                    a as int,
                    b as int,
                ),
            out@.len() == i * sz,
            forall|t: int|
                0 <= t < i ==> signed_encoded(
                    #[trigger] out@.subrange(t * (32 * d), (t + 1) * (32 * d)),
                    v.polys@[t].coeffs@,
                    a as int,
                    b as int,
                    d as int,
                ),
        decreases k - i,
    {
        let ghost prev = out@;
        let mut enc = bit_pack(&v.polys[i].coeffs, a, b, d);
        let ghost encview = enc@;
        proof {
            assert((i + 1) * sz == i * sz + sz) by (nonlinear_arith);
        }
        out.append(&mut enc);
        proof {
            assert forall|t: int|
                0 <= t < i + 1 implies signed_encoded(
                #[trigger] out@.subrange(t * (32 * d), (t + 1) * (32 * d)),
                v.polys@[t].coeffs@,
                a as int,
                b as int,
                d as int,
            ) by {
                assert(t * sz >= 0) by (nonlinear_arith)
                    requires
                        t >= 0,
                        sz >= 1,
                ;
                if t < i {
                    assert((t + 1) * sz <= i * sz) by (nonlinear_arith)
                        requires
                            t + 1 <= i,
                            sz >= 1,
                    ;
                    assert((t + 1) * sz == t * sz + sz) by (nonlinear_arith);
                    assert(out@.subrange(t * (32 * d), (t + 1) * (32 * d)) =~= prev.subrange(
                        t * (32 * d),
                        (t + 1) * (32 * d),
                    ));
                } else {
                    assert((t + 1) * sz == t * sz + sz) by (nonlinear_arith);
                    assert(out@.subrange(t * (32 * d), (t + 1) * (32 * d)) =~= encview);
                }
            }
        }
        i = i + 1;
    }
    out
}

/// Every digit of every chunk is within the signed range bound.
pub open spec fn vector_digits_ok(bytes: Seq<u8>, d: int, k: int, bound: int) -> bool {
    forall|i: int, j: int|
        0 <= i < k && 0 <= j < 256 ==> #[trigger] digit(
            bytes.subrange(i * (32 * d), (i + 1) * (32 * d)),
            d,
            j,
        ) <= bound
}

/// Unpack a whole vector of signed-range polynomials; fails exactly when one
/// of the chunks has an out-of-range digit.
pub fn bit_unpack_vector(bytes: &Vec<u8>, a: u32, b: u32, d: usize, k: usize) -> (r: Option<
    PolynomialVector,
>)
    requires
        1 <= d <= 20,
        k <= 8,
        a <= 0x100000,
        b <= 0x100000,
        1 <= a + b,
        ((a + b) as int) < p2(d as int),
        a + b < Q,
        bytes@.len() == k * (32 * d),
    ensures
        r is Some <==> vector_digits_ok(bytes@, d as int, k as int, (a + b) as int),
        r matches Some(v) ==> v.wf(k as int) && (forall|i: int|
            0 <= i < k ==> signed_encoded(
                #[trigger] bytes@.subrange(i * (32 * d), (i + 1) * (32 * d)),
                v.polys@[i].coeffs@,
                a as int,
                b as int,
                d as int,
            )),
{
    let sz = 32 * d;
    let bl = bytes.len();
    let mut polys: Vec<Polynomial> = Vec::new();
    let mut i: usize = 0;
    while i < k
        invariant
            i <= k <= 8,
            1 <= d <= 20,
            sz == 32 * d,
            bl == bytes@.len(),
            a <= 0x100000,
            b <= 0x100000,
            1 <= a + b,
            a + b < Q,
            ((a + b) as int) < p2(d as int),
            bytes@.len() == k * (32 * d),
            polys@.len() == i,
            forall|t: int| 0 <= t < i ==> (#[trigger] polys@[t]).wf(),
            forall|t: int|
                0 <= t < i ==> signed_encoded(
                    #[trigger] bytes@.subrange(t * (32 * d), (t + 1) * (32 * d)),
                    polys@[t].coeffs@,
                    a as int,
                    b as int,
                    d as int,
                ),
            forall|t: int, j: int|
                0 <= t < i && 0 <= j < 256 ==> #[trigger] digit(
                    bytes@.subrange(t * (32 * d), (t + 1) * (32 * d)),
                    d as int,
                    j,
                ) <= a + b,
        decreases k - i,
    {
        proof {
            assert((i + 1) * sz == i * sz + sz) by (nonlinear_arith);
            assert((i + 1) * sz <= k * sz) by (nonlinear_arith)
                requires
                    i + 1 <= k,
                    sz >= 1,
            ;
            assert(i * sz >= 0) by (nonlinear_arith)
                requires
                    i >= 0,
                    sz >= 1,
            ;
            assert(k * sz == k * (32 * d)) by (nonlinear_arith)
                requires
                    sz == 32 * d,
            ;
        }
        let chunk = take_chunk(bytes, i * sz, sz);
        let dec = bit_unpack(&chunk, a, b, d);
        match dec {
            Some(vals) => {
                proof {
                    // the digits of the chunk re-pack to the chunk's value
                    assert(bytes_nat(chunk@, 32 * (d as int)) == packed_nat(
                        signed_seq(vals@, b as int),
                        d as int,
                        256,
                    )) by {
                        lemma_signed_repack(chunk@, vals@, a as int, b as int, d as int);
                    }
                }
                polys.push(Polynomial { coeffs: vals });
            },
            None => {
                return None;
            },
        }
        i = i + 1;
    }
    Some(PolynomialVector { polys })
}

/// Digits that decode in range re-encode to the same packed value: the two
/// directions of the signed codec agree.
proof fn lemma_signed_repack(bytes: Seq<u8>, vals: Seq<u32>, a: int, b: int, d: int)
    requires
        1 <= d <= 20,
        0 <= a,
        0 <= b,
        1 <= a + b < Q,
        a + b < p2(d),
        bytes.len() == 32 * d,
        vals.len() == 256,
        forall|j: int| 0 <= j < 256 ==> 0 <= #[trigger] digit(bytes, d, j) <= a + b,
        forall|j: int|
            0 <= j < 256 ==> (#[trigger] vals[j] as int) == signed_decode(digit(bytes, d, j), b),
    ensures
        bytes_nat(bytes, 32 * d) == packed_nat(signed_seq(vals, b), d, 256),
        forall|j: int| 0 <= j < 256 ==> in_signed_range(#[trigger] vals[j] as int, a, b),
{
    let n = bytes_nat(bytes, 32 * d);
    assert forall|j: int| 0 <= j < 256 implies in_signed_range(#[trigger] vals[j] as int, a, b) by {
        assert(0 <= digit(bytes, d, j) <= a + b);
    }
    // each signed value re-encodes to the digit it was decoded from
    assert forall|j: int| 0 <= j < 256 implies signed_seq(vals, b)[j] == digit(bytes, d, j) by {
        assert(vals[j] as int == signed_decode(digit(bytes, d, j), b));
    }
    lemma_digits_repack(bytes, signed_seq(vals, b), d, 256);
    lemma_bytes_bound(bytes, 32 * d);
    assert(8 * (32 * d) == d * 256);
    vstd::arithmetic::power2::lemma_pow2_pos((d * 256) as nat);
    lemma_small_mod(n as nat, p2(d * 256) as nat);
}

/// A byte value over `i` bytes is below `2^(8*i)`.
proof fn lemma_bytes_bound(b: Seq<u8>, i: int)
    requires
        0 <= i <= b.len(),
    ensures
        0 <= bytes_nat(b, i) < p2(8 * i),
    decreases i,
{
    vstd::arithmetic::power2::lemma_pow2_pos((8 * i) as nat);
    if i > 0 {
        lemma_bytes_bound(b, i - 1);
        lemma_pow2_adds((8 * (i - 1)) as nat, 8nat);
        assert(8 * (i - 1) + 8 == 8 * i);
        assert(p2(8) == 256) by {
            lemma2_to64();
        }
        assert(0 <= bytes_nat(b, i) < p2(8 * i)) by (nonlinear_arith)
            requires
                bytes_nat(b, i) == bytes_nat(b, i - 1) + b[i - 1] * p2(8 * (i - 1)),
                0 <= bytes_nat(b, i - 1) < p2(8 * (i - 1)),
                0 <= b[i - 1] < 256,
                p2(8 * (i - 1)) * 256 == p2(8 * i),
        ;
    }
}

/// A sequence whose entries are the digits of a byte string packs back to
/// the byte string's value, prefix by prefix.
proof fn lemma_digits_repack(bytes: Seq<u8>, v: Seq<int>, d: int, i: int)
    requires
        1 <= d <= 20,
        bytes.len() == 32 * d,
        v.len() == 256,
        0 <= i <= 256,
        forall|j: int| 0 <= j < 256 ==> #[trigger] v[j] == digit(bytes, d, j),
    ensures
        packed_nat(v, d, i) == bytes_nat(bytes, 32 * d) % p2(d * i),
    decreases i,
{
    let n = bytes_nat(bytes, 32 * d);
    lemma_bytes_nonneg(bytes, 32 * d);
    vstd::arithmetic::power2::lemma_pow2_pos((d * i) as nat);
    if i == 0 {
        assert(p2(0) == 1) by {
            lemma2_to64();
        }
        assert(n % 1int == 0) by (nonlinear_arith)
            requires
                n >= 0,
        ;
        assert(d * i == 0) by (nonlinear_arith)
            requires
                i == 0,
        ;
        assert(packed_nat(v, d, i) == n % p2(d * i));
    } else {
        lemma_digits_repack(bytes, v, d, i - 1);
        assert(d * (i - 1) >= 0) by (nonlinear_arith)
            requires
                d >= 1,
                i >= 1,
        ;
        vstd::arithmetic::power2::lemma_pow2_pos((d * (i - 1)) as nat);
        vstd::arithmetic::power2::lemma_pow2_pos(d as nat);
        lemma_pow2_adds((d * (i - 1)) as nat, d as nat);
        assert(d * (i - 1) + d == d * i) by (nonlinear_arith);
        assert(p2(d * i) == p2(d * (i - 1)) * p2(d));
        // n % p2(d*i) == n % p2(d*(i-1)) + ((n / p2(d*(i-1))) % p2(d)) * p2(d*(i-1))
        vstd::arithmetic::div_mod::lemma_breakdown(n, p2(d * (i - 1)), p2(d));
        assert(n % p2(d * i) == p2(d * (i - 1)) * ((n / p2(d * (i - 1))) % p2(d)) + n % p2(
            d * (i - 1),
        ));
        assert(p2(d * (i - 1)) * ((n / p2(d * (i - 1))) % p2(d)) == ((n / p2(d * (i - 1))) % p2(
            d,
        )) * p2(d * (i - 1))) by (nonlinear_arith);
        assert(v[i - 1] == digit(bytes, d, i - 1));
        assert(packed_nat(v, d, i) == packed_nat(v, d, i - 1) + v[i - 1] * p2(d * (i - 1)));
        assert(v[i - 1] * p2(d * (i - 1)) == p2(d * (i - 1)) * ((n / p2(d * (i - 1))) % p2(d)))
            by (nonlinear_arith)
            requires
                v[i - 1] == (n / p2(d * (i - 1))) % p2(d),
        ;
        assert(packed_nat(v, d, i) == n % p2(d * i));
    }
}

/// A byte value is nonnegative.
proof fn lemma_bytes_nonneg(b: Seq<u8>, i: int)
    requires
        i <= b.len(),
    ensures
        bytes_nat(b, i) >= 0,
    decreases i,
{
    if i > 0 {
        lemma_bytes_nonneg(b, i - 1);
        assert((b[i - 1] as int) * p2(8 * (i - 1)) >= 0) by (nonlinear_arith)
            requires
                (b[i - 1] as int) >= 0,
                p2(8 * (i - 1)) >= 0,
        ;
    }
}

} // verus!
