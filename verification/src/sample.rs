//! Deterministic seed expansion: the uniform matrix A, the short secret
//! vectors, the mask vector, and the sparse challenge polynomial, all driven
//! by the SHAKE extendable-output function.  Every rejection loop squeezes a
//! block of output, parses it from the start, and retries with a longer
//! block when the stream was too short — the parsed prefix is unchanged, so
//! the accepted values match a byte-by-byte reading of the stream.
use vstd::prelude::*;

use crate::codec::bit_unpack;
use crate::crypto::{shake128, shake128_of, shake256, shake256_of};
use crate::param::{Eta, Q};
use crate::poly::{NttMatrix, NttPolynomial, NttVector, Polynomial, PolynomialVector};

verus! {

/// A coefficient representing a signed value with absolute value at most
/// `bound`.
pub open spec fn small_coeff(x: int, bound: int) -> bool {
    0 <= x < Q && (x <= bound || x >= (Q as int) - bound)
}

/// A seed extended with a 16-bit little-endian tag.
pub open spec fn tagged(seed: Seq<u8>, tag: int) -> Seq<u8> {
    seed + seq![(tag % 256) as u8, ((tag / 256) % 256) as u8]
}

/// The seed extended with a 16-bit little-endian tag.
fn seed_with_tag(seed: &Vec<u8>, tag: u16) -> (r: Vec<u8>)
    ensures
        r@ == tagged(seed@, tag as int),
        r@.len() == seed@.len() + 2,
{
    let mut s: Vec<u8> = Vec::new();
    let mut i: usize = 0;
    let n = seed.len();
    while i < n
        invariant
            i <= n,
            n == seed@.len(),
            s@ == seed@.subrange(0, i as int),
        decreases n - i,
    {
        s.push(seed[i]);
        proof {
            assert(s@ =~= seed@.subrange(0, i + 1));
        }
        i = i + 1;
    }
    s.push((tag % 256) as u8);
    s.push((tag / 256) as u8);
    proof {
        assert(s@ =~= tagged(seed@, tag as int));
    }
    s
}

/// The 23-bit value read from three little-endian bytes at `off`, with the
/// top bit of the third byte cleared.
pub open spec fn uniform_val(b: Seq<u8>, off: int) -> int {
    (b[off] as int) + 256 * (b[off + 1] as int) + 65536 * ((b[off + 2] as int) % 128)
}

/// The deterministic rejection parse of a byte block: read 3-byte chunks
/// from `off`, keep values below q, stop at 256 accepted values or when the
/// block runs out.
pub open spec fn parse_uniform_spec(b: Seq<u8>, off: int, acc: Seq<u32>) -> Seq<u32>
    decreases b.len() - off,
{
    if off < 0 || off + 3 > b.len() || acc.len() >= 256 {
        acc
    } else if uniform_val(b, off) < Q {
        parse_uniform_spec(b, off + 3, acc.push(uniform_val(b, off) as u32))
    } else {
        parse_uniform_spec(b, off + 3, acc)
    }
}

/// The coefficients that the uniform sampler assigns to `tag`: the parse of
/// the full SHAKE128 byte budget over the tagged seed.
pub open spec fn uniform_samples(rho: Seq<u8>, tag: int) -> Seq<u32> {
    parse_uniform_spec(shake128_of(tagged(rho, tag), 0x80000), 0, Seq::empty())
}

/// The rejection parse only reads bytes: extending a block whose parse is
/// already complete does not change the result.
proof fn lemma_parse_uniform_prefix(b1: Seq<u8>, b2: Seq<u8>, off: int, acc: Seq<u32>)
    requires
        0 <= off <= b1.len(),
        b1.len() <= b2.len(),
        forall|t: int| 0 <= t < b1.len() ==> b1[t] == #[trigger] b2[t],
        parse_uniform_spec(b1, off, acc).len() == 256,
        acc.len() <= 256,
    ensures
        parse_uniform_spec(b2, off, acc) == parse_uniform_spec(b1, off, acc),
    decreases b1.len() - off,
{
    if acc.len() >= 256 {
    } else if off + 3 > b1.len() {
        assert(parse_uniform_spec(b1, off, acc) == acc);
        assert(false);
    } else {
        assert(uniform_val(b1, off) == uniform_val(b2, off));
        if uniform_val(b1, off) < Q {
            lemma_parse_uniform_prefix(
                b1,
                b2,
                off + 3,
                acc.push(uniform_val(b1, off) as u32),
            );
        } else {
            lemma_parse_uniform_prefix(b1, b2, off + 3, acc);
        }
    }
}

/// Parse 3-byte little-endian chunks masked to 23 bits, keeping values below
/// q, until 256 are found or the block runs out.
fn parse_uniform(block: &Vec<u8>) -> (r: Vec<u32>)
    requires
        block@.len() <= 0x100000,
    ensures
        r@ == parse_uniform_spec(block@, 0, Seq::empty()),
        r@.len() <= 256,
        forall|i: int| 0 <= i < r@.len() ==> r@[i] < Q,
{
    let mut out: Vec<u32> = Vec::new();
    let mut off: usize = 0;
    let n = block.len();
    while off + 3 <= n && out.len() < 256
        invariant
            n == block@.len(),
            n <= 0x100000,
            off <= n,
            out@.len() <= 256,
            forall|i: int| 0 <= i < out@.len() ==> out@[i] < Q,
            parse_uniform_spec(block@, off as int, out@) == parse_uniform_spec(
                block@,
                0,
                Seq::empty(),
            ),
        decreases n - off,
    {
        let c0 = block[off] as u32;
        let c1 = block[off + 1] as u32;
        let c2 = (block[off + 2] % 128) as u32;
        let val = c0 + 256 * c1 + 65536 * c2;
        proof {
            assert(val == uniform_val(block@, off as int));
        }
        if val < Q {
            out.push(val);
        }
        off = off + 3;
    }
    out
}

/// One rejection-sampled uniform NTT polynomial for matrix entry tag `tag`:
/// exactly the first 256 accepted values of the tagged SHAKE128 stream, with
/// failure exactly when the byte budget holds fewer.
fn sample_uniform_poly(rho: &Vec<u8>, tag: u16) -> (r: Option<NttPolynomial>)
    ensures
        r is Some <==> uniform_samples(rho@, tag as int).len() == 256,
        r matches Some(p) ==> p.wf() && p.coeffs@ == uniform_samples(rho@, tag as int),
{
    let seed = seed_with_tag(rho, tag);
    let ghost full = shake128_of(tagged(rho@, tag as int), 0x80000);
    let mut n: usize = 1024;
    loop
        invariant
            1024 <= n <= 0x80000,
            seed@ == tagged(rho@, tag as int),
            full == shake128_of(tagged(rho@, tag as int), 0x80000),
        decreases 0x80000 - n,
    {
        let block = shake128(&seed, n);
        proof {
            // the full-budget stream extends this block
            assert(shake128_of(seed@, 0x80000) == block@ + shake128_of(seed@, 0x80000).skip(
                n as int,
            ));
            assert(forall|t: int| 0 <= t < n ==> block@[t] == #[trigger] full[t]);
            assert(full.len() >= n);
        }
        let vals = parse_uniform(&block);
        if vals.len() == 256 {
            proof {
                lemma_parse_uniform_prefix(block@, full, 0, Seq::empty());
            }
            return Some(NttPolynomial { coeffs: vals });
        }
        if n >= 0x80000 {
            proof {
                assert(block@ =~= full);
            }
            return None;
        }
        n = if n >= 0x40000 {
            0x80000
        } else {
            n * 2
        };
    }
}

/// `ExpandA`: the K x L uniform matrix in NTT form, entry (i, j) sampled
/// from the stream tagged 256*i + j; fails exactly when some entry's stream
/// runs short.
pub fn expand_a(rho: &Vec<u8>, k: usize, l: usize) -> (r: Option<NttMatrix>)
    requires
        k <= 8,
        l <= 8,
    ensures
        r is Some <==> (forall|i: int, j: int|
            0 <= i < k && 0 <= j < l ==> (#[trigger] uniform_samples(rho@, 256 * i + j)).len()
                == 256),
        r matches Some(m) ==> m.wf(k as int, l as int) && (forall|i: int, j: int|
            0 <= i < k && 0 <= j < l ==> m.rows@[i].polys@[j].coeffs@ == #[trigger] uniform_samples(
                rho@,
                256 * i + j,
            )),
{
    let mut rows: Vec<NttVector> = Vec::new();
    let mut i: usize = 0;
    while i < k
        invariant
            i <= k <= 8,
            l <= 8,
            rows@.len() == i,
            forall|a: int| 0 <= a < i ==> (#[trigger] rows@[a]).wf(l as int),
            forall|a: int, b: int|
                0 <= a < i && 0 <= b < l ==> rows@[a].polys@[b].coeffs@ == #[trigger] uniform_samples(
                    rho@,
                    256 * a + b,
                ),
            forall|a: int, b: int|
                0 <= a < i && 0 <= b < l ==> (#[trigger] uniform_samples(rho@, 256 * a + b)).len()
                    == 256,
        decreases k - i,
    {
        let mut row: Vec<NttPolynomial> = Vec::new();
        let mut j: usize = 0;
        while j < l
            invariant
                j <= l <= 8,
                i < k <= 8,
                row@.len() == j,
                forall|a: int| 0 <= a < j ==> (#[trigger] row@[a]).wf(),
                forall|b: int|
                    0 <= b < j ==> row@[b].coeffs@ == #[trigger] uniform_samples(
                        rho@,
                        256 * (i as int) + b,
                    ),
                forall|b: int|
                    0 <= b < j ==> (#[trigger] uniform_samples(rho@, 256 * (i as int) + b)).len()
                        == 256,
            decreases l - j,
        {
            let tag = (256 * (i as u16)) + (j as u16);
            match sample_uniform_poly(rho, tag) {
                Some(p) => {
                    row.push(p);
                },
                None => {
                    proof {
                        assert(uniform_samples(rho@, 256 * (i as int) + (j as int)).len() != 256);
                    }
                    return None;
                },
            }
            j = j + 1;
        }
        rows.push(NttVector { polys: row });
        i = i + 1;
    }
    Some(NttMatrix { rows })
}

/// Whether a nibble is accepted by the eta-dependent rejection rule.
pub open spec fn small_accepts(nib: int, eta: Eta) -> bool {
    match eta {
        Eta::Two => nib < 15,
        Eta::Four => nib < 9,
    }
}

/// The stored coefficient an accepted nibble decodes to.
pub open spec fn small_val(nib: int, eta: Eta) -> int {
    match eta {
        Eta::Two => {
            let v = 2 + (Q as int) - (nib % 5);
            if v >= Q {
                v - Q
            } else {
                v
            }
        },
        Eta::Four => {
            let v = 4 + (Q as int) - nib;
            if v >= Q {
                v - Q
            } else {
                v
            }
        },
    }
}

/// The deterministic nibble parse of a byte block: low nibble then high
/// nibble of each byte, stopping at 256 accepted coefficients.
pub open spec fn parse_small_spec(b: Seq<u8>, eta: Eta, off: int, acc: Seq<u32>) -> Seq<u32>
    decreases b.len() - off,
{
    if off < 0 || off >= b.len() || acc.len() >= 256 {
        acc
    } else {
        let lo = (b[off] as int) % 16;
        let hi = (b[off] as int) / 16;
        let acc1 = if small_accepts(lo, eta) && acc.len() < 256 {
            acc.push(small_val(lo, eta) as u32)
        } else {
            acc
        };
        let acc2 = if small_accepts(hi, eta) && acc1.len() < 256 {
            acc1.push(small_val(hi, eta) as u32)
        } else {
            acc1
        };
        parse_small_spec(b, eta, off + 1, acc2)
    }
}

/// The coefficients that the short-secret sampler assigns to `tag`: the
/// parse of the full SHAKE256 byte budget over the tagged seed.
pub open spec fn small_samples(rhop: Seq<u8>, eta: Eta, tag: int) -> Seq<u32> {
    parse_small_spec(shake256_of(tagged(rhop, tag), 0x80000), eta, 0, Seq::empty())
}

/// Extending a block whose nibble parse is already complete does not change
/// the result.
proof fn lemma_parse_small_prefix(b1: Seq<u8>, b2: Seq<u8>, eta: Eta, off: int, acc: Seq<u32>)
    requires
        0 <= off <= b1.len(),
        b1.len() <= b2.len(),
        forall|t: int| 0 <= t < b1.len() ==> b1[t] == #[trigger] b2[t],
        parse_small_spec(b1, eta, off, acc).len() == 256,
        acc.len() <= 256,
    ensures
        parse_small_spec(b2, eta, off, acc) == parse_small_spec(b1, eta, off, acc),
    decreases b1.len() - off,
{
    if acc.len() >= 256 {
    } else if off >= b1.len() {
        assert(parse_small_spec(b1, eta, off, acc) == acc);
        assert(false);
    } else {
        let lo = (b1[off] as int) % 16;
        let hi = (b1[off] as int) / 16;
        let acc1 = if small_accepts(lo, eta) && acc.len() < 256 {
            acc.push(small_val(lo, eta) as u32)
        } else {
            acc
        };
        let acc2 = if small_accepts(hi, eta) && acc1.len() < 256 {
            acc1.push(small_val(hi, eta) as u32)
        } else {
            acc1
        };
        lemma_parse_small_prefix(b1, b2, eta, off + 1, acc2);
    }
}

/// Parse nibbles with the eta-dependent rejection rule, keeping at most 256
/// coefficients.
fn parse_small(block: &Vec<u8>, eta: Eta) -> (r: Vec<u32>)
    ensures
        r@ == parse_small_spec(block@, eta, 0, Seq::empty()),
        r@.len() <= 256,
        forall|i: int| 0 <= i < r@.len() ==> small_coeff(#[trigger] r@[i] as int, eta.spec_value() as int),
{
    let bound = eta.value();
    let mut out: Vec<u32> = Vec::new();
    let mut off: usize = 0;
    let n = block.len();
    while off < n && out.len() < 256
        invariant
            n == block@.len(),
            off <= n,
            bound == eta.spec_value(),
            out@.len() <= 256,
            forall|i: int|
                0 <= i < out@.len() ==> small_coeff(#[trigger] out@[i] as int, bound as int),
            parse_small_spec(block@, eta, off as int, out@) == parse_small_spec(
                block@,
                eta,
                0,
                Seq::empty(),
            ),
        decreases n - off,
    {
        let ghost acc0 = out@;
        let byte = block[off];
        let lo = (byte % 16) as u32;
        let hi = (byte / 16) as u32;
        proof {
            assert(lo == (block@[off as int] as int) % 16);
            assert(hi == (block@[off as int] as int) / 16);
        }
        match eta {
            Eta::Two => {
                if lo < 15 && out.len() < 256 {
                    let v = 2 + Q - lo % 5;
                    out.push(if v >= Q {
                        v - Q
                    } else {
                        v
                    });
                }
                if hi < 15 && out.len() < 256 {
                    let v = 2 + Q - hi % 5;
                    out.push(if v >= Q {
                        v - Q
                    } else {
                        v
                    });
                }
            },
            Eta::Four => {
                if lo < 9 && out.len() < 256 {
                    let v = 4 + Q - lo;
                    out.push(if v >= Q {
                        v - Q
                    } else {
                        v
                    });
                }
                if hi < 9 && out.len() < 256 {
                    let v = 4 + Q - hi;
                    out.push(if v >= Q {
                        v - Q
                    } else {
                        v
                    });
                }
            },
        }
        proof {
            let loi = (block@[off as int] as int) % 16;
            let hii = (block@[off as int] as int) / 16;
            let acc1 = if small_accepts(loi, eta) && acc0.len() < 256 {
                acc0.push(small_val(loi, eta) as u32)
            } else {
                acc0
            };
            let acc2 = if small_accepts(hii, eta) && acc1.len() < 256 {
                acc1.push(small_val(hii, eta) as u32)
            } else {
                acc1
            };
            assert(out@ == acc2);
        }
        off = off + 1;
    }
    out
}

/// One short secret polynomial for index tag `tag`: exactly the first 256
/// accepted nibbles of the tagged SHAKE256 stream, with failure exactly when
/// the byte budget holds fewer.
fn sample_small_poly(rhop: &Vec<u8>, eta: Eta, tag: u16) -> (r: Option<Polynomial>)
    ensures
        r is Some <==> small_samples(rhop@, eta, tag as int).len() == 256,
        r matches Some(p) ==> p.wf() && p.coeffs@ == small_samples(rhop@, eta, tag as int) && (
        forall|j: int|
            0 <= j < 256 ==> small_coeff(
                #[trigger] p.coeffs@[j] as int,
                eta.spec_value() as int,
            )),
{
    let seed = seed_with_tag(rhop, tag);
    let ghost full = shake256_of(tagged(rhop@, tag as int), 0x80000);
    let mut n: usize = 1024;
    loop
        invariant
            1024 <= n <= 0x80000,
            seed@ == tagged(rhop@, tag as int),
            full == shake256_of(tagged(rhop@, tag as int), 0x80000),
        decreases 0x80000 - n,
    {
        let block = shake256(&seed, n);
        proof {
            assert(shake256_of(seed@, 0x80000) == block@ + shake256_of(seed@, 0x80000).skip(
                n as int,
            ));
            assert(forall|t: int| 0 <= t < n ==> block@[t] == #[trigger] full[t]);
            assert(full.len() >= n);
        }
        let vals = parse_small(&block, eta);
        if vals.len() == 256 {
            proof {
                lemma_parse_small_prefix(block@, full, eta, 0, Seq::empty());
            }
            return Some(Polynomial { coeffs: vals });
        }
        if n >= 0x80000 {
            proof {
                assert(block@ =~= full);
            }
            return None;
        }
        n = if n >= 0x40000 {
            0x80000
        } else {
            n * 2
        };
    }
}

/// `ExpandS`: `count` short polynomials with coefficients in [-eta, eta],
/// sampled from the streams tagged `offset`, `offset + 1`, ...; fails
/// exactly when some stream runs short.
pub fn expand_s(rhop: &Vec<u8>, eta: Eta, offset: usize, count: usize) -> (r: Option<
    PolynomialVector,
>)
    requires
        count <= 8,
        offset + count <= 16,
    ensures
        r is Some <==> (forall|t: int|
            0 <= t < count ==> (#[trigger] small_samples(rhop@, eta, offset + t)).len() == 256),
        r matches Some(v) ==> v.wf(count as int) && (forall|i: int, j: int|
            0 <= i < count && 0 <= j < 256 ==> small_coeff(
                #[trigger] v.polys@[i].coeffs@[j] as int,
                eta.spec_value() as int,
            )) && (forall|t: int|
            0 <= t < count ==> v.polys@[t].coeffs@ == #[trigger] small_samples(
                rhop@,
                eta,
                offset + t,
            )),
{
    let mut polys: Vec<Polynomial> = Vec::new();
    let mut t: usize = 0;
    while t < count
        invariant
            t <= count <= 8,
            offset + count <= 16,
            polys@.len() == t,
            forall|a: int| 0 <= a < t ==> (#[trigger] polys@[a]).wf(),
            forall|a: int, j: int|
                0 <= a < t && 0 <= j < 256 ==> small_coeff(
                    #[trigger] polys@[a].coeffs@[j] as int,
                    eta.spec_value() as int,
                ),
            forall|a: int|
                0 <= a < t ==> polys@[a].coeffs@ == #[trigger] small_samples(
                    rhop@,
                    eta,
                    offset + a,
                ),
            forall|a: int|
                0 <= a < t ==> (#[trigger] small_samples(rhop@, eta, offset + a)).len() == 256,
        decreases count - t,
    {
        match sample_small_poly(rhop, eta, (offset + t) as u16) {
            Some(p) => {
                polys.push(p);
            },
            None => {
                proof {
                    assert(small_samples(rhop@, eta, offset + (t as int)).len() != 256);
                }
                return None;
            },
        }
        t = t + 1;
    }
    Some(PolynomialVector { polys })
}

/// Coefficient `j` of mask polynomial `tag`: the signed decode of the j-th
/// width-`gb` digit of the tagged SHAKE256 output of `32 * gb` bytes.
pub open spec fn mask_coeff(rhopp: Seq<u8>, tag: int, gamma1: int, gb: int, j: int) -> int {
    crate::codec::signed_decode(
        crate::codec::digit(shake256_of(tagged(rhopp, tag), (32 * gb) as nat), gb, j),
        gamma1,
    )
}

/// `ExpandMask`: L mask polynomials with coefficients in (-gamma1, gamma1],
/// each coefficient the signed decode of one digit of the tagged SHAKE256
/// output of exactly `32 * bitlen(2 gamma1)` bytes.
pub fn expand_mask(rhopp: &Vec<u8>, kappa: u16, gamma1: u32, gamma1_bits: usize, l: usize) -> (r:
    PolynomialVector)
    requires
        1 <= l <= 8,
        kappa + l <= 0x10000,
        gamma1 == 131072 && gamma1_bits == 18 || gamma1 == 524288 && gamma1_bits == 20,
    ensures
        r.wf(l as int),
        forall|i: int, j: int|
            0 <= i < l && 0 <= j < 256 ==> crate::codec::in_signed_range(
                r.polys@[i].coeffs@[j] as int,
                gamma1 as int - 1,
                gamma1 as int,
            ),
        forall|i: int, j: int|
            0 <= i < l && 0 <= j < 256 ==> r.polys@[i].coeffs@[j] == mask_coeff(
                rhopp@,
                kappa + i,
                gamma1 as int,
                gamma1_bits as int,
                j,
            ),
{
    let mut polys: Vec<Polynomial> = Vec::new();
    let mut t: usize = 0;
    while t < l
        invariant
            t <= l <= 8,
            kappa + l <= 0x10000,
            gamma1 == 131072 && gamma1_bits == 18 || gamma1 == 524288 && gamma1_bits == 20,
            polys@.len() == t,
            forall|a: int| 0 <= a < t ==> (#[trigger] polys@[a]).wf(),
            forall|a: int, j: int|
                0 <= a < t && 0 <= j < 256 ==> crate::codec::in_signed_range(
                    polys@[a].coeffs@[j] as int,
                    gamma1 as int - 1,
                    gamma1 as int,
                ),
            forall|a: int, j: int|
                0 <= a < t && 0 <= j < 256 ==> polys@[a].coeffs@[j] == mask_coeff(
                    rhopp@,
                    kappa + a,
                    gamma1 as int,
                    gamma1_bits as int,
                    j,
                ),
        decreases l - t,
    {
        let seed = seed_with_tag(rhopp, kappa + (t as u16));
        let block = shake256(&seed, 32 * gamma1_bits);
        proof {
            vstd::arithmetic::power2::lemma2_to64();
            assert(block@ == shake256_of(
                tagged(rhopp@, kappa + (t as int)),
                (32 * (gamma1_bits as int)) as nat,
            ));
        }
        let dec = bit_unpack(&block, gamma1 - 1, gamma1, gamma1_bits);
        match dec {
            Some(vals) => {
                polys.push(Polynomial { coeffs: vals });
            },
            None => {
                // impossible: every digit of width bitlen(2 gamma1) is at
                // most 2 gamma1 - 1
                proof {
                    assert(false);
                }
            },
        }
        t = t + 1;
    }
    PolynomialVector { polys }
}

/// The number of nonzero entries among the first `i` coefficients.
pub open spec fn nonzero_count(s: Seq<u32>, i: int) -> int
    decreases i,
{
    if i <= 0 {
        0
    } else {
        nonzero_count(s, i - 1) + if s[i - 1] == 0 {
            0int
        } else {
            1int
        }
    }
}

/// Updating one entry below `i` changes the count by the difference of the
/// two entries' zeroness.
proof fn lemma_count_update(s: Seq<u32>, idx: int, v: u32, i: int)
    requires
        0 <= idx < s.len(),
        idx < i <= s.len(),
    ensures
        nonzero_count(s.update(idx, v), i) == nonzero_count(s, i) + (if s[idx] == 0 {
            0int
        } else {
            -1int
        }) + (if v == 0 {
            0int
        } else {
            1int
        }),
    decreases i,
{
    let s2 = s.update(idx, v);
    if i > 0 {
        if idx == i - 1 {
            lemma_count_same(s, s2, i - 1);
        } else {
            lemma_count_update(s, idx, v, i - 1);
        }
    }
}

/// An all-zero prefix has count zero.
proof fn lemma_count_zero(s: Seq<u32>, i: int)
    requires
        i <= s.len(),
        forall|t: int| 0 <= t < i ==> s[t] == 0,
    ensures
        nonzero_count(s, i) == 0,
    decreases i,
{
    if i > 0 {
        lemma_count_zero(s, i - 1);
    }
}

/// Sequences that agree below `i` have the same count there.
proof fn lemma_count_same(s1: Seq<u32>, s2: Seq<u32>, i: int)
    requires
        0 <= i <= s1.len(),
        i <= s2.len(),
        forall|t: int| 0 <= t < i ==> s1[t] == s2[t],
    ensures
        nonzero_count(s1, i) == nonzero_count(s2, i),
    decreases i,
{
    if i > 0 {
        lemma_count_same(s1, s2, i - 1);
    }
}

/// The all-zero coefficient array.
pub open spec fn zero_coeffs() -> Seq<u32> {
    Seq::new(256, |i: int| 0u32)
}

/// The sign coefficient for placement slot `bpos`, read as bit `bpos` of the
/// first 8 stream bytes: +1 for a clear bit, q - 1 for a set bit.
pub open spec fn ball_sign(b: Seq<u8>, bpos: int) -> u32 {
    if ((b[bpos / 8] as int) / crate::codec::p2(bpos % 8)) % 2 == 1 {
        (Q - 1) as u32
    } else {
        1u32
    }
}

/// The deterministic in-ball parse: from state (c, i) at stream offset
/// `off`, skip bytes above `i`, and on a byte j <= i move c[j] to c[i] and
/// write the sign for slot i + tau - 256 at c[j]; done when i reaches 256,
/// failed when the stream runs out first.
pub open spec fn parse_ball_spec(b: Seq<u8>, tau: int, c: Seq<u32>, i: int, off: int) -> Option<
    Seq<u32>,
>
    decreases b.len() - off,
{
    if i >= 256 {
        Some(c)
    } else if off < 8 || off >= b.len() {
        None
    } else if (b[off] as int) <= i {
        parse_ball_spec(
            b,
            tau,
            c.update(i, c[(b[off] as int)]).update((b[off] as int), ball_sign(b, i + tau - 256)),
            i + 1,
            off + 1,
        )
    } else {
        parse_ball_spec(b, tau, c, i, off + 1)
    }
}

/// The challenge coefficients assigned to a challenge hash: the in-ball
/// parse of the full SHAKE256 byte budget.
pub open spec fn ball_samples(seed: Seq<u8>, tau: int) -> Option<Seq<u32>> {
    parse_ball_spec(shake256_of(seed, 0x80000), tau, zero_coeffs(), 256 - tau, 8)
}

/// Extending a block whose in-ball parse already succeeded does not change
/// the result.
proof fn lemma_parse_ball_prefix(
    b1: Seq<u8>,
    b2: Seq<u8>,
    tau: int,
    c: Seq<u32>,
    i: int,
    off: int,
)
    requires
        8 <= off <= b1.len(),
        b1.len() <= b2.len(),
        forall|t: int| 0 <= t < b1.len() ==> b1[t] == #[trigger] b2[t],
        1 <= tau <= 64,
        256 - tau <= i,
        parse_ball_spec(b1, tau, c, i, off) is Some,
    ensures
        parse_ball_spec(b2, tau, c, i, off) == parse_ball_spec(b1, tau, c, i, off),
    decreases b1.len() - off,
{
    if i >= 256 {
    } else if off >= b1.len() {
        assert(false);
    } else {
        assert(b1[off] == b2[off]);
        if (b1[off] as int) <= i {
            assert(ball_sign(b1, i + tau - 256) == ball_sign(b2, i + tau - 256)) by {
                assert(0 <= (i + tau - 256) / 8 < 8);
                assert(b1[(i + tau - 256) / 8] == b2[(i + tau - 256) / 8]);
            }
            lemma_parse_ball_prefix(
                b1,
                b2,
                tau,
                c.update(i, c[(b1[off] as int)]).update(
                    (b1[off] as int),
                    ball_sign(b1, i + tau - 256),
                ),
                i + 1,
                off + 1,
            );
        } else {
            lemma_parse_ball_prefix(b1, b2, tau, c, i, off + 1);
        }
    }
}

/// `SampleInBall`: the challenge polynomial with exactly tau coefficients in
/// {+1, -1} and the rest zero — exactly the in-ball parse of the challenge
/// hash's SHAKE256 stream, with failure exactly when the byte budget runs
/// out first.
pub fn sample_in_ball(ctilde: &Vec<u8>, tau: usize) -> (r: Option<Polynomial>)
    requires
        1 <= tau <= 64,
    ensures
        r is Some <==> ball_samples(ctilde@, tau as int) is Some,
        r matches Some(c) ==> c.wf() && nonzero_count(c.coeffs@, 256) == tau && (forall|j: int|
            0 <= j < 256 ==> c.coeffs@[j] == 0 || c.coeffs@[j] == 1 || #[trigger] c.coeffs@[j]
                == Q - 1) && ball_samples(ctilde@, tau as int) == Some(c.coeffs@),
{
    let ghost full = shake256_of(ctilde@, 0x80000);
    let mut n: usize = 1024;
    loop
        invariant
            1024 <= n <= 0x80000,
            1 <= tau <= 64,
            full == shake256_of(ctilde@, 0x80000),
        decreases 0x80000 - n,
    {
        let block = shake256(ctilde, n);
        proof {
            assert(shake256_of(ctilde@, 0x80000) == block@ + shake256_of(ctilde@, 0x80000).skip(
                n as int,
            ));
            assert(forall|t: int| 0 <= t < n ==> block@[t] == #[trigger] full[t]);
            assert(full.len() >= n);
        }
        match sample_in_ball_from(&block, tau) {
            Some(c) => {
                proof {
                    lemma_parse_ball_prefix(
                        block@,
                        full,
                        tau as int,
                        zero_coeffs(),
                        256 - tau,
                        8,
                    );
                }
                return Some(c);
            },
            None => {},
        }
        if n >= 0x80000 {
            proof {
                assert(block@ =~= full);
            }
            return None;
        }
        n = if n >= 0x40000 {
            0x80000
        } else {
            n * 2
        };
    }
}

/// One pass of the in-ball sampler over a squeezed block: the first 8 bytes
/// are the sign bits, the rest feed the Fisher-Yates style placement.
fn sample_in_ball_from(block: &Vec<u8>, tau: usize) -> (r: Option<Polynomial>)
    requires
        1 <= tau <= 64,
    ensures
        r is Some <==> parse_ball_spec(
            block@,
            tau as int,
            zero_coeffs(),
            256 - tau,
            8,
        ) is Some,
        r matches Some(c) ==> c.wf() && nonzero_count(c.coeffs@, 256) == tau && (forall|j: int|
            0 <= j < 256 ==> c.coeffs@[j] == 0 || c.coeffs@[j] == 1 || #[trigger] c.coeffs@[j]
                == Q - 1) && parse_ball_spec(block@, tau as int, zero_coeffs(), 256 - tau, 8)
            == Some(c.coeffs@),
{
    let ghost target = parse_ball_spec(block@, tau as int, zero_coeffs(), 256 - tau, 8);
    if block.len() < 8 {
        proof {
            assert(target is None);
        }
        return None;
    }
    let p = Polynomial::zero();
    let mut c: Vec<u32> = p.coeffs;
    let mut off: usize = 8;
    let mut i: usize = 256 - tau;
    let n = block.len();
    proof {
        lemma_count_zero(c@, 256);
        assert(c@ =~= zero_coeffs());
    }
    while i < 256
        invariant
            256 - tau <= i <= 256,
            8 <= off <= n,
            n == block@.len(),
            c@.len() == 256,
            nonzero_count(c@, 256) == i - (256 - tau),
            forall|t: int| i <= t < 256 ==> c@[t] == 0,
            forall|j: int|
                0 <= j < 256 ==> c@[j] == 0 || c@[j] == 1 || #[trigger] c@[j] == Q - 1,
            1 <= tau <= 64,
            target == parse_ball_spec(block@, tau as int, zero_coeffs(), 256 - tau, 8),
            parse_ball_spec(block@, tau as int, c@, i as int, off as int) == target,
        decreases 256 - i,
    {
        // find the next byte that is at most i
        let mut j: usize = 0;
        let mut found = false;
        while off < n && !found
            invariant
                8 <= off <= n,
                n == block@.len(),
                256 - tau <= i < 256,
                1 <= tau <= 64,
                c@.len() == 256,
                target == parse_ball_spec(block@, tau as int, zero_coeffs(), 256 - tau, 8),
                !found ==> parse_ball_spec(block@, tau as int, c@, i as int, off as int)
                    == target,
                found ==> off >= 9 && (block@[off - 1] as int) == j && j <= i
                    && parse_ball_spec(block@, tau as int, c@, i as int, off - 1) == target,
            decreases n - off,
        {
            let cand = block[off] as usize;
            off = off + 1;
            if cand <= i {
                j = cand;
                found = true;
            }
        }
        if !found {
            proof {
                assert(parse_ball_spec(block@, tau as int, c@, i as int, off as int) is None);
            }
            return None;
        }
        // sign bit for this slot
        let b = i + tau - 256;
        let sbyte = block[b / 8];
        let bit = (sbyte as u32 / bit_div(b % 8)) % 2;
        let sign: u32 = if bit == 1 {
            Q - 1
        } else {
            1
        };
        let ghost before = c@;
        let cj = c[j];
        c.set(i, cj);
        c.set(j, sign);
        proof {
            let mid = before.update(i as int, before[j as int]);
            lemma_count_update(before, i as int, before[j as int], 256);
            lemma_count_update(mid, j as int, sign, 256);
            if j == i {
                assert(mid[j as int] == before[j as int]);
            }
            // the executed step is one accepting unfold of the parse
            assert(sign == ball_sign(block@, i + tau - 256));
            assert(c@ == before.update(i as int, before[(block@[off - 1] as int)]).update(
                (block@[off - 1] as int),
                ball_sign(block@, i + tau - 256),
            ));
        }
        i = i + 1;
    }
    Some(Polynomial { coeffs: c })
}

/// `2^e` for a bit position within a byte.
fn bit_div(e: usize) -> (r: u32)
    requires
        e < 8,
    ensures
        r >= 1,
        r == crate::codec::p2(e as int),
{
    proof {
        vstd::arithmetic::power2::lemma2_to64();
    }
    match e {
        0 => 1,
        1 => 2,
        2 => 4,
        3 => 8,
        4 => 16,
        5 => 32,
        6 => 64,
        _ => 128,
    }
}

} // verus!
