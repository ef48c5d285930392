//! A verified core of ML-DSA (FIPS 204): lattice arithmetic over
//! Z_q[X]/(X^256 + 1), fixed-width bit-packed codecs, the power2round and
//! decompose rounding machinery with its hint system, deterministic seed
//! expansion through a SHAKE extendable-output function, and the three
//! top-level operations — key generation, signing and verification — for the
//! ML-DSA-44, ML-DSA-65 and ML-DSA-87 parameter sets.
pub mod codec;
pub mod crypto;
pub mod field;
pub mod hint;
pub mod ntt;
pub mod param;
pub mod poly;
pub mod round;
pub mod sample;

use vstd::prelude::*;

use crate::codec::{
    bit_pack_vector, bit_unpack_vector, in_signed_range, signed_encoded, simple_bit_pack_vector,
    simple_bit_unpack_vector, simple_encoded, take_chunk, vector_digits_ok,
};
use crate::crypto::shake256;
use crate::hint::{hint_decode, hint_encode, hint_weight, valid_hint_bytes, Hint};
use crate::param::{ParameterSet, Q};
use crate::poly::{Polynomial, PolynomialVector};
use crate::ntt::dot_coeff2;
use crate::round::{high_bits_vector, low_bits_vector, power2round_vector};
use crate::sample::{expand_a, expand_mask, expand_s, sample_in_ball, small_coeff};

verus! {

/// An ML-DSA signing key: the public seed rho, the signing seed K, the key
/// hash tr, and the secret vectors s1, s2, t0.
pub struct SigningKey {
    pub rho: Vec<u8>,
    pub key: Vec<u8>,
    pub tr: Vec<u8>,
    pub s1: PolynomialVector,
    pub s2: PolynomialVector,
    pub t0: PolynomialVector,
}

/// An ML-DSA verification key: the public seed rho and the rounded public
/// vector t1.
pub struct VerificationKey {
    pub rho: Vec<u8>,
    pub t1: PolynomialVector,
}

/// An ML-DSA signature: the challenge hash, the response vector and the
/// hint.
pub struct Signature {
    pub c_tilde: Vec<u8>,
    pub z: PolynomialVector,
    pub h: Hint,
}

impl SigningKey {
    /// Structural invariant: field lengths match the parameter set and every
    /// secret coefficient lies in its declared range.
    pub open spec fn wf(&self, ps: &ParameterSet) -> bool {
        &&& ps.valid()
        &&& self.rho@.len() == 32
        &&& self.key@.len() == 32
        &&& self.tr@.len() == 64
        &&& self.s1.wf(ps.l as int)
        &&& (forall|i: int, j: int|
            0 <= i < ps.l && 0 <= j < 256 ==> small_coeff(
                #[trigger] self.s1.polys@[i].coeffs@[j] as int,
                ps.eta.spec_value() as int,
            ))
        &&& self.s2.wf(ps.k as int)
        &&& (forall|i: int, j: int|
            0 <= i < ps.k && 0 <= j < 256 ==> small_coeff(
                #[trigger] self.s2.polys@[i].coeffs@[j] as int,
                ps.eta.spec_value() as int,
            ))
        &&& self.t0.wf(ps.k as int)
        &&& (forall|i: int, j: int|
            0 <= i < ps.k && 0 <= j < 256 ==> in_signed_range(
                #[trigger] self.t0.polys@[i].coeffs@[j] as int,
                4095,
                4096,
            ))
    }
}

impl VerificationKey {
    /// Structural invariant: rho is 32 bytes and every t1 coefficient fits
    /// in 10 bits.
    pub open spec fn wf(&self, ps: &ParameterSet) -> bool {
        &&& ps.valid()
        &&& self.rho@.len() == 32
        &&& self.t1.wf(ps.k as int)
        &&& (forall|i: int, j: int|
            0 <= i < ps.k && 0 <= j < 256 ==> #[trigger] self.t1.polys@[i].coeffs@[j] < 1024)
    }
}

impl Signature {
    /// Structural invariant: the challenge hash has lambda bytes, z is in
    /// the encodable range (-gamma1 + 1, gamma1], and the hint has k rows.
    pub open spec fn wf(&self, ps: &ParameterSet) -> bool {
        &&& ps.valid()
        &&& self.c_tilde@.len() == ps.lambda
        &&& self.z.wf(ps.l as int)
        &&& (forall|i: int, j: int|
            0 <= i < ps.l && 0 <= j < 256 ==> in_signed_range(
                #[trigger] self.z.polys@[i].coeffs@[j] as int,
                ps.gamma1 as int - 1,
                ps.gamma1 as int,
            ))
        &&& self.h.wf(ps.k as int)
    }
}

/// Append a copy of `src` to `out`.
fn push_bytes(out: &mut Vec<u8>, src: &Vec<u8>)
    ensures
        final(out)@ == old(out)@ + src@,
{
    let n = src.len();
    let mut i: usize = 0;
    while i < n
        invariant
            i <= n,
            n == src@.len(),
            out@ == old(out)@ + src@.subrange(0, i as int),
        decreases n - i,
    {
        out.push(src[i]);
        proof {
            assert(out@ =~= old(out)@ + src@.subrange(0, i + 1));
        }
        i = i + 1;
    }
    proof {
        assert(out@ =~= old(out)@ + src@);
    }
}

/// Consume a secret byte string, overwriting it with zeros first:
/// best-effort scrubbing of seed material on release.
fn scrub_bytes(b: Vec<u8>)
{
    let mut b = b;
    let n = b.len();
    let mut i: usize = 0;
    while i < n
        invariant
            i <= n,
            n == b@.len(),
        decreases n - i,
    {
        b.set(i, 0);
        i = i + 1;
    }
}

/// A copy of a byte string.
fn clone_bytes(v: &Vec<u8>) -> (r: Vec<u8>)
    ensures
        r@ == v@,
{
    let mut out: Vec<u8> = Vec::new();
    push_bytes(&mut out, v);
    proof {
        assert(out@ =~= v@);
    }
    out
}

/// Constant-time byte string comparison: OR-accumulate the XOR of every
/// byte pair, with no early exit.
fn ct_eq(a: &Vec<u8>, b: &Vec<u8>) -> (r: bool)
    requires
        a@.len() == b@.len(),
    ensures
        r <==> a@ == b@,
{
    let n = a.len();
    let mut acc: u8 = 0;
    let mut i: usize = 0;
    while i < n
        invariant
            i <= n,
            n == a@.len(),
            n == b@.len(),
            (acc == 0) <==> (forall|t: int| 0 <= t < i ==> a@[t] == b@[t]),
        decreases n - i,
    {
        let x = a[i];
        let y = b[i];
        let d = x ^ y;
        proof {
            assert((x ^ y) == 0 <==> x == y) by (bit_vector);
            let a0 = acc;
            assert((a0 | (x ^ y)) == 0 <==> (a0 == 0 && (x ^ y) == 0)) by (bit_vector);
        }
        acc = acc | d;
        i = i + 1;
    }
    if acc == 0 {
        proof {
            assert(a@ =~= b@);
        }
        true
    } else {
        false
    }
}

/// A segment of a concatenation equals the corresponding segment of the
/// part that was placed at `off`.
proof fn lemma_chunk_of(whole: Seq<u8>, part: Seq<u8>, off: int, lo: int, hi: int)
    requires
        0 <= lo <= hi <= part.len(),
        0 <= off,
        off + part.len() <= whole.len(),
        forall|x: int| 0 <= x < part.len() ==> whole[off + x] == #[trigger] part[x],
    ensures
        whole.subrange(off + lo, off + hi) == part.subrange(lo, hi),
{
    assert(whole.subrange(off + lo, off + hi) =~= part.subrange(lo, hi));
}

/// What it means for a byte string to be the `pkEncode` serialization of a
/// verification key: rho verbatim, then t1 packed at 10 bits.
pub open spec fn vk_encoded(bytes: Seq<u8>, vk: &VerificationKey, ps: &ParameterSet) -> bool {
    &&& bytes.len() == ps.spec_vk_size()
    &&& bytes.subrange(0, 32) == vk.rho@
    &&& (forall|i: int|
        0 <= i < ps.k ==> simple_encoded(
            #[trigger] bytes.subrange(32 + i * 320, 32 + (i + 1) * 320),
            vk.t1.polys@[i].coeffs@,
            10,
        ))
}

/// The encoded verification key as a function of the key: rho verbatim,
/// then the packed bytes of each t1 polynomial.
pub open spec fn vk_bytes(vk: &VerificationKey, ps: &ParameterSet) -> Seq<u8> {
    Seq::new(
        ps.spec_vk_size() as nat,
        |t: int|
            if t < 32 {
                vk.rho@[t]
            } else {
                crate::codec::simple_packed_bytes(
                    vk.t1.polys@[(t - 32) / 320].coeffs@,
                    10,
                )[(t - 32) % 320]
            },
    )
}

/// Any byte string encoding a verification key is exactly `vk_bytes`.
pub proof fn lemma_vk_encoded_bytes(b: Seq<u8>, vk: &VerificationKey, ps: &ParameterSet)
    requires
        ps.valid(),
        vk.wf(ps),
        vk_encoded(b, vk, ps),
    ensures
        b == vk_bytes(vk, ps),
{
    crate::param::lemma_sizes(ps);
    let k = ps.k as int;
    assert forall|t: int| 0 <= t < ps.spec_vk_size() implies b[t] == vk_bytes(vk, ps)[t] by {
        if t < 32 {
            assert(b.subrange(0, 32)[t] == vk.rho@[t]);
        } else {
            let i = (t - 32) / 320;
            let r = (t - 32) % 320;
            vstd::arithmetic::div_mod::lemma_fundamental_div_mod(t - 32, 320);
            assert(0 <= i < k) by {
                assert(t - 32 < 320 * k);
            }
            let c = b.subrange(32 + i * 320, 32 + (i + 1) * 320);
            assert(simple_encoded(c, vk.t1.polys@[i].coeffs@, 10));
            crate::codec::lemma_simple_encoded_bytes(c, vk.t1.polys@[i].coeffs@, 10);
            assert(c[r] == b[32 + i * 320 + r]);
            assert(32 + i * 320 + r == t);
        }
    }
    assert(b =~= vk_bytes(vk, ps));
}

impl VerificationKey {
    /// `pkEncode`: rho followed by t1 packed at 10 bits.
    pub fn encode(&self, ps: &ParameterSet) -> (r: Vec<u8>)
        requires
            self.wf(ps),
        ensures
            r@.len() == ps.spec_vk_size(),
            vk_encoded(r@, self, ps),
            r@ == vk_bytes(self, ps),
    {
        proof {
            vstd::arithmetic::power2::lemma2_to64();
        }
        let mut out = clone_bytes(&self.rho);
        let enc = simple_bit_pack_vector(&self.t1, 10, ps.k);
        let ghost encv = enc@;
        push_bytes(&mut out, &enc);
        proof {
            assert(out@.subrange(0, 32) =~= self.rho@);
            assert forall|i: int| 0 <= i < ps.k implies simple_encoded(
                #[trigger] out@.subrange(32 + i * 320, 32 + (i + 1) * 320),
                self.t1.polys@[i].coeffs@,
                10,
            ) by {
                assert(0 <= i * 320 && (i + 1) * 320 <= ps.k * 320) by (nonlinear_arith)
                    requires
                        0 <= i,
                        i + 1 <= ps.k,
                ;
                lemma_chunk_of(out@, encv, 32, i * 320, (i + 1) * 320);
            }
            lemma_vk_encoded_bytes(out@, self, ps);
        }
        out
    }

    /// `pkDecode`: split rho off and unpack t1.  Every 10-bit pattern is a
    /// valid coefficient, so decoding a correctly sized key cannot fail.
    pub fn decode(bytes: &Vec<u8>, ps: &ParameterSet) -> (r: VerificationKey)
        requires
            ps.valid(),
            bytes@.len() == ps.spec_vk_size(),
        ensures
            r.wf(ps),
            vk_encoded(bytes@, &r, ps),
    {
        proof {
            vstd::arithmetic::power2::lemma2_to64();
        }
        let rho = take_chunk(bytes, 0, 32);
        let rest = take_chunk(bytes, 32, 320 * ps.k);
        let t1 = simple_bit_unpack_vector(&rest, 10, ps.k);
        proof {
            assert forall|i: int| 0 <= i < ps.k implies simple_encoded(
                #[trigger] bytes@.subrange(32 + i * 320, 32 + (i + 1) * 320),
                t1.polys@[i].coeffs@,
                10,
            ) by {
                assert(0 <= i * 320 && (i + 1) * 320 <= ps.k * 320) by (nonlinear_arith)
                    requires
                        0 <= i,
                        i + 1 <= ps.k,
                ;
                assert(simple_encoded(
                    rest@.subrange(i * (32 * 10), (i + 1) * (32 * 10)),
                    t1.polys@[i].coeffs@,
                    10,
                ));
                assert(bytes@.subrange(32 + i * 320, 32 + (i + 1) * 320) =~= rest@.subrange(
                    i * (32 * 10),
                    (i + 1) * (32 * 10),
                ));
            }
            assert forall|i: int, j: int|
                0 <= i < ps.k && 0 <= j < 256 implies #[trigger] t1.polys@[i].coeffs@[j]
                < 1024 by {
                assert(simple_encoded(
                    rest@.subrange(i * (32 * 10), (i + 1) * (32 * 10)),
                    t1.polys@[i].coeffs@,
                    10,
                ));
            }
        }
        VerificationKey { rho, t1 }
    }
}

/// What it means for a byte string to be the `skEncode` serialization of a
/// signing key: rho, K and tr verbatim, then s1, s2 at eta range and t0 at
/// 13 bits, all bit-packed.
pub open spec fn sk_encoded(bytes: Seq<u8>, sk: &SigningKey, ps: &ParameterSet) -> bool {
    let eb = ps.spec_eta_bits() as int;
    let sz = 32 * eb;
    let l = ps.l as int;
    let k = ps.k as int;
    let e = ps.eta.spec_value() as int;
    &&& bytes.len() == ps.spec_sk_size()
    &&& bytes.subrange(0, 32) == sk.rho@
    &&& bytes.subrange(32, 64) == sk.key@
    &&& bytes.subrange(64, 128) == sk.tr@
    &&& (forall|i: int|
        0 <= i < l ==> signed_encoded(
            #[trigger] bytes.subrange(128 + i * sz, 128 + (i + 1) * sz),
            sk.s1.polys@[i].coeffs@,
            e,
            e,
            eb,
        ))
    &&& (forall|i: int|
        0 <= i < k ==> signed_encoded(
            #[trigger] bytes.subrange(128 + l * sz + i * sz, 128 + l * sz + (i + 1) * sz),
            sk.s2.polys@[i].coeffs@,
            e,
            e,
            eb,
        ))
    &&& (forall|i: int|
        0 <= i < k ==> signed_encoded(
            #[trigger] bytes.subrange(
                128 + l * sz + k * sz + i * 416,
                128 + l * sz + k * sz + (i + 1) * 416,
            ),
            sk.t0.polys@[i].coeffs@,
            4095,
            4096,
            13,
        ))
}

/// What it means for a byte string to be the `sigEncode` serialization of a
/// signature: the challenge hash verbatim, z bit-packed at the gamma1 width,
/// then the hint encoding.
pub open spec fn sig_encoded(bytes: Seq<u8>, sig: &Signature, ps: &ParameterSet) -> bool {
    let gb = ps.spec_gamma1_bits() as int;
    let sz = 32 * gb;
    let l = ps.l as int;
    let k = ps.k as int;
    let lam = ps.lambda as int;
    let g1 = ps.gamma1 as int;
    &&& bytes.len() == ps.spec_sig_size()
    &&& bytes.subrange(0, lam) == sig.c_tilde@
    &&& (forall|i: int|
        0 <= i < l ==> signed_encoded(
            #[trigger] bytes.subrange(lam + i * sz, lam + (i + 1) * sz),
            sig.z.polys@[i].coeffs@,
            g1 - 1,
            g1,
            gb,
        ))
    &&& crate::hint::hint_encoded(
        bytes.subrange(lam + l * sz, lam + l * sz + ps.omega + k),
        sig.h.view_rows(),
        ps.omega as int,
        k,
    )
}

impl SigningKey {
    /// `skEncode`: rho, K, tr, then the packed secret vectors.
    pub fn encode(&self, ps: &ParameterSet) -> (r: Vec<u8>)
        requires
            self.wf(ps),
        ensures
            r@.len() == ps.spec_sk_size(),
            sk_encoded(r@, self, ps),
    {
        proof {
            vstd::arithmetic::power2::lemma2_to64();
        }
        proof {
            crate::param::lemma_sizes(ps);
        }
        let eta = ps.eta.value();
        let eb = ps.eta_bits();
        let sz = 32 * eb;
        let mut out = clone_bytes(&self.rho);
        push_bytes(&mut out, &self.key);
        push_bytes(&mut out, &self.tr);
        let s1e = bit_pack_vector(&self.s1, eta, eta, eb, ps.l);
        let ghost s1v = s1e@;
        push_bytes(&mut out, &s1e);
        let s2e = bit_pack_vector(&self.s2, eta, eta, eb, ps.k);
        let ghost s2v = s2e@;
        push_bytes(&mut out, &s2e);
        let t0e = bit_pack_vector(&self.t0, 4095, 4096, 13, ps.k);
        let ghost t0v = t0e@;
        push_bytes(&mut out, &t0e);
        proof {
            let l = ps.l as int;
            let k = ps.k as int;
            let szi = sz as int;
            assert(s1v.len() == l * szi && s2v.len() == k * szi && t0v.len() == k * 416);
            assert(out@.subrange(0, 32) =~= self.rho@);
            assert(out@.subrange(32, 64) =~= self.key@);
            assert(out@.subrange(64, 128) =~= self.tr@);
            assert forall|i: int| 0 <= i < l implies signed_encoded(
                #[trigger] out@.subrange(128 + i * szi, 128 + (i + 1) * szi),
                self.s1.polys@[i].coeffs@,
                ps.eta.spec_value() as int,
                ps.eta.spec_value() as int,
                ps.spec_eta_bits() as int,
            ) by {
                assert(0 <= i * szi && i * szi <= (i + 1) * szi && (i + 1) * szi <= l * szi) by (nonlinear_arith)
                    requires
                        0 <= i,
                        i + 1 <= l,
                        szi > 0,
                ;
                assert(signed_encoded(
                    s1v.subrange(i * (32 * (eb as int)), (i + 1) * (32 * (eb as int))),
                    self.s1.polys@[i].coeffs@,
                    eta as int,
                    eta as int,
                    eb as int,
                ));
                lemma_chunk_of(out@, s1v, 128, i * szi, (i + 1) * szi);
            }
            assert forall|i: int| 0 <= i < k implies signed_encoded(
                #[trigger] out@.subrange(
                    128 + l * szi + i * szi,
                    128 + l * szi + (i + 1) * szi,
                ),
                self.s2.polys@[i].coeffs@,
                ps.eta.spec_value() as int,
                ps.eta.spec_value() as int,
                ps.spec_eta_bits() as int,
            ) by {
                assert(0 <= i * szi && i * szi <= (i + 1) * szi && (i + 1) * szi <= k * szi) by (nonlinear_arith)
                    requires
                        0 <= i,
                        i + 1 <= k,
                        szi > 0,
                ;
                assert(signed_encoded(
                    s2v.subrange(i * (32 * (eb as int)), (i + 1) * (32 * (eb as int))),
                    self.s2.polys@[i].coeffs@,
                    eta as int,
                    eta as int,
                    eb as int,
                ));
                lemma_chunk_of(out@, s2v, 128 + l * szi, i * szi, (i + 1) * szi);
            }
            assert forall|i: int| 0 <= i < k implies signed_encoded(
                #[trigger] out@.subrange(
                    128 + l * szi + k * szi + i * 416,
                    128 + l * szi + k * szi + (i + 1) * 416,
                ),
                self.t0.polys@[i].coeffs@,
                4095,
                4096,
                13,
            ) by {
                assert(0 <= i * 416 && i * 416 <= (i + 1) * 416 && (i + 1) * 416 <= k * 416) by (nonlinear_arith)
                    requires
                        0 <= i,
                        i + 1 <= k,
                ;
                assert(signed_encoded(
                    t0v.subrange(i * (32 * 13), (i + 1) * (32 * 13)),
                    self.t0.polys@[i].coeffs@,
                    4095,
                    4096,
                    13,
                ));
                lemma_chunk_of(out@, t0v, 128 + l * szi + k * szi, i * 416, (i + 1) * 416);
            }
        }
        out
    }

    /// `skDecode`: split the byte string and unpack the secret vectors.
    /// Fails exactly when an s1 or s2 digit falls outside [0, 2 eta]; the t0
    /// segment uses the full 13-bit range and cannot fail.
    pub fn decode(bytes: &Vec<u8>, ps: &ParameterSet) -> (r: Option<SigningKey>)
        requires
            ps.valid(),
            bytes@.len() == ps.spec_sk_size(),
        ensures
            r is Some <==> vector_digits_ok(
                bytes@.subrange(
                    128,
                    128 + (ps.l as int) * (32 * (ps.spec_eta_bits() as int)),
                ),
                ps.spec_eta_bits() as int,
                ps.l as int,
                2 * ps.eta.spec_value() as int,
            ) && vector_digits_ok(
                bytes@.subrange(
                    128 + (ps.l as int) * (32 * (ps.spec_eta_bits() as int)),
                    128 + (ps.l as int) * (32 * (ps.spec_eta_bits() as int)) + (ps.k as int) * (
                    32 * (ps.spec_eta_bits() as int)),
                ),
                ps.spec_eta_bits() as int,
                ps.k as int,
                2 * ps.eta.spec_value() as int,
            ),
            r matches Some(sk) ==> sk.wf(ps) && sk_encoded(bytes@, &sk, ps),
    {
        proof {
            vstd::arithmetic::power2::lemma2_to64();
        }
        proof {
            crate::param::lemma_sizes(ps);
        }
        let eta = ps.eta.value();
        let eb = ps.eta_bits();
        let sz = 32 * eb;
        let rho = take_chunk(bytes, 0, 32);
        let key = take_chunk(bytes, 32, 32);
        let tr = take_chunk(bytes, 64, 64);
        let s1b = take_chunk(bytes, 128, ps.l * sz);
        let s2b = take_chunk(bytes, 128 + ps.l * sz, ps.k * sz);
        let t0b = take_chunk(bytes, 128 + ps.l * sz + ps.k * sz, ps.k * 416);
        let ghost l = ps.l as int;
        let ghost k = ps.k as int;
        let ghost szi = sz as int;
        let s1d = bit_unpack_vector(&s1b, eta, eta, eb, ps.l);
        let s2d = bit_unpack_vector(&s2b, eta, eta, eb, ps.k);
        let t0d = bit_unpack_vector(&t0b, 4095, 4096, 13, ps.k);
        proof {
            assert(s1b@ =~= bytes@.subrange(
                128,
                128 + l * (32 * (ps.spec_eta_bits() as int)),
            ));
            assert(s2b@ =~= bytes@.subrange(
                128 + l * (32 * (ps.spec_eta_bits() as int)),
                128 + l * (32 * (ps.spec_eta_bits() as int)) + k * (32 * (
                ps.spec_eta_bits() as int)),
            ));
            // t0 digits are always in range: every 13-bit value is at most 8191
            assert(vector_digits_ok(t0b@, 13, k, 8191)) by {
                assert forall|i: int, j: int| 0 <= i < k && 0 <= j < 256 implies #[trigger] crate::codec::digit(
                    t0b@.subrange(i * (32 * 13), (i + 1) * (32 * 13)),
                    13,
                    j,
                ) <= 8191 by {
                    let seg = t0b@.subrange(i * (32 * 13), (i + 1) * (32 * 13));
                    let n = crate::codec::bytes_nat(seg, (32 * 13) as int);
                    vstd::arithmetic::power2::lemma2_to64_rest();
                    assert(crate::codec::p2(13) == 8192) by {
                        vstd::arithmetic::power2::lemma2_to64();
                    }
                    vstd::arithmetic::div_mod::lemma_mod_division_less_than_divisor(
                        n / crate::codec::p2(13 * j),
                        8192,
                    );
                }
            }
        }
        match (s1d, s2d, t0d) {
            (Some(s1), Some(s2), Some(t0)) => {
                let sk = SigningKey { rho, key, tr, s1, s2, t0 };
                proof {
                    assert(bytes@.subrange(0, 32) =~= rho@);
                    assert(bytes@.subrange(32, 64) =~= key@);
                    assert(bytes@.subrange(64, 128) =~= tr@);
                    let e = ps.eta.spec_value() as int;
                    assert forall|i: int| 0 <= i < l implies signed_encoded(
                        #[trigger] bytes@.subrange(128 + i * szi, 128 + (i + 1) * szi),
                        sk.s1.polys@[i].coeffs@,
                        e,
                        e,
                        szi / 32,
                    ) by {
                        assert(0 <= i * szi && i * szi <= (i + 1) * szi && (i + 1) * szi <= l * szi) by (nonlinear_arith)
                            requires
                                0 <= i,
                                i + 1 <= l,
                                szi > 0,
                        ;
                        assert(signed_encoded(
                            s1b@.subrange(i * (32 * (eb as int)), (i + 1) * (32 * (eb as int))),
                            sk.s1.polys@[i].coeffs@,
                            eta as int,
                            eta as int,
                            eb as int,
                        ));
                        lemma_chunk_of(
                            bytes@,
                            s1b@,
                            128,
                            i * (32 * (eb as int)),
                            (i + 1) * (32 * (eb as int)),
                        );
                    }
                    assert forall|i: int| 0 <= i < k implies signed_encoded(
                        #[trigger] bytes@.subrange(
                            128 + l * szi + i * szi,
                            128 + l * szi + (i + 1) * szi,
                        ),
                        sk.s2.polys@[i].coeffs@,
                        e,
                        e,
                        szi / 32,
                    ) by {
                        assert(0 <= i * szi && i * szi <= (i + 1) * szi && (i + 1) * szi <= k * szi) by (nonlinear_arith)
                            requires
                                0 <= i,
                                i + 1 <= k,
                                szi > 0,
                        ;
                        assert(signed_encoded(
                            s2b@.subrange(i * (32 * (eb as int)), (i + 1) * (32 * (eb as int))),
                            sk.s2.polys@[i].coeffs@,
                            eta as int,
                            eta as int,
                            eb as int,
                        ));
                        lemma_chunk_of(
                            bytes@,
                            s2b@,
                            128 + l * szi,
                            i * (32 * (eb as int)),
                            (i + 1) * (32 * (eb as int)),
                        );
                    }
                    assert forall|i: int| 0 <= i < k implies signed_encoded(
                        #[trigger] bytes@.subrange(
                            128 + l * szi + k * szi + i * 416,
                            128 + l * szi + k * szi + (i + 1) * 416,
                        ),
                        sk.t0.polys@[i].coeffs@,
                        4095,
                        4096,
                        13,
                    ) by {
                        assert(0 <= i * 416 && i * 416 <= (i + 1) * 416 && (i + 1) * 416 <= k * 416) by (nonlinear_arith)
                            requires
                                0 <= i,
                                i + 1 <= k,
                        ;
                        assert(signed_encoded(
                            t0b@.subrange(i * (32 * 13), (i + 1) * (32 * 13)),
                            sk.t0.polys@[i].coeffs@,
                            4095,
                            4096,
                            13,
                        ));
                        lemma_chunk_of(
                            bytes@,
                            t0b@,
                            128 + l * szi + k * szi,
                            i * (32 * 13),
                            (i + 1) * (32 * 13),
                        );
                    }
                    // the decoded coefficients inherit their range bounds
                    assert forall|i: int, j: int|
                        0 <= i < l && 0 <= j < 256 implies small_coeff(
                        #[trigger] sk.s1.polys@[i].coeffs@[j] as int,
                        ps.eta.spec_value() as int,
                    ) by {
                        assert(0 <= i * szi && i * szi <= (i + 1) * szi && (i + 1) * szi <= l * szi) by (nonlinear_arith)
                            requires
                                0 <= i,
                                i + 1 <= l,
                                szi > 0,
                        ;
                        assert(signed_encoded(
                            s1b@.subrange(i * (32 * (eb as int)), (i + 1) * (32 * (eb as int))),
                            sk.s1.polys@[i].coeffs@,
                            eta as int,
                            eta as int,
                            eb as int,
                        ));
                        assert(in_signed_range(
                            sk.s1.polys@[i].coeffs@[j] as int,
                            eta as int,
                            eta as int,
                        ));
                    }
                    assert forall|i: int, j: int|
                        0 <= i < k && 0 <= j < 256 implies small_coeff(
                        #[trigger] sk.s2.polys@[i].coeffs@[j] as int,
                        ps.eta.spec_value() as int,
                    ) by {
                        assert(0 <= i * szi && i * szi <= (i + 1) * szi && (i + 1) * szi <= k * szi) by (nonlinear_arith)
                            requires
                                0 <= i,
                                i + 1 <= k,
                                szi > 0,
                        ;
                        assert(signed_encoded(
                            s2b@.subrange(i * (32 * (eb as int)), (i + 1) * (32 * (eb as int))),
                            sk.s2.polys@[i].coeffs@,
                            eta as int,
                            eta as int,
                            eb as int,
                        ));
                        assert(in_signed_range(
                            sk.s2.polys@[i].coeffs@[j] as int,
                            eta as int,
                            eta as int,
                        ));
                    }
                    assert forall|i: int, j: int|
                        0 <= i < k && 0 <= j < 256 implies in_signed_range(
                        #[trigger] sk.t0.polys@[i].coeffs@[j] as int,
                        4095,
                        4096,
                    ) by {
                        assert(0 <= i * 416 && i * 416 <= (i + 1) * 416 && (i + 1) * 416 <= k * 416) by (nonlinear_arith)
                            requires
                                0 <= i,
                                i + 1 <= k,
                        ;
                        assert(signed_encoded(
                            t0b@.subrange(i * (32 * 13), (i + 1) * (32 * 13)),
                            sk.t0.polys@[i].coeffs@,
                            4095,
                            4096,
                            13,
                        ));
                        assert(in_signed_range(sk.t0.polys@[i].coeffs@[j] as int, 4095, 4096));
                    }
                }
                Some(sk)
            },
            _ => {
                None
            },
        }
    }
}

impl Signature {
    /// `sigEncode`: the challenge hash, the packed z vector, the encoded
    /// hint.
    pub fn encode(&self, ps: &ParameterSet) -> (r: Vec<u8>)
        requires
            self.wf(ps),
            hint_weight(self.h.view_rows(), ps.k as int) <= ps.omega,
        ensures
            r@.len() == ps.spec_sig_size(),
            sig_encoded(r@, self, ps),
    {
        proof {
            vstd::arithmetic::power2::lemma2_to64();
            crate::param::lemma_sizes(ps);
        }
        let gb = ps.gamma1_bits();
        let sz = 32 * gb;
        let lam = ps.lambda;
        let mut out = clone_bytes(&self.c_tilde);
        let ze = bit_pack_vector(&self.z, ps.gamma1 - 1, ps.gamma1, gb, ps.l);
        let ghost zv = ze@;
        push_bytes(&mut out, &ze);
        let he = hint_encode(&self.h, ps.omega, ps.k);
        let ghost hv = he@;
        push_bytes(&mut out, &he);
        proof {
            let l = ps.l as int;
            let k = ps.k as int;
            let szi = sz as int;
            let lami = lam as int;
            assert(out@.subrange(0, lami) =~= self.c_tilde@);
            assert forall|i: int| 0 <= i < l implies signed_encoded(
                #[trigger] out@.subrange(lami + i * szi, lami + (i + 1) * szi),
                self.z.polys@[i].coeffs@,
                ps.gamma1 as int - 1,
                ps.gamma1 as int,
                ps.spec_gamma1_bits() as int,
            ) by {
                assert(0 <= i * szi && i * szi <= (i + 1) * szi && (i + 1) * szi <= l * szi) by (
                nonlinear_arith)
                    requires
                        0 <= i,
                        i + 1 <= l,
                        szi > 0,
                ;
                assert(signed_encoded(
                    zv.subrange(i * (32 * (gb as int)), (i + 1) * (32 * (gb as int))),
                    self.z.polys@[i].coeffs@,
                    ps.gamma1 as int - 1,
                    ps.gamma1 as int,
                    gb as int,
                ));
                lemma_chunk_of(out@, zv, lami, i * szi, (i + 1) * szi);
            }
            lemma_chunk_of(out@, hv, lami + l * szi, 0, (ps.omega + k) as int);
            assert(out@.subrange(lami + l * szi, lami + l * szi + ps.omega + k) =~= hv);
        }
        out
    }

    /// `sigDecode`: split the byte string; the z segment uses the full bit
    /// range and always decodes, so failure is exactly a malformed hint
    /// encoding.
    pub fn decode(bytes: &Vec<u8>, ps: &ParameterSet) -> (r: Option<Signature>)
        requires
            ps.valid(),
            bytes@.len() == ps.spec_sig_size(),
        ensures
            r is Some <==> valid_hint_bytes(
                bytes@.subrange(
                    ps.lambda + (ps.l as int) * (32 * (ps.spec_gamma1_bits() as int)),
                    ps.spec_sig_size(),
                ),
                ps.k as int,
                ps.omega as int,
            ),
            r matches Some(sig) ==> sig.wf(ps) && sig.c_tilde@ == bytes@.subrange(
                0,
                ps.lambda as int,
            ) && (forall|i: int|
                0 <= i < ps.l ==> signed_encoded(
                    #[trigger] bytes@.subrange(
                        ps.lambda + i * (32 * (ps.spec_gamma1_bits() as int)),
                        ps.lambda + (i + 1) * (32 * (ps.spec_gamma1_bits() as int)),
                    ),
                    sig.z.polys@[i].coeffs@,
                    ps.gamma1 as int - 1,
                    ps.gamma1 as int,
                    ps.spec_gamma1_bits() as int,
                )) && crate::hint::hint_bits_match(
                bytes@.subrange(
                    ps.lambda + (ps.l as int) * (32 * (ps.spec_gamma1_bits() as int)),
                    ps.spec_sig_size(),
                ),
                sig.h.view_rows(),
                ps.omega as int,
                ps.k as int,
            ),
    {
        proof {
            vstd::arithmetic::power2::lemma2_to64();
            crate::param::lemma_sizes(ps);
        }
        let gb = ps.gamma1_bits();
        let sz = 32 * gb;
        let lam = ps.lambda;
        let ghost l = ps.l as int;
        let ghost k = ps.k as int;
        let ghost szi = sz as int;
        let ghost lami = lam as int;
        let ct = take_chunk(bytes, 0, lam);
        let zb = take_chunk(bytes, lam, ps.l * sz);
        let hb = take_chunk(bytes, lam + ps.l * sz, ps.omega + ps.k);
        proof {
            assert(hb@ =~= bytes@.subrange(
                lami + l * (32 * (ps.spec_gamma1_bits() as int)),
                ps.spec_sig_size(),
            ));
            // every gamma1-width digit is within the signed range
            assert(vector_digits_ok(zb@, gb as int, l, 2 * (ps.gamma1 as int) - 1)) by {
                assert forall|i: int, j: int|
                    0 <= i < l && 0 <= j < 256 implies #[trigger] crate::codec::digit(
                    zb@.subrange(i * (32 * (gb as int)), (i + 1) * (32 * (gb as int))),
                    gb as int,
                    j,
                ) <= 2 * (ps.gamma1 as int) - 1 by {
                    let seg = zb@.subrange(i * (32 * (gb as int)), (i + 1) * (32 * (gb as int)));
                    let n = crate::codec::bytes_nat(seg, 32 * (gb as int));
                    vstd::arithmetic::div_mod::lemma_mod_division_less_than_divisor(
                        n / crate::codec::p2((gb as int) * j),
                        crate::codec::p2(gb as int),
                    );
                    vstd::arithmetic::power2::lemma_pow2_pos(gb as nat);
                }
            }
        }
        let zd = bit_unpack_vector(&zb, ps.gamma1 - 1, ps.gamma1, gb, ps.l);
        let z = match zd {
            Some(z) => z,
            None => {
                proof {
                    assert(false);
                }
                return None;
            },
        };
        let hd = hint_decode(&hb, ps.omega, ps.k);
        match hd {
            Some(h) => {
                let sig = Signature { c_tilde: ct, z, h };
                proof {
                    assert(bytes@.subrange(0, lami) =~= ct@);
                    assert forall|i: int| 0 <= i < l implies signed_encoded(
                        #[trigger] bytes@.subrange(
                            lami + i * (32 * (ps.spec_gamma1_bits() as int)),
                            lami + (i + 1) * (32 * (ps.spec_gamma1_bits() as int)),
                        ),
                        sig.z.polys@[i].coeffs@,
                        ps.gamma1 as int - 1,
                        ps.gamma1 as int,
                        ps.spec_gamma1_bits() as int,
                    ) by {
                        assert(0 <= i * szi && i * szi <= (i + 1) * szi && (i + 1) * szi <= l
                            * szi) by (nonlinear_arith)
                            requires
                                0 <= i,
                                i + 1 <= l,
                                szi > 0,
                        ;
                        assert(signed_encoded(
                            zb@.subrange(i * (32 * (gb as int)), (i + 1) * (32 * (gb as int))),
                            sig.z.polys@[i].coeffs@,
                            ps.gamma1 as int - 1,
                            ps.gamma1 as int,
                            gb as int,
                        ));
                        lemma_chunk_of(
                            bytes@,
                            zb@,
                            lami,
                            i * (32 * (gb as int)),
                            (i + 1) * (32 * (gb as int)),
                        );
                    }
                    assert forall|i: int, j: int|
                        0 <= i < l && 0 <= j < 256 implies in_signed_range(
                        #[trigger] sig.z.polys@[i].coeffs@[j] as int,
                        ps.gamma1 as int - 1,
                        ps.gamma1 as int,
                    ) by {
                        assert(0 <= i * szi && i * szi <= (i + 1) * szi && (i + 1) * szi <= l
                            * szi) by (nonlinear_arith)
                            requires
                                0 <= i,
                                i + 1 <= l,
                                szi > 0,
                        ;
                        assert(signed_encoded(
                            zb@.subrange(i * (32 * (gb as int)), (i + 1) * (32 * (gb as int))),
                            sig.z.polys@[i].coeffs@,
                            ps.gamma1 as int - 1,
                            ps.gamma1 as int,
                            gb as int,
                        ));
                        assert(in_signed_range(
                            sig.z.polys@[i].coeffs@[j] as int,
                            ps.gamma1 as int - 1,
                            ps.gamma1 as int,
                        ));
                    }
                }
                Some(sig)
            },
            None => {
                None
            },
        }
    }
}

/// Row `i` of the matrix A derived from rho, as raw coefficient sequences.
pub open spec fn a_row(rho: Seq<u8>, l: int, i: int) -> Seq<Seq<u32>> {
    Seq::new(l as nat, |b: int| crate::sample::uniform_samples(rho, 256 * i + b))
}

/// The NTT of the secret vector s1 derived from rho-prime.
pub open spec fn keygen_s1ntt(rhop: Seq<u8>, eta: crate::param::Eta, l: int) -> Seq<Seq<u32>> {
    Seq::new(l as nat, |b: int| crate::ntt::ntt_spec(crate::sample::small_samples(rhop, eta, b)))
}

/// Polynomial `i` of A times NTT(s1), in the NTT domain.
pub open spec fn keygen_as1_poly(
    rho: Seq<u8>,
    rhop: Seq<u8>,
    eta: crate::param::Eta,
    l: int,
    i: int,
) -> Seq<u32> {
    Seq::new(
        256,
        |j: int|
            dot_coeff2(a_row(rho, l, i), keygen_s1ntt(rhop, eta, l), j, l) as u32,
    )
}

/// Coefficient (i, j) of the public vector t = invNTT(A * NTT(s1)) + s2,
/// written entirely over the named seed streams.
pub open spec fn keygen_t_coeff(
    rho: Seq<u8>,
    rhop: Seq<u8>,
    eta: crate::param::Eta,
    l: int,
    i: int,
    j: int,
) -> int {
    (crate::ntt::ntt_inverse_spec(keygen_as1_poly(rho, rhop, eta, l, i))[j] as int
        + crate::sample::small_samples(rhop, eta, l + i)[j] as int) % (Q as int)
}

/// The challenge polynomial of a signature in NTT form, from the named
/// SHAKE stream of its challenge hash.
pub open spec fn verify_chat(sigma: &Signature, ps: &ParameterSet) -> Seq<u32> {
    crate::ntt::ntt_spec(crate::sample::ball_samples(sigma.c_tilde@, ps.tau as int)->0)
}

/// Polynomial `i` of the reconstructed commitment
/// `invNTT(A * NTT(z) - NTT(c) * NTT(2^13 t1))`.
pub open spec fn verify_wap_poly(
    vk: &VerificationKey,
    sigma: &Signature,
    ps: &ParameterSet,
    i: int,
) -> Seq<u32> {
    let l = ps.l as int;
    let zntt = Seq::new(l as nat, |b: int| crate::ntt::ntt_spec(sigma.z.polys@[b].coeffs@));
    let az = Seq::new(256, |j: int| dot_coeff2(a_row(vk.rho@, l, i), zntt, j, l) as u32);
    let t1h = crate::ntt::ntt_spec(
        Seq::new(
            256,
            |j: int| ((8192 * (vk.t1.polys@[i].coeffs@[j] as int)) % (Q as int)) as u32,
        ),
    );
    let chat = verify_chat(sigma, ps);
    crate::ntt::ntt_inverse_spec(
        Seq::new(
            256,
            |j: int| (((az[j] as int) - (chat[j] * t1h[j]) % (Q as int)) % (Q as int)) as u32,
        ),
    )
}

/// Polynomial `i` of the hint-corrected high bits w1'.
pub open spec fn verify_w1_poly(
    vk: &VerificationKey,
    sigma: &Signature,
    ps: &ParameterSet,
    i: int,
) -> Seq<u32> {
    Seq::new(
        256,
        |j: int| crate::round::use_hint_spec(
            sigma.h.view_rows()[i][j],
            verify_wap_poly(vk, sigma, ps, i)[j] as int,
            2 * (ps.gamma2 as int),
        ) as u32,
    )
}

/// The challenge hash that verification recomputes, as a function of the
/// key, the signature and the framed message.
pub open spec fn verify_challenge(
    vk: &VerificationKey,
    sigma: &Signature,
    mp: Seq<u8>,
    ps: &ParameterSet,
) -> Seq<u8> {
    let k = ps.k as int;
    let w1b = ps.spec_w1_bits() as int;
    let tr = crate::crypto::shake256_of(vk_bytes(vk, ps), 64);
    let mu = crate::crypto::shake256_of(tr + mp, 64);
    crate::crypto::shake256_of(
        mu + crate::codec::packed_vector_bytes(
            Seq::new(k as nat, |i: int| verify_w1_poly(vk, sigma, ps, i)),
            w1b,
            k,
        ),
        ps.lambda as nat,
    )
}

impl SigningKey {
    /// `KeyGen_internal`: expand the 32-byte seed into a key pair.  `None` is
    /// returned only if rejection sampling exhausts its (astronomically large)
    /// byte budget.
    pub fn key_gen_internal(xi: &Vec<u8>, ps: &ParameterSet) -> (r: Option<
        (VerificationKey, SigningKey),
    >)
        requires
            ps.valid(),
            xi@.len() == 32,
        ensures
            r matches Some(pair) ==> pair.0.wf(ps) && pair.1.wf(ps) && pair.1.rho@ == pair.0.rho@
                && pair.1.tr@ == crate::crypto::shake256_of(vk_bytes(&pair.0, ps), 64),
            r matches Some(pair) ==> ({
                let hout = crate::crypto::shake256_of(
                    xi@ + seq![ps.k as u8, ps.l as u8],
                    128,
                );
                let rho = hout.subrange(0, 32);
                let rhop = hout.subrange(32, 96);
                &&& pair.0.rho@ == rho
                &&& pair.1.key@ == hout.subrange(96, 128)
                &&& (forall|i: int, j: int|
                    0 <= i < ps.k && 0 <= j < 256 ==> {
                        let t = keygen_t_coeff(rho, rhop, ps.eta, ps.l as int, i, j);
                        (#[trigger] pair.0.t1.polys@[i].coeffs@[j]) == (t - crate::round::mod_pm(
                            t,
                            8192,
                        )) / 8192 && pair.1.t0.polys@[i].coeffs@[j] == crate::round::to_fe(
                            crate::round::mod_pm(t, 8192),
                        )
                    })
            }),
    {
        proof {
            crate::param::lemma_sizes(ps);
        }
        let mut seed = clone_bytes(xi);
        seed.push(ps.k as u8);
        seed.push(ps.l as u8);
        proof {
            assert(seed@ =~= xi@ + seq![ps.k as u8, ps.l as u8]);
        }
        let hout = shake256(&seed, 128);
        let ghost houtv = hout@;
        // the copied seed and the hash output carry secret material: scrub
        // each as soon as its last reader is done
        scrub_bytes(seed);
        let rho = take_chunk(&hout, 0, 32);
        let rhop = take_chunk(&hout, 32, 64);
        let key = take_chunk(&hout, 96, 32);
        scrub_bytes(hout);
        proof {
            assert(rho@ == houtv.subrange(0, 32));
            assert(rhop@ == houtv.subrange(32, 96));
            assert(key@ == houtv.subrange(96, 128));
        }
        let a = match expand_a(&rho, ps.k, ps.l) {
            Some(a) => a,
            None => {
                scrub_bytes(rhop);
                scrub_bytes(key);
                return None;
            },
        };
        let s1 = match expand_s(&rhop, ps.eta, 0, ps.l) {
            Some(v) => v,
            None => {
                scrub_bytes(rhop);
                scrub_bytes(key);
                return None;
            },
        };
        let s2 = match expand_s(&rhop, ps.eta, ps.l, ps.k) {
            Some(v) => v,
            None => {
                scrub_bytes(rhop);
                scrub_bytes(key);
                crate::poly::scrub_vector(s1);
                return None;
            },
        };
        scrub_bytes(rhop);
        let s1h = s1.ntt(ps.l);
        let as1 = a.mul_vector(&s1h, ps.k, ps.l);
        let t = as1.ntt_inverse(ps.k).add(&s2, ps.k);
        crate::poly::scrub_ntt_vector(s1h);
        let (t1, t0) = power2round_vector(&t, ps.k);
        proof {
            assert forall|i: int, j: int|
                0 <= i < ps.k && 0 <= j < 256 implies in_signed_range(
                #[trigger] t0.polys@[i].coeffs@[j] as int,
                4095,
                4096,
            ) by {
                crate::round::lemma_power2round(t.polys@[i].coeffs@[j] as int);
            }
        }
        proof {
            // the computed t matches the spec-level pipeline over the seed
            // streams, coefficient by coefficient
            assert forall|i: int, j: int| 0 <= i < ps.k && 0 <= j < 256 implies #[trigger] t.polys@[i].coeffs@[j]
                == keygen_t_coeff(rho@, rhop@, ps.eta, ps.l as int, i, j) by {
                let l = ps.l as int;
                let arow = a_row(rho@, l, i);
                let s1n = keygen_s1ntt(rhop@, ps.eta, l);
                assert forall|b: int| 0 <= b < l implies (#[trigger] a.rows@[i].polys@[b]).coeffs@
                    == arow[b] by {
                    assert(a.rows@[i].polys@[b].coeffs@ == crate::sample::uniform_samples(
                        rho@,
                        256 * i + b,
                    ));
                }
                assert forall|b: int| 0 <= b < l implies (#[trigger] s1h.polys@[b]).coeffs@
                    == s1n[b] by {
                    assert(s1h.polys@[b].coeffs@ == crate::ntt::ntt_spec(
                        s1.polys@[b].coeffs@,
                    ));
                    assert(s1.polys@[b].coeffs@ == crate::sample::small_samples(
                        rhop@,
                        ps.eta,
                        0 + b,
                    ));
                }
                assert(as1.polys@[i].coeffs@ =~= keygen_as1_poly(rho@, rhop@, ps.eta, l, i)) by {
                    assert forall|jj: int| 0 <= jj < 256 implies as1.polys@[i].coeffs@[jj]
                        == keygen_as1_poly(rho@, rhop@, ps.eta, l, i)[jj] by {
                        crate::ntt::lemma_dot_coeff2_eq(
                            a.rows@[i].polys@,
                            arow,
                            s1h.polys@,
                            s1n,
                            jj,
                            l,
                        );
                    }
                }
                assert(s2.polys@[i].coeffs@[j] == crate::sample::small_samples(
                    rhop@,
                    ps.eta,
                    l + i,
                )[j]);
            }
        }
        let vk = VerificationKey { rho: clone_bytes(&rho), t1 };
        let vkb = vk.encode(ps);
        let tr = shake256(&vkb, 64);
        let sk = SigningKey { rho, key, tr, s1, s2, t0 };
        proof {
            assert(vkb@ == vk_bytes(&vk, ps) && sk.tr@ == crate::crypto::shake256_of(vkb@, 64));
        }
        Some((vk, sk))
    }
}

/// The message representative mu = H(tr, M').
pub open spec fn sign_mu(sk: &SigningKey, mp: Seq<u8>) -> Seq<u8> {
    crate::crypto::shake256_of(sk.tr@ + mp, 64)
}

/// The per-signature mask seed rho'' = H(K, rnd, mu).
pub open spec fn sign_rhopp(sk: &SigningKey, mp: Seq<u8>, rnd: Seq<u8>) -> Seq<u8> {
    crate::crypto::shake256_of(sk.key@ + rnd + sign_mu(sk, mp), 64)
}

/// Mask polynomial `b` of the attempt at `kappa`.
pub open spec fn sign_y_poly(
    sk: &SigningKey,
    ps: &ParameterSet,
    mp: Seq<u8>,
    rnd: Seq<u8>,
    kappa: int,
    b: int,
) -> Seq<u32> {
    Seq::new(
        256,
        |j: int| crate::sample::mask_coeff(
            sign_rhopp(sk, mp, rnd),
            kappa + b,
            ps.gamma1 as int,
            ps.spec_gamma1_bits() as int,
            j,
        ) as u32,
    )
}

/// Commitment polynomial `i` of the attempt: `invNTT(A * NTT(y))[i]`.
pub open spec fn sign_w_poly(
    sk: &SigningKey,
    ps: &ParameterSet,
    mp: Seq<u8>,
    rnd: Seq<u8>,
    kappa: int,
    i: int,
) -> Seq<u32> {
    let l = ps.l as int;
    let yn = Seq::new(
        l as nat,
        |b: int| crate::ntt::ntt_spec(sign_y_poly(sk, ps, mp, rnd, kappa, b)),
    );
    crate::ntt::ntt_inverse_spec(
        Seq::new(256, |j: int| dot_coeff2(a_row(sk.rho@, l, i), yn, j, l) as u32),
    )
}

/// The challenge hash of the attempt: H(mu, W1Encode(HighBits(w))).
pub open spec fn sign_ctilde(
    sk: &SigningKey,
    ps: &ParameterSet,
    mp: Seq<u8>,
    rnd: Seq<u8>,
    kappa: int,
) -> Seq<u8> {
    let k = ps.k as int;
    let tg = 2 * (ps.gamma2 as int);
    let w1 = Seq::new(
        k as nat,
        |i: int|
            Seq::new(
                256,
                |j: int| crate::round::decompose_r1(
                    sign_w_poly(sk, ps, mp, rnd, kappa, i)[j] as int,
                    tg,
                ) as u32,
            ),
    );
    crate::crypto::shake256_of(
        sign_mu(sk, mp) + crate::codec::packed_vector_bytes(
            w1,
            ps.spec_w1_bits() as int,
            k,
        ),
        ps.lambda as nat,
    )
}

/// The challenge polynomial of the attempt, in NTT form.
pub open spec fn sign_chat(
    sk: &SigningKey,
    ps: &ParameterSet,
    mp: Seq<u8>,
    rnd: Seq<u8>,
    kappa: int,
) -> Seq<u32> {
    crate::ntt::ntt_spec(
        crate::sample::ball_samples(sign_ctilde(sk, ps, mp, rnd, kappa), ps.tau as int)->0,
    )
}

/// `invNTT(NTT(c) * NTT(v))[j]` for one secret polynomial `v`: the shape of
/// the c-times-secret products in the response and the hint.
pub open spec fn sign_cprod_poly(
    sk: &SigningKey,
    ps: &ParameterSet,
    mp: Seq<u8>,
    rnd: Seq<u8>,
    kappa: int,
    v: Seq<u32>,
) -> Seq<u32> {
    crate::ntt::ntt_inverse_spec(
        Seq::new(
            256,
            |j: int| ((sign_chat(sk, ps, mp, rnd, kappa)[j] * crate::ntt::ntt_spec(v)[j]) % (
            Q as int)) as u32,
        ),
    )
}

/// Response polynomial `b` of the attempt: `y + invNTT(NTT(c) * NTT(s1))`.
pub open spec fn sign_z_poly(
    sk: &SigningKey,
    ps: &ParameterSet,
    mp: Seq<u8>,
    rnd: Seq<u8>,
    kappa: int,
    b: int,
) -> Seq<u32> {
    Seq::new(
        256,
        |j: int| ((sign_y_poly(sk, ps, mp, rnd, kappa, b)[j] + sign_cprod_poly(
            sk,
            ps,
            mp,
            rnd,
            kappa,
            sk.s1.polys@[b].coeffs@,
        )[j]) % (Q as int)) as u32,
    )
}

/// Hint bit (i, j) of the attempt: `MakeHint(-c t0, w - c s2 + c t0)`.
pub open spec fn sign_hint_bit(
    sk: &SigningKey,
    ps: &ParameterSet,
    mp: Seq<u8>,
    rnd: Seq<u8>,
    kappa: int,
    i: int,
    j: int,
) -> bool {
    let w = sign_w_poly(sk, ps, mp, rnd, kappa, i)[j] as int;
    let cs2 = sign_cprod_poly(sk, ps, mp, rnd, kappa, sk.s2.polys@[i].coeffs@)[j] as int;
    let ct0 = sign_cprod_poly(sk, ps, mp, rnd, kappa, sk.t0.polys@[i].coeffs@)[j] as int;
    crate::round::make_hint_spec(
        (0 - ct0) % (Q as int),
        ((w - cs2) % (Q as int) + ct0) % (Q as int),
        2 * (ps.gamma2 as int),
    )
}

impl SigningKey {
    /// `Sign_internal`: the rejection-sampling loop of FIPS 204 Algorithm 7.
    /// The message `mp` is already framed by the caller; `rnd` is the
    /// 32-byte per-signature randomness (all zero for deterministic
    /// signing).  Returns `None` if the bounded loop exhausts its kappa
    /// space without acceptance.
    #[verifier::rlimit(100)]
    #[verifier::spinoff_prover]
    pub fn sign_internal(&self, mp: &Vec<u8>, rnd: &Vec<u8>, ps: &ParameterSet) -> (r: Option<
        Signature,
    >)
        requires
            self.wf(ps),
            rnd@.len() == 32,
        ensures
            r matches Some(sig) ==> sig.wf(ps) && hint_weight(sig.h.view_rows(), ps.k as int)
                <= ps.omega && (forall|i: int, j: int|
                0 <= i < ps.l && 0 <= j < 256 ==> small_coeff(
                    #[trigger] sig.z.polys@[i].coeffs@[j] as int,
                    ps.gamma1 as int - ps.spec_beta() - 1,
                )),
            r matches Some(sig) ==> (exists|kappa: int|
                {
                    &&& 0 <= kappa <= 65536 - ps.l
                    &&& sig.c_tilde@ == #[trigger] sign_ctilde(self, ps, mp@, rnd@, kappa)
                    &&& (forall|b: int|
                        0 <= b < ps.l ==> #[trigger] sig.z.polys@[b].coeffs@ == sign_z_poly(
                            self,
                            ps,
                            mp@,
                            rnd@,
                            kappa,
                            b,
                        ))
                    &&& (forall|i: int, j: int|
                        0 <= i < ps.k && 0 <= j < 256 ==> #[trigger] sig.h.view_rows()[i][j]
                            == sign_hint_bit(self, ps, mp@, rnd@, kappa, i, j))
                }),
    {
        proof {
            crate::param::lemma_sizes(ps);
        }
        let tg = 2 * ps.gamma2;
        let gb = ps.gamma1_bits();
        let w1b = ps.w1_bits();
        let beta = ps.beta();
        let s1h = self.s1.ntt(ps.l);
        let s2h = self.s2.ntt(ps.k);
        let t0h = self.t0.ntt(ps.k);
        let a = match expand_a(&self.rho, ps.k, ps.l) {
            Some(a) => a,
            None => {
                crate::poly::scrub_ntt_vector(s1h);
                crate::poly::scrub_ntt_vector(s2h);
                crate::poly::scrub_ntt_vector(t0h);
                return None;
            },
        };
        let mut trm = clone_bytes(&self.tr);
        push_bytes(&mut trm, mp);
        let mu = shake256(&trm, 64);
        let mut krm = clone_bytes(&self.key);
        push_bytes(&mut krm, rnd);
        push_bytes(&mut krm, &mu);
        let rhopp = shake256(&krm, 64);
        proof {
            assert(trm@ == self.tr@ + mp@);
            assert(mu@ == sign_mu(self, mp@));
            assert(krm@ == self.key@ + rnd@ + mu@);
            assert(rhopp@ == sign_rhopp(self, mp@, rnd@));
        }
        // krm holds a copy of the signing seed K: scrub it now, and scrub
        // every other secret intermediate after its last use below
        scrub_bytes(krm);
        let iters: usize = 65536 / ps.l;
        let mut iter: usize = 0;
        while iter < iters
            invariant
                iter <= iters,
                iters == 65536nat / (ps.l as nat),
                self.wf(ps),
                ps.valid(),
                tg == 2 * ps.gamma2,
                gb == ps.spec_gamma1_bits(),
                w1b == ps.spec_w1_bits(),
                beta == ps.spec_beta(),
                beta < ps.gamma1,
                beta < ps.gamma2,
                s1h.wf(ps.l as int),
                s2h.wf(ps.k as int),
                t0h.wf(ps.k as int),
                a.wf(ps.k as int, ps.l as int),
                rhopp@.len() == 64,
                mu@.len() == 64,
                mu@ == sign_mu(self, mp@),
                rhopp@ == sign_rhopp(self, mp@, rnd@),
                forall|i: int, b: int|
                    0 <= i < ps.k && 0 <= b < ps.l ==> #[trigger] a.rows@[i].polys@[b].coeffs@
                        == crate::sample::uniform_samples(self.rho@, 256 * i + b),
                forall|b: int|
                    0 <= b < ps.l ==> #[trigger] s1h.polys@[b].coeffs@ == crate::ntt::ntt_spec(
                        self.s1.polys@[b].coeffs@,
                    ),
                forall|b: int|
                    0 <= b < ps.k ==> #[trigger] s2h.polys@[b].coeffs@ == crate::ntt::ntt_spec(
                        self.s2.polys@[b].coeffs@,
                    ),
                forall|b: int|
                    0 <= b < ps.k ==> #[trigger] t0h.polys@[b].coeffs@ == crate::ntt::ntt_spec(
                        self.t0.polys@[b].coeffs@,
                    ),
            decreases iters - iter,
        {
            proof {
                assert(iter * ps.l + ps.l <= 65536) by (nonlinear_arith)
                    requires
                        iter < 65536nat / (ps.l as nat),
                        1 <= ps.l <= 8,
                ;
            }
            let kappa = (iter * ps.l) as u16;
            let y = expand_mask(&rhopp, kappa, ps.gamma1, gb, ps.l);
            let yh = y.ntt(ps.l);
            let ay = a.mul_vector(&yh, ps.k, ps.l);
            let w = ay.ntt_inverse(ps.k);
            let w1 = high_bits_vector(&w, tg, ps.k);
            proof {
                vstd::arithmetic::power2::lemma2_to64();
                assert forall|i: int, j: int|
                    0 <= i < ps.k && 0 <= j < 256 implies (#[trigger] w1.polys@[i].coeffs@[j] as int)
                    < crate::codec::p2(ps.spec_w1_bits() as int) by {
                    assert(w1.polys@[i].coeffs@[j] < (Q - 1) / (tg as int));
                    lemma_w1_range(ps);
                    assert((tg as int) == 2 * (ps.gamma2 as int));
                }
            }
            let w1e = simple_bit_pack_vector(&w1, w1b, ps.k);
            let mut mw = clone_bytes(&mu);
            push_bytes(&mut mw, &w1e);
            let ctilde = shake256(&mw, ps.lambda);
            let c = match sample_in_ball(&ctilde, ps.tau) {
                Some(c) => c,
                None => {
                    crate::poly::scrub_vector(y);
                    crate::poly::scrub_ntt_vector(s1h);
                    crate::poly::scrub_ntt_vector(s2h);
                    crate::poly::scrub_ntt_vector(t0h);
                    scrub_bytes(rhopp);
                    return None;
                },
            };
            let chat = crate::ntt::ntt(&c);
            let cs1h = s1h.scale(&chat, ps.l);
            let cs1 = cs1h.ntt_inverse(ps.l);
            let z = y.add(&cs1, ps.l);
            crate::poly::scrub_vector(y);
            crate::poly::scrub_vector(cs1);
            let cs2h = s2h.scale(&chat, ps.k);
            let cs2 = cs2h.ntt_inverse(ps.k);
            let wm = w.sub(&cs2, ps.k);
            crate::poly::scrub_vector(cs2);
            let r0 = low_bits_vector(&wm, tg, ps.k);
            let znorm = z.infinity_norm(ps.l);
            let r0norm = r0.infinity_norm(ps.k);
            if znorm >= ps.gamma1 - beta || r0norm >= ps.gamma2 - beta {
                iter = iter + 1;
                continue ;
            }
            let ct0h = t0h.scale(&chat, ps.k);
            let ct0 = ct0h.ntt_inverse(ps.k);
            let nct0 = ct0.neg(ps.k);
            let rv = wm.add(&ct0, ps.k);
            let h = Hint::new(&nct0, &rv, tg, ps.k);
            let weight = h.hamming_weight(ps.k);
            let ct0norm = ct0.infinity_norm(ps.k);
            crate::poly::scrub_vector(ct0);
            crate::poly::scrub_vector(nct0);
            if ct0norm >= ps.gamma2 || weight > ps.omega {
                iter = iter + 1;
                continue ;
            }
            proof {
                let kap = kappa as int;
                let l = ps.l as int;
                let k = ps.k as int;
                let tgi = 2 * (ps.gamma2 as int);
                // the mask, commitment and high-bits rows match the
                // spec-level attempt at this kappa
                assert forall|b: int| 0 <= b < l implies #[trigger] y.polys@[b].coeffs@
                    == sign_y_poly(self, ps, mp@, rnd@, kap, b) by {
                    assert(y.polys@[b].coeffs@ =~= sign_y_poly(self, ps, mp@, rnd@, kap, b));
                }
                let yn = Seq::new(
                    l as nat,
                    |b: int| crate::ntt::ntt_spec(sign_y_poly(self, ps, mp@, rnd@, kap, b)),
                );
                assert forall|i: int| 0 <= i < k implies #[trigger] w.polys@[i].coeffs@
                    == sign_w_poly(self, ps, mp@, rnd@, kap, i) by {
                    assert forall|b: int| 0 <= b < l implies (#[trigger] yh.polys@[b]).coeffs@
                        == yn[b] by {
                        assert(yh.polys@[b].coeffs@ == crate::ntt::ntt_spec(
                            y.polys@[b].coeffs@,
                        ));
                    }
                    let arow = a_row(self.rho@, l, i);
                    assert forall|b: int|
                        0 <= b < l implies (#[trigger] a.rows@[i].polys@[b]).coeffs@ == arow[
                        b] by {
                        assert(a.rows@[i].polys@[b].coeffs@ == crate::sample::uniform_samples(
                            self.rho@,
                            256 * i + b,
                        ));
                    }
                    let azs = Seq::new(256, |j: int| dot_coeff2(arow, yn, j, l) as u32);
                    assert(ay.polys@[i].coeffs@ =~= azs) by {
                        assert forall|j: int| 0 <= j < 256 implies ay.polys@[i].coeffs@[j]
                            == azs[j] by {
                            crate::ntt::lemma_dot_coeff2_eq(
                                a.rows@[i].polys@,
                                arow,
                                yh.polys@,
                                yn,
                                j,
                                l,
                            );
                        }
                    }
                    assert(w.polys@[i].coeffs@ == crate::ntt::ntt_inverse_spec(azs));
                }
                let vs = Seq::new(
                    k as nat,
                    |i: int|
                        Seq::new(
                            256,
                            |j: int| crate::round::decompose_r1(
                                sign_w_poly(self, ps, mp@, rnd@, kap, i)[j] as int,
                                tgi,
                            ) as u32,
                        ),
                );
                assert forall|i: int| 0 <= i < k implies #[trigger] w1.polys@[i].coeffs@ == vs[
                i] by {
                    assert forall|j: int| 0 <= j < 256 implies w1.polys@[i].coeffs@[j] == vs[i][
                    j] by {
                        assert(w1.polys@[i].coeffs@[j] == crate::round::decompose_r1(
                            w.polys@[i].coeffs@[j] as int,
                            tg as int,
                        ));
                    }
                    assert(w1.polys@[i].coeffs@ =~= vs[i]);
                }
                assert forall|i: int| 0 <= i < k implies simple_encoded(
                    #[trigger] w1e@.subrange(
                        i * (32 * (ps.spec_w1_bits() as int)),
                        (i + 1) * (32 * (ps.spec_w1_bits() as int)),
                    ),
                    vs[i],
                    ps.spec_w1_bits() as int,
                ) by {
                    assert(simple_encoded(
                        w1e@.subrange(i * (32 * (w1b as int)), (i + 1) * (32 * (w1b as int))),
                        w1.polys@[i].coeffs@,
                        w1b as int,
                    ));
                }
                crate::codec::lemma_vector_encoded_bytes(
                    w1e@,
                    vs,
                    ps.spec_w1_bits() as int,
                    k,
                );
                assert(mw@ == mu@ + w1e@);
                assert(ctilde@ == sign_ctilde(self, ps, mp@, rnd@, kap));
                // the challenge and the response match the attempt
                assert(crate::sample::ball_samples(ctilde@, ps.tau as int) == Some(c.coeffs@));
                assert(chat.coeffs@ == sign_chat(self, ps, mp@, rnd@, kap));
                assert forall|b: int| 0 <= b < l implies #[trigger] z.polys@[b].coeffs@
                    == sign_z_poly(self, ps, mp@, rnd@, kap, b) by {
                    let s1b = self.s1.polys@[b].coeffs@;
                    let ph = Seq::new(
                        256,
                        |j: int| ((sign_chat(self, ps, mp@, rnd@, kap)[j]
                            * crate::ntt::ntt_spec(s1b)[j]) % (Q as int)) as u32,
                    );
                    assert(cs1h.polys@[b].coeffs@ =~= ph) by {
                        assert forall|j: int| 0 <= j < 256 implies cs1h.polys@[b].coeffs@[j]
                            == ph[j] by {
                            assert(cs1h.polys@[b].coeffs@[j] == (chat.coeffs@[j] * s1h.polys@[
                            b].coeffs@[j]) % (Q as int));
                        }
                    }
                    assert(cs1.polys@[b].coeffs@ == crate::ntt::ntt_inverse_spec(ph));
                    assert(cs1.polys@[b].coeffs@ == sign_cprod_poly(
                        self,
                        ps,
                        mp@,
                        rnd@,
                        kap,
                        s1b,
                    ));
                    assert(z.polys@[b].coeffs@ =~= sign_z_poly(self, ps, mp@, rnd@, kap, b));
                }
                // and so does every hint bit
                assert forall|i: int, j: int|
                    0 <= i < k && 0 <= j < 256 implies #[trigger] h.view_rows()[i][j]
                    == sign_hint_bit(self, ps, mp@, rnd@, kap, i, j) by {
                    let s2b = self.s2.polys@[i].coeffs@;
                    let t0b = self.t0.polys@[i].coeffs@;
                    let ph2 = Seq::new(
                        256,
                        |jj: int| ((sign_chat(self, ps, mp@, rnd@, kap)[jj]
                            * crate::ntt::ntt_spec(s2b)[jj]) % (Q as int)) as u32,
                    );
                    assert(cs2h.polys@[i].coeffs@ =~= ph2) by {
                        assert forall|jj: int| 0 <= jj < 256 implies cs2h.polys@[i].coeffs@[jj]
                            == ph2[jj] by {
                            assert(cs2h.polys@[i].coeffs@[jj] == (chat.coeffs@[jj] * s2h.polys@[
                            i].coeffs@[jj]) % (Q as int));
                        }
                    }
                    assert(cs2.polys@[i].coeffs@ == crate::ntt::ntt_inverse_spec(ph2));
                    assert(cs2.polys@[i].coeffs@ == sign_cprod_poly(
                        self,
                        ps,
                        mp@,
                        rnd@,
                        kap,
                        s2b,
                    ));
                    let ph3 = Seq::new(
                        256,
                        |jj: int| ((sign_chat(self, ps, mp@, rnd@, kap)[jj]
                            * crate::ntt::ntt_spec(t0b)[jj]) % (Q as int)) as u32,
                    );
                    assert(ct0h.polys@[i].coeffs@ =~= ph3) by {
                        assert forall|jj: int| 0 <= jj < 256 implies ct0h.polys@[i].coeffs@[jj]
                            == ph3[jj] by {
                            assert(ct0h.polys@[i].coeffs@[jj] == (chat.coeffs@[jj] * t0h.polys@[
                            i].coeffs@[jj]) % (Q as int));
                        }
                    }
                    assert(ct0.polys@[i].coeffs@ == crate::ntt::ntt_inverse_spec(ph3));
                    assert(ct0.polys@[i].coeffs@ == sign_cprod_poly(
                        self,
                        ps,
                        mp@,
                        rnd@,
                        kap,
                        t0b,
                    ));
                    assert(wm.polys@[i].coeffs@[j] == (w.polys@[i].coeffs@[j] - cs2.polys@[
                    i].coeffs@[j]) % (Q as int));
                    assert(rv.polys@[i].coeffs@[j] == (wm.polys@[i].coeffs@[j] + ct0.polys@[
                    i].coeffs@[j]) % (Q as int));
                    assert(nct0.polys@[i].coeffs@[j] == (0 - ct0.polys@[i].coeffs@[j]) % (
                    Q as int));
                    assert(h.view_rows()[i][j] == crate::round::make_hint_spec(
                        nct0.polys@[i].coeffs@[j] as int,
                        rv.polys@[i].coeffs@[j] as int,
                        tg as int,
                    ));
                }
                assert(0 <= kap <= 65536 - ps.l);
            }
            // the final mod-plus-minus of z is the identity here: every
            // coefficient is already stored as its canonical residue, and
            // the encoder reads the centered value from it
            let sig = Signature { c_tilde: ctilde, z, h };
            proof {
                // the accepted z is strictly below gamma1 - beta in norm
                assert forall|i: int, j: int|
                    0 <= i < ps.l && 0 <= j < 256 implies small_coeff(
                    #[trigger] sig.z.polys@[i].coeffs@[j] as int,
                    ps.gamma1 as int - ps.spec_beta() - 1,
                ) by {
                    let x = sig.z.polys@[i].coeffs@[j] as int;
                    assert(crate::round::fe_norm(x) <= znorm);
                }
                assert forall|i: int, j: int|
                    0 <= i < ps.l && 0 <= j < 256 implies in_signed_range(
                    #[trigger] sig.z.polys@[i].coeffs@[j] as int,
                    ps.gamma1 as int - 1,
                    ps.gamma1 as int,
                ) by {
                    assert(small_coeff(
                        sig.z.polys@[i].coeffs@[j] as int,
                        ps.gamma1 as int - ps.spec_beta() - 1,
                    ));
                }
            }
            crate::poly::scrub_ntt_vector(s1h);
            crate::poly::scrub_ntt_vector(s2h);
            crate::poly::scrub_ntt_vector(t0h);
            scrub_bytes(rhopp);
            return Some(sig);
        }
        crate::poly::scrub_ntt_vector(s1h);
        crate::poly::scrub_ntt_vector(s2h);
        crate::poly::scrub_ntt_vector(t0h);
        scrub_bytes(rhopp);
        None
    }
}

impl VerificationKey {
    /// `Verify_internal`: accepts exactly when the norm and weight bounds
    /// hold, the seed streams are long enough, and the challenge hash equals
    /// the one recomputed from the hint-corrected commitment; the comparison
    /// is constant time.
    pub fn verify(&self, mp: &Vec<u8>, sigma: &Signature, ps: &ParameterSet) -> (r: bool)
        requires
            self.wf(ps),
            sigma.wf(ps),
        ensures
            r <==> ({
                &&& (forall|i: int, j: int|
                    0 <= i < ps.l && 0 <= j < 256 ==> crate::round::fe_norm(
                        #[trigger] sigma.z.polys@[i].coeffs@[j] as int,
                    ) < ps.gamma1 as int - ps.spec_beta())
                &&& hint_weight(sigma.h.view_rows(), ps.k as int) <= ps.omega
                &&& (forall|i: int, j: int|
                    0 <= i < ps.k && 0 <= j < ps.l ==> (#[trigger] crate::sample::uniform_samples(
                        self.rho@,
                        256 * i + j,
                    )).len() == 256)
                &&& crate::sample::ball_samples(sigma.c_tilde@, ps.tau as int) is Some
                &&& sigma.c_tilde@ == verify_challenge(self, sigma, mp@, ps)
            }),
    {
        proof {
            crate::param::lemma_sizes(ps);
        }
        let tg = 2 * ps.gamma2;
        let w1b = ps.w1_bits();
        let beta = ps.beta();
        let znorm = sigma.z.infinity_norm(ps.l);
        if znorm >= ps.gamma1 - beta {
            proof {
                // some coefficient attains the norm, so the bound fails
                let (wi, wj) = choose|wi: int, wj: int|
                    0 <= wi < ps.l && 0 <= wj < 256 && crate::round::fe_norm(
                        sigma.z.polys@[wi].coeffs@[wj] as int,
                    ) == znorm;
                assert(crate::round::fe_norm(sigma.z.polys@[wi].coeffs@[wj] as int) >= ps.gamma1
                    - ps.spec_beta());
            }
            return false;
        }
        let weight = sigma.h.hamming_weight(ps.k);
        if weight > ps.omega {
            return false;
        }
        let a = match expand_a(&self.rho, ps.k, ps.l) {
            Some(a) => a,
            None => {
                return false;
            },
        };
        let t1s = crate::ntt::scale_vector(&self.t1, 8192, ps.k);
        let t1hat = t1s.ntt(ps.k);
        let vkb = self.encode(ps);
        let tr = shake256(&vkb, 64);
        let mut trm = clone_bytes(&tr);
        push_bytes(&mut trm, mp);
        let mu = shake256(&trm, 64);
        let c = match sample_in_ball(&sigma.c_tilde, ps.tau) {
            Some(c) => c,
            None => {
                return false;
            },
        };
        let chat = crate::ntt::ntt(&c);
        let zhat = sigma.z.ntt(ps.l);
        let az = a.mul_vector(&zhat, ps.k, ps.l);
        let ct1 = t1hat.scale(&chat, ps.k);
        let wsub = az.sub(&ct1, ps.k);
        let wap = wsub.ntt_inverse(ps.k);
        let w1p = sigma.h.use_hint(&wap, tg, ps.k);
        proof {
            vstd::arithmetic::power2::lemma2_to64();
            assert forall|i: int, j: int|
                0 <= i < ps.k && 0 <= j < 256 implies (#[trigger] w1p.polys@[i].coeffs@[j] as int)
                < crate::codec::p2(ps.spec_w1_bits() as int) by {
                assert(w1p.polys@[i].coeffs@[j] < (Q - 1) / (tg as int));
                lemma_w1_range(ps);
                assert((tg as int) == 2 * (ps.gamma2 as int));
            }
        }
        let w1e = simple_bit_pack_vector(&w1p, w1b, ps.k);
        let mut mw = clone_bytes(&mu);
        push_bytes(&mut mw, &w1e);
        let ctp = shake256(&mw, ps.lambda);
        let ok = ct_eq(&sigma.c_tilde, &ctp);
        proof {
            let l = ps.l as int;
            let k = ps.k as int;
            // every w1' polynomial matches its spec-level reconstruction
            assert forall|i: int| 0 <= i < k implies #[trigger] w1p.polys@[i].coeffs@
                == verify_w1_poly(self, sigma, ps, i) by {
                let zn = Seq::new(
                    l as nat,
                    |b: int| crate::ntt::ntt_spec(sigma.z.polys@[b].coeffs@),
                );
                assert forall|b: int| 0 <= b < l implies (#[trigger] zhat.polys@[b]).coeffs@
                    == zn[b] by {
                    assert(zhat.polys@[b].coeffs@ == crate::ntt::ntt_spec(
                        sigma.z.polys@[b].coeffs@,
                    ));
                }
                let arow = a_row(self.rho@, l, i);
                assert forall|b: int| 0 <= b < l implies (#[trigger] a.rows@[i].polys@[b]).coeffs@
                    == arow[b] by {
                    assert(a.rows@[i].polys@[b].coeffs@ == crate::sample::uniform_samples(
                        self.rho@,
                        256 * i + b,
                    ));
                }
                let azs = Seq::new(256, |j: int| dot_coeff2(arow, zn, j, l) as u32);
                assert(az.polys@[i].coeffs@ =~= azs) by {
                    assert forall|j: int| 0 <= j < 256 implies az.polys@[i].coeffs@[j]
                        == azs[j] by {
                        crate::ntt::lemma_dot_coeff2_eq(
                            a.rows@[i].polys@,
                            arow,
                            zhat.polys@,
                            zn,
                            j,
                            l,
                        );
                    }
                }
                let t1ss = Seq::new(
                    256,
                    |j: int| ((8192 * (self.t1.polys@[i].coeffs@[j] as int)) % (
                    Q as int)) as u32,
                );
                assert(t1s.polys@[i].coeffs@ =~= t1ss);
                assert(t1hat.polys@[i].coeffs@ == crate::ntt::ntt_spec(t1ss));
                assert(c.coeffs@ == crate::sample::ball_samples(
                    sigma.c_tilde@,
                    ps.tau as int,
                )->0);
                assert(chat.coeffs@ == verify_chat(sigma, ps));
                let chs = verify_chat(sigma, ps);
                let ws = Seq::new(
                    256,
                    |j: int| (((azs[j] as int) - (chs[j] * crate::ntt::ntt_spec(t1ss)[j]) % (
                    Q as int)) % (Q as int)) as u32,
                );
                assert(wsub.polys@[i].coeffs@ =~= ws) by {
                    assert forall|j: int| 0 <= j < 256 implies wsub.polys@[i].coeffs@[j]
                        == ws[j] by {
                        assert(ct1.polys@[i].coeffs@[j] == (chat.coeffs@[j] * t1hat.polys@[
                        i].coeffs@[j]) % (Q as int));
                        assert(wsub.polys@[i].coeffs@[j] == (az.polys@[i].coeffs@[j] - ct1.polys@[
                        i].coeffs@[j]) % (Q as int));
                    }
                }
                assert(wap.polys@[i].coeffs@ == crate::ntt::ntt_inverse_spec(ws));
                assert(wap.polys@[i].coeffs@ == verify_wap_poly(self, sigma, ps, i));
                assert forall|j: int| 0 <= j < 256 implies w1p.polys@[i].coeffs@[j]
                    == verify_w1_poly(self, sigma, ps, i)[j] by {
                    assert(w1p.polys@[i].coeffs@[j] == crate::round::use_hint_spec(
                        sigma.h.view_rows()[i][j],
                        wap.polys@[i].coeffs@[j] as int,
                        tg as int,
                    ));
                }
                assert(w1p.polys@[i].coeffs@ =~= verify_w1_poly(self, sigma, ps, i));
            }
            // so the packed bytes and the recomputed hash match the spec
            let vs = Seq::new(k as nat, |i: int| verify_w1_poly(self, sigma, ps, i));
            assert forall|i: int| 0 <= i < k implies simple_encoded(
                #[trigger] w1e@.subrange(
                    i * (32 * (ps.spec_w1_bits() as int)),
                    (i + 1) * (32 * (ps.spec_w1_bits() as int)),
                ),
                vs[i],
                ps.spec_w1_bits() as int,
            ) by {
                assert(simple_encoded(
                    w1e@.subrange(i * (32 * (w1b as int)), (i + 1) * (32 * (w1b as int))),
                    w1p.polys@[i].coeffs@,
                    w1b as int,
                ));
            }
            crate::codec::lemma_vector_encoded_bytes(
                w1e@,
                vs,
                ps.spec_w1_bits() as int,
                k,
            );
            assert(ctp@ == verify_challenge(self, sigma, mp@, ps));
            // the bound checks that were passed on the way here
            assert forall|i: int, j: int|
                0 <= i < ps.l && 0 <= j < 256 implies crate::round::fe_norm(
                #[trigger] sigma.z.polys@[i].coeffs@[j] as int,
            ) < ps.gamma1 as int - ps.spec_beta() by {
                assert(crate::round::fe_norm(sigma.z.polys@[i].coeffs@[j] as int) <= znorm);
            }
        }
        ok
    }
}

/// Verification-key round trip: a byte string determines at most one
/// well-formed verification key, so decoding an encoded key returns the key
/// unchanged.
pub proof fn lemma_vk_round_trip(
    bytes: Seq<u8>,
    vk1: &VerificationKey,
    vk2: &VerificationKey,
    ps: &ParameterSet,
)
    requires
        vk1.wf(ps),
        vk2.wf(ps),
        vk_encoded(bytes, vk1, ps),
        vk_encoded(bytes, vk2, ps),
    ensures
        vk1.rho@ == vk2.rho@,
        forall|i: int|
            0 <= i < ps.k ==> #[trigger] vk1.t1.polys@[i].coeffs@ == vk2.t1.polys@[i].coeffs@,
{
    assert forall|i: int|
        0 <= i < ps.k implies #[trigger] vk1.t1.polys@[i].coeffs@ == vk2.t1.polys@[i].coeffs@ by {
        crate::codec::lemma_simple_encoded_unique(
            bytes.subrange(32 + i * 320, 32 + (i + 1) * 320),
            vk1.t1.polys@[i].coeffs@,
            vk2.t1.polys@[i].coeffs@,
            10,
        );
    }
}

/// The number of w1 values fits the w1 encoding width.
proof fn lemma_w1_range(ps: &ParameterSet)
    requires
        ps.valid(),
    ensures
        (Q - 1) as int / (2 * (ps.gamma2 as int)) <= crate::codec::p2(ps.spec_w1_bits() as int),
{
    vstd::arithmetic::power2::lemma2_to64();
    if ps.gamma2 == 95232 {
        vstd::arithmetic::div_mod::lemma_fundamental_div_mod_converse(
            (Q - 1) as int,
            190464,
            44,
            0,
        );
        assert(2 * (ps.gamma2 as int) == 190464);
        assert(crate::codec::p2(6) == 64);
    } else {
        vstd::arithmetic::div_mod::lemma_fundamental_div_mod_converse(
            (Q - 1) as int,
            523776,
            16,
            0,
        );
        assert(2 * (ps.gamma2 as int) == 523776);
        assert(crate::codec::p2(4) == 16);
    }
}

/// Two byte strings that agree on each of `n` consecutive `sz`-byte chunks
/// starting at `off` agree on the whole region.
proof fn lemma_eq_on_chunks(b1: Seq<u8>, b2: Seq<u8>, off: int, sz: int, n: int)
    requires
        sz >= 1,
        n >= 0,
        0 <= off,
        off + n * sz <= b1.len(),
        b1.len() == b2.len(),
        forall|i: int|
            0 <= i < n ==> #[trigger] b1.subrange(off + i * sz, off + (i + 1) * sz)
                == b2.subrange(off + i * sz, off + (i + 1) * sz),
    ensures
        forall|t: int| off <= t < off + n * sz ==> b1[t] == b2[t],
{
    assert forall|t: int| off <= t < off + n * sz implies b1[t] == b2[t] by {
        let i = (t - off) / sz;
        let r = (t - off) % sz;
        vstd::arithmetic::div_mod::lemma_fundamental_div_mod(t - off, sz);
        assert(i * sz == sz * i) by (nonlinear_arith);
        assert(0 <= i && i < n && 0 <= i * sz && i * sz + sz <= n * sz && (i + 1) * sz == i * sz
            + sz) by (nonlinear_arith)
            requires
                t - off == i * sz + r,
                0 <= r < sz,
                0 <= t - off,
                t - off < n * sz,
                sz >= 1,
        ;
        assert(b1.subrange(off + i * sz, off + (i + 1) * sz)[r] == b1[off + i * sz + r]);
        assert(b2.subrange(off + i * sz, off + (i + 1) * sz)[r] == b2[off + i * sz + r]);
        assert(off + i * sz + r == t);
    }
}

/// A verification key has exactly one encoding: the packed values pin every
/// byte, so re-encoding a decoded key reproduces the input byte for byte.
pub proof fn lemma_vk_encoding_unique(
    b1: Seq<u8>,
    b2: Seq<u8>,
    vk: &VerificationKey,
    ps: &ParameterSet,
)
    requires
        vk.wf(ps),
        vk_encoded(b1, vk, ps),
        vk_encoded(b2, vk, ps),
    ensures
        b1 == b2,
{
    crate::param::lemma_sizes(ps);
    let k = ps.k as int;
    assert forall|t: int| 0 <= t < ps.spec_vk_size() implies b1[t] == b2[t] by {
        if t < 32 {
            assert(b1.subrange(0, 32)[t] == b2.subrange(0, 32)[t]);
        } else {
            let i = (t - 32) / 320;
            let r = (t - 32) % 320;
            vstd::arithmetic::div_mod::lemma_fundamental_div_mod(t - 32, 320);
            assert(0 <= i < k) by {
                assert(t - 32 < 320 * k);
            }
            let c1 = b1.subrange(32 + i * 320, 32 + (i + 1) * 320);
            let c2 = b2.subrange(32 + i * 320, 32 + (i + 1) * 320);
            assert(simple_encoded(c1, vk.t1.polys@[i].coeffs@, 10));
            assert(simple_encoded(c2, vk.t1.polys@[i].coeffs@, 10));
            crate::codec::lemma_bytes_unique(c1, c2, 320);
            assert(c1[r] == b1[32 + i * 320 + r]);
            assert(c2[r] == b2[32 + i * 320 + r]);
            assert(32 + i * 320 + r == t);
        }
    }
    assert(b1 =~= b2);
}

/// Signing-key round trip: a byte string determines at most one well-formed
/// signing key, so decoding an encoded key returns the key unchanged.
pub proof fn lemma_sk_round_trip(
    bytes: Seq<u8>,
    sk1: &SigningKey,
    sk2: &SigningKey,
    ps: &ParameterSet,
)
    requires
        sk1.wf(ps),
        sk2.wf(ps),
        sk_encoded(bytes, sk1, ps),
        sk_encoded(bytes, sk2, ps),
    ensures
        sk1.rho@ == sk2.rho@,
        sk1.key@ == sk2.key@,
        sk1.tr@ == sk2.tr@,
        forall|i: int|
            0 <= i < ps.l ==> #[trigger] sk1.s1.polys@[i].coeffs@ == sk2.s1.polys@[i].coeffs@,
        forall|i: int|
            0 <= i < ps.k ==> #[trigger] sk1.s2.polys@[i].coeffs@ == sk2.s2.polys@[i].coeffs@,
        forall|i: int|
            0 <= i < ps.k ==> #[trigger] sk1.t0.polys@[i].coeffs@ == sk2.t0.polys@[i].coeffs@,
{
    vstd::arithmetic::power2::lemma2_to64();
    crate::param::lemma_sizes(ps);
    let eb = ps.spec_eta_bits() as int;
    let sz = 32 * eb;
    let l = ps.l as int;
    let k = ps.k as int;
    let e = ps.eta.spec_value() as int;
    assert forall|i: int|
        0 <= i < l implies #[trigger] sk1.s1.polys@[i].coeffs@ == sk2.s1.polys@[i].coeffs@ by {
        crate::codec::lemma_signed_encoded_unique(
            bytes.subrange(128 + i * sz, 128 + (i + 1) * sz),
            sk1.s1.polys@[i].coeffs@,
            sk2.s1.polys@[i].coeffs@,
            e,
            e,
            eb,
        );
    }
    assert forall|i: int|
        0 <= i < k implies #[trigger] sk1.s2.polys@[i].coeffs@ == sk2.s2.polys@[i].coeffs@ by {
        crate::codec::lemma_signed_encoded_unique(
            bytes.subrange(128 + l * sz + i * sz, 128 + l * sz + (i + 1) * sz),
            sk1.s2.polys@[i].coeffs@,
            sk2.s2.polys@[i].coeffs@,
            e,
            e,
            eb,
        );
    }
    assert forall|i: int|
        0 <= i < k implies #[trigger] sk1.t0.polys@[i].coeffs@ == sk2.t0.polys@[i].coeffs@ by {
        crate::codec::lemma_signed_encoded_unique(
            bytes.subrange(
                128 + l * sz + k * sz + i * 416,
                128 + l * sz + k * sz + (i + 1) * 416,
            ),
            sk1.t0.polys@[i].coeffs@,
            sk2.t0.polys@[i].coeffs@,
            4095,
            4096,
            13,
        );
    }
}

/// A signing key has exactly one encoding: every byte is pinned by the
/// seeds and the packed secret vectors.
pub proof fn lemma_sk_encoding_unique(
    b1: Seq<u8>,
    b2: Seq<u8>,
    sk: &SigningKey,
    ps: &ParameterSet,
)
    requires
        sk.wf(ps),
        sk_encoded(b1, sk, ps),
        sk_encoded(b2, sk, ps),
    ensures
        b1 == b2,
{
    crate::param::lemma_sizes(ps);
    let eb = ps.spec_eta_bits() as int;
    let sz = 32 * eb;
    let l = ps.l as int;
    let k = ps.k as int;
    let e = ps.eta.spec_value() as int;
    assert forall|i: int|
        0 <= i < l implies #[trigger] b1.subrange(128 + i * sz, 128 + (i + 1) * sz)
        == b2.subrange(128 + i * sz, 128 + (i + 1) * sz) by {
        crate::codec::lemma_bytes_unique(
            b1.subrange(128 + i * sz, 128 + (i + 1) * sz),
            b2.subrange(128 + i * sz, 128 + (i + 1) * sz),
            sz,
        );
    }
    lemma_eq_on_chunks(b1, b2, 128, sz, l);
    assert forall|i: int|
        0 <= i < k implies #[trigger] b1.subrange(
        128 + l * sz + i * sz,
        128 + l * sz + (i + 1) * sz,
    ) == b2.subrange(128 + l * sz + i * sz, 128 + l * sz + (i + 1) * sz) by {
        crate::codec::lemma_bytes_unique(
            b1.subrange(128 + l * sz + i * sz, 128 + l * sz + (i + 1) * sz),
            b2.subrange(128 + l * sz + i * sz, 128 + l * sz + (i + 1) * sz),
            sz,
        );
    }
    lemma_eq_on_chunks(b1, b2, 128 + l * sz, sz, k);
    assert forall|i: int|
        0 <= i < k implies #[trigger] b1.subrange(
        128 + l * sz + k * sz + i * 416,
        128 + l * sz + k * sz + (i + 1) * 416,
    ) == b2.subrange(128 + l * sz + k * sz + i * 416, 128 + l * sz + k * sz + (i + 1) * 416) by {
        crate::codec::lemma_bytes_unique(
            b1.subrange(128 + l * sz + k * sz + i * 416, 128 + l * sz + k * sz + (i + 1) * 416),
            b2.subrange(128 + l * sz + k * sz + i * 416, 128 + l * sz + k * sz + (i + 1) * 416),
            416,
        );
    }
    lemma_eq_on_chunks(b1, b2, 128 + l * sz + k * sz, 416, k);
    assert forall|t: int| 0 <= t < b1.len() implies b1[t] == b2[t] by {
        if t < 32 {
            assert(b1.subrange(0, 32)[t] == b2.subrange(0, 32)[t]);
        } else if t < 64 {
            assert(b1.subrange(32, 64)[t - 32] == b2.subrange(32, 64)[t - 32]);
        } else if t < 128 {
            assert(b1.subrange(64, 128)[t - 64] == b2.subrange(64, 128)[t - 64]);
        }
    }
    assert(b1 =~= b2);
}

/// A signature with a well-formed hint has exactly one encoding: the
/// challenge hash, the packed z values, the hint index list, its padding and
/// its counts pin every byte.
pub proof fn lemma_sig_encoding_unique(
    b1: Seq<u8>,
    b2: Seq<u8>,
    sig: &Signature,
    ps: &ParameterSet,
)
    requires
        sig.wf(ps),
        hint_weight(sig.h.view_rows(), ps.k as int) <= ps.omega,
        sig_encoded(b1, sig, ps),
        sig_encoded(b2, sig, ps),
    ensures
        b1 == b2,
{
    crate::param::lemma_sizes(ps);
    let gb = ps.spec_gamma1_bits() as int;
    let sz = 32 * gb;
    let l = ps.l as int;
    let k = ps.k as int;
    let lam = ps.lambda as int;
    let om = ps.omega as int;
    let hv = sig.h.view_rows();
    let wt = hint_weight(hv, k);
    crate::hint::lemma_hint_weight_bounds(hv, k);
    assert forall|i: int|
        0 <= i < l implies #[trigger] b1.subrange(lam + i * sz, lam + (i + 1) * sz)
        == b2.subrange(lam + i * sz, lam + (i + 1) * sz) by {
        crate::codec::lemma_bytes_unique(
            b1.subrange(lam + i * sz, lam + (i + 1) * sz),
            b2.subrange(lam + i * sz, lam + (i + 1) * sz),
            sz,
        );
    }
    lemma_eq_on_chunks(b1, b2, lam, sz, l);
    let h1 = b1.subrange(lam + l * sz, lam + l * sz + om + k);
    let h2 = b2.subrange(lam + l * sz, lam + l * sz + om + k);
    assert forall|t: int| 0 <= t < om + k implies h1[t] == h2[t] by {
        if t < wt {
            assert(h1.subrange(0, wt)[t] == h2.subrange(0, wt)[t]);
        } else if t < om {
            assert(h1[t] == 0 && h2[t] == 0);
        } else {
            assert(h1[om + (t - om)] == hint_weight(hv, (t - om) + 1));
            assert(h2[om + (t - om)] == hint_weight(hv, (t - om) + 1));
        }
    }
    assert forall|t: int| 0 <= t < b1.len() implies b1[t] == b2[t] by {
        if t < lam {
            assert(b1.subrange(0, lam)[t] == b2.subrange(0, lam)[t]);
        } else if t >= lam + l * sz {
            assert(h1[t - (lam + l * sz)] == h2[t - (lam + l * sz)]);
            assert(h1[t - (lam + l * sz)] == b1[t]);
            assert(h2[t - (lam + l * sz)] == b2[t]);
        }
    }
    assert(b1 =~= b2);
}

/// An encoded well-formed signing key always decodes: every digit of the s1
/// and s2 segments is in range.
pub proof fn lemma_sk_decodable(bytes: Seq<u8>, sk: &SigningKey, ps: &ParameterSet)
    requires
        sk.wf(ps),
        sk_encoded(bytes, sk, ps),
    ensures
        vector_digits_ok(
            bytes.subrange(128, 128 + (ps.l as int) * (32 * (ps.spec_eta_bits() as int))),
            ps.spec_eta_bits() as int,
            ps.l as int,
            2 * ps.eta.spec_value() as int,
        ),
        vector_digits_ok(
            bytes.subrange(
                128 + (ps.l as int) * (32 * (ps.spec_eta_bits() as int)),
                128 + (ps.l as int) * (32 * (ps.spec_eta_bits() as int)) + (ps.k as int) * (32 * (
                ps.spec_eta_bits() as int)),
            ),
            ps.spec_eta_bits() as int,
            ps.k as int,
            2 * ps.eta.spec_value() as int,
        ),
{
    vstd::arithmetic::power2::lemma2_to64();
    crate::param::lemma_sizes(ps);
    let eb = ps.spec_eta_bits() as int;
    let sz = 32 * eb;
    let l = ps.l as int;
    let k = ps.k as int;
    let e = ps.eta.spec_value() as int;
    let seg1 = bytes.subrange(128, 128 + l * sz);
    let seg2 = bytes.subrange(128 + l * sz, 128 + l * sz + k * sz);
    assert forall|i: int, j: int|
        0 <= i < l && 0 <= j < 256 implies #[trigger] crate::codec::digit(
        seg1.subrange(i * (32 * eb), (i + 1) * (32 * eb)),
        eb,
        j,
    ) <= 2 * e by {
        assert(0 <= i * sz && i * sz <= (i + 1) * sz && (i + 1) * sz <= l * sz) by (
        nonlinear_arith)
            requires
                0 <= i,
                i + 1 <= l,
                sz > 0,
        ;
        assert(seg1.subrange(i * (32 * eb), (i + 1) * (32 * eb)) =~= bytes.subrange(
            128 + i * sz,
            128 + (i + 1) * sz,
        ));
        crate::codec::lemma_signed_encoded_digits(
            bytes.subrange(128 + i * sz, 128 + (i + 1) * sz),
            sk.s1.polys@[i].coeffs@,
            e,
            e,
            eb,
        );
    }
    assert forall|i: int, j: int|
        0 <= i < k && 0 <= j < 256 implies #[trigger] crate::codec::digit(
        seg2.subrange(i * (32 * eb), (i + 1) * (32 * eb)),
        eb,
        j,
    ) <= 2 * e by {
        assert(0 <= i * sz && i * sz <= (i + 1) * sz && (i + 1) * sz <= k * sz) by (
        nonlinear_arith)
            requires
                0 <= i,
                i + 1 <= k,
                sz > 0,
        ;
        assert(seg2.subrange(i * (32 * eb), (i + 1) * (32 * eb)) =~= bytes.subrange(
            128 + l * sz + i * sz,
            128 + l * sz + (i + 1) * sz,
        ));
        crate::codec::lemma_signed_encoded_digits(
            bytes.subrange(128 + l * sz + i * sz, 128 + l * sz + (i + 1) * sz),
            sk.s2.polys@[i].coeffs@,
            e,
            e,
            eb,
        );
    }
}

/// Signature round trip: an encoded signature with a well-formed hint
/// decodes, and a byte string determines at most one signature, so decoding
/// gives back the challenge hash, the z vector and every hint bit unchanged.
pub proof fn lemma_sig_round_trip(
    bytes: Seq<u8>,
    sig1: &Signature,
    sig2: &Signature,
    ps: &ParameterSet,
)
    requires
        sig1.wf(ps),
        sig2.wf(ps),
        hint_weight(sig1.h.view_rows(), ps.k as int) <= ps.omega,
        sig_encoded(bytes, sig1, ps),
        sig2.c_tilde@ == bytes.subrange(0, ps.lambda as int),
        forall|i: int|
            0 <= i < ps.l ==> signed_encoded(
                #[trigger] bytes.subrange(
                    ps.lambda + i * (32 * (ps.spec_gamma1_bits() as int)),
                    ps.lambda + (i + 1) * (32 * (ps.spec_gamma1_bits() as int)),
                ),
                sig2.z.polys@[i].coeffs@,
                ps.gamma1 as int - 1,
                ps.gamma1 as int,
                ps.spec_gamma1_bits() as int,
            ),
        crate::hint::hint_bits_match(
            bytes.subrange(
                ps.lambda + (ps.l as int) * (32 * (ps.spec_gamma1_bits() as int)),
                ps.spec_sig_size(),
            ),
            sig2.h.view_rows(),
            ps.omega as int,
            ps.k as int,
        ),
    ensures
        sig1.c_tilde@ == sig2.c_tilde@,
        forall|i: int|
            0 <= i < ps.l ==> #[trigger] sig1.z.polys@[i].coeffs@ == sig2.z.polys@[i].coeffs@,
        forall|i: int, j: int|
            0 <= i < ps.k && 0 <= j < 256 ==> #[trigger] sig1.h.view_rows()[i][j]
                == sig2.h.view_rows()[i][j],
{
    vstd::arithmetic::power2::lemma2_to64();
    crate::param::lemma_sizes(ps);
    let gb = ps.spec_gamma1_bits() as int;
    let sz = 32 * gb;
    let l = ps.l as int;
    let k = ps.k as int;
    let lam = ps.lambda as int;
    let g1 = ps.gamma1 as int;
    assert forall|i: int|
        0 <= i < l implies #[trigger] sig1.z.polys@[i].coeffs@ == sig2.z.polys@[i].coeffs@ by {
        crate::codec::lemma_signed_encoded_unique(
            bytes.subrange(lam + i * sz, lam + (i + 1) * sz),
            sig1.z.polys@[i].coeffs@,
            sig2.z.polys@[i].coeffs@,
            g1 - 1,
            g1,
            gb,
        );
    }
    let hseg = bytes.subrange(lam + l * sz, ps.spec_sig_size());
    assert(hseg == bytes.subrange(lam + l * sz, lam + l * sz + ps.omega + k));
    crate::hint::lemma_hint_round_trip(
        hseg,
        sig1.h.view_rows(),
        sig2.h.view_rows(),
        ps.omega as int,
        k,
    );
}

/// An encoded signature with a well-formed hint always decodes: its hint
/// segment is a valid hint encoding.
pub proof fn lemma_sig_decodable(bytes: Seq<u8>, sig: &Signature, ps: &ParameterSet)
    requires
        sig.wf(ps),
        hint_weight(sig.h.view_rows(), ps.k as int) <= ps.omega,
        sig_encoded(bytes, sig, ps),
    ensures
        valid_hint_bytes(
            bytes.subrange(
                ps.lambda + (ps.l as int) * (32 * (ps.spec_gamma1_bits() as int)),
                ps.spec_sig_size(),
            ),
            ps.k as int,
            ps.omega as int,
        ),
{
    crate::param::lemma_sizes(ps);
    let gb = ps.spec_gamma1_bits() as int;
    let sz = 32 * gb;
    let l = ps.l as int;
    let k = ps.k as int;
    let lam = ps.lambda as int;
    let hseg = bytes.subrange(lam + l * sz, ps.spec_sig_size());
    assert(hseg == bytes.subrange(lam + l * sz, lam + l * sz + ps.omega + k));
    crate::hint::lemma_hint_encoding_faithful(
        hseg,
        sig.h.view_rows(),
        ps.omega as int,
        k,
    );
}

} // verus!
