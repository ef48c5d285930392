//! The Number-Theoretic Transform over Z_q and its inverse, following the
//! layered Cooley–Tukey butterflies of FIPS 204 §8.2 with the zeta table in
//! bit-reversal order, together with the NTT-domain products: pointwise,
//! vector and matrix-vector.  The contracts track well-formedness (every
//! coefficient a canonical residue); the transform pair is exercised
//! end-to-end by the signing and verification tests.
use vstd::prelude::*;

use crate::field::{fe_add, fe_mul, fe_pow, fe_sub};
use crate::param::Q;
use crate::poly::{coeffs_wf, NttMatrix, NttPolynomial, NttVector, Polynomial, PolynomialVector};

verus! {

/// 256-th root of unity mod q used by the transform.
pub const ZETA: u32 = 1753;

/// n^{-1} mod q for n = 256; the final scaling of the inverse transform.
pub const INV_256: u32 = 8347681;

/// The 8-bit reversal of `k`, written with quotients and remainders by
/// fixed powers of two.
pub open spec fn brv8(k: int) -> int {
    (k % 2) * 128 + ((k / 2) % 2) * 64 + ((k / 4) % 2) * 32 + ((k / 8) % 2) * 16 + ((k / 16) % 2)
        * 8 + ((k / 32) % 2) * 4 + ((k / 64) % 2) * 2 + (k / 128) % 2
}

/// Entry `k` of the zeta table: `zeta^brv(k) mod q`.
pub open spec fn zeta_at(k: int) -> int {
    vstd::arithmetic::power::pow(ZETA as int, brv8(k) as nat) % (Q as int)
}

/// The 8-bit reversal of `k`, written with quotients and remainders by
/// fixed powers of two.
fn bitrev8(k: u32) -> (r: u32)
    requires
        k < 256,
    ensures
        r < 256,
        r == brv8(k as int),
{
    (k % 2) * 128 + ((k / 2) % 2) * 64 + ((k / 4) % 2) * 32 + ((k / 8) % 2) * 16 + ((k / 16) % 2)
        * 8 + ((k / 32) % 2) * 4 + ((k / 64) % 2) * 2 + (k / 128) % 2
}

/// The table `zeta^brv(k) mod q` for k = 0..256.
fn zeta_table() -> (z: Vec<u32>)
    ensures
        z@.len() == 256,
        forall|i: int| 0 <= i < 256 ==> z@[i] < Q,
        forall|i: int| 0 <= i < 256 ==> z@[i] == zeta_at(i),
{
    let mut z: Vec<u32> = Vec::new();
    let mut k: u32 = 0;
    while k < 256
        invariant
            k <= 256,
            z@.len() == k,
            forall|i: int| 0 <= i < k ==> z@[i] < Q,
            forall|i: int| 0 <= i < k ==> z@[i] == zeta_at(i),
        decreases 256 - k,
    {
        z.push(fe_pow(ZETA, bitrev8(k)));
        k = k + 1;
    }
    z
}

/// The butterfly length of each of the eight layers of the forward
/// transform, halving from 128 down to 1.
pub open spec fn layer_len_of(level: int) -> int {
    if level == 0 {
        128
    } else if level == 1 {
        64
    } else if level == 2 {
        32
    } else if level == 3 {
        16
    } else if level == 4 {
        8
    } else if level == 5 {
        4
    } else if level == 6 {
        2
    } else {
        1
    }
}

/// The number of butterfly blocks at each layer, doubling from 1 up to 128.
pub open spec fn layer_blocks_of(level: int) -> int {
    if level == 0 {
        1
    } else if level == 1 {
        2
    } else if level == 2 {
        4
    } else if level == 3 {
        8
    } else if level == 4 {
        16
    } else if level == 5 {
        32
    } else if level == 6 {
        64
    } else {
        128
    }
}

/// One butterfly layer of the forward transform: position t of block
/// `t / (2 len)` pairs with its partner `len` places away, scaled by the
/// block's zeta.
pub open spec fn bf_layer(w: Seq<u32>, len: int, blocks: int) -> Seq<u32> {
    Seq::new(
        256,
        |t: int|
            {
                let blk = t / (2 * len);
                let pos = t % (2 * len);
                let z = zeta_at(blocks + blk);
                if pos < len {
                    ((((w[t] as int) + (z * (w[t + len] as int)) % (Q as int)) % (
                    Q as int))) as u32
                } else {
                    ((((w[t - len] as int) - (z * (w[t] as int)) % (Q as int)) % (
                    Q as int))) as u32
                }
            },
    )
}

/// The first `level` butterfly layers applied in order.
pub open spec fn ntt_layers(w: Seq<u32>, level: int) -> Seq<u32>
    decreases level,
{
    if level <= 0 {
        w
    } else {
        bf_layer(ntt_layers(w, level - 1), layer_len_of(level - 1), layer_blocks_of(level - 1))
    }
}

/// The full forward transform: all eight layers.
pub open spec fn ntt_spec(w: Seq<u32>) -> Seq<u32> {
    ntt_layers(w, 8)
}

/// One butterfly layer of the inverse transform: the sum stays at the lower
/// position and the difference, scaled by the negated zeta, at the upper.
pub open spec fn inv_bf_layer(w: Seq<u32>, len: int, blocks: int) -> Seq<u32> {
    Seq::new(
        256,
        |t: int|
            {
                let blk = t / (2 * len);
                let pos = t % (2 * len);
                let z = (0 - zeta_at(2 * blocks - 1 - blk)) % (Q as int);
                if pos < len {
                    ((((w[t] as int) + (w[t + len] as int)) % (Q as int))) as u32
                } else {
                    ((z * (((w[t - len] as int) - (w[t] as int)) % (Q as int))) % (
                    Q as int)) as u32
                }
            },
    )
}

/// The first `level` inverse layers, in the reverse order of the forward
/// transform.
pub open spec fn inv_ntt_layers(w: Seq<u32>, level: int) -> Seq<u32>
    decreases level,
{
    if level <= 0 {
        w
    } else {
        inv_bf_layer(
            inv_ntt_layers(w, level - 1),
            layer_len_of(7 - (level - 1)),
            layer_blocks_of(7 - (level - 1)),
        )
    }
}

/// The final scaling of the inverse transform by 256^{-1} mod q.
pub open spec fn scale_layer(w: Seq<u32>) -> Seq<u32> {
    Seq::new(256, |t: int| (((INV_256 as int) * (w[t] as int)) % (Q as int)) as u32)
}

/// The full inverse transform: all eight layers, then the scaling.
pub open spec fn ntt_inverse_spec(w: Seq<u32>) -> Seq<u32> {
    scale_layer(inv_ntt_layers(w, 8))
}

/// The butterfly lengths of the eight layers of the forward transform, and
/// the number of blocks at each layer.
fn layer_shape(level: usize) -> (r: (usize, usize))
    requires
        level < 8,
    ensures
        r.0 * r.1 == 128,
        1 <= r.0 <= 128,
        1 <= r.1 <= 128,
        r.0 == layer_len_of(level as int),
        r.1 == layer_blocks_of(level as int),
{
    match level {
        0 => (128, 1),
        1 => (64, 2),
        2 => (32, 4),
        3 => (16, 8),
        4 => (8, 16),
        5 => (4, 32),
        6 => (2, 64),
        _ => (1, 128),
    }
}

/// A copy of a coefficient buffer.
fn copy_coeffs(v: &Vec<u32>) -> (r: Vec<u32>)
    ensures
        r@ == v@,
{
    let mut out: Vec<u32> = Vec::new();
    let mut i: usize = 0;
    let n = v.len();
    while i < n
        invariant
            i <= n,
            n == v@.len(),
            out@ == v@.subrange(0, i as int),
        decreases n - i,
    {
        out.push(v[i]);
        proof {
            assert(out@ =~= v@.subrange(0, i + 1));
        }
        i = i + 1;
    }
    proof {
        assert(out@ =~= v@);
    }
    out
}

/// The forward transform: standard form to NTT form, layer by layer,
/// matching `ntt_spec` exactly.
pub fn ntt(p: &Polynomial) -> (r: NttPolynomial)
    requires
        p.wf(),
    ensures
        r.wf(),
        r.coeffs@ == ntt_spec(p.coeffs@),
{
    let zetas = zeta_table();
    let mut w: Vec<u32> = copy_coeffs(&p.coeffs);
    let mut level: usize = 0;
    while level < 8
        invariant
            level <= 8,
            p.wf(),
            coeffs_wf(w@),
            zetas@.len() == 256,
            forall|i: int| 0 <= i < 256 ==> zetas@[i] < Q,
            forall|i: int| 0 <= i < 256 ==> zetas@[i] == zeta_at(i),
            w@ == ntt_layers(p.coeffs@, level as int),
        decreases 8 - level,
    {
        let ghost orig = w@;
        let (len, blocks) = layer_shape(level);
        let ghost lay = bf_layer(orig, len as int, blocks as int);
        let mut blk: usize = 0;
        while blk < blocks
            invariant
                blk <= blocks,
                1 <= len <= 128,
                1 <= blocks <= 128,
                len * blocks == 128,
                coeffs_wf(w@),
                zetas@.len() == 256,
                forall|i: int| 0 <= i < 256 ==> zetas@[i] < Q,
                forall|i: int| 0 <= i < 256 ==> zetas@[i] == zeta_at(i),
                orig.len() == 256,
                lay == bf_layer(orig, len as int, blocks as int),
                forall|t: int| 0 <= t < blk * (2 * len) ==> w@[t] == lay[t],
                forall|t: int| blk * (2 * len) <= t < 256 ==> w@[t] == orig[t],
            decreases blocks - blk,
        {
            proof {
                assert(blocks * (2 * len) == 256) by (nonlinear_arith)
                    requires
                        len * blocks == 128,
                ;
                assert(blk * (2 * len) + 2 * len <= blocks * (2 * len)) by (nonlinear_arith)
                    requires
                        blk < blocks,
                        len >= 1,
                ;
            }
            let start = blk * (2 * len);
            let zidx = blocks + blk;
            let z = zetas[zidx];
            let mut j = start;
            while j < start + len
                invariant
                    start <= j <= start + len,
                    start + 2 * len <= 256,
                    1 <= len,
                    start == blk * (2 * len),
                    z < Q,
                    z == zeta_at(blocks + blk),
                    coeffs_wf(w@),
                    orig.len() == 256,
                    lay == bf_layer(orig, len as int, blocks as int),
                    forall|t: int| 0 <= t < start ==> w@[t] == lay[t],
                    forall|t: int| start <= t < j ==> w@[t] == lay[t],
                    forall|t: int| j <= t < start + len ==> w@[t] == orig[t],
                    forall|t: int| start + len <= t < len + j ==> w@[t] == lay[t],
                    forall|t: int| len + j <= t < 256 ==> w@[t] == orig[t],
                decreases start + len - j,
            {
                let t = fe_mul(z, w[j + len]);
                let wj = w[j];
                w.set(j + len, fe_sub(wj, t));
                w.set(j, fe_add(wj, t));
                proof {
                    // positions j and j + len now hold this layer's values
                    vstd::arithmetic::div_mod::lemma_fundamental_div_mod_converse(
                        j as int,
                        2 * len,
                        blk as int,
                        j - start,
                    );
                    vstd::arithmetic::div_mod::lemma_fundamental_div_mod_converse(
                        j + len,
                        2 * len,
                        blk as int,
                        j + len - start,
                    );
                    assert(w@[j as int] == lay[j as int]);
                    assert(w@[j + len] == lay[j + len]);
                }
                j = j + 1;
            }
            proof {
                assert((blk + 1) * (2 * len) == blk * (2 * len) + 2 * len) by (nonlinear_arith);
            }
            blk = blk + 1;
        }
        proof {
            assert(blocks * (2 * len) == 256) by (nonlinear_arith)
                requires
                    len * blocks == 128,
            ;
            assert(w@ =~= lay);
            assert(w@ =~= ntt_layers(p.coeffs@, level + 1));
        }
        level = level + 1;
    }
    NttPolynomial { coeffs: w }
}

/// The inverse transform: NTT form back to standard form, layer by layer in
/// reverse order and then the final scaling by 256^{-1}, matching
/// `ntt_inverse_spec` exactly.
pub fn ntt_inverse(p: &NttPolynomial) -> (r: Polynomial)
    requires
        p.wf(),
    ensures
        r.wf(),
        r.coeffs@ == ntt_inverse_spec(p.coeffs@),
{
    let zetas = zeta_table();
    let mut w: Vec<u32> = copy_coeffs(&p.coeffs);
    let mut level: usize = 0;
    while level < 8
        invariant
            level <= 8,
            p.wf(),
            coeffs_wf(w@),
            zetas@.len() == 256,
            forall|i: int| 0 <= i < 256 ==> zetas@[i] < Q,
            forall|i: int| 0 <= i < 256 ==> zetas@[i] == zeta_at(i),
            w@ == inv_ntt_layers(p.coeffs@, level as int),
        decreases 8 - level,
    {
        let ghost orig = w@;
        // the layers run in the reverse order of the forward transform
        let (len, blocks) = layer_shape(7 - level);
        let ghost lay = inv_bf_layer(orig, len as int, blocks as int);
        let mut blk: usize = 0;
        while blk < blocks
            invariant
                blk <= blocks,
                1 <= len <= 128,
                1 <= blocks <= 128,
                len * blocks == 128,
                coeffs_wf(w@),
                zetas@.len() == 256,
                forall|i: int| 0 <= i < 256 ==> zetas@[i] < Q,
                forall|i: int| 0 <= i < 256 ==> zetas@[i] == zeta_at(i),
                orig.len() == 256,
                lay == inv_bf_layer(orig, len as int, blocks as int),
                forall|t: int| 0 <= t < blk * (2 * len) ==> w@[t] == lay[t],
                forall|t: int| blk * (2 * len) <= t < 256 ==> w@[t] == orig[t],
            decreases blocks - blk,
        {
            proof {
                assert(blocks * (2 * len) == 256) by (nonlinear_arith)
                    requires
                        len * blocks == 128,
                ;
                assert(blk * (2 * len) + 2 * len <= blocks * (2 * len)) by (nonlinear_arith)
                    requires
                        blk < blocks,
                        len >= 1,
                ;
            }
            let start = blk * (2 * len);
            let zidx = 2 * blocks - 1 - blk;
            let z = crate::field::fe_neg(zetas[zidx]);
            let mut j = start;
            while j < start + len
                invariant
                    start <= j <= start + len,
                    start + 2 * len <= 256,
                    1 <= len,
                    start == blk * (2 * len),
                    z < Q,
                    z == (0 - zeta_at(2 * blocks - 1 - blk)) % (Q as int),
                    coeffs_wf(w@),
                    orig.len() == 256,
                    lay == inv_bf_layer(orig, len as int, blocks as int),
                    forall|t: int| 0 <= t < start ==> w@[t] == lay[t],
                    forall|t: int| start <= t < j ==> w@[t] == lay[t],
                    forall|t: int| j <= t < start + len ==> w@[t] == orig[t],
                    forall|t: int| start + len <= t < len + j ==> w@[t] == lay[t],
                    forall|t: int| len + j <= t < 256 ==> w@[t] == orig[t],
                decreases start + len - j,
            {
                let t = w[j];
                let wjl = w[j + len];
                w.set(j, fe_add(t, wjl));
                w.set(j + len, fe_mul(z, fe_sub(t, wjl)));
                proof {
                    vstd::arithmetic::div_mod::lemma_fundamental_div_mod_converse(
                        j as int,
                        2 * len,
                        blk as int,
                        j - start,
                    );
                    vstd::arithmetic::div_mod::lemma_fundamental_div_mod_converse(
                        j + len,
                        2 * len,
                        blk as int,
                        j + len - start,
                    );
                    assert(w@[j as int] == lay[j as int]);
                    assert(w@[j + len] == lay[j + len]);
                }
                j = j + 1;
            }
            proof {
                assert((blk + 1) * (2 * len) == blk * (2 * len) + 2 * len) by (nonlinear_arith);
            }
            blk = blk + 1;
        }
        proof {
            assert(blocks * (2 * len) == 256) by (nonlinear_arith)
                requires
                    len * blocks == 128,
            ;
            assert(w@ =~= lay);
            assert(w@ =~= inv_ntt_layers(p.coeffs@, level + 1));
        }
        level = level + 1;
    }
    let ghost before = w@;
    let mut j: usize = 0;
    while j < 256
        invariant
            j <= 256,
            coeffs_wf(w@),
            before.len() == 256,
            forall|t: int| 0 <= t < j ==> w@[t] == scale_layer(before)[t],
            forall|t: int| j <= t < 256 ==> w@[t] == before[t],
        decreases 256 - j,
    {
        let wj = w[j];
        w.set(j, fe_mul(INV_256, wj));
        j = j + 1;
    }
    proof {
        assert(w@ =~= scale_layer(before));
    }
    Polynomial { coeffs: w }
}

impl NttPolynomial {
    /// Pointwise product in the NTT domain.
    pub fn mul(&self, other: &NttPolynomial) -> (r: NttPolynomial)
        requires
            self.wf(),
            other.wf(),
        ensures
            r.wf(),
            forall|i: int|
                0 <= i < 256 ==> r.coeffs@[i] == (self.coeffs@[i] * other.coeffs@[i]) % (
                Q as int),
    {
        let mut c: Vec<u32> = Vec::new();
        let mut i: usize = 0;
        while i < 256
            invariant
                i <= 256,
                self.wf(),
                other.wf(),
                c@.len() == i,
                forall|j: int|
                    0 <= j < i ==> c@[j] == (self.coeffs@[j] * other.coeffs@[j]) % (Q as int),
                forall|j: int| 0 <= j < i ==> c@[j] < Q,
            decreases 256 - i,
        {
            c.push(fe_mul(self.coeffs[i], other.coeffs[i]));
            i = i + 1;
        }
        NttPolynomial { coeffs: c }
    }

    /// Pointwise sum in the NTT domain.
    pub fn add(&self, other: &NttPolynomial) -> (r: NttPolynomial)
        requires
            self.wf(),
            other.wf(),
        ensures
            r.wf(),
            forall|i: int|
                0 <= i < 256 ==> r.coeffs@[i] == (self.coeffs@[i] + other.coeffs@[i]) % (
                Q as int),
    {
        let mut c: Vec<u32> = Vec::new();
        let mut i: usize = 0;
        while i < 256
            invariant
                i <= 256,
                self.wf(),
                other.wf(),
                c@.len() == i,
                forall|j: int|
                    0 <= j < i ==> c@[j] == (self.coeffs@[j] + other.coeffs@[j]) % (Q as int),
                forall|j: int| 0 <= j < i ==> c@[j] < Q,
            decreases 256 - i,
        {
            c.push(fe_add(self.coeffs[i], other.coeffs[i]));
            i = i + 1;
        }
        NttPolynomial { coeffs: c }
    }
}

/// Coefficient `j` of the NTT-domain dot product of the first `n` element
/// pairs: the running sum mod q of the pointwise products, exactly as the
/// executable fold computes it.
pub open spec fn dot_coeff(a: Seq<NttPolynomial>, b: Seq<NttPolynomial>, j: int, n: int) -> int
    decreases n,
{
    if n <= 0 {
        0
    } else {
        (dot_coeff(a, b, j, n - 1) + (a[n - 1].coeffs@[j] * b[n - 1].coeffs@[j]) % (Q as int)) % (
        Q as int)
    }
}

/// `dot_coeff` restated over raw coefficient sequences, for spec-level
/// composition of the pipeline.
pub open spec fn dot_coeff2(a: Seq<Seq<u32>>, b: Seq<Seq<u32>>, j: int, n: int) -> int
    decreases n,
{
    if n <= 0 {
        0
    } else {
        (dot_coeff2(a, b, j, n - 1) + (a[n - 1][j] * b[n - 1][j]) % (Q as int)) % (Q as int)
    }
}

/// The two dot-product spellings agree when the polynomial views match the
/// raw sequences.
pub proof fn lemma_dot_coeff2_eq(
    a: Seq<NttPolynomial>,
    av: Seq<Seq<u32>>,
    b: Seq<NttPolynomial>,
    bv: Seq<Seq<u32>>,
    j: int,
    n: int,
)
    requires
        forall|t: int| 0 <= t < n ==> (#[trigger] a[t]).coeffs@ == av[t],
        forall|t: int| 0 <= t < n ==> (#[trigger] b[t]).coeffs@ == bv[t],
    ensures
        dot_coeff(a, b, j, n) == dot_coeff2(av, bv, j, n),
    decreases n,
{
    if n > 0 {
        lemma_dot_coeff2_eq(a, av, b, bv, j, n - 1);
    }
}

impl PolynomialVector {
    /// Apply the forward transform to every element.
    pub fn ntt(&self, k: usize) -> (r: NttVector)
        requires
            self.wf(k as int),
        ensures
            r.wf(k as int),
            forall|i: int|
                0 <= i < k ==> #[trigger] r.polys@[i].coeffs@ == ntt_spec(
                    self.polys@[i].coeffs@,
                ),
    {
        let mut v: Vec<NttPolynomial> = Vec::new();
        let mut i: usize = 0;
        while i < k
            invariant
                i <= k,
                self.wf(k as int),
                v@.len() == i,
                forall|j: int| 0 <= j < i ==> (#[trigger] v@[j]).wf(),
                forall|j: int|
                    0 <= j < i ==> #[trigger] v@[j].coeffs@ == ntt_spec(self.polys@[j].coeffs@),
            decreases k - i,
        {
            v.push(ntt(&self.polys[i]));
            i = i + 1;
        }
        NttVector { polys: v }
    }
}

impl NttVector {
    /// Apply the inverse transform to every element.
    pub fn ntt_inverse(&self, k: usize) -> (r: PolynomialVector)
        requires
            self.wf(k as int),
        ensures
            r.wf(k as int),
            forall|i: int|
                0 <= i < k ==> #[trigger] r.polys@[i].coeffs@ == ntt_inverse_spec(
                    self.polys@[i].coeffs@,
                ),
    {
        let mut v: Vec<Polynomial> = Vec::new();
        let mut i: usize = 0;
        while i < k
            invariant
                i <= k,
                self.wf(k as int),
                v@.len() == i,
                forall|j: int| 0 <= j < i ==> (#[trigger] v@[j]).wf(),
                forall|j: int|
                    0 <= j < i ==> #[trigger] v@[j].coeffs@ == ntt_inverse_spec(
                        self.polys@[j].coeffs@,
                    ),
            decreases k - i,
        {
            v.push(ntt_inverse(&self.polys[i]));
            i = i + 1;
        }
        PolynomialVector { polys: v }
    }

    /// Multiply every element pointwise by one NTT polynomial.
    pub fn scale(&self, c: &NttPolynomial, k: usize) -> (r: NttVector)
        requires
            self.wf(k as int),
            c.wf(),
        ensures
            r.wf(k as int),
            forall|i: int, j: int|
                0 <= i < k && 0 <= j < 256 ==> r.polys@[i].coeffs@[j] == (c.coeffs@[j]
                    * self.polys@[i].coeffs@[j]) % (Q as int),
    {
        let mut v: Vec<NttPolynomial> = Vec::new();
        let mut i: usize = 0;
        while i < k
            invariant
                i <= k,
                self.wf(k as int),
                c.wf(),
                v@.len() == i,
                forall|j: int| 0 <= j < i ==> (#[trigger] v@[j]).wf(),
                forall|a: int, j: int|
                    0 <= a < i && 0 <= j < 256 ==> v@[a].coeffs@[j] == (c.coeffs@[j]
                        * self.polys@[a].coeffs@[j]) % (Q as int),
            decreases k - i,
        {
            v.push(c.mul(&self.polys[i]));
            i = i + 1;
        }
        NttVector { polys: v }
    }

    /// Pointwise difference of two NTT vectors.
    pub fn sub(&self, other: &NttVector, k: usize) -> (r: NttVector)
        requires
            self.wf(k as int),
            other.wf(k as int),
        ensures
            r.wf(k as int),
            forall|i: int, j: int|
                0 <= i < k && 0 <= j < 256 ==> r.polys@[i].coeffs@[j] == (
                self.polys@[i].coeffs@[j] - other.polys@[i].coeffs@[j]) % (Q as int),
    {
        let mut v: Vec<NttPolynomial> = Vec::new();
        let mut i: usize = 0;
        while i < k
            invariant
                i <= k,
                self.wf(k as int),
                other.wf(k as int),
                v@.len() == i,
                forall|j: int| 0 <= j < i ==> (#[trigger] v@[j]).wf(),
                forall|a: int, j: int|
                    0 <= a < i && 0 <= j < 256 ==> v@[a].coeffs@[j] == (self.polys@[a].coeffs@[j]
                        - other.polys@[a].coeffs@[j]) % (Q as int),
            decreases k - i,
        {
            let mut c: Vec<u32> = Vec::new();
            let mut j: usize = 0;
            while j < 256
                invariant
                    j <= 256,
                    i < k,
                    self.wf(k as int),
                    other.wf(k as int),
                    c@.len() == j,
                    forall|t: int| 0 <= t < j ==> c@[t] < Q,
                    forall|t: int|
                        0 <= t < j ==> c@[t] == (self.polys@[i as int].coeffs@[t] - other.polys@[
                        i as int].coeffs@[t]) % (Q as int),
                decreases 256 - j,
            {
                c.push(fe_sub(self.polys[i].coeffs[j], other.polys[i].coeffs[j]));
                j = j + 1;
            }
            v.push(NttPolynomial { coeffs: c });
            i = i + 1;
        }
        NttVector { polys: v }
    }

    /// The dot product with another NTT vector: coefficient j is the sum
    /// mod q of the first l pointwise products at j.
    pub fn dot(&self, other: &NttVector, l: usize) -> (r: NttPolynomial)
        requires
            self.wf(l as int),
            other.wf(l as int),
            l >= 1,
        ensures
            r.wf(),
            forall|j: int|
                0 <= j < 256 ==> r.coeffs@[j] == dot_coeff(self.polys@, other.polys@, j, l as int),
    {
        let mut acc = self.polys[0].mul(&other.polys[0]);
        proof {
            assert forall|j: int|
                0 <= j < 256 implies acc.coeffs@[j] == dot_coeff(
                self.polys@,
                other.polys@,
                j,
                1,
            ) by {
                assert(dot_coeff(self.polys@, other.polys@, j, 0) == 0);
                vstd::arithmetic::div_mod::lemma_small_mod(acc.coeffs@[j] as nat, Q as nat);
            }
        }
        let mut i: usize = 1;
        while i < l
            invariant
                1 <= i <= l,
                self.wf(l as int),
                other.wf(l as int),
                acc.wf(),
                forall|j: int|
                    0 <= j < 256 ==> acc.coeffs@[j] == dot_coeff(
                        self.polys@,
                        other.polys@,
                        j,
                        i as int,
                    ),
            decreases l - i,
        {
            let term = self.polys[i].mul(&other.polys[i]);
            acc = acc.add(&term);
            i = i + 1;
        }
        acc
    }
}

impl NttMatrix {
    /// Matrix-vector product in the NTT domain: each output coordinate is the
    /// dot product of one row with the vector.
    pub fn mul_vector(&self, v: &NttVector, k: usize, l: usize) -> (r: NttVector)
        requires
            self.wf(k as int, l as int),
            v.wf(l as int),
            l >= 1,
        ensures
            r.wf(k as int),
            forall|i: int, j: int|
                0 <= i < k && 0 <= j < 256 ==> r.polys@[i].coeffs@[j] == dot_coeff(
                    self.rows@[i].polys@,
                    v.polys@,
                    j,
                    l as int,
                ),
    {
        let mut out: Vec<NttPolynomial> = Vec::new();
        let mut i: usize = 0;
        while i < k
            invariant
                i <= k,
                self.wf(k as int, l as int),
                v.wf(l as int),
                l >= 1,
                out@.len() == i,
                forall|j: int| 0 <= j < i ==> (#[trigger] out@[j]).wf(),
                forall|a: int, j: int|
                    0 <= a < i && 0 <= j < 256 ==> out@[a].coeffs@[j] == dot_coeff(
                        self.rows@[a].polys@,
                        v.polys@,
                        j,
                        l as int,
                    ),
            decreases k - i,
        {
            out.push(self.rows[i].dot(v, l));
            i = i + 1;
        }
        NttVector { polys: out }
    }
}

/// Multiply every coefficient of a standard-form vector by a constant:
/// used to scale t1 by 2^13 during verification.
pub fn scale_vector(v: &PolynomialVector, c: u32, k: usize) -> (r: PolynomialVector)
    requires
        v.wf(k as int),
        c < Q,
    ensures
        r.wf(k as int),
        forall|i: int, j: int|
            0 <= i < k && 0 <= j < 256 ==> r.polys@[i].coeffs@[j] == (c * v.polys@[i].coeffs@[j])
                % (Q as int),
{
    let mut out: Vec<Polynomial> = Vec::new();
    let mut i: usize = 0;
    while i < k
        invariant
            i <= k,
            v.wf(k as int),
            c < Q,
            out@.len() == i,
            forall|a: int| 0 <= a < i ==> (#[trigger] out@[a]).wf(),
            forall|a: int, j: int|
                0 <= a < i && 0 <= j < 256 ==> out@[a].coeffs@[j] == (c * v.polys@[a].coeffs@[j])
                    % (Q as int),
        decreases k - i,
    {
        let mut cf: Vec<u32> = Vec::new();
        let mut j: usize = 0;
        while j < 256
            invariant
                j <= 256,
                i < k,
                v.wf(k as int),
                c < Q,
                cf@.len() == j,
                forall|t: int| 0 <= t < j ==> cf@[t] < Q,
                forall|t: int|
                    0 <= t < j ==> cf@[t] == (c * v.polys@[i as int].coeffs@[t]) % (Q as int),
            decreases 256 - j,
        {
            cf.push(fe_mul(c, v.polys[i].coeffs[j]));
            j = j + 1;
        }
        out.push(Polynomial { coeffs: cf });
        i = i + 1;
    }
    PolynomialVector { polys: out }
}

} // verus!
