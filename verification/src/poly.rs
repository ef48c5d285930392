//! Polynomials over Z_q and the vector shapes built from them.  A
//! `Polynomial` is in coefficient (standard) form; an `NttPolynomial` is in
//! evaluation (NTT) form.  The two are distinct types so that they cannot be
//! mixed: multiplication is offered only on NTT-form values.
use vstd::prelude::*;

use crate::field::{fe_add, fe_sub};
use crate::param::Q;
use crate::round::fe_norm;

verus! {

/// The number of coefficients of every polynomial.
pub const N: usize = 256;

/// A degree-255 polynomial in standard (coefficient) form; every coefficient
/// is a canonical residue in [0, q).
pub struct Polynomial {
    pub coeffs: Vec<u32>,
}

/// A degree-255 polynomial in NTT (evaluation) form.
pub struct NttPolynomial {
    pub coeffs: Vec<u32>,
}

/// A vector of standard-form polynomials.
pub struct PolynomialVector {
    pub polys: Vec<Polynomial>,
}

/// A vector of NTT-form polynomials.
pub struct NttVector {
    pub polys: Vec<NttPolynomial>,
}

/// A matrix of NTT-form polynomials, stored as rows.
pub struct NttMatrix {
    pub rows: Vec<NttVector>,
}

/// A sequence of 256 canonical residues.
pub open spec fn coeffs_wf(s: Seq<u32>) -> bool {
    s.len() == 256 && forall|i: int| 0 <= i < 256 ==> s[i] < Q
}

impl Polynomial {
    pub open spec fn wf(&self) -> bool {
        coeffs_wf(self.coeffs@)
    }

    /// The zero polynomial.
    pub fn zero() -> (r: Polynomial)
        ensures
            r.wf(),
            forall|i: int| 0 <= i < 256 ==> r.coeffs@[i] == 0,
    {
        let mut c: Vec<u32> = Vec::new();
        let mut i: usize = 0;
        while i < N
            invariant
                i <= 256,
                c@.len() == i,
                forall|j: int| 0 <= j < i ==> c@[j] == 0,
            decreases 256 - i,
        {
            c.push(0);
            i = i + 1;
        }
        Polynomial { coeffs: c }
    }

    /// Coefficient-wise sum mod q.
    pub fn add(&self, other: &Polynomial) -> (r: Polynomial)
        requires
            self.wf(),
            other.wf(),
        ensures
            r.wf(),
            forall|i: int|
                0 <= i < 256 ==> r.coeffs@[i] == (self.coeffs@[i] + other.coeffs@[i]) % (
                Q as int),
    {
        let mut c: Vec<u32> = Vec::new();
        let mut i: usize = 0;
        while i < N
            invariant
                i <= 256,
                self.wf(),
                other.wf(),
                c@.len() == i,
                forall|j: int|
                    0 <= j < i ==> c@[j] == (self.coeffs@[j] + other.coeffs@[j]) % (Q as int),
                forall|j: int| 0 <= j < i ==> c@[j] < Q,
            decreases 256 - i,
        {
            c.push(fe_add(self.coeffs[i], other.coeffs[i]));
            i = i + 1;
        }
        Polynomial { coeffs: c }
    }

    /// Coefficient-wise difference mod q.
    pub fn sub(&self, other: &Polynomial) -> (r: Polynomial)
        requires
            self.wf(),
            other.wf(),
        ensures
            r.wf(),
            forall|i: int|
                0 <= i < 256 ==> r.coeffs@[i] == (self.coeffs@[i] - other.coeffs@[i]) % (
                Q as int),
    {
        let mut c: Vec<u32> = Vec::new();
        let mut i: usize = 0;
        while i < N
            invariant
                i <= 256,
                self.wf(),
                other.wf(),
                c@.len() == i,
                forall|j: int|
                    0 <= j < i ==> c@[j] == (self.coeffs@[j] - other.coeffs@[j]) % (Q as int),
                forall|j: int| 0 <= j < i ==> c@[j] < Q,
            decreases 256 - i,
        {
            c.push(fe_sub(self.coeffs[i], other.coeffs[i]));
            i = i + 1;
        }
        Polynomial { coeffs: c }
    }

    /// Coefficient-wise negation mod q.
    pub fn neg(&self) -> (r: Polynomial)
        requires
            self.wf(),
        ensures
            r.wf(),
            forall|i: int|
                0 <= i < 256 ==> r.coeffs@[i] == (0 - self.coeffs@[i]) % (Q as int),
    {
        let z = Polynomial::zero();
        z.sub(self)
    }

    /// The largest centered absolute value among the coefficients.
    pub fn infinity_norm(&self) -> (r: u32)
        requires
            self.wf(),
        ensures
            forall|i: int| 0 <= i < 256 ==> fe_norm(self.coeffs@[i] as int) <= r,
            exists|i: int| 0 <= i < 256 && fe_norm(self.coeffs@[i] as int) == r,
            r <= (Q - 1) / 2,
    {
        let mut best: u32 = crate::round::infinity_norm_fe(self.coeffs[0]);
        let mut i: usize = 1;
        while i < N
            invariant
                1 <= i <= 256,
                self.wf(),
                forall|j: int| 0 <= j < i ==> fe_norm(self.coeffs@[j] as int) <= best,
                exists|j: int| 0 <= j < i && fe_norm(self.coeffs@[j] as int) == best,
                best <= (Q - 1) / 2,
            decreases 256 - i,
        {
            let n = crate::round::infinity_norm_fe(self.coeffs[i]);
            if n > best {
                best = n;
            }
            i = i + 1;
        }
        best
    }
}

impl PolynomialVector {
    pub open spec fn wf(&self, k: int) -> bool {
        self.polys@.len() == k && forall|i: int| 0 <= i < k ==> (#[trigger] self.polys@[i]).wf()
    }

    /// A vector of `k` zero polynomials.
    pub fn zero(k: usize) -> (r: PolynomialVector)
        ensures
            r.wf(k as int),
            forall|i: int, j: int|
                0 <= i < k && 0 <= j < 256 ==> r.polys@[i].coeffs@[j] == 0,
    {
        let mut v: Vec<Polynomial> = Vec::new();
        let mut i: usize = 0;
        while i < k
            invariant
                i <= k,
                v@.len() == i,
                forall|j: int| 0 <= j < i ==> (#[trigger] v@[j]).wf(),
                forall|a: int, j: int| 0 <= a < i && 0 <= j < 256 ==> v@[a].coeffs@[j] == 0,
            decreases k - i,
        {
            v.push(Polynomial::zero());
            i = i + 1;
        }
        PolynomialVector { polys: v }
    }

    /// Element-wise sum.
    pub fn add(&self, other: &PolynomialVector, k: usize) -> (r: PolynomialVector)
        requires
            self.wf(k as int),
            other.wf(k as int),
        ensures
            r.wf(k as int),
            forall|i: int, j: int|
                0 <= i < k && 0 <= j < 256 ==> r.polys@[i].coeffs@[j] == (
                self.polys@[i].coeffs@[j] + other.polys@[i].coeffs@[j]) % (Q as int),
    {
        let mut v: Vec<Polynomial> = Vec::new();
        let mut i: usize = 0;
        while i < k
            invariant
                i <= k,
                self.wf(k as int),
                other.wf(k as int),
                v@.len() == i,
                forall|j: int| 0 <= j < i ==> (#[trigger] v@[j]).wf(),
                forall|a: int, j: int|
                    0 <= a < i && 0 <= j < 256 ==> v@[a].coeffs@[j] == (self.polys@[a].coeffs@[j]
                        + other.polys@[a].coeffs@[j]) % (Q as int),
            decreases k - i,
        {
            v.push(self.polys[i].add(&other.polys[i]));
            i = i + 1;
        }
        PolynomialVector { polys: v }
    }

    /// Element-wise difference.
    pub fn sub(&self, other: &PolynomialVector, k: usize) -> (r: PolynomialVector)
        requires
            self.wf(k as int),
            other.wf(k as int),
        ensures
            r.wf(k as int),
            forall|i: int, j: int|
                0 <= i < k && 0 <= j < 256 ==> r.polys@[i].coeffs@[j] == (
                self.polys@[i].coeffs@[j] - other.polys@[i].coeffs@[j]) % (Q as int),
    {
        let mut v: Vec<Polynomial> = Vec::new();
        let mut i: usize = 0;
        while i < k
            invariant
                i <= k,
                self.wf(k as int),
                other.wf(k as int),
                v@.len() == i,
                forall|j: int| 0 <= j < i ==> (#[trigger] v@[j]).wf(),
                forall|a: int, j: int|
                    0 <= a < i && 0 <= j < 256 ==> v@[a].coeffs@[j] == (self.polys@[a].coeffs@[j]
                        - other.polys@[a].coeffs@[j]) % (Q as int),
            decreases k - i,
        {
            v.push(self.polys[i].sub(&other.polys[i]));
            i = i + 1;
        }
        PolynomialVector { polys: v }
    }

    /// Element-wise negation.
    pub fn neg(&self, k: usize) -> (r: PolynomialVector)
        requires
            self.wf(k as int),
        ensures
            r.wf(k as int),
            forall|i: int, j: int|
                0 <= i < k && 0 <= j < 256 ==> r.polys@[i].coeffs@[j] == (0 - self.polys@[
                i].coeffs@[j]) % (Q as int),
    {
        let z = PolynomialVector::zero(k);
        z.sub(self, k)
    }

    /// The largest coefficient norm over the whole vector: an upper bound
    /// on every coefficient that some coefficient attains.
    pub fn infinity_norm(&self, k: usize) -> (r: u32)
        requires
            self.wf(k as int),
            k >= 1,
        ensures
            forall|i: int, j: int|
                0 <= i < k && 0 <= j < 256 ==> fe_norm(self.polys@[i].coeffs@[j] as int) <= r,
            exists|i: int, j: int|
                0 <= i < k && 0 <= j < 256 && fe_norm(self.polys@[i].coeffs@[j] as int) == r,
            r <= (Q - 1) / 2,
    {
        let mut best: u32 = 0;
        let mut i: usize = 0;
        while i < k
            invariant
                i <= k,
                self.wf(k as int),
                forall|a: int, j: int|
                    0 <= a < i && 0 <= j < 256 ==> fe_norm(self.polys@[a].coeffs@[j] as int)
                        <= best,
                i > 0 ==> exists|a: int, j: int|
                    0 <= a < i && 0 <= j < 256 && fe_norm(self.polys@[a].coeffs@[j] as int)
                        == best,
                i == 0 ==> best == 0,
                best <= (Q - 1) / 2,
            decreases k - i,
        {
            let ghost prev = best;
            let n = self.polys[i].infinity_norm();
            if n > best {
                best = n;
            }
            proof {
                if n <= prev {
                    if i == 0 {
                        // every norm in row 0 is at most 0, and some norm
                        // equals n == 0
                        let (jj) = choose|jj: int|
                            0 <= jj < 256 && fe_norm(self.polys@[0].coeffs@[jj] as int) == n;
                        assert(fe_norm(self.polys@[0].coeffs@[jj] as int) == best);
                    }
                }
            }
            i = i + 1;
        }
        best
    }
}

impl NttPolynomial {
    pub open spec fn wf(&self) -> bool {
        coeffs_wf(self.coeffs@)
    }
}

/// Overwrite every entry with zero: best-effort scrubbing of a secret
/// coefficient buffer before it is released.
pub fn wipe_coeffs(v: &mut Vec<u32>)
    ensures
        final(v)@.len() == old(v)@.len(),
        forall|i: int| 0 <= i < final(v)@.len() ==> final(v)@[i] == 0,
{
    let n = v.len();
    let mut i: usize = 0;
    while i < n
        invariant
            i <= n,
            n == v@.len(),
            forall|t: int| 0 <= t < i ==> v@[t] == 0,
        decreases n - i,
    {
        v.set(i, 0);
        i = i + 1;
    }
}

/// Consume a secret polynomial, overwriting its coefficients first.
pub fn scrub_polynomial(p: Polynomial)
{
    let mut c = p.coeffs;
    wipe_coeffs(&mut c);
}

/// Consume a secret polynomial vector, overwriting every buffer first.
pub fn scrub_vector(v: PolynomialVector)
{
    let mut polys = v.polys;
    while polys.len() > 0
        decreases polys@.len(),
    {
        match polys.pop() {
            Some(p) => {
                scrub_polynomial(p);
            },
            None => {
            },
        }
    }
}

/// Consume a secret NTT polynomial, overwriting its coefficients first.
pub fn scrub_ntt_polynomial(p: NttPolynomial)
{
    let mut c = p.coeffs;
    wipe_coeffs(&mut c);
}

/// Consume a secret NTT vector, overwriting every buffer first.
pub fn scrub_ntt_vector(v: NttVector)
{
    let mut polys = v.polys;
    while polys.len() > 0
        decreases polys@.len(),
    {
        match polys.pop() {
            Some(p) => {
                scrub_ntt_polynomial(p);
            },
            None => {
            },
        }
    }
}

impl NttVector {
    pub open spec fn wf(&self, k: int) -> bool {
        self.polys@.len() == k && forall|i: int| 0 <= i < k ==> (#[trigger] self.polys@[i]).wf()
    }
}

impl NttMatrix {
    pub open spec fn wf(&self, k: int, l: int) -> bool {
        self.rows@.len() == k && forall|i: int| 0 <= i < k ==> (#[trigger] self.rows@[i]).wf(l)
    }
}

} // verus!
