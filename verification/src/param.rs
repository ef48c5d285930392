//! Parameter sets for the three standardized security levels, together with
//! the sizes of every encoded object, derived from the table in FIPS 204.
use vstd::prelude::*;

verus! {

/// The prime modulus q = 2^23 - 2^13 + 1.
pub const Q: u32 = 8380417;

/// The dropped-bits parameter d: `power2round` splits at 2^13.
pub const D: u32 = 13;

/// Bound on the absolute value of the secret coefficients; always 2 or 4.
#[derive(Clone, Copy, PartialEq, Eq, Structural)]
pub enum Eta {
    Two,
    Four,
}

impl Eta {
    /// The numeric value of the bound.
    pub fn value(&self) -> (r: u32)
        ensures
            r == self.spec_value(),
    {
        match self {
            Eta::Two => 2,
            Eta::Four => 4,
        }
    }

    pub open spec fn spec_value(&self) -> u32 {
        match self {
            Eta::Two => 2u32,
            Eta::Four => 4u32,
        }
    }
}

/// One ML-DSA parameter set: the table row (K, L, eta, gamma1, gamma2,
/// lambda, omega, tau) from which every other size is derived.
pub struct ParameterSet {
    /// Number of rows of the matrix A.
    pub k: usize,
    /// Number of columns of the matrix A.
    pub l: usize,
    /// Range bound of the secret vectors s1, s2.
    pub eta: Eta,
    /// Range bound of the mask vector y.
    pub gamma1: u32,
    /// Low-order rounding range; 2*gamma2 divides q - 1.
    pub gamma2: u32,
    /// Byte length of the challenge hash c_tilde.
    pub lambda: usize,
    /// Maximum Hamming weight of the hint.
    pub omega: usize,
    /// Number of nonzero coefficients of the challenge polynomial.
    pub tau: usize,
}

impl ParameterSet {
    /// True exactly of the three standardized parameter sets.
    pub open spec fn valid(&self) -> bool {
        self.is_44() || self.is_65() || self.is_87()
    }

    pub open spec fn is_44(&self) -> bool {
        &&& self.k == 4usize
        &&& self.l == 4usize
        &&& self.eta == Eta::Two
        &&& self.gamma1 == 131072u32
        &&& self.gamma2 == 95232u32
        &&& self.lambda == 32usize
        &&& self.omega == 80usize
        &&& self.tau == 39usize
    }

    pub open spec fn is_65(&self) -> bool {
        &&& self.k == 6usize
        &&& self.l == 5usize
        &&& self.eta == Eta::Four
        &&& self.gamma1 == 524288u32
        &&& self.gamma2 == 261888u32
        &&& self.lambda == 48usize
        &&& self.omega == 55usize
        &&& self.tau == 49usize
    }

    pub open spec fn is_87(&self) -> bool {
        &&& self.k == 8usize
        &&& self.l == 7usize
        &&& self.eta == Eta::Two
        &&& self.gamma1 == 524288u32
        &&& self.gamma2 == 261888u32
        &&& self.lambda == 64usize
        &&& self.omega == 75usize
        &&& self.tau == 60usize
    }

    /// The parameter set of ML-DSA-44 (security category 2).
    pub fn ml_dsa_44() -> (p: ParameterSet)
        ensures
            p.is_44(),
            p.valid(),
    {
        ParameterSet {
            k: 4,
            l: 4,
            eta: Eta::Two,
            gamma1: 131072,
            gamma2: 95232,
            lambda: 32,
            omega: 80,
            tau: 39,
        }
    }

    /// The parameter set of ML-DSA-65 (security category 3).
    pub fn ml_dsa_65() -> (p: ParameterSet)
        ensures
            p.is_65(),
            p.valid(),
    {
        ParameterSet {
            k: 6,
            l: 5,
            eta: Eta::Four,
            gamma1: 524288,
            gamma2: 261888,
            lambda: 48,
            omega: 55,
            tau: 49,
        }
    }

    /// The parameter set of ML-DSA-87 (security category 5).
    pub fn ml_dsa_87() -> (p: ParameterSet)
        ensures
            p.is_87(),
            p.valid(),
    {
        ParameterSet {
            k: 8,
            l: 7,
            eta: Eta::Two,
            gamma1: 524288,
            gamma2: 261888,
            lambda: 64,
            omega: 75,
            tau: 60,
        }
    }

    /// beta = tau * eta, the margin subtracted from gamma1 and gamma2 in the
    /// rejection tests.
    pub open spec fn spec_beta(&self) -> int
        recommends
            self.valid(),
    {
        self.tau * self.eta.spec_value()
    }

    pub fn beta(&self) -> (r: u32)
        requires
            self.valid(),
        ensures
            r == self.spec_beta(),
    {
        (self.tau as u32) * self.eta.value()
    }

    /// Bit width of one secret coefficient in the encoded signing key:
    /// bitlen(2 * eta).
    pub open spec fn spec_eta_bits(&self) -> usize {
        match self.eta {
            Eta::Two => 3usize,
            Eta::Four => 4usize,
        }
    }

    pub fn eta_bits(&self) -> (r: usize)
        ensures
            r == self.spec_eta_bits(),
    {
        match self.eta {
            Eta::Two => 3,
            Eta::Four => 4,
        }
    }

    /// Bit width of one mask coefficient in the encoded signature:
    /// bitlen(2 * gamma1).
    pub open spec fn spec_gamma1_bits(&self) -> usize
        recommends
            self.valid(),
    {
        if self.gamma1 == 131072u32 {
            18usize
        } else {
            20usize
        }
    }

    pub fn gamma1_bits(&self) -> (r: usize)
        requires
            self.valid(),
        ensures
            r == self.spec_gamma1_bits(),
    {
        if self.gamma1 == 131072 {
            18
        } else {
            20
        }
    }

    /// Bit width of one w1 coefficient: bitlen((q - 1) / (2 * gamma2) - 1).
    pub open spec fn spec_w1_bits(&self) -> usize
        recommends
            self.valid(),
    {
        if self.gamma2 == 95232u32 {
            6usize
        } else {
            4usize
        }
    }

    pub fn w1_bits(&self) -> (r: usize)
        requires
            self.valid(),
        ensures
            r == self.spec_w1_bits(),
    {
        if self.gamma2 == 95232 {
            6
        } else {
            4
        }
    }

    /// (q - 1) / (2 * gamma2), the number of high-bits values.
    pub open spec fn spec_m(&self) -> u32
        recommends
            self.valid(),
    {
        if self.gamma2 == 95232u32 {
            44u32
        } else {
            16u32
        }
    }

    pub fn m(&self) -> (r: u32)
        requires
            self.valid(),
        ensures
            r == self.spec_m(),
            r * (2 * self.gamma2) == Q - 1,
    {
        if self.gamma2 == 95232 {
            44
        } else {
            16
        }
    }

    /// Byte length of the encoded signing key:
    /// 128 + 32 * bitlen(2 eta) * (k + l) + 32 * 13 * k.
    pub open spec fn spec_sk_size(&self) -> int
        recommends
            self.valid(),
    {
        128 + 32 * self.spec_eta_bits() * (self.k + self.l) + 416 * self.k
    }

    pub fn sk_size(&self) -> (r: usize)
        requires
            self.valid(),
        ensures
            r == self.spec_sk_size(),
    {
        let eb = self.eta_bits();
        assert(eb <= 4 && self.k + self.l <= 15 && self.k <= 8);
        assert(32 * eb * (self.k + self.l) <= 1920) by (nonlinear_arith)
            requires
                eb <= 4,
                self.k + self.l <= 15,
        ;
        128 + 32 * eb * (self.k + self.l) + 416 * self.k
    }

    /// Byte length of the encoded verification key: 32 + 320 * k.
    pub open spec fn spec_vk_size(&self) -> int
        recommends
            self.valid(),
    {
        32 + 320 * self.k
    }

    pub fn vk_size(&self) -> (r: usize)
        requires
            self.valid(),
        ensures
            r == self.spec_vk_size(),
    {
        32 + 320 * self.k
    }

    /// Byte length of the encoded signature:
    /// lambda + 32 * bitlen(2 gamma1) * l + omega + k.
    pub open spec fn spec_sig_size(&self) -> int
        recommends
            self.valid(),
    {
        self.lambda + 32 * self.spec_gamma1_bits() * self.l + self.omega + self.k
    }

    pub fn sig_size(&self) -> (r: usize)
        requires
            self.valid(),
        ensures
            r == self.spec_sig_size(),
    {
        self.lambda + 32 * self.gamma1_bits() * self.l + self.omega + self.k
    }
}

/// The derived sizes, written out for each of the three parameter sets, in
/// the grouping the encoders and decoders slice them with.
pub proof fn lemma_sizes(p: &ParameterSet)
    requires
        p.valid(),
    ensures
        p.spec_sk_size() == 128 + (p.l as int) * (32 * (p.spec_eta_bits() as int)) + (
        p.k as int) * (32 * (p.spec_eta_bits() as int)) + (p.k as int) * 416,
        p.spec_vk_size() == 32 + (p.k as int) * 320,
        p.spec_sig_size() == (p.lambda as int) + (p.l as int) * (32 * (
        p.spec_gamma1_bits() as int)) + (p.omega as int) + (p.k as int),
        p.spec_sk_size() == 2560 || p.spec_sk_size() == 4032 || p.spec_sk_size() == 4896,
        p.spec_vk_size() == 1312 || p.spec_vk_size() == 1952 || p.spec_vk_size() == 2592,
        p.spec_sig_size() == 2420 || p.spec_sig_size() == 3309 || p.spec_sig_size() == 4627,
        1 <= p.k <= 8,
        1 <= p.l <= 8,
        p.spec_beta() < p.gamma2,
        p.spec_beta() < p.gamma1,
{
    if p.is_44() {
        assert(p.spec_eta_bits() == 3 && p.spec_gamma1_bits() == 18);
        assert(32 * p.spec_eta_bits() * (p.k + p.l) == 768) by (nonlinear_arith)
            requires
                p.spec_eta_bits() == 3usize,
                p.k == 4usize,
                p.l == 4usize,
        ;
        assert((p.l as int) * (32 * (p.spec_eta_bits() as int)) == 384) by (nonlinear_arith)
            requires
                p.spec_eta_bits() == 3usize,
                p.l == 4usize,
        ;
        assert((p.k as int) * (32 * (p.spec_eta_bits() as int)) == 384) by (nonlinear_arith)
            requires
                p.spec_eta_bits() == 3usize,
                p.k == 4usize,
        ;
        assert(32 * p.spec_gamma1_bits() * p.l == 2304) by (nonlinear_arith)
            requires
                p.spec_gamma1_bits() == 18usize,
                p.l == 4usize,
        ;
        assert((p.l as int) * (32 * (p.spec_gamma1_bits() as int)) == 2304) by (nonlinear_arith)
            requires
                p.spec_gamma1_bits() == 18usize,
                p.l == 4usize,
        ;
        assert(p.tau * p.eta.spec_value() == 78) by (nonlinear_arith)
            requires
                p.tau == 39usize,
                p.eta.spec_value() == 2u32,
        ;
        assert(p.spec_sk_size() == 2560);
        assert(p.spec_vk_size() == 1312);
        assert(p.spec_sig_size() == 2420);
        assert(p.spec_beta() == 78);
    } else if p.is_65() {
        assert(p.spec_eta_bits() == 4 && p.spec_gamma1_bits() == 20);
        assert(32 * p.spec_eta_bits() * (p.k + p.l) == 1408) by (nonlinear_arith)
            requires
                p.spec_eta_bits() == 4usize,
                p.k == 6usize,
                p.l == 5usize,
        ;
        assert((p.l as int) * (32 * (p.spec_eta_bits() as int)) == 640) by (nonlinear_arith)
            requires
                p.spec_eta_bits() == 4usize,
                p.l == 5usize,
        ;
        assert((p.k as int) * (32 * (p.spec_eta_bits() as int)) == 768) by (nonlinear_arith)
            requires
                p.spec_eta_bits() == 4usize,
                p.k == 6usize,
        ;
        assert(32 * p.spec_gamma1_bits() * p.l == 3200) by (nonlinear_arith)
            requires
                p.spec_gamma1_bits() == 20usize,
                p.l == 5usize,
        ;
        assert((p.l as int) * (32 * (p.spec_gamma1_bits() as int)) == 3200) by (nonlinear_arith)
            requires
                p.spec_gamma1_bits() == 20usize,
                p.l == 5usize,
        ;
        assert(p.tau * p.eta.spec_value() == 196) by (nonlinear_arith)
            requires
                p.tau == 49usize,
                p.eta.spec_value() == 4u32,
        ;
        assert(p.spec_sk_size() == 4032);
        assert(p.spec_vk_size() == 1952);
        assert(p.spec_sig_size() == 3309);
        assert(p.spec_beta() == 196);
    } else {
        assert(p.spec_eta_bits() == 3 && p.spec_gamma1_bits() == 20);
        assert(32 * p.spec_eta_bits() * (p.k + p.l) == 1440) by (nonlinear_arith)
            requires
                p.spec_eta_bits() == 3usize,
                p.k == 8usize,
                p.l == 7usize,
        ;
        assert((p.l as int) * (32 * (p.spec_eta_bits() as int)) == 672) by (nonlinear_arith)
            requires
                p.spec_eta_bits() == 3usize,
                p.l == 7usize,
        ;
        assert((p.k as int) * (32 * (p.spec_eta_bits() as int)) == 768) by (nonlinear_arith)
            requires
                p.spec_eta_bits() == 3usize,
                p.k == 8usize,
        ;
        assert(32 * p.spec_gamma1_bits() * p.l == 4480) by (nonlinear_arith)
            requires
                p.spec_gamma1_bits() == 20usize,
                p.l == 7usize,
        ;
        assert((p.l as int) * (32 * (p.spec_gamma1_bits() as int)) == 4480) by (nonlinear_arith)
            requires
                p.spec_gamma1_bits() == 20usize,
                p.l == 7usize,
        ;
        assert(p.tau * p.eta.spec_value() == 120) by (nonlinear_arith)
            requires
                p.tau == 60usize,
                p.eta.spec_value() == 2u32,
        ;
        assert(p.spec_sk_size() == 4896);
        assert(p.spec_vk_size() == 2592);
        assert(p.spec_sig_size() == 4627);
        assert(p.spec_beta() == 120);
    }
}

} // verus!
