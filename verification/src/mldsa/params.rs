//! FIPS 204 domain constants and the per-parameter-set scalars of ML-DSA-44 and
//! ML-DSA-65.

use vstd::prelude::*;

verus! {

/// Modulus q = 2^23 - 2^13 + 1 (FIPS 204 Table 1).
pub const Q: i32 = 8_380_417;

/// The 512th root of unity behind the NTT twiddle table (section 2.5).
pub const ZETA: i32 = 1753;

/// Number of low bits of t dropped by `power2round` (Table 1).
pub const D: u32 = 13;

/// Coefficients per polynomial (ring R_q = Z_q[X]/(X^256+1)).
pub const N: usize = 256;

/// Length of the key-generation seed and of the per-signature hedge value.
pub const SEED_LEN: usize = 32;

/// The scalar parameters that tell the ML-DSA parameter sets apart.
#[derive(Clone, Copy, PartialEq, Eq, Structural)]
pub struct Params {
    /// Rows of A, the length of the t and s2 vectors.
    pub k: usize,
    /// Columns of A, the length of the s1, y and z vectors.
    pub l: usize,
    /// Secret-coefficient bound, 2 or 4.
    pub eta: i32,
    /// Mask bound (a power of two).
    pub gamma1: i32,
    /// Low-order rounding range.
    pub gamma2: i32,
    /// Hamming weight of the challenge polynomial c.
    pub tau: i32,
    /// Maximum number of ones in the hint h.
    pub omega: i32,
    /// Validity margin, tau * eta.
    pub beta: i32,
    /// The byte length of the commitment hash (lambda / 4).
    pub lambda_div4: usize,
    /// Encoded public-key length.
    pub pk_len: usize,
    /// Encoded signature length.
    pub sig_len: usize,
    /// Length of the encoded w1 vector.
    pub w1_len: usize,
}

/// ML-DSA-44 (COSE -48), NIST category 2.
pub open spec fn spec_ml_dsa_44() -> Params {
    Params {
        k: 4,
        l: 4,
        eta: 2,
        gamma1: 131_072,
        gamma2: 95_232,
        tau: 39,
        omega: 80,
        beta: 78,
        lambda_div4: 32,
        pk_len: 1312,
        sig_len: 2420,
        w1_len: 768,
    }
}

/// ML-DSA-44 (COSE -48), NIST category 2.
#[verifier::when_used_as_spec(spec_ml_dsa_44)]
pub fn ml_dsa_44() -> (p: Params)
    ensures
        p == spec_ml_dsa_44(),
{
    Params {
        k: 4,
        l: 4,
        eta: 2,
        gamma1: 131_072,
        gamma2: 95_232,
        tau: 39,
        omega: 80,
        beta: 78,
        lambda_div4: 32,
        pk_len: 1312,
        sig_len: 2420,
        w1_len: 768,
    }
}

/// ML-DSA-65 (COSE -49), NIST category 3.
pub open spec fn spec_ml_dsa_65() -> Params {
    Params {
        k: 6,
        l: 5,
        eta: 4,
        gamma1: 524_288,
        gamma2: 261_888,
        tau: 49,
        omega: 55,
        beta: 196,
        lambda_div4: 48,
        pk_len: 1952,
        sig_len: 3309,
        w1_len: 768,
    }
}

/// ML-DSA-65 (COSE -49), NIST category 3.
#[verifier::when_used_as_spec(spec_ml_dsa_65)]
pub fn ml_dsa_65() -> (p: Params)
    ensures
        p == spec_ml_dsa_65(),
{
    Params {
        k: 6,
        l: 5,
        eta: 4,
        gamma1: 524_288,
        gamma2: 261_888,
        tau: 49,
        omega: 55,
        beta: 196,
        lambda_div4: 48,
        pk_len: 1952,
        sig_len: 3309,
        w1_len: 768,
    }
}

/// The parameter sets of this library.
pub open spec fn supported(p: Params) -> bool {
    p == ml_dsa_44() || p == ml_dsa_65()
}

/// How the numbers of a parameter set hang together: the bound on c * s, the
/// rounding range as a divisor of q - 1, the mask bound as a power of two, and the
/// lengths of keys and signatures.
pub proof fn law_parameters(p: Params)
    requires
        supported(p),
    ensures
        p.beta == p.tau * p.eta,
        p.gamma2 * (if p == ml_dsa_44() {
            88int
        } else {
            32int
        }) == 8380416,
        p.gamma1 == 131_072 || p.gamma1 == 524_288,
        p.pk_len == 32 + 320 * p.k,
        p.sig_len == p.lambda_div4 + 32 * p.l * (if p.gamma1 == 131_072 {
            18int
        } else {
            20int
        }) + p.omega + p.k,
        p == ml_dsa_44() ==> p.k == 4 && p.l == 4 && p.eta == 2 && p.tau == 39 && p.lambda_div4
            == 32 && p.omega == 80,
        p == ml_dsa_65() ==> p.k == 6 && p.l == 5 && p.eta == 4 && p.tau == 49 && p.lambda_div4
            == 48 && p.omega == 55,
{
}

}
