//! Arithmetic modulo q, the statements that the other modules rest on.

use vstd::arithmetic::div_mod::*;
use vstd::arithmetic::power::*;
use vstd::prelude::*;

verus! {

/// The canonical residue of `a` modulo q, in [0, q).
#[verifier::opaque]
pub open spec fn res(a: int) -> int {
    a % 8380417
}

/// `a` and `b` are congruent modulo q.
pub open spec fn cong(a: int, b: int) -> bool {
    res(a) == res(b)
}

pub proof fn lemma_res_range(a: int)
    ensures
        0 <= res(a) < 8380417,
        res(res(a)) == res(a),
        0 <= a < 8380417 ==> res(a) == a,
        -8380417 <= a < 0 ==> res(a) == a + 8380417,
        exists|k: int| a == res(a) + #[trigger] (8380417 * k),
{
    reveal(res);
    assert(a == res(a) + 8380417 * (a / 8380417));
}

/// Congruence means that the difference is a multiple of q.
pub proof fn lemma_cong_multiple(a: int, b: int, k: int)
    requires
        a == b + 8380417 * k,
    ensures
        cong(a, b),
{
    reveal(res);
}

pub proof fn lemma_cong_add(a: int, b: int, c: int, d: int)
    requires
        cong(a, b),
        cong(c, d),
    ensures
        cong(a + c, b + d),
{
    reveal(res);
}

pub proof fn lemma_cong_sub(a: int, b: int, c: int, d: int)
    requires
        cong(a, b),
        cong(c, d),
    ensures
        cong(a - c, b - d),
{
    reveal(res);
}

pub proof fn lemma_cong_mul(a: int, b: int, c: int, d: int)
    requires
        cong(a, b),
        cong(c, d),
    ensures
        cong(a * c, b * d),
{
    reveal(res);
    lemma_mul_mod_noop(a, c, 8380417);
    lemma_mul_mod_noop(b, d, 8380417);
}

pub proof fn lemma_cong_pow(a: int, b: int, e: nat)
    requires
        cong(a, b),
    ensures
        cong(pow(a, e), pow(b, e)),
    decreases e,
{
    reveal(pow);
    if e > 0 {
        lemma_cong_pow(a, b, (e - 1) as nat);
        lemma_cong_mul(a, b, pow(a, (e - 1) as nat), pow(b, (e - 1) as nat));
    }
}

/// A factor that has an inverse modulo q can be cancelled.
pub proof fn lemma_cong_cancel(c: int, inv: int, a: int, b: int)
    requires
        cong(c * inv, 1),
        cong(c * a, c * b),
    ensures
        cong(a, b),
{
    lemma_cong_mul(c * a, c * b, inv, inv);
    lemma_cong_mul(c * inv, 1, a, a);
    lemma_cong_mul(c * inv, 1, b, b);
    assert((c * a) * inv == (c * inv) * a) by (nonlinear_arith);
    assert((c * b) * inv == (c * inv) * b) by (nonlinear_arith);
}

/// Multiplication by 2^32 can be cancelled modulo q.
pub proof fn lemma_cong_cancel_r(a: int, b: int)
    requires
        cong(a * 4294967296, b * 4294967296),
    ensures
        cong(a, b),
{
    assert(cong(4294967296int * 8265825int, 1)) by {
        reveal(res);
    }
    lemma_cong_cancel(4294967296, 8265825, a, b);
}

}
