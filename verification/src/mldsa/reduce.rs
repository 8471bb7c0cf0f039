//! Modular reduction over q (FIPS 204 section 7.5 helpers). All routines are
//! branch-free straight-line arithmetic: the conditional subtractions are
//! masked, so they stay constant-time on secret coefficients.

use vstd::prelude::*;

use crate::mldsa::modq;
use crate::mldsa::params::Q;
use crate::mldsa::poly;
use crate::mldsa::poly::Poly;

verus! {

proof fn lemma_shr_i64(x: i64, k: u32) -> (d: int)
    requires
        k == 23 || k == 32 || k == 48,
    ensures
        k == 23 ==> x == (x >> k) * 8388608 + d && 0 <= d < 8388608,
        k == 32 ==> x == (x >> k) * 4294967296 + d && 0 <= d < 4294967296,
        k == 48 ==> x == (x >> k) * 281474976710656 + d && 0 <= d < 281474976710656,
{
    assert(k == 23 ==> x == (x >> k) * 8388608 + (x & 8388607) && 0 <= (x & 8388607) < 8388608)
        by (bit_vector);
    assert(k == 32 ==> x == (x >> k) * 4294967296 + (x & 4294967295) && 0 <= (x & 4294967295)
        < 4294967296) by (bit_vector);
    assert(k == 48 ==> x == (x >> k) * 281474976710656 + (x & 281474976710655) && 0 <= (x
        & 281474976710655) < 281474976710656) by (bit_vector);
    if k == 23 {
        (x & 8388607) as int
    } else if k == 32 {
        (x & 4294967295) as int
    } else {
        (x & 281474976710655) as int
    }
}

/// Keeping the low 32 bits of a 64-bit value changes it by a multiple of 2^32.
proof fn lemma_low_i32(a: i64) -> (k: int)
    ensures
        (a as i32) as int == a + 4294967296 * k,
{
    let lo = a as i32;
    assert(lo as i64 == a - (a >> 32) * 4294967296 || lo as i64 == a - (a >> 32) * 4294967296
        - 4294967296) by (bit_vector)
        requires
            lo == a as i32,
    ;
    if lo as int == a - (a >> 32) * 4294967296 {
        -(a >> 32)
    } else {
        -(a >> 32) - 1
    }
}

/// Montgomery reduction (FIPS 204 Alg 49): `a * 2^-32 mod q` in (-q, q), the
/// multiple of 2^32 in the class of `a` that is nearest to `a`. The upper end
/// 2^31 * q, whose nearest multiple is q, gives 0.
pub fn mont_reduce(a: i64) -> (r: i32)
    requires
        -17996808470921216 <= a <= 17996808470921216,
    ensures
        -8380417 < r < 8380417,
        modq::cong(r * 4294967296, a as int),
        -17996808470921216 <= a - r * 4294967296 <= 17996808470921216,
        a == 0 || a == 17996808470921216 ==> r == 0,
{
    let lo: i32 = a as i32;
    let t: i32 = lo.wrapping_mul(58_728_449);
    let u: i64 = a - (t as i64) * 8_380_417;
    let r: i64 = u >> 32;
    proof {
        let k0 = lemma_low_i32(a);
        let d = lemma_shr_i64(u, 32);
        let p = lo * 58_728_449;
        let k1 = lemma_wrap(lo, 58_728_449i32);
        assert(t as int == p + 4294967296 * k1);
        // t * q = (a + 2^32 k0) * qinv * q + 2^32 k1 q, and qinv * q = 1 + 2^32 * 114592
        assert(58_728_449int * 8_380_417int == 1 + 4294967296int * 114592int);
        assert(t * 8_380_417 == a + 4294967296 * (k0 + (a + 4294967296 * k0) * 114592 + k1
            * 8380417)) by (nonlinear_arith)
            requires
                t as int == lo * 58_728_449 + 4294967296 * k1,
                lo as int == a + 4294967296 * k0,
        ;
        let m = k0 + (a + 4294967296 * k0) * 114592 + k1 * 8380417;
        assert(u == -4294967296 * m);
        assert(r == -m);
        modq::lemma_cong_multiple(r * 4294967296, a as int, -(t as int));
        if r == 8380417 {
            modq::lemma_cong_multiple(0, r * 4294967296, -4294967296);
            assert(a == 17996808470921216);
        }
        if a == 0 {
            assert(lo == 0);
            assert(r == 0);
        }
    }
    let r: i32 = r as i32;
    proof {
        let over: i32 = (8_380_416 - r) as i32;
        assert((over >> 31) & 8_380_417i32 == if over < 0 {
            8_380_417i32
        } else {
            0i32
        }) by (bit_vector);
    }
    r - (((Q - 1 - r) >> 31) & Q)
}

/// Wrapping multiplication changes the product by a multiple of 2^32.
proof fn lemma_wrap(x: i32, y: i32) -> (k: int)
    ensures
        x.wrapping_mul(y) as int == x * y + 4294967296 * k,
{
    let p: int = x * y;
    assert(-4611686018427387904 <= p <= 4611686018427387904) by (nonlinear_arith)
        requires
            p == x * y,
            -2147483648 <= x <= 2147483647,
            -2147483648 <= y <= 2147483647,
    ;
    let w = p as i64;
    lemma_low_i32(w)
}

/// Partial reduction of a signed 32-bit value: result within (-q, q).
pub fn partial_reduce32(a: i32) -> (r: i32)
    requires
        a <= 2143289343,
    ensures
        r == a - ((a + 4194304) / 8388608) * 8380417,
        -8380417 < r < 8380417,
        modq::cong(r as int, a as int),
{
    let b: i32 = a + 4194304;
    let x: i32 = b >> 23;
    proof {
        assert(b == x * 8388608 + (b & 8388607) && 0 <= (b & 8388607) < 8388608) by (bit_vector)
            requires
                x == b >> 23,
        ;
        modq::lemma_cong_multiple(a - x * 8380417, a as int, -(x as int));
    }
    a - x * Q
}

/// Full reduction to the canonical range [0, q).
pub fn full_reduce32(a: i32) -> (r: i32)
    requires
        a <= 2143289343,
    ensures
        r == modq::res(a as int),
        0 <= r < 8380417,
{
    let x: i32 = partial_reduce32(a);
    proof {
        assert((x >> 31) & 8380417i32 == if x < 0 { 8380417i32 } else { 0i32 }) by (bit_vector);
        modq::lemma_res_range(x as int);
        modq::lemma_res_range(a as int);
    }
    x + ((x >> 31) & Q)
}

/// Partial Barrett reduction of a 64-bit product to (-2q, 2q). The bound on
/// `a` is what keeps the Barrett product inside 64 bits.
pub fn partial_reduce64(a: i64) -> (r: i32)
    requires
        -288000000000000000 <= a <= 288000000000000000,
    ensures
        -16760834 < r < 16760834,
        modq::cong(r as int, a as int),
{
    let x0: i64 = a >> 23;
    proof {
        let d = lemma_shr_i64(a, 23);
    }
    let a1: i64 = a - x0 * 8_380_417;
    let x1: i64 = a1 >> 23;
    proof {
        let d = lemma_shr_i64(a1, 23);
    }
    let a2: i64 = a1 - x1 * 8_380_417;
    let q: i64 = (a2 * 33_587_228) >> 48;
    proof {
        let d = lemma_shr_i64((a2 * 33_587_228) as i64, 48);
        modq::lemma_cong_multiple(
            a2 - q * 8380417,
            a as int,
            -(x0 as int) - (x1 as int) - (q as int),
        );
    }
    (a2 - q * 8_380_417) as i32
}

/// Centered reduction modulo q into (-q/2, q/2].
pub fn center_mod(m: i32) -> (r: i32)
    requires
        m <= 2143289343,
    ensures
        -4190208 <= r <= 4190208,
        modq::cong(r as int, m as int),
{
    let t: i32 = full_reduce32(m);
    let over2: i32 = 4_190_208 - t;
    proof {
        assert((over2 >> 31) & 8380417i32 == if over2 < 0 { 8380417i32 } else { 0i32 })
            by (bit_vector);
        modq::lemma_res_range(m as int);
        modq::lemma_cong_multiple(t - 8380417, t as int, -1);
    }
    t - ((over2 >> 31) & Q)
}

/// Lift a polynomial into the Montgomery domain: coefficient n of the result
/// is `a[n] * 2^32` modulo q.
pub fn to_mont(a: &Poly) -> (out: Poly)
    requires
        poly::within(a@, -67000000, 67000000),
    ensures
        poly::within(out@, -16760833, 16760833),
        forall|n: int| 0 <= n < 256 ==> modq::cong(#[trigger] out@[n], a@[n] * 4294967296),
{
    let mut out = Poly::zero();
    let mut n: usize = 0;
    while n < 256
        invariant
            n <= 256,
            poly::within(a@, -67000000, 67000000),
            poly::within(out@, -16760833, 16760833),
            forall|m: int| 0 <= m < n ==> modq::cong(#[trigger] out@[m], a@[m] * 4294967296),
        decreases 256 - n,
    {
        out.set(n, partial_reduce64((a.get(n) as i64) * 4_294_967_296));
        n = n + 1;
    }
    out
}

}
