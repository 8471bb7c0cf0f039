//! High- and low-order bits, rounding and hints (FIPS 204 section 7.4,
//! Alg 35 to 40). `decompose` is branchless and selected by the parameter set,
//! so it stays constant-time on the secret coefficients that flow through it
//! during signing. `use_hint` works on public signature data only.

use vstd::prelude::*;

use crate::mldsa::modq;
use crate::mldsa::params::Q;
use crate::mldsa::poly;
use crate::mldsa::poly::Poly;
use crate::mldsa::reduce::full_reduce32;

verus! {

/// The rounding ranges of the two parameter sets.
pub open spec fn is_gamma2(g: int) -> bool {
    g == 95232 || g == 261888
}

/// The number of classes of high bits, (q - 1) / (2 * gamma2).
pub open spec fn classes(g: int) -> int {
    if g == 95232 {
        44
    } else {
        16
    }
}

/// `a` reduced modulo the even number `m`, centered: in (-m/2, m/2].
pub open spec fn mod_centered(a: int, m: int) -> int {
    if a % m > m / 2 {
        a % m - m
    } else {
        a % m
    }
}

/// Decompose (Alg 36) over the integers: the pair (r1, r0) with
/// r = r1 * 2 * gamma2 + r0 modulo q and r0 centered, the top class folded
/// onto class 0.
pub open spec fn decomposed(g: int, r: int) -> (int, int) {
    let rp = modq::res(r);
    let r0 = mod_centered(rp, 2 * g);
    if rp - r0 == 8380416 {
        (0, r0 - 1)
    } else {
        ((rp - r0) / (2 * g), r0)
    }
}

pub open spec fn high(g: int, r: int) -> int {
    decomposed(g, r).0
}

pub open spec fn low(g: int, r: int) -> int {
    decomposed(g, r).1
}

/// UseHint (Alg 40) over the integers.
pub open spec fn hinted(g: int, h: bool, r: int) -> int {
    let (r1, r0) = decomposed(g, r);
    if !h {
        r1
    } else if r0 > 0 {
        (r1 + 1) % classes(g)
    } else {
        (r1 - 1) % classes(g)
    }
}

/// The high part of Power2Round (Alg 35).
pub open spec fn p2r_high(r: int) -> int {
    (r - p2r_low(r)) / 8192
}

/// The low part of Power2Round (Alg 35), centered.
pub open spec fn p2r_low(r: int) -> int {
    mod_centered(r, 8192)
}

/// Splitting at 2^13 loses nothing.
pub proof fn lemma_power2round(r: int)
    requires
        0 <= r < 8380417,
    ensures
        r == p2r_high(r) * 8192 + p2r_low(r),
        -4096 < p2r_low(r) <= 4096,
        0 <= p2r_high(r) < 1024,
        p2r_high(r) == (r + 4095) / 8192,
{
}

/// Power2Round over a whole polynomial (Alg 35), the coefficients being in
/// [0, q). Returns the high and the low parts.
pub fn power2round(r: &Poly) -> (res: (Poly, Poly))
    requires
        poly::within(r@, 0, 8380416),
    ensures
        poly::within(res.0@, 0, 1023),
        poly::within(res.1@, -4095, 4096),
        forall|n: int| 0 <= n < 256 ==> #[trigger] res.0@[n] == p2r_high(r@[n]),
        forall|n: int| 0 <= n < 256 ==> #[trigger] res.1@[n] == p2r_low(r@[n]),
{
    let mut r1 = Poly::zero();
    let mut r0 = Poly::zero();
    let mut n: usize = 0;
    while n < 256
        invariant
            n <= 256,
            poly::within(r@, 0, 8380416),
            poly::within(r1@, 0, 1023),
            poly::within(r0@, -4095, 4096),
            forall|m: int| 0 <= m < n ==> #[trigger] r1@[m] == p2r_high(r@[m]),
            forall|m: int| 0 <= m < n ==> #[trigger] r0@[m] == p2r_low(r@[m]),
        decreases 256 - n,
    {
        let x: i32 = r.get(n);
        assert(0 <= r@[n as int] <= 8380416);
        let hi: i32 = (x + 4095) / 8192;
        proof {
            lemma_power2round(x as int);
        }
        r1.set(n, hi);
        r0.set(n, x - hi * 8192);
        n = n + 1;
    }
    (r1, r0)
}

/// Rounded division by 2 * gamma2, as a quotient of integers.
pub open spec fn rounded(g: int, rp: int) -> int {
    (rp + g - 1) / (2 * g)
}

pub proof fn lemma_decomposed(g: int, r: int)
    requires
        is_gamma2(g),
    ensures
        ({
            let rp = modq::res(r);
            let k = rounded(g, rp);
            &&& 0 <= k <= classes(g)
            &&& decomposed(g, r) == (if k == classes(g) {
                (0, rp - 8380417)
            } else {
                (k, rp - k * (2 * g))
            })
            &&& k == classes(g) ==> rp > 8380416 - g
            &&& k < classes(g) ==> -g < rp - k * (2 * g) <= g
        }),
{
    modq::lemma_res_range(r);
    let rp = modq::res(r);
    if g == 95232 {
        let e = rp % 190464;
        let k = rp / 190464 + (if e > 95232 { 1int } else { 0int });
        assert(2 * g == 190464);
        assert(rounded(g, rp) == k);
        assert(mod_centered(rp, 190464) == rp - 190464 * k);
        assert((rp - mod_centered(rp, 190464)) / 190464 == k);
        assert(k * (2 * g) == 190464 * k) by (nonlinear_arith)
            requires
                2 * g == 190464,
        ;
    } else {
        let e = rp % 523776;
        let k = rp / 523776 + (if e > 261888 { 1int } else { 0int });
        assert(2 * g == 523776);
        assert(rounded(g, rp) == k);
        assert(mod_centered(rp, 523776) == rp - 523776 * k);
        assert((rp - mod_centered(rp, 523776)) / 523776 == k);
        assert(k * (2 * g) == 523776 * k) by (nonlinear_arith)
            requires
                2 * g == 523776,
        ;
    }
}

/// Decompose (Alg 36): the pair (r1, r0) with r = r1 * 2 * gamma2 + r0 modulo
/// q and r0 centered.
pub fn decompose(gamma2: i32, r: i32) -> (res: (i32, i32))
    requires
        is_gamma2(gamma2 as int),
        r <= 2143289343,
    ensures
        res.0 == high(gamma2 as int, r as int),
        res.1 == low(gamma2 as int, r as int),
        0 <= res.0 < classes(gamma2 as int),
        -gamma2 <= res.1 <= gamma2,
        modq::cong(res.0 * (2 * gamma2) + res.1, r as int),
{
    let rp: i32 = full_reduce32(r);
    proof {
        lemma_decomposed(gamma2 as int, r as int);
        modq::lemma_res_range(r as int);
    }
    let u: i32 = (rp + 127) / 128;
    let mut r1: i32;
    if gamma2 == 95_232 {
        r1 = (u * 11_275 + 8_388_608) / 16_777_216;
        proof {
            let k = (u + 743) / 1488;
            assert(r1 == k);
            assert(k == (rp + 95231) / 190464);
            assert(((43 - r1) as i32 >> 31) & r1 == if r1 > 43 { r1 } else { 0i32 })
                by (bit_vector)
                requires
                    0 <= r1 <= 44,
            ;
            assert(r1 ^ r1 == 0 && r1 ^ 0i32 == r1) by (bit_vector);
        }
        r1 = r1 ^ (((43 - r1) >> 31) & r1);
    } else {
        r1 = (u * 1025 + 2_097_152) / 4_194_304;
        proof {
            let k = (u + 2045) / 4092;
            assert(r1 == k);
            assert(k == (rp + 261887) / 523776);
            assert(r1 & 15 == if r1 == 16 { 0i32 } else { r1 }) by (bit_vector)
                requires
                    0 <= r1 <= 16,
            ;
        }
        r1 = r1 & 15;
    }
    let d: i32 = rp - r1 * 2 * gamma2;
    let over: i32 = 4_190_208 - d;
    proof {
        assert((over >> 31) & 8380417i32 == if over < 0 { 8380417i32 } else { 0i32 })
            by (bit_vector);
    }
    let r0: i32 = d - ((over >> 31) & Q);
    proof {
        assert(r1 * 2 * gamma2 == r1 * (2 * gamma2)) by (nonlinear_arith);
        let k = rounded(gamma2 as int, rp as int);
        assert(k < classes(gamma2 as int) ==> r1 == k);
        assert(k == classes(gamma2 as int) ==> r1 == 0 && r1 * (2 * gamma2) == 0);
        let s = r1 * (2 * gamma2) + r0;
        if over < 0 {
            modq::lemma_cong_multiple(s, rp as int, -1);
        }
        assert(modq::cong(s, rp as int));
        modq::lemma_res_range(r as int);
    }
    (r1, r0)
}

/// HighBits (Alg 37): the `r1` component of `decompose`.
pub fn high_bits(gamma2: i32, r: i32) -> (r1: i32)
    requires
        is_gamma2(gamma2 as int),
        r <= 2143289343,
    ensures
        r1 == high(gamma2 as int, r as int),
        0 <= r1 < classes(gamma2 as int),
{
    decompose(gamma2, r).0
}

/// LowBits (Alg 38): the `r0` component of `decompose`.
pub fn low_bits(gamma2: i32, r: i32) -> (r0: i32)
    requires
        is_gamma2(gamma2 as int),
        r <= 2143289343,
    ensures
        r0 == low(gamma2 as int, r as int),
        -gamma2 <= r0 <= gamma2,
{
    decompose(gamma2, r).1
}

/// MakeHint (Alg 39): does adding `z` to `r` change the high bits of `r`?
pub fn make_hint(gamma2: i32, z: i32, r: i32) -> (h: bool)
    requires
        is_gamma2(gamma2 as int),
        r <= 2143289343,
        -2147483648 <= r + z <= 2143289343,
    ensures
        h == (high(gamma2 as int, r as int) != high(gamma2 as int, r + z)),
{
    high_bits(gamma2, r) != high_bits(gamma2, r + z)
}

/// UseHint (Alg 40): the high bits of `r` adjusted by the hint `h`.
pub fn use_hint(gamma2: i32, h: i32, r: i32) -> (r1: i32)
    requires
        is_gamma2(gamma2 as int),
        r <= 2143289343,
    ensures
        r1 == hinted(gamma2 as int, h != 0, r as int),
        0 <= r1 < classes(gamma2 as int),
{
    let (r1, r0) = decompose(gamma2, r);
    if h == 0 {
        return r1;
    }
    let top: i32 = if gamma2 == 95_232 {
        43
    } else {
        15
    };
    if r0 > 0 {
        if r1 == top {
            0
        } else {
            r1 + 1
        }
    } else if r1 == 0 {
        top
    } else {
        r1 - 1
    }
}

/// The hint law for gamma2 = 95232, over canonical residues `rp` of r and `sp`
/// of r + z.
proof fn lemma_hint_44(rp: int, sp: int, z: int, a: int, b: int)
    requires
        0 <= rp < 8380417,
        0 <= sp < 8380417,
        -95232 <= z <= 95232,
        sp == rp + z || sp == rp + z - 8380417 || sp == rp + z + 8380417,
        190464 * a - 95231 <= rp <= 190464 * a + 95232,
        190464 * b - 95231 <= sp <= 190464 * b + 95232,
    ensures
        ({
            let hr = if a == 44 { 0 } else { a };
            let lr = if a == 44 { rp - 8380417 } else { rp - 190464 * a };
            let hs = if b == 44 { 0 } else { b };
            hs == (if hr == hs {
                hr
            } else if lr > 0 {
                (hr + 1) % 44
            } else {
                (hr - 1) % 44
            })
        }),
{
    assert(0 <= a <= 44 && 0 <= b <= 44);
    if sp == rp + z {
        assert(a - 1 <= b <= a + 1);
    } else if sp == rp + z - 8380417 {
        assert(b == 0 && a >= 43);
    } else {
        assert(a == 0 && b >= 43);
    }
}

/// The hint law for gamma2 = 261888, over canonical residues `rp` of r and `sp`
/// of r + z.
proof fn lemma_hint_65(rp: int, sp: int, z: int, a: int, b: int)
    requires
        0 <= rp < 8380417,
        0 <= sp < 8380417,
        -261888 <= z <= 261888,
        sp == rp + z || sp == rp + z - 8380417 || sp == rp + z + 8380417,
        523776 * a - 261887 <= rp <= 523776 * a + 261888,
        523776 * b - 261887 <= sp <= 523776 * b + 261888,
    ensures
        ({
            let hr = if a == 16 { 0 } else { a };
            let lr = if a == 16 { rp - 8380417 } else { rp - 523776 * a };
            let hs = if b == 16 { 0 } else { b };
            hs == (if hr == hs {
                hr
            } else if lr > 0 {
                (hr + 1) % 16
            } else {
                (hr - 1) % 16
            })
        }),
{
    assert(0 <= a <= 16 && 0 <= b <= 16);
    if sp == rp + z {
        assert(a - 1 <= b <= a + 1);
    } else if sp == rp + z - 8380417 {
        assert(b == 0 && a >= 15);
    } else {
        assert(a == 0 && b >= 15);
    }
}

/// The hint recovers the high bits of the sum: applying to `r` the hint made
/// from a correction `z` of at most gamma2 gives the high bits of `r + z`.
pub proof fn law_hint_recovers_high_bits(g: int, z: int, r: int)
    requires
        is_gamma2(g),
        -g <= z <= g,
    ensures
        hinted(g, high(g, r) != high(g, r + z), r) == high(g, r + z),
{
    lemma_decomposed(g, r);
    lemma_decomposed(g, r + z);
    modq::lemma_res_range(r);
    modq::lemma_res_range(r + z);
    let rp = modq::res(r);
    let sp = modq::res(r + z);
    modq::lemma_cong_add(rp, r, z, z);
    modq::lemma_res_range(rp + z);
    assert(sp == rp + z || sp == rp + z - 8380417 || sp == rp + z + 8380417) by {
        reveal(modq::res);
    }
    let a = rounded(g, rp);
    let b = rounded(g, sp);
    if g == 95232 {
        assert(a == (rp + 95231) / 190464 && b == (sp + 95231) / 190464);
        assert(a * (2 * g) == 190464 * a) by (nonlinear_arith)
            requires
                g == 95232,
        ;
        lemma_hint_44(rp, sp, z, a, b);
    } else {
        assert(a == (rp + 261887) / 523776 && b == (sp + 261887) / 523776);
        assert(a * (2 * g) == 523776 * a) by (nonlinear_arith)
            requires
                g == 261888,
        ;
        lemma_hint_65(rp, sp, z, a, b);
    }
}

/// The two parts give back the value: r is r1 * 2 * gamma2 + r0 modulo q, with
/// |r0| at most gamma2.
pub proof fn law_decompose_reconstructs(g: int, r: int)
    requires
        is_gamma2(g),
    ensures
        modq::cong(high(g, r) * (2 * g) + low(g, r), r),
        -g <= low(g, r) <= g,
        0 <= high(g, r) < classes(g),
{
    lemma_decomposed(g, r);
    modq::lemma_res_range(r);
    let rp = modq::res(r);
    if rounded(g, rp) == classes(g) {
        modq::lemma_cong_multiple(rp - 8380417, rp, -1);
    }
}

}
