//! Key generation, signing and verification (FIPS 204, Alg 6 to 8). The matrix
//! is streamed, never held, and every transform of one polynomial runs in
//! place.
//!
//! The message representative follows the pure (non-prehash) profile,
//! `mu = H(tr || 0x00 || |ctx| || ctx || M)`. The COSE and WebAuthn profile
//! passes an empty context.

use vstd::prelude::*;

use crate::mldsa::encode;
use crate::mldsa::encode::{pk_decode, pk_encode, sig_decode, sig_encode, w1_encode};
use crate::mldsa::modq;
use crate::mldsa::ntt::{inv_ntt_inplace, ntt_inplace};
use crate::mldsa::pack;
use crate::mldsa::params;
use crate::mldsa::params::Params;
use crate::mldsa::poly;
use crate::mldsa::poly::{pointwise_mont, Poly};
use crate::mldsa::reduce::{center_mod, full_reduce32, mont_reduce, partial_reduce32, to_mont};
use crate::mldsa::ring;
use crate::mldsa::round;
use crate::mldsa::round::{high_bits, low_bits, make_hint, power2round, use_hint};
use crate::mldsa::sample;
use crate::mldsa::sample::{expand_mask, expand_s, matrix_mul_streaming, sample_in_ball};
use crate::mldsa::scheme;
use crate::mldsa::scheme::KeyData;
use crate::mldsa::xof;
use crate::mldsa::xof::shake256;
use crate::mldsa::Error;
use crate::sdk::same_bytes;
use crate::wipe::wipe;

verus! {

/// `m` is `h` lifted into Montgomery form.
pub open spec fn lifted(m: Seq<int>, h: Seq<int>) -> bool {
    forall|n: int| 0 <= n < 256 ==> modq::cong(#[trigger] m[n], h[n] * 4294967296)
}

/// The residues of which `m` is the Montgomery form.
pub open spec fn unlifted(m: Seq<int>) -> Seq<int> {
    Seq::new(256, |n: int| modq::res(m[n] * 8265825))
}

proof fn lemma_unlifted(m: Seq<int>, h: Seq<int>)
    requires
        m.len() == 256,
    ensures
        lifted(m, unlifted(m)),
        lifted(m, h) && h.len() == 256 && poly::within(h, 0, 8380416) ==> unlifted(m) == h,
{
    let u = unlifted(m);
    assert(modq::cong(8265825int * 4294967296int, 1)) by {
        reveal(modq::res);
    }
    assert forall|n: int| 0 <= n < 256 implies modq::cong(#[trigger] m[n], u[n] * 4294967296) by {
        modq::lemma_res_range(m[n] * 8265825);
        modq::lemma_cong_mul(u[n], m[n] * 8265825, 4294967296, 4294967296);
        modq::lemma_cong_mul(m[n], m[n], 8265825int * 4294967296int, 1);
        assert((m[n] * 8265825) * 4294967296 == m[n] * (8265825int * 4294967296int))
            by (nonlinear_arith);
    }
    if lifted(m, h) && h.len() == 256 && poly::within(h, 0, 8380416) {
        assert forall|n: int| 0 <= n < 256 implies u[n] == h[n] by {
            assert(modq::cong(m[n], h[n] * 4294967296));
            assert(modq::cong(m[n], u[n] * 4294967296));
            modq::lemma_cong_cancel_r(u[n], h[n]);
            modq::lemma_res_range(m[n] * 8265825);
            modq::lemma_res_range(h[n]);
            modq::lemma_res_range(u[n]);
        }
        assert(u =~= h);
    }
}

/// The inverse transform depends on the residues only.
proof fn lemma_inv_cong(a: Seq<int>, b: Seq<int>)
    requires
        ring::pcong(a, b),
    ensures
        ring::inv_ntt(a) == ring::inv_ntt(b),
{
    ring::lemma_inv_layers_cong(a, b, 1);
    assert forall|n: int| 0 <= n < 256 implies ring::inv_ntt(a)[n] == ring::inv_ntt(b)[n] by {
        let x = ring::inv_layers(a, 1)[n];
        let y = ring::inv_layers(b, 1)[n];
        modq::lemma_cong_mul(8347681, 8347681, x, y);
    }
    assert(ring::inv_ntt(a) =~= ring::inv_ntt(b));
}

proof fn lemma_row_dot_cong(
    rho: Seq<u8>,
    u: Seq<Seq<int>>,
    v: Seq<Seq<int>>,
    i: int,
    n: int,
    j: nat,
)
    requires
        0 <= n < 256,
        forall|x: int| 0 <= x < j ==> ring::pcong(#[trigger] u[x], v[x]),
    ensures
        modq::cong(sample::row_dot(rho, u, i, n, j), sample::row_dot(rho, v, i, n, j)),
    decreases j,
{
    if j > 0 {
        let m = (j - 1) as nat;
        lemma_row_dot_cong(rho, u, v, i, n, m);
        let a = (sample::matrix_entry(rho, m as u8, i as u8)->0)[n];
        assert(ring::pcong(u[m as int], v[m as int]));
        modq::lemma_cong_mul(a, a, u[m as int][n], v[m as int][n]);
        modq::lemma_cong_add(
            sample::row_dot(rho, u, i, n, m),
            sample::row_dot(rho, v, i, n, m),
            a * u[m as int][n],
            a * v[m as int][n],
        );
    }
}

/// NTT of each element of a vector.
fn ntt_vec(v: &Vec<Poly>) -> (r: Vec<Poly>)
    requires
        forall|i: int| 0 <= i < v@.len() ==> poly::within((#[trigger] v@[i])@, -8380417, 8380417),
    ensures
        r@.len() == v@.len(),
        forall|i: int|
            0 <= i < v@.len() ==> poly::within((#[trigger] r@[i])@, -42950665, 42950665)
                && ring::pcong(r@[i]@, ring::ntt(v@[i]@)),
{
    let mut r: Vec<Poly> = Vec::with_capacity(v.len());
    let mut i: usize = 0;
    while i < v.len()
        invariant
            i <= v@.len(),
            r@.len() == i,
            forall|x: int|
                0 <= x < v@.len() ==> poly::within((#[trigger] v@[x])@, -8380417, 8380417),
            forall|x: int|
                0 <= x < i ==> poly::within((#[trigger] r@[x])@, -42950665, 42950665)
                    && ring::pcong(r@[x]@, ring::ntt(v@[x]@)),
        decreases v@.len() - i,
    {
        let mut p: Poly = v[i].clone();
        assert(poly::within(v@[i as int]@, -8380417, 8380417));
        assert(poly::within(p@, -2080440311, 2080440311)) by {
            assert forall|n: int| 0 <= n < 256 implies -2080440311 <= #[trigger] p@[n]
                <= 2080440311 by {
                assert(-8380417 <= v@[i as int]@[n] <= 8380417);
            }
        }
        ntt_inplace(&mut p);
        r.push(p);
        i = i + 1;
    }
    r
}

/// Lift of each element of a vector into the Montgomery domain.
fn to_mont_vec(v: &Vec<Poly>) -> (r: Vec<Poly>)
    requires
        forall|i: int|
            0 <= i < v@.len() ==> poly::within((#[trigger] v@[i])@, -67000000, 67000000),
    ensures
        r@.len() == v@.len(),
        forall|i: int|
            0 <= i < v@.len() ==> poly::within((#[trigger] r@[i])@, -16760833, 16760833)
                && lifted(r@[i]@, v@[i]@),
{
    let mut r: Vec<Poly> = Vec::with_capacity(v.len());
    let mut i: usize = 0;
    while i < v.len()
        invariant
            i <= v@.len(),
            r@.len() == i,
            forall|x: int|
                0 <= x < v@.len() ==> poly::within((#[trigger] v@[x])@, -67000000, 67000000),
            forall|x: int|
                0 <= x < i ==> poly::within((#[trigger] r@[x])@, -16760833, 16760833) && lifted(
                    r@[x]@,
                    v@[x]@,
                ),
        decreases v@.len() - i,
    {
        assert(poly::within(v@[i as int]@, -67000000, 67000000));
        r.push(to_mont(&v[i]));
        i = i + 1;
    }
    r
}

/// The transforms of a vector in Montgomery form, for multiplication.
fn hat_mont(v: &Vec<Poly>) -> (r: Vec<Poly>)
    requires
        forall|i: int| 0 <= i < v@.len() ==> poly::within((#[trigger] v@[i])@, -8380417, 8380417),
    ensures
        r@.len() == v@.len(),
        forall|i: int|
            0 <= i < v@.len() ==> poly::within((#[trigger] r@[i])@, -16760833, 16760833)
                && unlifted(r@[i]@) == ring::ntt(v@[i]@) && lifted(r@[i]@, ring::ntt(v@[i]@)),
{
    let t = ntt_vec(v);
    assert forall|i: int| 0 <= i < t@.len() implies poly::within(
        (#[trigger] t@[i])@,
        -67000000,
        67000000,
    ) by {
        assert(poly::within(t@[i]@, -42950665, 42950665));
    }
    let r = to_mont_vec(&t);
    proof {
        assert forall|i: int| 0 <= i < v@.len() implies unlifted((#[trigger] r@[i])@) == ring::ntt(
            v@[i]@,
        ) && lifted(r@[i]@, ring::ntt(v@[i]@)) by {
            let h = ring::ntt(v@[i]@);
            assert(lifted(r@[i]@, t@[i]@));
            assert(ring::pcong(t@[i]@, h));
            assert forall|n: int| 0 <= n < 256 implies modq::cong(
                #[trigger] r@[i]@[n],
                h[n] * 4294967296,
            ) by {
                modq::lemma_cong_mul(t@[i]@[n], h[n], 4294967296, 4294967296);
            }
            assert forall|n: int| 0 <= n < 256 implies 0 <= #[trigger] h[n] <= 8380416 by {
                modq::lemma_res_range(ring::eval(v@[i]@, ring::ntt_point(n)));
            }
            lemma_unlifted(r@[i]@, h);
        }
    }
    r
}

/// Reduces every coefficient below q in magnitude, so that the inverse NTT
/// stays inside 32 bits.
fn reduce_poly(v: &Poly) -> (r: Poly)
    requires
        poly::within(v@, -75423744, 75423744),
    ensures
        poly::within(r@, -8380416, 8380416),
        ring::pcong(r@, v@),
{
    let mut r = Poly::zero();
    let mut n: usize = 0;
    while n < 256
        invariant
            n <= 256,
            poly::within(v@, -75423744, 75423744),
            poly::within(r@, -8380416, 8380416),
            forall|m: int| 0 <= m < n ==> modq::cong(#[trigger] r@[m], v@[m]),
        decreases 256 - n,
    {
        assert(-75423744 <= v@[n as int] <= 75423744);
        r.set(n, partial_reduce32(v.get(n)));
        n = n + 1;
    }
    r
}

/// The inverse transform of each element of a vector.
fn invert_vec(v: &Vec<Poly>) -> (r: Vec<Poly>)
    requires
        forall|i: int|
            0 <= i < v@.len() ==> poly::within((#[trigger] v@[i])@, -75423744, 75423744),
    ensures
        r@.len() == v@.len(),
        forall|i: int|
            0 <= i < v@.len() ==> (#[trigger] r@[i])@ == ring::inv_ntt(v@[i]@) && poly::within(
                r@[i]@,
                0,
                8380416,
            ),
{
    let mut r: Vec<Poly> = Vec::with_capacity(v.len());
    let mut i: usize = 0;
    while i < v.len()
        invariant
            i <= v@.len(),
            r@.len() == i,
            forall|x: int|
                0 <= x < v@.len() ==> poly::within((#[trigger] v@[x])@, -75423744, 75423744),
            forall|x: int|
                0 <= x < i ==> (#[trigger] r@[x])@ == ring::inv_ntt(v@[x]@) && poly::within(
                    r@[x]@,
                    0,
                    8380416,
                ),
        decreases v@.len() - i,
    {
        assert(poly::within(v@[i as int]@, -75423744, 75423744));
        let mut p: Poly = reduce_poly(&v[i]);
        proof {
            lemma_inv_cong(p@, v@[i as int]@);
        }
        inv_ntt_inplace(&mut p);
        r.push(p);
        i = i + 1;
    }
    r
}

/// The matrix times a vector, in the normal domain. `None` when a matrix entry
/// cannot be sampled.
fn mat_vec(k: usize, rho: &[u8; 32], v: &Vec<Poly>) -> (res: Option<Vec<Poly>>)
    requires
        k <= 256,
        v@.len() <= 8,
        forall|i: int| 0 <= i < v@.len() ==> poly::within((#[trigger] v@[i])@, -8380417, 8380417),
    ensures
        res is Some <==> sample::matrix_defined(rho@, k as int, v@.len() as int),
        res matches Some(w) ==> pack::rows(w@) == scheme::mat_vec(
            rho@,
            scheme::ntt_all(pack::rows(v@)),
            k as nat,
        ) && forall|i: int| 0 <= i < k ==> poly::within((#[trigger] w@[i])@, 0, 8380416),
{
    let u = ntt_vec(v);
    assert forall|i: int| 0 <= i < u@.len() implies poly::within(
        (#[trigger] u@[i])@,
        -67000000,
        67000000,
    ) by {
        assert(poly::within(u@[i]@, -42950665, 42950665));
    }
    match matrix_mul_streaming(k, rho, &u) {
        None => None,
        Some(m) => {
            assert forall|i: int| 0 <= i < m@.len() implies poly::within(
                (#[trigger] m@[i])@,
                -75423744,
                75423744,
            ) by {
                assert(poly::within(m@[i]@, -67043328, 67043328));
            }
            let w = invert_vec(&m);
            proof {
                let us = pack::rows(u@);
                let vs = scheme::ntt_all(pack::rows(v@));
                let e = scheme::mat_vec(rho@, vs, k as nat);
                assert forall|i: int| 0 <= i < k implies pack::rows(w@)[i] == e[i] by {
                    let a = scheme::row_product(rho@, vs, i);
                    assert forall|n: int| 0 <= n < 256 implies modq::cong(
                        #[trigger] m@[i]@[n],
                        a[n],
                    ) by {
                        assert forall|x: int| 0 <= x < us.len() implies ring::pcong(
                            #[trigger] us[x],
                            vs[x],
                        ) by {
                            assert(us[x] == u@[x]@);
                            assert(vs[x] == ring::ntt(v@[x]@));
                        }
                        lemma_row_dot_cong(rho@, us, vs, i, n, us.len());
                        assert(poly::within(m@[i]@, -67043328, 67043328));
                    }
                    lemma_inv_cong(m@[i]@, a);
                    assert(w@[i]@ == ring::inv_ntt(m@[i]@));
                }
                assert(pack::rows(w@) =~= e);
            }
            Some(w)
        },
    }
}

/// The products of a polynomial with the entries of a vector, in the normal
/// domain.
fn times_vec(
    c_hat: &Poly,
    m: &Vec<Poly>,
    Ghost(ch): Ghost<Seq<int>>,
    Ghost(vh): Ghost<Seq<Seq<int>>>,
) -> (r: Vec<Poly>)
    requires
        poly::within(c_hat@, -42950665, 42950665),
        ring::pcong(c_hat@, ch),
        vh.len() == m@.len(),
        forall|i: int|
            0 <= i < m@.len() ==> poly::within((#[trigger] m@[i])@, -16760833, 16760833) && lifted(
                m@[i]@,
                vh[i],
            ),
    ensures
        pack::rows(r@) == scheme::times_all(ch, vh),
        forall|i: int| 0 <= i < m@.len() ==> poly::within((#[trigger] r@[i])@, 0, 8380416),
{
    let mut r: Vec<Poly> = Vec::with_capacity(m.len());
    let mut i: usize = 0;
    while i < m.len()
        invariant
            i <= m@.len(),
            poly::within(c_hat@, -42950665, 42950665),
            ring::pcong(c_hat@, ch),
            vh.len() == m@.len(),
            forall|x: int|
                0 <= x < m@.len() ==> poly::within((#[trigger] m@[x])@, -16760833, 16760833)
                    && lifted(m@[x]@, vh[x]),
            r@.len() == i,
            forall|x: int|
                0 <= x < i ==> (#[trigger] r@[x])@ == ring::inv_ntt(ring::pointwise(ch, vh[x]))
                    && poly::within(r@[x]@, 0, 8380416),
        decreases m@.len() - i,
    {
        let ghost mi = m@[i as int]@;
        let ghost h = vh[i as int];
        proof {
            assert(poly::within(mi, -16760833, 16760833) && lifted(mi, h));
            assert forall|n: int| 0 <= n < 256 implies -17996808470921216 <= #[trigger] (c_hat@[n]
                * mi[n]) < 17996808470921216 by {
                let a = c_hat@[n];
                let b = mi[n];
                assert(-42950665 * 16760833 <= a * b <= 42950665 * 16760833) by (nonlinear_arith)
                    requires
                        -42950665 <= a <= 42950665,
                        -16760833 <= b <= 16760833,
                ;
            }
        }
        let mut q = pointwise_mont(c_hat, &m[i]);
        proof {
            let e = ring::pointwise(ch, h);
            assert forall|n: int| 0 <= n < 256 implies modq::cong(#[trigger] q@[n], e[n]) by {
                let a = c_hat@[n];
                assert(modq::cong(q@[n] * 4294967296, a * mi[n]));
                assert(modq::cong(mi[n], h[n] * 4294967296));
                assert(modq::cong(a, ch[n]));
                modq::lemma_cong_mul(a, ch[n], mi[n], h[n] * 4294967296);
                assert(ch[n] * (h[n] * 4294967296) == (ch[n] * h[n]) * 4294967296)
                    by (nonlinear_arith);
                modq::lemma_cong_cancel_r(q@[n], ch[n] * h[n]);
                modq::lemma_res_range(ch[n] * h[n]);
            }
            lemma_inv_cong(q@, e);
        }
        inv_ntt_inplace(&mut q);
        r.push(q);
        i = i + 1;
    }
    assert(pack::rows(r@) =~= scheme::times_all(ch, vh));
    r
}

/// The largest centered magnitude over a vector of polynomials.
pub fn infinity_norm(v: &Vec<Poly>) -> (m: i32)
    requires
        forall|i: int|
            0 <= i < v@.len() ==> poly::within((#[trigger] v@[i])@, -2147483648, 2143289343),
    ensures
        0 <= m <= 4190208,
        forall|bound: int|
            #![trigger scheme::norm_below(pack::rows(v@), bound)]
            bound > 0 ==> (scheme::norm_below(pack::rows(v@), bound) <==> m < bound),
{
    let mut m: i32 = 0;
    let mut i: usize = 0;
    let ghost g = pack::rows(v@);
    let ghost mut at: (int, int) = (0, 0);
    while i < v.len()
        invariant
            i <= v@.len(),
            g == pack::rows(v@),
            forall|x: int|
                0 <= x < v@.len() ==> poly::within((#[trigger] v@[x])@, -2147483648, 2143289343),
            0 <= m <= 4190208,
            forall|x: int, n: int|
                #![trigger g[x][n]]
                0 <= x < i && 0 <= n < 256 ==> -m <= scheme::centered(g[x][n]) <= m,
            m > 0 ==> 0 <= at.0 < i && 0 <= at.1 < 256 && (scheme::centered(g[at.0][at.1]) == m
                || scheme::centered(g[at.0][at.1]) == -m),
        decreases v@.len() - i,
    {
        assert(poly::within(v@[i as int]@, -2147483648, 2143289343));
        assert(g[i as int] == v@[i as int]@);
        let mut n: usize = 0;
        while n < 256
            invariant
                n <= 256,
                i < v@.len(),
                g == pack::rows(v@),
                g[i as int] == v@[i as int]@,
                poly::within(v@[i as int]@, -2147483648, 2143289343),
                0 <= m <= 4190208,
                forall|x: int, y: int|
                    #![trigger g[x][y]]
                    0 <= x < i && 0 <= y < 256 ==> -m <= scheme::centered(g[x][y]) <= m,
                forall|y: int|
                    #![trigger g[i as int][y]]
                    0 <= y < n ==> -m <= scheme::centered(g[i as int][y]) <= m,
                m > 0 ==> 0 <= at.0 <= i && 0 <= at.1 < 256 && (scheme::centered(g[at.0][at.1])
                    == m || scheme::centered(g[at.0][at.1]) == -m),
            decreases 256 - n,
        {
            assert(-2147483648 <= v@[i as int]@[n as int] <= 2143289343);
            let e: i32 = center_mod(v[i].get(n));
            proof {
                lemma_centered(e as int, g[i as int][n as int]);
            }
            let a: i32 = if e < 0 {
                -e
            } else {
                e
            };
            if a > m {
                m = a;
                proof {
                    at = (i as int, n as int);
                }
            }
            n = n + 1;
        }
        i = i + 1;
    }
    proof {
        assert forall|bound: int|
            #![trigger scheme::norm_below(g, bound)]
            bound > 0 implies (scheme::norm_below(g, bound) <==> m < bound) by {
            if scheme::norm_below(g, bound) && m > 0 {
                assert(-bound < scheme::centered(g[at.0][at.1]) < bound);
            }
            if m < bound {
                assert forall|x: int, n: int|
                    #![trigger g[x][n]]
                    0 <= x < g.len() && 0 <= n < 256 implies -bound < scheme::centered(g[x][n])
                    < bound by {
                    assert(-m <= scheme::centered(g[x][n]) <= m);
                }
            }
        }
    }
    m
}

/// A centered representative is the centered residue.
proof fn lemma_centered(e: int, x: int)
    requires
        -4190208 <= e <= 4190208,
        modq::cong(e, x),
    ensures
        e == scheme::centered(x),
{
    modq::lemma_res_range(e);
    modq::lemma_res_range(x);
}

/// Total number of ones in the hint vector.
pub fn hint_weight(h: &Vec<Poly>) -> (w: usize)
    requires
        h@.len() <= 8,
    ensures
        w == pack::all_ones(pack::rows(h@), h@.len()).len(),
{
    let ghost g = pack::rows(h@);
    let mut w: usize = 0;
    let mut i: usize = 0;
    while i < h.len()
        invariant
            i <= h@.len() <= 8,
            g == pack::rows(h@),
            w == pack::all_ones(g, i as nat).len(),
            w <= 256 * i,
        decreases h@.len() - i,
    {
        let ghost base = w as int;
        assert(g[i as int] == h@[i as int]@);
        let mut n: usize = 0;
        while n < 256
            invariant
                n <= 256,
                i < h@.len() <= 8,
                g == pack::rows(h@),
                g[i as int] == h@[i as int]@,
                base <= 256 * i,
                w == base + pack::ones(g[i as int], n as nat).len(),
                w <= base + n,
            decreases 256 - n,
        {
            if h[i].get(n) != 0 {
                w = w + 1;
            }
            n = n + 1;
        }
        i = i + 1;
    }
    w
}

/// The high bits of every coefficient.
fn high_vec(gamma2: i32, w: &Vec<Poly>) -> (r: Vec<Poly>)
    requires
        round::is_gamma2(gamma2 as int),
        forall|i: int| 0 <= i < w@.len() ==> poly::within((#[trigger] w@[i])@, 0, 8380416),
    ensures
        pack::rows(r@) == scheme::high_all(gamma2 as int, pack::rows(w@)),
        encode::rows_within(pack::rows(r@), 0, round::classes(gamma2 as int) - 1),
        r@.len() == w@.len(),
{
    let ghost g = pack::rows(w@);
    let ghost e = scheme::high_all(gamma2 as int, g);
    let ghost top = round::classes(gamma2 as int) - 1;
    let mut r: Vec<Poly> = Vec::with_capacity(w.len());
    let mut i: usize = 0;
    while i < w.len()
        invariant
            i <= w@.len(),
            round::is_gamma2(gamma2 as int),
            g == pack::rows(w@),
            e == scheme::high_all(gamma2 as int, g),
            top == round::classes(gamma2 as int) - 1,
            forall|x: int| 0 <= x < w@.len() ==> poly::within((#[trigger] w@[x])@, 0, 8380416),
            r@.len() == i,
            forall|x: int|
                0 <= x < i ==> (#[trigger] r@[x])@ == e[x] && poly::within(r@[x]@, 0, top),
        decreases w@.len() - i,
    {
        assert(poly::within(w@[i as int]@, 0, 8380416));
        assert(g[i as int] == w@[i as int]@);
        let mut q = Poly::zero();
        let mut n: usize = 0;
        while n < 256
            invariant
                n <= 256,
                i < w@.len(),
                round::is_gamma2(gamma2 as int),
                g == pack::rows(w@),
                e == scheme::high_all(gamma2 as int, g),
                top == round::classes(gamma2 as int) - 1,
                g[i as int] == w@[i as int]@,
                poly::within(w@[i as int]@, 0, 8380416),
                forall|y: int| 0 <= y < n ==> #[trigger] q@[y] == e[i as int][y],
                poly::within(q@, 0, top),
            decreases 256 - n,
        {
            assert(0 <= w@[i as int]@[n as int] <= 8380416);
            q.set(n, high_bits(gamma2, w[i].get(n)));
            n = n + 1;
        }
        assert(q@ =~= e[i as int]);
        r.push(q);
        i = i + 1;
    }
    assert(pack::rows(r@) =~= e);
    assert forall|x: int| 0 <= x < w@.len() implies (#[trigger] pack::rows(r@)[x]).len() == 256
        && poly::within(pack::rows(r@)[x], 0, top) by {
        assert(pack::rows(r@)[x] == r@[x]@);
    }
    r
}

/// z = y + c * s1, centered.
fn response_vec(y: &Vec<Poly>, cs1: &Vec<Poly>) -> (z: Vec<Poly>)
    requires
        y@.len() == cs1@.len(),
        forall|i: int| 0 <= i < y@.len() ==> poly::within((#[trigger] y@[i])@, -524288, 524288),
        forall|i: int| 0 <= i < cs1@.len() ==> poly::within((#[trigger] cs1@[i])@, 0, 8380416),
    ensures
        z@.len() == y@.len(),
        pack::rows(z@) == scheme::response(pack::rows(y@), pack::rows(cs1@)),
        forall|i: int| 0 <= i < z@.len() ==> poly::within((#[trigger] z@[i])@, -4190208, 4190208),
{
    let ghost e = scheme::response(pack::rows(y@), pack::rows(cs1@));
    let mut z: Vec<Poly> = Vec::with_capacity(y.len());
    let mut i: usize = 0;
    while i < y.len()
        invariant
            i <= y@.len(),
            y@.len() == cs1@.len(),
            e == scheme::response(pack::rows(y@), pack::rows(cs1@)),
            forall|x: int| 0 <= x < y@.len() ==> poly::within((#[trigger] y@[x])@, -524288, 524288),
            forall|x: int|
                0 <= x < cs1@.len() ==> poly::within((#[trigger] cs1@[x])@, 0, 8380416),
            z@.len() == i,
            forall|x: int|
                0 <= x < i ==> (#[trigger] z@[x])@ == e[x] && poly::within(
                    z@[x]@,
                    -4190208,
                    4190208,
                ),
        decreases y@.len() - i,
    {
        let ghost a = y@[i as int]@;
        let ghost b = cs1@[i as int]@;
        assert(poly::within(a, -524288, 524288) && poly::within(b, 0, 8380416));
        let mut q = Poly::zero();
        let mut n: usize = 0;
        while n < 256
            invariant
                n <= 256,
                i < y@.len(),
                y@.len() == cs1@.len(),
                a == y@[i as int]@,
                b == cs1@[i as int]@,
                poly::within(a, -524288, 524288),
                poly::within(b, 0, 8380416),
                forall|m: int|
                    0 <= m < n ==> #[trigger] q@[m] == scheme::centered(a[m] + b[m]),
                poly::within(q@, -4190208, 4190208),
            decreases 256 - n,
        {
            assert(-524288 <= a[n as int] <= 524288 && 0 <= b[n as int] <= 8380416);
            let x: i32 = y[i].get(n) + cs1[i].get(n);
            let c: i32 = center_mod(x);
            proof {
                lemma_centered(c as int, x as int);
            }
            q.set(n, c);
            n = n + 1;
        }
        assert(q@ =~= e[i as int]);
        z.push(q);
        i = i + 1;
    }
    assert(pack::rows(z@) =~= e);
    z
}

/// r0 = LowBits(w - c * s2).
fn low_vec(gamma2: i32, w: &Vec<Poly>, cs2: &Vec<Poly>) -> (r: Vec<Poly>)
    requires
        round::is_gamma2(gamma2 as int),
        w@.len() == cs2@.len(),
        forall|i: int| 0 <= i < w@.len() ==> poly::within((#[trigger] w@[i])@, 0, 8380416),
        forall|i: int| 0 <= i < cs2@.len() ==> poly::within((#[trigger] cs2@[i])@, 0, 8380416),
    ensures
        r@.len() == w@.len(),
        pack::rows(r@) == scheme::low_of_difference(
            gamma2 as int,
            pack::rows(w@),
            pack::rows(cs2@),
        ),
        forall|i: int| 0 <= i < r@.len() ==> poly::within((#[trigger] r@[i])@, -261888, 261888),
{
    let ghost e = scheme::low_of_difference(gamma2 as int, pack::rows(w@), pack::rows(cs2@));
    let mut r: Vec<Poly> = Vec::with_capacity(w.len());
    let mut i: usize = 0;
    while i < w.len()
        invariant
            i <= w@.len(),
            round::is_gamma2(gamma2 as int),
            w@.len() == cs2@.len(),
            e == scheme::low_of_difference(gamma2 as int, pack::rows(w@), pack::rows(cs2@)),
            forall|x: int| 0 <= x < w@.len() ==> poly::within((#[trigger] w@[x])@, 0, 8380416),
            forall|x: int| 0 <= x < cs2@.len() ==> poly::within((#[trigger] cs2@[x])@, 0, 8380416),
            r@.len() == i,
            forall|x: int|
                0 <= x < i ==> (#[trigger] r@[x])@ == e[x] && poly::within(
                    r@[x]@,
                    -261888,
                    261888,
                ),
        decreases w@.len() - i,
    {
        let ghost a = w@[i as int]@;
        let ghost b = cs2@[i as int]@;
        assert(poly::within(a, 0, 8380416) && poly::within(b, 0, 8380416));
        let mut q = Poly::zero();
        let mut n: usize = 0;
        while n < 256
            invariant
                n <= 256,
                i < w@.len(),
                w@.len() == cs2@.len(),
                round::is_gamma2(gamma2 as int),
                a == w@[i as int]@,
                b == cs2@[i as int]@,
                poly::within(a, 0, 8380416),
                poly::within(b, 0, 8380416),
                forall|m: int|
                    0 <= m < n ==> #[trigger] q@[m] == round::low(gamma2 as int, a[m] - b[m]),
                poly::within(q@, -261888, 261888),
            decreases 256 - n,
        {
            assert(0 <= a[n as int] <= 8380416 && 0 <= b[n as int] <= 8380416);
            q.set(n, low_bits(gamma2, w[i].get(n) - cs2[i].get(n)));
            n = n + 1;
        }
        assert(q@ =~= e[i as int]);
        r.push(q);
        i = i + 1;
    }
    assert(pack::rows(r@) =~= e);
    r
}

/// The high bits depend on the residue only.
proof fn lemma_high_cong(g: int, a: int, b: int)
    requires
        modq::cong(a, b),
    ensures
        round::high(g, a) == round::high(g, b),
{
}

/// h = MakeHint(-c * t0, w - c * s2 + c * t0).
fn hint_vec(gamma2: i32, w: &Vec<Poly>, cs2: &Vec<Poly>, ct0: &Vec<Poly>) -> (h: Vec<Poly>)
    requires
        round::is_gamma2(gamma2 as int),
        w@.len() == cs2@.len(),
        w@.len() == ct0@.len(),
        forall|i: int| 0 <= i < w@.len() ==> poly::within((#[trigger] w@[i])@, 0, 8380416),
        forall|i: int| 0 <= i < cs2@.len() ==> poly::within((#[trigger] cs2@[i])@, 0, 8380416),
        forall|i: int| 0 <= i < ct0@.len() ==> poly::within((#[trigger] ct0@[i])@, 0, 8380416),
    ensures
        h@.len() == w@.len(),
        pack::rows(h@) == scheme::hint_of(
            gamma2 as int,
            pack::rows(w@),
            pack::rows(cs2@),
            pack::rows(ct0@),
        ),
        encode::rows_within(pack::rows(h@), 0, 1),
{
    let ghost e = scheme::hint_of(
        gamma2 as int,
        pack::rows(w@),
        pack::rows(cs2@),
        pack::rows(ct0@),
    );
    let mut h: Vec<Poly> = Vec::with_capacity(w.len());
    let mut i: usize = 0;
    while i < w.len()
        invariant
            i <= w@.len(),
            round::is_gamma2(gamma2 as int),
            w@.len() == cs2@.len(),
            w@.len() == ct0@.len(),
            e == scheme::hint_of(
                gamma2 as int,
                pack::rows(w@),
                pack::rows(cs2@),
                pack::rows(ct0@),
            ),
            forall|x: int| 0 <= x < w@.len() ==> poly::within((#[trigger] w@[x])@, 0, 8380416),
            forall|x: int| 0 <= x < cs2@.len() ==> poly::within((#[trigger] cs2@[x])@, 0, 8380416),
            forall|x: int| 0 <= x < ct0@.len() ==> poly::within((#[trigger] ct0@[x])@, 0, 8380416),
            h@.len() == i,
            forall|x: int|
                0 <= x < i ==> (#[trigger] h@[x])@ == e[x] && poly::within(h@[x]@, 0, 1),
        decreases w@.len() - i,
    {
        let ghost a = w@[i as int]@;
        let ghost b = cs2@[i as int]@;
        let ghost c = ct0@[i as int]@;
        assert(poly::within(a, 0, 8380416) && poly::within(b, 0, 8380416) && poly::within(
            c,
            0,
            8380416,
        ));
        let mut q = Poly::zero();
        let mut n: usize = 0;
        while n < 256
            invariant
                n <= 256,
                i < w@.len(),
                w@.len() == cs2@.len(),
                w@.len() == ct0@.len(),
                round::is_gamma2(gamma2 as int),
                a == w@[i as int]@,
                b == cs2@[i as int]@,
                c == ct0@[i as int]@,
                poly::within(a, 0, 8380416),
                poly::within(b, 0, 8380416),
                poly::within(c, 0, 8380416),
                forall|m: int|
                    0 <= m < n ==> #[trigger] q@[m] == (if round::high(
                        gamma2 as int,
                        a[m] - b[m] + c[m],
                    ) != round::high(gamma2 as int, a[m] - b[m]) {
                        1int
                    } else {
                        0int
                    }),
                poly::within(q@, 0, 1),
            decreases 256 - n,
        {
            assert(0 <= a[n as int] <= 8380416 && 0 <= b[n as int] <= 8380416 && 0 <= c[n as int]
                <= 8380416);
            let t: i32 = ct0[i].get(n);
            let x: i32 = w[i].get(n) - cs2[i].get(n) + t;
            let r: i32 = partial_reduce32(x);
            let hint: bool = make_hint(gamma2, 8_380_417 - t, r);
            proof {
                lemma_high_cong(gamma2 as int, r as int, x as int);
                modq::lemma_cong_add(r as int, x as int, 8380417 - t, 8380417 - t);
                modq::lemma_cong_multiple(x + (8380417 - t), x - t, 1);
                lemma_high_cong(gamma2 as int, r + (8380417 - t), x - t);
            }
            q.set(n, if hint { 1 } else { 0 });
            n = n + 1;
        }
        assert(q@ =~= e[i as int]);
        h.push(q);
        i = i + 1;
    }
    assert(pack::rows(h@) =~= e);
    assert forall|x: int| 0 <= x < w@.len() implies (#[trigger] pack::rows(h@)[x]).len() == 256
        && poly::within(pack::rows(h@)[x], 0, 1) by {
        assert(pack::rows(h@)[x] == h@[x]@);
    }
    h
}

/// An expanded key: what signing needs in NTT and Montgomery form, plus `t1`
/// to emit the public key again. Derived from the 32-byte seed. The key is
/// overwritten when it goes out of scope.
pub struct ExpandedKey<const K: usize, const L: usize> {
    rho: [u8; 32],
    cap_k: [u8; 32],
    tr: [u8; 64],
    t1: Vec<Poly>,
    s1_hat_mont: Vec<Poly>,
    s2_hat_mont: Vec<Poly>,
    t0_hat_mont: Vec<Poly>,
}

/// The vectors of which `m` holds the Montgomery forms.
spec fn unlifted_all(m: Seq<Poly>) -> Seq<Seq<int>> {
    Seq::new(m.len(), |i: int| unlifted(m[i]@))
}

/// All entries are in Montgomery range.
spec fn mont_range(m: Seq<Poly>) -> bool {
    forall|i: int| 0 <= i < m.len() ==> poly::within((#[trigger] m[i])@, -16760833, 16760833)
}

impl<const K: usize, const L: usize> View for ExpandedKey<K, L> {
    type V = KeyData;

    closed spec fn view(&self) -> KeyData {
        KeyData {
            rho: self.rho@,
            cap_k: self.cap_k@,
            tr: self.tr@,
            t1: pack::rows(self.t1@),
            s1_hat: unlifted_all(self.s1_hat_mont@),
            s2_hat: unlifted_all(self.s2_hat_mont@),
            t0_hat: unlifted_all(self.t0_hat_mont@),
        }
    }
}

/// Overwrites the polynomials of `v` with zeros.
fn wipe_all(v: &mut Vec<Poly>)
    ensures
        final(v)@.len() == old(v)@.len(),
        forall|i: int| 0 <= i < final(v)@.len() ==> (#[trigger] final(v)@[i])@ == poly::zero_seq(),
    no_unwind
{
    let n: usize = v.len();
    let mut i: usize = 0;
    while i < n
        invariant
            i <= n,
            n == v@.len(),
            n == old(v)@.len(),
            forall|x: int| 0 <= x < i ==> (#[trigger] v@[x])@ == poly::zero_seq(),
        decreases n - i,
    {
        v[i].wipe();
        i = i + 1;
    }
}

proof fn lemma_unlifted_zeros(m: Seq<Poly>)
    requires
        forall|i: int| 0 <= i < m.len() ==> (#[trigger] m[i])@ == poly::zero_seq(),
    ensures
        mont_range(m),
        scheme::zero_rows(unlifted_all(m)),
        scheme::zero_rows(pack::rows(m)),
{
    assert forall|i: int| 0 <= i < m.len() implies #[trigger] unlifted_all(m)[i]
        == poly::zero_seq() by {
        assert(m[i]@ == poly::zero_seq());
        assert forall|n: int| 0 <= n < 256 implies #[trigger] unlifted(poly::zero_seq())[n]
            == 0 by {
            assert(poly::zero_seq()[n] == 0);
            assert(0int * 8265825 == 0);
            reveal(modq::res);
            assert(modq::res(0) == 0);
        }
        assert(unlifted(poly::zero_seq()) =~= poly::zero_seq());
    }
}

impl<const K: usize, const L: usize> ExpandedKey<K, L> {
    /// Overwrites the seeds and the hash of the public key with zeros.
    fn wipe_bytes(&mut self)
        ensures
            scheme::zero_bytes(final(self).rho@),
            scheme::zero_bytes(final(self).cap_k@),
            scheme::zero_bytes(final(self).tr@),
            final(self).t1 == old(self).t1,
            final(self).s1_hat_mont == old(self).s1_hat_mont,
            final(self).s2_hat_mont == old(self).s2_hat_mont,
            final(self).t0_hat_mont == old(self).t0_hat_mont,
        opens_invariants none
        no_unwind
    {
        wipe(&mut self.rho);
        wipe(&mut self.cap_k);
        wipe(&mut self.tr);
    }

    /// Overwrites the whole key with zeros.
    pub fn wipe(&mut self)
        ensures
            scheme::wiped(final(self)@),
            forall|p: Params| #[trigger] old(self).wf(p) ==> final(self).wf(p),
        no_unwind
    {
        self.wipe_bytes();
        wipe_all(&mut self.t1);
        wipe_all(&mut self.s1_hat_mont);
        wipe_all(&mut self.s2_hat_mont);
        wipe_all(&mut self.t0_hat_mont);
        proof {
            lemma_unlifted_zeros(self.t1@);
            lemma_unlifted_zeros(self.s1_hat_mont@);
            lemma_unlifted_zeros(self.s2_hat_mont@);
            lemma_unlifted_zeros(self.t0_hat_mont@);
        }
    }
}

/// The polynomials of a key overwrite themselves.
impl<const K: usize, const L: usize> Drop for ExpandedKey<K, L> {
    fn drop(&mut self)
        opens_invariants none
        no_unwind
    {
        self.wipe_bytes();
    }
}

/// Copies 32 bytes of `s` from `off` on.
fn take32(s: &[u8], off: usize) -> (r: [u8; 32])
    requires
        off + 32 <= s@.len(),
    ensures
        r@ == s@.subrange(off as int, off + 32),
{
    let mut r = [0u8; 32];
    let mut i: usize = 0;
    let total: usize = s.len();
    while i < 32
        invariant
            i <= 32,
            total == s@.len(),
            off + 32 <= s@.len(),
            forall|x: int| 0 <= x < i ==> #[trigger] r@[x] == s@[off + x],
        decreases 32 - i,
    {
        r[i] = s[off + i];
        i = i + 1;
    }
    assert(r@ =~= s@.subrange(off as int, off + 32));
    r
}

/// Copies 64 bytes of `s` from `off` on.
fn take64(s: &[u8], off: usize) -> (r: [u8; 64])
    requires
        off + 64 <= s@.len(),
    ensures
        r@ == s@.subrange(off as int, off + 64),
{
    let mut r = [0u8; 64];
    let mut i: usize = 0;
    let total: usize = s.len();
    while i < 64
        invariant
            i <= 64,
            total == s@.len(),
            off + 64 <= s@.len(),
            forall|x: int| 0 <= x < i ==> #[trigger] r@[x] == s@[off + x],
        decreases 64 - i,
    {
        r[i] = s[off + i];
        i = i + 1;
    }
    assert(r@ =~= s@.subrange(off as int, off + 64));
    r
}

/// t = A * s1 + s2, reduced to [0, q).
fn add_reduced(a: &Vec<Poly>, s2: &Vec<Poly>) -> (t: Vec<Poly>)
    requires
        a@.len() == s2@.len(),
        forall|i: int| 0 <= i < a@.len() ==> poly::within((#[trigger] a@[i])@, 0, 8380416),
        forall|i: int| 0 <= i < s2@.len() ==> poly::within((#[trigger] s2@[i])@, -4, 4),
    ensures
        t@.len() == a@.len(),
        forall|i: int|
            0 <= i < t@.len() ==> poly::within((#[trigger] t@[i])@, 0, 8380416) && t@[i]@
                == Seq::new(256, |n: int| modq::res(a@[i]@[n] + s2@[i]@[n])),
{
    let mut t: Vec<Poly> = Vec::with_capacity(a.len());
    let mut i: usize = 0;
    while i < a.len()
        invariant
            i <= a@.len(),
            a@.len() == s2@.len(),
            forall|x: int| 0 <= x < a@.len() ==> poly::within((#[trigger] a@[x])@, 0, 8380416),
            forall|x: int| 0 <= x < s2@.len() ==> poly::within((#[trigger] s2@[x])@, -4, 4),
            t@.len() == i,
            forall|x: int|
                0 <= x < i ==> poly::within((#[trigger] t@[x])@, 0, 8380416) && t@[x]@ == Seq::new(
                    256,
                    |n: int| modq::res(a@[x]@[n] + s2@[x]@[n]),
                ),
        decreases a@.len() - i,
    {
        let ghost u = a@[i as int]@;
        let ghost v = s2@[i as int]@;
        assert(poly::within(u, 0, 8380416) && poly::within(v, -4, 4));
        let mut q = Poly::zero();
        let mut n: usize = 0;
        while n < 256
            invariant
                n <= 256,
                i < a@.len(),
                a@.len() == s2@.len(),
                u == a@[i as int]@,
                v == s2@[i as int]@,
                poly::within(u, 0, 8380416),
                poly::within(v, -4, 4),
                poly::within(q@, 0, 8380416),
                forall|m: int| 0 <= m < n ==> #[trigger] q@[m] == modq::res(u[m] + v[m]),
            decreases 256 - n,
        {
            assert(0 <= u[n as int] <= 8380416 && -4 <= v[n as int] <= 4);
            q.set(n, full_reduce32(a[i].get(n) + s2[i].get(n)));
            n = n + 1;
        }
        assert(q@ =~= Seq::new(256, |n: int| modq::res(a@[i as int]@[n] + s2@[i as int]@[n])));
        t.push(q);
        i = i + 1;
    }
    t
}

/// Power2Round of each entry.
fn round_vec(t: &Vec<Poly>) -> (r: (Vec<Poly>, Vec<Poly>))
    requires
        forall|i: int| 0 <= i < t@.len() ==> poly::within((#[trigger] t@[i])@, 0, 8380416),
    ensures
        pack::rows(r.0@) == scheme::high_part(pack::rows(t@)),
        pack::rows(r.1@) == scheme::low_part(pack::rows(t@)),
        encode::rows_within(pack::rows(r.0@), 0, 1023),
        r.0@.len() == t@.len(),
        r.1@.len() == t@.len(),
        forall|i: int| 0 <= i < t@.len() ==> poly::within((#[trigger] r.1@[i])@, -4096, 4096),
{
    let mut t1: Vec<Poly> = Vec::with_capacity(t.len());
    let mut t0: Vec<Poly> = Vec::with_capacity(t.len());
    let ghost hi = scheme::high_part(pack::rows(t@));
    let ghost lo = scheme::low_part(pack::rows(t@));
    let mut i: usize = 0;
    while i < t.len()
        invariant
            i <= t@.len(),
            hi == scheme::high_part(pack::rows(t@)),
            lo == scheme::low_part(pack::rows(t@)),
            forall|x: int| 0 <= x < t@.len() ==> poly::within((#[trigger] t@[x])@, 0, 8380416),
            t1@.len() == i,
            t0@.len() == i,
            forall|x: int|
                0 <= x < i ==> (#[trigger] t1@[x])@ == hi[x] && poly::within(t1@[x]@, 0, 1023),
            forall|x: int|
                0 <= x < i ==> (#[trigger] t0@[x])@ == lo[x] && poly::within(t0@[x]@, -4096, 4096),
        decreases t@.len() - i,
    {
        assert(poly::within(t@[i as int]@, 0, 8380416));
        let (a, b) = power2round(&t[i]);
        assert(pack::rows(t@)[i as int] == t@[i as int]@);
        assert(a@ =~= hi[i as int]);
        assert(b@ =~= lo[i as int]);
        assert forall|n: int| 0 <= n < 256 implies -4096 <= #[trigger] b@[n] <= 4096 by {}
        t1.push(a);
        t0.push(b);
        i = i + 1;
    }
    assert(pack::rows(t1@) =~= hi);
    assert(pack::rows(t0@) =~= lo);
    assert forall|x: int| 0 <= x < t@.len() implies (#[trigger] pack::rows(t1@)[x]).len() == 256
        && poly::within(pack::rows(t1@)[x], 0, 1023) by {
        assert(pack::rows(t1@)[x] == t1@[x]@);
    }
    (t1, t0)
}

/// H(tr || 0x00 || |ctx| || ctx || M).
fn message_rep(tr: &[u8], ctx: &[u8], msg: &[u8]) -> (mu: Vec<u8>)
    requires
        ctx@.len() <= 255,
    ensures
        mu@ == scheme::message_rep(tr@, ctx@, msg@),
{
    let mut input: Vec<u8> = Vec::new();
    input.extend_from_slice(tr);
    input.push(0);
    input.push(ctx.len() as u8);
    input.extend_from_slice(ctx);
    input.extend_from_slice(msg);
    assert(input@ =~= tr@ + seq![0u8, ctx@.len() as u8] + ctx@ + msg@);
    let mu = shake256(&input, 64);
    assert(mu@ =~= scheme::message_rep(tr@, ctx@, msg@));
    mu
}

/// H(mu || w1Encode(w1)).
fn commitment(p: &Params, mu: &[u8], w1: &Vec<Poly>) -> (c: Vec<u8>)
    requires
        params::supported(*p),
        w1@.len() == p.k,
        encode::rows_within(pack::rows(w1@), 0, round::classes(p.gamma2 as int) - 1),
    ensures
        c@ == scheme::commitment(*p, mu@, pack::rows(w1@)),
{
    let mut bytes: Vec<u8> = vec![0u8; p.w1_len];
    w1_encode(p.gamma2, w1, bytes.as_mut_slice());
    let mut input: Vec<u8> = Vec::new();
    input.extend_from_slice(mu);
    input.extend_from_slice(&bytes);
    assert(input@ =~= mu@ + encode::w1_bytes(p.gamma2 as int, pack::rows(w1@)));
    let c = shake256(&input, p.lambda_div4);
    assert(c@ =~= scheme::commitment(*p, mu@, pack::rows(w1@)));
    c
}

/// Every stream that key generation reads from the seed holds enough values.
pub fn seed_expands(p: &Params, xi: &[u8; 32]) -> (r: bool)
    requires
        params::supported(*p),
    ensures
        r == scheme::keygen_defined(*p, xi@),
{
    let mut input: Vec<u8> = Vec::with_capacity(34);
    input.extend_from_slice(xi.as_slice());
    input.push(p.k as u8);
    input.push(p.l as u8);
    assert(input@ =~= xi@ + seq![p.k as u8, p.l as u8]);
    let mut h = shake256(&input, 128);
    wipe(input.as_mut_slice());
    assert(h@ =~= scheme::seed_stream(*p, xi@));
    let rho = take32(&h, 0);
    let mut rho_prime = take64(&h, 32);
    wipe(h.as_mut_slice());
    let secrets: bool = expand_s(p.k, p.l, p.eta, rho_prime.as_slice()).is_some();
    wipe(&mut rho_prime);
    secrets && sample::matrix_expands(p.k, p.l, &rho)
}

/// How a signing attempt ended.
pub enum Outcome {
    /// The checks passed and the signature was written.
    Accepted,
    /// The checks failed.
    Rejected,
    /// A hash stream did not hold enough values.
    Starved,
}

impl<const K: usize, const L: usize> ExpandedKey<K, L> {
    /// The key belongs to parameter set `p`.
    pub closed spec fn wf(&self, p: Params) -> bool {
        &&& params::supported(p)
        &&& p.k == K
        &&& p.l == L
        &&& self.t1@.len() == p.k
        &&& self.s1_hat_mont@.len() == p.l
        &&& self.s2_hat_mont@.len() == p.k
        &&& self.t0_hat_mont@.len() == p.k
        &&& encode::rows_within(pack::rows(self.t1@), 0, 1023)
        &&& mont_range(self.s1_hat_mont@)
        &&& mont_range(self.s2_hat_mont@)
        &&& mont_range(self.t0_hat_mont@)
    }

    /// The work of [`ExpandedKey::from_seed`], with `None` when a hash stream
    /// does not hold enough values.
    fn expand(p: &Params, xi: &[u8; 32]) -> (r: Option<Self>)
        requires
            params::supported(*p),
            p.k == K,
            p.l == L,
        ensures
            r is Some <==> scheme::keygen_defined(*p, xi@),
            r matches Some(key) ==> key.wf(*p) && key@ == scheme::keygen(*p, xi@),
    {
        // (rho, rho', K) = H(xi || k || l)
        let mut input: Vec<u8> = Vec::with_capacity(34);
        input.extend_from_slice(xi.as_slice());
        input.push(p.k as u8);
        input.push(p.l as u8);
        assert(input@ =~= xi@ + seq![p.k as u8, p.l as u8]);
        let mut h = shake256(&input, 128);
        wipe(input.as_mut_slice());
        assert(h@ =~= scheme::seed_stream(*p, xi@));
        let rho = take32(&h, 0);
        let mut rho_prime = take64(&h, 32);
        let cap_k = take32(&h, 96);
        wipe(h.as_mut_slice());

        // (s1, s2) = ExpandS(rho'); t = A * s1 + s2
        let expanded = expand_s(p.k, p.l, p.eta, rho_prime.as_slice());
        wipe(&mut rho_prime);
        let (s1, s2) = match expanded {
            Some(v) => v,
            None => {
                return None;
            },
        };
        proof {
            assert(pack::rows(s1@) =~= scheme::seed_s1(*p, xi@));
            assert(pack::rows(s2@) =~= scheme::seed_s2(*p, xi@));
            assert forall|i: int| 0 <= i < s1@.len() implies poly::within(
                (#[trigger] s1@[i])@,
                -8380417,
                8380417,
            ) by {
                assert(poly::within(s1@[i]@, -p.eta as int, p.eta as int));
            }
            assert forall|i: int| 0 <= i < s2@.len() implies poly::within(
                (#[trigger] s2@[i])@,
                -8380417,
                8380417,
            ) && poly::within(s2@[i]@, -4, 4) by {
                assert(poly::within(s2@[i]@, -p.eta as int, p.eta as int));
            }
        }
        let a = match mat_vec(p.k, &rho, &s1) {
            Some(a) => a,
            None => {
                return None;
            },
        };
        assert(a@.len() == p.k) by {
            assert(pack::rows(a@).len() == p.k);
        }
        let t = add_reduced(&a, &s2);
        proof {
            let e = scheme::seed_t(*p, xi@);
            assert forall|i: int| 0 <= i < p.k implies pack::rows(t@)[i] == e[i] by {
                assert(pack::rows(a@)[i] == a@[i]@);
                assert(pack::rows(s2@)[i] == s2@[i]@);
                assert(t@[i]@ =~= e[i]);
            }
            assert(pack::rows(t@) =~= e);
        }

        // (t1, t0) = Power2Round(t); tr = H(pkEncode(rho, t1))
        let (t1, t0) = round_vec(&t);
        let mut pk: Vec<u8> = vec![0u8; p.pk_len];
        pk_encode(&rho, &t1, pk.as_mut_slice());
        let tr_bytes = shake256(&pk, 64);
        let tr = take64(&tr_bytes, 0);
        assert(tr@ =~= xof::stream256(pk@, 64));
        proof {
            assert forall|i: int| 0 <= i < t0@.len() implies poly::within(
                (#[trigger] t0@[i])@,
                -8380417,
                8380417,
            ) by {
                assert(poly::within(t0@[i]@, -4096, 4096));
            }
        }
        let s1_hat_mont = hat_mont(&s1);
        let s2_hat_mont = hat_mont(&s2);
        let t0_hat_mont = hat_mont(&t0);
        proof {
            lemma_hat(s1@, s1_hat_mont@);
            lemma_hat(s2@, s2_hat_mont@);
            lemma_hat(t0@, t0_hat_mont@);
        }
        Some(ExpandedKey { rho, cap_k, tr, t1, s1_hat_mont, s2_hat_mont, t0_hat_mont })
    }

    /// Expands the keypair from the 32-byte seed (Alg 6).
    pub fn from_seed(p: &Params, xi: &[u8; 32]) -> (key: Self)
        requires
            params::supported(*p),
            p.k == K,
            p.l == L,
            scheme::keygen_defined(*p, xi@),
        ensures
            key.wf(*p),
            key@ == scheme::keygen(*p, xi@),
    {
        Self::expand(p, xi).unwrap()
    }

    /// Expands the keypair from the 32-byte seed where the hash streams hold
    /// enough values, and gives `None` where they do not.
    pub fn try_from_seed(p: &Params, xi: &[u8; 32]) -> (r: Option<Self>)
        requires
            params::supported(*p),
            p.k == K,
            p.l == L,
        ensures
            r is Some <==> scheme::keygen_defined(*p, xi@),
            r matches Some(key) ==> key.wf(*p) && key@ == scheme::keygen(*p, xi@),
    {
        if seed_expands(p, xi) {
            Some(Self::from_seed(p, xi))
        } else {
            None
        }
    }

    /// Serializes the public key (Alg 22) into `out`.
    pub fn write_public_key(&self, p: &Params, out: &mut [u8])
        requires
            self.wf(*p),
            old(out)@.len() == p.pk_len,
        ensures
            final(out)@ == scheme::public_key(self@),
    {
        pk_encode(&self.rho, &self.t1, out);
    }

    /// One signing attempt with counter `kappa` (the loop body of Alg 7).
    fn attempt(&self, p: &Params, mu: &[u8], rho_pp: &[u8], kappa: u16, out: &mut [u8]) -> (o:
        Outcome)
        requires
            self.wf(*p),
            kappa + p.l <= 65536,
            old(out)@.len() == p.sig_len,
        ensures
            final(out)@.len() == p.sig_len,
            ({
                let a = scheme::attempt(*p, self@, mu@, rho_pp@, kappa as int);
                let defined = sample::matrix_defined(self@.rho, p.k as int, p.l as int)
                    && a.c is Some;
                match o {
                    Outcome::Starved => !defined && final(out)@ == old(out)@,
                    Outcome::Rejected => defined && !scheme::passes(*p, a) && final(out)@ == old(
                        out,
                    )@,
                    Outcome::Accepted => defined && scheme::passes(*p, a) && final(out)@
                        == scheme::encoded(*p, a),
                }
            }),
    {
        let ghost want = scheme::attempt(*p, self@, mu@, rho_pp@, kappa as int);
        // y = ExpandMask(rho'', kappa); w = A * y
        let y = expand_mask(p.l, p.gamma1, rho_pp, kappa);
        proof {
            assert(pack::rows(y@) =~= scheme::mask(*p, rho_pp@, kappa as int));
            assert forall|i: int| 0 <= i < y@.len() implies poly::within(
                (#[trigger] y@[i])@,
                -8380417,
                8380417,
            ) && poly::within(y@[i]@, -524288, 524288) by {
                assert(poly::within(y@[i]@, -p.gamma1 + 1, p.gamma1 as int));
            }
        }
        let w = match mat_vec(p.k, &self.rho, &y) {
            Some(w) => w,
            None => {
                return Outcome::Starved;
            },
        };
        assert(w@.len() == p.k) by {
            assert(pack::rows(w@).len() == p.k);
        }

        // c~ = H(mu || w1Encode(HighBits(w))); c = SampleInBall(c~)
        let w1 = high_vec(p.gamma2, &w);
        let c_tilde = commitment(p, mu, &w1);
        let mut c_hat = match sample_in_ball(p.tau, &c_tilde) {
            Some(c) => c,
            None => {
                return Outcome::Starved;
            },
        };
        let ghost ch = ring::ntt(c_hat@);
        assert(poly::within(c_hat@, -8380417, 8380417) && poly::within(
            c_hat@,
            -2080440311,
            2080440311,
        )) by {
            assert forall|n: int| 0 <= n < 256 implies -1 <= #[trigger] c_hat@[n] <= 1 by {}
        }
        ntt_inplace(&mut c_hat);
        proof {
            lemma_lifted_all(self.s1_hat_mont@);
            lemma_lifted_all(self.s2_hat_mont@);
            lemma_lifted_all(self.t0_hat_mont@);
        }
        let c_s1 = times_vec(&c_hat, &self.s1_hat_mont, Ghost(ch), Ghost(self@.s1_hat));
        let c_s2 = times_vec(&c_hat, &self.s2_hat_mont, Ghost(ch), Ghost(self@.s2_hat));
        assert(c_s1@.len() == p.l && c_s2@.len() == p.k) by {
            assert(pack::rows(c_s1@).len() == p.l);
            assert(pack::rows(c_s2@).len() == p.k);
        }

        // z = y + c * s1; r0 = LowBits(w - c * s2)
        let z = response_vec(&y, &c_s1);
        let r0 = low_vec(p.gamma2, &w, &c_s2);
        proof {
            assert(pack::rows(z@) == want.z);
            assert(pack::rows(r0@) == want.r0);
            assert forall|i: int| 0 <= i < z@.len() implies poly::within(
                (#[trigger] z@[i])@,
                -2147483648,
                2143289343,
            ) by {
                assert(poly::within(z@[i]@, -4190208, 4190208));
            }
            assert forall|i: int| 0 <= i < r0@.len() implies poly::within(
                (#[trigger] r0@[i])@,
                -2147483648,
                2143289343,
            ) by {
                assert(poly::within(r0@[i]@, -261888, 261888));
            }
        }
        if infinity_norm(&z) >= p.gamma1 - p.beta || infinity_norm(&r0) >= p.gamma2 - p.beta {
            assert(!scheme::norm_below(pack::rows(z@), p.gamma1 - p.beta) || !scheme::norm_below(
                pack::rows(r0@),
                p.gamma2 - p.beta,
            ));
            return Outcome::Rejected;
        }
        assert(scheme::norm_below(pack::rows(z@), p.gamma1 - p.beta));
        assert(scheme::norm_below(pack::rows(r0@), p.gamma2 - p.beta));

        // h = MakeHint(-c * t0, w - c * s2 + c * t0)
        let c_t0 = times_vec(&c_hat, &self.t0_hat_mont, Ghost(ch), Ghost(self@.t0_hat));
        assert(c_t0@.len() == p.k) by {
            assert(pack::rows(c_t0@).len() == p.k);
        }
        let h = hint_vec(p.gamma2, &w, &c_s2, &c_t0);
        proof {
            assert(pack::rows(c_t0@) == want.ct0);
            assert(pack::rows(h@) == want.h);
            assert forall|i: int| 0 <= i < c_t0@.len() implies poly::within(
                (#[trigger] c_t0@[i])@,
                -2147483648,
                2143289343,
            ) by {
                assert(poly::within(c_t0@[i]@, 0, 8380416));
            }
        }
        if infinity_norm(&c_t0) >= p.gamma2 || hint_weight(&h) > p.omega as usize {
            assert(!scheme::norm_below(pack::rows(c_t0@), p.gamma2 as int) || pack::all_ones(
                want.h,
                want.h.len(),
            ).len() > p.omega);
            return Outcome::Rejected;
        }
        assert(scheme::norm_below(pack::rows(c_t0@), p.gamma2 as int));
        proof {
            let g = pack::rows(z@);
            assert forall|i: int| 0 <= i < g.len() implies (#[trigger] g[i]).len() == 256
                && poly::within(g[i], -p.gamma1 + 1, p.gamma1 as int) by {
                assert(g[i] == z@[i]@);
                assert(poly::within(z@[i]@, -4190208, 4190208));
                assert forall|n: int| 0 <= n < 256 implies -p.gamma1 + 1 <= #[trigger] g[i][n]
                    <= p.gamma1 by {
                    lemma_centered(g[i][n], g[i][n]);
                    assert(-(p.gamma1 - p.beta) < scheme::centered(g[i][n]) < p.gamma1 - p.beta);
                }
            }
            assert(pack::is_hint(pack::rows(h@), p.omega as int)) by {
                assert forall|i: int| 0 <= i < h@.len() implies (#[trigger] pack::rows(
                    h@,
                )[i]).len() == 256 && poly::within(pack::rows(h@)[i], 0, 1) by {}
            }
        }
        sig_encode(p.gamma1, p.omega, &c_tilde, &z, &h, out);
        Outcome::Accepted
    }

    /// Signs `msg` under context `ctx` with hedge randomness `rnd` (Alg 7),
    /// writing the signature into `out`.
    pub fn sign(&self, p: &Params, msg: &[u8], ctx: &[u8], rnd: &[u8; 32], out: &mut [u8]) -> (r:
        Result<(), Error>)
        requires
            self.wf(*p),
            ctx@.len() <= 255,
            old(out)@.len() == p.sig_len,
        ensures
            final(out)@.len() == p.sig_len,
            match scheme::signature(*p, self@, msg@, ctx@, rnd@) {
                Some(sig) => r == Ok::<(), Error>(()) && final(out)@ == sig,
                None => r == Err::<(), Error>(Error::Exhausted) && final(out)@ == old(out)@,
            },
    {
        let mu = message_rep(self.tr.as_slice(), ctx, msg);
        let mut input: Vec<u8> = Vec::with_capacity(128);
        input.extend_from_slice(self.cap_k.as_slice());
        input.extend_from_slice(rnd.as_slice());
        input.extend_from_slice(&mu);
        assert(input@ =~= self.cap_k@ + rnd@ + mu@);
        let mut rho_pp = shake256(&input, 64);
        wipe(input.as_mut_slice());
        let ghost seed = scheme::mask_seed(self.cap_k@, rnd@, mu@);
        assert(rho_pp@ =~= seed);
        let ghost before = out@;
        let ghost want = scheme::signature(*p, self@, msg@, ctx@, rnd@);
        let mut kappa: usize = 0;
        while kappa + p.l <= 65536
            invariant
                self.wf(*p),
                1 <= p.l <= 5,
                kappa <= 65536,
                out@ == before,
                before == old(out)@,
                before.len() == p.sig_len,
                rho_pp@ == seed,
                want == scheme::signature(*p, self@, msg@, ctx@, rnd@),
                want == scheme::sign_from(*p, self@, mu@, seed, kappa as int),
            ensures
                kappa + p.l > 65536,
                kappa <= 65536,
                out@ == before,
                want == scheme::sign_from(*p, self@, mu@, seed, kappa as int),
            decreases 65536 - kappa,
        {
            match self.attempt(p, &mu, &rho_pp, kappa as u16, out) {
                Outcome::Accepted => {
                    wipe(rho_pp.as_mut_slice());
                    return Ok(());
                },
                Outcome::Starved => {
                    wipe(rho_pp.as_mut_slice());
                    return Err(Error::Exhausted);
                },
                Outcome::Rejected => {},
            }
            kappa = kappa + p.l;
        }
        wipe(rho_pp.as_mut_slice());
        Err(Error::Exhausted)
    }
}

/// What `hat_mont` promises, as one statement about the vector.
proof fn lemma_hat(v: Seq<Poly>, m: Seq<Poly>)
    requires
        m.len() == v.len(),
        forall|i: int|
            0 <= i < v.len() ==> poly::within((#[trigger] m[i])@, -16760833, 16760833) && unlifted(
                m[i]@,
            ) == ring::ntt(v[i]@) && lifted(m[i]@, ring::ntt(v[i]@)),
    ensures
        mont_range(m),
        unlifted_all(m) == scheme::ntt_all(pack::rows(v)),
{
    assert forall|i: int| 0 <= i < v.len() implies unlifted_all(m)[i] == scheme::ntt_all(
        pack::rows(v),
    )[i] by {
        assert(unlifted(m[i]@) == ring::ntt(v[i]@));
    }
    assert(unlifted_all(m) =~= scheme::ntt_all(pack::rows(v)));
}

proof fn lemma_lifted_all(m: Seq<Poly>)
    requires
        mont_range(m),
    ensures
        forall|i: int|
            0 <= i < m.len() ==> poly::within((#[trigger] m[i])@, -16760833, 16760833) && lifted(
                m[i]@,
                unlifted_all(m)[i],
            ),
{
    assert forall|i: int| 0 <= i < m.len() implies poly::within(
        (#[trigger] m[i])@,
        -16760833,
        16760833,
    ) && lifted(m[i]@, unlifted_all(m)[i]) by {
        lemma_unlifted(m[i]@, m[i]@);
    }
}

/// The rows of t1 * 2^13.
fn shift_vec(t1: &Vec<Poly>) -> (r: Vec<Poly>)
    requires
        encode::rows_within(pack::rows(t1@), 0, 1023),
    ensures
        r@.len() == t1@.len(),
        forall|i: int|
            0 <= i < t1@.len() ==> (#[trigger] r@[i])@ == ring::scale(t1@[i]@, 8192)
                && poly::within(r@[i]@, -8380417, 8380417),
{
    let mut r: Vec<Poly> = Vec::with_capacity(t1.len());
    let mut i: usize = 0;
    while i < t1.len()
        invariant
            i <= t1@.len(),
            encode::rows_within(pack::rows(t1@), 0, 1023),
            r@.len() == i,
            forall|x: int|
                0 <= x < i ==> (#[trigger] r@[x])@ == ring::scale(t1@[x]@, 8192) && poly::within(
                    r@[x]@,
                    -8380417,
                    8380417,
                ),
        decreases t1@.len() - i,
    {
        assert(pack::rows(t1@)[i as int] == t1@[i as int]@);
        assert(poly::within(t1@[i as int]@, 0, 1023));
        let mut q = Poly::zero();
        let mut n: usize = 0;
        while n < 256
            invariant
                n <= 256,
                i < t1@.len(),
                poly::within(t1@[i as int]@, 0, 1023),
                forall|m: int| 0 <= m < n ==> #[trigger] q@[m] == 8192 * t1@[i as int]@[m],
                poly::within(q@, 0, 8380416),
            decreases 256 - n,
        {
            assert(0 <= t1@[i as int]@[n as int] <= 1023);
            q.set(n, t1[i].get(n) * 8192);
            n = n + 1;
        }
        assert(q@ =~= ring::scale(t1@[i as int]@, 8192));
        r.push(q);
        i = i + 1;
    }
    r
}

/// az - c * t1 * 2^13 in the NTT domain.
fn subtract_product(az: &Poly, c_hat: &Poly, m: &Poly, Ghost(ch): Ghost<Seq<int>>, Ghost(h): Ghost<
    Seq<int>,
>) -> (r: Poly)
    requires
        poly::within(az@, -67043328, 67043328),
        poly::within(c_hat@, -42950665, 42950665),
        poly::within(m@, -16760833, 16760833),
        ring::pcong(c_hat@, ch),
        lifted(m@, h),
    ensures
        poly::within(r@, -75423744, 75423744),
        forall|n: int| 0 <= n < 256 ==> modq::cong(#[trigger] r@[n], az@[n] - ch[n] * h[n]),
{
    let mut r = Poly::zero();
    let mut n: usize = 0;
    while n < 256
        invariant
            n <= 256,
            poly::within(az@, -67043328, 67043328),
            poly::within(c_hat@, -42950665, 42950665),
            poly::within(m@, -16760833, 16760833),
            ring::pcong(c_hat@, ch),
            lifted(m@, h),
            poly::within(r@, -75423744, 75423744),
            forall|x: int| 0 <= x < n ==> modq::cong(#[trigger] r@[x], az@[x] - ch[x] * h[x]),
        decreases 256 - n,
    {
        let a: i64 = c_hat.get(n) as i64;
        let b: i64 = m.get(n) as i64;
        proof {
            assert(-42950665 <= c_hat@[n as int] <= 42950665);
            assert(-16760833 <= m@[n as int] <= 16760833);
            assert(-67043328 <= az@[n as int] <= 67043328);
            assert(-42950665 * 16760833 <= a * b <= 42950665 * 16760833) by (nonlinear_arith)
                requires
                    -42950665 <= a <= 42950665,
                    -16760833 <= b <= 16760833,
            ;
        }
        let t: i32 = mont_reduce(a * b);
        proof {
            let cn = ch[n as int];
            let hn = h[n as int];
            assert(modq::cong(c_hat@[n as int], cn));
            assert(modq::cong(m@[n as int], hn * 4294967296));
            modq::lemma_cong_mul(a as int, cn, b as int, hn * 4294967296);
            assert(cn * (hn * 4294967296) == (cn * hn) * 4294967296) by (nonlinear_arith);
            modq::lemma_cong_cancel_r(t as int, cn * hn);
            modq::lemma_cong_sub(az@[n as int], az@[n as int], t as int, cn * hn);
        }
        r.set(n, az.get(n) - t);
        n = n + 1;
    }
    r
}

/// The high bits of every coefficient, adjusted by the hint.
fn hinted_vec(gamma2: i32, h: &Vec<Poly>, w: &Vec<Poly>) -> (r: Vec<Poly>)
    requires
        round::is_gamma2(gamma2 as int),
        h@.len() == w@.len(),
        forall|i: int| 0 <= i < w@.len() ==> poly::within((#[trigger] w@[i])@, 0, 8380416),
    ensures
        r@.len() == w@.len(),
        pack::rows(r@) == scheme::hinted_all(gamma2 as int, pack::rows(h@), pack::rows(w@)),
        encode::rows_within(pack::rows(r@), 0, round::classes(gamma2 as int) - 1),
{
    let ghost e = scheme::hinted_all(gamma2 as int, pack::rows(h@), pack::rows(w@));
    let ghost top = round::classes(gamma2 as int) - 1;
    let mut r: Vec<Poly> = Vec::with_capacity(w.len());
    let mut i: usize = 0;
    while i < w.len()
        invariant
            i <= w@.len(),
            h@.len() == w@.len(),
            round::is_gamma2(gamma2 as int),
            e == scheme::hinted_all(gamma2 as int, pack::rows(h@), pack::rows(w@)),
            top == round::classes(gamma2 as int) - 1,
            forall|x: int| 0 <= x < w@.len() ==> poly::within((#[trigger] w@[x])@, 0, 8380416),
            r@.len() == i,
            forall|x: int|
                0 <= x < i ==> (#[trigger] r@[x])@ == e[x] && poly::within(r@[x]@, 0, top),
        decreases w@.len() - i,
    {
        let ghost a = w@[i as int]@;
        let ghost b = h@[i as int]@;
        assert(poly::within(a, 0, 8380416));
        let mut q = Poly::zero();
        let mut n: usize = 0;
        while n < 256
            invariant
                n <= 256,
                i < w@.len(),
                h@.len() == w@.len(),
                round::is_gamma2(gamma2 as int),
                top == round::classes(gamma2 as int) - 1,
                a == w@[i as int]@,
                b == h@[i as int]@,
                poly::within(a, 0, 8380416),
                forall|m: int|
                    0 <= m < n ==> #[trigger] q@[m] == round::hinted(
                        gamma2 as int,
                        b[m] != 0,
                        a[m],
                    ),
                poly::within(q@, 0, top),
            decreases 256 - n,
        {
            assert(0 <= a[n as int] <= 8380416);
            q.set(n, use_hint(gamma2, h[i].get(n), w[i].get(n)));
            n = n + 1;
        }
        assert(q@ =~= e[i as int]);
        r.push(q);
        i = i + 1;
    }
    assert(pack::rows(r@) =~= e);
    assert forall|x: int| 0 <= x < w@.len() implies (#[trigger] pack::rows(r@)[x]).len() == 256
        && poly::within(pack::rows(r@)[x], 0, top) by {
        assert(pack::rows(r@)[x] == r@[x]@);
    }
    r
}

/// w' = A * z - c * t1 * 2^13 (Alg 8). `None` when a matrix entry cannot be
/// sampled.
fn recover(
    k: usize,
    rho: &[u8; 32],
    t1: &Vec<Poly>,
    c: &Poly,
    z: &Vec<Poly>,
) -> (r: Option<Vec<Poly>>)
    requires
        k <= 8,
        t1@.len() == k,
        z@.len() <= 8,
        encode::rows_within(pack::rows(t1@), 0, 1023),
        poly::within(c@, -1, 1),
        forall|i: int| 0 <= i < z@.len() ==> poly::within((#[trigger] z@[i])@, -8380417, 8380417),
    ensures
        r is Some <==> sample::matrix_defined(rho@, k as int, z@.len() as int),
        r matches Some(w) ==> w@.len() == k && pack::rows(w@) == scheme::recovered(
            rho@,
            pack::rows(t1@),
            c@,
            pack::rows(z@),
        ) && forall|i: int| 0 <= i < k ==> poly::within((#[trigger] w@[i])@, 0, 8380416),
{
    let shifted = shift_vec(t1);
    let t1_hat = hat_mont(&shifted);
    let mut c_hat: Poly = c.clone();
    let ghost ch = ring::ntt(c@);
    assert(poly::within(c_hat@, -8380417, 8380417) && poly::within(
        c_hat@,
        -2080440311,
        2080440311,
    )) by {
        assert forall|n: int| 0 <= n < 256 implies -1 <= #[trigger] c_hat@[n] <= 1 by {
            assert(-1 <= c@[n] <= 1);
        }
    }
    ntt_inplace(&mut c_hat);
    let u = ntt_vec(z);
    assert forall|i: int| 0 <= i < u@.len() implies poly::within(
        (#[trigger] u@[i])@,
        -67000000,
        67000000,
    ) by {
        assert(poly::within(u@[i]@, -42950665, 42950665));
    }
    let az = match matrix_mul_streaming(k, rho, &u) {
        Some(az) => az,
        None => {
            return None;
        },
    };
    let ghost us = pack::rows(u@);
    let ghost vs = scheme::ntt_all(pack::rows(z@));
    let mut d: Vec<Poly> = Vec::with_capacity(k);
    let mut i: usize = 0;
    while i < k
        invariant
            i <= k,
            k == az@.len(),
            k == t1_hat@.len(),
            k == shifted@.len(),
            poly::within(c_hat@, -42950665, 42950665),
            ring::pcong(c_hat@, ch),
            us == pack::rows(u@),
            forall|x: int|
                0 <= x < k ==> poly::within((#[trigger] az@[x])@, -67043328, 67043328) && forall|
                    n: int,
                |
                    0 <= n < 256 ==> modq::cong(
                        #[trigger] az@[x]@[n],
                        sample::row_dot(rho@, us, x, n, u@.len()),
                    ),
            forall|x: int|
                0 <= x < k ==> poly::within((#[trigger] t1_hat@[x])@, -16760833, 16760833)
                    && lifted(t1_hat@[x]@, ring::ntt(shifted@[x]@)),
            d@.len() == i,
            forall|x: int|
                0 <= x < i ==> poly::within((#[trigger] d@[x])@, -75423744, 75423744) && forall|
                    n: int,
                |
                    0 <= n < 256 ==> modq::cong(
                        #[trigger] d@[x]@[n],
                        az@[x]@[n] - ch[n] * ring::ntt(shifted@[x]@)[n],
                    ),
        decreases k - i,
    {
        assert(poly::within(az@[i as int]@, -67043328, 67043328));
        assert(poly::within(t1_hat@[i as int]@, -16760833, 16760833));
        d.push(
            subtract_product(
                &az[i],
                &c_hat,
                &t1_hat[i],
                Ghost(ch),
                Ghost(ring::ntt(shifted@[i as int]@)),
            ),
        );
        i = i + 1;
    }
    let w = invert_vec(&d);
    proof {
        let e = scheme::recovered(rho@, pack::rows(t1@), c@, pack::rows(z@));
        assert forall|x: int| 0 <= x < k implies pack::rows(w@)[x] == e[x] by {
            let a = Seq::new(
                256,
                |n: int|
                    scheme::row_product(rho@, vs, x)[n] - ring::ntt(c@)[n] * ring::ntt(
                        ring::scale(pack::rows(t1@)[x], 8192),
                    )[n],
            );
            assert(pack::rows(t1@)[x] == t1@[x]@);
            assert(shifted@[x]@ == ring::scale(t1@[x]@, 8192));
            assert(poly::within(d@[x]@, -75423744, 75423744));
            assert(poly::within(az@[x]@, -67043328, 67043328));
            assert forall|n: int| 0 <= n < 256 implies modq::cong(#[trigger] d@[x]@[n], a[n]) by {
                assert forall|y: int| 0 <= y < us.len() implies ring::pcong(
                    #[trigger] us[y],
                    vs[y],
                ) by {
                    assert(us[y] == u@[y]@);
                    assert(vs[y] == ring::ntt(z@[y]@));
                }
                lemma_row_dot_cong(rho@, us, vs, x, n, us.len());
                let s = ch[n] * ring::ntt(shifted@[x]@)[n];
                assert(modq::cong(az@[x]@[n], scheme::row_product(rho@, vs, x)[n]));
                modq::lemma_cong_sub(
                    az@[x]@[n],
                    scheme::row_product(rho@, vs, x)[n],
                    s,
                    s,
                );
            }
            lemma_inv_cong(d@[x]@, a);
            assert(w@[x]@ == ring::inv_ntt(d@[x]@));
        }
        assert(pack::rows(w@) =~= e);
    }
    Some(w)
}

/// Verifies signature `sig` on `msg` under context `ctx` against the encoded
/// public key `pk` (Alg 8). Malformed keys or signatures verify as `false`, and
/// so does a signature for which a hash stream does not hold enough values.
pub fn verify<const K: usize, const L: usize>(
    p: &Params,
    pk: &[u8],
    msg: &[u8],
    ctx: &[u8],
    sig: &[u8],
) -> (r: bool)
    requires
        params::supported(*p),
        p.k == K,
        p.l == L,
    ensures
        r == scheme::valid(*p, pk@, msg@, ctx@, sig@),
{
    if ctx.len() > 255 || pk.len() != p.pk_len || sig.len() != p.sig_len {
        return false;
    }
    let (rho, t1) = match pk_decode(p.k, pk) {
        Ok(v) => v,
        Err(_) => {
            return false;
        },
    };
    let ghost ct = sig@.take(p.lambda_div4 as int);
    proof {
        let g = pack::rows(t1@);
        assert forall|i: int| 0 <= i < p.k implies scheme::decoded_t1(*p, pk@)[i] == g[i] by {
            encode::lemma_pk_rows(rho@, g, i);
        }
        assert(scheme::decoded_t1(*p, pk@) =~= g);
    }
    let (c_tilde, z, h) = match sig_decode(p.k, p.l, p.gamma1, p.omega, p.lambda_div4, sig) {
        Ok(v) => v,
        Err(_) => {
            return false;
        },
    };
    let tr = shake256(pk, 64);
    assert(tr@ =~= xof::stream256(pk@, 64));
    let mu = message_rep(&tr, ctx, msg);
    let ghost zs = pack::rows(z@);
    let ghost hs = pack::rows(h@);
    proof {
        // Any response and hint that `sig` encodes are the decoded ones.
        assert forall|y: Seq<Seq<int>>, g: Seq<Seq<int>>| #[trigger]
            scheme::encodes_accepted(*p, pk@, mu@, sig@, y, g) implies y == zs && g == hs by {
            encode::lemma_sig_unique(p.gamma1 as int, p.omega as int, ct, zs, hs, y, g);
        }
        assert forall|i: int| 0 <= i < z@.len() implies poly::within(
            (#[trigger] z@[i])@,
            -8380417,
            8380417,
        ) && poly::within(z@[i]@, -2147483648, 2143289343) by {
            assert(zs[i] == z@[i]@);
            assert(poly::within(zs[i], -p.gamma1 + 1, p.gamma1 as int));
        }
    }
    let c = match sample_in_ball(p.tau, &c_tilde) {
        Some(c) => c,
        None => {
            return false;
        },
    };
    let wp = match recover(p.k, &rho, &t1, &c, &z) {
        Some(w) => w,
        None => {
            return false;
        },
    };
    let wp1 = hinted_vec(p.gamma2, &h, &wp);
    let c_tilde_p = commitment(p, &mu, &wp1);
    let small: bool = infinity_norm(&z) < p.gamma1 - p.beta;
    let same: bool = same_bytes(&c_tilde, &c_tilde_p);
    proof {
        assert(scheme::norm_below(zs, p.gamma1 - p.beta) == small);
        assert(scheme::encodes_accepted(*p, pk@, mu@, sig@, zs, hs) == (small && same));
    }
    small && same
}

impl<const K: usize, const L: usize> ExpandedKey<K, L> {
    /// The expanded key of encoded secret-key bytes (Alg 25 and the
    /// precomputation for signing). The secret key does not hold `t1`, which is
    /// left zero: such a key signs, but has no public key to emit.
    pub fn from_sk_bytes(p: &Params, sk: &[u8]) -> (key: Self)
        requires
            params::supported(*p),
            p.k == K,
            p.l == L,
            sk@.len() == 128 + 32 * encode::eta_width(p.eta as int) * p.l + 32 * encode::eta_width(
                p.eta as int,
            ) * p.k + 416 * p.k,
        ensures
            key.wf(*p),
            ({
                let c = encode::eta_width(p.eta as int);
                let e = p.eta as int;
                let off2 = 128 + 32 * c * p.l;
                let off3 = off2 + 32 * c * p.k;
                &&& key@.rho == sk@.subrange(0, 32)
                &&& key@.cap_k == sk@.subrange(32, 64)
                &&& key@.tr == sk@.subrange(64, 128)
                &&& key@.t1 == Seq::new(p.k as nat, |i: int| poly::zero_seq())
                &&& key@.s1_hat == Seq::new(
                    p.l as nat,
                    |i: int| ring::ntt(encode::row_at(sk@, 128, e, e, c, i)->0),
                )
                &&& key@.s2_hat == Seq::new(
                    p.k as nat,
                    |i: int| ring::ntt(encode::row_at(sk@, off2, e, e, c, i)->0),
                )
                &&& key@.t0_hat == Seq::new(
                    p.k as nat,
                    |i: int| ring::ntt(encode::row_at(sk@, off3, 4095, 4096, 13, i)->0),
                )
            }),
    {
        let d = encode::sk_decode(p.k, p.l, p.eta, sk);
        proof {
            assert forall|i: int| 0 <= i < d.s1@.len() implies poly::within(
                (#[trigger] d.s1@[i])@,
                -8380417,
                8380417,
            ) by {
                assert(poly::within(d.s1@[i]@, -11, 4));
            }
            assert forall|i: int| 0 <= i < d.s2@.len() implies poly::within(
                (#[trigger] d.s2@[i])@,
                -8380417,
                8380417,
            ) by {
                assert(poly::within(d.s2@[i]@, -11, 4));
            }
            assert forall|i: int| 0 <= i < d.t0@.len() implies poly::within(
                (#[trigger] d.t0@[i])@,
                -8380417,
                8380417,
            ) by {
                assert(poly::within(d.t0@[i]@, -4095, 4096));
            }
        }
        let t1 = poly::zero_vec(p.k);
        let s1_hat_mont = hat_mont(&d.s1);
        let s2_hat_mont = hat_mont(&d.s2);
        let t0_hat_mont = hat_mont(&d.t0);
        proof {
            lemma_hat(d.s1@, s1_hat_mont@);
            lemma_hat(d.s2@, s2_hat_mont@);
            lemma_hat(d.t0@, t0_hat_mont@);
            assert forall|i: int| 0 <= i < t1@.len() implies (#[trigger] pack::rows(
                t1@,
            )[i]).len() == 256 && poly::within(pack::rows(t1@)[i], 0, 1023) by {
                assert(pack::rows(t1@)[i] == t1@[i]@);
            }
        }
        let key = ExpandedKey {
            rho: d.rho,
            cap_k: d.cap_k,
            tr: d.tr,
            t1,
            s1_hat_mont,
            s2_hat_mont,
            t0_hat_mont,
        };
        proof {
            let c = encode::eta_width(p.eta as int);
            let e = p.eta as int;
            let off2 = 128 + 32 * c * p.l;
            let off3 = off2 + 32 * c * p.k;
            assert(key@.t1 =~= Seq::new(p.k as nat, |i: int| poly::zero_seq()));
            assert(key@.s1_hat =~= Seq::new(
                p.l as nat,
                |i: int| ring::ntt(encode::row_at(sk@, 128, e, e, c, i)->0),
            ));
            assert(key@.s2_hat =~= Seq::new(
                p.k as nat,
                |i: int| ring::ntt(encode::row_at(sk@, off2, e, e, c, i)->0),
            ));
            assert(key@.t0_hat =~= Seq::new(
                p.k as nat,
                |i: int| ring::ntt(encode::row_at(sk@, off3, 4095, 4096, 13, i)->0),
            ));
        }
        key
    }
}

}
