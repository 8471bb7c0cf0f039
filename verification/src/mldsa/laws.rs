//! What holds of the scheme as a whole: an honest signature verifies.

use vstd::prelude::*;

use crate::mldsa::encode;
use crate::mldsa::modq;
use crate::mldsa::pack;
use crate::mldsa::params;
use crate::mldsa::params::Params;
use crate::mldsa::poly;
use crate::mldsa::ring;
use crate::mldsa::round;
use crate::mldsa::sample;
use crate::mldsa::scheme;
use crate::mldsa::scheme::{Attempt, KeyData};
use crate::mldsa::xof;

verus! {

/// The transform followed by its inverse gives back a polynomial reduced to
/// [0, q).
pub proof fn law_ntt_round_trip(x: Seq<int>)
    requires
        x.len() == 256,
        poly::within(x, 0, 8380416),
    ensures
        ring::inv_ntt(ring::ntt(x)) == x,
{
    ring::lemma_inv_ntt(x);
    assert forall|n: int| 0 <= n < 256 implies ring::inv_ntt(ring::ntt(x))[n] == x[n] by {
        assert(modq::cong(ring::inv_ntt(ring::ntt(x))[n], x[n]));
        modq::lemma_res_range(x[n]);
        modq::lemma_res_range(8347681 * ring::inv_layers(ring::ntt(x), 1)[n]);
    }
    assert(ring::inv_ntt(ring::ntt(x)) =~= x);
}

/// The inverse in place undoes the transform in place: whatever `ntt_inplace`
/// makes of a polynomial reduced to [0, q), `inv_ntt_inplace` makes that
/// polynomial of it.
pub proof fn law_in_place_round_trip(x: Seq<int>, y: Seq<int>)
    requires
        x.len() == 256,
        poly::within(x, 0, 8380416),
        ring::pcong(y, ring::ntt(x)),
    ensures
        ring::inv_ntt(y) == x,
{
    law_ntt_round_trip(x);
    ring::lemma_inv_layers_cong(y, ring::ntt(x), 1);
    assert forall|p: int| 0 <= p < 256 implies ring::inv_ntt(y)[p] == ring::inv_ntt(
        ring::ntt(x),
    )[p] by {
        modq::lemma_cong_mul(
            8347681,
            8347681,
            ring::inv_layers(y, 1)[p],
            ring::inv_layers(ring::ntt(x), 1)[p],
        );
    }
    assert(ring::inv_ntt(y) =~= ring::inv_ntt(ring::ntt(x)));
}

/// The transform of a sum is the sum of the transforms, modulo q.
pub proof fn law_ntt_is_linear(a: Seq<int>, b: Seq<int>, sum: Seq<int>)
    requires
        a.len() == 256,
        b.len() == 256,
        sum.len() == 256,
        forall|n: int| 0 <= n < 256 ==> modq::cong(#[trigger] sum[n], a[n] + b[n]),
    ensures
        forall|n: int|
            0 <= n < 256 ==> modq::cong(
                ring::ntt(a)[n] + ring::ntt(b)[n],
                #[trigger] ring::ntt(sum)[n],
            ),
{
    let w = Seq::new(256, |n: int| a[n] + b[n]);
    ring::lemma_ntt_cong(sum, w);
    assert forall|n: int| 0 <= n < 256 implies #[trigger] w[n] == a[n] + 1 * b[n] by {}
    ring::lemma_ntt_linear(w, a, 1, b);
    assert forall|n: int| 0 <= n < 256 implies modq::cong(
        ring::ntt(a)[n] + ring::ntt(b)[n],
        #[trigger] ring::ntt(sum)[n],
    ) by {
        assert(modq::cong(ring::ntt(w)[n], ring::ntt(a)[n] + 1 * ring::ntt(b)[n]));
    }
}

/// Splitting a coefficient at 2^13 and putting it together again changes
/// nothing, and the low part is centered.
pub proof fn law_power2round_reconstructs(r: int)
    requires
        0 <= r < 8380417,
    ensures
        r == round::p2r_high(r) * 8192 + round::p2r_low(r),
        -4096 < round::p2r_low(r) <= 4096,
{
    round::lemma_power2round(r);
}

/// An encoded public key holds the rows it was made from.
pub proof fn law_pk_decode_encode(rho: Seq<u8>, t1: Seq<Seq<int>>, i: int)
    requires
        rho.len() == 32,
        encode::rows_within(t1, 0, 1023),
        0 <= i < t1.len(),
    ensures
        encode::pk_bytes(rho, t1).take(32) == rho,
        encode::row_at(encode::pk_bytes(rho, t1), 32, 0, 1023, 10, i) == Some(t1[i]),
{
    encode::lemma_pk_rows(rho, t1, i);
    assert(encode::pk_bytes(rho, t1).take(32) =~= rho);
}

/// A small correction does not change the high bits where the low bits keep a
/// margin.
proof fn lemma_high_stable(g: int, r: int, e: int, beta: int)
    requires
        round::is_gamma2(g),
        0 <= beta <= 1000,
        -(g - beta) < round::low(g, r) < g - beta,
        -beta <= e <= beta,
    ensures
        round::high(g, r + e) == round::high(g, r),
{
    round::lemma_decomposed(g, r);
    round::lemma_decomposed(g, r + e);
    modq::lemma_res_range(r);
    modq::lemma_res_range(r + e);
    let rp = modq::res(r);
    let sp = modq::res(r + e);
    modq::lemma_cong_add(rp, r, e, e);
    modq::lemma_res_range(rp + e);
    assert(sp == rp + e || sp == rp + e - 8380417 || sp == rp + e + 8380417) by {
        reveal(modq::res);
    }
    let a = round::rounded(g, rp);
    let b = round::rounded(g, sp);
    if g == 95232 {
        assert(a == (rp + 95231) / 190464 && b == (sp + 95231) / 190464);
        assert(a * (2 * g) == 190464 * a) by (nonlinear_arith)
            requires
                g == 95232,
        ;
    } else {
        assert(a == (rp + 261887) / 523776 && b == (sp + 261887) / 523776);
        assert(a * (2 * g) == 523776 * a) by (nonlinear_arith)
            requires
                g == 261888,
        ;
    }
}

/// The centered residue is congruent to the value.
proof fn lemma_centered_cong(x: int)
    ensures
        modq::cong(scheme::centered(x), x),
        -4190208 <= scheme::centered(x) <= 4190208,
{
    modq::lemma_res_range(x);
    modq::lemma_cong_multiple(modq::res(x) - 8380417, modq::res(x), -1);
}

/// A product given by transforms is the ring product, modulo q.
proof fn lemma_times(c: Seq<int>, s: Seq<int>)
    requires
        c.len() == 256,
        s.len() == 256,
    ensures
        ring::pcong(
            ring::inv_ntt(ring::pointwise(ring::ntt(c), ring::ntt(s))),
            ring::ring_mul(c, s),
        ),
        ring::pcong(
            ring::ntt(ring::inv_ntt(ring::pointwise(ring::ntt(c), ring::ntt(s)))),
            ring::pointwise(ring::ntt(c), ring::ntt(s)),
        ),
{
    ring::lemma_ntt_mul(c, s);
    ring::lemma_inv_unique(
        ring::ring_mul(c, s),
        ring::pointwise(ring::ntt(c), ring::ntt(s)),
    );
    ring::lemma_ntt_inv(ring::pointwise(ring::ntt(c), ring::ntt(s)));
}

/// The matrix product is linear in the vector.
proof fn lemma_row_dot_linear(
    rho: Seq<u8>,
    w: Seq<Seq<int>>,
    u: Seq<Seq<int>>,
    c: int,
    v: Seq<Seq<int>>,
    i: int,
    n: int,
    j: nat,
)
    requires
        0 <= n < 256,
        forall|x: int|
            0 <= x < j ==> modq::cong((#[trigger] w[x])[n], u[x][n] + c * v[x][n]),
    ensures
        modq::cong(
            sample::row_dot(rho, w, i, n, j),
            sample::row_dot(rho, u, i, n, j) + c * sample::row_dot(rho, v, i, n, j),
        ),
    decreases j,
{
    if j > 0 {
        let m = (j - 1) as nat;
        lemma_row_dot_linear(rho, w, u, c, v, i, n, m);
        let a = (sample::matrix_entry(rho, m as u8, i as u8)->0)[n];
        let x = w[m as int][n];
        let y = u[m as int][n];
        let z = v[m as int][n];
        modq::lemma_cong_mul(a, a, x, y + c * z);
        let du = sample::row_dot(rho, u, i, n, m);
        let dv = sample::row_dot(rho, v, i, n, m);
        modq::lemma_cong_add(
            sample::row_dot(rho, w, i, n, m),
            du + c * dv,
            a * x,
            a * (y + c * z),
        );
        assert(du + c * dv + a * (y + c * z) == (du + a * y) + c * (dv + a * z))
            by (nonlinear_arith);
    } else {
        assert(c * 0 == 0);
    }
}

/// Some attempt produced the signature.
proof fn lemma_sign_from(
    p: Params,
    key: KeyData,
    mu: Seq<u8>,
    rho_pp: Seq<u8>,
    kappa: int,
) -> (at: int)
    requires
        scheme::sign_from(p, key, mu, rho_pp, kappa) is Some,
    ensures
        ({
            let a = scheme::attempt(p, key, mu, rho_pp, at);
            &&& sample::matrix_defined(key.rho, p.k as int, p.l as int)
            &&& a.c is Some
            &&& scheme::passes(p, a)
            &&& scheme::sign_from(p, key, mu, rho_pp, kappa) == Some(scheme::encoded(p, a))
        }),
    decreases 65536 - kappa,
{
    let a = scheme::attempt(p, key, mu, rho_pp, kappa);
    if scheme::passes(p, a) {
        kappa
    } else {
        lemma_sign_from(p, key, mu, rho_pp, kappa + p.l)
    }
}

/// The shape of the key material that a seed expands to.
proof fn lemma_key_shape(p: Params, xi: Seq<u8>)
    requires
        params::supported(p),
        scheme::keygen_defined(p, xi),
    ensures
        scheme::seed_rho(p, xi).len() == 32,
        forall|j: int|
            0 <= j < p.l ==> (#[trigger] scheme::seed_s1(p, xi)[j]).len() == 256,
        forall|i: int|
            0 <= i < p.k ==> (#[trigger] scheme::seed_s2(p, xi)[i]).len() == 256 && poly::within(
                scheme::seed_s2(p, xi)[i],
                -p.eta as int,
                p.eta as int,
            ),
        encode::rows_within(scheme::high_part(scheme::seed_t(p, xi)), 0, 1023),
{
    let rp = scheme::seed_rho_prime(p, xi);
    assert forall|j: int| 0 <= j < p.l implies (#[trigger] scheme::seed_s1(p, xi)[j]).len()
        == 256 by {
        assert(sample::secret_entry(p.eta as int, rp, j) is Some);
        sample::lemma_secret_entry(p.eta as int, rp, j);
    }
    assert forall|i: int| 0 <= i < p.k implies (#[trigger] scheme::seed_s2(p, xi)[i]).len() == 256
        && poly::within(scheme::seed_s2(p, xi)[i], -p.eta as int, p.eta as int) by {
        assert(sample::secret_entry(p.eta as int, rp, p.l + i) is Some);
        sample::lemma_secret_entry(p.eta as int, rp, p.l + i);
    }
    let t = scheme::seed_t(p, xi);
    let h = scheme::high_part(t);
    assert forall|i: int| 0 <= i < h.len() implies (#[trigger] h[i]).len() == 256 && poly::within(
        h[i],
        0,
        1023,
    ) by {
        assert forall|n: int| 0 <= n < 256 implies 0 <= #[trigger] h[i][n] <= 1023 by {
            let a = scheme::mat_vec(
                scheme::seed_rho(p, xi),
                scheme::ntt_all(scheme::seed_s1(p, xi)),
                p.k as nat,
            );
            modq::lemma_res_range(a[i][n] + scheme::seed_s2(p, xi)[i][n]);
            round::lemma_power2round(t[i][n]);
        }
    }
}

/// In the NTT domain, A * s1 is 2^13 * t1 + t0 - s2.
proof fn lemma_key_equation(p: Params, xi: Seq<u8>, i: int, n: int)
    requires
        params::supported(p),
        scheme::keygen_defined(p, xi),
        0 <= i < p.k,
        0 <= n < 256,
    ensures
        ({
            let t = scheme::seed_t(p, xi);
            let key = scheme::keygen(p, xi);
            modq::cong(
                sample::row_dot(key.rho, key.s1_hat, i, n, p.l as nat) + key.s2_hat[i][n],
                ring::ntt(ring::scale(scheme::high_part(t)[i], 8192))[n] + key.t0_hat[i][n],
            )
        }),
{
    let key = scheme::keygen(p, xi);
    let rho = key.rho;
    let t = scheme::seed_t(p, xi);
    let s2 = scheme::seed_s2(p, xi);
    let a = scheme::mat_vec(rho, key.s1_hat, p.k as nat);
    let prod = scheme::row_product(rho, key.s1_hat, i);
    lemma_key_shape(p, xi);
    // ntt(a[i]) is the row product
    ring::lemma_ntt_inv(prod);
    assert(a[i] == ring::inv_ntt(prod));
    assert(modq::cong(ring::ntt(a[i])[n], prod[n]));
    // t[i] is a[i] + s2[i] modulo q
    let sum = Seq::new(256, |m: int| a[i][m] + s2[i][m]);
    assert(ring::pcong(t[i], sum)) by {
        assert forall|m: int| 0 <= m < 256 implies modq::cong(#[trigger] t[i][m], sum[m]) by {
            modq::lemma_res_range(a[i][m] + s2[i][m]);
        }
    }
    ring::lemma_ntt_cong(t[i], sum);
    assert forall|m: int| 0 <= m < 256 implies #[trigger] sum[m] == a[i][m] + 1 * s2[i][m] by {}
    ring::lemma_ntt_linear(sum, a[i], 1, s2[i]);
    assert(modq::cong(ring::ntt(sum)[n], ring::ntt(a[i])[n] + 1 * ring::ntt(s2[i])[n]));
    modq::lemma_cong_add(
        ring::ntt(a[i])[n],
        prod[n],
        ring::ntt(s2[i])[n],
        ring::ntt(s2[i])[n],
    );
    // t[i] is 2^13 * t1[i] + t0[i]
    let t1 = scheme::high_part(t)[i];
    let t0 = scheme::low_part(t)[i];
    let sc = ring::scale(t1, 8192);
    assert forall|m: int| 0 <= m < 256 implies #[trigger] t[i][m] == sc[m] + 1 * t0[m] by {
        modq::lemma_res_range(a[i][m] + s2[i][m]);
        round::lemma_power2round(t[i][m]);
    }
    ring::lemma_ntt_linear(t[i], sc, 1, t0);
    assert(modq::cong(ring::ntt(t[i])[n], ring::ntt(sc)[n] + 1 * ring::ntt(t0)[n]));
    assert(key.s2_hat[i] == ring::ntt(s2[i]));
    assert(key.t0_hat[i] == ring::ntt(t0));
}

/// The commitment that the verifier recovers is w - c * s2 + c * t0.
proof fn lemma_recovered(
    p: Params,
    xi: Seq<u8>,
    c: Seq<int>,
    y: Seq<Seq<int>>,
    z: Seq<Seq<int>>,
    i: int,
)
    requires
        params::supported(p),
        scheme::keygen_defined(p, xi),
        c.len() == 256,
        y.len() == p.l,
        forall|j: int| 0 <= j < p.l ==> (#[trigger] y[j]).len() == 256,
        z == scheme::response(
            y,
            scheme::times_all(ring::ntt(c), scheme::keygen(p, xi).s1_hat),
        ),
        0 <= i < p.k,
    ensures
        ({
            let key = scheme::keygen(p, xi);
            let ch = ring::ntt(c);
            let w = scheme::mat_vec(key.rho, scheme::ntt_all(y), p.k as nat);
            let cs2 = scheme::times_all(ch, key.s2_hat);
            let ct0 = scheme::times_all(ch, key.t0_hat);
            let r = scheme::recovered(key.rho, key.t1, c, z);
            forall|n: int|
                0 <= n < 256 ==> modq::cong(
                    #[trigger] r[i][n],
                    w[i][n] - cs2[i][n] + ct0[i][n],
                )
        }),
{
    let key = scheme::keygen(p, xi);
    let ch = ring::ntt(c);
    let yh = scheme::ntt_all(y);
    let zh = scheme::ntt_all(z);
    let w = scheme::mat_vec(key.rho, yh, p.k as nat);
    let cs1 = scheme::times_all(ch, key.s1_hat);
    let cs2 = scheme::times_all(ch, key.s2_hat);
    let ct0 = scheme::times_all(ch, key.t0_hat);
    let s1 = scheme::seed_s1(p, xi);
    let s2 = scheme::seed_s2(p, xi);
    let t0 = scheme::low_part(scheme::seed_t(p, xi));
    lemma_key_shape(p, xi);
    let prod = scheme::row_product(key.rho, yh, i);
    ring::lemma_ntt_inv(prod);
    lemma_times(c, s2[i]);
    lemma_times(c, t0[i]);
    assert(key.s2_hat[i] == ring::ntt(s2[i]));
    assert(key.t0_hat[i] == ring::ntt(t0[i]));
    // ntt(z[j]) = ntt(y[j]) + ch * s1_hat[j]
    assert forall|j: int, n: int| 0 <= j < p.l && 0 <= n < 256 implies modq::cong(
        (#[trigger] zh[j])[n],
        #[trigger] yh[j][n] + ch[n] * key.s1_hat[j][n],
    ) by {
        lemma_times(c, s1[j]);
        assert(key.s1_hat[j] == ring::ntt(s1[j]));
        let sum = Seq::new(256, |m: int| y[j][m] + cs1[j][m]);
        assert(ring::pcong(z[j], sum)) by {
            assert forall|m: int| 0 <= m < 256 implies modq::cong(#[trigger] z[j][m], sum[m]) by {
                lemma_centered_cong(y[j][m] + cs1[j][m]);
            }
        }
        ring::lemma_ntt_cong(z[j], sum);
        assert forall|m: int| 0 <= m < 256 implies #[trigger] sum[m] == y[j][m] + 1 * cs1[j][m] by {}
        ring::lemma_ntt_linear(sum, y[j], 1, cs1[j]);
        assert(modq::cong(ring::ntt(sum)[n], ring::ntt(y[j])[n] + 1 * ring::ntt(cs1[j])[n]));
        let e = ring::pointwise(ch, key.s1_hat[j]);
        assert(cs1[j] == ring::inv_ntt(e));
        assert(modq::cong(ring::ntt(cs1[j])[n], e[n]));
        modq::lemma_res_range(ch[n] * key.s1_hat[j][n]);
        modq::lemma_cong_add(
            yh[j][n],
            yh[j][n],
            ring::ntt(cs1[j])[n],
            ch[n] * key.s1_hat[j][n],
        );
    }
    let sc = ring::scale(key.t1[i], 8192);
    let big = Seq::new(
        256,
        |n: int| scheme::row_product(key.rho, zh, i)[n] - ring::ntt(c)[n] * ring::ntt(sc)[n],
    );
    let x = Seq::new(256, |n: int| w[i][n] - cs2[i][n] + ct0[i][n]);
    let mid = Seq::new(256, |n: int| w[i][n] + (-1) * cs2[i][n]);
    assert forall|n: int| 0 <= n < 256 implies #[trigger] mid[n] == w[i][n] + (-1) * cs2[i][n] by {}
    ring::lemma_ntt_linear(mid, w[i], -1, cs2[i]);
    assert forall|n: int| 0 <= n < 256 implies #[trigger] x[n] == mid[n] + 1 * ct0[i][n] by {}
    ring::lemma_ntt_linear(x, mid, 1, ct0[i]);
    assert forall|n: int| 0 <= n < 256 implies modq::cong(#[trigger] ring::ntt(x)[n], big[n]) by {
        let e2 = ring::pointwise(ch, key.s2_hat[i]);
        let e0 = ring::pointwise(ch, key.t0_hat[i]);
        let cn = ch[n];
        let s2n = key.s2_hat[i][n];
        let t0n = key.t0_hat[i][n];
        let dy = sample::row_dot(key.rho, yh, i, n, p.l as nat);
        let ds = sample::row_dot(key.rho, key.s1_hat, i, n, p.l as nat);
        let dz = sample::row_dot(key.rho, zh, i, n, p.l as nat);
        let scn = ring::ntt(sc)[n];
        assert(modq::cong(ring::ntt(w[i])[n], prod[n]));
        assert(prod[n] == dy);
        assert(modq::cong(ring::ntt(cs2[i])[n], e2[n]));
        assert(modq::cong(ring::ntt(ct0[i])[n], e0[n]));
        modq::lemma_res_range(cn * s2n);
        modq::lemma_res_range(cn * t0n);
        modq::lemma_cong_sub(ring::ntt(w[i])[n], dy, ring::ntt(cs2[i])[n], cn * s2n);
        modq::lemma_cong_add(
            ring::ntt(w[i])[n] - ring::ntt(cs2[i])[n],
            dy - cn * s2n,
            ring::ntt(ct0[i])[n],
            cn * t0n,
        );
        assert(modq::cong(ring::ntt(mid)[n], ring::ntt(w[i])[n] + (-1) * ring::ntt(cs2[i])[n]));
        assert(modq::cong(ring::ntt(x)[n], ring::ntt(mid)[n] + 1 * ring::ntt(ct0[i])[n]));
        modq::lemma_cong_add(
            ring::ntt(mid)[n],
            ring::ntt(w[i])[n] - ring::ntt(cs2[i])[n],
            ring::ntt(ct0[i])[n],
            ring::ntt(ct0[i])[n],
        );
        assert(modq::cong(ring::ntt(x)[n], dy - cn * s2n + cn * t0n));
        // the verifier's side
        assert forall|j: int| 0 <= j < p.l implies modq::cong(
            (#[trigger] zh[j])[n],
            yh[j][n] + cn * key.s1_hat[j][n],
        ) by {
            assert(modq::cong(zh[j][n], yh[j][n] + ch[n] * key.s1_hat[j][n]));
        }
        lemma_row_dot_linear(key.rho, zh, yh, cn, key.s1_hat, i, n, p.l as nat);
        lemma_key_equation(p, xi, i, n);
        modq::lemma_cong_sub(ds + s2n, scn + t0n, s2n, s2n);
        modq::lemma_cong_mul(cn, cn, ds, scn + t0n - s2n);
        modq::lemma_cong_add(dy, dy, cn * ds, cn * (scn + t0n - s2n));
        modq::lemma_cong_sub(dz, dy + cn * (scn + t0n - s2n), cn * scn, cn * scn);
        assert(dy + cn * (scn + t0n - s2n) - cn * scn == dy - cn * s2n + cn * t0n)
            by (nonlinear_arith);
        assert(big[n] == dz - cn * scn);
    }
    ring::lemma_inv_unique(x, big);
    let r = scheme::recovered(key.rho, key.t1, c, z);
    assert(r[i] == ring::inv_ntt(big));
    assert forall|n: int| 0 <= n < 256 implies modq::cong(
        #[trigger] r[i][n],
        w[i][n] - cs2[i][n] + ct0[i][n],
    ) by {
        assert(modq::cong(ring::inv_ntt(big)[n], x[n]));
    }
}

/// The hint lets the verifier recover the signer's high bits.
proof fn lemma_high_bits_recovered(
    p: Params,
    xi: Seq<u8>,
    mu: Seq<u8>,
    rho_pp: Seq<u8>,
    kappa: int,
)
    requires
        params::supported(p),
        scheme::keygen_defined(p, xi),
        ({
            let a = scheme::attempt(p, scheme::keygen(p, xi), mu, rho_pp, kappa);
            a.c is Some && scheme::passes(p, a)
        }),
    ensures
        ({
            let key = scheme::keygen(p, xi);
            let a = scheme::attempt(p, key, mu, rho_pp, kappa);
            let w = scheme::mat_vec(
                key.rho,
                scheme::ntt_all(scheme::mask(p, rho_pp, kappa)),
                p.k as nat,
            );
            scheme::hinted_all(
                p.gamma2 as int,
                a.h,
                scheme::recovered(key.rho, key.t1, a.c->0, a.z),
            ) == scheme::high_all(p.gamma2 as int, w)
        }),
{
    let g = p.gamma2 as int;
    let key = scheme::keygen(p, xi);
    let a = scheme::attempt(p, key, mu, rho_pp, kappa);
    let y = scheme::mask(p, rho_pp, kappa);
    let w = scheme::mat_vec(key.rho, scheme::ntt_all(y), p.k as nat);
    let c = a.c->0;
    let ch = ring::ntt(c);
    let cs2 = scheme::times_all(ch, key.s2_hat);
    let ct0 = scheme::times_all(ch, key.t0_hat);
    let s2 = scheme::seed_s2(p, xi);
    let rec = scheme::recovered(key.rho, key.t1, c, a.z);
    sample::lemma_ball_sample(
        p.tau as int,
        xof::stream256(a.c_tilde, sample::XOF_LIMIT as nat),
    );
    lemma_key_shape(p, xi);
    let left = scheme::hinted_all(g, a.h, rec);
    let right = scheme::high_all(g, w);
    assert forall|i: int| 0 <= i < p.k implies left[i] == right[i] by {
        lemma_recovered(p, xi, c, y, a.z, i);
        lemma_times(c, s2[i]);
        assert(key.s2_hat[i] == ring::ntt(s2[i]));
        assert forall|n: int| 0 <= n < 256 implies left[i][n] == right[i][n] by {
            let x = w[i][n] - cs2[i][n];
            let r = x + ct0[i][n];
            assert(modq::cong(rec[i][n], r));
            // the correction -c * t0 is small
            let t = scheme::centered(ct0[i][n]);
            assert(a.ct0 == ct0);
            assert(-g < scheme::centered(a.ct0[i][n]) < g);
            lemma_centered_cong(ct0[i][n]);
            modq::lemma_cong_sub(r, r, t, ct0[i][n]);
            assert(modq::cong(r - t, x));
            round::law_hint_recovers_high_bits(g, -t, r);
            assert(r + (-t) == r - t);
            assert(round::high(g, r - t) == round::high(g, x));
            assert(a.h[i][n] == (if round::high(g, w[i][n] - cs2[i][n] + ct0[i][n]) != round::high(
                g,
                w[i][n] - cs2[i][n],
            ) {
                1int
            } else {
                0int
            }));
            assert(round::hinted(g, a.h[i][n] != 0, rec[i][n]) == round::hinted(
                g,
                a.h[i][n] != 0,
                r,
            ));
            assert(left[i][n] == round::high(g, x));
            // so is c * s2
            let e = ring::ring_mul(c, s2[i])[n];
            ring::lemma_conv_bound(c, s2[i], 256, n, p.eta as int);
            assert(p.tau * p.eta == p.beta);
            assert(-p.beta <= e <= p.beta);
            let es = ring::pointwise(ch, key.s2_hat[i]);
            assert(modq::cong(ring::inv_ntt(es)[n], e));
            assert(cs2[i][n] == ring::inv_ntt(es)[n]);
            assert(a.r0[i][n] == round::low(g, x));
            assert(-(g - p.beta) < scheme::centered(a.r0[i][n]) < g - p.beta);
            round::law_decompose_reconstructs(g, x);
            modq::lemma_res_range(round::low(g, x));
            assert(scheme::centered(round::low(g, x)) == round::low(g, x));
            lemma_high_stable(g, x, e, p.beta as int);
            modq::lemma_cong_add(x, x, e, cs2[i][n]);
            assert(modq::cong(x + e, w[i][n]));
        }
        assert(left[i] =~= right[i]);
    }
    assert(left =~= right);
}

/// The response and the hint of an attempt that passes are in range.
proof fn lemma_attempt_range(p: Params, a: Attempt)
    requires
        params::supported(p),
        scheme::passes(p, a),
        a.z.len() == p.l,
        a.h.len() == p.k,
        forall|i: int| 0 <= i < p.l ==> (#[trigger] a.z[i]).len() == 256,
        forall|i: int, n: int|
            0 <= i < p.l && 0 <= n < 256 ==> -4190208 <= #[trigger] a.z[i][n] <= 4190208,
        forall|i: int| 0 <= i < p.k ==> (#[trigger] a.h[i]).len() == 256,
        forall|i: int, n: int|
            0 <= i < p.k && 0 <= n < 256 ==> 0 <= #[trigger] a.h[i][n] <= 1,
    ensures
        scheme::in_range(p, a.z, a.h),
{
    assert forall|i: int| 0 <= i < a.z.len() implies (#[trigger] a.z[i]).len() == 256
        && poly::within(a.z[i], -p.gamma1 + 1, p.gamma1 as int) by {
        assert forall|n: int| 0 <= n < 256 implies -p.gamma1 + 1 <= #[trigger] a.z[i][n]
            <= p.gamma1 by {
            assert(-(p.gamma1 - p.beta) < scheme::centered(a.z[i][n]) < p.gamma1 - p.beta);
            modq::lemma_res_range(a.z[i][n]);
        }
    }
    assert forall|i: int| 0 <= i < a.h.len() implies (#[trigger] a.h[i]).len() == 256
        && poly::within(a.h[i], 0, 1) by {}
}

/// Signing, then verifying: every signature that the key of a seed produces is
/// valid under the public key of that seed, for the same message and context.
pub proof fn law_signature_verifies(
    p: Params,
    xi: Seq<u8>,
    msg: Seq<u8>,
    ctx: Seq<u8>,
    rnd: Seq<u8>,
)
    requires
        params::supported(p),
        scheme::keygen_defined(p, xi),
        ctx.len() <= 255,
        scheme::signature(p, scheme::keygen(p, xi), msg, ctx, rnd) is Some,
    ensures
        scheme::valid(
            p,
            scheme::public_key(scheme::keygen(p, xi)),
            msg,
            ctx,
            scheme::signature(p, scheme::keygen(p, xi), msg, ctx, rnd)->0,
        ),
{
    let key = scheme::keygen(p, xi);
    let pk = scheme::public_key(key);
    let mu = scheme::message_rep(key.tr, ctx, msg);
    let rho_pp = scheme::mask_seed(key.cap_k, rnd, mu);
    let sig = scheme::signature(p, key, msg, ctx, rnd)->0;
    let kappa = lemma_sign_from(p, key, mu, rho_pp, 0);
    let a = scheme::attempt(p, key, mu, rho_pp, kappa);
    lemma_key_shape(p, xi);
    lemma_high_bits_recovered(p, xi, mu, rho_pp, kappa);
    // lengths
    encode::lemma_packed_rows(key.t1, 0, 1023, 10, p.k as nat);
    assert(pk.len() == p.pk_len);
    assert(pk.take(32) =~= key.rho);
    assert(scheme::decoded_t1(p, pk) =~= key.t1) by {
        assert forall|i: int| 0 <= i < p.k implies scheme::decoded_t1(p, pk)[i] == key.t1[i] by {
            encode::lemma_pk_rows(key.rho, key.t1, i);
        }
    }
    sample::lemma_mask_width(p.gamma1 as int);
    encode::lemma_packed_rows(
        a.z,
        p.gamma1 - 1,
        p.gamma1 as int,
        sample::mask_width(p.gamma1 as int),
        p.l as nat,
    );
    assert(a.c_tilde.len() == p.lambda_div4);
    assert(a.h.len() == p.k && a.z.len() == p.l);
    assert(pack::hint_packed(p.omega as int, a.h).len() == p.omega + p.k);
    let width = sample::mask_width(p.gamma1 as int);
    if p.l == 4 {
        assert(32 * width * p.l == 2304) by (nonlinear_arith)
            requires
                width == 18,
                p.l == 4,
        ;
    } else {
        assert(32 * width * p.l == 3200) by (nonlinear_arith)
            requires
                width == 20,
                p.l == 5,
        ;
    }
    assert(sig.len() == p.sig_len);
    assert(sig.take(p.lambda_div4 as int) =~= a.c_tilde);
    assert(xof::stream256(pk, 64) == key.tr);
    assert forall|i: int, n: int| 0 <= i < p.l && 0 <= n < 256 implies -4190208
        <= #[trigger] a.z[i][n] <= 4190208 by {
        let y = scheme::mask(p, rho_pp, kappa);
        let cs1 = scheme::times_all(ring::ntt(a.c->0), key.s1_hat);
        lemma_centered_cong(y[i][n] + cs1[i][n]);
    }
    lemma_attempt_range(p, a);
    assert(scheme::encodes_accepted(p, pk, mu, sig, a.z, a.h));
}

}
