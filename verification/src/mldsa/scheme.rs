//! Key generation, signing and verification (FIPS 204 section 6, Alg 6 to 8)
//! over the integers: what the executable functions compute.

use vstd::prelude::*;

use crate::mldsa::encode;
use crate::mldsa::modq;
use crate::mldsa::pack;
use crate::mldsa::params::Params;
use crate::mldsa::poly;
use crate::mldsa::ring;
use crate::mldsa::round;
use crate::mldsa::sample;
use crate::mldsa::xof;

verus! {

/// An expanded key. The secret vectors are held in the NTT domain.
#[verifier::ext_equal]
pub struct KeyData {
    pub rho: Seq<u8>,
    pub cap_k: Seq<u8>,
    pub tr: Seq<u8>,
    pub t1: Seq<Seq<int>>,
    pub s1_hat: Seq<Seq<int>>,
    pub s2_hat: Seq<Seq<int>>,
    pub t0_hat: Seq<Seq<int>>,
}

/// Every byte of `s` is zero.
pub open spec fn zero_bytes(s: Seq<u8>) -> bool {
    forall|i: int| 0 <= i < s.len() ==> s[i] == 0u8
}

/// Every polynomial of `v` is the zero polynomial.
pub open spec fn zero_rows(v: Seq<Seq<int>>) -> bool {
    forall|i: int| 0 <= i < v.len() ==> #[trigger] v[i] == poly::zero_seq()
}

/// Nothing is left of a key: every byte and every coefficient is zero.
pub open spec fn wiped(key: KeyData) -> bool {
    &&& zero_bytes(key.rho)
    &&& zero_bytes(key.cap_k)
    &&& zero_bytes(key.tr)
    &&& zero_rows(key.t1)
    &&& zero_rows(key.s1_hat)
    &&& zero_rows(key.s2_hat)
    &&& zero_rows(key.t0_hat)
}

/// The centered residue of `x` modulo q.
pub open spec fn centered(x: int) -> int {
    if modq::res(x) > 4190208 {
        modq::res(x) - 8380417
    } else {
        modq::res(x)
    }
}

/// Every centered coefficient has a magnitude below `bound`.
pub open spec fn norm_below(v: Seq<Seq<int>>, bound: int) -> bool {
    forall|i: int, n: int|
        #![trigger v[i][n]]
        0 <= i < v.len() && 0 <= n < 256 ==> -bound < centered(v[i][n]) < bound
}

/// The transforms of the entries of a vector.
pub open spec fn ntt_all(v: Seq<Seq<int>>) -> Seq<Seq<int>> {
    Seq::new(v.len(), |i: int| ring::ntt(v[i]))
}

/// Row `i` of the matrix times the vector `u`, in the NTT domain.
pub open spec fn row_product(rho: Seq<u8>, u: Seq<Seq<int>>, i: int) -> Seq<int> {
    Seq::new(256, |n: int| sample::row_dot(rho, u, i, n, u.len()))
}

/// The matrix times the vector with transforms `u`, in the normal domain.
pub open spec fn mat_vec(rho: Seq<u8>, u: Seq<Seq<int>>, k: nat) -> Seq<Seq<int>> {
    Seq::new(k, |i: int| ring::inv_ntt(row_product(rho, u, i)))
}

/// The products of a polynomial with the entries of a vector, the factors
/// given by their transforms.
pub open spec fn times_all(c_hat: Seq<int>, v_hat: Seq<Seq<int>>) -> Seq<Seq<int>> {
    Seq::new(v_hat.len(), |i: int| ring::inv_ntt(ring::pointwise(c_hat, v_hat[i])))
}

/// The 128 bytes that the seed expands to: rho, rho' and K.
pub open spec fn seed_stream(p: Params, xi: Seq<u8>) -> Seq<u8> {
    xof::stream256(xi + seq![p.k as u8, p.l as u8], 128)
}

pub open spec fn seed_rho(p: Params, xi: Seq<u8>) -> Seq<u8> {
    seed_stream(p, xi).subrange(0, 32)
}

pub open spec fn seed_rho_prime(p: Params, xi: Seq<u8>) -> Seq<u8> {
    seed_stream(p, xi).subrange(32, 96)
}

pub open spec fn seed_cap_k(p: Params, xi: Seq<u8>) -> Seq<u8> {
    seed_stream(p, xi).subrange(96, 128)
}

/// The secret vector s1.
pub open spec fn seed_s1(p: Params, xi: Seq<u8>) -> Seq<Seq<int>> {
    Seq::new(
        p.l as nat,
        |r: int| sample::secret_entry(p.eta as int, seed_rho_prime(p, xi), r)->0,
    )
}

/// The secret vector s2.
pub open spec fn seed_s2(p: Params, xi: Seq<u8>) -> Seq<Seq<int>> {
    Seq::new(
        p.k as nat,
        |r: int| sample::secret_entry(p.eta as int, seed_rho_prime(p, xi), p.l + r)->0,
    )
}

/// t = A * s1 + s2, as canonical residues.
pub open spec fn seed_t(p: Params, xi: Seq<u8>) -> Seq<Seq<int>> {
    let a = mat_vec(seed_rho(p, xi), ntt_all(seed_s1(p, xi)), p.k as nat);
    let s2 = seed_s2(p, xi);
    Seq::new(p.k as nat, |i: int| Seq::new(256, |n: int| modq::res(a[i][n] + s2[i][n])))
}

pub open spec fn high_part(t: Seq<Seq<int>>) -> Seq<Seq<int>> {
    Seq::new(t.len(), |i: int| Seq::new(256, |n: int| round::p2r_high(t[i][n])))
}

pub open spec fn low_part(t: Seq<Seq<int>>) -> Seq<Seq<int>> {
    Seq::new(t.len(), |i: int| Seq::new(256, |n: int| round::p2r_low(t[i][n])))
}

/// Every stream that key generation reads holds enough values.
pub open spec fn keygen_defined(p: Params, xi: Seq<u8>) -> bool {
    &&& sample::secrets_defined(p.eta as int, seed_rho_prime(p, xi), p.k + p.l)
    &&& sample::matrix_defined(seed_rho(p, xi), p.k as int, p.l as int)
}

/// The key that the seed expands to (Alg 6).
pub open spec fn keygen(p: Params, xi: Seq<u8>) -> KeyData {
    let t = seed_t(p, xi);
    KeyData {
        rho: seed_rho(p, xi),
        cap_k: seed_cap_k(p, xi),
        tr: xof::stream256(encode::pk_bytes(seed_rho(p, xi), high_part(t)), 64),
        t1: high_part(t),
        s1_hat: ntt_all(seed_s1(p, xi)),
        s2_hat: ntt_all(seed_s2(p, xi)),
        t0_hat: ntt_all(low_part(t)),
    }
}

/// The encoded public key.
pub open spec fn public_key(key: KeyData) -> Seq<u8> {
    encode::pk_bytes(key.rho, key.t1)
}

/// The message representative of the pure profile:
/// H(tr || 0 || |ctx| || ctx || msg).
pub open spec fn message_rep(tr: Seq<u8>, ctx: Seq<u8>, msg: Seq<u8>) -> Seq<u8> {
    xof::stream256(tr + seq![0u8, ctx.len() as u8] + ctx + msg, 64)
}

/// The seed of the masks: H(K || rnd || mu).
pub open spec fn mask_seed(cap_k: Seq<u8>, rnd: Seq<u8>, mu: Seq<u8>) -> Seq<u8> {
    xof::stream256(cap_k + rnd + mu, 64)
}

/// The mask vector of the attempt with counter `kappa`.
pub open spec fn mask(p: Params, rho_pp: Seq<u8>, kappa: int) -> Seq<Seq<int>> {
    Seq::new(p.l as nat, |r: int| sample::mask_entry(p.gamma1 as int, rho_pp, kappa + r))
}

/// The high bits of every coefficient.
pub open spec fn high_all(gamma2: int, w: Seq<Seq<int>>) -> Seq<Seq<int>> {
    Seq::new(w.len(), |i: int| Seq::new(256, |n: int| round::high(gamma2, w[i][n])))
}

/// The commitment hash c~ = H(mu || w1Encode(w1)).
pub open spec fn commitment(p: Params, mu: Seq<u8>, w1: Seq<Seq<int>>) -> Seq<u8> {
    xof::stream256(mu + encode::w1_bytes(p.gamma2 as int, w1), p.lambda_div4 as nat)
}

/// z = y + c * s1, centered.
pub open spec fn response(y: Seq<Seq<int>>, cs1: Seq<Seq<int>>) -> Seq<Seq<int>> {
    Seq::new(y.len(), |i: int| Seq::new(256, |n: int| centered(y[i][n] + cs1[i][n])))
}

/// r0 = LowBits(w - c * s2).
pub open spec fn low_of_difference(
    gamma2: int,
    w: Seq<Seq<int>>,
    cs2: Seq<Seq<int>>,
) -> Seq<Seq<int>> {
    Seq::new(w.len(), |i: int| Seq::new(256, |n: int| round::low(gamma2, w[i][n] - cs2[i][n])))
}

/// h: where adding c * t0 changes the high bits of w - c * s2.
pub open spec fn hint_of(
    gamma2: int,
    w: Seq<Seq<int>>,
    cs2: Seq<Seq<int>>,
    ct0: Seq<Seq<int>>,
) -> Seq<Seq<int>> {
    Seq::new(
        w.len(),
        |i: int|
            Seq::new(
                256,
                |n: int|
                    if round::high(gamma2, w[i][n] - cs2[i][n] + ct0[i][n]) != round::high(
                        gamma2,
                        w[i][n] - cs2[i][n],
                    ) {
                        1int
                    } else {
                        0int
                    },
            ),
    )
}

/// The quantities of one signing attempt.
#[verifier::ext_equal]
pub struct Attempt {
    pub c_tilde: Seq<u8>,
    pub c: Option<Seq<int>>,
    pub z: Seq<Seq<int>>,
    pub r0: Seq<Seq<int>>,
    pub ct0: Seq<Seq<int>>,
    pub h: Seq<Seq<int>>,
}

/// What the attempt with counter `kappa` computes (Alg 7, the loop body).
pub open spec fn attempt(
    p: Params,
    key: KeyData,
    mu: Seq<u8>,
    rho_pp: Seq<u8>,
    kappa: int,
) -> Attempt {
    let y = mask(p, rho_pp, kappa);
    let w = mat_vec(key.rho, ntt_all(y), p.k as nat);
    let c_tilde = commitment(p, mu, high_all(p.gamma2 as int, w));
    let c = sample::challenge(p.tau as int, c_tilde);
    let c_hat = ring::ntt(c->0);
    let cs1 = times_all(c_hat, key.s1_hat);
    let cs2 = times_all(c_hat, key.s2_hat);
    let ct0 = times_all(c_hat, key.t0_hat);
    Attempt {
        c_tilde,
        c,
        z: response(y, cs1),
        r0: low_of_difference(p.gamma2 as int, w, cs2),
        ct0,
        h: hint_of(p.gamma2 as int, w, cs2, ct0),
    }
}

/// The checks that an attempt must pass.
pub open spec fn passes(p: Params, a: Attempt) -> bool {
    &&& norm_below(a.z, p.gamma1 - p.beta)
    &&& norm_below(a.r0, p.gamma2 - p.beta)
    &&& norm_below(a.ct0, p.gamma2 as int)
    &&& pack::all_ones(a.h, a.h.len()).len() <= p.omega
}

/// The signature of an attempt.
pub open spec fn encoded(p: Params, a: Attempt) -> Seq<u8> {
    encode::sig_bytes(p.gamma1 as int, p.omega as int, a.c_tilde, a.z, a.h)
}

/// The signature of the first attempt from `kappa` on that passes (Alg 7).
/// `None` when a stream does not hold enough values or the 16-bit counter runs
/// out.
pub open spec fn sign_from(
    p: Params,
    key: KeyData,
    mu: Seq<u8>,
    rho_pp: Seq<u8>,
    kappa: int,
) -> Option<Seq<u8>>
    decreases 65536 - kappa,
{
    let a = attempt(p, key, mu, rho_pp, kappa);
    if kappa + p.l > 65536 || p.l == 0 {
        None
    } else if !sample::matrix_defined(key.rho, p.k as int, p.l as int) || a.c is None {
        None
    } else if passes(p, a) {
        Some(encoded(p, a))
    } else {
        sign_from(p, key, mu, rho_pp, kappa + p.l)
    }
}

/// The signature of `msg` under context `ctx` with hedge value `rnd`.
pub open spec fn signature(
    p: Params,
    key: KeyData,
    msg: Seq<u8>,
    ctx: Seq<u8>,
    rnd: Seq<u8>,
) -> Option<Seq<u8>> {
    let mu = message_rep(key.tr, ctx, msg);
    sign_from(p, key, mu, mask_seed(key.cap_k, rnd, mu), 0)
}

/// w' = A * z - c * t1 * 2^13 (Alg 8), the commitment as the verifier sees it.
pub open spec fn recovered(
    rho: Seq<u8>,
    t1: Seq<Seq<int>>,
    c: Seq<int>,
    z: Seq<Seq<int>>,
) -> Seq<Seq<int>> {
    Seq::new(
        t1.len(),
        |i: int|
            ring::inv_ntt(
                Seq::new(
                    256,
                    |n: int|
                        row_product(rho, ntt_all(z), i)[n] - ring::ntt(c)[n] * ring::ntt(
                            ring::scale(t1[i], 8192),
                        )[n],
                ),
            ),
    )
}

/// The high bits of every coefficient, adjusted by the hint.
pub open spec fn hinted_all(
    gamma2: int,
    h: Seq<Seq<int>>,
    w: Seq<Seq<int>>,
) -> Seq<Seq<int>> {
    Seq::new(
        w.len(),
        |i: int| Seq::new(256, |n: int| round::hinted(gamma2, h[i][n] != 0, w[i][n])),
    )
}

/// The response and the hint of a signature are in range.
pub open spec fn in_range(p: Params, z: Seq<Seq<int>>, h: Seq<Seq<int>>) -> bool {
    &&& z.len() == p.l
    &&& h.len() == p.k
    &&& encode::rows_within(z, -p.gamma1 + 1, p.gamma1 as int)
    &&& pack::is_hint(h, p.omega as int)
}

/// The verifier's check (Alg 8) on a decoded key and signature.
pub open spec fn accepts(
    p: Params,
    rho: Seq<u8>,
    t1: Seq<Seq<int>>,
    mu: Seq<u8>,
    c_tilde: Seq<u8>,
    z: Seq<Seq<int>>,
    h: Seq<Seq<int>>,
) -> bool {
    let c = sample::challenge(p.tau as int, c_tilde);
    &&& sample::matrix_defined(rho, p.k as int, p.l as int)
    &&& c is Some
    &&& norm_below(z, p.gamma1 - p.beta)
    &&& c_tilde == commitment(
        p,
        mu,
        hinted_all(p.gamma2 as int, h, recovered(rho, t1, c->0, z)),
    )
}

/// The rows of t1 in an encoded public key.
pub open spec fn decoded_t1(p: Params, pk: Seq<u8>) -> Seq<Seq<int>> {
    Seq::new(p.k as nat, |i: int| encode::row_at(pk, 32, 0, 1023, 10, i)->0)
}

/// `sig` encodes a response and a hint in range that the verifier accepts.
pub open spec fn encodes_accepted(
    p: Params,
    pk: Seq<u8>,
    mu: Seq<u8>,
    sig: Seq<u8>,
    z: Seq<Seq<int>>,
    h: Seq<Seq<int>>,
) -> bool {
    let c_tilde = sig.take(p.lambda_div4 as int);
    &&& in_range(p, z, h)
    &&& encode::sig_bytes(p.gamma1 as int, p.omega as int, c_tilde, z, h) == sig
    &&& accepts(p, pk.take(32), decoded_t1(p, pk), mu, c_tilde, z, h)
}

/// `sig` is a valid signature of `msg` under `ctx` and the encoded key `pk`.
/// Keys and signatures of the wrong length, and signatures that encode nothing,
/// are not valid.
pub open spec fn valid(
    p: Params,
    pk: Seq<u8>,
    msg: Seq<u8>,
    ctx: Seq<u8>,
    sig: Seq<u8>,
) -> bool {
    &&& ctx.len() <= 255
    &&& pk.len() == p.pk_len
    &&& sig.len() == p.sig_len
    &&& exists|z: Seq<Seq<int>>, h: Seq<Seq<int>>| #[trigger]
        encodes_accepted(
            p,
            pk,
            message_rep(xof::stream256(pk, 64), ctx, msg),
            sig,
            z,
            h,
        )
}

/// What is hashed for a message tells the context and the message: two
/// different pairs never share one hashed input under one key.
pub proof fn law_hashed_input_tells_message(
    tr: Seq<u8>,
    ctx: Seq<u8>,
    msg: Seq<u8>,
    ctx2: Seq<u8>,
    msg2: Seq<u8>,
)
    requires
        ctx.len() <= 255,
        ctx2.len() <= 255,
        tr + seq![0u8, ctx.len() as u8] + ctx + msg == tr + seq![0u8, ctx2.len() as u8] + ctx2
            + msg2,
    ensures
        ctx == ctx2,
        msg == msg2,
{
    let a = tr + seq![0u8, ctx.len() as u8] + ctx + msg;
    let b = tr + seq![0u8, ctx2.len() as u8] + ctx2 + msg2;
    let n = tr.len() as int;
    assert(a[n + 1] == ctx.len() as u8 && b[n + 1] == ctx2.len() as u8);
    assert(ctx.len() == ctx2.len());
    assert(ctx =~= a.subrange(n + 2, n + 2 + ctx.len()));
    assert(ctx2 =~= b.subrange(n + 2, n + 2 + ctx.len()));
    assert(msg =~= a.subrange(n + 2 + ctx.len(), a.len() as int));
    assert(msg2 =~= b.subrange(n + 2 + ctx.len(), b.len() as int));
}

/// A signature is made, and verified, over SHAKE-256 of an input that ends in
/// the whole message, however long it is: the hash of the public key, a zero
/// byte, the length of the context, the context and the message.
pub proof fn law_whole_message_is_signed(
    p: Params,
    key: KeyData,
    pk: Seq<u8>,
    msg: Seq<u8>,
    ctx: Seq<u8>,
    rnd: Seq<u8>,
    sig: Seq<u8>,
)
    ensures
        ({
            let mu = xof::stream256(key.tr + seq![0u8, ctx.len() as u8] + ctx + msg, 64);
            signature(p, key, msg, ctx, rnd) == sign_from(
                p,
                key,
                mu,
                xof::stream256(key.cap_k + rnd + mu, 64),
                0,
            )
        }),
        ({
            let mu = xof::stream256(
                xof::stream256(pk, 64) + seq![0u8, ctx.len() as u8] + ctx + msg,
                64,
            );
            valid(p, pk, msg, ctx, sig) <==> ctx.len() <= 255 && pk.len() == p.pk_len && sig.len()
                == p.sig_len && exists|z: Seq<Seq<int>>, h: Seq<Seq<int>>| #[trigger]
                encodes_accepted(p, pk, mu, sig, z, h)
        }),
{
    let mu = xof::stream256(xof::stream256(pk, 64) + seq![0u8, ctx.len() as u8] + ctx + msg, 64);
    assert(message_rep(xof::stream256(pk, 64), ctx, msg) == mu);
    if valid(p, pk, msg, ctx, sig) {
        let (z, h) = choose|z: Seq<Seq<int>>, h: Seq<Seq<int>>| #[trigger]
            encodes_accepted(
                p,
                pk,
                message_rep(xof::stream256(pk, 64), ctx, msg),
                sig,
                z,
                h,
            );
        assert(encodes_accepted(p, pk, mu, sig, z, h));
    }
}

/// The challenge of a signature is the hash of the message representative and of
/// the commitment that the verifier recovers from the response and the hint, and
/// no coefficient of the response reaches the bound.
pub proof fn law_accepted_commitment(
    p: Params,
    pk: Seq<u8>,
    mu: Seq<u8>,
    sig: Seq<u8>,
    z: Seq<Seq<int>>,
    h: Seq<Seq<int>>,
)
    requires
        encodes_accepted(p, pk, mu, sig, z, h),
    ensures
        ({
            let c_tilde = sig.take(p.lambda_div4 as int);
            let c = sample::challenge(p.tau as int, c_tilde);
            &&& c is Some
            &&& c_tilde == xof::stream256(
                mu + encode::w1_bytes(
                    p.gamma2 as int,
                    hinted_all(
                        p.gamma2 as int,
                        h,
                        recovered(pk.take(32), decoded_t1(p, pk), c->0, z),
                    ),
                ),
                p.lambda_div4 as nat,
            )
        }),
        forall|i: int, n: int|
            #![trigger z[i][n]]
            0 <= i < z.len() && 0 <= n < 256 ==> -(p.gamma1 - p.beta) < centered(z[i][n])
                < p.gamma1 - p.beta,
{
}

/// A seed expands to its keys by one stream of 128 bytes, which the dimensions
/// of the parameter set separate: the matrix seed, the secrets' seed and K, in
/// this order. The key is bound to messages by the hash of the public key.
pub proof fn law_seed_expansion(p: Params, xi: Seq<u8>)
    ensures
        ({
            let s = xof::stream256(xi + seq![p.k as u8, p.l as u8], 128);
            let key = keygen(p, xi);
            &&& key.rho == s.subrange(0, 32)
            &&& key.cap_k == s.subrange(96, 128)
            &&& key.tr == xof::stream256(public_key(key), 64)
            &&& key.s1_hat == ntt_all(
                Seq::new(
                    p.l as nat,
                    |r: int| sample::secret_entry(p.eta as int, s.subrange(32, 96), r)->0,
                ),
            )
            &&& key.s2_hat == ntt_all(
                Seq::new(
                    p.k as nat,
                    |r: int| sample::secret_entry(p.eta as int, s.subrange(32, 96), p.l + r)->0,
                ),
            )
        }),
{
    let s = xof::stream256(xi + seq![p.k as u8, p.l as u8], 128);
    assert(seed_s1(p, xi) =~= Seq::new(
        p.l as nat,
        |r: int| sample::secret_entry(p.eta as int, s.subrange(32, 96), r)->0,
    ));
    assert(seed_s2(p, xi) =~= Seq::new(
        p.k as nat,
        |r: int| sample::secret_entry(p.eta as int, s.subrange(32, 96), p.l + r)->0,
    ));
}

/// A signature is that of the first attempt that passes: the response stays below
/// the mask bound by beta, the low bits below the rounding range by beta, c * t0
/// below the rounding range, and the hint has at most omega ones. Every attempt
/// before it fails one of these.
pub proof fn law_first_passing_attempt(
    p: Params,
    key: KeyData,
    mu: Seq<u8>,
    rho_pp: Seq<u8>,
    kappa: int,
) -> (found: int)
    requires
        sign_from(p, key, mu, rho_pp, kappa) is Some,
    ensures
        kappa <= found <= 65536 - p.l,
        ({
            let a = attempt(p, key, mu, rho_pp, found);
            &&& sign_from(p, key, mu, rho_pp, kappa) == Some(
                encode::sig_bytes(p.gamma1 as int, p.omega as int, a.c_tilde, a.z, a.h),
            )
            &&& norm_below(a.z, p.gamma1 - p.beta)
            &&& norm_below(a.r0, p.gamma2 - p.beta)
            &&& norm_below(a.ct0, p.gamma2 as int)
            &&& pack::all_ones(a.h, a.h.len()).len() <= p.omega
        }),
        found == kappa || !passes(p, attempt(p, key, mu, rho_pp, kappa)),
    decreases 65536 - kappa,
{
    if passes(p, attempt(p, key, mu, rho_pp, kappa)) {
        kappa
    } else {
        law_first_passing_attempt(p, key, mu, rho_pp, kappa + p.l)
    }
}

/// One attempt: the commitment is the matrix times the mask, its hash with the
/// message representative gives the challenge, the response is the mask plus the
/// challenge times the secret, and the hint marks where adding c * t0 changes the
/// high bits.
pub proof fn law_attempt(
    p: Params,
    key: KeyData,
    mu: Seq<u8>,
    rho_pp: Seq<u8>,
    kappa: int,
    i: int,
    n: int,
)
    requires
        0 <= i < p.l,
        0 <= n < 256,
    ensures
        ({
            let a = attempt(p, key, mu, rho_pp, kappa);
            let y = Seq::new(
                p.l as nat,
                |r: int| sample::mask_entry(p.gamma1 as int, rho_pp, kappa + r),
            );
            let w = mat_vec(key.rho, ntt_all(y), p.k as nat);
            let c_hat = ring::ntt(a.c->0);
            &&& a.c_tilde == xof::stream256(
                mu + encode::w1_bytes(p.gamma2 as int, high_all(p.gamma2 as int, w)),
                p.lambda_div4 as nat,
            )
            &&& a.c == sample::challenge(p.tau as int, a.c_tilde)
            &&& a.z.len() == p.l
            &&& a.z[i][n] == centered(
                sample::mask_entry(p.gamma1 as int, rho_pp, kappa + i)[n] + times_all(
                    c_hat,
                    key.s1_hat,
                )[i][n],
            )
        }),
{
    let y = Seq::new(p.l as nat, |r: int| sample::mask_entry(p.gamma1 as int, rho_pp, kappa + r));
    assert(mask(p, rho_pp, kappa) =~= y);
}

/// The public and the secret half of t put together are t: what a key publishes
/// times 2^13 plus what it keeps is the matrix times s1 plus s2.
pub proof fn law_key_halves(p: Params, xi: Seq<u8>, i: int, n: int)
    requires
        0 <= i < p.k,
        0 <= n < 256,
    ensures
        ({
            let t = seed_t(p, xi);
            let key = keygen(p, xi);
            &&& key.t1[i][n] * 8192 + low_part(t)[i][n] == t[i][n]
            &&& t[i][n] == modq::res(
                mat_vec(key.rho, key.s1_hat, p.k as nat)[i][n] + seed_s2(p, xi)[i][n],
            )
            &&& key.t0_hat == ntt_all(low_part(t))
        }),
{
    let t = seed_t(p, xi);
    let r = t[i][n];
    let m = r % 8192;
    assert(r == 8192 * (r / 8192) + m);
    let low = round::p2r_low(r);
    assert(low == m || low == m - 8192);
    assert((r - low) % 8192 == 0);
    assert(round::p2r_high(r) * 8192 + low == r);
}

}
