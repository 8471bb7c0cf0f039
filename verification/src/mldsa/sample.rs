//! Pseudorandom sampling from SHAKE (FIPS 204 section 7.3, Alg 29 to 34) and
//! the streaming matrix-vector product.
//!
//! Constant-time notes:
//! - `coeff_from_half_byte` reduces modulo 5 by a Barrett multiply, never by a
//!   hardware divide, because the value is secret-derived;
//! - the rejection samplers are variable-time by construction; how much of the
//!   stream they read depends on uniform hash output only.
//!
//! Each rejection sampler comes in two parts: one that works on given stream
//! bytes, and one that squeezes more of the stream until it holds enough. The
//! stream is read up to [`XOF_LIMIT`] bytes; a sampler that has not finished by
//! then gives up.

use vstd::arithmetic::power2::*;
use vstd::bits::*;
use vstd::prelude::*;

use crate::mldsa::modq;
use crate::mldsa::pack;
use crate::mldsa::poly;
use crate::mldsa::poly::Poly;
use crate::mldsa::reduce::{mont_reduce, to_mont};
use crate::mldsa::ring;
use crate::mldsa::xof;
use crate::wipe::wipe;

verus! {

/// The length up to which an output stream is squeezed. A stream is held in
/// memory, so the limit is one that any machine can address; a sampler that finds
/// too few values up to there gives none.
pub const XOF_LIMIT: usize = 0x4000_0000;

/// CoeffFromThreeBytes (Alg 14) on integers.
pub open spec fn three_bytes(b0: u8, b1: u8, b2: u8) -> Option<int> {
    let z = (b2 % 128) * 65536 + b1 * 256 + b0;
    if z < 8380417 {
        Some(z)
    } else {
        None
    }
}

/// CoeffFromThreeBytes (Alg 14): a value in [0, q) or `None`, for rejection.
pub fn coeff_from_three_bytes(b: [u8; 3]) -> (r: Option<i32>)
    ensures
        r is Some <==> three_bytes(b@[0], b@[1], b@[2]) is Some,
        r matches Some(v) ==> three_bytes(b@[0], b@[1], b@[2]) == Some(v as int),
        r matches Some(v) ==> 0 <= v < 8380417,
{
    let z: i32 = (b[2] % 128) as i32 * 65536 + b[1] as i32 * 256 + b[0] as i32;
    if z < 8_380_417 {
        Some(z)
    } else {
        None
    }
}

/// CoeffFromHalfByte (Alg 15) on integers.
pub open spec fn half_byte(eta: int, b: int) -> Option<int> {
    if eta == 2 && b < 15 {
        Some(2 - b % 5)
    } else if eta == 4 && b < 9 {
        Some(4 - b)
    } else {
        None
    }
}

/// CoeffFromHalfByte (Alg 15): a value in [-eta, eta] or `None`.
pub fn coeff_from_half_byte(eta: i32, b: u8) -> (r: Option<i32>)
    ensures
        r is Some <==> half_byte(eta as int, b as int) is Some,
        r matches Some(v) ==> half_byte(eta as int, b as int) == Some(v as int),
        r matches Some(v) ==> -eta <= v <= eta,
{
    let b: i32 = b as i32;
    if eta == 2 && b < 15 {
        let quot: i32 = (b * 3_355_444) / 16_777_216;
        assert(quot == b / 5);
        Some(2 - (b - quot * 5))
    } else if eta == 4 && b < 9 {
        Some(4 - b)
    } else {
        None
    }
}

/// The values accepted among the first `g` groups of three bytes.
pub open spec fn ntt_accepted(s: Seq<u8>, g: nat) -> Seq<int>
    decreases g,
{
    if g == 0 {
        Seq::empty()
    } else {
        let t = ntt_accepted(s, (g - 1) as nat);
        match three_bytes(s[3 * (g - 1)], s[3 * (g - 1) + 1], s[3 * (g - 1) + 2]) {
            Some(v) => t.push(v),
            None => t,
        }
    }
}

/// The first 256 values that the stream bytes give, if there are so many.
pub open spec fn ntt_sample(s: Seq<u8>) -> Option<Seq<int>> {
    let t = ntt_accepted(s, s.len() / 3);
    if t.len() >= 256 {
        Some(t.take(256))
    } else {
        None
    }
}

/// What RejNTTPoly (Alg 30) samples from `rho`, column `s` and row `r`.
pub open spec fn matrix_entry(rho: Seq<u8>, s: u8, r: u8) -> Option<Seq<int>> {
    ntt_sample(xof::stream128(rho + seq![s, r], XOF_LIMIT as nat))
}

proof fn lemma_ntt_agree(s: Seq<u8>, t: Seq<u8>, g: nat)
    requires
        3 * g <= s.len(),
        3 * g <= t.len(),
        forall|i: int| 0 <= i < 3 * g ==> s[i] == t[i],
    ensures
        ntt_accepted(s, g) == ntt_accepted(t, g),
    decreases g,
{
    if g > 0 {
        lemma_ntt_agree(s, t, (g - 1) as nat);
    }
}

proof fn lemma_ntt_prefix(t: Seq<u8>, g: nat, h: nat)
    requires
        g <= h,
    ensures
        ntt_accepted(t, g).len() <= ntt_accepted(t, h).len(),
        forall|i: int|
            0 <= i < ntt_accepted(t, g).len() ==> #[trigger] ntt_accepted(t, g)[i]
                == ntt_accepted(t, h)[i],
    decreases h,
{
    if g < h {
        lemma_ntt_prefix(t, g, (h - 1) as nat);
    }
}

/// The part of RejNTTPoly (Alg 30) that follows the hash: 256 values below q
/// from the stream bytes, or `None` if the bytes do not hold so many.
pub fn rej_ntt_from(s: &[u8]) -> (r: Option<Poly>)
    ensures
        r is Some <==> ntt_sample(s@) is Some,
        r matches Some(p) ==> ntt_sample(s@) == Some(p@),
        r matches Some(p) ==> poly::within(p@, 0, 8380416),
{
    let mut a = Poly::zero();
    let mut j: usize = 0;
    let mut g: usize = 0;
    let len: usize = s.len();
    let groups: usize = len / 3;
    while g < groups && j < 256
        invariant
            g <= groups,
            len == s@.len(),
            groups == len / 3,
            j <= 256,
            poly::within(a@, 0, 8380416),
            j == ntt_accepted(s@, g as nat).len(),
            forall|i: int| 0 <= i < j ==> #[trigger] a@[i] == ntt_accepted(s@, g as nat)[i],
        decreases groups - g,
    {
        assert(3 * g + 2 < s@.len());
        let b: [u8; 3] = [s[3 * g], s[3 * g + 1], s[3 * g + 2]];
        if let Some(v) = coeff_from_three_bytes(b) {
            a.set(j, v);
            j = j + 1;
        }
        g = g + 1;
    }
    proof {
        lemma_ntt_prefix(s@, g as nat, groups as nat);
    }
    if j < 256 {
        None
    } else {
        assert(a@ =~= ntt_accepted(s@, groups as nat).take(256));
        Some(a)
    }
}

/// RejNTTPoly (Alg 30): one matrix entry in the NTT domain, seeded by
/// `rho || s || r`. `None` when the stream within [`XOF_LIMIT`] does not hold
/// enough values.
pub fn rej_ntt_poly(rho: &[u8; 32], s: u8, r: u8) -> (res: Option<Poly>)
    ensures
        res is Some <==> matrix_entry(rho@, s, r) is Some,
        res matches Some(p) ==> matrix_entry(rho@, s, r) == Some(p@),
        res matches Some(p) ==> poly::within(p@, 0, 8380416),
{
    let mut input: Vec<u8> = Vec::new();
    input.extend_from_slice(rho.as_slice());
    input.push(s);
    input.push(r);
    assert(input@ =~= rho@ + seq![s, r]);
    let ghost full = xof::stream128(input@, XOF_LIMIT as nat);
    let mut n: usize = 1008;
    loop
        invariant
            1008 <= n <= XOF_LIMIT,
            input@ == rho@ + seq![s, r],
            full == xof::stream128(input@, XOF_LIMIT as nat),
            full.len() == XOF_LIMIT,
        decreases XOF_LIMIT - n,
    {
        let stream = xof::shake128(&input, n);
        proof {
            lemma_ntt_agree(stream@, full, (n / 3) as nat);
            lemma_ntt_prefix(full, (n / 3) as nat, (XOF_LIMIT / 3) as nat);
        }
        match rej_ntt_from(&stream) {
            Some(p) => {
                assert(p@ =~= ntt_accepted(full, (XOF_LIMIT / 3) as nat).take(256));
                return Some(p);
            },
            None => {
                if n == XOF_LIMIT {
                    assert(stream@ =~= full);
                    return None;
                }
            },
        }
        n = if n > XOF_LIMIT / 2 {
            XOF_LIMIT
        } else {
            n * 2
        };
    }
}

/// Half byte `h` of the bytes, the low half of each byte first.
pub open spec fn nibble(s: Seq<u8>, h: int) -> int {
    if h % 2 == 0 {
        s[h / 2] as int % 16
    } else {
        s[h / 2] as int / 16
    }
}

/// The values accepted among the first `h` half bytes.
pub open spec fn bounded_accepted(eta: int, s: Seq<u8>, h: nat) -> Seq<int>
    decreases h,
{
    if h == 0 {
        Seq::empty()
    } else {
        let t = bounded_accepted(eta, s, (h - 1) as nat);
        match half_byte(eta, nibble(s, h - 1)) {
            Some(v) => t.push(v),
            None => t,
        }
    }
}

/// The first 256 values that the stream bytes give, if there are so many.
pub open spec fn bounded_sample(eta: int, s: Seq<u8>) -> Option<Seq<int>> {
    let t = bounded_accepted(eta, s, 2 * s.len());
    if t.len() >= 256 {
        Some(t.take(256))
    } else {
        None
    }
}

proof fn lemma_bounded_agree(eta: int, s: Seq<u8>, t: Seq<u8>, h: nat)
    requires
        forall|i: int| 0 <= i < h ==> nibble(s, i) == nibble(t, i),
    ensures
        bounded_accepted(eta, s, h) == bounded_accepted(eta, t, h),
    decreases h,
{
    if h > 0 {
        lemma_bounded_agree(eta, s, t, (h - 1) as nat);
    }
}

proof fn lemma_bounded_prefix(eta: int, t: Seq<u8>, g: nat, h: nat)
    requires
        g <= h,
    ensures
        bounded_accepted(eta, t, g).len() <= bounded_accepted(eta, t, h).len(),
        forall|i: int|
            0 <= i < bounded_accepted(eta, t, g).len() ==> #[trigger] bounded_accepted(eta, t, g)[i]
                == bounded_accepted(eta, t, h)[i],
    decreases h,
{
    if g < h {
        lemma_bounded_prefix(eta, t, g, (h - 1) as nat);
    }
}

/// The part of RejBoundedPoly (Alg 31) that follows the hash: 256 values in
/// [-eta, eta] from the stream bytes, or `None` if there are not so many.
pub fn rej_bounded_from(eta: i32, s: &[u8]) -> (r: Option<Poly>)
    requires
        0 <= eta,
        s@.len() <= XOF_LIMIT,
    ensures
        r is Some <==> bounded_sample(eta as int, s@) is Some,
        r matches Some(p) ==> bounded_sample(eta as int, s@) == Some(p@),
        r matches Some(p) ==> poly::within(p@, -eta as int, eta as int),
{
    let mut a = Poly::zero();
    let mut j: usize = 0;
    let mut h: usize = 0;
    let halves: usize = 2 * s.len();
    while h < halves && j < 256
        invariant
            h <= halves,
            halves == 2 * s@.len(),
            j <= 256,
            0 <= eta,
            poly::within(a@, -eta as int, eta as int),
            j == bounded_accepted(eta as int, s@, h as nat).len(),
            forall|i: int|
                0 <= i < j ==> #[trigger] a@[i] == bounded_accepted(eta as int, s@, h as nat)[i],
        decreases halves - h,
    {
        let byte: u8 = s[h / 2];
        let half: u8 = if h % 2 == 0 {
            byte % 16
        } else {
            byte / 16
        };
        assert(half == nibble(s@, h as int));
        if let Some(v) = coeff_from_half_byte(eta, half) {
            a.set(j, v);
            j = j + 1;
        }
        h = h + 1;
    }
    proof {
        lemma_bounded_prefix(eta as int, s@, h as nat, halves as nat);
    }
    if j < 256 {
        None
    } else {
        assert(a@ =~= bounded_accepted(eta as int, s@, halves as nat).take(256));
        Some(a)
    }
}

/// RejBoundedPoly (Alg 31): a polynomial with coefficients in [-eta, eta].
pub fn rej_bounded_poly(eta: i32, input: &[u8]) -> (res: Option<Poly>)
    requires
        0 <= eta,
    ensures
        res is Some <==> bounded_sample(
            eta as int,
            xof::stream256(input@, XOF_LIMIT as nat),
        ) is Some,
        res matches Some(p) ==> bounded_sample(
            eta as int,
            xof::stream256(input@, XOF_LIMIT as nat),
        ) == Some(p@),
        res matches Some(p) ==> poly::within(p@, -eta as int, eta as int),
{
    let ghost full = xof::stream256(input@, XOF_LIMIT as nat);
    let mut n: usize = 544;
    loop
        invariant
            544 <= n <= XOF_LIMIT,
            0 <= eta,
            full == xof::stream256(input@, XOF_LIMIT as nat),
            full.len() == XOF_LIMIT,
        decreases XOF_LIMIT - n,
    {
        let stream = xof::shake256(input, n);
        proof {
            assert forall|i: int| 0 <= i < 2 * n implies nibble(stream@, i) == nibble(full, i) by {
                assert(stream@[i / 2] == full[i / 2]);
            }
            lemma_bounded_agree(eta as int, stream@, full, (2 * n) as nat);
            lemma_bounded_prefix(eta as int, full, (2 * n) as nat, (2 * XOF_LIMIT) as nat);
        }
        match rej_bounded_from(eta, &stream) {
            Some(p) => {
                assert(p@ =~= bounded_accepted(eta as int, full, (2 * XOF_LIMIT) as nat).take(256));
                return Some(p);
            },
            None => {
                if n == XOF_LIMIT {
                    assert(stream@ =~= full);
                    return None;
                }
            },
        }
        n = if n > XOF_LIMIT / 2 {
            XOF_LIMIT
        } else {
            n * 2
        };
    }
}

/// The sign that bit `t` of the first eight bytes stands for.
pub open spec fn sign_of(s: Seq<u8>, t: int) -> int {
    1 - 2 * ((s[t / 8] as int / pow2((t % 8) as nat) as int) % 2)
}

/// The loop of SampleInBall (Alg 29) from place `i` on, reading at `pos`: the
/// next byte of at most `i` names the place that moves to `i` and takes the
/// next sign.
pub open spec fn ball(s: Seq<u8>, tau: int, i: int, pos: int, c: Seq<int>) -> Option<Seq<int>>
    decreases s.len() - pos,
{
    if i >= 256 {
        Some(c)
    } else if pos >= s.len() {
        None
    } else if s[pos] as int <= i {
        let j = s[pos] as int;
        ball(
            s,
            tau,
            i + 1,
            pos + 1,
            c.update(i, c[j]).update(j, sign_of(s, i - (256 - tau))),
        )
    } else {
        ball(s, tau, i, pos + 1, c)
    }
}

/// The challenge polynomial that the stream bytes give, if they suffice.
pub open spec fn ball_sample(tau: int, s: Seq<u8>) -> Option<Seq<int>> {
    if s.len() < 8 {
        None
    } else {
        ball(s, tau, 256 - tau, 8, poly::zero_seq())
    }
}

/// What SampleInBall (Alg 29) makes of the commitment hash.
pub open spec fn challenge(tau: int, c_tilde: Seq<u8>) -> Option<Seq<int>> {
    ball_sample(tau, xof::stream256(c_tilde, XOF_LIMIT as nat))
}

proof fn lemma_ball_prefix(s: Seq<u8>, t: Seq<u8>, tau: int, i: int, pos: int, c: Seq<int>)
    requires
        8 <= s.len() <= t.len(),
        forall|k: int| 0 <= k < s.len() ==> s[k] == t[k],
        0 <= pos,
        0 <= 256 - tau <= i,
        tau <= 64,
        ball(s, tau, i, pos, c) is Some,
    ensures
        ball(t, tau, i, pos, c) == ball(s, tau, i, pos, c),
    decreases s.len() - pos,
{
    if i < 256 {
        if s[pos] as int <= i {
            let j = s[pos] as int;
            let x = i - (256 - tau);
            assert(0 <= x / 8 < 8);
            assert(sign_of(s, x) == sign_of(t, x));
            let d = c.update(i, c[j]).update(j, sign_of(s, x));
            lemma_ball_prefix(s, t, tau, i + 1, pos + 1, d);
        } else {
            lemma_ball_prefix(s, t, tau, i, pos + 1, c);
        }
    }
}

spec fn mag(x: int) -> int {
    if x < 0 {
        -x
    } else {
        x
    }
}

proof fn lemma_l1_update(c: Seq<int>, i: int, v: int, n: nat)
    requires
        c.len() == 256,
        0 <= i < 256,
        n <= 256,
    ensures
        ring::l1(c.update(i, v), n) == ring::l1(c, n) + (if i < n {
            mag(v) - mag(c[i])
        } else {
            0
        }),
    decreases n,
{
    if n > 0 {
        lemma_l1_update(c, i, v, (n - 1) as nat);
    }
}

proof fn lemma_l1_zero(n: nat)
    requires
        n <= 256,
    ensures
        ring::l1(poly::zero_seq(), n) == 0,
    decreases n,
{
    if n > 0 {
        lemma_l1_zero((n - 1) as nat);
    }
}

proof fn lemma_ball_weight(s: Seq<u8>, tau: int, i: int, pos: int, c: Seq<int>)
    requires
        0 <= pos,
        0 <= 256 - tau <= i <= 256,
        c.len() == 256,
        poly::within(c, -1, 1),
        forall|k: int| i <= k < 256 ==> #[trigger] c[k] == 0,
        ring::l1(c, 256) == i - (256 - tau),
        ball(s, tau, i, pos, c) is Some,
    ensures
        (ball(s, tau, i, pos, c)->0).len() == 256,
        poly::within(ball(s, tau, i, pos, c)->0, -1, 1),
        ring::l1(ball(s, tau, i, pos, c)->0, 256) == tau,
    decreases s.len() - pos,
{
    if i < 256 {
        if s[pos] as int <= i {
            let j = s[pos] as int;
            let sg = sign_of(s, i - (256 - tau));
            assert(sg == 1 || sg == -1);
            let d = c.update(i, c[j]);
            let e = d.update(j, sg);
            lemma_l1_update(c, i, c[j], 256);
            lemma_l1_update(d, j, sg, 256);
            assert(poly::within(e, -1, 1)) by {
                assert forall|k: int| 0 <= k < 256 implies -1 <= #[trigger] e[k] <= 1 by {
                    assert(-1 <= c[k] <= 1 && -1 <= c[j] <= 1);
                }
            }
            lemma_ball_weight(s, tau, i + 1, pos + 1, e);
        } else {
            lemma_ball_weight(s, tau, i, pos + 1, c);
        }
    }
}

/// A challenge has `tau` coefficients of magnitude 1, the others zero.
pub proof fn lemma_ball_sample(tau: int, s: Seq<u8>)
    requires
        0 <= tau <= 64,
        ball_sample(tau, s) is Some,
    ensures
        (ball_sample(tau, s)->0).len() == 256,
        poly::within(ball_sample(tau, s)->0, -1, 1),
        ring::l1(ball_sample(tau, s)->0, 256) == tau,
{
    lemma_l1_zero(256);
    lemma_ball_weight(s, tau, 256 - tau, 8, poly::zero_seq());
}

/// Bit `t` of the first eight bytes as a sign.
fn read_sign(s: &[u8], t: usize) -> (v: i32)
    requires
        t < 64,
        s@.len() >= 8,
    ensures
        v == sign_of(s@, t as int),
        v == 1 || v == -1,
{
    let x: u8 = s[t / 8];
    let k: u8 = (t % 8) as u8;
    let bit: u8 = (x >> k) % 2;
    proof {
        lemma_u8_shr_is_div(x, k);
    }
    1 - 2 * (bit as i32)
}

/// The part of SampleInBall (Alg 29) that follows the hash.
pub fn ball_from(tau: i32, s: &[u8]) -> (r: Option<Poly>)
    requires
        0 <= tau <= 64,
    ensures
        r is Some <==> ball_sample(tau as int, s@) is Some,
        r matches Some(p) ==> ball_sample(tau as int, s@) == Some(p@),
        r matches Some(p) ==> poly::within(p@, -1, 1),
{
    let len: usize = s.len();
    if len < 8 {
        return None;
    }
    let first: usize = 256 - tau as usize;
    let mut c = Poly::zero();
    let mut i: usize = first;
    let mut pos: usize = 8;
    while i < 256 && pos < len
        invariant
            0 <= tau <= 64,
            first == 256 - tau,
            first <= i <= 256,
            len == s@.len(),
            8 <= pos <= len,
            ball(s@, tau as int, i as int, pos as int, c@) == ball_sample(tau as int, s@),
        decreases len - pos,
    {
        let j: usize = s[pos] as usize;
        if j <= i {
            let moved: i32 = c.get(j);
            let sign: i32 = read_sign(s, i - first);
            c.set(i, moved);
            c.set(j, sign);
            i = i + 1;
        }
        pos = pos + 1;
    }
    if i < 256 {
        None
    } else {
        proof {
            lemma_ball_sample(tau as int, s@);
        }
        Some(c)
    }
}

/// SampleInBall (Alg 29): a challenge polynomial with coefficients in
/// {-1, 0, 1} and Hamming weight tau, from the public commitment hash.
pub fn sample_in_ball(tau: i32, c_tilde: &[u8]) -> (r: Option<Poly>)
    requires
        0 <= tau <= 64,
    ensures
        r is Some <==> challenge(tau as int, c_tilde@) is Some,
        r matches Some(p) ==> challenge(tau as int, c_tilde@) == Some(p@),
        r matches Some(p) ==> poly::within(p@, -1, 1) && ring::l1(p@, 256) == tau,
{
    let ghost full = xof::stream256(c_tilde@, XOF_LIMIT as nat);
    let mut n: usize = 272;
    loop
        invariant
            272 <= n <= XOF_LIMIT,
            0 <= tau <= 64,
            full == xof::stream256(c_tilde@, XOF_LIMIT as nat),
            full.len() == XOF_LIMIT,
        decreases XOF_LIMIT - n,
    {
        let stream = xof::shake256(c_tilde, n);
        match ball_from(tau, &stream) {
            Some(p) => {
                proof {
                    lemma_ball_prefix(stream@, full, tau as int, 256 - tau, 8, poly::zero_seq());
                    lemma_ball_sample(tau as int, stream@);
                }
                return Some(p);
            },
            None => {
                if n == XOF_LIMIT {
                    assert(stream@ =~= full);
                    return None;
                }
            },
        }
        n = if n > XOF_LIMIT / 2 {
            XOF_LIMIT
        } else {
            n * 2
        };
    }
}

/// Entry `r` of the secret vectors (Alg 33), s1 first and s2 behind it.
pub open spec fn secret_entry(eta: int, rho: Seq<u8>, r: int) -> Option<Seq<int>> {
    bounded_sample(eta, xof::stream256(rho + seq![r as u8, 0u8], XOF_LIMIT as nat))
}

/// A secret entry has 256 coefficients in [-eta, eta].
pub proof fn lemma_secret_entry(eta: int, rho: Seq<u8>, r: int)
    requires
        eta == 2 || eta == 4,
        secret_entry(eta, rho, r) is Some,
    ensures
        (secret_entry(eta, rho, r)->0).len() == 256,
        poly::within(secret_entry(eta, rho, r)->0, -eta, eta),
{
    let s = xof::stream256(rho + seq![r as u8, 0u8], XOF_LIMIT as nat);
    lemma_bounded_range(eta, s, 2 * s.len());
}

proof fn lemma_bounded_range(eta: int, s: Seq<u8>, h: nat)
    requires
        eta == 2 || eta == 4,
        h <= 2 * s.len(),
    ensures
        forall|i: int|
            0 <= i < bounded_accepted(eta, s, h).len() ==> -eta <= #[trigger] bounded_accepted(
                eta,
                s,
                h,
            )[i] <= eta,
    decreases h,
{
    if h > 0 {
        let m = (h - 1) as nat;
        lemma_bounded_range(eta, s, m);
        assert(0 <= nibble(s, m as int) < 16);
        let t = bounded_accepted(eta, s, h);
        assert forall|i: int| 0 <= i < t.len() implies -eta <= #[trigger] t[i] <= eta by {
            if i < bounded_accepted(eta, s, m).len() {
                assert(t[i] == bounded_accepted(eta, s, m)[i]);
            }
        }
    }
}

fn secret_poly(eta: i32, rho: &[u8], r: usize) -> (res: Option<Poly>)
    requires
        0 <= eta,
        r < 256,
    ensures
        res is Some <==> secret_entry(eta as int, rho@, r as int) is Some,
        res matches Some(p) ==> secret_entry(eta as int, rho@, r as int) == Some(p@),
        res matches Some(p) ==> poly::within(p@, -eta as int, eta as int),
{
    let mut input: Vec<u8> = Vec::new();
    input.extend_from_slice(rho);
    input.push(r as u8);
    input.push(0);
    assert(input@ =~= rho@ + seq![r as u8, 0u8]);
    let res = rej_bounded_poly(eta, &input);
    wipe(input.as_mut_slice());
    res
}

/// Entries `from` to `from + count` of the secret vectors.
fn secret_vec(eta: i32, rho: &[u8], from: usize, count: usize) -> (res: Option<Vec<Poly>>)
    requires
        0 <= eta,
        from + count <= 256,
    ensures
        res is Some <==> forall|r: int|
            0 <= r < count ==> (#[trigger] secret_entry(eta as int, rho@, from + r)) is Some,
        res matches Some(v) ==> v@.len() == count && forall|r: int|
            0 <= r < count ==> secret_entry(eta as int, rho@, from + r) == Some(
                (#[trigger] v@[r])@,
            ) && poly::within(v@[r]@, -eta as int, eta as int),
{
    let mut v: Vec<Poly> = Vec::with_capacity(count);
    let mut r: usize = 0;
    while r < count
        invariant
            r <= count,
            0 <= eta,
            from + count <= 256,
            v@.len() == r,
            forall|x: int|
                0 <= x < r ==> secret_entry(eta as int, rho@, from + x) == Some(
                    (#[trigger] v@[x])@,
                ) && poly::within(v@[x]@, -eta as int, eta as int),
        decreases count - r,
    {
        match secret_poly(eta, rho, from + r) {
            Some(p) => {
                v.push(p);
            },
            None => {
                assert(secret_entry(eta as int, rho@, from + r as int) is None);
                return None;
            },
        }
        r = r + 1;
    }
    assert forall|x: int| 0 <= x < count implies (#[trigger] secret_entry(
        eta as int,
        rho@,
        from + x,
    )) is Some by {
        assert(secret_entry(eta as int, rho@, from + x) == Some(v@[x]@));
    }
    Some(v)
}

/// All entries of the secret vectors can be sampled.
pub open spec fn secrets_defined(eta: int, rho: Seq<u8>, count: int) -> bool {
    forall|r: int| 0 <= r < count ==> (#[trigger] secret_entry(eta, rho, r)) is Some
}

/// ExpandS (Alg 33): the short secret vectors s1 of length `l` and s2 of
/// length `k`, with coefficients in [-eta, eta].
pub fn expand_s(k: usize, l: usize, eta: i32, rho: &[u8]) -> (res: Option<(Vec<Poly>, Vec<Poly>)>)
    requires
        0 <= eta,
        k + l <= 256,
    ensures
        res is Some <==> secrets_defined(eta as int, rho@, k + l),
        res matches Some(v) ==> {
            &&& v.0@.len() == l
            &&& v.1@.len() == k
            &&& forall|r: int|
                0 <= r < l ==> secret_entry(eta as int, rho@, r) == Some((#[trigger] v.0@[r])@)
                    && poly::within(v.0@[r]@, -eta as int, eta as int)
            &&& forall|r: int|
                0 <= r < k ==> secret_entry(eta as int, rho@, l + r) == Some((#[trigger] v.1@[r])@)
                    && poly::within(v.1@[r]@, -eta as int, eta as int)
        },
{
    let s1 = match secret_vec(eta, rho, 0, l) {
        Some(v) => v,
        None => {
            assert(!secrets_defined(eta as int, rho@, k + l)) by {
                let r = choose|r: int|
                    0 <= r < l && (#[trigger] secret_entry(eta as int, rho@, 0 + r)) is None;
                assert(secret_entry(eta as int, rho@, r) is None);
            }
            return None;
        },
    };
    let s2 = match secret_vec(eta, rho, l, k) {
        Some(v) => v,
        None => {
            assert(!secrets_defined(eta as int, rho@, k + l)) by {
                let r = choose|r: int|
                    0 <= r < k && (#[trigger] secret_entry(eta as int, rho@, l + r)) is None;
                assert(secret_entry(eta as int, rho@, l + r) is None);
            }
            return None;
        },
    };
    proof {
        assert forall|r: int| 0 <= r < k + l implies (#[trigger] secret_entry(
            eta as int,
            rho@,
            r,
        )) is Some by {
            if r < l {
                assert(secret_entry(eta as int, rho@, 0 + r) is Some);
            } else {
                assert(secret_entry(eta as int, rho@, l + (r - l)) is Some);
            }
        }
        assert forall|r: int| 0 <= r < l implies secret_entry(eta as int, rho@, r) == Some(
            (#[trigger] s1@[r])@,
        ) by {
            assert(secret_entry(eta as int, rho@, 0 + r) == Some(s1@[r]@));
        }
    }
    Some((s1, s2))
}

/// The mask bounds of the two parameter sets.
pub open spec fn is_gamma1(g: int) -> bool {
    g == 131072 || g == 524288
}

/// The width of a packed mask coefficient.
pub open spec fn mask_width(g: int) -> nat {
    if g == 131072 {
        18
    } else {
        20
    }
}

pub proof fn lemma_mask_width(g: int)
    requires
        is_gamma1(g),
    ensures
        pack::bitlen((g - 1) + g) == mask_width(g),
        pow2(mask_width(g)) == 2 * g,
        pack::bitlen(g - 1) + 1 == mask_width(g),
{
    lemma2_to64();
    pack::lemma_bitlen(2 * g - 1);
    pack::lemma_bitlen(g - 1);
    pack::lemma_width_unique(2 * g - 1, pack::bitlen(2 * g - 1));
    pack::lemma_width_unique(g - 1, pack::bitlen(g - 1));
    if g == 131072 {
        assert(pow2(17) == 131072 && pow2(18) == 262144 && pow2(16) == 65536);
    } else {
        assert(pow2(19) == 524288 && pow2(20) == 1048576 && pow2(18) == 262144);
    }
}

/// The mask polynomial (Alg 34) of counter value `n`.
pub open spec fn mask_entry(g: int, rho: Seq<u8>, n: int) -> Seq<int> {
    pack::from_offsets(
        pack::unpacked(
            xof::stream256(rho + seq![(n % 256) as u8, (n / 256) as u8], 32 * mask_width(g)),
            mask_width(g),
        ),
        g - 1,
        g,
    )
}

/// ExpandMask (Alg 34): the masking vector of length `l` with coefficients in
/// (-gamma1, gamma1], for the counter value `mu`.
pub fn expand_mask(l: usize, gamma1: i32, rho: &[u8], mu: u16) -> (y: Vec<Poly>)
    requires
        is_gamma1(gamma1 as int),
        mu + l <= 65536,
    ensures
        y@.len() == l,
        forall|r: int|
            0 <= r < l ==> (#[trigger] y@[r])@ == mask_entry(gamma1 as int, rho@, mu + r) && poly::within(
                y@[r]@,
                -gamma1 + 1,
                gamma1 as int,
            ),
{
    proof {
        lemma_mask_width(gamma1 as int);
    }
    let c: usize = if gamma1 == 131_072 {
        18
    } else {
        20
    };
    let mut y: Vec<Poly> = Vec::with_capacity(l);
    let mut r: usize = 0;
    while r < l
        invariant
            r <= l,
            is_gamma1(gamma1 as int),
            mu + l <= 65536,
            c == mask_width(gamma1 as int),
            pack::bitlen((gamma1 - 1) + gamma1) == c,
            pow2(c as nat) == 2 * gamma1,
            y@.len() == r,
            forall|x: int|
                0 <= x < r ==> (#[trigger] y@[x])@ == mask_entry(gamma1 as int, rho@, mu + x)
                    && poly::within(y@[x]@, -gamma1 + 1, gamma1 as int),
        decreases l - r,
    {
        let n: usize = mu as usize + r;
        let mut input: Vec<u8> = Vec::new();
        input.extend_from_slice(rho);
        input.push((n % 256) as u8);
        input.push((n / 256) as u8);
        let ghost at = rho@ + seq![(n as int % 256) as u8, (n as int / 256) as u8];
        assert(input@ =~= at);
        let mut v = xof::shake256(&input, 32 * c);
        wipe(input.as_mut_slice());
        assert(v@ =~= xof::stream256(at, 32 * mask_width(gamma1 as int)));
        match pack::bit_unpack(&v, gamma1 - 1, gamma1) {
            Ok(p) => {
                y.push(p);
            },
            Err(_) => {
                assert(false);
            },
        }
        r = r + 1;
    }
    y
}

/// All entries of the matrix can be sampled.
pub open spec fn matrix_defined(rho: Seq<u8>, k: int, l: int) -> bool {
    forall|i: int, j: int|
        0 <= i < k && 0 <= j < l ==> (#[trigger] matrix_entry(rho, j as u8, i as u8)) is Some
}

/// Entry `n` of row `i` of the matrix times the first `j` entries of `u`, all
/// in the NTT domain.
pub open spec fn row_dot(rho: Seq<u8>, u: Seq<Seq<int>>, i: int, n: int, j: nat) -> int
    decreases j,
{
    if j == 0 {
        0
    } else {
        row_dot(rho, u, i, n, (j - 1) as nat) + (matrix_entry(
            rho,
            (j - 1) as u8,
            i as u8,
        )->0)[n] * u[j - 1][n]
    }
}

/// The Montgomery product of a matrix entry and a lifted polynomial, added to
/// the sum so far.
fn add_product(w: &mut Poly, a: &Poly, m: &Poly, Ghost(u): Ghost<Seq<int>>, Ghost(bound): Ghost<int>)
    requires
        0 <= bound <= 67043328,
        poly::within(old(w)@, -bound, bound),
        poly::within(a@, 0, 8380416),
        poly::within(m@, -16760833, 16760833),
        forall|n: int| 0 <= n < 256 ==> modq::cong(#[trigger] m@[n], u[n] * 4294967296),
    ensures
        poly::within(final(w)@, -(bound + 8380416), bound + 8380416),
        forall|n: int|
            0 <= n < 256 ==> modq::cong(
                #[trigger] final(w)@[n],
                old(w)@[n] + a@[n] * u[n],
            ),
{
    let ghost before = w@;
    let mut n: usize = 0;
    while n < 256
        invariant
            n <= 256,
            0 <= bound <= 67043328,
            poly::within(before, -bound, bound),
            poly::within(a@, 0, 8380416),
            poly::within(m@, -16760833, 16760833),
            forall|n: int| 0 <= n < 256 ==> modq::cong(#[trigger] m@[n], u[n] * 4294967296),
            forall|p: int| n <= p < 256 ==> #[trigger] w@[p] == before[p],
            forall|p: int|
                0 <= p < n ==> -(bound + 8380416) <= #[trigger] w@[p] <= bound + 8380416,
            forall|p: int|
                0 <= p < n ==> modq::cong(#[trigger] w@[p], before[p] + a@[p] * u[p]),
        decreases 256 - n,
    {
        let x: i64 = a.get(n) as i64;
        let y: i64 = m.get(n) as i64;
        proof {
            assert(0 <= a@[n as int] <= 8380416 && -16760833 <= m@[n as int] <= 16760833);
            assert(-16760833 * 8380416 <= x * y <= 16760833 * 8380416) by (nonlinear_arith)
                requires
                    0 <= x <= 8380416,
                    -16760833 <= y <= 16760833,
            ;
        }
        let t: i32 = mont_reduce(x * y);
        let old_w: i32 = w.get(n);
        proof {
            let un = u[n as int];
            modq::lemma_cong_mul(x as int, x as int, y as int, un * 4294967296);
            assert(x * (un * 4294967296) == (x * un) * 4294967296) by (nonlinear_arith);
            modq::lemma_cong_cancel_r(t as int, x * un);
            modq::lemma_cong_add(before[n as int], before[n as int], t as int, x * un);
            assert(-bound <= before[n as int] <= bound);
        }
        w.set(n, old_w + t);
        n = n + 1;
    }
}

/// Streaming matrix-vector product in the NTT domain: each matrix entry is
/// sampled when it is needed instead of holding all k * l of them. The vector
/// is lifted into Montgomery form here. `None` when a matrix entry cannot be
/// sampled.
pub fn matrix_mul_streaming(k: usize, rho: &[u8; 32], u_hat: &Vec<Poly>) -> (res: Option<Vec<Poly>>)
    requires
        k <= 256,
        u_hat@.len() <= 8,
        forall|j: int|
            0 <= j < u_hat@.len() ==> poly::within((#[trigger] u_hat@[j])@, -67000000, 67000000),
    ensures
        res is Some <==> matrix_defined(rho@, k as int, u_hat@.len() as int),
        res matches Some(w) ==> w@.len() == k && forall|i: int|
            0 <= i < k ==> poly::within((#[trigger] w@[i])@, -67043328, 67043328) && forall|n: int|
                0 <= n < 256 ==> modq::cong(
                    #[trigger] w@[i]@[n],
                    row_dot(rho@, pack::rows(u_hat@), i, n, u_hat@.len()),
                ),
{
    let l: usize = u_hat.len();
    let ghost u = pack::rows(u_hat@);
    let mut u_mont: Vec<Poly> = Vec::with_capacity(l);
    let mut j: usize = 0;
    while j < l
        invariant
            j <= l,
            l == u_hat@.len(),
            u == pack::rows(u_hat@),
            u_mont@.len() == j,
            forall|x: int|
                0 <= x < u_hat@.len() ==> poly::within((#[trigger] u_hat@[x])@, -67000000, 67000000),
            forall|x: int|
                0 <= x < j ==> poly::within((#[trigger] u_mont@[x])@, -16760833, 16760833) && forall|
                    n: int,
                |
                    0 <= n < 256 ==> modq::cong(
                        #[trigger] u_mont@[x]@[n],
                        u[x][n] * 4294967296,
                    ),
        decreases l - j,
    {
        assert(poly::within(u_hat@[j as int]@, -67000000, 67000000));
        u_mont.push(to_mont(&u_hat[j]));
        j = j + 1;
    }
    let mut w: Vec<Poly> = Vec::with_capacity(k);
    let mut i: usize = 0;
    while i < k
        invariant
            i <= k <= 256,
            l <= 8,
            l == u_hat@.len(),
            u == pack::rows(u_hat@),
            l == u_mont@.len(),
            u.len() == l,
            w@.len() == i,
            forall|x: int|
                0 <= x < l ==> poly::within((#[trigger] u_mont@[x])@, -16760833, 16760833) && forall|
                    n: int,
                |
                    0 <= n < 256 ==> modq::cong(
                        #[trigger] u_mont@[x]@[n],
                        u[x][n] * 4294967296,
                    ),
            forall|x: int, y: int|
                0 <= x < i && 0 <= y < l ==> (#[trigger] matrix_entry(
                    rho@,
                    y as u8,
                    x as u8,
                )) is Some,
            forall|x: int|
                0 <= x < i ==> poly::within((#[trigger] w@[x])@, -67043328, 67043328) && forall|n: int|
                    0 <= n < 256 ==> modq::cong(
                        #[trigger] w@[x]@[n],
                        row_dot(rho@, u, x, n, l as nat),
                    ),
        decreases k - i,
    {
        let mut acc = Poly::zero();
        let mut j: usize = 0;
        while j < l
            invariant
                i < k <= 256,
                j <= l <= 8,
                l == u_hat@.len(),
                l == u_mont@.len(),
                u.len() == l,
                forall|x: int|
                    0 <= x < l ==> poly::within((#[trigger] u_mont@[x])@, -16760833, 16760833)
                        && forall|n: int|
                        0 <= n < 256 ==> modq::cong(
                            #[trigger] u_mont@[x]@[n],
                            u[x][n] * 4294967296,
                        ),
                poly::within(acc@, -(8380416 * j), 8380416 * j),
                forall|y: int|
                    0 <= y < j ==> (#[trigger] matrix_entry(rho@, y as u8, i as u8)) is Some,
                forall|n: int|
                    0 <= n < 256 ==> modq::cong(
                        #[trigger] acc@[n],
                        row_dot(rho@, u, i as int, n, j as nat),
                    ),
            decreases l - j,
        {
            let a = match rej_ntt_poly(rho, j as u8, i as u8) {
                Some(a) => a,
                None => {
                    assert(!matrix_defined(rho@, k as int, l as int)) by {
                        assert(matrix_entry(rho@, (j as int) as u8, (i as int) as u8) is None);
                    }
                    return None;
                },
            };
            let ghost before = acc@;
            assert(poly::within(u_mont@[j as int]@, -16760833, 16760833));
            add_product(&mut acc, &a, &u_mont[j], Ghost(u[j as int]), Ghost(8380416 * j));
            proof {
                assert forall|n: int| 0 <= n < 256 implies modq::cong(
                    #[trigger] acc@[n],
                    row_dot(rho@, u, i as int, n, (j + 1) as nat),
                ) by {
                    let p = a@[n] * u[j as int][n];
                    modq::lemma_cong_add(
                        before[n],
                        row_dot(rho@, u, i as int, n, j as nat),
                        p,
                        p,
                    );
                }
            }
            j = j + 1;
        }
        w.push(acc);
        i = i + 1;
    }
    Some(w)
}

/// All entries of the matrix can be sampled.
pub fn matrix_expands(k: usize, l: usize, rho: &[u8; 32]) -> (r: bool)
    requires
        k <= 256,
        l <= 256,
    ensures
        r == matrix_defined(rho@, k as int, l as int),
{
    let mut i: usize = 0;
    while i < k
        invariant
            i <= k <= 256,
            l <= 256,
            forall|x: int, y: int|
                0 <= x < i && 0 <= y < l ==> (#[trigger] matrix_entry(
                    rho@,
                    y as u8,
                    x as u8,
                )) is Some,
        decreases k - i,
    {
        let mut j: usize = 0;
        while j < l
            invariant
                i < k <= 256,
                j <= l <= 256,
                forall|y: int|
                    0 <= y < j ==> (#[trigger] matrix_entry(rho@, y as u8, i as u8)) is Some,
            decreases l - j,
        {
            if rej_ntt_poly(rho, j as u8, i as u8).is_none() {
                assert(matrix_entry(rho@, (j as int) as u8, (i as int) as u8) is None);
                return false;
            }
            j = j + 1;
        }
        i = i + 1;
    }
    true
}

/// Three bytes give the 23-bit little-endian number of their low bits, and only
/// where it is below q.
pub proof fn law_coefficient_from_three_bytes(b0: u8, b1: u8, b2: u8)
    ensures
        three_bytes(b0, b1, b2) is Some <==> b0 + 256 * b1 + 65536 * (b2 & 0x7f) < 8380417,
        three_bytes(b0, b1, b2) matches Some(v) ==> v == b0 + 256 * b1 + 65536 * (b2 & 0x7f),
{
    assert(b2 & 0x7f == b2 % 128) by (bit_vector);
}

/// A half byte gives a number from -eta to eta, each from equally many half
/// bytes: for eta 2 from three of the first fifteen, for eta 4 from one of the
/// first nine.
pub proof fn law_coefficient_from_half_byte(eta: int, b: int)
    requires
        eta == 2 || eta == 4,
        0 <= b < 16,
    ensures
        half_byte(eta, b) matches Some(v) ==> -eta <= v <= eta,
        eta == 2 ==> (half_byte(eta, b) is Some <==> b < 15),
        eta == 4 ==> (half_byte(eta, b) is Some <==> b < 9),
        eta == 2 && b < 10 ==> half_byte(eta, b + 5) == half_byte(eta, b),
        eta == 2 && b < 5 ==> half_byte(eta, b) == Some(2 - b),
        eta == 4 && b < 9 ==> half_byte(eta, b) == Some(4 - b),
{
}

/// An entry of the matrix is sampled from SHAKE-128 of the seed, the column and
/// the row; its coefficients are the numbers below q among the groups of three
/// bytes, in their order.
pub proof fn law_matrix_entry(rho: Seq<u8>, s: u8, r: u8, g: nat)
    ensures
        ({
            let stream = xof::stream128(rho + seq![s, r], XOF_LIMIT as nat);
            let all = ntt_accepted(stream, stream.len() / 3);
            &&& matrix_entry(rho, s, r) is Some <==> all.len() >= 256
            &&& matrix_entry(rho, s, r) matches Some(a) ==> a == all.take(256)
            &&& ntt_accepted(stream, 0).len() == 0
            &&& ntt_accepted(stream, g + 1) == ntt_accepted(stream, g) + (match three_bytes(
                stream[3 * g as int],
                stream[3 * g as int + 1],
                stream[3 * g as int + 2],
            ) {
                Some(v) => seq![v],
                None => Seq::empty(),
            })
        }),
        matrix_entry(rho, s, r) matches Some(a) ==> a.len() == 256 && forall|i: int|
            0 <= i < 256 ==> 0 <= #[trigger] a[i] < 8380417,
{
    let stream = xof::stream128(rho + seq![s, r], XOF_LIMIT as nat);
    lemma_ntt_range(stream, stream.len() / 3);
    let t = ntt_accepted(stream, g);
    assert(ntt_accepted(stream, g + 1) =~= t + (match three_bytes(
        stream[3 * g as int],
        stream[3 * g as int + 1],
        stream[3 * g as int + 2],
    ) {
        Some(v) => seq![v],
        None => Seq::empty(),
    }));
}

proof fn lemma_ntt_range(s: Seq<u8>, g: nat)
    requires
        3 * g <= s.len(),
    ensures
        forall|i: int|
            0 <= i < ntt_accepted(s, g).len() ==> 0 <= #[trigger] ntt_accepted(s, g)[i] < 8380417,
    decreases g,
{
    if g > 0 {
        let h = (g - 1) as nat;
        lemma_ntt_range(s, h);
        let t = ntt_accepted(s, h);
        law_coefficient_from_three_bytes(s[3 * h as int], s[3 * h as int + 1], s[3 * h as int + 2]);
        assert forall|i: int| 0 <= i < ntt_accepted(s, g).len() implies 0
            <= #[trigger] ntt_accepted(s, g)[i] < 8380417 by {
            if i < t.len() {
                assert(ntt_accepted(s, g)[i] == t[i]);
            }
        }
    }
}

/// An entry of the secret vectors is sampled from SHAKE-256 of the seed and its
/// number as two little-endian bytes, and lies between -eta and eta.
pub proof fn law_secret_entry(eta: int, rho: Seq<u8>, r: int)
    requires
        eta == 2 || eta == 4,
        0 <= r < 256,
    ensures
        secret_entry(eta, rho, r) == bounded_sample(
            eta,
            xof::stream256(rho + seq![r as u8, 0u8], XOF_LIMIT as nat),
        ),
        secret_entry(eta, rho, r) matches Some(a) ==> a.len() == 256 && poly::within(a, -eta, eta),
{
    if secret_entry(eta, rho, r) is Some {
        lemma_secret_entry(eta, rho, r);
    }
}

/// The challenge is sampled from SHAKE-256 of the commitment hash alone. It has
/// coefficients -1, 0 and 1, as many of them not zero as the weight says.
pub proof fn law_challenge(tau: int, c_tilde: Seq<u8>)
    requires
        0 <= tau <= 64,
    ensures
        challenge(tau, c_tilde) == ball_sample(
            tau,
            xof::stream256(c_tilde, XOF_LIMIT as nat),
        ),
        challenge(tau, c_tilde) matches Some(c) ==> c.len() == 256 && poly::within(c, -1, 1)
            && ring::l1(c, 256) == tau,
{
    if challenge(tau, c_tilde) is Some {
        lemma_ball_sample(tau, xof::stream256(c_tilde, XOF_LIMIT as nat));
    }
}

}
