//! ML-DSA: arithmetic, encodings, sampling and the scheme, with differential
//! tests against an independent implementation.

use fips204::ml_dsa_44 as f44;
use fips204::ml_dsa_65 as f65;
use fips204::traits::{KeyGen, SerDes, Signer, Verifier};

use rs_key::mldsa::encode::{pk_decode, pk_encode, sig_decode, sig_encode, sk_decode, w1_encode};
use rs_key::mldsa::ntt::{gen_zeta_table_mont, inv_ntt_inplace, ntt_inplace};
use rs_key::mldsa::pack::{
    bit_length, bit_pack, bit_unpack, hint_bit_pack, hint_bit_unpack, simple_bit_pack,
    simple_bit_unpack,
};
use rs_key::mldsa::params::{ml_dsa_44, ml_dsa_65, Params, D, Q};
use rs_key::mldsa::poly::{pointwise_mont, zero_vec, Poly};
use rs_key::mldsa::reduce::{
    center_mod, full_reduce32, mont_reduce, partial_reduce32, partial_reduce64, to_mont,
};
use rs_key::mldsa::round::{
    decompose, high_bits, low_bits, make_hint, power2round, use_hint,
};
use rs_key::mldsa::sample::{
    ball_from, coeff_from_half_byte, coeff_from_three_bytes, expand_mask, expand_s,
    matrix_expands, rej_bounded_from, rej_ntt_from, rej_ntt_poly, sample_in_ball,
};
use rs_key::mldsa::sign::{hint_weight, infinity_norm, seed_expands, verify, ExpandedKey};
use rs_key::mldsa::{
    mldsa44_verify, mldsa65_verify, Error, MlDsa44, MlDsa65, MLDSA44_SIG_LEN, MLDSA65_SIG_LEN,
};

/// SplitMix64, deterministic from its seed.
struct Rng(u64);

impl Rng {
    fn new(seed: u64) -> Self {
        Rng(seed)
    }

    fn next_u64(&mut self) -> u64 {
        self.0 = self.0.wrapping_add(0x9E37_79B9_7F4A_7C15);
        let mut z = self.0;
        z = (z ^ (z >> 30)).wrapping_mul(0xBF58_476D_1CE4_E5B9);
        z = (z ^ (z >> 27)).wrapping_mul(0x94D0_49BB_1331_11EB);
        z ^ (z >> 31)
    }

    fn next_u32(&mut self) -> u32 {
        self.next_u64() as u32
    }

    fn fill(&mut self, out: &mut [u8]) {
        for b in out {
            *b = self.next_u64() as u8;
        }
    }
}

fn rand_poly_range(rng: &mut Rng, lo: i32, hi: i32) -> Poly {
    let span = (hi - lo + 1) as u64;
    let mut p = Poly::zero();
    for c in &mut p.0 {
        *c = lo + (rng.next_u64() % span) as i32;
    }
    p
}

fn rand_poly_q(rng: &mut Rng) -> Poly {
    let mut p = Poly::zero();
    for c in &mut p.0 {
        *c = (rng.next_u64() % (Q as u64)) as i32;
    }
    p
}

// ---- reduction ----

#[test]
fn full_reduce_is_canonical() {
    assert_eq!(full_reduce32(0), 0);
    assert_eq!(full_reduce32(Q), 0);
    assert_eq!(full_reduce32(-1), Q - 1);
    assert_eq!(full_reduce32(Q + 5), 5);
    assert_eq!(full_reduce32(2 * Q - 1), Q - 1);
    for a in [-8_000_000i32, -1, 1, 12_345, 8_000_000, 2_143_289_343] {
        let r = full_reduce32(a);
        assert!((0..Q).contains(&r), "full_reduce32({a}) = {r} out of [0,q)");
        assert_eq!(r, a.rem_euclid(Q));
    }
}

#[test]
fn partial_reduce32_bounds() {
    for a in [-2_000_000_000i32, -1, 0, 1, 8_380_416, 2_143_289_343] {
        let r = partial_reduce32(a);
        assert!(r.unsigned_abs() < Q as u32, "partial_reduce32({a}) = {r} not in (-q,q)");
        assert_eq!(r.rem_euclid(Q), a.rem_euclid(Q));
    }
}

#[test]
fn center_mod_in_symmetric_range() {
    for a in [0i32, 1, Q / 2, Q / 2 + 1, Q - 1, -1, 5_000_000, -5_000_000] {
        let c = center_mod(a);
        assert!(c > -(Q / 2) - 1 && c <= Q / 2, "center_mod({a}) = {c} out of range");
        assert_eq!(c.rem_euclid(Q), a.rem_euclid(Q));
    }
}

#[test]
fn to_mont_then_mont_reduce_is_identity() {
    let mut p = Poly::zero();
    p.0[0] = 12_345;
    p.0[1] = -6_789;
    p.0[2] = Q - 1;
    p.0[3] = 1;
    let m = to_mont(&p);
    for n in 0..4 {
        let back = mont_reduce(i64::from(m.0[n]));
        assert_eq!(full_reduce32(back), full_reduce32(p.0[n]), "mont roundtrip coeff {n}");
    }
}

#[test]
fn mont_reduce_exact_values() {
    assert_eq!(mont_reduce(0), 0);
    assert_eq!(mont_reduce(4_294_967_296), 1);
    assert_eq!(mont_reduce(-4_294_967_296), -1);
    assert_eq!(full_reduce32(mont_reduce(1)), 8_265_825);
    let top = (1i64 << 31) * i64::from(Q);
    assert!(mont_reduce(-top) > -Q && mont_reduce(-top) < Q);
    assert!(mont_reduce(top - 1) > -Q && mont_reduce(top - 1) < Q);
    assert_eq!(mont_reduce(top), 0);
}

#[test]
fn partial_reduce64_keeps_the_class() {
    for a in [0i64, 1, -1, 8_380_417, 1 << 40, -(1 << 50), 288_000_000_000_000_000] {
        let r = partial_reduce64(a);
        assert!(r > -2 * Q && r < 2 * Q);
        assert_eq!(i64::from(r).rem_euclid(i64::from(Q)), a.rem_euclid(i64::from(Q)));
    }
}

// ---- NTT ----

#[test]
fn ntt_roundtrip_identity() {
    let mut st = Rng::new(0x1234_5678_9abc_def0u64);
    for _ in 0..64 {
        let orig = rand_poly_q(&mut st);
        let mut w = orig.clone();
        ntt_inplace(&mut w);
        inv_ntt_inplace(&mut w);
        assert_eq!(w.0, orig.0, "inv_ntt(ntt(x)) must equal x for x in [0,q)");
    }
}

#[test]
fn ntt_roundtrip_at_the_ends_of_the_range() {
    for c in [0, 1, Q - 1] {
        let mut w = Poly::zero();
        w.0 = [c; 256];
        let orig = w.0;
        ntt_inplace(&mut w);
        inv_ntt_inplace(&mut w);
        assert_eq!(w.0, orig);
    }
}

#[test]
fn ntt_zero_stays_zero() {
    let mut w = Poly::zero();
    ntt_inplace(&mut w);
    assert_eq!(w.0, [0i32; 256]);
    inv_ntt_inplace(&mut w);
    assert_eq!(w.0, [0i32; 256]);
}

#[test]
fn ntt_is_linear() {
    let mut st = Rng::new(0xdead_beefu64);
    let a = rand_poly_q(&mut st);
    let b = rand_poly_q(&mut st);
    let mut sum = Poly::zero();
    for n in 0..256 {
        sum.0[n] = (a.0[n] + b.0[n]) % Q;
    }
    let (mut na, mut nb, mut nsum) = (a.clone(), b.clone(), sum);
    ntt_inplace(&mut na);
    ntt_inplace(&mut nb);
    ntt_inplace(&mut nsum);
    for n in 0..256 {
        let lhs = (na.0[n] + nb.0[n]).rem_euclid(Q);
        assert_eq!(lhs, nsum.0[n].rem_euclid(Q), "linearity at {n}");
    }
}

#[test]
fn ntt_of_one_is_all_ones() {
    let mut w = Poly::zero();
    w.0[0] = 1;
    ntt_inplace(&mut w);
    assert_eq!(w.0, [1i32; 256]);
}

#[test]
fn zeta_table_entries() {
    let t = gen_zeta_table_mont();
    // Entry 0 is 2^32 mod q, entry 128 is zeta * 2^32 mod q.
    assert_eq!(i64::from(t[0]), (1i64 << 32) % i64::from(Q));
    assert_eq!(i64::from(t[128]), ((1i64 << 32) % i64::from(Q)) * 1753 % i64::from(Q));
}

#[test]
fn ntt_multiplies_polynomials() {
    let mut st = Rng::new(77);
    let a = rand_poly_range(&mut st, -4, 4);
    let b = rand_poly_range(&mut st, -4, 4);
    let mut want = [0i64; 256];
    for i in 0..256 {
        for j in 0..256 {
            let v = i64::from(a.0[i]) * i64::from(b.0[j]);
            if i + j < 256 {
                want[i + j] += v;
            } else {
                want[i + j - 256] -= v;
            }
        }
    }
    let (mut na, mut nb) = (a, b);
    ntt_inplace(&mut na);
    ntt_inplace(&mut nb);
    let mut prod = pointwise_mont(&na, &to_mont(&nb));
    inv_ntt_inplace(&mut prod);
    for n in 0..256 {
        assert_eq!(i64::from(prod.0[n]), want[n].rem_euclid(i64::from(Q)));
    }
}

// ---- rounding ----

#[test]
fn power2round_reconstructs() {
    let mut rng = Rng::new(1);
    for _ in 0..40 {
        let r = rand_poly_q(&mut rng);
        let (r1, r0) = power2round(&r);
        for n in 0..256 {
            assert_eq!(r.0[n], (r1.0[n] << D) + r0.0[n], "reconstruct at {n}");
            assert!(r0.0[n] > -(1 << (D - 1)) && r0.0[n] <= (1 << (D - 1)), "r0 centered");
        }
    }
}

#[test]
fn decompose_reconstructs_both_sets() {
    for p in [ml_dsa_44(), ml_dsa_65()] {
        let mut rng = Rng::new(p.gamma2 as u64);
        for _ in 0..2000 {
            let r = (rng.next_u64() % (Q as u64)) as i32;
            let (r1, r0) = decompose(p.gamma2, r);
            assert_eq!((r1 * 2 * p.gamma2 + r0).rem_euclid(Q), r.rem_euclid(Q), "reconstruct");
            assert!(r0.abs() <= p.gamma2, "r0 within +/- gamma2");
        }
    }
}

#[test]
fn make_hint_zero_never_fires() {
    for p in [ml_dsa_44(), ml_dsa_65()] {
        let mut rng = Rng::new(7);
        for _ in 0..1000 {
            let r = (rng.next_u64() % (Q as u64)) as i32;
            assert!(!make_hint(p.gamma2, 0, r));
            assert_eq!(use_hint(p.gamma2, 0, r), high_bits(p.gamma2, r));
        }
    }
}

#[test]
fn make_use_hint_roundtrip() {
    for p in [ml_dsa_44(), ml_dsa_65()] {
        let mut rng = Rng::new(99);
        for _ in 0..4000 {
            let r = (rng.next_u64() % (Q as u64)) as i32;
            let z = ((rng.next_u64() % (2 * p.gamma2 as u64 + 1)) as i32) - p.gamma2;
            let h = i32::from(make_hint(p.gamma2, z, r));
            assert_eq!(
                use_hint(p.gamma2, h, r),
                high_bits(p.gamma2, (r + z).rem_euclid(Q))
            );
        }
    }
}

#[test]
fn decompose_edges() {
    for p in [ml_dsa_44(), ml_dsa_65()] {
        assert_eq!(decompose(p.gamma2, 0), (0, 0));
        assert_eq!(decompose(p.gamma2, p.gamma2), (0, p.gamma2));
        assert_eq!(decompose(p.gamma2, p.gamma2 + 1), (1, -p.gamma2 + 1));
        assert_eq!(decompose(p.gamma2, Q - 1), (0, -1));
        assert_eq!(low_bits(p.gamma2, Q - 1), -1);
    }
}

// ---- packing ----

#[test]
fn bit_pack_roundtrip_s_vectors() {
    for p in [ml_dsa_44(), ml_dsa_65()] {
        let mut rng = Rng::new(p.eta as u64);
        let len = 32 * bit_length(2 * p.eta);
        for _ in 0..40 {
            let w = rand_poly_range(&mut rng, -p.eta, p.eta);
            let mut buf = vec![0u8; len];
            bit_pack(&w, p.eta, p.eta, &mut buf);
            assert_eq!(w.0, bit_unpack(&buf, p.eta, p.eta).unwrap().0);
        }
    }
}

#[test]
fn bit_pack_roundtrip_t0() {
    let top = 1 << (D - 1);
    let mut rng = Rng::new(13);
    let len = 32 * D as usize;
    for _ in 0..40 {
        let w = rand_poly_range(&mut rng, -(top - 1), top);
        let mut buf = vec![0u8; len];
        bit_pack(&w, top - 1, top, &mut buf);
        assert_eq!(w.0, bit_unpack(&buf, top - 1, top).unwrap().0);
    }
}

#[test]
fn simple_bit_pack_roundtrip_t1() {
    let b = (1 << 10) - 1;
    let mut rng = Rng::new(5);
    let len = 32 * bit_length(b);
    for _ in 0..40 {
        let w = rand_poly_range(&mut rng, 0, b);
        let mut buf = vec![0u8; len];
        simple_bit_pack(&w, b, &mut buf);
        assert_eq!(w.0, simple_bit_unpack(&buf, b).unwrap().0);
    }
}

#[test]
fn hint_pack_roundtrip() {
    const K: usize = 6;
    let omega = 55;
    let mut h = zero_vec(K);
    let mut rng = Rng::new(42);
    let mut total = 0;
    for row in h.iter_mut() {
        let mut pos = 0u32;
        for _ in 0..3 {
            pos += 1 + (rng.next_u32() % 40);
            if pos < 256 && total < omega {
                row.0[pos as usize] = 1;
                total += 1;
            }
        }
    }
    let mut buf = vec![0u8; omega as usize + K];
    hint_bit_pack(omega, &h, &mut buf);
    let back = hint_bit_unpack(K, omega, &buf).unwrap();
    for i in 0..K {
        assert_eq!(h[i].0, back[i].0);
    }
}

#[test]
fn hint_unpack_rejects_nonzero_padding() {
    const K: usize = 4;
    let omega = 80;
    let mut buf = vec![0u8; omega as usize + K];
    buf[0] = 5;
    assert!(hint_bit_unpack(K, omega, &buf).is_err());
}

#[test]
fn hint_unpack_rejects_overlarge_count() {
    const K: usize = 4;
    let omega = 80;
    let mut buf = vec![0u8; omega as usize + K];
    buf[omega as usize] = (omega + 1) as u8;
    assert!(hint_bit_unpack(K, omega, &buf).is_err());
}

#[test]
fn hint_unpack_rejects_unsorted_rows_and_falling_counts() {
    const K: usize = 2;
    let omega = 4;
    // Row 0 holds positions 7, 7: not strictly ascending.
    assert!(hint_bit_unpack(K, omega, &[7, 7, 0, 0, 2, 2]).is_err());
    // The count falls from 2 to 1.
    assert!(hint_bit_unpack(K, omega, &[7, 9, 0, 0, 2, 1]).is_err());
    let h = hint_bit_unpack(K, omega, &[7, 9, 3, 0, 2, 3]).unwrap();
    assert_eq!(h[0].0[7] + h[0].0[9] + h[1].0[3], 3);
}

#[test]
fn bit_pack_exact_bytes() {
    let mut w = Poly::zero();
    w.0[0] = 1;
    w.0[1] = 1023;
    let mut buf = vec![0u8; 320];
    simple_bit_pack(&w, 1023, &mut buf);
    assert_eq!(buf[..4], [0x01, 0xfc, 0x0f, 0x00]);
    assert_eq!(bit_length(1), 1);
    assert_eq!(bit_length(1023), 10);
    assert_eq!(bit_length(1024), 11);
    assert_eq!(bit_length(i32::MAX), 31);
}

#[test]
fn simple_unpack_rejects_values_above_the_bound() {
    // Six-bit digits hold up to 63, the bound is 43.
    let mut buf = vec![0u8; 192];
    assert!(simple_bit_unpack(&buf, 43).is_ok());
    buf[0] = 44;
    assert!(simple_bit_unpack(&buf, 43).is_err());
}

// ---- encodings ----

#[test]
fn pk_encode_decode_roundtrip() {
    fn check(p: &Params) {
        let mut rng = Rng::new(p.k as u64);
        let mut rho = [0u8; 32];
        rng.fill(&mut rho);
        let t1: Vec<Poly> =
            (0..p.k).map(|_| rand_poly_range(&mut rng, 0, (1 << 10) - 1)).collect();
        let mut pk = vec![0u8; p.pk_len];
        pk_encode(&rho, &t1, &mut pk);
        let (rho2, t12) = pk_decode(p.k, &pk).unwrap();
        assert_eq!(rho, rho2);
        for i in 0..p.k {
            assert_eq!(t1[i].0, t12[i].0);
        }
    }
    check(&ml_dsa_44());
    check(&ml_dsa_65());
}

#[test]
fn sig_encode_decode_roundtrip() {
    fn check(p: &Params) {
        let mut rng = Rng::new(p.sig_len as u64);
        let mut c = vec![0u8; p.lambda_div4];
        rng.fill(&mut c);
        let z: Vec<Poly> =
            (0..p.l).map(|_| rand_poly_range(&mut rng, -(p.gamma1 - 1), p.gamma1)).collect();
        let mut h = zero_vec(p.k);
        h[0].0[3] = 1;
        h[0].0[100] = 1;
        h[p.k - 1].0[200] = 1;
        let mut sig = vec![0u8; p.sig_len];
        sig_encode(p.gamma1, p.omega, &c, &z, &h, &mut sig);
        let (c2, z2, h2) =
            sig_decode(p.k, p.l, p.gamma1, p.omega, p.lambda_div4, &sig).unwrap();
        assert_eq!(c, c2);
        for i in 0..p.l {
            assert_eq!(z[i].0, z2[i].0);
        }
        for i in 0..p.k {
            assert_eq!(h[i].0, h2[i].0);
        }
        // A malformed hint part is refused.
        sig[p.sig_len - 1] = 255;
        assert!(sig_decode(p.k, p.l, p.gamma1, p.omega, p.lambda_div4, &sig).is_err());
    }
    check(&ml_dsa_44());
    check(&ml_dsa_65());
}

#[test]
fn w1_encode_packs_high_bits() {
    let mut w1 = zero_vec(4);
    w1[0].0[0] = 43;
    w1[0].0[1] = 1;
    let mut out = vec![0u8; 768];
    w1_encode(95_232, &w1, &mut out);
    assert_eq!(out[0], 43 | (1 << 6));
    assert!(out[1..].iter().all(|&b| b == 0));
}

// ---- sampling ----

#[test]
fn coeff_from_three_bytes_vectors() {
    assert_eq!(coeff_from_three_bytes([0x12, 0x34, 0x56]), Some(0x0056_3412));
    assert_eq!(coeff_from_three_bytes([0x12, 0x34, 0x80]), Some(0x0000_3412));
    assert_eq!(coeff_from_three_bytes([0x01, 0xe0, 0x80]), Some(0x0000_e001));
    assert_eq!(coeff_from_three_bytes([0x01, 0xe0, 0x7f]), None);
}

#[test]
fn coeff_from_half_byte_vectors() {
    assert_eq!(coeff_from_half_byte(2, 3), Some(-1));
    assert_eq!(coeff_from_half_byte(4, 8), Some(-4));
    assert_eq!(coeff_from_half_byte(2, 15), None);
    assert_eq!(coeff_from_half_byte(4, 10), None);
    for b in 0..15u8 {
        assert_eq!(coeff_from_half_byte(2, b), Some(2 - (i32::from(b) % 5)));
    }
    for b in 0..9u8 {
        assert_eq!(coeff_from_half_byte(4, b), Some(4 - i32::from(b)));
    }
}

#[test]
fn sample_in_ball_weight_and_range() {
    for tau in [39, 49] {
        let mut c_tilde = vec![0u8; 64];
        c_tilde[0] = tau as u8;
        c_tilde[5] = 0xAB;
        c_tilde[30] = 0x5C;
        let c = sample_in_ball(tau, &c_tilde).unwrap();
        let weight = c.0.iter().filter(|&&x| x != 0).count();
        assert_eq!(weight, tau as usize, "Hamming weight must be tau");
        assert!(c.0.iter().all(|&x| (-1..=1).contains(&x)), "coeffs in {{-1,0,1}}");
    }
}

#[test]
fn samplers_on_given_bytes() {
    // 256 groups of zero bytes give 256 zeros; one byte less is not enough.
    assert_eq!(rej_ntt_from(&[0u8; 768]).unwrap().0, [0i32; 256]);
    assert!(rej_ntt_from(&[0u8; 767]).is_none());
    // A rejected group is skipped.
    let mut s = vec![0xffu8, 0xff, 0x7f];
    s.extend_from_slice(&[1u8; 768]);
    assert_eq!(rej_ntt_from(&s).unwrap().0, [0x0001_0101i32; 256]);
    // Half bytes: low half first.
    assert_eq!(rej_bounded_from(4, &[0x80u8; 128]).unwrap().0[..2], [4, -4]);
    assert!(rej_bounded_from(4, &[0x80u8; 127]).is_none());
    // Signs 1, 0, 0, ... and places 217, 218, ...
    let mut b = vec![1u8, 0, 0, 0, 0, 0, 0, 0];
    for i in 217..=255u8 {
        b.push(i);
    }
    let c = ball_from(39, &b).unwrap();
    assert_eq!(c.0[217], -1);
    assert_eq!(c.0[218], 1);
    assert_eq!(c.0[216], 0);
    assert!(ball_from(39, &b[..b.len() - 1]).is_none());
}

#[test]
fn expanded_vectors_are_in_range() {
    let rho = [9u8; 64];
    let (s1, s2) = expand_s(6, 5, 4, &rho).unwrap();
    assert_eq!((s1.len(), s2.len()), (5, 6));
    assert!(s1.iter().chain(s2.iter()).all(|p| p.0.iter().all(|c| c.abs() <= 4)));
    assert_ne!(s1[0].0, s1[1].0);
    let y = expand_mask(5, 524_288, &rho, 0);
    let y5 = expand_mask(5, 524_288, &rho, 4);
    assert_eq!(y.len(), 5);
    assert_eq!(y[4].0, y5[0].0);
    assert!(y.iter().all(|p| p.0.iter().all(|&c| c > -524_288 && c <= 524_288)));
    assert!(matrix_expands(6, 5, &[1u8; 32]));
    let a = rej_ntt_poly(&[1u8; 32], 0, 1).unwrap();
    let b = rej_ntt_poly(&[1u8; 32], 1, 0).unwrap();
    assert_ne!(a.0, b.0);
}

#[test]
fn norms_and_weights() {
    let mut v = zero_vec(2);
    assert_eq!(infinity_norm(&v), 0);
    v[1].0[17] = Q - 9;
    v[0].0[3] = 5;
    assert_eq!(infinity_norm(&v), 9);
    let mut h = zero_vec(3);
    h[0].0[0] = 1;
    h[2].0[255] = 1;
    assert_eq!(hint_weight(&h), 2);
}

// ---- the scheme ----

#[test]
fn matches_fips204_mldsa44() {
    let mut rng = Rng::new(0x44);
    let msg = b"rs-key ml-dsa-44 differential";
    for _ in 0..6 {
        let mut xi = [0u8; 32];
        rng.fill(&mut xi);
        let mut rnd = [0u8; 32];
        rng.fill(&mut rnd);

        let p = ml_dsa_44();
        let key = ExpandedKey::<4, 4>::from_seed(&p, &xi);
        let mut pk = [0u8; 1312];
        key.write_public_key(&p, &mut pk);
        let mut sig = [0u8; 2420];
        key.sign(&p, msg, &[], &rnd, &mut sig).unwrap();

        let (fpk, fsk) = f44::KG::keygen_from_seed(&xi);
        assert_eq!(pk, fpk.into_bytes(), "pk must match fips204");
        let fsig = fsk.try_sign_with_seed(&rnd, msg, &[]).unwrap();
        assert_eq!(sig, fsig, "signature must be byte-exact with fips204");

        assert!(verify::<4, 4>(&p, &pk, msg, &[], &sig), "our verify / our sig");
        let fpk2 = f44::PublicKey::try_from_bytes(pk).unwrap();
        assert!(fpk2.verify(msg, &sig, &[]), "fips204 verify / our sig");
        assert!(verify::<4, 4>(&p, &pk, msg, &[], &fsig), "our verify / fips204 sig");
    }
}

#[test]
fn matches_fips204_mldsa65() {
    let mut rng = Rng::new(0x65);
    let msg = b"rs-key ml-dsa-65 differential";
    for _ in 0..6 {
        let mut xi = [0u8; 32];
        rng.fill(&mut xi);
        let mut rnd = [0u8; 32];
        rng.fill(&mut rnd);

        let p = ml_dsa_65();
        let key = ExpandedKey::<6, 5>::from_seed(&p, &xi);
        let mut pk = [0u8; 1952];
        key.write_public_key(&p, &mut pk);
        let mut sig = [0u8; 3309];
        key.sign(&p, msg, &[], &rnd, &mut sig).unwrap();

        let (fpk, fsk) = f65::KG::keygen_from_seed(&xi);
        assert_eq!(pk, fpk.into_bytes(), "pk must match fips204");
        let fsig = fsk.try_sign_with_seed(&rnd, msg, &[]).unwrap();
        assert_eq!(sig, fsig, "signature must be byte-exact with fips204");

        assert!(verify::<6, 5>(&p, &pk, msg, &[], &sig), "our verify / our sig");
        let fpk2 = f65::PublicKey::try_from_bytes(pk).unwrap();
        assert!(fpk2.verify(msg, &sig, &[]), "fips204 verify / our sig");
        assert!(verify::<6, 5>(&p, &pk, msg, &[], &fsig), "our verify / fips204 sig");
    }
}

#[test]
fn self_verify_and_tamper_rejects() {
    let mut rng = Rng::new(7);
    let mut xi = [0u8; 32];
    rng.fill(&mut xi);
    let mut rnd = [0u8; 32];
    rng.fill(&mut rnd);
    let p = ml_dsa_65();
    let key = ExpandedKey::<6, 5>::from_seed(&p, &xi);
    let mut pk = [0u8; 1952];
    key.write_public_key(&p, &mut pk);
    let msg = b"presence-and-sign";
    let mut sig = [0u8; 3309];
    key.sign(&p, msg, &[], &rnd, &mut sig).unwrap();

    assert!(verify::<6, 5>(&p, &pk, msg, &[], &sig));
    let mut z_tampered = sig;
    z_tampered[100] ^= 0x01;
    assert!(!verify::<6, 5>(&p, &pk, msg, &[], &z_tampered), "tampered z must reject");
    assert!(!verify::<6, 5>(&p, &pk, b"wrong-msg", &[], &sig), "wrong message must reject");
}

#[test]
fn context_binds_the_signature() {
    let p = ml_dsa_44();
    let key = ExpandedKey::<4, 4>::try_from_seed(&p, &[3u8; 32]).unwrap();
    assert!(seed_expands(&p, &[3u8; 32]));
    let mut pk = [0u8; 1312];
    key.write_public_key(&p, &mut pk);
    let mut sig = [0u8; 2420];
    key.sign(&p, b"m", b"ctx", &[0u8; 32], &mut sig).unwrap();
    assert!(verify::<4, 4>(&p, &pk, b"m", b"ctx", &sig));
    assert!(!verify::<4, 4>(&p, &pk, b"m", b"", &sig));
    assert!(!verify::<4, 4>(&p, &pk, b"m", &[0u8; 256], &sig));
    assert!(!verify::<4, 4>(&p, &pk[..1311], b"m", b"ctx", &sig));
    assert!(!verify::<4, 4>(&p, &pk, b"m", b"ctx", &sig[..2419]));
}

#[test]
fn secret_key_bytes_sign_like_the_seed() {
    let xi = [5u8; 32];
    let (_, fsk) = f44::KG::keygen_from_seed(&xi);
    let sk = fsk.into_bytes();
    let p = ml_dsa_44();
    let parts = sk_decode(p.k, p.l, p.eta, &sk);
    assert_eq!(parts.rho, sk[..32]);
    let from_sk = ExpandedKey::<4, 4>::from_sk_bytes(&p, &sk);
    let from_seed = ExpandedKey::<4, 4>::from_seed(&p, &xi);
    let (mut a, mut b) = ([0u8; 2420], [0u8; 2420]);
    from_sk.sign(&p, b"same", &[], &[1u8; 32], &mut a).unwrap();
    from_seed.sign(&p, b"same", &[], &[1u8; 32], &mut b).unwrap();
    assert_eq!(a, b);
}

#[test]
fn keypair_types_sign_and_verify() {
    let k44 = MlDsa44::from_seed(&[1u8; 32]);
    let pk44 = k44.public_key();
    let mut out = [0xEEu8; MLDSA44_SIG_LEN + 3];
    assert_eq!(k44.sign(b"hello", &[0u8; 32], &mut out), Ok(MLDSA44_SIG_LEN));
    assert_eq!(out[MLDSA44_SIG_LEN..], [0xEE; 3]);
    let mut sig = [0u8; MLDSA44_SIG_LEN];
    sig.copy_from_slice(&out[..MLDSA44_SIG_LEN]);
    assert!(mldsa44_verify(&pk44, b"hello", &sig));
    assert!(!mldsa44_verify(&pk44, b"hellp", &sig));
    let mut short = [0u8; MLDSA44_SIG_LEN - 1];
    assert_eq!(k44.sign(b"hello", &[0u8; 32], &mut short), Err(Error::BufferTooSmall));

    let k65 = MlDsa65::try_from_seed(&[2u8; 32]).unwrap();
    let pk65 = k65.public_key();
    let mut sig65 = [0u8; MLDSA65_SIG_LEN];
    assert_eq!(k65.sign(b"hello", &[7u8; 32], &mut sig65), Ok(MLDSA65_SIG_LEN));
    assert!(mldsa65_verify(&pk65, b"hello", &sig65));
    let mut bad = pk65;
    bad[40] ^= 1;
    assert!(!mldsa65_verify(&bad, b"hello", &sig65));
    assert_eq!(MlDsa44::try_from_seed(&[1u8; 32]).unwrap().public_key(), pk44);
    assert_eq!(MlDsa65::from_seed(&[2u8; 32]).public_key(), pk65);
    let mut short65 = [0u8; 10];
    assert_eq!(k65.sign(b"x", &[0u8; 32], &mut short65), Err(Error::BufferTooSmall));
}

#[test]
fn hints_of_many_rows_round_trip() {
    let mut h = zero_vec(300);
    h[0].0[5] = 1;
    h[299].0[255] = 1;
    let mut buf = vec![0xEEu8; 10 + 300];
    hint_bit_pack(10, &h, &mut buf);
    assert_eq!((buf[0], buf[1], buf[2]), (5, 255, 0));
    assert_eq!((buf[10], buf[308], buf[309]), (1, 1, 2));
    let back = hint_bit_unpack(300, 10, &buf).unwrap();
    assert!(back == h);
}

#[test]
fn a_wiped_key_holds_zeros() {
    let mut key = MlDsa44::from_seed(&[7u8; 32]);
    assert!(key.public_key().iter().any(|b| *b != 0));
    key.wipe();
    assert!(key.public_key().iter().all(|b| *b == 0));
    let mut key = MlDsa65::from_seed(&[7u8; 32]);
    assert!(key.public_key().iter().any(|b| *b != 0));
    key.wipe();
    assert!(key.public_key().iter().all(|b| *b == 0));
    let mut p = Poly::zero();
    p.0[3] = -9;
    p.wipe();
    assert!(p == Poly::zero());
}
