//! Keys derived from the seed, and the seed at rest.

use aes::cipher::block_padding::NoPadding;
use aes::cipher::{BlockEncryptMut, KeyIvInit};
use chacha20poly1305::aead::{Aead, Payload};
use chacha20poly1305::{ChaCha20Poly1305, KeyInit};
use p256::elliptic_curve::sec1::ToEncodedPoint;
use rs_key::fido::codec::{Codec, CredInput, Credential, Record, Recorded};
use rs_key::fido::consts::{
    ef_att_key, ef_key_dev, largeblob_initial, EF_COUNTER, EF_EE_DEV, EF_LARGEBLOB, FID_ATT_KEY,
    FID_KEY_DEV, FID_KEY_DEV_ENC,
};
use rs_key::fido::consts::{EF_CRED, EF_RP};
use rs_key::fido::device::Device;
use rs_key::fido::keyderiv::verify_key;
use rs_key::fido::keyderiv::{derive_new, fido_load_key, handle_of_path, ratchet};
use rs_key::fido::seed::{
    bump_sign_counter, encrypt_keydev_f1, ensure_seed, get_sign_counter, load_att_key,
    load_keydev, lock_engaged, migrate_keydev_boot, migrate_keydev_pin, open_seed_locked,
    seal_seed_locked, store_att_key, FORMAT_F1, FORMAT_F1_OTP, FORMAT_F3, FORMAT_F3_OTP,
    FORMAT_G1, FORMAT_G1_OTP, KEYDEV_F1_LEN, KEYDEV_F3_LEN, KEYDEV_G1_LEN, LOCK_BLOB_LEN,
};
use rs_key::fido::{Drawn, Rng};
use rs_key::fs::{Fs, RamStorage};
use rs_key::fs::{KeyFid, Sealed};
use sha2::{Digest, Sha256};

struct SeqRng(u64);

impl Rng for SeqRng {
    fn fill(&mut self, buf: &mut [u8]) {
        for b in buf.iter_mut() {
            self.0 = self.0.wrapping_mul(6364136223846793005).wrapping_add(1);
            *b = (self.0 >> 33) as u8;
        }
    }
}

fn sha256(data: &[u8]) -> [u8; 32] {
    Sha256::digest(data).into()
}

#[allow(dead_code)]
fn public_xy(scalar: &[u8; 32]) -> ([u8; 32], [u8; 32]) {
    let pt = p256::SecretKey::from_slice(scalar)
        .unwrap()
        .public_key()
        .to_encoded_point(false);
    ((*pt.x().unwrap()).into(), (*pt.y().unwrap()).into())
}

#[allow(dead_code)]
fn dev() -> Device {
    Device {
        serial_hash: [0xAB; 32],
        serial_id: [1, 2, 3, 4, 5, 6, 7, 8],
        kbase: [0x31; 32],
        kbase_otp: None,
    }
}

#[allow(dead_code)]
fn fs() -> Fs<RamStorage> {
    Fs::new(RamStorage::new())
}

fn key_of(seed: &[u8], label: &[u8]) -> [u8; 32] {
    let mut v = seed.to_vec();
    v.extend_from_slice(label);
    sha256(&v)
}

fn aead_seal(key: &[u8; 32], nonce: &[u8; 12], aad: &[u8], msg: &[u8]) -> Vec<u8> {
    let c = ChaCha20Poly1305::new(key.into());
    let ct = c.encrypt(nonce.into(), Payload { msg, aad }).unwrap();
    let mut v = nonce.to_vec();
    v.extend_from_slice(&ct);
    v
}

fn aead_open(key: &[u8; 32], aad: &[u8], sealed: &[u8]) -> Option<Vec<u8>> {
    if sealed.len() < 28 {
        return None;
    }
    let c = ChaCha20Poly1305::new(key.into());
    c.decrypt((&sealed[..12]).into(), Payload { msg: &sealed[12..], aad })
        .ok()
}

fn put_field(v: &mut Vec<u8>, f: &[u8]) {
    v.extend_from_slice(&(f.len() as u16).to_be_bytes());
    v.extend_from_slice(f);
}

fn get_field(v: &[u8], pos: &mut usize) -> Vec<u8> {
    let n = u16::from_be_bytes([v[*pos], v[*pos + 1]]) as usize;
    let f = v[*pos + 2..*pos + 2 + n].to_vec();
    *pos += 2 + n;
    f
}

/// Credential boxes and names under ChaCha20-Poly1305, keys on P-256 only.
struct TestCodec;

#[allow(dead_code)]
fn recorded() -> Recorded<TestCodec> {
    Recorded::new(TestCodec)
}

impl Codec for TestCodec {
    fn create(
        &mut self,
        seed: &[u8; 32],
        input: &CredInput,
        rp_id_hash: &[u8; 32],
        iv: &[u8; 12],
    ) -> Option<Vec<u8>> {
        let mut v = Vec::new();
        put_field(&mut v, &input.rp_id);
        put_field(&mut v, &input.user_id);
        put_field(&mut v, &input.user_name);
        put_field(&mut v, &input.user_display_name);
        put_field(&mut v, &[input.ext.cred_protect as u8]);
        Some(aead_seal(&key_of(seed, b"box"), iv, rp_id_hash, &v))
    }

    fn load(&mut self, seed: &[u8; 32], cred_box: &[u8], rp_id_hash: &[u8; 32]) -> Option<
        Credential,
    > {
        if let Some(v) = aead_open(&key_of(seed, b"box"), rp_id_hash, cred_box) {
            let mut p = 0;
            let _rp = get_field(&v, &mut p);
            return Some(Credential {
                user_id: get_field(&v, &mut p),
                user_name: get_field(&v, &mut p),
                user_display_name: get_field(&v, &mut p),
                cred_protect: get_field(&v, &mut p)[0] as u64,
                u2f: false,
            });
        }
        let handle: [u8; 64] = cred_box.try_into().ok()?;
        verify_key(seed, rp_id_hash, &handle)?;
        Some(Credential {
            user_id: Vec::new(),
            user_name: Vec::new(),
            user_display_name: Vec::new(),
            cred_protect: 0,
            u2f: true,
        })
    }

    fn is_resident(&self, id: &[u8]) -> bool {
        id.starts_with(b"RESIDENT01")
    }

    fn resident_id(&mut self, cred_box: &[u8]) -> [u8; 42] {
        let mut id = [0u8; 42];
        id[..10].copy_from_slice(b"RESIDENT01");
        id[10..].copy_from_slice(&sha256(cred_box));
        id
    }

    fn store(
        &mut self,
        seed: &[u8; 32],
        present: &Vec<Record>,
        cred_box: &[u8],
        rp_id_hash: &[u8; 32],
        rp_id: &[u8],
        _user_id: &[u8],
    ) -> Option<Vec<Record>> {
        let used = |fid: u16| present.iter().any(|r| r.fid == fid);
        let slot = (EF_CRED..EF_CRED + 256).find(|f| !used(*f))?;
        let mut data = rp_id_hash.to_vec();
        data.extend_from_slice(&self.resident_id(cred_box));
        data.extend_from_slice(cred_box);
        let rp = present
            .iter()
            .find(|r| r.fid >= EF_RP && r.fid < EF_RP + 256 && r.data[1..33] == rp_id_hash[..]);
        let rp_record = match rp {
            Some(r) => {
                let mut d = r.data.clone();
                d[0] += 1;
                Record { fid: r.fid, data: d }
            }
            None => {
                let fid = (EF_RP..EF_RP + 256).find(|f| !used(*f))?;
                let mut d = vec![1];
                d.extend_from_slice(rp_id_hash);
                d.extend_from_slice(&aead_seal(
                    &key_of(seed, b"rp"),
                    &[7; 12],
                    rp_id_hash,
                    rp_id,
                ));
                Record { fid, data: d }
            }
        };
        Some(vec![Record { fid: slot, data }, rp_record])
    }

    fn hmac_key(&mut self, seed: &[u8; 32], cred_id: &[u8]) -> [u8; 64] {
        let mut k = [0u8; 64];
        k[..32].copy_from_slice(&key_of(&key_of(seed, cred_id), b"hs"));
        k[32..].copy_from_slice(&key_of(&key_of(seed, cred_id), b"hs-uv"));
        k
    }

    fn large_blob_key(&mut self, seed: &[u8; 32], cred_id: &[u8]) -> [u8; 32] {
        key_of(&key_of(seed, cred_id), b"lbk")
    }

    fn cose_public(&mut self, curve: u8, raw: &[u8; 66]) -> Option<Vec<u8>> {
        if curve != 1 {
            return None;
        }
        let scalar: [u8; 32] = raw[..32].try_into().ok()?;
        p256::SecretKey::from_slice(&scalar).ok()?;
        let (x, y) = public_xy(&scalar);
        let mut v = vec![0xA5, 0x01, 0x02, 0x03, 0x26, 0x20, 0x01, 0x21, 0x58, 0x20];
        v.extend_from_slice(&x);
        v.extend_from_slice(&[0x22, 0x58, 0x20]);
        v.extend_from_slice(&y);
        Some(v)
    }

    fn sign(&mut self, _curve: u8, raw: &[u8; 66], msg: &[u8]) -> (i64, Vec<u8>) {
        let key = p256::ecdsa::SigningKey::from_slice(&raw[..32]).unwrap();
        let sig: p256::ecdsa::Signature = p256::ecdsa::signature::Signer::sign(&key, msg);
        (-7, sig.to_der().as_bytes().to_vec())
    }

    fn attestation_cert(&mut self, key: &[u8; 32], serial: &[u8; 16]) -> Option<Vec<u8>> {
        let (x, y) = public_xy(key);
        let mut v = vec![0x30, 0x82, 0x01, 0x00];
        v.extend_from_slice(serial);
        v.extend_from_slice(&x);
        v.extend_from_slice(&y);
        v.resize(4 + 256, 0);
        Some(v)
    }

    fn open_rp_id(&mut self, seed: &[u8; 32], rp_id_hash: &[u8; 32], sealed: &[u8]) -> Option<
        Vec<u8>,
    > {
        aead_open(&key_of(seed, b"rp"), rp_id_hash, sealed)
    }

    fn open_nick(&mut self, seed: &[u8; 32], rp_id_hash: &[u8; 32], sealed: &[u8]) -> Option<
        Vec<u8>,
    > {
        aead_open(&key_of(seed, b"nick"), rp_id_hash, sealed)
    }

    fn seal_nick(&mut self, seed: &[u8; 32], rp_id_hash: &[u8; 32], nick: &[u8]) -> Option<
        Vec<u8>,
    > {
        Some(aead_seal(&key_of(seed, b"nick"), &[9; 12], rp_id_hash, nick))
    }

    fn strip_pin(&mut self, otp: bool, pin_hash: &[u8], wrapped: &[u8]) -> Option<[u8; 32]> {
        let inner = aead_open(&key_of(pin_hash, &[otp as u8]), b"pin", wrapped)?;
        inner.try_into().ok()
    }
}

const SEED: [u8; 32] = [0x42; 32];
const APP: [u8; 32] = [0xA5; 32];

fn otp_dev() -> Device {
    Device { kbase_otp: Some([0x77; 32]), ..dev() }
}

fn usable(scalar: &[u8]) -> bool {
    p256::SecretKey::from_slice(scalar).is_ok()
}

// ---- key derivation ----
#[test]
fn ratchet_is_deterministic_and_path_sensitive() {
    let p1 = [0x11u8; 32];
    let mut p2 = p1;
    p2[0] ^= 0x01;
    assert_eq!(ratchet(&SEED, &p1), ratchet(&SEED, &p1));
    assert_ne!(ratchet(&SEED, &p1), ratchet(&SEED, &p2));
}

#[test]
fn derive_new_then_verify_roundtrips() {
    let mut rng = Drawn::new(SeqRng(1));
    let (kh, scalar) = derive_new(&SEED, &APP, &mut rng);
    // The handle's path reproduces the same scalar.
    assert_eq!(verify_key(&SEED, &APP, &kh), Some(scalar));
    // Every entry's high bit is set.
    for i in 0..8 {
        assert_ne!(kh[i * 4 + 3] & 0x80, 0);
    }
    // The derived scalar is a usable P-256 key.
    assert!(usable(&scalar));
}

/// Fills each buffer with the next byte of a list.
struct Listed(Vec<u8>);

impl Rng for Listed {
    fn fill(&mut self, buf: &mut [u8]) {
        buf.fill(self.0.remove(0));
    }
}

#[test]
fn the_path_of_a_handle_is_eight_draws() {
    let mut rng = Drawn::new(Listed(vec![1, 2, 3, 4, 5, 6, 7, 0x88, 9]));
    let (kh, _) = derive_new(&SEED, &APP, &mut rng);
    for (i, b) in [1u8, 2, 3, 4, 5, 6, 7, 0x88].into_iter().enumerate() {
        assert_eq!(kh[4 * i..4 * i + 4], [b, b, b, b | 0x80]);
    }
    // The ninth draw is left.
    let mut next = [0u8; 1];
    rng.fill(&mut next);
    assert_eq!(next, [9]);
}

#[test]
fn a_first_boot_draws_the_seed_and_the_serial() {
    let d = dev();
    let mut f = fs();
    let mut rng = Drawn::new(Listed(vec![0xFF, 0x11, 0x92]));
    ensure_seed(&d, &mut f, &mut rng, &mut recorded()).unwrap();
    assert_eq!(load_keydev(&d, &mut f), Some([0x11; 32]));
    // The certificate carries the serial with its sign bit off.
    let cert = f.read_upto(EF_EE_DEV, 512).unwrap();
    assert_eq!(cert[4..20], [&[0x12u8][..], &[0x92; 15][..]].concat()[..]);
}

#[test]
fn a_wrapped_seed_starts_with_the_drawn_nonce() {
    let blob = seal_seed_locked(&mut Drawn::new(Listed(vec![7])), &[0x4D; 32], &[0x5A; 32]);
    assert_eq!(blob[..12], [7; 12]);
}

#[test]
fn verify_rejects_wrong_app_and_tamper() {
    let mut rng = Drawn::new(SeqRng(2));
    let (kh, _) = derive_new(&SEED, &APP, &mut rng);
    let mut other_app = APP;
    other_app[0] ^= 0x01;
    assert_eq!(verify_key(&SEED, &other_app, &kh), None);

    let mut bad = kh;
    bad[32] ^= 0x01; // flip a tag byte
    assert_eq!(verify_key(&SEED, &APP, &bad), None);

    let mut cleared = kh;
    cleared[3] &= 0x7f; // clear a path entry's high bit
    assert_eq!(verify_key(&SEED, &APP, &cleared), None);
}

fn loaded_key_ignores_the_first_bytes() {
    let mut cred = [0u8; 64];
    for (i, b) in cred.iter_mut().enumerate() {
        *b = i as u8;
    }
    let a = fido_load_key(&SEED, &cred).unwrap();
    assert_eq!(a, fido_load_key(&SEED, &cred).unwrap());
    // The first 4 bytes are overwritten by the fixed prefix, so changing them
    // must not change the derived key.
    let mut cred2 = cred;
    cred2[0] ^= 0xFF;
    cred2[1] ^= 0xFF;
    assert_eq!(a, fido_load_key(&SEED, &cred2).unwrap());
    // But a later path byte does matter.
    cred2[8] ^= 0xFF;
    assert_ne!(a, fido_load_key(&SEED, &cred2).unwrap());
    // The leading 32 bytes are a usable P-256 scalar.
    assert!(usable(&a[..32]));
}

#[test]
fn keyderiv_fido_load_key_too_short() {
    assert_eq!(fido_load_key(&SEED, &[0u8; 16]), None);
}

#[test]
fn keyderiv_tests_fido_load_key_too_short() {
    assert_eq!(fido_load_key(&SEED, &[0u8; 16]), None);
    assert!(fido_load_key(&SEED, &[0u8; 31]).is_none());
    assert!(fido_load_key(&SEED, &[0u8; 32]).is_some());
}

#[test]
fn handle_is_path_and_tag() {
    let path = [0x91u8; 32];
    let (kh, scalar) = handle_of_path(&SEED, &APP, &path);
    assert_eq!(&kh[..32], &path);
    assert_ne!(&kh[32..], &path);
    assert_eq!(verify_key(&SEED, &APP, &kh), Some(scalar));
    assert_eq!(&ratchet(&SEED, &path)[..32], &scalar);
}

#[test]
fn ratchet_step_is_hkdf_sha512() {
    // One path of zero entries: eight steps of HKDF over the running key.
    let path = [0u8; 32];
    let mut key = SEED.to_vec();
    let got = ratchet(&SEED, &path);
    assert_ne!(&got[..32], &key[..]);
    key[0] ^= 1;
    let other: [u8; 32] = key.try_into().unwrap();
    assert_ne!(ratchet(&other, &path), got);
}

// ---- the seed ----
/// `seed` AES-CBC-encrypted under the arm of `dev` with the serial hash as its
/// fixed vector, in the format before the authenticated one.
fn cbc(dev: &Device, seed: &[u8; 32]) -> Vec<u8> {
    let kbase = dev.kbase_otp.unwrap_or(dev.kbase);
    let iv: [u8; 16] = dev.serial_hash[..16].try_into().unwrap();
    cbc::Encryptor::<aes::Aes256>::new((&kbase).into(), (&iv).into())
        .encrypt_padded_vec_mut::<NoPadding>(seed)
}

fn write_legacy_cbc(dev: &Device, fs: &mut Fs<RamStorage>, fid: KeyFid, seed: &[u8; 32]) {
    let tag = if dev.kbase_otp.is_some() { FORMAT_F1_OTP } else { FORMAT_F1 };
    let mut out = vec![tag];
    out.extend_from_slice(&cbc(dev, seed));
    fs.put_key(fid, Sealed::wrap(&out)).unwrap();
}

/// A seed that was wrapped under the PIN, over its AES-CBC form.
fn wrap_keydev_legacy(dev: &Device, fs: &mut Fs<RamStorage>, seed: &[u8; 32], pin_hash: &[u8]) {
    let otp = dev.kbase_otp.is_some();
    let mut out = vec![if otp { FORMAT_F3_OTP } else { FORMAT_F3 }];
    let key = key_of(pin_hash, &[otp as u8]);
    out.extend_from_slice(&aead_seal(&key, &[0x24; 12], b"pin", &cbc(dev, seed)));
    fs.put(FID_KEY_DEV, &out).unwrap();
}

#[test]
fn seed_roundtrips_through_flash() {
    let d = dev();
    let mut fs = fs();
    let seed = [0x5A; 32];
    encrypt_keydev_f1(&d, &mut fs, &seed).unwrap();
    // Stored as tag, nonce, ciphertext, MAC: not the plaintext.
    assert_eq!(fs.size(FID_KEY_DEV), Some(KEYDEV_G1_LEN));
    let mut raw = [0u8; KEYDEV_G1_LEN];
    fs.read(FID_KEY_DEV, &mut raw).unwrap();
    assert_eq!(raw[0], FORMAT_G1);
    assert_ne!(&raw[13..45], &seed);
    assert_eq!(load_keydev(&d, &mut fs), Some(seed));
}

#[test]
fn wrong_device_cannot_decrypt_seed() {
    let mut fs = fs();
    encrypt_keydev_f1(&dev(), &mut fs, &[0x5A; 32]).unwrap();
    let other = Device { serial_hash: [0xCD; 32], ..dev() };
    assert_eq!(load_keydev(&other, &mut fs), None);
    let foreign = Device { kbase: [0x32; 32], ..dev() };
    assert_eq!(load_keydev(&foreign, &mut fs), None);
}

#[test]
fn seal_is_authenticated_against_tamper() {
    let d = dev();
    let mut fs = fs();
    encrypt_keydev_f1(&d, &mut fs, &[0x5A; 32]).unwrap();
    let mut raw = [0u8; KEYDEV_G1_LEN];
    fs.read(FID_KEY_DEV, &mut raw).unwrap();
    raw[13] ^= 0x01; // flip a ciphertext byte
    fs.put_key(ef_key_dev(), Sealed::wrap(&raw)).unwrap();
    assert_eq!(load_keydev(&d, &mut fs), None);
}

#[test]
fn seed_and_att_key_never_share_a_nonce() {
    let d = dev();
    let mut fs = fs();
    let value = [0x5A; 32];
    encrypt_keydev_f1(&d, &mut fs, &value).unwrap();
    store_att_key(&d, &mut fs, &value).unwrap();
    let mut a = [0u8; KEYDEV_G1_LEN];
    let mut b = [0u8; KEYDEV_G1_LEN];
    fs.read(FID_KEY_DEV, &mut a).unwrap();
    fs.read(FID_ATT_KEY, &mut b).unwrap();
    assert_ne!(&a[1..13], &b[1..13]); // distinct nonces
    assert_ne!(&a[13..45], &b[13..45]); // distinct ciphertext
    assert_eq!(load_keydev(&d, &mut fs), Some(value));
    assert_eq!(load_att_key(&d, &mut fs), Some(value));
}

#[test]
fn legacy_cbc_record_loads_and_upgrades_at_boot() {
    let d = dev();
    let mut fs = fs();
    let seed = [0x5A; 32];
    write_legacy_cbc(&d, &mut fs, ef_key_dev(), &seed);
    assert_eq!(fs.size(FID_KEY_DEV), Some(KEYDEV_F1_LEN));
    assert_eq!(load_keydev(&d, &mut fs), Some(seed));

    migrate_keydev_boot(&d, &mut fs).unwrap();
    let mut raw = [0u8; KEYDEV_G1_LEN];
    assert_eq!(fs.read(FID_KEY_DEV, &mut raw), Some(KEYDEV_G1_LEN));
    assert_eq!(raw[0], FORMAT_G1);
    assert_eq!(load_keydev(&d, &mut fs), Some(seed));

    // A second pass leaves the record identical.
    migrate_keydev_boot(&d, &mut fs).unwrap();
    let mut again = [0u8; KEYDEV_G1_LEN];
    fs.read(FID_KEY_DEV, &mut again).unwrap();
    assert_eq!(raw, again);
}

#[test]
fn att_key_legacy_cbc_migrates_at_boot() {
    let d = dev();
    let mut fs = fs();
    let att = [0x21; 32];
    write_legacy_cbc(&d, &mut fs, ef_att_key(), &att);
    assert_eq!(load_att_key(&d, &mut fs), Some(att));
    migrate_keydev_boot(&d, &mut fs).unwrap();
    let mut raw = [0u8; KEYDEV_G1_LEN];
    assert_eq!(fs.read(FID_ATT_KEY, &mut raw), Some(KEYDEV_G1_LEN));
    assert_eq!(raw[0], FORMAT_G1);
    assert_eq!(load_att_key(&d, &mut fs), Some(att));
}

#[test]
fn legacy_pin_wrapped_seed_unreadable_until_pin_migrates_it() {
    let d = dev();
    let mut fs = fs();
    let seed = [0x5A; 32];
    let pin_hash = [0x99u8; 16];
    wrap_keydev_legacy(&d, &mut fs, &seed, &pin_hash);
    assert_eq!(fs.size(FID_KEY_DEV), Some(KEYDEV_F3_LEN));
    // The wrapped blob is unreadable ...
    assert_eq!(load_keydev(&d, &mut fs), None);
    // ... until a PIN verification unwraps it, permanently.
    migrate_keydev_pin(&d, &mut fs, &mut recorded(), &pin_hash).unwrap();
    let mut raw = [0u8; KEYDEV_G1_LEN];
    assert_eq!(fs.read(FID_KEY_DEV, &mut raw), Some(KEYDEV_G1_LEN));
    assert_eq!(raw[0], FORMAT_G1);
    assert_eq!(load_keydev(&d, &mut fs), Some(seed));
    // Idempotent.
    migrate_keydev_pin(&d, &mut fs, &mut recorded(), &pin_hash).unwrap();
    assert_eq!(load_keydev(&d, &mut fs), Some(seed));
}

#[test]
fn migration_with_wrong_pin_fails_and_leaves_blob_intact() {
    let d = dev();
    let mut fs = fs();
    wrap_keydev_legacy(&d, &mut fs, &[0x5A; 32], &[0x99u8; 16]);
    assert!(migrate_keydev_pin(&d, &mut fs, &mut recorded(), &[0x11u8; 16]).is_err());
    let mut raw = [0u8; KEYDEV_F3_LEN];
    assert_eq!(fs.read(FID_KEY_DEV, &mut raw), Some(KEYDEV_F3_LEN));
    assert_eq!(raw[0], FORMAT_F3);
}

#[test]
fn ensure_seed_is_idempotent() {
    let d = dev();
    let mut fs = fs();
    let mut rng = Drawn::new(SeqRng(7));
    ensure_seed(&d, &mut fs, &mut rng, &mut recorded()).unwrap();
    let seed1 = load_keydev(&d, &mut fs).unwrap();
    assert!(fs.has_data(EF_COUNTER));
    assert_eq!(get_sign_counter(&mut fs), 0);
    // A second scan must not regenerate the seed.
    ensure_seed(&d, &mut fs, &mut rng, &mut recorded()).unwrap();
    assert_eq!(load_keydev(&d, &mut fs).unwrap(), seed1);
    assert!(usable(&seed1));
    // The large-blob array of a fresh device.
    let mut blob = [0u8; 17];
    assert_eq!(fs.read(EF_LARGEBLOB, &mut blob), Some(17));
    assert_eq!(blob, largeblob_initial());
    assert!(fs.has_data(EF_EE_DEV));
}

#[test]
fn counter_bumps_and_persists() {
    let mut fs = fs();
    fs.put(EF_COUNTER, &[0u8; 4]).unwrap();
    assert_eq!(bump_sign_counter(&mut fs).unwrap(), 0);
    assert_eq!(bump_sign_counter(&mut fs).unwrap(), 1);
    assert_eq!(get_sign_counter(&mut fs), 2);
}

#[test]
fn counter_wraps_and_ignores_other_lengths() {
    let mut fs = fs();
    fs.put(EF_COUNTER, &[0xFF; 4]).unwrap();
    assert_eq!(bump_sign_counter(&mut fs).unwrap(), u32::MAX);
    assert_eq!(get_sign_counter(&mut fs), 0);
    fs.put(EF_COUNTER, &[1, 2, 3]).unwrap();
    assert_eq!(get_sign_counter(&mut fs), 0);
    fs.put(EF_COUNTER, &[1, 2, 3, 4, 5]).unwrap();
    assert_eq!(get_sign_counter(&mut fs), 0);
    fs.put(EF_COUNTER, &[4, 3, 2, 1]).unwrap();
    assert_eq!(get_sign_counter(&mut fs), 0x01020304);
}

#[test]
fn lock_blob_roundtrips_and_authenticates() {
    let mut rng = Drawn::new(SeqRng(3));
    let key = [0x4D; 32];
    let seed = [0x5A; 32];
    let blob = seal_seed_locked(&mut rng, &key, &seed);
    assert_eq!(open_seed_locked(&key, &blob), Some(seed));
    // Wrong key, tampered ciphertext, truncated blob: all refused.
    assert_eq!(open_seed_locked(&[0x4E; 32], &blob), None);
    let mut bad = blob.clone();
    bad[20] ^= 1;
    assert_eq!(open_seed_locked(&key, &bad), None);
    assert_eq!(open_seed_locked(&key, &blob[..LOCK_BLOB_LEN - 1]), None);
}

#[test]
fn ensure_seed_skips_generation_when_locked() {
    let d = dev();
    let mut fs = fs();
    let mut rng = Drawn::new(SeqRng(9));
    let blob = seal_seed_locked(&mut rng, &[0x4D; 32], &[0x5A; 32]);
    fs.put(FID_KEY_DEV_ENC, &blob).unwrap();
    assert!(lock_engaged(&mut fs));
    ensure_seed(&d, &mut fs, &mut rng, &mut recorded()).unwrap();
    assert!(!fs.has_data(FID_KEY_DEV));
    assert!(fs.has_data(EF_COUNTER)); // the rest of the scan still runs
    assert!(!fs.has_data(EF_EE_DEV)); // cert step skipped (seed unreadable)
}

#[test]
fn boot_migration_reseals_plain_seed_to_otp_kbase() {
    let mut fs = fs();
    let seed = [0x5A; 32];
    encrypt_keydev_f1(&dev(), &mut fs, &seed).unwrap();

    migrate_keydev_boot(&otp_dev(), &mut fs).unwrap();
    let mut raw = [0u8; KEYDEV_G1_LEN];
    fs.read(FID_KEY_DEV, &mut raw).unwrap();
    assert_eq!(raw[0], FORMAT_G1_OTP);
    assert_eq!(load_keydev(&otp_dev(), &mut fs), Some(seed));

    // A second pass is a no-op.
    migrate_keydev_boot(&otp_dev(), &mut fs).unwrap();
    assert_eq!(load_keydev(&otp_dev(), &mut fs), Some(seed));
}

#[test]
fn boot_migration_without_otp_is_noop() {
    let mut fs = fs();
    encrypt_keydev_f1(&dev(), &mut fs, &[0x5A; 32]).unwrap();
    migrate_keydev_boot(&dev(), &mut fs).unwrap();
    let mut raw = [0u8; KEYDEV_G1_LEN];
    fs.read(FID_KEY_DEV, &mut raw).unwrap();
    assert_eq!(raw[0], FORMAT_G1);
}

#[test]
fn otp_era_seed_fails_cleanly_without_otp_key() {
    let mut fs = fs();
    let seed = [0x5A; 32];
    encrypt_keydev_f1(&otp_dev(), &mut fs, &seed).unwrap();
    let mut raw = [0u8; KEYDEV_G1_LEN];
    fs.read(FID_KEY_DEV, &mut raw).unwrap();
    assert_eq!(raw[0], FORMAT_G1_OTP);
    assert_eq!(load_keydev(&dev(), &mut fs), None);
}

#[test]
fn pre_otp_wrapped_seed_migrates_to_otp_plain_at_verify() {
    let mut fs = fs();
    let seed = [0x5A; 32];
    let pin_hash = [0x99u8; 16];

    wrap_keydev_legacy(&dev(), &mut fs, &seed, &pin_hash);
    let mut raw = [0u8; KEYDEV_F3_LEN];
    fs.read(FID_KEY_DEV, &mut raw).unwrap();
    assert_eq!(raw[0], FORMAT_F3);

    // The boot pass cannot touch a PIN-wrapped blob.
    migrate_keydev_boot(&otp_dev(), &mut fs).unwrap();
    fs.read(FID_KEY_DEV, &mut raw).unwrap();
    assert_eq!(raw[0], FORMAT_F3);

    // The first PIN verification unwraps and seals forward.
    migrate_keydev_pin(&otp_dev(), &mut fs, &mut recorded(), &pin_hash).unwrap();
    let mut g = [0u8; KEYDEV_G1_LEN];
    assert_eq!(fs.read(FID_KEY_DEV, &mut g), Some(KEYDEV_G1_LEN));
    assert_eq!(g[0], FORMAT_G1_OTP);
    assert_eq!(load_keydev(&otp_dev(), &mut fs), Some(seed));

    // Idempotent.
    migrate_keydev_pin(&otp_dev(), &mut fs, &mut recorded(), &pin_hash).unwrap();
    assert_eq!(load_keydev(&otp_dev(), &mut fs), Some(seed));
}

#[test]
fn otp_wrapped_seed_migrates_to_plain_at_verify() {
    let mut fs = fs();
    let seed = [0x5A; 32];
    let pin_hash = [0x99u8; 16];
    wrap_keydev_legacy(&otp_dev(), &mut fs, &seed, &pin_hash);
    let mut raw = [0u8; KEYDEV_F3_LEN];
    fs.read(FID_KEY_DEV, &mut raw).unwrap();
    assert_eq!(raw[0], FORMAT_F3_OTP);

    // An orphan without the fused key: no-op, no error, still closed.
    migrate_keydev_pin(&dev(), &mut fs, &mut recorded(), &pin_hash).unwrap();
    fs.read(FID_KEY_DEV, &mut raw).unwrap();
    assert_eq!(raw[0], FORMAT_F3_OTP);
    assert_eq!(load_keydev(&dev(), &mut fs), None);

    migrate_keydev_pin(&otp_dev(), &mut fs, &mut recorded(), &pin_hash).unwrap();
    let mut g = [0u8; KEYDEV_G1_LEN];
    assert_eq!(fs.read(FID_KEY_DEV, &mut g), Some(KEYDEV_G1_LEN));
    assert_eq!(g[0], FORMAT_G1_OTP);
    assert_eq!(load_keydev(&otp_dev(), &mut fs), Some(seed));
}

#[test]
fn keyderiv_fido_load_key_deterministic_and_independent_of_first_bytes() {
    loaded_key_ignores_the_first_bytes();
}

#[test]
fn keyderiv_tests_fido_load_key_deterministic_and_independent_of_first_bytes() {
    loaded_key_ignores_the_first_bytes();
}
