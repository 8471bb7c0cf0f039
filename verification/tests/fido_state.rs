//! The state between commands.

use chacha20poly1305::aead::{Aead, Payload};
use chacha20poly1305::{ChaCha20Poly1305, KeyInit};
use p256::elliptic_curve::sec1::ToEncodedPoint;
use rs_key::fido::codec::{Codec, CredInput, Credential, Record, Recorded};
use rs_key::fido::consts::{EF_CRED, EF_RP};
use rs_key::fido::device::Device;
use rs_key::fido::keyderiv::verify_key;
use rs_key::fido::pinproto::{authenticate, PinProto};
use rs_key::fido::state::FidoState;
use rs_key::fido::state::{fresh_scalar, PERM_MC};
use rs_key::fido::{AlwaysConfirm, PinEntry};
use rs_key::fido::{Ctx, Presence, UserPresence, Watched};
use rs_key::fido::{Drawn, Rng};
use rs_key::fs::{Fs, RamStorage};
use rs_key::sdk::Confirm;
use sha2::{Digest, Sha256};

struct SeqRng(u64);

impl Rng for SeqRng {
    fn fill(&mut self, buf: &mut [u8]) {
        for b in buf.iter_mut() {
            self.0 = self.0.wrapping_mul(6364136223846793005).wrapping_add(1);
            *b = (self.0 >> 33) as u8;
        }
    }
}

fn sha256(data: &[u8]) -> [u8; 32] {
    Sha256::digest(data).into()
}

#[allow(dead_code)]
fn public_xy(scalar: &[u8; 32]) -> ([u8; 32], [u8; 32]) {
    let pt = p256::SecretKey::from_slice(scalar)
        .unwrap()
        .public_key()
        .to_encoded_point(false);
    ((*pt.x().unwrap()).into(), (*pt.y().unwrap()).into())
}

#[allow(dead_code)]
fn dev() -> Device {
    Device {
        serial_hash: [0xAB; 32],
        serial_id: [1, 2, 3, 4, 5, 6, 7, 8],
        kbase: [0x31; 32],
        kbase_otp: None,
    }
}

#[allow(dead_code)]
fn fs() -> Fs<RamStorage> {
    Fs::new(RamStorage::new())
}

fn key_of(seed: &[u8], label: &[u8]) -> [u8; 32] {
    let mut v = seed.to_vec();
    v.extend_from_slice(label);
    sha256(&v)
}

fn aead_seal(key: &[u8; 32], nonce: &[u8; 12], aad: &[u8], msg: &[u8]) -> Vec<u8> {
    let c = ChaCha20Poly1305::new(key.into());
    let ct = c.encrypt(nonce.into(), Payload { msg, aad }).unwrap();
    let mut v = nonce.to_vec();
    v.extend_from_slice(&ct);
    v
}

fn aead_open(key: &[u8; 32], aad: &[u8], sealed: &[u8]) -> Option<Vec<u8>> {
    if sealed.len() < 28 {
        return None;
    }
    let c = ChaCha20Poly1305::new(key.into());
    c.decrypt((&sealed[..12]).into(), Payload { msg: &sealed[12..], aad })
        .ok()
}

fn put_field(v: &mut Vec<u8>, f: &[u8]) {
    v.extend_from_slice(&(f.len() as u16).to_be_bytes());
    v.extend_from_slice(f);
}

fn get_field(v: &[u8], pos: &mut usize) -> Vec<u8> {
    let n = u16::from_be_bytes([v[*pos], v[*pos + 1]]) as usize;
    let f = v[*pos + 2..*pos + 2 + n].to_vec();
    *pos += 2 + n;
    f
}

/// Credential boxes and names under ChaCha20-Poly1305, keys on P-256 only.
struct TestCodec;

#[allow(dead_code)]
fn recorded() -> Recorded<TestCodec> {
    Recorded::new(TestCodec)
}

impl Codec for TestCodec {
    fn create(
        &mut self,
        seed: &[u8; 32],
        input: &CredInput,
        rp_id_hash: &[u8; 32],
        iv: &[u8; 12],
    ) -> Option<Vec<u8>> {
        let mut v = Vec::new();
        put_field(&mut v, &input.rp_id);
        put_field(&mut v, &input.user_id);
        put_field(&mut v, &input.user_name);
        put_field(&mut v, &input.user_display_name);
        put_field(&mut v, &[input.ext.cred_protect as u8]);
        Some(aead_seal(&key_of(seed, b"box"), iv, rp_id_hash, &v))
    }

    fn load(&mut self, seed: &[u8; 32], cred_box: &[u8], rp_id_hash: &[u8; 32]) -> Option<
        Credential,
    > {
        if let Some(v) = aead_open(&key_of(seed, b"box"), rp_id_hash, cred_box) {
            let mut p = 0;
            let _rp = get_field(&v, &mut p);
            return Some(Credential {
                user_id: get_field(&v, &mut p),
                user_name: get_field(&v, &mut p),
                user_display_name: get_field(&v, &mut p),
                cred_protect: get_field(&v, &mut p)[0] as u64,
                u2f: false,
            });
        }
        let handle: [u8; 64] = cred_box.try_into().ok()?;
        verify_key(seed, rp_id_hash, &handle)?;
        Some(Credential {
            user_id: Vec::new(),
            user_name: Vec::new(),
            user_display_name: Vec::new(),
            cred_protect: 0,
            u2f: true,
        })
    }

    fn is_resident(&self, id: &[u8]) -> bool {
        id.starts_with(b"RESIDENT01")
    }

    fn resident_id(&mut self, cred_box: &[u8]) -> [u8; 42] {
        let mut id = [0u8; 42];
        id[..10].copy_from_slice(b"RESIDENT01");
        id[10..].copy_from_slice(&sha256(cred_box));
        id
    }

    fn store(
        &mut self,
        seed: &[u8; 32],
        present: &Vec<Record>,
        cred_box: &[u8],
        rp_id_hash: &[u8; 32],
        rp_id: &[u8],
        _user_id: &[u8],
    ) -> Option<Vec<Record>> {
        let used = |fid: u16| present.iter().any(|r| r.fid == fid);
        let slot = (EF_CRED..EF_CRED + 256).find(|f| !used(*f))?;
        let mut data = rp_id_hash.to_vec();
        data.extend_from_slice(&self.resident_id(cred_box));
        data.extend_from_slice(cred_box);
        let rp = present
            .iter()
            .find(|r| r.fid >= EF_RP && r.fid < EF_RP + 256 && r.data[1..33] == rp_id_hash[..]);
        let rp_record = match rp {
            Some(r) => {
                let mut d = r.data.clone();
                d[0] += 1;
                Record { fid: r.fid, data: d }
            }
            None => {
                let fid = (EF_RP..EF_RP + 256).find(|f| !used(*f))?;
                let mut d = vec![1];
                d.extend_from_slice(rp_id_hash);
                d.extend_from_slice(&aead_seal(
                    &key_of(seed, b"rp"),
                    &[7; 12],
                    rp_id_hash,
                    rp_id,
                ));
                Record { fid, data: d }
            }
        };
        Some(vec![Record { fid: slot, data }, rp_record])
    }

    fn hmac_key(&mut self, seed: &[u8; 32], cred_id: &[u8]) -> [u8; 64] {
        let mut k = [0u8; 64];
        k[..32].copy_from_slice(&key_of(&key_of(seed, cred_id), b"hs"));
        k[32..].copy_from_slice(&key_of(&key_of(seed, cred_id), b"hs-uv"));
        k
    }

    fn large_blob_key(&mut self, seed: &[u8; 32], cred_id: &[u8]) -> [u8; 32] {
        key_of(&key_of(seed, cred_id), b"lbk")
    }

    fn cose_public(&mut self, curve: u8, raw: &[u8; 66]) -> Option<Vec<u8>> {
        if curve != 1 {
            return None;
        }
        let scalar: [u8; 32] = raw[..32].try_into().ok()?;
        p256::SecretKey::from_slice(&scalar).ok()?;
        let (x, y) = public_xy(&scalar);
        let mut v = vec![0xA5, 0x01, 0x02, 0x03, 0x26, 0x20, 0x01, 0x21, 0x58, 0x20];
        v.extend_from_slice(&x);
        v.extend_from_slice(&[0x22, 0x58, 0x20]);
        v.extend_from_slice(&y);
        Some(v)
    }

    fn sign(&mut self, _curve: u8, raw: &[u8; 66], msg: &[u8]) -> (i64, Vec<u8>) {
        let key = p256::ecdsa::SigningKey::from_slice(&raw[..32]).unwrap();
        let sig: p256::ecdsa::Signature = p256::ecdsa::signature::Signer::sign(&key, msg);
        (-7, sig.to_der().as_bytes().to_vec())
    }

    fn attestation_cert(&mut self, key: &[u8; 32], serial: &[u8; 16]) -> Option<Vec<u8>> {
        let (x, y) = public_xy(key);
        let mut v = vec![0x30, 0x82, 0x01, 0x00];
        v.extend_from_slice(serial);
        v.extend_from_slice(&x);
        v.extend_from_slice(&y);
        v.resize(4 + 256, 0);
        Some(v)
    }

    fn open_rp_id(&mut self, seed: &[u8; 32], rp_id_hash: &[u8; 32], sealed: &[u8]) -> Option<
        Vec<u8>,
    > {
        aead_open(&key_of(seed, b"rp"), rp_id_hash, sealed)
    }

    fn open_nick(&mut self, seed: &[u8; 32], rp_id_hash: &[u8; 32], sealed: &[u8]) -> Option<
        Vec<u8>,
    > {
        aead_open(&key_of(seed, b"nick"), rp_id_hash, sealed)
    }

    fn seal_nick(&mut self, seed: &[u8; 32], rp_id_hash: &[u8; 32], nick: &[u8]) -> Option<
        Vec<u8>,
    > {
        Some(aead_seal(&key_of(seed, b"nick"), &[9; 12], rp_id_hash, nick))
    }

    fn strip_pin(&mut self, otp: bool, pin_hash: &[u8], wrapped: &[u8]) -> Option<[u8; 32]> {
        let inner = aead_open(&key_of(pin_hash, &[otp as u8]), b"pin", wrapped)?;
        inner.try_into().ok()
    }
}

/// A presence source with a fixed outcome that counts its requests.
struct Fixed {
    verdict: Presence,
    calls: usize,
}

#[allow(dead_code)]
fn fixed(verdict: Presence) -> Fixed {
    Fixed { verdict, calls: 0 }
}

impl UserPresence for Fixed {
    fn request(&mut self, _confirm: Confirm<'_>) -> Presence {
        self.calls += 1;
        self.verdict
    }
}

type TestCtx = Ctx<RamStorage, SeqRng, Fixed>;

#[allow(dead_code)]
fn ctx_with(fs: Fs<RamStorage>, state: FidoState, verdict: Presence) -> TestCtx {
    Ctx { dev: dev(), fs, rng: Drawn::new(SeqRng(1)), state, now_ms: 12345, presence: Watched::new(fixed(verdict)) }
}

#[allow(dead_code)]
fn ctx() -> TestCtx {
    ctx_with(fs(), FidoState::new(), Presence::Confirmed)
}

#[test]
fn a_new_state_holds_nothing() {
    let s = FidoState::new();
    assert!(!s.ephemeral_set && !s.paut.in_use && !s.mse_active);
    assert_eq!(s.paut.permissions, 0);
    assert!(s.keydev_dec.is_none() && s.devk.is_none());
    assert!(!s.user_verified() && !s.user_present());
}

#[test]
fn the_first_use_draws_a_key_and_a_token() {
    let mut s = FidoState::new();
    assert!(s.ephemeral_public().is_none());
    let mut rng = Drawn::new(SeqRng(5));
    s.ensure_initialized(&mut rng);
    assert!(s.ephemeral_set);
    let key = *s.ephemeral_scalar();
    assert_eq!(s.ephemeral_public(), Some(public_xy(&key)));
    assert_ne!(s.paut.token, [0u8; 32]);
    // A second use keeps both.
    let token = s.paut.token;
    s.ensure_initialized(&mut rng);
    assert_eq!((s.ephemeral, s.paut.token), (key, token));
    // A regeneration replaces the key alone.
    assert!(s.regenerate(&mut rng));
    assert_ne!(s.ephemeral, key);
    assert_eq!(s.paut.token, token);
}

/// Fills each buffer with the next byte of a list.
struct Listed(Vec<u8>);

impl Rng for Listed {
    fn fill(&mut self, buf: &mut [u8]) {
        buf.fill(self.0.remove(0));
    }
}

#[test]
fn draws_out_of_range_are_passed_over() {
    // Zero is no scalar, nor is a number above the order of the group.
    let mut rng = Drawn::new(Listed(vec![0x00, 0xFF, 0x11, 0x22]));
    assert_eq!(fresh_scalar(&mut rng), Some([0x11; 32]));
    assert_eq!(fresh_scalar(&mut rng), Some([0x22; 32]));
    // The token is the draw after the key.
    let mut s = FidoState::new();
    let mut rng = Drawn::new(Listed(vec![0xFF, 0x33, 0xFF, 0x44]));
    s.ensure_initialized(&mut rng);
    assert_eq!((s.ephemeral, s.paut.token), ([0x33; 32], [0xFF; 32]));
    assert!(s.regenerate(&mut rng));
    assert_eq!((s.ephemeral, s.paut.token), ([0x44; 32], [0xFF; 32]));
}

#[test]
fn a_token_verifies_while_it_is_in_use() {
    let mut s = FidoState::new();
    let mut rng = Drawn::new(SeqRng(6));
    s.reset_pin_uv_auth_token(&mut rng);
    s.paut.permissions = PERM_MC;
    assert!(!s.user_verified());
    s.begin_using_token(true);
    assert!(s.user_verified() && s.user_present());
    let mac = authenticate(PinProto::Two, &s.paut.token, b"data");
    assert!(s.verify_token(PinProto::Two, b"data", &mac));
    assert!(!s.verify_token(PinProto::Two, b"other", &mac));
    // Protocol one takes the first half of the tag.
    let one = authenticate(PinProto::One, &s.paut.token, b"data");
    assert_eq!(one[..], mac[..16]);
    s.reset_pin_uv_auth_token(&mut rng);
    assert!(!s.paut.in_use && s.paut.permissions == 0);
    assert!(!s.verify_token(PinProto::Two, b"data", &mac));
}

#[test]
fn the_persistent_token_is_drawn_anew() {
    let mut s = FidoState::new();
    s.ppaut_permissions = 4;
    s.reset_persistent_token(&mut Drawn::new(SeqRng(7)));
    assert_eq!(s.ppaut_permissions, 0);
    assert_ne!(s.ppaut_token, [0u8; 32]);
}

#[test]
fn a_reset_keeps_the_device_key_alone() {
    let mut s = FidoState::new();
    s.devk = Some([7; 32]);
    s.keydev_dec = Some([8; 32]);
    s.audit_boot_logged = true;
    s.mse_active = true;
    s.reset();
    assert_eq!(s.devk, Some([7; 32]));
    assert!(s.keydev_dec.is_none() && s.audit_boot_logged && !s.mse_active);
}

#[test]
fn secrets_are_wiped() {
    let mut s = FidoState::new();
    s.ensure_initialized(&mut Drawn::new(SeqRng(9)));
    s.mse_key = [3; 32];
    s.keydev_dec = Some([8; 32]);
    s.devk = Some([7; 32]);
    s.wipe_secrets();
    assert_eq!((s.ephemeral, s.paut.token, s.mse_key), ([0; 32], [0; 32], [0; 32]));
    assert!(s.keydev_dec.is_none() && s.devk.is_none());
}

#[test]
fn a_source_without_a_display_collects_no_pin() {
    let mut p = AlwaysConfirm;
    let mut buf = [0u8; 8];
    assert!(!p.uv_available());
    assert_eq!(p.collect_pin(4, &mut buf), PinEntry::Unsupported);
    assert_eq!(p.request(Confirm::detailed("Reset?", "All keys")), Presence::Confirmed);
}
