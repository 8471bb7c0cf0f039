//! The vendor command: channel, backup, lock and attestation.

use chacha20poly1305::aead::{Aead, Payload};
use chacha20poly1305::{ChaCha20Poly1305, KeyInit};
use hkdf::Hkdf;
use minicbor::{Decoder, Encoder};
use ml_kem::kem::Decapsulate;
use ml_kem::{Ciphertext, EncodedSizeUser, KemCore, MlKem768};
use p256::EncodedPoint;
use p256::elliptic_curve::sec1::FromEncodedPoint;
use p256::elliptic_curve::sec1::ToEncodedPoint;
use rs_key::fido::channel::MLKEM768_EK_LEN;
use rs_key::fido::codec::{Codec, CredInput, Credential, Record, Recorded};
use rs_key::fido::consts::{
    ef_key_dev, ef_key_dev_enc, CTAP_VENDOR, EF_ATT_CHAIN, EF_COUNTER, EF_EE_DEV,
    EF_LARGEBLOB, EF_PIN,
    VENDOR_ATT_CLEAR, VENDOR_ATT_IMPORT, VENDOR_ATT_STATE, VENDOR_AUDIT_READ,
    VENDOR_BACKUP_EXPORT, VENDOR_BACKUP_FINALIZE, VENDOR_BACKUP_LOAD, VENDOR_BACKUP_STATE,
    VENDOR_MSE, VENDOR_UNLOCK,
};
use rs_key::fido::consts::{EF_CRED, EF_RP};
use rs_key::fido::device::Device;
use rs_key::fido::error::{CtapError, CtapResult};
use rs_key::fido::journal::for_each_event;
use rs_key::fido::keyderiv::verify_key;
use rs_key::fido::pinproto::{authenticate, PinProto};
use rs_key::fido::reset::reset;
use rs_key::fido::seed::{
    ensure_seed, load_att_key, load_keydev, seal_seed_locked, LOCK_BLOB_LEN,
};
use rs_key::fido::state::FidoState;
use rs_key::fido::state::PERM_ACFG;
use rs_key::fido::vendor::{backup_sealed, backup_status, mark_backup_sealed, vendor};
use rs_key::fido::{Ctx, Presence, UserPresence, Watched};
use rs_key::fido::{Drawn, Rng};
use rs_key::fs::Sealed;
use rs_key::fs::{Fs, RamStorage};
use rs_key::sdk::Confirm;
use sha2::{Digest, Sha256};

struct SeqRng(u64);

impl Rng for SeqRng {
    fn fill(&mut self, buf: &mut [u8]) {
        for b in buf.iter_mut() {
            self.0 = self.0.wrapping_mul(6364136223846793005).wrapping_add(1);
            *b = (self.0 >> 33) as u8;
        }
    }
}

fn sha256(data: &[u8]) -> [u8; 32] {
    Sha256::digest(data).into()
}

#[allow(dead_code)]
fn public_xy(scalar: &[u8; 32]) -> ([u8; 32], [u8; 32]) {
    let pt = p256::SecretKey::from_slice(scalar)
        .unwrap()
        .public_key()
        .to_encoded_point(false);
    ((*pt.x().unwrap()).into(), (*pt.y().unwrap()).into())
}

#[allow(dead_code)]
fn dev() -> Device {
    Device {
        serial_hash: [0xAB; 32],
        serial_id: [1, 2, 3, 4, 5, 6, 7, 8],
        kbase: [0x31; 32],
        kbase_otp: None,
    }
}

#[allow(dead_code)]
fn fs() -> Fs<RamStorage> {
    Fs::new(RamStorage::new())
}

fn key_of(seed: &[u8], label: &[u8]) -> [u8; 32] {
    let mut v = seed.to_vec();
    v.extend_from_slice(label);
    sha256(&v)
}

fn aead_seal(key: &[u8; 32], nonce: &[u8; 12], aad: &[u8], msg: &[u8]) -> Vec<u8> {
    let c = ChaCha20Poly1305::new(key.into());
    let ct = c.encrypt(nonce.into(), Payload { msg, aad }).unwrap();
    let mut v = nonce.to_vec();
    v.extend_from_slice(&ct);
    v
}

fn aead_open(key: &[u8; 32], aad: &[u8], sealed: &[u8]) -> Option<Vec<u8>> {
    if sealed.len() < 28 {
        return None;
    }
    let c = ChaCha20Poly1305::new(key.into());
    c.decrypt((&sealed[..12]).into(), Payload { msg: &sealed[12..], aad })
        .ok()
}

fn put_field(v: &mut Vec<u8>, f: &[u8]) {
    v.extend_from_slice(&(f.len() as u16).to_be_bytes());
    v.extend_from_slice(f);
}

fn get_field(v: &[u8], pos: &mut usize) -> Vec<u8> {
    let n = u16::from_be_bytes([v[*pos], v[*pos + 1]]) as usize;
    let f = v[*pos + 2..*pos + 2 + n].to_vec();
    *pos += 2 + n;
    f
}

/// Credential boxes and names under ChaCha20-Poly1305, keys on P-256 only.
struct TestCodec;

#[allow(dead_code)]
fn recorded() -> Recorded<TestCodec> {
    Recorded::new(TestCodec)
}

impl Codec for TestCodec {
    fn create(
        &mut self,
        seed: &[u8; 32],
        input: &CredInput,
        rp_id_hash: &[u8; 32],
        iv: &[u8; 12],
    ) -> Option<Vec<u8>> {
        let mut v = Vec::new();
        put_field(&mut v, &input.rp_id);
        put_field(&mut v, &input.user_id);
        put_field(&mut v, &input.user_name);
        put_field(&mut v, &input.user_display_name);
        put_field(&mut v, &[input.ext.cred_protect as u8]);
        Some(aead_seal(&key_of(seed, b"box"), iv, rp_id_hash, &v))
    }

    fn load(&mut self, seed: &[u8; 32], cred_box: &[u8], rp_id_hash: &[u8; 32]) -> Option<
        Credential,
    > {
        if let Some(v) = aead_open(&key_of(seed, b"box"), rp_id_hash, cred_box) {
            let mut p = 0;
            let _rp = get_field(&v, &mut p);
            return Some(Credential {
                user_id: get_field(&v, &mut p),
                user_name: get_field(&v, &mut p),
                user_display_name: get_field(&v, &mut p),
                cred_protect: get_field(&v, &mut p)[0] as u64,
                u2f: false,
            });
        }
        let handle: [u8; 64] = cred_box.try_into().ok()?;
        verify_key(seed, rp_id_hash, &handle)?;
        Some(Credential {
            user_id: Vec::new(),
            user_name: Vec::new(),
            user_display_name: Vec::new(),
            cred_protect: 0,
            u2f: true,
        })
    }

    fn is_resident(&self, id: &[u8]) -> bool {
        id.starts_with(b"RESIDENT01")
    }

    fn resident_id(&mut self, cred_box: &[u8]) -> [u8; 42] {
        let mut id = [0u8; 42];
        id[..10].copy_from_slice(b"RESIDENT01");
        id[10..].copy_from_slice(&sha256(cred_box));
        id
    }

    fn store(
        &mut self,
        seed: &[u8; 32],
        present: &Vec<Record>,
        cred_box: &[u8],
        rp_id_hash: &[u8; 32],
        rp_id: &[u8],
        _user_id: &[u8],
    ) -> Option<Vec<Record>> {
        let used = |fid: u16| present.iter().any(|r| r.fid == fid);
        let slot = (EF_CRED..EF_CRED + 256).find(|f| !used(*f))?;
        let mut data = rp_id_hash.to_vec();
        data.extend_from_slice(&self.resident_id(cred_box));
        data.extend_from_slice(cred_box);
        let rp = present
            .iter()
            .find(|r| r.fid >= EF_RP && r.fid < EF_RP + 256 && r.data[1..33] == rp_id_hash[..]);
        let rp_record = match rp {
            Some(r) => {
                let mut d = r.data.clone();
                d[0] += 1;
                Record { fid: r.fid, data: d }
            }
            None => {
                let fid = (EF_RP..EF_RP + 256).find(|f| !used(*f))?;
                let mut d = vec![1];
                d.extend_from_slice(rp_id_hash);
                d.extend_from_slice(&aead_seal(
                    &key_of(seed, b"rp"),
                    &[7; 12],
                    rp_id_hash,
                    rp_id,
                ));
                Record { fid, data: d }
            }
        };
        Some(vec![Record { fid: slot, data }, rp_record])
    }

    fn hmac_key(&mut self, seed: &[u8; 32], cred_id: &[u8]) -> [u8; 64] {
        let mut k = [0u8; 64];
        k[..32].copy_from_slice(&key_of(&key_of(seed, cred_id), b"hs"));
        k[32..].copy_from_slice(&key_of(&key_of(seed, cred_id), b"hs-uv"));
        k
    }

    fn large_blob_key(&mut self, seed: &[u8; 32], cred_id: &[u8]) -> [u8; 32] {
        key_of(&key_of(seed, cred_id), b"lbk")
    }

    fn cose_public(&mut self, curve: u8, raw: &[u8; 66]) -> Option<Vec<u8>> {
        if curve != 1 {
            return None;
        }
        let scalar: [u8; 32] = raw[..32].try_into().ok()?;
        p256::SecretKey::from_slice(&scalar).ok()?;
        let (x, y) = public_xy(&scalar);
        let mut v = vec![0xA5, 0x01, 0x02, 0x03, 0x26, 0x20, 0x01, 0x21, 0x58, 0x20];
        v.extend_from_slice(&x);
        v.extend_from_slice(&[0x22, 0x58, 0x20]);
        v.extend_from_slice(&y);
        Some(v)
    }

    fn sign(&mut self, _curve: u8, raw: &[u8; 66], msg: &[u8]) -> (i64, Vec<u8>) {
        let key = p256::ecdsa::SigningKey::from_slice(&raw[..32]).unwrap();
        let sig: p256::ecdsa::Signature = p256::ecdsa::signature::Signer::sign(&key, msg);
        (-7, sig.to_der().as_bytes().to_vec())
    }

    fn attestation_cert(&mut self, key: &[u8; 32], serial: &[u8; 16]) -> Option<Vec<u8>> {
        let (x, y) = public_xy(key);
        let mut v = vec![0x30, 0x82, 0x01, 0x00];
        v.extend_from_slice(serial);
        v.extend_from_slice(&x);
        v.extend_from_slice(&y);
        v.resize(4 + 256, 0);
        Some(v)
    }

    fn open_rp_id(&mut self, seed: &[u8; 32], rp_id_hash: &[u8; 32], sealed: &[u8]) -> Option<
        Vec<u8>,
    > {
        aead_open(&key_of(seed, b"rp"), rp_id_hash, sealed)
    }

    fn open_nick(&mut self, seed: &[u8; 32], rp_id_hash: &[u8; 32], sealed: &[u8]) -> Option<
        Vec<u8>,
    > {
        aead_open(&key_of(seed, b"nick"), rp_id_hash, sealed)
    }

    fn seal_nick(&mut self, seed: &[u8; 32], rp_id_hash: &[u8; 32], nick: &[u8]) -> Option<
        Vec<u8>,
    > {
        Some(aead_seal(&key_of(seed, b"nick"), &[9; 12], rp_id_hash, nick))
    }

    fn strip_pin(&mut self, otp: bool, pin_hash: &[u8], wrapped: &[u8]) -> Option<[u8; 32]> {
        let inner = aead_open(&key_of(pin_hash, &[otp as u8]), b"pin", wrapped)?;
        inner.try_into().ok()
    }
}

/// A presence source with a fixed outcome that counts its requests.
struct Fixed {
    verdict: Presence,
    calls: usize,
}

#[allow(dead_code)]
fn fixed(verdict: Presence) -> Fixed {
    Fixed { verdict, calls: 0 }
}

impl UserPresence for Fixed {
    fn request(&mut self, _confirm: Confirm<'_>) -> Presence {
        self.calls += 1;
        self.verdict
    }
}

type TestCtx = Ctx<RamStorage, SeqRng, Fixed>;

#[allow(dead_code)]
fn ctx_with(fs: Fs<RamStorage>, state: FidoState, verdict: Presence) -> TestCtx {
    Ctx { dev: dev(), fs, rng: Drawn::new(SeqRng(1)), state, now_ms: 12345, presence: Watched::new(fixed(verdict)) }
}

#[allow(dead_code)]
fn ctx() -> TestCtx {
    ctx_with(fs(), FidoState::new(), Presence::Confirmed)
}

/// The host's side of the channel: its key and the device's public key, which
/// every blob is bound to.
struct Host {
    key: [u8; 32],
    aad: [u8; 65],
}

fn call(c: &mut TestCtx, req: &[u8], out: &mut [u8]) -> CtapResult {
    vendor(c, &mut recorded(), false, req, out)
}

fn mse_request(hx: &[u8; 32], hy: &[u8; 32], ek: Option<&[u8]>) -> Vec<u8> {
    let mut e = Encoder::new(Vec::new());
    e.map(2).unwrap();
    e.u8(1).unwrap().u64(VENDOR_MSE).unwrap();
    e.u8(2).unwrap().map(1 + u64::from(ek.is_some())).unwrap();
    e.u8(1).unwrap().map(5).unwrap();
    e.u8(1).unwrap().u8(2).unwrap();
    e.u8(3).unwrap().i64(-25).unwrap();
    e.i8(-1).unwrap().u8(1).unwrap();
    e.i8(-2).unwrap().bytes(hx).unwrap();
    e.i8(-3).unwrap().bytes(hy).unwrap();
    if let Some(k) = ek {
        e.u8(2).unwrap().bytes(k).unwrap();
    }
    e.into_writer()
}

fn ecdh_raw(scalar: &[u8; 32], x: &[u8; 32], y: &[u8; 32]) -> [u8; 32] {
    let pt = EncodedPoint::from_affine_coordinates(x.into(), y.into(), false);
    let peer = p256::PublicKey::from_encoded_point(&pt).unwrap();
    let own = p256::SecretKey::from_slice(scalar).unwrap();
    let z = p256::ecdh::diffie_hellman(own.to_nonzero_scalar(), peer.as_affine());
    (*z.raw_secret_bytes()).into()
}

fn hkdf_sha256(salt: &[u8], ikm: &[u8], info: &[u8]) -> [u8; 32] {
    let mut key = [0u8; 32];
    Hkdf::<Sha256>::new(Some(salt), ikm).expand(info, &mut key).unwrap();
    key
}

fn device_key(d: &mut Decoder) -> ([u8; 32], [u8; 32]) {
    assert_eq!(d.u8().unwrap(), 1);
    let n = d.map().unwrap().unwrap();
    let (mut dx, mut dy) = ([0u8; 32], [0u8; 32]);
    for _ in 0..n {
        match d.i32().unwrap() {
            -2 => dx.copy_from_slice(d.bytes().unwrap()),
            -3 => dy.copy_from_slice(d.bytes().unwrap()),
            _ => d.skip().unwrap(),
        }
    }
    (dx, dy)
}

fn aad_of(dx: &[u8; 32], dy: &[u8; 32]) -> [u8; 65] {
    let mut aad = [0u8; 65];
    aad[0] = 0x04;
    aad[1..33].copy_from_slice(dx);
    aad[33..].copy_from_slice(dy);
    aad
}

/// Agrees on a channel and derives its key on the host's side.
fn handshake(c: &mut TestCtx) -> Host {
    let host_scalar = [0x42u8; 32];
    let (hx, hy) = public_xy(&host_scalar);
    let mut out = [0u8; 200];
    let r = call(c, &mse_request(&hx, &hy, None), &mut out).unwrap();
    let mut d = Decoder::new(&out[..r]);
    assert_eq!(d.map().unwrap(), Some(1));
    let (dx, dy) = device_key(&mut d);
    let z = ecdh_raw(&host_scalar, &dx, &dy);
    let aad = aad_of(&dx, &dy);
    Host { key: hkdf_sha256(&[], &z, &aad), aad }
}

/// Agrees on a hybrid channel: the host sends a P-256 key and an ML-KEM-768
/// encapsulation key and derives the channel key from both secrets.
fn handshake_pq(c: &mut TestCtx) -> Host {
    let host_scalar = [0x42u8; 32];
    let (hx, hy) = public_xy(&host_scalar);
    let (dk, ek) = MlKem768::generate_deterministic(&[0x55; 32].into(), &[0x55; 32].into());
    let mut out = [0u8; 1400];
    let r = call(c, &mse_request(&hx, &hy, Some(&ek.as_bytes()[..])), &mut out).unwrap();
    let mut d = Decoder::new(&out[..r]);
    assert_eq!(d.map().unwrap(), Some(2));
    let (dx, dy) = device_key(&mut d);
    assert_eq!(d.u8().unwrap(), 2);
    let ct = d.bytes().unwrap().to_vec();
    assert_eq!(ct.len(), 1088);
    let z = ecdh_raw(&host_scalar, &dx, &dy);
    let ss = dk.decapsulate(&Ciphertext::<MlKem768>::try_from(&ct[..]).unwrap()).unwrap();
    let aad = aad_of(&dx, &dy);
    let mut ikm = z.to_vec();
    ikm.extend_from_slice(&ss);
    let mut info = aad.to_vec();
    info.extend_from_slice(&ct);
    Host { key: hkdf_sha256(b"RSK-MSE-PQ-v1", &ikm, &info), aad }
}

fn plain_request(sub: u64) -> Vec<u8> {
    let mut e = Encoder::new(Vec::new());
    e.map(1).unwrap().u8(1).unwrap().u64(sub).unwrap();
    e.into_writer()
}

fn blob_request(sub: u64, blob: &[u8]) -> Vec<u8> {
    let mut e = Encoder::new(Vec::new());
    e.map(2).unwrap();
    e.u8(1).unwrap().u64(sub).unwrap();
    e.u8(2).unwrap().map(1).unwrap();
    e.u8(1).unwrap().bytes(blob).unwrap();
    e.into_writer()
}

fn import_request(blob: &[u8], chain: &[u8]) -> Vec<u8> {
    let mut e = Encoder::new(Vec::new());
    e.map(2).unwrap();
    e.u8(1).unwrap().u64(VENDOR_ATT_IMPORT).unwrap();
    e.u8(2).unwrap().map(2).unwrap();
    e.u8(1).unwrap().bytes(blob).unwrap();
    e.u8(2).unwrap().bytes(chain).unwrap();
    e.into_writer()
}

fn setup() -> TestCtx {
    let mut f = fs();
    let mut rng = Drawn::new(SeqRng(1));
    ensure_seed(&dev(), &mut f, &mut rng, &mut recorded()).unwrap();
    let mut c = ctx_with(f, FidoState::new(), Presence::Confirmed);
    c.rng = rng;
    c.now_ms = 0;
    c
}

/// The host's side: nonce, ciphertext and tag over 32 bytes.
fn host_wrap(host: &Host, value: &[u8; 32], nonce: &[u8; 12]) -> Vec<u8> {
    aead_seal(&host.key, nonce, &host.aad, value)
}

/// Opens `{1: blob}` on the host's side.
fn opened_export(host: &Host, out: &[u8]) -> Vec<u8> {
    let mut d = Decoder::new(out);
    assert_eq!(d.map().unwrap(), Some(1));
    assert_eq!(d.u8().unwrap(), 1);
    let blob = d.bytes().unwrap();
    assert_eq!(blob.len(), LOCK_BLOB_LEN);
    aead_open(&host.key, &host.aad, blob).unwrap()
}

#[test]
fn att_import_state_clear_roundtrip() {
    let mut c = setup();
    let host = handshake(&mut c);

    // Import a key and two certificates over the channel.
    let org_scalar = [0x21u8; 32];
    let blob = host_wrap(&host, &org_scalar, &[0x24; 12]);
    let chain: &[u8] = &[0x30, 0x03, 1, 2, 3, 0x30, 0x02, 7, 7];
    let mut out = [0u8; 128];
    call(&mut c, &import_request(&blob, chain), &mut out).unwrap();

    // The stored key opens to the imported scalar, and the state says so.
    assert_eq!(load_att_key(&c.dev, &mut c.fs).unwrap(), org_scalar);
    let r = call(&mut c, &plain_request(VENDOR_ATT_STATE), &mut out).unwrap();
    let mut d = Decoder::new(&out[..r]);
    assert_eq!(d.map().unwrap(), Some(2));
    assert_eq!(d.u8().unwrap(), 1);
    assert!(d.bool().unwrap());
    // The fingerprint is the digest of the packed chain.
    let packed = [2, 5, 0, 0x30, 0x03, 1, 2, 3, 4, 0, 0x30, 0x02, 7, 7];
    assert_eq!(d.u8().unwrap(), 2);
    assert_eq!(d.bytes().unwrap(), &sha256(&packed)[..]);

    // Clearing drops both and the state flips back.
    call(&mut c, &plain_request(VENDOR_ATT_CLEAR), &mut out).unwrap();
    assert!(load_att_key(&c.dev, &mut c.fs).is_none());
    assert!(!c.fs.has_data(EF_ATT_CHAIN));
    let r = call(&mut c, &plain_request(VENDOR_ATT_STATE), &mut out).unwrap();
    let mut d = Decoder::new(&out[..r]);
    assert_eq!(d.map().unwrap(), Some(1));
    assert_eq!(d.u8().unwrap(), 1);
    assert!(!d.bool().unwrap());

    // A malformed chain is refused before any authorization is consumed.
    let calls = c.presence.source().calls;
    assert_eq!(
        call(&mut c, &import_request(&blob, &[0xFF, 0x01]), &mut out),
        Err(CtapError::InvalidParameter)
    );
    assert_eq!(c.presence.source().calls, calls);
}

#[test]
fn fips_backup_export_refused() {
    let mut c = setup();
    handshake(&mut c);
    let mut out = [0u8; 64];
    let req = plain_request(VENDOR_BACKUP_EXPORT);
    assert_eq!(vendor(&mut c, &mut recorded(), true, &req, &mut out), Err(CtapError::NotAllowed));
    assert_eq!(c.presence.source().calls, 0);
    assert!(!backup_status(&mut c.fs, false).exportable);
}

#[test]
fn every_vendor_command_leaves_its_event() {
    let mut c = setup();
    let host = handshake(&mut c);
    let mut out = [0u8; 128];
    let blob = host_wrap(&host, &[0x21; 32], &[0x24; 12]);
    let chain: &[u8] = &[0x30, 0x03, 1, 2, 3];
    call(&mut c, &import_request(&blob, chain), &mut out).unwrap();
    call(&mut c, &plain_request(VENDOR_ATT_CLEAR), &mut out).unwrap();
    call(&mut c, &plain_request(VENDOR_BACKUP_EXPORT), &mut out).unwrap();
    call(&mut c, &blob_request(VENDOR_BACKUP_LOAD, &blob), &mut out).unwrap();
    call(&mut c, &plain_request(VENDOR_BACKUP_FINALIZE), &mut out).unwrap();
    let (events, n) = for_each_event(&c.dev, &mut c.fs, 16);
    let codes: Vec<u8> = events.iter().map(|e| e.event).collect();
    // Newest first, the boot entry last.
    assert_eq!((codes, n), (vec![0x0E, 0x0D, 0x0C, 0x13, 0x12, 0x01], 6));
}

fn export_roundtrip(pq: bool) {
    let mut c = setup();
    let seed = load_keydev(&c.dev, &mut c.fs).unwrap();
    let host = if pq { handshake_pq(&mut c) } else { handshake(&mut c) };
    let mut out = [0u8; 128];
    let r = call(&mut c, &plain_request(VENDOR_BACKUP_EXPORT), &mut out).unwrap();
    assert_eq!(opened_export(&host, &out[..r]), seed.to_vec());
}

#[test]
fn hybrid_channel_key_differs_from_classical() {
    // The same draws, so the same ephemeral key and P-256 secret.
    let classical = handshake(&mut setup());
    let hybrid = handshake_pq(&mut setup());
    assert_ne!(classical.key, hybrid.key);
}

fn rejected_ek(ek: &[u8]) {
    let mut c = setup();
    let (hx, hy) = public_xy(&[0x42u8; 32]);
    let mut out = [0u8; 1400];
    let e = call(&mut c, &mse_request(&hx, &hy, Some(ek)), &mut out);
    assert_eq!(e, Err(CtapError::InvalidParameter));
    assert!(!c.state.mse_active);
}

#[test]
fn load_installs_seed_and_rebuilds_attestation() {
    let mut c = setup();
    let old = load_keydev(&c.dev, &mut c.fs).unwrap();
    let host = handshake(&mut c);
    let new_seed = [0x33u8; 32];
    let blob = host_wrap(&host, &new_seed, &[0x07; 12]);
    let mut out = [0u8; 16];
    call(&mut c, &blob_request(VENDOR_BACKUP_LOAD, &blob), &mut out).unwrap();
    assert_ne!(new_seed, old);
    assert_eq!(load_keydev(&c.dev, &mut c.fs), Some(new_seed));
    assert!(c.fs.has_data(EF_EE_DEV)); // the certificate is rebuilt over the new seed
}

#[test]
fn export_refused_after_finalize() {
    let mut c = setup();
    handshake(&mut c);
    let mut out = [0u8; 128];
    call(&mut c, &plain_request(VENDOR_BACKUP_FINALIZE), &mut out).unwrap();
    let e = call(&mut c, &plain_request(VENDOR_BACKUP_EXPORT), &mut out);
    assert_eq!(e, Err(CtapError::NotAllowed));
}

#[test]
fn export_refused_without_touch() {
    let mut c = setup();
    handshake(&mut c);
    c.presence = Watched::new(fixed(Presence::Timeout));
    let mut out = [0u8; 128];
    let e = call(&mut c, &plain_request(VENDOR_BACKUP_EXPORT), &mut out);
    assert_eq!(e, Err(CtapError::OperationDenied));
}

#[test]
fn export_without_mse_is_not_allowed() {
    let mut c = setup();
    let mut out = [0u8; 128];
    let e = call(&mut c, &plain_request(VENDOR_BACKUP_EXPORT), &mut out);
    assert_eq!(e, Err(CtapError::NotAllowed));
}

#[test]
fn load_rejects_tampered_blob() {
    let mut c = setup();
    let host = handshake(&mut c);
    let mut blob = host_wrap(&host, &[0x33; 32], &[0x07; 12]);
    blob[20] ^= 0xFF; // flip a ciphertext byte
    let mut out = [0u8; 16];
    let e = call(&mut c, &blob_request(VENDOR_BACKUP_LOAD, &blob), &mut out);
    assert_eq!(e, Err(CtapError::IntegrityFailure));
}

#[test]
fn export_with_pin_requires_token() {
    let mut c = setup();
    c.fs.put(EF_PIN, &[8, 4, 1]).unwrap();
    handshake(&mut c);
    let mut out = [0u8; 128];
    let e = call(&mut c, &plain_request(VENDOR_BACKUP_EXPORT), &mut out);
    assert_eq!(e, Err(CtapError::PuatRequired));
}

/// The state as `(sealed, has_seed, locked, unlocked)`.
fn state_flags(c: &mut TestCtx) -> (bool, bool, bool, bool) {
    let mut out = [0u8; 64];
    let r = call(c, &plain_request(VENDOR_BACKUP_STATE), &mut out).unwrap();
    let mut d = Decoder::new(&out[..r]);
    assert_eq!(d.map().unwrap(), Some(4));
    let mut flags = [false; 4];
    for f in flags.iter_mut() {
        d.u8().unwrap();
        *f = d.bool().unwrap();
    }
    (flags[0], flags[1], flags[2], flags[3])
}

#[test]
fn backup_status_mirrors_the_host_flags() {
    let mut c = setup();
    // Fresh: a seed is present, the export window is open, not locked.
    let s = backup_status(&mut c.fs, true);
    assert!(s.has_seed && !s.sealed && !s.locked);
    assert!(!backup_sealed(&mut c.fs));
    assert_eq!(s.exportable, true);
    // Sealing on the device flips the flag.
    assert!(mark_backup_sealed(&mut c.fs));
    let s = backup_status(&mut c.fs, true);
    assert!(s.has_seed && s.sealed);
    assert!(backup_sealed(&mut c.fs));
}

// ---- the lock ----
const LOCK_KEY: [u8; 32] = [0xA7; 32];

/// A device whose seed is wrapped under the lock key and only there, with a
/// live channel; also the seed.
fn locked_setup() -> (TestCtx, Host, [u8; 32]) {
    let mut c = setup();
    let seed = load_keydev(&c.dev, &mut c.fs).unwrap();
    let host = handshake(&mut c);
    let blob = seal_seed_locked(&mut c.rng, &LOCK_KEY, &seed);
    c.fs.put_key(ef_key_dev_enc(), Sealed::wrap(&blob)).unwrap();
    c.fs.delete_key(ef_key_dev()).unwrap();
    (c, host, seed)
}

fn unlock(c: &mut TestCtx, key: &[u8; 32], host: &Host, nonce: u8) -> CtapResult {
    let blob = host_wrap(host, key, &[nonce; 12]);
    let mut out = [0u8; 16];
    call(c, &blob_request(VENDOR_UNLOCK, &blob), &mut out)
}

#[test]
fn a_locked_device_has_no_seed() {
    let (mut c, _host, _seed) = locked_setup();
    assert_eq!(load_keydev(&c.dev, &mut c.fs), None);
    assert_eq!(state_flags(&mut c), (false, false, true, false));
}

#[test]
fn unlock_restores_operations_for_the_session() {
    let (mut c, host, seed) = locked_setup();
    unlock(&mut c, &LOCK_KEY, &host, 0x22).unwrap();
    assert_eq!(c.state.keydev_dec, Some(seed));
    // The copy in memory is what operations load; flash stays wrapped.
    assert_eq!(c.load_keydev(), Some(seed));
    assert!(!c.fs.has_key(ef_key_dev()));
    assert_eq!(state_flags(&mut c), (false, false, true, true));
}

#[test]
fn unlock_with_wrong_key_fails() {
    let (mut c, host, _seed) = locked_setup();
    let e = unlock(&mut c, &[0x5C; 32], &host, 0x23);
    assert_eq!(e, Err(CtapError::InvalidParameter));
    assert!(c.state.keydev_dec.is_none());
}

#[test]
fn unlock_when_not_locked_is_integrity_failure() {
    let mut c = setup();
    let host = handshake(&mut c);
    let e = unlock(&mut c, &LOCK_KEY, &host, 0x24);
    assert_eq!(e, Err(CtapError::IntegrityFailure));
}

#[test]
fn backup_load_refused_while_locked() {
    let (mut c, host, _seed) = locked_setup();
    let blob = host_wrap(&host, &[0x66; 32], &[0x55; 12]);
    let mut out = [0u8; 16];
    let e = call(&mut c, &blob_request(VENDOR_BACKUP_LOAD, &blob), &mut out);
    assert_eq!(e, Err(CtapError::NotAllowed));
}

#[test]
fn backup_export_serves_the_unlocked_ram_copy() {
    let (mut c, host, seed) = locked_setup();
    unlock(&mut c, &LOCK_KEY, &host, 0x26).unwrap();
    let mut out = [0u8; 128];
    let r = call(&mut c, &plain_request(VENDOR_BACKUP_EXPORT), &mut out).unwrap();
    assert_eq!(opened_export(&host, &out[..r]), seed.to_vec());
}

#[test]
fn reset_clears_the_lock_and_regenerates() {
    let (mut c, _host, old_seed) = locked_setup();
    reset(&mut c, &mut recorded()).unwrap();
    assert!(!c.fs.has_key(ef_key_dev_enc()));
    let new_seed = load_keydev(&c.dev, &mut c.fs).unwrap();
    assert_ne!(new_seed, old_seed);
}

#[test]
fn ensure_seed_does_not_regenerate_under_lock() {
    let (mut c, host, seed) = locked_setup();
    ensure_seed(&c.dev, &mut c.fs, &mut c.rng, &mut recorded()).unwrap();
    assert!(!c.fs.has_key(ef_key_dev()));
    unlock(&mut c, &LOCK_KEY, &host, 0x27).unwrap();
    assert_eq!(c.state.keydev_dec, Some(seed));
}

// ---- requests ----
const TOKEN: [u8; 32] = [0x77; 32];

/// The export request with its authorization under protocol two.
fn authorized_export(token: &[u8; 32]) -> Vec<u8> {
    let mut vd = vec![0xff; 32];
    vd.push(CTAP_VENDOR);
    vd.push(VENDOR_BACKUP_EXPORT as u8);
    let mac = authenticate(PinProto::Two, token, &vd);
    let mut e = Encoder::new(Vec::new());
    e.map(3).unwrap();
    e.u8(1).unwrap().u64(VENDOR_BACKUP_EXPORT).unwrap();
    e.u8(3).unwrap().u8(2).unwrap();
    e.u8(4).unwrap().bytes(&mac).unwrap();
    e.into_writer()
}

#[test]
fn export_with_a_token_succeeds() {
    let mut c = setup();
    c.fs.put(EF_PIN, &[8, 4, 1]).unwrap();
    let seed = load_keydev(&c.dev, &mut c.fs).unwrap();
    let host = handshake(&mut c);
    c.state.paut.token = TOKEN;
    c.state.paut.permissions = PERM_ACFG;
    c.state.begin_using_token(false);
    let mut out = [0u8; 128];
    // A MAC under another token is refused.
    assert_eq!(
        call(&mut c, &authorized_export(&[0x11; 32]), &mut out),
        Err(CtapError::PinAuthInvalid)
    );
    let r = call(&mut c, &authorized_export(&TOKEN), &mut out).unwrap();
    assert_eq!(opened_export(&host, &out[..r]), seed.to_vec());
}

#[test]
fn audit_read_needs_no_channel() {
    let mut c = setup();
    let mut out = [0u8; 4096];
    let r = call(&mut c, &plain_request(VENDOR_AUDIT_READ), &mut out).unwrap();
    let mut d = Decoder::new(&out[..r]);
    assert_eq!(d.map().unwrap(), Some(4));
}

#[test]
fn malformed_vendor_requests() {
    let mut c = setup();
    let mut out = [0u8; 64];
    assert_eq!(call(&mut c, &[], &mut out), Err(CtapError::InvalidCbor));
    assert_eq!(
        call(&mut c, &plain_request(0x7F), &mut out),
        Err(CtapError::InvalidParameter)
    );
}

#[test]
fn a_load_restores_what_was_exported() {
    // One device exports, another loads the blob over its own channel.
    let mut a = setup();
    let seed = load_keydev(&a.dev, &mut a.fs).unwrap();
    let host_a = handshake(&mut a);
    let mut out = [0u8; 128];
    let r = call(&mut a, &plain_request(VENDOR_BACKUP_EXPORT), &mut out).unwrap();
    let value: [u8; 32] = opened_export(&host_a, &out[..r]).try_into().unwrap();
    let mut b = setup();
    b.rng = Drawn::new(SeqRng(99));
    let host_b = handshake(&mut b);
    let blob = host_wrap(&host_b, &value, &[0x31; 12]);
    call(&mut b, &blob_request(VENDOR_BACKUP_LOAD, &blob), &mut out).unwrap();
    assert_eq!(load_keydev(&b.dev, &mut b.fs), Some(seed));
}

#[test]
fn a_load_keeps_the_counter_the_blobs_and_other_metadata() {
    let mut c = setup();
    c.fs.put(EF_COUNTER, &[5, 0, 0, 0]).unwrap();
    c.fs.put(EF_LARGEBLOB, &[0xA0; 40]).unwrap();
    c.fs.meta_add(EF_COUNTER, &[3]).unwrap();
    c.fs.meta_add(EF_EE_DEV, &[4]).unwrap();
    let host = handshake(&mut c);
    let blob = host_wrap(&host, &[0x33u8; 32], &[0x07; 12]);
    call(&mut c, &blob_request(VENDOR_BACKUP_LOAD, &blob), &mut [0u8; 16]).unwrap();
    assert_eq!(c.fs.read_upto(EF_COUNTER, 8), Some(vec![5, 0, 0, 0]));
    assert_eq!(c.fs.read_upto(EF_LARGEBLOB, 64), Some(vec![0xA0; 40]));
    let mut buf = [0u8; 4];
    assert_eq!(c.fs.meta_find(EF_COUNTER, &mut buf), Some(1));
    assert_eq!(c.fs.meta_find(EF_EE_DEV, &mut buf), None);
    // Where they are missing, they start anew.
    c.fs.force_delete(EF_COUNTER).unwrap();
    let blob = host_wrap(&host, &[0x34u8; 32], &[0x08; 12]);
    call(&mut c, &blob_request(VENDOR_BACKUP_LOAD, &blob), &mut [0u8; 16]).unwrap();
    assert_eq!(c.fs.read_upto(EF_COUNTER, 8), Some(vec![0; 4]));
}

#[test]
fn clearing_the_attestation_spares_other_metadata() {
    let mut c = setup();
    handshake(&mut c);
    c.fs.put(EF_ATT_CHAIN, &[1]).unwrap();
    c.fs.meta_add(EF_ATT_CHAIN, &[1]).unwrap();
    c.fs.meta_add(0x1234, &[2, 2]).unwrap();
    call(&mut c, &plain_request(VENDOR_ATT_CLEAR), &mut [0u8; 16]).unwrap();
    let mut buf = [0u8; 4];
    assert_eq!(c.fs.meta_find(EF_ATT_CHAIN, &mut buf), None);
    assert_eq!(c.fs.meta_find(0x1234, &mut buf), Some(2));
}

#[test]
fn a_point_off_the_curve_is_refused_before_the_message_is_drawn() {
    let refused = |ek: Option<&[u8]>| {
        let mut c = setup();
        let r = call(&mut c, &mse_request(&[5; 32], &[6; 32], ek), &mut [0u8; 1400]);
        assert_eq!(r, Err(CtapError::InvalidParameter));
        assert!(!c.state.mse_active);
        // What is drawn next tells how much was drawn.
        handshake(&mut c).aad
    };
    let (_, ek) = MlKem768::generate_deterministic(&[0x55; 32].into(), &[0x55; 32].into());
    assert_eq!(refused(Some(&ek.as_bytes()[..])), refused(None));
}

#[test]
fn what_moves_no_seed_asks_for_no_touch() {
    let (mut c, host, _seed) = locked_setup();
    let calls = c.presence.source().calls;
    unlock(&mut c, &LOCK_KEY, &host, 0x22).unwrap();
    handshake(&mut c);
    let mut out = [0u8; 4096];
    for sub in [VENDOR_AUDIT_READ, VENDOR_BACKUP_STATE, VENDOR_ATT_STATE] {
        call(&mut c, &plain_request(sub), &mut out).unwrap();
    }
    assert_eq!(c.presence.source().calls, calls);
}

#[test]
fn mse_then_export_roundtrips_seed() {
    export_roundtrip(false);
}

#[test]
fn mse_hybrid_then_export_roundtrips_seed() {
    export_roundtrip(true);
}

#[test]
fn mse_rejects_short_mlkem_ek() {
    rejected_ek(&[0u8; MLKEM768_EK_LEN - 1]);
}

#[test]
fn mse_rejects_unreduced_mlkem_ek() {
    rejected_ek(&[0xFFu8; MLKEM768_EK_LEN]);
}

#[test]
fn backup_state_reports_flags() {
    assert_eq!(state_flags(&mut setup()), (false, true, false, false));
}
