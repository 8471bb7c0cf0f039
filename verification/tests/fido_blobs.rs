//! The large-blob array and the hmac-secret extension.

use chacha20poly1305::aead::{Aead, Payload};
use chacha20poly1305::{ChaCha20Poly1305, KeyInit};
use minicbor::{Decoder, Encoder};
use p256::elliptic_curve::sec1::ToEncodedPoint;
use rs_key::fido::codec::{Codec, CredInput, Credential, Record, Recorded};
use rs_key::fido::consts::{
    largeblob_initial, CTAP_LARGE_BLOBS, EF_LARGEBLOB, MAX_FRAGMENT_LENGTH, MAX_LARGE_BLOB_SIZE,
};
use rs_key::fido::consts::{EF_CRED, EF_RP};
use rs_key::fido::device::Device;
use rs_key::fido::error::{CtapError, CtapResult};
use rs_key::fido::hmacsecret::{eval, parse_bytes, HmacSecretReq};
use rs_key::fido::keyderiv::verify_key;
use rs_key::fido::largeblobs::large_blobs;
use rs_key::fido::pinproto::{authenticate, decrypt, ecdh, encrypt, PinProto};
use rs_key::fido::state::FidoState;
use rs_key::fido::state::{PERM_LBW, PERM_MC};
use rs_key::fido::{Ctx, Presence, UserPresence, Watched};
use rs_key::fido::{Drawn, Rng};
use rs_key::fs::{Fs, RamStorage};
use rs_key::sdk::Confirm;
use sha2::{Digest, Sha256};

struct SeqRng(u64);

impl Rng for SeqRng {
    fn fill(&mut self, buf: &mut [u8]) {
        for b in buf.iter_mut() {
            self.0 = self.0.wrapping_mul(6364136223846793005).wrapping_add(1);
            *b = (self.0 >> 33) as u8;
        }
    }
}

fn sha256(data: &[u8]) -> [u8; 32] {
    Sha256::digest(data).into()
}

#[allow(dead_code)]
fn public_xy(scalar: &[u8; 32]) -> ([u8; 32], [u8; 32]) {
    let pt = p256::SecretKey::from_slice(scalar)
        .unwrap()
        .public_key()
        .to_encoded_point(false);
    ((*pt.x().unwrap()).into(), (*pt.y().unwrap()).into())
}

#[allow(dead_code)]
fn dev() -> Device {
    Device {
        serial_hash: [0xAB; 32],
        serial_id: [1, 2, 3, 4, 5, 6, 7, 8],
        kbase: [0x31; 32],
        kbase_otp: None,
    }
}

#[allow(dead_code)]
fn fs() -> Fs<RamStorage> {
    Fs::new(RamStorage::new())
}

fn key_of(seed: &[u8], label: &[u8]) -> [u8; 32] {
    let mut v = seed.to_vec();
    v.extend_from_slice(label);
    sha256(&v)
}

fn aead_seal(key: &[u8; 32], nonce: &[u8; 12], aad: &[u8], msg: &[u8]) -> Vec<u8> {
    let c = ChaCha20Poly1305::new(key.into());
    let ct = c.encrypt(nonce.into(), Payload { msg, aad }).unwrap();
    let mut v = nonce.to_vec();
    v.extend_from_slice(&ct);
    v
}

fn aead_open(key: &[u8; 32], aad: &[u8], sealed: &[u8]) -> Option<Vec<u8>> {
    if sealed.len() < 28 {
        return None;
    }
    let c = ChaCha20Poly1305::new(key.into());
    c.decrypt((&sealed[..12]).into(), Payload { msg: &sealed[12..], aad })
        .ok()
}

fn put_field(v: &mut Vec<u8>, f: &[u8]) {
    v.extend_from_slice(&(f.len() as u16).to_be_bytes());
    v.extend_from_slice(f);
}

fn get_field(v: &[u8], pos: &mut usize) -> Vec<u8> {
    let n = u16::from_be_bytes([v[*pos], v[*pos + 1]]) as usize;
    let f = v[*pos + 2..*pos + 2 + n].to_vec();
    *pos += 2 + n;
    f
}

/// Credential boxes and names under ChaCha20-Poly1305, keys on P-256 only.
struct TestCodec;

#[allow(dead_code)]
fn recorded() -> Recorded<TestCodec> {
    Recorded::new(TestCodec)
}

impl Codec for TestCodec {
    fn create(
        &mut self,
        seed: &[u8; 32],
        input: &CredInput,
        rp_id_hash: &[u8; 32],
        iv: &[u8; 12],
    ) -> Option<Vec<u8>> {
        let mut v = Vec::new();
        put_field(&mut v, &input.rp_id);
        put_field(&mut v, &input.user_id);
        put_field(&mut v, &input.user_name);
        put_field(&mut v, &input.user_display_name);
        put_field(&mut v, &[input.ext.cred_protect as u8]);
        Some(aead_seal(&key_of(seed, b"box"), iv, rp_id_hash, &v))
    }

    fn load(&mut self, seed: &[u8; 32], cred_box: &[u8], rp_id_hash: &[u8; 32]) -> Option<
        Credential,
    > {
        if let Some(v) = aead_open(&key_of(seed, b"box"), rp_id_hash, cred_box) {
            let mut p = 0;
            let _rp = get_field(&v, &mut p);
            return Some(Credential {
                user_id: get_field(&v, &mut p),
                user_name: get_field(&v, &mut p),
                user_display_name: get_field(&v, &mut p),
                cred_protect: get_field(&v, &mut p)[0] as u64,
                u2f: false,
            });
        }
        let handle: [u8; 64] = cred_box.try_into().ok()?;
        verify_key(seed, rp_id_hash, &handle)?;
        Some(Credential {
            user_id: Vec::new(),
            user_name: Vec::new(),
            user_display_name: Vec::new(),
            cred_protect: 0,
            u2f: true,
        })
    }

    fn is_resident(&self, id: &[u8]) -> bool {
        id.starts_with(b"RESIDENT01")
    }

    fn resident_id(&mut self, cred_box: &[u8]) -> [u8; 42] {
        let mut id = [0u8; 42];
        id[..10].copy_from_slice(b"RESIDENT01");
        id[10..].copy_from_slice(&sha256(cred_box));
        id
    }

    fn store(
        &mut self,
        seed: &[u8; 32],
        present: &Vec<Record>,
        cred_box: &[u8],
        rp_id_hash: &[u8; 32],
        rp_id: &[u8],
        _user_id: &[u8],
    ) -> Option<Vec<Record>> {
        let used = |fid: u16| present.iter().any(|r| r.fid == fid);
        let slot = (EF_CRED..EF_CRED + 256).find(|f| !used(*f))?;
        let mut data = rp_id_hash.to_vec();
        data.extend_from_slice(&self.resident_id(cred_box));
        data.extend_from_slice(cred_box);
        let rp = present
            .iter()
            .find(|r| r.fid >= EF_RP && r.fid < EF_RP + 256 && r.data[1..33] == rp_id_hash[..]);
        let rp_record = match rp {
            Some(r) => {
                let mut d = r.data.clone();
                d[0] += 1;
                Record { fid: r.fid, data: d }
            }
            None => {
                let fid = (EF_RP..EF_RP + 256).find(|f| !used(*f))?;
                let mut d = vec![1];
                d.extend_from_slice(rp_id_hash);
                d.extend_from_slice(&aead_seal(
                    &key_of(seed, b"rp"),
                    &[7; 12],
                    rp_id_hash,
                    rp_id,
                ));
                Record { fid, data: d }
            }
        };
        Some(vec![Record { fid: slot, data }, rp_record])
    }

    fn hmac_key(&mut self, seed: &[u8; 32], cred_id: &[u8]) -> [u8; 64] {
        let mut k = [0u8; 64];
        k[..32].copy_from_slice(&key_of(&key_of(seed, cred_id), b"hs"));
        k[32..].copy_from_slice(&key_of(&key_of(seed, cred_id), b"hs-uv"));
        k
    }

    fn large_blob_key(&mut self, seed: &[u8; 32], cred_id: &[u8]) -> [u8; 32] {
        key_of(&key_of(seed, cred_id), b"lbk")
    }

    fn cose_public(&mut self, curve: u8, raw: &[u8; 66]) -> Option<Vec<u8>> {
        if curve != 1 {
            return None;
        }
        let scalar: [u8; 32] = raw[..32].try_into().ok()?;
        p256::SecretKey::from_slice(&scalar).ok()?;
        let (x, y) = public_xy(&scalar);
        let mut v = vec![0xA5, 0x01, 0x02, 0x03, 0x26, 0x20, 0x01, 0x21, 0x58, 0x20];
        v.extend_from_slice(&x);
        v.extend_from_slice(&[0x22, 0x58, 0x20]);
        v.extend_from_slice(&y);
        Some(v)
    }

    fn sign(&mut self, _curve: u8, raw: &[u8; 66], msg: &[u8]) -> (i64, Vec<u8>) {
        let key = p256::ecdsa::SigningKey::from_slice(&raw[..32]).unwrap();
        let sig: p256::ecdsa::Signature = p256::ecdsa::signature::Signer::sign(&key, msg);
        (-7, sig.to_der().as_bytes().to_vec())
    }

    fn attestation_cert(&mut self, key: &[u8; 32], serial: &[u8; 16]) -> Option<Vec<u8>> {
        let (x, y) = public_xy(key);
        let mut v = vec![0x30, 0x82, 0x01, 0x00];
        v.extend_from_slice(serial);
        v.extend_from_slice(&x);
        v.extend_from_slice(&y);
        v.resize(4 + 256, 0);
        Some(v)
    }

    fn open_rp_id(&mut self, seed: &[u8; 32], rp_id_hash: &[u8; 32], sealed: &[u8]) -> Option<
        Vec<u8>,
    > {
        aead_open(&key_of(seed, b"rp"), rp_id_hash, sealed)
    }

    fn open_nick(&mut self, seed: &[u8; 32], rp_id_hash: &[u8; 32], sealed: &[u8]) -> Option<
        Vec<u8>,
    > {
        aead_open(&key_of(seed, b"nick"), rp_id_hash, sealed)
    }

    fn seal_nick(&mut self, seed: &[u8; 32], rp_id_hash: &[u8; 32], nick: &[u8]) -> Option<
        Vec<u8>,
    > {
        Some(aead_seal(&key_of(seed, b"nick"), &[9; 12], rp_id_hash, nick))
    }

    fn strip_pin(&mut self, otp: bool, pin_hash: &[u8], wrapped: &[u8]) -> Option<[u8; 32]> {
        let inner = aead_open(&key_of(pin_hash, &[otp as u8]), b"pin", wrapped)?;
        inner.try_into().ok()
    }
}

/// A presence source with a fixed outcome that counts its requests.
struct Fixed {
    verdict: Presence,
    calls: usize,
}

#[allow(dead_code)]
fn fixed(verdict: Presence) -> Fixed {
    Fixed { verdict, calls: 0 }
}

impl UserPresence for Fixed {
    fn request(&mut self, _confirm: Confirm<'_>) -> Presence {
        self.calls += 1;
        self.verdict
    }
}

type TestCtx = Ctx<RamStorage, SeqRng, Fixed>;

#[allow(dead_code)]
fn ctx_with(fs: Fs<RamStorage>, state: FidoState, verdict: Presence) -> TestCtx {
    Ctx { dev: dev(), fs, rng: Drawn::new(SeqRng(1)), state, now_ms: 12345, presence: Watched::new(fixed(verdict)) }
}

#[allow(dead_code)]
fn ctx() -> TestCtx {
    ctx_with(fs(), FidoState::new(), Presence::Confirmed)
}

const TOKEN: [u8; 32] = [0x99; 32];

fn armed(perms: u8) -> TestCtx {
    let mut f = fs();
    f.put(EF_LARGEBLOB, &largeblob_initial()).unwrap();
    let mut s = FidoState::new();
    s.paut.token = TOKEN;
    s.paut.permissions = perms;
    s.begin_using_token(false);
    ctx_with(f, s, Presence::Confirmed)
}

fn run(ctx: &mut TestCtx, req: &[u8], out: &mut [u8]) -> CtapResult {
    large_blobs(ctx, req, out)
}

// A valid serialized array: the body and the left half of its digest.
fn valid_blob(body: &[u8]) -> Vec<u8> {
    let mut v = body.to_vec();
    v.extend_from_slice(&sha256(body)[..16]);
    v
}

fn get_request(get: u64, offset: u64) -> Vec<u8> {
    let mut e = Encoder::new(Vec::new());
    e.map(2).unwrap();
    e.u8(0x01).unwrap().u64(get).unwrap();
    e.u8(0x03).unwrap().u64(offset).unwrap();
    e.into_writer()
}

fn set_request(offset: u64, length: Option<u64>, set: &[u8], token: &[u8; 32]) -> Vec<u8> {
    let mut vd = vec![0xff; 32];
    vd.push(CTAP_LARGE_BLOBS);
    vd.push(0);
    vd.extend_from_slice(&(offset as u32).to_le_bytes());
    vd.extend_from_slice(&sha256(set));
    let mac = authenticate(PinProto::Two, token, &vd);
    let mut e = Encoder::new(Vec::new());
    e.map(4 + u64::from(length.is_some())).unwrap();
    e.u8(0x02).unwrap().bytes(set).unwrap();
    e.u8(0x03).unwrap().u64(offset).unwrap();
    if let Some(l) = length {
        e.u8(0x04).unwrap().u64(l).unwrap();
    }
    e.u8(0x05).unwrap().bytes(&mac).unwrap();
    e.u8(0x06).unwrap().u8(2).unwrap();
    e.into_writer()
}

fn get_bytes(out: &[u8], n: usize) -> Vec<u8> {
    let mut d = Decoder::new(&out[..n]);
    assert_eq!(d.map().unwrap().unwrap(), 1);
    assert_eq!(d.u8().unwrap(), 0x01);
    d.bytes().unwrap().to_vec()
}

fn stored(ctx: &mut TestCtx) -> Vec<u8> {
    let mut buf = [0u8; 2048];
    let n = ctx.fs.read(EF_LARGEBLOB, &mut buf).unwrap();
    buf[..n].to_vec()
}

// ---- large blobs ----
#[test]
fn get_default_blob() {
    let mut c = armed(0);
    let mut out = [0u8; 128];
    // A fresh device returns the 17-byte default array.
    let n = run(&mut c, &get_request(1000, 0), &mut out).unwrap();
    assert_eq!(get_bytes(&out, n), largeblob_initial().to_vec());
    // Its tail is the digest of an empty CBOR array.
    assert_eq!(largeblob_initial()[1..], sha256(&[0x80])[..16]);
}

#[test]
fn get_zero_bytes_returns_empty_fragment() {
    let mut c = armed(0);
    let mut out = [0u8; 64];
    let n = run(&mut c, &get_request(0, 0), &mut out).unwrap();
    assert!(get_bytes(&out, n).is_empty());
}

#[test]
fn get_at_offset_truncates() {
    let mut c = armed(0);
    let mut out = [0u8; 128];
    // Read 5 bytes from offset 2.
    let n = run(&mut c, &get_request(5, 2), &mut out).unwrap();
    assert_eq!(get_bytes(&out, n), largeblob_initial()[2..7].to_vec());
    // Read past the end clamps to what is there.
    let n = run(&mut c, &get_request(1000, 15), &mut out).unwrap();
    assert_eq!(get_bytes(&out, n), largeblob_initial()[15..].to_vec());
}

#[test]
fn get_offset_beyond_size_rejected() {
    let mut c = armed(0);
    let mut out = [0u8; 64];
    assert_eq!(
        run(&mut c, &get_request(10, 100), &mut out),
        Err(CtapError::InvalidParameter)
    );
}

#[test]
fn set_single_fragment_roundtrips() {
    let mut c = armed(PERM_LBW);
    let mut out = [0u8; 64];
    let blob = valid_blob(b"a serialized large-blob array payload");
    let req = set_request(0, Some(blob.len() as u64), &blob, &TOKEN);
    assert_eq!(run(&mut c, &req, &mut out), Ok(0));
    // Persisted verbatim.
    assert_eq!(stored(&mut c), blob);
    // And read back.
    let n = run(&mut c, &get_request(1000, 0), &mut out).unwrap();
    assert_eq!(get_bytes(&out, n), blob);
}

#[test]
fn set_multi_fragment_assembles() {
    let mut c = armed(PERM_LBW);
    let mut out = [0u8; 64];
    let blob = valid_blob(&[0xCD; 60]); // 76 bytes total
    let split = 50;
    let r1 = set_request(0, Some(blob.len() as u64), &blob[..split], &TOKEN);
    assert_eq!(run(&mut c, &r1, &mut out), Ok(0));
    // Not committed yet: flash still holds the previous value.
    assert_eq!(c.fs.size(EF_LARGEBLOB), Some(largeblob_initial().len()));
    let r2 = set_request(split as u64, None, &blob[split..], &TOKEN);
    assert_eq!(run(&mut c, &r2, &mut out), Ok(0));
    assert_eq!(stored(&mut c), blob);
}

#[test]
fn set_wrong_sequence_rejected() {
    let mut c = armed(PERM_LBW);
    let mut out = [0u8; 64];
    let blob = valid_blob(&[0x01; 60]);
    let r1 = set_request(0, Some(blob.len() as u64), &blob[..50], &TOKEN);
    run(&mut c, &r1, &mut out).unwrap();
    // Resume at the wrong offset.
    let bad = set_request(99, None, &blob[50..], &TOKEN);
    assert_eq!(run(&mut c, &bad, &mut out), Err(CtapError::InvalidSeq));
}

#[test]
fn set_integrity_failure_rejected() {
    let mut c = armed(PERM_LBW);
    let mut out = [0u8; 64];
    let mut blob = valid_blob(&[0x22; 40]);
    let last = blob.len() - 1;
    blob[last] ^= 0xFF; // corrupt the trailing digest
    let req = set_request(0, Some(blob.len() as u64), &blob, &TOKEN);
    assert_eq!(run(&mut c, &req, &mut out), Err(CtapError::IntegrityFailure));
    assert_eq!(stored(&mut c), largeblob_initial().to_vec());
}

#[test]
fn set_bad_mac_rejected() {
    let mut c = armed(PERM_LBW);
    let mut out = [0u8; 64];
    let blob = valid_blob(&[0x33; 30]);
    // MAC under the wrong token.
    let req = set_request(0, Some(blob.len() as u64), &blob, &[0x11; 32]);
    assert_eq!(run(&mut c, &req, &mut out), Err(CtapError::PinAuthInvalid));
}

#[test]
fn set_without_lbw_permission_rejected() {
    // A correctly authenticated request, but the token lacks the permission.
    let mut c = armed(PERM_MC);
    let mut out = [0u8; 64];
    let blob = valid_blob(&[0x44; 30]);
    let req = set_request(0, Some(blob.len() as u64), &blob, &TOKEN);
    assert_eq!(run(&mut c, &req, &mut out), Err(CtapError::PinAuthInvalid));
}

#[test]
fn set_length_bounds_enforced() {
    let mut c = armed(PERM_LBW);
    let mut out = [0u8; 64];
    let req = set_request(0, Some(10), &[0u8; 10], &TOKEN);
    assert_eq!(run(&mut c, &req, &mut out), Err(CtapError::InvalidParameter));
    let req = set_request(0, Some(MAX_LARGE_BLOB_SIZE as u64 + 1), &[0u8; 10], &TOKEN);
    assert_eq!(run(&mut c, &req, &mut out), Err(CtapError::LargeBlobStorageFull));
    // A fragment that is too long for a message.
    let long = vec![0u8; MAX_FRAGMENT_LENGTH + 1];
    let req = set_request(0, Some(2048), &long, &TOKEN);
    assert_eq!(run(&mut c, &req, &mut out), Err(CtapError::InvalidLength));
}

#[test]
fn set_past_the_announced_length_rejected() {
    let mut c = armed(PERM_LBW);
    let mut out = [0u8; 64];
    let req = set_request(0, Some(20), &[0u8; 21], &TOKEN);
    assert_eq!(run(&mut c, &req, &mut out), Err(CtapError::InvalidParameter));
}

#[test]
fn set_needs_param_and_protocol() {
    let mut c = armed(PERM_LBW);
    let mut out = [0u8; 64];
    // {2: h'00', 3: 0, 4: 17}
    let req = vec![0xA3, 0x02, 0x41, 0x00, 0x03, 0x00, 0x04, 0x11];
    assert_eq!(run(&mut c, &req, &mut out), Err(CtapError::PuatRequired));
    // {2: h'00', 3: 0, 4: 17, 5: h'00'}
    let req = vec![0xA4, 0x02, 0x41, 0x00, 0x03, 0x00, 0x04, 0x11, 0x05, 0x41, 0x00];
    assert_eq!(run(&mut c, &req, &mut out), Err(CtapError::MissingParameter));
    // ... with protocol 3
    let req = vec![
        0xA5, 0x02, 0x41, 0x00, 0x03, 0x00, 0x04, 0x11, 0x05, 0x41, 0x00, 0x06, 0x03,
    ];
    assert_eq!(run(&mut c, &req, &mut out), Err(CtapError::InvalidParameter));
}

#[test]
fn missing_offset_rejected() {
    let mut c = armed(PERM_LBW);
    let mut out = [0u8; 64];
    // {0x01: 100}: get without offset.
    let req = vec![0xA1, 0x01, 0x18, 100];
    assert_eq!(run(&mut c, &req, &mut out), Err(CtapError::InvalidParameter));
}

#[test]
fn neither_get_nor_set_rejected() {
    let mut c = armed(PERM_LBW);
    let mut out = [0u8; 64];
    // {0x03: 0}: offset present, but no get and no set.
    let req = vec![0xA1, 0x03, 0x00];
    assert_eq!(run(&mut c, &req, &mut out), Err(CtapError::InvalidParameter));
}

#[test]
fn both_get_and_set_rejected() {
    let mut c = armed(PERM_LBW);
    let mut out = [0u8; 64];
    // {0x01: 10, 0x02: h'00', 0x03: 0}
    let req = vec![0xA3, 0x01, 0x0A, 0x02, 0x41, 0x00, 0x03, 0x00];
    assert_eq!(run(&mut c, &req, &mut out), Err(CtapError::InvalidParameter));
}

#[test]
fn max_u64_key_rejected_not_overflow() {
    let mut c = armed(PERM_LBW);
    let mut out = [0u8; 64];
    // One entry with the key 0xffff_ffff_ffff_ffff.
    let req = vec![0xA1, 0x1B, 0xFF, 0xFF, 0xFF, 0xFF, 0xFF, 0xFF, 0xFF, 0xFF, 0xFF];
    assert_eq!(run(&mut c, &req, &mut out), Err(CtapError::InvalidCbor));
}

#[test]
fn wrong_cbor_types_are_told_apart() {
    let mut c = armed(PERM_LBW);
    let mut out = [0u8; 64];
    // {0x01: "a"}
    assert_eq!(
        run(&mut c, &[0xA1, 0x01, 0x61, 0x61], &mut out),
        Err(CtapError::CborUnexpectedType)
    );
    assert_eq!(run(&mut c, &[], &mut out), Err(CtapError::InvalidCbor));
}

// ---- hmac-secret ----
const SEED: [u8; 32] = [0x77; 32];
const CRED_ID: [u8; 64] = [0x5A; 64];

fn scalar(b: u8) -> [u8; 32] {
    let mut s = [b; 32];
    s[0] = 0x01;
    s
}

fn hmac_sha256(key: &[u8], msg: &[u8]) -> Vec<u8> {
    authenticate(PinProto::Two, key, msg)
}

// What a platform sends: encrypted salts, their tag, and the shared secret.
fn platform(
    proto: PinProto,
    plat: &[u8; 32],
    ax: &[u8; 32],
    ay: &[u8; 32],
    salt: &[u8],
) -> (Vec<u8>, Vec<u8>, Vec<u8>) {
    let shared = ecdh(proto, plat, ax, ay).unwrap();
    let enc = encrypt(proto, &shared, &[0x33; 16], salt);
    let auth = authenticate(proto, &shared, &enc);
    (enc, auth, shared)
}

fn roundtrip(proto: PinProto, two_salts: bool) {
    let auth_scalar = scalar(0x11);
    let plat_scalar = scalar(0x22);
    let (ax, ay) = public_xy(&auth_scalar);
    let (px, py) = public_xy(&plat_scalar);

    let salt64 = [0xA1u8; 64];
    let salt: &[u8] = if two_salts { &salt64 } else { &salt64[..32] };
    let (salt_enc, salt_auth, shared) = platform(proto, &plat_scalar, &ax, &ay, salt);

    let req = HmacSecretReq {
        peer_x: px,
        peer_y: py,
        salt_enc: &salt_enc,
        salt_auth: &salt_auth,
        proto: if proto == PinProto::One { 1 } else { 2 },
        present: true,
    };
    let mut rng = Drawn::new(SeqRng(1));
    let out = eval(&req, &auth_scalar, &SEED, &mut recorded(), &CRED_ID, false, &mut rng).unwrap();
    assert_eq!(out.len(), salt_enc.len());

    // The platform decrypts the output and checks it against its own HMAC.
    let dec = decrypt(proto, &shared, &out).unwrap();
    let cr = TestCodec.hmac_key(&SEED, &CRED_ID);
    assert_eq!(&dec[..32], &hmac_sha256(&cr[..32], &salt[..32])[..]);
    if two_salts {
        assert_eq!(dec.len(), 64);
        assert_eq!(&dec[32..64], &hmac_sha256(&cr[..32], &salt[32..64])[..]);
    } else {
        assert_eq!(dec.len(), 32);
    }
}

#[test]
fn hmac_secret_roundtrip() {
    for proto in [PinProto::One, PinProto::Two] {
        roundtrip(proto, false);
        roundtrip(proto, true);
    }
}

#[test]
fn uv_half_differs_from_non_uv() {
    let auth_scalar = scalar(0x11);
    let plat_scalar = scalar(0x22);
    let (ax, ay) = public_xy(&auth_scalar);
    let (px, py) = public_xy(&plat_scalar);
    let salt = [0xA1u8; 32];
    let (salt_enc, salt_auth, shared) = platform(PinProto::Two, &plat_scalar, &ax, &ay, &salt);
    let req = HmacSecretReq {
        peer_x: px,
        peer_y: py,
        salt_enc: &salt_enc,
        salt_auth: &salt_auth,
        proto: 2,
        present: true,
    };
    let mut rng = Drawn::new(SeqRng(1));
    let mut decrypt_out = |uv: bool| {
        let out = eval(&req, &auth_scalar, &SEED, &mut recorded(), &CRED_ID, uv, &mut rng).unwrap();
        decrypt(PinProto::Two, &shared, &out).unwrap()
    };
    let cr = TestCodec.hmac_key(&SEED, &CRED_ID);
    let without = decrypt_out(false);
    let with = decrypt_out(true);
    assert_eq!(&without[..32], &hmac_sha256(&cr[..32], &salt)[..]);
    assert_eq!(&with[..32], &hmac_sha256(&cr[32..], &salt)[..]);
    assert_ne!(&without[..32], &with[..32]);
}

#[test]
fn bad_salt_auth_is_extension_first() {
    let auth_scalar = scalar(0x11);
    let plat_scalar = scalar(0x22);
    let (ax, ay) = public_xy(&auth_scalar);
    let (px, py) = public_xy(&plat_scalar);
    let salt = [0xA1u8; 32];
    let (salt_enc, mut salt_auth, _) = platform(PinProto::Two, &plat_scalar, &ax, &ay, &salt);
    salt_auth[0] ^= 0xFF; // corrupt the MAC
    let req = HmacSecretReq {
        peer_x: px,
        peer_y: py,
        salt_enc: &salt_enc,
        salt_auth: &salt_auth,
        proto: 2,
        present: true,
    };
    let mut rng = Drawn::new(SeqRng(1));
    assert_eq!(
        eval(&req, &auth_scalar, &SEED, &mut recorded(), &CRED_ID, false, &mut rng),
        Err(CtapError::ExtensionFirst)
    );
}

#[test]
fn bad_salt_length_rejected() {
    let auth_scalar = scalar(0x11);
    let req = HmacSecretReq {
        salt_enc: &[0u8; 20], // neither 32 nor 64 bytes beside the vector
        salt_auth: &[0u8; 32],
        proto: 2,
        present: true,
        ..Default::default()
    };
    let mut rng = Drawn::new(SeqRng(1));
    assert_eq!(
        eval(&req, &auth_scalar, &SEED, &mut recorded(), &CRED_ID, false, &mut rng),
        Err(CtapError::InvalidLength)
    );
}

#[test]
fn unknown_protocol_rejected() {
    let req = HmacSecretReq { proto: 9, present: true, ..Default::default() };
    let mut rng = Drawn::new(SeqRng(1));
    assert_eq!(
        eval(&req, &scalar(0x11), &SEED, &mut recorded(), &CRED_ID, false, &mut rng),
        Err(CtapError::InvalidParameter)
    );
}

#[test]
fn extension_request_parses() {
    let mut e = Encoder::new(Vec::new());
    e.map(4).unwrap();
    e.u8(1).unwrap().map(5).unwrap();
    e.u8(1).unwrap().u8(2).unwrap();
    e.u8(3).unwrap().i8(-25).unwrap();
    e.i8(-1).unwrap().u8(1).unwrap();
    e.i8(-2).unwrap().bytes(&[0x21; 31]).unwrap();
    e.i8(-3).unwrap().bytes(&[0x22; 32]).unwrap();
    e.u8(2).unwrap().bytes(&[0x23; 32]).unwrap();
    e.u8(3).unwrap().bytes(&[0x24; 16]).unwrap();
    e.u8(4).unwrap().u8(2).unwrap();
    let data = e.into_writer();
    let req = match parse_bytes(&data) {
        Ok(r) => r,
        Err(_) => panic!("the request parses"),
    };
    assert!(req.present);
    // A short coordinate is right-aligned.
    assert_eq!(req.peer_x[0], 0);
    assert_eq!(&req.peer_x[1..], &[0x21; 31]);
    assert_eq!(req.peer_y, [0x22; 32]);
    assert_eq!(req.salt_enc, &[0x23; 32]);
    assert_eq!(req.salt_auth, &[0x24; 16]);
    assert_eq!(req.proto, 2);
    assert!(parse_bytes(&[0xA1]).is_err());
}
