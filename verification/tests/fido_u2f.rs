//! U2F registration and authentication.

use chacha20poly1305::aead::{Aead, Payload};
use chacha20poly1305::{ChaCha20Poly1305, KeyInit};
use p256::EncodedPoint;
use p256::ecdsa::signature::Verifier;
use p256::ecdsa::{Signature, VerifyingKey};
use p256::elliptic_curve::sec1::ToEncodedPoint;
use rs_key::fido::codec::{Codec, CredInput, Credential, Record, Recorded};
use rs_key::fido::consts::{
    CTAP_AUTHENTICATE, CTAP_REGISTER, CTAP_VERSION, EF_ALWAYS_UV, EF_ATT_CHAIN,
    U2F_AUTH_CHECK_ONLY, U2F_AUTH_ENFORCE, U2F_AUTH_FLAG_TUP, U2F_REGISTER_ID,
};
use rs_key::fido::consts::{EF_CRED, EF_RP};
use rs_key::fido::device::Device;
use rs_key::fido::keyderiv::verify_key;
use rs_key::fido::seed::{ensure_seed, load_keydev, store_att_key};
use rs_key::fido::state::FidoState;
use rs_key::fido::u2f::{process_u2f, KEY_HANDLE_LEN};
use rs_key::fido::{Ctx, Presence, UserPresence, Watched};
use rs_key::fido::{Drawn, Rng};
use rs_key::fs::{Fs, RamStorage};
use rs_key::sdk::Confirm;
use rs_key::sdk::{Apdu, Sw};
use sha2::{Digest, Sha256};

struct SeqRng(u64);

impl Rng for SeqRng {
    fn fill(&mut self, buf: &mut [u8]) {
        for b in buf.iter_mut() {
            self.0 = self.0.wrapping_mul(6364136223846793005).wrapping_add(1);
            *b = (self.0 >> 33) as u8;
        }
    }
}

fn sha256(data: &[u8]) -> [u8; 32] {
    Sha256::digest(data).into()
}

#[allow(dead_code)]
fn public_xy(scalar: &[u8; 32]) -> ([u8; 32], [u8; 32]) {
    let pt = p256::SecretKey::from_slice(scalar)
        .unwrap()
        .public_key()
        .to_encoded_point(false);
    ((*pt.x().unwrap()).into(), (*pt.y().unwrap()).into())
}

#[allow(dead_code)]
fn dev() -> Device {
    Device {
        serial_hash: [0xAB; 32],
        serial_id: [1, 2, 3, 4, 5, 6, 7, 8],
        kbase: [0x31; 32],
        kbase_otp: None,
    }
}

#[allow(dead_code)]
fn fs() -> Fs<RamStorage> {
    Fs::new(RamStorage::new())
}

fn key_of(seed: &[u8], label: &[u8]) -> [u8; 32] {
    let mut v = seed.to_vec();
    v.extend_from_slice(label);
    sha256(&v)
}

fn aead_seal(key: &[u8; 32], nonce: &[u8; 12], aad: &[u8], msg: &[u8]) -> Vec<u8> {
    let c = ChaCha20Poly1305::new(key.into());
    let ct = c.encrypt(nonce.into(), Payload { msg, aad }).unwrap();
    let mut v = nonce.to_vec();
    v.extend_from_slice(&ct);
    v
}

fn aead_open(key: &[u8; 32], aad: &[u8], sealed: &[u8]) -> Option<Vec<u8>> {
    if sealed.len() < 28 {
        return None;
    }
    let c = ChaCha20Poly1305::new(key.into());
    c.decrypt((&sealed[..12]).into(), Payload { msg: &sealed[12..], aad })
        .ok()
}

fn put_field(v: &mut Vec<u8>, f: &[u8]) {
    v.extend_from_slice(&(f.len() as u16).to_be_bytes());
    v.extend_from_slice(f);
}

fn get_field(v: &[u8], pos: &mut usize) -> Vec<u8> {
    let n = u16::from_be_bytes([v[*pos], v[*pos + 1]]) as usize;
    let f = v[*pos + 2..*pos + 2 + n].to_vec();
    *pos += 2 + n;
    f
}

/// Credential boxes and names under ChaCha20-Poly1305, keys on P-256 only.
struct TestCodec;

#[allow(dead_code)]
fn recorded() -> Recorded<TestCodec> {
    Recorded::new(TestCodec)
}

impl Codec for TestCodec {
    fn create(
        &mut self,
        seed: &[u8; 32],
        input: &CredInput,
        rp_id_hash: &[u8; 32],
        iv: &[u8; 12],
    ) -> Option<Vec<u8>> {
        let mut v = Vec::new();
        put_field(&mut v, &input.rp_id);
        put_field(&mut v, &input.user_id);
        put_field(&mut v, &input.user_name);
        put_field(&mut v, &input.user_display_name);
        put_field(&mut v, &[input.ext.cred_protect as u8]);
        Some(aead_seal(&key_of(seed, b"box"), iv, rp_id_hash, &v))
    }

    fn load(&mut self, seed: &[u8; 32], cred_box: &[u8], rp_id_hash: &[u8; 32]) -> Option<
        Credential,
    > {
        if let Some(v) = aead_open(&key_of(seed, b"box"), rp_id_hash, cred_box) {
            let mut p = 0;
            let _rp = get_field(&v, &mut p);
            return Some(Credential {
                user_id: get_field(&v, &mut p),
                user_name: get_field(&v, &mut p),
                user_display_name: get_field(&v, &mut p),
                cred_protect: get_field(&v, &mut p)[0] as u64,
                u2f: false,
            });
        }
        let handle: [u8; 64] = cred_box.try_into().ok()?;
        verify_key(seed, rp_id_hash, &handle)?;
        Some(Credential {
            user_id: Vec::new(),
            user_name: Vec::new(),
            user_display_name: Vec::new(),
            cred_protect: 0,
            u2f: true,
        })
    }

    fn is_resident(&self, id: &[u8]) -> bool {
        id.starts_with(b"RESIDENT01")
    }

    fn resident_id(&mut self, cred_box: &[u8]) -> [u8; 42] {
        let mut id = [0u8; 42];
        id[..10].copy_from_slice(b"RESIDENT01");
        id[10..].copy_from_slice(&sha256(cred_box));
        id
    }

    fn store(
        &mut self,
        seed: &[u8; 32],
        present: &Vec<Record>,
        cred_box: &[u8],
        rp_id_hash: &[u8; 32],
        rp_id: &[u8],
        _user_id: &[u8],
    ) -> Option<Vec<Record>> {
        let used = |fid: u16| present.iter().any(|r| r.fid == fid);
        let slot = (EF_CRED..EF_CRED + 256).find(|f| !used(*f))?;
        let mut data = rp_id_hash.to_vec();
        data.extend_from_slice(&self.resident_id(cred_box));
        data.extend_from_slice(cred_box);
        let rp = present
            .iter()
            .find(|r| r.fid >= EF_RP && r.fid < EF_RP + 256 && r.data[1..33] == rp_id_hash[..]);
        let rp_record = match rp {
            Some(r) => {
                let mut d = r.data.clone();
                d[0] += 1;
                Record { fid: r.fid, data: d }
            }
            None => {
                let fid = (EF_RP..EF_RP + 256).find(|f| !used(*f))?;
                let mut d = vec![1];
                d.extend_from_slice(rp_id_hash);
                d.extend_from_slice(&aead_seal(
                    &key_of(seed, b"rp"),
                    &[7; 12],
                    rp_id_hash,
                    rp_id,
                ));
                Record { fid, data: d }
            }
        };
        Some(vec![Record { fid: slot, data }, rp_record])
    }

    fn hmac_key(&mut self, seed: &[u8; 32], cred_id: &[u8]) -> [u8; 64] {
        let mut k = [0u8; 64];
        k[..32].copy_from_slice(&key_of(&key_of(seed, cred_id), b"hs"));
        k[32..].copy_from_slice(&key_of(&key_of(seed, cred_id), b"hs-uv"));
        k
    }

    fn large_blob_key(&mut self, seed: &[u8; 32], cred_id: &[u8]) -> [u8; 32] {
        key_of(&key_of(seed, cred_id), b"lbk")
    }

    fn cose_public(&mut self, curve: u8, raw: &[u8; 66]) -> Option<Vec<u8>> {
        if curve != 1 {
            return None;
        }
        let scalar: [u8; 32] = raw[..32].try_into().ok()?;
        p256::SecretKey::from_slice(&scalar).ok()?;
        let (x, y) = public_xy(&scalar);
        let mut v = vec![0xA5, 0x01, 0x02, 0x03, 0x26, 0x20, 0x01, 0x21, 0x58, 0x20];
        v.extend_from_slice(&x);
        v.extend_from_slice(&[0x22, 0x58, 0x20]);
        v.extend_from_slice(&y);
        Some(v)
    }

    fn sign(&mut self, _curve: u8, raw: &[u8; 66], msg: &[u8]) -> (i64, Vec<u8>) {
        let key = p256::ecdsa::SigningKey::from_slice(&raw[..32]).unwrap();
        let sig: p256::ecdsa::Signature = p256::ecdsa::signature::Signer::sign(&key, msg);
        (-7, sig.to_der().as_bytes().to_vec())
    }

    fn attestation_cert(&mut self, key: &[u8; 32], serial: &[u8; 16]) -> Option<Vec<u8>> {
        let (x, y) = public_xy(key);
        let mut v = vec![0x30, 0x82, 0x01, 0x00];
        v.extend_from_slice(serial);
        v.extend_from_slice(&x);
        v.extend_from_slice(&y);
        v.resize(4 + 256, 0);
        Some(v)
    }

    fn open_rp_id(&mut self, seed: &[u8; 32], rp_id_hash: &[u8; 32], sealed: &[u8]) -> Option<
        Vec<u8>,
    > {
        aead_open(&key_of(seed, b"rp"), rp_id_hash, sealed)
    }

    fn open_nick(&mut self, seed: &[u8; 32], rp_id_hash: &[u8; 32], sealed: &[u8]) -> Option<
        Vec<u8>,
    > {
        aead_open(&key_of(seed, b"nick"), rp_id_hash, sealed)
    }

    fn seal_nick(&mut self, seed: &[u8; 32], rp_id_hash: &[u8; 32], nick: &[u8]) -> Option<
        Vec<u8>,
    > {
        Some(aead_seal(&key_of(seed, b"nick"), &[9; 12], rp_id_hash, nick))
    }

    fn strip_pin(&mut self, otp: bool, pin_hash: &[u8], wrapped: &[u8]) -> Option<[u8; 32]> {
        let inner = aead_open(&key_of(pin_hash, &[otp as u8]), b"pin", wrapped)?;
        inner.try_into().ok()
    }
}

/// A presence source with a fixed outcome that counts its requests.
struct Fixed {
    verdict: Presence,
    calls: usize,
}

#[allow(dead_code)]
fn fixed(verdict: Presence) -> Fixed {
    Fixed { verdict, calls: 0 }
}

impl UserPresence for Fixed {
    fn request(&mut self, _confirm: Confirm<'_>) -> Presence {
        self.calls += 1;
        self.verdict
    }
}

type TestCtx = Ctx<RamStorage, SeqRng, Fixed>;

#[allow(dead_code)]
fn ctx_with(fs: Fs<RamStorage>, state: FidoState, verdict: Presence) -> TestCtx {
    Ctx { dev: dev(), fs, rng: Drawn::new(SeqRng(1)), state, now_ms: 12345, presence: Watched::new(fixed(verdict)) }
}

#[allow(dead_code)]
fn ctx() -> TestCtx {
    ctx_with(fs(), FidoState::new(), Presence::Confirmed)
}

const APP: [u8; 32] = [0x5A; 32];
const CHAL: [u8; 32] = [0xC4; 32];

fn apdu(ins: u8, p1: u8, data: &[u8]) -> Apdu {
    Apdu { cla: 0, ins, p1, p2: 0, data: data.to_vec() }
}

fn vkey(x: &[u8], y: &[u8]) -> VerifyingKey {
    let pt = EncodedPoint::from_affine_coordinates(x.into(), y.into(), false);
    VerifyingKey::from_encoded_point(&pt).unwrap()
}

fn seeded(rng: u64, verdict: Presence) -> TestCtx {
    let mut f = fs();
    let mut r = Drawn::new(SeqRng(rng));
    ensure_seed(&dev(), &mut f, &mut r, &mut recorded()).unwrap();
    let mut c = ctx_with(f, FidoState::new(), verdict);
    c.rng = r;
    c
}

// A register request: challenge, then application.
fn register_data() -> Vec<u8> {
    let mut data = CHAL.to_vec();
    data.extend_from_slice(&APP);
    data
}

fn auth_data(handle: &[u8]) -> Vec<u8> {
    let mut ad = register_data();
    ad.push(handle.len() as u8);
    ad.extend_from_slice(handle);
    ad
}

fn register_base(handle: &[u8], x: &[u8], y: &[u8]) -> Vec<u8> {
    let mut base = vec![0x00u8];
    base.extend_from_slice(&APP);
    base.extend_from_slice(&CHAL);
    base.extend_from_slice(handle);
    base.push(0x04);
    base.extend_from_slice(x);
    base.extend_from_slice(y);
    base
}

#[test]
fn register_without_touch_is_refused() {
    let mut c = seeded(1, Presence::Timeout);
    let mut out = [0u8; 1024];
    let (sw, n) = process_u2f(
        &mut c,
        &mut recorded(),
        &apdu(CTAP_REGISTER, 0, &register_data()),
        &mut out,
    );
    assert_eq!(sw, Sw::CONDITIONS_NOT_SATISFIED);
    assert_eq!(n, 0);
}

#[test]
fn register_then_authenticate() {
    let mut c = seeded(1, Presence::Confirmed);

    // --- register ---
    let mut out = [0u8; 1024];
    let (sw, n) = process_u2f(
        &mut c,
        &mut recorded(),
        &apdu(CTAP_REGISTER, 0, &register_data()),
        &mut out,
    );
    assert_eq!(sw, Sw::OK);
    let resp = &out[..n];
    assert_eq!(resp[0], U2F_REGISTER_ID);
    assert_eq!(resp[1], 0x04);
    let pub_x = &resp[2..34];
    let pub_y = &resp[34..66];
    assert_eq!(resp[66] as usize, KEY_HANDLE_LEN);
    let key_handle = resp[67..67 + KEY_HANDLE_LEN].to_vec();
    let cert_and_sig = &resp[67 + KEY_HANDLE_LEN..];
    // The certificate is a SEQUENCE; the registration signature follows it.
    assert_eq!(cert_and_sig[0], 0x30);
    let cert_len = 4 + (((cert_and_sig[2] as usize) << 8) | cert_and_sig[3] as usize);
    let reg_sig = &cert_and_sig[cert_len..];

    // The registration signature verifies under the device key.
    let seed = load_keydev(&dev(), &mut c.fs).unwrap();
    let (dx, dy) = public_xy(&seed);
    vkey(&dx, &dy)
        .verify(
            &register_base(&key_handle, pub_x, pub_y),
            &Signature::from_der(reg_sig).unwrap(),
        )
        .expect("registration signature verifies under the attestation key");

    // --- authenticate ---
    let mut out2 = [0u8; 256];
    let (sw, n) = process_u2f(
        &mut c,
        &mut recorded(),
        &apdu(CTAP_AUTHENTICATE, U2F_AUTH_ENFORCE, &auth_data(&key_handle)),
        &mut out2,
    );
    assert_eq!(sw, Sw::OK);
    let a = &out2[..n];
    assert_eq!(a[0] & U2F_AUTH_FLAG_TUP, U2F_AUTH_FLAG_TUP);
    let ctr = u32::from_be_bytes([a[1], a[2], a[3], a[4]]);
    let auth_sig = &a[5..];

    // The assertion signs application, flags, counter and challenge under the
    // credential key.
    let mut sbase = APP.to_vec();
    sbase.push(a[0]);
    sbase.extend_from_slice(&ctr.to_be_bytes());
    sbase.extend_from_slice(&CHAL);
    vkey(pub_x, pub_y)
        .verify(&sbase, &Signature::from_der(auth_sig).unwrap())
        .expect("authentication signature verifies under the credential key");
}

#[test]
fn check_only_and_bad_handle() {
    let mut c = seeded(2, Presence::Confirmed);

    // Register to get a valid handle.
    let mut out = [0u8; 1024];
    process_u2f(
        &mut c,
        &mut recorded(),
        &apdu(CTAP_REGISTER, 0, &register_data()),
        &mut out,
    );
    let kh = out[67..67 + KEY_HANDLE_LEN].to_vec();

    // check-only on a valid handle
    let mut o = [0u8; 256];
    let chk = apdu(CTAP_AUTHENTICATE, U2F_AUTH_CHECK_ONLY, &auth_data(&kh));
    assert_eq!(
        process_u2f(&mut c, &mut recorded(), &chk, &mut o).0,
        Sw::CONDITIONS_NOT_SATISFIED
    );

    // A bogus handle
    let mut bad = auth_data(&kh);
    let l = bad.len();
    bad[l - 1] ^= 0xFF; // corrupt the handle's HMAC tag
    let badc = apdu(CTAP_AUTHENTICATE, U2F_AUTH_ENFORCE, &bad);
    assert_eq!(
        process_u2f(&mut c, &mut recorded(), &badc, &mut o).0,
        Sw::INCORRECT_PARAMS
    );
}

#[test]
fn enforce_auth_rejects_unknown_handle_without_touch() {
    // An unknown handle is rejected before any user-presence prompt.
    let mut c = seeded(7, Presence::Timeout);
    let mut o = [0u8; 256];
    let a = apdu(
        CTAP_AUTHENTICATE,
        U2F_AUTH_ENFORCE,
        &auth_data(&[0xEE; KEY_HANDLE_LEN]), // garbage handle
    );
    let (sw, n) = process_u2f(&mut c, &mut recorded(), &a, &mut o);
    assert_eq!(sw, Sw::INCORRECT_PARAMS);
    assert_eq!(n, 0);
    assert_eq!(
        c.presence.source().calls, 0,
        "an unknown handle must be rejected without requesting a touch"
    );
}

#[test]
fn version() {
    let mut c = ctx();
    let mut o = [0u8; 16];
    let (sw, n) = process_u2f(&mut c, &mut recorded(), &apdu(CTAP_VERSION, 0, &[]), &mut o);
    assert_eq!(sw, Sw::OK);
    assert_eq!(&o[..n], b"U2F_V2");
}

#[test]
fn bad_cla_and_ins() {
    let mut c = seeded(9, Presence::Confirmed);
    let mut o = [0u8; 64];
    // Non-zero CLA
    let mut bad_cla = apdu(CTAP_VERSION, 0, &[]);
    bad_cla.cla = 0x01;
    assert_eq!(
        process_u2f(&mut c, &mut recorded(), &bad_cla, &mut o).0,
        Sw::CLA_NOT_SUPPORTED
    );
    // Unknown INS
    let bad_ins = apdu(0x00, 0, &[]);
    assert_eq!(
        process_u2f(&mut c, &mut recorded(), &bad_ins, &mut o).0,
        Sw::INS_NOT_SUPPORTED
    );
}

#[test]
fn u2f_requests_of_the_wrong_length() {
    let mut c = seeded(3, Presence::Confirmed);
    let mut o = [0u8; 256];
    for (ins, len, sw) in [
        (CTAP_REGISTER, 63, Sw::WRONG_LENGTH),
        (CTAP_REGISTER, 65, Sw::WRONG_LENGTH),
        (CTAP_AUTHENTICATE, 65, Sw::INCORRECT_PARAMS),
        // A handle length past the end of the request.
        (CTAP_AUTHENTICATE, 128, Sw::INCORRECT_PARAMS),
    ] {
        let a = apdu(ins, U2F_AUTH_ENFORCE, &vec![0x40; len]);
        assert_eq!(process_u2f(&mut c, &mut recorded(), &a, &mut o), (sw, 0));
    }
    assert_eq!(c.presence.source().calls, 0);
}

#[test]
fn u2f_needs_a_seed() {
    let mut c = ctx();
    let mut o = [0u8; 1024];
    let a = apdu(CTAP_REGISTER, 0, &register_data());
    assert_eq!(process_u2f(&mut c, &mut recorded(), &a, &mut o), (Sw::EXEC_ERROR, 0));
}

#[test]
fn u2f_is_closed_while_verification_is_required() {
    let mut c = seeded(4, Presence::Confirmed);
    c.fs.put(EF_ALWAYS_UV, &[1]).unwrap();
    let mut o = [0u8; 1024];
    let a = apdu(CTAP_REGISTER, 0, &register_data());
    assert_eq!(
        process_u2f(&mut c, &mut recorded(), &a, &mut o),
        (Sw::COMMAND_NOT_ALLOWED, 0)
    );
}

#[test]
fn u2f_register_under_an_organisation_key() {
    let mut c = seeded(5, Presence::Confirmed);
    let org = [0x21u8; 32];
    let d = dev();
    store_att_key(&d, &mut c.fs, &org).unwrap();
    let mut out = [0u8; 1024];
    let a = apdu(CTAP_REGISTER, 0, &register_data());
    // Without a chain there is no certificate to answer with.
    assert_eq!(process_u2f(&mut c, &mut recorded(), &a, &mut out), (Sw::EXEC_ERROR, 0));
    // A chain of one certificate of three bytes.
    c.fs.put(EF_ATT_CHAIN, &[0x01, 0x03, 0x00, 0x30, 0x01, 0x77]).unwrap();
    let (sw, n) = process_u2f(&mut c, &mut recorded(), &a, &mut out);
    assert_eq!(sw, Sw::OK);
    let handle = out[67..67 + KEY_HANDLE_LEN].to_vec();
    let rest = &out[67 + KEY_HANDLE_LEN..n];
    assert_eq!(&rest[..3], &[0x30, 0x01, 0x77]);
    let (ox, oy) = public_xy(&org);
    vkey(&ox, &oy)
        .verify(
            &register_base(&handle, &out[2..34], &out[34..66]),
            &Signature::from_der(&rest[3..]).unwrap(),
        )
        .expect("the organisation's key signs");
}
