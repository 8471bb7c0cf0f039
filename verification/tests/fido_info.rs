//! getInfo, selection and the dispatch of messages.

use chacha20poly1305::aead::{Aead, Payload};
use chacha20poly1305::{ChaCha20Poly1305, KeyInit};
use minicbor::Decoder;
use p256::elliptic_curve::sec1::ToEncodedPoint;
use rs_key::fido::codec::{Codec, CredInput, Credential, Record, Recorded};
use rs_key::fido::consts::{
    aaguid, ALG_EDDSA, ALG_ES256, ALG_ES256K, ALG_ES384, ALG_ES512, ALG_MLDSA44, ALG_MLDSA65,
    CTAP_GET_ASSERTION, CTAP_GET_INFO, CTAP_RESET, CTAP_SELECTION, EF_MINPINLEN, FIRMWARE_VERSION,
    MAX_CREDBLOB_LENGTH, MAX_CREDENTIAL_COUNT_IN_LIST, MAX_CRED_ID_LENGTH, MAX_LARGE_BLOB_SIZE,
    MAX_MIN_PIN_RPIDS, MAX_MSG_SIZE, MIN_PIN_LENGTH,
};
use rs_key::fido::consts::{EF_CRED, EF_RP};
use rs_key::fido::device::Device;
use rs_key::fido::dispatch::{process_cbor, Commands, Logged, NoCommands};
use rs_key::fido::error::{CtapError, CTAP2_OK};
use rs_key::fido::getinfo::{get_info, get_info_of};
use rs_key::fido::keyderiv::verify_key;
use rs_key::fido::makecredential::Profile;
use rs_key::fido::selection::selection;
use rs_key::fido::slots::remaining_discoverable;
use rs_key::fido::state::FidoState;
use rs_key::fido::{Ctx, Presence, UserPresence, Watched};
use rs_key::fido::{Drawn, Rng};
use rs_key::fido::{presence_result, AlwaysConfirm};
use rs_key::fs::{Fs, RamStorage};
use rs_key::fs::{Storage, MAX_DYNAMIC_FILES};
use rs_key::sdk::Confirm;
use sha2::{Digest, Sha256};

struct SeqRng(u64);

impl Rng for SeqRng {
    fn fill(&mut self, buf: &mut [u8]) {
        for b in buf.iter_mut() {
            self.0 = self.0.wrapping_mul(6364136223846793005).wrapping_add(1);
            *b = (self.0 >> 33) as u8;
        }
    }
}

fn sha256(data: &[u8]) -> [u8; 32] {
    Sha256::digest(data).into()
}

#[allow(dead_code)]
fn public_xy(scalar: &[u8; 32]) -> ([u8; 32], [u8; 32]) {
    let pt = p256::SecretKey::from_slice(scalar)
        .unwrap()
        .public_key()
        .to_encoded_point(false);
    ((*pt.x().unwrap()).into(), (*pt.y().unwrap()).into())
}

#[allow(dead_code)]
fn dev() -> Device {
    Device {
        serial_hash: [0xAB; 32],
        serial_id: [1, 2, 3, 4, 5, 6, 7, 8],
        kbase: [0x31; 32],
        kbase_otp: None,
    }
}

#[allow(dead_code)]
fn fs() -> Fs<RamStorage> {
    Fs::new(RamStorage::new())
}

fn key_of(seed: &[u8], label: &[u8]) -> [u8; 32] {
    let mut v = seed.to_vec();
    v.extend_from_slice(label);
    sha256(&v)
}

fn aead_seal(key: &[u8; 32], nonce: &[u8; 12], aad: &[u8], msg: &[u8]) -> Vec<u8> {
    let c = ChaCha20Poly1305::new(key.into());
    let ct = c.encrypt(nonce.into(), Payload { msg, aad }).unwrap();
    let mut v = nonce.to_vec();
    v.extend_from_slice(&ct);
    v
}

fn aead_open(key: &[u8; 32], aad: &[u8], sealed: &[u8]) -> Option<Vec<u8>> {
    if sealed.len() < 28 {
        return None;
    }
    let c = ChaCha20Poly1305::new(key.into());
    c.decrypt((&sealed[..12]).into(), Payload { msg: &sealed[12..], aad })
        .ok()
}

fn put_field(v: &mut Vec<u8>, f: &[u8]) {
    v.extend_from_slice(&(f.len() as u16).to_be_bytes());
    v.extend_from_slice(f);
}

fn get_field(v: &[u8], pos: &mut usize) -> Vec<u8> {
    let n = u16::from_be_bytes([v[*pos], v[*pos + 1]]) as usize;
    let f = v[*pos + 2..*pos + 2 + n].to_vec();
    *pos += 2 + n;
    f
}

/// Credential boxes and names under ChaCha20-Poly1305, keys on P-256 only.
struct TestCodec;

#[allow(dead_code)]
fn recorded() -> Recorded<TestCodec> {
    Recorded::new(TestCodec)
}

impl Codec for TestCodec {
    fn create(
        &mut self,
        seed: &[u8; 32],
        input: &CredInput,
        rp_id_hash: &[u8; 32],
        iv: &[u8; 12],
    ) -> Option<Vec<u8>> {
        let mut v = Vec::new();
        put_field(&mut v, &input.rp_id);
        put_field(&mut v, &input.user_id);
        put_field(&mut v, &input.user_name);
        put_field(&mut v, &input.user_display_name);
        put_field(&mut v, &[input.ext.cred_protect as u8]);
        Some(aead_seal(&key_of(seed, b"box"), iv, rp_id_hash, &v))
    }

    fn load(&mut self, seed: &[u8; 32], cred_box: &[u8], rp_id_hash: &[u8; 32]) -> Option<
        Credential,
    > {
        if let Some(v) = aead_open(&key_of(seed, b"box"), rp_id_hash, cred_box) {
            let mut p = 0;
            let _rp = get_field(&v, &mut p);
            return Some(Credential {
                user_id: get_field(&v, &mut p),
                user_name: get_field(&v, &mut p),
                user_display_name: get_field(&v, &mut p),
                cred_protect: get_field(&v, &mut p)[0] as u64,
                u2f: false,
            });
        }
        let handle: [u8; 64] = cred_box.try_into().ok()?;
        verify_key(seed, rp_id_hash, &handle)?;
        Some(Credential {
            user_id: Vec::new(),
            user_name: Vec::new(),
            user_display_name: Vec::new(),
            cred_protect: 0,
            u2f: true,
        })
    }

    fn is_resident(&self, id: &[u8]) -> bool {
        id.starts_with(b"RESIDENT01")
    }

    fn resident_id(&mut self, cred_box: &[u8]) -> [u8; 42] {
        let mut id = [0u8; 42];
        id[..10].copy_from_slice(b"RESIDENT01");
        id[10..].copy_from_slice(&sha256(cred_box));
        id
    }

    fn store(
        &mut self,
        seed: &[u8; 32],
        present: &Vec<Record>,
        cred_box: &[u8],
        rp_id_hash: &[u8; 32],
        rp_id: &[u8],
        _user_id: &[u8],
    ) -> Option<Vec<Record>> {
        let used = |fid: u16| present.iter().any(|r| r.fid == fid);
        let slot = (EF_CRED..EF_CRED + 256).find(|f| !used(*f))?;
        let mut data = rp_id_hash.to_vec();
        data.extend_from_slice(&self.resident_id(cred_box));
        data.extend_from_slice(cred_box);
        let rp = present
            .iter()
            .find(|r| r.fid >= EF_RP && r.fid < EF_RP + 256 && r.data[1..33] == rp_id_hash[..]);
        let rp_record = match rp {
            Some(r) => {
                let mut d = r.data.clone();
                d[0] += 1;
                Record { fid: r.fid, data: d }
            }
            None => {
                let fid = (EF_RP..EF_RP + 256).find(|f| !used(*f))?;
                let mut d = vec![1];
                d.extend_from_slice(rp_id_hash);
                d.extend_from_slice(&aead_seal(
                    &key_of(seed, b"rp"),
                    &[7; 12],
                    rp_id_hash,
                    rp_id,
                ));
                Record { fid, data: d }
            }
        };
        Some(vec![Record { fid: slot, data }, rp_record])
    }

    fn hmac_key(&mut self, seed: &[u8; 32], cred_id: &[u8]) -> [u8; 64] {
        let mut k = [0u8; 64];
        k[..32].copy_from_slice(&key_of(&key_of(seed, cred_id), b"hs"));
        k[32..].copy_from_slice(&key_of(&key_of(seed, cred_id), b"hs-uv"));
        k
    }

    fn large_blob_key(&mut self, seed: &[u8; 32], cred_id: &[u8]) -> [u8; 32] {
        key_of(&key_of(seed, cred_id), b"lbk")
    }

    fn cose_public(&mut self, curve: u8, raw: &[u8; 66]) -> Option<Vec<u8>> {
        if curve != 1 {
            return None;
        }
        let scalar: [u8; 32] = raw[..32].try_into().ok()?;
        p256::SecretKey::from_slice(&scalar).ok()?;
        let (x, y) = public_xy(&scalar);
        let mut v = vec![0xA5, 0x01, 0x02, 0x03, 0x26, 0x20, 0x01, 0x21, 0x58, 0x20];
        v.extend_from_slice(&x);
        v.extend_from_slice(&[0x22, 0x58, 0x20]);
        v.extend_from_slice(&y);
        Some(v)
    }

    fn sign(&mut self, _curve: u8, raw: &[u8; 66], msg: &[u8]) -> (i64, Vec<u8>) {
        let key = p256::ecdsa::SigningKey::from_slice(&raw[..32]).unwrap();
        let sig: p256::ecdsa::Signature = p256::ecdsa::signature::Signer::sign(&key, msg);
        (-7, sig.to_der().as_bytes().to_vec())
    }

    fn attestation_cert(&mut self, key: &[u8; 32], serial: &[u8; 16]) -> Option<Vec<u8>> {
        let (x, y) = public_xy(key);
        let mut v = vec![0x30, 0x82, 0x01, 0x00];
        v.extend_from_slice(serial);
        v.extend_from_slice(&x);
        v.extend_from_slice(&y);
        v.resize(4 + 256, 0);
        Some(v)
    }

    fn open_rp_id(&mut self, seed: &[u8; 32], rp_id_hash: &[u8; 32], sealed: &[u8]) -> Option<
        Vec<u8>,
    > {
        aead_open(&key_of(seed, b"rp"), rp_id_hash, sealed)
    }

    fn open_nick(&mut self, seed: &[u8; 32], rp_id_hash: &[u8; 32], sealed: &[u8]) -> Option<
        Vec<u8>,
    > {
        aead_open(&key_of(seed, b"nick"), rp_id_hash, sealed)
    }

    fn seal_nick(&mut self, seed: &[u8; 32], rp_id_hash: &[u8; 32], nick: &[u8]) -> Option<
        Vec<u8>,
    > {
        Some(aead_seal(&key_of(seed, b"nick"), &[9; 12], rp_id_hash, nick))
    }

    fn strip_pin(&mut self, otp: bool, pin_hash: &[u8], wrapped: &[u8]) -> Option<[u8; 32]> {
        let inner = aead_open(&key_of(pin_hash, &[otp as u8]), b"pin", wrapped)?;
        inner.try_into().ok()
    }
}

/// A presence source with a fixed outcome that counts its requests.
struct Fixed {
    verdict: Presence,
    calls: usize,
}

#[allow(dead_code)]
fn fixed(verdict: Presence) -> Fixed {
    Fixed { verdict, calls: 0 }
}

impl UserPresence for Fixed {
    fn request(&mut self, _confirm: Confirm<'_>) -> Presence {
        self.calls += 1;
        self.verdict
    }
}

type TestCtx = Ctx<RamStorage, SeqRng, Fixed>;

#[allow(dead_code)]
fn ctx_with(fs: Fs<RamStorage>, state: FidoState, verdict: Presence) -> TestCtx {
    Ctx { dev: dev(), fs, rng: Drawn::new(SeqRng(1)), state, now_ms: 12345, presence: Watched::new(fixed(verdict)) }
}

#[allow(dead_code)]
fn ctx() -> TestCtx {
    ctx_with(fs(), FidoState::new(), Presence::Confirmed)
}

const DEFAULT: Profile = Profile {
    prefer_pqc: false,
    advertise_pqc: false,
    conformance: false,
    vendor_ea: false,
    fips: false,
    min_pin_len: MIN_PIN_LENGTH,
};

// ---- getInfo ----
/// The COSE ids that are advertised.
fn advertised_algs() -> Vec<i64> {
    let mut out = [0u8; 1024];
    let n = get_info(false, 6, false, false, false, false, 256, &mut out).unwrap();
    algs_in(&out[..n])
}

/// The COSE ids that a response advertises.
fn algs_in(response: &[u8]) -> Vec<i64> {
    let mut d = Decoder::new(response);
    let entries = d.map().unwrap().unwrap();
    let mut algs = Vec::new();
    for _ in 0..entries {
        let key = d.u32().unwrap();
        if key == 0x0A {
            let m = d.array().unwrap().unwrap();
            for _ in 0..m {
                assert_eq!(d.map().unwrap().unwrap(), 2);
                assert_eq!(d.str().unwrap(), "alg");
                algs.push(d.i64().unwrap());
                assert_eq!(d.str().unwrap(), "type");
                assert_eq!(d.str().unwrap(), "public-key");
            }
        } else {
            d.skip().unwrap();
        }
    }
    algs
}

#[test]
fn algorithms_advertisement_policy() {
    let algs = advertised_algs();
    assert!(algs.contains(&ALG_ES256));
    assert!(algs.contains(&ALG_ES384));
    assert!(algs.contains(&ALG_ES512));
    assert!(!algs.contains(&ALG_ES256K), "ES256K (-47) must not be advertised");
    assert!(algs.contains(&ALG_EDDSA), "EdDSA (-8) must be advertised by default");
}

/// The COSE ids that a build advertises.
fn algs_of(profile: Profile) -> Vec<i64> {
    let mut out = [0u8; 1024];
    let n = get_info_of(profile, false, 6, false, false, false, false, 256, &mut out).unwrap();
    algs_in(&out[..n])
}

#[test]
fn a_conformance_build_leaves_eddsa_out() {
    let conformance = Profile { conformance: true, ..DEFAULT };
    assert_eq!(algs_of(conformance), [ALG_ES256, ALG_ES384, ALG_ES512]);
    assert_eq!(algs_of(DEFAULT), [ALG_ES256, ALG_ES384, ALG_ES512, ALG_EDDSA]);
    assert_eq!(algs_of(Profile::standard()), advertised_algs());
    // The dispatch of a message follows the build too.
    let mut out = [0u8; 512];
    let n = process_cbor(
        &mut ctx(),
        &mut recorded(),
        &mut Logged::new(NoCommands),
        conformance,
        &[CTAP_GET_INFO],
        &mut out,
    );
    assert_eq!(algs_in(&out[1..n]), [ALG_ES256, ALG_ES384, ALG_ES512]);
}

#[test]
fn a_build_can_advertise_the_post_quantum_algorithms() {
    let pqc = Profile { advertise_pqc: true, ..DEFAULT };
    assert_eq!(
        algs_of(pqc),
        [ALG_MLDSA65, ALG_MLDSA44, ALG_ES256, ALG_ES384, ALG_ES512, ALG_EDDSA]
    );
    let both = Profile { conformance: true, ..pqc };
    assert_eq!(algs_of(both), [ALG_MLDSA65, ALG_MLDSA44, ALG_ES256, ALG_ES384, ALG_ES512]);
}

#[test]
fn get_info_fields() {
    let mut buf = [0u8; 512];
    let n = get_info(true, 4, false, false, false, false, 200, &mut buf).unwrap();
    let mut d = Decoder::new(&buf[..n]);

    let entries = d.map().unwrap().unwrap();
    assert_eq!(entries, 20);

    // 0x01 versions
    assert_eq!(d.u8().unwrap(), 0x01);
    let nv = d.array().unwrap().unwrap();
    assert_eq!(nv, 5);
    assert_eq!(d.str().unwrap(), "U2F_V2");
    assert_eq!(d.str().unwrap(), "FIDO_2_0");
    assert_eq!(d.str().unwrap(), "FIDO_2_1");
    assert_eq!(d.str().unwrap(), "FIDO_2_2");
    assert_eq!(d.str().unwrap(), "FIDO_2_3");

    // 0x02 extensions
    assert_eq!(d.u8().unwrap(), 0x02);
    assert_eq!(d.array().unwrap().unwrap(), 7);
    assert_eq!(d.str().unwrap(), "credBlob");
    assert_eq!(d.str().unwrap(), "credProtect");
    assert_eq!(d.str().unwrap(), "hmac-secret");
    assert_eq!(d.str().unwrap(), "largeBlobKey");
    assert_eq!(d.str().unwrap(), "minPinLength");
    assert_eq!(d.str().unwrap(), "hmac-secret-mc");
    assert_eq!(d.str().unwrap(), "thirdPartyPayment");

    // 0x03 aaguid
    assert_eq!(d.u8().unwrap(), 0x03);
    assert_eq!(d.bytes().unwrap(), &aaguid());

    // 0x04 options
    assert_eq!(d.u8().unwrap(), 0x04);
    assert_eq!(d.map().unwrap().unwrap(), 10);
    assert_eq!(d.str().unwrap(), "ep");
    assert!(!d.bool().unwrap());
    assert_eq!(d.str().unwrap(), "rk");
    assert!(d.bool().unwrap());
    assert_eq!(d.str().unwrap(), "up");
    assert!(d.bool().unwrap());
    assert_eq!(d.str().unwrap(), "alwaysUv");
    assert!(!d.bool().unwrap());
    assert_eq!(d.str().unwrap(), "credMgmt");
    assert!(d.bool().unwrap());
    assert_eq!(d.str().unwrap(), "authnrCfg");
    assert!(d.bool().unwrap());
    assert_eq!(d.str().unwrap(), "clientPin");
    assert!(d.bool().unwrap());
    assert_eq!(d.str().unwrap(), "largeBlobs");
    assert!(d.bool().unwrap());
    assert_eq!(d.str().unwrap(), "pinUvAuthToken");
    assert!(d.bool().unwrap());
    assert_eq!(d.str().unwrap(), "setMinPINLength");
    assert!(d.bool().unwrap());

    // 0x05 maxMsgSize
    assert_eq!(d.u8().unwrap(), 0x05);
    assert_eq!(d.u64().unwrap(), MAX_MSG_SIZE);

    // 0x06 pinUvAuthProtocols [2, 1]
    assert_eq!(d.u8().unwrap(), 0x06);
    assert_eq!(d.array().unwrap().unwrap(), 2);
    assert_eq!(d.u8().unwrap(), 2);
    assert_eq!(d.u8().unwrap(), 1);

    // 0x07 maxCredentialCountInList
    assert_eq!(d.u8().unwrap(), 0x07);
    assert_eq!(d.u64().unwrap(), MAX_CREDENTIAL_COUNT_IN_LIST);

    // 0x08 maxCredentialIdLength
    assert_eq!(d.u8().unwrap(), 0x08);
    assert_eq!(d.u64().unwrap(), MAX_CRED_ID_LENGTH);

    // 0x09 transports ["usb"]
    assert_eq!(d.u8().unwrap(), 0x09);
    assert_eq!(d.array().unwrap().unwrap(), 1);
    assert_eq!(d.str().unwrap(), "usb");

    // 0x0A algorithms
    assert_eq!(d.u8().unwrap(), 0x0A);
    assert_eq!(d.array().unwrap().unwrap(), 4);
    for alg in [ALG_ES256, ALG_ES384, ALG_ES512, ALG_EDDSA] {
        assert_eq!(d.map().unwrap().unwrap(), 2);
        assert_eq!(d.str().unwrap(), "alg");
        assert_eq!(d.i64().unwrap(), alg);
        assert_eq!(d.str().unwrap(), "type");
        assert_eq!(d.str().unwrap(), "public-key");
    }

    // 0x0B maxSerializedLargeBlobArray
    assert_eq!(d.u8().unwrap(), 0x0B);
    assert_eq!(d.u64().unwrap(), MAX_LARGE_BLOB_SIZE as u64);

    // 0x0C forceChangePin, 0x0D minPINLength
    assert_eq!(d.u8().unwrap(), 0x0C);
    assert!(!d.bool().unwrap());
    assert_eq!(d.u8().unwrap(), 0x0D);
    assert_eq!(d.u8().unwrap(), 4);

    // 0x0E firmwareVersion
    assert_eq!(d.u8().unwrap(), 0x0E);
    assert_eq!(d.u32().unwrap(), FIRMWARE_VERSION);

    // 0x0F maxCredBlobLength
    assert_eq!(d.u8().unwrap(), 0x0F);
    assert_eq!(d.u64().unwrap(), MAX_CREDBLOB_LENGTH as u64);

    // 0x10 maxRPIDsForSetMinPINLength
    assert_eq!(d.u8().unwrap(), 0x10);
    assert_eq!(d.u8().unwrap(), MAX_MIN_PIN_RPIDS as u8);

    // 0x14 remainingDiscoverableCredentials
    assert_eq!(d.u8().unwrap(), 0x14);
    assert_eq!(d.u16().unwrap(), 200);

    // 0x16 attestationFormats ["packed"]
    assert_eq!(d.u8().unwrap(), 0x16);
    assert_eq!(d.array().unwrap().unwrap(), 1);
    assert_eq!(d.str().unwrap(), "packed");

    // 0x1D maxPINLength
    assert_eq!(d.u8().unwrap(), 0x1D);
    assert_eq!(d.u8().unwrap(), 63);

    // 0x1F authenticatorConfigCommands
    assert_eq!(d.u8().unwrap(), 0x1F);
    assert_eq!(d.array().unwrap().unwrap(), 3);
    assert_eq!(d.u8().unwrap(), 0x01);
    assert_eq!(d.u8().unwrap(), 0x02);
    assert_eq!(d.u8().unwrap(), 0x03);

    // Map fully consumed.
    assert!(d.datatype().is_err());
}

/// The options as pairs.
fn option_pairs(builtin_uv: bool, pin_set: bool) -> Vec<(String, bool)> {
    let mut buf = [0u8; 512];
    let n = get_info(pin_set, 4, false, false, false, builtin_uv, 256, &mut buf).unwrap();
    let mut d = Decoder::new(&buf[..n]);
    d.map().unwrap();
    for k in [0x01u8, 0x02, 0x03] {
        assert_eq!(d.u8().unwrap(), k);
        d.skip().unwrap();
    }
    assert_eq!(d.u8().unwrap(), 0x04);
    let m = d.map().unwrap().unwrap();
    (0..m).map(|_| (d.str().unwrap().to_string(), d.bool().unwrap())).collect()
}

#[test]
fn uv_option_present_only_with_builtin_uv() {
    let plain = option_pairs(false, true);
    assert_eq!(plain.len(), 10);
    assert!(!plain.iter().any(|(k, _)| k == "uv"));

    let ready = option_pairs(true, true);
    assert_eq!(ready.len(), 11);
    let up = ready.iter().position(|(k, _)| k == "up").unwrap();
    assert_eq!(ready[up + 1].0, "uv", "uv must sort right after up");
    assert!(ready[up + 1].1, "uv = true once a PIN is configured");

    let unconfigured = option_pairs(true, false);
    assert!(!unconfigured.iter().find(|(k, _)| k == "uv").unwrap().1);
}

#[test]
fn client_pin_reflects_pin_state() {
    for pin_set in [false, true] {
        let pairs = option_pairs(false, pin_set);
        assert_eq!(pairs[6].0, "clientPin");
        assert_eq!(pairs[6].1, pin_set);
    }
}

#[test]
fn min_pin_policy_reflected() {
    let mut buf = [0u8; 512];
    let n = get_info(true, 8, true, false, false, false, 256, &mut buf).unwrap();
    let mut d = Decoder::new(&buf[..n]);
    d.map().unwrap();
    let (mut force, mut min) = (None, None);
    while let Ok(key) = d.u8() {
        match key {
            0x0C => force = Some(d.bool().unwrap()),
            0x0D => min = Some(d.u8().unwrap()),
            _ => d.skip().unwrap(),
        }
    }
    assert_eq!(force, Some(true));
    assert_eq!(min, Some(8));
}

fn option_of(ea: bool, always_uv: bool, at: usize) -> (String, bool) {
    let mut buf = [0u8; 512];
    let n = get_info(true, 4, false, ea, always_uv, false, 256, &mut buf).unwrap();
    let mut d = Decoder::new(&buf[..n]);
    d.map().unwrap();
    for _ in 0..3 {
        d.u8().unwrap();
        d.skip().unwrap();
    }
    assert_eq!(d.u8().unwrap(), 0x04);
    d.map().unwrap();
    for _ in 0..at {
        d.str().unwrap();
        d.bool().unwrap();
    }
    (d.str().unwrap().to_string(), d.bool().unwrap())
}

#[test]
fn ep_reflects_ea_enabled() {
    for ea in [false, true] {
        assert_eq!(option_of(ea, false, 0), ("ep".to_string(), ea));
    }
}

#[test]
fn always_uv_reflects_state() {
    for always_uv in [false, true] {
        assert_eq!(option_of(false, always_uv, 3), ("alwaysUv".to_string(), always_uv));
    }
}

#[test]
fn always_uv_drops_the_u2f_version() {
    let mut buf = [0u8; 512];
    let n = get_info(true, 4, false, false, true, false, 256, &mut buf).unwrap();
    let mut d = Decoder::new(&buf[..n]);
    d.map().unwrap();
    assert_eq!(d.u8().unwrap(), 0x01);
    assert_eq!(d.array().unwrap().unwrap(), 4);
    assert_eq!(d.str().unwrap(), "FIDO_2_0");
}

#[test]
fn get_info_buffer_too_small() {
    let mut tiny = [0u8; 8];
    assert_eq!(
        get_info(false, 4, false, false, false, false, 256, &mut tiny),
        Err(CtapError::Other)
    );
}

// ---- selection ----
fn select(verdict: Presence) -> Result<usize, CtapError> {
    selection(&mut ctx_with(fs(), FidoState::new(), verdict))
}

#[test]
fn selection_confirmed_returns_ok() {
    let mut c = Ctx {
        dev: dev(),
        fs: fs(),
        rng: Drawn::new(SeqRng(1)),
        state: FidoState::new(),
        now_ms: 0,
        presence: Watched::new(AlwaysConfirm),
    };
    assert_eq!(selection(&mut c), Ok(0));
    assert_eq!(select(Presence::Confirmed), Ok(0));
}

#[test]
fn selection_timeout_maps_user_action_timeout() {
    assert_eq!(select(Presence::Timeout), Err(CtapError::UserActionTimeout));
}

#[test]
fn selection_declined_maps_operation_denied() {
    assert_eq!(select(Presence::Declined), Err(CtapError::OperationDenied));
}

#[test]
fn selection_cancelled_maps_keepalive_cancel() {
    assert_eq!(select(Presence::Cancelled), Err(CtapError::KeepAliveCancel));
}

#[test]
fn presence_outcomes_map_to_statuses() {
    assert_eq!(presence_result(Presence::Confirmed), Ok(()));
    assert_eq!(presence_result(Presence::Cancelled), Err(CtapError::KeepAliveCancel));
    assert_eq!(presence_result(Presence::Timeout), Err(CtapError::OperationDenied));
    assert_eq!(presence_result(Presence::Declined), Err(CtapError::OperationDenied));
}

// ---- dispatch ----
/// Commands whose parameters must start with a CBOR map.
struct MapOnly {
    seen: Vec<u8>,
}

impl Commands for MapOnly {
    fn run<S: Storage, R: Rng, P: UserPresence>(
        &mut self,
        _ctx: &mut Ctx<S, R, P>,
        cmd: u8,
        params: &[u8],
    ) -> Result<Vec<u8>, CtapError> {
        self.seen.push(cmd);
        match Decoder::new(params).map() {
            Ok(_) => Ok(vec![0xA0]),
            Err(_) => Err(CtapError::InvalidCbor),
        }
    }
}

fn dispatch(data: &[u8], out: &mut [u8]) -> usize {
    let mut c = ctx();
    let mut commands = Logged::new(MapOnly { seen: Vec::new() });
    process_cbor(&mut c, &mut recorded(), &mut commands, DEFAULT, data, out)
}

#[test]
fn dispatch_get_info_ok() {
    let mut out = [0u8; 512];
    let n = dispatch(&[CTAP_GET_INFO], &mut out);
    assert!(n > 1);
    assert_eq!(out[0], CTAP2_OK);
    // The payload is the getInfo map: a header of 20 entries.
    assert_eq!(out[1], 0xB4);
}

#[test]
fn dispatch_unknown_command() {
    let mut out = [0u8; 64];
    let n = dispatch(&[0xEE], &mut out);
    assert_eq!(n, 1);
    assert_eq!(out[0], CtapError::InvalidCommand.as_u8());
}

#[test]
fn dispatch_empty_is_invalid_length() {
    let mut out = [0u8; 64];
    let n = dispatch(&[], &mut out);
    assert_eq!(n, 1);
    assert_eq!(out[0], CtapError::InvalidLength.as_u8());
}

#[test]
fn dispatch_get_assertion_routes_to_handler() {
    // getAssertion with empty params is malformed CBOR.
    let mut out = [0u8; 64];
    let n = dispatch(&[CTAP_GET_ASSERTION], &mut out);
    assert_eq!(n, 1);
    assert_eq!(out[0], CtapError::InvalidCbor.as_u8());
    let n = dispatch(&[CTAP_GET_ASSERTION, 0xA0], &mut out);
    assert_eq!((n, out[0], out[1]), (2, CTAP2_OK, 0xA0));
}

#[test]
fn dispatch_without_further_commands() {
    let mut out = [0u8; 64];
    let n = process_cbor(
        &mut ctx(),
        &mut recorded(),
        &mut Logged::new(NoCommands),
        DEFAULT,
        &[CTAP_GET_ASSERTION],
        &mut out,
    );
    assert_eq!((n, out[0]), (1, CtapError::InvalidCommand.as_u8()));
}

#[test]
fn dispatch_without_room_does_nothing() {
    let mut out = [0u8; 0];
    assert_eq!(dispatch(&[CTAP_SELECTION], &mut out), 0);
}

#[test]
fn dispatch_frames_status_and_response() {
    let mut out = [0xEEu8; 64];
    assert_eq!(dispatch(&[CTAP_SELECTION], &mut out), 1);
    assert_eq!(out[0], CTAP2_OK);
    assert_eq!(out[1], 0xEE);
    assert_eq!(dispatch(&[CTAP_RESET], &mut out), 1);
    assert_eq!(out[0], CTAP2_OK);
}

#[test]
fn dispatch_get_info_reads_the_policy() {
    let mut c = ctx();
    c.fs.put(EF_MINPINLEN, &[9, 1]).unwrap();
    c.fs.put(EF_CRED, &[0; 80]).unwrap();
    let mut out = [0u8; 512];
    let n = process_cbor(
        &mut c,
        &mut recorded(),
        &mut Logged::new(NoCommands),
        DEFAULT,
        &[CTAP_GET_INFO],
        &mut out,
    );
    let mut d = Decoder::new(&out[1..n]);
    d.map().unwrap();
    let (mut force, mut min, mut left) = (None, None, None);
    while let Ok(key) = d.u8() {
        match key {
            0x0C => force = Some(d.bool().unwrap()),
            0x0D => min = Some(d.u8().unwrap()),
            0x14 => left = Some(d.u16().unwrap()),
            _ => d.skip().unwrap(),
        }
    }
    assert_eq!((force, min, left), (Some(true), Some(9), Some(255)));
}

/// The minimum PIN length and the free credentials that a device reports.
fn reported(c: &mut TestCtx, profile: Profile) -> (u8, u16) {
    let mut out = [0u8; 512];
    let mut none = Logged::new(NoCommands);
    let n = process_cbor(c, &mut recorded(), &mut none, profile, &[CTAP_GET_INFO], &mut out);
    let mut d = Decoder::new(&out[1..n]);
    d.map().unwrap();
    let (mut min, mut left) = (0, 0);
    while let Ok(key) = d.u8() {
        match key {
            0x0D => min = d.u8().unwrap(),
            0x14 => left = d.u16().unwrap(),
            _ => d.skip().unwrap(),
        }
    }
    (min, left)
}

#[test]
fn the_build_gives_the_shortest_pin_until_one_is_configured() {
    let strict = Profile { fips: true, min_pin_len: 6, ..DEFAULT };
    assert_eq!(reported(&mut ctx(), DEFAULT).0, 4);
    assert_eq!(reported(&mut ctx(), strict).0, 6);
    let mut c = ctx();
    c.fs.put(EF_MINPINLEN, &[9]).unwrap();
    assert_eq!(reported(&mut c, strict).0, 9);
}

#[test]
fn remaining_credentials_count_the_shared_budget() {
    let mut c = ctx();
    assert_eq!(reported(&mut c, DEFAULT).1, 256);
    // Other applets take all but five files of the budget.
    for i in 0..(MAX_DYNAMIC_FILES - 5) as u16 {
        c.fs.put(0x1000 + i, &[1]).unwrap();
    }
    assert_eq!(c.fs.free_dynamic(), 5);
    assert_eq!(remaining_discoverable(&mut c.fs), 5);
    assert_eq!(reported(&mut c, DEFAULT).1, 5);
    // A credential takes one of them.
    c.fs.put(EF_CRED, &[0; 80]).unwrap();
    assert_eq!(remaining_discoverable(&mut c.fs), 4);
}
