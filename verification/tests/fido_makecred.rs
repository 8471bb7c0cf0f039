//! makeCredential and reset.

use chacha20poly1305::aead::{Aead, Payload};
use chacha20poly1305::{ChaCha20Poly1305, KeyInit};
use minicbor::data::Type;
use minicbor::{Decoder, Encoder};
use p256::EncodedPoint;
use p256::ecdsa::signature::Verifier;
use p256::ecdsa::{Signature, VerifyingKey};
use p256::elliptic_curve::sec1::ToEncodedPoint;
use rs_key::fido::codec::{Codec, CredInput, Credential, Record, Recorded};
use rs_key::fido::consts::{
    aaguid, ef_key_dev, EF_AUDIT_RING, ALG_ES256, ALG_ES256K, ALG_MLDSA44, CTAP_MAKE_CREDENTIAL, EF_ALWAYS_UV,
    EF_COUNTER, EF_EA_ENABLED, EF_MINPINLEN, EF_PIN, FID_ATT_KEY, MIN_PIN_LENGTH, RP_ID_MAX,
};
use rs_key::fido::consts::{EF_CRED, EF_RP};
use rs_key::fido::device::Device;
use rs_key::fido::dispatch::{process_cbor, Logged, NoCommands};
use rs_key::fido::error::{CtapError, CtapResult, CTAP2_OK};
use rs_key::fido::journal::{
    chain_head, for_each_event, raw_append, EV_BOOT, EV_GET_ASSERT, EV_MAKE_CRED, EV_RESET,
};
use rs_key::fido::keyderiv::fido_load_key;
use rs_key::fido::keyderiv::verify_key;
use rs_key::fido::makecredential::{make_credential, truncate_utf8, Profile};
use rs_key::fido::passkeys::{for_each_cred, for_each_rp};
use rs_key::fido::pinproto::{authenticate, PinProto};
use rs_key::fido::reset::{is_fido_fid, reset, survives_factory_reset};
use rs_key::fido::seed::{ensure_seed, load_keydev, store_att_key};
use rs_key::fido::state::FidoState;
use rs_key::fido::state::{PERM_GA, PERM_MC};
use rs_key::fido::{Ctx, Presence, UserPresence, Watched};
use rs_key::fido::{Drawn, Rng};
use rs_key::fs::{Fs, RamStorage};
use rs_key::sdk::Confirm;
use sha2::{Digest, Sha256};

struct SeqRng(u64);

impl Rng for SeqRng {
    fn fill(&mut self, buf: &mut [u8]) {
        for b in buf.iter_mut() {
            self.0 = self.0.wrapping_mul(6364136223846793005).wrapping_add(1);
            *b = (self.0 >> 33) as u8;
        }
    }
}

fn sha256(data: &[u8]) -> [u8; 32] {
    Sha256::digest(data).into()
}

#[allow(dead_code)]
fn public_xy(scalar: &[u8; 32]) -> ([u8; 32], [u8; 32]) {
    let pt = p256::SecretKey::from_slice(scalar)
        .unwrap()
        .public_key()
        .to_encoded_point(false);
    ((*pt.x().unwrap()).into(), (*pt.y().unwrap()).into())
}

#[allow(dead_code)]
fn dev() -> Device {
    Device {
        serial_hash: [0xAB; 32],
        serial_id: [1, 2, 3, 4, 5, 6, 7, 8],
        kbase: [0x31; 32],
        kbase_otp: None,
    }
}

#[allow(dead_code)]
fn fs() -> Fs<RamStorage> {
    Fs::new(RamStorage::new())
}

fn key_of(seed: &[u8], label: &[u8]) -> [u8; 32] {
    let mut v = seed.to_vec();
    v.extend_from_slice(label);
    sha256(&v)
}

fn aead_seal(key: &[u8; 32], nonce: &[u8; 12], aad: &[u8], msg: &[u8]) -> Vec<u8> {
    let c = ChaCha20Poly1305::new(key.into());
    let ct = c.encrypt(nonce.into(), Payload { msg, aad }).unwrap();
    let mut v = nonce.to_vec();
    v.extend_from_slice(&ct);
    v
}

fn aead_open(key: &[u8; 32], aad: &[u8], sealed: &[u8]) -> Option<Vec<u8>> {
    if sealed.len() < 28 {
        return None;
    }
    let c = ChaCha20Poly1305::new(key.into());
    c.decrypt((&sealed[..12]).into(), Payload { msg: &sealed[12..], aad })
        .ok()
}

fn put_field(v: &mut Vec<u8>, f: &[u8]) {
    v.extend_from_slice(&(f.len() as u16).to_be_bytes());
    v.extend_from_slice(f);
}

fn get_field(v: &[u8], pos: &mut usize) -> Vec<u8> {
    let n = u16::from_be_bytes([v[*pos], v[*pos + 1]]) as usize;
    let f = v[*pos + 2..*pos + 2 + n].to_vec();
    *pos += 2 + n;
    f
}

/// Credential boxes and names under ChaCha20-Poly1305, keys on P-256 only.
struct TestCodec;

#[allow(dead_code)]
fn recorded() -> Recorded<TestCodec> {
    Recorded::new(TestCodec)
}

impl Codec for TestCodec {
    fn create(
        &mut self,
        seed: &[u8; 32],
        input: &CredInput,
        rp_id_hash: &[u8; 32],
        iv: &[u8; 12],
    ) -> Option<Vec<u8>> {
        let mut v = Vec::new();
        put_field(&mut v, &input.rp_id);
        put_field(&mut v, &input.user_id);
        put_field(&mut v, &input.user_name);
        put_field(&mut v, &input.user_display_name);
        put_field(&mut v, &[input.ext.cred_protect as u8]);
        Some(aead_seal(&key_of(seed, b"box"), iv, rp_id_hash, &v))
    }

    fn load(&mut self, seed: &[u8; 32], cred_box: &[u8], rp_id_hash: &[u8; 32]) -> Option<
        Credential,
    > {
        if let Some(v) = aead_open(&key_of(seed, b"box"), rp_id_hash, cred_box) {
            let mut p = 0;
            let _rp = get_field(&v, &mut p);
            return Some(Credential {
                user_id: get_field(&v, &mut p),
                user_name: get_field(&v, &mut p),
                user_display_name: get_field(&v, &mut p),
                cred_protect: get_field(&v, &mut p)[0] as u64,
                u2f: false,
            });
        }
        let handle: [u8; 64] = cred_box.try_into().ok()?;
        verify_key(seed, rp_id_hash, &handle)?;
        Some(Credential {
            user_id: Vec::new(),
            user_name: Vec::new(),
            user_display_name: Vec::new(),
            cred_protect: 0,
            u2f: true,
        })
    }

    fn is_resident(&self, id: &[u8]) -> bool {
        id.starts_with(b"RESIDENT01")
    }

    fn resident_id(&mut self, cred_box: &[u8]) -> [u8; 42] {
        let mut id = [0u8; 42];
        id[..10].copy_from_slice(b"RESIDENT01");
        id[10..].copy_from_slice(&sha256(cred_box));
        id
    }

    fn store(
        &mut self,
        seed: &[u8; 32],
        present: &Vec<Record>,
        cred_box: &[u8],
        rp_id_hash: &[u8; 32],
        rp_id: &[u8],
        _user_id: &[u8],
    ) -> Option<Vec<Record>> {
        let used = |fid: u16| present.iter().any(|r| r.fid == fid);
        let slot = (EF_CRED..EF_CRED + 256).find(|f| !used(*f))?;
        let mut data = rp_id_hash.to_vec();
        data.extend_from_slice(&self.resident_id(cred_box));
        data.extend_from_slice(cred_box);
        let rp = present
            .iter()
            .find(|r| r.fid >= EF_RP && r.fid < EF_RP + 256 && r.data[1..33] == rp_id_hash[..]);
        let rp_record = match rp {
            Some(r) => {
                let mut d = r.data.clone();
                d[0] += 1;
                Record { fid: r.fid, data: d }
            }
            None => {
                let fid = (EF_RP..EF_RP + 256).find(|f| !used(*f))?;
                let mut d = vec![1];
                d.extend_from_slice(rp_id_hash);
                d.extend_from_slice(&aead_seal(
                    &key_of(seed, b"rp"),
                    &[7; 12],
                    rp_id_hash,
                    rp_id,
                ));
                Record { fid, data: d }
            }
        };
        Some(vec![Record { fid: slot, data }, rp_record])
    }

    fn hmac_key(&mut self, seed: &[u8; 32], cred_id: &[u8]) -> [u8; 64] {
        let mut k = [0u8; 64];
        k[..32].copy_from_slice(&key_of(&key_of(seed, cred_id), b"hs"));
        k[32..].copy_from_slice(&key_of(&key_of(seed, cred_id), b"hs-uv"));
        k
    }

    fn large_blob_key(&mut self, seed: &[u8; 32], cred_id: &[u8]) -> [u8; 32] {
        key_of(&key_of(seed, cred_id), b"lbk")
    }

    fn cose_public(&mut self, curve: u8, raw: &[u8; 66]) -> Option<Vec<u8>> {
        if curve != 1 {
            return None;
        }
        let scalar: [u8; 32] = raw[..32].try_into().ok()?;
        p256::SecretKey::from_slice(&scalar).ok()?;
        let (x, y) = public_xy(&scalar);
        let mut v = vec![0xA5, 0x01, 0x02, 0x03, 0x26, 0x20, 0x01, 0x21, 0x58, 0x20];
        v.extend_from_slice(&x);
        v.extend_from_slice(&[0x22, 0x58, 0x20]);
        v.extend_from_slice(&y);
        Some(v)
    }

    fn sign(&mut self, _curve: u8, raw: &[u8; 66], msg: &[u8]) -> (i64, Vec<u8>) {
        let key = p256::ecdsa::SigningKey::from_slice(&raw[..32]).unwrap();
        let sig: p256::ecdsa::Signature = p256::ecdsa::signature::Signer::sign(&key, msg);
        (-7, sig.to_der().as_bytes().to_vec())
    }

    fn attestation_cert(&mut self, key: &[u8; 32], serial: &[u8; 16]) -> Option<Vec<u8>> {
        let (x, y) = public_xy(key);
        let mut v = vec![0x30, 0x82, 0x01, 0x00];
        v.extend_from_slice(serial);
        v.extend_from_slice(&x);
        v.extend_from_slice(&y);
        v.resize(4 + 256, 0);
        Some(v)
    }

    fn open_rp_id(&mut self, seed: &[u8; 32], rp_id_hash: &[u8; 32], sealed: &[u8]) -> Option<
        Vec<u8>,
    > {
        aead_open(&key_of(seed, b"rp"), rp_id_hash, sealed)
    }

    fn open_nick(&mut self, seed: &[u8; 32], rp_id_hash: &[u8; 32], sealed: &[u8]) -> Option<
        Vec<u8>,
    > {
        aead_open(&key_of(seed, b"nick"), rp_id_hash, sealed)
    }

    fn seal_nick(&mut self, seed: &[u8; 32], rp_id_hash: &[u8; 32], nick: &[u8]) -> Option<
        Vec<u8>,
    > {
        Some(aead_seal(&key_of(seed, b"nick"), &[9; 12], rp_id_hash, nick))
    }

    fn strip_pin(&mut self, otp: bool, pin_hash: &[u8], wrapped: &[u8]) -> Option<[u8; 32]> {
        let inner = aead_open(&key_of(pin_hash, &[otp as u8]), b"pin", wrapped)?;
        inner.try_into().ok()
    }
}

/// A presence source with a fixed outcome that counts its requests.
struct Fixed {
    verdict: Presence,
    calls: usize,
}

#[allow(dead_code)]
fn fixed(verdict: Presence) -> Fixed {
    Fixed { verdict, calls: 0 }
}

impl UserPresence for Fixed {
    fn request(&mut self, _confirm: Confirm<'_>) -> Presence {
        self.calls += 1;
        self.verdict
    }
}

type TestCtx = Ctx<RamStorage, SeqRng, Fixed>;

#[allow(dead_code)]
fn ctx_with(fs: Fs<RamStorage>, state: FidoState, verdict: Presence) -> TestCtx {
    Ctx { dev: dev(), fs, rng: Drawn::new(SeqRng(1)), state, now_ms: 12345, presence: Watched::new(fixed(verdict)) }
}

#[allow(dead_code)]
fn ctx() -> TestCtx {
    ctx_with(fs(), FidoState::new(), Presence::Confirmed)
}

const CDH: [u8; 32] = [0xCD; 32];
const TOKEN: [u8; 32] = [0x99; 32];
const DEFAULT: Profile = Profile {
    prefer_pqc: false,
    advertise_pqc: false,
    conformance: false,
    vendor_ea: false,
    fips: false,
    min_pin_len: MIN_PIN_LENGTH,
};
const SELF_ATT: Profile = Profile { conformance: true, ..DEFAULT };

fn setup() -> TestCtx {
    let mut f = fs();
    let mut rng = Drawn::new(SeqRng(1));
    ensure_seed(&dev(), &mut f, &mut rng, &mut recorded()).unwrap();
    let mut c = ctx_with(f, FidoState::new(), Presence::Confirmed);
    c.rng = rng;
    c.now_ms = 10;
    c
}

/// The members of a request; what is `None` is left out.
struct Req {
    cdh: Vec<u8>,
    rp: String,
    user: Vec<u8>,
    name: Option<String>,
    algs: Vec<i64>,
    exclude: Vec<Vec<u8>>,
    ext: Vec<(&'static str, Vec<u8>)>,
    options: Vec<(&'static str, bool)>,
    pin: Option<Vec<u8>>,
    proto: Option<u8>,
    enterprise: Option<u8>,
}

fn base() -> Req {
    Req {
        cdh: CDH.to_vec(),
        rp: "example.com".to_string(),
        user: vec![1, 2, 3, 4],
        name: None,
        algs: vec![ALG_ES256],
        exclude: Vec::new(),
        ext: Vec::new(),
        options: Vec::new(),
        pin: None,
        proto: None,
        enterprise: None,
    }
}

fn resident() -> Req {
    let mut r = base();
    r.options.push(("rk", true));
    r
}

fn encoded(r: &Req) -> Vec<u8> {
    let mut n = 4;
    for b in [
        !r.exclude.is_empty(),
        !r.ext.is_empty(),
        !r.options.is_empty(),
        r.pin.is_some(),
        r.proto.is_some(),
        r.enterprise.is_some(),
    ] {
        n += u64::from(b);
    }
    let mut e = Encoder::new(Vec::new());
    e.map(n).unwrap();
    e.u8(1).unwrap().bytes(&r.cdh).unwrap();
    e.u8(2).unwrap().map(1).unwrap();
    e.str("id").unwrap().str(&r.rp).unwrap();
    e.u8(3).unwrap().map(1 + u64::from(r.name.is_some())).unwrap();
    e.str("id").unwrap().bytes(&r.user).unwrap();
    if let Some(name) = &r.name {
        e.str("name").unwrap().str(name).unwrap();
    }
    e.u8(4).unwrap().array(r.algs.len() as u64).unwrap();
    for a in &r.algs {
        e.map(2).unwrap();
        e.str("alg").unwrap().i64(*a).unwrap();
        e.str("type").unwrap().str("public-key").unwrap();
    }
    if !r.exclude.is_empty() {
        e.u8(5).unwrap().array(r.exclude.len() as u64).unwrap();
        for id in &r.exclude {
            e.map(2).unwrap();
            e.str("type").unwrap().str("public-key").unwrap();
            e.str("id").unwrap().bytes(id).unwrap();
        }
    }
    let mut out = e.into_writer();
    if !r.ext.is_empty() {
        out.push(6);
        out.push(0xA0 + r.ext.len() as u8);
        for (k, v) in &r.ext {
            let mut e = Encoder::new(Vec::new());
            e.str(k).unwrap();
            out.extend_from_slice(&e.into_writer());
            out.extend_from_slice(v);
        }
    }
    let mut e = Encoder::new(Vec::new());
    if !r.options.is_empty() {
        e.u8(7).unwrap().map(r.options.len() as u64).unwrap();
        for (k, v) in &r.options {
            e.str(k).unwrap().bool(*v).unwrap();
        }
    }
    if let Some(p) = &r.pin {
        e.u8(8).unwrap().bytes(p).unwrap();
    }
    if let Some(p) = r.proto {
        e.u8(9).unwrap().u8(p).unwrap();
    }
    if let Some(x) = r.enterprise {
        e.u8(10).unwrap().u8(x).unwrap();
    }
    out.extend_from_slice(&e.into_writer());
    out
}

fn run(c: &mut TestCtx, r: &Req) -> (CtapResult, Vec<u8>) {
    run_as(c, DEFAULT, r)
}

fn run_as(c: &mut TestCtx, p: Profile, r: &Req) -> (CtapResult, Vec<u8>) {
    let mut out = vec![0u8; 4096];
    let res = make_credential(c, &mut recorded(), p, &encoded(r), &mut out);
    if let Ok(n) = res {
        out.truncate(n);
    }
    (res, out)
}

fn refused(c: &mut TestCtx, r: &Req) -> CtapError {
    run(c, r).0.unwrap_err()
}

/// The authenticator data of a response, with its format and its statement.
struct Made {
    fmt: String,
    auth: Vec<u8>,
    stmt_entries: u64,
    sig: Vec<u8>,
    large_blob_key: Option<Vec<u8>>,
    ep_att: Option<bool>,
}

fn parsed(out: &[u8]) -> Made {
    let mut d = Decoder::new(out);
    let entries = d.map().unwrap().unwrap();
    let mut m = Made {
        fmt: String::new(),
        auth: Vec::new(),
        stmt_entries: 0,
        sig: Vec::new(),
        large_blob_key: None,
        ep_att: None,
    };
    for _ in 0..entries {
        match d.u8().unwrap() {
            1 => m.fmt = d.str().unwrap().to_string(),
            2 => m.auth = d.bytes().unwrap().to_vec(),
            3 => {
                m.stmt_entries = d.map().unwrap().unwrap();
                for _ in 0..m.stmt_entries {
                    let k = d.str().unwrap();
                    if k == "sig" {
                        m.sig = d.bytes().unwrap().to_vec();
                    } else {
                        d.skip().unwrap();
                    }
                }
            }
            4 => m.ep_att = Some(d.bool().unwrap()),
            5 => m.large_blob_key = Some(d.bytes().unwrap().to_vec()),
            k => panic!("member {}", k),
        }
    }
    m
}

impl Made {
    fn flags(&self) -> u8 {
        self.auth[32]
    }

    fn cred_id(&self) -> Vec<u8> {
        let n = u16::from_be_bytes([self.auth[53], self.auth[54]]) as usize;
        self.auth[55..55 + n].to_vec()
    }

    /// The COSE key and what follows it.
    fn key_and_rest(&self) -> (Vec<u8>, Vec<u8>) {
        let at = 55 + self.cred_id().len();
        (self.auth[at..at + 77].to_vec(), self.auth[at + 77..].to_vec())
    }

    fn verifying_key(&self) -> VerifyingKey {
        let (k, _) = self.key_and_rest();
        let pt =
            EncodedPoint::from_affine_coordinates(k[10..42].into(), k[45..77].into(), false);
        VerifyingKey::from_encoded_point(&pt).unwrap()
    }
}

fn made(c: &mut TestCtx, r: &Req) -> Made {
    let (res, out) = run(c, r);
    res.unwrap();
    parsed(&out)
}

// ---- a made credential ----
#[test]
fn a_non_resident_credential() {
    let mut c = setup();
    let m = made(&mut c, &base());
    assert_eq!(m.fmt, "none");
    assert_eq!(m.stmt_entries, 0);
    assert_eq!(&m.auth[..32], &sha256(b"example.com"));
    // User present, attested credential data; not verified, no extensions.
    assert_eq!(m.flags(), 0x41);
    assert_eq!(&m.auth[37..53], &aaguid());
    // The id is the box, which opens for the relying party.
    let seed = load_keydev(&c.dev, &mut c.fs).unwrap();
    let cred = TestCodec.load(&seed, &m.cred_id(), &sha256(b"example.com")).unwrap();
    assert_eq!(cred.user_id, vec![1, 2, 3, 4]);
    // The public key is that of the scalar which the id derives.
    let raw = fido_load_key(&seed, &m.cred_id()).unwrap();
    let (x, y) = public_xy(&raw[..32].try_into().unwrap());
    let (key, rest) = m.key_and_rest();
    assert_eq!((&key[10..42], &key[45..77]), (&x[..], &y[..]));
    assert!(rest.is_empty());
    assert_eq!(c.presence.source().calls, 1);
    // Nothing is stored of it.
    assert_eq!(for_each_rp(&c.dev, &mut c.fs, &mut recorded()).len(), 0);
}

#[test]
fn a_resident_credential_is_stored() {
    let mut c = setup();
    let mut r = resident();
    r.name = Some("neo".to_string());
    let m = made(&mut c, &r);
    // The id is the stable one, and the key derives from it.
    assert!(TestCodec.is_resident(&m.cred_id()));
    let seed = load_keydev(&c.dev, &mut c.fs).unwrap();
    let raw = fido_load_key(&seed, &m.cred_id()).unwrap();
    let (x, _) = public_xy(&raw[..32].try_into().unwrap());
    assert_eq!(&m.key_and_rest().0[10..42], &x[..]);
    let rps = for_each_rp(&c.dev, &mut c.fs, &mut recorded());
    assert_eq!((rps.len(), rps[0].count), (1, 1));
    assert_eq!(rps[0].rp_id, b"example.com".to_vec());
    let found =
        for_each_cred(&c.dev, &mut c.fs, &mut recorded(), &sha256(b"example.com"));
    assert_eq!(found[0].user_name, b"neo".to_vec());
}

#[test]
fn self_attestation_verifies_under_the_new_key() {
    let mut c = setup();
    let (res, out) = run_as(&mut c, SELF_ATT, &base());
    res.unwrap();
    let m = parsed(&out);
    assert_eq!(m.fmt, "packed");
    let mut msg = m.auth.clone();
    msg.extend_from_slice(&CDH);
    m.verifying_key().verify(&msg, &Signature::from_der(&m.sig).unwrap()).unwrap();
}

#[test]
fn the_counter_is_written_and_grows() {
    let mut c = setup();
    c.fs.put(EF_COUNTER, &[7, 0, 0, 0]).unwrap();
    let m = made(&mut c, &base());
    assert_eq!(&m.auth[33..37], &[0, 0, 0, 7]);
    let m = made(&mut c, &base());
    assert_eq!(&m.auth[33..37], &[0, 0, 0, 8]);
}

#[test]
fn extensions_are_answered_in_order() {
    let mut c = setup();
    c.fs.put(EF_MINPINLEN, &[6, 0]).unwrap();
    let mut r = resident();
    r.ext = vec![
        ("credBlob", vec![0x42, 0xAA, 0xBB]),
        ("credProtect", vec![0x02]),
        ("hmac-secret", vec![0xF5]),
    ];
    let m = made(&mut c, &r);
    assert_eq!(m.flags(), 0xC1);
    let (_, rest) = m.key_and_rest();
    let mut d = Decoder::new(&rest);
    assert_eq!(d.map().unwrap(), Some(3));
    assert_eq!((d.str().unwrap(), d.bool().unwrap()), ("credBlob", true));
    assert_eq!((d.str().unwrap(), d.u8().unwrap()), ("credProtect", 2));
    assert_eq!((d.str().unwrap(), d.bool().unwrap()), ("hmac-secret", true));
    assert_eq!(d.position(), rest.len());
}

#[test]
fn a_large_blob_key_is_answered() {
    let mut c = setup();
    let mut r = resident();
    r.ext = vec![("largeBlobKey", vec![0xF5])];
    let m = made(&mut c, &r);
    let seed = load_keydev(&c.dev, &mut c.fs).unwrap();
    let want = TestCodec.large_blob_key(&seed, &m.cred_id());
    assert_eq!(m.large_blob_key, Some(want.to_vec()));
}

#[test]
fn the_first_supported_algorithm_is_taken() {
    let mut c = setup();
    let mut r = base();
    r.algs = vec![-65535, ALG_ES256];
    assert_eq!(made(&mut c, &r).key_and_rest().0[..5], [0xA5, 0x01, 0x02, 0x03, 0x26]);
}

#[test]
fn a_preferred_algorithm_without_a_key_is_refused() {
    let mut c = setup();
    let mut r = base();
    r.algs = vec![ALG_ES256, ALG_MLDSA44];
    // The first one is taken by default, the quantum-safe one where it is preferred;
    // the codec here holds no such key.
    assert!(run(&mut c, &r).0.is_ok());
    let pqc = Profile { prefer_pqc: true, ..DEFAULT };
    assert!(run_as(&mut c, pqc, &r).0.is_err());
}

#[test]
fn the_fips_profile_makes_no_secp256k1_credential() {
    let fips = Profile { fips: true, ..DEFAULT };
    let mut c = setup();
    let mut r = base();
    r.algs = vec![ALG_ES256K];
    assert_eq!(run_as(&mut c, fips, &r).0, Err(CtapError::UnsupportedAlgorithm));
    // The next algorithm is taken where there is one.
    r.algs = vec![ALG_ES256K, ALG_ES256];
    assert!(run_as(&mut c, fips, &r).0.is_ok());
}

#[test]
fn a_cancelled_registration_leaves_the_flash_untouched() {
    let mut c = ctx_with(fs(), FidoState::new(), Presence::Cancelled);
    ensure_seed(&c.dev, &mut c.fs, &mut c.rng, &mut recorded()).unwrap();
    let before = c.fs.for_each_key();
    let mut r = base();
    r.options.push(("rk", true));
    assert_eq!(run(&mut c, &r).0, Err(CtapError::KeepAliveCancel));
    assert_eq!(c.presence.source().calls, 1);
    assert_eq!(c.fs.for_each_key(), before);
}

#[test]
fn enterprise_attestation_under_the_device_certificate() {
    let mut c = setup();
    c.fs.put(EF_EA_ENABLED, &[1]).unwrap();
    let mut r = base();
    r.enterprise = Some(2);
    // Without an organisation's key the device key signs; the level says
    // whether the attestation counts as that of an enterprise.
    let m = made(&mut c, &r);
    assert_eq!((m.fmt.as_str(), m.stmt_entries, m.ep_att), ("packed", 3, Some(true)));
    let (x, y) = public_xy(&load_keydev(&c.dev, &mut c.fs).unwrap());
    let pt = EncodedPoint::from_affine_coordinates((&x).into(), (&y).into(), false);
    let mut msg = m.auth.clone();
    msg.extend_from_slice(&CDH);
    VerifyingKey::from_encoded_point(&pt)
        .unwrap()
        .verify(&msg, &Signature::from_der(&m.sig).unwrap())
        .unwrap();
    r.enterprise = Some(1);
    let m = made(&mut c, &r);
    assert_eq!((m.fmt.as_str(), m.stmt_entries, m.ep_att), ("packed", 3, None));
    r.enterprise = Some(3);
    assert_eq!(refused(&mut c, &r), CtapError::InvalidOption);
}

#[test]
fn the_vendor_facilitates_one_party_in_a_build_for_it() {
    let build = Profile { vendor_ea: true, ..DEFAULT };
    let mut c = setup();
    c.fs.put(EF_EA_ENABLED, &[1]).unwrap();
    let mut r = base();
    r.enterprise = Some(1);
    r.rp = "enterprisetest.certinfra.fidoalliance.org".to_string();
    let ep = |c: &mut TestCtx, p: Profile, r: &Req| parsed(&run_as(c, p, r).1).ep_att;
    assert_eq!(ep(&mut c, build, &r), Some(true));
    // No other build lists the party, and no other party is listed.
    assert_eq!(ep(&mut c, DEFAULT, &r), None);
    r.rp = "example.com".to_string();
    assert_eq!(ep(&mut c, build, &r), None);
}

#[test]
fn an_organisation_key_signs_the_attestation() {
    let mut c = setup();
    let org = [0x21u8; 32];
    let d = dev();
    store_att_key(&d, &mut c.fs, &org).unwrap();
    c.fs.put(rs_key::fido::consts::EF_ATT_CHAIN, &[0x01, 0x03, 0x00, 0x30, 0x01, 0x77]).unwrap();
    c.fs.put(EF_EA_ENABLED, &[1]).unwrap();
    let mut r = base();
    r.enterprise = Some(2);
    let m = made(&mut c, &r);
    assert_eq!(m.fmt, "packed");
    let (x, y) = public_xy(&org);
    let pt = EncodedPoint::from_affine_coordinates((&x).into(), (&y).into(), false);
    let mut msg = m.auth.clone();
    msg.extend_from_slice(&CDH);
    VerifyingKey::from_encoded_point(&pt)
        .unwrap()
        .verify(&msg, &Signature::from_der(&m.sig).unwrap())
        .unwrap();
    assert_eq!(m.stmt_entries, 3);
}

// ---- refusals ----
#[test]
fn overlong_rpid_or_userid_rejected() {
    let mut c = setup();
    let mut long_rp = base();
    long_rp.rp = "a".repeat(251) + ".com"; // 255 > RP_ID_MAX
    assert!(long_rp.rp.len() > RP_ID_MAX);
    let mut long_user = base();
    long_user.rp = "ok.com".to_string();
    long_user.user = vec![0u8; 65];
    for req in [long_rp, long_user] {
        assert_eq!(run(&mut c, &req).0, Err(CtapError::InvalidLength));
    }
}

#[test]
fn incomplete_requests_are_refused() {
    let mut c = setup();
    let mut r = base();
    r.cdh = vec![0; 31];
    assert_eq!(refused(&mut c, &r), CtapError::MissingParameter);
    let mut r = base();
    r.rp = String::new();
    assert_eq!(refused(&mut c, &r), CtapError::MissingParameter);
    let mut r = base();
    r.algs = vec![-65535];
    assert_eq!(refused(&mut c, &r), CtapError::UnsupportedAlgorithm);
    let mut r = base();
    r.options = vec![("up", false)];
    assert_eq!(refused(&mut c, &r), CtapError::InvalidOption);
    let mut r = base();
    r.options = vec![("uv", true)];
    assert_eq!(refused(&mut c, &r), CtapError::InvalidOption);
    let mut r = base();
    r.ext = vec![("largeBlobKey", vec![0xF5])]; // not resident
    assert_eq!(refused(&mut c, &r), CtapError::InvalidOption);
    let mut r = base();
    r.ext = vec![("credProtect", vec![0x04])];
    assert_eq!(refused(&mut c, &r), CtapError::InvalidOption);
    let mut r = base();
    r.enterprise = Some(1);
    assert_eq!(refused(&mut c, &r), CtapError::InvalidParameter);
    let mut out = [0u8; 64];
    assert_eq!(
        make_credential(&mut c, &mut recorded(), DEFAULT, &[], &mut out),
        Err(CtapError::InvalidCbor)
    );
    assert_eq!(c.presence.source().calls, 0);
}

#[test]
fn a_declined_touch_makes_nothing() {
    for (verdict, status) in [
        (Presence::Declined, CtapError::OperationDenied),
        (Presence::Timeout, CtapError::OperationDenied),
        (Presence::Cancelled, CtapError::KeepAliveCancel),
    ] {
        let mut c = setup();
        c.presence = Watched::new(fixed(verdict));
        assert_eq!(refused(&mut c, &resident()), status);
        assert_eq!(for_each_rp(&c.dev, &mut c.fs, &mut recorded()).len(), 0);
    }
}

#[test]
fn an_excluded_credential_is_refused_without_a_touch() {
    let mut c = setup();
    let first = made(&mut c, &base());
    let mut r = base();
    r.exclude = vec![vec![0xEE; 40], first.cred_id()];
    let calls = c.presence.source().calls;
    assert_eq!(refused(&mut c, &r), CtapError::CredentialExcluded);
    assert_eq!(c.presence.source().calls, calls);
    // Another relying party does not know it.
    r.rp = "other.example".to_string();
    assert!(run(&mut c, &r).0.is_ok());
}

#[test]
fn a_small_buffer_is_refused() {
    let mut c = setup();
    let mut out = [0u8; 16];
    assert_eq!(
        make_credential(&mut c, &mut recorded(), DEFAULT, &encoded(&base()), &mut out),
        Err(CtapError::Other)
    );
}

// ---- the PIN ----
fn with_token(c: &mut TestCtx, perms: u8) {
    c.fs.put(EF_PIN, &[8, 4, 1]).unwrap();
    c.state.paut.token = TOKEN;
    c.state.paut.permissions = perms;
    c.state.begin_using_token(false);
}

fn authorized(token: &[u8; 32]) -> Req {
    let mut r = base();
    r.pin = Some(authenticate(PinProto::Two, token, &CDH));
    r.proto = Some(2);
    r
}

#[test]
fn a_set_pin_must_be_used() {
    let mut c = setup();
    c.fs.put(EF_PIN, &[8, 4, 1]).unwrap();
    assert_eq!(refused(&mut c, &base()), CtapError::PuatRequired);
}

#[test]
fn always_uv_demands_a_token() {
    let mut c = setup();
    c.fs.put(EF_ALWAYS_UV, &[1]).unwrap();
    assert_eq!(refused(&mut c, &base()), CtapError::PuatRequired);
}

#[test]
fn a_token_verifies_the_user_and_is_bound() {
    let mut c = setup();
    with_token(&mut c, PERM_MC);
    let m = made(&mut c, &authorized(&TOKEN));
    assert_eq!(m.flags(), 0x45);
    assert!(c.state.paut.has_rp_id);
    assert_eq!(c.state.paut.rp_id_hash, sha256(b"example.com"));
    // Now it serves no other relying party.
    let mut r = authorized(&TOKEN);
    r.rp = "other.example".to_string();
    assert_eq!(refused(&mut c, &r), CtapError::PinAuthInvalid);
}

#[test]
fn a_token_that_does_not_fit_is_refused() {
    let mut c = setup();
    with_token(&mut c, PERM_GA);
    assert_eq!(refused(&mut c, &authorized(&TOKEN)), CtapError::PinAuthInvalid);
    with_token(&mut c, PERM_MC);
    assert_eq!(refused(&mut c, &authorized(&[0x11; 32])), CtapError::PinAuthInvalid);
    let mut r = authorized(&TOKEN);
    r.proto = None;
    assert_eq!(refused(&mut c, &r), CtapError::MissingParameter);
    r.proto = Some(3);
    assert_eq!(refused(&mut c, &r), CtapError::InvalidParameter);
}

#[test]
fn an_empty_parameter_probes_for_the_pin() {
    let mut c = setup();
    let mut r = base();
    r.pin = Some(Vec::new());
    r.proto = Some(2);
    assert_eq!(refused(&mut c, &r), CtapError::PinNotSet);
    assert_eq!(c.presence.source().calls, 1);
    c.fs.put(EF_PIN, &[8, 4, 1]).unwrap();
    assert_eq!(refused(&mut c, &r), CtapError::PinAuthInvalid);
}

#[test]
fn a_message_makes_a_credential() {
    let mut c = setup();
    let mut msg = vec![CTAP_MAKE_CREDENTIAL];
    msg.extend_from_slice(&encoded(&base()));
    let mut out = vec![0u8; 2048];
    let n = process_cbor(
        &mut c,
        &mut recorded(),
        &mut Logged::new(NoCommands),
        DEFAULT,
        &msg,
        &mut out,
    );
    assert_eq!(out[0], CTAP2_OK);
    assert_eq!(Decoder::new(&out[1..n]).datatype().unwrap(), Type::Map);
    assert_eq!(parsed(&out[1..n]).fmt, "none");
}

// ---- texts ----
#[test]
fn a_text_is_cut_between_characters() {
    assert_eq!(truncate_utf8(b"abc", 3), b"abc");
    assert_eq!(truncate_utf8(b"abcd", 3), b"abc");
    // Two bytes each: the cut falls back to the start of the second one.
    assert_eq!(truncate_utf8("éé".as_bytes(), 3), "é".as_bytes());
    assert_eq!(truncate_utf8("€".as_bytes(), 2), b"");
    assert_eq!(truncate_utf8(b"abc", 0), b"");
}

// ---- reset ----
#[test]
fn reset_wipes_and_renews() {
    let mut c = setup();
    let old = load_keydev(&c.dev, &mut c.fs).unwrap();
    run(&mut c, &resident()).0.unwrap();
    c.fs.put(EF_PIN, &[8, 4, 1]).unwrap();
    c.fs.put(0x2F00, b"another applet").unwrap();
    store_att_key(&dev(), &mut c.fs, &[0x21; 32]).unwrap();
    assert_eq!(reset(&mut c, &mut recorded()), Ok(0));
    assert!(!c.fs.has_data(EF_PIN));
    assert!(!c.fs.has_data(EF_CRED));
    assert_eq!(for_each_rp(&c.dev, &mut c.fs, &mut recorded()).len(), 0);
    assert!(c.fs.has_key(ef_key_dev()));
    assert_ne!(load_keydev(&c.dev, &mut c.fs).unwrap(), old);
    // What is not part of it stays, and so does what survives a factory reset.
    assert!(c.fs.has_data(0x2F00));
    assert_eq!(c.fs.has_data(FID_ATT_KEY), survives_factory_reset(FID_ATT_KEY));
    assert!(!is_fido_fid(0x2F00));
    assert!(is_fido_fid(EF_CRED));
}

#[test]
fn reset_needs_a_touch() {
    let mut c = setup();
    let old = load_keydev(&c.dev, &mut c.fs).unwrap();
    c.presence = Watched::new(fixed(Presence::Declined));
    assert!(reset(&mut c, &mut recorded()).is_err());
    assert_eq!(load_keydev(&c.dev, &mut c.fs), Some(old));
}

#[test]
fn reset_keeps_the_journal_chain() {
    let mut c = setup();
    for i in 0..3u32 {
        raw_append(&c.dev, &mut c.fs, 5, EV_GET_ASSERT, 0, &i.to_le_bytes()).unwrap();
    }
    let (_, before) = chain_head(&c.dev, &mut c.fs);
    reset(&mut c, &mut recorded()).unwrap();
    let (_, after) = chain_head(&c.dev, &mut c.fs);
    // The sequence goes on, with nothing of the old window left.
    assert_eq!(after.seq_next, before.seq_next + 2);
    assert_eq!(after.start, before.seq_next);
    let (shown, total) = for_each_event(&c.dev, &mut c.fs, 10);
    assert_eq!(total, 2);
    assert_eq!(shown.iter().map(|e| e.event).collect::<Vec<u8>>(), [EV_RESET, EV_BOOT]);
    // The slots of the old entries are gone.
    for seq in before.start..before.seq_next {
        assert!(!c.fs.has_data(EF_AUDIT_RING + (seq % 128) as u16));
    }
}

#[test]
fn registrations_of_one_power_cycle_share_a_boot_entry() {
    let mut c = setup();
    made(&mut c, &base());
    made(&mut c, &base());
    assert!(c.state.audit_boot_logged);
    let (shown, _) = for_each_event(&c.dev, &mut c.fs, 10);
    assert_eq!(
        shown.iter().map(|e| e.event).collect::<Vec<u8>>(),
        [EV_MAKE_CRED, EV_MAKE_CRED, EV_BOOT]
    );
}

#[test]
fn a_reset_spares_the_metadata_of_other_files() {
    let mut c = setup();
    c.fs.put(0x1234, &[1]).unwrap();
    c.fs.meta_add(0x1234, &[7, 7]).unwrap();
    c.fs.meta_add(EF_COUNTER, &[9]).unwrap();
    reset(&mut c, &mut recorded()).unwrap();
    let mut buf = [0u8; 4];
    assert_eq!(c.fs.meta_find(0x1234, &mut buf), Some(2));
    assert_eq!(buf[..2], [7, 7]);
    assert_eq!(c.fs.meta_find(EF_COUNTER, &mut buf), None);
}
