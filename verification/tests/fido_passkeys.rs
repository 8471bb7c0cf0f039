//! The resident credentials on the device's own display.

use chacha20poly1305::aead::{Aead, Payload};
use chacha20poly1305::{ChaCha20Poly1305, KeyInit};
use p256::elliptic_curve::sec1::ToEncodedPoint;
use rs_key::fido::codec::CredExt;
use rs_key::fido::codec::{Codec, CredInput, Credential, Record, Recorded};
use rs_key::fido::consts::{
    ef_key_dev, ALG_ES256, CURVE_P256, EF_RPNICK, FID_KEY_DEV, MAX_RESIDENT_CREDENTIALS,
    NICK_BOX_MAX, RP_NICK_MAX_LEN,
};
use rs_key::fido::consts::{EF_CRED, EF_RP};
use rs_key::fido::device::Device;
use rs_key::fido::keyderiv::verify_key;
use rs_key::fido::passkeys::{
    delete_cred, for_each_cred, for_each_rp, set_rp_nickname, AccountView, RpView,
};
use rs_key::fido::seed::{ensure_seed, load_keydev};
use rs_key::fido::state::FidoState;
use rs_key::fido::{Ctx, Presence, UserPresence, Watched};
use rs_key::fido::{Drawn, Rng};
use rs_key::fs::Sealed;
use rs_key::fs::{Fs, RamStorage};
use rs_key::sdk::Confirm;
use sha2::{Digest, Sha256};

struct SeqRng(u64);

impl Rng for SeqRng {
    fn fill(&mut self, buf: &mut [u8]) {
        for b in buf.iter_mut() {
            self.0 = self.0.wrapping_mul(6364136223846793005).wrapping_add(1);
            *b = (self.0 >> 33) as u8;
        }
    }
}

fn sha256(data: &[u8]) -> [u8; 32] {
    Sha256::digest(data).into()
}

#[allow(dead_code)]
fn public_xy(scalar: &[u8; 32]) -> ([u8; 32], [u8; 32]) {
    let pt = p256::SecretKey::from_slice(scalar)
        .unwrap()
        .public_key()
        .to_encoded_point(false);
    ((*pt.x().unwrap()).into(), (*pt.y().unwrap()).into())
}

#[allow(dead_code)]
fn dev() -> Device {
    Device {
        serial_hash: [0xAB; 32],
        serial_id: [1, 2, 3, 4, 5, 6, 7, 8],
        kbase: [0x31; 32],
        kbase_otp: None,
    }
}

#[allow(dead_code)]
fn fs() -> Fs<RamStorage> {
    Fs::new(RamStorage::new())
}

fn key_of(seed: &[u8], label: &[u8]) -> [u8; 32] {
    let mut v = seed.to_vec();
    v.extend_from_slice(label);
    sha256(&v)
}

fn aead_seal(key: &[u8; 32], nonce: &[u8; 12], aad: &[u8], msg: &[u8]) -> Vec<u8> {
    let c = ChaCha20Poly1305::new(key.into());
    let ct = c.encrypt(nonce.into(), Payload { msg, aad }).unwrap();
    let mut v = nonce.to_vec();
    v.extend_from_slice(&ct);
    v
}

fn aead_open(key: &[u8; 32], aad: &[u8], sealed: &[u8]) -> Option<Vec<u8>> {
    if sealed.len() < 28 {
        return None;
    }
    let c = ChaCha20Poly1305::new(key.into());
    c.decrypt((&sealed[..12]).into(), Payload { msg: &sealed[12..], aad })
        .ok()
}

fn put_field(v: &mut Vec<u8>, f: &[u8]) {
    v.extend_from_slice(&(f.len() as u16).to_be_bytes());
    v.extend_from_slice(f);
}

fn get_field(v: &[u8], pos: &mut usize) -> Vec<u8> {
    let n = u16::from_be_bytes([v[*pos], v[*pos + 1]]) as usize;
    let f = v[*pos + 2..*pos + 2 + n].to_vec();
    *pos += 2 + n;
    f
}

/// Credential boxes and names under ChaCha20-Poly1305, keys on P-256 only.
struct TestCodec;

#[allow(dead_code)]
fn recorded() -> Recorded<TestCodec> {
    Recorded::new(TestCodec)
}

impl Codec for TestCodec {
    fn create(
        &mut self,
        seed: &[u8; 32],
        input: &CredInput,
        rp_id_hash: &[u8; 32],
        iv: &[u8; 12],
    ) -> Option<Vec<u8>> {
        let mut v = Vec::new();
        put_field(&mut v, &input.rp_id);
        put_field(&mut v, &input.user_id);
        put_field(&mut v, &input.user_name);
        put_field(&mut v, &input.user_display_name);
        put_field(&mut v, &[input.ext.cred_protect as u8]);
        Some(aead_seal(&key_of(seed, b"box"), iv, rp_id_hash, &v))
    }

    fn load(&mut self, seed: &[u8; 32], cred_box: &[u8], rp_id_hash: &[u8; 32]) -> Option<
        Credential,
    > {
        if let Some(v) = aead_open(&key_of(seed, b"box"), rp_id_hash, cred_box) {
            let mut p = 0;
            let _rp = get_field(&v, &mut p);
            return Some(Credential {
                user_id: get_field(&v, &mut p),
                user_name: get_field(&v, &mut p),
                user_display_name: get_field(&v, &mut p),
                cred_protect: get_field(&v, &mut p)[0] as u64,
                u2f: false,
            });
        }
        let handle: [u8; 64] = cred_box.try_into().ok()?;
        verify_key(seed, rp_id_hash, &handle)?;
        Some(Credential {
            user_id: Vec::new(),
            user_name: Vec::new(),
            user_display_name: Vec::new(),
            cred_protect: 0,
            u2f: true,
        })
    }

    fn is_resident(&self, id: &[u8]) -> bool {
        id.starts_with(b"RESIDENT01")
    }

    fn resident_id(&mut self, cred_box: &[u8]) -> [u8; 42] {
        let mut id = [0u8; 42];
        id[..10].copy_from_slice(b"RESIDENT01");
        id[10..].copy_from_slice(&sha256(cred_box));
        id
    }

    fn store(
        &mut self,
        seed: &[u8; 32],
        present: &Vec<Record>,
        cred_box: &[u8],
        rp_id_hash: &[u8; 32],
        rp_id: &[u8],
        _user_id: &[u8],
    ) -> Option<Vec<Record>> {
        let used = |fid: u16| present.iter().any(|r| r.fid == fid);
        let slot = (EF_CRED..EF_CRED + 256).find(|f| !used(*f))?;
        let mut data = rp_id_hash.to_vec();
        data.extend_from_slice(&self.resident_id(cred_box));
        data.extend_from_slice(cred_box);
        let rp = present
            .iter()
            .find(|r| r.fid >= EF_RP && r.fid < EF_RP + 256 && r.data[1..33] == rp_id_hash[..]);
        let rp_record = match rp {
            Some(r) => {
                let mut d = r.data.clone();
                d[0] += 1;
                Record { fid: r.fid, data: d }
            }
            None => {
                let fid = (EF_RP..EF_RP + 256).find(|f| !used(*f))?;
                let mut d = vec![1];
                d.extend_from_slice(rp_id_hash);
                d.extend_from_slice(&aead_seal(
                    &key_of(seed, b"rp"),
                    &[7; 12],
                    rp_id_hash,
                    rp_id,
                ));
                Record { fid, data: d }
            }
        };
        Some(vec![Record { fid: slot, data }, rp_record])
    }

    fn hmac_key(&mut self, seed: &[u8; 32], cred_id: &[u8]) -> [u8; 64] {
        let mut k = [0u8; 64];
        k[..32].copy_from_slice(&key_of(&key_of(seed, cred_id), b"hs"));
        k[32..].copy_from_slice(&key_of(&key_of(seed, cred_id), b"hs-uv"));
        k
    }

    fn large_blob_key(&mut self, seed: &[u8; 32], cred_id: &[u8]) -> [u8; 32] {
        key_of(&key_of(seed, cred_id), b"lbk")
    }

    fn cose_public(&mut self, curve: u8, raw: &[u8; 66]) -> Option<Vec<u8>> {
        if curve != 1 {
            return None;
        }
        let scalar: [u8; 32] = raw[..32].try_into().ok()?;
        p256::SecretKey::from_slice(&scalar).ok()?;
        let (x, y) = public_xy(&scalar);
        let mut v = vec![0xA5, 0x01, 0x02, 0x03, 0x26, 0x20, 0x01, 0x21, 0x58, 0x20];
        v.extend_from_slice(&x);
        v.extend_from_slice(&[0x22, 0x58, 0x20]);
        v.extend_from_slice(&y);
        Some(v)
    }

    fn sign(&mut self, _curve: u8, raw: &[u8; 66], msg: &[u8]) -> (i64, Vec<u8>) {
        let key = p256::ecdsa::SigningKey::from_slice(&raw[..32]).unwrap();
        let sig: p256::ecdsa::Signature = p256::ecdsa::signature::Signer::sign(&key, msg);
        (-7, sig.to_der().as_bytes().to_vec())
    }

    fn attestation_cert(&mut self, key: &[u8; 32], serial: &[u8; 16]) -> Option<Vec<u8>> {
        let (x, y) = public_xy(key);
        let mut v = vec![0x30, 0x82, 0x01, 0x00];
        v.extend_from_slice(serial);
        v.extend_from_slice(&x);
        v.extend_from_slice(&y);
        v.resize(4 + 256, 0);
        Some(v)
    }

    fn open_rp_id(&mut self, seed: &[u8; 32], rp_id_hash: &[u8; 32], sealed: &[u8]) -> Option<
        Vec<u8>,
    > {
        aead_open(&key_of(seed, b"rp"), rp_id_hash, sealed)
    }

    fn open_nick(&mut self, seed: &[u8; 32], rp_id_hash: &[u8; 32], sealed: &[u8]) -> Option<
        Vec<u8>,
    > {
        aead_open(&key_of(seed, b"nick"), rp_id_hash, sealed)
    }

    fn seal_nick(&mut self, seed: &[u8; 32], rp_id_hash: &[u8; 32], nick: &[u8]) -> Option<
        Vec<u8>,
    > {
        Some(aead_seal(&key_of(seed, b"nick"), &[9; 12], rp_id_hash, nick))
    }

    fn strip_pin(&mut self, otp: bool, pin_hash: &[u8], wrapped: &[u8]) -> Option<[u8; 32]> {
        let inner = aead_open(&key_of(pin_hash, &[otp as u8]), b"pin", wrapped)?;
        inner.try_into().ok()
    }
}

/// A presence source with a fixed outcome that counts its requests.
struct Fixed {
    verdict: Presence,
    calls: usize,
}

#[allow(dead_code)]
fn fixed(verdict: Presence) -> Fixed {
    Fixed { verdict, calls: 0 }
}

impl UserPresence for Fixed {
    fn request(&mut self, _confirm: Confirm<'_>) -> Presence {
        self.calls += 1;
        self.verdict
    }
}

type TestCtx = Ctx<RamStorage, SeqRng, Fixed>;

#[allow(dead_code)]
fn ctx_with(fs: Fs<RamStorage>, state: FidoState, verdict: Presence) -> TestCtx {
    Ctx { dev: dev(), fs, rng: Drawn::new(SeqRng(1)), state, now_ms: 12345, presence: Watched::new(fixed(verdict)) }
}

#[allow(dead_code)]
fn ctx() -> TestCtx {
    ctx_with(fs(), FidoState::new(), Presence::Confirmed)
}

fn provisioned() -> (Fs<RamStorage>, [u8; 32]) {
    let mut f = fs();
    let mut rng = Drawn::new(SeqRng(1));
    ensure_seed(&dev(), &mut f, &mut rng, &mut recorded()).unwrap();
    let seed = load_keydev(&dev(), &mut f).unwrap();
    (f, seed)
}

fn present(fs: &mut Fs<RamStorage>) -> Vec<Record> {
    let mut v = Vec::new();
    for fid in fs.for_each_key() {
        let mut buf = vec![0u8; fs.size(fid).unwrap()];
        fs.read(fid, &mut buf).unwrap();
        v.push(Record { fid, data: buf });
    }
    v
}

// Registers a resident credential: a sealed box, its record and that of its
// relying party.
#[allow(clippy::too_many_arguments)]
fn add(
    fs: &mut Fs<RamStorage>,
    seed: &[u8; 32],
    iv_byte: u8,
    rp_id: &str,
    uid: &[u8],
    name: &str,
    dname: &str,
    cred_protect: u64,
) {
    let rp_hash = sha256(rp_id.as_bytes());
    let inp = CredInput {
        rp_id: rp_id.as_bytes().to_vec(),
        user_id: uid.to_vec(),
        user_name: name.as_bytes().to_vec(),
        user_display_name: dname.as_bytes().to_vec(),
        use_sign_count: false,
        rk: true,
        created_ms: 1,
        alg: ALG_ES256,
        curve: CURVE_P256,
        ext: CredExt {
            cred_protect,
            cred_blob: Vec::new(),
            hmac_secret: false,
            large_blob_key: false,
            third_party_payment: false,
        },
    };
    let cred_box = TestCodec.create(seed, &inp, &rp_hash, &[iv_byte; 12]).unwrap();
    let there = present(fs);
    for r in TestCodec.store(seed, &there, &cred_box, &rp_hash, rp_id.as_bytes(), uid).unwrap() {
        fs.put(r.fid, &r.data).unwrap();
    }
}

fn rps(fs: &mut Fs<RamStorage>) -> Vec<RpView> {
    for_each_rp(&dev(), fs, &mut recorded())
}

fn accounts(fs: &mut Fs<RamStorage>, rp_id: &str) -> Vec<AccountView> {
    for_each_cred(&dev(), fs, &mut recorded(), &sha256(rp_id.as_bytes()))
}

fn text(b: &[u8]) -> String {
    String::from_utf8(b.to_vec()).unwrap()
}

fn counts(fs: &mut Fs<RamStorage>) -> Vec<(String, u8)> {
    let mut v: Vec<(String, u8)> = rps(fs).iter().map(|r| (text(&r.rp_id), r.count)).collect();
    v.sort();
    v
}

#[test]
fn lists_rps_with_credential_counts() {
    let (mut fs, seed) = provisioned();
    add(&mut fs, &seed, 1, "github.com", b"u-alice", "alice", "Alice", 0);
    add(&mut fs, &seed, 2, "github.com", b"u-bob", "bob", "Bob", 0);
    add(&mut fs, &seed, 3, "google.com", b"u-carol", "carol", "Carol", 0);
    assert_eq!(rps(&mut fs).len(), 2);
    assert_eq!(
        counts(&mut fs),
        vec![("github.com".to_string(), 2), ("google.com".to_string(), 1)]
    );
}

#[test]
fn lists_accounts_under_one_rp() {
    let (mut fs, seed) = provisioned();
    add(&mut fs, &seed, 1, "github.com", b"u-alice", "alice", "Alice", 0);
    add(&mut fs, &seed, 2, "github.com", b"u-bob", "bob", "Bob", 2);
    add(&mut fs, &seed, 3, "google.com", b"u-carol", "carol", "Carol", 0);
    let found = accounts(&mut fs, "github.com");
    assert_eq!(found.len(), 2);
    let mut names: Vec<String> = found.iter().map(|a| text(&a.user_name)).collect();
    names.sort();
    assert_eq!(names, vec!["alice".to_string(), "bob".to_string()]);
}

#[test]
fn surfaces_cred_protect_level() {
    let (mut fs, seed) = provisioned();
    add(&mut fs, &seed, 1, "bank.example", b"u1", "neo", "Neo", 3);
    let levels: Vec<u64> =
        accounts(&mut fs, "bank.example").iter().map(|a| a.cred_protect).collect();
    assert_eq!(levels, vec![3]);
}

#[test]
fn true_total_even_when_visitor_keeps_fewer() {
    let (mut fs, seed) = provisioned();
    add(&mut fs, &seed, 1, "a.example", b"u", "n", "N", 0);
    add(&mut fs, &seed, 2, "b.example", b"u", "n", "N", 0);
    add(&mut fs, &seed, 3, "c.example", b"u", "n", "N", 0);
    let all = rps(&mut fs);
    let kept = all.iter().take(1).count();
    assert_eq!(all.len(), 3, "the list holds the true total");
    assert_eq!(kept, 1, "a caller may keep a subset");
}

#[test]
fn empty_when_unprovisioned() {
    assert_eq!(rps(&mut fs()).len(), 0);
}

#[test]
fn empty_for_rp_with_no_credentials() {
    let (mut fs, seed) = provisioned();
    add(&mut fs, &seed, 1, "github.com", b"u", "n", "N", 0);
    assert_eq!(accounts(&mut fs, "nope.example").len(), 0);
}

fn fids_under(fs: &mut Fs<RamStorage>, rp_id: &str) -> Vec<u16> {
    accounts(fs, rp_id).iter().map(|a| a.ef_cred_fid).collect()
}

#[test]
fn delete_drops_cred_and_decrements_rp() {
    let (mut fs, seed) = provisioned();
    add(&mut fs, &seed, 1, "github.com", b"u-a", "a", "A", 0);
    add(&mut fs, &seed, 2, "github.com", b"u-b", "b", "B", 0);
    add(&mut fs, &seed, 3, "google.com", b"u-c", "c", "C", 0);

    let gh = fids_under(&mut fs, "github.com");
    assert_eq!(gh.len(), 2);
    assert!(delete_cred(&mut fs, gh[0]));

    // The other account survives, the other relying party is untouched.
    assert_eq!(fids_under(&mut fs, "github.com").len(), 1);
    assert_eq!(fids_under(&mut fs, "google.com").len(), 1);
    // The count went from two to one, so the relying party still lists once.
    assert_eq!(
        counts(&mut fs),
        vec![("github.com".to_string(), 1), ("google.com".to_string(), 1)]
    );
}

#[test]
fn delete_last_cred_removes_rp() {
    let (mut fs, seed) = provisioned();
    add(&mut fs, &seed, 1, "solo.example", b"u", "n", "N", 0);
    add(&mut fs, &seed, 2, "keep.example", b"u", "n", "N", 0);

    let solo = fids_under(&mut fs, "solo.example");
    assert_eq!(solo.len(), 1);
    assert!(delete_cred(&mut fs, solo[0]));

    // The record of the relying party is gone with its last credential.
    let seen: Vec<String> = rps(&mut fs).iter().map(|r| text(&r.rp_id)).collect();
    assert_eq!(seen.len(), 1);
    assert_eq!(seen, vec!["keep.example".to_string()]);
}

#[test]
fn delete_bad_fid_is_noop() {
    let (mut fs, seed) = provisioned();
    add(&mut fs, &seed, 1, "github.com", b"u", "n", "N", 0);
    // Out of range on either side, and an empty slot within it.
    assert!(!delete_cred(&mut fs, EF_CRED - 1));
    assert!(!delete_cred(&mut fs, EF_CRED + MAX_RESIDENT_CREDENTIALS));
    assert!(!delete_cred(&mut fs, EF_CRED + 200));
    // The real credential is still there.
    assert_eq!(fids_under(&mut fs, "github.com").len(), 1);
}

// ---- nicknames ----
/// The nickname that is listed for `rp_id`.
fn nick_of(fs: &mut Fs<RamStorage>, rp_id: &str) -> Option<String> {
    let want = sha256(rp_id.as_bytes());
    rps(fs)
        .iter()
        .find(|r| r.rp_id_hash == want)
        .and_then(|r| r.nickname.as_ref().map(|n| text(n)))
}

fn rename(fs: &mut Fs<RamStorage>, rp_id: &str, nick: &str) -> bool {
    set_rp_nickname(&dev(), fs, &mut recorded(), &sha256(rp_id.as_bytes()), nick.as_bytes())
}

#[test]
fn nickname_defaults_to_none_then_roundtrips() {
    let (mut fs, seed) = provisioned();
    add(&mut fs, &seed, 1, "github.com", b"u", "n", "N", 0);
    assert_eq!(nick_of(&mut fs, "github.com"), None);
    assert!(rename(&mut fs, "github.com", "Work GitHub"));
    assert_eq!(nick_of(&mut fs, "github.com").as_deref(), Some("Work GitHub"));
}

#[test]
fn nickname_update_then_clear() {
    let (mut fs, seed) = provisioned();
    add(&mut fs, &seed, 1, "github.com", b"u", "n", "N", 0);
    assert!(rename(&mut fs, "github.com", "first"));
    assert!(rename(&mut fs, "github.com", "second"));
    assert_eq!(nick_of(&mut fs, "github.com").as_deref(), Some("second"));
    // An empty nickname clears it.
    assert!(rename(&mut fs, "github.com", ""));
    assert_eq!(nick_of(&mut fs, "github.com"), None);
}

#[test]
fn nickname_on_unknown_rp_is_rejected() {
    let (mut fs, _seed) = provisioned();
    assert!(!rename(&mut fs, "nobody.example", "ghost"));
}

#[test]
fn nickname_too_long_is_rejected_and_not_stored() {
    let (mut fs, seed) = provisioned();
    add(&mut fs, &seed, 1, "github.com", b"u", "n", "N", 0);
    let long = "a".repeat(RP_NICK_MAX_LEN + 1);
    assert!(!rename(&mut fs, "github.com", &long));
    assert_eq!(nick_of(&mut fs, "github.com"), None);
    // Exactly the cap is accepted.
    let max = "b".repeat(RP_NICK_MAX_LEN);
    assert!(rename(&mut fs, "github.com", &max));
    assert_eq!(nick_of(&mut fs, "github.com").as_deref(), Some(max.as_str()));
}

#[test]
fn nickname_is_per_rp_and_survives_a_new_account() {
    let (mut fs, seed) = provisioned();
    add(&mut fs, &seed, 1, "github.com", b"u-a", "a", "A", 0);
    add(&mut fs, &seed, 2, "google.com", b"u-b", "b", "B", 0);
    assert!(rename(&mut fs, "github.com", "GH"));
    assert!(rename(&mut fs, "google.com", "GG"));
    // Another account must not disturb the nickname.
    add(&mut fs, &seed, 3, "github.com", b"u-c", "c", "C", 0);
    assert_eq!(nick_of(&mut fs, "github.com").as_deref(), Some("GH"));
    assert_eq!(nick_of(&mut fs, "google.com").as_deref(), Some("GG"));
}

#[test]
fn nickname_is_dropped_when_its_rp_disappears() {
    let (mut fs, seed) = provisioned();
    add(&mut fs, &seed, 1, "solo.example", b"u", "n", "N", 0);
    assert!(rename(&mut fs, "solo.example", "Solo"));

    // Delete the only credential: the relying party and its nickname go away.
    let solo = fids_under(&mut fs, "solo.example");
    assert!(delete_cred(&mut fs, solo[0]));

    // The same relying party does not inherit the old nickname.
    add(&mut fs, &seed, 2, "solo.example", b"u2", "n2", "N2", 0);
    assert_eq!(nick_of(&mut fs, "solo.example"), None);
}

#[test]
fn nickname_is_sealed_at_rest() {
    let (mut fs, seed) = provisioned();
    add(&mut fs, &seed, 1, "github.com", b"u", "n", "N", 0);
    assert!(rename(&mut fs, "github.com", "secretname"));
    // The clear text must not appear in any nickname slot.
    let mut rec = [0u8; 256];
    let mut found_cleartext = false;
    for i in 0..MAX_RESIDENT_CREDENTIALS {
        if let Some(n) = fs.read(EF_RPNICK + i, &mut rec) {
            let n = n.min(rec.len());
            if rec[..n].windows(b"secretname".len()).any(|w| w == b"secretname") {
                found_cleartext = true;
            }
        }
    }
    assert!(!found_cleartext, "nickname must be sealed, not cleartext");
}

// ---- sweeps ----
struct Prng(u64);

impl Prng {
    fn next(&mut self) -> u64 {
        self.0 = self.0.wrapping_add(0x9E3779B97F4A7C15);
        let mut z = self.0;
        z = (z ^ (z >> 30)).wrapping_mul(0xBF58476D1CE4E5B9);
        z = (z ^ (z >> 27)).wrapping_mul(0x94D049BB133111EB);
        z ^ (z >> 31)
    }

    fn bytes(&mut self, out: &mut [u8]) {
        for chunk in out.chunks_mut(8) {
            let r = self.next().to_le_bytes();
            let n = chunk.len();
            chunk.copy_from_slice(&r[..n]);
        }
    }
}

/// A new store with the same files.
fn restored(files: &[Record]) -> Fs<RamStorage> {
    let mut f = fs();
    for r in files {
        if r.fid == FID_KEY_DEV {
            f.put_key(ef_key_dev(), Sealed::wrap(&r.data)).unwrap();
        } else {
            f.put(r.fid, &r.data).unwrap();
        }
    }
    f
}

#[test]
fn fuzz_nickname_length_bound_is_reject_not_truncate() {
    let mut prng = Prng(0xDEAD_BEEF);
    let (mut first, seed) = provisioned();
    add(&mut first, &seed, 1, "github.com", b"u", "n", "N", 0);
    let files = present(&mut first);
    for _ in 0..2_000 {
        let mut fs = restored(&files);
        // An ASCII nickname of a length around the cap.
        let len = (prng.next() % (RP_NICK_MAX_LEN as u64 + 4)) as usize;
        let mut raw = [0u8; RP_NICK_MAX_LEN + 4];
        prng.bytes(&mut raw[..len]);
        for b in raw[..len].iter_mut() {
            *b = b'a' + (*b % 26);
        }
        let nick = text(&raw[..len]);

        let ok = rename(&mut fs, "github.com", &nick);
        assert_eq!(ok, nick.len() <= RP_NICK_MAX_LEN, "store accepted iff within the cap");

        let got = nick_of(&mut fs, "github.com");
        if nick.is_empty() {
            assert_eq!(got, None, "empty nick clears, leaves no name");
        } else if nick.len() <= RP_NICK_MAX_LEN {
            assert_eq!(got, Some(nick), "stored nick round-trips exactly");
        } else {
            assert_eq!(got, None, "an over-long nick must store nothing");
        }
    }
}

#[test]
fn fuzz_corrupt_stored_record_never_panics_or_names() {
    let mut prng = Prng(0x0BAD_F00D);
    let (mut first, seed) = provisioned();
    add(&mut first, &seed, 7, "github.com", b"u", "n", "N", 0);
    let files = present(&mut first);
    for _ in 0..4_000 {
        let mut fs = restored(&files);
        // Junk from too short for a box to oversize.
        let len = (prng.next() % (NICK_BOX_MAX as u64 + 40)) as usize;
        let mut junk = [0u8; NICK_BOX_MAX + 40];
        prng.bytes(&mut junk[..len]);
        fs.put(EF_RPNICK, &junk[..len]).unwrap();
        let got = nick_of(&mut fs, "github.com");
        assert_eq!(got, None, "a corrupt/forged record must never name an RP");
    }
}

#[test]
fn an_account_carries_its_names() {
    let (mut fs, seed) = provisioned();
    add(&mut fs, &seed, 1, "github.com", b"u-alice", "alice", "Alice", 2);
    let a = &accounts(&mut fs, "github.com")[0];
    assert_eq!(a.user_id, b"u-alice".to_vec());
    assert_eq!(text(&a.user_name), "alice");
    assert_eq!(text(&a.user_display_name), "Alice");
    assert_eq!((a.cred_protect, a.ef_cred_fid), (2, EF_CRED));
}

#[test]
fn a_deletion_spares_the_metadata_of_other_files() {
    let (mut fs, seed) = provisioned();
    add(&mut fs, &seed, 1, "solo.example", b"u", "n", "d", 1);
    let fid = accounts(&mut fs, "solo.example")[0].ef_cred_fid;
    fs.meta_add(fid, &[1]).unwrap();
    fs.meta_add(0x1234, &[2, 2]).unwrap();
    assert!(delete_cred(&mut fs, fid));
    let mut buf = [0u8; 4];
    assert_eq!(fs.meta_find(fid, &mut buf), None);
    assert_eq!(fs.meta_find(0x1234, &mut buf), Some(2));
}
