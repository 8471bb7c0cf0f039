//! The audit journal.

use chacha20poly1305::aead::{Aead, Payload};
use chacha20poly1305::{ChaCha20Poly1305, KeyInit};
use minicbor::Decoder;
use p256::ecdsa::signature::Verifier;
use p256::ecdsa::{Signature, VerifyingKey};
use p256::elliptic_curve::sec1::ToEncodedPoint;
use rs_key::fido::codec::{Codec, CredInput, Credential, Record, Recorded};
use rs_key::fido::consts::{AUDIT_RING_SLOTS, EF_AUDIT_RING};
use rs_key::fido::consts::{EF_CRED, EF_RP};
use rs_key::fido::device::Device;
use rs_key::fido::error::CtapError;
use rs_key::fido::journal::{
    append, attestation_key, build_entry, chain, chain_head, fold_and_scrub, for_each_event,
    raw_append, read_slot, vendor_checkpoint, vendor_read, EV_BOOT, EV_GET_ASSERT, EV_MAKE_CRED,
    EV_PIN_SET, EV_RESET,
};
use rs_key::fido::keyderiv::verify_key;
use rs_key::fido::state::FidoState;
use rs_key::fido::{Ctx, Presence, UserPresence, Watched};
use rs_key::fido::{Drawn, Rng};
use rs_key::fs::{Fs, RamStorage};
use rs_key::sdk::Confirm;
use sha2::{Digest, Sha256};

struct SeqRng(u64);

impl Rng for SeqRng {
    fn fill(&mut self, buf: &mut [u8]) {
        for b in buf.iter_mut() {
            self.0 = self.0.wrapping_mul(6364136223846793005).wrapping_add(1);
            *b = (self.0 >> 33) as u8;
        }
    }
}

fn sha256(data: &[u8]) -> [u8; 32] {
    Sha256::digest(data).into()
}

#[allow(dead_code)]
fn public_xy(scalar: &[u8; 32]) -> ([u8; 32], [u8; 32]) {
    let pt = p256::SecretKey::from_slice(scalar)
        .unwrap()
        .public_key()
        .to_encoded_point(false);
    ((*pt.x().unwrap()).into(), (*pt.y().unwrap()).into())
}

#[allow(dead_code)]
fn dev() -> Device {
    Device {
        serial_hash: [0xAB; 32],
        serial_id: [1, 2, 3, 4, 5, 6, 7, 8],
        kbase: [0x31; 32],
        kbase_otp: None,
    }
}

#[allow(dead_code)]
fn fs() -> Fs<RamStorage> {
    Fs::new(RamStorage::new())
}

fn key_of(seed: &[u8], label: &[u8]) -> [u8; 32] {
    let mut v = seed.to_vec();
    v.extend_from_slice(label);
    sha256(&v)
}

fn aead_seal(key: &[u8; 32], nonce: &[u8; 12], aad: &[u8], msg: &[u8]) -> Vec<u8> {
    let c = ChaCha20Poly1305::new(key.into());
    let ct = c.encrypt(nonce.into(), Payload { msg, aad }).unwrap();
    let mut v = nonce.to_vec();
    v.extend_from_slice(&ct);
    v
}

fn aead_open(key: &[u8; 32], aad: &[u8], sealed: &[u8]) -> Option<Vec<u8>> {
    if sealed.len() < 28 {
        return None;
    }
    let c = ChaCha20Poly1305::new(key.into());
    c.decrypt((&sealed[..12]).into(), Payload { msg: &sealed[12..], aad })
        .ok()
}

fn put_field(v: &mut Vec<u8>, f: &[u8]) {
    v.extend_from_slice(&(f.len() as u16).to_be_bytes());
    v.extend_from_slice(f);
}

fn get_field(v: &[u8], pos: &mut usize) -> Vec<u8> {
    let n = u16::from_be_bytes([v[*pos], v[*pos + 1]]) as usize;
    let f = v[*pos + 2..*pos + 2 + n].to_vec();
    *pos += 2 + n;
    f
}

/// Credential boxes and names under ChaCha20-Poly1305, keys on P-256 only.
struct TestCodec;

#[allow(dead_code)]
fn recorded() -> Recorded<TestCodec> {
    Recorded::new(TestCodec)
}

impl Codec for TestCodec {
    fn create(
        &mut self,
        seed: &[u8; 32],
        input: &CredInput,
        rp_id_hash: &[u8; 32],
        iv: &[u8; 12],
    ) -> Option<Vec<u8>> {
        let mut v = Vec::new();
        put_field(&mut v, &input.rp_id);
        put_field(&mut v, &input.user_id);
        put_field(&mut v, &input.user_name);
        put_field(&mut v, &input.user_display_name);
        put_field(&mut v, &[input.ext.cred_protect as u8]);
        Some(aead_seal(&key_of(seed, b"box"), iv, rp_id_hash, &v))
    }

    fn load(&mut self, seed: &[u8; 32], cred_box: &[u8], rp_id_hash: &[u8; 32]) -> Option<
        Credential,
    > {
        if let Some(v) = aead_open(&key_of(seed, b"box"), rp_id_hash, cred_box) {
            let mut p = 0;
            let _rp = get_field(&v, &mut p);
            return Some(Credential {
                user_id: get_field(&v, &mut p),
                user_name: get_field(&v, &mut p),
                user_display_name: get_field(&v, &mut p),
                cred_protect: get_field(&v, &mut p)[0] as u64,
                u2f: false,
            });
        }
        let handle: [u8; 64] = cred_box.try_into().ok()?;
        verify_key(seed, rp_id_hash, &handle)?;
        Some(Credential {
            user_id: Vec::new(),
            user_name: Vec::new(),
            user_display_name: Vec::new(),
            cred_protect: 0,
            u2f: true,
        })
    }

    fn is_resident(&self, id: &[u8]) -> bool {
        id.starts_with(b"RESIDENT01")
    }

    fn resident_id(&mut self, cred_box: &[u8]) -> [u8; 42] {
        let mut id = [0u8; 42];
        id[..10].copy_from_slice(b"RESIDENT01");
        id[10..].copy_from_slice(&sha256(cred_box));
        id
    }

    fn store(
        &mut self,
        seed: &[u8; 32],
        present: &Vec<Record>,
        cred_box: &[u8],
        rp_id_hash: &[u8; 32],
        rp_id: &[u8],
        _user_id: &[u8],
    ) -> Option<Vec<Record>> {
        let used = |fid: u16| present.iter().any(|r| r.fid == fid);
        let slot = (EF_CRED..EF_CRED + 256).find(|f| !used(*f))?;
        let mut data = rp_id_hash.to_vec();
        data.extend_from_slice(&self.resident_id(cred_box));
        data.extend_from_slice(cred_box);
        let rp = present
            .iter()
            .find(|r| r.fid >= EF_RP && r.fid < EF_RP + 256 && r.data[1..33] == rp_id_hash[..]);
        let rp_record = match rp {
            Some(r) => {
                let mut d = r.data.clone();
                d[0] += 1;
                Record { fid: r.fid, data: d }
            }
            None => {
                let fid = (EF_RP..EF_RP + 256).find(|f| !used(*f))?;
                let mut d = vec![1];
                d.extend_from_slice(rp_id_hash);
                d.extend_from_slice(&aead_seal(
                    &key_of(seed, b"rp"),
                    &[7; 12],
                    rp_id_hash,
                    rp_id,
                ));
                Record { fid, data: d }
            }
        };
        Some(vec![Record { fid: slot, data }, rp_record])
    }

    fn hmac_key(&mut self, seed: &[u8; 32], cred_id: &[u8]) -> [u8; 64] {
        let mut k = [0u8; 64];
        k[..32].copy_from_slice(&key_of(&key_of(seed, cred_id), b"hs"));
        k[32..].copy_from_slice(&key_of(&key_of(seed, cred_id), b"hs-uv"));
        k
    }

    fn large_blob_key(&mut self, seed: &[u8; 32], cred_id: &[u8]) -> [u8; 32] {
        key_of(&key_of(seed, cred_id), b"lbk")
    }

    fn cose_public(&mut self, curve: u8, raw: &[u8; 66]) -> Option<Vec<u8>> {
        if curve != 1 {
            return None;
        }
        let scalar: [u8; 32] = raw[..32].try_into().ok()?;
        p256::SecretKey::from_slice(&scalar).ok()?;
        let (x, y) = public_xy(&scalar);
        let mut v = vec![0xA5, 0x01, 0x02, 0x03, 0x26, 0x20, 0x01, 0x21, 0x58, 0x20];
        v.extend_from_slice(&x);
        v.extend_from_slice(&[0x22, 0x58, 0x20]);
        v.extend_from_slice(&y);
        Some(v)
    }

    fn sign(&mut self, _curve: u8, raw: &[u8; 66], msg: &[u8]) -> (i64, Vec<u8>) {
        let key = p256::ecdsa::SigningKey::from_slice(&raw[..32]).unwrap();
        let sig: p256::ecdsa::Signature = p256::ecdsa::signature::Signer::sign(&key, msg);
        (-7, sig.to_der().as_bytes().to_vec())
    }

    fn attestation_cert(&mut self, key: &[u8; 32], serial: &[u8; 16]) -> Option<Vec<u8>> {
        let (x, y) = public_xy(key);
        let mut v = vec![0x30, 0x82, 0x01, 0x00];
        v.extend_from_slice(serial);
        v.extend_from_slice(&x);
        v.extend_from_slice(&y);
        v.resize(4 + 256, 0);
        Some(v)
    }

    fn open_rp_id(&mut self, seed: &[u8; 32], rp_id_hash: &[u8; 32], sealed: &[u8]) -> Option<
        Vec<u8>,
    > {
        aead_open(&key_of(seed, b"rp"), rp_id_hash, sealed)
    }

    fn open_nick(&mut self, seed: &[u8; 32], rp_id_hash: &[u8; 32], sealed: &[u8]) -> Option<
        Vec<u8>,
    > {
        aead_open(&key_of(seed, b"nick"), rp_id_hash, sealed)
    }

    fn seal_nick(&mut self, seed: &[u8; 32], rp_id_hash: &[u8; 32], nick: &[u8]) -> Option<
        Vec<u8>,
    > {
        Some(aead_seal(&key_of(seed, b"nick"), &[9; 12], rp_id_hash, nick))
    }

    fn strip_pin(&mut self, otp: bool, pin_hash: &[u8], wrapped: &[u8]) -> Option<[u8; 32]> {
        let inner = aead_open(&key_of(pin_hash, &[otp as u8]), b"pin", wrapped)?;
        inner.try_into().ok()
    }
}

/// A presence source with a fixed outcome that counts its requests.
struct Fixed {
    verdict: Presence,
    calls: usize,
}

#[allow(dead_code)]
fn fixed(verdict: Presence) -> Fixed {
    Fixed { verdict, calls: 0 }
}

impl UserPresence for Fixed {
    fn request(&mut self, _confirm: Confirm<'_>) -> Presence {
        self.calls += 1;
        self.verdict
    }
}

type TestCtx = Ctx<RamStorage, SeqRng, Fixed>;

#[allow(dead_code)]
fn ctx_with(fs: Fs<RamStorage>, state: FidoState, verdict: Presence) -> TestCtx {
    Ctx { dev: dev(), fs, rng: Drawn::new(SeqRng(1)), state, now_ms: 12345, presence: Watched::new(fixed(verdict)) }
}

#[allow(dead_code)]
fn ctx() -> TestCtx {
    ctx_with(fs(), FidoState::new(), Presence::Confirmed)
}

const ENTRY_LEN: usize = 20;

/// The host's own fold: from the empty journal through every entry.
fn reference_head(entries: &[[u8; ENTRY_LEN]]) -> [u8; 32] {
    let (mut h, _) = chain_head(&dev(), &mut fs());
    for e in entries {
        h = chain(&h, e);
    }
    h
}

fn log(c: &mut TestCtx, ev: u8, detail: &[u8]) {
    raw_append(&c.dev, &mut c.fs, c.now_ms, ev, 0, detail).unwrap();
}

#[test]
fn append_wrap_folds_and_head_matches_reference() {
    let mut c = ctx();
    // 200 appends on a 128-slot ring: 72 evictions fold into the epoch.
    let mut reference = Vec::new();
    for i in 0..200u32 {
        let detail = i.to_le_bytes();
        log(&mut c, EV_GET_ASSERT, &detail);
        reference.push(build_entry(i, c.now_ms, EV_GET_ASSERT, 0, &detail));
    }
    let (head, m) = chain_head(&c.dev, &mut c.fs);
    assert_eq!(m.seq_next, 200);
    assert_eq!(m.start, 200 - AUDIT_RING_SLOTS);
    assert_eq!(head, reference_head(&reference));
}

#[test]
fn boot_entry_logged_once_per_cycle() {
    let mut c = ctx();
    append(&mut c, EV_MAKE_CRED, 0, &[0xAA; 8]);
    append(&mut c, EV_GET_ASSERT, 0, &[0xBB; 8]);
    let (_, m) = chain_head(&c.dev, &mut c.fs);
    assert_eq!(m.seq_next, 3); // boot and the two events
    let e = read_slot(&mut c.fs, 0).unwrap();
    assert_eq!(e[8], EV_BOOT);
}

#[test]
fn fold_and_scrub_keeps_chain_and_deletes_details() {
    let mut c = ctx();
    let mut reference = Vec::new();
    for i in 0..5u32 {
        log(&mut c, EV_GET_ASSERT, &i.to_le_bytes());
        reference.push(build_entry(i, c.now_ms, EV_GET_ASSERT, 0, &i.to_le_bytes()));
    }
    fold_and_scrub(&c.dev, &mut c.fs);

    // Window empty, slots gone, the epoch carries the whole history.
    let (head, m) = chain_head(&c.dev, &mut c.fs);
    assert_eq!(m.start, m.seq_next);
    assert!(!c.fs.has_data(EF_AUDIT_RING));
    assert_eq!(head, reference_head(&reference));

    // The chain goes on after the scrub.
    log(&mut c, EV_RESET, &[]);
    reference.push(build_entry(5, c.now_ms, EV_RESET, 0, &[]));
    let (head, _) = chain_head(&c.dev, &mut c.fs);
    assert_eq!(head, reference_head(&reference));
}

#[test]
fn attestation_key_is_deterministic_and_devk_bound() {
    let k1 = attestation_key(&[7; 32], &[0xAB; 32]).unwrap();
    let k2 = attestation_key(&[7; 32], &[0xAB; 32]).unwrap();
    let k3 = attestation_key(&[8; 32], &[0xAB; 32]).unwrap();
    assert_eq!(public_xy(&k1), public_xy(&k2));
    assert_ne!(public_xy(&k1), public_xy(&k3));
}

#[test]
fn checkpoint_requires_devk_and_signature_verifies() {
    let mut c = ctx();
    let mut out = [0u8; 512];

    // Without the fused root the checkpoint is refused.
    assert_eq!(
        vendor_checkpoint(&mut c, &[0x55; 16], &mut out),
        Err(CtapError::NotAllowed)
    );

    c.state.devk = Some([7; 32]);
    append(&mut c, EV_MAKE_CRED, 0, &[1; 8]);
    let n = vendor_checkpoint(&mut c, &[0x55; 16], &mut out).unwrap();

    // {1: head, 2: seq_next, 3: sig, 4: pubkey}
    let mut d = Decoder::new(&out[..n]);
    assert_eq!(d.map().unwrap().unwrap(), 4);
    assert_eq!(d.u8().unwrap(), 1);
    let head: [u8; 32] = d.bytes().unwrap().try_into().unwrap();
    assert_eq!(d.u8().unwrap(), 2);
    let seq_next = d.u32().unwrap();
    assert_eq!(d.u8().unwrap(), 3);
    let sig = d.bytes().unwrap().to_vec();
    assert_eq!(d.u8().unwrap(), 4);
    let pubkey = d.bytes().unwrap().to_vec();

    // The signed head is the one before the entry that the call itself appends.
    let (now_head, m) = chain_head(&c.dev, &mut c.fs);
    assert_eq!(m.seq_next, seq_next + 1);
    assert_ne!(head, now_head);

    let mut msg = b"RSK-AUDIT-CKPT-v1".to_vec();
    msg.extend_from_slice(&head);
    msg.extend_from_slice(&seq_next.to_le_bytes());
    msg.extend_from_slice(&[0x55; 16]);
    let vk = VerifyingKey::from_sec1_bytes(&pubkey).unwrap();
    let sig = Signature::from_der(&sig).unwrap();
    vk.verify(&msg, &sig).unwrap();

    // A challenge of more than 32 bytes.
    assert_eq!(
        vendor_checkpoint(&mut c, &[0x55; 33], &mut out),
        Err(CtapError::InvalidParameter)
    );
}

#[test]
fn read_exports_window_that_folds_to_head() {
    let mut c = ctx();
    let mut out = [0u8; 4096];
    append(&mut c, EV_MAKE_CRED, 1, &[2; 8]);
    append(&mut c, EV_PIN_SET, 0, &[]);
    let n = vendor_read(&c.dev, &mut c.fs, &mut out).unwrap();

    let mut d = Decoder::new(&out[..n]);
    assert_eq!(d.map().unwrap().unwrap(), 4);
    assert_eq!(d.u8().unwrap(), 1);
    let start = d.u32().unwrap();
    assert_eq!(d.u8().unwrap(), 2);
    let seq_next = d.u32().unwrap();
    assert_eq!(d.u8().unwrap(), 3);
    let mut epoch: [u8; 32] = d.bytes().unwrap().try_into().unwrap();
    assert_eq!(d.u8().unwrap(), 4);
    let entries = d.bytes().unwrap();

    assert_eq!(start, 0);
    assert_eq!(seq_next, 3); // boot and two events
    assert_eq!(entries.len(), 3 * ENTRY_LEN);
    for e in entries.chunks_exact(ENTRY_LEN) {
        epoch = chain(&epoch, e.try_into().unwrap());
    }
    let (head, _) = chain_head(&c.dev, &mut c.fs);
    assert_eq!(epoch, head);
}

#[test]
fn for_each_event_visits_newest_first_and_counts() {
    let mut c = ctx();
    // The boot entry comes first, then these three.
    append(&mut c, EV_MAKE_CRED, 0, &[]);
    append(&mut c, EV_GET_ASSERT, 0, &[]);
    append(&mut c, EV_PIN_SET, 0, &[]);

    let (events, total) = for_each_event(&c.dev, &mut c.fs, 10);
    let seen: Vec<u8> = events.iter().map(|e| e.event).collect();
    assert_eq!(total, 4);
    assert_eq!(seen, vec![EV_PIN_SET, EV_GET_ASSERT, EV_MAKE_CRED, EV_BOOT]);

    // One that keeps only the first two still learns the true total.
    let (kept, total2) = for_each_event(&c.dev, &mut c.fs, 2);
    assert_eq!(total2, 4);
    assert_eq!(kept.len(), 2);
}

#[test]
fn entry_layout() {
    // Sequence number, uptime, event, aux, padding and eight bytes of detail.
    let e = build_entry(0x01020304, 0x0A0B0C0D, 7, 9, &[1, 2, 3, 4, 5, 6, 7, 8, 9]);
    assert_eq!(&e[..8], &[4, 3, 2, 1, 0x0D, 0x0C, 0x0B, 0x0A]);
    assert_eq!(e[8], 7);
    assert_eq!(e[9], 9);
    // One link of the chain is the digest over head and entry.
    let h = [0x11u8; 32];
    let mut v = h.to_vec();
    v.extend_from_slice(&e);
    assert_eq!(chain(&h, &e), sha256(&v));
}
