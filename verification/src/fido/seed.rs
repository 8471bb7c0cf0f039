//! The life of the device master seed: sealing at rest, format migrations, the
//! soft lock and first-boot initialisation.
//!
//! The seed (and the organisation attestation scalar) is stored
//! ChaCha20-Poly1305-sealed under a key derived from the root key of the
//! device, behind a format tag: 0x02 under the root key without the fused key,
//! 0x12 under the one with it. The nonce is synthetic, so sealing the same value
//! again gives the same record. Older AES-CBC records (0x01, 0x11) still load
//! and are sealed forward at boot; the PIN-wrapped ones (0x03, 0x13) at the
//! first PIN verification.

use vstd::prelude::*;
use vstd::slice::slice_subrange;
use vstd::utf8::*;

use crate::crypto;
use crate::crypto::{
    aes_decrypt, chacha20poly1305_decrypt, chacha20poly1305_encrypt, hkdf_sha256, hmac_sha256,
    p256_accepts,
};
use crate::fido::codec;
use crate::fido::codec::{Ask, Codec, Recorded};
use crate::fido::consts::{
    ef_att_key, ef_key_dev, ef_key_dev_enc, largeblob_initial, EF_COUNTER, EF_EE_DEV,
    EF_LARGEBLOB, FID_ATT_KEY, FID_KEY_DEV, FID_KEY_DEV_ENC,
};
use crate::fido::device::Device;
use crate::fido::state;
use crate::fido::state::fresh_scalar;
use crate::fido::{Drawn, Rng};
use crate::fs::file_system;
use crate::fs::{Fs, KeyFid, Sealed, Storage, MAX_DYNAMIC_FILES};
use crate::sdk;
use crate::sdk::{array12, array16, array32, be16_bytes, le32_bytes, le32_read, Error};
use crate::wipe::wipe;

verus! {

/// AES-CBC without the fused key.
pub const FORMAT_F1: u8 = 0x01;
/// AES-CBC without the fused key, under a PIN layer.
pub const FORMAT_F3: u8 = 0x03;
/// AES-CBC with the fused key.
pub const FORMAT_F1_OTP: u8 = 0x11;
/// AES-CBC with the fused key, under a PIN layer.
pub const FORMAT_F3_OTP: u8 = 0x13;
/// ChaCha20-Poly1305 without the fused key.
pub const FORMAT_G1: u8 = 0x02;
/// ChaCha20-Poly1305 with the fused key.
pub const FORMAT_G1_OTP: u8 = 0x12;

/// Length of an AES-CBC record.
pub const KEYDEV_F1_LEN: usize = 33;
/// Length of a ChaCha20-Poly1305 record: tag, nonce, ciphertext, MAC.
pub const KEYDEV_G1_LEN: usize = 61;
/// Length of a PIN-wrapped record.
pub const KEYDEV_F3_LEN: usize = 61;
/// Length of the soft-locked seed: nonce, ciphertext, MAC.
pub const LOCK_BLOB_LEN: usize = 60;

// ---- the soft lock ----
/// The soft-locked form of a seed.
pub open spec fn locked_form(key: Seq<u8>, nonce: Seq<u8>, seed: Seq<u8>) -> Seq<u8> {
    let s = crypto::chacha_seal(key, nonce, Seq::empty(), seed);
    nonce + s.0 + s.1
}

/// What a lock key makes of a soft-locked seed.
pub open spec fn unlocked(key: Seq<u8>, blob: Seq<u8>) -> Option<Seq<u8>> {
    if blob.len() != 60 {
        None
    } else {
        crypto::chacha_open(
            key,
            blob.subrange(0, 12),
            Seq::empty(),
            blob.subrange(12, 44),
            blob.subrange(44, 60),
        )
    }
}

/// The soft lock is engaged.
pub open spec fn locked(c: Map<u16, Seq<u8>>) -> bool {
    c.contains_key(FID_KEY_DEV_ENC) && c[FID_KEY_DEV_ENC].len() > 0
}

/// Whether the soft lock is engaged.
pub fn lock_engaged<S: Storage>(fs: &mut Fs<S>) -> (r: bool)
    requires
        old(fs).wf(),
    ensures
        final(fs).wf(),
        final(fs).reread(old(fs)),
        r == locked(old(fs).contents()),
{
    fs.has_key(ef_key_dev_enc())
}

/// Wraps the seed under a lock key with a given nonce. The lock key opens it
/// again.
pub fn seal_seed_with(nonce: &[u8; 12], lock_key: &[u8; 32], seed: &[u8; 32]) -> (r: Vec<u8>)
    ensures
        r@.len() == 60,
        r@ == locked_form(lock_key@, nonce@, seed@),
        unlocked(lock_key@, r@) == Some(seed@),
{
    let aad: [u8; 0] = [];
    assert(aad@ =~= Seq::<u8>::empty());
    let (ct, tag) = chacha20poly1305_encrypt(lock_key, nonce, &aad, seed);
    let mut blob: Vec<u8> = Vec::new();
    blob.extend_from_slice(nonce);
    blob.extend_from_slice(&ct);
    blob.extend_from_slice(&tag);
    assert(blob@ =~= nonce@ + ct@ + tag@);
    assert(blob@.subrange(0, 12) =~= nonce@);
    assert(blob@.subrange(12, 44) =~= ct@);
    assert(blob@.subrange(44, 60) =~= tag@);
    blob
}

/// Wraps the seed under a lock key with a random nonce. The lock key opens it
/// again.
pub fn seal_seed_locked<R: Rng>(
    rng: &mut Drawn<R>,
    lock_key: &[u8; 32],
    seed: &[u8; 32],
) -> (r: Vec<u8>)
    ensures
        r@.len() == 60,
        r@ == locked_form(lock_key@, r@.take(12), seed@),
        unlocked(lock_key@, r@) == Some(seed@),
        final(rng).drawn() == old(rng).drawn().push(r@.take(12)),
{
    let mut nonce = [0u8; 12];
    rng.fill(&mut nonce);
    let r: Vec<u8> = seal_seed_with(&nonce, lock_key, seed);
    assert(r@.take(12) =~= nonce@) by {
        let s = crypto::chacha_seal(lock_key@, nonce@, Seq::empty(), seed@);
        assert(r@ == nonce@ + s.0 + s.1);
    }
    r
}

/// Unwraps the seed with the lock key; nothing for a wrong key, a tampered blob
/// or a wrong length.
pub fn open_seed_locked(lock_key: &[u8; 32], blob: &[u8]) -> (r: Option<[u8; 32]>)
    ensures
        crypto::seen(r) == unlocked(lock_key@, blob@),
        r matches Some(s) ==> blob@ == locked_form(lock_key@, blob@.take(12), s@),
{
    if blob.len() != LOCK_BLOB_LEN {
        return None;
    }
    let nonce: [u8; 12] = array12(slice_subrange(blob, 0, 12));
    let ct: [u8; 32] = array32(slice_subrange(blob, 12, 44));
    let tag: [u8; 16] = array16(slice_subrange(blob, 44, 60));
    let aad: [u8; 0] = [];
    assert(aad@ =~= Seq::<u8>::empty());
    assert(blob@.take(12) =~= nonce@);
    assert(blob@ =~= nonce@ + ct@ + tag@);
    chacha20poly1305_decrypt(lock_key, &nonce, &aad, &ct, &tag)
}

// ---- sealing at rest ----
/// The tag of the format that the device writes.
pub open spec fn plain_tag_of(dev: Device) -> u8 {
    if dev.kbase_otp is Some {
        FORMAT_G1_OTP
    } else {
        FORMAT_G1
    }
}

/// The sealing key of a root key.
pub open spec fn enc_key_of(dev: Device, kbase: Seq<u8>) -> Seq<u8> {
    crypto::hkdf_sha256_of(dev.serial_hash@, kbase, encode_utf8("KEYDEV/CHACHA"@), 32)
}

/// The nonce key of a root key.
pub open spec fn nonce_key_of(dev: Device, kbase: Seq<u8>) -> Seq<u8> {
    crypto::hkdf_sha256_of(dev.serial_hash@, kbase, encode_utf8("KEYDEV/NONCE"@), 32)
}

/// The synthetic nonce of a value in a slot.
pub open spec fn nonce_of(nonce_key: Seq<u8>, fid: u16, value: Seq<u8>) -> Seq<u8> {
    crypto::hmac_sha256_of(
        crypto::hmac_sha256_of(nonce_key, sdk::be16(fid as int)),
        value,
    ).take(12)
}

/// The record that the device writes for a value in a slot.
pub open spec fn sealed_form(dev: Device, fid: u16, value: Seq<u8>) -> Seq<u8> {
    let nonce = nonce_of(nonce_key_of(dev, dev.current()), fid, value);
    let s = crypto::chacha_seal(
        enc_key_of(dev, dev.current()),
        nonce,
        dev.serial_hash@,
        value,
    );
    seq![plain_tag_of(dev)] + nonce + s.0 + s.1
}

/// What the device makes of a ChaCha20-Poly1305 record.
pub open spec fn opened_gcm(dev: Device, rec: Seq<u8>) -> Option<Seq<u8>> {
    if rec.len() != 61 || (rec[0] != FORMAT_G1 && rec[0] != FORMAT_G1_OTP) {
        None
    } else {
        match dev.arm(rec[0] == FORMAT_G1_OTP) {
            Some(kbase) => crypto::chacha_open(
                enc_key_of(dev, kbase),
                rec.subrange(1, 13),
                dev.serial_hash@,
                rec.subrange(13, 45),
                rec.subrange(45, 61),
            ),
            None => None,
        }
    }
}

/// What the device makes of an AES-CBC record.
pub open spec fn opened_cbc(dev: Device, rec: Seq<u8>) -> Option<Seq<u8>> {
    if rec.len() != 33 || (rec[0] != FORMAT_F1 && rec[0] != FORMAT_F1_OTP) {
        None
    } else {
        match dev.arm(rec[0] == FORMAT_F1_OTP) {
            Some(kbase) => Some(
                crypto::aes_cbc_dec(kbase, dev.serial_hash@.take(16), rec.subrange(1, 33)),
            ),
            None => None,
        }
    }
}

/// What the device makes of a record of either form.
pub open spec fn opened(dev: Device, rec: Seq<u8>) -> Option<Seq<u8>> {
    match opened_gcm(dev, rec) {
        Some(v) => Some(v),
        None => opened_cbc(dev, rec),
    }
}

/// The record of a slot, as far as the logic reads it.
pub open spec fn slot(c: Map<u16, Seq<u8>>, fid: u16) -> Option<Seq<u8>> {
    if c.contains_key(fid) {
        Some(file_system::clipped(c[fid], 64))
    } else {
        None
    }
}

/// The value of a slot.
pub open spec fn loaded(dev: Device, c: Map<u16, Seq<u8>>, fid: u16) -> Option<Seq<u8>> {
    match slot(c, fid) {
        Some(rec) => opened(dev, rec),
        None => None,
    }
}

/// The slot holds a record of the format that the device writes.
pub open spec fn up_to_date(dev: Device, c: Map<u16, Seq<u8>>, fid: u16) -> bool {
    match slot(c, fid) {
        Some(rec) => rec.len() > 0 && rec[0] == plain_tag_of(dev) && opened_gcm(dev, rec) is Some,
        None => false,
    }
}

fn plain_tag(dev: &Device) -> (t: u8)
    ensures
        t == plain_tag_of(*dev),
{
    if dev.kbase_otp.is_some() {
        FORMAT_G1_OTP
    } else {
        FORMAT_G1
    }
}

fn current_key(dev: &Device) -> (k: [u8; 32])
    ensures
        k@ == dev.current(),
{
    match dev.kbase_otp {
        Some(k) => k,
        None => dev.kbase,
    }
}

fn seed_enc_key(dev: &Device, kbase: &[u8; 32]) -> (k: [u8; 32])
    ensures
        k@ == enc_key_of(*dev, kbase@),
{
    hkdf_sha256(&dev.serial_hash, kbase, "KEYDEV/CHACHA".as_bytes())
}

fn seed_nonce_key(dev: &Device, kbase: &[u8; 32]) -> (k: [u8; 32])
    ensures
        k@ == nonce_key_of(*dev, kbase@),
{
    hkdf_sha256(&dev.serial_hash, kbase, "KEYDEV/NONCE".as_bytes())
}

fn synth_nonce(nonce_key: &[u8; 32], fid: u16, value: &[u8; 32]) -> (n: [u8; 12])
    ensures
        n@ == nonce_of(nonce_key@, fid, value@),
{
    let sub: [u8; 32] = hmac_sha256(nonce_key, &be16_bytes(fid));
    let full: [u8; 32] = hmac_sha256(&sub, value);
    let n: [u8; 12] = array12(slice_subrange(&full, 0, 12));
    assert(n@ =~= full@.take(12));
    n
}

/// Seals a value for a slot. The device opens the record again.
pub fn seal_gcm(dev: &Device, fid: KeyFid, value: &[u8; 32]) -> (r: Vec<u8>)
    ensures
        r@.len() == 61,
        r@ == sealed_form(*dev, fid.fid(), value@),
        opened_gcm(*dev, r@) == Some(value@),
{
    let mut kbase: [u8; 32] = current_key(dev);
    let mut nk: [u8; 32] = seed_nonce_key(dev, &kbase);
    let nonce: [u8; 12] = synth_nonce(&nk, fid.get(), value);
    wipe(&mut nk);
    let mut enc: [u8; 32] = seed_enc_key(dev, &kbase);
    let (ct, tag) = chacha20poly1305_encrypt(&enc, &nonce, &dev.serial_hash, value);
    wipe(&mut enc);
    wipe(&mut kbase);
    let mut rec: Vec<u8> = Vec::new();
    rec.push(plain_tag(dev));
    rec.extend_from_slice(&nonce);
    rec.extend_from_slice(&ct);
    rec.extend_from_slice(&tag);
    assert(rec@ =~= seq![plain_tag_of(*dev)] + nonce@ + ct@ + tag@);
    assert(rec@.subrange(1, 13) =~= nonce@);
    assert(rec@.subrange(13, 45) =~= ct@);
    assert(rec@.subrange(45, 61) =~= tag@);
    rec
}

/// Opens a ChaCha20-Poly1305 record; nothing for a malformed record, for one of
/// the fused arm on a device without a fused key, or where the MAC does not fit.
fn open_gcm(dev: &Device, buf: &[u8]) -> (r: Option<[u8; 32]>)
    ensures
        crypto::seen(r) == opened_gcm(*dev, buf@),
{
    if buf.len() != KEYDEV_G1_LEN {
        return None;
    }
    if buf[0] != FORMAT_G1 && buf[0] != FORMAT_G1_OTP {
        return None;
    }
    let kbase: [u8; 32] = match dev.arm_key(buf[0] == FORMAT_G1_OTP) {
        Some(k) => k,
        None => {
            return None;
        },
    };
    let nonce: [u8; 12] = array12(slice_subrange(buf, 1, 13));
    let ct: [u8; 32] = array32(slice_subrange(buf, 13, 45));
    let tag: [u8; 16] = array16(slice_subrange(buf, 45, 61));
    let mut enc: [u8; 32] = seed_enc_key(dev, &kbase);
    let r: Option<[u8; 32]> = chacha20poly1305_decrypt(
        &enc,
        &nonce,
        &dev.serial_hash,
        &ct,
        &tag,
    );
    wipe(&mut enc);
    r
}

/// Decrypts an AES-CBC record.
fn cbc_open(dev: &Device, buf: &[u8]) -> (r: Option<[u8; 32]>)
    ensures
        crypto::seen(r) == opened_cbc(*dev, buf@),
{
    if buf.len() != KEYDEV_F1_LEN {
        return None;
    }
    if buf[0] != FORMAT_F1 && buf[0] != FORMAT_F1_OTP {
        return None;
    }
    let kbase: [u8; 32] = match dev.arm_key(buf[0] == FORMAT_F1_OTP) {
        Some(k) => k,
        None => {
            return None;
        },
    };
    let iv: [u8; 16] = array16(slice_subrange(&dev.serial_hash, 0, 16));
    assert(iv@ =~= dev.serial_hash@.take(16));
    let plain: Vec<u8> = aes_decrypt(&kbase, &iv, slice_subrange(buf, 1, 33));
    Some(array32(plain.as_slice()))
}

/// Recovers a value from a record of either form.
fn open_any(dev: &Device, buf: &[u8]) -> (r: Option<[u8; 32]>)
    ensures
        crypto::seen(r) == opened(*dev, buf@),
{
    match open_gcm(dev, buf) {
        Some(v) => Some(v),
        None => cbc_open(dev, buf),
    }
}

/// The seed; nothing where it is absent, cannot be opened or is still wrapped
/// under the PIN.
pub fn load_keydev<S: Storage>(dev: &Device, fs: &mut Fs<S>) -> (r: Option<[u8; 32]>)
    requires
        old(fs).wf(),
    ensures
        final(fs).wf(),
        final(fs).reread(old(fs)),
        crypto::seen(r) == loaded(*dev, old(fs).contents(), FID_KEY_DEV),
{
    get_sealed32(dev, fs, ef_key_dev())
}

/// The organisation attestation scalar.
pub fn load_att_key<S: Storage>(dev: &Device, fs: &mut Fs<S>) -> (r: Option<[u8; 32]>)
    requires
        old(fs).wf(),
    ensures
        final(fs).wf(),
        final(fs).reread(old(fs)),
        crypto::seen(r) == loaded(*dev, old(fs).contents(), FID_ATT_KEY),
{
    get_sealed32(dev, fs, ef_att_key())
}

/// A new file does not fit the budget of dynamic files.
pub open spec fn no_room<S: Storage>(fs: &Fs<S>, fid: u16) -> bool {
    !fs.dynamic().contains(fid) && fs.dynamic().len() >= 1280
}

/// What writing one file does: on success the file holds `data`, on failure
/// nothing changed; it fails where there is no room, and otherwise only where
/// the backend does.
pub open spec fn file_written<S: Storage>(
    before: &Fs<S>,
    after: &Fs<S>,
    fid: u16,
    data: Seq<u8>,
    ok: bool,
) -> bool {
    &&& after.wf()
    &&& after.reliable() == before.reliable()
    &&& no_room(before, fid) ==> !ok
    &&& !no_room(before, fid) && before.reliable() ==> ok
    &&& ok ==> {
        &&& after.contents() == before.contents().insert(fid, data)
        &&& after.cached(fid) == Some(true)
        &&& after.dynamic() == (if before.dynamic().contains(fid) {
            before.dynamic()
        } else {
            before.dynamic().push(fid)
        })
    }
    &&& !ok ==> {
        &&& after.contents() == before.contents()
        &&& after.dynamic() == before.dynamic()
        &&& after.cached(fid) == before.cached(fid)
    }
    &&& forall|g: u16| g != fid ==> #[trigger] after.cached(g) == before.cached(g)
}

/// The outcome of writing one file.
pub open spec fn wrote<S: Storage>(
    before: &Fs<S>,
    after: &Fs<S>,
    fid: u16,
    data: Seq<u8>,
    r: Result<(), Error>,
) -> bool {
    &&& file_written(before, after, fid, data, r is Ok)
    &&& no_room(before, fid) ==> r == Err::<(), Error>(Error::NoMemory)
}

/// Seals the organisation attestation scalar and stores it. It loads again.
pub fn store_att_key<S: Storage>(dev: &Device, fs: &mut Fs<S>, key: &[u8; 32]) -> (r: Result<
    (),
    Error,
>)
    requires
        old(fs).wf(),
    ensures
        wrote(old(fs), final(fs), FID_ATT_KEY, sealed_form(*dev, FID_ATT_KEY, key@), r),
        r is Ok ==> loaded(*dev, final(fs).contents(), FID_ATT_KEY) == Some(key@),
{
    put_sealed32(dev, fs, ef_att_key(), key)
}

/// Reads and opens a slot.
fn get_sealed32<S: Storage>(dev: &Device, fs: &mut Fs<S>, fid: KeyFid) -> (r: Option<[u8; 32]>)
    requires
        old(fs).wf(),
    ensures
        final(fs).wf(),
        final(fs).reread(old(fs)),
        crypto::seen(r) == loaded(*dev, old(fs).contents(), fid.fid()),
{
    match fs.read_upto(fid.get(), 64) {
        Some(mut buf) => {
            let r: Option<[u8; 32]> = open_any(dev, buf.as_slice());
            wipe(buf.as_mut_slice());
            r
        },
        None => None,
    }
}

/// Seals the seed and stores it. It loads again.
pub fn encrypt_keydev_f1<S: Storage>(dev: &Device, fs: &mut Fs<S>, seed: &[u8; 32]) -> (r: Result<
    (),
    Error,
>)
    requires
        old(fs).wf(),
    ensures
        wrote(old(fs), final(fs), FID_KEY_DEV, sealed_form(*dev, FID_KEY_DEV, seed@), r),
        r is Ok ==> loaded(*dev, final(fs).contents(), FID_KEY_DEV) == Some(seed@),
        r is Ok ==> up_to_date(*dev, final(fs).contents(), FID_KEY_DEV),
{
    put_sealed32(dev, fs, ef_key_dev(), seed)
}

/// Seals a value and writes it to a slot.
fn put_sealed32<S: Storage>(dev: &Device, fs: &mut Fs<S>, fid: KeyFid, value: &[u8; 32]) -> (r:
    Result<(), Error>)
    requires
        old(fs).wf(),
    ensures
        wrote(old(fs), final(fs), fid.fid(), sealed_form(*dev, fid.fid(), value@), r),
        r is Ok ==> loaded(*dev, final(fs).contents(), fid.fid()) == Some(value@),
        r is Ok ==> up_to_date(*dev, final(fs).contents(), fid.fid()),
{
    let mut rec: Vec<u8> = seal_gcm(dev, fid, value);
    let r: Result<(), Error> = fs.put_key(fid, Sealed::wrap(rec.as_slice()));
    wipe(rec.as_mut_slice());
    r
}

/// Boot migration: brings the seed and the attestation scalar to the current
/// form under the current root key. A PIN-wrapped seed is left alone. No value
/// changes, and after a migration that succeeded both slots are up to date, so
/// the next one has nothing to do.
pub fn migrate_keydev_boot<S: Storage>(dev: &Device, fs: &mut Fs<S>) -> (r: Result<(), Error>)
    requires
        old(fs).wf(),
    ensures
        final(fs).wf(),
        final(fs).reliable() == old(fs).reliable(),
        loaded(*dev, final(fs).contents(), FID_KEY_DEV) == loaded(
            *dev,
            old(fs).contents(),
            FID_KEY_DEV,
        ),
        loaded(*dev, final(fs).contents(), FID_ATT_KEY) == loaded(
            *dev,
            old(fs).contents(),
            FID_ATT_KEY,
        ),
        r is Ok ==> final(fs).contents() == migrated(
            *dev,
            migrated(*dev, old(fs).contents(), FID_KEY_DEV),
            FID_ATT_KEY,
        ),
        r is Ok && loaded(*dev, old(fs).contents(), FID_KEY_DEV) is Some ==> up_to_date(
            *dev,
            final(fs).contents(),
            FID_KEY_DEV,
        ),
        r is Ok && loaded(*dev, old(fs).contents(), FID_ATT_KEY) is Some ==> up_to_date(
            *dev,
            final(fs).contents(),
            FID_ATT_KEY,
        ),
        r is Err ==> !old(fs).reliable() || old(fs).dynamic().len() + stale_file(
            *dev,
            old(fs),
            FID_KEY_DEV,
        ) + stale_file(*dev, old(fs), FID_ATT_KEY) > MAX_DYNAMIC_FILES,
{
    let ghost start = *fs;
    migrate_slot(dev, fs, ef_key_dev())?;
    proof {
        if start.dynamic() != fs.dynamic() {
            assert(fs.dynamic() == start.dynamic().push(FID_KEY_DEV));
            if start.dynamic().contains(FID_ATT_KEY) {
                let k = choose|k: int|
                    0 <= k < start.dynamic().len() && start.dynamic()[k] == FID_ATT_KEY;
                assert(fs.dynamic()[k] == FID_ATT_KEY);
            }
        }
    }
    migrate_slot(dev, fs, ef_att_key())
}

/// One where a migration makes a file of the slot anew: the slot opens, is not up
/// to date and is not among the known files.
pub open spec fn stale_file<S: Storage>(dev: Device, fs: &Fs<S>, fid: u16) -> int {
    if loaded(dev, fs.contents(), fid) is Some && !up_to_date(dev, fs.contents(), fid)
        && !fs.dynamic().contains(fid) {
        1
    } else {
        0
    }
}

/// The store after the slot was brought to the current form: a slot that is
/// absent, up to date or cannot be opened stays as it is.
pub open spec fn migrated(dev: Device, c: Map<u16, Seq<u8>>, fid: u16) -> Map<u16, Seq<u8>> {
    match loaded(dev, c, fid) {
        Some(v) => if up_to_date(dev, c, fid) {
            c
        } else {
            c.insert(fid, sealed_form(dev, fid, v))
        },
        None => c,
    }
}

/// A migration leaves a slot alone that is up to date, so a second one after a
/// first that succeeded changes nothing.
pub proof fn law_migration_settles(dev: Device, c: Map<u16, Seq<u8>>)
    requires
        up_to_date(dev, c, FID_KEY_DEV) || loaded(dev, c, FID_KEY_DEV) is None,
        up_to_date(dev, c, FID_ATT_KEY) || loaded(dev, c, FID_ATT_KEY) is None,
    ensures
        migrated(dev, migrated(dev, c, FID_KEY_DEV), FID_ATT_KEY) == c,
{
}

/// Brings one slot to the current form.
fn migrate_slot<S: Storage>(dev: &Device, fs: &mut Fs<S>, fid: KeyFid) -> (r: Result<(), Error>)
    requires
        old(fs).wf(),
    ensures
        final(fs).wf(),
        final(fs).reliable() == old(fs).reliable(),
        r is Ok ==> final(fs).contents() == migrated(*dev, old(fs).contents(), fid.fid()),
        r is Err ==> final(fs).contents() == old(fs).contents(),
        loaded(*dev, final(fs).contents(), fid.fid()) == loaded(
            *dev,
            old(fs).contents(),
            fid.fid(),
        ),
        r is Ok && loaded(*dev, old(fs).contents(), fid.fid()) is Some ==> up_to_date(
            *dev,
            final(fs).contents(),
            fid.fid(),
        ),
        r is Err ==> !old(fs).reliable() || old(fs).dynamic().len() + stale_file(
            *dev,
            old(fs),
            fid.fid(),
        ) > MAX_DYNAMIC_FILES,
        final(fs).dynamic() == old(fs).dynamic() || {
            &&& stale_file(*dev, old(fs), fid.fid()) == 1
            &&& final(fs).dynamic() == old(fs).dynamic().push(fid.fid())
        },
{
    match fs.read_upto(fid.get(), 64) {
        None => Ok(()),
        Some(mut buf) => {
            if buf.len() > 0 && buf[0] == plain_tag(dev) {
                if let Some(mut v) = open_gcm(dev, buf.as_slice()) {
                    wipe(&mut v);
                    wipe(buf.as_mut_slice());
                    return Ok(());
                }
            }
            let recovered: Option<[u8; 32]> = open_any(dev, buf.as_slice());
            wipe(buf.as_mut_slice());
            match recovered {
                Some(v) => put_sealed32(dev, fs, fid, &v),
                None => Ok(()),
            }
        },
    }
}

// ---- the PIN-wrapped formats ----
/// The PIN-wrapped seed: whether it is under the fused arm, and the wrapped
/// bytes. Nothing where the seed is of another format, or of the fused arm on a
/// device without a fused key.
pub open spec fn pin_wrapped(dev: Device, c: Map<u16, Seq<u8>>) -> Option<(bool, Seq<u8>)> {
    if !c.contains_key(FID_KEY_DEV) || c[FID_KEY_DEV].len() != 61 {
        None
    } else if c[FID_KEY_DEV][0] == FORMAT_F3 {
        Some((false, c[FID_KEY_DEV].skip(1)))
    } else if c[FID_KEY_DEV][0] == FORMAT_F3_OTP && dev.kbase_otp is Some {
        Some((true, c[FID_KEY_DEV].skip(1)))
    } else {
        None
    }
}

/// The seed inside a PIN-wrapped record, once its PIN layer is off.
pub open spec fn inner_seed(dev: Device, otp: bool, inner: Seq<u8>) -> Seq<u8> {
    crypto::aes_cbc_dec(dev.arm(otp)->0, dev.serial_hash@.take(16), inner)
}

/// The outcome of a PIN migration whose PIN layer came off as `inner`.
pub open spec fn pin_migrated<S: Storage>(
    dev: Device,
    before: &Fs<S>,
    after: &Fs<S>,
    otp: bool,
    inner: Option<Seq<u8>>,
    r: Result<(), Error>,
) -> bool {
    match inner {
        None => r == Err::<(), Error>(Error::ExecError) && after.contents() == before.contents(),
        Some(i) => wrote(
            before,
            after,
            FID_KEY_DEV,
            sealed_form(dev, FID_KEY_DEV, inner_seed(dev, otp, i)),
            r,
        ) && (r is Ok ==> loaded(dev, after.contents(), FID_KEY_DEV) == Some(
            inner_seed(dev, otp, i),
        )),
    }
}

/// Finishes the migration of a PIN-wrapped seed whose PIN layer came off as
/// `inner`: recovers the seed and seals it in the current form.
pub fn finish_pin_migration<S: Storage>(
    dev: &Device,
    fs: &mut Fs<S>,
    otp: bool,
    inner: Option<[u8; 32]>,
) -> (r: Result<(), Error>)
    requires
        old(fs).wf(),
        dev.arm(otp) is Some,
    ensures
        final(fs).wf(),
        pin_migrated(*dev, old(fs), final(fs), otp, crypto::seen(inner), r),
{
    let ct: [u8; 32] = match inner {
        Some(i) => i,
        None => {
            return Err(Error::ExecError);
        },
    };
    let mut cbc: Vec<u8> = Vec::new();
    cbc.push(
        if otp {
            FORMAT_F1_OTP
        } else {
            FORMAT_F1
        },
    );
    cbc.extend_from_slice(&ct);
    assert(cbc@.subrange(1, 33) =~= ct@);
    let recovered: Option<[u8; 32]> = cbc_open(dev, cbc.as_slice());
    wipe(cbc.as_mut_slice());
    match recovered {
        Some(seed) => put_sealed32(dev, fs, ef_key_dev(), &seed),
        None => Err(Error::ExecError),
    }
}

/// Migrates a PIN-wrapped seed forward once its PIN was verified. A seed of
/// another format is left alone; otherwise the codec is asked to strip the PIN
/// layer, and the outcome is the one that `finish_pin_migration` gives for its
/// answer.
pub fn migrate_keydev_pin<S: Storage, C: Codec>(
    dev: &Device,
    fs: &mut Fs<S>,
    codec: &mut Recorded<C>,
    pin_hash: &[u8],
) -> (r: Result<(), Error>)
    requires
        old(fs).wf(),
    ensures
        final(fs).wf(),
        match pin_wrapped(*dev, old(fs).contents()) {
            None => r is Ok && final(fs).reread(old(fs)),
            Some(w) => exists|inner: Option<Seq<u8>>, mid: Fs<S>|
                mid.reread(old(fs)) && codec::talk(old(codec), final(codec)).told(
                    Ask::StripPin {
                        otp: w.0,
                        pin_hash: pin_hash@,
                        wrapped: w.1,
                        answer: inner,
                    },
                ) && #[trigger] pin_migrated(*dev, &mid, final(fs), w.0, inner, r),
        },
        codec::talk(old(codec), final(codec)).wf(),
{
    let ghost asked = codec.asked();
    assert(asked.take(asked.len() as int) =~= asked);
    let mut buf: Vec<u8> = match fs.read_upto(FID_KEY_DEV, 62) {
        Some(b) => b,
        None => {
            return Ok(());
        },
    };
    let ghost whole = old(fs).contents()[FID_KEY_DEV];
    if buf.len() != KEYDEV_F3_LEN {
        return Ok(());
    }
    assert(buf@ == whole);
    let otp: bool = buf[0] == FORMAT_F3_OTP;
    if !otp && buf[0] != FORMAT_F3 {
        return Ok(());
    }
    if otp && dev.kbase_otp.is_none() {
        return Ok(());
    }
    let ghost mid = *fs;
    let inner: Option<[u8; 32]> = codec.strip_pin(
        otp,
        pin_hash,
        slice_subrange(buf.as_slice(), 1, 61),
    );
    assert(buf@.subrange(1, 61) =~= whole.skip(1));
    wipe(buf.as_mut_slice());
    let r: Result<(), Error> = finish_pin_migration(dev, fs, otp, inner);
    proof {
        codec::lemma_asked(
            asked,
            Ask::StripPin {
                otp,
                pin_hash: pin_hash@,
                wrapped: whole.skip(1),
                answer: crypto::seen(inner),
            },
        );
        assert(whole[0] == FORMAT_F3 || whole[0] == FORMAT_F3_OTP);
        let w = pin_wrapped(*dev, old(fs).contents());
        assert(w is Some && (w->0).0 == otp);
        assert(mid.reread(old(fs)) && pin_migrated(
            *dev,
            &mid,
            &*fs,
            (w->0).0,
            crypto::seen(inner),
            r,
        ));
    }
    r
}

// ---- first boot ----
/// The file holds something.
pub open spec fn holds(c: Map<u16, Seq<u8>>, fid: u16) -> bool {
    c.contains_key(fid) && c[fid].len() > 0
}

/// The seed loads, and is a P-256 private key.
pub open spec fn has_key(dev: Device, c: Map<u16, Seq<u8>>) -> bool {
    match loaded(dev, c, FID_KEY_DEV) {
        Some(k) => crypto::p256_scalar(k),
        None => false,
    }
}

/// The serial number that a draw of sixteen bytes gives: its sign bit is off.
pub open spec fn serial_of(draw: Seq<u8>) -> Seq<u8> {
    draw.update(0, draw[0] & 0x7F)
}

/// The certificate of the device was asked for with its key and a positive
/// serial number from the given draw of sixteen bytes.
pub open spec fn certified(
    t: codec::Talk,
    key: Seq<u8>,
    draw: Seq<u8>,
    cert: Option<Seq<u8>>,
) -> bool {
    &&& draw.len() == 16
    &&& t.told(Ask::AttestationCert { key, serial: serial_of(draw), answer: cert })
}

/// A first boot draws the seed.
pub open spec fn draws_seed(c: Map<u16, Seq<u8>>) -> bool {
    !locked(c) && !holds(c, FID_KEY_DEV)
}

/// A first boot draws a serial number for the certificate.
pub open spec fn draws_serial(c: Map<u16, Seq<u8>>) -> bool {
    !locked(c) && !holds(c, EF_EE_DEV)
}

/// The draws of a first boot that set up what was missing in `c`: the search for
/// the seed, which is `key`, where there was none, then the serial number where
/// there was no certificate.
pub open spec fn boot_draws(
    c: Map<u16, Seq<u8>>,
    key: Seq<u8>,
    before: Seq<Seq<u8>>,
    after: Seq<Seq<u8>>,
) -> bool {
    let searched = if draws_serial(c) {
        after.drop_last()
    } else {
        after
    };
    &&& draws_serial(c) ==> after.len() > 0
    &&& if draws_seed(c) {
        state::drew_scalar(before, searched, Some(key))
    } else {
        searched == before
    }
}

/// A first boot has a file to make of `fid`.
pub open spec fn makes_file<S: Storage>(fs: &Fs<S>, fid: u16) -> bool {
    &&& !fs.dynamic().contains(fid)
    &&& !holds(fs.contents(), fid)
    &&& fid == FID_KEY_DEV || fid == EF_EE_DEV ==> !locked(fs.contents())
}

/// The number of files that a first boot makes.
pub open spec fn new_files<S: Storage>(fs: &Fs<S>) -> int {
    (if makes_file(fs, FID_KEY_DEV) {
        1int
    } else {
        0
    }) + (if makes_file(fs, EF_COUNTER) {
        1int
    } else {
        0
    }) + (if makes_file(fs, EF_LARGEBLOB) {
        1int
    } else {
        0
    }) + (if makes_file(fs, EF_EE_DEV) {
        1int
    } else {
        0
    })
}

/// The certificate was asked for and refused, or is too long.
pub open spec fn cert_refused(t: codec::Talk, key: Seq<u8>, draw: Seq<u8>) -> bool {
    ||| certified(t, key, draw, None)
    ||| exists|x: Seq<u8>| x.len() > 512 && #[trigger] certified(t, key, draw, Some(x))
}

/// What may keep a first boot from ending well: the backend, the room for new
/// files, a search for a seed without a result, a stored seed that is no key, or
/// the certificate.
pub open spec fn boot_fails<S: Storage>(
    t: codec::Talk,
    dev: Device,
    before: &Fs<S>,
    after: &Fs<S>,
    drawn_before: Seq<Seq<u8>>,
    drawn_after: Seq<Seq<u8>>,
) -> bool {
    let c = before.contents();
    ||| !before.reliable()
    ||| before.dynamic().len() + new_files(before) > MAX_DYNAMIC_FILES
    ||| draws_seed(c) && after.contents() == c && state::drew_scalar(
        drawn_before,
        drawn_after,
        None,
    )
    ||| draws_serial(c) && !draws_seed(c) && !has_key(dev, c)
    ||| draws_serial(c) && has_key(dev, after.contents()) && boot_draws(
        c,
        loaded(dev, after.contents(), FID_KEY_DEV)->0,
        drawn_before,
        drawn_after,
    ) && cert_refused(t, loaded(dev, after.contents(), FID_KEY_DEV)->0, drawn_after.last())
}

/// The known files with one more, unless it was known.
pub open spec fn with_file(known: Seq<u16>, fid: u16) -> Seq<u16> {
    if known.contains(fid) {
        known
    } else {
        known.push(fid)
    }
}

/// A file that is made is new among the known files, and no other.
pub proof fn lemma_known(s: Seq<u16>, fid: u16)
    ensures
        forall|g: u16| #[trigger] s.push(fid).contains(g) == (s.contains(g) || g == fid),
        forall|g: u16| #[trigger] with_file(s, fid).contains(g) == (s.contains(g) || g == fid),
{
    assert forall|g: u16| #[trigger] s.push(fid).contains(g) == (s.contains(g) || g == fid) by {
        assert(s.push(fid)[s.len() as int] == fid);
        if s.contains(g) {
            let k = choose|k: int| 0 <= k < s.len() && s[k] == g;
            assert(s.push(fid)[k] == g);
        }
    }
}

/// First-boot initialisation: draws the seed if there is none, and sets up the
/// signature counter, the large-blob array and the attestation certificate. What
/// a file already holds stays. On a soft-locked device neither the seed nor the
/// certificate is touched: the wrapped blob is the seed.
pub fn ensure_seed<S: Storage, R: Rng, C: Codec>(
    dev: &Device,
    fs: &mut Fs<S>,
    rng: &mut Drawn<R>,
    codec: &mut Recorded<C>,
) -> (r: Result<(), Error>)
    requires
        old(fs).wf(),
    ensures
        final(fs).wf(),
        final(fs).reliable() == old(fs).reliable(),
        final(fs).dynamic().len() <= old(fs).dynamic().len() + new_files(old(fs)),
        forall|g: u16| #[trigger]
            old(fs).dynamic().contains(g) ==> final(fs).dynamic().contains(g),
        forall|g: u16|
            g != FID_KEY_DEV && g != EF_COUNTER && g != EF_LARGEBLOB && g != EF_EE_DEV ==> {
                &&& #[trigger] final(fs).contents().contains_key(g) == old(
                    fs,
                ).contents().contains_key(g)
                &&& final(fs).contents().contains_key(g) ==> final(fs).contents()[g] == old(
                    fs,
                ).contents()[g]
            },
        forall|g: u16| #[trigger]
            holds(old(fs).contents(), g) ==> final(fs).contents().contains_key(g)
                && final(fs).contents()[g] == old(fs).contents()[g],
        locked(old(fs).contents()) ==> final(fs).contents().contains_key(FID_KEY_DEV) == old(
            fs,
        ).contents().contains_key(FID_KEY_DEV) && final(fs).contents().contains_key(EF_EE_DEV)
            == old(fs).contents().contains_key(EF_EE_DEV),
        r is Ok ==> {
            &&& holds(final(fs).contents(), EF_COUNTER)
            &&& holds(final(fs).contents(), EF_LARGEBLOB)
            &&& !holds(old(fs).contents(), EF_COUNTER) ==> final(fs).contents()[EF_COUNTER]
                == seq![0u8, 0, 0, 0]
            &&& !holds(old(fs).contents(), EF_LARGEBLOB) ==> final(fs).contents()[EF_LARGEBLOB]
                == largeblob_initial()@
        },
        r is Ok && !locked(old(fs).contents()) ==> {
            &&& holds(final(fs).contents(), FID_KEY_DEV)
            &&& final(fs).contents().contains_key(EF_EE_DEV)
            &&& !holds(old(fs).contents(), FID_KEY_DEV) ==> has_key(*dev, final(fs).contents())
            &&& !holds(old(fs).contents(), EF_EE_DEV) ==> loaded(
                *dev,
                final(fs).contents(),
                FID_KEY_DEV,
            ) is Some && certified(
                codec::talk(old(codec), final(codec)),
                loaded(*dev, final(fs).contents(), FID_KEY_DEV)->0,
                final(rng).drawn().last(),
                Some(final(fs).contents()[EF_EE_DEV]),
            )
        },
        r is Ok ==> boot_draws(
            old(fs).contents(),
            loaded(*dev, final(fs).contents(), FID_KEY_DEV)->0,
            old(rng).drawn(),
            final(rng).drawn(),
        ),
        r is Err ==> boot_fails(
            codec::talk(old(codec), final(codec)),
            *dev,
            old(fs),
            final(fs),
            old(rng).drawn(),
            final(rng).drawn(),
        ),
        final(fs).learned_but(
            old(fs),
            |g: u16|
                g == FID_KEY_DEV || g == EF_COUNTER || g == EF_LARGEBLOB || g == EF_EE_DEV,
        ),
        codec::talk(old(codec), final(codec)).wf(),
{
    let ghost asked = codec.asked();
    assert(asked.take(asked.len() as int) =~= asked);
    let is_locked: bool = lock_engaged(fs);
    if !fs.has_key(ef_key_dev()) && !is_locked {
        let mut seed: [u8; 32] = match fresh_scalar(rng) {
            Some(k) => k,
            None => {
                return Err(Error::ExecError);
            },
        };
        let r: Result<(), Error> = encrypt_keydev_f1(dev, fs, &seed);
        wipe(&mut seed);
        r?;
    }
    let ghost seeded = *fs;
    let ghost searched = rng.drawn();
    proof {
        lemma_known(old(fs).dynamic(), FID_KEY_DEV);
        lemma_known(seeded.dynamic(), EF_COUNTER);
    }
    if !fs.has_data(EF_COUNTER) {
        let zero: [u8; 4] = [0, 0, 0, 0];
        assert(zero@ =~= seq![0u8, 0, 0, 0]);
        fs.put(EF_COUNTER, &zero)?;
    }
    let ghost counted = *fs;
    proof {
        lemma_known(counted.dynamic(), EF_LARGEBLOB);
    }
    if !fs.has_data(EF_LARGEBLOB) {
        fs.put(EF_LARGEBLOB, &largeblob_initial())?;
    }
    proof {
        lemma_known(fs.dynamic(), EF_EE_DEV);
    }
    if !is_locked && !fs.has_data(EF_EE_DEV) {
        let mut key: [u8; 32] = match load_keydev(dev, fs) {
            Some(k) => k,
            None => {
                return Err(Error::ExecError);
            },
        };
        if !p256_accepts(&key) {
            wipe(&mut key);
            return Err(Error::ExecError);
        }
        let mut serial = [0u8; 16];
        rng.fill(&mut serial);
        let ghost draw = serial@;
        let high: u8 = serial[0];
        serial[0] = high & 0x7F;
        let ghost drawn = serial@;
        let ghost own = key@;
        let ghost c0 = fs.contents();
        let cert: Option<Vec<u8>> = codec.attestation_cert(&key, &serial);
        proof {
            let ask = Ask::AttestationCert {
                key: own,
                serial: drawn,
                answer: crypto::seen_bytes(cert),
            };
            codec::lemma_asked(asked, ask);
            assert(codec::talk(old(codec), codec).told(ask));
            assert(drawn =~= serial_of(draw));
            assert(certified(codec::talk(old(codec), codec), own, draw, crypto::seen_bytes(cert)));
            assert(rng.drawn().drop_last() =~= searched);
        }
        wipe(&mut key);
        match cert {
            Some(c) => {
                if c.len() > 512 {
                    return Err(Error::ExecError);
                }
                fs.put(EF_EE_DEV, c.as_slice())?;
                assert(loaded(*dev, fs.contents(), FID_KEY_DEV) == loaded(*dev, c0, FID_KEY_DEV));
            },
            None => {
                return Err(Error::ExecError);
            },
        }
    }
    Ok(())
}

// ---- the signature counter ----
/// The signature counter; zero unless the file holds four bytes.
pub open spec fn counter(c: Map<u16, Seq<u8>>) -> int {
    if c.contains_key(EF_COUNTER) && c[EF_COUNTER].len() == 4 {
        sdk::le32_value(c[EF_COUNTER])
    } else {
        0
    }
}

/// The counter after one more signature.
pub open spec fn next_counter(n: int) -> int {
    if n == u32::MAX {
        0
    } else {
        n + 1
    }
}

/// The global signature counter.
pub fn get_sign_counter<S: Storage>(fs: &mut Fs<S>) -> (n: u32)
    requires
        old(fs).wf(),
    ensures
        final(fs).wf(),
        final(fs).reread(old(fs)),
        n == counter(old(fs).contents()),
{
    match fs.read_upto(EF_COUNTER, 5) {
        Some(b) => {
            if b.len() == 4 {
                le32_read(b.as_slice())
            } else {
                0
            }
        },
        None => 0,
    }
}

/// Stores the counter after one more signature; returns the value before, which
/// the current operation reports.
pub fn bump_sign_counter<S: Storage>(fs: &mut Fs<S>) -> (r: Result<u32, Error>)
    requires
        old(fs).wf(),
    ensures
        final(fs).wf(),
        final(fs).reliable() == old(fs).reliable(),
        r matches Ok(n) ==> n == counter(old(fs).contents()) && final(fs).contents() == old(
            fs,
        ).contents().insert(EF_COUNTER, sdk::le32(next_counter(n as int))) && counter(
            final(fs).contents(),
        ) == next_counter(n as int),
        r is Err ==> final(fs).contents() == old(fs).contents(),
        old(fs).reliable() && !no_room(old(fs), EF_COUNTER) ==> r is Ok,
        r is Ok ==> final(fs).dynamic() == with_file(old(fs).dynamic(), EF_COUNTER),
        r is Err ==> final(fs).dynamic() == old(fs).dynamic(),
{
    let ctr: u32 = get_sign_counter(fs);
    let next: u32 = if ctr == u32::MAX {
        0
    } else {
        ctr + 1
    };
    let bytes: [u8; 4] = le32_bytes(next);
    proof {
        sdk::law_le32_round_trip(next as int);
    }
    fs.put(EF_COUNTER, &bytes)?;
    Ok(ctr)
}

/// The counter that a signature reports grows by one from signature to
/// signature, until it wraps.
pub proof fn law_counter_grows(n: int)
    requires
        0 <= n < u32::MAX,
    ensures
        next_counter(n) == n + 1,
        0 <= next_counter(n) <= u32::MAX,
{
}

/// The record of a value: the tag of the device's form, a nonce and the sealed
/// value. The nonce is the front of an HMAC of the value under a key of the slot,
/// so that two slots and two values do not share one; the sealing key and the
/// nonce key come from the root key in use by separate labels, and the hash of the
/// serial number is authenticated.
pub proof fn law_sealed_record(dev: Device, fid: u16, value: Seq<u8>)
    ensures
        ({
            let root = match dev.kbase_otp {
                Some(k) => k@,
                None => dev.kbase@,
            };
            let sealing = crypto::hkdf_sha256_of(
                dev.serial_hash@,
                root,
                encode_utf8("KEYDEV/CHACHA"@),
                32,
            );
            let slot_key = crypto::hmac_sha256_of(
                crypto::hkdf_sha256_of(dev.serial_hash@, root, encode_utf8("KEYDEV/NONCE"@), 32),
                sdk::be16(fid as int),
            );
            let nonce = crypto::hmac_sha256_of(slot_key, value).take(12);
            let s = crypto::chacha_seal(sealing, nonce, dev.serial_hash@, value);
            sealed_form(dev, fid, value) == seq![
                if dev.kbase_otp is Some {
                    0x12u8
                } else {
                    0x02u8
                },
            ] + nonce + s.0 + s.1
        }),
{
}

/// A record is opened by its tag: one of the fused arm only with the fused key,
/// one of the other arm with the root key without it; any other record opens to
/// nothing.
pub proof fn law_opened_by_tag(dev: Device, rec: Seq<u8>)
    ensures
        opened(dev, rec) is Some ==> {
            ||| rec.len() == 61 && (rec[0] == 0x02 || rec[0] == 0x12)
            ||| rec.len() == 33 && (rec[0] == 0x01 || rec[0] == 0x11)
        },
        rec.len() > 0 && (rec[0] == 0x11 || rec[0] == 0x12) && dev.kbase_otp is None ==> opened(
            dev,
            rec,
        ) is None,
        rec.len() == 61 && rec[0] == 0x02 ==> opened(dev, rec) == crypto::chacha_open(
            crypto::hkdf_sha256_of(dev.serial_hash@, dev.kbase@, encode_utf8("KEYDEV/CHACHA"@), 32),
            rec.subrange(1, 13),
            dev.serial_hash@,
            rec.subrange(13, 45),
            rec.subrange(45, 61),
        ),
        rec.len() == 33 && rec[0] == 0x01 ==> opened(dev, rec) == Some(
            crypto::aes_cbc_dec(dev.kbase@, dev.serial_hash@.take(16), rec.subrange(1, 33)),
        ),
{
}

/// A soft-locked seed is a nonce, the sealed seed and its tag under the lock key;
/// with the right key, and only in that form, it is opened.
pub proof fn law_soft_lock(
    key: Seq<u8>,
    nonce: Seq<u8>,
    ct: Seq<u8>,
    tag: Seq<u8>,
    blob: Seq<u8>,
)
    requires
        nonce.len() == 12,
        ct.len() == 32,
        tag.len() == 16,
    ensures
        unlocked(key, nonce + ct + tag) == crypto::chacha_open(key, nonce, Seq::empty(), ct, tag),
        blob.len() != 60 ==> unlocked(key, blob) is None,
{
    let b = nonce + ct + tag;
    assert(b.subrange(0, 12) =~= nonce);
    assert(b.subrange(12, 44) =~= ct);
    assert(b.subrange(44, 60) =~= tag);
}

/// The counter is what its file says as four little-endian bytes, and zero where
/// the file is absent or of another length; behind the largest number it starts
/// over.
pub proof fn law_counter_is_stored(c: Map<u16, Seq<u8>>, n: int)
    requires
        0 <= n <= u32::MAX,
    ensures
        counter(c.insert(EF_COUNTER, sdk::le32(n))) == n,
        !c.contains_key(EF_COUNTER) ==> counter(c) == 0,
        next_counter(n) == (n + 1) % 0x1_0000_0000,
{
    sdk::law_le32_round_trip(n);
}

/// Migrating a slot seals anew what it holds where its form is not that of the
/// device, and changes nothing else: neither a slot that is up to date or does not
/// open, nor any other file.
pub proof fn law_migrated_slot(dev: Device, c: Map<u16, Seq<u8>>, fid: u16, g: u16)
    ensures
        g != fid ==> migrated(dev, c, fid).contains_key(g) == c.contains_key(g) && (c.contains_key(
            g,
        ) ==> migrated(dev, c, fid)[g] == c[g]),
        loaded(dev, c, fid) is None || up_to_date(dev, c, fid) ==> migrated(dev, c, fid) == c,
        loaded(dev, c, fid) matches Some(v) && !up_to_date(dev, c, fid) ==> migrated(
            dev,
            c,
            fid,
        )[fid] == sealed_form(dev, fid, loaded(dev, c, fid)->0),
{
}

/// A serial number is the draw with its sign bit off.
pub proof fn law_serial_is_positive(draw: Seq<u8>, i: int)
    requires
        draw.len() == 16,
        0 < i < 16,
    ensures
        serial_of(draw).len() == 16,
        serial_of(draw)[0] & 0x80 == 0,
        serial_of(draw)[0] & 0x7f == draw[0] & 0x7f,
        serial_of(draw)[i] == draw[i],
{
    let b = draw[0];
    assert((b & 0x7f) & 0x80 == 0 && (b & 0x7f) & 0x7f == b & 0x7f) by (bit_vector);
}

/// A file is written where the store is reliable and has room for it; it then
/// holds the data, and no other file changes. A write that fails changes nothing.
pub proof fn law_file_written<S: Storage>(
    before: &Fs<S>,
    after: &Fs<S>,
    fid: u16,
    data: Seq<u8>,
    ok: bool,
)
    requires
        file_written(before, after, fid, data, ok),
    ensures
        ok ==> after.contents() == before.contents().insert(fid, data),
        !ok ==> after.contents() == before.contents(),
        before.reliable() && (before.dynamic().contains(fid) || before.dynamic().len() < 1280)
            ==> ok,
        !before.dynamic().contains(fid) && before.dynamic().len() >= 1280 ==> !ok,
{
}

/// The soft-locked form of a seed is a nonce, the sealed seed and its tag, with
/// nothing authenticated beside it.
pub proof fn law_locked_form(key: Seq<u8>, nonce: Seq<u8>, seed: Seq<u8>)
    ensures
        locked_form(key, nonce, seed) == nonce + crypto::chacha_seal(
            key,
            nonce,
            Seq::empty(),
            seed,
        ).0 + crypto::chacha_seal(key, nonce, Seq::empty(), seed).1,
{
}

/// A seed under a PIN is told by its tag and its length; below the PIN layer it is
/// sealed by AES-CBC under the root key of its arm and the front of the hash of the
/// serial number.
pub proof fn law_pin_wrapped(dev: Device, c: Map<u16, Seq<u8>>, otp: bool, inner: Seq<u8>)
    ensures
        pin_wrapped(dev, c) matches Some(x) ==> c.contains_key(FID_KEY_DEV) && c[FID_KEY_DEV].len()
            == 61 && c[FID_KEY_DEV] == seq![
            if x.0 {
                0x13u8
            } else {
                0x03u8
            },
        ] + x.1 && (x.0 ==> dev.kbase_otp is Some),
        inner_seed(dev, false, inner) == crypto::aes_cbc_dec(
            dev.kbase@,
            dev.serial_hash@.take(16),
            inner,
        ),
        dev.kbase_otp matches Some(k) ==> inner_seed(dev, true, inner) == crypto::aes_cbc_dec(
            k@,
            dev.serial_hash@.take(16),
            inner,
        ),
{
    if pin_wrapped(dev, c) is Some {
        let rec = c[FID_KEY_DEV];
        assert(rec =~= seq![rec[0]] + rec.skip(1));
    }
}

/// A slot is up to date exactly where its record has the tag that the device
/// writes, that of the fused arm once there is a fused key, and opens.
pub proof fn law_up_to_date(dev: Device, c: Map<u16, Seq<u8>>, fid: u16)
    ensures
        up_to_date(dev, c, fid) <==> c.contains_key(fid) && file_system::clipped(c[fid], 64).len()
            == 61 && c[fid][0] == (if dev.kbase_otp is Some {
            0x12u8
        } else {
            0x02u8
        }) && opened(dev, file_system::clipped(c[fid], 64)) is Some,
        up_to_date(dev, c, fid) ==> loaded(dev, c, fid) is Some,
{
}

}
