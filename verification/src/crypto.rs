//! The cryptographic primitives, each a call into the crate that computes it.

use aes::cipher::block_padding::NoPadding;
use aes::cipher::{BlockDecryptMut, BlockEncryptMut, KeyIvInit};
use chacha20poly1305::{AeadInPlace, ChaCha20Poly1305, KeyInit};
use hkdf::Hkdf;
use hmac::{Hmac, Mac};
use ml_kem::kem::EncapsulationKey;
use ml_kem::{EncapsulateDeterministic, Encoded, EncodedSizeUser, MlKem768Params};
use p256::ecdsa::signature::Signer;
use p256::ecdsa::{Signature, SigningKey};
use p256::elliptic_curve::sec1::{FromEncodedPoint, ToEncodedPoint};
use p256::{EncodedPoint, PublicKey, SecretKey};
use sha2::{Digest, Sha256, Sha512};
use vstd::prelude::*;

verus! {

/// The bytes of a key or digest, where there is one.
pub open spec fn seen(r: Option<[u8; 32]>) -> Option<Seq<u8>> {
    match r {
        Some(k) => Some(k@),
        None => None,
    }
}

/// The bytes of a string, where there is one.
pub open spec fn seen_bytes(r: Option<Vec<u8>>) -> Option<Seq<u8>> {
    match r {
        Some(k) => Some(k@),
        None => None,
    }
}

/// The number that a big-endian byte string writes.
pub open spec fn be_value(s: Seq<u8>) -> nat
    decreases s.len(),
{
    if s.len() == 0 {
        0
    } else {
        256 * be_value(s.drop_last()) + s.last() as nat
    }
}

// ---- hashes ----
/// SHA-256 of `data`.
pub uninterp spec fn sha256_of(data: Seq<u8>) -> Seq<u8>;

/// `sha2::Sha256::digest`: the digest is determined by the bytes hashed.
#[verifier::external_body]
pub(crate) fn sha256(data: &[u8]) -> (r: [u8; 32])
    ensures
        r@ == sha256_of(data@),
{
    Sha256::digest(data).into()
}

/// HMAC-SHA-256 of `data` under `key`.
pub uninterp spec fn hmac_sha256_of(key: Seq<u8>, data: Seq<u8>) -> Seq<u8>;

/// `hmac::Hmac<Sha256>`, keyed with `key` (any length is taken) and fed with
/// `data` once: the tag is determined by the two.
#[verifier::external_body]
pub(crate) fn hmac_sha256(key: &[u8], data: &[u8]) -> (r: [u8; 32])
    ensures
        r@ == hmac_sha256_of(key@, data@),
{
    let mut mac = <Hmac<Sha256> as Mac>::new_from_slice(key).unwrap();
    mac.update(data);
    mac.finalize().into_bytes().into()
}

/// `n` bytes of HKDF-SHA-256 output.
pub uninterp spec fn hkdf_sha256_of(salt: Seq<u8>, ikm: Seq<u8>, info: Seq<u8>, n: int) -> Seq<
    u8,
>;

/// `hkdf::Hkdf<Sha256>`, extract then expand to 32 bytes, which is within what
/// `expand` can give: the output is determined by the three strings and the
/// length.
#[verifier::external_body]
pub(crate) fn hkdf_sha256(salt: &[u8], ikm: &[u8], info: &[u8]) -> (r: [u8; 32])
    ensures
        r@ == hkdf_sha256_of(salt@, ikm@, info@, 32),
{
    let mut out = [0u8; 32];
    Hkdf::<Sha256>::new(Some(salt), ikm).expand(info, &mut out).unwrap();
    out
}

/// `n` bytes of HKDF-SHA-512 output.
pub uninterp spec fn hkdf_sha512_of(salt: Seq<u8>, ikm: Seq<u8>, info: Seq<u8>, n: int) -> Seq<
    u8,
>;

/// `hkdf::Hkdf<Sha512>`, extract then expand to 66 bytes, which is within what
/// `expand` can give: the output is determined by the three strings and the
/// length.
#[verifier::external_body]
pub(crate) fn hkdf_sha512(salt: &[u8], ikm: &[u8], info: &[u8]) -> (r: [u8; 66])
    ensures
        r@ == hkdf_sha512_of(salt@, ikm@, info@, 66),
{
    let mut out = [0u8; 66];
    Hkdf::<Sha512>::new(Some(salt), ikm).expand(info, &mut out).unwrap();
    out
}

// ---- ChaCha20-Poly1305 ----
/// Ciphertext and tag of ChaCha20-Poly1305.
pub uninterp spec fn chacha_seal(
    key: Seq<u8>,
    nonce: Seq<u8>,
    aad: Seq<u8>,
    plain: Seq<u8>,
) -> (Seq<u8>, Seq<u8>);

/// What ChaCha20-Poly1305 decrypts to, if the tag fits.
pub uninterp spec fn chacha_open(
    key: Seq<u8>,
    nonce: Seq<u8>,
    aad: Seq<u8>,
    ct: Seq<u8>,
    tag: Seq<u8>,
) -> Option<Seq<u8>>;

/// `chacha20poly1305::ChaCha20Poly1305::encrypt_in_place_detached` on 32 bytes,
/// far below the length at which it fails: ciphertext and tag are determined by
/// the arguments, and decryption with the same key, nonce and associated data
/// gives the plaintext back.
#[verifier::external_body]
pub(crate) fn chacha20poly1305_encrypt(
    key: &[u8; 32],
    nonce: &[u8; 12],
    aad: &[u8],
    plain: &[u8; 32],
) -> (r: ([u8; 32], [u8; 16]))
    ensures
        (r.0@, r.1@) == chacha_seal(key@, nonce@, aad@, plain@),
        chacha_open(key@, nonce@, aad@, r.0@, r.1@) == Some(plain@),
{
    let mut buf = *plain;
    let cipher = <ChaCha20Poly1305 as KeyInit>::new(key.into());
    let tag = cipher.encrypt_in_place_detached(nonce.into(), aad, &mut buf).unwrap();
    (buf, tag.into())
}

/// `chacha20poly1305::ChaCha20Poly1305::decrypt_in_place_detached` on 32 bytes:
/// the result is determined by the arguments. It gives a plaintext only where
/// the tag is the one that encryption gives for the ciphertext, and the
/// plaintext encrypts to the ciphertext and the tag again.
#[verifier::external_body]
pub(crate) fn chacha20poly1305_decrypt(
    key: &[u8; 32],
    nonce: &[u8; 12],
    aad: &[u8],
    ct: &[u8; 32],
    tag: &[u8; 16],
) -> (r: Option<[u8; 32]>)
    ensures
        seen(r) == chacha_open(key@, nonce@, aad@, ct@, tag@),
        r matches Some(p) ==> chacha_seal(key@, nonce@, aad@, p@) == (ct@, tag@),
{
    let mut buf = *ct;
    let cipher = <ChaCha20Poly1305 as KeyInit>::new(key.into());
    match cipher.decrypt_in_place_detached(nonce.into(), aad, &mut buf, tag.into()) {
        Ok(()) => Some(buf),
        Err(_) => None,
    }
}

// ---- AES-256-CBC ----
/// AES-256-CBC encryption without padding.
pub uninterp spec fn aes_cbc_enc(key: Seq<u8>, iv: Seq<u8>, plain: Seq<u8>) -> Seq<u8>;

/// AES-256-CBC decryption without padding.
pub uninterp spec fn aes_cbc_dec(key: Seq<u8>, iv: Seq<u8>, ct: Seq<u8>) -> Seq<u8>;

/// `cbc::Encryptor<aes::Aes256>` over whole blocks without padding: the
/// ciphertext is as long as the plaintext, is determined by the arguments, and
/// decrypts to the plaintext again.
#[verifier::external_body]
pub(crate) fn aes_encrypt(key: &[u8; 32], iv: &[u8; 16], plain: &[u8]) -> (r: Vec<u8>)
    requires
        plain@.len() % 16 == 0,
    ensures
        r@ == aes_cbc_enc(key@, iv@, plain@),
        r@.len() == plain@.len(),
        aes_cbc_dec(key@, iv@, r@) == plain@,
{
    cbc::Encryptor::<aes::Aes256>::new(key.into(), iv.into()).encrypt_padded_vec_mut::<NoPadding>(
        plain,
    )
}

/// `cbc::Decryptor<aes::Aes256>` over whole blocks without padding: the
/// plaintext is as long as the ciphertext and is determined by the arguments.
#[verifier::external_body]
pub(crate) fn aes_decrypt(key: &[u8; 32], iv: &[u8; 16], ct: &[u8]) -> (r: Vec<u8>)
    requires
        ct@.len() % 16 == 0,
    ensures
        r@ == aes_cbc_dec(key@, iv@, ct@),
        r@.len() == ct@.len(),
{
    cbc::Decryptor::<aes::Aes256>::new(key.into(), iv.into()).decrypt_padded_vec_mut::<NoPadding>(
        ct,
    ).unwrap()
}

// ---- P-256 ----
/// The scalar is in the range of a private key: neither zero nor at or above
/// the order of the group.
pub open spec fn p256_scalar(k: Seq<u8>) -> bool {
    0 < be_value(k)
        < 0xFFFFFFFF00000000FFFFFFFFFFFFFFFFBCE6FAADA7179E84F3B9CAC2FC632551nat
}

/// `p256::SecretKey::from_slice` on 32 bytes: it takes exactly the big-endian
/// numbers from 1 up to the group order, without the order itself.
#[verifier::external_body]
pub(crate) fn p256_accepts(k: &[u8; 32]) -> (r: bool)
    ensures
        r == p256_scalar(k@),
{
    SecretKey::from_slice(k).is_ok()
}

/// The affine coordinates of the public key of a P-256 scalar.
pub uninterp spec fn p256_public_of(k: Seq<u8>) -> (Seq<u8>, Seq<u8>);

/// `p256::SecretKey::public_key` and its two affine coordinates, big-endian:
/// they are determined by the scalar.
#[verifier::external_body]
pub(crate) fn p256_public(k: &[u8; 32]) -> (r: ([u8; 32], [u8; 32]))
    requires
        p256_scalar(k@),
    ensures
        (r.0@, r.1@) == p256_public_of(k@),
{
    let pt = SecretKey::from_slice(k).unwrap().public_key().to_encoded_point(false);
    ((*pt.x().unwrap()).into(), (*pt.y().unwrap()).into())
}

/// The DER signature of a message under a P-256 scalar, where signing gives
/// one.
pub uninterp spec fn p256_sign_of(k: Seq<u8>, msg: Seq<u8>) -> Option<Seq<u8>>;

/// `p256::ecdsa::SigningKey::try_sign`, which hashes with SHA-256 and draws the
/// ephemeral scalar from key and message as RFC 6979 says, in DER: the
/// signature is determined by key and message.
#[verifier::external_body]
pub(crate) fn p256_sign(k: &[u8; 32], msg: &[u8]) -> (r: Option<Vec<u8>>)
    requires
        p256_scalar(k@),
    ensures
        seen_bytes(r) == p256_sign_of(k@, msg@),
{
    let sig: Result<Signature, _> = SigningKey::from_slice(k).unwrap().try_sign(msg);
    match sig {
        Ok(s) => Some(s.to_der().as_bytes().to_vec()),
        Err(_) => None,
    }
}

/// The x coordinate of the P-256 Diffie-Hellman point, where the peer's
/// coordinates are a point of the curve.
pub uninterp spec fn p256_ecdh_of(k: Seq<u8>, x: Seq<u8>, y: Seq<u8>) -> Option<Seq<u8>>;

/// `p256::PublicKey::from_encoded_point` and `p256::ecdh::diffie_hellman`: the
/// shared x coordinate, or nothing where the coordinates are no point of the
/// curve. It is determined by the arguments.
#[verifier::external_body]
pub(crate) fn p256_ecdh(k: &[u8; 32], x: &[u8; 32], y: &[u8; 32]) -> (r: Option<[u8; 32]>)
    requires
        p256_scalar(k@),
    ensures
        seen(r) == p256_ecdh_of(k@, x@, y@),
{
    let sk = SecretKey::from_slice(k).unwrap();
    let pt = EncodedPoint::from_affine_coordinates(x.into(), y.into(), false);
    let pk = Option::<PublicKey>::from(PublicKey::from_encoded_point(&pt))?;
    let z = p256::ecdh::diffie_hellman(sk.to_nonzero_scalar(), pk.as_affine());
    Some((*z.raw_secret_bytes()).into())
}

// ---- ML-KEM-768 ----
/// Ciphertext and shared secret of ML-KEM-768.
pub uninterp spec fn mlkem768_of(ek: Seq<u8>, m: Seq<u8>) -> (Seq<u8>, Seq<u8>);

/// `ml_kem::kem::EncapsulationKey<MlKem768Params>`, read from its bytes, and
/// its `encapsulate_deterministic` with the message `m`: ciphertext (1088
/// bytes) and shared secret are determined by the two.
#[verifier::external_body]
pub(crate) fn mlkem768_encapsulate(ek: &[u8; 1184], m: &[u8; 32]) -> (r: ([u8; 1088], [u8; 32]))
    ensures
        (r.0@, r.1@) == mlkem768_of(ek@, m@),
{
    let enc = Encoded::<EncapsulationKey<MlKem768Params>>::from(*ek);
    let key = EncapsulationKey::<MlKem768Params>::from_bytes(&enc);
    let (ct, ss) = key.encapsulate_deterministic(&(*m).into()).unwrap();
    (ct.into(), ss.into())
}

}
