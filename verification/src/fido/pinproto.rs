//! PIN/UV auth protocols one and two: key agreement, message authentication
//! and encryption under the shared secret.

use vstd::prelude::*;
use vstd::slice::slice_subrange;
use vstd::utf8::*;

use crate::crypto;
use crate::crypto::{
    aes_decrypt, aes_encrypt, hkdf_sha256, hmac_sha256, p256_accepts, p256_ecdh, p256_public,
    sha256,
};
use crate::sdk::{array16, array32, same_bytes};

verus! {

/// The length of an initialisation vector.
pub const IV_SIZE: usize = 16;

/// A PIN/UV auth protocol.
#[derive(Debug, Clone, Copy, PartialEq, Eq, Structural)]
pub enum PinProto {
    One,
    Two,
}

/// The protocol of a number on the wire.
pub open spec fn proto_of(n: int) -> Option<PinProto> {
    if n == 1 {
        Some(PinProto::One)
    } else if n == 2 {
        Some(PinProto::Two)
    } else {
        None
    }
}

/// How many bytes of initialisation vector a ciphertext starts with.
pub open spec fn iv_len(p: PinProto) -> int {
    match p {
        PinProto::One => 0,
        PinProto::Two => 16,
    }
}

/// The shared secret that the protocol makes of the Diffie-Hellman output.
pub open spec fn shared_of(p: PinProto, z: Seq<u8>) -> Seq<u8> {
    match p {
        PinProto::One => crypto::sha256_of(z),
        PinProto::Two => crypto::hkdf_sha256_of(
            Seq::new(32, |i: int| 0u8),
            z,
            encode_utf8("CTAP2 HMAC key"@),
            32,
        ) + crypto::hkdf_sha256_of(
            Seq::new(32, |i: int| 0u8),
            z,
            encode_utf8("CTAP2 AES key"@),
            32,
        ),
    }
}

/// The tag of `msg` under `key`.
pub open spec fn mac(p: PinProto, key: Seq<u8>, msg: Seq<u8>) -> Seq<u8> {
    match p {
        PinProto::One => crypto::hmac_sha256_of(key, msg).take(16),
        PinProto::Two => crypto::hmac_sha256_of(
            if key.len() > 32 {
                key.take(32)
            } else {
                key
            },
            msg,
        ),
    }
}

/// The AES key in a shared secret.
pub open spec fn aes_key(p: PinProto, key: Seq<u8>) -> Seq<u8> {
    match p {
        PinProto::One => key,
        PinProto::Two => key.skip(32),
    }
}

/// The ciphertext of `plain`; protocol one has no initialisation vector.
pub open spec fn encrypted(p: PinProto, key: Seq<u8>, iv: Seq<u8>, plain: Seq<u8>) -> Seq<u8> {
    match p {
        PinProto::One => crypto::aes_cbc_enc(key, Seq::new(16, |i: int| 0u8), plain),
        PinProto::Two => iv + crypto::aes_cbc_enc(aes_key(p, key), iv, plain),
    }
}

/// The plaintext of `ct`.
pub open spec fn decrypted(p: PinProto, key: Seq<u8>, ct: Seq<u8>) -> Seq<u8> {
    match p {
        PinProto::One => crypto::aes_cbc_dec(key, Seq::new(16, |i: int| 0u8), ct),
        PinProto::Two => crypto::aes_cbc_dec(aes_key(p, key), ct.take(16), ct.skip(16)),
    }
}

/// The length of a shared secret.
pub open spec fn shared_len(p: PinProto) -> int {
    match p {
        PinProto::One => 32,
        PinProto::Two => 64,
    }
}

impl PinProto {
    /// The protocol of a number on the wire.
    pub fn from_u64(n: u64) -> (r: Option<Self>)
        ensures
            r == proto_of(n as int),
    {
        match n {
            1 => Some(PinProto::One),
            2 => Some(PinProto::Two),
            _ => None,
        }
    }

    /// How many bytes of initialisation vector a ciphertext starts with.
    pub fn iv_overhead(&self) -> (n: usize)
        ensures
            n == iv_len(*self),
    {
        match self {
            PinProto::One => 0,
            PinProto::Two => 16,
        }
    }
}

/// The coordinates of the public key of `k`, if `k` is in range.
pub fn public_xy(k: &[u8; 32]) -> (r: Option<([u8; 32], [u8; 32])>)
    ensures
        r is Some <==> crypto::p256_scalar(k@),
        r matches Some(p) ==> (p.0@, p.1@) == crypto::p256_public_of(k@),
{
    if p256_accepts(k) {
        Some(p256_public(k))
    } else {
        None
    }
}

/// Agrees on a shared secret with the peer whose public key is `(x, y)`;
/// nothing where the scalar is out of range or the coordinates are no point of
/// the curve.
pub fn ecdh(p: PinProto, k: &[u8; 32], x: &[u8; 32], y: &[u8; 32]) -> (r: Option<Vec<u8>>)
    ensures
        r is Some <==> crypto::p256_scalar(k@) && crypto::p256_ecdh_of(k@, x@, y@) is Some,
        r matches Some(s) ==> s@ == shared_of(p, crypto::p256_ecdh_of(k@, x@, y@)->0) && s@.len()
            == shared_len(p),
{
    if !p256_accepts(k) {
        return None;
    }
    let z: [u8; 32] = match p256_ecdh(k, x, y) {
        Some(z) => z,
        None => {
            return None;
        },
    };
    let mut out: Vec<u8> = Vec::new();
    match p {
        PinProto::One => {
            let h: [u8; 32] = sha256(&z);
            out.extend_from_slice(&h);
            assert(out@ =~= h@);
        },
        PinProto::Two => {
            let zero = [0u8; 32];
            assert(zero@ =~= Seq::new(32, |i: int| 0u8));
            let a: [u8; 32] = hkdf_sha256(&zero, &z, "CTAP2 HMAC key".as_bytes());
            let b: [u8; 32] = hkdf_sha256(&zero, &z, "CTAP2 AES key".as_bytes());
            out.extend_from_slice(&a);
            out.extend_from_slice(&b);
            assert(out@ =~= a@ + b@);
        },
    }
    Some(out)
}

/// The tag of `msg` under `key`.
pub fn authenticate(p: PinProto, key: &[u8], msg: &[u8]) -> (r: Vec<u8>)
    ensures
        r@ == mac(p, key@, msg@),
{
    let mut out: Vec<u8> = Vec::new();
    match p {
        PinProto::One => {
            let h: [u8; 32] = hmac_sha256(key, msg);
            out.extend_from_slice(slice_subrange(&h, 0, 16));
            assert(out@ =~= h@.take(16));
        },
        PinProto::Two => {
            let h: [u8; 32] = if key.len() > 32 {
                proof {
                    assert(key@.subrange(0, 32) =~= key@.take(32));
                }
                hmac_sha256(slice_subrange(key, 0, 32), msg)
            } else {
                hmac_sha256(key, msg)
            };
            out.extend_from_slice(&h);
            assert(out@ =~= h@);
        },
    }
    out
}

/// Whether `tag` is the tag of `msg` under `key`.
pub fn verify(p: PinProto, key: &[u8], msg: &[u8], tag: &[u8]) -> (r: bool)
    ensures
        r == (tag@ == mac(p, key@, msg@)),
{
    let want: Vec<u8> = authenticate(p, key, msg);
    same_bytes(want.as_slice(), tag)
}

/// Encrypts whole blocks under a shared secret. Decryption gives the plaintext
/// back.
pub fn encrypt(p: PinProto, key: &[u8], iv: &[u8; 16], plain: &[u8]) -> (r: Vec<u8>)
    requires
        key@.len() == shared_len(p),
        plain@.len() % 16 == 0,
    ensures
        r@ == encrypted(p, key@, iv@, plain@),
        r@.len() == iv_len(p) + plain@.len(),
        decrypted(p, key@, r@) == plain@,
{
    match p {
        PinProto::One => {
            let k: [u8; 32] = array32(key);
            let zero = [0u8; 16];
            assert(zero@ =~= Seq::new(16, |i: int| 0u8));
            aes_encrypt(&k, &zero, plain)
        },
        PinProto::Two => {
            let k: [u8; 32] = array32(slice_subrange(key, 32, 64));
            assert(k@ =~= key@.skip(32));
            let ct: Vec<u8> = aes_encrypt(&k, iv, plain);
            let mut out: Vec<u8> = Vec::new();
            out.extend_from_slice(iv);
            out.extend_from_slice(ct.as_slice());
            assert(out@ =~= iv@ + ct@);
            assert(out@.take(16) =~= iv@);
            assert(out@.skip(16) =~= ct@);
            out
        },
    }
}

/// Decrypts whole blocks under a shared secret; nothing where the ciphertext is
/// not made of whole blocks or lacks its initialisation vector.
pub fn decrypt(p: PinProto, key: &[u8], ct: &[u8]) -> (r: Option<Vec<u8>>)
    requires
        key@.len() == shared_len(p),
    ensures
        r is Some <==> ct@.len() >= iv_len(p) && ct@.len() % 16 == 0,
        r matches Some(v) ==> v@ == decrypted(p, key@, ct@) && v@.len() == ct@.len() - iv_len(p),
{
    if ct.len() < p.iv_overhead() || ct.len() % 16 != 0 {
        return None;
    }
    match p {
        PinProto::One => {
            let k: [u8; 32] = array32(key);
            let zero = [0u8; 16];
            assert(zero@ =~= Seq::new(16, |i: int| 0u8));
            Some(aes_decrypt(&k, &zero, ct))
        },
        PinProto::Two => {
            let k: [u8; 32] = array32(slice_subrange(key, 32, 64));
            assert(k@ =~= key@.skip(32));
            let iv: [u8; 16] = array16(slice_subrange(ct, 0, 16));
            assert(iv@ =~= ct@.take(16));
            let body: &[u8] = slice_subrange(ct, 16, ct.len());
            assert(body@ =~= ct@.skip(16));
            Some(aes_decrypt(&k, &iv, body))
        },
    }
}

/// The two protocols. The first hashes the shared x coordinate to one key, cuts
/// its tags to 16 bytes and encrypts under a zero vector. The second derives a key
/// for tags and a key for encryption, in this order, keeps whole tags and sends
/// the vector in front of the ciphertext.
pub proof fn law_protocols(z: Seq<u8>, mac_key: Seq<u8>, enc_key: Seq<u8>, msg: Seq<u8>, iv: Seq<u8>)
    requires
        mac_key.len() == 32,
        enc_key.len() == 32,
        iv.len() == 16,
    ensures
        proto_of(1) == Some(PinProto::One),
        proto_of(2) == Some(PinProto::Two),
        shared_of(PinProto::One, z) == crypto::sha256_of(z),
        shared_of(PinProto::Two, z) == crypto::hkdf_sha256_of(
            Seq::new(32, |i: int| 0u8),
            z,
            encode_utf8("CTAP2 HMAC key"@),
            32,
        ) + crypto::hkdf_sha256_of(
            Seq::new(32, |i: int| 0u8),
            z,
            encode_utf8("CTAP2 AES key"@),
            32,
        ),
        mac(PinProto::One, mac_key, msg) == crypto::hmac_sha256_of(mac_key, msg).take(16),
        mac(PinProto::Two, mac_key + enc_key, msg) == crypto::hmac_sha256_of(mac_key, msg),
        mac(PinProto::Two, mac_key, msg) == crypto::hmac_sha256_of(mac_key, msg),
        encrypted(PinProto::One, enc_key, iv, msg) == crypto::aes_cbc_enc(
            enc_key,
            Seq::new(16, |i: int| 0u8),
            msg,
        ),
        encrypted(PinProto::Two, mac_key + enc_key, iv, msg) == iv + crypto::aes_cbc_enc(
            enc_key,
            iv,
            msg,
        ),
        decrypted(PinProto::One, enc_key, msg) == crypto::aes_cbc_dec(
            enc_key,
            Seq::new(16, |i: int| 0u8),
            msg,
        ),
        decrypted(PinProto::Two, mac_key + enc_key, iv + msg) == crypto::aes_cbc_dec(
            enc_key,
            iv,
            msg,
        ),
{
    let key = mac_key + enc_key;
    assert(key.take(32) =~= mac_key);
    assert(key.skip(32) =~= enc_key);
    assert((iv + msg).take(16) =~= iv);
    assert((iv + msg).skip(16) =~= msg);
}

}
