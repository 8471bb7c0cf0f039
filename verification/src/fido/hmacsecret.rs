//! The hmac-secret extension, at assertion and at registration: agree on a
//! shared secret with the platform, verify its tag over the salts, decrypt
//! them, HMAC each under the secret of the credential, encrypt the result. The
//! key of the authenticator is the ephemeral one that the platform fetched.

use vstd::prelude::*;
use vstd::slice::slice_subrange;

use crate::cborvalue;
use crate::cborvalue::Value;
use crate::crypto;
use crate::crypto::hmac_sha256;
use crate::fido::cbordec;
use crate::fido::cbordec::{def_map, skip_item, take_bytes, take_i32, take_u32};
use crate::fido::codec;
use crate::fido::codec::{Ask, Codec, Recorded};
use crate::fido::error::CtapError;
use crate::fido::pinproto;
use crate::fido::pinproto::PinProto;
use crate::fido::state;
use crate::fido::{Drawn, Rng};
use crate::wipe::wipe;

verus! {

/// A parsed request of the extension.
pub struct HmacSecretReq<'a> {
    pub peer_x: [u8; 32],
    pub peer_y: [u8; 32],
    pub salt_enc: &'a [u8],
    pub salt_auth: &'a [u8],
    pub proto: u64,
    pub present: bool,
}

/// What a request of the extension says.
#[verifier::ext_equal]
pub struct HmacView {
    pub peer_x: Seq<u8>,
    pub peer_y: Seq<u8>,
    pub salt_enc: Seq<u8>,
    pub salt_auth: Seq<u8>,
    pub proto: int,
    pub present: bool,
}

impl<'a> View for HmacSecretReq<'a> {
    type V = HmacView;

    open spec fn view(&self) -> HmacView {
        HmacView {
            peer_x: self.peer_x@,
            peer_y: self.peer_y@,
            salt_enc: self.salt_enc@,
            salt_auth: self.salt_auth@,
            proto: self.proto as int,
            present: self.present,
        }
    }
}

/// A request that says nothing; protocol one is the default.
pub open spec fn no_request() -> HmacView {
    HmacView {
        peer_x: state::zeros(32),
        peer_y: state::zeros(32),
        salt_enc: Seq::empty(),
        salt_auth: Seq::empty(),
        proto: 1,
        present: false,
    }
}

impl<'a> Default for HmacSecretReq<'a> {
    fn default() -> (r: Self)
        ensures
            r@ == no_request(),
    {
        let r = HmacSecretReq {
            peer_x: [0u8; 32],
            peer_y: [0u8; 32],
            salt_enc: &[],
            salt_auth: &[],
            proto: 1,
            present: false,
        };
        assert(r@ =~= no_request()) by {
            assert(r.peer_x@ =~= state::zeros(32) && r.peer_y@ =~= state::zeros(32));
            assert(r.salt_enc@ =~= Seq::<u8>::empty() && r.salt_auth@ =~= Seq::<u8>::empty());
        }
        r
    }
}

/// A coordinate, right-aligned in 32 bytes; refused where it is longer.
pub open spec fn aligned(s: Seq<u8>) -> Result<Seq<u8>, CtapError> {
    if s.len() > 32 {
        Err(CtapError::InvalidParameter)
    } else {
        Ok(state::zeros((32 - s.len()) as nat) + s)
    }
}

/// Right-aligns a coordinate in 32 bytes.
pub(crate) fn coord(src: &[u8]) -> (r: Result<[u8; 32], CtapError>)
    ensures
        match r {
            Ok(a) => aligned(src@) == Ok::<Seq<u8>, CtapError>(a@),
            Err(e) => aligned(src@) == Err::<Seq<u8>, CtapError>(e),
        },
{
    let n: usize = src.len();
    if n > 32 {
        return Err(CtapError::InvalidParameter);
    }
    let mut out = [0u8; 32];
    let mut i: usize = 0;
    while i < n
        invariant
            i <= n <= 32,
            n == src@.len(),
            forall|x: int|
                0 <= x < 32 ==> #[trigger] out@[x] == (if 32 - n <= x < 32 - n + i {
                    src@[x - (32 - n)]
                } else {
                    0u8
                }),
        decreases n - i,
    {
        out[32 - n + i] = src[i];
        i += 1;
    }
    assert(out@ =~= state::zeros((32 - n) as nat) + src@);
    Ok(out)
}

// ---- parsing ----
/// `left` members of the platform's COSE key from `pos` on.
pub open spec fn cose_members(s: Seq<u8>, pos: int, left: nat, v: HmacView) -> cbordec::Taken<
    HmacView,
>
    decreases left,
{
    if left == 0 {
        Ok((v, pos))
    } else {
        match cbordec::i32_item(s, pos) {
            Err(e) => Err(e),
            Ok((key, p)) => if key == -2 || key == -3 {
                match cbordec::bytes_item(s, p) {
                    Err(e) => Err(e),
                    Ok((b, q)) => match aligned(b) {
                        Err(e) => Err(e),
                        Ok(a) => cose_members(
                            s,
                            q,
                            (left - 1) as nat,
                            if key == -2 {
                                HmacView { peer_x: a, ..v }
                            } else {
                                HmacView { peer_y: a, ..v }
                            },
                        ),
                    },
                }
            } else {
                match cbordec::any_item(s, p) {
                    Err(e) => Err(e),
                    Ok(q) => cose_members(s, q, (left - 1) as nat, v),
                }
            },
        }
    }
}

/// The member of key `key` at `pos`, entered into the request.
pub open spec fn member(s: Seq<u8>, pos: int, key: int, v: HmacView) -> cbordec::Taken<HmacView> {
    if key == 1 {
        match cbordec::map_item(s, pos) {
            Err(e) => Err(e),
            Ok((n, p)) => cose_members(s, p, n as nat, v),
        }
    } else if key == 2 {
        match cbordec::bytes_item(s, pos) {
            Err(e) => Err(e),
            Ok((b, p)) => Ok((HmacView { salt_enc: b, ..v }, p)),
        }
    } else if key == 3 {
        match cbordec::bytes_item(s, pos) {
            Err(e) => Err(e),
            Ok((b, p)) => Ok((HmacView { salt_auth: b, ..v }, p)),
        }
    } else if key == 4 {
        match cbordec::u32_item(s, pos) {
            Err(e) => Err(e),
            Ok((n, p)) => Ok((HmacView { proto: n, ..v }, p)),
        }
    } else {
        match cbordec::any_item(s, pos) {
            Err(e) => Err(e),
            Ok(p) => Ok((v, p)),
        }
    }
}

/// `left` members from `pos` on, entered into the request.
pub open spec fn members(s: Seq<u8>, pos: int, left: nat, v: HmacView) -> cbordec::Taken<HmacView>
    decreases left,
{
    if left == 0 {
        Ok((v, pos))
    } else {
        match cbordec::u32_item(s, pos) {
            Err(e) => Err(e),
            Ok((key, p)) => match member(s, p, key, v) {
                Err(e) => Err(e),
                Ok((w, q)) => members(s, q, (left - 1) as nat, w),
            },
        }
    }
}

/// The request of the extension that stands at `pos`.
pub open spec fn request(s: Seq<u8>, pos: int) -> cbordec::Taken<HmacView> {
    match cbordec::map_item(s, pos) {
        Err(e) => Err(e),
        Ok((n, p)) => members(s, p, n as nat, HmacView { present: true, ..no_request() }),
    }
}

/// The outcome of parsing, seen as a request.
pub open spec fn seen_req(r: Result<(HmacSecretReq<'_>, usize), CtapError>) -> cbordec::Taken<
    HmacView,
> {
    match r {
        Ok(v) => Ok((v.0@, v.1 as int)),
        Err(e) => Err(e),
    }
}

/// Parses the platform's COSE key into the request.
fn parse_cose<'a>(data: &'a [u8], pos: usize, given: HmacSecretReq<'a>) -> (r: Result<
    (HmacSecretReq<'a>, usize),
    CtapError,
>)
    ensures
        seen_req(r) == member(data@, pos as int, 1, given@),
{
    let (n, first) = def_map(data, pos)?;
    let ghost start = given@;
    let mut req: HmacSecretReq = given;
    let mut at: usize = first;
    let mut i: u64 = 0;
    while i < n
        invariant
            i <= n,
            start == given@,
            member(data@, pos as int, 1, start) == cose_members(
                data@,
                at as int,
                (n - i) as nat,
                req@,
            ),
        decreases n - i,
    {
        let (key, p) = take_i32(data, at)?;
        if key == -2 {
            let (b, q) = take_bytes(data, p)?;
            req.peer_x = coord(b)?;
            at = q;
        } else if key == -3 {
            let (b, q) = take_bytes(data, p)?;
            req.peer_y = coord(b)?;
            at = q;
        } else {
            at = skip_item(data, p)?;
        }
        i += 1;
    }
    Ok((req, at))
}

/// Parses the extension map at `pos`.
pub fn parse<'a>(data: &'a [u8], pos: usize) -> (r: Result<(HmacSecretReq<'a>, usize), CtapError>)
    ensures
        seen_req(r) == request(data@, pos as int),
{
    let (n, first) = def_map(data, pos)?;
    let mut req: HmacSecretReq = HmacSecretReq::default();
    req.present = true;
    assert(req@ =~= (HmacView { present: true, ..no_request() }));
    let mut at: usize = first;
    let mut i: u64 = 0;
    while i < n
        invariant
            i <= n,
            request(data@, pos as int) == members(data@, at as int, (n - i) as nat, req@),
        decreases n - i,
    {
        let (key, p) = take_u32(data, at)?;
        match key {
            1 => {
                let (next, q) = parse_cose(data, p, req)?;
                req = next;
                at = q;
            },
            2 => {
                let (b, q) = take_bytes(data, p)?;
                req.salt_enc = b;
                at = q;
            },
            3 => {
                let (b, q) = take_bytes(data, p)?;
                req.salt_auth = b;
                at = q;
            },
            4 => {
                let (v, q) = take_u32(data, p)?;
                req.proto = v;
                at = q;
            },
            _ => {
                at = skip_item(data, p)?;
            },
        }
        i += 1;
    }
    Ok((req, at))
}

/// Parses an extension map from its bytes; what follows the map is not looked
/// at.
pub fn parse_bytes(data: &[u8]) -> (r: Result<HmacSecretReq<'_>, CtapError>)
    ensures
        match (r, request(data@, 0)) {
            (Ok(q), Ok(v)) => q@ == v.0,
            (Err(e), Err(f)) => e == f,
            _ => false,
        },
{
    match parse(data, 0) {
        Ok((req, _)) => Ok(req),
        Err(e) => Err(e),
    }
}

// ---- evaluation ----
/// The length of the salts in a ciphertext: one or two of 32 bytes.
pub open spec fn salts_len(p: PinProto, enc_len: int) -> Option<int> {
    if enc_len == 32 + pinproto::iv_len(p) {
        Some(32)
    } else if enc_len == 64 + pinproto::iv_len(p) {
        Some(64)
    } else {
        None
    }
}

/// The decrypted salts of a request: protocol, shared secret and salts, or the
/// refusal.
pub open spec fn salts_of(q: HmacView, ephemeral: Seq<u8>) -> Result<
    (PinProto, Seq<u8>, Seq<u8>),
    CtapError,
> {
    match pinproto::proto_of(q.proto) {
        None => Err(CtapError::InvalidParameter),
        Some(p) => if salts_len(p, q.salt_enc.len() as int) is None {
            Err(CtapError::InvalidLength)
        } else if !crypto::p256_scalar(ephemeral) {
            Err(CtapError::InvalidParameter)
        } else {
            match crypto::p256_ecdh_of(ephemeral, q.peer_x, q.peer_y) {
                None => Err(CtapError::InvalidParameter),
                Some(z) => {
                    let shared = pinproto::shared_of(p, z);
                    if q.salt_auth != pinproto::mac(p, shared, q.salt_enc) {
                        Err(CtapError::ExtensionFirst)
                    } else {
                        Ok((p, shared, pinproto::decrypted(p, shared, q.salt_enc)))
                    }
                },
            }
        },
    }
}

/// The secret of the credential, with or without user verification.
pub open spec fn half(cred_random: Seq<u8>, uv: bool) -> Seq<u8> {
    if uv {
        cred_random.subrange(32, 64)
    } else {
        cred_random.subrange(0, 32)
    }
}

/// The HMAC of each salt.
pub open spec fn outputs(secret: Seq<u8>, salts: Seq<u8>) -> Seq<u8> {
    let first = crypto::hmac_sha256_of(secret, salts.subrange(0, 32));
    if salts.len() == 64 {
        first + crypto::hmac_sha256_of(secret, salts.subrange(32, 64))
    } else {
        first
    }
}

/// The outcome of decrypting the salts, seen as such.
pub open spec fn seen_salts(r: Result<(PinProto, Vec<u8>, Vec<u8>), CtapError>) -> Result<
    (PinProto, Seq<u8>, Seq<u8>),
    CtapError,
> {
    match r {
        Ok(v) => Ok((v.0, v.1@, v.2@)),
        Err(e) => Err(e),
    }
}

/// Agrees on the shared secret, verifies the platform's tag and decrypts the
/// salts.
pub fn open_salts(req: &HmacSecretReq, ephemeral: &[u8; 32]) -> (r: Result<
    (PinProto, Vec<u8>, Vec<u8>),
    CtapError,
>)
    ensures
        seen_salts(r) == salts_of(req@, ephemeral@),
        r matches Ok(v) ==> v.1@.len() == pinproto::shared_len(v.0) && salts_len(
            v.0,
            req.salt_enc@.len() as int,
        ) == Some(v.2@.len() as int),
{
    let proto: PinProto = match PinProto::from_u64(req.proto) {
        Some(p) => p,
        None => {
            return Err(CtapError::InvalidParameter);
        },
    };
    let n: usize = req.salt_enc.len();
    let off: usize = proto.iv_overhead();
    if n != 32 + off && n != 64 + off {
        return Err(CtapError::InvalidLength);
    }
    let mut shared: Vec<u8> = match pinproto::ecdh(proto, ephemeral, &req.peer_x, &req.peer_y) {
        Some(s) => s,
        None => {
            return Err(CtapError::InvalidParameter);
        },
    };
    if !pinproto::verify(proto, shared.as_slice(), req.salt_enc, req.salt_auth) {
        wipe(shared.as_mut_slice());
        return Err(CtapError::ExtensionFirst);
    }
    match pinproto::decrypt(proto, shared.as_slice(), req.salt_enc) {
        Some(salts) => Ok((proto, shared, salts)),
        None => {
            wipe(shared.as_mut_slice());
            Err(CtapError::InvalidParameter)
        },
    }
}

/// HMACs the salts under the secret of the credential and encrypts the result
/// with the given initialisation vector. The platform decrypts the HMACs.
pub fn seal_outputs(
    proto: PinProto,
    shared: &[u8],
    salts: &[u8],
    cred_random: &[u8; 64],
    uv: bool,
    iv: &[u8; 16],
) -> (r: Vec<u8>)
    requires
        shared@.len() == pinproto::shared_len(proto),
        salts@.len() == 32 || salts@.len() == 64,
    ensures
        r@ == pinproto::encrypted(
            proto,
            shared@,
            iv@,
            outputs(half(cred_random@, uv), salts@),
        ),
        pinproto::decrypted(proto, shared@, r@) == outputs(half(cred_random@, uv), salts@),
        r@.len() == pinproto::iv_len(proto) + salts@.len(),
{
    let secret: &[u8] = if uv {
        slice_subrange(cred_random, 32, 64)
    } else {
        slice_subrange(cred_random, 0, 32)
    };
    assert(secret@ == half(cred_random@, uv));
    let mut plain: Vec<u8> = Vec::new();
    let a: [u8; 32] = hmac_sha256(secret, slice_subrange(salts, 0, 32));
    plain.extend_from_slice(&a);
    assert(plain@ =~= a@);
    if salts.len() == 64 {
        let b: [u8; 32] = hmac_sha256(secret, slice_subrange(salts, 32, 64));
        plain.extend_from_slice(&b);
        assert(plain@ =~= a@ + b@);
    }
    assert(plain@ == outputs(half(cred_random@, uv), salts@));
    let r: Vec<u8> = pinproto::encrypt(proto, shared, iv, plain.as_slice());
    wipe(plain.as_mut_slice());
    r
}

/// The outcome of an evaluation for a secret of the credential and an
/// initialisation vector: the encrypted HMACs of the salts, which the platform
/// decrypts.
pub open spec fn evaluated(
    q: HmacView,
    ephemeral: Seq<u8>,
    uv: bool,
    secrets: Seq<u8>,
    iv: Seq<u8>,
    r: Seq<u8>,
) -> bool {
    match salts_of(q, ephemeral) {
        Ok((p, shared, salts)) => {
            &&& iv.len() == 16
            &&& r == pinproto::encrypted(p, shared, iv, outputs(half(secrets, uv), salts))
            &&& pinproto::decrypted(p, shared, r) == outputs(half(secrets, uv), salts)
        },
        Err(_) => false,
    }
}

/// Evaluates the extension for a credential: the encrypted HMACs, as long as
/// the encrypted salts.
pub fn eval<R: Rng, C: Codec>(
    req: &HmacSecretReq,
    ephemeral: &[u8; 32],
    seed: &[u8; 32],
    codec: &mut Recorded<C>,
    cred_id: &[u8],
    uv: bool,
    rng: &mut Drawn<R>,
) -> (r: Result<Vec<u8>, CtapError>)
    ensures
        match salts_of(req@, ephemeral@) {
            Err(e) => r == Err::<Vec<u8>, CtapError>(e),
            Ok(_) => r is Ok,
        },
        r matches Ok(v) ==> v@.len() == req.salt_enc@.len() && exists|secrets: Seq<u8>|
            secrets.len() == 64 && #[trigger] evaluated(
                req@,
                ephemeral@,
                uv,
                secrets,
                final(rng).drawn().last(),
                v@,
            ) && codec::talk(old(codec), final(codec)).told(
                Ask::HmacKey { seed: seed@, cred_id: cred_id@, answer: secrets },
            ),
        r is Ok ==> final(rng).drawn() == old(rng).drawn().push(final(rng).drawn().last()),
        r is Err ==> final(rng).drawn() == old(rng).drawn(),
        codec::talk(old(codec), final(codec)).wf(),
{
    let ghost asked = codec.asked();
    assert(asked.take(asked.len() as int) =~= asked);
    let (proto, mut shared, mut salts) = open_salts(req, ephemeral)?;
    let mut cred_random: [u8; 64] = codec.hmac_key(seed, cred_id);
    proof {
        codec::lemma_asked(
            asked,
            Ask::HmacKey { seed: seed@, cred_id: cred_id@, answer: cred_random@ },
        );
    }
    let mut iv = [0u8; 16];
    rng.fill(&mut iv);
    let ghost secrets = cred_random@;
    let v: Vec<u8> = seal_outputs(
        proto,
        shared.as_slice(),
        salts.as_slice(),
        &cred_random,
        uv,
        &iv,
    );
    assert(rng.drawn().last() == iv@);
    assert(evaluated(req@, ephemeral@, uv, secrets, rng.drawn().last(), v@));
    wipe(shared.as_mut_slice());
    wipe(salts.as_mut_slice());
    wipe(&mut cred_random);
    Ok(v)
}

/// Two salts give the outputs of the first followed by those of the second, and
/// one salt gives its HMAC-SHA-256 under the secret of the credential.
pub proof fn law_outputs_per_salt(secret: Seq<u8>, a: Seq<u8>, b: Seq<u8>)
    requires
        a.len() == 32,
        b.len() == 32,
    ensures
        outputs(secret, a + b) == outputs(secret, a) + outputs(secret, b),
        outputs(secret, a) == crypto::hmac_sha256_of(secret, a),
{
    assert((a + b).subrange(0, 32) =~= a);
    assert((a + b).subrange(32, 64) =~= b);
    assert(a.subrange(0, 32) =~= a);
    assert(b.subrange(0, 32) =~= b);
}

/// Of the two secrets of a credential the second is used with user verification
/// and the first without.
pub proof fn law_secret_follows_verification(without: Seq<u8>, with: Seq<u8>)
    requires
        without.len() == 32,
        with.len() == 32,
    ensures
        half(without + with, false) == without,
        half(without + with, true) == with,
{
    assert((without + with).subrange(0, 32) =~= without);
    assert((without + with).subrange(32, 64) =~= with);
}

/// An evaluation is answered only where the platform's tag is the MAC of the
/// encrypted salts under the shared secret of the two keys; the platform then
/// decrypts one HMAC per salt, under the secret that goes with the verification.
pub proof fn law_evaluation(
    q: HmacView,
    ephemeral: Seq<u8>,
    uv: bool,
    without: Seq<u8>,
    with: Seq<u8>,
    iv: Seq<u8>,
    r: Seq<u8>,
)
    requires
        evaluated(q, ephemeral, uv, without + with, iv, r),
        without.len() == 32,
        with.len() == 32,
    ensures
        q.proto == 1 || q.proto == 2,
        ({
            let p = if q.proto == 1 {
                PinProto::One
            } else {
                PinProto::Two
            };
            let shared = pinproto::shared_of(
                p,
                crypto::p256_ecdh_of(ephemeral, q.peer_x, q.peer_y)->0,
            );
            let salts = pinproto::decrypted(p, shared, q.salt_enc);
            let secret = if uv {
                with
            } else {
                without
            };
            &&& crypto::p256_ecdh_of(ephemeral, q.peer_x, q.peer_y) is Some
            &&& q.salt_auth == pinproto::mac(p, shared, q.salt_enc)
            &&& salts.len() == 32 ==> pinproto::decrypted(p, shared, r) == crypto::hmac_sha256_of(
                secret,
                salts,
            )
            &&& salts.len() == 64 ==> pinproto::decrypted(p, shared, r) == crypto::hmac_sha256_of(
                secret,
                salts.take(32),
            ) + crypto::hmac_sha256_of(secret, salts.skip(32))
        }),
{
    law_secret_follows_verification(without, with);
    match salts_of(q, ephemeral) {
        Ok((p, shared, salts)) => {
            if salts.len() == 32 {
                law_outputs_per_salt(half(without + with, uv), salts, salts);
            }
            if salts.len() == 64 {
                law_outputs_per_salt(half(without + with, uv), salts.take(32), salts.skip(32));
                assert(salts.take(32) + salts.skip(32) =~= salts);
            }
        },
        Err(_) => {},
    }
}

/// A request whose tag is not the MAC of its salts is never evaluated.
pub proof fn law_forged_salts_are_refused(q: HmacView, ephemeral: Seq<u8>)
    requires
        q.proto == 1 || q.proto == 2,
        crypto::p256_ecdh_of(ephemeral, q.peer_x, q.peer_y) matches Some(z) && q.salt_auth
            != pinproto::mac(
            if q.proto == 1 {
                PinProto::One
            } else {
                PinProto::Two
            },
            pinproto::shared_of(
                if q.proto == 1 {
                    PinProto::One
                } else {
                    PinProto::Two
                },
                z,
            ),
            q.salt_enc,
        ),
    ensures
        salts_of(q, ephemeral) is Err,
{
}

// ---- what a request says ----
/// An entry of the platform's key: the coordinates have 32 bytes.
pub open spec fn key_entry(e: (Value, Value)) -> bool {
    &&& e.0 matches Value::Int(k) && i32::MIN <= k <= i32::MAX
    &&& e.0 == Value::Int(-2) || e.0 == Value::Int(-3) ==> (e.1 matches Value::Bytes(b) && b.len()
        == 32)
}

/// An entry of a request.
pub open spec fn request_entry(e: (Value, Value)) -> bool {
    &&& e.0 matches Value::Int(k) && 0 <= k <= u32::MAX
    &&& e.0 == Value::Int(1) ==> (e.1 matches Value::Table(c) && forall|i: int|
        0 <= i < c.len() ==> key_entry(#[trigger] c[i]))
    &&& e.0 == Value::Int(2) || e.0 == Value::Int(3) ==> e.1 is Bytes
    &&& e.0 == Value::Int(4) ==> (e.1 matches Value::Int(n) && 0 <= n <= u32::MAX)
}

/// The entries of a request, no key twice.
pub open spec fn request_entries(es: Seq<(Value, Value)>) -> bool {
    &&& forall|i: int| 0 <= i < es.len() ==> request_entry(#[trigger] es[i])
    &&& forall|i: int, j: int| 0 <= i < j < es.len() ==> #[trigger] es[i].0 != #[trigger] es[j].0
}

/// The bytes under a number, `old` where there are none.
pub open spec fn bytes_under(es: Seq<(Value, Value)>, key: int, old: Seq<u8>) -> Seq<u8> {
    match cborvalue::last(es, Value::Int(key)) {
        Some(Value::Bytes(b)) => b,
        _ => old,
    }
}

/// `v` with the coordinates that the platform's key gives.
pub open spec fn key_said(c: Seq<(Value, Value)>, v: HmacView) -> HmacView {
    HmacView { peer_x: bytes_under(c, -2, v.peer_x), peer_y: bytes_under(c, -3, v.peer_y), ..v }
}

/// `v` with what the entries say: the platform's key under 1, the encrypted salts
/// under 2, their tag under 3 and the protocol under 4.
pub open spec fn entries_said(es: Seq<(Value, Value)>, v: HmacView) -> HmacView {
    let w = match cborvalue::last(es, Value::Int(1)) {
        Some(Value::Table(c)) => key_said(c, v),
        _ => v,
    };
    HmacView {
        salt_enc: bytes_under(es, 2, v.salt_enc),
        salt_auth: bytes_under(es, 3, v.salt_auth),
        proto: match cborvalue::last(es, Value::Int(4)) {
            Some(Value::Int(n)) => n,
            _ => v.proto,
        },
        ..w
    }
}

/// What a request says; protocol one where it names none.
pub open spec fn said(es: Seq<(Value, Value)>) -> HmacView {
    entries_said(
        es,
        HmacView {
            peer_x: Seq::new(32, |i: int| 0u8),
            peer_y: Seq::new(32, |i: int| 0u8),
            salt_enc: Seq::empty(),
            salt_auth: Seq::empty(),
            proto: 1,
            present: true,
        },
    )
}

proof fn lemma_key_members(s: Seq<u8>, pos: int, c: Seq<(Value, Value)>, v: HmacView)
    requires
        cborvalue::stands(s, pos, cborvalue::enc_entries(c)),
        cborvalue::sized_entries(c),
        cborvalue::skips(s),
        forall|i: int| 0 <= i < c.len() ==> key_entry(#[trigger] c[i]),
    ensures
        cose_members(s, pos, c.len(), v) == Ok::<(HmacView, int), CtapError>(
            (key_said(c, v), pos + cborvalue::enc_entries(c).len()),
        ),
    decreases c.len(),
{
    if c.len() == 0 {
        assert(key_said(c, v) =~= v);
    } else {
        let rest = c.subrange(1, c.len() as int);
        let p = pos + cborvalue::enc(c[0].0).len();
        let q = p + cborvalue::enc(c[0].1).len();
        cborvalue::lemma_first_entry(s, pos, c);
        assert(key_entry(c[0]));
        cbordec::lemma_taken(s, pos, c[0].0);
        cbordec::lemma_taken(s, p, c[0].1);
        assert forall|i: int| 0 <= i < rest.len() implies key_entry(#[trigger] rest[i]) by {
            assert(key_entry(c[i + 1]));
        }
        cborvalue::lemma_last(rest, Value::Int(-2));
        cborvalue::lemma_last(rest, Value::Int(-3));
        let w = if c[0].0 == Value::Int(-2) {
            HmacView { peer_x: c[0].1->Bytes_0, ..v }
        } else if c[0].0 == Value::Int(-3) {
            HmacView { peer_y: c[0].1->Bytes_0, ..v }
        } else {
            v
        };
        if c[0].0 == Value::Int(-2) || c[0].0 == Value::Int(-3) {
            let b = c[0].1->Bytes_0;
            assert(state::zeros(0) + b =~= b);
        }
        lemma_key_members(s, q, rest, w);
        assert(key_said(rest, w) =~= key_said(c, v));
    }
}

proof fn lemma_request_members(s: Seq<u8>, pos: int, es: Seq<(Value, Value)>, v: HmacView)
    requires
        cborvalue::stands(s, pos, cborvalue::enc_entries(es)),
        cborvalue::sized_entries(es),
        cborvalue::skips(s),
        request_entries(es),
    ensures
        members(s, pos, es.len(), v) == Ok::<(HmacView, int), CtapError>(
            (entries_said(es, v), pos + cborvalue::enc_entries(es).len()),
        ),
    decreases es.len(),
{
    if es.len() == 0 {
        assert(entries_said(es, v) =~= v);
    } else {
        let rest = es.subrange(1, es.len() as int);
        let p = pos + cborvalue::enc(es[0].0).len();
        let q = p + cborvalue::enc(es[0].1).len();
        cborvalue::lemma_first_entry(s, pos, es);
        assert(request_entry(es[0]));
        cbordec::lemma_taken(s, pos, es[0].0);
        cbordec::lemma_taken(s, p, es[0].1);
        assert forall|i: int| 0 <= i < rest.len() implies request_entry(#[trigger] rest[i]) by {
            assert(request_entry(es[i + 1]));
        }
        assert forall|i: int, j: int| 0 <= i < j < rest.len() implies #[trigger] rest[i].0
            != #[trigger] rest[j].0 by {
            assert(es[i + 1].0 != es[j + 1].0);
        }
        assert forall|i: int| 0 <= i < rest.len() implies (#[trigger] rest[i]).0 != es[0].0 by {
            assert(es[0].0 != es[i + 1].0);
        }
        cborvalue::lemma_last(rest, es[0].0);
        cborvalue::lemma_last(rest, Value::Int(1));
        cborvalue::lemma_last(rest, Value::Int(2));
        cborvalue::lemma_last(rest, Value::Int(3));
        cborvalue::lemma_last(rest, Value::Int(4));
        let w = if es[0].0 == Value::Int(1) {
            key_said(es[0].1->Table_0, v)
        } else if es[0].0 == Value::Int(2) {
            HmacView { salt_enc: es[0].1->Bytes_0, ..v }
        } else if es[0].0 == Value::Int(3) {
            HmacView { salt_auth: es[0].1->Bytes_0, ..v }
        } else if es[0].0 == Value::Int(4) {
            HmacView { proto: es[0].1->Int_0, ..v }
        } else {
            v
        };
        if es[0].0 == Value::Int(1) {
            let c = es[0].1->Table_0;
            assert(cborvalue::sized(es[0].1));
            lemma_key_members(s, q - cborvalue::enc_entries(c).len(), c, v);
        }
        assert(member(s, p, es[0].0->Int_0, v) == Ok::<(HmacView, int), CtapError>((w, q)));
        lemma_request_members(s, q, rest, w);
        assert(entries_said(rest, w) =~= entries_said(es, v));
    }
}

/// A request is read member by member: the coordinates of the platform's key, the
/// encrypted salts, their tag and the protocol each reach their own field.
pub proof fn law_request(s: Seq<u8>, pos: int, es: Seq<(Value, Value)>)
    requires
        cborvalue::stands(s, pos, cborvalue::enc(Value::Table(es))),
        cborvalue::sized(Value::Table(es)),
        cborvalue::skips(s),
        request_entries(es),
    ensures
        request(s, pos) == Ok::<(HmacView, int), CtapError>(
            (said(es), pos + cborvalue::enc(Value::Table(es)).len()),
        ),
{
    cbordec::lemma_taken(s, pos, Value::Table(es));
    let at = pos + cborvalue::enc(Value::Table(es)).len() - cborvalue::enc_entries(es).len();
    let v = HmacView { present: true, ..no_request() };
    lemma_request_members(s, at, es, v);
    assert(v =~= (HmacView {
        peer_x: Seq::new(32, |i: int| 0u8),
        peer_y: Seq::new(32, |i: int| 0u8),
        salt_enc: Seq::empty(),
        salt_auth: Seq::empty(),
        proto: 1,
        present: true,
    }));
}

/// A coordinate keeps its value where it is aligned, and a longer one is refused.
pub proof fn law_aligned_keeps_value(b: Seq<u8>)
    ensures
        b.len() > 32 ==> aligned(b) is Err,
        b.len() <= 32 ==> (aligned(b) matches Ok(a) && a.len() == 32 && crypto::be_value(a)
            == crypto::be_value(b)),
{
    if b.len() <= 32 {
        lemma_leading_zeros((32 - b.len()) as nat, b);
    }
}

proof fn lemma_leading_zeros(n: nat, b: Seq<u8>)
    ensures
        crypto::be_value(state::zeros(n) + b) == crypto::be_value(b),
    decreases n + b.len(),
{
    let a = state::zeros(n) + b;
    if b.len() > 0 {
        assert(a.drop_last() =~= state::zeros(n) + b.drop_last());
        lemma_leading_zeros(n, b.drop_last());
    } else if n > 0 {
        assert(a.drop_last() =~= state::zeros((n - 1) as nat) + b);
        lemma_leading_zeros((n - 1) as nat, b);
    }
}

/// Salts come as one or two of 32 bytes, behind a vector of 16 bytes under the
/// second protocol; any other length, and any other protocol, is refused.
pub proof fn law_salt_lengths(q: HmacView, ephemeral: Seq<u8>)
    ensures
        q.proto != 1 && q.proto != 2 ==> salts_of(q, ephemeral) == Err::<
            (PinProto, Seq<u8>, Seq<u8>),
            CtapError,
        >(CtapError::InvalidParameter),
        q.proto == 1 && q.salt_enc.len() != 32 && q.salt_enc.len() != 64 ==> salts_of(q, ephemeral)
            == Err::<(PinProto, Seq<u8>, Seq<u8>), CtapError>(CtapError::InvalidLength),
        q.proto == 2 && q.salt_enc.len() != 48 && q.salt_enc.len() != 80 ==> salts_of(q, ephemeral)
            == Err::<(PinProto, Seq<u8>, Seq<u8>), CtapError>(CtapError::InvalidLength),
        salts_of(q, ephemeral) matches Ok(x) ==> crypto::p256_scalar(ephemeral),
{
}

/// Every field of a request is seen under its own name.
pub proof fn law_request_fields(r: HmacSecretReq)
    ensures
        r@.peer_x == r.peer_x@,
        r@.peer_y == r.peer_y@,
        r@.salt_enc == r.salt_enc@,
        r@.salt_auth == r.salt_auth@,
        r@.proto == r.proto,
        r@.present == r.present,
{
}

}
