//! The seed-backup channel: a P-256 key agreement, alone or together with
//! ML-KEM-768, that gives a ChaCha20-Poly1305 key.

use vstd::prelude::*;
use vstd::slice::slice_subrange;
use vstd::utf8::*;

use crate::cbor;
use crate::cbor::{put_bytes, put_i64, put_map, put_u64};
use crate::cborvalue;
use crate::cborvalue::Value;
use crate::crypto;
use crate::crypto::{
    chacha20poly1305_decrypt, chacha20poly1305_encrypt, hkdf_sha256, mlkem768_encapsulate,
    p256_ecdh, p256_public,
};
use crate::fido::error::{CtapError, CtapResult};
use crate::fido::hmacsecret;
use crate::fido::hmacsecret::coord;
use crate::fido::reply;
use crate::fido::reply::deliver;
use crate::fido::state;
use crate::fido::state::{fresh_scalar, FidoState};
use crate::fido::vendorreq;
use crate::fido::vendorreq::VendorReq;
use crate::fido::{Drawn, Rng};
use crate::sdk::{array12, array16, array32};
use crate::wipe::wipe;

verus! {

/// Length of a wrapped key: nonce, ciphertext and tag.
pub const BLOB_LEN: usize = 60;

/// Length of an ML-KEM-768 encapsulation key.
pub const MLKEM768_EK_LEN: usize = 1184;

/// The modulus of the coefficients of an ML-KEM key.
pub const MLKEM_Q: u32 = 3329;

// ---- key agreement ----
/// The public key of the device, uncompressed.
pub open spec fn point(xy: (Seq<u8>, Seq<u8>)) -> Seq<u8> {
    seq![4u8] + xy.0 + xy.1
}

/// The two 12-bit coefficients that start at byte `3 * i`.
pub open spec fn coefficients(ek: Seq<u8>, i: int) -> (int, int) {
    (
        ek[3 * i] + 256 * (ek[3 * i + 1] % 16),
        ek[3 * i + 1] / 16 + 16 * ek[3 * i + 2],
    )
}

/// An encapsulation key is of the right length, and its 768 coefficients are
/// reduced.
pub open spec fn well_formed(ek: Seq<u8>) -> bool {
    &&& ek.len() == MLKEM768_EK_LEN
    &&& forall|i: int|
        0 <= i < 384 ==> (#[trigger] coefficients(ek, i)).0 < MLKEM_Q && coefficients(ek, i).1
            < MLKEM_Q
}

/// The channel key: from the shared x coordinate and the device key alone, or
/// with the ML-KEM secret and bound to its ciphertext.
pub open spec fn channel_key(
    z: Seq<u8>,
    dev_pub: Seq<u8>,
    leg: Option<(Seq<u8>, Seq<u8>)>,
) -> Seq<u8> {
    match leg {
        None => crypto::hkdf_sha256_of(Seq::empty(), z, dev_pub, 32),
        Some((ct, ss)) => crypto::hkdf_sha256_of(
            encode_utf8("RSK-MSE-PQ-v1"@),
            z + ss,
            dev_pub + ct,
            32,
        ),
    }
}

/// An agreed channel: its key, the device's public key, and the ciphertext for
/// the host where ML-KEM took part.
pub struct Channel {
    pub key: [u8; 32],
    pub x: [u8; 32],
    pub y: [u8; 32],
    pub ct: Option<Vec<u8>>,
}

/// What an agreed channel is.
pub struct ChannelView {
    pub key: Seq<u8>,
    pub xy: (Seq<u8>, Seq<u8>),
    pub ct: Option<Seq<u8>>,
}

impl View for Channel {
    type V = ChannelView;

    open spec fn view(&self) -> ChannelView {
        ChannelView {
            key: self.key@,
            xy: (self.x@, self.y@),
            ct: crypto::seen_bytes(self.ct),
        }
    }
}

/// The channel over the shared x coordinate `z`: with the ML-KEM message `m`
/// where the host has an encapsulation key; refused where that is malformed.
pub open spec fn agreed_over(
    scalar: Seq<u8>,
    z: Seq<u8>,
    m: Seq<u8>,
    ek: Seq<u8>,
) -> Result<ChannelView, CtapError> {
    let xy = crypto::p256_public_of(scalar);
    if ek.len() == 0 {
        Ok(ChannelView { key: channel_key(z, point(xy), None), xy, ct: None })
    } else if !well_formed(ek) {
        Err(CtapError::InvalidParameter)
    } else {
        let leg = crypto::mlkem768_of(ek, m);
        Ok(ChannelView { key: channel_key(z, point(xy), Some(leg)), xy, ct: Some(leg.0) })
    }
}

/// The channel that the device's scalar and the ML-KEM message `m` agree on
/// with the host's point and encapsulation key; refused where the point is not
/// on the curve or the encapsulation key is malformed.
pub open spec fn agreed(
    scalar: Seq<u8>,
    m: Seq<u8>,
    x: Seq<u8>,
    y: Seq<u8>,
    ek: Seq<u8>,
) -> Result<ChannelView, CtapError> {
    match crypto::p256_ecdh_of(scalar, x, y) {
        None => Err(CtapError::InvalidParameter),
        Some(z) => agreed_over(scalar, z, m, ek),
    }
}

/// An agreement, seen as a channel.
pub open spec fn seen_channel(r: Result<Channel, CtapError>) -> Result<ChannelView, CtapError> {
    match r {
        Ok(c) => Ok(c@),
        Err(e) => Err(e),
    }
}

fn check_ek(ek: &[u8]) -> (r: bool)
    ensures
        r == well_formed(ek@),
{
    if ek.len() != MLKEM768_EK_LEN {
        return false;
    }
    let mut i: usize = 0;
    while i < 384
        invariant
            i <= 384,
            ek@.len() == 1184,
            forall|j: int|
                0 <= j < i ==> (#[trigger] coefficients(ek@, j)).0 < MLKEM_Q && coefficients(
                    ek@,
                    j,
                ).1 < MLKEM_Q,
        decreases 384 - i,
    {
        let a: u32 = ek[3 * i] as u32 + 256 * (ek[3 * i + 1] as u32 % 16);
        let b: u32 = ek[3 * i + 1] as u32 / 16 + 16 * ek[3 * i + 2] as u32;
        assert(coefficients(ek@, i as int) == (a as int, b as int));
        if a >= MLKEM_Q || b >= MLKEM_Q {
            return false;
        }
        i += 1;
    }
    true
}

/// The device's public key, uncompressed.
pub(crate) fn point_bytes(x: &[u8; 32], y: &[u8; 32]) -> (r: [u8; 65])
    ensures
        r@ == point((x@, y@)),
{
    let mut p = [0u8; 65];
    p[0] = 4;
    let mut i: usize = 0;
    while i < 32
        invariant
            i <= 32,
            p@[0] == 4,
            forall|j: int| 0 <= j < i ==> p@[1 + j] == x@[j] && p@[33 + j] == y@[j],
        decreases 32 - i,
    {
        p[1 + i] = x[i];
        p[33 + i] = y[i];
        i += 1;
    }
    assert forall|j: int| 0 <= j < 65 implies p@[j] == point((x@, y@))[j] by {
        if 1 <= j < 33 {
            assert(p@[1 + (j - 1)] == x@[j - 1]);
        } else if j >= 33 {
            assert(p@[33 + (j - 33)] == y@[j - 33]);
        }
    }
    assert(p@ =~= point((x@, y@)));
    p
}

fn ek_array(ek: &[u8]) -> (r: [u8; 1184])
    requires
        ek@.len() == 1184,
    ensures
        r@ == ek@,
{
    let mut a = [0u8; 1184];
    let mut i: usize = 0;
    while i < 1184
        invariant
            i <= 1184,
            ek@.len() == 1184,
            forall|j: int| 0 <= j < i ==> a@[j] == ek@[j],
        decreases 1184 - i,
    {
        a[i] = ek[i];
        i += 1;
    }
    assert(a@ =~= ek@);
    a
}

/// Agrees on a channel over the shared x coordinate, with given random values.
pub fn agree(scalar: &[u8; 32], z: &[u8; 32], m: &[u8; 32], ek: &[u8]) -> (r: Result<
    Channel,
    CtapError,
>)
    requires
        crypto::p256_scalar(scalar@),
    ensures
        seen_channel(r) == agreed_over(scalar@, z@, m@, ek@),
{
    let (dx, dy) = p256_public(scalar);
    let dev_pub: [u8; 65] = point_bytes(&dx, &dy);
    if ek.len() == 0 {
        let salt: [u8; 0] = [];
        assert(salt@ =~= Seq::<u8>::empty());
        let key: [u8; 32] = hkdf_sha256(&salt, z, &dev_pub);
        return Ok(Channel { key, x: dx, y: dy, ct: None });
    }
    if !check_ek(ek) {
        return Err(CtapError::InvalidParameter);
    }
    let (ct, mut ss) = mlkem768_encapsulate(&ek_array(ek), m);
    let mut ikm: Vec<u8> = Vec::with_capacity(64);
    ikm.extend_from_slice(z);
    ikm.extend_from_slice(&ss);
    let mut info: Vec<u8> = Vec::new();
    info.extend_from_slice(&dev_pub);
    info.extend_from_slice(&ct);
    assert(ikm@ =~= z@ + ss@);
    assert(info@ =~= dev_pub@ + ct@);
    let key: [u8; 32] = hkdf_sha256("RSK-MSE-PQ-v1".as_bytes(), ikm.as_slice(), info.as_slice());
    wipe(&mut ss);
    wipe(ikm.as_mut_slice());
    let ct: Vec<u8> = vstd::slice::slice_to_vec(&ct);
    Ok(Channel { key, x: dx, y: dy, ct: Some(ct) })
}

/// A COSE key for ECDH on P-256.
pub open spec fn ecdh_cose(xy: (Seq<u8>, Seq<u8>)) -> Seq<u8> {
    cbor::map(5) + cbor::uint(1) + cbor::uint(2) + cbor::uint(3) + cbor::sint(-25) + cbor::sint(-1)
        + cbor::uint(1) + cbor::sint(-2) + cbor::bytes(xy.0) + cbor::sint(-3) + cbor::bytes(xy.1)
}

/// The answer to a key agreement: the device's key, and the ciphertext where
/// there is one.
pub open spec fn agreement_reply(c: ChannelView) -> Seq<u8> {
    let head = cbor::map(
        if c.ct is Some {
            2
        } else {
            1
        },
    ) + cbor::uint(1) + ecdh_cose(c.xy);
    match c.ct {
        Some(ct) => head + cbor::uint(2) + cbor::bytes(ct),
        None => head,
    }
}

fn encode_agreement(c: &Channel) -> (r: Vec<u8>)
    ensures
        r@ == agreement_reply(c@),
{
    let mut key: Vec<u8> = Vec::new();
    put_map(&mut key, 5);
    put_u64(&mut key, 1);
    put_u64(&mut key, 2);
    put_u64(&mut key, 3);
    put_i64(&mut key, -25);
    put_i64(&mut key, -1);
    put_u64(&mut key, 1);
    put_i64(&mut key, -2);
    put_bytes(&mut key, &c.x);
    put_i64(&mut key, -3);
    put_bytes(&mut key, &c.y);
    assert(key@ =~= ecdh_cose((c.x@, c.y@)));
    let mut v: Vec<u8> = Vec::new();
    put_map(
        &mut v,
        if c.ct.is_some() {
            2
        } else {
            1
        },
    );
    put_u64(&mut v, 1);
    v.extend_from_slice(key.as_slice());
    if let Some(ct) = &c.ct {
        put_u64(&mut v, 2);
        put_bytes(&mut v, ct.as_slice());
    }
    assert(v@ =~= agreement_reply(c@));
    v
}

/// Why a key agreement cannot start: a coordinate is missing or too long.
pub open spec fn bad_point(v: vendorreq::VendorView) -> Option<CtapError> {
    if v.kax.len() == 0 || v.kay.len() == 0 {
        Some(CtapError::MissingParameter)
    } else if v.kax.len() > 32 || v.kay.len() > 32 {
        Some(CtapError::InvalidParameter)
    } else {
        None
    }
}

/// The state with the channel established.
pub open spec fn established(s: FidoState, c: ChannelView, after: FidoState) -> bool {
    &&& after.mse_active
    &&& after.mse_key@ == c.key
    &&& after.mse_pub@ == point(c.xy)
    &&& after == (FidoState {
        mse_active: true,
        mse_key: after.mse_key,
        mse_pub: after.mse_pub,
        ..s
    })
}

/// The outcome of a key agreement with the drawn values: refused with the state
/// as it was, or the channel is established and the answer given.
pub open spec fn agreement(
    before: FidoState,
    after: FidoState,
    v: vendorreq::VendorView,
    scalar: Seq<u8>,
    m: Seq<u8>,
    out_before: Seq<u8>,
    out_after: Seq<u8>,
    r: CtapResult,
) -> bool {
    &&& crypto::p256_scalar(scalar)
    &&& m.len() == 32
    &&& match agreed(
        scalar,
        m,
        hmacsecret::aligned(v.kax)->Ok_0,
        hmacsecret::aligned(v.kay)->Ok_0,
        v.mlkem_ek,
    ) {
        Err(e) => r == Err::<usize, CtapError>(e) && after == before && out_after == out_before,
        Ok(c) => established(before, c, after) && reply::delivered(
            out_before,
            out_after,
            agreement_reply(c),
            r,
        ),
    }
}

/// The ML-KEM message is drawn: the host's point is on the curve, and the host has
/// an encapsulation key of the right length.
pub open spec fn draws_message(v: vendorreq::VendorView, scalar: Seq<u8>) -> bool {
    &&& v.mlkem_ek.len() == MLKEM768_EK_LEN
    &&& crypto::p256_ecdh_of(
        scalar,
        hmacsecret::aligned(v.kax)->Ok_0,
        hmacsecret::aligned(v.kay)->Ok_0,
    ) is Some
}

/// The message where none is drawn.
pub open spec fn no_message() -> Seq<u8> {
    Seq::new(32, |i: int| 0u8)
}

/// The outcome of a key agreement, with the draws before and after it: refused
/// without a draw where a coordinate is missing or too long, refused where no
/// draw of the search was a scalar, and otherwise the agreement with what was
/// drawn: the scalar, and behind it the ML-KEM message where one is drawn.
pub open spec fn agreement_outcome(
    before: FidoState,
    after: FidoState,
    v: vendorreq::VendorView,
    drawn_before: Seq<Seq<u8>>,
    drawn_after: Seq<Seq<u8>>,
    out_before: Seq<u8>,
    out_after: Seq<u8>,
    r: CtapResult,
) -> bool {
    match bad_point(v) {
        Some(e) => {
            &&& r == Err::<usize, CtapError>(e)
            &&& after == before
            &&& out_after == out_before
            &&& drawn_after == drawn_before
        },
        None => {
            let tried = drawn_after.drop_last();
            ||| {
                &&& state::drew_scalar(drawn_before, drawn_after, None)
                &&& r == Err::<usize, CtapError>(CtapError::Other)
                &&& after == before
                &&& out_after == out_before
            }
            ||| {
                &&& state::drew_scalar(drawn_before, drawn_after, Some(drawn_after.last()))
                &&& !draws_message(v, drawn_after.last())
                &&& agreement(
                    before,
                    after,
                    v,
                    drawn_after.last(),
                    no_message(),
                    out_before,
                    out_after,
                    r,
                )
            }
            ||| {
                &&& state::drew_scalar(drawn_before, tried, Some(tried.last()))
                &&& draws_message(v, tried.last())
                &&& agreement(
                    before,
                    after,
                    v,
                    tried.last(),
                    drawn_after.last(),
                    out_before,
                    out_after,
                    r,
                )
            }
        },
    }
}

/// Establishes the channel with the host: draws an ephemeral scalar and the
/// ML-KEM message and answers with the device's public key. It fails for want
/// of a usable scalar only where the random source gave none in 2^64 - 1 draws.
pub fn mse<R: Rng>(
    state: &mut FidoState,
    rng: &mut Drawn<R>,
    req: &VendorReq,
    out: &mut [u8],
) -> (r: CtapResult)
    ensures
        final(out)@.len() == old(out)@.len(),
        final(state).lba == old(state).lba,
        agreement_outcome(
            *old(state),
            *final(state),
            req@,
            old(rng).drawn(),
            final(rng).drawn(),
            old(out)@,
            final(out)@,
            r,
        ),
{
    if req.kax.len() == 0 || req.kay.len() == 0 {
        return Err(CtapError::MissingParameter);
    }
    let x: [u8; 32] = coord(req.kax)?;
    let y: [u8; 32] = coord(req.kay)?;
    let mut scalar: [u8; 32] = match fresh_scalar(rng) {
        Some(k) => k,
        None => {
            return Err(CtapError::Other);
        },
    };
    let ghost tried = rng.drawn();
    let ghost drawn = scalar@;
    let mut m = [0u8; 32];
    assert(m@ =~= no_message());
    let mut z: [u8; 32] = match p256_ecdh(&scalar, &x, &y) {
        Some(z) => z,
        None => {
            wipe(&mut scalar);
            let res: CtapResult = Err(CtapError::InvalidParameter);
            assert(agreement(
                *old(state),
                *state,
                req@,
                drawn,
                no_message(),
                old(out)@,
                out@,
                res,
            ));
            return res;
        },
    };
    if req.mlkem_ek.len() == MLKEM768_EK_LEN {
        rng.fill(&mut m);
        assert(rng.drawn().drop_last() =~= tried);
    }
    let ghost msg = m@;
    let r: Result<Channel, CtapError> = agree(&scalar, &z, &m, req.mlkem_ek);
    wipe(&mut scalar);
    wipe(&mut z);
    wipe(&mut m);
    let c: Channel = match r {
        Ok(c) => c,
        Err(e) => {
            let res: CtapResult = Err(e);
            assert(agreement(*old(state), *state, req@, drawn, msg, old(out)@, out@, res));
            return res;
        },
    };
    state.mse_key = c.key;
    state.mse_pub = point_bytes(&c.x, &c.y);
    state.mse_active = true;
    let v: Vec<u8> = encode_agreement(&c);
    let res: CtapResult = deliver(out, v.as_slice());
    assert(agreement(*old(state), *state, req@, drawn, msg, old(out)@, out@, res));
    res
}

// ---- wrapped keys ----
/// The 32 bytes that a blob carries over the channel, if it opens.
pub open spec fn channel_opened(s: FidoState, blob: Seq<u8>) -> Option<Seq<u8>> {
    if blob.len() != BLOB_LEN {
        None
    } else {
        crypto::chacha_open(
            s.mse_key@,
            blob.subrange(0, 12),
            s.mse_pub@,
            blob.subrange(12, 44),
            blob.subrange(44, 60),
        )
    }
}

/// The blob that carries 32 bytes over the channel.
pub open spec fn channel_sealed(s: FidoState, nonce: Seq<u8>, value: Seq<u8>) -> Seq<u8> {
    let c = crypto::chacha_seal(s.mse_key@, nonce, s.mse_pub@, value);
    nonce + c.0 + c.1
}

/// Opens a blob from the host.
pub(crate) fn open_blob(state: &FidoState, blob: &[u8]) -> (r: Option<[u8; 32]>)
    ensures
        crypto::seen(r) == channel_opened(*state, blob@),
{
    if blob.len() != BLOB_LEN {
        return None;
    }
    let nonce: [u8; 12] = array12(slice_subrange(blob, 0, 12));
    let ct: [u8; 32] = array32(slice_subrange(blob, 12, 44));
    let tag: [u8; 16] = array16(slice_subrange(blob, 44, 60));
    chacha20poly1305_decrypt(&state.mse_key, &nonce, &state.mse_pub, &ct, &tag)
}

/// Opens the 32-byte key that a blob carries; a blob of another length, or one
/// that does not open, is refused.
pub fn open_channel_key(state: &FidoState, blob: &[u8]) -> (r: Result<[u8; 32], CtapError>)
    ensures
        match channel_opened(*state, blob@) {
            Some(k) => r matches Ok(x) && x@ == k,
            None => r == Err::<[u8; 32], CtapError>(CtapError::InvalidParameter),
        },
{
    match open_blob(state, blob) {
        Some(k) => Ok(k),
        None => Err(CtapError::InvalidParameter),
    }
}

/// Seals 32 bytes for the host under a given nonce. The channel opens them
/// again.
pub fn seal_blob(state: &FidoState, nonce: &[u8; 12], value: &[u8; 32]) -> (r: Vec<u8>)
    ensures
        r@ == channel_sealed(*state, nonce@, value@),
        r@.len() == BLOB_LEN,
        channel_opened(*state, r@) == Some(value@),
{
    let (ct, tag) = chacha20poly1305_encrypt(&state.mse_key, nonce, &state.mse_pub, value);
    let mut blob: Vec<u8> = Vec::new();
    blob.extend_from_slice(nonce);
    blob.extend_from_slice(&ct);
    blob.extend_from_slice(&tag);
    assert(blob@ =~= nonce@ + ct@ + tag@);
    assert(blob@.subrange(0, 12) =~= nonce@);
    assert(blob@.subrange(12, 44) =~= ct@);
    assert(blob@.subrange(44, 60) =~= tag@);
    blob
}

/// The key of a channel. Without an encapsulation key of the host it is
/// HKDF-SHA-256 of the shared x coordinate with the device's uncompressed point as
/// info; with one, the ML-KEM secret is appended to the input and its ciphertext
/// to the info, under a salt of its own.
pub proof fn law_channel_key(scalar: Seq<u8>, m: Seq<u8>, x: Seq<u8>, y: Seq<u8>, ek: Seq<u8>)
    ensures
        agreed(scalar, m, x, y, ek) matches Ok(c) ==> crypto::p256_ecdh_of(scalar, x, y) is Some
            && {
            let z = crypto::p256_ecdh_of(scalar, x, y)->0;
            let xy = crypto::p256_public_of(scalar);
            let dev = seq![4u8] + xy.0 + xy.1;
            &&& c.xy == xy
            &&& if ek.len() == 0 {
                c.ct is None && c.key == crypto::hkdf_sha256_of(Seq::empty(), z, dev, 32)
            } else {
                let leg = crypto::mlkem768_of(ek, m);
                &&& ek.len() == 1184
                &&& c.ct == Some(leg.0)
                &&& c.key == crypto::hkdf_sha256_of(
                    encode_utf8("RSK-MSE-PQ-v1"@),
                    z + leg.1,
                    dev + leg.0,
                    32,
                )
            }
        },
        agreed(scalar, m, x, y, ek) is Ok <==> crypto::p256_ecdh_of(scalar, x, y) is Some && (
        ek.len() == 0 || well_formed(ek)),
{
}

/// An established channel is known by the key and the point of the agreement, and
/// nothing else of the state changes.
pub proof fn law_established(s: FidoState, c: ChannelView, after: FidoState)
    requires
        established(s, c, after),
    ensures
        after.mse_active,
        after.mse_key@ == c.key,
        after.mse_pub@ == seq![4u8] + c.xy.0 + c.xy.1,
        after.paut == s.paut,
        after.ephemeral == s.ephemeral,
        after.keydev_dec == s.keydev_dec,
        after.lba == s.lba,
{
}

/// The answer to a key agreement: the device's key as a COSE key for ECDH on
/// P-256, and the ciphertext exactly where there is one.
pub proof fn law_agreement_reply(c: ChannelView)
    requires
        c.xy.0.len() <= u32::MAX,
        c.xy.1.len() <= u32::MAX,
        c.ct matches Some(ct) ==> ct.len() <= u32::MAX,
    ensures
        ({
            let o = cborvalue::decoded(agreement_reply(c));
            let key = cborvalue::at(o, 1)->0;
            &&& cborvalue::at(o, 1) is Some
            &&& cborvalue::at(key, 1) == Some(Value::Int(2))
            &&& cborvalue::at(key, 3) == Some(Value::Int(-25))
            &&& cborvalue::at(key, -1) == Some(Value::Int(1))
            &&& cborvalue::at(key, -2) == Some(Value::Bytes(c.xy.0))
            &&& cborvalue::at(key, -3) == Some(Value::Bytes(c.xy.1))
            &&& cborvalue::at(o, 2) == (match c.ct {
                Some(ct) => Some(Value::Bytes(ct)),
                None => None,
            })
        }),
{
    let h = cbor::map(5);
    let k0 = Seq::<(Value, Value)>::empty();
    cborvalue::lemma_nothing(h);
    cborvalue::lemma_entry(h, k0, Value::Int(1), Value::Int(2));
    let k1 = k0.push((Value::Int(1), Value::Int(2)));
    cborvalue::lemma_entry(h, k1, Value::Int(3), Value::Int(-25));
    let k2 = k1.push((Value::Int(3), Value::Int(-25)));
    cborvalue::lemma_entry(h, k2, Value::Int(-1), Value::Int(1));
    let k3 = k2.push((Value::Int(-1), Value::Int(1)));
    cborvalue::lemma_entry(h, k3, Value::Int(-2), Value::Bytes(c.xy.0));
    let k4 = k3.push((Value::Int(-2), Value::Bytes(c.xy.0)));
    cborvalue::lemma_entry(h, k4, Value::Int(-3), Value::Bytes(c.xy.1));
    let k5 = k4.push((Value::Int(-3), Value::Bytes(c.xy.1)));
    assert(ecdh_cose(c.xy) == cborvalue::enc(Value::Table(k5)));
    let w = cbor::map(
        if c.ct is Some {
            2
        } else {
            1
        },
    );
    let e0 = Seq::<(Value, Value)>::empty();
    cborvalue::lemma_nothing(w);
    cborvalue::lemma_entry(w, e0, Value::Int(1), Value::Table(k5));
    let e1 = e0.push((Value::Int(1), Value::Table(k5)));
    match c.ct {
        Some(ct) => {
            cborvalue::lemma_entry(w, e1, Value::Int(2), Value::Bytes(ct));
            let e2 = e1.push((Value::Int(2), Value::Bytes(ct)));
            cborvalue::law_decoded(Value::Table(e2));
        },
        None => {
            cborvalue::law_decoded(Value::Table(e1));
        },
    }
}

/// An encapsulation key has 1184 bytes, and each of its 768 numbers of twelve bits,
/// two to three bytes, is below 3329.
pub proof fn law_encapsulation_key(ek: Seq<u8>, i: int)
    requires
        well_formed(ek),
        0 <= i < 384,
    ensures
        ek.len() == 1184,
        ({
            let n = ek[3 * i] + 0x100 * ek[3 * i + 1] + 0x1_0000 * ek[3 * i + 2];
            &&& n % 0x1000 < 3329
            &&& n / 0x1000 < 3329
        }),
{
    let a = ek[3 * i];
    let b = ek[3 * i + 1];
    let c = ek[3 * i + 2];
    let lo = coefficients(ek, i).0;
    let hi = coefficients(ek, i).1;
    assert(b == 16 * (b / 16) + b % 16);
    assert(a + 0x100 * b + 0x1_0000 * c == 0x1000 * hi + lo);
    assert(0 <= lo < 0x1000);
    vstd::arithmetic::div_mod::lemma_fundamental_div_mod_converse(
        a + 0x100 * b + 0x1_0000 * c,
        0x1000,
        hi,
        lo,
    );
}

/// A key agreement that succeeds used a scalar that was drawn for it and the
/// coordinates of the host, each as a number of 32 bytes; the channel stands with
/// the key of the two, and the answer carries the device's point. One that fails
/// leaves the state as it was.
pub proof fn law_key_agreement(
    before: FidoState,
    after: FidoState,
    v: vendorreq::VendorView,
    drawn_before: Seq<Seq<u8>>,
    drawn_after: Seq<Seq<u8>>,
    out_before: Seq<u8>,
    out_after: Seq<u8>,
    r: CtapResult,
) -> (d: (Seq<u8>, Seq<u8>))
    requires
        agreement_outcome(before, after, v, drawn_before, drawn_after, out_before, out_after, r),
        out_before.len() <= usize::MAX,
    ensures
        r is Err && after != before ==> v.kax.len() > 0 && v.kay.len() > 0,
        v.kax.len() == 0 || v.kay.len() == 0 ==> r == Err::<usize, CtapError>(
            CtapError::MissingParameter,
        ) && after == before && drawn_after == drawn_before,
        drawn_after.len() > 0 ==> (r matches Ok(n) ==> {
            &&& drawn_after.skip(drawn_before.len() as int).contains(d.0)
            &&& crypto::p256_scalar(d.0)
            &&& v.kax.len() == 32 && v.kay.len() == 32 ==> (agreed(
                d.0,
                d.1,
                v.kax,
                v.kay,
                v.mlkem_ek,
            ) matches Ok(c) && after.mse_active && after.mse_key@ == c.key && after.mse_pub@
                == seq![4u8] + c.xy.0 + c.xy.1 && out_after.take(n as int) == agreement_reply(c))
        }),
{
    if r is Ok && drawn_after.len() > 0 {
        let tried = drawn_after.drop_last();
        let first = state::drew_scalar(drawn_before, drawn_after, Some(drawn_after.last()))
            && !draws_message(v, drawn_after.last()) && agreement(
            before,
            after,
            v,
            drawn_after.last(),
            no_message(),
            out_before,
            out_after,
            r,
        );
        let scalar = if first {
            drawn_after.last()
        } else {
            tried.last()
        };
        let m = if first {
            no_message()
        } else {
            drawn_after.last()
        };
        let new = drawn_after.skip(drawn_before.len() as int);
        if first {
            assert(new[new.len() - 1] == scalar);
        } else {
            assert(tried[tried.len() - 1] == drawn_after[tried.len() - 1]);
            assert(new[new.len() - 2] == scalar);
        }
        if v.kax.len() == 32 && v.kay.len() == 32 {
            assert(state::zeros(0) + v.kax =~= v.kax);
            assert(state::zeros(0) + v.kay =~= v.kay);
            let c = agreed(scalar, m, v.kax, v.kay, v.mlkem_ek)->Ok_0;
            assert(out_after.take(r->Ok_0 as int) =~= agreement_reply(c));
        }
        (scalar, m)
    } else {
        (Seq::empty(), Seq::empty())
    }
}

}
