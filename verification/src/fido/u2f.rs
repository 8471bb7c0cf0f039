//! U2F (CTAP1): register, authenticate and version, as ISO 7816 commands.
//! Registration answers with the new public key, its handle, the attestation
//! certificate and a signature by the attestation key; authentication signs a
//! challenge with the key of a credential.

use vstd::prelude::*;
use vstd::slice::slice_subrange;
use vstd::utf8::*;

use crate::crypto;
use crate::crypto::{p256_accepts, p256_public, p256_sign};
use crate::fido::cert;
use crate::fido::cert::att_chain_ranges;
use crate::fido::codec;
use crate::fido::codec::{Ask, Codec, CredView, Credential, Recorded};
use crate::fido::consts::{
    CTAP_AUTHENTICATE, CTAP_REGISTER, CTAP_VERSION, EF_ALWAYS_UV, EF_ATT_CHAIN, EF_COUNTER,
    EF_EE_DEV, FID_ATT_KEY, U2F_AUTH_CHECK_ONLY, U2F_AUTH_ENFORCE, U2F_AUTH_FLAG_TUP,
    U2F_REGISTER_ID,
};
use crate::fido::device::Device;
use crate::fido::frame;
use crate::fido::journal;
use crate::fido::journal::{EV_U2F_AUTH, EV_U2F_REGISTER};
use crate::fido::keyderiv;
use crate::fido::keyderiv::{derive_new, fido_load_key, verify_key};
use crate::fido::reply::deliver;
use crate::fido::seed;
use crate::fido::seed::{bump_sign_counter, get_sign_counter, load_att_key};
use crate::fido::{Ctx, Presence, Rng, UserPresence};
use crate::fs::file_system;
use crate::fs::{Fs, Storage};
use crate::sdk;
use crate::sdk::{array32, be32_bytes, Apdu, Confirm, Sw};
use crate::wipe::wipe;

verus! {

/// Length of a key handle.
pub const KEY_HANDLE_LEN: usize = 64;

/// Longest certificate or chain that a registration reads.
pub const U2F_CERT_MAX: usize = 2064;

/// `reply` stands at the front of the buffer, the rest of which is untouched; a
/// reply that does not fit is refused and the buffer left alone.
pub open spec fn answered(
    before: Seq<u8>,
    after: Seq<u8>,
    reply: Seq<u8>,
    r: (Sw, usize),
) -> bool {
    if reply.len() <= before.len() {
        r == (Sw::OK, reply.len() as usize) && after == reply + before.skip(reply.len() as int)
    } else {
        r == (Sw::EXEC_ERROR, 0usize) && after == before
    }
}

fn answer(out: &mut [u8], reply: &[u8]) -> (r: (Sw, usize))
    ensures
        answered(old(out)@, final(out)@, reply@, r),
        final(out)@.len() == old(out)@.len(),
{
    match deliver(out, reply) {
        Ok(n) => (Sw::OK, n),
        Err(_) => (Sw::EXEC_ERROR, 0),
    }
}

// ---- register ----
/// What a registration signs: a zero byte, application, challenge, key handle
/// and public key.
pub open spec fn register_base(
    app: Seq<u8>,
    chal: Seq<u8>,
    handle: Seq<u8>,
    xy: (Seq<u8>, Seq<u8>),
) -> Seq<u8> {
    seq![0u8] + app + chal + handle + seq![4u8] + xy.0 + xy.1
}

/// The answer to a registration: public key, key handle, certificate and
/// signature.
pub open spec fn register_reply(
    handle: Seq<u8>,
    xy: (Seq<u8>, Seq<u8>),
    cert: Seq<u8>,
    sig: Seq<u8>,
) -> Seq<u8> {
    seq![U2F_REGISTER_ID, 4u8] + xy.0 + xy.1 + seq![64u8] + handle + cert + sig
}

/// The attestation certificate: the first one of the organisation's chain where
/// its key is there, otherwise that of the device.
pub open spec fn u2f_cert(c: Map<u16, Seq<u8>>, org: bool) -> Option<Seq<u8>> {
    if org {
        if c.contains_key(EF_ATT_CHAIN) {
            let rec = file_system::clipped(c[EF_ATT_CHAIN], U2F_CERT_MAX as nat);
            if rec.len() > 3 && cert::certs(rec).len() > 0 {
                Some(cert::certs(rec)[0])
            } else {
                None
            }
        } else {
            None
        }
    } else if seed::holds(c, EF_EE_DEV) {
        Some(file_system::clipped(c[EF_EE_DEV], U2F_CERT_MAX as nat))
    } else {
        None
    }
}

/// The answer to a registration with a given key handle and scalar; nothing
/// where a key is out of range or a certificate is missing.
pub open spec fn registration(
    dev: Device,
    c: Map<u16, Seq<u8>>,
    device_key: Seq<u8>,
    app: Seq<u8>,
    chal: Seq<u8>,
    handle: Seq<u8>,
    scalar: Seq<u8>,
) -> Option<Seq<u8>> {
    let org = seed::loaded(dev, c, FID_ATT_KEY);
    let key = match org {
        Some(k) => k,
        None => device_key,
    };
    let xy = crypto::p256_public_of(scalar);
    if !crypto::p256_scalar(scalar) || !crypto::p256_scalar(key) {
        None
    } else {
        match crypto::p256_sign_of(key, register_base(app, chal, handle, xy)) {
            None => None,
            Some(sig) => match u2f_cert(c, org is Some) {
                None => None,
                Some(x) => Some(register_reply(handle, xy, x, sig)),
            },
        }
    }
}

fn load_u2f_cert<S: Storage>(fs: &mut Fs<S>, org: bool) -> (r: Option<Vec<u8>>)
    requires
        old(fs).wf(),
    ensures
        final(fs).wf(),
        final(fs).reread(old(fs)),
        crypto::seen_bytes(r) == u2f_cert(old(fs).contents(), org),
{
    if org {
        let rec: Vec<u8> = match fs.read_upto(EF_ATT_CHAIN, U2F_CERT_MAX) {
            Some(b) => b,
            None => {
                return None;
            },
        };
        if rec.len() <= 3 {
            return None;
        }
        let found: Vec<(usize, usize)> = att_chain_ranges(rec.as_slice());
        assert(cert::seen_ranges(found@).len() == found@.len());
        if found.len() == 0 {
            return None;
        }
        let (off, len) = found[0];
        assert(found@[0].0 + found@[0].1 <= rec@.len());
        assert(cert::seen_ranges(found@)[0] == (off as int, len as int));
        let leaf: &[u8] = slice_subrange(rec.as_slice(), off, off + len);
        assert(leaf@ == cert::certs(rec@)[0]);
        Some(vstd::slice::slice_to_vec(leaf))
    } else {
        match fs.read_upto(EF_EE_DEV, U2F_CERT_MAX) {
            Some(b) => if b.len() > 0 {
                Some(b)
            } else {
                None
            },
            None => None,
        }
    }
}

/// Answers a registration with a given key handle and scalar.
pub fn register_with<S: Storage>(
    dev: &Device,
    fs: &mut Fs<S>,
    device_key: &[u8; 32],
    app: &[u8; 32],
    chal: &[u8],
    handle: &[u8; 64],
    scalar: &[u8; 32],
) -> (r: Option<Vec<u8>>)
    requires
        old(fs).wf(),
    ensures
        final(fs).wf(),
        final(fs).reread(old(fs)),
        crypto::seen_bytes(r) == registration(
            *dev,
            old(fs).contents(),
            device_key@,
            app@,
            chal@,
            handle@,
            scalar@,
        ),
{
    let org: Option<[u8; 32]> = load_att_key(dev, fs);
    let is_org: bool = org.is_some();
    let mut key: [u8; 32] = match org {
        Some(k) => k,
        None => *device_key,
    };
    if !p256_accepts(scalar) || !p256_accepts(&key) {
        wipe(&mut key);
        return None;
    }
    let (x, y) = p256_public(scalar);
    let mut base: Vec<u8> = Vec::new();
    base.push(0);
    base.extend_from_slice(app);
    base.extend_from_slice(chal);
    base.extend_from_slice(handle);
    base.push(4);
    base.extend_from_slice(&x);
    base.extend_from_slice(&y);
    assert(base@ =~= register_base(app@, chal@, handle@, (x@, y@)));
    let sig: Option<Vec<u8>> = p256_sign(&key, base.as_slice());
    wipe(&mut key);
    let sig: Vec<u8> = match sig {
        Some(s) => s,
        None => {
            return None;
        },
    };
    let cert: Vec<u8> = match load_u2f_cert(fs, is_org) {
        Some(c) => c,
        None => {
            return None;
        },
    };
    let mut v: Vec<u8> = Vec::new();
    v.push(U2F_REGISTER_ID);
    v.push(4);
    v.extend_from_slice(&x);
    v.extend_from_slice(&y);
    v.push(64);
    v.extend_from_slice(handle);
    v.extend_from_slice(cert.as_slice());
    v.extend_from_slice(sig.as_slice());
    assert(v@ =~= register_reply(handle@, (x@, y@), cert@, sig@));
    Some(v)
}

/// A registration that was confirmed by a touch and drew the path of the handle:
/// the answer, and the event with the front of the application id.
pub open spec fn registered<S: Storage, R: Rng, P: UserPresence>(
    before: &Ctx<S, R, P>,
    after: &Ctx<S, R, P>,
    data: Seq<u8>,
    handle: Seq<u8>,
    out_before: Seq<u8>,
    out_after: Seq<u8>,
    r: (Sw, usize),
) -> bool {
    &&& before.keydev() matches Some(key)
    &&& keyderiv::handle_valid(key, data.subrange(32, 64), handle)
    &&& keyderiv::drew_path(before.rng.drawn(), after.rng.drawn(), handle.take(32))
    &&& match registration(
        before.dev,
        before.fs.contents(),
        key,
        data.subrange(32, 64),
        data.take(32),
        handle,
        keyderiv::path_scalar(key, handle.take(32)),
    ) {
        None => r == (Sw::EXEC_ERROR, 0usize) && frame::only_drawn(before, after) && out_after
            == out_before,
        Some(x) => {
            &&& answered(out_before, out_after, x, r)
            &&& if r.0 == Sw::OK {
                &&& frame::logged_but_drawn(
                    before,
                    after,
                    before.state,
                    |g: u16| journal::is_journal(g),
                )
                &&& journal::noted(before, after, 0, EV_U2F_REGISTER, 0, data.subrange(32, 40))
            } else {
                frame::only_drawn(before, after)
            }
        },
    }
}

/// While verification is always required, neither registration nor
/// authentication is allowed.
pub open spec fn closed<S: Storage, R: Rng, P: UserPresence>(ctx: &Ctx<S, R, P>) -> bool {
    seed::holds(ctx.fs.contents(), EF_ALWAYS_UV)
}

/// The outcome of a registration: not allowed, refused for its length, refused
/// without a confirming touch, refused without a seed, otherwise the answer for
/// the drawn handle.
pub open spec fn register_outcome<S: Storage, R: Rng, P: UserPresence>(
    before: &Ctx<S, R, P>,
    after: &Ctx<S, R, P>,
    data: Seq<u8>,
    out_before: Seq<u8>,
    out_after: Seq<u8>,
    r: (Sw, usize),
) -> bool {
    if closed(before) {
        &&& r == (Sw::COMMAND_NOT_ALLOWED, 0usize)
        &&& frame::untouched(before, after) && after.unasked(before)
        &&& out_after == out_before
    } else if data.len() != 64 {
        &&& r == (Sw::WRONG_LENGTH, 0usize)
        &&& frame::untouched(before, after) && after.unasked(before)
        &&& out_after == out_before
    } else {
        &&& after.prompted(before, sdk::action("Register key?"@, ""@))
        &&& if after.last_touch() != Presence::Confirmed {
            &&& r == (Sw::CONDITIONS_NOT_SATISFIED, 0usize)
            &&& frame::untouched(before, after)
            &&& out_after == out_before
        } else if before.keydev() is None {
            &&& r == (Sw::EXEC_ERROR, 0usize)
            &&& frame::untouched(before, after)
            &&& out_after == out_before
        } else {
            exists|handle: Seq<u8>| #[trigger]
                registered(before, after, data, handle, out_before, out_after, r)
        }
    }
}

fn cmd_register<S: Storage, R: Rng, P: UserPresence>(
    ctx: &mut Ctx<S, R, P>,
    apdu: &Apdu,
    out: &mut [u8],
) -> (r: (Sw, usize))
    requires
        old(ctx).wf(),
    ensures
        final(ctx).wf(),
        final(out)@.len() == old(out)@.len(),
        register_outcome(old(ctx), final(ctx), apdu.data@, old(out)@, final(out)@, r),
{
    let ghost start = *ctx;
    let data: &[u8] = apdu.data.as_slice();
    if ctx.fs.has_data(EF_ALWAYS_UV) {
        return (Sw::COMMAND_NOT_ALLOWED, 0);
    }
    if data.len() != 64 {
        return (Sw::WRONG_LENGTH, 0);
    }
    if !ctx.check_user_presence(Confirm::titled("Register key?")) {
        return (Sw::CONDITIONS_NOT_SATISFIED, 0);
    }
    let chal: &[u8] = slice_subrange(data, 0, 32);
    let app: [u8; 32] = array32(slice_subrange(data, 32, 64));
    assert(chal@ =~= data@.take(32));
    proof {
        ctx.lemma_keydev(&start);
    }
    let mut seed: [u8; 32] = match ctx.load_keydev() {
        Some(s) => s,
        None => {
            return (Sw::EXEC_ERROR, 0);
        },
    };
    let (handle, mut scalar) = derive_new(&seed, &app, &mut ctx.rng);
    let made: Option<Vec<u8>> = register_with(
        &ctx.dev,
        &mut ctx.fs,
        &seed,
        &app,
        chal,
        &handle,
        &scalar,
    );
    wipe(&mut scalar);
    wipe(&mut seed);
    let reply: Vec<u8> = match made {
        Some(v) => v,
        None => {
            let r: (Sw, usize) = (Sw::EXEC_ERROR, 0);
            assert(registered(&start, ctx, data@, handle@, old(out)@, out@, r));
            return (Sw::EXEC_ERROR, 0);
        },
    };
    let r: (Sw, usize) = answer(out, reply.as_slice());
    if r.0 == Sw::OK {
        let ghost sent = *ctx;
        journal::append(ctx, EV_U2F_REGISTER, 0, slice_subrange(data, 32, 40));
        proof {
            journal::lemma_noted(
                &start,
                &sent,
                ctx,
                0,
                EV_U2F_REGISTER,
                0,
                data@.subrange(32, 40),
            );
        }
    }
    assert(registered(&start, ctx, data@, handle@, old(out)@, out@, r));
    r
}

// ---- authenticate ----
/// The challenge, the application and the key handle of a request, if its
/// length fits and the handle is long enough.
pub open spec fn auth_request(data: Seq<u8>) -> Option<(Seq<u8>, Seq<u8>, Seq<u8>)> {
    if data.len() < 66 || data[64] < KEY_HANDLE_LEN || 65 + data[64] > data.len() {
        None
    } else {
        Some((data.take(32), data.subrange(32, 64), data.subrange(65, 65 + data[64])))
    }
}

/// The scalar of a key handle, given what kind of credential it was opened as:
/// that of a box by its id, that of a U2F handle by its path where its tag
/// binds it to the application; none for what did not open.
pub open spec fn auth_scalar(
    device_key: Seq<u8>,
    app: Seq<u8>,
    handle: Seq<u8>,
    u2f: Option<bool>,
) -> Option<Seq<u8>> {
    match u2f {
        Some(false) => Some(
            keyderiv::key_material(device_key, keyderiv::credential_path(handle)).take(32),
        ),
        Some(true) => if keyderiv::handle_valid(device_key, app, handle.take(64)) {
            Some(keyderiv::path_scalar(device_key, handle.take(32)))
        } else {
            None
        },
        None => None,
    }
}

/// Derives the scalar of a key handle, given what kind of credential it was
/// opened as.
pub fn handle_scalar(
    device_key: &[u8; 32],
    app: &[u8; 32],
    handle: &[u8],
    u2f: Option<bool>,
) -> (r: Option<[u8; 32]>)
    requires
        handle@.len() >= KEY_HANDLE_LEN,
    ensures
        crypto::seen(r) == auth_scalar(device_key@, app@, handle@, u2f),
{
    match u2f {
        Some(false) => match fido_load_key(device_key, handle) {
            Some(raw) => {
                let s: &[u8] = slice_subrange(&raw, 0, 32);
                assert(s@ =~= raw@.take(32));
                Some(array32(s))
            },
            None => None,
        },
        Some(true) => {
            let mut kh = [0u8; 64];
            let mut i: usize = 0;
            while i < 64
                invariant
                    i <= 64,
                    handle@.len() >= 64,
                    forall|x: int| 0 <= x < i ==> kh@[x] == handle@[x],
                decreases 64 - i,
            {
                kh[i] = handle[i];
                i += 1;
            }
            assert(kh@ =~= handle@.take(64));
            assert(kh@.take(32) =~= handle@.take(32));
            verify_key(device_key, app, &kh)
        },
        None => None,
    }
}

/// What an authentication signs: application, flags, counter and challenge.
pub open spec fn auth_base(app: Seq<u8>, flags: u8, counter: int, chal: Seq<u8>) -> Seq<u8> {
    app + seq![flags] + sdk::be32(counter) + chal
}

/// The answer to an authentication: flags, counter and signature; none where
/// the key is out of range.
pub open spec fn auth_reply(
    scalar: Seq<u8>,
    app: Seq<u8>,
    flags: u8,
    counter: int,
    chal: Seq<u8>,
) -> Option<Seq<u8>> {
    if !crypto::p256_scalar(scalar) {
        None
    } else {
        match crypto::p256_sign_of(scalar, auth_base(app, flags, counter, chal)) {
            None => None,
            Some(sig) => Some(seq![flags] + sdk::be32(counter) + sig),
        }
    }
}

/// Signs a challenge with a given scalar.
pub fn authenticate_with(
    scalar: &[u8; 32],
    app: &[u8; 32],
    flags: u8,
    counter: u32,
    chal: &[u8],
) -> (r: Option<Vec<u8>>)
    ensures
        crypto::seen_bytes(r) == auth_reply(scalar@, app@, flags, counter as int, chal@),
{
    if !p256_accepts(scalar) {
        return None;
    }
    let ctr: [u8; 4] = be32_bytes(counter);
    let mut base: Vec<u8> = Vec::new();
    base.extend_from_slice(app);
    base.push(flags);
    base.extend_from_slice(&ctr);
    base.extend_from_slice(chal);
    assert(base@ =~= auth_base(app@, flags, counter as int, chal@));
    match p256_sign(scalar, base.as_slice()) {
        Some(sig) => {
            let mut v: Vec<u8> = Vec::new();
            v.push(flags);
            v.extend_from_slice(&ctr);
            v.extend_from_slice(sig.as_slice());
            assert(v@ =~= seq![flags] + sdk::be32(counter as int) + sig@);
            Some(v)
        },
        None => None,
    }
}

/// The flags that an authentication reports: presence where it was enforced.
pub open spec fn auth_flags(p1: u8) -> u8 {
    if p1 == U2F_AUTH_ENFORCE {
        U2F_AUTH_FLAG_TUP
    } else {
        0
    }
}

/// What signing a challenge with a scalar leads to: the answer, one more on the
/// counter and a recorded event; nothing where no answer could be given.
pub open spec fn signed<S: Storage, R: Rng, P: UserPresence>(
    before: &Ctx<S, R, P>,
    after: &Ctx<S, R, P>,
    p1: u8,
    req: (Seq<u8>, Seq<u8>, Seq<u8>),
    scalar: Seq<u8>,
    out_before: Seq<u8>,
    out_after: Seq<u8>,
    r: (Sw, usize),
) -> bool {
    let c = before.fs.contents();
    match auth_reply(scalar, req.1, auth_flags(p1), seed::counter(c), req.0) {
        None => r == (Sw::EXEC_ERROR, 0usize) && frame::untouched(before, after) && out_after
            == out_before,
        Some(x) => {
            &&& answered(out_before, out_after, x, r)
            &&& if r.0 == Sw::OK {
                &&& frame::logged(
                    before,
                    after,
                    before.state,
                    |g: u16| g == EF_COUNTER || journal::is_journal(g),
                )
                &&& journal::noted(
                    before,
                    after,
                    journal::new_file(before.fs.dynamic(), EF_COUNTER),
                    EV_U2F_AUTH,
                    0,
                    req.1.take(8),
                )
                &&& before.fs.reliable() && !seed::no_room(&before.fs, EF_COUNTER)
                    ==> seed::counter(after.fs.contents()) == seed::next_counter(seed::counter(c))
                &&& seed::counter(after.fs.contents()) == seed::next_counter(seed::counter(c))
                    || seed::counter(after.fs.contents()) == seed::counter(c)
            } else {
                frame::untouched(before, after)
            }
        },
    }
}

fn sign_challenge<S: Storage, R: Rng, P: UserPresence>(
    ctx: &mut Ctx<S, R, P>,
    p1: u8,
    app: &[u8; 32],
    chal: &[u8],
    handle: &[u8],
    scalar: &[u8; 32],
    out: &mut [u8],
) -> (r: (Sw, usize))
    requires
        old(ctx).wf(),
    ensures
        final(ctx).wf(),
        final(out)@.len() == old(out)@.len(),
        signed(
            old(ctx),
            final(ctx),
            p1,
            (chal@, app@, handle@),
            scalar@,
            old(out)@,
            final(out)@,
            r,
        ),
        final(ctx).presence == old(ctx).presence,
{
    let flags: u8 = if p1 == U2F_AUTH_ENFORCE {
        U2F_AUTH_FLAG_TUP
    } else {
        0
    };
    let ghost c0 = ctx.fs.contents();
    let ctr: u32 = get_sign_counter(&mut ctx.fs);
    let reply: Vec<u8> = match authenticate_with(scalar, app, flags, ctr, chal) {
        Some(v) => v,
        None => {
            return (Sw::EXEC_ERROR, 0);
        },
    };
    let r: (Sw, usize) = answer(out, reply.as_slice());
    if r.0 == Sw::OK {
        let _ = bump_sign_counter(&mut ctx.fs);
        let ghost c1 = ctx.fs.contents();
        let ghost counted = *ctx;
        journal::append(ctx, EV_U2F_AUTH, 0, slice_subrange(app, 0, 8));
        proof {
            assert(app@.subrange(0, 8) =~= app@.take(8));
            seed::lemma_known(old(ctx).fs.dynamic(), EF_COUNTER);
            journal::lemma_noted(
                old(ctx),
                &counted,
                ctx,
                journal::new_file(old(ctx).fs.dynamic(), EF_COUNTER),
                EV_U2F_AUTH,
                0,
                app@.take(8),
            );
            let c2 = ctx.fs.contents();
            assert(c2.contains_key(EF_COUNTER) == c1.contains_key(EF_COUNTER));
            assert forall|g: u16| !journal::is_journal(g) && g != EF_COUNTER implies {
                &&& #[trigger] c2.contains_key(g) == c0.contains_key(g)
                &&& c2.contains_key(g) ==> c2[g] == c0[g]
            } by {
                assert(c1.contains_key(g) == c0.contains_key(g));
            }
        }
    }
    r
}

/// The outcome of an authentication whose handle was opened as `u2f`. An unknown
/// handle is refused before anything else, a check alone never signs, and the
/// counter moves on with each signature that was handed out.
pub open spec fn authenticated<S: Storage, R: Rng, P: UserPresence>(
    before: &Ctx<S, R, P>,
    after: &Ctx<S, R, P>,
    p1: u8,
    req: (Seq<u8>, Seq<u8>, Seq<u8>),
    u2f: Option<bool>,
    out_before: Seq<u8>,
    out_after: Seq<u8>,
    r: (Sw, usize),
) -> bool {
    let c = before.fs.contents();
    &&& before.keydev() matches Some(key)
    &&& match auth_scalar(key, req.1, req.2, u2f) {
        None => r == (Sw::INCORRECT_PARAMS, 0usize) && frame::untouched(before, after)
            && after.unasked(before) && out_after == out_before,
        Some(scalar) => if p1 == U2F_AUTH_CHECK_ONLY {
            r == (Sw::CONDITIONS_NOT_SATISFIED, 0usize) && frame::untouched(before, after)
                && after.unasked(before) && out_after == out_before
        } else if p1 == U2F_AUTH_ENFORCE {
            &&& after.prompted(before, sdk::action("Sign in?"@, ""@))
            &&& if after.last_touch() == Presence::Confirmed {
                signed(before, after, p1, req, scalar, out_before, out_after, r)
            } else {
                &&& r == (Sw::CONDITIONS_NOT_SATISFIED, 0usize)
                &&& frame::untouched(before, after)
                &&& out_after == out_before
            }
        } else {
            signed(before, after, p1, req, scalar, out_before, out_after, r) && after.unasked(
                before,
            )
        },
    }
}

/// Answers an authentication whose handle was opened as `u2f`.
fn authenticate_as<S: Storage, R: Rng, P: UserPresence>(
    ctx: &mut Ctx<S, R, P>,
    p1: u8,
    app: &[u8; 32],
    chal: &[u8],
    handle: &[u8],
    seed: &[u8; 32],
    u2f: Option<bool>,
    out: &mut [u8],
) -> (r: (Sw, usize))
    requires
        old(ctx).wf(),
        old(ctx).keydev() == Some(seed@),
        handle@.len() >= KEY_HANDLE_LEN,
    ensures
        final(ctx).wf(),
        final(out)@.len() == old(out)@.len(),
        authenticated(
            old(ctx),
            final(ctx),
            p1,
            (chal@, app@, handle@),
            u2f,
            old(out)@,
            final(out)@,
            r,
        ),
{
    let ghost start = *ctx;
    let mut scalar: [u8; 32] = match handle_scalar(seed, app, handle, u2f) {
        Some(s) => s,
        None => {
            return (Sw::INCORRECT_PARAMS, 0);
        },
    };
    if p1 == U2F_AUTH_CHECK_ONLY {
        wipe(&mut scalar);
        return (Sw::CONDITIONS_NOT_SATISFIED, 0);
    }
    if p1 == U2F_AUTH_ENFORCE && !ctx.check_user_presence(Confirm::titled("Sign in?")) {
        wipe(&mut scalar);
        return (Sw::CONDITIONS_NOT_SATISFIED, 0);
    }
    let ghost mid = *ctx;
    assert(frame::untouched(&start, &mid));
    let ghost found = scalar@;
    let r: (Sw, usize) = sign_challenge(ctx, p1, app, chal, handle, &scalar, out);
    wipe(&mut scalar);
    proof {
        assert(seed::no_room(&mid.fs, EF_COUNTER) == seed::no_room(&start.fs, EF_COUNTER));
        assert(signed(
            &start,
            ctx,
            p1,
            (chal@, app@, handle@),
            found,
            old(out)@,
            out@,
            r,
        ));
    }
    r
}

/// An outcome depends on the files that it starts from, not on what the cache
/// knew.
proof fn lemma_authenticated<S: Storage, R: Rng, P: UserPresence>(
    a: &Ctx<S, R, P>,
    b: &Ctx<S, R, P>,
    after: &Ctx<S, R, P>,
    p1: u8,
    req: (Seq<u8>, Seq<u8>, Seq<u8>),
    u2f: Option<bool>,
    out_before: Seq<u8>,
    out_after: Seq<u8>,
    r: (Sw, usize),
)
    requires
        authenticated(b, after, p1, req, u2f, out_before, out_after, r),
        frame::untouched(a, b),
        b.presence == a.presence,
    ensures
        authenticated(a, after, p1, req, u2f, out_before, out_after, r),
{
    a.lemma_keydev(b);
    assert(seed::no_room(&a.fs, EF_COUNTER) == seed::no_room(&b.fs, EF_COUNTER));
}

/// What kind of credential an opened handle is.
pub open spec fn kind_of(c: Option<CredView>) -> Option<bool> {
    match c {
        Some(x) => Some(x.u2f),
        None => None,
    }
}

/// The outcome of an authentication: not allowed; refused for its form; refused without a
/// seed; otherwise that of the kind of credential the codec opened the handle as.
pub open spec fn authenticate_outcome<S: Storage, R: Rng, P: UserPresence>(
    before: &Ctx<S, R, P>,
    after: &Ctx<S, R, P>,
    t: codec::Talk,
    p1: u8,
    data: Seq<u8>,
    out_before: Seq<u8>,
    out_after: Seq<u8>,
    r: (Sw, usize),
) -> bool {
    if closed(before) {
        &&& r == (Sw::COMMAND_NOT_ALLOWED, 0usize)
        &&& frame::untouched(before, after) && after.unasked(before)
        &&& out_after == out_before
    } else {
        match auth_request(data) {
            None => {
                &&& r == (Sw::INCORRECT_PARAMS, 0usize)
                &&& frame::untouched(before, after) && after.unasked(before)
                &&& out_after == out_before
            },
            Some(req) => match before.keydev() {
                None => {
                    &&& r == (Sw::EXEC_ERROR, 0usize)
                    &&& frame::untouched(before, after) && after.unasked(before)
                    &&& out_after == out_before
                },
                Some(key) => exists|c: Option<CredView>|
                    #[trigger] t.told(
                        Ask::Load { seed: key, cred_box: req.2, rp_id_hash: req.1, answer: c },
                    ) && authenticated(
                        before,
                        after,
                        p1,
                        req,
                        kind_of(c),
                        out_before,
                        out_after,
                        r,
                    ),
            },
        }
    }
}

fn cmd_authenticate<S: Storage, R: Rng, P: UserPresence, C: Codec>(
    ctx: &mut Ctx<S, R, P>,
    codec: &mut Recorded<C>,
    apdu: &Apdu,
    out: &mut [u8],
) -> (r: (Sw, usize))
    requires
        old(ctx).wf(),
    ensures
        final(ctx).wf(),
        final(out)@.len() == old(out)@.len(),
        authenticate_outcome(
            old(ctx),
            final(ctx),
            codec::talk(old(codec), final(codec)),
            apdu.p1,
            apdu.data@,
            old(out)@,
            final(out)@,
            r,
        ),
        codec::talk(old(codec), final(codec)).wf(),
{
    let ghost asked = codec.asked();
    assert(asked.take(asked.len() as int) =~= asked);
    let ghost start = *ctx;
    let data: &[u8] = apdu.data.as_slice();
    if ctx.fs.has_data(EF_ALWAYS_UV) {
        return (Sw::COMMAND_NOT_ALLOWED, 0);
    }
    if data.len() < 66 {
        return (Sw::INCORRECT_PARAMS, 0);
    }
    let kh_len: usize = data[64] as usize;
    if kh_len < KEY_HANDLE_LEN || kh_len > data.len() - 65 {
        return (Sw::INCORRECT_PARAMS, 0);
    }
    let chal: &[u8] = slice_subrange(data, 0, 32);
    let app: [u8; 32] = array32(slice_subrange(data, 32, 64));
    let handle: &[u8] = slice_subrange(data, 65, 65 + kh_len);
    assert(chal@ =~= data@.take(32));
    let ghost req = auth_request(data@)->0;
    assert(req == (chal@, app@, handle@));
    proof {
        ctx.lemma_keydev(&start);
    }
    let mut seed: [u8; 32] = match ctx.load_keydev() {
        Some(s) => s,
        None => {
            return (Sw::EXEC_ERROR, 0);
        },
    };
    let ghost key = seed@;
    let opened: Option<Credential> = codec.load(&seed, handle, &app);
    proof {
        codec::lemma_asked(
            asked,
            Ask::Load {
                seed: key,
                cred_box: handle@,
                rp_id_hash: app@,
                answer: codec::seen_cred(opened),
            },
        );
    }
    let ghost mid = *ctx;
    let u2f: Option<bool> = match opened {
        Some(c) => Some(c.u2f),
        None => None,
    };
    let r: (Sw, usize) = authenticate_as(ctx, apdu.p1, &app, chal, handle, &seed, u2f, out);
    wipe(&mut seed);
    proof {
        lemma_authenticated(&start, &mid, ctx, apdu.p1, req, u2f, old(out)@, out@, r);
    }
    r
}

// ---- dispatch ----
/// The answer to a version request.
pub open spec fn version_text() -> Seq<u8> {
    encode_utf8("U2F_V2"@)
}

/// What a command is answered: only class zero is taken.
pub open spec fn u2f_outcome<S: Storage, R: Rng, P: UserPresence>(
    before: &Ctx<S, R, P>,
    after: &Ctx<S, R, P>,
    t: codec::Talk,
    apdu: Apdu,
    out_before: Seq<u8>,
    out_after: Seq<u8>,
    r: (Sw, usize),
) -> bool {
    if apdu.cla != 0 {
        r == (Sw::CLA_NOT_SUPPORTED, 0usize) && *after == *before && out_after == out_before
    } else if apdu.ins == CTAP_VERSION {
        answered(out_before, out_after, version_text(), r) && *after == *before
    } else if apdu.ins != CTAP_REGISTER && apdu.ins != CTAP_AUTHENTICATE {
        r == (Sw::INS_NOT_SUPPORTED, 0usize) && *after == *before && out_after == out_before
    } else if apdu.ins == CTAP_REGISTER {
        register_outcome(before, after, apdu.data@, out_before, out_after, r)
    } else {
        authenticate_outcome(before, after, t, apdu.p1, apdu.data@, out_before, out_after, r)
    }
}

/// Runs one U2F command; writes the body of the answer at the front of `out`
/// and returns the status word and its length.
pub fn process_u2f<S: Storage, R: Rng, P: UserPresence, C: Codec>(
    ctx: &mut Ctx<S, R, P>,
    codec: &mut Recorded<C>,
    apdu: &Apdu,
    out: &mut [u8],
) -> (r: (Sw, usize))
    requires
        old(ctx).wf(),
    ensures
        final(ctx).wf(),
        final(out)@.len() == old(out)@.len(),
        u2f_outcome(
            old(ctx),
            final(ctx),
            codec::talk(old(codec), final(codec)),
            *apdu,
            old(out)@,
            final(out)@,
            r,
        ),
        codec::talk(old(codec), final(codec)).wf(),
{
    assert(codec.asked().take(codec.asked().len() as int) =~= codec.asked());
    if apdu.cla != 0x00 {
        return (Sw::CLA_NOT_SUPPORTED, 0);
    }
    if apdu.ins == CTAP_VERSION {
        return answer(out, "U2F_V2".as_bytes());
    }
    if apdu.ins != CTAP_REGISTER && apdu.ins != CTAP_AUTHENTICATE {
        return (Sw::INS_NOT_SUPPORTED, 0);
    }
    if apdu.ins == CTAP_REGISTER {
        cmd_register(ctx, apdu, out)
    } else {
        cmd_authenticate(ctx, codec, apdu, out)
    }
}

/// The key that an authentication with a registered handle signs with is the
/// key whose public half the registration handed out; under another application
/// the handle is unknown unless its tag is the same there.
pub proof fn law_registered_handle_authenticates(
    device_key: Seq<u8>,
    app: Seq<u8>,
    handle: Seq<u8>,
)
    requires
        handle.len() == 64,
        keyderiv::handle_valid(device_key, app, handle),
    ensures
        auth_scalar(device_key, app, handle, Some(true)) == Some(
            keyderiv::path_scalar(device_key, handle.take(32)),
        ),
        forall|other: Seq<u8>|
            !keyderiv::handle_valid(device_key, other, handle) ==> #[trigger] auth_scalar(
                device_key,
                other,
                handle,
                Some(true),
            ) is None,
{
    assert(handle.take(64) =~= handle);
}

/// No registration and no enforced signature without the user: where one is
/// handed out, the user confirmed a touch for it.
pub proof fn law_u2f_needs_touch<S: Storage, R: Rng, P: UserPresence>(
    before: &Ctx<S, R, P>,
    after: &Ctx<S, R, P>,
    t: codec::Talk,
    apdu: Apdu,
    out_before: Seq<u8>,
    out_after: Seq<u8>,
    n: usize,
)
    requires
        u2f_outcome(before, after, t, apdu, out_before, out_after, (Sw::OK, n)),
        apdu.ins == CTAP_REGISTER || (apdu.ins == CTAP_AUTHENTICATE && apdu.p1 == U2F_AUTH_ENFORCE),
    ensures
        after.presence.seen().len() == before.presence.seen().len() + 1,
        after.last_touch() == Presence::Confirmed,
        !seed::holds(before.fs.contents(), EF_ALWAYS_UV),
{
}

/// A signature that an authentication hands out: the answer is a presence byte,
/// the counter as four big-endian bytes and a signature by the key of the handle
/// over the application, those five bytes and the challenge.
///
/// The presence byte tells what happened: it is one exactly where one touch was
/// asked for and the user confirmed it, and zero where none was asked for.
pub proof fn law_authentication_answer<S: Storage, R: Rng, P: UserPresence>(
    before: &Ctx<S, R, P>,
    after: &Ctx<S, R, P>,
    t: codec::Talk,
    apdu: Apdu,
    out_before: Seq<u8>,
    out_after: Seq<u8>,
    n: usize,
)
    requires
        u2f_outcome(before, after, t, apdu, out_before, out_after, (Sw::OK, n)),
        apdu.ins == 0x02,
        out_before.len() <= usize::MAX,
    ensures
        5 <= n <= out_after.len(),
        out_after[0] == 0 || out_after[0] == 1,
        out_after[0] == 1 <==> after.presence.seen().len() == before.presence.seen().len() + 1
            && after.last_touch() == Presence::Confirmed,
        out_after[0] == 0 <==> after.presence.seen() == before.presence.seen(),
        out_after[0] == 1 <==> apdu.p1 == 0x03,
        apdu.p1 != 0x07,
        !seed::holds(before.fs.contents(), EF_ALWAYS_UV),
        crypto::be_value(out_after.subrange(1, 5)) == seed::counter(before.fs.contents()),
        exists|c: Option<CredView>, scalar: Seq<u8>|
            #![trigger auth_scalar(
                before.keydev()->0,
                apdu.data@.subrange(32, 64),
                apdu.data@.subrange(65, 65 + apdu.data@[64]),
                kind_of(c),
            ), crypto::p256_scalar(scalar)]
            t.told(
                Ask::Load {
                    seed: before.keydev()->0,
                    cred_box: apdu.data@.subrange(65, 65 + apdu.data@[64]),
                    rp_id_hash: apdu.data@.subrange(32, 64),
                    answer: c,
                },
            ) && auth_scalar(
                before.keydev()->0,
                apdu.data@.subrange(32, 64),
                apdu.data@.subrange(65, 65 + apdu.data@[64]),
                kind_of(c),
            ) == Some(scalar) && crypto::p256_scalar(scalar) && crypto::p256_sign_of(
                scalar,
                apdu.data@.subrange(32, 64) + out_after.subrange(0, 5) + apdu.data@.subrange(0, 32),
            ) == Some(out_after.subrange(5, n as int)),
{
    let req = auth_request(apdu.data@)->0;
    let key = before.keydev()->0;
    let c = choose|c: Option<CredView>| #[trigger]
        t.told(Ask::Load { seed: key, cred_box: req.2, rp_id_hash: req.1, answer: c })
            && authenticated(
            before,
            after,
            apdu.p1,
            req,
            kind_of(c),
            out_before,
            out_after,
            (Sw::OK, n),
        );
    let scalar = auth_scalar(key, req.1, req.2, kind_of(c))->0;
    let ctr = seed::counter(before.fs.contents());
    let flags = auth_flags(apdu.p1);
    let sig = crypto::p256_sign_of(scalar, auth_base(req.1, flags, ctr, req.0))->0;
    let x = seq![flags] + sdk::be32(ctr) + sig;
    assert(out_after == x + out_before.skip(x.len() as int));
    assert(out_after.subrange(0, 5) =~= seq![flags] + sdk::be32(ctr));
    assert(out_after.subrange(1, 5) =~= sdk::be32(ctr));
    sdk::law_be32_round_trip(ctr);
    assert(out_after.subrange(5, n as int) =~= sig);
    assert(apdu.data@.subrange(0, 32) =~= req.0);
    assert(apdu.data@.subrange(32, 64) + out_after.subrange(0, 5) + apdu.data@.subrange(0, 32)
        =~= auth_base(req.1, flags, ctr, req.0));
    assert(crypto::p256_scalar(scalar));
}

/// The answer to a registration: the identifier 0x05, the uncompressed public key
/// of the handle's path, the handle with its length, the certificate and a
/// signature over a zero byte, the application, the challenge, the handle and that
/// public key. The handle is valid for the application under the device key.
pub proof fn law_registration_answer<S: Storage, R: Rng, P: UserPresence>(
    before: &Ctx<S, R, P>,
    after: &Ctx<S, R, P>,
    t: codec::Talk,
    apdu: Apdu,
    out_before: Seq<u8>,
    out_after: Seq<u8>,
    n: usize,
)
    requires
        u2f_outcome(before, after, t, apdu, out_before, out_after, (Sw::OK, n)),
        apdu.ins == 0x01,
        out_before.len() <= usize::MAX,
    ensures
        apdu.data@.len() == 64,
        before.keydev() is Some,
        exists|handle: Seq<u8>, cert: Seq<u8>, sig: Seq<u8>|
            {
                let key = before.keydev()->0;
                let chal = apdu.data@.subrange(0, 32);
                let app = apdu.data@.subrange(32, 64);
                let org = seed::loaded(before.dev, before.fs.contents(), FID_ATT_KEY);
                let xy = crypto::p256_public_of(keyderiv::path_scalar(key, handle.take(32)));
                &&& #[trigger] keyderiv::handle_valid(
                    before.keydev()->0,
                    apdu.data@.subrange(32, 64),
                    handle,
                )
                &&& u2f_cert(before.fs.contents(), org is Some) == Some(cert)
                &&& out_after.take(n as int) == seq![5u8, 4u8] + xy.0 + xy.1 + seq![64u8] + handle
                    + #[trigger] (cert + sig)
                &&& crypto::p256_sign_of(
                    match org {
                        Some(k) => k,
                        None => key,
                    },
                    seq![0u8] + app + chal + handle + seq![4u8] + xy.0 + xy.1,
                ) == Some(sig)
            },
{
    let data = apdu.data@;
    let key = before.keydev()->0;
    let handle = choose|handle: Seq<u8>| #[trigger]
        registered(before, after, data, handle, out_before, out_after, (Sw::OK, n));
    let c = before.fs.contents();
    let org = seed::loaded(before.dev, c, FID_ATT_KEY);
    let signer = match org {
        Some(k) => k,
        None => key,
    };
    let scalar = keyderiv::path_scalar(key, handle.take(32));
    let xy = crypto::p256_public_of(scalar);
    let chal = data.subrange(0, 32);
    let app = data.subrange(32, 64);
    assert(chal =~= data.take(32));
    let base = seq![0u8] + app + chal + handle + seq![4u8] + xy.0 + xy.1;
    assert(base == register_base(app, data.take(32), handle, xy));
    let sig = crypto::p256_sign_of(signer, base)->0;
    let cert = u2f_cert(c, org is Some)->0;
    let x = register_reply(handle, xy, cert, sig);
    assert(out_after.take(n as int) =~= x);
    assert(x =~= seq![5u8, 4u8] + xy.0 + xy.1 + seq![64u8] + handle + (cert + sig));
    assert(keyderiv::handle_valid(key, app, handle));
}

/// A check alone never signs, and a handle that is unknown is told apart from one
/// that is known: the first is refused as a wrong parameter, the second as a
/// missing touch. Neither asks the user for anything.
pub proof fn law_check_only<S: Storage, R: Rng, P: UserPresence>(
    before: &Ctx<S, R, P>,
    after: &Ctx<S, R, P>,
    p1: u8,
    req: (Seq<u8>, Seq<u8>, Seq<u8>),
    u2f: Option<bool>,
    out_before: Seq<u8>,
    out_after: Seq<u8>,
    r: (Sw, usize),
)
    requires
        authenticated(before, after, p1, req, u2f, out_before, out_after, r),
        before.keydev() is Some,
        p1 == 0x07,
    ensures
        out_after == out_before,
        after.unasked(before),
        r.0 == Sw::INCORRECT_PARAMS <==> auth_scalar(before.keydev()->0, req.1, req.2, u2f) is None,
        r.0 == Sw::CONDITIONS_NOT_SATISFIED <==> auth_scalar(
            before.keydev()->0,
            req.1,
            req.2,
            u2f,
        ) is Some,
{
}

/// Registrations and authentications that succeed are recorded with the front of
/// the application id.
pub proof fn law_u2f_is_recorded<S: Storage, R: Rng, P: UserPresence>(
    before: &Ctx<S, R, P>,
    after: &Ctx<S, R, P>,
    t: codec::Talk,
    apdu: Apdu,
    out_before: Seq<u8>,
    out_after: Seq<u8>,
    n: usize,
)
    requires
        u2f_outcome(before, after, t, apdu, out_before, out_after, (Sw::OK, n)),
    ensures
        apdu.ins == 0x01 ==> journal::noted(
            before,
            after,
            0,
            0x0f,
            0,
            apdu.data@.subrange(32, 64).take(8),
        ),
        apdu.ins == 0x02 ==> journal::noted(
            before,
            after,
            1,
            0x10,
            0,
            apdu.data@.subrange(32, 64).take(8),
        ),
        apdu.ins == 0x01 || apdu.ins == 0x02 || apdu.ins == 0x03,
        apdu.ins == 0x03 ==> out_after.take(n as int) == encode_utf8("U2F_V2"@) || out_before.len()
            > usize::MAX,
{
    if apdu.ins == 0x01 {
        assert(apdu.data@.subrange(32, 64).take(8) =~= apdu.data@.subrange(32, 40));
    }
    if apdu.ins == 0x03 && out_before.len() <= usize::MAX {
        assert(out_after.take(n as int) =~= encode_utf8("U2F_V2"@));
    }
}

/// An authentication request is the challenge, the application, the length of the
/// handle, the handle and whatever follows; a handle of less than 64 bytes is
/// refused.
pub proof fn law_authentication_request(
    chal: Seq<u8>,
    app: Seq<u8>,
    handle: Seq<u8>,
    rest: Seq<u8>,
)
    requires
        chal.len() == 32,
        app.len() == 32,
        handle.len() < 256,
    ensures
        auth_request(chal + app + seq![handle.len() as u8] + handle + rest) == if handle.len()
            >= 64 {
            Some((chal, app, handle))
        } else {
            None
        },
{
    let data = chal + app + seq![handle.len() as u8] + handle + rest;
    assert(data[64] == handle.len());
    assert(data.take(32) =~= chal);
    assert(data.subrange(32, 64) =~= app);
    assert(data.subrange(65, 65 + handle.len() as int) =~= handle);
}

/// The key of a handle: that of its id for a credential that the codec opened,
/// that of its path for a handle that is valid for the application, and none
/// otherwise.
pub proof fn law_handle_key(device_key: Seq<u8>, app: Seq<u8>, handle: Seq<u8>)
    requires
        handle.len() >= 64,
    ensures
        auth_scalar(device_key, app, handle, None) is None,
        auth_scalar(device_key, app, handle, Some(false)) == Some(
            keyderiv::key_material(device_key, keyderiv::credential_path(handle)).take(32),
        ),
        auth_scalar(device_key, app, handle, Some(true)) is Some <==> keyderiv::handle_valid(
            device_key,
            app,
            handle.take(64),
        ),
{
}

/// The certificate of a registration: the whole certificate of the device where
/// no key of an organisation is there, and the first of its chain where one is.
pub proof fn law_registration_certificate(c: Map<u16, Seq<u8>>)
    ensures
        seed::holds(c, EF_EE_DEV) && c[EF_EE_DEV].len() <= 2064 ==> u2f_cert(c, false) == Some(
            c[EF_EE_DEV],
        ),
        !seed::holds(c, EF_EE_DEV) ==> u2f_cert(c, false) is None,
        !seed::holds(c, EF_ATT_CHAIN) ==> u2f_cert(c, true) is None,
        u2f_cert(c, true) matches Some(x) ==> c.contains_key(EF_ATT_CHAIN) && cert::certs(
            file_system::clipped(c[EF_ATT_CHAIN], 2064),
        )[0] == x,
{
}

/// Each signature that is handed out takes one number of the counter: where the
/// store is reliable and has room, the counter stands one higher behind it, and it
/// never stands anywhere else than there or where it was.
pub proof fn law_authentication_counts<S: Storage, R: Rng, P: UserPresence>(
    before: &Ctx<S, R, P>,
    after: &Ctx<S, R, P>,
    t: codec::Talk,
    apdu: Apdu,
    out_before: Seq<u8>,
    out_after: Seq<u8>,
    n: usize,
)
    requires
        u2f_outcome(before, after, t, apdu, out_before, out_after, (Sw::OK, n)),
        apdu.ins == 0x02,
        seed::counter(before.fs.contents()) < u32::MAX,
    ensures
        before.fs.reliable() && (before.fs.dynamic().contains(EF_COUNTER)
            || before.fs.dynamic().len() < 1280) ==> seed::counter(after.fs.contents())
            == seed::counter(before.fs.contents()) + 1,
        seed::counter(after.fs.contents()) == seed::counter(before.fs.contents()) + 1
            || seed::counter(after.fs.contents()) == seed::counter(before.fs.contents()),
{
}

/// While verification is always asked for, neither a registration nor an
/// authentication is allowed, whatever it says; nothing is asked of the user and
/// nothing changes.
pub proof fn law_always_uv_closes_u2f<S: Storage, R: Rng, P: UserPresence>(
    before: &Ctx<S, R, P>,
    after: &Ctx<S, R, P>,
    t: codec::Talk,
    apdu: Apdu,
    out_before: Seq<u8>,
    out_after: Seq<u8>,
    r: (Sw, usize),
)
    requires
        u2f_outcome(before, after, t, apdu, out_before, out_after, r),
        seed::holds(before.fs.contents(), EF_ALWAYS_UV),
        apdu.cla == 0,
        apdu.ins == 0x01 || apdu.ins == 0x02,
    ensures
        r == (Sw::COMMAND_NOT_ALLOWED, 0usize),
        after.unasked(before),
        after.fs.contents() == before.fs.contents(),
        out_after == out_before,
{
}

}
