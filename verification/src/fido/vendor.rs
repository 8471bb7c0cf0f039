//! `authenticatorVendor`: the backup of the seed over an encrypted channel, the
//! unlock of a locked seed, the journal, and the attestation of an
//! organisation. What moves key material needs a channel, a touch and, where a
//! PIN is set, a token.

use vstd::prelude::*;

use crate::cbor;
use crate::cbor::{put_bool, put_bytes, put_map, put_u64};
use crate::cborvalue;
use crate::cborvalue::Value;
use crate::crypto;
use crate::crypto::{p256_accepts, sha256};
use crate::fido::cert;
use crate::fido::cert::att_chain_pack;
use crate::fido::channel;
use crate::fido::channel::{mse, open_blob, open_channel_key, seal_blob, BLOB_LEN};
use crate::fido::codec;
use crate::fido::codec::{Codec, Recorded};
use crate::fido::consts;
use crate::fido::consts::{
    ef_att_key, ef_key_dev, ef_key_dev_enc, ATT_CHAIN_REC_MAX, CTAP_VENDOR, EF_ATT_CHAIN,
    EF_BACKUP_SEALED,
    EF_COUNTER, EF_EE_DEV, EF_LARGEBLOB, EF_PIN, FID_ATT_KEY, FID_KEY_DEV, FID_KEY_DEV_ENC,
    VENDOR_ATT_CLEAR, VENDOR_ATT_IMPORT, VENDOR_ATT_STATE, VENDOR_AUDIT_CHECKPOINT,
    VENDOR_AUDIT_READ, VENDOR_BACKUP_EXPORT, VENDOR_BACKUP_FINALIZE, VENDOR_BACKUP_LOAD,
    VENDOR_BACKUP_STATE, VENDOR_MSE, VENDOR_UNLOCK,
};
use crate::fido::device::Device;
use crate::fido::error::{CtapError, CtapResult};
use crate::fido::frame;
use crate::fido::journal;
use crate::fido::journal::{
    vendor_checkpoint, vendor_read, EV_ATT_CLEAR, EV_ATT_IMPORT, EV_BACKUP_EXPORT,
    EV_BACKUP_FINALIZE, EV_BACKUP_LOAD, EV_CHECKPOINT,
};
use crate::fido::pinproto;
use crate::fido::pinproto::PinProto;
use crate::fido::reply;
use crate::fido::reply::deliver;
use crate::fido::seed;
use crate::fido::seed::{
    encrypt_keydev_f1, ensure_seed, lock_engaged, open_seed_locked, store_att_key,
};
use crate::fido::state;
use crate::fido::state::{puat_subcommand_msg, FidoState, PinUvAuthToken, PERM_ACFG};
use crate::fido::vendorreq;
use crate::fido::vendorreq::VendorReq;
use crate::fido::{Ctx, Presence, Rng, UserPresence};
use crate::fs::file_system;
use crate::fs::file_system::EF_META;
use crate::fs::{Fs, Storage, MAX_DYNAMIC_FILES};
use crate::sdk;
use crate::sdk::Confirm;
use crate::wipe::wipe;

verus! {

/// Largest encoding of the parameters that a token is checked over.
pub const MAX_RAW_SUBPARA: usize = 2200;

// ---- gates ----
/// Why a token is refused where a PIN is set: there is none, its protocol is
/// unknown, the parameters are too long, or it does not authenticate them for
/// configuration.
pub open spec fn pin_refusal(
    c: Map<u16, Seq<u8>>,
    paut: PinUvAuthToken,
    v: vendorreq::VendorView,
) -> Option<CtapError> {
    if !seed::holds(c, EF_PIN) {
        None
    } else {
        match v.param {
            None => Some(CtapError::PuatRequired),
            Some(param) => match pinproto::proto_of(v.proto) {
                None => Some(CtapError::MissingParameter),
                Some(p) => if v.raw.len() > MAX_RAW_SUBPARA {
                    Some(CtapError::RequestTooLarge)
                } else if param != pinproto::mac(
                    p,
                    paut.token@,
                    state::puat_msg(CTAP_VENDOR, v.subcommand as u8, v.raw),
                ) || paut.permissions & PERM_ACFG == 0 {
                    Some(CtapError::PinAuthInvalid)
                } else {
                    None
                },
            },
        }
    }
}

/// Why a command that moves key material is refused before the touch: no
/// channel, or the token.
pub open spec fn gate_refusal(
    c: Map<u16, Seq<u8>>,
    s: FidoState,
    v: vendorreq::VendorView,
) -> Option<CtapError> {
    if !s.mse_active {
        Some(CtapError::NotAllowed)
    } else {
        pin_refusal(c, s.paut, v)
    }
}

fn pin_gate<S: Storage, R: Rng, P: UserPresence>(ctx: &mut Ctx<S, R, P>, req: &VendorReq) -> (r:
    Result<(), CtapError>)
    requires
        old(ctx).wf(),
        req.subcommand < 256,
    ensures
        frame::untouched(old(ctx), final(ctx)),
        final(ctx).presence == old(ctx).presence,
        final(ctx).rng == old(ctx).rng,
        match pin_refusal(old(ctx).fs.contents(), old(ctx).state.paut, req@) {
            Some(e) => r == Err::<(), CtapError>(e),
            None => r is Ok,
        },
{
    if !ctx.fs.has_data(EF_PIN) {
        return Ok(());
    }
    let param: &[u8] = match req.pin_uv_auth_param {
        Some(p) => p,
        None => {
            return Err(CtapError::PuatRequired);
        },
    };
    let proto: PinProto = match PinProto::from_u64(req.proto) {
        Some(p) => p,
        None => {
            return Err(CtapError::MissingParameter);
        },
    };
    if req.raw_subpara.len() > MAX_RAW_SUBPARA {
        return Err(CtapError::RequestTooLarge);
    }
    let msg: Vec<u8> = puat_subcommand_msg(CTAP_VENDOR, req.subcommand as u8, req.raw_subpara);
    if !ctx.state.verify_token(proto, msg.as_slice(), param) || ctx.state.paut.permissions
        & PERM_ACFG == 0 {
        return Err(CtapError::PinAuthInvalid);
    }
    Ok(())
}

/// The prompt of a command that moves key material.
pub open spec fn gate_prompt() -> sdk::Prompt {
    sdk::action("Vendor config?"@, ""@)
}

fn gate<S: Storage, R: Rng, P: UserPresence>(ctx: &mut Ctx<S, R, P>, req: &VendorReq) -> (r:
    Result<(), CtapError>)
    requires
        old(ctx).wf(),
        req.subcommand < 256,
    ensures
        frame::untouched(old(ctx), final(ctx)),
        final(ctx).rng == old(ctx).rng,
        match gate_refusal(old(ctx).fs.contents(), old(ctx).state, req@) {
            Some(e) => r == Err::<(), CtapError>(e) && final(ctx).unasked(old(ctx)),
            None => final(ctx).prompted(old(ctx), gate_prompt()) && if final(ctx).last_touch()
                == Presence::Confirmed {
                r is Ok
            } else {
                r == Err::<(), CtapError>(CtapError::OperationDenied)
            },
        },
{
    if !ctx.state.mse_active {
        return Err(CtapError::NotAllowed);
    }
    pin_gate(ctx, req)?;
    if !ctx.check_user_presence(Confirm::titled("Vendor config?")) {
        return Err(CtapError::OperationDenied);
    }
    Ok(())
}

/// The command was refused with `e` before any touch.
pub open spec fn barred<S: Storage, R: Rng, P: UserPresence>(
    before: &Ctx<S, R, P>,
    after: &Ctx<S, R, P>,
    e: CtapError,
    r: CtapResult,
) -> bool {
    refused(before, after, e, r) && after.unasked(before)
}

/// The command was refused with `e` and left everything alone.
pub open spec fn refused<S: Storage, R: Rng, P: UserPresence>(
    before: &Ctx<S, R, P>,
    after: &Ctx<S, R, P>,
    e: CtapError,
    r: CtapResult,
) -> bool {
    r == Err::<usize, CtapError>(e) && frame::untouched(before, after)
}

// ---- the attestation of an organisation ----
/// The outcome of an import: refused for its chain, for its authorization, or for its
/// key; otherwise key and chain are stored and load again.
pub open spec fn import_outcome<S: Storage, R: Rng, P: UserPresence>(
    before: &Ctx<S, R, P>,
    after: &Ctx<S, R, P>,
    v: vendorreq::VendorView,
    r: CtapResult,
) -> bool {
    match cert::packed(v.chain) {
        None => barred(before, after, CtapError::InvalidParameter, r),
        Some(chain) => match gate_refusal(before.fs.contents(), before.state, v) {
            Some(e) => barred(before, after, e, r),
            None => {
                &&& after.prompted(before, gate_prompt())
                &&& if after.last_touch() != Presence::Confirmed {
                    refused(before, after, CtapError::OperationDenied, r)
                } else {
                    match channel::channel_opened(before.state, v.blob) {
                        None => refused(before, after, CtapError::InvalidParameter, r),
                        Some(key) => if !crypto::p256_scalar(key) {
                            refused(before, after, CtapError::InvalidParameter, r)
                        } else {
                            imported(before, after, key, chain, r)
                        },
                    }
                }
            },
        },
    }
}

/// Key and chain were stored, unless the backend failed or has no room.
pub open spec fn imported<S: Storage, R: Rng, P: UserPresence>(
    before: &Ctx<S, R, P>,
    after: &Ctx<S, R, P>,
    key: Seq<u8>,
    chain: Seq<u8>,
    r: CtapResult,
) -> bool {
    let d = after.fs.contents();
    ||| {
        &&& r == Err::<usize, CtapError>(CtapError::Other)
        &&& !before.fs.reliable() || before.fs.dynamic().len() + journal::new_file(
            before.fs.dynamic(),
            FID_ATT_KEY,
        ) + journal::new_file(before.fs.dynamic(), EF_ATT_CHAIN) > MAX_DYNAMIC_FILES
        &&& *after == (Ctx { fs: after.fs, presence: after.presence, ..*before })
        &&& frame::kept_but(before.fs.contents(), d, |g: u16| g == FID_ATT_KEY)
    }
    ||| {
        &&& r == Ok::<usize, CtapError>(0)
        &&& seed::loaded(before.dev, d, FID_ATT_KEY) == Some(key)
        &&& d.contains_key(EF_ATT_CHAIN) && d[EF_ATT_CHAIN] == chain
        &&& frame::logged(
            before,
            after,
            before.state,
            |g: u16| g == FID_ATT_KEY || g == EF_ATT_CHAIN || journal::is_journal(g),
        )
        &&& journal::noted(
            before,
            after,
            journal::new_file(before.fs.dynamic(), FID_ATT_KEY) + journal::new_file(
                before.fs.dynamic(),
                EF_ATT_CHAIN,
            ),
            EV_ATT_IMPORT,
            0,
            Seq::empty(),
        )
    }
}

proof fn lemma_loaded_kept(dev: Device, a: Map<u16, Seq<u8>>, b: Map<u16, Seq<u8>>, fid: u16)
    requires
        b.contains_key(fid) == a.contains_key(fid),
        a.contains_key(fid) ==> b[fid] == a[fid],
    ensures
        seed::loaded(dev, b, fid) == seed::loaded(dev, a, fid),
{
}

fn att_import<S: Storage, R: Rng, P: UserPresence>(ctx: &mut Ctx<S, R, P>, req: &VendorReq) -> (r:
    CtapResult)
    requires
        old(ctx).wf(),
        req.subcommand < 256,
    ensures
        final(ctx).wf(),
        import_outcome(old(ctx), final(ctx), req@, r),
{
    let packed: Vec<u8> = match att_chain_pack(req.chain) {
        Some(p) => p,
        None => {
            return Err(CtapError::InvalidParameter);
        },
    };
    gate(ctx, req)?;
    let ghost c0 = ctx.fs.contents();
    let mut scalar: [u8; 32] = open_channel_key(&ctx.state, req.blob)?;
    if !p256_accepts(&scalar) {
        wipe(&mut scalar);
        return Err(CtapError::InvalidParameter);
    }
    proof {
        seed::lemma_known(ctx.fs.dynamic(), FID_ATT_KEY);
    }
    let stored: bool = store_att_key(&ctx.dev, &mut ctx.fs, &scalar).is_ok();
    wipe(&mut scalar);
    if !stored {
        return Err(CtapError::Other);
    }
    let ghost c1 = ctx.fs.contents();
    let ghost stored_fs = ctx.fs;
    if ctx.fs.put(EF_ATT_CHAIN, packed.as_slice()).is_err() {
        return Err(CtapError::Other);
    }
    let ghost c2 = ctx.fs.contents();
    let ghost written = *ctx;
    let nothing: [u8; 0] = [];
    assert(nothing@ =~= Seq::<u8>::empty());
    journal::append(ctx, EV_ATT_IMPORT, 0, &nothing);
    proof {
        seed::lemma_known(stored_fs.dynamic(), EF_ATT_CHAIN);
        journal::lemma_noted(
            old(ctx),
            &written,
            ctx,
            journal::new_file(old(ctx).fs.dynamic(), FID_ATT_KEY) + journal::new_file(
                old(ctx).fs.dynamic(),
                EF_ATT_CHAIN,
            ),
            EV_ATT_IMPORT,
            0,
            Seq::empty(),
        );
        let d = ctx.fs.contents();
        assert(d.contains_key(FID_ATT_KEY) == c2.contains_key(FID_ATT_KEY));
        assert(d.contains_key(EF_ATT_CHAIN) == c2.contains_key(EF_ATT_CHAIN));
        lemma_loaded_kept(ctx.dev, c1, d, FID_ATT_KEY);
        assert forall|g: u16|
            !(g == FID_ATT_KEY || g == EF_ATT_CHAIN || journal::is_journal(g)) implies (
        #[trigger] d.contains_key(g) == c0.contains_key(g) && (d.contains_key(g) ==> d[g]
            == c0[g])) by {
            assert(c2.contains_key(g) == c0.contains_key(g));
        }
    }
    Ok(0)
}

/// The outcome of a clear: refused for its authorization, or the attestation is dropped.
/// What the cache knows to be there is gone where the backend is reliable, and so
/// is the metadata of the two files. No other file loses its metadata.
pub open spec fn clear_outcome<S: Storage, R: Rng, P: UserPresence>(
    before: &Ctx<S, R, P>,
    after: &Ctx<S, R, P>,
    v: vendorreq::VendorView,
    r: CtapResult,
) -> bool {
    let d = after.fs.contents();
    match gate_refusal(before.fs.contents(), before.state, v) {
        Some(e) => barred(before, after, e, r),
        None => {
            &&& after.prompted(before, gate_prompt())
            &&& if after.last_touch() != Presence::Confirmed {
                refused(before, after, CtapError::OperationDenied, r)
            } else {
                &&& r == Ok::<usize, CtapError>(0)
                &&& frame::logged(
                    before,
                    after,
                    before.state,
                    |g: u16|
                        g == FID_ATT_KEY || g == EF_ATT_CHAIN || g == EF_META
                            || journal::is_journal(g),
                )
                &&& journal::noted(before, after, 0, EV_ATT_CLEAR, 0, Seq::empty())
                &&& before.fs.reliable() && before.fs.cached(FID_ATT_KEY) == Some(true)
                    ==> !d.contains_key(FID_ATT_KEY)
                &&& before.fs.reliable() && before.fs.cached(EF_ATT_CHAIN) == Some(true)
                    ==> !d.contains_key(EF_ATT_CHAIN)
                &&& file_system::metas_kept_but(
                    before.fs.contents(),
                    d,
                    |g: u16| g == FID_ATT_KEY || g == EF_ATT_CHAIN,
                )
                &&& before.fs.reliable() ==> file_system::meta_of(d, FID_ATT_KEY) is None
                    && file_system::meta_of(d, EF_ATT_CHAIN) is None
            }
        },
    }
}

fn att_clear<S: Storage, R: Rng, P: UserPresence>(ctx: &mut Ctx<S, R, P>, req: &VendorReq) -> (r:
    CtapResult)
    requires
        old(ctx).wf(),
        req.subcommand < 256,
    ensures
        final(ctx).wf(),
        clear_outcome(old(ctx), final(ctx), req@, r),
{
    gate(ctx, req)?;
    let ghost start = ctx.fs;
    proof {
        assert(start.cached(FID_ATT_KEY) == old(ctx).fs.cached(FID_ATT_KEY) || start.cached(
            FID_ATT_KEY,
        ) == Some(old(ctx).fs.contents().contains_key(FID_ATT_KEY)));
        assert(start.cached(EF_ATT_CHAIN) == old(ctx).fs.cached(EF_ATT_CHAIN) || start.cached(
            EF_ATT_CHAIN,
        ) == Some(old(ctx).fs.contents().contains_key(EF_ATT_CHAIN)));
    }
    let ghost c0 = ctx.fs.contents();
    let _ = ctx.fs.delete_key(ef_att_key());
    let ghost c1 = ctx.fs.contents();
    let ghost mid = ctx.fs;
    assert(mid.cached(EF_ATT_CHAIN) == start.cached(EF_ATT_CHAIN));
    let _ = ctx.fs.delete(EF_ATT_CHAIN);
    let ghost c2 = ctx.fs.contents();
    let ghost cleared = *ctx;
    let nothing: [u8; 0] = [];
    assert(nothing@ =~= Seq::<u8>::empty());
    journal::append(ctx, EV_ATT_CLEAR, 0, &nothing);
    proof {
        start.law_no_false_absent(FID_ATT_KEY);
        mid.law_no_false_absent(EF_ATT_CHAIN);
        file_system::lemma_filter(start.dynamic(), FID_ATT_KEY);
        file_system::lemma_filter(mid.dynamic(), EF_ATT_CHAIN);
        journal::lemma_known_others(start.dynamic(), FID_ATT_KEY);
        journal::lemma_known_others(mid.dynamic(), EF_ATT_CHAIN);
        assert forall|g: u16| journal::is_journal(g) implies {
            &&& #[trigger] c2.contains_key(g) == c0.contains_key(g)
            &&& c2.contains_key(g) ==> c2[g] == c0[g]
        } by {
            assert(c2.contains_key(g) == c1.contains_key(g));
            assert(c1.contains_key(g) == c0.contains_key(g));
            if c0.contains_key(g) {
                assert(c1[g] == c0[g]);
                assert(c2[g] == c1[g]);
            }
        }
        journal::lemma_noted(old(ctx), &cleared, ctx, 0, EV_ATT_CLEAR, 0, Seq::empty());
        let d = ctx.fs.contents();
        assert(d.contains_key(FID_ATT_KEY) == c2.contains_key(FID_ATT_KEY));
        assert(c2.contains_key(FID_ATT_KEY) == c1.contains_key(FID_ATT_KEY));
        assert(d.contains_key(EF_ATT_CHAIN) == c2.contains_key(EF_ATT_CHAIN));
        assert(d.contains_key(EF_META) == c2.contains_key(EF_META));
        file_system::lemma_metas_same(c2, d);
        assert forall|g: u16| !(g == FID_ATT_KEY || g == EF_ATT_CHAIN) implies
            #[trigger] file_system::meta_of(d, g) == file_system::meta_of(c0, g) by {
            assert(file_system::meta_of(c2, g) == file_system::meta_of(c1, g));
            assert(file_system::meta_of(c1, g) == file_system::meta_of(c0, g));
        }
        assert(file_system::meta_of(d, FID_ATT_KEY) == file_system::meta_of(c1, FID_ATT_KEY)) by {
            assert(file_system::meta_of(c2, FID_ATT_KEY) == file_system::meta_of(c1, FID_ATT_KEY));
        }
        assert(file_system::meta_of(d, EF_ATT_CHAIN) == file_system::meta_of(c2, EF_ATT_CHAIN));
        assert forall|g: u16|
            !(g == FID_ATT_KEY || g == EF_ATT_CHAIN || g == EF_META
                || journal::is_journal(g)) implies (#[trigger] d.contains_key(g)
            == c0.contains_key(g) && (d.contains_key(g) ==> d[g] == c0[g])) by {
            assert(c2.contains_key(g) == c1.contains_key(g));
            assert(c1.contains_key(g) == c0.contains_key(g));
            if c0.contains_key(g) {
                assert(c1[g] == c0[g]);
                assert(c2[g] == c1[g]);
            }
        }
    }
    Ok(0)
}

/// The state of the attestation: whether its key is there, and the digest of
/// its chain where both are.
pub open spec fn att_state_reply(c: Map<u16, Seq<u8>>) -> Seq<u8> {
    let present = seed::holds(c, FID_ATT_KEY);
    let chain = if c.contains_key(EF_ATT_CHAIN) {
        file_system::clipped(c[EF_ATT_CHAIN], ATT_CHAIN_REC_MAX as nat)
    } else {
        Seq::empty()
    };
    if present && chain.len() > 0 {
        cbor::map(2) + cbor::uint(1) + cbor::boolean(true) + cbor::uint(2) + cbor::bytes(
            crypto::sha256_of(chain),
        )
    } else {
        cbor::map(1) + cbor::uint(1) + cbor::boolean(present)
    }
}

fn att_state<S: Storage>(fs: &mut Fs<S>, out: &mut [u8]) -> (r: CtapResult)
    requires
        old(fs).wf(),
    ensures
        final(fs).wf(),
        final(fs).reread(old(fs)),
        reply::delivered(old(out)@, final(out)@, att_state_reply(old(fs).contents()), r),
{
    let present: bool = fs.has_key(ef_att_key());
    let chain: Vec<u8> = match fs.read_upto(EF_ATT_CHAIN, ATT_CHAIN_REC_MAX) {
        Some(c) => c,
        None => Vec::new(),
    };
    let mut v: Vec<u8> = Vec::new();
    if present && chain.len() > 0 {
        put_map(&mut v, 2);
        put_u64(&mut v, 1);
        put_bool(&mut v, true);
        put_u64(&mut v, 2);
        put_bytes(&mut v, &sha256(chain.as_slice()));
    } else {
        put_map(&mut v, 1);
        put_u64(&mut v, 1);
        put_bool(&mut v, present);
    }
    assert(v@ =~= att_state_reply(old(fs).contents())) by {
        if !old(fs).contents().contains_key(EF_ATT_CHAIN) {
            assert(chain@ =~= Seq::<u8>::empty());
        }
    }
    deliver(out, v.as_slice())
}

// ---- the journal ----
fn audit_read<S: Storage, R: Rng, P: UserPresence>(
    ctx: &mut Ctx<S, R, P>,
    req: &VendorReq,
    out: &mut [u8],
) -> (r: CtapResult)
    requires
        old(ctx).wf(),
        req.subcommand < 256,
    ensures
        final(ctx).wf(),
        final(out)@.len() == old(out)@.len(),
        read_outcome(old(ctx), final(ctx), req@, old(out)@, final(out)@, r),
{
    pin_gate(ctx, req)?;
    vendor_read(&ctx.dev, &mut ctx.fs, out)
}

/// The outcome of a read: refused for the token, or the exported journal. No
/// touch is asked for.
pub open spec fn read_outcome<S: Storage, R: Rng, P: UserPresence>(
    before: &Ctx<S, R, P>,
    after: &Ctx<S, R, P>,
    v: vendorreq::VendorView,
    out_before: Seq<u8>,
    out_after: Seq<u8>,
    r: CtapResult,
) -> bool {
    let c = before.fs.contents();
    &&& frame::untouched(before, after)
    &&& after.unasked(before)
    &&& match pin_refusal(c, before.state.paut, v) {
        Some(e) => r == Err::<usize, CtapError>(e) && out_after == out_before,
        None => {
            let m = journal::meta_in(before.dev, c);
            reply::delivered(
                out_before,
                out_after,
                journal::export_of(m, journal::window(c, m.start, journal::live(m))),
                r,
            )
        },
    }
}

/// The outcome of a checkpoint: refused for the token, without a touch, or as
/// the journal says; otherwise the signed head.
pub open spec fn checkpoint_outcome<S: Storage, R: Rng, P: UserPresence>(
    before: &Ctx<S, R, P>,
    after: &Ctx<S, R, P>,
    v: vendorreq::VendorView,
    out_before: Seq<u8>,
    out_after: Seq<u8>,
    r: CtapResult,
) -> bool {
    let c = before.fs.contents();
    match pin_refusal(c, before.state.paut, v) {
        Some(e) => barred(before, after, e, r) && out_after == out_before,
        None => {
            &&& after.prompted(before, sdk::action("Sign audit log?"@, ""@))
            &&& if after.last_touch() != Presence::Confirmed {
                refused(before, after, CtapError::OperationDenied, r) && out_after == out_before
            } else {
                &&& match journal::checkpoint_in(
                    before.dev,
                    c,
                    crypto::seen(before.state.devk),
                    v.blob,
                ) {
                    Ok(x) => reply::delivered(out_before, out_after, x, r),
                    Err(e) => r == Err::<usize, CtapError>(e) && out_after == out_before,
                }
                &&& if r is Ok {
                    &&& frame::logged(before, after, before.state, |g: u16| journal::is_journal(g))
                    &&& journal::noted(before, after, 0, EV_CHECKPOINT, 0, Seq::empty())
                } else {
                    frame::untouched(before, after)
                }
            }
        },
    }
}

fn audit_checkpoint<S: Storage, R: Rng, P: UserPresence>(
    ctx: &mut Ctx<S, R, P>,
    req: &VendorReq,
    out: &mut [u8],
) -> (r: CtapResult)
    requires
        old(ctx).wf(),
        req.subcommand < 256,
    ensures
        final(ctx).wf(),
        final(out)@.len() == old(out)@.len(),
        checkpoint_outcome(old(ctx), final(ctx), req@, old(out)@, final(out)@, r),
{
    pin_gate(ctx, req)?;
    if !ctx.check_user_presence(Confirm::titled("Sign audit log?")) {
        return Err(CtapError::OperationDenied);
    }
    vendor_checkpoint(ctx, req.blob, out)
}

// ---- the soft lock ----
/// What an unlock leads to: refused without a channel, for a key that does not
/// open, on a device that is not locked, or for a wrong lock key; otherwise the
/// seed is in memory until power-off.
pub open spec fn unlock_of(
    c: Map<u16, Seq<u8>>,
    s: FidoState,
    blob: Seq<u8>,
) -> Result<Seq<u8>, CtapError> {
    if !s.mse_active {
        Err(CtapError::NotAllowed)
    } else {
        match channel::channel_opened(s, blob) {
            None => Err(CtapError::InvalidParameter),
            Some(key) => if !seed::locked(c) {
                Err(CtapError::IntegrityFailure)
            } else {
                match seed::unlocked(
                    key,
                    file_system::clipped(c[FID_KEY_DEV_ENC], BLOB_LEN as nat),
                ) {
                    None => Err(CtapError::InvalidParameter),
                    Some(x) => Ok(x),
                }
            },
        }
    }
}

/// The outcome of an unlock. No touch is asked for.
pub open spec fn unlock_outcome<S: Storage, R: Rng, P: UserPresence>(
    before: &Ctx<S, R, P>,
    after: &Ctx<S, R, P>,
    v: vendorreq::VendorView,
    r: CtapResult,
) -> bool {
    match unlock_of(before.fs.contents(), before.state, v.blob) {
        Err(e) => barred(before, after, e, r),
        Ok(x) => {
            &&& r == Ok::<usize, CtapError>(0)
            &&& after.unasked(before)
            &&& crypto::seen(after.state.keydev_dec) == Some(x)
            &&& frame::settled(
                before,
                after,
                FidoState { keydev_dec: after.state.keydev_dec, ..before.state },
            )
        },
    }
}

fn unlock<S: Storage, R: Rng, P: UserPresence>(ctx: &mut Ctx<S, R, P>, req: &VendorReq) -> (r:
    CtapResult)
    requires
        old(ctx).wf(),
    ensures
        final(ctx).wf(),
        unlock_outcome(old(ctx), final(ctx), req@, r),
{
    if !ctx.state.mse_active {
        return Err(CtapError::NotAllowed);
    }
    let mut lock_key: [u8; 32] = open_channel_key(&ctx.state, req.blob)?;
    if !lock_engaged(&mut ctx.fs) {
        wipe(&mut lock_key);
        return Err(CtapError::IntegrityFailure);
    }
    let found: Option<[u8; 32]> = match ctx.fs.read_upto(ef_key_dev_enc().get(), BLOB_LEN) {
        Some(b) => open_seed_locked(&lock_key, b.as_slice()),
        None => None,
    };
    wipe(&mut lock_key);
    match found {
        Some(x) => {
            ctx.state.clear_keydev_dec();
            ctx.state.keydev_dec = Some(x);
            Ok(0)
        },
        None => Err(CtapError::InvalidParameter),
    }
}

/// After an unlock the authenticator works with the seed that was locked.
pub proof fn law_unlock_serves_seed<S: Storage, R: Rng, P: UserPresence>(
    before: &Ctx<S, R, P>,
    after: &Ctx<S, R, P>,
    v: vendorreq::VendorView,
)
    requires
        unlock_outcome(before, after, v, Ok::<usize, CtapError>(0)),
    ensures
        after.keydev() is Some,
        unlock_of(before.fs.contents(), before.state, v.blob) == Ok::<Seq<u8>, CtapError>(
            after.keydev()->0,
        ),
{
    reveal(Ctx::keydev);
}

// ---- the backup ----
/// The answer to an export.
pub open spec fn export_reply(blob: Seq<u8>) -> Seq<u8> {
    cbor::map(1) + cbor::uint(1) + cbor::bytes(blob)
}

/// An export under the drawn nonce: the answer carries the seed, sealed for the
/// channel, which opens it again, and the event is recorded.
pub open spec fn exported<S: Storage, R: Rng, P: UserPresence>(
    before: &Ctx<S, R, P>,
    after: &Ctx<S, R, P>,
    nonce: Seq<u8>,
    out_before: Seq<u8>,
    out_after: Seq<u8>,
    r: CtapResult,
) -> bool {
    &&& before.keydev() matches Some(key)
    &&& nonce.len() == 12
    &&& after.rng.drawn() == before.rng.drawn().push(nonce)
    &&& channel::channel_opened(
        before.state,
        channel::channel_sealed(before.state, nonce, key),
    ) == Some(key)
    &&& reply::delivered(
        out_before,
        out_after,
        export_reply(channel::channel_sealed(before.state, nonce, key)),
        r,
    )
    &&& if r is Ok {
        &&& frame::logged_but_drawn(before, after, before.state, |g: u16| journal::is_journal(g))
        &&& journal::noted(before, after, 0, EV_BACKUP_EXPORT, 0, Seq::empty())
    } else {
        frame::only_drawn(before, after)
    }
}

/// The outcome of an export: refused under the FIPS-style profile, once the window
/// is sealed, for its authorization, without a touch or without a seed; otherwise
/// the sealed seed.
pub open spec fn export_outcome<S: Storage, R: Rng, P: UserPresence>(
    before: &Ctx<S, R, P>,
    after: &Ctx<S, R, P>,
    fips: bool,
    v: vendorreq::VendorView,
    out_before: Seq<u8>,
    out_after: Seq<u8>,
    r: CtapResult,
) -> bool {
    let c = before.fs.contents();
    if fips || seed::holds(c, EF_BACKUP_SEALED) {
        barred(before, after, CtapError::NotAllowed, r) && out_after == out_before
    } else {
        match gate_refusal(c, before.state, v) {
            Some(e) => barred(before, after, e, r) && out_after == out_before,
            None => {
                &&& after.prompted(before, gate_prompt())
                &&& if after.last_touch() != Presence::Confirmed {
                    refused(before, after, CtapError::OperationDenied, r) && out_after
                        == out_before
                } else if before.keydev() is None {
                    refused(before, after, CtapError::NotAllowed, r) && out_after == out_before
                } else {
                    exported(before, after, after.rng.drawn().last(), out_before, out_after, r)
                }
            },
        }
    }
}

fn backup_export<S: Storage, R: Rng, P: UserPresence>(
    ctx: &mut Ctx<S, R, P>,
    fips: bool,
    req: &VendorReq,
    out: &mut [u8],
) -> (r: CtapResult)
    requires
        old(ctx).wf(),
        req.subcommand < 256,
    ensures
        final(ctx).wf(),
        final(out)@.len() == old(out)@.len(),
        export_outcome(old(ctx), final(ctx), fips, req@, old(out)@, final(out)@, r),
{
    let ghost start = *ctx;
    if fips {
        return Err(CtapError::NotAllowed);
    }
    if ctx.fs.has_data(EF_BACKUP_SEALED) {
        return Err(CtapError::NotAllowed);
    }
    gate(ctx, req)?;
    proof {
        ctx.lemma_keydev(&start);
    }
    let mut seed: [u8; 32] = match ctx.load_keydev() {
        Some(k) => k,
        None => {
            return Err(CtapError::NotAllowed);
        },
    };
    let mut nonce = [0u8; 12];
    ctx.rng.fill(&mut nonce);
    let mut blob: Vec<u8> = seal_blob(&ctx.state, &nonce, &seed);
    wipe(&mut seed);
    let mut v: Vec<u8> = Vec::new();
    put_map(&mut v, 1);
    put_u64(&mut v, 1);
    put_bytes(&mut v, blob.as_slice());
    assert(v@ =~= export_reply(blob@));
    wipe(blob.as_mut_slice());
    let r: CtapResult = deliver(out, v.as_slice());
    wipe(v.as_mut_slice());
    if r.is_ok() {
        let ghost sent = *ctx;
        let nothing: [u8; 0] = [];
        assert(nothing@ =~= Seq::<u8>::empty());
        journal::append(ctx, EV_BACKUP_EXPORT, 0, &nothing);
        proof {
            journal::lemma_noted(&start, &sent, ctx, 0, EV_BACKUP_EXPORT, 0, Seq::empty());
        }
    }
    assert(exported(&start, ctx, nonce@, old(out)@, out@, r));
    r
}

/// The files that installing a seed may write.
pub open spec fn seed_file(g: u16) -> bool {
    g == FID_KEY_DEV || g == EF_EE_DEV || g == EF_COUNTER || g == EF_LARGEBLOB || g == EF_META
}

/// The outcome of a load: refused for the length of the blob, on a locked
/// device, for its authorization, without a touch, for a blob that does not open or a seed
/// that is out of range; otherwise the seed is installed and loads again.
pub open spec fn load_outcome<S: Storage, R: Rng, P: UserPresence>(
    before: &Ctx<S, R, P>,
    after: &Ctx<S, R, P>,
    t: codec::Talk,
    v: vendorreq::VendorView,
    r: CtapResult,
) -> bool {
    let c = before.fs.contents();
    if v.blob.len() != BLOB_LEN {
        barred(before, after, CtapError::MissingParameter, r)
    } else if seed::locked(c) {
        barred(before, after, CtapError::NotAllowed, r)
    } else {
        match gate_refusal(c, before.state, v) {
            Some(e) => barred(before, after, e, r),
            None => {
                &&& after.prompted(before, gate_prompt())
                &&& if after.last_touch() != Presence::Confirmed {
                    refused(before, after, CtapError::OperationDenied, r)
                } else {
                    match channel::channel_opened(before.state, v.blob) {
                        None => refused(before, after, CtapError::IntegrityFailure, r),
                        Some(key) => if !crypto::p256_scalar(key) {
                            refused(before, after, CtapError::InvalidParameter, r)
                        } else {
                            installed(before, after, t, key, r)
                        },
                    }
                }
            },
        }
    }
}

/// The signature counter and the large-blob array are as they were, where they
/// held something, and no file but the certificate loses its metadata.
pub open spec fn spared(c: Map<u16, Seq<u8>>, d: Map<u16, Seq<u8>>) -> bool {
    &&& seed::holds(c, EF_COUNTER) ==> d.contains_key(EF_COUNTER) && d[EF_COUNTER] == c[EF_COUNTER]
    &&& seed::holds(c, EF_LARGEBLOB) ==> d.contains_key(EF_LARGEBLOB) && d[EF_LARGEBLOB]
        == c[EF_LARGEBLOB]
    &&& file_system::metas_kept_but(c, d, |g: u16| g == EF_EE_DEV)
}

/// The number of files that installing a seed makes: that of the seed, the
/// counter and the large-blob array where they hold nothing, and the certificate.
pub open spec fn load_files<S: Storage>(fs: &Fs<S>) -> int {
    journal::new_file(fs.dynamic(), FID_KEY_DEV) + (if seed::makes_file(fs, EF_COUNTER) {
        1int
    } else {
        0
    }) + (if seed::makes_file(fs, EF_LARGEBLOB) {
        1int
    } else {
        0
    }) + journal::new_file(fs.dynamic(), EF_EE_DEV)
}

/// One serial number was drawn, behind what was drawn before.
pub open spec fn drew_serial(before: Seq<Seq<u8>>, after: Seq<Seq<u8>>) -> bool {
    after.len() > 0 && after == before.push(after.last())
}

/// A seed was installed: it loads again, the certificate is the one that was
/// made for it, and a counter or a large-blob array that was missing starts
/// anew; otherwise the backend, the room for files or the certificate failed.
/// Either way what the counter and the array held stays. A certificate that the
/// cache does not know of is not deleted: it may stay, and then nothing is drawn.
pub open spec fn installed<S: Storage, R: Rng, P: UserPresence>(
    before: &Ctx<S, R, P>,
    after: &Ctx<S, R, P>,
    t: codec::Talk,
    key: Seq<u8>,
    r: CtapResult,
) -> bool {
    let c = before.fs.contents();
    let d = after.fs.contents();
    ||| {
        &&& r == Err::<usize, CtapError>(CtapError::Other)
        &&& *after == (Ctx {
            fs: after.fs,
            presence: after.presence,
            rng: after.rng,
            ..*before
        })
        &&& frame::kept_but(c, d, |g: u16| seed_file(g))
        &&& spared(c, d)
        &&& !before.fs.reliable() || before.fs.dynamic().len() + load_files(&before.fs)
            > MAX_DYNAMIC_FILES || (drew_serial(before.rng.drawn(), after.rng.drawn())
            && seed::cert_refused(t, key, after.rng.drawn().last()))
    }
    ||| {
        &&& r == Ok::<usize, CtapError>(0)
        &&& seed::loaded(before.dev, d, FID_KEY_DEV) == Some(key)
        &&& d.contains_key(EF_EE_DEV)
        &&& spared(c, d)
        &&& !seed::holds(c, EF_COUNTER) ==> d.contains_key(EF_COUNTER) && d[EF_COUNTER] == seq![
            0u8,
            0,
            0,
            0,
        ]
        &&& !seed::holds(c, EF_LARGEBLOB) ==> d.contains_key(EF_LARGEBLOB) && d[EF_LARGEBLOB]
            == consts::largeblob_initial()@
        &&& before.fs.reliable() ==> file_system::meta_of(d, EF_EE_DEV) is None
        &&& before.fs.reliable() ==> {
            ||| {
                &&& drew_serial(before.rng.drawn(), after.rng.drawn())
                &&& seed::certified(t, key, after.rng.drawn().last(), Some(d[EF_EE_DEV]))
            }
            ||| {
                &&& seed::holds(c, EF_EE_DEV) && before.fs.cached(EF_EE_DEV) != Some(true)
                &&& d[EF_EE_DEV] == c[EF_EE_DEV]
                &&& after.rng.drawn() == before.rng.drawn()
            }
        }
        &&& journal::noted(
            before,
            after,
            load_files(&before.fs),
            EV_BACKUP_LOAD,
            0,
            Seq::empty(),
        )
        &&& frame::logged_but_drawn(
            before,
            after,
            before.state,
            |g: u16| seed_file(g) || journal::is_journal(g),
        )
    }
}

/// Reading files before a seed is installed makes no difference.
proof fn lemma_installed_reread<S: Storage, R: Rng, P: UserPresence>(
    before: &Ctx<S, R, P>,
    mid: &Ctx<S, R, P>,
    after: &Ctx<S, R, P>,
    t: codec::Talk,
    key: Seq<u8>,
    r: CtapResult,
)
    requires
        installed(mid, after, t, key, r),
        *mid == (Ctx { fs: mid.fs, presence: mid.presence, ..*before }),
        mid.fs.reread(&before.fs),
    ensures
        installed(before, after, t, key, r),
{
    assert(mid.fs.cached(EF_EE_DEV) == before.fs.cached(EF_EE_DEV) || mid.fs.cached(EF_EE_DEV)
        == Some(before.fs.contents().contains_key(EF_EE_DEV)));
    assert(seed::makes_file(&mid.fs, EF_COUNTER) == seed::makes_file(&before.fs, EF_COUNTER));
    assert(seed::makes_file(&mid.fs, EF_LARGEBLOB) == seed::makes_file(&before.fs, EF_LARGEBLOB));
}

/// Stores a seed, makes its certificate and records that.
fn install<S: Storage, R: Rng, P: UserPresence, C: Codec>(
    ctx: &mut Ctx<S, R, P>,
    codec: &mut Recorded<C>,
    seed: &[u8; 32],
) -> (r: CtapResult)
    requires
        old(ctx).wf(),
        !seed::locked(old(ctx).fs.contents()),
        crypto::p256_scalar(seed@),
    ensures
        final(ctx).wf(),
        installed(
            old(ctx),
            final(ctx),
            codec::talk(old(codec), final(codec)),
            seed@,
            r,
        ),
        final(ctx).presence == old(ctx).presence,
        codec::talk(old(codec), final(codec)).wf(),
{
    assert(codec.asked().take(codec.asked().len() as int) =~= codec.asked());
    let ghost c0 = ctx.fs.contents();
    let ghost gated = ctx.fs;
    let stored: bool = encrypt_keydev_f1(&ctx.dev, &mut ctx.fs, seed).is_ok();
    let ghost c1 = ctx.fs.contents();
    proof {
        assert(c1.contains_key(EF_META) == c0.contains_key(EF_META));
        file_system::lemma_metas_same(c0, c1);
        assert(c1.contains_key(EF_COUNTER) == c0.contains_key(EF_COUNTER));
        assert(c1.contains_key(EF_LARGEBLOB) == c0.contains_key(EF_LARGEBLOB));
    }
    if !stored {
        return Err(CtapError::Other);
    }
    let ghost kept = ctx.fs;
    let _ = ctx.fs.delete(EF_EE_DEV);
    let ghost c2 = ctx.fs.contents();
    let ghost bare = ctx.fs;
    proof {
        kept.law_no_false_absent(EF_EE_DEV);
        file_system::lemma_filter(kept.dynamic(), EF_EE_DEV);
        journal::lemma_known_others(kept.dynamic(), EF_EE_DEV);
        seed::lemma_known(gated.dynamic(), FID_KEY_DEV);
        assert(c2.contains_key(FID_KEY_DEV) == c1.contains_key(FID_KEY_DEV));
        assert(c2[FID_KEY_DEV] == c1[FID_KEY_DEV]);
        lemma_loaded_kept(ctx.dev, c1, c2, FID_KEY_DEV);
        assert(seed::holds(c2, FID_KEY_DEV));
        assert(c2.contains_key(FID_KEY_DEV_ENC) == c1.contains_key(FID_KEY_DEV_ENC));
        if c1.contains_key(FID_KEY_DEV_ENC) {
            assert(c2[FID_KEY_DEV_ENC] == c1[FID_KEY_DEV_ENC]);
        }
        assert(!seed::locked(c2));
        assert(c2.contains_key(EF_COUNTER) == c1.contains_key(EF_COUNTER));
        assert(c2.contains_key(EF_LARGEBLOB) == c1.contains_key(EF_LARGEBLOB));
        if c1.contains_key(EF_COUNTER) {
            assert(c2[EF_COUNTER] == c1[EF_COUNTER]);
        }
        if c1.contains_key(EF_LARGEBLOB) {
            assert(c2[EF_LARGEBLOB] == c1[EF_LARGEBLOB]);
        }
        assert(seed::holds(c2, EF_COUNTER) == seed::holds(c0, EF_COUNTER));
        assert(seed::holds(c2, EF_LARGEBLOB) == seed::holds(c0, EF_LARGEBLOB));
        if bare.reliable() {
            assert(kept.cached(EF_EE_DEV) == gated.cached(EF_EE_DEV));
            assert(kept.dynamic() == seed::with_file(gated.dynamic(), FID_KEY_DEV));
            assert(kept.dynamic().contains(EF_EE_DEV) == gated.dynamic().contains(EF_EE_DEV));
            assert(bare.dynamic().contains(FID_KEY_DEV));
            assert(bare.dynamic().contains(EF_COUNTER) == gated.dynamic().contains(EF_COUNTER));
            assert(bare.dynamic().contains(EF_LARGEBLOB) == gated.dynamic().contains(
                EF_LARGEBLOB,
            ));
            assert(bare.dynamic().len() + seed::new_files(&bare) <= gated.dynamic().len()
                + load_files(&gated));
            assert(c1.contains_key(EF_EE_DEV) == c0.contains_key(EF_EE_DEV));
            if seed::holds(c2, EF_EE_DEV) {
                file_system::law_meta_delete_then_find(c1, EF_EE_DEV, EF_EE_DEV);
                assert(kept.cached(EF_EE_DEV) != Some(true));
                assert(c2[EF_EE_DEV] == c0[EF_EE_DEV]);
            }
        }
        assert(seed::has_key(ctx.dev, c2));
        assert(!seed::draws_seed(c2));
    }
    let filled: bool = ensure_seed(&ctx.dev, &mut ctx.fs, &mut ctx.rng, codec).is_ok();
    let ghost c3 = ctx.fs.contents();
    proof {
        lemma_loaded_kept(ctx.dev, c2, c3, FID_KEY_DEV);
        assert(c3.contains_key(EF_META) == c2.contains_key(EF_META));
        file_system::lemma_metas_same(c2, c3);
        assert forall|g: u16| g != EF_EE_DEV implies #[trigger] file_system::meta_of(c3, g)
            == file_system::meta_of(c0, g) by {
            assert(file_system::meta_of(c2, g) == file_system::meta_of(c1, g));
            assert(file_system::meta_of(c1, g) == file_system::meta_of(c0, g));
        }
        assert(spared(c0, c3));
        assert forall|g: u16| !seed_file(g) implies (#[trigger] c3.contains_key(g)
            == c0.contains_key(g) && (c3.contains_key(g) ==> c3[g] == c0[g])) by {
            assert(c2.contains_key(g) == c1.contains_key(g));
            assert(c1.contains_key(g) == c0.contains_key(g));
            if c0.contains_key(g) {
                assert(c2[g] == c1[g]);
            }
        }
    }
    proof {
        if bare.reliable() && seed::draws_serial(c2) && seed::boot_draws(
            c2,
            seed@,
            old(ctx).rng.drawn(),
            ctx.rng.drawn(),
        ) {
            let serial = ctx.rng.drawn().last();
            assert(ctx.rng.drawn() =~= ctx.rng.drawn().drop_last().push(serial));
            assert(drew_serial(old(ctx).rng.drawn(), ctx.rng.drawn()));
        }
    }
    if !filled {
        return Err(CtapError::Other);
    }
    let ghost loaded = *ctx;
    let nothing: [u8; 0] = [];
    assert(nothing@ =~= Seq::<u8>::empty());
    journal::append(ctx, EV_BACKUP_LOAD, 0, &nothing);
    proof {
        assert forall|g: u16|
            journal::is_journal(g) && old(ctx).fs.reliable() && #[trigger] old(
                ctx,
            ).fs.dynamic().contains(g) implies loaded.fs.dynamic().contains(g) by {
            assert(gated.dynamic().contains(g));
            assert(kept.dynamic().contains(g));
            assert(bare.dynamic().contains(g));
        }
        journal::lemma_noted(
            old(ctx),
            &loaded,
            ctx,
            load_files(&old(ctx).fs),
            EV_BACKUP_LOAD,
            0,
            Seq::empty(),
        );
        let d = ctx.fs.contents();
        assert(d.contains_key(FID_KEY_DEV) == c3.contains_key(FID_KEY_DEV));
        assert(d.contains_key(EF_EE_DEV) == c3.contains_key(EF_EE_DEV));
        lemma_loaded_kept(ctx.dev, c3, d, FID_KEY_DEV);
        assert(d.contains_key(EF_META) == c3.contains_key(EF_META));
        assert(d.contains_key(EF_COUNTER) == c3.contains_key(EF_COUNTER));
        assert(d.contains_key(EF_LARGEBLOB) == c3.contains_key(EF_LARGEBLOB));
        file_system::lemma_metas_same(c3, d);
        assert forall|g: u16| g != EF_EE_DEV implies #[trigger] file_system::meta_of(d, g)
            == file_system::meta_of(c0, g) by {
            assert(file_system::meta_of(c3, g) == file_system::meta_of(c0, g));
        }
        assert(spared(c0, d));
        assert(file_system::meta_of(d, EF_EE_DEV) == file_system::meta_of(c3, EF_EE_DEV));
        assert(file_system::meta_of(c3, EF_EE_DEV) == file_system::meta_of(c2, EF_EE_DEV));
        assert forall|g: u16| !(seed_file(g) || journal::is_journal(g)) implies (
        #[trigger] d.contains_key(g) == c0.contains_key(g) && (d.contains_key(g) ==> d[g]
            == c0[g])) by {
            assert(c3.contains_key(g) == c0.contains_key(g));
        }
    }
    Ok(0)
}

fn backup_load<S: Storage, R: Rng, P: UserPresence, C: Codec>(
    ctx: &mut Ctx<S, R, P>,
    codec: &mut Recorded<C>,
    req: &VendorReq,
) -> (r: CtapResult)
    requires
        old(ctx).wf(),
        req.subcommand < 256,
    ensures
        final(ctx).wf(),
        load_outcome(
            old(ctx),
            final(ctx),
            codec::talk(old(codec), final(codec)),
            req@,
            r,
        ),
        codec::talk(old(codec), final(codec)).wf(),
{
    assert(codec.asked().take(codec.asked().len() as int) =~= codec.asked());
    if req.blob.len() != BLOB_LEN {
        return Err(CtapError::MissingParameter);
    }
    if lock_engaged(&mut ctx.fs) {
        return Err(CtapError::NotAllowed);
    }
    gate(ctx, req)?;
    let mut seed: [u8; 32] = match open_blob(&ctx.state, req.blob) {
        Some(k) => k,
        None => {
            return Err(CtapError::IntegrityFailure);
        },
    };
    if !p256_accepts(&seed) {
        wipe(&mut seed);
        return Err(CtapError::InvalidParameter);
    }
    let ghost gated = *ctx;
    let ghost key = seed@;
    let r: CtapResult = install(ctx, codec, &seed);
    wipe(&mut seed);
    proof {
        lemma_installed_reread(
            old(ctx),
            &gated,
            ctx,
            codec::talk(old(codec), codec),
            key,
            r,
        );
    }
    r
}

/// The outcome of a finalize: refused without a touch; otherwise the window is
/// sealed, unless the backend failed or has no room.
pub open spec fn finalize_outcome<S: Storage, R: Rng, P: UserPresence>(
    before: &Ctx<S, R, P>,
    after: &Ctx<S, R, P>,
    r: CtapResult,
) -> bool {
    &&& after.prompted(before, sdk::action("Finish backup?"@, ""@))
    &&& if after.last_touch() != Presence::Confirmed {
        refused(before, after, CtapError::OperationDenied, r)
    } else {
        ||| {
            &&& r == Err::<usize, CtapError>(CtapError::Other)
            &&& !before.fs.reliable() || seed::no_room(&before.fs, EF_BACKUP_SEALED)
            &&& *after == (Ctx { fs: after.fs, presence: after.presence, ..*before })
            &&& after.fs.contents() == before.fs.contents()
        }
        ||| {
            &&& r == Ok::<usize, CtapError>(0)
            &&& seed::holds(after.fs.contents(), EF_BACKUP_SEALED)
            &&& frame::logged(
                before,
                after,
                before.state,
                |g: u16| g == EF_BACKUP_SEALED || journal::is_journal(g),
            )
            &&& journal::noted(
                before,
                after,
                journal::new_file(before.fs.dynamic(), EF_BACKUP_SEALED),
                EV_BACKUP_FINALIZE,
                0,
                Seq::empty(),
            )
        }
    }
}

fn backup_finalize<S: Storage, R: Rng, P: UserPresence>(ctx: &mut Ctx<S, R, P>) -> (r: CtapResult)
    requires
        old(ctx).wf(),
    ensures
        final(ctx).wf(),
        finalize_outcome(old(ctx), final(ctx), r),
{
    if !ctx.check_user_presence(Confirm::titled("Finish backup?")) {
        return Err(CtapError::OperationDenied);
    }
    let ghost c0 = ctx.fs.contents();
    if !mark_backup_sealed(&mut ctx.fs) {
        return Err(CtapError::Other);
    }
    let ghost c1 = ctx.fs.contents();
    let ghost marked = *ctx;
    let nothing: [u8; 0] = [];
    assert(nothing@ =~= Seq::<u8>::empty());
    journal::append(ctx, EV_BACKUP_FINALIZE, 0, &nothing);
    proof {
        seed::lemma_known(old(ctx).fs.dynamic(), EF_BACKUP_SEALED);
        journal::lemma_noted(
            old(ctx),
            &marked,
            ctx,
            journal::new_file(old(ctx).fs.dynamic(), EF_BACKUP_SEALED),
            EV_BACKUP_FINALIZE,
            0,
            Seq::empty(),
        );
        let d = ctx.fs.contents();
        assert(d.contains_key(EF_BACKUP_SEALED) == c1.contains_key(EF_BACKUP_SEALED));
        assert forall|g: u16| !(g == EF_BACKUP_SEALED || journal::is_journal(g)) implies (
        #[trigger] d.contains_key(g) == c0.contains_key(g) && (d.contains_key(g) ==> d[g]
            == c0[g])) by {
            assert(c1.contains_key(g) == c0.contains_key(g));
        }
    }
    Ok(0)
}

/// A sealed export window stays shut: after a finalize no export is answered.
pub proof fn law_finalize_closes_export<S: Storage, R: Rng, P: UserPresence>(
    before: &Ctx<S, R, P>,
    mid: &Ctx<S, R, P>,
    after: &Ctx<S, R, P>,
    fips: bool,
    v: vendorreq::VendorView,
    out_before: Seq<u8>,
    out_after: Seq<u8>,
    r: CtapResult,
)
    requires
        finalize_outcome(before, mid, Ok::<usize, CtapError>(0)),
        export_outcome(mid, after, fips, v, out_before, out_after, r),
    ensures
        r == Err::<usize, CtapError>(CtapError::NotAllowed),
        out_after == out_before,
{
}

/// The seed leaves the device only over an open channel, while the export window
/// is open, with the token where a PIN is set, and after the user confirmed; under
/// the FIPS-style profile never.
pub proof fn law_export_is_guarded<S: Storage, R: Rng, P: UserPresence>(
    before: &Ctx<S, R, P>,
    after: &Ctx<S, R, P>,
    fips: bool,
    v: vendorreq::VendorView,
    out_before: Seq<u8>,
    out_after: Seq<u8>,
    n: usize,
)
    requires
        export_outcome(before, after, fips, v, out_before, out_after, Ok::<usize, CtapError>(n)),
    ensures
        !fips,
        before.state.mse_active,
        !seed::holds(before.fs.contents(), EF_BACKUP_SEALED),
        pin_refusal(before.fs.contents(), before.state.paut, v) is None,
        after.prompted(before, gate_prompt()),
        after.last_touch() == Presence::Confirmed,
{
}

/// What an export hands to the host, a load on a device with the same channel
/// installs: the seed comes back.
pub proof fn law_load_restores_export<S: Storage, R: Rng, P: UserPresence>(
    source: &Ctx<S, R, P>,
    source_after: &Ctx<S, R, P>,
    nonce: Seq<u8>,
    out_before: Seq<u8>,
    out_after: Seq<u8>,
    n: usize,
    target: &Ctx<S, R, P>,
    target_after: &Ctx<S, R, P>,
    t: codec::Talk,
    v: vendorreq::VendorView,
)
    requires
        exported(source, source_after, nonce, out_before, out_after, Ok::<usize, CtapError>(n)),
        target.state.mse_key@ == source.state.mse_key@,
        target.state.mse_pub@ == source.state.mse_pub@,
        v.blob == channel::channel_sealed(source.state, nonce, source.keydev()->0),
        load_outcome(target, target_after, t, v, Ok::<usize, CtapError>(0)),
    ensures
        seed::loaded(target.dev, target_after.fs.contents(), FID_KEY_DEV) == source.keydev(),
{
}

/// The answer to a state request: sealed, seed there, locked, unlocked.
pub open spec fn state_reply(c: Map<u16, Seq<u8>>, unlocked: bool) -> Seq<u8> {
    cbor::map(4) + cbor::uint(1) + cbor::boolean(seed::holds(c, EF_BACKUP_SEALED)) + cbor::uint(2)
        + cbor::boolean(seed::holds(c, FID_KEY_DEV)) + cbor::uint(3) + cbor::boolean(
        seed::locked(c),
    ) + cbor::uint(4) + cbor::boolean(unlocked)
}

fn backup_state<S: Storage>(fs: &mut Fs<S>, unlocked: bool, out: &mut [u8]) -> (r: CtapResult)
    requires
        old(fs).wf(),
    ensures
        final(fs).wf(),
        final(fs).reread(old(fs)),
        reply::delivered(old(out)@, final(out)@, state_reply(old(fs).contents(), unlocked), r),
{
    let s: BackupStatus = backup_status(fs, true);
    let mut v: Vec<u8> = Vec::new();
    put_map(&mut v, 4);
    put_u64(&mut v, 1);
    put_bool(&mut v, s.sealed);
    put_u64(&mut v, 2);
    put_bool(&mut v, s.has_seed);
    put_u64(&mut v, 3);
    put_bool(&mut v, s.locked);
    put_u64(&mut v, 4);
    put_bool(&mut v, unlocked);
    assert(v@ =~= state_reply(old(fs).contents(), unlocked));
    deliver(out, v.as_slice())
}

/// The state of the seed backup.
#[derive(Clone, Copy, PartialEq, Eq, Structural, Debug)]
pub struct BackupStatus {
    /// The export window is sealed; a reset opens it again.
    pub sealed: bool,
    /// There is a seed.
    pub has_seed: bool,
    /// The build can export the seed.
    pub exportable: bool,
    /// The seed is locked: what is stored is wrapped.
    pub locked: bool,
}

/// Reads the state of the seed backup; whether the build can export the seed is
/// for the caller to tell.
pub fn backup_status<S: Storage>(fs: &mut Fs<S>, exportable: bool) -> (s: BackupStatus)
    requires
        old(fs).wf(),
    ensures
        final(fs).wf(),
        final(fs).reread(old(fs)),
        s == (BackupStatus {
            sealed: seed::holds(old(fs).contents(), EF_BACKUP_SEALED),
            has_seed: seed::holds(old(fs).contents(), FID_KEY_DEV),
            exportable,
            locked: seed::locked(old(fs).contents()),
        }),
{
    let sealed: bool = fs.has_data(EF_BACKUP_SEALED);
    let has_seed: bool = fs.has_key(ef_key_dev());
    let locked: bool = lock_engaged(fs);
    BackupStatus { sealed, has_seed, exportable, locked }
}

/// Seals the export window; false where the backend failed or has no room.
pub fn mark_backup_sealed<S: Storage>(fs: &mut Fs<S>) -> (r: bool)
    requires
        old(fs).wf(),
    ensures
        seed::file_written(old(fs), final(fs), EF_BACKUP_SEALED, seq![1u8], r),
{
    let mark: [u8; 1] = [1];
    assert(mark@ =~= seq![1u8]);
    fs.put(EF_BACKUP_SEALED, &mark).is_ok()
}

/// Whether the export window is sealed.
pub fn backup_sealed<S: Storage>(fs: &mut Fs<S>) -> (r: bool)
    requires
        old(fs).wf(),
    ensures
        final(fs).wf(),
        final(fs).reread(old(fs)),
        r == seed::holds(old(fs).contents(), EF_BACKUP_SEALED),
{
    fs.has_data(EF_BACKUP_SEALED)
}

// ---- dispatch ----
/// The outcome of a parsed request, by its subcommand.
pub open spec fn subcommand_outcome<S: Storage, R: Rng, P: UserPresence>(
    before: &Ctx<S, R, P>,
    after: &Ctx<S, R, P>,
    t: codec::Talk,
    fips: bool,
    v: vendorreq::VendorView,
    out_before: Seq<u8>,
    out_after: Seq<u8>,
    r: CtapResult,
) -> bool {
    let c = before.fs.contents();
    if v.subcommand == VENDOR_MSE {
        &&& frame::settled_but_drawn(before, after, after.state)
        &&& after.unasked(before)
        &&& channel::agreement_outcome(
            before.state,
            after.state,
            v,
            before.rng.drawn(),
            after.rng.drawn(),
            out_before,
            out_after,
            r,
        )
    } else if v.subcommand == VENDOR_BACKUP_EXPORT {
        export_outcome(before, after, fips, v, out_before, out_after, r)
    } else if v.subcommand == VENDOR_BACKUP_LOAD {
        load_outcome(before, after, t, v, r) && out_after == out_before
    } else if v.subcommand == VENDOR_BACKUP_FINALIZE {
        finalize_outcome(before, after, r) && out_after == out_before
    } else if v.subcommand == VENDOR_BACKUP_STATE {
        &&& frame::untouched(before, after)
        &&& after.unasked(before)
        &&& reply::delivered(
            out_before,
            out_after,
            state_reply(c, before.state.keydev_dec is Some),
            r,
        )
    } else if v.subcommand == VENDOR_UNLOCK {
        unlock_outcome(before, after, v, r) && out_after == out_before
    } else if v.subcommand == VENDOR_AUDIT_READ {
        read_outcome(before, after, v, out_before, out_after, r)
    } else if v.subcommand == VENDOR_AUDIT_CHECKPOINT {
        checkpoint_outcome(before, after, v, out_before, out_after, r)
    } else if v.subcommand == VENDOR_ATT_IMPORT {
        import_outcome(before, after, v, r) && out_after == out_before
    } else if v.subcommand == VENDOR_ATT_CLEAR {
        clear_outcome(before, after, v, r) && out_after == out_before
    } else if v.subcommand == VENDOR_ATT_STATE {
        &&& frame::untouched(before, after)
        &&& after.unasked(before)
        &&& reply::delivered(out_before, out_after, att_state_reply(c), r)
    } else {
        barred(before, after, CtapError::InvalidParameter, r) && out_after == out_before
    }
}

/// The outcome of a request: refused where it does not parse, otherwise that of
/// its subcommand.
pub open spec fn outcome<S: Storage, R: Rng, P: UserPresence>(
    before: &Ctx<S, R, P>,
    after: &Ctx<S, R, P>,
    t: codec::Talk,
    fips: bool,
    data: Seq<u8>,
    out_before: Seq<u8>,
    out_after: Seq<u8>,
    r: CtapResult,
) -> bool {
    match vendorreq::request(data) {
        Err(e) => barred(before, after, e, r) && out_after == out_before,
        Ok(v) => subcommand_outcome(before, after, t, fips, v, out_before, out_after, r),
    }
}

/// `authenticatorVendor`: runs one subcommand; writes its answer at the front
/// of `out` and returns the length. `fips` tells whether the build has the
/// FIPS-style profile.
pub fn vendor<S: Storage, R: Rng, P: UserPresence, C: Codec>(
    ctx: &mut Ctx<S, R, P>,
    codec: &mut Recorded<C>,
    fips: bool,
    data: &[u8],
    out: &mut [u8],
) -> (r: CtapResult)
    requires
        old(ctx).wf(),
    ensures
        final(ctx).wf(),
        final(out)@.len() == old(out)@.len(),
        r matches Ok(n) ==> n <= old(out)@.len(),
        outcome(
            old(ctx),
            final(ctx),
            codec::talk(old(codec), final(codec)),
            fips,
            data@,
            old(out)@,
            final(out)@,
            r,
        ),
        codec::talk(old(codec), final(codec)).wf(),
{
    assert(codec.asked().take(codec.asked().len() as int) =~= codec.asked());
    let req: VendorReq = vendorreq::parse(data)?;
    match req.subcommand {
        VENDOR_MSE => mse(&mut ctx.state, &mut ctx.rng, &req, out),
        VENDOR_BACKUP_EXPORT => backup_export(ctx, fips, &req, out),
        VENDOR_BACKUP_LOAD => backup_load(ctx, codec, &req),
        VENDOR_BACKUP_FINALIZE => backup_finalize(ctx),
        VENDOR_BACKUP_STATE => {
            let unlocked: bool = ctx.state.keydev_dec.is_some();
            backup_state(&mut ctx.fs, unlocked, out)
        },
        VENDOR_UNLOCK => unlock(ctx, &req),
        VENDOR_AUDIT_READ => audit_read(ctx, &req, out),
        VENDOR_AUDIT_CHECKPOINT => audit_checkpoint(ctx, &req, out),
        VENDOR_ATT_IMPORT => att_import(ctx, &req),
        VENDOR_ATT_CLEAR => att_clear(ctx, &req),
        VENDOR_ATT_STATE => att_state(&mut ctx.fs, out),
        _ => Err(CtapError::InvalidParameter),
    }
}

/// Where a PIN is set, a vendor command passes exactly where it carries the MAC
/// under the token of 32 bytes 0xff, the command, the subcommand and the
/// parameters as they were encoded, and the token allows configuration. Where
/// none is set, it passes.
pub proof fn law_vendor_authentication(
    c: Map<u16, Seq<u8>>,
    paut: PinUvAuthToken,
    v: vendorreq::VendorView,
)
    ensures
        !seed::holds(c, EF_PIN) ==> pin_refusal(c, paut, v) is None,
        seed::holds(c, EF_PIN) ==> (pin_refusal(c, paut, v) is None <==> {
            &&& v.proto == 1 || v.proto == 2
            &&& v.raw.len() <= 2200
            &&& paut.permissions & 0x20 != 0
            &&& v.param == Some(
                pinproto::mac(
                    if v.proto == 1 {
                        PinProto::One
                    } else {
                        PinProto::Two
                    },
                    paut.token@,
                    Seq::new(32, |i: int| 0xffu8) + seq![0x41u8, v.subcommand as u8] + v.raw,
                ),
            )
        }),
        seed::holds(c, EF_PIN) && v.param is None ==> pin_refusal(c, paut, v) == Some(
            CtapError::PuatRequired,
        ),
{
    assert(state::puat_msg(CTAP_VENDOR, v.subcommand as u8, v.raw) == Seq::new(
        32,
        |i: int| 0xffu8,
    ) + seq![0x41u8, v.subcommand as u8] + v.raw);
}

/// What stands between a request and each subcommand. Export, load, import and
/// clear are done only over an open channel, with the PIN rules met and a
/// confirmed touch; a checkpoint with the PIN rules met and a touch; finalizing
/// with a touch; reading the journal with the PIN rules met and no touch; the two
/// state requests, unlocking and the key agreement ask for no touch. Any other
/// subcommand is refused.
pub proof fn law_vendor_guards<S: Storage, R: Rng, P: UserPresence>(
    before: &Ctx<S, R, P>,
    after: &Ctx<S, R, P>,
    t: codec::Talk,
    fips: bool,
    data: Seq<u8>,
    out_before: Seq<u8>,
    out_after: Seq<u8>,
    n: usize,
)
    requires
        outcome(
            before,
            after,
            t,
            fips,
            data,
            out_before,
            out_after,
            Ok::<usize, CtapError>(n),
        ),
    ensures
        vendorreq::request(data) is Ok,
        ({
            let v = vendorreq::request(data)->Ok_0;
            let sub = v.subcommand;
            let c = before.fs.contents();
            &&& 0x01 <= sub <= 0x0b
            &&& sub == 0x02 || sub == 0x03 || sub == 0x09 || sub == 0x0a ==> {
                &&& before.state.mse_active
                &&& pin_refusal(c, before.state.paut, v) is None
                &&& after.prompted(before, sdk::action("Vendor config?"@, ""@))
                &&& after.last_touch() == Presence::Confirmed
            }
            &&& sub == 0x02 ==> !fips && !seed::holds(c, EF_BACKUP_SEALED)
            &&& sub == 0x03 ==> !seed::locked(c)
            &&& sub == 0x04 ==> after.prompted(before, sdk::action("Finish backup?"@, ""@))
                && after.last_touch() == Presence::Confirmed && seed::holds(
                after.fs.contents(),
                EF_BACKUP_SEALED,
            )
            &&& sub == 0x06 ==> before.state.mse_active && seed::locked(c)
            &&& sub == 0x07 ==> pin_refusal(c, before.state.paut, v) is None
            &&& sub == 0x08 ==> pin_refusal(c, before.state.paut, v) is None && after.prompted(
                before,
                sdk::action("Sign audit log?"@, ""@),
            ) && after.last_touch() == Presence::Confirmed
            &&& sub == 0x01 || sub == 0x05 || sub == 0x06 || sub == 0x07 || sub == 0x0b
                ==> after.unasked(before)
        }),
{
}

/// An import leaves the key that the channel carried and the certificates of the
/// chain that was given; a load leaves the seed that the channel carried.
pub proof fn law_import_and_load_keep_what_was_sent<S: Storage, R: Rng, P: UserPresence>(
    before: &Ctx<S, R, P>,
    after: &Ctx<S, R, P>,
    t: codec::Talk,
    fips: bool,
    data: Seq<u8>,
    out_before: Seq<u8>,
    out_after: Seq<u8>,
    n: usize,
)
    requires
        outcome(
            before,
            after,
            t,
            fips,
            data,
            out_before,
            out_after,
            Ok::<usize, CtapError>(n),
        ),
        vendorreq::request(data) is Ok,
    ensures
        ({
            let v = vendorreq::request(data)->Ok_0;
            let d = after.fs.contents();
            &&& v.subcommand == 0x09 ==> {
                &&& seed::loaded(before.dev, d, FID_ATT_KEY) is Some
                &&& seed::loaded(before.dev, d, FID_ATT_KEY) == channel::channel_opened(
                    before.state,
                    v.blob,
                )
                &&& d.contains_key(EF_ATT_CHAIN) && Some(d[EF_ATT_CHAIN]) == cert::packed(v.chain)
            }
            &&& v.subcommand == 0x03 ==> {
                &&& seed::loaded(before.dev, d, FID_KEY_DEV) is Some
                &&& seed::loaded(before.dev, d, FID_KEY_DEV) == channel::channel_opened(
                    before.state,
                    v.blob,
                )
            }
        }),
{
}

/// The answer to a state request tells whether the backup window is sealed,
/// whether the seed is there, whether the device is locked and whether it was
/// unlocked, each under its own key.
pub proof fn law_state_reply(c: Map<u16, Seq<u8>>, unlocked: bool)
    ensures
        ({
            let o = cborvalue::decoded(state_reply(c, unlocked));
            &&& cborvalue::at(o, 1) == Some(Value::Bool(seed::holds(c, EF_BACKUP_SEALED)))
            &&& cborvalue::at(o, 2) == Some(Value::Bool(seed::holds(c, FID_KEY_DEV)))
            &&& cborvalue::at(o, 3) == Some(Value::Bool(seed::locked(c)))
            &&& cborvalue::at(o, 4) == Some(Value::Bool(unlocked))
        }),
{
    let w = cbor::map(4);
    let e0 = Seq::<(Value, Value)>::empty();
    let v1 = Value::Bool(seed::holds(c, EF_BACKUP_SEALED));
    let v2 = Value::Bool(seed::holds(c, FID_KEY_DEV));
    let v3 = Value::Bool(seed::locked(c));
    let v4 = Value::Bool(unlocked);
    cborvalue::lemma_nothing(w);
    cborvalue::lemma_entry(w, e0, Value::Int(1), v1);
    let e1 = e0.push((Value::Int(1), v1));
    cborvalue::lemma_entry(w, e1, Value::Int(2), v2);
    let e2 = e1.push((Value::Int(2), v2));
    cborvalue::lemma_entry(w, e2, Value::Int(3), v3);
    let e3 = e2.push((Value::Int(3), v3));
    cborvalue::lemma_entry(w, e3, Value::Int(4), v4);
    let e4 = e3.push((Value::Int(4), v4));
    cborvalue::law_decoded(Value::Table(e4));
}

/// The answer on the attestation tells whether its key is there and, where the
/// chain is too, the digest of the chain.
pub proof fn law_att_state_reply(c: Map<u16, Seq<u8>>)
    requires
        forall|x: Seq<u8>| (#[trigger] crypto::sha256_of(x)).len() == 32,
    ensures
        ({
            let o = cborvalue::decoded(att_state_reply(c));
            &&& cborvalue::at(o, 1) == Some(Value::Bool(seed::holds(c, FID_ATT_KEY)))
            &&& cborvalue::at(o, 2) is Some <==> seed::holds(c, FID_ATT_KEY) && seed::holds(
                c,
                EF_ATT_CHAIN,
            )
            &&& seed::holds(c, EF_ATT_CHAIN) && c[EF_ATT_CHAIN].len() <= ATT_CHAIN_REC_MAX
                && seed::holds(c, FID_ATT_KEY) ==> cborvalue::at(o, 2) == Some(
                Value::Bytes(crypto::sha256_of(c[EF_ATT_CHAIN])),
            )
        }),
{
    let present = seed::holds(c, FID_ATT_KEY);
    let chain = if c.contains_key(EF_ATT_CHAIN) {
        file_system::clipped(c[EF_ATT_CHAIN], ATT_CHAIN_REC_MAX as nat)
    } else {
        Seq::empty()
    };
    let n: int = if present && chain.len() > 0 {
        2
    } else {
        1
    };
    let w = cbor::map(n);
    let e0 = Seq::<(Value, Value)>::empty();
    cborvalue::lemma_nothing(w);
    cborvalue::lemma_entry(w, e0, Value::Int(1), Value::Bool(present));
    let e1 = e0.push((Value::Int(1), Value::Bool(present)));
    let digest = Value::Bytes(crypto::sha256_of(chain));
    cborvalue::lemma_entry(w, e1, Value::Int(2), digest);
    let e2 = e1.push((Value::Int(2), digest));
    if n == 2 {
        cborvalue::law_decoded(Value::Table(e2));
    } else {
        cborvalue::law_decoded(Value::Table(e1));
    }
}

/// The answer to an export is a map with the sealed seed under 1.
pub proof fn law_export_reply(blob: Seq<u8>)
    requires
        blob.len() <= u32::MAX,
    ensures
        cborvalue::decoded(export_reply(blob)) == Value::Table(
            seq![(Value::Int(1), Value::Bytes(blob))],
        ),
{
    let w = cbor::map(1);
    let e0 = Seq::<(Value, Value)>::empty();
    cborvalue::lemma_nothing(w);
    cborvalue::lemma_entry(w, e0, Value::Int(1), Value::Bytes(blob));
    let e1 = e0.push((Value::Int(1), Value::Bytes(blob)));
    cborvalue::law_decoded(Value::Table(e1));
    assert(e1 =~= seq![(Value::Int(1), Value::Bytes(blob))]);
}

/// An unlock takes the lock key from the channel and opens the locked seed with it;
/// each thing that can be wrong has its status.
pub proof fn law_unlock(c: Map<u16, Seq<u8>>, s: FidoState, blob: Seq<u8>)
    ensures
        !s.mse_active ==> unlock_of(c, s, blob) == Err::<Seq<u8>, CtapError>(CtapError::NotAllowed),
        s.mse_active && channel::channel_opened(s, blob) is None ==> unlock_of(c, s, blob) == Err::<
            Seq<u8>,
            CtapError,
        >(CtapError::InvalidParameter),
        unlock_of(c, s, blob) matches Ok(x) ==> seed::locked(c) && channel::channel_opened(s, blob)
            is Some && seed::unlocked(
            channel::channel_opened(s, blob)->0,
            file_system::clipped(c[FID_KEY_DEV_ENC], 60),
        ) == Some(x),
{
}

}
