//! `authenticatorReset`: wipes the files of the authenticator and its session,
//! then sets up a new seed. A touch gates the wipe.

use vstd::prelude::*;

use crate::fido::codec;
use crate::fido::codec::{Codec, Recorded};
use crate::fido::consts::{
    EF_ALWAYS_UV, EF_ATT_CHAIN, EF_AUTHTOKEN, EF_BACKUP_SEALED, EF_COUNTER, EF_CRED, EF_CRED_CTR,
    EF_DEVICE_PIN, EF_EA_ENABLED, EF_EE_DEV, EF_LARGEBLOB, EF_MINPINLEN, EF_PAUTHTOKEN, EF_PIN,
    EF_RP, EF_RPNICK, FID_ATT_KEY, FID_KEY_DEV, FID_KEY_DEV_ENC, MAX_RESIDENT_CREDENTIALS,
};
use crate::fido::consts;
use crate::fido::error::{CtapError, CtapResult};
use crate::fido::frame;
use crate::fido::journal;
use crate::fido::journal::{fold_and_scrub, EV_BOOT, EV_RESET};
use crate::fido::seed;
use crate::fido::seed::ensure_seed;
use crate::fido::state;
use crate::fido::state::FidoState;
use crate::fido::{Ctx, Presence, Rng, UserPresence};
use crate::fs::file_system;
use crate::fs::{Fs, Storage, EF_META};
use crate::sdk;
use crate::sdk::Confirm;

verus! {

/// A reset clears the file: the seed in both forms, the counters, PIN, tokens
/// and policies, the large-blob array, the certificate, the PIN of the display,
/// and the slots of credentials, relying parties and names. The attestation of
/// an organisation and the journal are no such files.
pub open spec fn fido_file(fid: u16) -> bool {
    ||| fid == FID_KEY_DEV || fid == FID_KEY_DEV_ENC
    ||| fid == EF_BACKUP_SEALED || fid == EF_EE_DEV || fid == EF_COUNTER || fid == EF_CRED_CTR
    ||| fid == EF_PIN || fid == EF_AUTHTOKEN || fid == EF_PAUTHTOKEN || fid == EF_MINPINLEN
    ||| fid == EF_LARGEBLOB || fid == EF_EA_ENABLED || fid == EF_ALWAYS_UV || fid == EF_DEVICE_PIN
    ||| EF_CRED <= fid < EF_CRED + MAX_RESIDENT_CREDENTIALS
    ||| EF_RP <= fid < EF_RP + MAX_RESIDENT_CREDENTIALS
    ||| EF_RPNICK <= fid < EF_RPNICK + MAX_RESIDENT_CREDENTIALS
}

/// Whether a reset clears the file.
pub fn is_fido_fid(fid: u16) -> (r: bool)
    ensures
        r == fido_file(fid),
{
    fid == FID_KEY_DEV || fid == FID_KEY_DEV_ENC || fid == EF_BACKUP_SEALED || fid == EF_EE_DEV
        || fid == EF_COUNTER || fid == EF_CRED_CTR || fid == EF_PIN || fid == EF_AUTHTOKEN || fid
        == EF_PAUTHTOKEN || fid == EF_MINPINLEN || fid == EF_LARGEBLOB || fid == EF_EA_ENABLED
        || fid == EF_ALWAYS_UV || fid == EF_DEVICE_PIN || (EF_CRED <= fid && fid < EF_CRED
        + MAX_RESIDENT_CREDENTIALS) || (EF_RP <= fid && fid < EF_RP + MAX_RESIDENT_CREDENTIALS)
        || (EF_RPNICK <= fid && fid < EF_RPNICK + MAX_RESIDENT_CREDENTIALS)
}

/// Whether the file survives a factory reset of the whole device: only the
/// attestation of an organisation does.
pub fn survives_factory_reset(fid: u16) -> (r: bool)
    ensures
        r == (fid == FID_ATT_KEY || fid == EF_ATT_CHAIN),
{
    fid == FID_ATT_KEY || fid == EF_ATT_CHAIN
}

/// What survives a factory reset of the whole device, a reset of the
/// authenticator does not clear either; nor does it clear the journal.
pub proof fn law_reset_spares(fid: u16)
    ensures
        fid == FID_ATT_KEY || fid == EF_ATT_CHAIN ==> !fido_file(fid),
        journal::is_journal(fid) ==> !fido_file(fid),
{
}

/// Nothing but files of the authenticator and their metadata went, and no file
/// that stays changed but the one that holds the metadata.
pub open spec fn only_deleted(a: Map<u16, Seq<u8>>, b: Map<u16, Seq<u8>>) -> bool {
    &&& file_system::metas_kept_but(a, b, |g: u16| fido_file(g))
    &&& forall|g: u16|
        fido_file(g) && #[trigger] b.contains_key(g) ==> a.contains_key(g) && b[g] == a[g]
    &&& frame::kept_but(a, b, |g: u16| fido_file(g) || g == EF_META)
}

/// The files of `a` were wiped: what a bulk pass lists of them is gone with its
/// metadata, and nothing else of what there was changed.
pub open spec fn wiped(a: Map<u16, Seq<u8>>, listed: Set<u16>, b: Map<u16, Seq<u8>>) -> bool {
    &&& forall|g: u16|
        fido_file(g) && listed.contains(g) ==> !#[trigger] b.contains_key(g)
    &&& forall|g: u16|
        fido_file(g) && listed.contains(g) ==> (#[trigger] file_system::meta_of(b, g)) is None
    &&& only_deleted(a, b)
}

/// Deletes every file of the authenticator that a bulk pass lists; false where
/// the backend failed.
fn wipe_files<S: Storage>(fs: &mut Fs<S>) -> (r: bool)
    requires
        old(fs).wf(),
    ensures
        final(fs).wf(),
        final(fs).reliable() == old(fs).reliable(),
        old(fs).reliable() ==> r,
        r ==> wiped(old(fs).contents(), old(fs).listed(), final(fs).contents()),
        r ==> final(fs).dynamic().len() <= old(fs).dynamic().len(),
        only_deleted(old(fs).contents(), final(fs).contents()),
        forall|g: u16|
            !(fido_file(g) || g == EF_META) ==> #[trigger] final(fs).cached(g) == old(fs).cached(g),
{
    let keys: Vec<u16> = fs.for_each_key();
    let ghost c = fs.contents();
    let mut i: usize = 0;
    while i < keys.len()
        invariant
            i <= keys@.len(),
            fs.wf(),
            fs.reliable() == old(fs).reliable(),
            fs.dynamic().len() <= old(fs).dynamic().len(),
            c == old(fs).contents(),
            frame::kept_but(c, fs.contents(), |g: u16| fido_file(g) || g == EF_META),
            forall|g: u16|
                fido_file(g) && #[trigger] fs.contents().contains_key(g) ==> c.contains_key(g)
                    && fs.contents()[g] == c[g],
            forall|x: int|
                0 <= x < i && fido_file(#[trigger] keys@[x]) ==> !fs.contents().contains_key(
                    keys@[x],
                ) && file_system::meta_of(fs.contents(), keys@[x]) is None,
            forall|g: u16|
                !fido_file(g) ==> #[trigger] file_system::meta_of(fs.contents(), g)
                    == file_system::meta_of(c, g),
            forall|g: u16|
                !(fido_file(g) || g == EF_META) ==> #[trigger] fs.cached(g) == old(fs).cached(g),
        decreases keys@.len() - i,
    {
        let fid: u16 = keys[i];
        if is_fido_fid(fid) {
            let ghost before = *fs;
            let ok: bool = fs.force_delete(fid).is_ok();
            proof {
                let a = before.contents();
                let b = fs.contents();
                before.law_no_false_absent(fid);
                file_system::lemma_filter(before.dynamic(), fid);
                assert forall|g: u16| !(fido_file(g) || g == EF_META) implies (
                #[trigger] b.contains_key(g) == c.contains_key(g) && (b.contains_key(g) ==> b[g]
                    == c[g])) by {
                    assert(a.contains_key(g) == c.contains_key(g));
                }
                assert forall|g: u16| !(fido_file(g) || g == EF_META) implies
                    #[trigger] fs.cached(g) == old(fs).cached(g) by {
                    assert(fs.cached(g) == before.cached(g));
                }
                assert forall|g: u16| !fido_file(g) implies #[trigger] file_system::meta_of(b, g)
                    == file_system::meta_of(c, g) by {
                    assert(file_system::meta_of(a, g) == file_system::meta_of(c, g));
                }
            }
            if !ok {
                return false;
            }
        }
        i += 1;
    }
    proof {
        assert forall|g: u16|
            fido_file(g) && old(fs).listed().contains(g) implies !#[trigger] fs.contents().contains_key(
        g) by {
            assert(keys@.contains(g));
            let x = choose|x: int| 0 <= x < keys@.len() && keys@[x] == g;
            assert(fido_file(keys@[x]));
        }
        assert forall|g: u16| fido_file(g) && old(fs).listed().contains(g) implies (
        #[trigger] file_system::meta_of(fs.contents(), g)) is None by {
            assert(keys@.contains(g));
            let x = choose|x: int| 0 <= x < keys@.len() && keys@[x] == g;
            assert(fido_file(keys@[x]));
        }
    }
    true
}

/// A reset of a device whose files a bulk pass all lists gives a fresh device:
/// a new seed, which was drawn, a zero counter, the empty large-blob array, nothing else
/// of the authenticator, an open journal with the reset chained to the history,
/// and the other files as they were. What the bulk pass lists lost its metadata,
/// and so may a slot of the journal; all other metadata is as it was.
pub open spec fn renewed<S: Storage, R: Rng, P: UserPresence>(
    before: &Ctx<S, R, P>,
    after: &Ctx<S, R, P>,
    t: codec::Talk,
) -> bool {
    let c = before.fs.contents();
    let d = after.fs.contents();
    &&& *after == (Ctx {
        fs: after.fs,
        presence: after.presence,
        rng: after.rng,
        state: after.state,
        ..*before
    })
    &&& after.state.devk == before.state.devk
    &&& exists|s: FidoState|
        #[trigger] s.fresh() && s.devk == before.state.devk && after.state == (FidoState {
            audit_boot_logged: true,
            ..s
        })
    &&& frame::kept_but(c, d, |g: u16| fido_file(g) || g == EF_META || journal::is_journal(g))
    &&& forall|g: u16|
        fido_file(g) && before.fs.listed().contains(g) && g != FID_KEY_DEV && g != EF_COUNTER && g
            != EF_LARGEBLOB && g != EF_EE_DEV ==> !#[trigger] d.contains_key(g)
    &&& file_system::metas_kept_but(c, d, |g: u16| fido_file(g) || journal::in_ring(g))
    &&& forall|g: u16|
        fido_file(g) && before.fs.listed().contains(g) ==> (#[trigger] file_system::meta_of(
            d,
            g,
        )) is None
    &&& (forall|g: u16| #[trigger]
        c.contains_key(g) && fido_file(g) ==> before.fs.listed().contains(g)) ==> {
        &&& seed::has_key(before.dev, d)
        &&& d.contains_key(EF_EE_DEV)
        &&& seed::certified(
            t,
            seed::loaded(before.dev, d, FID_KEY_DEV)->0,
            after.rng.drawn().last(),
            Some(d[EF_EE_DEV]),
        )
        &&& state::drew_scalar(
            before.rng.drawn(),
            after.rng.drawn().drop_last(),
            seed::loaded(before.dev, d, FID_KEY_DEV),
        )
        &&& seed::counter(d) == 0
        &&& d.contains_key(EF_LARGEBLOB) && d[EF_LARGEBLOB] == consts::largeblob_initial()@
        &&& !seed::locked(d)
    }
    &&& before.fs.reliable() && before.fs.dynamic().len() + 9 <= 1280 ==> handed_over(before, after)
}

/// The journal of a device that was reset tells nothing of where it has been: the
/// old window went into the epoch, and the new one holds the reset alone, behind
/// the boot entry where this power cycle had none. The head still attests to the
/// whole history. Of the other slots none is left that the old window had, nor
/// any that the cache knew to be there, and nothing came to them.
pub open spec fn handed_over<S: Storage, R: Rng, P: UserPresence>(
    before: &Ctx<S, R, P>,
    after: &Ctx<S, R, P>,
) -> bool {
    let c = before.fs.contents();
    let d = after.fs.contents();
    let logged = before.state.audit_boot_logged;
    let now = before.now_ms as int;
    let m = journal::meta_in(before.dev, c);
    let n = m.seq_next;
    let k = journal::event_entries(logged);
    let last = journal::wadd(n, k - 1);
    &&& journal::head_in(before.dev, d) == journal::head_after(
        before.dev,
        c,
        logged,
        now,
        EV_RESET,
        0,
        Seq::empty(),
    )
    &&& journal::meta_in(before.dev, d) == (journal::MetaView {
        seq_next: journal::wadd(n, k),
        start: n,
        epoch: journal::head_in(before.dev, c),
    })
    &&& journal::entry_in(d, last) == Some(journal::entry_of(last, now, EV_RESET, 0, Seq::empty()))
    &&& !logged ==> journal::entry_in(d, n) == Some(
        journal::entry_of(n, now, EV_BOOT, 0, Seq::empty()),
    )
    &&& forall|i: int|
        0 <= i < journal::live(m) ==> {
            let f = #[trigger] journal::slot_of(journal::wadd(m.start, i));
            f == journal::slot_of(n) || f == journal::slot_of(last) || !d.contains_key(f)
        }
    &&& forall|f: u16|
        journal::in_ring(f) && before.fs.cached(f) == Some(true) && f != journal::slot_of(n) && f
            != journal::slot_of(last) ==> !#[trigger] d.contains_key(f)
    &&& forall|f: u16|
        journal::in_ring(f) && f != journal::slot_of(n) && f != journal::slot_of(last)
            && #[trigger] d.contains_key(f) ==> c.contains_key(f) && d[f] == c[f]
}

/// What folding, scrubbing and recording leave of the journal.
proof fn lemma_handed_over<S: Storage, R: Rng, P: UserPresence>(
    before: &Ctx<S, R, P>,
    filled: &Fs<S>,
    bare: &Ctx<S, R, P>,
    after: &Ctx<S, R, P>,
)
    requires
        before.fs.reliable(),
        filled.reliable(),
        bare.dev == before.dev,
        bare.now_ms == before.now_ms,
        bare.state.audit_boot_logged == before.state.audit_boot_logged,
        forall|g: u16|
            journal::is_journal(g) ==> {
                let c = before.fs.contents();
                &&& #[trigger] filled.contents().contains_key(g) == c.contains_key(g)
                &&& filled.contents().contains_key(g) ==> filled.contents()[g] == c[g]
            },
        forall|f: u16|
            #![trigger filled.cached(f)]
            journal::in_ring(f) ==> filled.cached(f) == before.fs.cached(f) || filled.cached(f)
                == Some(before.fs.contents().contains_key(f)),
        journal::scrubbed(before.dev, filled, &bare.fs),
        journal::head_in(before.dev, bare.fs.contents()) == journal::head_in(
            before.dev,
            filled.contents(),
        ),
        journal::took(
            before.dev,
            bare.fs.contents(),
            after.fs.contents(),
            bare.state.audit_boot_logged,
            bare.now_ms as int,
            EV_RESET,
            0,
            Seq::empty(),
        ),
    ensures
        handed_over(before, after),
{
    reveal(journal::took);
    let c = before.fs.contents();
    let e = bare.fs.contents();
    let d = after.fs.contents();
    journal::lemma_journal_frame(before.dev, c, filled.contents());
    let m = journal::meta_in(before.dev, c);
    let n = m.seq_next;
    let last = journal::wadd(n, journal::event_entries(before.state.audit_boot_logged) - 1);
    assert(journal::wadd(n, 0) == n);
    assert(journal::live(journal::meta_in(before.dev, e)) == 0);
    assert forall|i: int| 0 <= i < journal::live(m) implies {
        let f = #[trigger] journal::slot_of(journal::wadd(m.start, i));
        f == journal::slot_of(n) || f == journal::slot_of(last) || !d.contains_key(f)
    } by {
        let f = journal::slot_of(journal::wadd(m.start, i));
        assert(!e.contains_key(f));
        assert(journal::in_ring(f));
        if f != journal::slot_of(n) && f != journal::slot_of(last) {
            assert(d.contains_key(f) == e.contains_key(f));
        }
    }
    assert forall|f: u16|
        journal::in_ring(f) && f != journal::slot_of(n) && f != journal::slot_of(last)
            && #[trigger] d.contains_key(f) implies c.contains_key(f) && d[f] == c[f]
        && before.fs.cached(f) != Some(true) by {
        assert(d.contains_key(f) == e.contains_key(f));
        assert(filled.contents().contains_key(f));
        assert(journal::is_journal(f));
        assert(filled.contents().contains_key(f) == c.contains_key(f));
        assert(filled.cached(f) == before.fs.cached(f) || filled.cached(f) == Some(
            c.contains_key(f),
        ));
    }
}

/// A reset whose wipe failed: the backend is not reliable, what it deleted stays
/// deleted, and neither the session nor a draw is touched.
pub open spec fn wipe_failed<S: Storage, R: Rng, P: UserPresence>(
    before: &Ctx<S, R, P>,
    after: &Ctx<S, R, P>,
) -> bool {
    &&& !before.fs.reliable()
    &&& *after == (Ctx { fs: after.fs, presence: after.presence, ..*before })
    &&& only_deleted(before.fs.contents(), after.fs.contents())
}

/// A reset that wiped the files, which left `mid`, and ended the session, but
/// could not set up the device anew.
pub open spec fn start_failed<S: Storage, R: Rng, P: UserPresence>(
    before: &Ctx<S, R, P>,
    mid: Fs<S>,
    after: &Ctx<S, R, P>,
    t: codec::Talk,
) -> bool {
    &&& wiped(before.fs.contents(), before.fs.listed(), mid.contents())
    &&& mid.reliable() == before.fs.reliable()
    &&& mid.dynamic().len() <= before.fs.dynamic().len()
    &&& after.state.fresh() && after.state.devk == before.state.devk
    &&& *after == (Ctx {
        fs: after.fs,
        presence: after.presence,
        rng: after.rng,
        state: after.state,
        ..*before
    })
    &&& frame::kept_but(
        mid.contents(),
        after.fs.contents(),
        |g: u16| g == FID_KEY_DEV || g == EF_COUNTER || g == EF_LARGEBLOB || g == EF_EE_DEV,
    )
    &&& seed::boot_fails(
        t,
        before.dev,
        &mid,
        &after.fs,
        before.rng.drawn(),
        after.rng.drawn(),
    )
}

/// The outcome of a reset: refused without a confirming touch; otherwise the
/// device starts over, unless the backend failed at the wipe, or the device could
/// not be set up anew after it.
pub open spec fn reset_outcome<S: Storage, R: Rng, P: UserPresence>(
    before: &Ctx<S, R, P>,
    after: &Ctx<S, R, P>,
    t: codec::Talk,
    r: CtapResult,
) -> bool {
    &&& after.prompted(before, sdk::action("Erase everything?"@, ""@))
    &&& if after.last_touch() != Presence::Confirmed {
        r == Err::<usize, CtapError>(CtapError::UserActionTimeout) && frame::untouched(
            before,
            after,
        )
    } else {
        match r {
            Ok(n) => n == 0 && renewed(before, after, t),
            Err(e) => e == CtapError::Other && (wipe_failed(before, after) || exists|mid: Fs<S>|
                #[trigger] start_failed(before, mid, after, t)),
        }
    }
}

/// `authenticatorReset`: wipes everything of the authenticator and starts over
/// with a new seed. It is also the way out of a lock whose key is lost.
pub fn reset<S: Storage, R: Rng, P: UserPresence, C: Codec>(
    ctx: &mut Ctx<S, R, P>,
    codec: &mut Recorded<C>,
) -> (r: CtapResult)
    requires
        old(ctx).wf(),
    ensures
        final(ctx).wf(),
        reset_outcome(old(ctx), final(ctx), codec::talk(old(codec), final(codec)), r),
        codec::talk(old(codec), final(codec)).wf(),
{
    assert(codec.asked().take(codec.asked().len() as int) =~= codec.asked());
    let ghost start = *ctx;
    let ghost c0 = ctx.fs.contents();
    if !ctx.check_user_presence(Confirm::titled("Erase everything?")) {
        return Err(CtapError::UserActionTimeout);
    }
    if !wipe_files(&mut ctx.fs) {
        return Err(CtapError::Other);
    }
    let ghost c1 = ctx.fs.contents();
    let ghost bare = ctx.fs;
    ctx.state.reset();
    let ghost fresh = ctx.state;
    let filled: bool = ensure_seed(&ctx.dev, &mut ctx.fs, &mut ctx.rng, codec).is_ok();
    let ghost c2 = ctx.fs.contents();
    proof {
        assert forall|g: u16| !(fido_file(g) || g == EF_META) implies (#[trigger] c2.contains_key(g)
            == c0.contains_key(g) && (c2.contains_key(g) ==> c2[g] == c0[g])) by {
            assert(c1.contains_key(g) == c0.contains_key(g));
        }
    }
    if !filled {
        assert(start_failed(
            old(ctx),
            bare,
            ctx,
            codec::talk(old(codec), codec),
        ));
        return Err(CtapError::Other);
    }
    proof {
        assert forall|g: u16| journal::is_journal(g) implies {
            &&& #[trigger] c2.contains_key(g) == c0.contains_key(g)
            &&& c2.contains_key(g) ==> c2[g] == c0[g]
        } by {
            law_reset_spares(g);
        }
        journal::lemma_journal_frame(ctx.dev, c0, c2);
    }
    let ghost full = ctx.fs;
    fold_and_scrub(&ctx.dev, &mut ctx.fs);
    let ghost c3 = ctx.fs.contents();
    let ghost scrubbed = *ctx;
    let nothing: [u8; 0] = [];
    assert(nothing@ =~= Seq::<u8>::empty());
    journal::append(ctx, EV_RESET, 0, &nothing);
    proof {
        lemma_renewed(
            c0,
            start.fs.listed(),
            c1,
            c2,
            c3,
            ctx.fs.contents(),
            start.dev,
            codec::talk(old(codec), codec),
            start.rng.drawn(),
            ctx.rng.drawn(),
        );
        let s = FidoState { audit_boot_logged: fresh.audit_boot_logged, ..fresh };
        assert(s.fresh());
        if start.fs.reliable() && start.fs.dynamic().len() + 9 <= 1280 {
            assert forall|f: u16|
                #![trigger full.cached(f)]
                journal::in_ring(f) implies full.cached(f) == start.fs.cached(f) || full.cached(f)
                == Some(c0.contains_key(f)) by {
                assert(bare.cached(f) == start.fs.cached(f));
                assert(c1.contains_key(f) == c0.contains_key(f));
            }
            lemma_handed_over(&start, &full, &scrubbed, ctx);
            assert(handed_over(old(ctx), ctx));
        }
    }
    Ok(0)
}

/// What the steps of a reset leave of the files.
proof fn lemma_renewed(
    c0: Map<u16, Seq<u8>>,
    listed: Set<u16>,
    c1: Map<u16, Seq<u8>>,
    c2: Map<u16, Seq<u8>>,
    c3: Map<u16, Seq<u8>>,
    d: Map<u16, Seq<u8>>,
    dev: crate::fido::device::Device,
    t: codec::Talk,
    drawn_before: Seq<Seq<u8>>,
    drawn_after: Seq<Seq<u8>>,
)
    requires
        wiped(c0, listed, c1),
        frame::kept_but(
            c1,
            c2,
            |g: u16|
                g == FID_KEY_DEV || g == EF_COUNTER || g == EF_LARGEBLOB || g == EF_EE_DEV,
        ),
        journal::others_kept_but_meta(c2, c3),
        file_system::metas_kept_but(c2, c3, |g: u16| journal::in_ring(g)),
        journal::others_kept(c3, d),
        seed::holds(c2, EF_COUNTER),
        seed::holds(c2, EF_LARGEBLOB),
        !seed::holds(c1, EF_COUNTER) ==> c2[EF_COUNTER] == seq![0u8, 0, 0, 0],
        !seed::holds(c1, EF_LARGEBLOB) ==> c2[EF_LARGEBLOB] == consts::largeblob_initial()@,
        !seed::locked(c1) ==> c2.contains_key(EF_EE_DEV) && (!seed::holds(c1, FID_KEY_DEV)
            ==> seed::has_key(dev, c2)) && (!seed::holds(c1, EF_EE_DEV) ==> seed::certified(
            t,
            seed::loaded(dev, c2, FID_KEY_DEV)->0,
            drawn_after.last(),
            Some(c2[EF_EE_DEV]),
        )),
        seed::boot_draws(c1, seed::loaded(dev, c2, FID_KEY_DEV)->0, drawn_before, drawn_after),
    ensures
        frame::kept_but(
            c0,
            d,
            |g: u16| fido_file(g) || g == EF_META || journal::is_journal(g),
        ),
        forall|g: u16|
            fido_file(g) && listed.contains(g) && g != FID_KEY_DEV && g != EF_COUNTER && g
                != EF_LARGEBLOB && g != EF_EE_DEV ==> !#[trigger] d.contains_key(g),
        file_system::metas_kept_but(c0, d, |g: u16| fido_file(g) || journal::in_ring(g)),
        forall|g: u16|
            fido_file(g) && listed.contains(g) ==> (#[trigger] file_system::meta_of(d, g)) is None,
        (forall|g: u16| #[trigger] c0.contains_key(g) && fido_file(g) ==> listed.contains(g)) ==> {
            &&& seed::has_key(dev, d)
            &&& d.contains_key(EF_EE_DEV)
            &&& seed::certified(
                t,
                seed::loaded(dev, d, FID_KEY_DEV)->0,
                drawn_after.last(),
                Some(d[EF_EE_DEV]),
            )
            &&& state::drew_scalar(
                drawn_before,
                drawn_after.drop_last(),
                seed::loaded(dev, d, FID_KEY_DEV),
            )
            &&& seed::counter(d) == 0
            &&& d.contains_key(EF_LARGEBLOB) && d[EF_LARGEBLOB] == consts::largeblob_initial()@
            &&& !seed::locked(d)
        },
{
    assert(c2.contains_key(EF_META) == c1.contains_key(EF_META));
    assert(d.contains_key(EF_META) == c3.contains_key(EF_META));
    file_system::lemma_metas_same(c1, c2);
    file_system::lemma_metas_same(c3, d);
    assert forall|g: u16| !(fido_file(g) || journal::in_ring(g)) implies
        #[trigger] file_system::meta_of(d, g) == file_system::meta_of(c0, g) by {
        assert(file_system::meta_of(c3, g) == file_system::meta_of(c2, g));
        assert(file_system::meta_of(c1, g) == file_system::meta_of(c0, g));
    }
    assert forall|g: u16| fido_file(g) && listed.contains(g) implies (
    #[trigger] file_system::meta_of(d, g)) is None by {
        law_reset_spares(g);
        assert(file_system::meta_of(c3, g) == file_system::meta_of(c2, g));
        assert(file_system::meta_of(c1, g) is None);
    }
    assert forall|g: u16| !journal::is_journal(g) && g != EF_META implies {
        &&& #[trigger] d.contains_key(g) == c2.contains_key(g)
        &&& d.contains_key(g) ==> d[g] == c2[g]
    } by {
        assert(c3.contains_key(g) == c2.contains_key(g));
    }
    assert forall|g: u16| !(fido_file(g) || g == EF_META || journal::is_journal(g)) implies (
    #[trigger] d.contains_key(g) == c0.contains_key(g) && (d.contains_key(g) ==> d[g]
        == c0[g])) by {
        assert(c2.contains_key(g) == c1.contains_key(g));
        assert(c1.contains_key(g) == c0.contains_key(g));
    }
    assert forall|g: u16|
        fido_file(g) && listed.contains(g) && g != FID_KEY_DEV && g != EF_COUNTER && g
            != EF_LARGEBLOB && g != EF_EE_DEV implies !#[trigger] d.contains_key(g) by {
        law_reset_spares(g);
        assert(d.contains_key(g) == c2.contains_key(g));
        assert(c2.contains_key(g) == c1.contains_key(g));
    }
    if forall|g: u16| #[trigger] c0.contains_key(g) && fido_file(g) ==> listed.contains(g) {
        assert forall|g: u16| fido_file(g) implies !#[trigger] c1.contains_key(g) by {
            if c1.contains_key(g) {
                assert(c0.contains_key(g));
            }
        }
        assert(!c1.contains_key(EF_COUNTER) && !c1.contains_key(EF_LARGEBLOB));
        assert(!c1.contains_key(FID_KEY_DEV) && !c1.contains_key(FID_KEY_DEV_ENC));
        assert(d.contains_key(FID_KEY_DEV) == c2.contains_key(FID_KEY_DEV));
        assert(d.contains_key(EF_EE_DEV) == c2.contains_key(EF_EE_DEV));
        assert(d.contains_key(EF_COUNTER) == c2.contains_key(EF_COUNTER));
        assert(d.contains_key(EF_LARGEBLOB) == c2.contains_key(EF_LARGEBLOB));
        assert(c2.contains_key(FID_KEY_DEV_ENC) == c1.contains_key(FID_KEY_DEV_ENC));
        assert(d.contains_key(FID_KEY_DEV_ENC) == c2.contains_key(FID_KEY_DEV_ENC));
        assert(!c1.contains_key(EF_EE_DEV));
        assert(seed::counter(c2) == 0);
    }
}

/// No reset without the user: a device that was reset asked once, and the user
/// confirmed; a refused reset changes no file.
pub proof fn law_reset_needs_touch<S: Storage, R: Rng, P: UserPresence>(
    before: &Ctx<S, R, P>,
    after: &Ctx<S, R, P>,
    t: codec::Talk,
    r: CtapResult,
)
    requires
        reset_outcome(before, after, t, r),
    ensures
        r is Ok ==> after.last_touch() == Presence::Confirmed,
        after.last_touch() != Presence::Confirmed ==> after.fs.contents() == before.fs.contents(),
{
}

/// After a reset the on-device view shows the reset, behind it the boot where
/// this power cycle had no entry yet, and nothing of what came before.
pub proof fn law_reset_hides_history<S: Storage, R: Rng, P: UserPresence>(
    before: &Ctx<S, R, P>,
    after: &Ctx<S, R, P>,
)
    requires
        handed_over(before, after),
    ensures
        ({
            let d = after.fs.contents();
            let f = journal::meta_in(before.dev, d);
            let shown = journal::newest_first(d, f.start, journal::live(f));
            &&& shown.len() == journal::event_entries(before.state.audit_boot_logged)
            &&& shown[0].event == EV_RESET
            &&& !before.state.audit_boot_logged ==> shown[1].event == EV_BOOT
        }),
{
    let d = after.fs.contents();
    let n = journal::meta_in(before.dev, before.fs.contents()).seq_next;
    let now = before.now_ms as int;
    let f = journal::meta_in(before.dev, d);
    journal::law_window_bounded(before.dev, before.fs.contents());
    let k = journal::event_entries(before.state.audit_boot_logged);
    assert(journal::live(f) == k);
    assert(journal::wadd(n, 0) == n);
    let last = journal::wadd(n, k - 1);
    assert(journal::entry_of(last, now, EV_RESET, 0, Seq::empty())[8] == EV_RESET);
    assert(journal::entry_of(n, now, EV_BOOT, 0, Seq::empty())[8] == EV_BOOT);
    reveal_with_fuel(journal::newest_first, 3);
}

/// A reset that succeeds leaves no PIN, no token, no policy, no lock, and no slot
/// of a credential, a relying party or a name among the files that it lists; and
/// the session is forgotten.
pub proof fn law_reset_forgets<S: Storage, R: Rng, P: UserPresence>(
    before: &Ctx<S, R, P>,
    after: &Ctx<S, R, P>,
    t: codec::Talk,
    fid: u16,
)
    requires
        reset_outcome(before, after, t, Ok::<usize, CtapError>(0)),
        before.fs.listed().contains(fid),
        fid == EF_PIN || fid == EF_AUTHTOKEN || fid == EF_PAUTHTOKEN || fid == EF_MINPINLEN || fid
            == EF_EA_ENABLED || fid == EF_ALWAYS_UV || fid == EF_DEVICE_PIN || fid
            == EF_BACKUP_SEALED || fid == EF_CRED_CTR || fid == FID_KEY_DEV_ENC || (EF_CRED <= fid
            < EF_CRED + 256) || (EF_RP <= fid < EF_RP + 256) || (EF_RPNICK <= fid < EF_RPNICK
            + 256),
    ensures
        !after.fs.contents().contains_key(fid),
        after.last_touch() == Presence::Confirmed,
        after.state.paut.permissions == 0 && !after.state.paut.in_use,
        !after.state.mse_active,
        after.state.keydev_dec is None,
{
}

}
