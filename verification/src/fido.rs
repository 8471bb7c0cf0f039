//! The FIDO2 (CTAP2) and U2F (CTAP1) authenticator. The logic is free of
//! globals: the device seed, serial, random source and flash come from the
//! caller in a [`Ctx`].

use vstd::prelude::*;

use crate::crypto;
use crate::fido::consts::FID_KEY_DEV;
use crate::fido::device::Device;
use crate::fido::error::CtapError;
use crate::fido::state::FidoState;
use crate::fs::{Fs, Storage};
use crate::sdk;
use crate::sdk::Confirm;

pub mod attobject;
pub mod cbordec;
pub mod cert;
pub mod channel;
pub mod codec;
pub mod consts;
pub mod device;
pub mod dispatch;
pub mod error;
pub mod frame;
pub mod getinfo;
pub mod hmacsecret;
pub mod journal;
pub mod keyderiv;
pub mod largeblobs;
pub mod makecredential;
pub mod mclaws;
pub mod mcrequest;
pub mod newcred;
pub mod passkeys;
pub mod pinproto;
pub mod reply;
pub mod reset;
pub mod seed;
pub mod selection;
pub mod slots;
pub mod state;
pub mod u2f;
pub mod vendor;
pub mod vendorreq;

verus! {

/// A source of random bytes.
pub trait Rng {
    /// Overwrites `buf` with random bytes.
    fn fill(&mut self, buf: &mut [u8])
        ensures
            final(buf)@.len() == old(buf)@.len(),
    ;
}

/// A random source with the record of what was drawn from it.
pub struct Drawn<R: Rng> {
    source: R,
    drawn: Ghost<Seq<Seq<u8>>>,
}

impl<R: Rng> Drawn<R> {
    /// The draws so far, in order.
    pub closed spec fn drawn(&self) -> Seq<Seq<u8>> {
        self.drawn@
    }

    /// Starts the record of a source.
    pub fn new(source: R) -> (r: Self)
        ensures
            r.drawn() == Seq::<Seq<u8>>::empty(),
    {
        Drawn { source, drawn: Ghost(Seq::empty()) }
    }

    /// Overwrites `buf` with random bytes.
    pub fn fill(&mut self, buf: &mut [u8])
        ensures
            final(buf)@.len() == old(buf)@.len(),
            final(self).drawn() == old(self).drawn().push(final(buf)@),
    {
        self.source.fill(buf);
        self.drawn = Ghost(self.drawn@.push(buf@));
    }
}

/// Outcome of asking for physical user presence.
#[derive(Debug, Clone, Copy, PartialEq, Eq, Structural)]
pub enum Presence {
    /// The user touched the device.
    Confirmed,
    /// No touch within the timeout.
    Timeout,
    /// The user actively declined.
    Declined,
    /// The platform cancelled while the touch was awaited.
    Cancelled,
}

/// Outcome of collecting a PIN on the device's own UI.
#[derive(Debug, Clone, Copy, PartialEq, Eq, Structural)]
pub enum PinEntry {
    /// The user committed a PIN of this many ASCII-digit bytes.
    Entered(usize),
    /// The user declined on the pad.
    Declined,
    /// No completed entry within the timeout.
    Timeout,
    /// The platform cancelled while the pad was up.
    Cancelled,
    /// There is no on-device UI to collect a PIN.
    Unsupported,
}

/// Obtains physical user presence.
pub trait UserPresence {
    /// Asks for presence; `confirm` describes the pending operation for a
    /// trusted display.
    fn request(&mut self, confirm: Confirm<'_>) -> Presence;

    /// Whether a PIN can be collected on the device's own UI.
    fn uv_available(&self) -> (r: bool)
        default_ensures
            !r,
    {
        false
    }

    /// Collects a PIN of at least `min_len` digits on the device's own UI.
    fn collect_pin(&mut self, min_len: usize, out: &mut [u8]) -> (r: PinEntry)
        default_ensures
            r == PinEntry::Unsupported,
    {
        PinEntry::Unsupported
    }
}

/// A [`UserPresence`] without a button, which confirms instantly and has no UI
/// to collect a PIN.
pub struct AlwaysConfirm;

impl UserPresence for AlwaysConfirm {
    fn request(&mut self, confirm: Confirm<'_>) -> (r: Presence)
        ensures
            r == Presence::Confirmed,
    {
        Presence::Confirmed
    }
}

/// A request for presence with its outcome.
pub struct Touch {
    pub prompt: sdk::Prompt,
    pub outcome: Presence,
}

/// A source of presence with the record of what it was asked.
pub struct Watched<P: UserPresence> {
    source: P,
    seen: Ghost<Seq<Touch>>,
    offers: Ghost<Seq<bool>>,
}

impl<P: UserPresence> Watched<P> {
    /// The requests so far, in order, with their outcomes.
    pub closed spec fn seen(&self) -> Seq<Touch> {
        self.seen@
    }

    /// What the source said, in order, when it was asked whether it can collect
    /// a PIN.
    pub closed spec fn offers(&self) -> Seq<bool> {
        self.offers@
    }

    /// Starts the record of a source.
    pub fn new(source: P) -> (r: Self)
        ensures
            r.seen() == Seq::<Touch>::empty(),
            r.offers() == Seq::<bool>::empty(),
    {
        Watched { source, seen: Ghost(Seq::empty()), offers: Ghost(Seq::empty()) }
    }

    /// Asks for presence.
    pub fn request(&mut self, confirm: Confirm<'_>) -> (r: Presence)
        ensures
            final(self).seen() == old(self).seen().push(
                Touch { prompt: confirm@, outcome: r },
            ),
            final(self).offers() == old(self).offers(),
    {
        let r: Presence = self.source.request(confirm);
        self.seen = Ghost(self.seen@.push(Touch { prompt: confirm@, outcome: r }));
        r
    }

    /// The source itself.
    pub closed spec fn inner(&self) -> P {
        self.source
    }

    /// The source.
    pub fn source(&self) -> (r: &P)
        ensures
            *r == self.inner(),
    {
        &self.source
    }

    /// Asks whether a PIN can be collected on the device's own UI.
    pub fn uv_available(&mut self) -> (r: bool)
        ensures
            final(self).offers() == old(self).offers().push(r),
            final(self).seen() == old(self).seen(),
    {
        let r: bool = self.source.uv_available();
        self.offers = Ghost(self.offers@.push(r));
        r
    }
}

/// What a command runs with: the device identity, the flash file system, a
/// random source, the state between commands, the uptime and the source of
/// physical presence.
pub struct Ctx<S: Storage, R: Rng, P: UserPresence> {
    pub dev: Device,
    pub fs: Fs<S>,
    pub rng: Drawn<R>,
    pub state: FidoState,
    /// Uptime at request time.
    pub now_ms: u64,
    pub presence: Watched<P>,
}

/// The refusal that an outcome of the presence request stands for.
pub open spec fn presence_refusal(p: Presence) -> Option<CtapError> {
    match p {
        Presence::Confirmed => None,
        Presence::Cancelled => Some(CtapError::KeepAliveCancel),
        Presence::Timeout => Some(CtapError::OperationDenied),
        Presence::Declined => Some(CtapError::OperationDenied),
    }
}

/// Maps the outcome of a presence request to its status: a cancel aborts as
/// such, any other refusal is denied.
pub fn presence_result(p: Presence) -> (r: Result<(), CtapError>)
    ensures
        r is Ok <==> presence_refusal(p) is None,
        r matches Err(e) ==> presence_refusal(p) == Some(e),
{
    match p {
        Presence::Confirmed => Ok(()),
        Presence::Cancelled => Err(CtapError::KeepAliveCancel),
        Presence::Timeout => Err(CtapError::OperationDenied),
        Presence::Declined => Err(CtapError::OperationDenied),
    }
}

impl<S: Storage, R: Rng, P: UserPresence> Ctx<S, R, P> {
    /// The file system and the large-blob buffer are well formed.
    pub open spec fn wf(&self) -> bool {
        self.fs.wf() && self.state.lba.wf()
    }

    /// Only the presence source differs.
    pub open spec fn asked(&self, before: &Self) -> bool {
        *self == (Ctx { presence: self.presence, ..*before })
    }

    /// The outcome of the last request for presence.
    pub open spec fn last_touch(&self) -> Presence {
        self.presence.seen().last().outcome
    }

    /// Presence was asked for once since `before`, with this prompt.
    pub open spec fn prompted(&self, before: &Self, prompt: sdk::Prompt) -> bool {
        self.presence.seen() == before.presence.seen().push(
            Touch { prompt, outcome: self.last_touch() },
        )
    }

    /// No presence was asked for since `before`.
    pub open spec fn unasked(&self, before: &Self) -> bool {
        self.presence.seen() == before.presence.seen()
    }

    /// The device seed: the copy that an unlock left in memory wins over flash.
    #[verifier::opaque]
    pub open spec fn keydev(&self) -> Option<Seq<u8>> {
        match self.state.keydev_dec {
            Some(k) => Some(k@),
            None => seed::loaded(self.dev, self.fs.contents(), FID_KEY_DEV),
        }
    }

    /// The seed depends on the device, the files and the unlocked copy alone.
    pub proof fn lemma_keydev(&self, other: &Self)
        requires
            self.dev == other.dev,
            self.fs.contents() == other.fs.contents(),
            self.state.keydev_dec == other.state.keydev_dec,
        ensures
            self.keydev() == other.keydev(),
    {
        reveal(Ctx::keydev);
    }

    /// Loads the device seed. On a locked device that was not unlocked in this
    /// power cycle there is none.
    pub fn load_keydev(&mut self) -> (r: Option<[u8; 32]>)
        requires
            old(self).fs.wf(),
        ensures
            crypto::seen(r) == old(self).keydev(),
            *final(self) == (Ctx { fs: final(self).fs, ..*old(self) }),
            final(self).fs.wf(),
            final(self).fs.reread(&old(self).fs),
            final(self).keydev() == old(self).keydev(),
    {
        reveal(Ctx::keydev);
        match self.state.keydev_dec {
            Some(k) => Some(k),
            None => seed::load_keydev(&self.dev, &mut self.fs),
        }
    }

    /// Asks for a touch; anything but a confirmation is a no.
    pub fn check_user_presence(&mut self, confirm: Confirm<'_>) -> (r: bool)
        ensures
            final(self).asked(old(self)),
            final(self).prompted(old(self), confirm@),
            r == (final(self).last_touch() == Presence::Confirmed),
    {
        match self.presence.request(confirm) {
            Presence::Confirmed => true,
            _ => false,
        }
    }

    /// Asks for a touch and maps the outcome to its status.
    pub fn require_presence(&mut self, confirm: Confirm<'_>) -> (r: Result<(), CtapError>)
        ensures
            final(self).asked(old(self)),
            final(self).prompted(old(self), confirm@),
            match presence_refusal(final(self).last_touch()) {
                Some(e) => r == Err::<(), CtapError>(e),
                None => r is Ok,
            },
    {
        let p: Presence = self.presence.request(confirm);
        presence_result(p)
    }
}

/// A request for presence is refused exactly where it was not confirmed: a
/// cancellation as such, anything else as a denial.
pub proof fn law_presence_refusal(p: Presence)
    ensures
        presence_refusal(p) is None <==> p == Presence::Confirmed,
        p == Presence::Cancelled <==> presence_refusal(p) == Some(CtapError::KeepAliveCancel),
        p == Presence::Timeout || p == Presence::Declined <==> presence_refusal(p) == Some(
            CtapError::OperationDenied,
        ),
{
}

/// The seed that an unlock left in memory serves before the one in flash; without
/// one in memory it is the one in flash, if it opens.
pub proof fn law_unlocked_seed_serves<S: Storage, R: Rng, P: UserPresence>(ctx: &Ctx<S, R, P>)
    ensures
        ctx.state.keydev_dec matches Some(k) ==> ctx.keydev() == Some(k@),
        ctx.state.keydev_dec is None ==> ctx.keydev() == seed::loaded(
            ctx.dev,
            ctx.fs.contents(),
            FID_KEY_DEV,
        ),
{
    reveal(Ctx::keydev);
}

}
