//! `authenticatorSelection`: a touch confirms that this is the authenticator to
//! use.

use vstd::prelude::*;

use crate::fido::error::{CtapError, CtapResult};
use crate::fido::{Ctx, Presence, Rng, UserPresence};
use crate::fs::Storage;
use crate::sdk;
use crate::sdk::Confirm;

verus! {

/// What the outcome of the touch is answered with.
pub open spec fn selection_of(p: Presence) -> CtapResult {
    match p {
        Presence::Confirmed => Ok(0),
        Presence::Timeout => Err(CtapError::UserActionTimeout),
        Presence::Declined => Err(CtapError::OperationDenied),
        Presence::Cancelled => Err(CtapError::KeepAliveCancel),
    }
}

/// Answers the outcome of the touch.
pub fn selection_result(p: Presence) -> (r: CtapResult)
    ensures
        r == selection_of(p),
{
    match p {
        Presence::Confirmed => Ok(0),
        Presence::Timeout => Err(CtapError::UserActionTimeout),
        Presence::Declined => Err(CtapError::OperationDenied),
        Presence::Cancelled => Err(CtapError::KeepAliveCancel),
    }
}

/// The outcome of a selection: that of the touch, and nothing else changed.
pub open spec fn selection_outcome<S: Storage, R: Rng, P: UserPresence>(
    before: &Ctx<S, R, P>,
    after: &Ctx<S, R, P>,
    r: CtapResult,
) -> bool {
    &&& after.asked(before)
    &&& after.prompted(before, sdk::action("Use this key?"@, ""@))
    &&& r == selection_of(after.last_touch())
}

/// `authenticatorSelection`: waits for a touch; there is no answer beside the
/// status.
pub fn selection<S: Storage, R: Rng, P: UserPresence>(ctx: &mut Ctx<S, R, P>) -> (r: CtapResult)
    ensures
        selection_outcome(old(ctx), final(ctx), r),
{
    let p: Presence = ctx.presence.request(Confirm::titled("Use this key?"));
    selection_result(p)
}

/// A selection is answered by what the user did: success for a touch, and a
/// status of its own for a timeout, a refusal and a cancellation.
pub proof fn law_selection_tells_touch<S: Storage, R: Rng, P: UserPresence>(
    before: &Ctx<S, R, P>,
    after: &Ctx<S, R, P>,
    r: CtapResult,
)
    requires
        selection_outcome(before, after, r),
    ensures
        r is Ok <==> after.last_touch() == Presence::Confirmed,
        after.last_touch() == Presence::Timeout <==> r == Err::<usize, CtapError>(
            CtapError::UserActionTimeout,
        ),
        after.last_touch() == Presence::Declined <==> r == Err::<usize, CtapError>(
            CtapError::OperationDenied,
        ),
        after.last_touch() == Presence::Cancelled <==> r == Err::<usize, CtapError>(
            CtapError::KeepAliveCancel,
        ),
{
}

}
