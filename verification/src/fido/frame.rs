//! What a command leaves alone.

use vstd::prelude::*;

use crate::fido::state::FidoState;
use crate::fido::{Ctx, Rng, UserPresence};
use crate::fs::Storage;

verus! {

/// Only the file cache, the presence source and the random source differ, apart
/// from the given state.
pub open spec fn settled_but_drawn<S: Storage, R: Rng, P: UserPresence>(
    before: &Ctx<S, R, P>,
    after: &Ctx<S, R, P>,
    state: FidoState,
) -> bool {
    &&& *after == (Ctx { fs: after.fs, presence: after.presence, rng: after.rng, state, ..*before })
    &&& after.fs.wf()
    &&& after.fs.reread(&before.fs)
}

/// Only the file cache and the presence source differ, apart from the given
/// state. Nothing was drawn.
pub open spec fn settled<S: Storage, R: Rng, P: UserPresence>(
    before: &Ctx<S, R, P>,
    after: &Ctx<S, R, P>,
    state: FidoState,
) -> bool {
    settled_but_drawn(before, after, state) && after.rng == before.rng
}

/// Only the file cache, the presence source and the random source differ.
pub open spec fn only_drawn<S: Storage, R: Rng, P: UserPresence>(
    before: &Ctx<S, R, P>,
    after: &Ctx<S, R, P>,
) -> bool {
    settled_but_drawn(before, after, before.state)
}

/// Only the file cache and the presence source differ.
pub open spec fn untouched<S: Storage, R: Rng, P: UserPresence>(
    before: &Ctx<S, R, P>,
    after: &Ctx<S, R, P>,
) -> bool {
    settled(before, after, before.state)
}

/// The files outside the given ones are as before.
pub open spec fn kept_but(
    a: Map<u16, Seq<u8>>,
    b: Map<u16, Seq<u8>>,
    but: spec_fn(u16) -> bool,
) -> bool {
    forall|g: u16|
        !but(g) ==> (#[trigger] b.contains_key(g) == a.contains_key(g) && (b.contains_key(g)
            ==> b[g] == a[g]))
}

/// The power cycle counts as opened in the journal, and beside that only the
/// files and the presence source differ from the given state; the files outside
/// the given ones are as before. Nothing was drawn.
pub open spec fn logged<S: Storage, R: Rng, P: UserPresence>(
    before: &Ctx<S, R, P>,
    after: &Ctx<S, R, P>,
    state: FidoState,
    but: spec_fn(u16) -> bool,
) -> bool {
    logged_but_drawn(before, after, state, but) && after.rng == before.rng
}

/// The power cycle counts as opened in the journal, and beside that only the
/// files, the presence source and the random source differ from the given
/// state; the files outside the given ones are as before.
pub open spec fn logged_but_drawn<S: Storage, R: Rng, P: UserPresence>(
    before: &Ctx<S, R, P>,
    after: &Ctx<S, R, P>,
    state: FidoState,
    but: spec_fn(u16) -> bool,
) -> bool {
    &&& *after == (Ctx {
        fs: after.fs,
        presence: after.presence,
        rng: after.rng,
        state: FidoState { audit_boot_logged: true, ..state },
        ..*before
    })
    &&& after.fs.wf()
    &&& kept_but(before.fs.contents(), after.fs.contents(), but)
}

}
