//! The dispatch of CTAP2 messages.

use vstd::prelude::*;
use vstd::slice::slice_subrange;

use crate::cborvalue;
use crate::cborvalue::Value;
use crate::fido::codec;
use crate::fido::codec::{Codec, Recorded};
use crate::fido::consts::{
    CTAP_CLIENT_PIN, CTAP_CONFIG, CTAP_CREDENTIAL_MGMT, CTAP_GET_ASSERTION, CTAP_GET_INFO,
    CTAP_GET_NEXT_ASSERTION, CTAP_LARGE_BLOBS, CTAP_MAKE_CREDENTIAL, CTAP_RESET, CTAP_SELECTION,
    CTAP_VENDOR, EF_ALWAYS_UV, EF_EA_ENABLED, EF_MINPINLEN, EF_PIN,
};
use crate::fido::error;
use crate::fido::error::{CtapError, CtapResult, CTAP2_OK};
use crate::fido::frame;
use crate::fido::getinfo;
use crate::fido::getinfo::get_info_of;
use crate::fido::largeblobs;
use crate::fido::largeblobs::large_blobs;
use crate::fido::makecredential;
use crate::fido::makecredential::{make_credential, Profile};
use crate::fido::reply;
use crate::fido::reply::deliver;
use crate::fido::reset;
use crate::fido::seed;
use crate::fido::selection;
use crate::fido::slots;
use crate::fido::slots::remaining_discoverable;
use crate::fido::state::FidoState;
use crate::fido::vendor;
use crate::fido::{Ctx, Rng, UserPresence};
use crate::fs::Storage;

verus! {

/// The commands beside those of this library: assertions, the client PIN, the
/// configuration and the management of credentials. What an implementation
/// answers is its own; it leaves the authenticator well formed.
pub trait Commands {
    /// Runs one of the commands; the response, or the refusal.
    fn run<S: Storage, R: Rng, P: UserPresence>(
        &mut self,
        ctx: &mut Ctx<S, R, P>,
        cmd: u8,
        params: &[u8],
    ) -> (r: Result<Vec<u8>, CtapError>)
        requires
            old(ctx).wf(),
        ensures
            final(ctx).wf(),
    ;
}

/// No further commands: each is refused as unknown.
pub struct NoCommands;

impl Commands for NoCommands {
    fn run<S: Storage, R: Rng, P: UserPresence>(
        &mut self,
        ctx: &mut Ctx<S, R, P>,
        cmd: u8,
        params: &[u8],
    ) -> (r: Result<Vec<u8>, CtapError>)
        ensures
            r == Err::<Vec<u8>, CtapError>(CtapError::InvalidCommand),
            *final(ctx) == *old(ctx),
    {
        Err(CtapError::InvalidCommand)
    }
}

/// One run of a command: the command and its parameters, the files and the state
/// that it found and left, and what it answered.
pub struct Run {
    pub cmd: u8,
    pub params: Seq<u8>,
    pub files_before: Map<u16, Seq<u8>>,
    pub state_before: FidoState,
    pub files_after: Map<u16, Seq<u8>>,
    pub state_after: FidoState,
    pub answer: Result<Seq<u8>, CtapError>,
}

/// What a command answered.
pub open spec fn seen_answer(r: Result<Vec<u8>, CtapError>) -> Result<Seq<u8>, CtapError> {
    match r {
        Ok(v) => Ok(v@),
        Err(e) => Err(e),
    }
}

/// Further commands with the record of their runs.
pub struct Logged<M: Commands> {
    commands: M,
    runs: Ghost<Seq<Run>>,
}

impl<M: Commands> Logged<M> {
    /// The runs so far, in order.
    pub closed spec fn runs(&self) -> Seq<Run> {
        self.runs@
    }

    /// Starts the record.
    pub fn new(commands: M) -> (r: Self)
        ensures
            r.runs() == Seq::<Run>::empty(),
    {
        Logged { commands, runs: Ghost(Seq::empty()) }
    }

    /// Runs one of the commands.
    pub fn run<S: Storage, R: Rng, P: UserPresence>(
        &mut self,
        ctx: &mut Ctx<S, R, P>,
        cmd: u8,
        params: &[u8],
    ) -> (r: Result<Vec<u8>, CtapError>)
        requires
            old(ctx).wf(),
        ensures
            final(ctx).wf(),
            final(self).runs() == old(self).runs().push(
                run_of(old(ctx), final(ctx), cmd, params@, seen_answer(r)),
            ),
    {
        let ghost before = *ctx;
        let r: Result<Vec<u8>, CtapError> = self.commands.run(ctx, cmd, params);
        self.runs = Ghost(
            self.runs@.push(run_of(&before, ctx, cmd, params@, seen_answer(r))),
        );
        r
    }
}

/// The run of a command between two contexts.
pub open spec fn run_of<S: Storage, R: Rng, P: UserPresence>(
    before: &Ctx<S, R, P>,
    after: &Ctx<S, R, P>,
    cmd: u8,
    params: Seq<u8>,
    answer: Result<Seq<u8>, CtapError>,
) -> Run {
    Run {
        cmd,
        params,
        files_before: before.fs.contents(),
        state_before: before.state,
        files_after: after.fs.contents(),
        state_after: after.state,
        answer,
    }
}

/// The runs before and after a message.
pub struct Runs {
    pub before: Seq<Run>,
    pub after: Seq<Run>,
}

// ---- getInfo ----
/// The minimum PIN length and whether a change is forced: what is configured,
/// otherwise the `floor` of the build.
pub open spec fn pin_policy(c: Map<u16, Seq<u8>>, floor: u8) -> (u8, bool) {
    if c.contains_key(EF_MINPINLEN) && c[EF_MINPINLEN].len() >= 1 {
        (c[EF_MINPINLEN][0], c[EF_MINPINLEN].len() >= 2 && c[EF_MINPINLEN][1] == 1)
    } else {
        (floor, false)
    }
}

/// The answer of a build to getInfo, where `dynamic` files are registered and the
/// presence source can or cannot collect a PIN.
pub open spec fn info_reply(
    profile: Profile,
    f: slots::Files,
    dynamic: int,
    builtin_uv: bool,
) -> Seq<u8> {
    getinfo::info_of(
        profile,
        seed::holds(f.contents, EF_PIN),
        pin_policy(f.contents, profile.min_pin_len).0,
        pin_policy(f.contents, profile.min_pin_len).1,
        seed::holds(f.contents, EF_EA_ENABLED),
        seed::holds(f.contents, EF_ALWAYS_UV),
        builtin_uv,
        slots::remaining_of(f, dynamic) as u16,
    )
}

/// The outcome of getInfo: the answer for what the presence source said, when it
/// was asked once whether it can collect a PIN.
pub open spec fn info_outcome<S: Storage, R: Rng, P: UserPresence>(
    before: &Ctx<S, R, P>,
    after: &Ctx<S, R, P>,
    profile: Profile,
    out_before: Seq<u8>,
    out_after: Seq<u8>,
    r: CtapResult,
) -> bool {
    &&& frame::untouched(before, after)
    &&& after.unasked(before)
    &&& after.presence.offers() == before.presence.offers().push(after.presence.offers().last())
    &&& reply::delivered(
        out_before,
        out_after,
        info_reply(
            profile,
            slots::files(&before.fs),
            before.fs.dynamic().len() as int,
            after.presence.offers().last(),
        ),
        r,
    )
}

fn run_get_info<S: Storage, R: Rng, P: UserPresence>(
    ctx: &mut Ctx<S, R, P>,
    profile: Profile,
    out: &mut [u8],
) -> (r: CtapResult)
    requires
        old(ctx).wf(),
    ensures
        final(ctx).wf(),
        final(out)@.len() == old(out)@.len(),
        r matches Ok(n) ==> n <= old(out)@.len(),
        info_outcome(old(ctx), final(ctx), profile, old(out)@, final(out)@, r),
{
    let ghost f = slots::files(&ctx.fs);
    let (min_pin, force) = match ctx.fs.read_upto(EF_MINPINLEN, 2) {
        Some(b) => if b.len() >= 1 {
            (b[0], b.len() >= 2 && b[1] == 1)
        } else {
            (profile.min_pin_len, false)
        },
        None => (profile.min_pin_len, false),
    };
    assert((min_pin, force) == pin_policy(f.contents, profile.min_pin_len));
    assert(slots::files(&ctx.fs) == f);
    let remaining: u16 = remaining_discoverable(&mut ctx.fs);
    let pin_set: bool = ctx.fs.has_data(EF_PIN);
    let ea: bool = ctx.fs.has_data(EF_EA_ENABLED);
    let always_uv: bool = ctx.fs.has_data(EF_ALWAYS_UV);
    let uv: bool = ctx.presence.uv_available();
    let r: CtapResult = get_info_of(
        profile,
        pin_set,
        min_pin,
        force,
        ea,
        always_uv,
        uv,
        remaining,
        out,
    );
    assert(reply::delivered(
        old(out)@,
        out@,
        info_reply(profile, f, old(ctx).fs.dynamic().len() as int, uv),
        r,
    ));
    r
}

// ---- dispatch ----
/// The command is one of those that this library leaves to others.
pub open spec fn elsewhere(cmd: u8) -> bool {
    cmd == CTAP_GET_ASSERTION || cmd == CTAP_GET_NEXT_ASSERTION || cmd == CTAP_CLIENT_PIN || cmd
        == CTAP_CONFIG || cmd == CTAP_CREDENTIAL_MGMT
}

/// What another command answered is handed on: its refusal, or its response
/// where it fits.
pub open spec fn handed_on(
    out_before: Seq<u8>,
    out_after: Seq<u8>,
    answer: Result<Seq<u8>, CtapError>,
    r: CtapResult,
) -> bool {
    match answer {
        Ok(v) => reply::delivered(out_before, out_after, v, r),
        Err(e) => r == Err::<usize, CtapError>(e) && out_after == out_before,
    }
}

/// The outcome of a command. One that is left to others runs once, with the
/// parameters of the message, and its answer is handed on; no other command runs
/// there.
pub open spec fn command_outcome<S: Storage, R: Rng, P: UserPresence>(
    before: &Ctx<S, R, P>,
    after: &Ctx<S, R, P>,
    t: codec::Talk,
    runs: Runs,
    profile: Profile,
    cmd: u8,
    params: Seq<u8>,
    out_before: Seq<u8>,
    out_after: Seq<u8>,
    r: CtapResult,
) -> bool {
    &&& !elsewhere(cmd) ==> runs.after == runs.before
    &&& own_outcome(before, after, t, runs, profile, cmd, params, out_before, out_after, r)
}

/// The outcome of a command, by its byte.
pub open spec fn own_outcome<S: Storage, R: Rng, P: UserPresence>(
    before: &Ctx<S, R, P>,
    after: &Ctx<S, R, P>,
    t: codec::Talk,
    runs: Runs,
    profile: Profile,
    cmd: u8,
    params: Seq<u8>,
    out_before: Seq<u8>,
    out_after: Seq<u8>,
    r: CtapResult,
) -> bool {
    if cmd == CTAP_GET_INFO {
        info_outcome(before, after, profile, out_before, out_after, r)
    } else if cmd == CTAP_MAKE_CREDENTIAL {
        makecredential::outcome(before, after, t, profile, params, out_before, out_after, r)
    } else if cmd == CTAP_RESET {
        reset::reset_outcome(before, after, t, r) && out_after == out_before
    } else if cmd == CTAP_SELECTION {
        selection::selection_outcome(before, after, r) && out_after == out_before
    } else if cmd == CTAP_LARGE_BLOBS {
        largeblobs::outcome(before, after, params, out_before, out_after, r)
    } else if cmd == CTAP_VENDOR {
        vendor::outcome(before, after, t, profile.fips, params, out_before, out_after, r)
    } else if elsewhere(cmd) {
        let answer = runs.after.last().answer;
        &&& runs.after == runs.before.push(run_of(before, after, cmd, params, answer))
        &&& handed_on(out_before, out_after, answer, r)
    } else {
        &&& r == Err::<usize, CtapError>(CtapError::InvalidCommand)
        &&& *after == *before
        &&& out_after == out_before
    }
}

fn run_command<S: Storage, R: Rng, P: UserPresence, C: Codec, M: Commands>(
    ctx: &mut Ctx<S, R, P>,
    codec: &mut Recorded<C>,
    commands: &mut Logged<M>,
    profile: Profile,
    cmd: u8,
    params: &[u8],
    out: &mut [u8],
) -> (r: CtapResult)
    requires
        old(ctx).wf(),
    ensures
        final(ctx).wf(),
        final(out)@.len() == old(out)@.len(),
        r matches Ok(n) ==> n <= old(out)@.len(),
        command_outcome(
            old(ctx),
            final(ctx),
            codec::talk(old(codec), final(codec)),
            Runs { before: old(commands).runs(), after: final(commands).runs() },
            profile,
            cmd,
            params@,
            old(out)@,
            final(out)@,
            r,
        ),
        codec::talk(old(codec), final(codec)).wf(),
{
    assert(codec.asked().take(codec.asked().len() as int) =~= codec.asked());
    match cmd {
        CTAP_GET_INFO => run_get_info(ctx, profile, out),
        CTAP_MAKE_CREDENTIAL => make_credential(ctx, codec, profile, params, out),
        CTAP_RESET => reset::reset(ctx, codec),
        CTAP_SELECTION => selection::selection(ctx),
        CTAP_LARGE_BLOBS => large_blobs(ctx, params, out),
        CTAP_VENDOR => vendor::vendor(ctx, codec, profile.fips, params, out),
        _ => {
            if cmd == CTAP_GET_ASSERTION || cmd == CTAP_GET_NEXT_ASSERTION || cmd
                == CTAP_CLIENT_PIN || cmd == CTAP_CONFIG || cmd == CTAP_CREDENTIAL_MGMT {
                let answer: Result<Vec<u8>, CtapError> = commands.run(ctx, cmd, params);
                let r: CtapResult = match &answer {
                    Ok(v) => deliver(out, v.as_slice()),
                    Err(e) => Err(*e),
                };
                assert(handed_on(old(out)@, out@, seen_answer(answer), r));
                r
            } else {
                Err(CtapError::InvalidCommand)
            }
        },
    }
}

/// The status byte of an outcome.
pub open spec fn status_of(r: CtapResult) -> u8 {
    match r {
        Ok(_) => CTAP2_OK,
        Err(e) => error::status(e),
    }
}

/// The length of a message with an outcome: the status byte, and the response
/// where there is one.
pub open spec fn message_len(r: CtapResult) -> int {
    match r {
        Ok(n) => 1 + n,
        Err(_) => 1,
    }
}

/// The outcome of a message: without room for a status nothing happens; an
/// empty message is of invalid length; otherwise the command behind the first
/// byte runs, and its status stands before its response.
pub open spec fn message_outcome<S: Storage, R: Rng, P: UserPresence>(
    before: &Ctx<S, R, P>,
    after: &Ctx<S, R, P>,
    t: codec::Talk,
    runs: Runs,
    profile: Profile,
    data: Seq<u8>,
    out_before: Seq<u8>,
    out_after: Seq<u8>,
    n: int,
) -> bool {
    if out_before.len() == 0 {
        n == 0 && *after == *before && runs.after == runs.before
    } else if data.len() == 0 {
        &&& n == 1
        &&& *after == *before
        &&& runs.after == runs.before
        &&& out_after == out_before.update(0, error::status(CtapError::InvalidLength))
    } else {
        exists|r: CtapResult|
            {
                &&& #[trigger] command_outcome(
                    before,
                    after,
                    t,
                    runs,
                    profile,
                    data[0],
                    data.skip(1),
                    out_before.skip(1),
                    out_after.skip(1),
                    r,
                )
                &&& out_after[0] == status_of(r)
                &&& n == message_len(r)
            }
    }
}

/// Runs one message, a command byte and its parameters: writes the status byte
/// and the response at the front of `out` and returns the length.
pub fn process_cbor<S: Storage, R: Rng, P: UserPresence, C: Codec, M: Commands>(
    ctx: &mut Ctx<S, R, P>,
    codec: &mut Recorded<C>,
    commands: &mut Logged<M>,
    profile: Profile,
    data: &[u8],
    out: &mut [u8],
) -> (n: usize)
    requires
        old(ctx).wf(),
    ensures
        final(ctx).wf(),
        final(out)@.len() == old(out)@.len(),
        n <= old(out)@.len(),
        message_outcome(
            old(ctx),
            final(ctx),
            codec::talk(old(codec), final(codec)),
            Runs { before: old(commands).runs(), after: final(commands).runs() },
            profile,
            data@,
            old(out)@,
            final(out)@,
            n as int,
        ),
        codec::talk(old(codec), final(codec)).wf(),
{
    assert(codec.asked().take(codec.asked().len() as int) =~= codec.asked());
    if out.len() == 0 {
        return 0;
    }
    let ghost out0 = out@;
    if data.len() == 0 {
        out[0] = CtapError::InvalidLength.as_u8();
        return 1;
    }
    let len: usize = data.len();
    let params: &[u8] = slice_subrange(data, 1, len);
    assert(params@ =~= data@.skip(1));
    let (head, body) = out.split_at_mut(1);
    assert(body@ =~= out0.skip(1));
    let r: CtapResult = run_command(ctx, codec, commands, profile, data[0], params, body);
    let ghost body_after = body@;
    head[0] =
    match r {
        Ok(_) => CTAP2_OK,
        Err(e) => e.as_u8(),
    };
    let n: usize = match r {
        Ok(n) => 1 + n,
        Err(_) => 1,
    };
    assert(out@.skip(1) =~= body_after);
    assert(command_outcome(
        old(ctx),
        ctx,
        codec::talk(old(codec), codec),
        Runs { before: old(commands).runs(), after: commands.runs() },
        profile,
        data@[0],
        data@.skip(1),
        out0.skip(1),
        out@.skip(1),
        r,
    ));
    n
}

/// What getInfo tells of a device, decoded: whether a PIN is set, whether
/// enterprise attestation and the verification of every request are on, whether a
/// PIN change is forced, the shortest PIN and the number of free slots, each from
/// its own file.
pub proof fn law_info_tells_device<S: Storage, R: Rng, P: UserPresence>(
    before: &Ctx<S, R, P>,
    after: &Ctx<S, R, P>,
    profile: Profile,
    out_before: Seq<u8>,
    out_after: Seq<u8>,
    n: usize,
)
    requires
        info_outcome(before, after, profile, out_before, out_after, Ok::<usize, CtapError>(n)),
        out_before.len() <= usize::MAX,
    ensures
        ({
            let c = before.fs.contents();
            let info = cborvalue::decoded(out_after.take(n as int));
            let options = cborvalue::at(info, 0x04)->0;
            let policy = c.contains_key(EF_MINPINLEN) && c[EF_MINPINLEN].len() > 0;
            &&& cborvalue::at(info, 0x04) is Some
            &&& cborvalue::named(options, "clientPin"@) == Some(
                Value::Bool(seed::holds(c, EF_PIN)),
            )
            &&& cborvalue::named(options, "ep"@) == Some(
                Value::Bool(seed::holds(c, EF_EA_ENABLED)),
            )
            &&& cborvalue::named(options, "alwaysUv"@) == Some(
                Value::Bool(seed::holds(c, EF_ALWAYS_UV)),
            )
            &&& cborvalue::named(options, "uv"@) == if after.presence.offers().last() {
                Some(Value::Bool(seed::holds(c, EF_PIN)))
            } else {
                None
            }
            &&& cborvalue::at(info, 0x0C) == Some(
                Value::Bool(policy && c[EF_MINPINLEN].len() > 1 && c[EF_MINPINLEN][1] == 1),
            )
            &&& cborvalue::at(info, 0x0D) == Some(
                Value::Int(
                    if policy {
                        c[EF_MINPINLEN][0] as int
                    } else {
                        profile.min_pin_len as int
                    },
                ),
            )
            &&& 0 <= slots::remaining_of(
                slots::files(&before.fs),
                before.fs.dynamic().len() as int,
            ) <= u16::MAX ==> cborvalue::at(info, 0x14) == Some(
                Value::Int(
                    slots::remaining_of(
                        slots::files(&before.fs),
                        before.fs.dynamic().len() as int,
                    ),
                ),
            )
        }),
{
    let f = slots::files(&before.fs);
    let dynamic = before.fs.dynamic().len() as int;
    let uv = after.presence.offers().last();
    let x = info_reply(profile, f, dynamic, uv);
    assert(out_after.take(n as int) =~= x);
    getinfo::law_info_says(
        profile,
        seed::holds(f.contents, EF_PIN),
        pin_policy(f.contents, profile.min_pin_len).0,
        pin_policy(f.contents, profile.min_pin_len).1,
        seed::holds(f.contents, EF_EA_ENABLED),
        seed::holds(f.contents, EF_ALWAYS_UV),
        uv,
        slots::remaining_of(f, dynamic) as u16,
    );
}

/// The first byte of a message is its command and the rest its parameters. The
/// answer starts with the status, zero exactly where the command succeeded; a
/// command that is not known, and an empty message, are refused and change
/// nothing.
pub proof fn law_message<S: Storage, R: Rng, P: UserPresence>(
    before: &Ctx<S, R, P>,
    after: &Ctx<S, R, P>,
    t: codec::Talk,
    runs: Runs,
    profile: Profile,
    data: Seq<u8>,
    out_before: Seq<u8>,
    out_after: Seq<u8>,
    n: int,
)
    requires
        message_outcome(
            before,
            after,
            t,
            runs,
            profile,
            data,
            out_before,
            out_after,
            n,
        ),
        out_before.len() > 0,
        out_after.len() == out_before.len(),
    ensures
        data.len() == 0 ==> n == 1 && out_after[0] == 0x03 && *after == *before,
        data.len() > 0 && data[0] != 0x01 && data[0] != 0x02 && data[0] != 0x04 && data[0] != 0x06
            && data[0] != 0x07 && data[0] != 0x08 && data[0] != 0x0a && data[0] != 0x0b && data[0]
            != 0x0c && data[0] != 0x0d && data[0] != 0x41 ==> n == 1 && out_after[0] == 0x01
            && *after == *before,
        data.len() > 0 && out_after[0] != 0x00 ==> n == 1,
        data.len() > 0 && (data[0] == 0x02 || data[0] == 0x06 || data[0] == 0x08 || data[0] == 0x0a
            || data[0] == 0x0d) ==> runs.after.len() == runs.before.len() + 1
            && runs.after.last().cmd == data[0] && runs.after.last().params == data.skip(1) && (
        runs.after.last().answer is Err ==> out_after[0] != 0x00),
        data.len() > 0 && data[0] != 0x02 && data[0] != 0x06 && data[0] != 0x08 && data[0] != 0x0a
            && data[0] != 0x0d ==> runs.after == runs.before,
        data.len() > 0 && data[0] == 0x04 ==> exists|r: CtapResult| #[trigger]
            info_outcome(before, after, profile, out_before.skip(1), out_after.skip(1), r) && (
            out_after[0] == 0x00 <==> r is Ok),
        data.len() > 0 && data[0] == 0x01 ==> exists|r: CtapResult| #[trigger]
            makecredential::outcome(
                before,
                after,
                t,
                profile,
                data.skip(1),
                out_before.skip(1),
                out_after.skip(1),
                r,
            ) && (out_after[0] == 0x00 <==> r is Ok),
        data.len() > 0 && data[0] == 0x07 ==> exists|r: CtapResult| #[trigger]
            reset::reset_outcome(before, after, t, r) && (out_after[0] == 0x00 <==> r is Ok),
        data.len() > 0 && data[0] == 0x0b ==> exists|r: CtapResult| #[trigger]
            selection::selection_outcome(before, after, r) && (out_after[0] == 0x00 <==> r is Ok),
        data.len() > 0 && data[0] == 0x0c ==> exists|r: CtapResult| #[trigger]
            largeblobs::outcome(
                before,
                after,
                data.skip(1),
                out_before.skip(1),
                out_after.skip(1),
                r,
            ) && (out_after[0] == 0x00 <==> r is Ok),
        data.len() > 0 && data[0] == 0x41 ==> exists|r: CtapResult| #[trigger]
            vendor::outcome(
                before,
                after,
                t,
                profile.fips,
                data.skip(1),
                out_before.skip(1),
                out_after.skip(1),
                r,
            ) && (out_after[0] == 0x00 <==> r is Ok),
{
    if data.len() > 0 {
        let r = choose|r: CtapResult|
            {
                &&& #[trigger] command_outcome(
                    before,
                    after,
                    t,
                    runs,
                    profile,
                    data[0],
                    data.skip(1),
                    out_before.skip(1),
                    out_after.skip(1),
                    r,
                )
                &&& out_after[0] == status_of(r)
                &&& n == message_len(r)
            };
        assert(status_of(r) == 0x00 <==> r is Ok);
    }
}

}
