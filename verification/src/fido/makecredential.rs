//! `authenticatorMakeCredential`.

use vstd::prelude::*;
use vstd::slice::slice_subrange;
use vstd::utf8::*;

use crate::crypto;
use crate::crypto::sha256;
use crate::fido::attobject;
use crate::fido::attobject::{
    auth_data, encode_mc_extensions, encode_object, make_full_attestation, Attestation,
};
use crate::fido::codec;
use crate::fido::codec::{Ask, Codec, Recorded};
use crate::fido::consts::{
    CRED_BOX_MAX, CRED_PROT_UV_REQUIRED, EF_ALWAYS_UV, EF_COUNTER, EF_EA_ENABLED, EF_PIN,
    MIN_PIN_LENGTH, RP_ID_MAX, USER_ID_MAX, USER_NAME_MAX,
};
use crate::fido::device::Device;
use crate::fido::error::{CtapError, CtapResult};
use crate::fido::frame;
use crate::fido::journal;
use crate::fido::journal::EV_MAKE_CRED;
use crate::fido::mcrequest;
use crate::fido::mcrequest::{is_name, Request};
use crate::fido::newcred;
use crate::fido::newcred::{any_excluded, new_credential, store_resident, Job, NewCredential};
use crate::fido::pinproto;
use crate::fido::pinproto::PinProto;
use crate::fido::reply;
use crate::fido::reply::deliver;
use crate::fido::seed;
use crate::fido::seed::{bump_sign_counter, get_sign_counter};
use crate::fido::slots;
use crate::fido::slots::rp_min_pin_len;
use crate::fido::state::{FidoState, PinUvAuthToken, PERM_MC};
use crate::fido;
use crate::fido::{Ctx, Presence, Rng, UserPresence};
use crate::fs::{Fs, Storage, MAX_DYNAMIC_FILES};
use crate::sdk;
use crate::sdk::Confirm;
use crate::wipe::wipe;

verus! {

/// What a build chooses.
#[derive(Clone, Copy)]
pub struct Profile {
    /// The post-quantum algorithms are preferred where a request lists them.
    pub prefer_pqc: bool,
    /// The post-quantum algorithms are advertised.
    pub advertise_pqc: bool,
    /// The build for conformance runs: a credential is attested by its own key
    /// where nothing stronger was asked for, and EdDSA is not advertised.
    pub conformance: bool,
    /// The relying party of the conformance tool may ask for the attestation
    /// that the vendor facilitates.
    pub vendor_ea: bool,
    /// The FIPS-style profile: the seed never leaves the device, and no
    /// credential is made on secp256k1.
    pub fips: bool,
    /// The shortest PIN where none was configured.
    pub min_pin_len: u8,
}

impl Profile {
    /// The standard build: none of the choices, and the shortest PIN that CTAP
    /// allows.
    pub open spec fn usual() -> Self {
        Profile {
            prefer_pqc: false,
            advertise_pqc: false,
            conformance: false,
            vendor_ea: false,
            fips: false,
            min_pin_len: MIN_PIN_LENGTH,
        }
    }

    /// The standard build.
    pub fn standard() -> (p: Self)
        ensures
            p == Profile::usual(),
    {
        Profile {
            prefer_pqc: false,
            advertise_pqc: false,
            conformance: false,
            vendor_ea: false,
            fips: false,
            min_pin_len: MIN_PIN_LENGTH,
        }
    }
}

// ---- names ----
/// The largest end of a character that is at most `n`.
pub open spec fn cut(s: Seq<u8>, n: int) -> int
    decreases n,
{
    if n <= 0 {
        0
    } else if n >= s.len() {
        s.len() as int
    } else if is_continuation_byte(s[n]) {
        cut(s, n - 1)
    } else {
        n
    }
}

/// A text of at most `max` bytes: the longest start of `s` that ends with a
/// character.
pub open spec fn truncated(s: Seq<u8>, max: int) -> Seq<u8> {
    s.take(cut(s, max))
}

proof fn lemma_cut_bounds(s: Seq<u8>, n: int)
    ensures
        0 <= cut(s, n) <= s.len(),
        n >= 0 ==> cut(s, n) <= n,
    decreases n,
{
    if 0 < n < s.len() && is_continuation_byte(s[n]) {
        lemma_cut_bounds(s, n - 1);
    }
}

/// Truncates a text to at most `max` bytes, at the end of a character.
pub fn truncate_utf8<'a>(s: &'a [u8], max: usize) -> (r: &'a [u8])
    ensures
        r@ == truncated(s@, max as int),
        r@.len() <= max,
{
    if s.len() <= max {
        assert(s@.take(s@.len() as int) =~= s@);
        assert(max == 0 ==> s@ =~= s@.take(0));
        return s;
    }
    let mut end: usize = max;
    while end > 0 && s[end] >= 0x80 && s[end] <= 0xbf
        invariant
            end <= max,
            max < s@.len(),
            cut(s@, max as int) == cut(s@, end as int),
        decreases end,
    {
        assert(is_continuation_byte(s@[end as int]));
        end -= 1;
    }
    assert(cut(s@, end as int) == end);
    let r: &'a [u8] = slice_subrange(s, 0, end);
    assert(r@ =~= s@.take(end as int));
    r
}

/// A truncated text is still a text: characters are never split.
pub proof fn law_truncation_keeps_text(s: Seq<u8>, max: int)
    requires
        valid_utf8(s),
        max >= 0,
    ensures
        valid_utf8(truncated(s, max)),
        truncated(s, max).len() <= max,
        truncated(s, max) == s.take(truncated(s, max).len() as int),
        s.len() <= max ==> truncated(s, max) == s,
        forall|k: int|
            truncated(s, max).len() < k <= max && k < s.len() ==> is_continuation_byte(
                #[trigger] s[k],
            ),
{
    lemma_cut_bounds(s, max);
    lemma_cut_is_longest(s, max);
    assert(s.take(s.len() as int) =~= s);
    lemma_cut_is_boundary(s, max);
    let c = cut(s, max);
    is_char_boundary_start_end_of_seq(s);
    valid_utf8_split(s, c);
    assert(s.take(c) =~= s.subrange(0, c));
}

proof fn lemma_cut_is_longest(s: Seq<u8>, n: int)
    requires
        n >= 0,
    ensures
        s.len() <= n ==> cut(s, n) == s.len(),
        forall|k: int|
            cut(s, n) < k <= n && k < s.len() ==> is_continuation_byte(#[trigger] s[k]),
    decreases n,
{
    if 0 < n < s.len() && is_continuation_byte(s[n]) {
        lemma_cut_is_longest(s, n - 1);
    }
}

proof fn lemma_cut_is_boundary(s: Seq<u8>, n: int)
    requires
        valid_utf8(s),
    ensures
        is_char_boundary(s, cut(s, n)),
    decreases n,
{
    is_char_boundary_start_end_of_seq(s);
    if 0 < n < s.len() {
        is_char_boundary_iff_not_is_continuation_byte(s, n);
        if is_continuation_byte(s[n]) {
            lemma_cut_is_boundary(s, n - 1);
        }
    }
}

// ---- validity ----
/// The first reason to refuse a request, if any; `ea` tells whether enterprise
/// attestation is enabled.
pub open spec fn refusal(v: mcrequest::McView, ea: bool) -> Option<CtapError> {
    if v.client_data_hash.len() != 32 || v.rp_id.len() == 0 || v.user_id.len() == 0 {
        Some(CtapError::MissingParameter)
    } else if v.rp_id.len() > RP_ID_MAX || v.user_id.len() > USER_ID_MAX {
        Some(CtapError::InvalidLength)
    } else if !v.has_pubkey_param {
        Some(CtapError::MissingParameter)
    } else if v.sel is None {
        Some(CtapError::UnsupportedAlgorithm)
    } else if v.uv || v.up == Some(false) {
        Some(CtapError::InvalidOption)
    } else if v.large_blob_key == Some(false) || (v.large_blob_key == Some(true) && !v.rk) {
        Some(CtapError::InvalidOption)
    } else if v.hmac_secret_mc.present && !v.hmac_secret {
        Some(CtapError::MissingParameter)
    } else if v.hmac_secret_mc.present && (v.hmac_secret_mc.salt_enc.len() == 0
        || v.hmac_secret_mc.salt_auth.len() == 0) {
        Some(CtapError::MissingParameter)
    } else if v.cred_protect > CRED_PROT_UV_REQUIRED {
        Some(CtapError::InvalidOption)
    } else if v.enterprise > 0 && !ea {
        Some(CtapError::InvalidParameter)
    } else if v.enterprise > 2 {
        Some(CtapError::InvalidOption)
    } else {
        None
    }
}

/// Refuses a request that is incomplete or asks for what cannot be.
pub fn validate(req: &Request, ea: bool) -> (r: Result<(), CtapError>)
    ensures
        match refusal(req@, ea) {
            Some(e) => r == Err::<(), CtapError>(e),
            None => r is Ok,
        },
{
    if req.client_data_hash.len() != 32 || req.rp_id.len() == 0 || req.user_id.len() == 0 {
        return Err(CtapError::MissingParameter);
    }
    if req.rp_id.len() > RP_ID_MAX || req.user_id.len() > USER_ID_MAX {
        return Err(CtapError::InvalidLength);
    }
    if !req.has_pubkey_param {
        return Err(CtapError::MissingParameter);
    }
    if req.sel.is_none() {
        return Err(CtapError::UnsupportedAlgorithm);
    }
    if req.uv || req.up == Some(false) {
        return Err(CtapError::InvalidOption);
    }
    if req.ext_large_blob_key == Some(false) || (req.ext_large_blob_key == Some(true)
        && !req.rk) {
        return Err(CtapError::InvalidOption);
    }
    if req.hmac_secret_mc.present && !req.ext_hmac_secret {
        return Err(CtapError::MissingParameter);
    }
    if req.hmac_secret_mc.present && (req.hmac_secret_mc.salt_enc.len() == 0
        || req.hmac_secret_mc.salt_auth.len() == 0) {
        return Err(CtapError::MissingParameter);
    }
    if req.ext_cred_protect > CRED_PROT_UV_REQUIRED {
        return Err(CtapError::InvalidOption);
    }
    if req.enterprise_attestation > 0 {
        if !ea {
            return Err(CtapError::InvalidParameter);
        }
        if req.enterprise_attestation != 1 && req.enterprise_attestation != 2 {
            return Err(CtapError::InvalidOption);
        }
    }
    Ok(())
}

// ---- PIN enforcement ----
/// What the PIN rules say of a request.
pub enum Gate {
    /// A probe: a touch, then the state of the PIN.
    Probe,
    Refused(CtapError),
    /// Open, with or without user verification.
    Open(bool),
}

/// The token authenticates the client data, may make credentials, belongs to no
/// other relying party, and was given to a verified user.
pub open spec fn token_admits(
    paut: PinUvAuthToken,
    p: PinProto,
    client_data_hash: Seq<u8>,
    param: Seq<u8>,
    rp_id_hash: Seq<u8>,
) -> bool {
    &&& param == pinproto::mac(p, paut.token@, client_data_hash)
    &&& paut.permissions & PERM_MC != 0
    &&& !paut.has_rp_id || paut.rp_id_hash@ == rp_id_hash
    &&& paut.in_use && paut.user_verified
}

/// What the PIN rules say of a request: a parameter must verify, and where a
/// PIN is set or verification is always required one must be there.
pub open spec fn gate_of(
    c: Map<u16, Seq<u8>>,
    paut: PinUvAuthToken,
    v: mcrequest::McView,
    rp_id_hash: Seq<u8>,
) -> Gate {
    match v.param {
        Some(param) => if param.len() == 0 {
            Gate::Probe
        } else if v.proto == 0 {
            Gate::Refused(CtapError::MissingParameter)
        } else {
            match pinproto::proto_of(v.proto) {
                None => Gate::Refused(CtapError::InvalidParameter),
                Some(p) => if token_admits(paut, p, v.client_data_hash, param, rp_id_hash) {
                    Gate::Open(true)
                } else {
                    Gate::Refused(CtapError::PinAuthInvalid)
                },
            }
        },
        None => if seed::holds(c, EF_PIN) || seed::holds(c, EF_ALWAYS_UV) {
            Gate::Refused(CtapError::PuatRequired)
        } else {
            Gate::Open(false)
        },
    }
}

/// The token after it was used for a relying party: bound to it.
pub open spec fn bound_to(paut: PinUvAuthToken, rp_id_hash: [u8; 32]) -> PinUvAuthToken {
    if paut.has_rp_id {
        paut
    } else {
        PinUvAuthToken { rp_id_hash, has_rp_id: true, ..paut }
    }
}

/// What a probe is answered after the touch.
pub open spec fn probe_status(c: Map<u16, Seq<u8>>) -> CtapError {
    if seed::holds(c, EF_PIN) {
        CtapError::PinAuthInvalid
    } else {
        CtapError::PinNotSet
    }
}

/// The prompt of a probe.
pub open spec fn probe_prompt() -> sdk::Prompt {
    sdk::action("Use this key?"@, ""@)
}

/// What a probe is answered: the refusal of the touch, or whether a PIN is set.
pub open spec fn probe_answer(c: Map<u16, Seq<u8>>, p: Presence) -> CtapError {
    match fido::presence_refusal(p) {
        Some(e) => e,
        None => probe_status(c),
    }
}

/// The state of a request that passed the PIN rules: the token is bound where
/// it was used.
pub open spec fn passed(state: FidoState, uv: bool, rp_id_hash: [u8; 32]) -> FidoState {
    if uv {
        FidoState { paut: bound_to(state.paut, rp_id_hash), ..state }
    } else {
        state
    }
}

/// Enforces the PIN rules; tells whether the user is verified. A probe is
/// answered only after a touch.
pub fn enforce_pin<S: Storage, R: Rng, P: UserPresence>(
    ctx: &mut Ctx<S, R, P>,
    req: &Request,
    rp_id_hash: &[u8; 32],
) -> (r: Result<bool, CtapError>)
    requires
        old(ctx).wf(),
    ensures
        match gate_of(old(ctx).fs.contents(), old(ctx).state.paut, req@, rp_id_hash@) {
            Gate::Probe => {
                &&& r == Err::<bool, CtapError>(
                    probe_answer(old(ctx).fs.contents(), final(ctx).last_touch()),
                )
                &&& final(ctx).prompted(old(ctx), probe_prompt())
                &&& frame::settled(old(ctx), final(ctx), old(ctx).state)
            },
            Gate::Refused(e) => {
                &&& r == Err::<bool, CtapError>(e)
                &&& final(ctx).unasked(old(ctx))
                &&& frame::settled(old(ctx), final(ctx), old(ctx).state)
            },
            Gate::Open(uv) => {
                &&& r == Ok::<bool, CtapError>(uv)
                &&& final(ctx).unasked(old(ctx))
                &&& final(ctx).rng == old(ctx).rng
                &&& frame::settled(
                    old(ctx),
                    final(ctx),
                    passed(old(ctx).state, uv, *rp_id_hash),
                )
            },
        },
{
    let pin_set: bool = ctx.fs.has_data(EF_PIN);
    match req.pin_uv_auth_param {
        Some(param) => {
            if param.len() == 0 {
                ctx.require_presence(Confirm::titled("Use this key?"))?;
                return Err(
                    if pin_set {
                        CtapError::PinAuthInvalid
                    } else {
                        CtapError::PinNotSet
                    },
                );
            }
            if req.pin_uv_auth_protocol == 0 {
                return Err(CtapError::MissingParameter);
            }
            let proto: PinProto = match PinProto::from_u64(req.pin_uv_auth_protocol) {
                Some(p) => p,
                None => {
                    return Err(CtapError::InvalidParameter);
                },
            };
            if !ctx.state.verify_token(proto, req.client_data_hash, param)
                || ctx.state.paut.permissions & PERM_MC == 0 || (ctx.state.paut.has_rp_id
                && !crate::sdk::same_bytes(&ctx.state.paut.rp_id_hash, rp_id_hash))
                || !ctx.state.user_verified() {
                return Err(CtapError::PinAuthInvalid);
            }
            if !ctx.state.paut.has_rp_id {
                ctx.state.paut.rp_id_hash = *rp_id_hash;
                ctx.state.paut.has_rp_id = true;
            }
            Ok(true)
        },
        None => {
            if pin_set || ctx.fs.has_data(EF_ALWAYS_UV) {
                Err(CtapError::PuatRequired)
            } else {
                Ok(false)
            }
        },
    }
}

// ---- the response ----
/// The minimum PIN length to report.
pub open spec fn reported_min_pin(
    c: Map<u16, Seq<u8>>,
    v: mcrequest::McView,
    rp_id_hash: Seq<u8>,
) -> u8 {
    if v.min_pin_length {
        slots::min_pin_for(c, rp_id_hash)
    } else {
        0
    }
}

/// The authenticator data of a new credential.
#[verifier::opaque]
pub open spec fn auth_of(
    c: Map<u16, Seq<u8>>,
    v: mcrequest::McView,
    rp_id_hash: Seq<u8>,
    uv: bool,
    n: NewCredential,
) -> Seq<u8> {
    attobject::auth_data_of(
        rp_id_hash,
        uv,
        seed::counter(c),
        newcred::cred_id_of(v.rk, n),
        n.cose@,
        attobject::ext_outputs(v, reported_min_pin(c, v, rp_id_hash), n.hmac_mc@),
    )
}

/// Assembles the authenticator data of a new credential.
pub fn build_auth_data<S: Storage>(
    fs: &mut Fs<S>,
    req: &Request,
    rp_id_hash: &[u8; 32],
    uv: bool,
    new: &NewCredential,
) -> (r: Vec<u8>)
    requires
        old(fs).wf(),
        new.cred_box@.len() <= CRED_BOX_MAX,
    ensures
        final(fs).wf(),
        final(fs).reread(old(fs)),
        r@ == auth_of(old(fs).contents(), req@, rp_id_hash@, uv, *new),
{
    reveal(auth_of);
    let min_pin: u8 = if req.ext_min_pin_length {
        rp_min_pin_len(fs, rp_id_hash)
    } else {
        0
    };
    let ext: Vec<u8> = encode_mc_extensions(req, min_pin, new.hmac_mc.as_slice());
    let ctr: u32 = get_sign_counter(fs);
    let id: &[u8] = if req.rk {
        &new.resident_id
    } else {
        new.cred_box.as_slice()
    };
    auth_data(rp_id_hash, uv, ctr, id, new.cose.as_slice(), ext.as_slice())
}

/// The relying party of the conformance tool.
pub open spec fn vendor_ea_party() -> Seq<u8> {
    mcrequest::name("enterprisetest.certinfra.fidoalliance.org"@)
}

/// Whether a request gets an enterprise attestation: where the platform manages
/// it, and where the vendor facilitates it for the relying party. Of those
/// parties the list is empty but in a build for the conformance tool.
pub open spec fn ea_performed(v: mcrequest::McView, profile: Profile) -> bool {
    v.enterprise == 2 || (v.enterprise == 1 && profile.vendor_ea && v.rp_id == vendor_ea_party())
}

/// The attestation of a new credential: by an attestation key where one was
/// asked for, otherwise what the credential itself gives.
pub open spec fn attested(
    dev: Device,
    c: Map<u16, Seq<u8>>,
    device_key: Seq<u8>,
    v: mcrequest::McView,
    profile: Profile,
    msg: Seq<u8>,
    own: attobject::AttView,
) -> Result<attobject::AttView, CtapError> {
    if v.enterprise > 0 {
        attobject::full_attestation(dev, c, device_key, msg, ea_performed(v, profile))
    } else {
        Ok(own)
    }
}

/// The response around the authenticator data of a new credential.
#[verifier::opaque]
pub open spec fn response_of(
    dev: Device,
    c: Map<u16, Seq<u8>>,
    v: mcrequest::McView,
    device_key: Seq<u8>,
    profile: Profile,
    n: NewCredential,
    auth: Seq<u8>,
    own: attobject::AttView,
) -> Result<Seq<u8>, CtapError> {
    match attested(dev, c, device_key, v, profile, auth + v.client_data_hash, own) {
        Err(e) => Err(e),
        Ok(a) => Ok(
            attobject::object_of(
                auth,
                a,
                ea_performed(v, profile),
                if v.large_blob_key == Some(true) && v.rk {
                    Some(n.large_blob_key@)
                } else {
                    None
                },
            ),
        ),
    }
}

/// A response, seen as bytes.
pub open spec fn seen_response(r: Result<Vec<u8>, CtapError>) -> Result<Seq<u8>, CtapError> {
    match r {
        Ok(x) => Ok(x@),
        Err(e) => Err(e),
    }
}

/// Attests a new credential and encodes the response around its authenticator
/// data.
pub fn build_response<S: Storage>(
    dev: &Device,
    fs: &mut Fs<S>,
    req: &Request,
    device_key: &[u8; 32],
    profile: Profile,
    new: &NewCredential,
    auth: &[u8],
    own: Attestation,
) -> (r: Result<Vec<u8>, CtapError>)
    requires
        old(fs).wf(),
        !(own is Chain),
    ensures
        final(fs).wf(),
        final(fs).reread(old(fs)),
        seen_response(r) == response_of(
            *dev,
            old(fs).contents(),
            req@,
            device_key@,
            profile,
            *new,
            auth@,
            own@,
        ),
        r matches Err(e) ==> e == CtapError::Other,
{
    reveal(response_of);
    let mut msg: Vec<u8> = vstd::slice::slice_to_vec(auth);
    msg.extend_from_slice(req.client_data_hash);
    assert(msg@ =~= auth@ + req.client_data_hash@);
    let ep: bool = req.enterprise_attestation == 2 || (req.enterprise_attestation == 1
        && profile.vendor_ea && is_name(
        req.rp_id,
        "enterprisetest.certinfra.fidoalliance.org",
    ));
    let att: Attestation = if req.enterprise_attestation > 0 {
        match make_full_attestation(dev, fs, device_key, msg.as_slice(), ep) {
            Ok(a) => a,
            Err(e) => {
                return Err(e);
            },
        }
    } else {
        own
    };
    let lbk: Option<[u8; 32]> = if req.ext_large_blob_key == Some(true) && req.rk {
        Some(new.large_blob_key)
    } else {
        None
    };
    Ok(encode_object(auth, &att, ep, lbk))
}

// ---- the credential ----
/// What a credential is made from, at a moment.
pub open spec fn job_of<S: Storage, R: Rng, P: UserPresence>(
    ctx: &Ctx<S, R, P>,
    key: Seq<u8>,
    v: mcrequest::McView,
    uv: bool,
    profile: Profile,
) -> Job {
    Job {
        dev: ctx.dev,
        files: slots::files(&ctx.fs),
        key,
        ephemeral: ctx.state.ephemeral@,
        now_ms: ctx.now_ms,
        v,
        uv,
        profile,
    }
}

/// The prompt of a registration: the relying party and the account.
pub open spec fn make_prompt(v: mcrequest::McView) -> sdk::Prompt {
    sdk::registration(v.rp_id, truncated(v.user_name, USER_NAME_MAX as int))
}

/// The authenticator data of the new credential of a job.
pub open spec fn job_auth(job: Job, n: NewCredential) -> Seq<u8> {
    auth_of(job.files.contents, job.v, job.hash(), job.uv, n)
}

/// The own attestation of a new credential: its signature over the
/// authenticator data and the client data where the profile wants one.
pub open spec fn attests(
    t: codec::Talk,
    job: Job,
    n: NewCredential,
    own: attobject::AttView,
) -> bool {
    if job.profile.conformance {
        exists|answer: (i64, Seq<u8>)|
            own == attobject::AttView::Own(answer.0 as int, answer.1) && #[trigger] t.told(
                Ask::Sign {
                    curve: job.curve(),
                    raw: newcred::material(job.key, newcred::cred_id_of(job.v.rk, n)),
                    msg: job_auth(job, n) + job.v.client_data_hash,
                    answer,
                },
            )
    } else {
        own is Absent
    }
}

/// The response is that of the new credential of a job, made with the draws `d`,
/// which no credential excludes, with the attestation that the profile wants.
#[verifier::opaque]
pub open spec fn is_answer(
    t: codec::Talk,
    job: Job,
    d: Seq<Seq<u8>>,
    n: NewCredential,
    response: Seq<u8>,
) -> bool {
    &&& newcred::unexcluded(t, job)
    &&& newcred::crafted(t, job, d, n)
    &&& exists|own: attobject::AttView|
        attests(t, job, n, own) && #[trigger] response_of(
            job.dev,
            job.files.contents,
            job.v,
            job.key,
            job.profile,
            n,
            job_auth(job, n),
            own,
        ) == Ok::<Seq<u8>, CtapError>(response)
}

/// The new credential of a job could not be attested as it was asked for.
#[verifier::opaque]
pub open spec fn unattested(t: codec::Talk, job: Job, d: Seq<Seq<u8>>) -> bool {
    exists|n: NewCredential|
        #[trigger] newcred::crafted(t, job, d, n) && job.v.enterprise > 0
            && attobject::full_attestation(
            job.dev,
            job.files.contents,
            job.key,
            job_auth(job, n) + job.v.client_data_hash,
            ea_performed(job.v, job.profile),
        ) is Err
}

proof fn lemma_is_answer(
    t: codec::Talk,
    whole: codec::Talk,
    job: Job,
    d: Seq<Seq<u8>>,
    n: NewCredential,
    response: Seq<u8>,
)
    requires
        is_answer(t, job, d, n, response),
        t.within(whole),
    ensures
        is_answer(whole, job, d, n, response),
{
    reveal(is_answer);
    newcred::lemma_excluded(t, whole, job);
    newcred::lemma_crafted(t, whole, job, d, n);
    let own = choose|own: attobject::AttView|
        attests(t, job, n, own) && #[trigger] response_of(
            job.dev,
            job.files.contents,
            job.v,
            job.key,
            job.profile,
            n,
            job_auth(job, n),
            own,
        ) == Ok::<Seq<u8>, CtapError>(response);
    assert(attests(whole, job, n, own));
}

/// The draws since `before`.
pub open spec fn draws<S: Storage, R: Rng, P: UserPresence>(
    before: &Ctx<S, R, P>,
    after: &Ctx<S, R, P>,
) -> Seq<Seq<u8>> {
    after.rng.drawn().skip(before.rng.drawn().len() as int)
}

/// Why no answer was prepared: a credential is excluded, no credential could be
/// made, the touch was refused, or the credential could not be attested.
pub open spec fn no_answer<S: Storage, R: Rng, P: UserPresence>(
    before: &Ctx<S, R, P>,
    after: &Ctx<S, R, P>,
    t: codec::Talk,
    job: Job,
    e: CtapError,
) -> bool {
    ||| after.unasked(before) && after.rng.drawn() == before.rng.drawn() && e
        == CtapError::CredentialExcluded && newcred::excluded(t, job)
    ||| after.unasked(before) && newcred::unexcluded(t, job) && newcred::not_made(
        t,
        job,
        draws(before, after),
        e,
    )
    ||| after.prompted(before, make_prompt(job.v)) && newcred::unexcluded(t, job)
        && fido::presence_refusal(after.last_touch()) == Some(e) && exists|n: NewCredential|
        #[trigger] newcred::crafted(t, job, draws(before, after), n)
    ||| after.prompted(before, make_prompt(job.v)) && after.last_touch() == Presence::Confirmed && e
        == CtapError::Other && newcred::unexcluded(t, job) && unattested(
        t,
        job,
        draws(before, after),
    )
}

/// Only slots of credentials and relying parties were written, and those only
/// for a resident credential.
pub open spec fn slots_only(a: Map<u16, Seq<u8>>, b: Map<u16, Seq<u8>>, rk: bool) -> bool {
    frame::kept_but(a, b, |g: u16| rk && newcred::is_slot(g))
}

/// The counter and the journal moved on, and nothing else changed.
pub open spec fn counted(a: Map<u16, Seq<u8>>, b: Map<u16, Seq<u8>>) -> bool {
    frame::kept_but(a, b, |g: u16| g == EF_COUNTER || journal::is_journal(g))
}

/// The records that the codec planned for a resident credential were written,
/// the counter moved on by one, and the event was recorded; nothing else
/// changed.
#[verifier::opaque]
pub open spec fn commits<S: Storage, R: Rng, P: UserPresence>(
    t: codec::Talk,
    job: Job,
    cred_box: Seq<u8>,
    before: &Ctx<S, R, P>,
    after: &Ctx<S, R, P>,
) -> bool {
    let a = before.fs.contents();
    let b = after.fs.contents();
    &&& seed::counter(b) == seed::next_counter(seed::counter(a))
    &&& if job.v.rk {
        exists|p: Seq<(u16, Seq<u8>)>| #[trigger]
            newcred::planned(t, job, cred_box, Some(p)) && newcred::plan_ok(p) && counted(
                newcred::applied(a, p, p.len()),
                b,
            ) && noted(before, after, job, p.len() as int)
    } else {
        counted(a, b) && noted(before, after, job, 0)
    }
}

/// The event was recorded with the front of the hash of the relying party, after
/// `records` records were written and the counter.
pub open spec fn noted<S: Storage, R: Rng, P: UserPresence>(
    before: &Ctx<S, R, P>,
    after: &Ctx<S, R, P>,
    job: Job,
    records: int,
) -> bool {
    journal::noted(
        before,
        after,
        records + journal::new_file(before.fs.dynamic(), EF_COUNTER),
        EV_MAKE_CRED,
        0,
        job.hash().take(8),
    )
}

/// Why the commit failed: the records of a resident credential could not be
/// stored, or the counter could not; with what it left of the files.
#[verifier::opaque]
pub open spec fn not_committed<S: Storage>(
    t: codec::Talk,
    job: Job,
    cred_box: Seq<u8>,
    before: &Fs<S>,
    after: Map<u16, Seq<u8>>,
    e: CtapError,
) -> bool {
    ||| e == CtapError::KeyStoreFull && job.v.rk && exists|
        plan: Option<Seq<(u16, Seq<u8>)>>,
    | #[trigger]
        newcred::planned(t, job, cred_box, plan) && newcred::carried_out(
            before,
            after,
            plan,
            false,
        )
    ||| e == CtapError::Other && !job.v.rk && after == before.contents() && (!before.reliable()
        || seed::no_room(before, EF_COUNTER))
    ||| e == CtapError::Other && job.v.rk && exists|p: Seq<(u16, Seq<u8>)>| #[trigger]
        newcred::planned(t, job, cred_box, Some(p)) && newcred::plan_ok(p) && after
            == newcred::applied(before.contents(), p, p.len()) && (!before.reliable()
            || before.dynamic().len() + p.len() >= MAX_DYNAMIC_FILES)
}

/// What was told in a part of a conversation was told in the whole, and what a
/// commit does depends on the files that it starts from, not on what the cache
/// knew.
proof fn lemma_commits<S: Storage, R: Rng, P: UserPresence>(
    t: codec::Talk,
    whole: codec::Talk,
    job: Job,
    cred_box: Seq<u8>,
    a: &Ctx<S, R, P>,
    b: &Ctx<S, R, P>,
    after: &Ctx<S, R, P>,
)
    requires
        commits(t, job, cred_box, b, after),
        t.within(whole),
        same_start(a, b),
    ensures
        commits(whole, job, cred_box, a, after),
{
    reveal(commits);
    if job.v.rk {
        let p = choose|p: Seq<(u16, Seq<u8>)>| #[trigger]
            newcred::planned(t, job, cred_box, Some(p)) && newcred::plan_ok(p) && counted(
                newcred::applied(b.fs.contents(), p, p.len()),
                after.fs.contents(),
            ) && noted(b, after, job, p.len() as int);
        assert(newcred::planned(whole, job, cred_box, Some(p)));
    }
}

/// Both start from the same files, device, time, draws and power cycle.
spec fn same_start<S: Storage, R: Rng, P: UserPresence>(
    a: &Ctx<S, R, P>,
    b: &Ctx<S, R, P>,
) -> bool {
    &&& b.fs.reread(&a.fs)
    &&& b.dev == a.dev
    &&& b.now_ms == a.now_ms
    &&& b.state.audit_boot_logged == a.state.audit_boot_logged
}

proof fn lemma_not_committed<S: Storage>(
    t: codec::Talk,
    whole: codec::Talk,
    job: Job,
    cred_box: Seq<u8>,
    a: &Fs<S>,
    b: &Fs<S>,
    after: Map<u16, Seq<u8>>,
    e: CtapError,
)
    requires
        not_committed(t, job, cred_box, b, after, e),
        t.within(whole),
        b.reread(a),
    ensures
        not_committed(whole, job, cred_box, a, after, e),
{
    reveal(not_committed);
    if e == CtapError::KeyStoreFull {
        let plan = choose|plan: Option<Seq<(u16, Seq<u8>)>>| #[trigger]
            newcred::planned(t, job, cred_box, plan) && newcred::carried_out(
                b,
                after,
                plan,
                false,
            );
        assert(newcred::planned(whole, job, cred_box, plan));
        assert(newcred::carried_out(a, after, plan, false));
    } else if job.v.rk {
        let p = choose|p: Seq<(u16, Seq<u8>)>| #[trigger]
            newcred::planned(t, job, cred_box, Some(p)) && newcred::plan_ok(p) && after
                == newcred::applied(b.contents(), p, p.len()) && (!b.reliable()
                || b.dynamic().len() + p.len() >= MAX_DYNAMIC_FILES);
        assert(newcred::planned(whole, job, cred_box, Some(p)));
    }
}

/// A credential was made: the user confirmed it, the response answers the
/// request, and what it leaves behind is stored.
pub open spec fn made<S: Storage, R: Rng, P: UserPresence>(
    before: &Ctx<S, R, P>,
    after: &Ctx<S, R, P>,
    t: codec::Talk,
    job: Job,
    n: NewCredential,
    response: Seq<u8>,
) -> bool {
    &&& after.prompted(before, make_prompt(job.v)) && after.last_touch() == Presence::Confirmed
    &&& is_answer(t, job, draws(before, after), n, response)
    &&& commits(t, job, n.cred_box@, before, after)
}

/// A confirmed credential that was not handed out: the response does not fit, and
/// nothing was written, or the commit failed.
pub open spec fn dropped<S: Storage, R: Rng, P: UserPresence>(
    before: &Ctx<S, R, P>,
    after: &Ctx<S, R, P>,
    t: codec::Talk,
    job: Job,
    n: NewCredential,
    response: Seq<u8>,
    room: int,
    e: CtapError,
) -> bool {
    &&& after.prompted(before, make_prompt(job.v)) && after.last_touch() == Presence::Confirmed
    &&& is_answer(t, job, draws(before, after), n, response)
    &&& (e == CtapError::Other && response.len() > room && after.fs.contents()
        == before.fs.contents()) || not_committed(
        t,
        job,
        n.cred_box@,
        &before.fs,
        after.fs.contents(),
        e,
    )
}

/// The power cycle counts as opened in the journal where a credential was made, and
/// otherwise as it did; nothing else of the state differs.
pub open spec fn marked(a: FidoState, b: FidoState, done: bool) -> bool {
    b == (FidoState { audit_boot_logged: done || a.audit_boot_logged, ..a })
}

/// The outcome of making a credential once the request was admitted. A refusal,
/// of the touch too, leaves the files and the answer buffer as they were; a commit
/// that failed leaves at most slots of a resident credential.
pub open spec fn concluded<S: Storage, R: Rng, P: UserPresence>(
    before: &Ctx<S, R, P>,
    after: &Ctx<S, R, P>,
    t: codec::Talk,
    job: Job,
    out_before: Seq<u8>,
    out_after: Seq<u8>,
    r: CtapResult,
) -> bool {
    match r {
        Ok(_) => exists|n: NewCredential, response: Seq<u8>|
            #[trigger] made(before, after, t, job, n, response) && reply::delivered(
                out_before,
                out_after,
                response,
                r,
            ),
        Err(e) => {
            &&& slots_only(before.fs.contents(), after.fs.contents(), job.v.rk)
            &&& (no_answer(before, after, t, job, e) && after.fs.contents() == before.fs.contents()
                && out_after == out_before) || exists|n: NewCredential, response: Seq<u8>|
                #[trigger] dropped(
                    before,
                    after,
                    t,
                    job,
                    n,
                    response,
                    out_before.len() as int,
                    e,
                )
        },
    }
}

/// An outcome depends on the files that it starts from, not on what the cache
/// knew.
proof fn lemma_concluded<S: Storage, R: Rng, P: UserPresence>(
    a: &Ctx<S, R, P>,
    b: &Ctx<S, R, P>,
    after: &Ctx<S, R, P>,
    t: codec::Talk,
    job: Job,
    out_before: Seq<u8>,
    out_after: Seq<u8>,
    r: CtapResult,
)
    requires
        concluded(b, after, t, job, out_before, out_after, r),
        same_start(a, b),
        b.rng.drawn() == a.rng.drawn(),
        b.unasked(a),
    ensures
        concluded(a, after, t, job, out_before, out_after, r),
{
    assert(draws(a, after) == draws(b, after));
    match r {
        Ok(_) => {
            let (n, response) = choose|n: NewCredential, response: Seq<u8>|
                #[trigger] made(b, after, t, job, n, response) && reply::delivered(
                    out_before,
                    out_after,
                    response,
                    r,
                );
            lemma_commits(t, t, job, n.cred_box@, a, b, after);
            assert(made(a, after, t, job, n, response));
        },
        Err(e) => {
            if no_answer(b, after, t, job, e) {
                assert forall|n: NewCredential| #[trigger]
                    newcred::crafted(t, job, draws(b, after), n) implies newcred::crafted(
                    t,
                    job,
                    draws(a, after),
                    n,
                ) by {}
                assert(no_answer(a, after, t, job, e));
            }
            if !(no_answer(b, after, t, job, e) && after.fs.contents() == b.fs.contents()
                && out_after == out_before) {
                let room = out_before.len() as int;
                let (n, response) = choose|n: NewCredential, response: Seq<u8>|
                    #[trigger] dropped(b, after, t, job, n, response, room, e);
                if not_committed(t, job, n.cred_box@, &b.fs, after.fs.contents(), e) {
                    lemma_not_committed(
                        t,
                        t,
                        job,
                        n.cred_box@,
                        &a.fs,
                        &b.fs,
                        after.fs.contents(),
                        e,
                    );
                }
                assert(dropped(a, after, t, job, n, response, room, e));
            }
        },
    }
}

fn own_attestation<C: Codec>(
    codec: &mut Recorded<C>,
    profile: Profile,
    curve: u8,
    raw: &[u8; 66],
    auth: &[u8],
    client_data_hash: &[u8],
    Ghost(job): Ghost<Job>,
    Ghost(n): Ghost<NewCredential>,
) -> (r: Attestation)
    requires
        job.profile == profile,
        job.curve() == curve,
        job.v.client_data_hash == client_data_hash@,
        raw@ == newcred::material(job.key, newcred::cred_id_of(job.v.rk, n)),
        auth@ == job_auth(job, n),
    ensures
        codec::talk(old(codec), final(codec)).wf(),
        attests(codec::talk(old(codec), final(codec)), job, n, r@),
        !(r is Chain),
{
    let ghost asked = codec.asked();
    if !profile.conformance {
        assert(asked.take(asked.len() as int) =~= asked);
        return Attestation::Absent;
    }
    let mut msg: Vec<u8> = vstd::slice::slice_to_vec(auth);
    msg.extend_from_slice(client_data_hash);
    assert(msg@ =~= auth@ + client_data_hash@);
    let (alg, sig) = codec.sign(curve, raw, msg.as_slice());
    proof {
        let ask = Ask::Sign { curve, raw: raw@, msg: msg@, answer: (alg, sig@) };
        codec::lemma_asked(asked, ask);
        assert(codec::talk(old(codec), codec).told(ask));
    }
    Attestation::Own(alg, sig)
}

/// Makes the credential and the response to it; nothing is stored yet.
fn prepare<S: Storage, R: Rng, P: UserPresence, C: Codec>(
    ctx: &mut Ctx<S, R, P>,
    codec: &mut Recorded<C>,
    profile: Profile,
    req: &Request,
    sel: (i64, u8),
    rp_id_hash: &[u8; 32],
    seed: &[u8; 32],
    uv: bool,
) -> (r: Result<(NewCredential, Vec<u8>), CtapError>)
    requires
        old(ctx).wf(),
        rp_id_hash@ == crypto::sha256_of(req.rp_id@),
        req.sel == Some(sel),
    ensures
        frame::only_drawn(old(ctx), final(ctx)),
        codec::talk(old(codec), final(codec)).wf(),
        match r {
            Ok(x) => {
                &&& is_answer(
                    codec::talk(old(codec), final(codec)),
                    job_of(old(ctx), seed@, req@, uv, profile),
                    draws(old(ctx), final(ctx)),
                    x.0,
                    x.1@,
                )
                &&& final(ctx).prompted(old(ctx), make_prompt(req@))
                &&& final(ctx).last_touch() == Presence::Confirmed
            },
            Err(e) => no_answer(
                old(ctx),
                final(ctx),
                codec::talk(old(codec), final(codec)),
                job_of(old(ctx), seed@, req@, uv, profile),
                e,
            ),
        },
{
    let ghost job = job_of(ctx, seed@, req@, uv, profile);
    let ghost start = codec.asked();
    if any_excluded(&mut ctx.fs, codec, seed, rp_id_hash, req, uv, Ghost(job)) {
        assert(newcred::excluded(codec::talk(old(codec), codec), job));
        return Err(CtapError::CredentialExcluded);
    }
    let ghost a1 = codec.asked();
    let ghost t1 = codec::Talk { before: start, after: a1 };
    assert(newcred::unexcluded(t1, job));
    let ephemeral: [u8; 32] = *ctx.state.ephemeral_scalar();
    let crafted: Result<(NewCredential, [u8; 66]), CtapError> = new_credential(
        &mut ctx.rng,
        codec,
        req,
        sel,
        &ephemeral,
        ctx.now_ms,
        rp_id_hash,
        seed,
        uv,
        Ghost(job),
    );
    let ghost a2 = codec.asked();
    let ghost d = draws(old(ctx), ctx);
    let ghost t2 = codec::Talk { before: a1, after: a2 };
    let ghost t12 = codec::Talk { before: start, after: a2 };
    proof {
        codec::lemma_talk(start, a1, a2);
    }
    let (new, mut raw) = match crafted {
        Ok(x) => x,
        Err(e) => {
            proof {
                newcred::lemma_not_made(t2, t12, job, d, e);
                newcred::lemma_excluded(t1, t12, job);
            }
            return Err(e);
        },
    };
    proof {
        newcred::lemma_crafted(t2, t12, job, d, new);
        newcred::lemma_excluded(t1, t12, job);
        reveal(newcred::crafted);
    }
    let name: &[u8] = truncate_utf8(req.user_name, USER_NAME_MAX);
    if let Err(e) = ctx.require_presence(Confirm::register(req.rp_id, name)) {
        assert(newcred::crafted(codec::talk(old(codec), codec), job, draws(old(ctx), ctx), new));
        wipe(&mut raw);
        return Err(e);
    }
    let auth: Vec<u8> = build_auth_data(&mut ctx.fs, req, rp_id_hash, uv, &new);
    let own: Attestation = own_attestation(
        codec,
        profile,
        sel.1,
        &raw,
        auth.as_slice(),
        req.client_data_hash,
        Ghost(job),
        Ghost(new),
    );
    wipe(&mut raw);
    let ghost seen = own@;
    let response: Result<Vec<u8>, CtapError> = build_response(
        &ctx.dev,
        &mut ctx.fs,
        req,
        seed,
        profile,
        &new,
        auth.as_slice(),
        own,
    );
    proof {
        let t3 = codec::Talk { before: a2, after: codec.asked() };
        let t = codec::talk(old(codec), codec);
        codec::lemma_talk(start, a2, codec.asked());
        newcred::lemma_crafted(t12, t, job, d, new);
        newcred::lemma_excluded(t12, t, job);
        assert(attests(t3, job, new, seen));
        assert(attests(t, job, new, seen));
        lemma_answered(t, job, d, new, seen, seen_response(response));
    }
    match response {
        Ok(x) => Ok((new, x)),
        Err(e) => Err(e),
    }
}

/// A response answers the job; without one the attestation failed.
proof fn lemma_answered(
    t: codec::Talk,
    job: Job,
    d: Seq<Seq<u8>>,
    n: NewCredential,
    own: attobject::AttView,
    response: Result<Seq<u8>, CtapError>,
)
    requires
        newcred::unexcluded(t, job),
        newcred::crafted(t, job, d, n),
        attests(t, job, n, own),
        response == response_of(
            job.dev,
            job.files.contents,
            job.v,
            job.key,
            job.profile,
            n,
            job_auth(job, n),
            own,
        ),
    ensures
        match response {
            Ok(x) => is_answer(t, job, d, n, x),
            Err(_) => unattested(t, job, d),
        },
{
    reveal(is_answer);
    reveal(unattested);
    reveal(response_of);
}

/// Stores what a new credential leaves behind: its records if it is resident,
/// the next counter, the journal entry.
fn commit<S: Storage, R: Rng, P: UserPresence, C: Codec>(
    ctx: &mut Ctx<S, R, P>,
    codec: &mut Recorded<C>,
    req: &Request,
    rp_id_hash: &[u8; 32],
    seed: &[u8; 32],
    cred_box: &[u8],
    Ghost(job): Ghost<Job>,
) -> (r: Result<(), CtapError>)
    requires
        old(ctx).wf(),
        job.key == seed@,
        job.files == slots::files(&old(ctx).fs),
        job.v == req@,
        rp_id_hash@ == crypto::sha256_of(req.rp_id@),
    ensures
        final(ctx).wf(),
        final(ctx).dev == old(ctx).dev,
        final(ctx).now_ms == old(ctx).now_ms,
        final(ctx).presence == old(ctx).presence,
        final(ctx).rng == old(ctx).rng,
        marked(old(ctx).state, final(ctx).state, r is Ok),
        codec::talk(old(codec), final(codec)).wf(),
        match r {
            Ok(_) => commits(
                codec::talk(old(codec), final(codec)),
                job,
                cred_box@,
                old(ctx),
                final(ctx),
            ),
            Err(e) => {
                &&& slots_only(old(ctx).fs.contents(), final(ctx).fs.contents(), req.rk)
                &&& not_committed(
                    codec::talk(old(codec), final(codec)),
                    job,
                    cred_box@,
                    &old(ctx).fs,
                    final(ctx).fs.contents(),
                    e,
                )
            },
        },
{
    reveal(commits);
    reveal(not_committed);
    let ghost asked = codec.asked();
    assert(asked.take(asked.len() as int) =~= asked);
    let ghost c0 = ctx.fs.contents();
    let ghost mut plan: Seq<(u16, Seq<u8>)> = Seq::empty();
    if req.rk {
        let stored: bool = store_resident(
            &mut ctx.fs,
            codec,
            seed,
            cred_box,
            rp_id_hash,
            req.rp_id,
            req.user_id,
            Ghost(job),
        );
        if !stored {
            return Err(CtapError::KeyStoreFull);
        }
        proof {
            let told = choose|p: Option<Seq<(u16, Seq<u8>)>>| #[trigger]
                newcred::planned(codec::talk(old(codec), codec), job, cred_box@, p)
                    && newcred::carried_out(&old(ctx).fs, ctx.fs.contents(), p, true)
                    && ctx.fs.dynamic().len() <= old(ctx).fs.dynamic().len() + p->0.len();
            plan = told->0;
            assert(told == Some(plan));
        }
    }
    let ghost c1 = ctx.fs.contents();
    let ghost resident = ctx.fs;
    assert(c1 == if req.rk {
        newcred::applied(c0, plan, plan.len())
    } else {
        c0
    });
    assert(frame::kept_but(c0, c1, |g: u16| req.rk && newcred::is_slot(g)));
    assert(c1.contains_key(EF_COUNTER) == c0.contains_key(EF_COUNTER));
    if bump_sign_counter(&mut ctx.fs).is_err() {
        return Err(CtapError::Other);
    }
    let ghost c2 = ctx.fs.contents();
    let ghost stored = *ctx;
    journal::append(ctx, EV_MAKE_CRED, 0, slice_subrange(rp_id_hash, 0, 8));
    let ghost c3 = ctx.fs.contents();
    proof {
        assert(rp_id_hash@.subrange(0, 8) =~= job.hash().take(8));
        assert forall|g: u16| journal::is_journal(g) implies {
            &&& #[trigger] c2.contains_key(g) == c0.contains_key(g)
            &&& c2.contains_key(g) ==> c2[g] == c0[g]
        } by {
            assert(!newcred::is_slot(g));
            assert(c1.contains_key(g) == c0.contains_key(g));
        }
        seed::lemma_known(resident.dynamic(), EF_COUNTER);
        journal::lemma_noted(
            old(ctx),
            &stored,
            ctx,
            plan.len() + journal::new_file(old(ctx).fs.dynamic(), EF_COUNTER),
            EV_MAKE_CRED,
            0,
            job.hash().take(8),
        );
        assert(c3.contains_key(EF_COUNTER) == c2.contains_key(EF_COUNTER));
        assert forall|g: u16| !(g == EF_COUNTER || journal::is_journal(g)) implies (
        #[trigger] c3.contains_key(g) == c1.contains_key(g) && (c3.contains_key(g) ==> c3[g]
            == c1[g])) by {
            assert(c2.contains_key(g) == c1.contains_key(g));
        }
        assert(counted(c1, c3));
    }
    Ok(())
}

fn make_credential_inner<S: Storage, R: Rng, P: UserPresence, C: Codec>(
    ctx: &mut Ctx<S, R, P>,
    codec: &mut Recorded<C>,
    profile: Profile,
    req: &Request,
    sel: (i64, u8),
    rp_id_hash: &[u8; 32],
    seed: &[u8; 32],
    uv: bool,
    out: &mut [u8],
) -> (r: CtapResult)
    requires
        old(ctx).wf(),
        rp_id_hash@ == crypto::sha256_of(req.rp_id@),
        req.sel == Some(sel),
    ensures
        final(ctx).wf(),
        final(out)@.len() == old(out)@.len(),
        r matches Ok(n) ==> n <= old(out)@.len(),
        final(ctx).dev == old(ctx).dev,
        final(ctx).now_ms == old(ctx).now_ms,
        marked(old(ctx).state, final(ctx).state, r is Ok),
        codec::talk(old(codec), final(codec)).wf(),
        concluded(
            old(ctx),
            final(ctx),
            codec::talk(old(codec), final(codec)),
            job_of(old(ctx), seed@, req@, uv, profile),
            old(out)@,
            final(out)@,
            r,
        ),
{
    let ghost start = *ctx;
    let ghost job = job_of(ctx, seed@, req@, uv, profile);
    let ghost asked = codec.asked();
    let (new, response) = match prepare(
        ctx,
        codec,
        profile,
        req,
        sel,
        rp_id_hash,
        seed,
        uv,
    ) {
        Ok(x) => x,
        Err(e) => {
            return Err(e);
        },
    };
    let ghost a1 = codec.asked();
    let ghost room = out@.len() as int;
    let r: CtapResult = deliver(out, response.as_slice());
    if r.is_err() {
        assert(dropped(
            &start,
            ctx,
            codec::talk(old(codec), codec),
            job,
            new,
            response@,
            room,
            CtapError::Other,
        ));
        return r;
    }
    let ghost mid = *ctx;
    let done: Result<(), CtapError> = commit(
        ctx,
        codec,
        req,
        rp_id_hash,
        seed,
        new.cred_box.as_slice(),
        Ghost(job),
    );
    proof {
        let t1 = codec::Talk { before: asked, after: a1 };
        let t2 = codec::Talk { before: a1, after: codec.asked() };
        let t = codec::talk(old(codec), codec);
        codec::lemma_talk(asked, a1, codec.asked());
        lemma_is_answer(t1, t, job, draws(&start, ctx), new, response@);
        match done {
            Ok(_) => {
                lemma_commits(
                    t2,
                    t,
                    job,
                    new.cred_box@,
                    &start,
                    &mid,
                    ctx,
                );
                assert(made(&start, ctx, t, job, new, response@));
            },
            Err(e) => {
                lemma_not_committed(
                    t2,
                    t,
                    job,
                    new.cred_box@,
                    &start.fs,
                    &mid.fs,
                    ctx.fs.contents(),
                    e,
                );
                assert(dropped(&start, ctx, t, job, new, response@, room, e));
            },
        }
    }
    match done {
        Ok(_) => r,
        Err(e) => Err(e),
    }
}

/// What an admitted request goes on with: whether the user is verified, the
/// hash of the relying party, the seed, and the algorithm with its curve.
struct Entry {
    uv: bool,
    rp_id_hash: [u8; 32],
    seed: [u8; 32],
    sel: (i64, u8),
}

fn enter<S: Storage, R: Rng, P: UserPresence>(ctx: &mut Ctx<S, R, P>, req: &Request) -> (r: Result<
    Entry,
    CtapError,
>)
    requires
        old(ctx).wf(),
    ensures
        match r {
            Ok(x) => {
                &&& x.rp_id_hash@ == crypto::sha256_of(req.rp_id@)
                &&& refusal(req@, seed::holds(old(ctx).fs.contents(), EF_EA_ENABLED)) is None
                &&& gate_of(
                    old(ctx).fs.contents(),
                    old(ctx).state.paut,
                    req@,
                    x.rp_id_hash@,
                ) == Gate::Open(x.uv)
                &&& old(ctx).keydev() == Some(x.seed@)
                &&& req.sel == Some(x.sel)
                &&& final(ctx).unasked(old(ctx))
                &&& final(ctx).rng == old(ctx).rng
                &&& frame::settled(
                    old(ctx),
                    final(ctx),
                    passed(old(ctx).state, x.uv, x.rp_id_hash),
                )
            },
            Err(e) => forall|t: codec::Talk, profile: Profile, out: Seq<u8>| #[trigger]
                admitted(
                    old(ctx),
                    final(ctx),
                    t,
                    req@,
                    profile,
                    out,
                    out,
                    Err::<usize, CtapError>(e),
                ),
        },
        final(ctx).wf(),
{
    let ea: bool = ctx.fs.has_data(EF_EA_ENABLED);
    validate(req, ea)?;
    let rp_id_hash: [u8; 32] = sha256(req.rp_id);
    let uv: bool = enforce_pin(ctx, req, &rp_id_hash)?;
    proof {
        ctx.lemma_keydev(old(ctx));
    }
    let seed: [u8; 32] = match ctx.load_keydev() {
        Some(k) => k,
        None => {
            assert(passed(old(ctx).state, uv, rp_id_hash) == ctx.state);
            return Err(CtapError::Other);
        },
    };
    match req.sel {
        Some(sel) => Ok(Entry { uv, rp_id_hash, seed, sel }),
        None => Err(CtapError::UnsupportedAlgorithm),
    }
}

/// The outcome of a request: refused where it does not parse, otherwise what it
/// is answered.
pub open spec fn outcome<S: Storage, R: Rng, P: UserPresence>(
    before: &Ctx<S, R, P>,
    after: &Ctx<S, R, P>,
    t: codec::Talk,
    profile: Profile,
    data: Seq<u8>,
    out_before: Seq<u8>,
    out_after: Seq<u8>,
    r: CtapResult,
) -> bool {
    match mcrequest::request(data, profile) {
        Err(e) => {
            &&& r == Err::<usize, CtapError>(e)
            &&& frame::settled(before, after, before.state)
            &&& after.unasked(before)
            &&& out_after == out_before
        },
        Ok(v) => admitted(before, after, t, v, profile, out_before, out_after, r),
    }
}

/// `authenticatorMakeCredential`: writes the response at the front of `out` and
/// returns its length. A request that does not parse, is not valid or does not
/// pass the PIN rules is refused with nothing changed.
pub fn make_credential<S: Storage, R: Rng, P: UserPresence, C: Codec>(
    ctx: &mut Ctx<S, R, P>,
    codec: &mut Recorded<C>,
    profile: Profile,
    data: &[u8],
    out: &mut [u8],
) -> (r: CtapResult)
    requires
        old(ctx).wf(),
    ensures
        final(ctx).wf(),
        final(out)@.len() == old(out)@.len(),
        r matches Ok(n) ==> n <= old(out)@.len(),
        outcome(
            old(ctx),
            final(ctx),
            codec::talk(old(codec), final(codec)),
            profile,
            data@,
            old(out)@,
            final(out)@,
            r,
        ),
        codec::talk(old(codec), final(codec)).wf(),
{
    assert(codec.asked().take(codec.asked().len() as int) =~= codec.asked());
    let ghost start = *ctx;
    let req: Request = mcrequest::parse(data, profile)?;
    let mut entry: Entry = enter(ctx, &req)?;
    let ghost entered = *ctx;
    proof {
        entered.lemma_keydev(&start);
    }
    let r: CtapResult = make_credential_inner(
        ctx,
        codec,
        profile,
        &req,
        entry.sel,
        &entry.rp_id_hash,
        &entry.seed,
        entry.uv,
        out,
    );
    let ghost key = entry.seed@;
    wipe(&mut entry.seed);
    proof {
        let job = job_of(&start, key, req@, entry.uv, profile);
        assert(job == job_of(&entered, key, req@, entry.uv, profile));
        lemma_concluded(
            &start,
            &entered,
            ctx,
            codec::talk(old(codec), codec),
            job,
            old(out)@,
            out@,
            r,
        );
        assert(passed(start.state, entry.uv, entry.rp_id_hash) == entered.state);
    }
    r
}

/// What a parsed request is answered: its refusal if it is not valid; otherwise
/// what the PIN rules say; otherwise the outcome of making the credential.
pub open spec fn admitted<S: Storage, R: Rng, P: UserPresence>(
    before: &Ctx<S, R, P>,
    after: &Ctx<S, R, P>,
    t: codec::Talk,
    v: mcrequest::McView,
    profile: Profile,
    out_before: Seq<u8>,
    out_after: Seq<u8>,
    r: CtapResult,
) -> bool {
    let c = before.fs.contents();
    let hash = crypto::sha256_of(v.rp_id);
    match refusal(v, seed::holds(c, EF_EA_ENABLED)) {
        Some(e) => {
            &&& r == Err::<usize, CtapError>(e)
            &&& frame::settled(before, after, before.state)
            &&& after.unasked(before)
            &&& out_after == out_before
        },
        None => match gate_of(c, before.state.paut, v, hash) {
            Gate::Probe => {
                &&& r == Err::<usize, CtapError>(probe_answer(c, after.last_touch()))
                &&& after.prompted(before, probe_prompt())
                &&& frame::settled(before, after, before.state)
                &&& out_after == out_before
            },
            Gate::Refused(e) => {
                &&& r == Err::<usize, CtapError>(e)
                &&& frame::settled(before, after, before.state)
                &&& after.unasked(before)
                &&& out_after == out_before
            },
            Gate::Open(uv) => {
                &&& match before.keydev() {
                    None => {
                        &&& r == Err::<usize, CtapError>(CtapError::Other)
                        &&& after.fs.reread(&before.fs)
                        &&& after.rng == before.rng
                        &&& after.unasked(before)
                        &&& out_after == out_before
                    },
                    Some(key) => concluded(
                        before,
                        after,
                        t,
                        job_of(before, key, v, uv, profile),
                        out_before,
                        out_after,
                        r,
                    ),
                }
                &&& after.dev == before.dev
                &&& after.now_ms == before.now_ms
                &&& exists|h: [u8; 32]|
                    h@ == hash && marked(
                        #[trigger] passed(before.state, uv, h),
                        after.state,
                        r is Ok,
                    )
            },
        },
    }
}

/// No credential without the user: where one is handed out, the device asked
/// once, with the relying party and the account of the request, and the user
/// confirmed.
pub proof fn law_credential_needs_touch<S: Storage, R: Rng, P: UserPresence>(
    before: &Ctx<S, R, P>,
    after: &Ctx<S, R, P>,
    t: codec::Talk,
    profile: Profile,
    data: Seq<u8>,
    out_before: Seq<u8>,
    out_after: Seq<u8>,
    n: usize,
)
    requires
        outcome(
            before,
            after,
            t,
            profile,
            data,
            out_before,
            out_after,
            Ok::<usize, CtapError>(n),
        ),
    ensures
        mcrequest::request(data, profile) is Ok,
        after.prompted(before, make_prompt(mcrequest::request(data, profile)->Ok_0)),
        after.last_touch() == Presence::Confirmed,
{
    let v = mcrequest::request(data, profile)->Ok_0;
    assert(admitted(
        before,
        after,
        t,
        v,
        profile,
        out_before,
        out_after,
        Ok::<usize, CtapError>(n),
    ));
}

/// A credential that is not resident leaves no record: beside the counter and
/// the journal no file changes.
pub proof fn law_non_resident_leaves_no_record<S: Storage, R: Rng, P: UserPresence>(
    before: &Ctx<S, R, P>,
    after: &Ctx<S, R, P>,
    t: codec::Talk,
    profile: Profile,
    data: Seq<u8>,
    out_before: Seq<u8>,
    out_after: Seq<u8>,
    n: usize,
)
    requires
        outcome(
            before,
            after,
            t,
            profile,
            data,
            out_before,
            out_after,
            Ok::<usize, CtapError>(n),
        ),
        mcrequest::request(data, profile) matches Ok(v) && !v.rk,
    ensures
        counted(before.fs.contents(), after.fs.contents()),
        seed::counter(after.fs.contents()) == seed::next_counter(
            seed::counter(before.fs.contents()),
        ),
{
    reveal(commits);
    let v = mcrequest::request(data, profile)->Ok_0;
    assert(admitted(
        before,
        after,
        t,
        v,
        profile,
        out_before,
        out_after,
        Ok::<usize, CtapError>(n),
    ));
}

/// A request is refused exactly where it lacks something, is too long, asks for
/// an unsupported algorithm, or asks for what the device does not do, each with
/// its own status.
pub proof fn law_refusal(v: mcrequest::McView, ea: bool)
    ensures
        refusal(v, ea) is None <==> {
            &&& v.client_data_hash.len() == 32
            &&& 1 <= v.rp_id.len() <= 253
            &&& 1 <= v.user_id.len() <= 64
            &&& v.has_pubkey_param && v.sel is Some
            &&& !v.uv && v.up != Some(false)
            &&& v.large_blob_key != Some(false)
            &&& v.large_blob_key == Some(true) ==> v.rk
            &&& v.hmac_secret_mc.present ==> v.hmac_secret && v.hmac_secret_mc.salt_enc.len() > 0
                && v.hmac_secret_mc.salt_auth.len() > 0
            &&& v.cred_protect <= 3
            &&& v.enterprise <= 0 || (ea && v.enterprise <= 2)
        },
        match refusal(v, ea) {
            None => true,
            Some(CtapError::MissingParameter) => v.client_data_hash.len() != 32 || v.rp_id.len()
                == 0 || v.user_id.len() == 0 || !v.has_pubkey_param || (v.hmac_secret_mc.present
                && (!v.hmac_secret || v.hmac_secret_mc.salt_enc.len() == 0
                || v.hmac_secret_mc.salt_auth.len() == 0)),
            Some(CtapError::InvalidLength) => v.rp_id.len() > 253 || v.user_id.len() > 64,
            Some(CtapError::UnsupportedAlgorithm) => v.sel is None,
            Some(CtapError::InvalidOption) => v.uv || v.up == Some(false) || v.large_blob_key
                == Some(false) || (v.large_blob_key == Some(true) && !v.rk) || v.cred_protect > 3
                || v.enterprise > 2,
            Some(CtapError::InvalidParameter) => v.enterprise > 0 && !ea,
            Some(_) => false,
        },
{
}

/// The PIN rules. A request without a parameter passes exactly where no PIN is
/// set and verification is not always asked for. One with a parameter passes
/// exactly where it is the MAC of the client data under the token, the token
/// allows making credentials, is not bound to another relying party, and was
/// given to a verified user; the user then counts as verified. An empty
/// parameter is a probe.
pub proof fn law_gate(
    c: Map<u16, Seq<u8>>,
    paut: PinUvAuthToken,
    v: mcrequest::McView,
    rp_id_hash: Seq<u8>,
)
    ensures
        match gate_of(c, paut, v, rp_id_hash) {
            Gate::Open(uv) => uv == (v.param is Some),
            Gate::Probe => v.param matches Some(x) && x.len() == 0,
            Gate::Refused(e) => (v.param is None ==> e == CtapError::PuatRequired) && (v.param
                is Some && (v.proto == 1 || v.proto == 2) ==> e == CtapError::PinAuthInvalid),
        },
        v.param is None ==> (gate_of(c, paut, v, rp_id_hash) == Gate::Open(false) <==> !seed::holds(
            c,
            EF_PIN,
        ) && !seed::holds(c, EF_ALWAYS_UV)),
        v.param matches Some(x) && x.len() > 0 ==> (gate_of(c, paut, v, rp_id_hash) == Gate::Open(
            true,
        ) <==> {
            &&& v.proto == 1 || v.proto == 2
            &&& v.param->0 == pinproto::mac(
                if v.proto == 1 {
                    PinProto::One
                } else {
                    PinProto::Two
                },
                paut.token@,
                v.client_data_hash,
            )
            &&& paut.permissions & 0x01 != 0
            &&& paut.has_rp_id ==> paut.rp_id_hash@ == rp_id_hash
            &&& paut.in_use
            &&& paut.user_verified
        }),
{
}

/// Where a credential was handed out, the request passed every check, and the
/// answer is the attestation object around authenticator data for the hash of
/// the requested relying party, with the verification flag exactly where the
/// request was authenticated by a token, the counter as it stood, the id of the
/// new credential, its public key and the extension outputs. The counter moved on
/// by one.
pub proof fn law_credential_answer<S: Storage, R: Rng, P: UserPresence>(
    before: &Ctx<S, R, P>,
    after: &Ctx<S, R, P>,
    t: codec::Talk,
    profile: Profile,
    data: Seq<u8>,
    out_before: Seq<u8>,
    out_after: Seq<u8>,
    n: usize,
)
    requires
        outcome(
            before,
            after,
            t,
            profile,
            data,
            out_before,
            out_after,
            Ok::<usize, CtapError>(n),
        ),
        out_before.len() <= usize::MAX,
    ensures
        mcrequest::request(data, profile) is Ok,
        ({
            let v = mcrequest::request(data, profile)->Ok_0;
            let c = before.fs.contents();
            let hash = crypto::sha256_of(v.rp_id);
            &&& refusal(v, seed::holds(c, EF_EA_ENABLED)) is None
            &&& v.param is None ==> !seed::holds(c, EF_PIN) && !seed::holds(c, EF_ALWAYS_UV)
            &&& gate_of(c, before.state.paut, v, hash) == Gate::Open(v.param is Some)
            &&& seed::counter(after.fs.contents()) == seed::next_counter(seed::counter(c))
            &&& exists|cred: NewCredential, att: attobject::AttView|
                #![trigger cred.cose@, att_for(before, t, v, profile, cred, att)]
                att_for(before, t, v, profile, cred, att) && out_after.take(n as int)
                    == attobject::object_of(
                    attobject::auth_data_of(
                        hash,
                        v.param is Some,
                        seed::counter(c),
                        if v.rk {
                            cred.resident_id@
                        } else {
                            cred.cred_box@
                        },
                        cred.cose@,
                        attobject::ext_outputs(
                            v,
                            if v.min_pin_length {
                                slots::min_pin_for(c, hash)
                            } else {
                                0
                            },
                            cred.hmac_mc@,
                        ),
                    ),
                    att,
                    v.enterprise == 2 || (v.enterprise == 1 && profile.vendor_ea && v.rp_id
                        == encode_utf8("enterprisetest.certinfra.fidoalliance.org"@)),
                    if v.large_blob_key == Some(true) && v.rk {
                        Some(cred.large_blob_key@)
                    } else {
                        None
                    },
                )
        }),
{
    let r = Ok::<usize, CtapError>(n);
    let v = mcrequest::request(data, profile)->Ok_0;
    let c = before.fs.contents();
    let hash = crypto::sha256_of(v.rp_id);
    let uv = v.param is Some;
    assert(admitted(before, after, t, v, profile, out_before, out_after, r));
    law_gate(c, before.state.paut, v, hash);
    let key = before.keydev()->0;
    let job = job_of(before, key, v, uv, profile);
    let (cred, response) = choose|cred: NewCredential, response: Seq<u8>|
        #[trigger] made(before, after, t, job, cred, response) && reply::delivered(
            out_before,
            out_after,
            response,
            r,
        );
    reveal(is_answer);
    reveal(commits);
    reveal(response_of);
    reveal(auth_of);
    let auth = job_auth(job, cred);
    let own = choose|own: attobject::AttView|
        attests(t, job, cred, own) && #[trigger] response_of(
            job.dev,
            job.files.contents,
            job.v,
            job.key,
            job.profile,
            cred,
            auth,
            own,
        ) == Ok::<Seq<u8>, CtapError>(response);
    let att = attested(job.dev, c, key, v, profile, auth + v.client_data_hash, own)->Ok_0;
    assert(out_after.take(n as int) =~= response);
    assert(att_for(before, t, v, profile, cred, att));
}

/// The attestation that belongs to a new credential: with an enterprise request
/// that of an attestation key over the authenticator data and the client data;
/// otherwise the credential's own signature over the same where the profile wants
/// one, and none at all where it does not.
pub open spec fn att_for<S: Storage, R: Rng, P: UserPresence>(
    before: &Ctx<S, R, P>,
    t: codec::Talk,
    v: mcrequest::McView,
    profile: Profile,
    cred: NewCredential,
    att: attobject::AttView,
) -> bool {
    let c = before.fs.contents();
    let key = before.keydev()->0;
    let job = job_of(before, key, v, v.param is Some, profile);
    let msg = job_auth(job, cred) + v.client_data_hash;
    if v.enterprise > 0 {
        attobject::full_attestation(before.dev, c, key, msg, ea_performed(v, profile)) == Ok::<
            attobject::AttView,
            CtapError,
        >(att)
    } else if profile.conformance {
        exists|answer: (i64, Seq<u8>)|
            att == attobject::AttView::Own(answer.0 as int, answer.1) && #[trigger] t.told(
                Ask::Sign {
                    curve: (v.sel->0).1,
                    raw: newcred::material(key, newcred::cred_id_of(v.rk, cred)),
                    msg,
                    answer,
                },
            )
    } else {
        att is Absent
    }
}

/// A probe, a request with an empty parameter, is answered only after a touch, and
/// then tells whether a PIN is set; nothing is made.
pub proof fn law_probe_tells_pin<S: Storage, R: Rng, P: UserPresence>(
    before: &Ctx<S, R, P>,
    after: &Ctx<S, R, P>,
    t: codec::Talk,
    v: mcrequest::McView,
    profile: Profile,
    out_before: Seq<u8>,
    out_after: Seq<u8>,
    r: CtapResult,
)
    requires
        admitted(before, after, t, v, profile, out_before, out_after, r),
        refusal(v, seed::holds(before.fs.contents(), EF_EA_ENABLED)) is None,
        v.param matches Some(x) && x.len() == 0,
    ensures
        after.presence.seen().len() == before.presence.seen().len() + 1,
        after.fs.contents() == before.fs.contents(),
        out_after == out_before,
        after.last_touch() == Presence::Confirmed && seed::holds(before.fs.contents(), EF_PIN)
            ==> r == Err::<usize, CtapError>(CtapError::PinAuthInvalid),
        after.last_touch() == Presence::Confirmed && !seed::holds(before.fs.contents(), EF_PIN)
            ==> r == Err::<usize, CtapError>(CtapError::PinNotSet),
        after.last_touch() == Presence::Cancelled ==> r == Err::<usize, CtapError>(
            CtapError::KeepAliveCancel,
        ),
        r is Err,
{
}

/// A token that was used for a relying party is bound to it, and to no other that
/// it was bound to before; nothing else of it changes.
pub proof fn law_token_is_bound(state: FidoState, uv: bool, rp_id_hash: [u8; 32])
    ensures
        uv ==> passed(state, uv, rp_id_hash).paut.has_rp_id,
        uv && !state.paut.has_rp_id ==> passed(state, uv, rp_id_hash).paut.rp_id_hash == rp_id_hash,
        uv && state.paut.has_rp_id ==> passed(state, uv, rp_id_hash) == state,
        !uv ==> passed(state, uv, rp_id_hash) == state,
        passed(state, uv, rp_id_hash).paut.permissions == state.paut.permissions,
        passed(state, uv, rp_id_hash).paut.token == state.paut.token,
{
}

/// A credential that was handed out is recorded with the front of the hash of its
/// relying party.
pub proof fn law_credential_is_recorded<S: Storage, R: Rng, P: UserPresence>(
    before: &Ctx<S, R, P>,
    after: &Ctx<S, R, P>,
    t: codec::Talk,
    job: Job,
    n: NewCredential,
    response: Seq<u8>,
)
    requires
        made(before, after, t, job, n, response),
        !job.v.rk,
    ensures
        journal::noted(before, after, 1, 0x02, 0, crypto::sha256_of(job.v.rp_id).take(8)),
{
    reveal(commits);
}

}
