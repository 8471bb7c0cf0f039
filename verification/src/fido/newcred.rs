//! The making of a credential: which credentials exclude it, what the codec
//! seals and derives for it, and how its records are stored. The codec decides
//! what a box holds; what it is asked and what is done with its answers is
//! stated over its record.

use vstd::prelude::*;

use crate::crypto;
use crate::fido::codec;
use crate::fido::codec::{Ask, Codec, CredExt, CredInput, CredView, Credential, Record, Recorded};
use crate::fido::consts::{
    CRED_BOX_MAX, CRED_PROT_UV_REQUIRED, CRED_REC_MAX, CRED_RESIDENT_LEN, EF_CRED, EF_RP,
    RP_REC_MAX, USER_NAME_MAX,
};
use crate::fido::device::Device;
use crate::fido::error::CtapError;
use crate::fido::frame;
use crate::fido::hmacsecret;
use crate::fido::keyderiv;
use crate::fido::keyderiv::fido_load_key;
use crate::fido::makecredential;
use crate::fido::makecredential::{truncate_utf8, Profile};
use crate::fido::mcrequest;
use crate::fido::mcrequest::Request;
use crate::fido::seed;
use crate::fido::slots;
use crate::fido::slots::{find_resident, read_record, slot_map};
use crate::fido::{Drawn, Rng};
use crate::fs::{Fs, Storage, MAX_DYNAMIC_FILES};
use crate::wipe::wipe;

verus! {

/// What a credential is made from: the device, its files and its seed, the
/// ephemeral key, the time, the request, whether the user is verified, and
/// what the build chose.
pub struct Job {
    pub dev: Device,
    pub files: slots::Files,
    pub key: Seq<u8>,
    pub ephemeral: Seq<u8>,
    pub now_ms: u64,
    pub v: mcrequest::McView,
    pub uv: bool,
    pub profile: Profile,
}

impl Job {
    /// The hash of the relying party.
    pub open spec fn hash(self) -> Seq<u8> {
        crypto::sha256_of(self.v.rp_id)
    }

    /// The curve of the new key.
    pub open spec fn curve(self) -> u8 {
        (self.v.sel->0).1
    }
}

// ---- excluded credentials ----
/// A credential may be seen: one that requires verification only by a verified
/// user.
pub open spec fn visible(cred_protect: u64, uv: bool) -> bool {
    cred_protect != CRED_PROT_UV_REQUIRED || uv
}

/// Whether what an id was opened as excludes a new credential.
pub open spec fn hits(c: Option<CredView>, uv: bool) -> bool {
    match c {
        Some(x) => visible(x.cred_protect, uv),
        None => false,
    }
}

/// Whether an opened credential excludes a new one.
pub fn excludes(c: &Option<Credential>, uv: bool) -> (r: bool)
    ensures
        r == hits(codec::seen_cred(*c), uv),
{
    match c {
        Some(x) => x.cred_protect != CRED_PROT_UV_REQUIRED || uv,
        None => false,
    }
}

/// What an id was opened as: the stored box of a resident credential, or the id
/// itself.
pub open spec fn looked_up(
    t: codec::Talk,
    f: slots::Files,
    key: Seq<u8>,
    rp_id_hash: Seq<u8>,
    id: Seq<u8>,
    found: Option<CredView>,
) -> bool {
    ||| {
        &&& t.told(Ask::IsResident { id, answer: false })
        &&& t.told(Ask::Load { seed: key, cred_box: id, rp_id_hash, answer: found })
    }
    ||| {
        &&& t.told(Ask::IsResident { id, answer: true })
        &&& if id.len() != CRED_RESIDENT_LEN {
            found is None
        } else {
            match slots::resident_box(f, rp_id_hash, id, 0) {
                None => found is None,
                Some(b) => t.told(
                    Ask::Load { seed: key, cred_box: b, rp_id_hash, answer: found },
                ),
            }
        }
    }
}

/// The id was looked up, and excludes a new credential or not.
pub open spec fn screened(
    t: codec::Talk,
    f: slots::Files,
    key: Seq<u8>,
    rp_id_hash: Seq<u8>,
    id: Seq<u8>,
    uv: bool,
    hit: bool,
) -> bool {
    exists|found: Option<CredView>| #[trigger]
        looked_up(t, f, key, rp_id_hash, id, found) && hit == hits(found, uv)
}

/// Whether an id names a credential of the relying party that may be seen.
pub fn exclude_hit<S: Storage, C: Codec>(
    fs: &mut Fs<S>,
    codec: &mut Recorded<C>,
    seed: &[u8; 32],
    rp_id_hash: &[u8; 32],
    id: &[u8],
    uv: bool,
) -> (r: bool)
    requires
        old(fs).wf(),
    ensures
        final(fs).wf(),
        final(fs).reread(old(fs)),
        codec::talk(old(codec), final(codec)).wf(),
        screened(
            codec::talk(old(codec), final(codec)),
            slots::files(old(fs)),
            seed@,
            rp_id_hash@,
            id@,
            uv,
            r,
        ),
{
    let ghost f = slots::files(fs);
    let ghost a = codec.asked();
    let resident: bool = codec.is_resident(id);
    let ghost b = codec.asked();
    proof {
        codec::lemma_asked(a, Ask::IsResident { id: id@, answer: resident });
    }
    let mut cred_box: Vec<u8> = Vec::new();
    if resident {
        if id.len() != CRED_RESIDENT_LEN {
            assert(looked_up(codec::talk(old(codec), codec), f, seed@, rp_id_hash@, id@, None));
            return false;
        }
        match find_resident(fs, rp_id_hash, id) {
            Some(x) => {
                cred_box = x;
            },
            None => {
                assert(looked_up(
                    codec::talk(old(codec), codec),
                    f,
                    seed@,
                    rp_id_hash@,
                    id@,
                    None,
                ));
                return false;
            },
        }
    }
    let opened: &[u8] = if resident {
        cred_box.as_slice()
    } else {
        id
    };
    let c: Option<Credential> = codec.load(seed, opened, rp_id_hash);
    proof {
        let ask = Ask::Load {
            seed: seed@,
            cred_box: opened@,
            rp_id_hash: rp_id_hash@,
            answer: codec::seen_cred(c),
        };
        codec::lemma_asked(b, ask);
        codec::lemma_talk(a, b, codec.asked());
        let first = codec::Talk { before: a, after: b };
        let second = codec::Talk { before: b, after: codec.asked() };
        assert(first.told(Ask::IsResident { id: id@, answer: resident }));
        assert(second.told(ask));
        assert(looked_up(
            codec::talk(old(codec), codec),
            f,
            seed@,
            rp_id_hash@,
            id@,
            codec::seen_cred(c),
        ));
    }
    excludes(&c, uv)
}

/// One of the ids excludes a new credential.
#[verifier::opaque]
pub open spec fn excluded(t: codec::Talk, job: Job) -> bool {
    exists|i: int|
        0 <= i < job.v.exclude.len() && screened(
            t,
            job.files,
            job.key,
            job.hash(),
            #[trigger] job.v.exclude[i],
            job.uv,
            true,
        )
}

/// Every id was looked up, and none excludes a new credential.
#[verifier::opaque]
pub open spec fn unexcluded(t: codec::Talk, job: Job) -> bool {
    forall|i: int|
        0 <= i < job.v.exclude.len() ==> screened(
            t,
            job.files,
            job.key,
            job.hash(),
            #[trigger] job.v.exclude[i],
            job.uv,
            false,
        )
}

pub(crate) fn any_excluded<S: Storage, C: Codec>(
    fs: &mut Fs<S>,
    codec: &mut Recorded<C>,
    seed: &[u8; 32],
    rp_id_hash: &[u8; 32],
    req: &Request,
    uv: bool,
    Ghost(job): Ghost<Job>,
) -> (r: bool)
    requires
        old(fs).wf(),
        rp_id_hash@ == crypto::sha256_of(req.rp_id@),
        job.files == slots::files(old(fs)),
        job.key == seed@,
        job.v == req@,
        job.uv == uv,
    ensures
        final(fs).wf(),
        final(fs).reread(old(fs)),
        codec::talk(old(codec), final(codec)).wf(),
        r ==> excluded(codec::talk(old(codec), final(codec)), job),
        !r ==> unexcluded(codec::talk(old(codec), final(codec)), job),
{
    let ghost f = slots::files(fs);
    let ghost start = codec.asked();
    assert(start.take(start.len() as int) =~= start);
    let mut i: usize = 0;
    while i < req.exclude.len()
        invariant
            i <= req.exclude@.len(),
            fs.wf(),
            fs.reread(old(fs)),
            f == slots::files(old(fs)),
            start == old(codec).asked(),
            rp_id_hash@ == crypto::sha256_of(req.rp_id@),
            job.files == f,
            job.key == seed@,
            job.v == req@,
            job.uv == uv,
            (codec::Talk { before: start, after: codec.asked() }).wf(),
            forall|x: int|
                0 <= x < i ==> screened(
                    codec::Talk { before: start, after: codec.asked() },
                    f,
                    seed@,
                    rp_id_hash@,
                    #[trigger] req@.exclude[x],
                    uv,
                    false,
                ),
        decreases req.exclude@.len() - i,
    {
        let ghost asked = codec.asked();
        assert(slots::files(fs) == f);
        let hit: bool = exclude_hit(fs, codec, seed, rp_id_hash, req.exclude[i], uv);
        proof {
            codec::lemma_talk(start, asked, codec.asked());
            let was = codec::Talk { before: start, after: asked };
            let own = codec::Talk { before: asked, after: codec.asked() };
            let t = codec::Talk { before: start, after: codec.asked() };
            assert(req@.exclude[i as int] == req.exclude@[i as int]@);
            lemma_screened(own, t, f, seed@, rp_id_hash@, req@.exclude[i as int], uv, hit);
            assert forall|x: int| 0 <= x < i implies screened(
                t,
                f,
                seed@,
                rp_id_hash@,
                #[trigger] req@.exclude[x],
                uv,
                false,
            ) by {
                lemma_screened(was, t, f, seed@, rp_id_hash@, req@.exclude[x], uv, false);
            }
        }
        if hit {
            reveal(excluded);
            assert(codec::talk(old(codec), codec) == (codec::Talk {
                before: start,
                after: codec.asked(),
            }));
            return true;
        }
        i += 1;
    }
    reveal(unexcluded);
    assert(codec::talk(old(codec), codec) == (codec::Talk { before: start, after: codec.asked() }));
    false
}

proof fn lemma_screened(
    t: codec::Talk,
    whole: codec::Talk,
    f: slots::Files,
    key: Seq<u8>,
    rp_id_hash: Seq<u8>,
    id: Seq<u8>,
    uv: bool,
    hit: bool,
)
    requires
        screened(t, f, key, rp_id_hash, id, uv, hit),
        t.within(whole),
    ensures
        screened(whole, f, key, rp_id_hash, id, uv, hit),
{
    let found = choose|found: Option<CredView>| #[trigger]
        looked_up(t, f, key, rp_id_hash, id, found) && hit == hits(found, uv);
    assert(looked_up(whole, f, key, rp_id_hash, id, found));
}

// ---- the credential ----
/// What the codec gave for a new credential.
pub struct NewCredential {
    pub cred_box: Vec<u8>,
    pub resident_id: [u8; 42],
    pub cose: Vec<u8>,
    /// The hmac-secret output; empty where none was asked for.
    pub hmac_mc: Vec<u8>,
    pub large_blob_key: [u8; 32],
}

/// The id under which the relying party knows the credential.
pub open spec fn cred_id_of(rk: bool, n: NewCredential) -> Seq<u8> {
    if rk {
        n.resident_id@
    } else {
        n.cred_box@
    }
}

/// What a new credential of a request is sealed from.
pub open spec fn input_of(v: mcrequest::McView, now_ms: u64) -> codec::InputView {
    codec::InputView {
        rp_id: v.rp_id,
        user_id: v.user_id,
        user_name: makecredential::truncated(v.user_name, USER_NAME_MAX as int),
        user_display_name: makecredential::truncated(v.user_display_name, USER_NAME_MAX as int),
        use_sign_count: true,
        rk: v.rk,
        created_ms: now_ms,
        alg: (v.sel->0).0,
        curve: (v.sel->0).1,
        cred_protect: v.cred_protect as u64,
        cred_blob: v.cred_blob,
        hmac_secret: v.hmac_secret,
        large_blob_key: v.large_blob_key == Some(true),
        third_party_payment: v.third_party_payment,
    }
}

/// What a new credential of a request is sealed from.
pub fn cred_input(req: &Request, alg: i64, curve: u8, now_ms: u64) -> (r: CredInput)
    requires
        req.sel == Some((alg, curve)),
    ensures
        r@ == input_of(req@, now_ms),
{
    let r = CredInput {
        rp_id: vstd::slice::slice_to_vec(req.rp_id),
        user_id: vstd::slice::slice_to_vec(req.user_id),
        user_name: vstd::slice::slice_to_vec(truncate_utf8(req.user_name, USER_NAME_MAX)),
        user_display_name: vstd::slice::slice_to_vec(
            truncate_utf8(req.user_display_name, USER_NAME_MAX),
        ),
        use_sign_count: true,
        rk: req.rk,
        created_ms: now_ms,
        alg,
        curve,
        ext: CredExt {
            cred_protect: req.ext_cred_protect,
            cred_blob: vstd::slice::slice_to_vec(req.ext_cred_blob),
            hmac_secret: req.ext_hmac_secret,
            large_blob_key: req.ext_large_blob_key == Some(true),
            third_party_payment: req.ext_third_party_payment,
        },
    };
    assert(r@ =~= input_of(req@, now_ms));
    r
}

/// A box was sealed for the job with the first of the draws `d`, or refused.
pub open spec fn sealed(
    t: codec::Talk,
    job: Job,
    d: Seq<Seq<u8>>,
    answer: Option<Seq<u8>>,
) -> bool {
    &&& d.len() > 0
    &&& d[0].len() == 12
    &&& t.told(
        Ask::Create {
            seed: job.key,
            input: input_of(job.v, job.now_ms),
            rp_id_hash: job.hash(),
            iv: d[0],
            answer,
        },
    )
}

/// The key material of a credential id.
pub open spec fn material(key: Seq<u8>, id: Seq<u8>) -> Seq<u8> {
    keyderiv::key_material(key, keyderiv::credential_path(id))
}

/// The hmac-secret output of a new credential: the salts of the request under
/// the key of its id, encrypted with the second of the draws `d`; none where it
/// was not asked for.
pub open spec fn hmac_given(
    t: codec::Talk,
    job: Job,
    d: Seq<Seq<u8>>,
    id: Seq<u8>,
    output: Seq<u8>,
) -> bool {
    if job.v.hmac_secret_mc.present {
        d.len() == 2 && exists|secrets: Seq<u8>|
            secrets.len() == 64 && #[trigger] hmacsecret::evaluated(
                job.v.hmac_secret_mc,
                job.ephemeral,
                job.uv,
                secrets,
                d[1],
                output,
            ) && t.told(Ask::HmacKey { seed: job.key, cred_id: id, answer: secrets })
    } else {
        d.len() == 1 && output.len() == 0
    }
}

/// The credential is the one of the job: its box was sealed for it, its id is
/// that of the box, its public key that of the material which the id derives,
/// and what was asked for beside belongs to the id.
#[verifier::opaque]
pub open spec fn crafted(
    t: codec::Talk,
    job: Job,
    d: Seq<Seq<u8>>,
    n: NewCredential,
) -> bool {
    let id = cred_id_of(job.v.rk, n);
    &&& sealed(t, job, d, Some(n.cred_box@))
    &&& n.cred_box@.len() <= CRED_BOX_MAX
    &&& id.len() >= 32
    &&& t.told(Ask::ResidentId { cred_box: n.cred_box@, answer: n.resident_id@ })
    &&& t.told(
        Ask::CosePublic { curve: job.curve(), raw: material(job.key, id), answer: Some(n.cose@) },
    )
    &&& hmac_given(t, job, d, id, n.hmac_mc@)
    &&& job.v.large_blob_key == Some(true) && job.v.rk ==> t.told(
        Ask::LargeBlobKey { seed: job.key, cred_id: id, answer: n.large_blob_key@ },
    )
}

/// The material of the id of a box has no public half.
pub open spec fn keyless(
    t: codec::Talk,
    job: Job,
    cred_box: Seq<u8>,
    resident_id: Seq<u8>,
) -> bool {
    let id = if job.v.rk {
        resident_id
    } else {
        cred_box
    };
    &&& t.told(Ask::ResidentId { cred_box, answer: resident_id })
    &&& t.told(Ask::CosePublic { curve: job.curve(), raw: material(job.key, id), answer: None })
}

/// The hmac-secret request of a job is refused with `e`.
pub open spec fn hmac_refused(job: Job, e: CtapError) -> bool {
    &&& job.v.hmac_secret_mc.present
    &&& match hmacsecret::salts_of(job.v.hmac_secret_mc, job.ephemeral) {
        Err(x) => x == e,
        Ok(_) => false,
    }
}

/// Why no credential could be made: no box was sealed, or none of a fitting
/// length; its key has no public half; or the hmac-secret request was refused.
#[verifier::opaque]
pub open spec fn not_made(
    t: codec::Talk,
    job: Job,
    d: Seq<Seq<u8>>,
    e: CtapError,
) -> bool {
    ||| e == CtapError::Other && sealed(t, job, d, None)
    ||| exists|b: Seq<u8>| #[trigger]
        sealed(t, job, d, Some(b)) && if b.len() > CRED_BOX_MAX {
            e == CtapError::Other
        } else {
            underived(t, job, b, e)
        }
}

/// Why nothing could be derived from a sealed box.
pub open spec fn underived(t: codec::Talk, job: Job, cred_box: Seq<u8>, e: CtapError) -> bool {
    ||| e == CtapError::Other && !job.v.rk && cred_box.len() < 32
    ||| e == CtapError::Other && exists|id: Seq<u8>| #[trigger] keyless(t, job, cred_box, id)
    ||| hmac_refused(job, e)
}

/// Seals a new credential and derives what belongs to it, with the raw key
/// material.
pub(crate) fn new_credential<R: Rng, C: Codec>(
    rng: &mut Drawn<R>,
    codec: &mut Recorded<C>,
    req: &Request,
    sel: (i64, u8),
    ephemeral: &[u8; 32],
    now_ms: u64,
    rp_id_hash: &[u8; 32],
    seed: &[u8; 32],
    uv: bool,
    Ghost(job): Ghost<Job>,
) -> (r: Result<(NewCredential, [u8; 66]), CtapError>)
    requires
        job.key == seed@,
        job.ephemeral == ephemeral@,
        job.now_ms == now_ms,
        job.v == req@,
        job.uv == uv,
        req.sel == Some(sel),
        rp_id_hash@ == crypto::sha256_of(req.rp_id@),
    ensures
        codec::talk(old(codec), final(codec)).wf(),
        match r {
            Ok(x) => {
                &&& crafted(
                    codec::talk(old(codec), final(codec)),
                    job,
                    final(rng).drawn().skip(old(rng).drawn().len() as int),
                    x.0,
                )
                &&& x.1@ == material(seed@, cred_id_of(req.rk, x.0))
            },
            Err(e) => not_made(
                codec::talk(old(codec), final(codec)),
                job,
                final(rng).drawn().skip(old(rng).drawn().len() as int),
                e,
            ),
        },
        final(rng).drawn().take(old(rng).drawn().len() as int) == old(rng).drawn(),
{
    reveal(not_made);
    reveal(crafted);
    let ghost start = codec.asked();
    let ghost drawn = rng.drawn();
    let mut iv = [0u8; 12];
    rng.fill(&mut iv);
    let ghost first = rng.drawn();
    assert(first.take(drawn.len() as int) =~= drawn);
    assert(first.skip(drawn.len() as int) =~= seq![iv@]);
    let input: CredInput = cred_input(req, sel.0, sel.1, now_ms);
    let boxed: Option<Vec<u8>> = codec.create(seed, &input, rp_id_hash, &iv);
    let ghost asked = codec.asked();
    proof {
        let ask = Ask::Create {
            seed: seed@,
            input: input@,
            rp_id_hash: rp_id_hash@,
            iv: iv@,
            answer: crypto::seen_bytes(boxed),
        };
        codec::lemma_asked(start, ask);
        assert((codec::Talk { before: start, after: asked }).told(ask));
        assert(sealed(
            codec::Talk { before: start, after: asked },
            job,
            seq![iv@],
            crypto::seen_bytes(boxed),
        ));
    }
    let cred_box: Vec<u8> = match boxed {
        Some(b) => b,
        None => {
            return Err(CtapError::Other);
        },
    };
    if cred_box.len() > CRED_BOX_MAX {
        assert(sealed(codec::talk(old(codec), codec), job, seq![iv@], Some(cred_box@)));
        return Err(CtapError::Other);
    }
    let ghost bytes = cred_box@;
    let r: Result<(NewCredential, [u8; 66]), CtapError> = derive(
        rng,
        codec,
        req,
        sel.1,
        ephemeral,
        seed,
        uv,
        cred_box,
        Ghost(job),
        Ghost(iv@),
    );
    proof {
        let own = codec::Talk { before: asked, after: codec.asked() };
        let t = codec::talk(old(codec), codec);
        codec::lemma_talk(start, asked, codec.asked());
        let d = rng.drawn().skip(drawn.len() as int);
        assert(rng.drawn().take(drawn.len() as int) =~= first.take(drawn.len() as int));
        assert(d[0] == first[drawn.len() as int]);
        lemma_sealed(codec::Talk { before: start, after: asked }, t, job, seq![iv@], Some(bytes));
        assert(sealed(t, job, d, Some(bytes)));
        if r is Ok {
            let n = (r->Ok_0).0;
            let id = cred_id_of(job.v.rk, n);
            assert(own.told(Ask::ResidentId { cred_box: n.cred_box@, answer: n.resident_id@ }));
            assert(d =~= seq![iv@] + rng.drawn().skip(first.len() as int));
            lemma_hmac_given(own, t, job, d, id, n.hmac_mc@);
        } else {
            lemma_underived(own, t, job, bytes, r->Err_0);
        }
    }
    r
}

/// What follows from a sealed box: the ids, the keys and the outputs.
fn derive<R: Rng, C: Codec>(
    rng: &mut Drawn<R>,
    codec: &mut Recorded<C>,
    req: &Request,
    curve: u8,
    ephemeral: &[u8; 32],
    seed: &[u8; 32],
    uv: bool,
    cred_box: Vec<u8>,
    Ghost(job): Ghost<Job>,
    Ghost(iv): Ghost<Seq<u8>>,
) -> (r: Result<(NewCredential, [u8; 66]), CtapError>)
    requires
        job.key == seed@,
        job.ephemeral == ephemeral@,
        job.v == req@,
        job.uv == uv,
        job.curve() == curve,
    ensures
        codec::talk(old(codec), final(codec)).wf(),
        match r {
            Ok(x) => {
                let t = codec::talk(old(codec), final(codec));
                let id = cred_id_of(req.rk, x.0);
                &&& x.0.cred_box == cred_box
                &&& x.1@ == material(seed@, id)
                &&& id.len() >= 32
                &&& t.told(Ask::ResidentId { cred_box: cred_box@, answer: x.0.resident_id@ })
                &&& t.told(
                    Ask::CosePublic {
                        curve,
                        raw: material(seed@, id),
                        answer: Some(x.0.cose@),
                    },
                )
                &&& hmac_given(
                    t,
                    job,
                    seq![iv] + final(rng).drawn().skip(old(rng).drawn().len() as int),
                    id,
                    x.0.hmac_mc@,
                )
                &&& req.ext_large_blob_key == Some(true) && req.rk ==> t.told(
                    Ask::LargeBlobKey {
                        seed: seed@,
                        cred_id: id,
                        answer: x.0.large_blob_key@,
                    },
                )
            },
            Err(e) => underived(codec::talk(old(codec), final(codec)), job, cred_box@, e),
        },
        final(rng).drawn().len() >= old(rng).drawn().len(),
        final(rng).drawn().take(old(rng).drawn().len() as int) == old(rng).drawn(),
{
    let ghost drawn = rng.drawn();
    assert(drawn.take(drawn.len() as int) =~= drawn);
    let ghost start = codec.asked();
    let resident_id: [u8; 42] = codec.resident_id(cred_box.as_slice());
    let ghost a1 = codec.asked();
    let ghost k1 = Ask::ResidentId { cred_box: cred_box@, answer: resident_id@ };
    proof {
        codec::lemma_asked(start, k1);
    }
    let key_id: &[u8] = if req.rk {
        &resident_id
    } else {
        cred_box.as_slice()
    };
    let mut raw: [u8; 66] = match fido_load_key(seed, key_id) {
        Some(k) => k,
        None => {
            return Err(CtapError::Other);
        },
    };
    let public: Option<Vec<u8>> = codec.cose_public(curve, &raw);
    let ghost a2 = codec.asked();
    let ghost k2 = Ask::CosePublic {
        curve,
        raw: material(seed@, key_id@),
        answer: crypto::seen_bytes(public),
    };
    proof {
        codec::lemma_asked(a1, k2);
        codec::lemma_talk(start, a1, a2);
        assert((codec::Talk { before: start, after: a1 }).told(k1));
        assert((codec::Talk { before: a1, after: a2 }).told(k2));
        assert((codec::Talk { before: start, after: a2 }).told(k1));
        assert((codec::Talk { before: start, after: a2 }).told(k2));
    }
    let cose: Vec<u8> = match public {
        Some(p) => p,
        None => {
            assert(keyless(codec::talk(old(codec), codec), job, cred_box@, resident_id@));
            wipe(&mut raw);
            return Err(CtapError::Other);
        },
    };
    let hmac_mc: Vec<u8> = if req.hmac_secret_mc.present {
        match hmacsecret::eval(&req.hmac_secret_mc, ephemeral, seed, codec, key_id, uv, rng) {
            Ok(v) => v,
            Err(e) => {
                proof {
                    codec::lemma_talk(start, a2, codec.asked());
                }
                wipe(&mut raw);
                return Err(e);
            },
        }
    } else {
        assert(a2.take(a2.len() as int) =~= a2);
        Vec::new()
    };
    let ghost a3 = codec.asked();
    proof {
        let own = codec::Talk { before: a2, after: a3 };
        let t = codec::Talk { before: start, after: a3 };
        codec::lemma_talk(start, a2, a3);
        assert(t.told(k1) && t.told(k2));
        assert(rng.drawn().take(drawn.len() as int) =~= drawn);
        let d = seq![iv] + rng.drawn().skip(drawn.len() as int);
        if req.hmac_secret_mc.present {
            assert(d[1] == rng.drawn().last());
            let secrets = choose|secrets: Seq<u8>|
                secrets.len() == 64 && #[trigger] hmacsecret::evaluated(
                    req.hmac_secret_mc@,
                    ephemeral@,
                    uv,
                    secrets,
                    rng.drawn().last(),
                    hmac_mc@,
                ) && own.told(
                    Ask::HmacKey { seed: seed@, cred_id: key_id@, answer: secrets },
                );
            assert(hmacsecret::evaluated(
                job.v.hmac_secret_mc,
                job.ephemeral,
                job.uv,
                secrets,
                d[1],
                hmac_mc@,
            ));
        }
        assert(hmac_given(t, job, d, key_id@, hmac_mc@));
    }
    let large_blob_key: [u8; 32] = if req.ext_large_blob_key == Some(true) && req.rk {
        let k: [u8; 32] = codec.large_blob_key(seed, key_id);
        proof {
            let k4 = Ask::LargeBlobKey { seed: seed@, cred_id: key_id@, answer: k@ };
            codec::lemma_asked(a3, k4);
            codec::lemma_talk(start, a3, codec.asked());
            assert((codec::Talk { before: a3, after: codec.asked() }).told(k4));
            assert((codec::Talk { before: start, after: codec.asked() }).told(k4));
        }
        k
    } else {
        [0u8; 32]
    };
    proof {
        let was = codec::Talk { before: start, after: a3 };
        let t = codec::Talk { before: start, after: codec.asked() };
        assert(was.within(t));
        assert(t.told(k1) && t.told(k2));
        lemma_hmac_given(
            was,
            t,
            job,
            seq![iv] + rng.drawn().skip(drawn.len() as int),
            key_id@,
            hmac_mc@,
        );
    }
    Ok((NewCredential { cred_box, resident_id, cose, hmac_mc, large_blob_key }, raw))
}

proof fn lemma_hmac_given(
    t: codec::Talk,
    whole: codec::Talk,
    job: Job,
    d: Seq<Seq<u8>>,
    id: Seq<u8>,
    output: Seq<u8>,
)
    requires
        hmac_given(t, job, d, id, output),
        t.within(whole),
    ensures
        hmac_given(whole, job, d, id, output),
{
    if job.v.hmac_secret_mc.present {
        let secrets = choose|secrets: Seq<u8>|
            secrets.len() == 64 && #[trigger] hmacsecret::evaluated(
                job.v.hmac_secret_mc,
                job.ephemeral,
                job.uv,
                secrets,
                d[1],
                output,
            ) && t.told(Ask::HmacKey { seed: job.key, cred_id: id, answer: secrets });
        assert(hmacsecret::evaluated(
            job.v.hmac_secret_mc,
            job.ephemeral,
            job.uv,
            secrets,
            d[1],
            output,
        ));
        assert(t.told(Ask::HmacKey { seed: job.key, cred_id: id, answer: secrets }));
    }
}

proof fn lemma_sealed(
    t: codec::Talk,
    whole: codec::Talk,
    job: Job,
    d: Seq<Seq<u8>>,
    answer: Option<Seq<u8>>,
)
    requires
        sealed(t, job, d, answer),
        t.within(whole),
    ensures
        sealed(whole, job, d, answer),
{
}

/// What was told in a part of a conversation was told in the whole.
pub proof fn lemma_crafted(
    t: codec::Talk,
    whole: codec::Talk,
    job: Job,
    d: Seq<Seq<u8>>,
    n: NewCredential,
)
    requires
        crafted(t, job, d, n),
        t.within(whole),
    ensures
        crafted(whole, job, d, n),
{
    reveal(crafted);
    lemma_sealed(t, whole, job, d, Some(n.cred_box@));
    lemma_hmac_given(t, whole, job, d, cred_id_of(job.v.rk, n), n.hmac_mc@);
}

/// What was told in a part of a conversation was told in the whole.
pub proof fn lemma_not_made(
    t: codec::Talk,
    whole: codec::Talk,
    job: Job,
    d: Seq<Seq<u8>>,
    e: CtapError,
)
    requires
        not_made(t, job, d, e),
        t.within(whole),
    ensures
        not_made(whole, job, d, e),
{
    reveal(not_made);
    if e == CtapError::Other && sealed(t, job, d, None) {
        lemma_sealed(t, whole, job, d, None);
    } else {
        let b = choose|b: Seq<u8>| #[trigger]
            sealed(t, job, d, Some(b)) && if b.len() > CRED_BOX_MAX {
                e == CtapError::Other
            } else {
                underived(t, job, b, e)
            };
        lemma_sealed(t, whole, job, d, Some(b));
        if b.len() <= CRED_BOX_MAX {
            lemma_underived(t, whole, job, b, e);
        }
    }
}

proof fn lemma_underived(
    t: codec::Talk,
    whole: codec::Talk,
    job: Job,
    cred_box: Seq<u8>,
    e: CtapError,
)
    requires
        underived(t, job, cred_box, e),
        t.within(whole),
    ensures
        underived(whole, job, cred_box, e),
{
    assert forall|id: Seq<u8>| #[trigger] keyless(t, job, cred_box, id) implies keyless(
        whole,
        job,
        cred_box,
        id,
    ) by {}
}

/// What was told in a part of a conversation was told in the whole.
pub proof fn lemma_excluded(t: codec::Talk, whole: codec::Talk, job: Job)
    requires
        t.within(whole),
    ensures
        excluded(t, job) ==> excluded(whole, job),
        unexcluded(t, job) ==> unexcluded(whole, job),
{
    reveal(excluded);
    reveal(unexcluded);
    if excluded(t, job) {
        let i = choose|i: int|
            0 <= i < job.v.exclude.len() && screened(
                t,
                job.files,
                job.key,
                job.hash(),
                #[trigger] job.v.exclude[i],
                job.uv,
                true,
            );
        lemma_screened(
            t,
            whole,
            job.files,
            job.key,
            job.hash(),
            job.v.exclude[i],
            job.uv,
            true,
        );
    }
    if unexcluded(t, job) {
        assert forall|i: int| 0 <= i < job.v.exclude.len() implies screened(
            whole,
            job.files,
            job.key,
            job.hash(),
            #[trigger] job.v.exclude[i],
            job.uv,
            false,
        ) by {
            lemma_screened(
                t,
                whole,
                job.files,
                job.key,
                job.hash(),
                job.v.exclude[i],
                job.uv,
                false,
            );
        }
    }
}

// ---- the records ----
/// The file is one of the slots of credentials or relying parties.
pub open spec fn is_slot(fid: u16) -> bool {
    EF_CRED <= fid < EF_CRED + 256 || EF_RP <= fid < EF_RP + 256
}

/// The records in the first `n` slots from `base` on.
pub open spec fn records_from(f: slots::Files, base: u16, cap: nat, n: nat) -> Seq<(u16, Seq<u8>)>
    decreases n,
{
    if n == 0 {
        Seq::empty()
    } else {
        let rest = records_from(f, base, cap, (n - 1) as nat);
        match slots::record(f, base, n - 1, cap) {
            Some(rec) => rest.push(((base + n - 1) as u16, rec)),
            None => rest,
        }
    }
}

/// The stored credentials, then the stored relying parties.
pub open spec fn records_in(f: slots::Files) -> Seq<(u16, Seq<u8>)> {
    records_from(f, EF_CRED, CRED_REC_MAX as nat, 256) + records_from(
        f,
        EF_RP,
        RP_REC_MAX as nat,
        256,
    )
}

fn collect_records<S: Storage>(fs: &mut Fs<S>, base: u16, cap: usize, v: &mut Vec<Record>)
    requires
        old(fs).wf(),
        base <= 0xff00,
    ensures
        final(fs).wf(),
        final(fs).reread(old(fs)),
        codec::seen_records(final(v)@) == codec::seen_records(old(v)@) + records_from(
            slots::files(old(fs)),
            base,
            cap as nat,
            256,
        ),
{
    let ghost f = slots::files(fs);
    let ghost v0 = codec::seen_records(v@);
    let occupied: Vec<bool> = slot_map(fs, base);
    let mut i: u16 = 0;
    assert(codec::seen_records(v@) =~= v0 + records_from(f, base, cap as nat, 0));
    while i < 256
        invariant
            i <= 256,
            base <= 0xff00,
            fs.wf(),
            fs.reread(old(fs)),
            f == slots::files(old(fs)),
            occupied@.len() == 256,
            forall|x: int|
                0 <= x < 256 ==> #[trigger] occupied@[x] == old(fs).listed().contains(
                    (base + x) as u16,
                ),
            codec::seen_records(v@) == v0 + records_from(f, base, cap as nat, i as nat),
        decreases 256 - i,
    {
        assert(fs.listed() == old(fs).listed());
        assert(slots::files(fs) == f);
        let ghost before = v@;
        if let Some(data) = read_record(fs, &occupied, base, i, cap) {
            let ghost e = ((base + i) as u16, data@);
            v.push(Record { fid: base + i, data });
            assert(codec::seen_records(v@) =~= codec::seen_records(before).push(e));
            assert(codec::seen_records(v@) =~= v0 + records_from(
                f,
                base,
                cap as nat,
                (i + 1) as nat,
            ));
        } else {
            assert(records_from(f, base, cap as nat, (i + 1) as nat) == records_from(
                f,
                base,
                cap as nat,
                i as nat,
            ));
        }
        i += 1;
    }
}

/// Every record of a plan is for a slot and holds something.
pub open spec fn plan_ok(p: Seq<(u16, Seq<u8>)>) -> bool {
    forall|i: int| 0 <= i < p.len() ==> is_slot((#[trigger] p[i]).0) && p[i].1.len() > 0
}

/// The files after the first `n` records of a plan were written.
pub open spec fn applied(c: Map<u16, Seq<u8>>, p: Seq<(u16, Seq<u8>)>, n: nat) -> Map<u16, Seq<u8>>
    decreases n,
{
    if n == 0 {
        c
    } else {
        applied(c, p, (n - 1) as nat).insert(p[n - 1].0, p[n - 1].1)
    }
}

/// The codec planned the records of a resident credential.
pub open spec fn planned(
    t: codec::Talk,
    job: Job,
    cred_box: Seq<u8>,
    plan: Option<Seq<(u16, Seq<u8>)>>,
) -> bool {
    t.told(
        Ask::Store {
            seed: job.key,
            present: records_in(job.files),
            cred_box,
            rp_id_hash: job.hash(),
            rp_id: job.v.rp_id,
            user_id: job.v.user_id,
            answer: plan,
        },
    )
}

/// Some of the first records of a plan were written, and no other.
pub open spec fn begun(
    a: Map<u16, Seq<u8>>,
    b: Map<u16, Seq<u8>>,
    p: Seq<(u16, Seq<u8>)>,
) -> bool {
    exists|k: nat| k <= p.len() && b == #[trigger] applied(a, p, k)
}

/// A plan was carried out, or not: without a plan, for one that is not for
/// slots, or where the backend failed or has no room. The records up to there
/// were written.
pub open spec fn carried_out<S: Storage>(
    before: &Fs<S>,
    c: Map<u16, Seq<u8>>,
    plan: Option<Seq<(u16, Seq<u8>)>>,
    stored: bool,
) -> bool {
    match plan {
        None => !stored && c == before.contents(),
        Some(p) => if stored {
            plan_ok(p) && c == applied(before.contents(), p, p.len())
        } else {
            &&& begun(before.contents(), c, p)
            &&& !plan_ok(p) || !before.reliable() || before.dynamic().len() + p.len()
                > MAX_DYNAMIC_FILES
        },
    }
}

/// Stores a resident credential as the codec plans it. Only slots of credentials
/// and relying parties are written.
pub(crate) fn store_resident<S: Storage, C: Codec>(
    fs: &mut Fs<S>,
    codec: &mut Recorded<C>,
    seed: &[u8; 32],
    cred_box: &[u8],
    rp_id_hash: &[u8; 32],
    rp_id: &[u8],
    user_id: &[u8],
    Ghost(job): Ghost<Job>,
) -> (stored: bool)
    requires
        old(fs).wf(),
        job.key == seed@,
        job.files == slots::files(old(fs)),
        job.v.rp_id == rp_id@,
        job.v.user_id == user_id@,
        rp_id_hash@ == crypto::sha256_of(rp_id@),
    ensures
        final(fs).wf(),
        final(fs).reliable() == old(fs).reliable(),
        frame::kept_but(old(fs).contents(), final(fs).contents(), |g: u16| is_slot(g)),
        forall|g: u16| #[trigger]
            old(fs).dynamic().contains(g) ==> final(fs).dynamic().contains(g),
        codec::talk(old(codec), final(codec)).wf(),
        exists|plan: Option<Seq<(u16, Seq<u8>)>>| #[trigger]
            planned(codec::talk(old(codec), final(codec)), job, cred_box@, plan) && carried_out(
                old(fs),
                final(fs).contents(),
                plan,
                stored,
            ) && (stored ==> final(fs).dynamic().len() <= old(fs).dynamic().len() + plan->0.len()),
{
    let ghost asked = codec.asked();
    let mut present: Vec<Record> = Vec::new();
    assert(codec::seen_records(present@) =~= Seq::<(u16, Seq<u8>)>::empty());
    collect_records(fs, EF_CRED, CRED_REC_MAX, &mut present);
    assert(slots::files(fs) == job.files);
    collect_records(fs, EF_RP, RP_REC_MAX, &mut present);
    assert(codec::seen_records(present@) =~= records_in(job.files));
    let answer: Option<Vec<Record>> = codec.store(
        seed,
        &present,
        cred_box,
        rp_id_hash,
        rp_id,
        user_id,
    );
    let ghost t = codec::talk(old(codec), codec);
    proof {
        codec::lemma_asked(
            asked,
            Ask::Store {
                seed: job.key,
                present: records_in(job.files),
                cred_box: cred_box@,
                rp_id_hash: job.hash(),
                rp_id: job.v.rp_id,
                user_id: job.v.user_id,
                answer: codec::seen_plan(answer),
            },
        );
        assert(planned(t, job, cred_box@, codec::seen_plan(answer)));
    }
    let plan: Vec<Record> = match answer {
        Some(p) => p,
        None => {
            return false;
        },
    };
    let ghost p = codec::seen_records(plan@);
    assert(planned(t, job, cred_box@, Some(p)));
    let ghost mid = *fs;
    let mut i: usize = 0;
    while i < plan.len()
        invariant
            i <= plan@.len(),
            fs.wf(),
            fs.reliable() == old(fs).reliable(),
            mid.reread(old(fs)),
            p == codec::seen_records(plan@),
            t == codec::talk(old(codec), codec),
            t.wf(),
            planned(t, job, cred_box@, Some(p)),
            forall|x: int| 0 <= x < i ==> is_slot((#[trigger] p[x]).0) && p[x].1.len() > 0,
            fs.contents() == applied(old(fs).contents(), p, i as nat),
            fs.dynamic().len() <= old(fs).dynamic().len() + i,
            forall|g: u16| #[trigger]
                old(fs).dynamic().contains(g) ==> fs.dynamic().contains(g),
            frame::kept_but(old(fs).contents(), fs.contents(), |g: u16| is_slot(g)),
        decreases plan@.len() - i,
    {
        let fid: u16 = plan[i].fid;
        assert(p[i as int] == (fid, plan@[i as int].data@));
        let slot: bool = (EF_CRED <= fid && fid - EF_CRED < 256) || (EF_RP <= fid && fid - EF_RP
            < 256);
        if !slot || plan[i].data.len() == 0 {
            assert(!plan_ok(p));
            assert(begun(old(fs).contents(), fs.contents(), p));
            assert(carried_out(old(fs), fs.contents(), Some(p), false));
            return false;
        }
        proof {
            seed::lemma_known(fs.dynamic(), fid);
        }
        if fs.put(fid, plan[i].data.as_slice()).is_err() {
            assert(begun(old(fs).contents(), fs.contents(), p));
            assert(carried_out(old(fs), fs.contents(), Some(p), false));
            return false;
        }
        i += 1;
    }
    assert(plan_ok(p));
    assert(carried_out(old(fs), fs.contents(), Some(p), true));
    true
}

/// What a new credential is made from. Its box was sealed with the request's
/// relying party, user, algorithm, protection and extensions, under the device
/// key and a fresh initialisation vector of twelve bytes; its public key is that
/// of the key material which its id derives; and the id is that of the box for a
/// resident credential and the box itself otherwise.
pub proof fn law_crafted_from_request(
    t: codec::Talk,
    job: Job,
    d: Seq<Seq<u8>>,
    n: NewCredential,
)
    requires
        crafted(t, job, d, n),
    ensures
        d.len() > 0,
        d[0].len() == 12,
        n.cred_box@.len() <= 748,
        exists|input: codec::InputView| #[trigger]
            t.told(
                Ask::Create {
                    seed: job.key,
                    input,
                    rp_id_hash: crypto::sha256_of(job.v.rp_id),
                    iv: d[0],
                    answer: Some(n.cred_box@),
                },
            ) && {
                &&& input.rp_id == job.v.rp_id
                &&& input.user_id == job.v.user_id
                &&& input.user_name == makecredential::truncated(job.v.user_name, 64)
                &&& input.user_display_name == makecredential::truncated(
                    job.v.user_display_name,
                    64,
                )
                &&& input.use_sign_count
                &&& input.rk == job.v.rk
                &&& input.created_ms == job.now_ms
                &&& Some((input.alg, input.curve)) == (match job.v.sel {
                    Some(c) => Some(c),
                    None => Some((input.alg, input.curve)),
                })
                &&& 0 <= job.v.cred_protect <= u32::MAX ==> input.cred_protect
                    == job.v.cred_protect
                &&& input.cred_blob == job.v.cred_blob
                &&& input.hmac_secret == job.v.hmac_secret
                &&& input.large_blob_key == (job.v.large_blob_key == Some(true))
                &&& input.third_party_payment == job.v.third_party_payment
            },
        ({
            let id = if job.v.rk {
                n.resident_id@
            } else {
                n.cred_box@
            };
            &&& id.len() >= 32
            &&& t.told(Ask::ResidentId { cred_box: n.cred_box@, answer: n.resident_id@ })
            &&& job.v.sel matches Some(c) ==> t.told(
                Ask::CosePublic {
                    curve: c.1,
                    raw: keyderiv::key_material(job.key, keyderiv::credential_path(id)),
                    answer: Some(n.cose@),
                },
            )
            &&& job.v.hmac_secret_mc.present <==> d.len() == 2
            &&& !job.v.hmac_secret_mc.present ==> n.hmac_mc@.len() == 0
            &&& job.v.large_blob_key == Some(true) && job.v.rk ==> t.told(
                Ask::LargeBlobKey { seed: job.key, cred_id: id, answer: n.large_blob_key@ },
            )
        }),
{
    reveal(crafted);
    let input = input_of(job.v, job.now_ms);
    assert(t.told(
        Ask::Create {
            seed: job.key,
            input,
            rp_id_hash: crypto::sha256_of(job.v.rp_id),
            iv: d[0],
            answer: Some(n.cred_box@),
        },
    ));
}

/// A credential that requires verification is seen only by a verified user; one
/// that does not is always seen.
pub proof fn law_protected_credential_is_hidden(c: CredView, uv: bool)
    ensures
        hits(Some(c), uv) <==> uv || c.cred_protect != 3,
        !hits(None, uv),
{
}

/// A plan that was carried out leaves in each of its files the last record that it
/// has for it, and every other file as it was.
pub proof fn law_plan_is_applied(
    c: Map<u16, Seq<u8>>,
    p: Seq<(u16, Seq<u8>)>,
    n: nat,
    i: int,
    g: u16,
)
    requires
        0 <= i < n <= p.len(),
        forall|j: int| i < j < n ==> (#[trigger] p[j]).0 != p[i].0,
    ensures
        applied(c, p, n).contains_key(p[i].0),
        applied(c, p, n)[p[i].0] == p[i].1,
        (forall|j: int| 0 <= j < n ==> (#[trigger] p[j]).0 != g) ==> applied(c, p, n).contains_key(
            g,
        ) == c.contains_key(g) && applied(c, p, n)[g] == c[g],
    decreases n,
{
    lemma_applied_elsewhere(c, p, n, g);
    let m = (n - 1) as nat;
    if i < m {
        law_plan_is_applied(c, p, m, i, g);
        assert(p[m as int].0 != p[i].0);
    }
}

proof fn lemma_applied_elsewhere(c: Map<u16, Seq<u8>>, p: Seq<(u16, Seq<u8>)>, n: nat, g: u16)
    requires
        n <= p.len(),
    ensures
        (forall|j: int| 0 <= j < n ==> (#[trigger] p[j]).0 != g) ==> applied(c, p, n).contains_key(
            g,
        ) == c.contains_key(g) && applied(c, p, n)[g] == c[g],
    decreases n,
{
    if n > 0 {
        lemma_applied_elsewhere(c, p, (n - 1) as nat, g);
        if forall|j: int| 0 <= j < n ==> (#[trigger] p[j]).0 != g {
            assert(p[n - 1].0 != g);
        }
    }
}

/// What the codec is shown of the store: every credential and every relying party
/// that is stored, with its file.
pub proof fn law_records_are_shown(f: slots::Files, base: u16, cap: nat, n: nat, i: int)
    requires
        0 <= i < n <= 256,
        slots::record(f, base, i, cap) is Some,
    ensures
        records_from(f, base, cap, n).contains(
            ((base + i) as u16, slots::record(f, base, i, cap)->0),
        ),
        records_in(f) == records_from(f, EF_CRED, CRED_REC_MAX as nat, 256) + records_from(
            f,
            EF_RP,
            RP_REC_MAX as nat,
            256,
        ),
    decreases n,
{
    let m = (n - 1) as nat;
    let x = ((base + i) as u16, slots::record(f, base, i, cap)->0);
    if i < m {
        law_records_are_shown(f, base, cap, m, i);
        let k = records_from(f, base, cap, m).index_of(x);
        assert(records_from(f, base, cap, n)[k] == x);
    } else {
        assert(records_from(f, base, cap, n).last() == x);
    }
}

/// Where nothing excludes a new credential, every id of the list was looked up
/// under the relying party of the request, and opened as nothing or as what the
/// user may not see without verification.
pub proof fn law_unexcluded(t: codec::Talk, job: Job, i: int) -> (found: Option<CredView>)
    requires
        unexcluded(t, job),
        0 <= i < job.v.exclude.len(),
    ensures
        found matches Some(c) ==> c.cred_protect == 3 && !job.uv,
        t.told(Ask::IsResident { id: job.v.exclude[i], answer: false }) || t.told(
            Ask::IsResident { id: job.v.exclude[i], answer: true },
        ),
        !t.told(Ask::IsResident { id: job.v.exclude[i], answer: true }) ==> t.told(
            Ask::Load {
                seed: job.key,
                cred_box: job.v.exclude[i],
                rp_id_hash: crypto::sha256_of(job.v.rp_id),
                answer: found,
            },
        ),
{
    reveal(unexcluded);
    let id = job.v.exclude[i];
    assert(screened(t, job.files, job.key, job.hash(), id, job.uv, false));
    choose|found: Option<CredView>| #[trigger]
        looked_up(t, job.files, job.key, job.hash(), id, found) && false == hits(found, job.uv)
}

/// A credential is refused as excluded only where an id of the list opened as a
/// credential of the relying party that the user may see.
pub proof fn law_excluded(t: codec::Talk, job: Job) -> (r: (int, CredView))
    requires
        excluded(t, job),
    ensures
        0 <= r.0 < job.v.exclude.len(),
        r.1.cred_protect != 3 || job.uv,
        looked_up(
            t,
            job.files,
            job.key,
            crypto::sha256_of(job.v.rp_id),
            job.v.exclude[r.0],
            Some(r.1),
        ),
{
    reveal(excluded);
    let i = choose|i: int|
        0 <= i < job.v.exclude.len() && screened(
            t,
            job.files,
            job.key,
            job.hash(),
            #[trigger] job.v.exclude[i],
            job.uv,
            true,
        );
    let found = choose|found: Option<CredView>| #[trigger]
        looked_up(t, job.files, job.key, job.hash(), job.v.exclude[i], found) && true == hits(
            found,
            job.uv,
        );
    (i, found->0)
}

}
