//! What the authenticator is built over and does not compute itself: the
//! credential boxes, the keys of the curves beside P-256 and the certificates.

use vstd::prelude::*;

use crate::crypto;

verus! {

/// The extensions that a credential is sealed with.
pub struct CredExt {
    pub cred_protect: u64,
    pub cred_blob: Vec<u8>,
    pub hmac_secret: bool,
    pub large_blob_key: bool,
    pub third_party_payment: bool,
}

/// What a new credential is sealed from.
pub struct CredInput {
    pub rp_id: Vec<u8>,
    pub user_id: Vec<u8>,
    pub user_name: Vec<u8>,
    pub user_display_name: Vec<u8>,
    pub use_sign_count: bool,
    pub rk: bool,
    pub created_ms: u64,
    pub alg: i64,
    pub curve: u8,
    pub ext: CredExt,
}

/// What the logic reads of an opened credential.
pub struct Credential {
    pub user_id: Vec<u8>,
    pub user_name: Vec<u8>,
    pub user_display_name: Vec<u8>,
    pub cred_protect: u64,
    /// The credential is a U2F key handle, not a box.
    pub u2f: bool,
}

/// A file to write: its FID and its contents.
pub struct Record {
    pub fid: u16,
    pub data: Vec<u8>,
}

/// The credential boxes, the keys and the certificates. Nothing is known of
/// what an implementation answers.
pub trait Codec {
    /// Seals a new credential into a box.
    fn create(
        &mut self,
        seed: &[u8; 32],
        input: &CredInput,
        rp_id_hash: &[u8; 32],
        iv: &[u8; 12],
    ) -> Option<Vec<u8>>;

    /// Opens a credential box or a U2F key handle of the relying party.
    fn load(&mut self, seed: &[u8; 32], cred_box: &[u8], rp_id_hash: &[u8; 32]) -> Option<
        Credential,
    >;

    /// Whether an id is that of a resident credential.
    fn is_resident(&self, id: &[u8]) -> bool;

    /// The stable id of a resident credential.
    fn resident_id(&mut self, cred_box: &[u8]) -> [u8; 42];

    /// Seals the records that store a resident credential beside those that are
    /// there; nothing where the store is full.
    fn store(
        &mut self,
        seed: &[u8; 32],
        present: &Vec<Record>,
        cred_box: &[u8],
        rp_id_hash: &[u8; 32],
        rp_id: &[u8],
        user_id: &[u8],
    ) -> Option<Vec<Record>>;

    /// The hmac-secret keys of a credential: without, then with user
    /// verification.
    fn hmac_key(&mut self, seed: &[u8; 32], cred_id: &[u8]) -> [u8; 64];

    /// The large-blob key of a credential.
    fn large_blob_key(&mut self, seed: &[u8; 32], cred_id: &[u8]) -> [u8; 32];

    /// The COSE public key of raw key material on a curve.
    fn cose_public(&mut self, curve: u8, raw: &[u8; 66]) -> Option<Vec<u8>>;

    /// Signs with raw key material on a curve: the COSE algorithm and the
    /// signature.
    fn sign(&mut self, curve: u8, raw: &[u8; 66], msg: &[u8]) -> (i64, Vec<u8>);

    /// A self-signed certificate over the device key.
    fn attestation_cert(&mut self, key: &[u8; 32], serial: &[u8; 16]) -> Option<Vec<u8>>;

    /// Opens the domain of a relying-party record.
    fn open_rp_id(&mut self, seed: &[u8; 32], rp_id_hash: &[u8; 32], sealed: &[u8]) -> Option<
        Vec<u8>,
    >;

    /// Opens the nickname of a relying party.
    fn open_nick(&mut self, seed: &[u8; 32], rp_id_hash: &[u8; 32], sealed: &[u8]) -> Option<
        Vec<u8>,
    >;

    /// Seals the nickname of a relying party.
    fn seal_nick(&mut self, seed: &[u8; 32], rp_id_hash: &[u8; 32], nick: &[u8]) -> Option<
        Vec<u8>,
    >;

    /// Strips the PIN layer from a seed that an earlier format wrapped under
    /// the PIN; `otp` tells the root key that it was sealed under.
    fn strip_pin(&mut self, otp: bool, pin_hash: &[u8], wrapped: &[u8]) -> Option<[u8; 32]>;
}

// ---- the record ----
/// What a credential is sealed from, seen as bytes.
#[verifier::ext_equal]
pub struct InputView {
    pub rp_id: Seq<u8>,
    pub user_id: Seq<u8>,
    pub user_name: Seq<u8>,
    pub user_display_name: Seq<u8>,
    pub use_sign_count: bool,
    pub rk: bool,
    pub created_ms: u64,
    pub alg: i64,
    pub curve: u8,
    pub cred_protect: u64,
    pub cred_blob: Seq<u8>,
    pub hmac_secret: bool,
    pub large_blob_key: bool,
    pub third_party_payment: bool,
}

impl View for CredInput {
    type V = InputView;

    open spec fn view(&self) -> InputView {
        InputView {
            rp_id: self.rp_id@,
            user_id: self.user_id@,
            user_name: self.user_name@,
            user_display_name: self.user_display_name@,
            use_sign_count: self.use_sign_count,
            rk: self.rk,
            created_ms: self.created_ms,
            alg: self.alg,
            curve: self.curve,
            cred_protect: self.ext.cred_protect,
            cred_blob: self.ext.cred_blob@,
            hmac_secret: self.ext.hmac_secret,
            large_blob_key: self.ext.large_blob_key,
            third_party_payment: self.ext.third_party_payment,
        }
    }
}

/// An opened credential, seen as bytes.
#[verifier::ext_equal]
pub struct CredView {
    pub user_id: Seq<u8>,
    pub user_name: Seq<u8>,
    pub user_display_name: Seq<u8>,
    pub cred_protect: u64,
    pub u2f: bool,
}

impl View for Credential {
    type V = CredView;

    open spec fn view(&self) -> CredView {
        CredView {
            user_id: self.user_id@,
            user_name: self.user_name@,
            user_display_name: self.user_display_name@,
            cred_protect: self.cred_protect,
            u2f: self.u2f,
        }
    }
}

/// An opened credential, if there is one.
pub open spec fn seen_cred(r: Option<Credential>) -> Option<CredView> {
    match r {
        Some(c) => Some(c@),
        None => None,
    }
}

/// The files and contents of records.
pub open spec fn seen_records(v: Seq<Record>) -> Seq<(u16, Seq<u8>)> {
    Seq::new(v.len(), |i: int| (v[i].fid, v[i].data@))
}

/// The files and contents of records, if there are any.
pub open spec fn seen_plan(r: Option<Vec<Record>>) -> Option<Seq<(u16, Seq<u8>)>> {
    match r {
        Some(v) => Some(seen_records(v@)),
        None => None,
    }
}

/// A question to the codec with its answer.
#[allow(inconsistent_fields)]
pub enum Ask {
    Create {
        seed: Seq<u8>,
        input: InputView,
        rp_id_hash: Seq<u8>,
        iv: Seq<u8>,
        answer: Option<Seq<u8>>,
    },
    Load { seed: Seq<u8>, cred_box: Seq<u8>, rp_id_hash: Seq<u8>, answer: Option<CredView> },
    IsResident { id: Seq<u8>, answer: bool },
    ResidentId { cred_box: Seq<u8>, answer: Seq<u8> },
    Store {
        seed: Seq<u8>,
        present: Seq<(u16, Seq<u8>)>,
        cred_box: Seq<u8>,
        rp_id_hash: Seq<u8>,
        rp_id: Seq<u8>,
        user_id: Seq<u8>,
        answer: Option<Seq<(u16, Seq<u8>)>>,
    },
    HmacKey { seed: Seq<u8>, cred_id: Seq<u8>, answer: Seq<u8> },
    LargeBlobKey { seed: Seq<u8>, cred_id: Seq<u8>, answer: Seq<u8> },
    CosePublic { curve: u8, raw: Seq<u8>, answer: Option<Seq<u8>> },
    Sign { curve: u8, raw: Seq<u8>, msg: Seq<u8>, answer: (i64, Seq<u8>) },
    AttestationCert { key: Seq<u8>, serial: Seq<u8>, answer: Option<Seq<u8>> },
    OpenRpId { seed: Seq<u8>, rp_id_hash: Seq<u8>, sealed: Seq<u8>, answer: Option<Seq<u8>> },
    OpenNick { seed: Seq<u8>, rp_id_hash: Seq<u8>, sealed: Seq<u8>, answer: Option<Seq<u8>> },
    SealNick { seed: Seq<u8>, rp_id_hash: Seq<u8>, nick: Seq<u8>, answer: Option<Seq<u8>> },
    StripPin { otp: bool, pin_hash: Seq<u8>, wrapped: Seq<u8>, answer: Option<Seq<u8>> },
}

/// A codec with the record of what it was asked and what it answered.
pub struct Recorded<C: Codec> {
    codec: C,
    asked: Ghost<Seq<Ask>>,
}

impl<C: Codec> Recorded<C> {
    /// What the codec was asked so far, in order, with its answers.
    pub closed spec fn asked(&self) -> Seq<Ask> {
        self.asked@
    }

    /// Starts the record of a codec.
    pub fn new(codec: C) -> (r: Self)
        ensures
            r.asked() == Seq::<Ask>::empty(),
    {
        Recorded { codec, asked: Ghost(Seq::empty()) }
    }

    /// Seals a new credential into a box.
    pub fn create(
        &mut self,
        seed: &[u8; 32],
        input: &CredInput,
        rp_id_hash: &[u8; 32],
        iv: &[u8; 12],
    ) -> (r: Option<Vec<u8>>)
        ensures
            final(self).asked() == old(self).asked().push(Ask::Create {
                seed: seed@,
                input: input@,
                rp_id_hash: rp_id_hash@,
                iv: iv@,
                answer: crypto::seen_bytes(r),
            }),
    {
        let r: Option<Vec<u8>> = self.codec.create(seed, input, rp_id_hash, iv);
        self.asked = Ghost(self.asked@.push(Ask::Create {
                seed: seed@,
                input: input@,
                rp_id_hash: rp_id_hash@,
                iv: iv@,
                answer: crypto::seen_bytes(r),
            }));
        r
    }

    /// Opens a credential box or a U2F key handle of the relying party.
    pub fn load(
        &mut self,
        seed: &[u8; 32],
        cred_box: &[u8],
        rp_id_hash: &[u8; 32],
    ) -> (r: Option<Credential>)
        ensures
            final(self).asked() == old(self).asked().push(Ask::Load {
                seed: seed@,
                cred_box: cred_box@,
                rp_id_hash: rp_id_hash@,
                answer: seen_cred(r),
            }),
    {
        let r: Option<Credential> = self.codec.load(seed, cred_box, rp_id_hash);
        self.asked = Ghost(self.asked@.push(Ask::Load {
                seed: seed@,
                cred_box: cred_box@,
                rp_id_hash: rp_id_hash@,
                answer: seen_cred(r),
            }));
        r
    }

    /// Whether an id is that of a resident credential.
    pub fn is_resident(
        &mut self,
        id: &[u8],
    ) -> (r: bool)
        ensures
            final(self).asked() == old(self).asked().push(
                Ask::IsResident { id: id@, answer: r },
            ),
    {
        let r: bool = self.codec.is_resident(id);
        self.asked = Ghost(
            self.asked@.push(Ask::IsResident { id: id@, answer: r }),
        );
        r
    }

    /// The stable id of a resident credential.
    pub fn resident_id(
        &mut self,
        cred_box: &[u8],
    ) -> (r: [u8; 42])
        ensures
            final(self).asked() == old(self).asked().push(
                Ask::ResidentId { cred_box: cred_box@, answer: r@ },
            ),
    {
        let r: [u8; 42] = self.codec.resident_id(cred_box);
        self.asked = Ghost(
            self.asked@.push(Ask::ResidentId { cred_box: cred_box@, answer: r@ }),
        );
        r
    }

    /// Seals the records that store a resident credential.
    pub fn store(
        &mut self,
        seed: &[u8; 32],
        present: &Vec<Record>,
        cred_box: &[u8],
        rp_id_hash: &[u8; 32],
        rp_id: &[u8],
        user_id: &[u8],
    ) -> (r: Option<Vec<Record>>)
        ensures
            final(self).asked() == old(self).asked().push(Ask::Store {
                seed: seed@,
                present: seen_records(present@),
                cred_box: cred_box@,
                rp_id_hash: rp_id_hash@,
                rp_id: rp_id@,
                user_id: user_id@,
                answer: seen_plan(r),
            }),
    {
        let r: Option<Vec<Record>> = self.codec.store(
            seed,
            present,
            cred_box,
            rp_id_hash,
            rp_id,
            user_id,
        );
        self.asked = Ghost(self.asked@.push(Ask::Store {
                seed: seed@,
                present: seen_records(present@),
                cred_box: cred_box@,
                rp_id_hash: rp_id_hash@,
                rp_id: rp_id@,
                user_id: user_id@,
                answer: seen_plan(r),
            }));
        r
    }

    /// The hmac-secret keys of a credential.
    pub fn hmac_key(
        &mut self,
        seed: &[u8; 32],
        cred_id: &[u8],
    ) -> (r: [u8; 64])
        ensures
            final(self).asked() == old(self).asked().push(
                Ask::HmacKey { seed: seed@, cred_id: cred_id@, answer: r@ },
            ),
    {
        let r: [u8; 64] = self.codec.hmac_key(seed, cred_id);
        self.asked = Ghost(
            self.asked@.push(Ask::HmacKey { seed: seed@, cred_id: cred_id@, answer: r@ }),
        );
        r
    }

    /// The large-blob key of a credential.
    pub fn large_blob_key(
        &mut self,
        seed: &[u8; 32],
        cred_id: &[u8],
    ) -> (r: [u8; 32])
        ensures
            final(self).asked() == old(self).asked().push(
                Ask::LargeBlobKey { seed: seed@, cred_id: cred_id@, answer: r@ },
            ),
    {
        let r: [u8; 32] = self.codec.large_blob_key(seed, cred_id);
        self.asked = Ghost(
            self.asked@.push(Ask::LargeBlobKey { seed: seed@, cred_id: cred_id@, answer: r@ }),
        );
        r
    }

    /// The COSE public key of raw key material on a curve.
    pub fn cose_public(
        &mut self,
        curve: u8,
        raw: &[u8; 66],
    ) -> (r: Option<Vec<u8>>)
        ensures
            final(self).asked() == old(self).asked().push(
                Ask::CosePublic { curve, raw: raw@, answer: crypto::seen_bytes(r) },
            ),
    {
        let r: Option<Vec<u8>> = self.codec.cose_public(curve, raw);
        self.asked = Ghost(
            self.asked@.push(Ask::CosePublic { curve, raw: raw@, answer: crypto::seen_bytes(r) }),
        );
        r
    }

    /// Signs with raw key material on a curve.
    pub fn sign(
        &mut self,
        curve: u8,
        raw: &[u8; 66],
        msg: &[u8],
    ) -> (r: (i64, Vec<u8>))
        ensures
            final(self).asked() == old(self).asked().push(
                Ask::Sign { curve, raw: raw@, msg: msg@, answer: (r.0, r.1@) },
            ),
    {
        let r: (i64, Vec<u8>) = self.codec.sign(curve, raw, msg);
        self.asked = Ghost(
            self.asked@.push(Ask::Sign { curve, raw: raw@, msg: msg@, answer: (r.0, r.1@) }),
        );
        r
    }

    /// A self-signed certificate over the device key.
    pub fn attestation_cert(
        &mut self,
        key: &[u8; 32],
        serial: &[u8; 16],
    ) -> (r: Option<Vec<u8>>)
        ensures
            final(self).asked() == old(self).asked().push(Ask::AttestationCert {
                key: key@,
                serial: serial@,
                answer: crypto::seen_bytes(r),
            }),
    {
        let r: Option<Vec<u8>> = self.codec.attestation_cert(key, serial);
        self.asked = Ghost(self.asked@.push(Ask::AttestationCert {
                key: key@,
                serial: serial@,
                answer: crypto::seen_bytes(r),
            }));
        r
    }

    /// Opens the domain of a relying-party record.
    pub fn open_rp_id(
        &mut self,
        seed: &[u8; 32],
        rp_id_hash: &[u8; 32],
        sealed: &[u8],
    ) -> (r: Option<Vec<u8>>)
        ensures
            final(self).asked() == old(self).asked().push(Ask::OpenRpId {
                seed: seed@,
                rp_id_hash: rp_id_hash@,
                sealed: sealed@,
                answer: crypto::seen_bytes(r),
            }),
    {
        let r: Option<Vec<u8>> = self.codec.open_rp_id(seed, rp_id_hash, sealed);
        self.asked = Ghost(self.asked@.push(Ask::OpenRpId {
                seed: seed@,
                rp_id_hash: rp_id_hash@,
                sealed: sealed@,
                answer: crypto::seen_bytes(r),
            }));
        r
    }

    /// Opens the nickname of a relying party.
    pub fn open_nick(
        &mut self,
        seed: &[u8; 32],
        rp_id_hash: &[u8; 32],
        sealed: &[u8],
    ) -> (r: Option<Vec<u8>>)
        ensures
            final(self).asked() == old(self).asked().push(Ask::OpenNick {
                seed: seed@,
                rp_id_hash: rp_id_hash@,
                sealed: sealed@,
                answer: crypto::seen_bytes(r),
            }),
    {
        let r: Option<Vec<u8>> = self.codec.open_nick(seed, rp_id_hash, sealed);
        self.asked = Ghost(self.asked@.push(Ask::OpenNick {
                seed: seed@,
                rp_id_hash: rp_id_hash@,
                sealed: sealed@,
                answer: crypto::seen_bytes(r),
            }));
        r
    }

    /// Seals the nickname of a relying party.
    pub fn seal_nick(
        &mut self,
        seed: &[u8; 32],
        rp_id_hash: &[u8; 32],
        nick: &[u8],
    ) -> (r: Option<Vec<u8>>)
        ensures
            final(self).asked() == old(self).asked().push(Ask::SealNick {
                seed: seed@,
                rp_id_hash: rp_id_hash@,
                nick: nick@,
                answer: crypto::seen_bytes(r),
            }),
    {
        let r: Option<Vec<u8>> = self.codec.seal_nick(seed, rp_id_hash, nick);
        self.asked = Ghost(self.asked@.push(Ask::SealNick {
                seed: seed@,
                rp_id_hash: rp_id_hash@,
                nick: nick@,
                answer: crypto::seen_bytes(r),
            }));
        r
    }

    /// Strips the PIN layer from a PIN-wrapped seed.
    pub fn strip_pin(
        &mut self,
        otp: bool,
        pin_hash: &[u8],
        wrapped: &[u8],
    ) -> (r: Option<[u8; 32]>)
        ensures
            final(self).asked() == old(self).asked().push(Ask::StripPin {
                otp,
                pin_hash: pin_hash@,
                wrapped: wrapped@,
                answer: crypto::seen(r),
            }),
    {
        let r: Option<[u8; 32]> = self.codec.strip_pin(otp, pin_hash, wrapped);
        self.asked = Ghost(self.asked@.push(Ask::StripPin {
                otp,
                pin_hash: pin_hash@,
                wrapped: wrapped@,
                answer: crypto::seen(r),
            }));
        r
    }
}

/// A conversation with a codec: what it had been asked before, and after.
pub struct Talk {
    pub before: Seq<Ask>,
    pub after: Seq<Ask>,
}

impl Talk {
    /// The record only grew.
    pub open spec fn wf(self) -> bool {
        self.before.len() <= self.after.len() && self.after.take(self.before.len() as int)
            == self.before
    }

    /// The question was asked in this conversation, and answered so.
    pub open spec fn told(self, ask: Ask) -> bool {
        self.after.skip(self.before.len() as int).contains(ask)
    }

    /// The conversation is a part of `whole`.
    pub open spec fn within(self, whole: Talk) -> bool {
        forall|ask: Ask| #[trigger] self.told(ask) ==> whole.told(ask)
    }
}

/// What was asked of a codec between two moments.
pub open spec fn talk<C: Codec>(before: &Recorded<C>, after: &Recorded<C>) -> Talk {
    Talk { before: before.asked(), after: after.asked() }
}

/// Two conversations, one after the other, are parts of the whole one.
pub proof fn lemma_talk(a: Seq<Ask>, b: Seq<Ask>, c: Seq<Ask>)
    requires
        (Talk { before: a, after: b }).wf(),
        (Talk { before: b, after: c }).wf(),
    ensures
        (Talk { before: a, after: c }).wf(),
        (Talk { before: a, after: b }).within(Talk { before: a, after: c }),
        (Talk { before: b, after: c }).within(Talk { before: a, after: c }),
{
    let first = Talk { before: a, after: b };
    let second = Talk { before: b, after: c };
    let whole = Talk { before: a, after: c };
    assert(c.take(a.len() as int) =~= c.take(b.len() as int).take(a.len() as int));
    let n = whole.after.skip(a.len() as int);
    assert forall|ask: Ask| #[trigger] first.told(ask) implies whole.told(ask) by {
        let s = b.skip(a.len() as int);
        let i = choose|i: int| 0 <= i < s.len() && s[i] == ask;
        assert(b[a.len() + i] == c.take(b.len() as int)[a.len() + i]);
        assert(n[i] == ask);
    }
    assert forall|ask: Ask| #[trigger] second.told(ask) implies whole.told(ask) by {
        let s = c.skip(b.len() as int);
        let i = choose|i: int| 0 <= i < s.len() && s[i] == ask;
        assert(n[b.len() - a.len() + i] == ask);
    }
}

/// A single question is told.
pub proof fn lemma_asked(a: Seq<Ask>, ask: Ask)
    ensures
        (Talk { before: a, after: a.push(ask) }).wf(),
        (Talk { before: a, after: a.push(ask) }).told(ask),
{
    assert(a.push(ask).take(a.len() as int) =~= a);
    assert(a.push(ask).skip(a.len() as int)[0] == ask);
}

/// Every field of what a credential is sealed from, and of an opened credential,
/// is seen under its own name.
pub proof fn law_credential_fields(i: CredInput, c: Credential)
    ensures
        i@.rp_id == i.rp_id@,
        i@.user_id == i.user_id@,
        i@.user_name == i.user_name@,
        i@.user_display_name == i.user_display_name@,
        i@.use_sign_count == i.use_sign_count,
        i@.rk == i.rk,
        i@.created_ms == i.created_ms,
        i@.alg == i.alg,
        i@.curve == i.curve,
        i@.cred_protect == i.ext.cred_protect,
        i@.cred_blob == i.ext.cred_blob@,
        i@.hmac_secret == i.ext.hmac_secret,
        i@.large_blob_key == i.ext.large_blob_key,
        i@.third_party_payment == i.ext.third_party_payment,
        c@.user_id == c.user_id@,
        c@.user_name == c.user_name@,
        c@.user_display_name == c.user_display_name@,
        c@.cred_protect == c.cred_protect,
        c@.u2f == c.u2f,
{
}

}
