//! The resident credentials as the device's own display lists them, names and
//! deletes them. The walks never write; the seed is loaded, used and wiped
//! within each call.

use vstd::prelude::*;
use vstd::slice::slice_subrange;

use crate::crypto;
use crate::fido::codec;
use crate::fido::codec::{Ask, Codec, CredView, Credential, Recorded};
use crate::fido::consts::{
    CRED_REC_MAX, EF_CRED, EF_RP, EF_RPNICK, FID_KEY_DEV, NICK_BOX_MAX, RECORD_PREFIX,
    RP_NICK_MAX_LEN, RP_PREFIX, RP_REC_MAX,
};
use crate::fido::device::Device;
use crate::fido::frame;
use crate::fido::seed;
use crate::fido::seed::load_keydev;
use crate::fido::slots;
use crate::fido::slots::{find_rp, read_record, slot_map};
use crate::fs::dynamic;
use crate::fs::file_system;
use crate::fs::file_system::EF_META;
use crate::fs::{Fs, Storage};
use crate::sdk::{array32, same_bytes};
use crate::wipe::wipe;

verus! {

/// A relying party with resident credentials.
pub struct RpView {
    /// The domain.
    pub rp_id: Vec<u8>,
    /// The key that the walk over the credentials takes.
    pub rp_id_hash: [u8; 32],
    /// The number of resident credentials.
    pub count: u8,
    /// The name that was given on the device, if any.
    pub nickname: Option<Vec<u8>>,
}

/// The account of a resident credential.
pub struct AccountView {
    pub user_name: Vec<u8>,
    pub user_display_name: Vec<u8>,
    pub user_id: Vec<u8>,
    pub cred_protect: u64,
    /// The file of the credential, which a deletion takes.
    pub ef_cred_fid: u16,
}

// ---- records ----
/// A stored relying party, still sealed.
pub struct RpRecord {
    pub rp_id_hash: [u8; 32],
    pub count: u8,
    pub sealed: Vec<u8>,
    pub nick: Option<Vec<u8>>,
}

/// What a stored relying party holds.
#[verifier::ext_equal]
pub struct RpRecView {
    pub hash: Seq<u8>,
    pub count: u8,
    pub sealed: Seq<u8>,
    pub nick: Option<Seq<u8>>,
}

impl View for RpRecord {
    type V = RpRecView;

    open spec fn view(&self) -> RpRecView {
        RpRecView {
            hash: self.rp_id_hash@,
            count: self.count,
            sealed: self.sealed@,
            nick: crypto::seen_bytes(self.nick),
        }
    }
}

/// The relying party in slot `i`, with the nickname in the slot beside it; none
/// for a short record or one without credentials.
pub open spec fn rp_at(f: slots::Files, i: int) -> Option<RpRecView> {
    match slots::record(f, EF_RP, i, RP_REC_MAX as nat) {
        Some(rec) => if rec.len() >= RP_PREFIX && rec[0] != 0 {
            Some(
                RpRecView {
                    hash: rec.subrange(1, 33),
                    count: rec[0],
                    sealed: rec.skip(33),
                    nick: slots::record(f, EF_RPNICK, i, NICK_BOX_MAX as nat),
                },
            )
        } else {
            None
        },
        None => None,
    }
}

/// The relying parties in the first `n` slots, in slot order.
pub open spec fn rps_in(f: slots::Files, n: nat) -> Seq<RpRecView>
    decreases n,
{
    if n == 0 {
        Seq::empty()
    } else {
        match rp_at(f, n - 1) {
            Some(r) => rps_in(f, (n - 1) as nat).push(r),
            None => rps_in(f, (n - 1) as nat),
        }
    }
}

/// The records, seen as such.
pub open spec fn seen_rps(v: Seq<RpRecord>) -> Seq<RpRecView> {
    Seq::new(v.len(), |i: int| v[i]@)
}

/// Reads the stored relying parties, in slot order.
pub fn rp_records<S: Storage>(fs: &mut Fs<S>) -> (r: Vec<RpRecord>)
    requires
        old(fs).wf(),
    ensures
        final(fs).wf(),
        final(fs).reread(old(fs)),
        seen_rps(r@) == rps_in(slots::files(old(fs)), 256),
        r@.len() <= 256,
{
    let ghost f = slots::files(fs);
    let occupied: Vec<bool> = slot_map(fs, EF_RP);
    let named: Vec<bool> = slot_map(fs, EF_RPNICK);
    let mut out: Vec<RpRecord> = Vec::new();
    assert(seen_rps(out@) =~= rps_in(f, 0));
    let mut i: u16 = 0;
    while i < 256
        invariant
            i <= 256,
            fs.wf(),
            fs.reread(old(fs)),
            f == slots::files(old(fs)),
            occupied@.len() == 256,
            named@.len() == 256,
            forall|x: int|
                0 <= x < 256 ==> #[trigger] occupied@[x] == f.listed.contains((EF_RP + x) as u16),
            forall|x: int|
                0 <= x < 256 ==> #[trigger] named@[x] == f.listed.contains(
                    (EF_RPNICK + x) as u16,
                ),
            seen_rps(out@) == rps_in(f, i as nat),
            out@.len() <= i,
        decreases 256 - i,
    {
        assert(slots::files(fs) == f);
        let ghost before = out@;
        if let Some(rec) = read_record(fs, &occupied, EF_RP, i, RP_REC_MAX) {
            let b: &[u8] = rec.as_slice();
            if b.len() >= RP_PREFIX && b[0] != 0 {
                let hash: &[u8] = slice_subrange(b, 1, 33);
                let n: usize = b.len();
                let rest: &[u8] = slice_subrange(b, 33, n);
                assert(rest@ =~= b@.skip(33));
                assert(slots::files(fs) == f);
                let nick: Option<Vec<u8>> = read_record(fs, &named, EF_RPNICK, i, NICK_BOX_MAX);
                let r = RpRecord {
                    rp_id_hash: array32(hash),
                    count: b[0],
                    sealed: vstd::slice::slice_to_vec(rest),
                    nick,
                };
                assert(rp_at(f, i as int) == Some(r@));
                out.push(r);
                assert(seen_rps(out@) =~= seen_rps(before).push(r@));
            }
        }
        i += 1;
    }
    out
}

/// The credential of the relying party in slot `i`, still sealed.
pub open spec fn cred_at(f: slots::Files, rp_id_hash: Seq<u8>, i: int) -> Option<Seq<u8>> {
    match slots::record(f, EF_CRED, i, CRED_REC_MAX as nat) {
        Some(rec) => if rec.len() >= RECORD_PREFIX && rec.take(32) == rp_id_hash {
            Some(rec.skip(74))
        } else {
            None
        },
        None => None,
    }
}

/// The credentials of the relying party in the first `n` slots, in slot order:
/// file and box of each.
pub open spec fn creds_in(f: slots::Files, rp_id_hash: Seq<u8>, n: nat) -> Seq<(u16, Seq<u8>)>
    decreases n,
{
    if n == 0 {
        Seq::empty()
    } else {
        let rest = creds_in(f, rp_id_hash, (n - 1) as nat);
        match cred_at(f, rp_id_hash, n - 1) {
            Some(b) => rest.push(((EF_CRED + n - 1) as u16, b)),
            None => rest,
        }
    }
}

/// The files and boxes, seen as such.
pub open spec fn seen_creds(v: Seq<(u16, Vec<u8>)>) -> Seq<(u16, Seq<u8>)> {
    Seq::new(v.len(), |i: int| (v[i].0, v[i].1@))
}

/// Reads the stored credentials of a relying party, in slot order.
pub fn cred_records<S: Storage>(fs: &mut Fs<S>, rp_id_hash: &[u8; 32]) -> (r: Vec<(u16, Vec<u8>)>)
    requires
        old(fs).wf(),
    ensures
        final(fs).wf(),
        final(fs).reread(old(fs)),
        seen_creds(r@) == creds_in(slots::files(old(fs)), rp_id_hash@, 256),
        r@.len() <= 256,
{
    let ghost f = slots::files(fs);
    let occupied: Vec<bool> = slot_map(fs, EF_CRED);
    let mut out: Vec<(u16, Vec<u8>)> = Vec::new();
    assert(seen_creds(out@) =~= creds_in(f, rp_id_hash@, 0));
    let mut i: u16 = 0;
    while i < 256
        invariant
            i <= 256,
            fs.wf(),
            fs.reread(old(fs)),
            f == slots::files(old(fs)),
            occupied@.len() == 256,
            forall|x: int|
                0 <= x < 256 ==> #[trigger] occupied@[x] == f.listed.contains(
                    (EF_CRED + x) as u16,
                ),
            seen_creds(out@) == creds_in(f, rp_id_hash@, i as nat),
            out@.len() <= i,
        decreases 256 - i,
    {
        assert(slots::files(fs) == f);
        let ghost before = out@;
        if let Some(rec) = read_record(fs, &occupied, EF_CRED, i, CRED_REC_MAX) {
            let b: &[u8] = rec.as_slice();
            let n: usize = b.len();
            if n >= RECORD_PREFIX {
                let hash: &[u8] = slice_subrange(b, 0, 32);
                assert(hash@ =~= b@.take(32));
                if same_bytes(hash, rp_id_hash) {
                    let rest: &[u8] = slice_subrange(b, 74, n);
                    assert(rest@ =~= b@.skip(74));
                    let v: Vec<u8> = vstd::slice::slice_to_vec(rest);
                    let ghost e = (((EF_CRED + i) as u16), v@);
                    out.push((EF_CRED + i, v));
                    assert(seen_creds(out@) =~= seen_creds(before).push(e));
                }
            }
        }
        i += 1;
    }
    out
}

// ---- walks ----
/// What a listed relying party shows.
#[verifier::ext_equal]
pub struct RpShown {
    pub rp_id: Seq<u8>,
    pub hash: Seq<u8>,
    pub count: u8,
    pub nickname: Option<Seq<u8>>,
}

impl View for RpView {
    type V = RpShown;

    open spec fn view(&self) -> RpShown {
        RpShown {
            rp_id: self.rp_id@,
            hash: self.rp_id_hash@,
            count: self.count,
            nickname: crypto::seen_bytes(self.nickname),
        }
    }
}

/// The listed relying parties, as what they show.
pub open spec fn shown_rps(v: Seq<RpView>) -> Seq<RpShown> {
    Seq::new(v.len(), |i: int| v[i]@)
}

/// What the codec opened of a stored relying party: its domain, and its nickname
/// where the domain opened and there is one.
pub open spec fn rp_told(
    t: codec::Talk,
    seed: Seq<u8>,
    rec: RpRecView,
    a: (Option<Seq<u8>>, Option<Seq<u8>>),
) -> bool {
    &&& t.told(
        Ask::OpenRpId { seed, rp_id_hash: rec.hash, sealed: rec.sealed, answer: a.0 },
    )
    &&& match (a.0, rec.nick) {
        (Some(_), Some(n)) => t.told(
            Ask::OpenNick { seed, rp_id_hash: rec.hash, sealed: n, answer: a.1 },
        ),
        _ => a.1 is None,
    }
}

/// The first `n` relying parties that opened, in their order.
pub open spec fn opened_rps(
    recs: Seq<RpRecView>,
    answers: Seq<(Option<Seq<u8>>, Option<Seq<u8>>)>,
    n: nat,
) -> Seq<RpShown>
    decreases n,
{
    if n == 0 {
        Seq::empty()
    } else {
        let rest = opened_rps(recs, answers, (n - 1) as nat);
        let r = recs[n - 1];
        match answers[n - 1].0 {
            Some(rp_id) => rest.push(
                RpShown { rp_id, hash: r.hash, count: r.count, nickname: answers[n - 1].1 },
            ),
            None => rest,
        }
    }
}

/// The list is that of the stored relying parties that opened.
pub open spec fn lists_rps(
    t: codec::Talk,
    seed: Seq<u8>,
    recs: Seq<RpRecView>,
    answers: Seq<(Option<Seq<u8>>, Option<Seq<u8>>)>,
    list: Seq<RpShown>,
) -> bool {
    &&& answers.len() == recs.len()
    &&& forall|i: int| 0 <= i < recs.len() ==> rp_told(t, seed, recs[i], #[trigger] answers[i])
    &&& list == opened_rps(recs, answers, recs.len())
}

/// The outcome of a walk over the relying parties: none without a seed, otherwise
/// those that opened.
pub open spec fn walks_rps(
    t: codec::Talk,
    seed: Option<Seq<u8>>,
    recs: Seq<RpRecView>,
    list: Seq<RpShown>,
) -> bool {
    &&& seed is None ==> list.len() == 0
    &&& seed is Some ==> exists|answers: Seq<(Option<Seq<u8>>, Option<Seq<u8>>)>| #[trigger]
        lists_rps(t, seed->0, recs, answers, list)
}

proof fn lemma_opened_rps(
    recs: Seq<RpRecView>,
    a: Seq<(Option<Seq<u8>>, Option<Seq<u8>>)>,
    b: Seq<(Option<Seq<u8>>, Option<Seq<u8>>)>,
    n: nat,
)
    requires
        n <= a.len() <= b.len(),
        forall|i: int| 0 <= i < n ==> a[i] == b[i],
    ensures
        opened_rps(recs, a, n) == opened_rps(recs, b, n),
    decreases n,
{
    if n > 0 {
        lemma_opened_rps(recs, a, b, (n - 1) as nat);
    }
}

/// Lists the relying parties that have resident credentials, in slot order. One
/// whose domain does not open is left out; without a seed there are none.
pub fn for_each_rp<S: Storage, C: Codec>(
    dev: &Device,
    fs: &mut Fs<S>,
    codec: &mut Recorded<C>,
) -> (r: Vec<RpView>)
    requires
        old(fs).wf(),
    ensures
        final(fs).wf(),
        final(fs).reread(old(fs)),
        codec::talk(old(codec), final(codec)).wf(),
        walks_rps(
            codec::talk(old(codec), final(codec)),
            seed::loaded(*dev, old(fs).contents(), FID_KEY_DEV),
            rps_in(slots::files(old(fs)), 256),
            shown_rps(r@),
        ),
{
    let ghost start = codec.asked();
    assert(start.take(start.len() as int) =~= start);
    let mut out: Vec<RpView> = Vec::new();
    let ghost all = rps_in(slots::files(fs), 256);
    let ghost mut answers: Seq<(Option<Seq<u8>>, Option<Seq<u8>>)> = Seq::empty();
    let mut seed: [u8; 32] = match load_keydev(dev, fs) {
        Some(s) => s,
        None => {
            return out;
        },
    };
    let ghost key = seed@;
    assert(seed::loaded(*dev, old(fs).contents(), FID_KEY_DEV) == Some(key));
    let recs: Vec<RpRecord> = rp_records(fs);
    assert(slots::files(old(fs)) == slots::files(fs));
    assert(shown_rps(out@) =~= opened_rps(all, answers, 0));
    let mut i: usize = 0;
    while i < recs.len()
        invariant
            i <= recs@.len(),
            seen_rps(recs@) == all,
            seed@ == key,
            answers.len() == i,
            (codec::Talk { before: start, after: codec.asked() }).wf(),
            forall|x: int|
                0 <= x < i ==> rp_told(
                    codec::Talk { before: start, after: codec.asked() },
                    key,
                    all[x],
                    #[trigger] answers[x],
                ),
            shown_rps(out@) == opened_rps(all, answers, i as nat),
        decreases recs@.len() - i,
    {
        let rec: &RpRecord = &recs[i];
        assert(seen_rps(recs@)[i as int] == rec@);
        let ghost before = out@;
        let ghost was = answers;
        let ghost asked = codec.asked();
        let (domain, nickname) = open_rp(codec, &seed, rec);
        proof {
            codec::lemma_talk(start, asked, codec.asked());
            answers = answers.push((crypto::seen_bytes(domain), crypto::seen_bytes(nickname)));
            lemma_opened_rps(all, was, answers, i as nat);
            let t = codec::Talk { before: start, after: codec.asked() };
            assert forall|x: int| 0 <= x < i + 1 implies rp_told(
                t,
                key,
                all[x],
                #[trigger] answers[x],
            ) by {
                if x < i {
                    assert(answers[x] == was[x]);
                }
            }
        }
        if let Some(rp_id) = domain {
            let v = RpView { rp_id, rp_id_hash: rec.rp_id_hash, count: rec.count, nickname };
            out.push(v);
            assert(shown_rps(out@) =~= shown_rps(before).push(v@));
        }
        i += 1;
    }
    wipe(&mut seed);
    assert(lists_rps(
        codec::talk(old(codec), codec),
        seed::loaded(*dev, old(fs).contents(), FID_KEY_DEV)->0,
        all,
        answers,
        shown_rps(out@),
    ));
    out
}

/// Opens the domain of a stored relying party, and its nickname.
fn open_rp<C: Codec>(codec: &mut Recorded<C>, seed: &[u8; 32], rec: &RpRecord) -> (r: (
    Option<Vec<u8>>,
    Option<Vec<u8>>,
))
    ensures
        codec::talk(old(codec), final(codec)).wf(),
        rp_told(
            codec::talk(old(codec), final(codec)),
            seed@,
            rec@,
            (crypto::seen_bytes(r.0), crypto::seen_bytes(r.1)),
        ),
{
    let ghost a = codec.asked();
    let domain: Option<Vec<u8>> = codec.open_rp_id(seed, &rec.rp_id_hash, rec.sealed.as_slice());
    let ghost b = codec.asked();
    proof {
        codec::lemma_asked(
            a,
            Ask::OpenRpId {
                seed: seed@,
                rp_id_hash: rec.rp_id_hash@,
                sealed: rec.sealed@,
                answer: crypto::seen_bytes(domain),
            },
        );
    }
    if domain.is_none() {
        return (domain, None);
    }
    match &rec.nick {
        Some(n) => {
            let nick: Option<Vec<u8>> = codec.open_nick(seed, &rec.rp_id_hash, n.as_slice());
            proof {
                codec::lemma_asked(
                    b,
                    Ask::OpenNick {
                        seed: seed@,
                        rp_id_hash: rec.rp_id_hash@,
                        sealed: n@,
                        answer: crypto::seen_bytes(nick),
                    },
                );
                codec::lemma_talk(a, b, codec.asked());
            }
            (domain, nick)
        },
        None => (domain, None),
    }
}

/// What a listed account shows.
#[verifier::ext_equal]
pub struct AccountShown {
    pub user_name: Seq<u8>,
    pub user_display_name: Seq<u8>,
    pub user_id: Seq<u8>,
    pub cred_protect: u64,
    pub ef_cred_fid: u16,
}

impl View for AccountView {
    type V = AccountShown;

    open spec fn view(&self) -> AccountShown {
        AccountShown {
            user_name: self.user_name@,
            user_display_name: self.user_display_name@,
            user_id: self.user_id@,
            cred_protect: self.cred_protect,
            ef_cred_fid: self.ef_cred_fid,
        }
    }
}

/// The listed accounts, as what they show.
pub open spec fn shown_accounts(v: Seq<AccountView>) -> Seq<AccountShown> {
    Seq::new(v.len(), |i: int| v[i]@)
}

/// The account of an opened credential.
pub open spec fn account_of(c: CredView, fid: u16) -> AccountShown {
    AccountShown {
        user_name: c.user_name,
        user_display_name: c.user_display_name,
        user_id: c.user_id,
        cred_protect: c.cred_protect,
        ef_cred_fid: fid,
    }
}

/// The accounts of the first `n` credentials that opened, in their order.
pub open spec fn opened_creds(
    recs: Seq<(u16, Seq<u8>)>,
    answers: Seq<Option<CredView>>,
    n: nat,
) -> Seq<AccountShown>
    decreases n,
{
    if n == 0 {
        Seq::empty()
    } else {
        let rest = opened_creds(recs, answers, (n - 1) as nat);
        match answers[n - 1] {
            Some(c) => rest.push(account_of(c, recs[n - 1].0)),
            None => rest,
        }
    }
}

/// The list is that of the accounts of the stored credentials that opened.
pub open spec fn lists_creds(
    t: codec::Talk,
    seed: Seq<u8>,
    rp_id_hash: Seq<u8>,
    recs: Seq<(u16, Seq<u8>)>,
    answers: Seq<Option<CredView>>,
    list: Seq<AccountShown>,
) -> bool {
    &&& answers.len() == recs.len()
    &&& forall|i: int|
        0 <= i < recs.len() ==> t.told(
            Ask::Load {
                seed,
                cred_box: recs[i].1,
                rp_id_hash,
                answer: #[trigger] answers[i],
            },
        )
    &&& list == opened_creds(recs, answers, recs.len())
}

/// The outcome of a walk over the credentials of a relying party: none without a
/// seed, otherwise the accounts of those that opened.
pub open spec fn walks_creds(
    t: codec::Talk,
    seed: Option<Seq<u8>>,
    rp_id_hash: Seq<u8>,
    recs: Seq<(u16, Seq<u8>)>,
    list: Seq<AccountShown>,
) -> bool {
    &&& seed is None ==> list.len() == 0
    &&& seed is Some ==> exists|answers: Seq<Option<CredView>>| #[trigger]
        lists_creds(t, seed->0, rp_id_hash, recs, answers, list)
}

proof fn lemma_opened_creds(
    recs: Seq<(u16, Seq<u8>)>,
    a: Seq<Option<CredView>>,
    b: Seq<Option<CredView>>,
    n: nat,
)
    requires
        n <= a.len() <= b.len(),
        forall|i: int| 0 <= i < n ==> a[i] == b[i],
    ensures
        opened_creds(recs, a, n) == opened_creds(recs, b, n),
    decreases n,
{
    if n > 0 {
        lemma_opened_creds(recs, a, b, (n - 1) as nat);
    }
}

/// Lists the accounts of a relying party, in slot order. A credential that does
/// not open is left out; without a seed there are none.
pub fn for_each_cred<S: Storage, C: Codec>(
    dev: &Device,
    fs: &mut Fs<S>,
    codec: &mut Recorded<C>,
    rp_id_hash: &[u8; 32],
) -> (r: Vec<AccountView>)
    requires
        old(fs).wf(),
    ensures
        final(fs).wf(),
        final(fs).reread(old(fs)),
        codec::talk(old(codec), final(codec)).wf(),
        walks_creds(
            codec::talk(old(codec), final(codec)),
            seed::loaded(*dev, old(fs).contents(), FID_KEY_DEV),
            rp_id_hash@,
            creds_in(slots::files(old(fs)), rp_id_hash@, 256),
            shown_accounts(r@),
        ),
{
    let ghost start = codec.asked();
    assert(start.take(start.len() as int) =~= start);
    let mut out: Vec<AccountView> = Vec::new();
    let ghost all = creds_in(slots::files(fs), rp_id_hash@, 256);
    let ghost mut answers: Seq<Option<CredView>> = Seq::empty();
    let mut seed: [u8; 32] = match load_keydev(dev, fs) {
        Some(s) => s,
        None => {
            return out;
        },
    };
    let ghost key = seed@;
    assert(seed::loaded(*dev, old(fs).contents(), FID_KEY_DEV) == Some(key));
    assert(slots::files(old(fs)) == slots::files(fs));
    let recs: Vec<(u16, Vec<u8>)> = cred_records(fs, rp_id_hash);
    assert(shown_accounts(out@) =~= opened_creds(all, answers, 0));
    let mut i: usize = 0;
    while i < recs.len()
        invariant
            i <= recs@.len(),
            seen_creds(recs@) == all,
            seed@ == key,
            answers.len() == i,
            (codec::Talk { before: start, after: codec.asked() }).wf(),
            forall|x: int|
                0 <= x < i ==> (codec::Talk { before: start, after: codec.asked() }).told(
                    Ask::Load {
                        seed: key,
                        cred_box: all[x].1,
                        rp_id_hash: rp_id_hash@,
                        answer: #[trigger] answers[x],
                    },
                ),
            shown_accounts(out@) == opened_creds(all, answers, i as nat),
        decreases recs@.len() - i,
    {
        let fid: u16 = recs[i].0;
        assert(seen_creds(recs@)[i as int] == (fid, recs@[i as int].1@));
        let ghost before = out@;
        let ghost was = answers;
        let ghost asked = codec.asked();
        let opened: Option<Credential> = codec.load(&seed, recs[i].1.as_slice(), rp_id_hash);
        proof {
            let ask = Ask::Load {
                seed: key,
                cred_box: all[i as int].1,
                rp_id_hash: rp_id_hash@,
                answer: codec::seen_cred(opened),
            };
            codec::lemma_asked(asked, ask);
            codec::lemma_talk(start, asked, codec.asked());
            let own = codec::Talk { before: asked, after: codec.asked() };
            let t = codec::Talk { before: start, after: codec.asked() };
            assert(own.told(ask));
            assert(t.told(ask));
            answers = answers.push(codec::seen_cred(opened));
            lemma_opened_creds(all, was, answers, i as nat);
            assert forall|x: int| 0 <= x < i + 1 implies t.told(
                Ask::Load {
                    seed: key,
                    cred_box: all[x].1,
                    rp_id_hash: rp_id_hash@,
                    answer: #[trigger] answers[x],
                },
            ) by {
                if x < i {
                    assert(answers[x] == was[x]);
                    assert((codec::Talk { before: start, after: asked }).told(
                        Ask::Load {
                            seed: key,
                            cred_box: all[x].1,
                            rp_id_hash: rp_id_hash@,
                            answer: was[x],
                        },
                    ));
                }
            }
        }
        if let Some(c) = opened {
            let v: AccountView = account(c, fid);
            out.push(v);
            assert(shown_accounts(out@) =~= shown_accounts(before).push(v@));
        }
        i += 1;
    }
    wipe(&mut seed);
    assert(lists_creds(
        codec::talk(old(codec), codec),
        seed::loaded(*dev, old(fs).contents(), FID_KEY_DEV)->0,
        rp_id_hash@,
        all,
        answers,
        shown_accounts(out@),
    ));
    out
}

/// The account of an opened credential.
pub fn account(c: Credential, ef_cred_fid: u16) -> (v: AccountView)
    ensures
        v@ == account_of(c@, ef_cred_fid),
{
    AccountView {
        user_name: c.user_name,
        user_display_name: c.user_display_name,
        user_id: c.user_id,
        cred_protect: c.cred_protect,
        ef_cred_fid,
    }
}

// ---- names ----
/// A name was sealed for a slot: it is stored where it fits and the backend
/// takes it, and nothing else is written.
pub open spec fn named<S: Storage>(
    before: &Fs<S>,
    after: &Fs<S>,
    fid: u16,
    sealed: Option<Seq<u8>>,
    r: bool,
) -> bool {
    match sealed {
        None => !r && after.contents() == before.contents(),
        Some(x) => if x.len() == 0 || x.len() > NICK_BOX_MAX {
            !r && after.contents() == before.contents()
        } else {
            &&& r ==> after.contents() == before.contents().insert(fid, x)
            &&& !r ==> after.contents() == before.contents()
            &&& before.reliable() && !seed::no_room(before, fid) ==> r
        },
    }
}

/// The outcome of giving a name: refused without a seed, otherwise what the codec
/// sealed is stored.
pub open spec fn names<S: Storage>(
    t: codec::Talk,
    seed: Option<Seq<u8>>,
    rp_id_hash: Seq<u8>,
    nick: Seq<u8>,
    before: &Fs<S>,
    after: &Fs<S>,
    fid: u16,
    r: bool,
) -> bool {
    match seed {
        None => !r && after.contents() == before.contents(),
        Some(k) => exists|sealed: Option<Seq<u8>>|
            t.told(Ask::SealNick { seed: k, rp_id_hash, nick, answer: sealed })
                && #[trigger] named(before, after, fid, sealed, r),
    }
}

/// Names a relying party on the device, or drops its name where the new one is
/// empty. Refused for a name of more than 32 bytes, a relying party without
/// resident credentials, and without a seed. Only the slot of the name is
/// written: the credentials stay as they are.
pub fn set_rp_nickname<S: Storage, C: Codec>(
    dev: &Device,
    fs: &mut Fs<S>,
    codec: &mut Recorded<C>,
    rp_id_hash: &[u8; 32],
    nick: &[u8],
) -> (r: bool)
    requires
        old(fs).wf(),
    ensures
        final(fs).wf(),
        final(fs).reliable() == old(fs).reliable(),
        ({
            let c = old(fs).contents();
            let slot = slots::rp_slot(slots::files(old(fs)), rp_id_hash@, 0);
            if nick@.len() > RP_NICK_MAX_LEN || slot is None {
                !r && final(fs).reread(old(fs))
            } else {
                let fid = (EF_RPNICK + slot->0) as u16;
                if nick@.len() == 0 {
                    &&& r
                    &&& frame::kept_but(
                        c,
                        final(fs).contents(),
                        |g: u16| g == fid || g == EF_META,
                    )
                    &&& file_system::metas_kept_but(c, final(fs).contents(), |g: u16| g == fid)
                    &&& old(fs).reliable() ==> !seed::holds(final(fs).contents(), fid)
                } else {
                    names(
                        codec::talk(old(codec), final(codec)),
                        seed::loaded(*dev, c, FID_KEY_DEV),
                        rp_id_hash@,
                        nick@,
                        old(fs),
                        final(fs),
                        fid,
                        r,
                    )
                }
            }
        }),
        codec::talk(old(codec), final(codec)).wf(),
{
    let ghost asked = codec.asked();
    assert(asked.take(asked.len() as int) =~= asked);
    if nick.len() > RP_NICK_MAX_LEN {
        return false;
    }
    let slot: u16 = match find_rp(fs, rp_id_hash) {
        Some(i) => i,
        None => {
            return false;
        },
    };
    let ghost c = fs.contents();
    let fid: u16 = EF_RPNICK + slot;
    if nick.len() == 0 {
        if fs.has_data(fid) {
            let _ = fs.delete(fid);
        }
        return true;
    }
    let mut seed: [u8; 32] = match load_keydev(dev, fs) {
        Some(s) => s,
        None => {
            return false;
        },
    };
    let ghost mid = *fs;
    let sealed: Option<Vec<u8>> = codec.seal_nick(&seed, rp_id_hash, nick);
    proof {
        assert(seed::loaded(*dev, c, FID_KEY_DEV) == Some(seed@));
        assert(seed::no_room(&mid, fid) == seed::no_room(old(fs), fid));
        let ask = Ask::SealNick {
            seed: seed@,
            rp_id_hash: rp_id_hash@,
            nick: nick@,
            answer: crypto::seen_bytes(sealed),
        };
        codec::lemma_asked(asked, ask);
        assert(codec::talk(old(codec), codec).told(ask));
    }
    wipe(&mut seed);
    let ghost made = crypto::seen_bytes(sealed);
    let r: bool = match sealed {
        Some(rec) => if rec.len() == 0 || rec.len() > NICK_BOX_MAX {
            false
        } else {
            fs.put(fid, rec.as_slice()).is_ok()
        },
        None => false,
    };
    assert(named(old(fs), fs, fid, made, r));
    r
}

// ---- deletion ----
/// The relying party of the credential in a file, if the file is a credential
/// slot and holds one.
pub open spec fn owner_of(c: Map<u16, Seq<u8>>, fid: u16) -> Option<Seq<u8>> {
    if EF_CRED <= fid < EF_CRED + 256 && c.contains_key(fid) {
        let rec = file_system::clipped(c[fid], CRED_REC_MAX as nat);
        if rec.len() >= RECORD_PREFIX {
            Some(rec.take(32))
        } else {
            None
        }
    } else {
        None
    }
}

/// The number of credentials that the relying party in slot `i` has.
pub open spec fn count_in(c: Map<u16, Seq<u8>>, i: int) -> int {
    let fid = (EF_RP + i) as u16;
    if c.contains_key(fid) && c[fid].len() > 0 {
        c[fid][0] as int
    } else {
        0
    }
}

/// The files of the relying party in slot `i`.
pub open spec fn rp_slots(i: int, g: u16) -> bool {
    g == (EF_RP + i) as u16 || g == (EF_RPNICK + i) as u16
}

/// The files of the relying party in slot `i`, and the metadata file.
pub open spec fn rp_files(i: int, g: u16) -> bool {
    rp_slots(i, g) || g == EF_META
}

/// The relying party in slot `i` has one credential less: its record counts
/// down, and with its last credential it goes, and its name with it.
pub open spec fn counted_down(a: Map<u16, Seq<u8>>, b: Map<u16, Seq<u8>>, i: int) -> bool {
    let fid = (EF_RP + i) as u16;
    if count_in(a, i) <= 1 {
        !b.contains_key(fid) && !seed::holds(b, (EF_RPNICK + i) as u16)
    } else {
        b == a.insert(
            fid,
            file_system::clipped(a[fid], RP_REC_MAX as nat).update(0, (a[fid][0] - 1) as u8),
        )
    }
}

/// Takes one credential off the relying party in slot `i`.
pub fn decrement_rp<S: Storage>(fs: &mut Fs<S>, i: u16) -> (r: bool)
    requires
        old(fs).wf(),
        i < 256,
        old(fs).contents().contains_key((EF_RP + i) as u16),
    ensures
        final(fs).wf(),
        final(fs).reliable() == old(fs).reliable(),
        frame::kept_but(
            old(fs).contents(),
            final(fs).contents(),
            |g: u16| rp_files(i as int, g),
        ),
        file_system::metas_kept_but(
            old(fs).contents(),
            final(fs).contents(),
            |g: u16| rp_slots(i as int, g),
        ),
        r && old(fs).reliable() ==> counted_down(
            old(fs).contents(),
            final(fs).contents(),
            i as int,
        ),
        old(fs).reliable() && (count_in(old(fs).contents(), i as int) <= 1 || !seed::no_room(
            old(fs),
            (EF_RP + i) as u16,
        )) ==> r,
{
    let fid: u16 = EF_RP + i;
    let ghost c = fs.contents();
    let mut rec: Vec<u8> = match fs.read_upto(fid, RP_REC_MAX) {
        Some(b) => b,
        None => {
            return false;
        },
    };
    if rec.len() == 0 || rec[0] <= 1 {
        let nick: u16 = EF_RPNICK + i;
        let named: bool = fs.has_data(nick);
        let ghost start = *fs;
        assert(start.cached(fid) == Some(true));
        let gone: bool = fs.delete(fid).is_ok();
        let ghost mid = *fs;
        let ghost c1 = fs.contents();
        assert(mid.cached(nick) == start.cached(nick));
        if named {
            let _ = fs.delete(nick);
        }
        proof {
            let d = fs.contents();
            assert(d.contains_key(fid) == c1.contains_key(fid));
            assert forall|g: u16| !rp_slots(i as int, g) implies
                #[trigger] file_system::meta_of(d, g) == file_system::meta_of(c, g) by {
                assert(file_system::meta_of(c1, g) == file_system::meta_of(c, g));
            }
            assert forall|g: u16| !rp_files(i as int, g) implies (#[trigger] d.contains_key(g)
                == c.contains_key(g) && (d.contains_key(g) ==> d[g] == c[g])) by {
                assert(c1.contains_key(g) == c.contains_key(g));
                if c.contains_key(g) {
                    assert(c1[g] == c[g]);
                }
            }
            if !named {
                assert(c1.contains_key(nick) == c.contains_key(nick));
                if c.contains_key(nick) {
                    assert(c1[nick] == c[nick]);
                }
            }
        }
        return gone;
    }
    let left: u8 = rec[0] - 1;
    rec.set(0, left);
    let r: bool = fs.put(fid, rec.as_slice()).is_ok();
    proof {
        file_system::lemma_metas_same(c, fs.contents());
    }
    r
}

/// Deletes the credential in a credential slot, then counts its relying party
/// down. A file outside the slots, or one without a credential, is a no-op.
pub fn delete_cred<S: Storage>(fs: &mut Fs<S>, ef_cred_fid: u16) -> (r: bool)
    requires
        old(fs).wf(),
    ensures
        final(fs).wf(),
        final(fs).reliable() == old(fs).reliable(),
        match owner_of(old(fs).contents(), ef_cred_fid) {
            None => !r && final(fs).reread(old(fs)),
            Some(h) => {
                let slot = slots::rp_slot(slots::files(old(fs)), h, 0);
                &&& old(fs).reliable() ==> r
                &&& r ==> !final(fs).contents().contains_key(ef_cred_fid)
                &&& frame::kept_but(
                    old(fs).contents(),
                    final(fs).contents(),
                    |g: u16|
                        g == ef_cred_fid || g == EF_META || (slot matches Some(i) && rp_files(
                            i,
                            g,
                        )),
                )
                &&& file_system::metas_kept_but(
                    old(fs).contents(),
                    final(fs).contents(),
                    |g: u16| g == ef_cred_fid || (slot matches Some(i) && rp_slots(i, g)),
                )
                &&& old(fs).reliable() ==> (slot matches Some(i) ==> (count_in(
                    old(fs).contents(),
                    i,
                ) <= 1 ==> !final(fs).contents().contains_key((EF_RP + i) as u16)
                    && !seed::holds(final(fs).contents(), (EF_RPNICK + i) as u16)))
                &&& old(fs).reliable() ==> (slot matches Some(i) ==> (count_in(
                    old(fs).contents(),
                    i,
                ) > 1 && !seed::no_room(old(fs), (EF_RP + i) as u16) ==> {
                    let a = old(fs).contents()[(EF_RP + i) as u16];
                    &&& count_in(final(fs).contents(), i) == count_in(old(fs).contents(), i) - 1
                    &&& final(fs).contents()[(EF_RP + i) as u16] == file_system::clipped(
                        a,
                        RP_REC_MAX as nat,
                    ).update(0, (a[0] - 1) as u8)
                }))
            },
        },
{
    if ef_cred_fid < EF_CRED || ef_cred_fid - EF_CRED >= 256 {
        return false;
    }
    let ghost c = fs.contents();
    let rec: Vec<u8> = match fs.read_upto(ef_cred_fid, CRED_REC_MAX) {
        Some(b) => b,
        None => {
            return false;
        },
    };
    if rec.len() < RECORD_PREFIX {
        return false;
    }
    let prefix: &[u8] = slice_subrange(rec.as_slice(), 0, 32);
    assert(prefix@ =~= rec@.take(32));
    let rp_id_hash: [u8; 32] = array32(prefix);
    assert(slots::files(fs) == slots::files(old(fs)));
    let ghost before = *fs;
    let slot: Option<u16> = find_rp(fs, &rp_id_hash);
    let ghost found = *fs;
    assert(found.cached(ef_cred_fid) == before.cached(ef_cred_fid) || found.cached(ef_cred_fid)
        == Some(before.contents().contains_key(ef_cred_fid)));
    if fs.delete(ef_cred_fid).is_err() {
        return false;
    }
    let ghost c1 = fs.contents();
    if let Some(i) = slot {
        proof {
            lemma_slot_present(slots::files(old(fs)), rp_id_hash@, 0);
            assert(c1.contains_key((EF_RP + i) as u16) == c.contains_key((EF_RP + i) as u16));
            assert(c1[(EF_RP + i) as u16] == c[(EF_RP + i) as u16]);
        }
        let _ = decrement_rp(fs, i);
        proof {
            found.law_no_false_absent(ef_cred_fid);
            file_system::lemma_filter(found.dynamic(), ef_cred_fid);
            if old(fs).dynamic().contains((EF_RP + i) as u16) {
                lemma_others_keep(found.dynamic(), ef_cred_fid, (EF_RP + i) as u16);
            }
        }
    }
    proof {
        let d = fs.contents();
        if slot is Some {
            assert(!rp_files(slot->0 as int, ef_cred_fid) || ef_cred_fid == EF_META);
        }
        assert(d.contains_key(ef_cred_fid) == c1.contains_key(ef_cred_fid));
        assert forall|g: u16|
            !(g == ef_cred_fid || (slot is Some && rp_slots(slot->0 as int, g))) implies
            #[trigger] file_system::meta_of(d, g) == file_system::meta_of(c, g) by {
            assert(file_system::meta_of(c1, g) == file_system::meta_of(c, g));
        }
        assert forall|g: u16|
            !(g == ef_cred_fid || g == EF_META || (slot is Some && rp_files(
                slot->0 as int,
                g,
            ))) implies (#[trigger] d.contains_key(g) == c.contains_key(g) && (d.contains_key(g)
            ==> d[g] == c[g])) by {
            assert(c1.contains_key(g) == c.contains_key(g));
            if c.contains_key(g) {
                assert(c1[g] == c[g]);
            }
        }
    }
    true
}

/// A slot that was found holds a record.
proof fn lemma_slot_present(f: slots::Files, rp_id_hash: Seq<u8>, i: int)
    requires
        i >= 0,
    ensures
        slots::rp_slot(f, rp_id_hash, i) matches Some(k) ==> i <= k < 256
            && f.contents.contains_key((EF_RP + k) as u16) && f.contents[(EF_RP + k) as u16].len()
            >= RP_PREFIX,
    decreases 256 - i,
{
    if i < 256 {
        lemma_slot_present(f, rp_id_hash, i + 1);
    }
}

/// Dropping one FID keeps the others.
proof fn lemma_others_keep(s: Seq<u16>, fid: u16, g: u16)
    requires
        s.contains(g),
        g != fid,
    ensures
        dynamic::others(s, fid).contains(g),
{
}

/// A relying party is gone with its last credential, and its name with it: a
/// new one in the same slot starts unnamed.
pub proof fn law_last_credential_takes_rp(a: Map<u16, Seq<u8>>, b: Map<u16, Seq<u8>>, i: int)
    requires
        0 <= i < 256,
        counted_down(a, b, i),
        count_in(a, i) <= 1,
    ensures
        count_in(b, i) == 0,
        !seed::holds(b, (EF_RPNICK + i) as u16),
{
}

/// Every relying party that opened is listed, with its own hash, count, domain and
/// name, and nothing else is.
pub proof fn law_listed_rps(
    recs: Seq<RpRecView>,
    answers: Seq<(Option<Seq<u8>>, Option<Seq<u8>>)>,
    n: nat,
)
    requires
        n <= recs.len(),
        n <= answers.len(),
    ensures
        forall|i: int|
            #![trigger recs[i]]
            0 <= i < n && answers[i].0 is Some ==> opened_rps(recs, answers, n).contains(
                RpShown {
                    rp_id: answers[i].0->0,
                    hash: recs[i].hash,
                    count: recs[i].count,
                    nickname: answers[i].1,
                },
            ),
        forall|k: int|
            0 <= k < opened_rps(recs, answers, n).len() ==> exists|i: int|
                0 <= i < n && answers[i].0 is Some && #[trigger] opened_rps(recs, answers, n)[k]
                    == (RpShown {
                    rp_id: answers[i].0->0,
                    hash: (#[trigger] recs[i]).hash,
                    count: recs[i].count,
                    nickname: answers[i].1,
                }),
    decreases n,
{
    if n > 0 {
        let m = (n - 1) as nat;
        law_listed_rps(recs, answers, m);
        let rest = opened_rps(recs, answers, m);
        let all = opened_rps(recs, answers, n);
        assert forall|i: int|
            #![trigger recs[i]]
            0 <= i < n && answers[i].0 is Some implies all.contains(
            RpShown {
                rp_id: answers[i].0->0,
                hash: recs[i].hash,
                count: recs[i].count,
                nickname: answers[i].1,
            },
        ) by {
            let x = RpShown {
                rp_id: answers[i].0->0,
                hash: recs[i].hash,
                count: recs[i].count,
                nickname: answers[i].1,
            };
            if i < m {
                assert(rest.contains(x));
                let k = rest.index_of(x);
                assert(all[k] == x);
            } else {
                assert(all.last() == x);
            }
        }
        assert forall|k: int| 0 <= k < all.len() implies exists|i: int|
            0 <= i < n && answers[i].0 is Some && #[trigger] all[k] == (RpShown {
                rp_id: answers[i].0->0,
                hash: (#[trigger] recs[i]).hash,
                count: recs[i].count,
                nickname: answers[i].1,
            }) by {
            if k < rest.len() {
                assert(all[k] == rest[k]);
            } else {
                let r = recs[m as int];
                assert(answers[m as int].0 is Some);
            }
        }
    }
}

/// Every credential that opened is listed, with its own names, user id,
/// protection and file.
pub proof fn law_listed_accounts(
    recs: Seq<(u16, Seq<u8>)>,
    answers: Seq<Option<CredView>>,
    n: nat,
)
    requires
        n <= recs.len(),
        n <= answers.len(),
    ensures
        forall|i: int|
            #![trigger recs[i]]
            0 <= i < n && answers[i] is Some ==> opened_creds(recs, answers, n).contains(
                AccountShown {
                    user_name: answers[i]->0.user_name,
                    user_display_name: answers[i]->0.user_display_name,
                    user_id: answers[i]->0.user_id,
                    cred_protect: answers[i]->0.cred_protect,
                    ef_cred_fid: recs[i].0,
                },
            ),
    decreases n,
{
    if n > 0 {
        let m = (n - 1) as nat;
        law_listed_accounts(recs, answers, m);
        let rest = opened_creds(recs, answers, m);
        let all = opened_creds(recs, answers, n);
        assert forall|i: int|
            #![trigger recs[i]]
            0 <= i < n && answers[i] is Some implies all.contains(
            account_of(answers[i]->0, recs[i].0),
        ) by {
            let x = account_of(answers[i]->0, recs[i].0);
            if i < m {
                assert(rest.contains(x));
                let k = rest.index_of(x);
                assert(all[k] == x);
            } else {
                assert(all.last() == x);
            }
        }
    }
}

/// Whatever is listed is the account of one of the credentials that opened.
pub proof fn law_listed_account_is_stored(
    recs: Seq<(u16, Seq<u8>)>,
    answers: Seq<Option<CredView>>,
    n: nat,
    k: int,
) -> (i: int)
    requires
        n <= recs.len(),
        n <= answers.len(),
        0 <= k < opened_creds(recs, answers, n).len(),
    ensures
        0 <= i < n,
        listed_from(recs, answers, i, opened_creds(recs, answers, n)[k]),
    decreases n,
{
    let m = (n - 1) as nat;
    if k < opened_creds(recs, answers, m).len() {
        law_listed_account_is_stored(recs, answers, m, k)
    } else {
        m as int
    }
}

/// The account is that of the credential in place `i`.
pub open spec fn listed_from(
    recs: Seq<(u16, Seq<u8>)>,
    answers: Seq<Option<CredView>>,
    i: int,
    a: AccountShown,
) -> bool {
    answers[i] matches Some(c) && a.user_name == c.user_name && a.user_display_name
        == c.user_display_name && a.user_id == c.user_id && a.cred_protect == c.cred_protect
        && a.ef_cred_fid == recs[i].0
}

/// A relying party that has further credentials counts one less and keeps its
/// hash and its sealed domain; every other file stays.
pub proof fn law_count_goes_down(a: Map<u16, Seq<u8>>, b: Map<u16, Seq<u8>>, i: int, g: u16)
    requires
        0 <= i < 256,
        counted_down(a, b, i),
        count_in(a, i) > 1,
        a[(EF_RP + i) as u16].len() <= RP_REC_MAX,
    ensures
        count_in(b, i) == count_in(a, i) - 1,
        b[(EF_RP + i) as u16].skip(1) == a[(EF_RP + i) as u16].skip(1),
        g != (EF_RP + i) as u16 ==> b.contains_key(g) == a.contains_key(g) && b[g] == a[g],
{
    let fid = (EF_RP + i) as u16;
    assert(file_system::clipped(a[fid], RP_REC_MAX as nat) =~= a[fid]);
    assert(b[fid].skip(1) =~= a[fid].skip(1));
}

/// A slot is shown as a relying party exactly where its record counts credentials:
/// behind the count stand the hash and the sealed domain.
pub proof fn law_rp_record(f: slots::Files, i: int, rec: Seq<u8>)
    requires
        slots::record(f, EF_RP, i, RP_REC_MAX as nat) == Some(rec),
        rec.len() >= 33,
    ensures
        rp_at(f, i) is Some <==> rec[0] > 0,
        rp_at(f, i) matches Some(r) ==> rec == seq![r.count] + r.hash + r.sealed && r.hash.len()
            == 32,
{
    if rec[0] > 0 {
        assert(rec =~= seq![rec[0]] + rec.subrange(1, 33) + rec.skip(33));
    }
}

/// A slot belongs to a relying party exactly where its record starts with the
/// hash; what follows the hash and the id is the sealed credential.
pub proof fn law_cred_record(f: slots::Files, hash: Seq<u8>, id: Seq<u8>, b: Seq<u8>, i: int)
    requires
        slots::record(f, EF_CRED, i, CRED_REC_MAX as nat) == Some(hash + id + b),
        hash.len() == 32,
        id.len() == 42,
    ensures
        cred_at(f, hash, i) == Some(b),
        forall|other: Seq<u8>| other != hash ==> (#[trigger] cred_at(f, other, i)) is None,
{
    let rec = hash + id + b;
    assert(rec.take(32) =~= hash);
    assert(rec.skip(74) =~= b);
}

/// Every field of a listed relying party and of a listed account is seen under its
/// own name.
pub proof fn law_listed_fields(r: RpView, a: AccountView, s: RpRecord)
    ensures
        r@.rp_id == r.rp_id@,
        r@.hash == r.rp_id_hash@,
        r@.count == r.count,
        r.nickname matches Some(n) ==> r@.nickname == Some(n@),
        r.nickname is None ==> r@.nickname is None,
        a@.user_name == a.user_name@,
        a@.user_display_name == a.user_display_name@,
        a@.user_id == a.user_id@,
        a@.cred_protect == a.cred_protect,
        a@.ef_cred_fid == a.ef_cred_fid,
        s@.hash == s.rp_id_hash@,
        s@.count == s.count,
        s@.sealed == s.sealed@,
        s.nick matches Some(n) ==> s@.nick == Some(n@),
        s.nick is None ==> s@.nick is None,
{
}

/// A walk over the relying parties asks for the domain and the name of each stored
/// one, with its own hash and its own sealed bytes, and lists what opened; without
/// a seed it lists nothing.
pub proof fn law_rp_walk(
    t: codec::Talk,
    seed: Seq<u8>,
    recs: Seq<RpRecView>,
    answers: Seq<(Option<Seq<u8>>, Option<Seq<u8>>)>,
    list: Seq<RpShown>,
    i: int,
)
    requires
        lists_rps(t, seed, recs, answers, list),
        0 <= i < recs.len(),
    ensures
        t.told(
            Ask::OpenRpId {
                seed,
                rp_id_hash: recs[i].hash,
                sealed: recs[i].sealed,
                answer: answers[i].0,
            },
        ),
        answers[i].0 is Some && recs[i].nick is Some ==> t.told(
            Ask::OpenNick {
                seed,
                rp_id_hash: recs[i].hash,
                sealed: recs[i].nick->0,
                answer: answers[i].1,
            },
        ),
        recs[i].nick is None ==> answers[i].1 is None,
        answers[i].0 is Some ==> list.contains(
            RpShown {
                rp_id: answers[i].0->0,
                hash: recs[i].hash,
                count: recs[i].count,
                nickname: answers[i].1,
            },
        ),
{
    assert(rp_told(t, seed, recs[i], answers[i]));
    law_listed_rps(recs, answers, recs.len());
    let r = recs[i];
}

/// Every slot that shows a relying party is among the stored ones, in slot order.
pub proof fn law_stored_rps(f: slots::Files, n: nat, i: int)
    requires
        0 <= i < n,
        rp_at(f, i) is Some,
    ensures
        rps_in(f, n).contains(rp_at(f, i)->0),
        rps_in(f, n).len() <= n,
    decreases n,
{
    let m = (n - 1) as nat;
    lemma_rps_len(f, n);
    if i < m {
        law_stored_rps(f, m, i);
        let k = rps_in(f, m).index_of(rp_at(f, i)->0);
        assert(rps_in(f, n)[k] == rp_at(f, i)->0);
    } else {
        assert(rps_in(f, n).last() == rp_at(f, i)->0);
    }
}

proof fn lemma_rps_len(f: slots::Files, n: nat)
    ensures
        rps_in(f, n).len() <= n,
    decreases n,
{
    if n > 0 {
        lemma_rps_len(f, (n - 1) as nat);
    }
}

/// Every slot with a credential of the relying party is among its stored ones,
/// with its own file and its own box.
pub proof fn law_stored_creds(f: slots::Files, rp_id_hash: Seq<u8>, n: nat, i: int)
    requires
        0 <= i < n <= 256,
        cred_at(f, rp_id_hash, i) is Some,
    ensures
        creds_in(f, rp_id_hash, n).contains(
            ((EF_CRED + i) as u16, cred_at(f, rp_id_hash, i)->0),
        ),
    decreases n,
{
    let m = (n - 1) as nat;
    let x = ((EF_CRED + i) as u16, cred_at(f, rp_id_hash, i)->0);
    if i < m {
        law_stored_creds(f, rp_id_hash, m, i);
        let k = creds_in(f, rp_id_hash, m).index_of(x);
        assert(creds_in(f, rp_id_hash, n)[k] == x);
    } else {
        assert(creds_in(f, rp_id_hash, n).last() == x);
    }
}

/// A name that was given is stored as the codec sealed it, in the file of its slot
/// alone; nothing is stored of one that is empty or too long once sealed.
pub proof fn law_name_is_stored<S: Storage>(
    before: &Fs<S>,
    after: &Fs<S>,
    fid: u16,
    sealed: Option<Seq<u8>>,
    r: bool,
)
    requires
        named(before, after, fid, sealed, r),
    ensures
        r ==> sealed is Some && sealed->0.len() > 0 && after.contents()
            == before.contents().insert(fid, sealed->0),
        !r ==> after.contents() == before.contents(),
{
}

/// The relying party of a stored credential is the hash in front of its record;
/// what is no credential slot, or is too short for a credential, has none.
pub proof fn law_owner(c: Map<u16, Seq<u8>>, fid: u16, hash: Seq<u8>, rest: Seq<u8>)
    requires
        hash.len() == 32,
        rest.len() >= 42,
        c.contains_key(fid) && c[fid] == hash + rest,
    ensures
        EF_CRED <= fid < EF_CRED + 256 ==> owner_of(c, fid) == Some(hash),
        !(EF_CRED <= fid < EF_CRED + 256) ==> owner_of(c, fid) is None,
        owner_of(c.remove(fid), fid) is None,
{
    let rec = file_system::clipped(c[fid], CRED_REC_MAX as nat);
    assert(rec.take(32) =~= hash);
}

/// The account of an opened credential has its names, its user id and its
/// protection.
pub proof fn law_account(c: CredView, fid: u16)
    ensures
        account_of(c, fid).user_name == c.user_name,
        account_of(c, fid).user_display_name == c.user_display_name,
        account_of(c, fid).user_id == c.user_id,
        account_of(c, fid).cred_protect == c.cred_protect,
        account_of(c, fid).ef_cred_fid == fid,
{
}

}
