//! The slots of resident credentials and relying parties.

use vstd::prelude::*;
use vstd::slice::slice_subrange;

use crate::fido::consts::{
    CRED_REC_MAX, EF_CRED, EF_MINPINLEN, EF_RP, MAX_MIN_PIN_RPIDS, MAX_RESIDENT_CREDENTIALS,
    RECORD_PREFIX, RP_PREFIX, RP_REC_MAX,
};
use crate::fs::file_system;
use crate::fs::{Fs, Storage, MAX_DYNAMIC_FILES};
use crate::sdk::same_bytes;

verus! {

/// The files: what they hold, and which of them a bulk pass lists.
pub struct Files {
    pub contents: Map<u16, Seq<u8>>,
    pub listed: Set<u16>,
}

/// The files of a file system.
pub open spec fn files<S: Storage>(fs: &Fs<S>) -> Files {
    Files { contents: fs.contents(), listed: fs.listed() }
}

/// The record in slot `i` from `base` on, at most its first `cap` bytes; nothing
/// unless the slot is listed.
pub open spec fn record(f: Files, base: u16, i: int, cap: nat) -> Option<Seq<u8>> {
    let fid = (base + i) as u16;
    if f.listed.contains(fid) && f.contents.contains_key(fid) {
        Some(file_system::clipped(f.contents[fid], cap))
    } else {
        None
    }
}

/// Which of the 256 slots from `base` on are listed.
pub(crate) fn slot_map<S: Storage>(fs: &mut Fs<S>, base: u16) -> (r: Vec<bool>)
    requires
        old(fs).wf(),
        base <= 0xff00,
    ensures
        final(fs).wf(),
        final(fs).reread(old(fs)),
        r@.len() == 256,
        forall|i: int|
            0 <= i < 256 ==> #[trigger] r@[i] == old(fs).listed().contains((base + i) as u16),
{
    let keys: Vec<u16> = fs.for_each_key();
    let mut occupied: Vec<bool> = vec![false; 256];
    let ghost listed = fs.listed();
    let mut k: usize = 0;
    while k < keys.len()
        invariant
            k <= keys@.len(),
            base <= 0xff00,
            occupied@.len() == 256,
            forall|i: int|
                0 <= i < 256 ==> (#[trigger] occupied@[i] <==> exists|j: int|
                    0 <= j < k && #[trigger] keys@[j] == base + i),
        decreases keys@.len() - k,
    {
        let fid: u16 = keys[k];
        let ghost before = occupied@;
        if fid >= base && fid - base < 256 {
            occupied.set((fid - base) as usize, true);
        }
        assert forall|i: int| 0 <= i < 256 implies (#[trigger] occupied@[i] <==> exists|j: int|
            0 <= j < k + 1 && #[trigger] keys@[j] == base + i) by {
            if before[i] {
                let j = choose|j: int| 0 <= j < k && #[trigger] keys@[j] == base + i;
                assert(0 <= j < k + 1 && keys@[j] == base + i);
            }
            if fid == base + i {
                assert(keys@[k as int] == base + i);
            }
        }
        k += 1;
    }
    assert forall|i: int| 0 <= i < 256 implies #[trigger] occupied@[i] == listed.contains(
        (base + i) as u16,
    ) by {
        let fid = (base + i) as u16;
        assert(keys@.contains(fid) <==> listed.contains(fid));
        if occupied@[i] {
            let j = choose|j: int| 0 <= j < keys@.len() && #[trigger] keys@[j] == base + i;
            assert(keys@[j] == fid);
        }
        if listed.contains(fid) {
            let j = choose|j: int| 0 <= j < keys@.len() && keys@[j] == fid;
            assert(keys@[j] == base + i);
        }
    }
    occupied
}

/// Reads the record in a slot, if the slot is listed.
pub(crate) fn read_record<S: Storage>(
    fs: &mut Fs<S>,
    occupied: &Vec<bool>,
    base: u16,
    i: u16,
    cap: usize,
) -> (r: Option<Vec<u8>>)
    requires
        old(fs).wf(),
        base <= 0xff00,
        i < 256,
        occupied@.len() == 256,
        occupied@[i as int] == old(fs).listed().contains((base + i) as u16),
    ensures
        final(fs).wf(),
        final(fs).reread(old(fs)),
        match r {
            Some(v) => record(files(old(fs)), base, i as int, cap as nat) == Some(v@),
            None => record(files(old(fs)), base, i as int, cap as nat) is None,
        },
{
    if !occupied[i as usize] {
        return None;
    }
    fs.read_upto(base + i, cap)
}

/// The box of the first credential record from slot `i` on that belongs to the
/// relying party and has the resident id.
pub open spec fn resident_box(f: Files, rp_id_hash: Seq<u8>, id: Seq<u8>, i: int) -> Option<
    Seq<u8>,
>
    decreases 256 - i,
{
    if i >= 256 {
        None
    } else {
        match record(f, EF_CRED, i, CRED_REC_MAX as nat) {
            Some(rec) => if rec.len() >= RECORD_PREFIX && rec.subrange(0, 32) == rp_id_hash
                && rec.subrange(32, 74) == id {
                Some(rec.skip(74))
            } else {
                resident_box(f, rp_id_hash, id, i + 1)
            },
            None => resident_box(f, rp_id_hash, id, i + 1),
        }
    }
}

/// Finds the box of a resident credential by its relying party and its id.
pub fn find_resident<S: Storage>(fs: &mut Fs<S>, rp_id_hash: &[u8; 32], id: &[u8]) -> (r: Option<
    Vec<u8>,
>)
    requires
        old(fs).wf(),
    ensures
        final(fs).wf(),
        final(fs).reread(old(fs)),
        match r {
            Some(v) => resident_box(files(old(fs)), rp_id_hash@, id@, 0) == Some(v@),
            None => resident_box(files(old(fs)), rp_id_hash@, id@, 0) is None,
        },
{
    let ghost start = *fs;
    let ghost f = files(&start);
    let occupied: Vec<bool> = slot_map(fs, EF_CRED);
    let mut i: u16 = 0;
    while i < 256
        invariant
            i <= 256,
            fs.wf(),
            fs.reread(&start),
            start == *old(fs),
            f == files(&start),
            occupied@.len() == 256,
            forall|x: int|
                0 <= x < 256 ==> #[trigger] occupied@[x] == f.listed.contains(
                    (EF_CRED + x) as u16,
                ),
            resident_box(f, rp_id_hash@, id@, 0) == resident_box(f, rp_id_hash@, id@, i as int),
        decreases 256 - i,
    {
        assert(files(fs) == f);
        if let Some(rec) = read_record(fs, &occupied, EF_CRED, i, CRED_REC_MAX) {
            let b: &[u8] = rec.as_slice();
            if b.len() >= RECORD_PREFIX && same_bytes(slice_subrange(b, 0, 32), rp_id_hash)
                && same_bytes(slice_subrange(b, 32, 74), id) {
                let n: usize = b.len();
                let rest: &[u8] = slice_subrange(b, 74, n);
                assert(rest@ =~= b@.skip(74));
                return Some(vstd::slice::slice_to_vec(rest));
            }
        }
        i += 1;
    }
    None
}

/// The slot of the first relying-party record from slot `i` on that has the
/// hash.
pub open spec fn rp_slot(f: Files, rp_id_hash: Seq<u8>, i: int) -> Option<int>
    decreases 256 - i,
{
    if i >= 256 {
        None
    } else {
        match record(f, EF_RP, i, RP_REC_MAX as nat) {
            Some(rec) => if rec.len() >= RP_PREFIX && rec.subrange(1, 33) == rp_id_hash {
                Some(i)
            } else {
                rp_slot(f, rp_id_hash, i + 1)
            },
            None => rp_slot(f, rp_id_hash, i + 1),
        }
    }
}

/// Finds the slot of a relying party.
pub fn find_rp<S: Storage>(fs: &mut Fs<S>, rp_id_hash: &[u8; 32]) -> (r: Option<u16>)
    requires
        old(fs).wf(),
    ensures
        final(fs).wf(),
        final(fs).reread(old(fs)),
        match r {
            Some(i) => i < 256 && rp_slot(files(old(fs)), rp_id_hash@, 0) == Some(i as int),
            None => rp_slot(files(old(fs)), rp_id_hash@, 0) is None,
        },
{
    let ghost start = *fs;
    let ghost f = files(&start);
    let occupied: Vec<bool> = slot_map(fs, EF_RP);
    let mut i: u16 = 0;
    while i < 256
        invariant
            i <= 256,
            fs.wf(),
            fs.reread(&start),
            start == *old(fs),
            f == files(&start),
            occupied@.len() == 256,
            forall|x: int|
                0 <= x < 256 ==> #[trigger] occupied@[x] == f.listed.contains((EF_RP + x) as u16),
            rp_slot(f, rp_id_hash@, 0) == rp_slot(f, rp_id_hash@, i as int),
        decreases 256 - i,
    {
        assert(files(fs) == f);
        if let Some(rec) = read_record(fs, &occupied, EF_RP, i, RP_REC_MAX) {
            let b: &[u8] = rec.as_slice();
            if b.len() >= RP_PREFIX && same_bytes(slice_subrange(b, 1, 33), rp_id_hash) {
                return Some(i);
            }
        }
        i += 1;
    }
    None
}

// ---- the PIN policy of a relying party ----
/// The minimum PIN length in the policy file, if the hash is in its list from
/// `o` on; zero otherwise.
pub open spec fn listed_min_pin(b: Seq<u8>, rp_id_hash: Seq<u8>, o: int) -> u8
    decreases b.len() - o,
{
    if o < 0 || o + 32 > b.len() {
        0
    } else if b.subrange(o, o + 32) == rp_id_hash {
        b[0]
    } else {
        listed_min_pin(b, rp_id_hash, o + 32)
    }
}

/// The minimum PIN length that the relying party may learn; zero for one that
/// the policy does not list.
pub open spec fn min_pin_for(c: Map<u16, Seq<u8>>, rp_id_hash: Seq<u8>) -> u8 {
    if c.contains_key(EF_MINPINLEN) {
        listed_min_pin(file_system::clipped(c[EF_MINPINLEN], 258), rp_id_hash, 2)
    } else {
        0
    }
}

/// The minimum PIN length that the relying party may learn.
pub fn rp_min_pin_len<S: Storage>(fs: &mut Fs<S>, rp_id_hash: &[u8; 32]) -> (n: u8)
    requires
        old(fs).wf(),
    ensures
        final(fs).wf(),
        final(fs).reread(old(fs)),
        n == min_pin_for(old(fs).contents(), rp_id_hash@),
{
    let buf: Vec<u8> = match fs.read_upto(EF_MINPINLEN, 2 + 32 * MAX_MIN_PIN_RPIDS) {
        Some(b) => b,
        None => {
            return 0;
        },
    };
    let b: &[u8] = buf.as_slice();
    let n: usize = b.len();
    let mut o: usize = 2;
    while o + 32 <= n
        invariant
            2 <= o,
            n == b@.len(),
            n <= 258,
            o <= n + 2,
            fs.wf(),
            fs.reread(old(fs)),
            min_pin_for(old(fs).contents(), rp_id_hash@) == listed_min_pin(b@, rp_id_hash@, 2),
            listed_min_pin(b@, rp_id_hash@, 2) == listed_min_pin(b@, rp_id_hash@, o as int),
        decreases n + 64 - o,
    {
        if same_bytes(slice_subrange(b, o, o + 32), rp_id_hash) {
            return b[0];
        }
        o += 32;
    }
    0
}

// ---- free slots ----
/// How many of the first `n` credential slots are listed.
pub open spec fn occupied_in(f: Files, n: nat) -> nat
    decreases n,
{
    if n == 0 {
        0
    } else {
        occupied_in(f, (n - 1) as nat) + (if f.listed.contains((EF_CRED + n - 1) as u16) {
            1nat
        } else {
            0
        })
    }
}

/// How many credentials can still be stored, where `dynamic` files are
/// registered: free credential slots, as far as the budget that all applets
/// share has room for them.
pub open spec fn remaining_of(f: Files, dynamic: int) -> int {
    let slots = MAX_RESIDENT_CREDENTIALS - occupied_in(f, 256);
    let shared = MAX_DYNAMIC_FILES - dynamic;
    if slots <= shared {
        slots
    } else {
        shared
    }
}

/// The number of credentials that can still be stored.
pub fn remaining_discoverable<S: Storage>(fs: &mut Fs<S>) -> (n: u16)
    requires
        old(fs).wf(),
    ensures
        final(fs).wf(),
        final(fs).reread(old(fs)),
        n == remaining_of(files(old(fs)), old(fs).dynamic().len() as int),
{
    let ghost f = files(fs);
    let occupied: Vec<bool> = slot_map(fs, EF_CRED);
    let mut used: u16 = 0;
    let mut i: usize = 0;
    while i < 256
        invariant
            i <= 256,
            occupied@.len() == 256,
            used == occupied_in(f, i as nat),
            used <= i,
            forall|x: int|
                0 <= x < 256 ==> #[trigger] occupied@[x] == f.listed.contains(
                    (EF_CRED + x) as u16,
                ),
        decreases 256 - i,
    {
        if occupied[i] {
            used += 1;
        }
        i += 1;
    }
    let slots: u16 = MAX_RESIDENT_CREDENTIALS - used;
    let shared: usize = fs.free_dynamic();
    if slots as usize <= shared {
        slots
    } else {
        shared as u16
    }
}

/// The box of a resident credential is what follows the hash of the relying party
/// and the id in the first record of both; where no record has both there is none.
pub proof fn law_resident_box(f: Files, rp_id_hash: Seq<u8>, id: Seq<u8>, i: int)
    requires
        0 <= i,
        rp_id_hash.len() == 32,
        id.len() == 42,
    ensures
        match resident_box(f, rp_id_hash, id, i) {
            Some(b) => exists|k: int|
                i <= k < 256 && #[trigger] record(f, EF_CRED, k, CRED_REC_MAX as nat) == Some(
                    rp_id_hash + id + b,
                ),
            None => forall|k: int, b: Seq<u8>|
                #![trigger record(f, EF_CRED, k, CRED_REC_MAX as nat), rp_id_hash + id + b]
                i <= k < 256 ==> record(f, EF_CRED, k, CRED_REC_MAX as nat) != Some(
                    rp_id_hash + id + b,
                ),
        },
    decreases 256 - i,
{
    if i < 256 {
        law_resident_box(f, rp_id_hash, id, i + 1);
        match record(f, EF_CRED, i, CRED_REC_MAX as nat) {
            Some(rec) => {
                if rec.len() >= RECORD_PREFIX && rec.subrange(0, 32) == rp_id_hash && rec.subrange(
                    32,
                    74,
                ) == id {
                    assert(rec =~= rp_id_hash + id + rec.skip(74));
                } else {
                    assert forall|b: Seq<u8>| rec != #[trigger] (rp_id_hash + id + b) by {
                        let x = rp_id_hash + id + b;
                        assert(x.subrange(0, 32) =~= rp_id_hash);
                        assert(x.subrange(32, 74) =~= id);
                    }
                }
            },
            None => {},
        }
    }
}

/// The slot of a relying party holds a record of its hash behind the first byte,
/// and no slot before it does; where there is none, no slot does.
pub proof fn law_rp_slot(f: Files, rp_id_hash: Seq<u8>, i: int)
    requires
        0 <= i <= 256,
    ensures
        match rp_slot(f, rp_id_hash, i) {
            Some(k) => i <= k < 256 && has_rp(f, rp_id_hash, k) && forall|j: int|
                i <= j < k ==> !#[trigger] has_rp(f, rp_id_hash, j),
            None => forall|j: int| i <= j < 256 ==> !#[trigger] has_rp(f, rp_id_hash, j),
        },
    decreases 256 - i,
{
    if i < 256 {
        law_rp_slot(f, rp_id_hash, i + 1);
    }
}

/// The slot holds a record with the hash of the relying party behind its first
/// byte.
pub open spec fn has_rp(f: Files, rp_id_hash: Seq<u8>, i: int) -> bool {
    record(f, EF_RP, i, RP_REC_MAX as nat) matches Some(rec) && rec.len() >= 33 && rec.subrange(
        1,
        33,
    ) == rp_id_hash
}

/// A relying party learns the minimum PIN length, the first byte of the policy,
/// exactly where its hash is in the list behind the first two bytes.
pub proof fn law_listed_min_pin(b: Seq<u8>, rp_id_hash: Seq<u8>, n: nat)
    requires
        b.len() >= 1,
    ensures
        (exists|k: nat| 2 + 32 * n + 32 * k + 32 <= b.len() && #[trigger] listed_at(
            b,
            (n + k) as nat,
        ) == rp_id_hash) ==> listed_min_pin(b, rp_id_hash, 2 + 32 * n as int) == b[0],
        (forall|k: nat| 2 + 32 * n + 32 * k + 32 <= b.len() ==> #[trigger] listed_at(
            b,
            (n + k) as nat,
        ) != rp_id_hash) ==> listed_min_pin(b, rp_id_hash, 2 + 32 * n as int) == 0,
    decreases b.len() - 32 * n,
{
    let o = 2 + 32 * n as int;
    if o + 32 <= b.len() {
        assert(listed_at(b, (n + 0) as nat) == b.subrange(o, o + 32));
        if b.subrange(o, o + 32) != rp_id_hash {
            law_listed_min_pin(b, rp_id_hash, n + 1);
            if exists|k: nat| 2 + 32 * n + 32 * k + 32 <= b.len() && #[trigger] listed_at(
                b,
                (n + k) as nat,
            ) == rp_id_hash {
                let k = choose|k: nat| 2 + 32 * n + 32 * k + 32 <= b.len() && #[trigger] listed_at(
                    b,
                    (n + k) as nat,
                ) == rp_id_hash;
                assert(k > 0);
                assert(listed_at(b, ((n + 1) + (k - 1)) as nat) == rp_id_hash);
                assert(2 + 32 * (n + 1) + 32 * (k - 1) + 32 <= b.len());
                let j = (k - 1) as nat;
                assert(listed_at(b, ((n + 1) + j) as nat) == rp_id_hash);
            }
            if forall|k: nat| 2 + 32 * n + 32 * k + 32 <= b.len() ==> #[trigger] listed_at(
                b,
                (n + k) as nat,
            ) != rp_id_hash {
                assert forall|k: nat| 2 + 32 * (n + 1) + 32 * k + 32 <= b.len() implies #[trigger] listed_at(
                    b,
                    ((n + 1) + k) as nat,
                ) != rp_id_hash by {
                    assert(listed_at(b, (n + (k + 1)) as nat) != rp_id_hash);
                }
            }
        }
    }
}

/// The hash at a place of the list in a policy.
pub open spec fn listed_at(b: Seq<u8>, k: nat) -> Seq<u8> {
    b.subrange(2 + 32 * k as int, 2 + 32 * k as int + 32)
}

/// What remains for credentials is bounded by the free slots of the 256 and by the
/// free files of the 1280, and is the smaller of the two.
pub proof fn law_remaining(f: Files, dynamic: int)
    ensures
        remaining_of(f, dynamic) <= 256 - occupied_in(f, 256),
        remaining_of(f, dynamic) <= 1280 - dynamic,
        remaining_of(f, dynamic) == 256 - occupied_in(f, 256) || remaining_of(f, dynamic) == 1280
            - dynamic,
{
}

}
