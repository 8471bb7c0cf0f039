//! The key/value file and metadata API over a [`Storage`] backend.

use heapless;
use vstd::prelude::*;
use vstd::slice::slice_subrange;

use crate::fs::dynamic;
use crate::fs::dynamic::{
    list_clear, list_contains, list_drop, list_is_full, list_len, list_new, list_push,
};
use crate::fs::meta;
use crate::fs::meta::{find_meta, rebuild_meta, META_MAX};
use crate::fs::sealed::{KeyFid, Sealed};
use crate::fs::storage;
use crate::fs::storage::Storage;
use crate::sdk::Error;

verus! {

/// The metadata side-store EF.
pub const EF_META: u16 = 0xE010;

/// Max number of dynamic (runtime-created) files, the budget that all applets
/// share.
pub const MAX_DYNAMIC_FILES: usize = 1280;

/// Bit `fid % 8` of byte `fid / 8`.
pub open spec fn bit_of(map: Seq<u8>, fid: u16) -> bool {
    map[fid as int / 8] & (1u8 << ((fid % 8) as u8)) != 0
}

/// Setting or clearing one bit of a byte leaves the others alone.
proof fn lemma_bits(x: u8, k: u8, j: u8)
    requires
        k < 8,
        j < 8,
    ensures
        ((x | (1u8 << k)) & (1u8 << j) != 0) == (j == k || x & (1u8 << j) != 0),
        ((x & !(1u8 << k)) & (1u8 << j) != 0) == (j != k && x & (1u8 << j) != 0),
        0u8 & (1u8 << j) == 0,
{
    assert(((x | (1u8 << k)) & (1u8 << j) != 0) == (j == k || x & (1u8 << j) != 0)) by (bit_vector)
        requires
            k < 8,
            j < 8,
    ;
    assert(((x & !(1u8 << k)) & (1u8 << j) != 0) == (j != k && x & (1u8 << j) != 0))
        by (bit_vector)
        requires
            k < 8,
            j < 8,
    ;
    assert(0u8 & (1u8 << j) == 0) by (bit_vector);
}

/// `after` is `before` with the bit of `fid` set to `v`.
spec fn bit_changed(before: Seq<u8>, after: Seq<u8>, fid: u16, v: bool) -> bool {
    &&& after.len() == before.len()
    &&& forall|g: u16|
        #[trigger] bit_of(after, g) == (if g == fid {
            v
        } else {
            bit_of(before, g)
        })
}

fn get_bit(map: &[u8; 8192], fid: u16) -> (r: bool)
    ensures
        r == bit_of(map@, fid),
{
    map[(fid / 8) as usize] & (1u8 << ((fid % 8) as u8)) != 0
}

fn set_bit(map: &mut [u8; 8192], fid: u16)
    ensures
        bit_changed(old(map)@, final(map)@, fid, true),
{
    let i: usize = (fid / 8) as usize;
    let k: u8 = (fid % 8) as u8;
    let x: u8 = map[i];
    map[i] = x | (1u8 << k);
    proof {
        assert forall|g: u16| #[trigger] bit_of(map@, g) == (if g == fid {
            true
        } else {
            bit_of(old(map)@, g)
        }) by {
            let j = (g % 8) as u8;
            lemma_bits(x, k, j);
            if g / 8 == fid / 8 && g != fid {
                assert(j != k);
            }
        }
    }
}

fn clear_bit(map: &mut [u8; 8192], fid: u16)
    ensures
        bit_changed(old(map)@, final(map)@, fid, false),
{
    let i: usize = (fid / 8) as usize;
    let k: u8 = (fid % 8) as u8;
    let x: u8 = map[i];
    map[i] = x & !(1u8 << k);
    proof {
        assert forall|g: u16| #[trigger] bit_of(map@, g) == (if g == fid {
            false
        } else {
            bit_of(old(map)@, g)
        }) by {
            let j = (g % 8) as u8;
            lemma_bits(x, k, j);
            if g / 8 == fid / 8 && g != fid {
                assert(j != k);
            }
        }
    }
}

/// A bitmap with every bit clear.
fn zero_map() -> (m: [u8; 8192])
    ensures
        forall|g: u16| !(#[trigger] bit_of(m@, g)),
{
    let m = [0u8; 8192];
    proof {
        assert forall|g: u16| !(#[trigger] bit_of(m@, g)) by {
            lemma_bits(0, 0, (g % 8) as u8);
        }
    }
    m
}

/// The blob of the metadata store, as much as fits the scratch buffer.
pub open spec fn meta_blob(c: Map<u16, Seq<u8>>) -> Seq<u8> {
    if c.contains_key(EF_META) {
        if c[EF_META].len() <= 1024 {
            c[EF_META]
        } else {
            c[EF_META].take(1024)
        }
    } else {
        Seq::empty()
    }
}

/// The metadata of `fid`.
pub open spec fn meta_of(c: Map<u16, Seq<u8>>, fid: u16) -> Option<Seq<u8>> {
    meta::found(meta::records(meta_blob(c)), fid as int)
}

/// The metadata of the files outside the given ones is as before.
pub open spec fn metas_kept_but(
    a: Map<u16, Seq<u8>>,
    b: Map<u16, Seq<u8>>,
    but: spec_fn(u16) -> bool,
) -> bool {
    forall|g: u16| !but(g) ==> #[trigger] meta_of(b, g) == meta_of(a, g)
}

/// The store after the metadata of `fid` was dropped.
pub open spec fn meta_dropped(c: Map<u16, Seq<u8>>, fid: u16) -> Map<u16, Seq<u8>> {
    let b = meta_blob(c);
    let kept = meta::rebuilt(b, fid as int, None);
    if !c.contains_key(EF_META) || kept.len() == b.len() {
        c
    } else if kept.len() == 0 {
        c.remove(EF_META)
    } else {
        c.insert(EF_META, kept)
    }
}

/// The first `n` bytes, or all of them.
pub open spec fn clipped(s: Seq<u8>, n: nat) -> Seq<u8> {
    if s.len() <= n {
        s
    } else {
        s.take(n as int)
    }
}

/// The file system: the set of live dynamic FIDs and a present-cache over a
/// [`Storage`] backend.
pub struct Fs<S: Storage> {
    storage: S,
    dynamic: heapless::Vec<u16, 1280>,
    /// The bit of a FID is set when the backend is known to hold it. A clear
    /// bit alone says nothing; see `decided`.
    present: [u8; 8192],
    /// The bit of a FID is set when `present` is authoritative for it. Every
    /// other FID is unknown until the backend was asked, so a key that a bulk
    /// pass missed never reads back as absent.
    decided: [u8; 8192],
}

impl<S: Storage> Fs<S> {
    /// What the files hold.
    pub closed spec fn contents(&self) -> Map<u16, Seq<u8>> {
        self.storage.contents()
    }

    /// The keys that a bulk pass over the backend yields.
    pub closed spec fn listed(&self) -> Set<u16> {
        self.storage.listed()
    }

    /// No operation of the backend fails.
    pub closed spec fn reliable(&self) -> bool {
        self.storage.reliable()
    }

    /// The number of compactions of the backend that completed.
    pub closed spec fn laps(&self) -> nat {
        self.storage.laps()
    }

    /// No superseded record is left in the backend.
    pub closed spec fn clean(&self) -> bool {
        self.storage.clean()
    }

    /// The registered dynamic files.
    pub closed spec fn dynamic(&self) -> Seq<u16> {
        dynamic::fid_list(self.dynamic)
    }

    /// What the cache says of `fid`: present, absent or nothing.
    pub closed spec fn cached(&self, fid: u16) -> Option<bool> {
        if bit_of(self.decided@, fid) {
            Some(bit_of(self.present@, fid))
        } else {
            None
        }
    }

    /// A file that the cache calls absent is absent, no file is registered
    /// twice, and the budget of dynamic files is kept.
    pub closed spec fn wf(&self) -> bool {
        &&& self.storage.inv()
        &&& self.dynamic().no_duplicates()
        &&& self.dynamic().len() <= 1280
        &&& forall|f: u16| #[trigger] bit_of(self.present@, f) ==> bit_of(self.decided@, f)
        &&& forall|f: u16|
            #[trigger] bit_of(self.decided@, f) && !bit_of(self.present@, f)
                ==> !self.storage.contents().contains_key(f)
    }

    /// Only the cache differs, and only in what it says of `fid`.
    pub open spec fn only_cached(&self, before: &Self, fid: u16) -> bool {
        &&& self.contents() == before.contents()
        &&& self.listed() == before.listed()
        &&& self.reliable() == before.reliable()
        &&& self.laps() == before.laps()
        &&& self.clean() == before.clean()
        &&& self.dynamic() == before.dynamic()
        &&& self.cached(fid) == Some(before.contents().contains_key(fid))
        &&& forall|g: u16| g != fid ==> #[trigger] self.cached(g) == before.cached(g)
    }

    /// Nothing but the cache differs, and all that the cache learned is so.
    pub open spec fn reread(&self, before: &Self) -> bool {
        &&& self.contents() == before.contents()
        &&& self.listed() == before.listed()
        &&& self.reliable() == before.reliable()
        &&& self.laps() == before.laps()
        &&& self.clean() == before.clean()
        &&& self.dynamic() == before.dynamic()
        &&& forall|g: u16|
            #![trigger self.cached(g)]
            self.cached(g) == before.cached(g) || self.cached(g) == Some(
                before.contents().contains_key(g),
            )
    }

    /// What the cache says of the files outside the given ones it said before, or
    /// it is so.
    pub open spec fn learned_but(&self, before: &Self, but: spec_fn(u16) -> bool) -> bool {
        forall|g: u16|
            #![trigger self.cached(g)]
            !but(g) ==> self.cached(g) == before.cached(g) || self.cached(g) == Some(
                before.contents().contains_key(g),
            )
    }

    /// The cache never hides a file: what it calls absent is absent.
    pub proof fn law_no_false_absent(&self, fid: u16)
        requires
            self.wf(),
        ensures
            self.cached(fid) == Some(false) ==> !self.contents().contains_key(fid),
            self.dynamic().no_duplicates(),
            self.dynamic().len() <= 1280,
    {
    }

    /// A file system over `storage` that knows nothing of its contents yet.
    pub fn new(storage: S) -> (fs: Self)
        requires
            storage.inv(),
        ensures
            fs.wf(),
            fs.contents() == storage.contents(),
            fs.listed() == storage.listed(),
            fs.reliable() == storage.reliable(),
            fs.laps() == storage.laps(),
            fs.clean() == storage.clean(),
            fs.dynamic() == Seq::<u16>::empty(),
            forall|f: u16| (#[trigger] fs.cached(f)) is None,
    {
        Fs { storage, dynamic: list_new(), present: zero_map(), decided: zero_map() }
    }

    /// Recovers the backend.
    pub fn into_storage(self) -> (s: S)
        requires
            self.wf(),
        ensures
            s.inv(),
            s.contents() == self.contents(),
            s.listed() == self.listed(),
            s.reliable() == self.reliable(),
            s.laps() == self.laps(),
            s.clean() == self.clean(),
    {
        self.storage
    }

    /// `fid` is confirmed absent. An unknown FID is not.
    fn known_absent(&self, fid: u16) -> (r: bool)
        ensures
            r == (self.cached(fid) == Some(false)),
    {
        get_bit(&self.decided, fid) && !get_bit(&self.present, fid)
    }

    /// Caches the backend's answer for `fid`.
    fn record(&mut self, fid: u16, present: bool)
        requires
            old(self).storage.inv(),
            present == old(self).contents().contains_key(fid),
            old(self).dynamic().no_duplicates(),
            old(self).dynamic().len() <= 1280,
            forall|f: u16|
                #[trigger] bit_of(old(self).present@, f) ==> bit_of(old(self).decided@, f),
            forall|f: u16|
                #[trigger] bit_of(old(self).decided@, f) && !bit_of(old(self).present@, f) && f
                    != fid ==> !old(self).contents().contains_key(f),
        ensures
            final(self).wf(),
            final(self).storage == old(self).storage,
            final(self).dynamic == old(self).dynamic,
            final(self).only_cached(old(self), fid),
            bit_changed(old(self).present@, final(self).present@, fid, present),
            bit_changed(old(self).decided@, final(self).decided@, fid, true),
    {
        if present {
            set_bit(&mut self.present, fid);
        } else {
            clear_bit(&mut self.present, fid);
        }
        set_bit(&mut self.decided, fid);
    }

    /// Rebuilds the dynamic-file set and the cache from what is in storage (run
    /// once after a reboot). Keys that the bulk pass does not yield stay
    /// unknown. The budget of dynamic files is kept: with more keys than that,
    /// the first ones are registered.
    pub fn scan(&mut self)
        requires
            old(self).wf(),
        ensures
            final(self).wf(),
            final(self).contents() == old(self).contents(),
            final(self).listed() == old(self).listed(),
            final(self).reliable() == old(self).reliable(),
            final(self).laps() == old(self).laps(),
            final(self).clean() == old(self).clean(),
            forall|f: u16|
                #[trigger] final(self).cached(f) == (if old(self).listed().contains(f) {
                    Some(true)
                } else {
                    None
                }),
            forall|f: u16|
                #[trigger] final(self).dynamic().contains(f) ==> f != EF_META && old(
                    self,
                ).listed().contains(f),
            old(self).listed().remove(EF_META).len() <= 1280 ==> forall|f: u16|
                f != EF_META && #[trigger] old(self).listed().contains(f)
                    ==> final(self).dynamic().contains(f),
    {
        let keys = self.storage.for_each_key();
        list_clear(&mut self.dynamic);
        self.present = zero_map();
        self.decided = zero_map();
        let ghost store = self.storage;
        let mut i: usize = 0;
        while i < keys.len()
            invariant
                i <= keys@.len(),
                self.storage == store,
                store.inv(),
                store.contents() == old(self).contents(),
                store.listed() == old(self).listed(),
                store.laps() == old(self).laps(),
                store.clean() == old(self).clean(),
                keys@.no_duplicates(),
                forall|k: u16| #[trigger] keys@.contains(k) <==> store.listed().contains(k),
                forall|k: u16|
                    #[trigger] store.listed().contains(k) ==> store.contents().contains_key(k),
                forall|f: u16|
                    #[trigger] bit_of(self.present@, f) <==> keys@.take(i as int).contains(f),
                forall|f: u16|
                    #[trigger] bit_of(self.decided@, f) <==> keys@.take(i as int).contains(f),
                self.dynamic().no_duplicates(),
                self.dynamic().len() <= 1280,
                forall|f: u16|
                    #[trigger] self.dynamic().contains(f) ==> f != EF_META && keys@.take(
                        i as int,
                    ).contains(f),
                self.dynamic().len() < 1280 ==> forall|f: u16|
                    f != EF_META && #[trigger] keys@.take(i as int).contains(f)
                        ==> self.dynamic().contains(f),
            decreases keys@.len() - i,
        {
            let fid: u16 = keys[i];
            let ghost before = self.dynamic();
            set_bit(&mut self.present, fid);
            set_bit(&mut self.decided, fid);
            if fid != EF_META && !list_contains(&self.dynamic, fid) {
                let _ = list_push(&mut self.dynamic, fid);
            }
            proof {
                let t0 = keys@.take(i as int);
                let t1 = keys@.take(i + 1);
                assert(t1 =~= t0.push(fid));
                assert forall|f: u16| #[trigger] t1.contains(f) <==> (t0.contains(f) || f == fid) by {
                    lemma_push_contains(t0, fid, f);
                }
                assert forall|f: u16| #[trigger] self.dynamic().contains(f) implies before.contains(
                    f,
                ) || f == fid by {
                    if self.dynamic() != before {
                        lemma_push_contains(before, fid, f);
                    }
                }
                assert forall|f: u16| #[trigger] before.contains(f) implies self.dynamic().contains(
                    f,
                ) by {
                    if self.dynamic() != before {
                        lemma_push_contains(before, fid, f);
                    }
                }
                if self.dynamic() != before {
                    lemma_push_contains(before, fid, fid);
                    lemma_push_distinct(before, fid);
                }
            }
            i = i + 1;
        }
        proof {
            assert(keys@.take(keys@.len() as int) =~= keys@);
            let all = self.storage.listed();
            assert(keys@.to_set() =~= all);
            let rest = all.remove(EF_META);
            let have = self.dynamic().to_set();
            vstd::seq_lib::seq_to_set_is_finite(keys@);
            vstd::seq_lib::seq_to_set_is_finite(self.dynamic());
            if rest.len() <= 1280 {
                self.dynamic().unique_seq_to_set();
                assert(have.subset_of(rest)) by {
                    assert forall|f: u16| have.contains(f) implies rest.contains(f) by {
                        assert(self.dynamic().contains(f));
                    }
                }
                if self.dynamic().len() < 1280 {
                    assert forall|f: u16|
                        f != EF_META && #[trigger] all.contains(f) implies self.dynamic().contains(
                        f,
                    ) by {
                        assert(keys@.take(keys@.len() as int).contains(f));
                    }
                } else {
                    vstd::set_lib::lemma_len_subset(have, rest);
                    vstd::set_lib::lemma_subset_equality(have, rest);
                    assert forall|f: u16|
                        f != EF_META && #[trigger] all.contains(f) implies self.dynamic().contains(
                        f,
                    ) by {
                        assert(rest.contains(f));
                        assert(have.contains(f));
                    }
                }
            }
        }
    }

    /// Copies file contents into `buf`; returns the value's full length, or
    /// `None`.
    pub fn read(&mut self, fid: u16, buf: &mut [u8]) -> (r: Option<usize>)
        requires
            old(self).wf(),
        ensures
            final(self).wf(),
            final(self).only_cached(old(self), fid),
            match r {
                None => !old(self).contents().contains_key(fid) && final(buf)@ == old(buf)@,
                Some(n) => old(self).contents().contains_key(fid) && n
                    == old(self).contents()[fid].len() && storage::copied(
                    final(buf)@,
                    old(buf)@,
                    old(self).contents()[fid],
                ),
            },
    {
        if self.known_absent(fid) {
            return None;
        }
        let r = self.storage.read(fid, buf);
        self.record(fid, r.is_some());
        r
    }

    /// Length of the file's contents, or `None` if absent.
    pub fn size(&mut self, fid: u16) -> (r: Option<usize>)
        requires
            old(self).wf(),
        ensures
            final(self).wf(),
            final(self).only_cached(old(self), fid),
            match r {
                None => !old(self).contents().contains_key(fid),
                Some(n) => old(self).contents().contains_key(fid) && n
                    == old(self).contents()[fid].len(),
            },
    {
        if self.known_absent(fid) {
            return None;
        }
        let r = self.storage.size(fid);
        self.record(fid, r.is_some());
        r
    }

    /// Whether the file exists with non-empty contents.
    pub fn has_data(&mut self, fid: u16) -> (r: bool)
        requires
            old(self).wf(),
        ensures
            final(self).wf(),
            final(self).only_cached(old(self), fid),
            r == (old(self).contents().contains_key(fid) && old(self).contents()[fid].len() > 0),
    {
        match self.size(fid) {
            Some(n) => n > 0,
            None => false,
        }
    }

    /// The live keys of the backend, from a single storage pass. A read of an
    /// absent key rescans the whole flash, so this is the way to walk a range.
    pub fn for_each_key(&mut self) -> (r: Vec<u16>)
        requires
            old(self).wf(),
        ensures
            final(self).wf(),
            final(self).contents() == old(self).contents(),
            final(self).listed() == old(self).listed(),
            final(self).reliable() == old(self).reliable(),
            final(self).laps() == old(self).laps(),
            final(self).clean() == old(self).clean(),
            final(self).dynamic() == old(self).dynamic(),
            forall|g: u16| #[trigger] final(self).cached(g) == old(self).cached(g),
            r@.no_duplicates(),
            forall|k: u16| #[trigger] r@.contains(k) <==> old(self).listed().contains(k),
            forall|k: u16|
                #[trigger] old(self).listed().contains(k) ==> old(self).contents().contains_key(k),
    {
        self.storage.for_each_key()
    }

    /// Free slots in the shared dynamic-file budget.
    pub fn free_dynamic(&self) -> (n: usize)
        ensures
            n == 1280 - self.dynamic().len(),
    {
        MAX_DYNAMIC_FILES - list_len(&self.dynamic)
    }

    /// The registered dynamic file `fid`, if it is one.
    pub fn search(&self, fid: u16) -> (r: Option<u16>)
        ensures
            r == (if self.dynamic().contains(fid) {
                Some(fid)
            } else {
                None
            }),
    {
        if list_contains(&self.dynamic, fid) {
            Some(fid)
        } else {
            None
        }
    }

    /// Registers `fid` as a dynamic file without contents.
    pub fn new_file(&mut self, fid: u16) -> (r: Result<(), Error>)
        requires
            old(self).wf(),
        ensures
            final(self).wf(),
            final(self).contents() == old(self).contents(),
            final(self).listed() == old(self).listed(),
            final(self).reliable() == old(self).reliable(),
            final(self).laps() == old(self).laps(),
            final(self).clean() == old(self).clean(),
            forall|g: u16| #[trigger] final(self).cached(g) == old(self).cached(g),
            r is Ok <==> old(self).dynamic().contains(fid) || old(self).dynamic().len() < 1280,
            r matches Err(e) ==> e == Error::NoMemory,
            final(self).dynamic() == (if old(self).dynamic().contains(fid) || r is Err {
                old(self).dynamic()
            } else {
                old(self).dynamic().push(fid)
            }),
    {
        if list_contains(&self.dynamic, fid) {
            return Ok(());
        }
        proof {
            lemma_push_distinct(self.dynamic(), fid);
        }
        match list_push(&mut self.dynamic, fid) {
            Ok(()) => Ok(()),
            Err(_) => Err(Error::NoMemory),
        }
    }

    /// Physically scrubs superseded records from the backing store.
    pub fn compact(&mut self) -> (r: Result<(), Error>)
        requires
            old(self).wf(),
        ensures
            final(self).wf(),
            final(self).contents() == old(self).contents(),
            final(self).listed() == old(self).listed(),
            final(self).reliable() == old(self).reliable(),
            final(self).dynamic() == old(self).dynamic(),
            forall|g: u16| #[trigger] final(self).cached(g) == old(self).cached(g),
            old(self).reliable() ==> r is Ok,
            r is Ok ==> final(self).laps() == old(self).laps() + 1 && final(self).clean(),
            r is Err ==> final(self).laps() == old(self).laps(),
    {
        self.storage.compact()
    }

    /// Erases every stored key that the bulk pass yields and `preserve` does not
    /// keep, then scrubs the backing store. The caches are reset, so any reuse
    /// before the reboot asks the backend again.
    pub fn factory_wipe<F: Fn(u16) -> bool>(&mut self, preserve: F) -> (r: Result<(), Error>)
        requires
            old(self).wf(),
            forall|k: u16| #[trigger] call_requires(preserve, (k,)),
        ensures
            final(self).wf(),
            final(self).reliable() == old(self).reliable(),
            old(self).reliable() ==> r is Ok,
            r is Ok ==> final(self).laps() == old(self).laps() + 1 && final(self).clean(),
            r is Err ==> final(self).laps() == old(self).laps(),
            forall|k: u16|
                #[trigger] final(self).contents().contains_key(k) ==> old(
                    self,
                ).contents().contains_key(k) && final(self).contents()[k] == old(
                    self,
                ).contents()[k],
            forall|k: u16|
                #[trigger] old(self).contents().contains_key(k)
                    && !final(self).contents().contains_key(k) ==> old(self).listed().contains(k)
                    && call_ensures(preserve, (k,), false),
            r is Ok ==> forall|k: u16|
                #[trigger] final(self).contents().contains_key(k) && old(self).listed().contains(k)
                    ==> call_ensures(preserve, (k,), true),
            forall|k: u16| #[trigger]
                final(self).listed().contains(k) <==> old(self).listed().contains(k)
                    && final(self).contents().contains_key(k),
            r is Ok ==> final(self).dynamic() == Seq::<u16>::empty(),
            r is Ok ==> forall|k: u16| (#[trigger] final(self).cached(k)) is None,
    {
        let keys = self.storage.for_each_key();
        let ghost start = self.contents();
        let mut i: usize = 0;
        while i < keys.len()
            invariant
                i <= keys@.len(),
                self.wf(),
                self.reliable() == old(self).reliable(),
                self.laps() == old(self).laps(),
                start == old(self).contents(),
                keys@.no_duplicates(),
                forall|k: u16| #[trigger] keys@.contains(k) <==> old(self).listed().contains(k),
                forall|k: u16| #[trigger] call_requires(preserve, (k,)),
                forall|k: u16|
                    #[trigger] self.contents().contains_key(k) ==> start.contains_key(k)
                        && self.contents()[k] == start[k],
                forall|k: u16|
                    #[trigger] start.contains_key(k) && !self.contents().contains_key(k)
                        ==> keys@.contains(k) && call_ensures(preserve, (k,), false),
                forall|x: int|
                    0 <= x < i && self.contents().contains_key(#[trigger] keys@[x])
                        ==> call_ensures(preserve, (keys@[x],), true),
                forall|k: u16|
                    #![trigger self.listed().contains(k)]
                    #![trigger self.contents().contains_key(k)]
                    self.listed().contains(k) <==> keys@.contains(k)
                        && self.contents().contains_key(k),
            decreases keys@.len() - i,
        {
            let fid: u16 = keys[i];
            assert(keys@.contains(fid));
            if !preserve(fid) {
                let ghost before = self.contents();
                let ghost known = self.listed();
                match self.storage.remove(fid) {
                    Ok(()) => {},
                    Err(e) => {
                        assert(self.contents() == before && self.listed() == known);
                        return Err(e);
                    },
                }
                assert(self.contents() == before.remove(fid));
                assert(self.listed() == known.remove(fid));
                assert forall|k: u16| known.contains(k) <==> keys@.contains(k)
                    && #[trigger] before.contains_key(k) by {}
            }
            i = i + 1;
        }
        let ghost mid = self.contents();
        let ghost left = self.listed();
        self.present = zero_map();
        self.decided = zero_map();
        list_clear(&mut self.dynamic);
        let r = self.storage.compact();
        proof {
            assert(self.contents() == mid && self.listed() == left);
            assert forall|k: u16| #[trigger] self.contents().contains_key(k) implies old(
                self,
            ).contents().contains_key(k) && self.contents()[k] == old(self).contents()[k] by {
                assert(mid.contains_key(k));
            }
            assert forall|k: u16|
                #[trigger] self.contents().contains_key(k) && old(self).listed().contains(
                    k,
                ) implies call_ensures(preserve, (k,), true) by {
                assert(keys@.contains(k));
                let x = choose|x: int| 0 <= x < keys@.len() && keys@[x] == k;
                assert(self.contents().contains_key(keys@[x]));
            }
        }
        r
    }

    /// Stores file contents, registering a dynamic file if it is new. A new
    /// file that would exceed the budget is refused before the backend is
    /// touched.
    pub fn put(&mut self, fid: u16, data: &[u8]) -> (r: Result<(), Error>)
        requires
            old(self).wf(),
        ensures
            final(self).wf(),
            final(self).reliable() == old(self).reliable(),
            final(self).laps() == old(self).laps(),
            ({
                let known = old(self).dynamic().contains(fid);
                let over = !known && old(self).dynamic().len() >= 1280;
                &&& over ==> r == Err::<(), Error>(Error::NoMemory)
                &&& !over && old(self).reliable() ==> r is Ok
                &&& r is Ok ==> {
                    &&& final(self).contents() == old(self).contents().insert(fid, data@)
                    &&& final(self).listed() == old(self).listed().insert(fid)
                    &&& final(self).cached(fid) == Some(true)
                    &&& final(self).dynamic() == (if known {
                        old(self).dynamic()
                    } else {
                        old(self).dynamic().push(fid)
                    })
                }
                &&& r is Err ==> {
                    &&& final(self).contents() == old(self).contents()
                    &&& final(self).listed() == old(self).listed()
                    &&& final(self).cached(fid) == old(self).cached(fid)
                    &&& final(self).dynamic() == old(self).dynamic()
                }
            }),
            forall|g: u16| g != fid ==> #[trigger] final(self).cached(g) == old(self).cached(g),
    {
        let register: bool = !list_contains(&self.dynamic, fid);
        if register && list_is_full(&self.dynamic) {
            return Err(Error::NoMemory);
        }
        match self.storage.write(fid, data) {
            Ok(()) => {},
            Err(e) => {
                return Err(e);
            },
        }
        self.record(fid, true);
        let ghost mid = *self;
        if register {
            proof {
                lemma_push_distinct(self.dynamic(), fid);
            }
            let _ = list_push(&mut self.dynamic, fid);
        }
        assert forall|g: u16| g != fid implies #[trigger] self.cached(g) == old(self).cached(g) by {
            assert(mid.cached(g) == old(self).cached(g));
        }
        Ok(())
    }

    /// Removes `fid` from the backend and the cache.
    fn drop_file(&mut self, fid: u16) -> (r: Result<(), Error>)
        requires
            old(self).wf(),
        ensures
            final(self).wf(),
            final(self).reliable() == old(self).reliable(),
            final(self).laps() == old(self).laps(),
            final(self).dynamic() == old(self).dynamic(),
            old(self).reliable() ==> r is Ok,
            r is Ok ==> final(self).contents() == old(self).contents().remove(fid)
                && final(self).listed() == old(self).listed().remove(fid)
                && final(self).cached(fid) == Some(false),
            r is Err ==> final(self).contents() == old(self).contents() && final(self).listed()
                == old(self).listed() && final(self).cached(fid) == old(self).cached(fid),
            forall|g: u16| g != fid ==> #[trigger] final(self).cached(g) == old(self).cached(g),
    {
        match self.storage.remove(fid) {
            Ok(()) => {
                self.record(fid, false);
                Ok(())
            },
            Err(e) => Err(e),
        }
    }

    /// Reads the metadata blob, as much as fits.
    fn read_meta(&mut self) -> (r: Option<Vec<u8>>)
        requires
            old(self).wf(),
        ensures
            final(self).wf(),
            final(self).only_cached(old(self), EF_META),
            r is Some <==> old(self).contents().contains_key(EF_META),
            r matches Some(b) ==> b@ == meta_blob(old(self).contents()) && b@.len() <= 1024,
    {
        let mut scratch: Vec<u8> = vec![0u8; META_MAX];
        match self.read(EF_META, scratch.as_mut_slice()) {
            None => None,
            Some(n) => {
                if n < META_MAX {
                    scratch.truncate(n);
                }
                assert(scratch@ =~= meta_blob(old(self).contents()));
                Some(scratch)
            },
        }
    }

    /// Copies the metadata of `fid` into `out`; returns its full length.
    pub fn meta_find(&mut self, fid: u16, out: &mut [u8]) -> (r: Option<usize>)
        requires
            old(self).wf(),
        ensures
            final(self).wf(),
            final(self).only_cached(old(self), EF_META),
            match meta_of(old(self).contents(), fid) {
                None => r is None && final(out)@ == old(out)@,
                Some(data) => r == Some(data.len() as usize) && storage::copied(
                    final(out)@,
                    old(out)@,
                    data,
                ),
            },
    {
        let blob = match self.read_meta() {
            None => {
                return None;
            },
            Some(b) => b,
        };
        match find_meta(&blob, fid) {
            None => None,
            Some((start, end)) => {
                let ghost before = out@;
                let ghost data = blob@.subrange(start as int, end as int);
                let len: usize = end - start;
                let mut j: usize = 0;
                while j < len && j < out.len()
                    invariant
                        j <= len,
                        j <= out@.len(),
                        out@.len() == before.len(),
                        start + len == end,
                        end <= blob@.len(),
                        data == blob@.subrange(start as int, end as int),
                        forall|x: int| 0 <= x < j ==> #[trigger] out@[x] == data[x],
                        forall|x: int| j <= x < before.len() ==> #[trigger] out@[x] == before[x],
                    decreases len - j,
                {
                    out[j] = blob[start + j];
                    j = j + 1;
                }
                Some(len)
            },
        }
    }

    /// Inserts or replaces the metadata of `fid`.
    pub fn meta_add(&mut self, fid: u16, data: &[u8]) -> (r: Result<(), Error>)
        requires
            old(self).wf(),
        ensures
            final(self).wf(),
            final(self).reliable() == old(self).reliable(),
            final(self).laps() == old(self).laps(),
            final(self).dynamic() == old(self).dynamic(),
            ({
                let blob = meta::rebuilt(meta_blob(old(self).contents()), fid as int, Some(data@));
                &&& blob.len() > 1024 ==> r == Err::<(), Error>(Error::NoMemory)
                &&& blob.len() <= 1024 && old(self).reliable() ==> r is Ok
                &&& r is Ok ==> final(self).contents() == old(self).contents().insert(EF_META, blob)
                    && final(self).listed() == old(self).listed().insert(EF_META)
                &&& r is Err ==> final(self).contents() == old(self).contents()
                    && final(self).listed() == old(self).listed()
            }),
            forall|g: u16|
                g != EF_META ==> #[trigger] final(self).cached(g) == old(self).cached(g),
    {
        self.meta_add_reserve(fid, data, 0)
    }

    /// Inserts or replaces the metadata of `fid`, keeping at least `reserve`
    /// bytes of the meta store free; fails with [`Error::NoMemory`] if that is
    /// not possible.
    pub fn meta_add_reserve(&mut self, fid: u16, data: &[u8], reserve: usize) -> (r: Result<
        (),
        Error,
    >)
        requires
            old(self).wf(),
        ensures
            final(self).wf(),
            final(self).reliable() == old(self).reliable(),
            final(self).laps() == old(self).laps(),
            final(self).dynamic() == old(self).dynamic(),
            ({
                let blob = meta::rebuilt(meta_blob(old(self).contents()), fid as int, Some(data@));
                let limit = if reserve <= 1024 {
                    1024 - reserve
                } else {
                    0
                };
                &&& blob.len() > limit ==> r == Err::<(), Error>(Error::NoMemory)
                &&& blob.len() <= limit && old(self).reliable() ==> r is Ok
                &&& r is Ok ==> final(self).contents() == old(self).contents().insert(EF_META, blob)
                    && final(self).listed() == old(self).listed().insert(EF_META)
                &&& r is Err ==> final(self).contents() == old(self).contents()
                    && final(self).listed() == old(self).listed()
            }),
            forall|g: u16|
                g != EF_META ==> #[trigger] final(self).cached(g) == old(self).cached(g),
    {
        let blob = match self.read_meta() {
            None => Vec::new(),
            Some(b) => b,
        };
        assert(blob@ =~= meta_blob(old(self).contents()));
        let ghost mid = *self;
        let limit: usize = if reserve <= META_MAX {
            META_MAX - reserve
        } else {
            0
        };
        let mut out: Vec<u8> = vec![0u8; limit];
        let w: usize = match rebuild_meta(&blob, fid, Some(data), out.as_mut_slice()) {
            Ok(w) => w,
            Err(e) => {
                return Err(e);
            },
        };
        let new = slice_subrange(&out, 0, w);
        assert(new@ =~= out@.take(w as int));
        let r = match self.storage.write(EF_META, new) {
            Ok(()) => {
                self.record(EF_META, true);
                Ok(())
            },
            Err(e) => Err(e),
        };
        assert forall|g: u16| g != EF_META implies #[trigger] self.cached(g) == old(self).cached(
            g,
        ) by {
            assert(mid.cached(g) == old(self).cached(g));
        }
        r
    }

    /// Removes the metadata of `fid`, and the whole store once it is empty. A
    /// blob that would not change is not written again.
    pub fn meta_delete(&mut self, fid: u16) -> (r: Result<(), Error>)
        requires
            old(self).wf(),
        ensures
            final(self).wf(),
            final(self).reliable() == old(self).reliable(),
            final(self).laps() == old(self).laps(),
            final(self).dynamic() == old(self).dynamic(),
            old(self).reliable() ==> r is Ok,
            r is Ok ==> final(self).contents() == meta_dropped(old(self).contents(), fid),
            r is Err ==> final(self).contents() == old(self).contents(),
            final(self).cached(EF_META) == Some(final(self).contents().contains_key(EF_META)),
            forall|g: u16|
                g != EF_META ==> #[trigger] final(self).cached(g) == old(self).cached(g),
            forall|g: u16|
                g != EF_META ==> #[trigger] final(self).listed().contains(g) == old(
                    self,
                ).listed().contains(g),
    {
        let blob = match self.read_meta() {
            None => {
                return Ok(());
            },
            Some(b) => b,
        };
        let ghost mid = *self;
        let n: usize = blob.len();
        let mut out: Vec<u8> = vec![0u8; META_MAX];
        proof {
            meta::lemma_rebuilt_shrinks(blob@, fid as int);
        }
        let w: usize = match rebuild_meta(&blob, fid, None, out.as_mut_slice()) {
            Ok(w) => w,
            Err(e) => {
                return Err(e);
            },
        };
        let r = if w == n {
            Ok(())
        } else if w == 0 {
            self.drop_file(EF_META)
        } else {
            let new = slice_subrange(&out, 0, w);
            assert(new@ =~= out@.take(w as int));
            match self.storage.write(EF_META, new) {
                Ok(()) => {
                    self.record(EF_META, true);
                    Ok(())
                },
                Err(e) => Err(e),
            }
        };
        assert forall|g: u16| g != EF_META implies #[trigger] self.cached(g) == old(self).cached(
            g,
        ) by {
            assert(mid.cached(g) == old(self).cached(g));
        }
        assert(mid.cached(EF_META) == Some(true));
        r
    }

    /// Deletes a file: drops its metadata, its contents if the cache knows them
    /// to be there, and its registration. An unknown file is not looked up in
    /// the backend, so a sweep over absent slots stays cheap.
    pub fn delete(&mut self, fid: u16) -> (r: Result<(), Error>)
        requires
            old(self).wf(),
        ensures
            final(self).wf(),
            final(self).reliable() == old(self).reliable(),
            final(self).laps() == old(self).laps(),
            old(self).reliable() ==> r is Ok,
            old(self).reliable() ==> ({
                let c = meta_dropped(old(self).contents(), fid);
                final(self).contents() == (if (fid == EF_META && c.contains_key(EF_META)) || (fid
                    != EF_META && old(self).cached(fid) == Some(true)) {
                    c.remove(fid)
                } else {
                    c
                })
            }),
            forall|g: u16|
                g != fid && g != EF_META ==> #[trigger] final(self).contents().contains_key(g)
                    == old(self).contents().contains_key(g),
            forall|g: u16|
                g != fid && g != EF_META && old(self).contents().contains_key(g)
                    ==> #[trigger] final(self).contents()[g] == old(self).contents()[g],
            forall|g: u16|
                g != fid && g != EF_META ==> #[trigger] final(self).cached(g) == old(self).cached(
                    g,
                ),
            r is Ok ==> final(self).dynamic() == dynamic::others(old(self).dynamic(), fid),
            r is Ok && fid != EF_META && old(self).cached(fid) == Some(true)
                ==> !final(self).contents().contains_key(fid),
            fid != EF_META ==> metas_kept_but(
                old(self).contents(),
                final(self).contents(),
                |g: u16| g == fid,
            ),
            old(self).reliable() && fid != EF_META ==> meta_of(final(self).contents(), fid) is None,
            forall|g: u16|
                g != fid && g != EF_META ==> #[trigger] final(self).listed().contains(g) == old(
                    self,
                ).listed().contains(g),
            r is Ok && fid != EF_META && old(self).cached(fid) == Some(true)
                ==> !final(self).listed().contains(fid),
    {
        let ghost start = *self;
        let _ = self.meta_delete(fid);
        let ghost mid = *self;
        proof {
            mid.law_no_false_absent(fid);
            if fid != EF_META {
                assert(mid.cached(fid) == start.cached(fid));
                lemma_metas_after_drop(start.contents(), mid.contents(), fid);
                lemma_metas_same(mid.contents(), mid.contents().remove(fid));
            }
        }
        if get_bit(&self.present, fid) {
            match self.drop_file(fid) {
                Ok(()) => {},
                Err(e) => {
                    return Err(e);
                },
            }
        }
        let ghost after = *self;
        proof {
            lemma_filter(self.dynamic(), fid);
        }
        list_drop(&mut self.dynamic, fid);
        assert forall|g: u16| g != fid && g != EF_META implies #[trigger] self.cached(g) == old(
            self,
        ).cached(g) by {
            assert(after.cached(g) == mid.cached(g));
            assert(mid.cached(g) == start.cached(g));
        }
        assert forall|g: u16| g != fid && g != EF_META implies #[trigger] self.listed().contains(g)
            == old(self).listed().contains(g) by {
            assert(after.listed().contains(g) == mid.listed().contains(g));
            assert(mid.listed().contains(g) == start.listed().contains(g));
        }
        Ok(())
    }

    /// Deletes a file whatever the cache says of it: drops its metadata, its
    /// contents and its registration.
    pub fn force_delete(&mut self, fid: u16) -> (r: Result<(), Error>)
        requires
            old(self).wf(),
        ensures
            final(self).wf(),
            final(self).reliable() == old(self).reliable(),
            final(self).laps() == old(self).laps(),
            old(self).reliable() ==> r is Ok,
            r is Ok ==> final(self).contents() == meta_dropped(old(self).contents(), fid).remove(
                fid,
            ),
            r is Err ==> final(self).contents() == old(self).contents() || final(self).contents()
                == meta_dropped(old(self).contents(), fid),
            r is Ok ==> final(self).dynamic() == dynamic::others(old(self).dynamic(), fid),
            r is Err ==> final(self).dynamic() == old(self).dynamic(),
            forall|g: u16|
                g != fid && g != EF_META ==> #[trigger] final(self).cached(g) == old(self).cached(
                    g,
                ),
            fid != EF_META ==> metas_kept_but(
                old(self).contents(),
                final(self).contents(),
                |g: u16| g == fid,
            ),
            r is Ok && fid != EF_META ==> meta_of(final(self).contents(), fid) is None,
            forall|g: u16|
                g != fid && g != EF_META ==> #[trigger] final(self).listed().contains(g) == old(
                    self,
                ).listed().contains(g),
            r is Ok ==> !final(self).listed().contains(fid),
    {
        match self.meta_delete(fid) {
            Ok(()) => {},
            Err(e) => {
                return Err(e);
            },
        }
        proof {
            if fid != EF_META {
                lemma_metas_after_drop(old(self).contents(), self.contents(), fid);
                lemma_metas_same(self.contents(), self.contents().remove(fid));
            }
        }
        let ghost bare = *self;
        match self.drop_file(fid) {
            Ok(()) => {},
            Err(e) => {
                return Err(e);
            },
        }
        let ghost mid = *self;
        list_drop(&mut self.dynamic, fid);
        proof {
            lemma_filter(mid.dynamic(), fid);
            assert forall|f: u16| #[trigger] bit_of(self.present@, f) implies bit_of(
                self.decided@,
                f,
            ) by {
                assert(bit_of(mid.present@, f));
            }
            assert forall|g: u16| g != fid && g != EF_META implies #[trigger] self.cached(g)
                == old(self).cached(g) by {
                assert(mid.cached(g) == bare.cached(g));
                assert(bare.cached(g) == old(self).cached(g));
            }
            assert(self.listed() == bare.listed().remove(fid));
            assert forall|g: u16| g != fid && g != EF_META implies #[trigger] self.listed().contains(
                g,
            ) == old(self).listed().contains(g) by {
                assert(bare.listed().contains(g) == old(self).listed().contains(g));
            }
        }
        Ok(())
    }

    /// The contents of a file, at most their first `cap` bytes.
    pub fn read_upto(&mut self, fid: u16, cap: usize) -> (r: Option<Vec<u8>>)
        requires
            old(self).wf(),
        ensures
            final(self).wf(),
            final(self).only_cached(old(self), fid),
            final(self).reread(old(self)),
            r is Some <==> old(self).contents().contains_key(fid),
            r matches Some(v) ==> v@ == clipped(old(self).contents()[fid], cap as nat),
    {
        let mut buf: Vec<u8> = vec![0u8; cap];
        match self.read(fid, buf.as_mut_slice()) {
            None => None,
            Some(n) => {
                let m: usize = if n < cap {
                    n
                } else {
                    cap
                };
                buf.truncate(m);
                assert(buf@ =~= clipped(old(self).contents()[fid], cap as nat));
                Some(buf)
            },
        }
    }

    // ---- typed key-slot API ----
    /// Stores sealed key material at `fid`.
    pub fn put_key(&mut self, fid: KeyFid, sealed: Sealed) -> (r: Result<(), Error>)
        requires
            old(self).wf(),
        ensures
            final(self).wf(),
            final(self).reliable() == old(self).reliable(),
            final(self).laps() == old(self).laps(),
            ({
                let f = fid.fid();
                let known = old(self).dynamic().contains(f);
                let over = !known && old(self).dynamic().len() >= 1280;
                &&& over ==> r == Err::<(), Error>(Error::NoMemory)
                &&& !over && old(self).reliable() ==> r is Ok
                &&& r is Ok ==> {
                    &&& final(self).contents() == old(self).contents().insert(f, sealed@)
                    &&& final(self).listed() == old(self).listed().insert(f)
                    &&& final(self).cached(f) == Some(true)
                    &&& final(self).dynamic() == (if known {
                        old(self).dynamic()
                    } else {
                        old(self).dynamic().push(f)
                    })
                }
                &&& r is Err ==> {
                    &&& final(self).contents() == old(self).contents()
                    &&& final(self).listed() == old(self).listed()
                    &&& final(self).cached(f) == old(self).cached(f)
                    &&& final(self).dynamic() == old(self).dynamic()
                }
            }),
            forall|g: u16|
                g != fid.fid() ==> #[trigger] final(self).cached(g) == old(self).cached(g),
    {
        self.put(fid.get(), sealed.as_bytes())
    }

    /// Copies a sealed key blob into `buf`; returns its full length, or `None`
    /// if the slot is absent.
    pub fn read_key(&mut self, fid: KeyFid, buf: &mut [u8]) -> (r: Option<usize>)
        requires
            old(self).wf(),
        ensures
            final(self).wf(),
            final(self).only_cached(old(self), fid.fid()),
            match r {
                None => !old(self).contents().contains_key(fid.fid()) && final(buf)@ == old(buf)@,
                Some(n) => old(self).contents().contains_key(fid.fid()) && n
                    == old(self).contents()[fid.fid()].len() && storage::copied(
                    final(buf)@,
                    old(buf)@,
                    old(self).contents()[fid.fid()],
                ),
            },
    {
        self.read(fid.get(), buf)
    }

    /// Whether the key slot holds non-empty data.
    pub fn has_key(&mut self, fid: KeyFid) -> (r: bool)
        requires
            old(self).wf(),
        ensures
            final(self).wf(),
            final(self).only_cached(old(self), fid.fid()),
            r == (old(self).contents().contains_key(fid.fid())
                && old(self).contents()[fid.fid()].len() > 0),
    {
        self.has_data(fid.get())
    }

    /// Deletes a key slot.
    pub fn delete_key(&mut self, fid: KeyFid) -> (r: Result<(), Error>)
        requires
            old(self).wf(),
        ensures
            final(self).wf(),
            final(self).reliable() == old(self).reliable(),
            final(self).laps() == old(self).laps(),
            old(self).reliable() ==> r is Ok,
            old(self).reliable() ==> ({
                let f = fid.fid();
                let c = meta_dropped(old(self).contents(), f);
                final(self).contents() == (if (f == EF_META && c.contains_key(EF_META)) || (f
                    != EF_META && old(self).cached(f) == Some(true)) {
                    c.remove(f)
                } else {
                    c
                })
            }),
            forall|g: u16|
                g != fid.fid() && g != EF_META ==> #[trigger] final(self).contents().contains_key(g)
                    == old(self).contents().contains_key(g),
            forall|g: u16|
                g != fid.fid() && g != EF_META && old(self).contents().contains_key(g)
                    ==> #[trigger] final(self).contents()[g] == old(self).contents()[g],
            forall|g: u16|
                g != fid.fid() && g != EF_META ==> #[trigger] final(self).cached(g) == old(
                    self,
                ).cached(g),
            r is Ok ==> final(self).dynamic() == dynamic::others(old(self).dynamic(), fid.fid()),
            r is Ok && fid.fid() != EF_META && old(self).cached(fid.fid()) == Some(true)
                ==> !final(self).contents().contains_key(fid.fid()),
            fid.fid() != EF_META ==> metas_kept_but(
                old(self).contents(),
                final(self).contents(),
                |g: u16| g == fid.fid(),
            ),
            old(self).reliable() && fid.fid() != EF_META ==> meta_of(
                final(self).contents(),
                fid.fid(),
            ) is None,
            forall|g: u16|
                g != fid.fid() && g != EF_META ==> #[trigger] final(self).listed().contains(g)
                    == old(self).listed().contains(g),
            r is Ok && fid.fid() != EF_META && old(self).cached(fid.fid()) == Some(true)
                ==> !final(self).listed().contains(fid.fid()),
    {
        self.delete(fid.get())
    }
}

/// Dropping one FID keeps the others distinct and makes the list one shorter
/// where it was there.
pub(crate) proof fn lemma_filter(s: Seq<u16>, fid: u16)
    requires
        s.no_duplicates(),
    ensures
        dynamic::others(s, fid).no_duplicates(),
        dynamic::others(s, fid).len() <= s.len(),
        dynamic::others(s, fid).len() + (if s.contains(fid) {
            1int
        } else {
            0
        }) == s.len(),
        forall|g: u16|
            #[trigger] dynamic::others(s, fid).contains(g) <==> (s.contains(g) && g != fid),
    decreases s.len(),
{
    reveal(Seq::filter);
    if s.len() > 0 {
        let r = s.drop_last();
        assert(r.no_duplicates());
        lemma_filter(r, fid);
        let last = s.last();
        let t = dynamic::others(r, fid);
        assert(s =~= r.push(last));
        assert(!r.contains(last)) by {
            if r.contains(last) {
                let i = choose|i: int| 0 <= i < r.len() && r[i] == last;
                assert(s[i] == s[s.len() - 1]);
            }
        }
        lemma_push_contains(r, last, fid);
        if last != fid {
            assert(dynamic::others(s, fid) == t.push(last));
            assert(!t.contains(last));
            lemma_push_distinct(t, last);
            assert forall|g: u16| #[trigger] dynamic::others(s, fid).contains(g) <==> (s.contains(
                g,
            ) && g != fid) by {
                lemma_push_contains(t, last, g);
                lemma_push_contains(r, last, g);
            }
        } else {
            assert(dynamic::others(s, fid) == t);
            assert forall|g: u16| #[trigger] dynamic::others(s, fid).contains(g) <==> (s.contains(
                g,
            ) && g != fid) by {
                lemma_push_contains(r, last, g);
            }
        }
    } else {
        assert(dynamic::others(s, fid) =~= Seq::empty());
    }
}

proof fn lemma_push_contains(s: Seq<u16>, x: u16, f: u16)
    ensures
        s.push(x).contains(f) <==> (s.contains(f) || f == x),
{
    let t = s.push(x);
    if t.contains(f) {
        let i = choose|i: int| 0 <= i < t.len() && t[i] == f;
        if i < s.len() {
            assert(s[i] == f);
        }
    }
    if s.contains(f) {
        let i = choose|i: int| 0 <= i < s.len() && s[i] == f;
        assert(t[i] == f);
    }
    assert(t[s.len() as int] == x);
}

proof fn lemma_push_distinct(s: Seq<u16>, x: u16)
    requires
        s.no_duplicates(),
        !s.contains(x),
    ensures
        s.push(x).no_duplicates(),
{
    let t = s.push(x);
    assert forall|i: int, j: int| 0 <= i < t.len() && 0 <= j < t.len() && i != j implies t[i]
        != t[j] by {
        if i < s.len() && j < s.len() {
        } else if i < s.len() {
            assert(s[i] != x);
        } else if j < s.len() {
            assert(s[j] != x);
        }
    }
}

/// Writing a file, then reading files: the file has the new contents, every
/// other file has the contents that it had.
pub proof fn law_put_then_read(c: Map<u16, Seq<u8>>, fid: u16, data: Seq<u8>, g: u16)
    ensures
        c.insert(fid, data).contains_key(fid),
        c.insert(fid, data)[fid] == data,
        g != fid ==> c.insert(fid, data).contains_key(g) == c.contains_key(g),
        g != fid && c.contains_key(g) ==> c.insert(fid, data)[g] == c[g],
{
}

/// Writing metadata, then looking it up: the file has the new metadata, every
/// other file has the metadata and the contents that it had.
pub proof fn law_meta_add_then_find(c: Map<u16, Seq<u8>>, fid: u16, data: Seq<u8>, g: u16)
    requires
        meta::rebuilt(meta_blob(c), fid as int, Some(data)).len() <= 1024,
    ensures
        ({
            let after = c.insert(EF_META, meta::rebuilt(meta_blob(c), fid as int, Some(data)));
            &&& meta_of(after, fid) == Some(data)
            &&& g != fid ==> meta_of(after, g) == meta_of(c, g)
            &&& g != EF_META ==> after.contains_key(g) == c.contains_key(g)
            &&& g != EF_META && c.contains_key(g) ==> after[g] == c[g]
        }),
{
    meta::law_add_then_find(meta_blob(c), fid as int, data, fid as int);
    meta::law_add_then_find(meta_blob(c), fid as int, data, g as int);
}

/// Dropping metadata, then looking it up: the file has none, every other file
/// has the metadata and the contents that it had.
pub proof fn law_meta_delete_then_find(c: Map<u16, Seq<u8>>, fid: u16, g: u16)
    ensures
        meta_of(meta_dropped(c, fid), fid) is None,
        g != fid ==> meta_of(meta_dropped(c, fid), g) == meta_of(c, g),
        g != EF_META ==> meta_dropped(c, fid).contains_key(g) == c.contains_key(g),
        g != EF_META && c.contains_key(g) ==> meta_dropped(c, fid)[g] == c[g],
{
    let b = meta_blob(c);
    let kept = meta::rebuilt(b, fid as int, None);
    meta::lemma_rebuilt_shrinks(b, fid as int);
    meta::law_delete_then_find(b, fid as int, fid as int);
    meta::law_delete_then_find(b, fid as int, g as int);
    let after = meta_dropped(c, fid);
    if !c.contains_key(EF_META) {
        assert(meta::records(b) =~= Seq::empty());
    } else if kept.len() != b.len() {
        assert(meta_blob(after) =~= kept);
    }
}

/// Metadata is what the metadata file says.
pub proof fn lemma_metas_same(a: Map<u16, Seq<u8>>, b: Map<u16, Seq<u8>>)
    requires
        b.contains_key(EF_META) == a.contains_key(EF_META),
        b.contains_key(EF_META) ==> b[EF_META] == a[EF_META],
    ensures
        forall|g: u16| #[trigger] meta_of(b, g) == meta_of(a, g),
{
    assert(meta_blob(a) == meta_blob(b));
}

proof fn lemma_metas_after_drop(a: Map<u16, Seq<u8>>, b: Map<u16, Seq<u8>>, fid: u16)
    requires
        b == a || b == meta_dropped(a, fid),
    ensures
        forall|g: u16| g != fid ==> #[trigger] meta_of(b, g) == meta_of(a, g),
        b == meta_dropped(a, fid) ==> meta_of(b, fid) is None,
{
    law_meta_delete_then_find(a, fid, fid);
    assert forall|g: u16| g != fid implies #[trigger] meta_of(b, g) == meta_of(a, g) by {
        law_meta_delete_then_find(a, fid, g);
    }
}

/// Deleting a file whose contents the cache knows of leaves neither contents
/// nor metadata, and no other file loses anything.
pub proof fn law_delete_leaves_nothing(c: Map<u16, Seq<u8>>, fid: u16, g: u16)
    requires
        fid != EF_META,
    ensures
        ({
            let after = meta_dropped(c, fid).remove(fid);
            &&& !after.contains_key(fid)
            &&& meta_of(after, fid) is None
            &&& g != fid ==> meta_of(after, g) == meta_of(c, g)
            &&& g != fid && g != EF_META ==> after.contains_key(g) == c.contains_key(g)
            &&& g != fid && g != EF_META && c.contains_key(g) ==> after[g] == c[g]
        }),
{
    law_meta_delete_then_find(c, fid, g);
    assert(meta_blob(meta_dropped(c, fid).remove(fid)) == meta_blob(meta_dropped(c, fid)));
}

/// What is read of a file with a limit is its front: all of it where it fits, and
/// exactly as much as the limit says where it does not.
pub proof fn law_clipped(s: Seq<u8>, n: nat, i: int)
    ensures
        clipped(s, n).len() == if s.len() <= n {
            s.len()
        } else {
            n
        },
        0 <= i < clipped(s, n).len() ==> clipped(s, n)[i] == s[i],
        s.len() <= n ==> clipped(s, n) == s,
{
}

}
