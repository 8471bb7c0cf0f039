//! The backend contract and a backend in memory.

use vstd::prelude::*;

use crate::sdk::Error;

verus! {

/// `after` is `before` with as much of `src` as fits copied to its front.
pub open spec fn copied(after: Seq<u8>, before: Seq<u8>, src: Seq<u8>) -> bool {
    &&& after.len() == before.len()
    &&& forall|i: int|
        0 <= i < after.len() ==> #[trigger] after[i] == (if i < src.len() {
            src[i]
        } else {
            before[i]
        })
}

/// A key/value store with 16-bit keys.
pub trait Storage {
    /// The store is well formed.
    spec fn inv(&self) -> bool;

    /// The values that the store holds.
    spec fn contents(&self) -> Map<u16, Seq<u8>>;

    /// The keys that one bulk pass over the store yields. After a torn
    /// power-cut migration a live key can be missing from them; reading that
    /// key still finds it.
    spec fn listed(&self) -> Set<u16>;

    /// No write, removal or compaction fails.
    spec fn reliable(&self) -> bool;

    /// The number of compactions that completed.
    spec fn laps(&self) -> nat;

    /// No superseded record is left in the backing store: a raw dump shows what
    /// the store holds and nothing else.
    spec fn clean(&self) -> bool;

    /// Copies as much of the value of `fid` as fits into `buf` and returns the
    /// full length of the value.
    fn read(&mut self, fid: u16, buf: &mut [u8]) -> (r: Option<usize>)
        requires
            old(self).inv(),
        ensures
            final(self).inv(),
            final(self).contents() == old(self).contents(),
            final(self).listed() == old(self).listed(),
            final(self).reliable() == old(self).reliable(),
            final(self).laps() == old(self).laps(),
            final(self).clean() == old(self).clean(),
            match r {
                None => !old(self).contents().contains_key(fid) && final(buf)@ == old(buf)@,
                Some(n) => old(self).contents().contains_key(fid) && n
                    == old(self).contents()[fid].len() && copied(
                    final(buf)@,
                    old(buf)@,
                    old(self).contents()[fid],
                ),
            },
    ;

    /// The length of the value of `fid`.
    fn size(&mut self, fid: u16) -> (r: Option<usize>)
        requires
            old(self).inv(),
        ensures
            final(self).inv(),
            final(self).contents() == old(self).contents(),
            final(self).listed() == old(self).listed(),
            final(self).reliable() == old(self).reliable(),
            final(self).laps() == old(self).laps(),
            final(self).clean() == old(self).clean(),
            match r {
                None => !old(self).contents().contains_key(fid),
                Some(n) => old(self).contents().contains_key(fid) && n
                    == old(self).contents()[fid].len(),
            },
    ;

    /// Stores `data` under `fid`. A write that fails changes nothing.
    fn write(&mut self, fid: u16, data: &[u8]) -> (r: Result<(), Error>)
        requires
            old(self).inv(),
        ensures
            final(self).inv(),
            final(self).reliable() == old(self).reliable(),
            final(self).laps() == old(self).laps(),
            old(self).reliable() ==> r is Ok,
            r is Ok ==> final(self).contents() == old(self).contents().insert(fid, data@)
                && final(self).listed() == old(self).listed().insert(fid),
            r is Err ==> final(self).contents() == old(self).contents() && final(self).listed()
                == old(self).listed(),
    ;

    /// Removes `fid`. A removal that fails changes nothing.
    fn remove(&mut self, fid: u16) -> (r: Result<(), Error>)
        requires
            old(self).inv(),
        ensures
            final(self).inv(),
            final(self).reliable() == old(self).reliable(),
            final(self).laps() == old(self).laps(),
            old(self).reliable() ==> r is Ok,
            r is Ok ==> final(self).contents() == old(self).contents().remove(fid)
                && final(self).listed() == old(self).listed().remove(fid),
            r is Err ==> final(self).contents() == old(self).contents() && final(self).listed()
                == old(self).listed(),
    ;

    /// The live keys in one bulk pass, each once.
    fn for_each_key(&mut self) -> (r: Vec<u16>)
        requires
            old(self).inv(),
        ensures
            final(self).inv(),
            final(self).contents() == old(self).contents(),
            final(self).listed() == old(self).listed(),
            final(self).reliable() == old(self).reliable(),
            final(self).laps() == old(self).laps(),
            final(self).clean() == old(self).clean(),
            r@.no_duplicates(),
            forall|k: u16| #[trigger] r@.contains(k) <==> old(self).listed().contains(k),
            forall|k: u16|
                #[trigger] old(self).listed().contains(k) ==> old(self).contents().contains_key(k),
    ;

    /// Physically scrubs superseded records from the backing store.
    fn compact(&mut self) -> (r: Result<(), Error>)
        requires
            old(self).inv(),
        ensures
            final(self).inv(),
            final(self).contents() == old(self).contents(),
            final(self).listed() == old(self).listed(),
            final(self).reliable() == old(self).reliable(),
            old(self).reliable() ==> r is Ok,
            r is Ok ==> final(self).laps() == old(self).laps() + 1 && final(self).clean(),
            r is Err ==> final(self).laps() == old(self).laps(),
    ;
}

/// A backend in memory. It overwrites in place, so a compaction finds nothing to
/// scrub and is only counted.
pub struct RamStorage {
    items: Vec<(u16, Vec<u8>)>,
    laps: Ghost<nat>,
}

/// Each key occurs once.
spec fn distinct(items: Seq<(u16, Vec<u8>)>) -> bool {
    forall|i: int, j: int|
        0 <= i < items.len() && 0 <= j < items.len() && #[trigger] items[i].0
            == #[trigger] items[j].0 ==> i == j
}

spec fn holds(items: Seq<(u16, Vec<u8>)>, k: u16) -> bool {
    exists|i: int| 0 <= i < items.len() && #[trigger] items[i].0 == k
}

spec fn place(items: Seq<(u16, Vec<u8>)>, k: u16) -> int {
    choose|i: int| 0 <= i < items.len() && #[trigger] items[i].0 == k
}

spec fn as_map(items: Seq<(u16, Vec<u8>)>) -> Map<u16, Seq<u8>> {
    Map::new(|k: u16| holds(items, k), |k: u16| items[place(items, k)].1@)
}

proof fn lemma_place(items: Seq<(u16, Vec<u8>)>, i: int)
    requires
        distinct(items),
        0 <= i < items.len(),
    ensures
        holds(items, items[i].0),
        place(items, items[i].0) == i,
        as_map(items).contains_key(items[i].0),
        as_map(items)[items[i].0] == items[i].1@,
{
    let p = place(items, items[i].0);
    assert(0 <= p < items.len() && items[p].0 == items[i].0);
}

impl RamStorage {
    /// An empty store.
    pub fn new() -> (s: Self)
        ensures
            s.inv(),
            s.contents() == Map::<u16, Seq<u8>>::empty(),
            s.listed() == Set::<u16>::empty(),
            s.reliable(),
            s.laps() == 0,
            s.clean(),
    {
        let s = RamStorage { items: Vec::new(), laps: Ghost(0) };
        assert(s.contents() =~= Map::<u16, Seq<u8>>::empty());
        assert(s.listed() =~= Set::<u16>::empty());
        s
    }

    fn find(&self, fid: u16) -> (r: Option<usize>)
        ensures
            match r {
                Some(i) => i < self.items@.len() && self.items@[i as int].0 == fid,
                None => !holds(self.items@, fid),
            },
    {
        let mut i: usize = 0;
        while i < self.items.len()
            invariant
                i <= self.items@.len(),
                forall|x: int| 0 <= x < i ==> (#[trigger] self.items@[x]).0 != fid,
            decreases self.items@.len() - i,
        {
            if self.items[i].0 == fid {
                return Some(i);
            }
            i = i + 1;
        }
        None
    }
}

impl Storage for RamStorage {
    closed spec fn inv(&self) -> bool {
        distinct(self.items@)
    }

    closed spec fn contents(&self) -> Map<u16, Seq<u8>> {
        as_map(self.items@)
    }

    closed spec fn listed(&self) -> Set<u16> {
        as_map(self.items@).dom()
    }

    open spec fn reliable(&self) -> bool {
        true
    }

    closed spec fn laps(&self) -> nat {
        self.laps@
    }

    open spec fn clean(&self) -> bool {
        true
    }

    fn read(&mut self, fid: u16, buf: &mut [u8]) -> (r: Option<usize>) {
        match self.find(fid) {
            None => None,
            Some(i) => {
                proof {
                    lemma_place(self.items@, i as int);
                }
                let ghost before = buf@;
                let v = &self.items[i].1;
                let n: usize = v.len();
                let mut j: usize = 0;
                while j < n && j < buf.len()
                    invariant
                        j <= n,
                        n == v@.len(),
                        j <= buf@.len(),
                        buf@.len() == before.len(),
                        forall|x: int| 0 <= x < j ==> #[trigger] buf@[x] == v@[x],
                        forall|x: int| j <= x < before.len() ==> #[trigger] buf@[x] == before[x],
                    decreases n - j,
                {
                    buf[j] = v[j];
                    j = j + 1;
                }
                Some(n)
            },
        }
    }

    fn size(&mut self, fid: u16) -> (r: Option<usize>) {
        match self.find(fid) {
            None => None,
            Some(i) => {
                proof {
                    lemma_place(self.items@, i as int);
                }
                Some(self.items[i].1.len())
            },
        }
    }

    fn write(&mut self, fid: u16, data: &[u8]) -> (r: Result<(), Error>) {
        let ghost items = self.items@;
        let value = vstd::slice::slice_to_vec(data);
        let ghost entry = (fid, value);
        let ghost after;
        let ghost at: int;
        match self.find(fid) {
            Some(i) => {
                proof {
                    at = i as int;
                    after = items.update(i as int, entry);
                    assert(distinct(after)) by {
                        assert forall|x: int, y: int|
                            0 <= x < after.len() && 0 <= y < after.len() && #[trigger] after[x].0
                                == #[trigger] after[y].0 implies x == y by {
                            assert(after[x].0 == items[x].0 && after[y].0 == items[y].0);
                        }
                    }
                }
                self.items.set(i, (fid, value));
            },
            None => {
                proof {
                    at = items.len() as int;
                    after = items.push(entry);
                    assert(distinct(after)) by {
                        assert forall|x: int, y: int|
                            0 <= x < after.len() && 0 <= y < after.len() && #[trigger] after[x].0
                                == #[trigger] after[y].0 implies x == y by {
                            if x < items.len() {
                                assert(items[x].0 != fid);
                            }
                            if y < items.len() {
                                assert(items[y].0 != fid);
                            }
                        }
                    }
                }
                self.items.push((fid, value));
            },
        }
        proof {
            assert(self.items@ == after);
            lemma_same_but(items, after, fid);
            lemma_place(after, at);
            assert forall|k: u16| #[trigger] as_map(after).contains_key(k) == as_map(items).insert(
                fid,
                data@,
            ).contains_key(k) by {
                if k != fid {
                    assert(holds(after, k) == holds(items, k));
                }
            }
            assert forall|k: u16| as_map(after).contains_key(k) implies #[trigger] as_map(after)[k]
                == as_map(items).insert(fid, data@)[k] by {
                if k != fid {
                    assert(holds(after, k) == holds(items, k));
                }
            }
            assert(as_map(after) =~= as_map(items).insert(fid, data@));
            assert(self.listed() =~= old(self).listed().insert(fid));
        }
        Ok(())
    }

    fn remove(&mut self, fid: u16) -> (r: Result<(), Error>) {
        let ghost items = self.items@;
        match self.find(fid) {
            Some(i) => {
                proof {
                    let after = items.remove(i as int);
                    assert(distinct(after)) by {
                        assert forall|x: int, y: int|
                            0 <= x < after.len() && 0 <= y < after.len() && #[trigger] after[x].0
                                == #[trigger] after[y].0 implies x == y by {
                            let xx = if x < i { x } else { x + 1 };
                            let yy = if y < i { y } else { y + 1 };
                            assert(after[x] == items[xx] && after[y] == items[yy]);
                            assert(items[xx].0 == items[yy].0);
                        }
                    }
                }
                self.items.remove(i);
                proof {
                    let after = self.items@;
                    assert(!holds(after, fid)) by {
                        assert forall|x: int| 0 <= x < after.len() implies (#[trigger] after[x]).0
                            != fid by {
                            let xx = if x < i { x } else { x + 1 };
                            assert(after[x] == items[xx]);
                            if items[xx].0 == fid {
                                assert(items[xx].0 == items[i as int].0);
                            }
                        }
                    }
                    assert forall|k: u16| k != fid implies #[trigger] holds(after, k) == holds(items, k)
                        && (holds(items, k) ==> as_map(after)[k] == as_map(items)[k]) by {
                        if holds(items, k) {
                            let p = place(items, k);
                            assert(0 <= p < items.len() && items[p].0 == k);
                            let q = if p < i { p } else { p - 1 };
                            assert(p != i);
                            assert(after[q] == items[p]);
                            lemma_place(after, q);
                            lemma_place(items, p);
                        }
                        if holds(after, k) {
                            let p = place(after, k);
                            assert(0 <= p < after.len() && after[p].0 == k);
                            let q = if p < i { p } else { p + 1 };
                            assert(items[q] == after[p]);
                        }
                    }
                    assert(as_map(after) =~= as_map(items).remove(fid));
                    assert(self.listed() =~= old(self).listed().remove(fid));
                }
            },
            None => {
                assert(as_map(items) =~= as_map(items).remove(fid));
                assert(self.listed() =~= old(self).listed().remove(fid));
            },
        }
        Ok(())
    }

    fn for_each_key(&mut self) -> (r: Vec<u16>) {
        let mut r: Vec<u16> = Vec::new();
        let mut i: usize = 0;
        while i < self.items.len()
            invariant
                i <= self.items@.len(),
                r@.len() == i,
                forall|x: int| 0 <= x < i ==> #[trigger] r@[x] == self.items@[x].0,
            decreases self.items@.len() - i,
        {
            r.push(self.items[i].0);
            i = i + 1;
        }
        proof {
            let items = self.items@;
            assert(r@.no_duplicates()) by {
                assert forall|x: int, y: int|
                    0 <= x < r@.len() && 0 <= y < r@.len() && x != y implies r@[x] != r@[y] by {
                    if items[x].0 == items[y].0 {
                        assert(x == y);
                    }
                }
            }
            assert forall|k: u16| #[trigger] r@.contains(k) <==> self.listed().contains(k) by {
                if r@.contains(k) {
                    let x = choose|x: int| 0 <= x < r@.len() && r@[x] == k;
                    assert(items[x].0 == k);
                }
                if holds(items, k) {
                    let p = place(items, k);
                    assert(0 <= p < items.len() && items[p].0 == k);
                    assert(r@[p] == k);
                }
            }
        }
        r
    }

    fn compact(&mut self) -> (r: Result<(), Error>) {
        proof {
            self.laps@ = self.laps@ + 1;
        }
        Ok(())
    }
}

/// `after` holds `fid` and otherwise what `items` holds.
proof fn lemma_same_but(items: Seq<(u16, Vec<u8>)>, after: Seq<(u16, Vec<u8>)>, fid: u16)
    requires
        distinct(items),
        distinct(after),
        items.len() <= after.len() <= items.len() + 1,
        forall|i: int|
            0 <= i < items.len() && items[i].0 != fid ==> #[trigger] after[i] == items[i],
        forall|i: int|
            0 <= i < after.len() && (#[trigger] after[i]).0 != fid ==> i < items.len() && items[i]
                == after[i],
    ensures
        forall|k: u16|
            k != fid ==> #[trigger] holds(after, k) == holds(items, k) && (holds(items, k) ==> as_map(
                after,
            )[k] == as_map(items)[k]),
{
    assert forall|k: u16| k != fid implies #[trigger] holds(after, k) == holds(items, k) && (holds(
        items,
        k,
    ) ==> as_map(after)[k] == as_map(items)[k]) by {
        if holds(items, k) {
            let p = place(items, k);
            assert(0 <= p < items.len() && items[p].0 == k);
            assert(after[p] == items[p]);
            lemma_place(items, p);
            lemma_place(after, p);
        }
        if holds(after, k) {
            let p = place(after, k);
            assert(0 <= p < after.len() && after[p].0 == k);
            assert(items[p] == after[p]);
        }
    }
}

}
