//! The metadata side-store: a sequence of records
//! `[fid: u16 BE][len: u16 BE][data; len]` in one file.

use vstd::prelude::*;

use crate::sdk::Error;

verus! {

/// Max size of the meta side-store blob.
pub const META_MAX: usize = 1024;

/// Record header: `[fid: u16 BE][len: u16 BE]`.
pub const META_REC_HDR: usize = 4;

/// The number that two bytes stand for, big-endian.
pub open spec fn be16(hi: u8, lo: u8) -> int {
    hi * 256 + lo
}

/// The records that the blob holds, up to the first that is cut short.
pub open spec fn records(blob: Seq<u8>) -> Seq<(int, Seq<u8>)>
    decreases blob.len(),
{
    if blob.len() < 4 {
        Seq::empty()
    } else {
        let len = be16(blob[2], blob[3]);
        if 4 + len > blob.len() {
            Seq::empty()
        } else {
            seq![(be16(blob[0], blob[1]), blob.subrange(4, 4 + len))] + records(
                blob.skip(4 + len),
            )
        }
    }
}

/// The bytes of one record.
pub open spec fn record_bytes(fid: int, data: Seq<u8>) -> Seq<u8> {
    seq![
        (fid / 256) as u8,
        (fid % 256) as u8,
        (data.len() / 256) as u8,
        (data.len() % 256) as u8,
    ] + data
}

/// The bytes of the records, one behind the other.
pub open spec fn to_bytes(recs: Seq<(int, Seq<u8>)>) -> Seq<u8>
    decreases recs.len(),
{
    if recs.len() == 0 {
        Seq::empty()
    } else {
        record_bytes(recs[0].0, recs[0].1) + to_bytes(recs.drop_first())
    }
}

/// The records of other files than `fid`.
pub open spec fn without(recs: Seq<(int, Seq<u8>)>, fid: int) -> Seq<(int, Seq<u8>)>
    decreases recs.len(),
{
    if recs.len() == 0 {
        Seq::empty()
    } else if recs[0].0 == fid {
        without(recs.drop_first(), fid)
    } else {
        seq![recs[0]] + without(recs.drop_first(), fid)
    }
}

/// The data of the first record of `fid`.
pub open spec fn found(recs: Seq<(int, Seq<u8>)>, fid: int) -> Option<Seq<u8>>
    decreases recs.len(),
{
    if recs.len() == 0 {
        None
    } else if recs[0].0 == fid {
        Some(recs[0].1)
    } else {
        found(recs.drop_first(), fid)
    }
}

/// The blob without the records of `fid`, and with a new one at the end if
/// there is one.
pub open spec fn rebuilt(blob: Seq<u8>, fid: int, new: Option<Seq<u8>>) -> Seq<u8> {
    to_bytes(without(records(blob), fid)) + match new {
        Some(data) => record_bytes(fid, data),
        None => Seq::empty(),
    }
}

/// The first record of a blob, and the rest.
proof fn lemma_first_record(blob: Seq<u8>)
    requires
        blob.len() >= 4,
        4 + be16(blob[2], blob[3]) <= blob.len(),
    ensures
        records(blob).len() > 0,
        records(blob)[0] == (
            be16(blob[0], blob[1]),
            blob.subrange(4, 4 + be16(blob[2], blob[3])),
        ),
        records(blob).drop_first() == records(blob.skip(4 + be16(blob[2], blob[3]))),
        record_bytes(records(blob)[0].0, records(blob)[0].1) == blob.take(
            4 + be16(blob[2], blob[3]),
        ),
{
    let len = be16(blob[2], blob[3]);
    let r = records(blob);
    assert(r.drop_first() =~= records(blob.skip(4 + len)));
    let d = blob.subrange(4, 4 + len);
    assert(d.len() == len);
    assert(len / 256 == blob[2] && len % 256 == blob[3]);
    let f = be16(blob[0], blob[1]);
    assert(f / 256 == blob[0] && f % 256 == blob[1]);
    assert(record_bytes(f, d) =~= blob.take(4 + len));
}

/// Copies all records but those of `fid` into `out`, then appends a new record
/// of `fid` if one is given. Returns the number of bytes written.
pub fn rebuild_meta(blob: &[u8], fid: u16, new: Option<&[u8]>, out: &mut [u8]) -> (r: Result<
    usize,
    Error,
>)
    ensures
        final(out)@.len() == old(out)@.len(),
        ({
            let want = rebuilt(
                blob@,
                fid as int,
                match new {
                    Some(d) => Some(d@),
                    None => None,
                },
            );
            match r {
                Ok(w) => w == want.len() && w <= old(out)@.len() && final(out)@.take(w as int) == want,
                Err(e) => e == Error::NoMemory && want.len() > old(out)@.len(),
            }
        }),
{
    let ghost data = match new {
        Some(d) => Some(d@),
        None => None,
    };
    let ghost want = rebuilt(blob@, fid as int, data);
    let ghost tail = match data {
        Some(d) => record_bytes(fid as int, d),
        None => Seq::empty(),
    };
    let n: usize = blob.len();
    let cap: usize = out.len();
    let mut w: usize = 0;
    let mut i: usize = 0;
    let mut more: bool = true;
    proof {
        assert(blob@.skip(0) =~= blob@);
        assert(out@.take(0) =~= Seq::empty());
    }
    while more && n - i >= 4
        invariant
            i <= n,
            n == blob@.len(),
            cap == out@.len(),
            w <= cap,
            cap == old(out)@.len(),
            data == (match new {
                Some(d) => Some(d@),
                None => None,
            }),
            want == rebuilt(blob@, fid as int, data),
            want == out@.take(w as int) + to_bytes(
                without(records(blob@.skip(i as int)), fid as int),
            ) + tail,
            !more ==> records(blob@.skip(i as int)).len() == 0,
        decreases (if more { n - i + 1 } else { 0 }),
    {
        let ghost rest = blob@.skip(i as int);
        let rec_fid: u16 = blob[i] as u16 * 256 + blob[i + 1] as u16;
        let len: usize = blob[i + 2] as usize * 256 + blob[i + 3] as usize;
        assert(rest[0] == blob@[i as int] && rest[1] == blob@[i + 1] && rest[2] == blob@[i + 2]
            && rest[3] == blob@[i + 3]);
        if len > n - i - 4 {
            more = false;
        } else {
            let end: usize = i + 4 + len;
            proof {
                lemma_first_record(rest);
                assert(rest.skip(4 + len) =~= blob@.skip(end as int));
                assert(rest.take(4 + len) =~= blob@.subrange(i as int, end as int));
            }
            if rec_fid != fid {
                let ghost later = to_bytes(without(records(blob@.skip(end as int)), fid as int));
                proof {
                    let recs = records(rest);
                    let kept = without(recs, fid as int);
                    assert(kept[0] == recs[0]);
                    assert(kept.drop_first() =~= without(recs.drop_first(), fid as int));
                    assert(to_bytes(kept) == rest.take(4 + len) + later);
                }
                if end - i > cap - w {
                    assert(want.len() >= w + (end - i));
                    return Err(Error::NoMemory);
                }
                let ghost before = out@;
                let base: usize = w;
                let mut j: usize = i;
                while j < end
                    invariant
                        i <= j <= end,
                        end <= n,
                        n == blob@.len(),
                        cap == out@.len(),
                        cap == before.len(),
                        base + (end - i) <= cap,
                        w == base + (j - i),
                        out@.take(w as int) == before.take(base as int) + blob@.subrange(
                            i as int,
                            j as int,
                        ),
                    decreases end - j,
                {
                    let ghost prev = out@;
                    out[w] = blob[j];
                    proof {
                        assert(out@.take(w + 1) =~= prev.take(w as int).push(blob@[j as int]));
                        assert(blob@.subrange(i as int, j + 1) =~= blob@.subrange(
                            i as int,
                            j as int,
                        ).push(blob@[j as int]));
                        assert(out@.take(w + 1) =~= before.take(base as int) + blob@.subrange(
                            i as int,
                            j + 1,
                        ));
                    }
                    w = w + 1;
                    j = j + 1;
                }
                proof {
                    assert(want =~= out@.take(w as int) + later + tail);
                }
            }
            i = end;
        }
    }
    proof {
        assert(to_bytes(Seq::<(int, Seq<u8>)>::empty()) =~= Seq::empty());
        assert(want =~= out@.take(w as int) + tail);
    }
    if let Some(d) = new {
        if cap - w < 4 || d.len() > cap - w - 4 {
            return Err(Error::NoMemory);
        }
        let ghost before = out@;
        let base: usize = w;
        let dl: usize = d.len();
        out[w] = (fid / 256) as u8;
        out[w + 1] = (fid % 256) as u8;
        out[w + 2] = (dl / 256) as u8;
        out[w + 3] = (dl % 256) as u8;
        w = w + 4;
        let mut j: usize = 0;
        proof {
            assert(out@.take(w as int) =~= before.take(base as int) + tail.take(4));
        }
        while j < dl
            invariant
                j <= dl,
                dl == d@.len(),
                cap == out@.len(),
                cap == before.len(),
                base + 4 + dl <= cap,
                w == base + 4 + j,
                tail == record_bytes(fid as int, d@),
                out@.take(w as int) == before.take(base as int) + tail.take(4 + j),
            decreases dl - j,
        {
            let ghost prev = out@;
            out[w] = d[j];
            proof {
                assert(out@.take(w + 1) =~= prev.take(w as int).push(d@[j as int]));
                assert(tail.take(4 + j + 1) =~= tail.take(4 + j).push(d@[j as int]));
                assert(out@.take(w + 1) =~= before.take(base as int) + tail.take(4 + j + 1));
            }
            w = w + 1;
            j = j + 1;
        }
        proof {
            assert(tail.take(4 + dl) =~= tail);
        }
    } else {
        proof {
            assert(want =~= out@.take(w as int));
        }
    }
    Ok(w)
}

/// Finds the data of `fid` in the blob: the range of its bytes.
pub fn find_meta(blob: &[u8], fid: u16) -> (r: Option<(usize, usize)>)
    ensures
        match r {
            Some((start, end)) => start <= end <= blob@.len() && found(
                records(blob@),
                fid as int,
            ) == Some(blob@.subrange(start as int, end as int)),
            None => found(records(blob@), fid as int) is None,
        },
{
    let n: usize = blob.len();
    let mut i: usize = 0;
    assert(blob@.skip(0) =~= blob@);
    while n - i >= 4
        invariant
            i <= n,
            n == blob@.len(),
            found(records(blob@), fid as int) == found(
                records(blob@.skip(i as int)),
                fid as int,
            ),
        decreases n - i,
    {
        let ghost rest = blob@.skip(i as int);
        let rec_fid: u16 = blob[i] as u16 * 256 + blob[i + 1] as u16;
        let len: usize = blob[i + 2] as usize * 256 + blob[i + 3] as usize;
        assert(rest[0] == blob@[i as int] && rest[1] == blob@[i + 1] && rest[2] == blob@[i + 2]
            && rest[3] == blob@[i + 3]);
        if len > n - i - 4 {
            return None;
        }
        let start: usize = i + 4;
        let end: usize = start + len;
        proof {
            lemma_first_record(rest);
            assert(rest.skip(4 + len) =~= blob@.skip(end as int));
            assert(rest.subrange(4, 4 + len) =~= blob@.subrange(start as int, end as int));
        }
        if rec_fid == fid {
            return Some((start, end));
        }
        i = end;
    }
    None
}

/// Records whose numbers fit their fields.
pub open spec fn fit(recs: Seq<(int, Seq<u8>)>) -> bool {
    forall|i: int|
        0 <= i < recs.len() ==> 0 <= (#[trigger] recs[i]).0 < 65536 && recs[i].1.len() < 65536
}

proof fn lemma_records_fit(blob: Seq<u8>, fid: int)
    ensures
        fit(records(blob)),
        fit(without(records(blob), fid)),
    decreases blob.len(),
{
    if blob.len() >= 4 {
        let len = be16(blob[2], blob[3]);
        if 4 + len <= blob.len() {
            lemma_first_record(blob);
            let rest = blob.skip(4 + len);
            lemma_records_fit(rest, fid);
            let r = records(blob);
            let w = without(r, fid);
            let rr = records(rest);
            let ww = without(rr, fid);
            assert(r.drop_first() == rr);
            assert forall|i: int| 0 <= i < r.len() implies 0 <= (#[trigger] r[i]).0 < 65536
                && r[i].1.len() < 65536 by {
                if i > 0 {
                    assert(r[i] == rr[i - 1]);
                }
            }
            assert forall|i: int| 0 <= i < w.len() implies 0 <= (#[trigger] w[i]).0 < 65536
                && w[i].1.len() < 65536 by {
                if r[0].0 == fid {
                    assert(w == ww);
                } else if i > 0 {
                    assert(w[i] == ww[i - 1]);
                } else {
                    assert(w[0] == r[0]);
                }
            }
        }
    }
}

/// Reading back what was written gives the records again.
pub proof fn lemma_records_of_bytes(recs: Seq<(int, Seq<u8>)>)
    requires
        fit(recs),
    ensures
        records(to_bytes(recs)) == recs,
    decreases recs.len(),
{
    if recs.len() > 0 {
        let rest = recs.drop_first();
        assert(fit(rest)) by {
            assert forall|i: int| 0 <= i < rest.len() implies 0 <= (#[trigger] rest[i]).0 < 65536
                && rest[i].1.len() < 65536 by {
                assert(rest[i] == recs[i + 1]);
            }
        }
        lemma_records_of_bytes(rest);
        let b = to_bytes(recs);
        let f = recs[0].0;
        let d = recs[0].1;
        assert(be16(b[0], b[1]) == f);
        assert(be16(b[2], b[3]) == d.len());
        lemma_first_record(b);
        assert(b.subrange(4, (4 + d.len()) as int) =~= d);
        assert(b.skip((4 + d.len()) as int) =~= to_bytes(rest));
        assert(records(b) =~= seq![(f, d)] + rest);
        assert(recs =~= seq![(f, d)] + rest);
    } else {
        assert(records(to_bytes(recs)) =~= recs);
    }
}

proof fn lemma_bytes_append(recs: Seq<(int, Seq<u8>)>, fid: int, data: Seq<u8>)
    ensures
        to_bytes(recs.push((fid, data))) == to_bytes(recs) + record_bytes(fid, data),
    decreases recs.len(),
{
    if recs.len() == 0 {
        let one = recs.push((fid, data));
        assert(one.drop_first() =~= Seq::empty());
        assert(to_bytes(one.drop_first()) =~= Seq::empty());
        assert(to_bytes(recs) =~= Seq::empty());
        assert(to_bytes(one) =~= record_bytes(fid, data));
    } else {
        let rest = recs.drop_first();
        lemma_bytes_append(rest, fid, data);
        let more = recs.push((fid, data));
        assert(more.drop_first() =~= rest.push((fid, data)));
        assert(to_bytes(more) =~= to_bytes(recs) + record_bytes(fid, data));
    }
}

proof fn lemma_found_without(recs: Seq<(int, Seq<u8>)>, fid: int, g: int)
    ensures
        found(without(recs, fid), g) == (if g == fid {
            None
        } else {
            found(recs, g)
        }),
    decreases recs.len(),
{
    if recs.len() > 0 {
        lemma_found_without(recs.drop_first(), fid, g);
        let w = without(recs, fid);
        if recs[0].0 != fid {
            assert(w[0] == recs[0]);
            assert(w.drop_first() =~= without(recs.drop_first(), fid));
        }
    }
}

proof fn lemma_found_push(recs: Seq<(int, Seq<u8>)>, fid: int, data: Seq<u8>, g: int)
    ensures
        found(recs.push((fid, data)), g) == (match found(recs, g) {
            Some(d) => Some(d),
            None => if g == fid {
                Some(data)
            } else {
                None
            },
        }),
    decreases recs.len(),
{
    let more = recs.push((fid, data));
    if recs.len() > 0 {
        lemma_found_push(recs.drop_first(), fid, data, g);
        assert(more.drop_first() =~= recs.drop_first().push((fid, data)));
        assert(more[0] == recs[0]);
    } else {
        assert(more.drop_first() =~= Seq::empty());
        assert(more[0] == (fid, data));
        assert(found(more.drop_first(), g) is None);
    }
}

/// Writing a record, then looking records up: the new data is found under
/// `fid`, and every other file has the data that it had.
pub proof fn law_add_then_find(blob: Seq<u8>, fid: int, data: Seq<u8>, g: int)
    requires
        0 <= fid < 65536,
        data.len() < 65536,
    ensures
        found(records(rebuilt(blob, fid, Some(data))), g) == (if g == fid {
            Some(data)
        } else {
            found(records(blob), g)
        }),
{
    let recs = without(records(blob), fid);
    lemma_records_fit(blob, fid);
    let more = recs.push((fid, data));
    lemma_bytes_append(recs, fid, data);
    assert(fit(more));
    lemma_records_of_bytes(more);
    lemma_found_push(recs, fid, data, g);
    lemma_found_without(records(blob), fid, g);
}

/// Removing the records of `fid`, then looking records up: nothing is found
/// under `fid`, and every other file has the data that it had.
pub proof fn law_delete_then_find(blob: Seq<u8>, fid: int, g: int)
    ensures
        found(records(rebuilt(blob, fid, None)), g) == (if g == fid {
            None
        } else {
            found(records(blob), g)
        }),
{
    let recs = without(records(blob), fid);
    lemma_records_fit(blob, fid);
    lemma_records_of_bytes(recs);
    assert(rebuilt(blob, fid, None) =~= to_bytes(recs));
    lemma_found_without(records(blob), fid, g);
}

/// Dropping records does not make the blob longer, and a blob that keeps its
/// length is unchanged.
pub proof fn lemma_rebuilt_shrinks(blob: Seq<u8>, fid: int)
    ensures
        rebuilt(blob, fid, None).len() <= blob.len(),
        rebuilt(blob, fid, None).len() == blob.len() ==> rebuilt(blob, fid, None) == blob,
    decreases blob.len(),
{
    assert(rebuilt(blob, fid, None) =~= to_bytes(without(records(blob), fid)));
    if blob.len() >= 4 {
        let len = be16(blob[2], blob[3]);
        if 4 + len <= blob.len() {
            lemma_first_record(blob);
            let rest = blob.skip(4 + len);
            lemma_rebuilt_shrinks(rest, fid);
            assert(rebuilt(rest, fid, None) =~= to_bytes(without(records(rest), fid)));
            let r = records(blob);
            let w = without(r, fid);
            if r[0].0 != fid {
                assert(w[0] == r[0]);
                assert(w.drop_first() =~= without(r.drop_first(), fid));
                assert(blob =~= blob.take(4 + len) + rest);
            }
        } else {
            assert(rebuilt(blob, fid, None) =~= Seq::empty());
        }
    } else {
        assert(rebuilt(blob, fid, None) =~= Seq::empty());
        if blob.len() == 0 {
            assert(blob =~= Seq::empty());
        }
    }
}

}
