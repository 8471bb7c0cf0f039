//! The packed attestation chain: the number of certificates, then each
//! certificate behind its 16-bit little-endian length, leaf first.

use vstd::prelude::*;
use vstd::slice::slice_subrange;

use crate::fido::consts::{ATT_CHAIN_MAX, ATT_CHAIN_MAX_CERTS};

verus! {

/// `n` certificates from `pos` on; nothing where one is empty or runs past the
/// end.
pub open spec fn certs_from(rec: Seq<u8>, pos: int, n: nat) -> Option<Seq<(int, int)>>
    decreases n,
{
    if n == 0 {
        Some(Seq::empty())
    } else if pos + 2 > rec.len() {
        None
    } else {
        let len = rec[pos] + 0x100 * rec[pos + 1];
        if len == 0 || pos + 2 + len > rec.len() {
            None
        } else {
            match certs_from(rec, pos + 2 + len, (n - 1) as nat) {
                None => None,
                Some(rest) => Some(seq![(pos + 2, len)] + rest),
            }
        }
    }
}

/// Where the certificates of a packed chain stand: offset and length of each.
/// A chain that is malformed or has more certificates than allowed has none.
pub open spec fn ranges(rec: Seq<u8>) -> Seq<(int, int)> {
    if rec.len() == 0 || rec[0] > ATT_CHAIN_MAX_CERTS {
        Seq::empty()
    } else {
        match certs_from(rec, 1, rec[0] as nat) {
            Some(r) => r,
            None => Seq::empty(),
        }
    }
}

/// The certificates of a packed chain.
pub open spec fn certs(rec: Seq<u8>) -> Seq<Seq<u8>> {
    Seq::new(
        ranges(rec).len(),
        |i: int| rec.subrange(ranges(rec)[i].0, ranges(rec)[i].0 + ranges(rec)[i].1),
    )
}

/// The chain of one certificate.
pub open spec fn single(cert: Seq<u8>) -> Seq<u8> {
    seq![1u8, (cert.len() % 0x100) as u8, (cert.len() / 0x100) as u8] + cert
}

/// The ranges that were found, as positions.
pub open spec fn seen_ranges(v: Seq<(usize, usize)>) -> Seq<(int, int)> {
    Seq::new(v.len(), |i: int| (v[i].0 as int, v[i].1 as int))
}

/// Finds the certificates of a packed chain.
fn find(rec: &[u8], pos: usize, n: u8) -> (r: Option<Vec<(usize, usize)>>)
    requires
        pos <= rec@.len(),
        rec@.len() <= 0x1_0000,
    ensures
        match r {
            Some(v) => certs_from(rec@, pos as int, n as nat) == Some(seen_ranges(v@)) && forall|
                i: int,
            |
                0 <= i < v@.len() ==> (#[trigger] v@[i]).0 + v@[i].1 <= rec@.len(),
            None => certs_from(rec@, pos as int, n as nat) is None,
        },
    decreases n,
{
    if n == 0 {
        let v: Vec<(usize, usize)> = Vec::new();
        assert(seen_ranges(v@) =~= Seq::<(int, int)>::empty());
        return Some(v);
    }
    if pos + 2 > rec.len() {
        return None;
    }
    let len: usize = rec[pos] as usize + 0x100 * rec[pos + 1] as usize;
    if len == 0 || pos + 2 + len > rec.len() {
        return None;
    }
    match find(rec, pos + 2 + len, n - 1) {
        None => None,
        Some(mut rest) => {
            let ghost tail = rest@;
            rest.insert(0, (pos + 2, len));
            assert(seen_ranges(rest@) =~= seq![(pos + 2, len as int)] + seen_ranges(tail));
            assert forall|i: int| 0 <= i < rest@.len() implies (#[trigger] rest@[i]).0
                + rest@[i].1 <= rec@.len() by {
                if i > 0 {
                    assert(rest@[i] == tail[i - 1]);
                }
            }
            Some(rest)
        },
    }
}

/// Where the certificates of a packed chain stand.
pub(crate) fn att_chain_ranges(rec: &[u8]) -> (r: Vec<(usize, usize)>)
    requires
        rec@.len() <= 0x1_0000,
    ensures
        seen_ranges(r@) == ranges(rec@),
        forall|i: int| 0 <= i < r@.len() ==> (#[trigger] r@[i]).0 + r@[i].1 <= rec@.len(),
{
    if rec.len() > 0 && rec[0] as usize <= ATT_CHAIN_MAX_CERTS {
        if let Some(v) = find(rec, 1, rec[0]) {
            return v;
        }
    }
    let v: Vec<(usize, usize)> = Vec::new();
    assert(seen_ranges(v@) =~= Seq::<(int, int)>::empty());
    v
}

/// The chain of one certificate.
pub(crate) fn att_chain_single(cert: &[u8]) -> (r: Vec<u8>)
    requires
        cert@.len() < 0x1_0000,
    ensures
        r@ == single(cert@),
{
    let n: usize = cert.len();
    let mut v: Vec<u8> = Vec::new();
    v.push(1);
    v.push((n % 0x100) as u8);
    v.push((n / 0x100) as u8);
    v.extend_from_slice(cert);
    assert(v@ =~= single(cert@));
    v
}

/// The chain of one certificate has that certificate.
pub proof fn law_single_chain(cert: Seq<u8>)
    requires
        0 < cert.len() < 0x1_0000,
    ensures
        certs(single(cert)) == seq![cert],
{
    let rec = single(cert);
    reveal_with_fuel(certs_from, 2);
    assert(rec[1] + 0x100 * rec[2] == cert.len());
    assert(ranges(rec) =~= seq![(3int, cert.len() as int)]);
    assert(rec.subrange(3, 3int + cert.len()) =~= cert);
    assert(certs(rec) =~= seq![cert]);
}

// ---- packing ----
/// The length of the DER sequence at `pos`, head and contents; nothing unless
/// one with a length of at most two bytes stands there whole.
pub open spec fn der_len(der: Seq<u8>, pos: int) -> Option<int> {
    if pos + 2 > der.len() || der[pos] != 0x30 {
        None
    } else {
        let b = der[pos + 1];
        let total = if b < 0x80 {
            Some(2 + b)
        } else if b == 0x81 && pos + 3 <= der.len() {
            Some(3 + der[pos + 2])
        } else if b == 0x82 && pos + 4 <= der.len() {
            Some(4 + 0x100 * der[pos + 2] + der[pos + 3])
        } else {
            None
        };
        match total {
            Some(t) => if pos + t <= der.len() {
                Some(t)
            } else {
                None
            },
            None => None,
        }
    }
}

/// The certificates that stand one after the other from `pos` on, each behind
/// its length; at most `room` of them.
pub open spec fn packed_from(der: Seq<u8>, pos: int, room: nat) -> Option<(nat, Seq<u8>)>
    decreases room,
{
    if pos == der.len() {
        Some((0, Seq::empty()))
    } else if room == 0 {
        None
    } else {
        match der_len(der, pos) {
            None => None,
            Some(n) => match packed_from(der, pos + n, (room - 1) as nat) {
                None => None,
                Some((k, rest)) => Some(
                    (
                        k + 1,
                        seq![(n % 0x100) as u8, (n / 0x100) as u8] + der.subrange(pos, pos + n)
                            + rest,
                    ),
                ),
            },
        }
    }
}

/// The packed form of a chain of certificates, leaf first; nothing where there
/// is none, too many, too much, or something else than certificates.
pub open spec fn packed(der: Seq<u8>) -> Option<Seq<u8>> {
    if der.len() == 0 || der.len() > ATT_CHAIN_MAX {
        None
    } else {
        match packed_from(der, 0, ATT_CHAIN_MAX_CERTS as nat) {
            None => None,
            Some((k, body)) => Some(seq![k as u8] + body),
        }
    }
}

fn der_length(der: &[u8], pos: usize) -> (r: Option<usize>)
    requires
        pos <= der@.len() <= 2048,
    ensures
        match r {
            Some(n) => der_len(der@, pos as int) == Some(n as int) && 2 <= n && pos + n
                <= der@.len(),
            None => der_len(der@, pos as int) is None,
        },
{
    let total: usize = der.len();
    if pos + 2 > total || der[pos] != 0x30 {
        return None;
    }
    let b: u8 = der[pos + 1];
    let n: usize = if b < 0x80 {
        2 + b as usize
    } else if b == 0x81 && pos + 3 <= total {
        3 + der[pos + 2] as usize
    } else if b == 0x82 && pos + 4 <= total {
        4 + 0x100 * der[pos + 2] as usize + der[pos + 3] as usize
    } else {
        return None;
    };
    if pos + n <= total {
        Some(n)
    } else {
        None
    }
}

fn pack_from(der: &[u8], pos: usize, room: u8) -> (r: Option<(u8, Vec<u8>)>)
    requires
        pos <= der@.len() <= 2048,
    ensures
        match r {
            Some(v) => packed_from(der@, pos as int, room as nat) == Some((v.0 as nat, v.1@))
                && v.0 <= room,
            None => packed_from(der@, pos as int, room as nat) is None,
        },
    decreases room,
{
    if pos == der.len() {
        let v: Vec<u8> = Vec::new();
        assert(v@ =~= Seq::<u8>::empty());
        return Some((0, v));
    }
    if room == 0 {
        return None;
    }
    let n: usize = match der_length(der, pos) {
        Some(n) => n,
        None => {
            return None;
        },
    };
    match pack_from(der, pos + n, room - 1) {
        None => None,
        Some((k, rest)) => {
            let mut v: Vec<u8> = Vec::new();
            v.push((n % 0x100) as u8);
            v.push((n / 0x100) as u8);
            v.extend_from_slice(slice_subrange(der, pos, pos + n));
            v.extend_from_slice(rest.as_slice());
            assert(v@ =~= seq![(n % 0x100) as u8, (n / 0x100) as u8] + der@.subrange(
                pos as int,
                pos + n,
            ) + rest@);
            Some((k + 1, v))
        },
    }
}

/// Packs a chain of certificates, leaf first.
pub(crate) fn att_chain_pack(der: &[u8]) -> (r: Option<Vec<u8>>)
    ensures
        match r {
            Some(v) => packed(der@) == Some(v@),
            None => packed(der@) is None,
        },
{
    if der.len() == 0 || der.len() > ATT_CHAIN_MAX {
        return None;
    }
    match pack_from(der, 0, ATT_CHAIN_MAX_CERTS as u8) {
        None => None,
        Some((k, body)) => {
            let mut v: Vec<u8> = Vec::new();
            v.push(k);
            v.extend_from_slice(body.as_slice());
            assert(v@ =~= seq![k] + body@);
            Some(v)
        },
    }
}

/// A packed body holds as many certificates as were counted.
proof fn lemma_packed_reads(der: Seq<u8>, pos: int, room: nat, front: Seq<u8>)
    requires
        0 <= pos <= der.len() <= 2048,
        packed_from(der, pos, room) is Some,
    ensures
        ({
            let (k, body) = packed_from(der, pos, room)->0;
            &&& k <= room
            &&& certs_from(front + body, front.len() as int, k) is Some
            &&& (certs_from(front + body, front.len() as int, k)->0).len() == k
        }),
    decreases room,
{
    if pos != der.len() {
        let n = der_len(der, pos)->0;
        lemma_packed_reads(
            der,
            pos + n,
            (room - 1) as nat,
            front + seq![(n % 0x100) as u8, (n / 0x100) as u8] + der.subrange(pos, pos + n),
        );
        let (k, body) = packed_from(der, pos, room)->0;
        let (j, rest) = packed_from(der, pos + n, (room - 1) as nat)->0;
        let f = front + seq![(n % 0x100) as u8, (n / 0x100) as u8] + der.subrange(pos, pos + n);
        assert(f + rest =~= front + body);
        let rec = front + body;
        assert(rec[front.len() as int] == (n % 0x100) as u8);
        assert(rec[front.len() as int + 1] == (n / 0x100) as u8);
        assert(rec[front.len() as int] + 0x100 * rec[front.len() as int + 1] == n);
    }
}

/// A chain that was packed has at least one certificate, so an imported chain
/// can be presented.
pub proof fn law_packed_chain_has_certs(der: Seq<u8>)
    requires
        packed(der) is Some,
    ensures
        certs(packed(der)->0).len() >= 1,
        certs(packed(der)->0).len() == (packed(der)->0)[0],
{
    let (k, body) = packed_from(der, 0, ATT_CHAIN_MAX_CERTS as nat)->0;
    lemma_packed_reads(der, 0, ATT_CHAIN_MAX_CERTS as nat, seq![k as u8]);
    assert(k >= 1);
}

/// The parts of `rec` that the ranges give, one after the other.
pub open spec fn joined(rec: Seq<u8>, ranges: Seq<(int, int)>) -> Seq<u8>
    decreases ranges.len(),
{
    if ranges.len() == 0 {
        Seq::empty()
    } else {
        rec.subrange(ranges[0].0, ranges[0].0 + ranges[0].1) + joined(
            rec,
            ranges.subrange(1, ranges.len() as int),
        )
    }
}

/// What is packed from `pos` on is read back as the same bytes, each part a DER
/// sequence.
proof fn lemma_packed_joins(der: Seq<u8>, pos: int, room: nat, front: Seq<u8>)
    requires
        0 <= pos <= der.len() <= 2048,
        packed_from(der, pos, room) is Some,
    ensures
        ({
            let (k, body) = packed_from(der, pos, room)->0;
            let rs = certs_from(front + body, front.len() as int, k)->0;
            &&& certs_from(front + body, front.len() as int, k) is Some
            &&& joined(front + body, rs) == der.skip(pos)
            &&& forall|i: int|
                0 <= i < rs.len() ==> (front + body)[(#[trigger] rs[i]).0] == 0x30 && rs[i].0
                    + rs[i].1 <= (front + body).len() && front.len() <= rs[i].0 && rs[i].1 > 0
        }),
    decreases room,
{
    let (k, body) = packed_from(der, pos, room)->0;
    let rec = front + body;
    if pos != der.len() {
        let n = der_len(der, pos)->0;
        let head = seq![(n % 0x100) as u8, (n / 0x100) as u8];
        let part = der.subrange(pos, pos + n);
        let f = front + head + part;
        let at = front.len() as int;
        lemma_packed_joins(der, pos + n, (room - 1) as nat, f);
        let (j, rest) = packed_from(der, pos + n, (room - 1) as nat)->0;
        assert(f + rest =~= rec);
        assert(rec[at] == (n % 0x100) as u8);
        assert(rec[at + 1] == (n / 0x100) as u8);
        assert(rec[at] + 0x100 * rec[at + 1] == n);
        let later = certs_from(rec, at + 2 + n, j)->0;
        let rs = certs_from(rec, at, k)->0;
        assert(rs == seq![(at + 2, n)] + later);
        assert(rs.subrange(1, rs.len() as int) =~= later);
        assert(rec.subrange(at + 2, at + 2 + n) =~= part);
        assert(part + der.skip(pos + n) =~= der.skip(pos));
        assert(rec[at + 2] == part[0]);
        assert forall|i: int| 0 <= i < rs.len() implies rec[(#[trigger] rs[i]).0] == 0x30 && rs[i].0
            + rs[i].1 <= rec.len() && front.len() <= rs[i].0 && rs[i].1 > 0 by {
            if i > 0 {
                assert(rs[i] == later[i - 1]);
            }
        }
    } else {
        assert(der.skip(pos) =~= Seq::<u8>::empty());
    }
}

/// A chain that was packed gives its certificates back: put one after the other
/// they are the chain that was sent, and each is a DER sequence. A chain has at
/// most seven certificates and 2048 bytes.
pub proof fn law_packed_chain_round_trip(der: Seq<u8>)
    requires
        packed(der) is Some,
    ensures
        joined(packed(der)->0, ranges(packed(der)->0)) == der,
        forall|i: int|
            0 <= i < certs(packed(der)->0).len() ==> (#[trigger] certs(packed(der)->0)[i]).len() > 0
                && certs(packed(der)->0)[i][0] == 0x30,
        certs(packed(der)->0).len() <= 7,
        1 <= der.len() <= 2048,
{
    let (k, body) = packed_from(der, 0, ATT_CHAIN_MAX_CERTS as nat)->0;
    let rec = packed(der)->0;
    lemma_packed_reads(der, 0, ATT_CHAIN_MAX_CERTS as nat, seq![k as u8]);
    lemma_packed_joins(der, 0, ATT_CHAIN_MAX_CERTS as nat, seq![k as u8]);
    assert(der.skip(0) =~= der);
    assert forall|i: int| 0 <= i < certs(rec).len() implies (#[trigger] certs(rec)[i]).len() > 0
        && certs(rec)[i][0] == 0x30 by {
        let r = ranges(rec)[i];
        assert(rec[r.0] == 0x30);
        assert(certs(rec)[i][0] == rec[r.0]);
    }
}

/// The length of a DER sequence: in the second byte where it is below 128, and
/// otherwise in one or two big-endian bytes behind it. Anything but a sequence that
/// stands there whole is refused.
pub proof fn law_der_length(body: Seq<u8>, rest: Seq<u8>, tag: u8)
    requires
        body.len() <= 0xffff,
    ensures
        body.len() < 0x80 ==> der_len(seq![0x30u8, body.len() as u8] + body + rest, 0) == Some(
            2 + body.len() as int,
        ),
        body.len() <= 0xff ==> der_len(
            seq![0x30u8, 0x81u8, body.len() as u8] + body + rest,
            0,
        ) == Some(3 + body.len() as int),
        der_len(
            seq![0x30u8, 0x82u8, (body.len() / 0x100) as u8, (body.len() % 0x100) as u8] + body
                + rest,
            0,
        ) == Some(4 + body.len() as int),
        tag != 0x30 ==> der_len(seq![tag] + body + rest, 0) is None,
{
    let c = seq![0x30u8, 0x82u8, (body.len() / 0x100) as u8, (body.len() % 0x100) as u8] + body
        + rest;
    assert(0x100 * c[2] + c[3] == body.len());
    let d = seq![tag] + body + rest;
    assert(d[0] == tag);
}

}
