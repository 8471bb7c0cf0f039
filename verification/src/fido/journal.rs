//! Tamper-evident audit journal: a flash ring of 20-byte entries, hash-chained
//! from an accumulator (the epoch).
//!
//! The meta file holds version, next sequence number, start of the window and
//! epoch; entry `seq` lives in slot `seq % 128` of the ring. When the ring is
//! full the oldest entry is folded into the epoch, and that is committed before
//! its slot is used again, so a power cut loses at most the newest event.

use vstd::prelude::*;
use vstd::slice::slice_subrange;
use vstd::utf8::*;

use crate::cbor;
use crate::cbor::{put_bytes, put_map, put_u64};
use crate::cborvalue;
use crate::cborvalue::Value;
use crate::crypto;
use crate::crypto::{hkdf_sha256, p256_accepts, p256_public, p256_sign, sha256};
use crate::fido::consts::{AUDIT_RING_SLOTS, EF_AUDIT_META, EF_AUDIT_RING};
use crate::fido::device::Device;
use crate::fido::error::{CtapError, CtapResult};
use crate::fido::reply;
use crate::fido::reply::deliver;
use crate::fido::seed;
use crate::fido::state::FidoState;
use crate::fido::{Ctx, Rng, UserPresence};
use crate::fs::dynamic;
use crate::fs::file_system;
use crate::fs::{Fs, Storage, EF_META};
use crate::sdk;
use crate::sdk::{array32, le32_bytes, le32_read, Error};
use crate::wipe::wipe;

verus! {

// ---- events ----
pub const EV_BOOT: u8 = 0x01;
pub const EV_MAKE_CRED: u8 = 0x02;
pub const EV_GET_ASSERT: u8 = 0x03;
pub const EV_RESET: u8 = 0x04;
pub const EV_PIN_SET: u8 = 0x05;
pub const EV_PIN_CHANGE: u8 = 0x06;
pub const EV_PIN_LOCKOUT: u8 = 0x07;
pub const EV_CFG_MIN_PIN: u8 = 0x08;
pub const EV_CFG_EA: u8 = 0x09;
pub const EV_LOCK_ENGAGE: u8 = 0x0A;
pub const EV_LOCK_RELEASE: u8 = 0x0B;
pub const EV_BACKUP_EXPORT: u8 = 0x0C;
pub const EV_BACKUP_LOAD: u8 = 0x0D;
pub const EV_BACKUP_FINALIZE: u8 = 0x0E;
pub const EV_U2F_REGISTER: u8 = 0x0F;
pub const EV_U2F_AUTH: u8 = 0x10;
pub const EV_CHECKPOINT: u8 = 0x11;
pub const EV_ATT_IMPORT: u8 = 0x12;
pub const EV_ATT_CLEAR: u8 = 0x13;
pub const EV_CFG_ALWAYS_UV: u8 = 0x14;
pub const EV_CONFIG_WRITE: u8 = 0x15;

/// Length of an entry: sequence number (4), uptime (4), event, auxiliary byte,
/// detail (8) and two reserved bytes.
pub const ENTRY_LEN: usize = 20;

/// Length of the meta file.
pub const META_LEN: usize = 41;

/// Version of the meta file.
pub const META_VER: u8 = 1;

/// The persistent ring state.
pub struct Meta {
    pub seq_next: u32,
    pub start: u32,
    pub epoch: [u8; 32],
}

/// A decoded entry for the on-device view.
#[derive(Debug, Clone, Copy, PartialEq, Eq, Structural)]
pub struct EventView {
    /// Boot-relative timestamp in milliseconds.
    pub uptime_ms: u32,
    /// The event code.
    pub event: u8,
}

/// What the meta file says.
#[verifier::ext_equal]
pub struct MetaView {
    pub seq_next: int,
    pub start: int,
    pub epoch: Seq<u8>,
}

impl View for Meta {
    type V = MetaView;

    open spec fn view(&self) -> MetaView {
        MetaView { seq_next: self.seq_next as int, start: self.start as int, epoch: self.epoch@ }
    }
}

// ---- the model ----
/// `a - b` among 32-bit numbers.
pub open spec fn wsub(a: int, b: int) -> int {
    if a >= b {
        a - b
    } else {
        a - b + 0x1_0000_0000
    }
}

/// `a + n` among 32-bit numbers.
pub open spec fn wadd(a: int, n: int) -> int {
    if a + n < 0x1_0000_0000 {
        a + n
    } else {
        a + n - 0x1_0000_0000
    }
}

/// The number of entries in the window.
pub open spec fn live(m: MetaView) -> nat {
    wsub(m.seq_next, m.start) as nat
}

/// The chain anchor of an empty journal, bound to the device.
pub open spec fn genesis_of(dev: Device) -> Seq<u8> {
    crypto::sha256_of(encode_utf8("RSK-AUDIT-GENESIS-v1"@) + dev.serial_hash@)
}

/// One chain step.
pub open spec fn chained(h: Seq<u8>, entry: Seq<u8>) -> Seq<u8> {
    crypto::sha256_of(h + entry)
}

/// What a meta file of 41 bytes says.
pub open spec fn parsed_meta(b: Seq<u8>) -> MetaView {
    MetaView {
        seq_next: sdk::le32_value(b.subrange(1, 5)),
        start: sdk::le32_value(b.subrange(5, 9)),
        epoch: b.subrange(9, 41),
    }
}

/// The bytes of a meta file.
pub open spec fn meta_bytes(m: MetaView) -> Seq<u8> {
    seq![META_VER] + sdk::le32(m.seq_next) + sdk::le32(m.start) + m.epoch
}

/// The ring state: what the meta file says, or that of an empty journal where
/// the file is absent, of another version, or claims more entries than the ring
/// has slots.
pub open spec fn meta_in(dev: Device, c: Map<u16, Seq<u8>>) -> MetaView {
    if c.contains_key(EF_AUDIT_META) && c[EF_AUDIT_META].len() == 41 && c[EF_AUDIT_META][0]
        == META_VER && live(parsed_meta(c[EF_AUDIT_META])) <= 128 {
        parsed_meta(c[EF_AUDIT_META])
    } else {
        MetaView { seq_next: 0, start: 0, epoch: genesis_of(dev) }
    }
}

/// The slot of an entry.
pub open spec fn slot_of(seq: int) -> u16 {
    (0xC110 + seq % 128) as u16
}

/// The entry in the slot of `seq`; nothing unless the slot holds 20 bytes.
pub open spec fn entry_in(c: Map<u16, Seq<u8>>, seq: int) -> Option<Seq<u8>> {
    if c.contains_key(slot_of(seq)) && c[slot_of(seq)].len() == 20 {
        Some(c[slot_of(seq)])
    } else {
        None
    }
}

/// `h` folded through the entry, if there is one.
pub open spec fn step(h: Seq<u8>, e: Option<Seq<u8>>) -> Seq<u8> {
    match e {
        Some(e) => chained(h, e),
        None => h,
    }
}

/// `h` folded through `n` slots from `seq` on.
pub open spec fn folded(c: Map<u16, Seq<u8>>, h: Seq<u8>, seq: int, n: nat) -> Seq<u8>
    decreases n,
{
    if n == 0 {
        h
    } else {
        step(folded(c, h, seq, (n - 1) as nat), entry_in(c, wadd(seq, n - 1)))
    }
}

/// The chain head: the epoch folded through the window.
pub open spec fn head_in(dev: Device, c: Map<u16, Seq<u8>>) -> Seq<u8> {
    let m = meta_in(dev, c);
    folded(c, m.epoch, m.start, live(m))
}

/// The entries of `n` slots from `seq` on, one after the other.
pub open spec fn window(c: Map<u16, Seq<u8>>, seq: int, n: nat) -> Seq<u8>
    decreases n,
{
    if n == 0 {
        Seq::empty()
    } else {
        window(c, seq, (n - 1) as nat) + (match entry_in(c, wadd(seq, n - 1)) {
            Some(e) => e,
            None => Seq::empty(),
        })
    }
}

/// An entry.
pub open spec fn entry_of(seq: int, now_ms: int, ev: u8, aux: u8, detail: Seq<u8>) -> Seq<u8> {
    sdk::le32(seq) + sdk::le32(
        if now_ms < u32::MAX {
            now_ms
        } else {
            u32::MAX as int
        },
    ) + seq![ev, aux] + Seq::new(
        8,
        |i: int|
            if i < detail.len() {
                detail[i]
            } else {
                0u8
            },
    ) + seq![0u8, 0u8]
}

/// A slot of the ring.
pub open spec fn in_ring(fid: u16) -> bool {
    EF_AUDIT_RING <= fid < EF_AUDIT_RING + 128
}

/// A file of the journal.
pub open spec fn is_journal(fid: u16) -> bool {
    fid == EF_AUDIT_META || EF_AUDIT_RING <= fid < EF_AUDIT_RING + 128
}

/// Every file outside the journal is as it was.
pub open spec fn others_kept(a: Map<u16, Seq<u8>>, b: Map<u16, Seq<u8>>) -> bool {
    forall|g: u16|
        !is_journal(g) ==> {
            &&& #[trigger] b.contains_key(g) == a.contains_key(g)
            &&& b.contains_key(g) ==> b[g] == a[g]
        }
}

// ---- facts about the model ----
/// Folding reads the slots of the window only.
proof fn lemma_folded_frame(
    a: Map<u16, Seq<u8>>,
    b: Map<u16, Seq<u8>>,
    h: Seq<u8>,
    seq: int,
    n: nat,
)
    requires
        forall|i: int| 0 <= i < n ==> entry_in(a, #[trigger] wadd(seq, i)) == entry_in(
            b,
            wadd(seq, i),
        ),
    ensures
        folded(a, h, seq, n) == folded(b, h, seq, n),
    decreases n,
{
    if n > 0 {
        lemma_folded_frame(a, b, h, seq, (n - 1) as nat);
        assert(entry_in(a, wadd(seq, n - 1)) == entry_in(b, wadd(seq, n - 1)));
    }
}

/// Folding the first slot first gives the same.
proof fn lemma_folded_first(c: Map<u16, Seq<u8>>, h: Seq<u8>, seq: int, n: nat)
    requires
        0 <= seq < 0x1_0000_0000,
        0 < n <= 128,
    ensures
        folded(c, h, seq, n) == folded(
            c,
            step(h, entry_in(c, seq)),
            wadd(seq, 1),
            (n - 1) as nat,
        ),
    decreases n,
{
    if n == 1 {
        assert(wadd(seq, 0) == seq);
        reveal_with_fuel(folded, 2);
    } else {
        lemma_folded_first(c, h, seq, (n - 1) as nat);
        let m = (n - 2) as nat;
        assert(wadd(wadd(seq, 1), n - 2) == wadd(seq, n - 1));
        assert(folded(c, step(h, entry_in(c, seq)), wadd(seq, 1), (n - 1) as nat) == step(
            folded(c, step(h, entry_in(c, seq)), wadd(seq, 1), m),
            entry_in(c, wadd(wadd(seq, 1), n - 2)),
        ));
    }
}

/// The slot after the window is no slot of a window that leaves one free.
proof fn lemma_slot_free(start: int, n: int, i: int)
    requires
        0 <= start < 0x1_0000_0000,
        0 <= i < n < 128,
    ensures
        slot_of(wadd(start, i)) != slot_of(wadd(start, n)),
{
    let x = wadd(start, i);
    let y = wadd(start, n);
    assert(y - x == n - i || y - x == n - i - 0x1_0000_0000);
    assert(x % 128 != y % 128) by {
        vstd::arithmetic::div_mod::lemma_fundamental_div_mod(x, 128);
        vstd::arithmetic::div_mod::lemma_fundamental_div_mod(y, 128);
    }
}

/// The head and the ring state depend on the files of the journal alone.
pub proof fn lemma_journal_frame(dev: Device, a: Map<u16, Seq<u8>>, b: Map<u16, Seq<u8>>)
    requires
        forall|g: u16|
            is_journal(g) ==> {
                &&& #[trigger] b.contains_key(g) == a.contains_key(g)
                &&& b.contains_key(g) ==> b[g] == a[g]
            },
    ensures
        meta_in(dev, b) == meta_in(dev, a),
        head_in(dev, b) == head_in(dev, a),
{
    assert(b.contains_key(EF_AUDIT_META) == a.contains_key(EF_AUDIT_META));
    let m = meta_in(dev, a);
    assert forall|i: int| 0 <= i < live(m) implies entry_in(b, #[trigger] wadd(m.start, i))
        == entry_in(a, wadd(m.start, i)) by {
        let f = slot_of(wadd(m.start, i));
        assert(is_journal(f));
        assert(b.contains_key(f) == a.contains_key(f));
    }
    lemma_folded_frame(b, a, m.epoch, m.start, live(m));
}


/// Writing the meta file and reading it again gives the state back.
#[verifier::spinoff_prover]
pub proof fn law_meta_round_trip(dev: Device, c: Map<u16, Seq<u8>>, m: MetaView)
    requires
        0 <= m.seq_next <= u32::MAX,
        0 <= m.start <= u32::MAX,
        m.epoch.len() == 32,
        live(m) <= 128,
    ensures
        meta_in(dev, c.insert(EF_AUDIT_META, meta_bytes(m))) == m,
{
    let b = meta_bytes(m);
    assert(parsed_meta(b) == m && b.len() == 41 && b[0] == META_VER) by {
        let s = sdk::le32(m.seq_next);
        let t = sdk::le32(m.start);
        assert(s.len() == 4 && t.len() == 4);
        assert(b.subrange(1, 5) =~= s);
        assert(b.subrange(5, 9) =~= t);
        assert(b.subrange(9, 41) =~= m.epoch);
        sdk::law_le32_round_trip(m.seq_next);
        sdk::law_le32_round_trip(m.start);
    }
    assert(c.insert(EF_AUDIT_META, b)[EF_AUDIT_META] == b);
}

/// The window never holds more entries than the ring has slots, and both
/// sequence numbers are 32-bit numbers.
pub proof fn law_window_bounded(dev: Device, c: Map<u16, Seq<u8>>)
    ensures
        live(meta_in(dev, c)) <= 128,
        0 <= meta_in(dev, c).seq_next <= u32::MAX,
        0 <= meta_in(dev, c).start <= u32::MAX,
{
}

/// Folding the oldest entry into the epoch leaves the head as it was.
pub proof fn law_fold_keeps_head(dev: Device, c: Map<u16, Seq<u8>>)
    requires
        live(meta_in(dev, c)) > 0,
        meta_in(dev, c).epoch.len() == 32,
        step(meta_in(dev, c).epoch, entry_in(c, meta_in(dev, c).start)).len() == 32,
    ensures
        ({
            let m = meta_in(dev, c);
            let f = MetaView {
                seq_next: m.seq_next,
                start: wadd(m.start, 1),
                epoch: step(m.epoch, entry_in(c, m.start)),
            };
            head_in(dev, c.insert(EF_AUDIT_META, meta_bytes(f))) == head_in(dev, c)
        }),
{
    let m = meta_in(dev, c);
    let f = MetaView {
        seq_next: m.seq_next,
        start: wadd(m.start, 1),
        epoch: step(m.epoch, entry_in(c, m.start)),
    };
    let d = c.insert(EF_AUDIT_META, meta_bytes(f));
    assert(live(f) == live(m) - 1);
    law_meta_round_trip(dev, c, f);
    lemma_folded_first(c, m.epoch, m.start, live(m));
    assert forall|i: int| 0 <= i < live(f) implies entry_in(c, #[trigger] wadd(f.start, i))
        == entry_in(d, wadd(f.start, i)) by {}
    lemma_folded_frame(c, d, f.epoch, f.start, live(f));
}

/// Appending an entry to a window with a free slot chains it to the head.
pub proof fn law_append_chains(dev: Device, c: Map<u16, Seq<u8>>, e: Seq<u8>)
    requires
        live(meta_in(dev, c)) < 128,
        meta_in(dev, c).epoch.len() == 32,
        e.len() == 20,
    ensures
        ({
            let m = meta_in(dev, c);
            let with_entry = c.insert(slot_of(m.seq_next), e);
            let f = MetaView { seq_next: wadd(m.seq_next, 1), start: m.start, epoch: m.epoch };
            let d = with_entry.insert(EF_AUDIT_META, meta_bytes(f));
            &&& head_in(dev, with_entry) == head_in(dev, c)
            &&& head_in(dev, d) == chained(head_in(dev, c), e)
            &&& meta_in(dev, d) == f
            &&& entry_in(d, m.seq_next) == Some(e)
        }),
{
    let m = meta_in(dev, c);
    let w = c.insert(slot_of(m.seq_next), e);
    let f = MetaView { seq_next: wadd(m.seq_next, 1), start: m.start, epoch: m.epoch };
    let d = w.insert(EF_AUDIT_META, meta_bytes(f));
    assert(live(f) == live(m) + 1);
    law_meta_round_trip(dev, w, f);
    assert(wadd(m.start, live(m) as int) == m.seq_next);
    assert forall|i: int| 0 <= i < live(m) implies entry_in(c, #[trigger] wadd(m.start, i))
        == entry_in(w, wadd(m.start, i)) by {
        lemma_slot_free(m.start, live(m) as int, i);
    }
    lemma_folded_frame(c, w, m.epoch, m.start, live(m));
    assert(meta_in(dev, w) == m);
    assert forall|i: int| 0 <= i < live(m) implies entry_in(c, #[trigger] wadd(m.start, i))
        == entry_in(d, wadd(m.start, i)) by {
        lemma_slot_free(m.start, live(m) as int, i);
    }
    lemma_folded_frame(c, d, m.epoch, m.start, live(m));
    assert(entry_in(d, m.seq_next) == Some(e));
}

// ---- the ring ----
fn genesis(dev: &Device) -> (r: [u8; 32])
    ensures
        r@ == genesis_of(*dev),
{
    let mut buf: Vec<u8> = Vec::new();
    let tag: &[u8] = "RSK-AUDIT-GENESIS-v1".as_bytes();
    buf.extend_from_slice(tag);
    buf.extend_from_slice(&dev.serial_hash);
    assert(buf@ =~= encode_utf8("RSK-AUDIT-GENESIS-v1"@) + dev.serial_hash@);
    sha256(buf.as_slice())
}

/// One chain step.
pub fn chain(h: &[u8; 32], entry: &[u8; 20]) -> (r: [u8; 32])
    ensures
        r@ == chained(h@, entry@),
{
    let mut buf: Vec<u8> = Vec::new();
    buf.extend_from_slice(h);
    buf.extend_from_slice(entry);
    assert(buf@ =~= h@ + entry@);
    sha256(buf.as_slice())
}

fn wrapping_sub(a: u32, b: u32) -> (r: u32)
    ensures
        r == wsub(a as int, b as int),
{
    if a >= b {
        a - b
    } else {
        (0xffff_ffff - (b - a)) + 1
    }
}

fn successor(a: u32) -> (r: u32)
    ensures
        r == wadd(a as int, 1),
{
    if a == 0xffff_ffff {
        0
    } else {
        a + 1
    }
}

fn predecessor(a: u32) -> (r: u32)
    ensures
        wadd(r as int, 1) == a,
{
    if a == 0 {
        0xffff_ffff
    } else {
        a - 1
    }
}

/// Reads the ring state.
fn load_meta<S: Storage>(dev: &Device, fs: &mut Fs<S>) -> (m: Meta)
    requires
        old(fs).wf(),
    ensures
        final(fs).wf(),
        final(fs).reread(old(fs)),
        m@ == meta_in(*dev, old(fs).contents()),
{
    if let Some(buf) = fs.read_upto(EF_AUDIT_META, 42) {
        if buf.len() == META_LEN && buf[0] == META_VER {
            let b: &[u8] = buf.as_slice();
            let seq_next: u32 = le32_read(slice_subrange(b, 1, 5));
            let start: u32 = le32_read(slice_subrange(b, 5, 9));
            if wrapping_sub(seq_next, start) <= AUDIT_RING_SLOTS {
                let epoch: [u8; 32] = array32(slice_subrange(b, 9, 41));
                let m = Meta { seq_next, start, epoch };
                assert(m@ =~= parsed_meta(b@));
                return m;
            }
        }
    }
    let m = Meta { seq_next: 0, start: 0, epoch: genesis(dev) };
    assert(m@ =~= (MetaView { seq_next: 0, start: 0, epoch: genesis_of(*dev) }));
    m
}

/// Writes the ring state.
fn put_meta<S: Storage>(fs: &mut Fs<S>, m: &Meta) -> (r: Result<(), Error>)
    requires
        old(fs).wf(),
    ensures
        final(fs).wf(),
        final(fs).reliable() == old(fs).reliable(),
        r is Ok ==> final(fs).contents() == old(fs).contents().insert(
            EF_AUDIT_META,
            meta_bytes(m@),
        ),
        r is Err ==> final(fs).contents() == old(fs).contents() && final(fs).dynamic() == old(
            fs,
        ).dynamic(),
        old(fs).reliable() && !seed::no_room(old(fs), EF_AUDIT_META) ==> r is Ok,
        r is Ok ==> final(fs).dynamic() == seed::with_file(old(fs).dynamic(), EF_AUDIT_META),
        forall|g: u16|
            g != EF_AUDIT_META ==> #[trigger] final(fs).cached(g) == old(fs).cached(g),
{
    let mut buf: Vec<u8> = Vec::new();
    buf.push(META_VER);
    buf.extend_from_slice(&le32_bytes(m.seq_next));
    buf.extend_from_slice(&le32_bytes(m.start));
    buf.extend_from_slice(&m.epoch);
    assert(buf@ =~= meta_bytes(m@));
    fs.put(EF_AUDIT_META, buf.as_slice())
}

fn slot_fid(seq: u32) -> (f: u16)
    ensures
        f == slot_of(seq as int),
        is_journal(f),
        f != EF_AUDIT_META,
{
    EF_AUDIT_RING + (seq % AUDIT_RING_SLOTS) as u16
}

/// Copies 20 bytes.
fn array20(s: &[u8]) -> (r: [u8; 20])
    requires
        s@.len() == 20,
    ensures
        r@ == s@,
{
    let mut out = [0u8; 20];
    let mut i: usize = 0;
    while i < 20
        invariant
            i <= 20,
            s@.len() == 20,
            forall|x: int| 0 <= x < i ==> out@[x] == s@[x],
        decreases 20 - i,
    {
        out[i] = s[i];
        i += 1;
    }
    assert(out@ =~= s@);
    out
}

/// The bytes of an entry, where there is one.
pub open spec fn seen_entry(r: Option<[u8; 20]>) -> Option<Seq<u8>> {
    match r {
        Some(e) => Some(e@),
        None => None,
    }
}

/// Reads the slot of an entry.
pub fn read_slot<S: Storage>(fs: &mut Fs<S>, seq: u32) -> (r: Option<[u8; 20]>)
    requires
        old(fs).wf(),
    ensures
        final(fs).wf(),
        final(fs).reread(old(fs)),
        final(fs).only_cached(old(fs), slot_of(seq as int)),
        seen_entry(r) == entry_in(old(fs).contents(), seq as int),
{
    match fs.read_upto(slot_fid(seq), 21) {
        Some(b) => {
            if b.len() == ENTRY_LEN {
                Some(array20(b.as_slice()))
            } else {
                None
            }
        },
        None => None,
    }
}

/// Builds an entry.
pub fn build_entry(seq: u32, now_ms: u64, ev: u8, aux: u8, detail: &[u8]) -> (e: [u8; 20])
    ensures
        e@ == entry_of(seq as int, now_ms as int, ev, aux, detail@),
{
    let at: u32 = if now_ms < 0xffff_ffff {
        now_ms as u32
    } else {
        0xffff_ffff
    };
    let s: [u8; 4] = le32_bytes(seq);
    let t: [u8; 4] = le32_bytes(at);
    let mut e = [0u8; 20];
    e[0] = s[0];
    e[1] = s[1];
    e[2] = s[2];
    e[3] = s[3];
    e[4] = t[0];
    e[5] = t[1];
    e[6] = t[2];
    e[7] = t[3];
    e[8] = ev;
    e[9] = aux;
    let n: usize = if detail.len() < 8 {
        detail.len()
    } else {
        8
    };
    let ghost base = e@;
    let mut i: usize = 0;
    while i < n
        invariant
            i <= n,
            n <= 8,
            n <= detail@.len(),
            base.len() == 20,
            forall|x: int| 10 <= x < 20 ==> base[x] == 0,
            forall|x: int|
                0 <= x < 20 ==> #[trigger] e@[x] == (if 10 <= x < 10 + i {
                    detail@[x - 10]
                } else {
                    base[x]
                }),
        decreases n - i,
    {
        e[10 + i] = detail[i];
        i += 1;
    }
    proof {
        let want = entry_of(seq as int, now_ms as int, ev, aux, detail@);
        assert(want.len() == 20);
        assert forall|x: int| 0 <= x < 20 implies e@[x] == want[x] by {
            if x < 4 {
                assert(e@[x] == s@[x]);
            } else if x < 8 {
                assert(e@[x] == t@[x - 4]);
            }
        }
        assert(e@ =~= want);
    }
    e
}

/// The ring state with room for an entry: where the ring is full, the oldest
/// entry went into the epoch and the window starts one further.
pub open spec fn roomy(c: Map<u16, Seq<u8>>, m: MetaView) -> MetaView {
    if live(m) < 128 {
        m
    } else {
        MetaView {
            seq_next: m.seq_next,
            start: wadd(m.start, 1),
            epoch: step(m.epoch, entry_in(c, m.start)),
        }
    }
}

/// The files with room for an entry.
pub open spec fn with_room(dev: Device, c: Map<u16, Seq<u8>>) -> Map<u16, Seq<u8>> {
    let m = meta_in(dev, c);
    if live(m) < 128 {
        c
    } else {
        c.insert(EF_AUDIT_META, meta_bytes(roomy(c, m)))
    }
}

/// The files with one more entry in the journal.
pub open spec fn with_entry(dev: Device, c: Map<u16, Seq<u8>>, e: Seq<u8>) -> Map<u16, Seq<u8>> {
    let m = roomy(c, meta_in(dev, c));
    with_room(dev, c).insert(slot_of(m.seq_next), e).insert(
        EF_AUDIT_META,
        meta_bytes(
            MetaView { seq_next: wadd(m.seq_next, 1), start: m.start, epoch: m.epoch },
        ),
    )
}

/// From the files `c` to the files `d` the journal took the entry `e`: the head
/// is chained through it under the next sequence number, and the window starts
/// where it did, or one further where it held as many entries as the ring has
/// slots.
pub open spec fn entered(
    dev: Device,
    c: Map<u16, Seq<u8>>,
    d: Map<u16, Seq<u8>>,
    e: Seq<u8>,
) -> bool {
    let m = meta_in(dev, c);
    &&& head_in(dev, d) == chained(head_in(dev, c), e)
    &&& d == with_entry(dev, c, e)
    &&& meta_in(dev, d) == (MetaView {
        seq_next: wadd(m.seq_next, 1),
        start: roomy(c, m).start,
        epoch: roomy(c, m).epoch,
    })
    &&& entry_in(d, m.seq_next) == Some(e)
}

/// What one append does: on success the entry is chained to the head under the
/// next sequence number, and the window starts where it did, or one further
/// where it held as many entries as the ring has slots; on failure head and
/// sequence number are as they were. No file outside the journal changes.
pub open spec fn appended<S: Storage>(
    dev: Device,
    before: &Fs<S>,
    after: &Fs<S>,
    now_ms: int,
    ev: u8,
    aux: u8,
    detail: Seq<u8>,
    ok: bool,
) -> bool {
    let m = meta_in(dev, before.contents());
    let e = entry_of(m.seq_next, now_ms, ev, aux, detail);
    &&& after.wf()
    &&& after.reliable() == before.reliable()
    &&& others_kept(before.contents(), after.contents())
    &&& ok ==> entered(dev, before.contents(), after.contents(), e)
    &&& !ok ==> {
        let room = with_room(dev, before.contents());
        &&& head_in(dev, after.contents()) == head_in(dev, before.contents())
        &&& meta_in(dev, after.contents()).seq_next == m.seq_next
        &&& after.contents() == before.contents() || after.contents() == room
            || after.contents() == room.insert(slot_of(m.seq_next), e)
    }
    &&& before.reliable() && before.dynamic().len() + entry_files(before.dynamic(), m.seq_next)
        <= 1280 ==> ok
    &&& grown(before.dynamic(), after.dynamic(), m.seq_next)
}

/// One where the file is not among the known ones.
pub open spec fn new_file(known: Seq<u16>, fid: u16) -> int {
    if known.contains(fid) {
        0
    } else {
        1
    }
}

/// The number of files that an entry makes: the meta file and its slot, where they
/// are not known yet.
pub open spec fn entry_files(known: Seq<u16>, seq: int) -> int {
    new_file(known, EF_AUDIT_META) + new_file(known, slot_of(seq))
}

/// The known files grew by the files of an entry at most.
pub open spec fn grown(a: Seq<u16>, b: Seq<u16>, seq: int) -> bool {
    &&& b.len() + entry_files(b, seq) == a.len() + entry_files(a, seq)
    &&& forall|g: u16| #[trigger] a.contains(g) ==> b.contains(g)
    &&& forall|g: u16| #[trigger]
        b.contains(g) ==> a.contains(g) || g == EF_AUDIT_META || g == slot_of(seq)
}

/// Reads the ring state and, where the ring is full, folds the oldest entry
/// into the epoch and commits that. Head and sequence number stay as they are.
fn make_room<S: Storage>(dev: &Device, fs: &mut Fs<S>) -> (r: Result<Meta, Error>)
    requires
        old(fs).wf(),
    ensures
        final(fs).wf(),
        final(fs).reliable() == old(fs).reliable(),
        others_kept(old(fs).contents(), final(fs).contents()),
        head_in(*dev, final(fs).contents()) == head_in(*dev, old(fs).contents()),
        meta_in(*dev, final(fs).contents()).seq_next == meta_in(
            *dev,
            old(fs).contents(),
        ).seq_next,
        r matches Ok(m) ==> {
            &&& m@ == meta_in(*dev, final(fs).contents())
            &&& m@ == roomy(old(fs).contents(), meta_in(*dev, old(fs).contents()))
            &&& live(m@) < 128
            &&& final(fs).contents() == with_room(*dev, old(fs).contents())
        },
        r is Err ==> final(fs).contents() == old(fs).contents(),
        final(fs).dynamic() == old(fs).dynamic() || final(fs).dynamic() == seed::with_file(
            old(fs).dynamic(),
            EF_AUDIT_META,
        ),
        old(fs).reliable() && !seed::no_room(old(fs), EF_AUDIT_META) ==> r is Ok,
{
    let ghost c0 = fs.contents();
    let mut m: Meta = load_meta(dev, fs);
    proof {
        law_window_bounded(*dev, c0);
    }
    if wrapping_sub(m.seq_next, m.start) >= AUDIT_RING_SLOTS {
        let ghost m0 = m@;
        let oldest: Option<[u8; 20]> = read_slot(fs, m.start);
        if let Some(e) = oldest {
            m.epoch = chain(&m.epoch, &e);
        }
        m.start = successor(m.start);
        assert(m@ =~= (MetaView {
            seq_next: m0.seq_next,
            start: wadd(m0.start, 1),
            epoch: step(m0.epoch, entry_in(c0, m0.start)),
        }));
        proof {
            law_fold_keeps_head(*dev, c0);
            law_meta_round_trip(*dev, c0, m@);
        }
        put_meta(fs, &m)?;
    }
    Ok(m)
}

/// Writes an entry behind a window with a free slot and commits it.
fn write_entry<S: Storage>(dev: &Device, fs: &mut Fs<S>, m: Meta, entry: &[u8; 20]) -> (r: Result<
    (),
    Error,
>)
    requires
        old(fs).wf(),
        m@ == meta_in(*dev, old(fs).contents()),
        live(m@) < 128,
    ensures
        final(fs).wf(),
        final(fs).reliable() == old(fs).reliable(),
        others_kept(old(fs).contents(), final(fs).contents()),
        r is Ok ==> {
            &&& head_in(*dev, final(fs).contents()) == chained(
                head_in(*dev, old(fs).contents()),
                entry@,
            )
            &&& meta_in(*dev, final(fs).contents()) == (MetaView {
                seq_next: wadd(m@.seq_next, 1),
                start: m@.start,
                epoch: m@.epoch,
            })
            &&& final(fs).contents() == old(fs).contents().insert(
                slot_of(m@.seq_next),
                entry@,
            ).insert(EF_AUDIT_META, meta_bytes(meta_in(*dev, final(fs).contents())))
            &&& entry_in(final(fs).contents(), m@.seq_next) == Some(entry@)
        },
        r is Err ==> {
            &&& head_in(*dev, final(fs).contents()) == head_in(*dev, old(fs).contents())
            &&& meta_in(*dev, final(fs).contents()).seq_next == m@.seq_next
            &&& final(fs).contents() == old(fs).contents() || final(fs).contents() == old(
                fs,
            ).contents().insert(slot_of(m@.seq_next), entry@)
        },
        old(fs).reliable() && old(fs).dynamic().len() + entry_files(
            old(fs).dynamic(),
            m@.seq_next,
        ) <= 1280 ==> r is Ok,
        grown(old(fs).dynamic(), final(fs).dynamic(), m@.seq_next),
{
    let ghost c1 = fs.contents();
    let ghost d1 = fs.dynamic();
    let fid: u16 = slot_fid(m.seq_next);
    proof {
        law_append_chains(*dev, c1, entry@);
        seed::lemma_known(d1, fid);
    }
    fs.put(fid, entry)?;
    proof {
        seed::lemma_known(fs.dynamic(), EF_AUDIT_META);
    }
    let next = Meta { seq_next: successor(m.seq_next), start: m.start, epoch: m.epoch };
    assert(next@ =~= (MetaView {
        seq_next: wadd(m@.seq_next, 1),
        start: m@.start,
        epoch: m@.epoch,
    }));
    assert(meta_in(*dev, fs.contents()).seq_next == m@.seq_next);
    put_meta(fs, &next)
}

/// Appends one entry, folding the oldest into the epoch first where the ring is
/// full.
pub fn raw_append<S: Storage>(
    dev: &Device,
    fs: &mut Fs<S>,
    now_ms: u64,
    ev: u8,
    aux: u8,
    detail: &[u8],
) -> (r: Result<(), Error>)
    requires
        old(fs).wf(),
    ensures
        appended(*dev, old(fs), final(fs), now_ms as int, ev, aux, detail@, r is Ok),
{
    proof {
        seed::lemma_known(fs.dynamic(), EF_AUDIT_META);
    }
    let ghost d0 = fs.dynamic();
    let made: Result<Meta, Error> = make_room(dev, fs);
    proof {
        let n = meta_in(*dev, old(fs).contents()).seq_next;
        let d1 = fs.dynamic();
        assert(slot_of(n) != EF_AUDIT_META);
        assert(d1.contains(slot_of(n)) == d0.contains(slot_of(n)));
        assert(d1 != d0 ==> d1.contains(EF_AUDIT_META));
        assert(grown(d0, d1, n));
    }
    let m: Meta = made?;
    let entry: [u8; 20] = build_entry(m.seq_next, now_ms, ev, aux, detail);
    write_entry(dev, fs, m, &entry)
}

/// The head after an event: the boot entry comes first where this power cycle
/// has none yet.
pub open spec fn head_after(
    dev: Device,
    c: Map<u16, Seq<u8>>,
    logged: bool,
    now_ms: int,
    ev: u8,
    aux: u8,
    detail: Seq<u8>,
) -> Seq<u8> {
    let n = meta_in(dev, c).seq_next;
    let h = head_in(dev, c);
    if logged {
        chained(h, entry_of(n, now_ms, ev, aux, detail))
    } else {
        chained(
            chained(h, entry_of(n, now_ms, EV_BOOT, 0, Seq::empty())),
            entry_of(wadd(n, 1), now_ms, ev, aux, detail),
        )
    }
}

/// The number of files that recording an event makes: those of its entry, and the
/// slot of the boot entry where this power cycle has none yet.
pub open spec fn event_files(known: Seq<u16>, seq: int, logged: bool) -> int {
    entry_files(known, seq) + if logged {
        0
    } else {
        new_file(known, slot_of(wadd(seq, 1)))
    }
}

/// The number of entries that recording an event makes: its own, and the boot
/// entry where this power cycle has none yet.
pub open spec fn event_entries(logged: bool) -> int {
    if logged {
        1
    } else {
        2
    }
}

/// The number of entries that leave the window where `k` more come.
pub open spec fn leaving(m: MetaView, k: int) -> nat {
    if live(m) + k <= 128 {
        0
    } else {
        (live(m) + k - 128) as nat
    }
}

/// From the files `c` to the files `d` the journal took an event: its entry
/// stands in its slot under the next sequence number, behind the boot entry where
/// this power cycle has none yet, and the head is chained through them. The
/// oldest entries of a full window went into the epoch, and every other slot of
/// the ring is as it was.
#[verifier::opaque]
pub open spec fn took(
    dev: Device,
    c: Map<u16, Seq<u8>>,
    d: Map<u16, Seq<u8>>,
    logged: bool,
    now_ms: int,
    ev: u8,
    aux: u8,
    detail: Seq<u8>,
) -> bool {
    let m = meta_in(dev, c);
    let n = m.seq_next;
    let k = event_entries(logged);
    let last = wadd(n, k - 1);
    &&& head_in(dev, d) == head_after(dev, c, logged, now_ms, ev, aux, detail)
    &&& meta_in(dev, d) == (MetaView {
        seq_next: wadd(n, k),
        start: wadd(m.start, leaving(m, k) as int),
        epoch: folded(c, m.epoch, m.start, leaving(m, k)),
    })
    &&& entry_in(d, last) == Some(entry_of(last, now_ms, ev, aux, detail))
    &&& !logged ==> entry_in(d, n) == Some(entry_of(n, now_ms, EV_BOOT, 0, Seq::empty()))
    &&& forall|g: u16|
        in_ring(g) && g != slot_of(n) && g != slot_of(last) ==> {
            &&& #[trigger] d.contains_key(g) == c.contains_key(g)
            &&& d.contains_key(g) ==> d[g] == c[g]
        }
}

proof fn lemma_entered_slots(dev: Device, c: Map<u16, Seq<u8>>, d: Map<u16, Seq<u8>>, e: Seq<u8>)
    requires
        entered(dev, c, d, e),
    ensures
        forall|g: u16|
            in_ring(g) && g != slot_of(meta_in(dev, c).seq_next) ==> {
                &&& #[trigger] d.contains_key(g) == c.contains_key(g)
                &&& d.contains_key(g) ==> d[g] == c[g]
            },
        forall|x: int|
            slot_of(x) != slot_of(meta_in(dev, c).seq_next) ==> #[trigger] entry_in(d, x)
                == entry_in(c, x),
{
}

/// One entry, where the power cycle was opened before.
proof fn lemma_took_one(
    dev: Device,
    c: Map<u16, Seq<u8>>,
    d: Map<u16, Seq<u8>>,
    now_ms: int,
    ev: u8,
    aux: u8,
    detail: Seq<u8>,
)
    requires
        entered(dev, c, d, entry_of(meta_in(dev, c).seq_next, now_ms, ev, aux, detail)),
    ensures
        took(dev, c, d, true, now_ms, ev, aux, detail),
{
    reveal(took);
    let m = meta_in(dev, c);
    law_window_bounded(dev, c);
    lemma_entered_slots(dev, c, d, entry_of(m.seq_next, now_ms, ev, aux, detail));
    assert(wadd(m.start, 0) == m.start && wadd(m.seq_next, 0) == m.seq_next);
    reveal_with_fuel(folded, 2);
}

/// The boot entry and one more.
proof fn lemma_took_two(
    dev: Device,
    c: Map<u16, Seq<u8>>,
    b: Map<u16, Seq<u8>>,
    d: Map<u16, Seq<u8>>,
    now_ms: int,
    ev: u8,
    aux: u8,
    detail: Seq<u8>,
)
    requires
        entered(dev, c, b, entry_of(meta_in(dev, c).seq_next, now_ms, EV_BOOT, 0, Seq::empty())),
        entered(dev, b, d, entry_of(meta_in(dev, b).seq_next, now_ms, ev, aux, detail)),
    ensures
        took(dev, c, d, false, now_ms, ev, aux, detail),
{
    reveal(took);
    let m = meta_in(dev, c);
    let f = meta_in(dev, b);
    law_window_bounded(dev, c);
    law_window_bounded(dev, b);
    let n = m.seq_next;
    lemma_entered_slots(dev, c, b, entry_of(n, now_ms, EV_BOOT, 0, Seq::empty()));
    lemma_entered_slots(dev, b, d, entry_of(f.seq_next, now_ms, ev, aux, detail));
    assert(wadd(m.start, 0) == m.start && wadd(n, 0) == n);
    assert(f.seq_next == wadd(n, 1) && wadd(f.seq_next, 1) == wadd(n, 2));
    assert(wadd(wadd(m.start, 1), 1) == wadd(m.start, 2));
    assert(slot_of(n) != slot_of(wadd(n, 1))) by {
        lemma_slot_free(n, 1, 0);
    }
    assert(entry_in(d, n) == entry_in(b, n));
    reveal_with_fuel(folded, 3);
    if live(m) == 127 {
        lemma_slot_free(m.start, 127, 0);
        assert(wadd(m.start, 127) == n);
        assert(live(f) == 128);
        assert(entry_in(b, m.start) == entry_in(c, m.start));
    } else if live(m) == 128 {
        assert(wadd(m.start, 128) == n);
        assert(live(f) == 128);
        lemma_slot_free(wadd(m.start, 1), 127, 0);
        assert(wadd(wadd(m.start, 1), 127) == n);
        assert(wadd(wadd(m.start, 1), 0) == wadd(m.start, 1));
        assert(entry_in(b, wadd(m.start, 1)) == entry_in(c, wadd(m.start, 1)));
    } else {
        assert(live(f) < 128);
    }
}

/// An append that succeeded or failed.
pub open spec fn tried<S: Storage>(
    dev: Device,
    before: &Fs<S>,
    after: &Fs<S>,
    now_ms: int,
    ev: u8,
    aux: u8,
    detail: Seq<u8>,
) -> bool {
    ||| appended(dev, before, after, now_ms, ev, aux, detail, true)
    ||| appended(dev, before, after, now_ms, ev, aux, detail, false)
}

/// The file system in which a power cycle is opened: the boot entry was tried,
/// unless the power cycle had been opened before, where at most the cache differs.
pub open spec fn opened<S: Storage, R: Rng, P: UserPresence>(
    before: &Ctx<S, R, P>,
    mid: &Fs<S>,
) -> bool {
    if before.state.audit_boot_logged {
        mid.reread(&before.fs)
    } else {
        tried(before.dev, &before.fs, mid, before.now_ms as int, EV_BOOT, 0, Seq::empty())
    }
}

/// What recording an event does: the power cycle is opened, and the event is
/// tried behind it. No file outside the journal changes, the power cycle counts as
/// opened, and where the backend is reliable and has room the journal takes the
/// event.
pub open spec fn recorded<S: Storage, R: Rng, P: UserPresence>(
    before: &Ctx<S, R, P>,
    after: &Ctx<S, R, P>,
    ev: u8,
    aux: u8,
    detail: Seq<u8>,
) -> bool {
    &&& *after == (Ctx {
        fs: after.fs,
        state: FidoState { audit_boot_logged: true, ..before.state },
        ..*before
    })
    &&& after.fs.wf()
    &&& after.fs.reliable() == before.fs.reliable()
    &&& others_kept(before.fs.contents(), after.fs.contents())
    &&& exists|mid: Fs<S>| #[trigger]
        opened(before, &mid) && tried(
            before.dev,
            &mid,
            &after.fs,
            before.now_ms as int,
            ev,
            aux,
            detail,
        )
    &&& before.fs.reliable() && before.fs.dynamic().len() + event_files(
        before.fs.dynamic(),
        meta_in(before.dev, before.fs.contents()).seq_next,
        before.state.audit_boot_logged,
    ) <= 1280 ==> took(
        before.dev,
        before.fs.contents(),
        after.fs.contents(),
        before.state.audit_boot_logged,
        before.now_ms as int,
        ev,
        aux,
        detail,
    )
}

/// A command recorded an event: where the backend is reliable and has room for the
/// files of the event and `more`, the journal as it was before the command took
/// the event.
pub open spec fn noted<S: Storage, R: Rng, P: UserPresence>(
    before: &Ctx<S, R, P>,
    after: &Ctx<S, R, P>,
    more: int,
    ev: u8,
    aux: u8,
    detail: Seq<u8>,
) -> bool {
    before.fs.reliable() && before.fs.dynamic().len() + event_files(
        before.fs.dynamic(),
        meta_in(before.dev, before.fs.contents()).seq_next,
        before.state.audit_boot_logged,
    ) + more <= 1280 ==> took(
        before.dev,
        before.fs.contents(),
        after.fs.contents(),
        before.state.audit_boot_logged,
        before.now_ms as int,
        ev,
        aux,
        detail,
    )
}

/// Reading files before an event is recorded makes no difference.
pub proof fn lemma_recorded_reread<S: Storage, R: Rng, P: UserPresence>(
    before: &Ctx<S, R, P>,
    mid: &Ctx<S, R, P>,
    after: &Ctx<S, R, P>,
    ev: u8,
    aux: u8,
    detail: Seq<u8>,
)
    requires
        recorded(mid, after, ev, aux, detail),
        *mid == (Ctx { fs: mid.fs, ..*before }),
        mid.fs.reread(&before.fs),
    ensures
        recorded(before, after, ev, aux, detail),
{
    let f = choose|f: Fs<S>| #[trigger]
        opened(mid, &f) && tried(mid.dev, &f, &after.fs, mid.now_ms as int, ev, aux, detail);
    if before.state.audit_boot_logged {
        assert forall|g: u16|
            #![trigger f.cached(g)]
            f.cached(g) == before.fs.cached(g) || f.cached(g) == Some(
                before.fs.contents().contains_key(g),
            ) by {
            assert(mid.fs.cached(g) == before.fs.cached(g) || mid.fs.cached(g) == Some(
                before.fs.contents().contains_key(g),
            ));
        }
    }
    assert(opened(before, &f));
}

/// A recorded event that the backend has room for goes through whole entries: its
/// own, behind that of the boot where this power cycle had none.
pub proof fn law_recorded_enters<S: Storage, R: Rng, P: UserPresence>(
    before: &Ctx<S, R, P>,
    after: &Ctx<S, R, P>,
    ev: u8,
    aux: u8,
    detail: Seq<u8>,
)
    requires
        recorded(before, after, ev, aux, detail),
        before.fs.reliable(),
        before.fs.dynamic().len() + event_files(
            before.fs.dynamic(),
            meta_in(before.dev, before.fs.contents()).seq_next,
            before.state.audit_boot_logged,
        ) <= 1280,
    ensures
        ({
            let c = before.fs.contents();
            let d = after.fs.contents();
            let n = meta_in(before.dev, c).seq_next;
            let t = before.now_ms as int;
            if before.state.audit_boot_logged {
                entered(before.dev, c, d, entry_of(n, t, ev, aux, detail))
            } else {
                exists|b: Map<u16, Seq<u8>>| #[trigger]
                    entered(before.dev, c, b, entry_of(n, t, EV_BOOT, 0, Seq::empty())) && entered(
                        before.dev,
                        b,
                        d,
                        entry_of(wadd(n, 1), t, ev, aux, detail),
                    )
            }
        }),
{
    let f = choose|f: Fs<S>| #[trigger]
        opened(before, &f) && tried(
            before.dev,
            &f,
            &after.fs,
            before.now_ms as int,
            ev,
            aux,
            detail,
        );
    let c = before.fs.contents();
    let n = meta_in(before.dev, c).seq_next;
    if !before.state.audit_boot_logged {
        assert(entered(
            before.dev,
            c,
            f.contents(),
            entry_of(n, before.now_ms as int, EV_BOOT, 0, Seq::empty()),
        ));
        assert(meta_in(before.dev, f.contents()).seq_next == wadd(n, 1));
    }
}

/// The event that was recorded last is the first that the on-device view shows,
/// and the boot entry that came with it the second.
pub proof fn law_recorded_event_is_shown(
    dev: Device,
    c: Map<u16, Seq<u8>>,
    d: Map<u16, Seq<u8>>,
    logged: bool,
    now_ms: int,
    ev: u8,
    aux: u8,
    detail: Seq<u8>,
)
    requires
        took(dev, c, d, logged, now_ms, ev, aux, detail),
        0 <= now_ms,
    ensures
        ({
            let f = meta_in(dev, d);
            let shown = newest_first(d, f.start, live(f));
            &&& shown.len() >= event_entries(logged)
            &&& shown[0].event == ev
            &&& !logged ==> shown[1].event == EV_BOOT
        }),
{
    reveal(took);
    let m = meta_in(dev, c);
    let n = m.seq_next;
    let k = event_entries(logged);
    let f = meta_in(dev, d);
    law_window_bounded(dev, c);
    law_window_bounded(dev, d);
    let l = live(f);
    assert(l == live(m) + k - leaving(m, k));
    assert(wadd(f.start, l - 1) == wadd(n, k - 1));
    let last = entry_of(wadd(n, k - 1), now_ms, ev, aux, detail);
    assert(last[8] == ev);
    let rest = newest_first(d, f.start, (l - 1) as nat);
    assert(newest_first(d, f.start, l) == seq![view_of(last)] + rest);
    if !logged {
        assert(wadd(f.start, l - 2) == n);
        let boot = entry_of(n, now_ms, EV_BOOT, 0, Seq::empty());
        assert(boot[8] == EV_BOOT);
        assert(rest == seq![view_of(boot)] + newest_first(d, f.start, (l - 2) as nat));
    }
}

/// What the journal takes depends on its own files alone.
pub proof fn lemma_took_frame(
    dev: Device,
    a: Map<u16, Seq<u8>>,
    c: Map<u16, Seq<u8>>,
    d: Map<u16, Seq<u8>>,
    logged: bool,
    now_ms: int,
    ev: u8,
    aux: u8,
    detail: Seq<u8>,
)
    requires
        took(dev, c, d, logged, now_ms, ev, aux, detail),
        forall|g: u16|
            is_journal(g) ==> {
                &&& #[trigger] c.contains_key(g) == a.contains_key(g)
                &&& c.contains_key(g) ==> c[g] == a[g]
            },
    ensures
        took(dev, a, d, logged, now_ms, ev, aux, detail),
{
    reveal(took);
    lemma_journal_frame(dev, a, c);
    let m = meta_in(dev, a);
    let k = event_entries(logged);
    assert forall|i: int| 0 <= i < leaving(m, k) implies entry_in(c, #[trigger] wadd(m.start, i))
        == entry_in(a, wadd(m.start, i)) by {
        let f = slot_of(wadd(m.start, i));
        assert(is_journal(f));
        assert(c.contains_key(f) == a.contains_key(f));
    }
    lemma_folded_frame(c, a, m.epoch, m.start, leaving(m, k));
    assert forall|g: u16|
        in_ring(g) && g != slot_of(m.seq_next) && g != slot_of(wadd(m.seq_next, k - 1)) implies {
        &&& #[trigger] d.contains_key(g) == a.contains_key(g)
        &&& d.contains_key(g) ==> d[g] == a[g]
    } by {
        assert(is_journal(g));
        assert(c.contains_key(g) == a.contains_key(g));
    }
}

/// An event that is recorded after files outside the journal were written is
/// taken by the journal from before.
pub proof fn lemma_noted<S: Storage, R: Rng, P: UserPresence>(
    before: &Ctx<S, R, P>,
    mid: &Ctx<S, R, P>,
    after: &Ctx<S, R, P>,
    more: int,
    ev: u8,
    aux: u8,
    detail: Seq<u8>,
)
    requires
        recorded(mid, after, ev, aux, detail),
        mid.dev == before.dev,
        mid.now_ms == before.now_ms,
        mid.state.audit_boot_logged == before.state.audit_boot_logged,
        before.fs.reliable() ==> mid.fs.reliable() && mid.fs.dynamic().len()
            <= before.fs.dynamic().len() + more,
        before.fs.reliable() ==> known_kept(before.fs.dynamic(), mid.fs.dynamic()),
        forall|g: u16|
            is_journal(g) ==> {
                let c = before.fs.contents();
                &&& #[trigger] mid.fs.contents().contains_key(g) == c.contains_key(g)
                &&& mid.fs.contents().contains_key(g) ==> mid.fs.contents()[g] == c[g]
            },
    ensures
        noted(before, after, more, ev, aux, detail),
{
    lemma_journal_frame(before.dev, before.fs.contents(), mid.fs.contents());
    if before.fs.reliable() {
        let n = meta_in(before.dev, before.fs.contents()).seq_next;
        let logged = before.state.audit_boot_logged;
        assert(is_journal(slot_of(n)) && is_journal(slot_of(wadd(n, 1))));
        let (a, b) = (before.fs.dynamic(), mid.fs.dynamic());
        assert(a.contains(EF_AUDIT_META) ==> b.contains(EF_AUDIT_META));
        assert(a.contains(slot_of(n)) ==> b.contains(slot_of(n)));
        assert(a.contains(slot_of(wadd(n, 1))) ==> b.contains(slot_of(wadd(n, 1))));
        if a.len() + event_files(a, n, logged) + more <= 1280 {
            lemma_took_frame(
                before.dev,
                before.fs.contents(),
                mid.fs.contents(),
                after.fs.contents(),
                logged,
                before.now_ms as int,
                ev,
                aux,
                detail,
            );
        }
    }
}

/// Dropping a file outside the journal keeps those of the journal known.
pub proof fn lemma_known_others(s: Seq<u16>, fid: u16)
    requires
        !is_journal(fid),
    ensures
        known_kept(s, dynamic::others(s, fid)),
{
}

/// The files of the journal that were known still are.
pub open spec fn known_kept(a: Seq<u16>, b: Seq<u16>) -> bool {
    forall|g: u16| is_journal(g) && #[trigger] a.contains(g) ==> b.contains(g)
}

/// Records one event, opening the power cycle with a boot entry first. A
/// failure is swallowed: the journal never fails the operation it records.
pub fn append<S: Storage, R: Rng, P: UserPresence>(
    ctx: &mut Ctx<S, R, P>,
    ev: u8,
    aux: u8,
    detail: &[u8],
)
    requires
        old(ctx).fs.wf(),
    ensures
        recorded(old(ctx), final(ctx), ev, aux, detail@),
{
    let ghost c0 = ctx.fs.contents();
    let ghost start = *ctx;
    let ghost mut first = true;
    if !ctx.state.audit_boot_logged {
        ctx.state.audit_boot_logged = true;
        let nothing: [u8; 0] = [];
        assert(nothing@ =~= Seq::<u8>::empty());
        let boot = raw_append(&ctx.dev, &mut ctx.fs, ctx.now_ms, EV_BOOT, 0, &nothing);
        proof {
            first = boot is Ok;
        }
    }
    let ghost c1 = ctx.fs.contents();
    let ghost mid = ctx.fs;
    assert(opened(&start, &mid));
    let own = raw_append(&ctx.dev, &mut ctx.fs, ctx.now_ms, ev, aux, detail);
    proof {
        assert(tried(start.dev, &mid, &ctx.fs, start.now_ms as int, ev, aux, detail@));
        assert(others_kept(c0, c1) && others_kept(c1, ctx.fs.contents()));
        assert forall|g: u16| !is_journal(g) implies {
            &&& #[trigger] ctx.fs.contents().contains_key(g) == c0.contains_key(g)
            &&& ctx.fs.contents().contains_key(g) ==> ctx.fs.contents()[g] == c0[g]
        } by {
            assert(c1.contains_key(g) == c0.contains_key(g));
        }
        let n = meta_in(start.dev, c0).seq_next;
        let t = start.now_ms as int;
        if start.fs.reliable() && start.fs.dynamic().len() + event_files(
            start.fs.dynamic(),
            n,
            start.state.audit_boot_logged,
        ) <= 1280 {
            if start.state.audit_boot_logged {
                lemma_took_one(start.dev, c0, ctx.fs.contents(), t, ev, aux, detail@);
            } else {
                assert(first);
                assert(meta_in(start.dev, c1).seq_next == wadd(n, 1));
                lemma_took_two(start.dev, c0, c1, ctx.fs.contents(), t, ev, aux, detail@);
            }
        }
    }
}

/// The chain head and the ring state.
pub fn chain_head<S: Storage>(dev: &Device, fs: &mut Fs<S>) -> (r: ([u8; 32], Meta))
    requires
        old(fs).wf(),
    ensures
        final(fs).wf(),
        final(fs).reread(old(fs)),
        r.0@ == head_in(*dev, old(fs).contents()),
        r.1@ == meta_in(*dev, old(fs).contents()),
{
    let ghost c = fs.contents();
    let ghost start = *fs;
    let m: Meta = load_meta(dev, fs);
    let mut h: [u8; 32] = m.epoch;
    let mut seq: u32 = m.start;
    let ghost mut k: nat = 0;
    while seq != m.seq_next
        invariant
            fs.wf(),
            fs.reread(&start),
            c == start.contents(),
            k <= live(m@) <= 128,
            seq == wadd(m.start as int, k as int),
            h@ == folded(c, m.epoch@, m.start as int, k),
        decreases live(m@) - k,
    {
        if let Some(e) = read_slot(fs, seq) {
            h = chain(&h, &e);
        }
        seq = successor(seq);
        proof {
            k = k + 1;
        }
    }
    assert(k == live(m@));
    (h, m)
}

/// Every file outside the journal and the metadata store is as it was.
pub open spec fn others_kept_but_meta(a: Map<u16, Seq<u8>>, b: Map<u16, Seq<u8>>) -> bool {
    forall|g: u16|
        !is_journal(g) && g != EF_META ==> {
            &&& #[trigger] b.contains_key(g) == a.contains_key(g)
            &&& b.contains_key(g) ==> b[g] == a[g]
        }
}

/// The window was folded into the epoch and the entries deleted: the head went
/// into the epoch and the window is empty. On a reliable backend every slot of
/// the window is gone, and every other slot of the ring that the cache knows to
/// be there; what is left of the ring is as it was, and no slot has metadata.
pub open spec fn scrubbed<S: Storage>(dev: Device, before: &Fs<S>, after: &Fs<S>) -> bool {
    let c = before.contents();
    let d = after.contents();
    let m = meta_in(dev, c);
    &&& meta_in(dev, d) == (MetaView {
        seq_next: m.seq_next,
        start: m.seq_next,
        epoch: head_in(dev, c),
    })
    &&& before.reliable() ==> {
        &&& forall|i: int|
            0 <= i < live(m) ==> !d.contains_key(#[trigger] slot_of(wadd(m.start, i)))
        &&& forall|f: u16|
            EF_AUDIT_RING <= f < EF_AUDIT_RING + 128 && before.cached(f) == Some(true)
                ==> !#[trigger] d.contains_key(f)
        &&& forall|f: u16|
            EF_AUDIT_RING <= f < EF_AUDIT_RING + 128 && #[trigger] d.contains_key(f)
                ==> c.contains_key(f) && d[f] == c[f]
        &&& forall|f: u16| in_ring(f) ==> (#[trigger] file_system::meta_of(d, f)) is None
    }
}

/// Folds the whole window into the epoch and deletes the entries: the head
/// stays as it is, so the history stays attested, and the details are gone.
/// Where the folded state cannot be written, no entry is deleted.
pub fn fold_and_scrub<S: Storage>(dev: &Device, fs: &mut Fs<S>)
    requires
        old(fs).wf(),
    ensures
        final(fs).wf(),
        final(fs).reliable() == old(fs).reliable(),
        head_in(*dev, final(fs).contents()) == head_in(*dev, old(fs).contents()),
        meta_in(*dev, final(fs).contents()).seq_next == meta_in(
            *dev,
            old(fs).contents(),
        ).seq_next,
        others_kept_but_meta(old(fs).contents(), final(fs).contents()),
        file_system::metas_kept_but(
            old(fs).contents(),
            final(fs).contents(),
            |g: u16| in_ring(g),
        ),
        old(fs).reliable() ==> final(fs).dynamic().len() <= old(fs).dynamic().len() + 1,
        scrubbed(*dev, old(fs), final(fs)) || {
            &&& final(fs).contents() == old(fs).contents()
            &&& !old(fs).reliable() || seed::no_room(old(fs), EF_AUDIT_META)
        },
{
    let ghost c = fs.contents();
    let ghost start = *fs;
    let m: Meta = load_meta(dev, fs);
    let mut epoch: [u8; 32] = m.epoch;
    let mut seq: u32 = m.start;
    let ghost mut k: nat = 0;
    while seq != m.seq_next
        invariant
            fs.wf(),
            fs.reread(&start),
            c == start.contents(),
            k <= live(m@) <= 128,
            seq == wadd(m.start as int, k as int),
            epoch@ == folded(c, m.epoch@, m.start as int, k),
            forall|i: int|
                0 <= i < k ==> #[trigger] fs.cached(slot_of(wadd(m.start as int, i))) == Some(
                    c.contains_key(slot_of(wadd(m.start as int, i))),
                ),
        decreases live(m@) - k,
    {
        let ghost before = *fs;
        if let Some(e) = read_slot(fs, seq) {
            epoch = chain(&epoch, &e);
        }
        proof {
            assert forall|i: int| 0 <= i < k + 1 implies #[trigger] fs.cached(
                slot_of(wadd(m.start as int, i)),
            ) == Some(c.contains_key(slot_of(wadd(m.start as int, i)))) by {
                let f = slot_of(wadd(m.start as int, i));
                if f != slot_of(seq as int) {
                    assert(fs.cached(f) == before.cached(f));
                }
            }
        }
        seq = successor(seq);
        proof {
            k = k + 1;
        }
    }
    let ghost n = live(m@);
    assert(k == n);
    let next = Meta { seq_next: m.seq_next, start: m.seq_next, epoch };
    assert(next@ =~= (MetaView {
        seq_next: m@.seq_next,
        start: m@.seq_next,
        epoch: head_in(*dev, c),
    }));
    let ghost read = *fs;
    proof {
        law_meta_round_trip(*dev, c, next@);
    }
    match put_meta(fs, &next) {
        Ok(()) => {},
        Err(_) => {
            return ;
        },
    }
    let ghost folded_fs = *fs;
    let ghost ok = fs.reliable();
    proof {
        file_system::lemma_metas_same(c, fs.contents());
    }
    let mut i: u16 = 0;
    while i < 128
        invariant
            i <= 128,
            fs.wf(),
            fs.reliable() == ok,
            ok ==> fs.dynamic().len() <= folded_fs.dynamic().len(),
            others_kept_but_meta(c, fs.contents()),
            forall|g: u16|
                !in_ring(g) ==> #[trigger] file_system::meta_of(fs.contents(), g)
                    == file_system::meta_of(c, g),
            ok ==> forall|g: u16|
                EF_AUDIT_RING <= g && g < EF_AUDIT_RING + i ==> (#[trigger] file_system::meta_of(
                    fs.contents(),
                    g,
                )) is None,
            fs.contents().contains_key(EF_AUDIT_META),
            fs.contents()[EF_AUDIT_META] == meta_bytes(next@),
            forall|f: u16|
                EF_AUDIT_RING + i <= f && f < EF_AUDIT_RING + 128 ==> #[trigger] fs.cached(f)
                    == folded_fs.cached(f),
            ok ==> forall|f: u16| #[trigger]
                fs.contents().contains_key(f) && EF_AUDIT_RING <= f && f < EF_AUDIT_RING + 128
                    ==> folded_fs.contents().contains_key(f) && fs.contents()[f]
                    == folded_fs.contents()[f],
            ok ==> forall|f: u16|
                EF_AUDIT_RING <= f && f < EF_AUDIT_RING + i && folded_fs.cached(f) == Some(true)
                    ==> !(#[trigger] fs.contents().contains_key(f)),
        decreases 128 - i,
    {
        let fid: u16 = EF_AUDIT_RING + i;
        let ghost before = *fs;
        assert(before.cached(fid) == folded_fs.cached(fid));
        let _ = fs.delete(fid);
        proof {
            before.law_no_false_absent(fid);
            file_system::lemma_filter(before.dynamic(), fid);
            assert forall|g: u16| !is_journal(g) && g != EF_META implies {
                &&& #[trigger] fs.contents().contains_key(g) == c.contains_key(g)
                &&& fs.contents().contains_key(g) ==> fs.contents()[g] == c[g]
            } by {
                assert(before.contents().contains_key(g) == c.contains_key(g));
            }
            assert(before.contents().contains_key(EF_AUDIT_META));
            assert forall|g: u16| !in_ring(g) implies #[trigger] file_system::meta_of(
                fs.contents(),
                g,
            ) == file_system::meta_of(c, g) by {
                assert(file_system::meta_of(before.contents(), g) == file_system::meta_of(c, g));
            }
            if ok {
                assert forall|g: u16|
                    EF_AUDIT_RING <= g && g < EF_AUDIT_RING + i + 1 implies (
                #[trigger] file_system::meta_of(fs.contents(), g)) is None by {
                    if g != fid {
                        assert(file_system::meta_of(before.contents(), g) is None);
                    }
                }
                assert forall|f: u16| #[trigger]
                    fs.contents().contains_key(f) && EF_AUDIT_RING <= f && f < EF_AUDIT_RING
                        + 128 implies folded_fs.contents().contains_key(f) && fs.contents()[f]
                    == folded_fs.contents()[f] by {
                    assert(before.contents().contains_key(f));
                }
            }
        }
        i += 1;
    }
    proof {
        assert(meta_in(*dev, fs.contents()) == next@) by {
            law_meta_round_trip(*dev, fs.contents(), next@);
            assert(fs.contents().insert(EF_AUDIT_META, meta_bytes(next@)) =~= fs.contents());
        }
        if ok {
            assert forall|i: int| 0 <= i < n implies !fs.contents().contains_key(
                #[trigger] slot_of(wadd(m.start as int, i)),
            ) by {
                let f = slot_of(wadd(m.start as int, i));
                assert(read.cached(f) == Some(c.contains_key(f)));
                assert(folded_fs.cached(f) == read.cached(f));
            }
            assert forall|f: u16|
                EF_AUDIT_RING <= f < EF_AUDIT_RING + 128 && start.cached(f) == Some(
                    true,
                ) implies !#[trigger] fs.contents().contains_key(f) by {
                assert(read.cached(f) == start.cached(f) || read.cached(f) == Some(
                    c.contains_key(f),
                ));
                assert(folded_fs.cached(f) == read.cached(f));
            }
        }
    }
}

// ---- the on-device view ----
/// What the on-device view shows of an entry.
pub open spec fn view_of(e: Seq<u8>) -> EventView {
    EventView { uptime_ms: sdk::le32_value(e.subrange(4, 8)) as u32, event: e[8] }
}

/// The events of `n` slots from `seq` on, newest first.
pub open spec fn newest_first(c: Map<u16, Seq<u8>>, seq: int, n: nat) -> Seq<EventView>
    decreases n,
{
    if n == 0 {
        Seq::empty()
    } else {
        (match entry_in(c, wadd(seq, n - 1)) {
            Some(e) => seq![view_of(e)],
            None => Seq::empty(),
        }) + newest_first(c, seq, (n - 1) as nat)
    }
}

/// The events of the window, newest first, at most `limit` of them, and the
/// number of entries that the window counts.
pub fn for_each_event<S: Storage>(dev: &Device, fs: &mut Fs<S>, limit: usize) -> (r: (
    Vec<EventView>,
    u32,
))
    requires
        old(fs).wf(),
    ensures
        final(fs).wf(),
        final(fs).reread(old(fs)),
        ({
            let m = meta_in(*dev, old(fs).contents());
            let all = newest_first(old(fs).contents(), m.start, live(m));
            &&& r.1 == live(m)
            &&& r.0@ == (if all.len() <= limit {
                all
            } else {
                all.take(limit as int)
            })
        }),
{
    let ghost c = fs.contents();
    let ghost start = *fs;
    let m: Meta = load_meta(dev, fs);
    let total: u32 = wrapping_sub(m.seq_next, m.start);
    let mut seen: Vec<EventView> = Vec::new();
    let mut seq: u32 = m.seq_next;
    let ghost all = newest_first(c, m.start as int, live(m@));
    let ghost mut k: nat = live(m@);
    while seq != m.start && seen.len() < limit
        invariant
            fs.wf(),
            fs.reread(&start),
            c == start.contents(),
            k <= live(m@) <= 128,
            seq == wadd(m.start as int, k as int),
            all == newest_first(c, m.start as int, live(m@)),
            seen@ + newest_first(c, m.start as int, k) == all,
            seen@.len() <= limit,
        decreases k,
    {
        seq = predecessor(seq);
        assert(seq == wadd(m.start as int, k - 1));
        let ghost before = seen@;
        if let Some(e) = read_slot(fs, seq) {
            let view = EventView { uptime_ms: le32_read(slice_subrange(&e, 4, 8)), event: e[8] };
            assert(view == view_of(e@));
            seen.push(view);
            assert(before + newest_first(c, m.start as int, k) =~= seen@ + newest_first(
                c,
                m.start as int,
                (k - 1) as nat,
            ));
        } else {
            assert(before + newest_first(c, m.start as int, k) =~= before + newest_first(
                c,
                m.start as int,
                (k - 1) as nat,
            ));
        }
        proof {
            k = (k - 1) as nat;
        }
    }
    proof {
        if seq == m.start {
            assert(k == 0);
            assert(seen@ =~= all);
        } else {
            assert(seen@ =~= all.take(limit as int));
        }
    }
    (seen, total)
}

// ---- attestation ----
/// The HKDF label of the `i`-th attempt at a checkpoint key.
pub open spec fn att_info(i: int) -> Seq<u8> {
    encode_utf8("RSK audit attestation v1"@).push(i as u8)
}

/// The `i`-th attempt at a checkpoint key.
pub open spec fn att_attempt(devk: Seq<u8>, serial_hash: Seq<u8>, i: int) -> Seq<u8> {
    crypto::hkdf_sha256_of(serial_hash, devk, att_info(i), 32)
}

/// The first of the attempts from the `i`-th to the eighth that is a P-256
/// scalar.
pub open spec fn att_scalar(devk: Seq<u8>, serial_hash: Seq<u8>, i: int) -> Option<Seq<u8>>
    decreases 8 - i,
{
    if i >= 8 {
        None
    } else if crypto::p256_scalar(att_attempt(devk, serial_hash, i)) {
        Some(att_attempt(devk, serial_hash, i))
    } else {
        att_scalar(devk, serial_hash, i + 1)
    }
}

/// The checkpoint signing key, derived from the fused attestation root: the
/// same for the same device, whatever was reset.
pub fn attestation_key(devk: &[u8; 32], serial_hash: &[u8; 32]) -> (r: Option<[u8; 32]>)
    ensures
        crypto::seen(r) == att_scalar(devk@, serial_hash@, 0),
        r matches Some(k) ==> crypto::p256_scalar(k@),
{
    let mut i: u8 = 0;
    while i < 8
        invariant
            i <= 8,
            att_scalar(devk@, serial_hash@, 0) == att_scalar(devk@, serial_hash@, i as int),
        decreases 8 - i,
    {
        let mut info: Vec<u8> = Vec::new();
        info.extend_from_slice("RSK audit attestation v1".as_bytes());
        info.push(i);
        assert(info@ =~= att_info(i as int));
        let mut k: [u8; 32] = hkdf_sha256(serial_hash, devk, info.as_slice());
        if p256_accepts(&k) {
            return Some(k);
        }
        wipe(&mut k);
        i += 1;
    }
    None
}

/// The exported journal: start, next sequence number, epoch and entries.
pub open spec fn export_of(m: MetaView, entries: Seq<u8>) -> Seq<u8> {
    cbor::map(4) + cbor::uint(1) + cbor::uint(m.start) + cbor::uint(2) + cbor::uint(m.seq_next)
        + cbor::uint(3) + cbor::bytes(m.epoch) + cbor::uint(4) + cbor::bytes(entries)
}

/// Exports the journal. Folding the entries from the epoch gives the head.
pub fn vendor_read<S: Storage>(dev: &Device, fs: &mut Fs<S>, out: &mut [u8]) -> (r: CtapResult)
    requires
        old(fs).wf(),
    ensures
        final(fs).wf(),
        final(fs).reread(old(fs)),
        ({
            let m = meta_in(*dev, old(fs).contents());
            reply::delivered(
                old(out)@,
                final(out)@,
                export_of(m, window(old(fs).contents(), m.start, live(m))),
                r,
            )
        }),
{
    let ghost c = fs.contents();
    let ghost start = *fs;
    let m: Meta = load_meta(dev, fs);
    let mut entries: Vec<u8> = Vec::new();
    let mut seq: u32 = m.start;
    let ghost mut k: nat = 0;
    while seq != m.seq_next
        invariant
            fs.wf(),
            fs.reread(&start),
            c == start.contents(),
            k <= live(m@) <= 128,
            seq == wadd(m.start as int, k as int),
            entries@ == window(c, m.start as int, k),
        decreases live(m@) - k,
    {
        let ghost before = entries@;
        if let Some(e) = read_slot(fs, seq) {
            entries.extend_from_slice(&e);
            assert(entries@ =~= before + e@);
        }
        seq = successor(seq);
        proof {
            assert(window(c, m.start as int, k + 1) =~= entries@);
            k = k + 1;
        }
    }
    let mut v: Vec<u8> = Vec::new();
    put_map(&mut v, 4);
    put_u64(&mut v, 1);
    put_u64(&mut v, m.start as u64);
    put_u64(&mut v, 2);
    put_u64(&mut v, m.seq_next as u64);
    put_u64(&mut v, 3);
    put_bytes(&mut v, &m.epoch);
    put_u64(&mut v, 4);
    put_bytes(&mut v, entries.as_slice());
    assert(v@ =~= export_of(m@, window(c, m.start as int, live(m@))));
    deliver(out, v.as_slice())
}

/// The bytes that a checkpoint signs.
pub open spec fn checkpoint_msg(head: Seq<u8>, seq_next: int, challenge: Seq<u8>) -> Seq<u8> {
    encode_utf8("RSK-AUDIT-CKPT-v1"@) + head + sdk::le32(seq_next) + challenge
}

/// A checkpoint: head, next sequence number, signature and public key.
pub open spec fn checkpoint_of(
    head: Seq<u8>,
    seq_next: int,
    sig: Seq<u8>,
    x: Seq<u8>,
    y: Seq<u8>,
) -> Seq<u8> {
    cbor::map(4) + cbor::uint(1) + cbor::bytes(head) + cbor::uint(2) + cbor::uint(seq_next)
        + cbor::uint(3) + cbor::bytes(sig) + cbor::uint(4) + cbor::bytes(seq![0x04u8] + x + y)
}

/// The checkpoint of the journal, or why there is none: a challenge of more
/// than 32 bytes, a device without a fused attestation root, no key.
pub open spec fn checkpoint_in(
    dev: Device,
    c: Map<u16, Seq<u8>>,
    devk: Option<Seq<u8>>,
    challenge: Seq<u8>,
) -> Result<Seq<u8>, CtapError> {
    if challenge.len() > 32 {
        Err(CtapError::InvalidParameter)
    } else {
        match devk {
            None => Err(CtapError::NotAllowed),
            Some(root) => match att_scalar(root, dev.serial_hash@, 0) {
                None => Err(CtapError::Other),
                Some(k) => {
                    let n = meta_in(dev, c).seq_next;
                    match crypto::p256_sign_of(k, checkpoint_msg(head_in(dev, c), n, challenge)) {
                        None => Err(CtapError::Other),
                        Some(sig) => Ok(
                            checkpoint_of(
                                head_in(dev, c),
                                n,
                                sig,
                                crypto::p256_public_of(k).0,
                                crypto::p256_public_of(k).1,
                            ),
                        ),
                    }
                },
            },
        }
    }
}

/// Builds the checkpoint of the journal.
fn checkpoint<S: Storage>(
    dev: &Device,
    fs: &mut Fs<S>,
    devk: Option<[u8; 32]>,
    challenge: &[u8],
) -> (r: Result<Vec<u8>, CtapError>)
    requires
        old(fs).wf(),
    ensures
        final(fs).wf(),
        final(fs).reread(old(fs)),
        match r {
            Ok(v) => checkpoint_in(*dev, old(fs).contents(), crypto::seen(devk), challenge@) == Ok::<
                Seq<u8>,
                CtapError,
            >(v@),
            Err(e) => checkpoint_in(*dev, old(fs).contents(), crypto::seen(devk), challenge@)
                == Err::<Seq<u8>, CtapError>(e),
        },
{
    if challenge.len() > 32 {
        return Err(CtapError::InvalidParameter);
    }
    let root: [u8; 32] = match devk {
        Some(k) => k,
        None => {
            return Err(CtapError::NotAllowed);
        },
    };
    let k: [u8; 32] = match attestation_key(&root, &dev.serial_hash) {
        Some(k) => k,
        None => {
            return Err(CtapError::Other);
        },
    };
    let (head, m) = chain_head(dev, fs);
    let mut msg: Vec<u8> = Vec::new();
    msg.extend_from_slice("RSK-AUDIT-CKPT-v1".as_bytes());
    msg.extend_from_slice(&head);
    msg.extend_from_slice(&le32_bytes(m.seq_next));
    msg.extend_from_slice(challenge);
    assert(msg@ =~= checkpoint_msg(head@, m.seq_next as int, challenge@));
    let sig: Vec<u8> = match p256_sign(&k, msg.as_slice()) {
        Some(s) => s,
        None => {
            return Err(CtapError::Other);
        },
    };
    let (x, y) = p256_public(&k);
    let mut point: Vec<u8> = Vec::new();
    point.push(0x04);
    point.extend_from_slice(&x);
    point.extend_from_slice(&y);
    assert(point@ =~= seq![0x04u8] + x@ + y@);
    let mut v: Vec<u8> = Vec::new();
    put_map(&mut v, 4);
    put_u64(&mut v, 1);
    put_bytes(&mut v, &head);
    put_u64(&mut v, 2);
    put_u64(&mut v, m.seq_next as u64);
    put_u64(&mut v, 3);
    put_bytes(&mut v, sig.as_slice());
    put_u64(&mut v, 4);
    put_bytes(&mut v, point.as_slice());
    assert(v@ =~= checkpoint_of(head@, m.seq_next as int, sig@, x@, y@));
    Ok(v)
}

/// Signs the chain head with the device attestation key and records the
/// checkpoint. The signed head is the one before that record.
pub fn vendor_checkpoint<S: Storage, R: Rng, P: UserPresence>(
    ctx: &mut Ctx<S, R, P>,
    challenge: &[u8],
    out: &mut [u8],
) -> (r: CtapResult)
    requires
        old(ctx).fs.wf(),
    ensures
        final(ctx).fs.wf(),
        match checkpoint_in(
            old(ctx).dev,
            old(ctx).fs.contents(),
            crypto::seen(old(ctx).state.devk),
            challenge@,
        ) {
            Ok(v) => reply::delivered(old(out)@, final(out)@, v, r),
            Err(e) => r == Err::<usize, CtapError>(e) && final(out)@ == old(out)@,
        },
        r is Ok ==> recorded(old(ctx), final(ctx), EV_CHECKPOINT, 0, Seq::empty()),
        r is Err ==> *final(ctx) == (Ctx { fs: final(ctx).fs, ..*old(ctx) }),
        r is Err ==> final(ctx).fs.reread(&old(ctx).fs),
{
    let v: Vec<u8> = checkpoint(&ctx.dev, &mut ctx.fs, ctx.state.devk, challenge)?;
    let r: CtapResult = deliver(out, v.as_slice());
    if r.is_ok() {
        let nothing: [u8; 0] = [];
        assert(nothing@ =~= Seq::<u8>::empty());
        let ghost read = *ctx;
        append(ctx, EV_CHECKPOINT, 0, &nothing);
        proof {
            lemma_recorded_reread(old(ctx), &read, ctx, EV_CHECKPOINT, 0, Seq::empty());
        }
    }
    r
}

/// Folding the exported entries from the exported epoch gives the head: what
/// the export shows is what a checkpoint signs.
pub proof fn law_export_folds_to_head(dev: Device, c: Map<u16, Seq<u8>>, n: nat)
    requires
        n <= live(meta_in(dev, c)),
    ensures
        fold_bytes(meta_in(dev, c).epoch, window(c, meta_in(dev, c).start, n)) == folded(
            c,
            meta_in(dev, c).epoch,
            meta_in(dev, c).start,
            n,
        ),
        window(c, meta_in(dev, c).start, n).len() % 20 == 0,
    decreases n,
{
    let m = meta_in(dev, c);
    if n > 0 {
        law_export_folds_to_head(dev, c, (n - 1) as nat);
        let w = window(c, m.start, (n - 1) as nat);
        match entry_in(c, wadd(m.start, n - 1)) {
            Some(e) => {
                lemma_fold_bytes_push(m.epoch, w, e);
            },
            None => {
                assert(window(c, m.start, n) =~= w);
            },
        }
    }
}

/// The chain over all of the entries.
pub open spec fn chain_over(h: Seq<u8>, es: Seq<Seq<u8>>) -> Seq<u8>
    decreases es.len(),
{
    if es.len() == 0 {
        h
    } else {
        chained(chain_over(h, es.drop_last()), es.last())
    }
}

/// An append that succeeds: the head is chained through the entry, the sequence
/// number counts up, the window starts one further where it was full, and every
/// other slot is as it was.
pub proof fn law_append_moves_window<S: Storage>(
    dev: Device,
    before: &Fs<S>,
    after: &Fs<S>,
    now_ms: int,
    ev: u8,
    aux: u8,
    detail: Seq<u8>,
)
    requires
        appended(dev, before, after, now_ms, ev, aux, detail, true),
    ensures
        ({
            let c = before.contents();
            let d = after.contents();
            let m = meta_in(dev, c);
            let e = entry_of(m.seq_next, now_ms, ev, aux, detail);
            &&& head_in(dev, d) == chained(head_in(dev, c), e)
            &&& meta_in(dev, d).seq_next == wadd(m.seq_next, 1)
            &&& meta_in(dev, d).start == (if live(m) < 128 {
                m.start
            } else {
                wadd(m.start, 1)
            })
            &&& entry_in(d, m.seq_next) == Some(e)
            &&& forall|x: int|
                slot_of(x) != slot_of(m.seq_next) ==> #[trigger] entry_in(d, x) == entry_in(c, x)
        }),
{
}

/// A journal that holds the first `es.len() - 1` entries and takes the next one.
proof fn lemma_one_more(
    dev: Device,
    c: Map<u16, Seq<u8>>,
    d: Map<u16, Seq<u8>>,
    es: Seq<Seq<u8>>,
)
    requires
        0 < es.len() < 0x1_0000_0000,
        holds_last(dev, c, es.drop_last()),
        entered(dev, c, d, es.last()),
    ensures
        holds_last(dev, d, es),
{
    let n = es.len() as int;
    lemma_entered_slots(dev, c, d, es.last());
    let m = meta_in(dev, d);
    assert(meta_in(dev, c).seq_next == n - 1);
    assert(m.seq_next == n);
    assert forall|x: int| m.start <= x < n implies #[trigger] entry_in(d, x) == Some(es[x]) by {
        if x < n - 1 {
            assert(entry_in(c, x) == Some(es.drop_last()[x]));
            lemma_slot_free(m.start, n - 1 - m.start, x - m.start);
            assert(wadd(m.start, x - m.start) == x);
            assert(wadd(m.start, n - 1 - m.start) == n - 1);
        }
    }
}

/// The journal holds the last of all the entries that it ever took: the head is
/// the chain over all of them, the window ends behind the last, and holds as many
/// as the ring has slots, each in its slot.
pub open spec fn holds_last(dev: Device, c: Map<u16, Seq<u8>>, es: Seq<Seq<u8>>) -> bool {
    let n = es.len() as int;
    let m = meta_in(dev, c);
    &&& m.seq_next == n
    &&& m.start == (if n <= 128 {
        0
    } else {
        n - 128
    })
    &&& head_in(dev, c) == chain_over(genesis_of(dev), es)
    &&& forall|x: int| m.start <= x < n ==> #[trigger] entry_in(c, x) == Some(es[x])
}

/// After `n` appends to an empty journal the head is the chain over all `n`
/// entries, those that left the ring too; the window ends at `n` and holds the
/// last entries, as many as the ring has slots, each in its slot.
pub proof fn law_journal_after_appends(
    dev: Device,
    cs: Seq<Map<u16, Seq<u8>>>,
    es: Seq<Seq<u8>>,
)
    requires
        cs.len() == es.len() + 1,
        es.len() < 0x1_0000_0000,
        meta_in(dev, cs[0]) == (MetaView { seq_next: 0, start: 0, epoch: genesis_of(dev) }),
        forall|i: int|
            #![trigger es[i]]
            0 <= i < es.len() ==> entered(dev, cs[i], cs[i + 1], es[i]),
    ensures
        holds_last(dev, cs.last(), es),
    decreases es.len(),
{
    let n = es.len() as int;
    if n > 0 {
        let c = cs[n - 1];
        assert forall|i: int| #![trigger es.drop_last()[i]]
            0 <= i < n - 1 implies entered(
            dev,
            cs.drop_last()[i],
            cs.drop_last()[i + 1],
            es.drop_last()[i],
        ) by {
            assert(es.drop_last()[i] == es[i]);
        }
        law_journal_after_appends(dev, cs.drop_last(), es.drop_last());
        assert(cs.drop_last().last() == c);
        assert(entered(dev, c, cs[n - 1 + 1], es[n - 1]));
        lemma_one_more(dev, c, cs.last(), es);
    }
}

/// `h` folded through the 20-byte entries of `b`.
pub open spec fn fold_bytes(h: Seq<u8>, b: Seq<u8>) -> Seq<u8>
    decreases b.len(),
{
    if b.len() < 20 {
        h
    } else {
        chained(fold_bytes(h, b.take(b.len() - 20)), b.skip(b.len() - 20))
    }
}

proof fn lemma_fold_bytes_push(h: Seq<u8>, b: Seq<u8>, e: Seq<u8>)
    requires
        e.len() == 20,
    ensures
        fold_bytes(h, b + e) == chained(fold_bytes(h, b), e),
{
    assert((b + e).take((b + e).len() - 20) =~= b);
    assert((b + e).skip((b + e).len() - 20) =~= e);
}

/// An entry: the sequence number, the uptime in milliseconds as far as it fits in
/// 32 bits, the event, its qualifier, the first eight bytes of the detail padded
/// with zeros, and two zero bytes.
pub proof fn law_entry_layout(seq: int, now_ms: int, ev: u8, aux: u8, detail: Seq<u8>)
    requires
        0 <= seq <= u32::MAX,
        0 <= now_ms,
    ensures
        ({
            let e = entry_of(seq, now_ms, ev, aux, detail);
            &&& e.len() == 20
            &&& sdk::le32_value(e.subrange(0, 4)) == seq
            &&& sdk::le32_value(e.subrange(4, 8)) == if now_ms <= u32::MAX {
                now_ms
            } else {
                u32::MAX as int
            }
            &&& e[8] == ev
            &&& e[9] == aux
            &&& detail.len() >= 8 ==> e.subrange(10, 18) == detail.take(8)
            &&& forall|i: int|
                0 <= i < 8 ==> #[trigger] e[10 + i] == if i < detail.len() {
                    detail[i]
                } else {
                    0
                }
            &&& e[18] == 0 && e[19] == 0
        }),
{
    let e = entry_of(seq, now_ms, ev, aux, detail);
    let t = if now_ms < u32::MAX {
        now_ms
    } else {
        u32::MAX as int
    };
    assert(e.subrange(0, 4) =~= sdk::le32(seq));
    assert(e.subrange(4, 8) =~= sdk::le32(t));
    sdk::law_le32_round_trip(seq);
    sdk::law_le32_round_trip(t);
    if detail.len() >= 8 {
        assert(e.subrange(10, 18) =~= detail.take(8));
    }
}

/// The chain starts at the digest of its label and the hash of the serial number,
/// and each entry that the journal takes makes the head the digest of the old head
/// and the entry.
pub proof fn law_chain_is_hashed(
    dev: Device,
    c: Map<u16, Seq<u8>>,
    d: Map<u16, Seq<u8>>,
    e: Seq<u8>,
)
    ensures
        genesis_of(dev) == crypto::sha256_of(
            encode_utf8("RSK-AUDIT-GENESIS-v1"@) + dev.serial_hash@,
        ),
        entered(dev, c, d, e) ==> head_in(dev, d) == crypto::sha256_of(head_in(dev, c) + e),
        entered(dev, c, d, e) && 0 <= meta_in(dev, c).seq_next < u32::MAX ==> meta_in(
            dev,
            d,
        ).seq_next == meta_in(dev, c).seq_next + 1,
{
}

/// The exported journal tells where the window starts, the next sequence number,
/// the epoch and the entries, each under its own key.
pub proof fn law_export_says(m: MetaView, entries: Seq<u8>)
    requires
        0 <= m.start <= u32::MAX,
        0 <= m.seq_next <= u32::MAX,
        m.epoch.len() <= u32::MAX,
        entries.len() <= u32::MAX,
    ensures
        ({
            let o = cborvalue::decoded(export_of(m, entries));
            &&& cborvalue::at(o, 1) == Some(Value::Int(m.start))
            &&& cborvalue::at(o, 2) == Some(Value::Int(m.seq_next))
            &&& cborvalue::at(o, 3) == Some(Value::Bytes(m.epoch))
            &&& cborvalue::at(o, 4) == Some(Value::Bytes(entries))
        }),
{
    let w = cbor::map(4);
    let e0 = Seq::<(Value, Value)>::empty();
    cborvalue::lemma_nothing(w);
    cborvalue::lemma_entry(w, e0, Value::Int(1), Value::Int(m.start));
    let e1 = e0.push((Value::Int(1), Value::Int(m.start)));
    cborvalue::lemma_entry(w, e1, Value::Int(2), Value::Int(m.seq_next));
    let e2 = e1.push((Value::Int(2), Value::Int(m.seq_next)));
    cborvalue::lemma_entry(w, e2, Value::Int(3), Value::Bytes(m.epoch));
    let e3 = e2.push((Value::Int(3), Value::Bytes(m.epoch)));
    cborvalue::lemma_entry(w, e3, Value::Int(4), Value::Bytes(entries));
    let e4 = e3.push((Value::Int(4), Value::Bytes(entries)));
    cborvalue::law_decoded(Value::Table(e4));
}

/// A checkpoint is given for a challenge of at most 32 bytes on a device with an
/// attestation root. It carries the head, the next sequence number, a signature
/// over the label, both of them and the challenge, and the public key of the
/// signature; the key is derived from the root and the hash of the serial number.
pub proof fn law_checkpoint_says(
    dev: Device,
    c: Map<u16, Seq<u8>>,
    devk: Option<Seq<u8>>,
    challenge: Seq<u8>,
)
    requires
        head_in(dev, c).len() <= u32::MAX,
        0 <= meta_in(dev, c).seq_next <= u32::MAX,
    ensures
        challenge.len() > 32 ==> checkpoint_in(dev, c, devk, challenge) is Err,
        devk is None ==> checkpoint_in(dev, c, devk, challenge) is Err,
        checkpoint_in(dev, c, devk, challenge) matches Ok(x) ==> exists|k: Seq<u8>, sig: Seq<u8>|
            {
                let n = meta_in(dev, c).seq_next;
                let pk = seq![4u8] + crypto::p256_public_of(k).0 + crypto::p256_public_of(k).1;
                &&& crypto::p256_scalar(k)
                &&& #[trigger] crypto::p256_sign_of(
                    k,
                    encode_utf8("RSK-AUDIT-CKPT-v1"@) + head_in(dev, c) + sdk::le32(
                        meta_in(dev, c).seq_next,
                    ) + challenge,
                ) == Some(sig)
                &&& #[trigger] sig.len() <= u32::MAX && pk.len() <= u32::MAX ==> {
                    let o = cborvalue::decoded(x);
                    &&& cborvalue::at(o, 1) == Some(Value::Bytes(head_in(dev, c)))
                    &&& cborvalue::at(o, 2) == Some(Value::Int(n))
                    &&& cborvalue::at(o, 3) == Some(Value::Bytes(sig))
                    &&& cborvalue::at(o, 4) == Some(Value::Bytes(pk))
                }
            },
{
    if checkpoint_in(dev, c, devk, challenge) is Ok {
        let k = att_scalar(devk->0, dev.serial_hash@, 0)->0;
        let n = meta_in(dev, c).seq_next;
        let h = head_in(dev, c);
        lemma_att_scalar(devk->0, dev.serial_hash@, 0);
        let msg = encode_utf8("RSK-AUDIT-CKPT-v1"@) + h + sdk::le32(n) + challenge;
        assert(msg == checkpoint_msg(h, n, challenge));
        let sig = crypto::p256_sign_of(k, msg)->0;
        let xy = crypto::p256_public_of(k);
        let pk = seq![4u8] + xy.0 + xy.1;
        if sig.len() <= u32::MAX && pk.len() <= u32::MAX {
            lemma_checkpoint_value(h, n, sig, xy.0, xy.1);
        }
        assert(crypto::p256_sign_of(k, msg) == Some(sig));
    }
}

proof fn lemma_checkpoint_value(
    head: Seq<u8>,
    n: int,
    sig: Seq<u8>,
    x: Seq<u8>,
    y: Seq<u8>,
)
    requires
        0 <= n <= u32::MAX,
        head.len() <= u32::MAX,
        sig.len() <= u32::MAX,
        (seq![4u8] + x + y).len() <= u32::MAX,
    ensures
        ({
            let o = cborvalue::decoded(checkpoint_of(head, n, sig, x, y));
            &&& cborvalue::at(o, 1) == Some(Value::Bytes(head))
            &&& cborvalue::at(o, 2) == Some(Value::Int(n))
            &&& cborvalue::at(o, 3) == Some(Value::Bytes(sig))
            &&& cborvalue::at(o, 4) == Some(Value::Bytes(seq![4u8] + x + y))
        }),
{
    let pk = seq![4u8] + x + y;
    let w = cbor::map(4);
    let e0 = Seq::<(Value, Value)>::empty();
    cborvalue::lemma_nothing(w);
    cborvalue::lemma_entry(w, e0, Value::Int(1), Value::Bytes(head));
    let e1 = e0.push((Value::Int(1), Value::Bytes(head)));
    cborvalue::lemma_entry(w, e1, Value::Int(2), Value::Int(n));
    let e2 = e1.push((Value::Int(2), Value::Int(n)));
    cborvalue::lemma_entry(w, e2, Value::Int(3), Value::Bytes(sig));
    let e3 = e2.push((Value::Int(3), Value::Bytes(sig)));
    cborvalue::lemma_entry(w, e3, Value::Int(4), Value::Bytes(pk));
    let e4 = e3.push((Value::Int(4), Value::Bytes(pk)));
    cborvalue::law_decoded(Value::Table(e4));
}

/// The key of checkpoints is the first P-256 scalar among eight derivations, each
/// from the root, the hash of the serial number and a numbered label.
proof fn lemma_att_scalar(devk: Seq<u8>, serial_hash: Seq<u8>, i: int)
    requires
        0 <= i,
    ensures
        att_scalar(devk, serial_hash, i) matches Some(k) ==> crypto::p256_scalar(k) && exists|j: int|
            i <= j < 8 && k == #[trigger] crypto::hkdf_sha256_of(
                serial_hash,
                devk,
                encode_utf8("RSK audit attestation v1"@).push(j as u8),
                32,
            ),
    decreases 8 - i,
{
    if i < 8 {
        let a = crypto::hkdf_sha256_of(
            serial_hash,
            devk,
            encode_utf8("RSK audit attestation v1"@).push(i as u8),
            32,
        );
        assert(att_attempt(devk, serial_hash, i) == a);
        if !crypto::p256_scalar(a) {
            lemma_att_scalar(devk, serial_hash, i + 1);
        }
    }
}

/// The view of the journal starts with the newest entry of the window and goes on
/// with those before it; of each it shows the uptime and the event.
pub proof fn law_newest_first(c: Map<u16, Seq<u8>>, seq: int, n: nat, e: Seq<u8>)
    requires
        n > 0,
        entry_in(c, wadd(seq, n - 1)) == Some(e),
    ensures
        newest_first(c, seq, n).len() > 0,
        newest_first(c, seq, n)[0].event == e[8],
        0 <= sdk::le32_value(e.subrange(4, 8)) <= u32::MAX ==> newest_first(c, seq, n)[0].uptime_ms
            == sdk::le32_value(e.subrange(4, 8)),
        newest_first(c, seq, n).subrange(1, newest_first(c, seq, n).len() as int) == newest_first(
            c,
            seq,
            (n - 1) as nat,
        ),
{
    let all = newest_first(c, seq, n);
    let rest = newest_first(c, seq, (n - 1) as nat);
    assert(all == seq![view_of(e)] + rest);
    assert(all.subrange(1, all.len() as int) =~= rest);
}

/// The window that is exported is its entries one after the other, oldest first.
pub proof fn law_window(c: Map<u16, Seq<u8>>, seq: int, n: nat, e: Seq<u8>)
    requires
        n > 0,
        entry_in(c, wadd(seq, n - 1)) == Some(e),
    ensures
        window(c, seq, n) == window(c, seq, (n - 1) as nat) + e,
        e.len() == 20,
        slot_of(wadd(seq, n - 1)) == (0xc110 + wadd(seq, n - 1) % 128) as u16,
{
}

}
