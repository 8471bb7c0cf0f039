//! `authenticatorLargeBlobs`: an opaque serialized array that the platform
//! manages. `get` reads a fragment at an offset; `set` collects fragments over
//! several commands and commits once the whole array has arrived and its
//! trailing 16 bytes are the left half of the SHA-256 digest of the rest.

use vstd::prelude::*;
use vstd::slice::slice_subrange;

use crate::cbor;
use crate::cbor::{put_bytes, put_map, put_u64};
use crate::cborvalue;
use crate::cborvalue::Value;
use crate::crypto;
use crate::crypto::sha256;
use crate::fido::cbordec;
use crate::fido::cbordec::{def_map, skip_item, take_bytes, take_u64};
use crate::fido::consts::{
    CTAP_LARGE_BLOBS, EF_LARGEBLOB, MAX_FRAGMENT_LENGTH, MAX_LARGE_BLOB_SIZE,
};
use crate::fido::error::{CtapError, CtapResult};
use crate::fido::pinproto;
use crate::fido::pinproto::PinProto;
use crate::fido::reply;
use crate::fido::reply::deliver;
use crate::fido::seed;
use crate::fido::state;
use crate::fido::state::{puat_subcommand_msg, FidoState, LargeBlobState, PERM_LBW};
use crate::fido::{Ctx, Rng, UserPresence};
use crate::fs::file_system;
use crate::fs::{Fs, Storage};
use crate::sdk;
use crate::sdk::{le32_bytes, same_bytes};

verus! {

/// A request.
pub struct Req<'a> {
    /// Number of bytes to read.
    pub get: Option<u64>,
    /// Fragment to write.
    pub set: Option<&'a [u8]>,
    pub offset: Option<u64>,
    /// Length of the whole array, with the first fragment; zero elsewhere.
    pub length: u64,
    pub pin_uv_auth_param: Option<&'a [u8]>,
    /// PIN/UV auth protocol; zero where there is none.
    pub proto: u64,
}

/// What a request says.
#[verifier::ext_equal]
pub struct ReqView {
    pub get: Option<int>,
    pub set: Option<Seq<u8>>,
    pub offset: Option<int>,
    pub length: int,
    pub param: Option<Seq<u8>>,
    pub proto: int,
}

/// The bytes of an optional string.
pub open spec fn opt_bytes(o: Option<&[u8]>) -> Option<Seq<u8>> {
    match o {
        Some(b) => Some(b@),
        None => None,
    }
}

/// The value of an optional number.
pub open spec fn opt_int(o: Option<u64>) -> Option<int> {
    match o {
        Some(n) => Some(n as int),
        None => None,
    }
}

impl<'a> View for Req<'a> {
    type V = ReqView;

    open spec fn view(&self) -> ReqView {
        ReqView {
            get: opt_int(self.get),
            set: opt_bytes(self.set),
            offset: opt_int(self.offset),
            length: self.length as int,
            param: opt_bytes(self.pin_uv_auth_param),
            proto: self.proto as int,
        }
    }
}

/// A request that says nothing.
pub open spec fn empty_req() -> ReqView {
    ReqView { get: None, set: None, offset: None, length: 0, param: None, proto: 0 }
}

/// The member of key `key` at `pos`, entered into the request.
pub open spec fn member(s: Seq<u8>, pos: int, key: int, v: ReqView) -> cbordec::Taken<ReqView> {
    if key == 1 {
        match cbordec::u64_item(s, pos) {
            Ok((n, p)) => Ok((ReqView { get: Some(n), ..v }, p)),
            Err(e) => Err(e),
        }
    } else if key == 2 {
        match cbordec::bytes_item(s, pos) {
            Ok((b, p)) => Ok((ReqView { set: Some(b), ..v }, p)),
            Err(e) => Err(e),
        }
    } else if key == 3 {
        match cbordec::u64_item(s, pos) {
            Ok((n, p)) => Ok(
                (
                    ReqView {
                        offset: if n == u64::MAX {
                            None
                        } else {
                            Some(n)
                        },
                        ..v
                    },
                    p,
                ),
            ),
            Err(e) => Err(e),
        }
    } else if key == 4 {
        match cbordec::u64_item(s, pos) {
            Ok((n, p)) => Ok((ReqView { length: n, ..v }, p)),
            Err(e) => Err(e),
        }
    } else if key == 5 {
        match cbordec::bytes_item(s, pos) {
            Ok((b, p)) => Ok((ReqView { param: Some(b), ..v }, p)),
            Err(e) => Err(e),
        }
    } else if key == 6 {
        match cbordec::u64_item(s, pos) {
            Ok((n, p)) => Ok((ReqView { proto: n, ..v }, p)),
            Err(e) => Err(e),
        }
    } else {
        match cbordec::any_item(s, pos) {
            Ok(p) => Ok((v, p)),
            Err(e) => Err(e),
        }
    }
}

/// `left` members from `pos` on, their keys ascending from `expected`, entered
/// into the request.
pub open spec fn members(s: Seq<u8>, pos: int, left: nat, expected: int, v: ReqView) -> Result<
    ReqView,
    CtapError,
>
    decreases left,
{
    if left == 0 {
        Ok(v)
    } else {
        match cbordec::u64_item(s, pos) {
            Err(e) => Err(e),
            Ok((key, p)) => if key < expected || key == u64::MAX {
                Err(CtapError::InvalidCbor)
            } else {
                match member(s, p, key, v) {
                    Err(e) => Err(e),
                    Ok((w, q)) => members(s, q, (left - 1) as nat, key + 1, w),
                }
            },
        }
    }
}

/// The request that the bytes write.
pub open spec fn request(s: Seq<u8>) -> Result<ReqView, CtapError> {
    match cbordec::map_item(s, 0) {
        Err(e) => Err(e),
        Ok((n, pos)) => members(s, pos, n as nat, 1, empty_req()),
    }
}

/// The outcome of parsing, seen as a request.
pub open spec fn seen_req(r: Result<Req<'_>, CtapError>) -> Result<ReqView, CtapError> {
    match r {
        Ok(q) => Ok(q@),
        Err(e) => Err(e),
    }
}

/// Parses a request.
pub fn parse(data: &[u8]) -> (r: Result<Req<'_>, CtapError>)
    ensures
        seen_req(r) == request(data@),
        r matches Ok(q) ==> q.offset != Some(u64::MAX),
{
    let mut req = Req {
        get: None,
        set: None,
        offset: None,
        length: 0,
        pin_uv_auth_param: None,
        proto: 0,
    };
    let (n, first) = def_map(data, 0)?;
    let mut pos: usize = first;
    let mut expected: u64 = 1;
    let mut i: u64 = 0;
    assert(req@ =~= empty_req());
    while i < n
        invariant
            i <= n,
            request(data@) == members(
                data@,
                pos as int,
                (n - i) as nat,
                expected as int,
                req@,
            ),
            req.offset != Some(u64::MAX),
        decreases n - i,
    {
        let (key, p) = take_u64(data, pos)?;
        if key < expected {
            return Err(CtapError::InvalidCbor);
        }
        if key == u64::MAX {
            return Err(CtapError::InvalidCbor);
        }
        expected = key + 1;
        match key {
            1 => {
                let (v, q) = take_u64(data, p)?;
                req.get = Some(v);
                pos = q;
            },
            2 => {
                let (v, q) = take_bytes(data, p)?;
                req.set = Some(v);
                pos = q;
            },
            3 => {
                let (v, q) = take_u64(data, p)?;
                req.offset = if v == u64::MAX {
                    None
                } else {
                    Some(v)
                };
                pos = q;
            },
            4 => {
                let (v, q) = take_u64(data, p)?;
                req.length = v;
                pos = q;
            },
            5 => {
                let (v, q) = take_bytes(data, p)?;
                req.pin_uv_auth_param = Some(v);
                pos = q;
            },
            6 => {
                let (v, q) = take_u64(data, p)?;
                req.proto = v;
                pos = q;
            },
            _ => {
                pos = skip_item(data, p)?;
            },
        }
        i += 1;
    }
    Ok(req)
}

// ---- reading ----
/// The stored array, as far as it is read.
pub open spec fn stored(c: Map<u16, Seq<u8>>) -> Seq<u8> {
    if c.contains_key(EF_LARGEBLOB) {
        file_system::clipped(c[EF_LARGEBLOB], MAX_LARGE_BLOB_SIZE as nat)
    } else {
        Seq::empty()
    }
}

/// The response to a read.
pub open spec fn fragment_reply(fragment: Seq<u8>) -> Seq<u8> {
    cbor::map(1) + cbor::uint(0x01) + cbor::bytes(fragment)
}

/// At most `get` bytes of the array from `offset` on; refused where the offset
/// lies beyond the array or a length is given.
pub open spec fn read_of(c: Map<u16, Seq<u8>>, get: int, offset: int, length: int) -> Result<
    Seq<u8>,
    CtapError,
> {
    let blob = stored(c);
    if length != 0 || offset > blob.len() {
        Err(CtapError::InvalidParameter)
    } else if get <= blob.len() - offset {
        Ok(blob.subrange(offset, offset + get))
    } else {
        Ok(blob.skip(offset))
    }
}

/// Reads a fragment.
fn read_fragment<S: Storage>(
    fs: &mut Fs<S>,
    get: u64,
    offset: u64,
    length: u64,
    out: &mut [u8],
) -> (r: CtapResult)
    requires
        old(fs).wf(),
    ensures
        final(fs).wf(),
        final(fs).reread(old(fs)),
        match read_of(old(fs).contents(), get as int, offset as int, length as int) {
            Ok(f) => reply::delivered(old(out)@, final(out)@, fragment_reply(f), r),
            Err(e) => r == Err::<usize, CtapError>(e) && final(out)@ == old(out)@,
        },
{
    if length != 0 {
        return Err(CtapError::InvalidParameter);
    }
    let blob: Vec<u8> = match fs.read_upto(EF_LARGEBLOB, MAX_LARGE_BLOB_SIZE) {
        Some(b) => b,
        None => Vec::new(),
    };
    assert(blob@ == stored(old(fs).contents()));
    let size: usize = blob.len();
    if offset > size as u64 {
        return Err(CtapError::InvalidParameter);
    }
    let start: usize = offset as usize;
    let end: usize = if get <= (size - start) as u64 {
        start + get as usize
    } else {
        size
    };
    let mut v: Vec<u8> = Vec::new();
    put_map(&mut v, 1);
    put_u64(&mut v, 0x01);
    put_bytes(&mut v, slice_subrange(blob.as_slice(), start, end));
    proof {
        assert(blob@.subrange(start as int, size as int) =~= blob@.skip(start as int));
        assert(v@ =~= fragment_reply(blob@.subrange(start as int, end as int)));
    }
    deliver(out, v.as_slice())
}

// ---- writing ----
/// The buffer of a write: length of the array, bytes collected, contents.
#[verifier::ext_equal]
pub struct Buffer {
    pub len: int,
    pub next: int,
    pub temp: Seq<u8>,
}

/// The buffer that the state holds.
pub open spec fn buffer(l: LargeBlobState) -> Buffer {
    Buffer {
        len: l.expected_length as int,
        next: l.expected_next_offset as int,
        temp: l.temp@,
    }
}

/// The buffer once the length was announced: the fragment at offset zero starts
/// a new array of 17 to 2048 bytes, a later one announces nothing.
pub open spec fn announce(b: Buffer, offset: int, length: int) -> Result<Buffer, CtapError> {
    if offset == 0 {
        if length > MAX_LARGE_BLOB_SIZE {
            Err(CtapError::LargeBlobStorageFull)
        } else if length < 17 {
            Err(CtapError::InvalidParameter)
        } else {
            Ok(Buffer { len: length, next: 0, ..b })
        }
    } else if length != 0 {
        Err(CtapError::InvalidParameter)
    } else {
        Ok(b)
    }
}

/// The message that authenticates a fragment.
pub open spec fn fragment_msg(offset: int, set: Seq<u8>) -> Seq<u8> {
    state::puat_msg(CTAP_LARGE_BLOBS, 0x00, sdk::le32(offset) + crypto::sha256_of(set))
}

/// Why a fragment is refused that follows the announced length: out of
/// sequence, not authenticated for large-blob writes, or too long.
pub open spec fn refusal(
    b: Buffer,
    token: Seq<u8>,
    permissions: u8,
    q: ReqView,
    offset: int,
    set: Seq<u8>,
) -> Option<CtapError> {
    if offset != b.next {
        Some(CtapError::InvalidSeq)
    } else if q.param is None {
        Some(CtapError::PuatRequired)
    } else if q.proto == 0 {
        Some(CtapError::MissingParameter)
    } else {
        match pinproto::proto_of(q.proto) {
            None => Some(CtapError::InvalidParameter),
            Some(p) => if q.param->0 != pinproto::mac(p, token, fragment_msg(offset, set))
                || permissions & PERM_LBW == 0 {
                Some(CtapError::PinAuthInvalid)
            } else if offset + set.len() > b.len {
                Some(CtapError::InvalidParameter)
            } else {
                None
            },
        }
    }
}

/// The buffer once a fragment was taken: a fragment at offset zero clears what
/// was there.
pub open spec fn collect(b: Buffer, set: Seq<u8>) -> Buffer {
    let base = if b.next == 0 {
        state::zeros(2048)
    } else {
        b.temp
    };
    Buffer {
        len: b.len,
        next: b.next + set.len(),
        temp: base.take(b.next) + set + base.skip(b.next + set.len()),
    }
}

/// The collected array carries its digest; an array of 17 bytes need not.
pub open spec fn intact(blob: Seq<u8>) -> bool {
    blob.len() <= 17 || blob.skip(blob.len() - 16) == crypto::sha256_of(
        blob.take(blob.len() - 16),
    ).take(16)
}

/// What a write answers, and the buffer that it leaves: `Ok(None)` where more
/// is to come, `Ok(Some(blob))` where the array is complete and to be stored.
pub open spec fn write_of(
    b: Buffer,
    token: Seq<u8>,
    permissions: u8,
    q: ReqView,
    offset: int,
    set: Seq<u8>,
) -> (Result<Option<Seq<u8>>, CtapError>, Buffer) {
    if set.len() > MAX_FRAGMENT_LENGTH {
        (Err(CtapError::InvalidLength), b)
    } else {
        match announce(b, offset, q.length) {
            Err(e) => (Err(e), b),
            Ok(a) => match refusal(a, token, permissions, q, offset, set) {
                Some(e) => (Err(e), a),
                None => {
                    let f = collect(a, set);
                    if f.next < f.len {
                        (Ok(None), f)
                    } else if !intact(f.temp.take(f.len)) {
                        (Err(CtapError::IntegrityFailure), f)
                    } else {
                        (Ok(Some(f.temp.take(f.len))), f)
                    }
                },
            },
        }
    }
}

/// Checks a fragment that follows the announced length.
fn check_fragment(st: &FidoState, req: &Req, offset: u64, set: &[u8]) -> (r: Result<
    (),
    CtapError,
>)
    requires
        st.lba.wf(),
    ensures
        match r {
            Ok(()) => refusal(
                buffer(st.lba),
                st.paut.token@,
                st.paut.permissions,
                req@,
                offset as int,
                set@,
            ) is None,
            Err(e) => refusal(
                buffer(st.lba),
                st.paut.token@,
                st.paut.permissions,
                req@,
                offset as int,
                set@,
            ) == Some(e),
        },
{
    if offset != st.lba.expected_next_offset as u64 {
        return Err(CtapError::InvalidSeq);
    }
    let param: &[u8] = match req.pin_uv_auth_param {
        Some(p) => p,
        None => {
            return Err(CtapError::PuatRequired);
        },
    };
    if req.proto == 0 {
        return Err(CtapError::MissingParameter);
    }
    let proto: PinProto = match PinProto::from_u64(req.proto) {
        Some(p) => p,
        None => {
            return Err(CtapError::InvalidParameter);
        },
    };
    let mut tail: Vec<u8> = Vec::new();
    tail.extend_from_slice(&le32_bytes(offset as u32));
    tail.extend_from_slice(&sha256(set));
    assert(tail@ =~= sdk::le32(offset as int) + crypto::sha256_of(set@));
    let msg: Vec<u8> = puat_subcommand_msg(CTAP_LARGE_BLOBS, 0x00, tail.as_slice());
    if !st.verify_token(proto, msg.as_slice(), param) || st.paut.permissions & PERM_LBW == 0 {
        return Err(CtapError::PinAuthInvalid);
    }
    if set.len() > st.lba.expected_length - st.lba.expected_next_offset {
        return Err(CtapError::InvalidParameter);
    }
    Ok(())
}

/// Takes a fragment into the buffer.
fn take_fragment(l: &mut LargeBlobState, set: &[u8])
    requires
        old(l).wf(),
        old(l).expected_next_offset + set@.len() <= old(l).expected_length,
    ensures
        final(l).wf(),
        buffer(*final(l)) == collect(buffer(*old(l)), set@),
{
    let next: usize = l.expected_next_offset;
    if next == 0 {
        l.temp = [0u8; 2048];
        assert(l.temp@ =~= state::zeros(2048));
    }
    let ghost base = l.temp@;
    let n: usize = set.len();
    let mut i: usize = 0;
    while i < n
        invariant
            i <= n,
            n == set@.len(),
            next + n <= 2048,
            base.len() == 2048,
            l.expected_length == old(l).expected_length,
            l.expected_next_offset == next,
            forall|x: int|
                0 <= x < 2048 ==> #[trigger] l.temp@[x] == (if next <= x < next + i {
                    set@[x - next]
                } else {
                    base[x]
                }),
        decreases n - i,
    {
        l.temp[next + i] = set[i];
        i += 1;
    }
    l.expected_next_offset = next + n;
    assert(l.temp@ =~= base.take(next as int) + set@ + base.skip(next + n));
}

/// Whether a complete array carries its digest.
fn is_intact(blob: &[u8]) -> (r: bool)
    requires
        blob@.len() >= 17,
    ensures
        r == intact(blob@),
{
    let n: usize = blob.len();
    if n == 17 {
        return true;
    }
    let body: &[u8] = slice_subrange(blob, 0, n - 16);
    assert(body@ =~= blob@.take(n - 16));
    let digest: [u8; 32] = sha256(body);
    let left: &[u8] = slice_subrange(&digest, 0, 16);
    assert(left@ =~= digest@.take(16));
    let tail: &[u8] = slice_subrange(blob, n - 16, n);
    assert(tail@ =~= blob@.skip(n - 16));
    same_bytes(left, tail)
}

/// The state with another large-blob buffer.
pub open spec fn with_buffer(st: FidoState, l: LargeBlobState) -> FidoState {
    FidoState { lba: l, ..st }
}

/// Writes a fragment: the buffer becomes what `write_of` says, and a complete
/// array is stored. Nothing else of the context changes.
pub fn write_fragment<S: Storage, R: Rng, P: UserPresence>(
    ctx: &mut Ctx<S, R, P>,
    req: &Req,
    offset: u64,
    set: &[u8],
) -> (r: CtapResult)
    requires
        old(ctx).wf(),
    ensures
        final(ctx).wf(),
        ({
            let w = write_of(
                buffer(old(ctx).state.lba),
                old(ctx).state.paut.token@,
                old(ctx).state.paut.permissions,
                req@,
                offset as int,
                set@,
            );
            &&& buffer(final(ctx).state.lba) == w.1
            &&& *final(ctx) == (Ctx {
                fs: final(ctx).fs,
                state: with_buffer(old(ctx).state, final(ctx).state.lba),
                ..*old(ctx)
            })
            &&& match w.0 {
                Err(e) => r == Err::<usize, CtapError>(e) && final(ctx).fs == old(ctx).fs,
                Ok(None) => r == Ok::<usize, CtapError>(0) && final(ctx).fs == old(ctx).fs,
                Ok(Some(blob)) => {
                    &&& seed::file_written(
                        &old(ctx).fs,
                        &final(ctx).fs,
                        EF_LARGEBLOB,
                        blob,
                        r is Ok,
                    )
                    &&& r == Ok::<usize, CtapError>(0) || r == Err::<usize, CtapError>(
                        CtapError::Other,
                    )
                },
            }
        }),
{
    if set.len() > MAX_FRAGMENT_LENGTH {
        return Err(CtapError::InvalidLength);
    }
    if offset == 0 {
        if req.length > MAX_LARGE_BLOB_SIZE as u64 {
            return Err(CtapError::LargeBlobStorageFull);
        }
        if req.length < 17 {
            return Err(CtapError::InvalidParameter);
        }
        ctx.state.lba.expected_length = req.length as usize;
        ctx.state.lba.expected_next_offset = 0;
    } else if req.length != 0 {
        return Err(CtapError::InvalidParameter);
    }
    assert(announce(buffer(old(ctx).state.lba), offset as int, req.length as int) == Ok::<
        Buffer,
        CtapError,
    >(buffer(ctx.state.lba)));
    check_fragment(&ctx.state, req, offset, set)?;
    take_fragment(&mut ctx.state.lba, set);
    let total: usize = ctx.state.lba.expected_length;
    if ctx.state.lba.expected_next_offset == total {
        let blob: &[u8] = slice_subrange(&ctx.state.lba.temp, 0, total);
        assert(blob@ =~= ctx.state.lba.temp@.take(total as int));
        if !is_intact(blob) {
            return Err(CtapError::IntegrityFailure);
        }
        match ctx.fs.put(EF_LARGEBLOB, blob) {
            Ok(()) => Ok(0),
            Err(_) => Err(CtapError::Other),
        }
    } else {
        Ok(0)
    }
}

/// The outcome of a request: refused for its form, a fragment of the stored
/// array, or a fragment taken into the buffer and, with the last one, the array
/// stored.
pub open spec fn outcome<S: Storage, R: Rng, P: UserPresence>(
    before: &Ctx<S, R, P>,
    after: &Ctx<S, R, P>,
    data: Seq<u8>,
    out_before: Seq<u8>,
    out_after: Seq<u8>,
    r: CtapResult,
) -> bool {
    match request(data) {
        Err(e) => r == Err::<usize, CtapError>(e) && *after == *before && out_after
            == out_before,
        Ok(q) => if q.offset is None || q.get is Some == q.set is Some {
            r == Err::<usize, CtapError>(CtapError::InvalidParameter) && *after == *before && out_after == out_before
        } else if q.get is Some {
            &&& *after == (Ctx { fs: after.fs, ..*before })
            &&& after.fs.reread(&before.fs)
            &&& match read_of(before.fs.contents(), q.get->0, q.offset->0, q.length) {
                Ok(f) => reply::delivered(out_before, out_after, fragment_reply(f), r),
                Err(e) => r == Err::<usize, CtapError>(e) && out_after == out_before,
            }
        } else {
            let w = write_of(
                buffer(before.state.lba),
                before.state.paut.token@,
                before.state.paut.permissions,
                q,
                q.offset->0,
                q.set->0,
            );
            &&& out_after == out_before
            &&& buffer(after.state.lba) == w.1
            &&& *after == (Ctx {
                fs: after.fs,
                state: with_buffer(before.state, after.state.lba),
                ..*before
            })
            &&& match w.0 {
                Err(e) => r == Err::<usize, CtapError>(e) && after.fs == before.fs,
                Ok(None) => r == Ok::<usize, CtapError>(0) && after.fs == before.fs,
                Ok(Some(blob)) => {
                    &&& seed::file_written(
                        &before.fs,
                        &after.fs,
                        EF_LARGEBLOB,
                        blob,
                        r is Ok,
                    )
                    &&& r == Ok::<usize, CtapError>(0) || r == Err::<usize, CtapError>(
                        CtapError::Other,
                    )
                },
            }
        },
    }
}

/// Reads or writes a fragment of the large-blob array. The offset is mandatory,
/// and the request is either a read or a write; reading zero bytes is a read.
pub fn large_blobs<S: Storage, R: Rng, P: UserPresence>(
    ctx: &mut Ctx<S, R, P>,
    data: &[u8],
    out: &mut [u8],
) -> (r: CtapResult)
    requires
        old(ctx).wf(),
    ensures
        final(ctx).wf(),
        final(out)@.len() == old(out)@.len(),
        r matches Ok(n) ==> n <= old(out)@.len(),
        outcome(old(ctx), final(ctx), data@, old(out)@, final(out)@, r),
{
    let req: Req = parse(data)?;
    let offset: u64 = match req.offset {
        Some(o) => o,
        None => {
            return Err(CtapError::InvalidParameter);
        },
    };
    match req.get {
        Some(n) => {
            if req.set.is_some() {
                return Err(CtapError::InvalidParameter);
            }
            read_fragment(&mut ctx.fs, n, offset, req.length, out)
        },
        None => match req.set {
            Some(set) => write_fragment(ctx, &req, offset, set),
            None => Err(CtapError::InvalidParameter),
        },
    }
}

// ---- laws ----
/// One write: the request with its offset and fragment, and the token that it is
/// checked with.
pub struct Write {
    pub token: Seq<u8>,
    pub permissions: u8,
    pub q: ReqView,
    pub offset: int,
    pub set: Seq<u8>,
}

/// What a write answers, and the buffer that it leaves.
pub open spec fn written(b: Buffer, w: Write) -> (Result<Option<Seq<u8>>, CtapError>, Buffer) {
    write_of(b, w.token, w.permissions, w.q, w.offset, w.set)
}

/// A write at offset zero announced a length that is taken, so that the array
/// starts over.
pub open spec fn starts_over(b: Buffer, w: Write) -> bool {
    w.set.len() <= MAX_FRAGMENT_LENGTH && w.offset == 0 && announce(b, 0, w.q.length) is Ok
}

/// The fragment of a write is taken.
pub open spec fn takes(b: Buffer, w: Write) -> bool {
    w.set.len() <= MAX_FRAGMENT_LENGTH && match announce(b, w.offset, w.q.length) {
        Err(_) => false,
        Ok(a) => refusal(a, w.token, w.permissions, w.q, w.offset, w.set) is None,
    }
}

/// The fragments that were taken since the array last started over, one after the
/// other, once a write was made.
pub open spec fn joined(p: Seq<u8>, b: Buffer, w: Write) -> Seq<u8> {
    let base = if starts_over(b, w) {
        Seq::empty()
    } else {
        p
    };
    if takes(b, w) {
        base + w.set
    } else {
        base
    }
}

/// The buffer is in order.
pub open spec fn sound(b: Buffer) -> bool {
    &&& 0 <= b.next <= b.len <= 2048
    &&& b.len == 0 || b.len >= 17
    &&& b.temp.len() == 2048
}

proof fn lemma_write(b: Buffer, w: Write)
    requires
        sound(b),
    ensures
        sound(written(b, w).1),
        written(b, w).1.temp.take(written(b, w).1.next) == joined(b.temp.take(b.next), b, w),
        starts_over(b, w) ==> written(b, w).1.len == w.q.length,
        !starts_over(b, w) ==> written(b, w).1.len == b.len,
        takes(b, w) ==> written(b, w).1.len >= 17,
        written(b, w).0 matches Ok(x) ==> takes(b, w) && (x is Some <==> written(b, w).1.next
            == written(b, w).1.len),
{
    let f = written(b, w).1;
    assert(b.temp.take(0) =~= Seq::<u8>::empty());
    if takes(b, w) {
        let a = announce(b, w.offset, w.q.length)->Ok_0;
        law_fragments_concatenate(a, w.set);
    }
    assert(f.temp.take(f.next) =~= joined(b.temp.take(b.next), b, w));
}

/// A run of writes: whatever was refused in between, the buffer holds the
/// fragments that were taken since the array last started over, one after the
/// other. A write that completes the array hands on exactly these, as many as were
/// announced and intact; every other write hands on nothing.
pub proof fn law_run_of_writes(bs: Seq<Buffer>, ws: Seq<Write>, ps: Seq<Seq<u8>>)
    requires
        bs.len() == ws.len() + 1,
        ps.len() == ws.len() + 1,
        sound(bs[0]),
        ps[0] == bs[0].temp.take(bs[0].next),
        forall|i: int|
            #![trigger ws[i]]
            0 <= i < ws.len() ==> bs[i + 1] == written(bs[i], ws[i]).1 && ps[i + 1] == joined(
                ps[i],
                bs[i],
                ws[i],
            ),
    ensures
        forall|i: int|
            0 <= i < bs.len() ==> sound(#[trigger] bs[i]) && bs[i].temp.take(bs[i].next) == ps[i],
        forall|i: int|
            #![trigger ws[i]]
            0 <= i < ws.len() ==> match written(bs[i], ws[i]).0 {
                Ok(Some(blob)) => {
                    &&& blob == ps[i + 1]
                    &&& blob.len() == bs[i + 1].len
                    &&& 17 <= blob.len() <= MAX_LARGE_BLOB_SIZE
                    &&& intact(blob)
                },
                Ok(None) => ps[i + 1].len() < bs[i + 1].len,
                Err(_) => true,
            },
    decreases ws.len(),
{
    if ws.len() > 0 {
        let n = ws.len() - 1;
        assert forall|i: int| #![trigger ws.drop_last()[i]]
            0 <= i < n implies bs.drop_last()[i + 1] == written(
            bs.drop_last()[i],
            ws.drop_last()[i],
        ).1 && ps.drop_last()[i + 1] == joined(
            ps.drop_last()[i],
            bs.drop_last()[i],
            ws.drop_last()[i],
        ) by {
            assert(ws.drop_last()[i] == ws[i]);
        }
        law_run_of_writes(bs.drop_last(), ws.drop_last(), ps.drop_last());
        assert forall|i: int| 0 <= i < bs.len() implies sound(#[trigger] bs[i])
            && bs[i].temp.take(bs[i].next) == ps[i] by {
            if i <= n {
                assert(bs.drop_last()[i] == bs[i]);
                assert(ps.drop_last()[i] == ps[i]);
            } else {
                assert(bs.drop_last()[n] == bs[n]);
                assert(ps.drop_last()[n] == ps[n]);
                assert(bs[n + 1] == written(bs[n], ws[n]).1);
                lemma_write(bs[n], ws[n]);
            }
        }
        assert forall|i: int| #![trigger ws[i]]
            0 <= i < ws.len() implies (match written(bs[i], ws[i]).0 {
            Ok(Some(blob)) => {
                &&& blob == ps[i + 1]
                &&& blob.len() == bs[i + 1].len
                &&& 17 <= blob.len() <= MAX_LARGE_BLOB_SIZE
                &&& intact(blob)
            },
            Ok(None) => ps[i + 1].len() < bs[i + 1].len,
            Err(_) => true,
        }) by {
            lemma_write(bs[i], ws[i]);
            assert(sound(bs[i]) && sound(bs[i + 1]));
            assert(bs[i + 1].temp.take(bs[i + 1].next) == ps[i + 1]);
        }
    }
}

/// The stored array changes only where a write completes it and is answered with
/// success; it then holds what the write hands on, between 17 bytes and the
/// largest size. On every refusal, and while more is to come, it stays.
pub proof fn law_only_a_complete_array_is_stored<S: Storage, R: Rng, P: UserPresence>(
    before: &Ctx<S, R, P>,
    after: &Ctx<S, R, P>,
    data: Seq<u8>,
    out_before: Seq<u8>,
    out_after: Seq<u8>,
    r: CtapResult,
)
    requires
        before.wf(),
        outcome(before, after, data, out_before, out_after, r),
    ensures
        after.fs.contents() == before.fs.contents() || {
            &&& r == Ok::<usize, CtapError>(0)
            &&& request(data) is Ok
            &&& ({
                let q = request(data)->Ok_0;
                let w = Write {
                    token: before.state.paut.token@,
                    permissions: before.state.paut.permissions,
                    q,
                    offset: q.offset->0,
                    set: q.set->0,
                };
                &&& written(buffer(before.state.lba), w).0 matches Ok(Some(blob))
                &&& after.fs.contents() == before.fs.contents().insert(EF_LARGEBLOB, blob)
                &&& 17 <= blob.len() <= MAX_LARGE_BLOB_SIZE
                &&& intact(blob)
            })
        },
{
    if request(data) is Ok {
        let q = request(data)->Ok_0;
        if q.offset is Some && q.set is Some && q.get is None {
            lemma_write(
                buffer(before.state.lba),
                Write {
                    token: before.state.paut.token@,
                    permissions: before.state.paut.permissions,
                    q,
                    offset: q.offset->0,
                    set: q.set->0,
                },
            );
        }
    }
}

/// What was collected grows by the fragment, and a fragment at offset zero
/// starts over: the buffer always holds the fragments one after the other.
pub proof fn law_fragments_concatenate(b: Buffer, set: Seq<u8>)
    requires
        0 <= b.next,
        b.next + set.len() <= b.len <= 2048,
        b.temp.len() == 2048,
    ensures
        collect(b, set).temp.len() == 2048,
        collect(b, set).temp.take(collect(b, set).next) == b.temp.take(b.next) + set,
{
    let f = collect(b, set);
    assert(f.temp.take(f.next) =~= b.temp.take(b.next) + set);
}

/// An array that was written is read back verbatim, whole or in parts.
pub proof fn law_write_then_read(c: Map<u16, Seq<u8>>, blob: Seq<u8>, get: int, offset: int)
    requires
        blob.len() <= MAX_LARGE_BLOB_SIZE,
        0 <= offset <= blob.len(),
        0 <= get,
    ensures
        read_of(c.insert(EF_LARGEBLOB, blob), get, offset, 0) == Ok::<Seq<u8>, CtapError>(
            if get <= blob.len() - offset {
                blob.subrange(offset, offset + get)
            } else {
                blob.skip(offset)
            },
        ),
        read_of(c.insert(EF_LARGEBLOB, blob), blob.len() as int, 0, 0) == Ok::<
            Seq<u8>,
            CtapError,
        >(blob),
{
    assert(blob.subrange(0, blob.len() as int) =~= blob);
}

/// Only an intact array is ever stored.
pub proof fn law_stored_array_is_intact(
    b: Buffer,
    token: Seq<u8>,
    permissions: u8,
    q: ReqView,
    offset: int,
    set: Seq<u8>,
    blob: Seq<u8>,
)
    requires
        write_of(b, token, permissions, q, offset, set).0 == Ok::<Option<Seq<u8>>, CtapError>(
            Some(blob),
        ),
    ensures
        intact(blob),
        permissions & PERM_LBW != 0,
{
}

// ---- what requests and answers say ----
/// An entry as a request has them.
pub open spec fn request_entry(e: (Value, Value)) -> bool {
    &&& e.0 matches Value::Int(k) && 0 <= k < u64::MAX
    &&& e.0 == Value::Int(1) || e.0 == Value::Int(3) || e.0 == Value::Int(4) || e.0 == Value::Int(
        6,
    ) ==> (e.1 matches Value::Int(n) && 0 <= n <= u64::MAX)
    &&& e.0 == Value::Int(2) || e.0 == Value::Int(5) ==> e.1 is Bytes
}

/// The entries of a request in ascending order.
pub open spec fn request_entries(es: Seq<(Value, Value)>) -> bool {
    &&& forall|i: int| 0 <= i < es.len() ==> request_entry(#[trigger] es[i])
    &&& forall|i: int, j: int|
        0 <= i < j < es.len() ==> (#[trigger] es[i]).0->Int_0 < (#[trigger] es[j]).0->Int_0
}

/// `v` with what the entries say: how many bytes to read under 1, the fragment to
/// write under 2, the offset under 3, the length of the array under 4, the
/// authentication under 5 and its protocol under 6.
pub open spec fn said(es: Seq<(Value, Value)>, v: ReqView) -> ReqView {
    ReqView {
        get: match cborvalue::last(es, Value::Int(1)) {
            Some(Value::Int(n)) => Some(n),
            _ => v.get,
        },
        set: match cborvalue::last(es, Value::Int(2)) {
            Some(Value::Bytes(b)) => Some(b),
            _ => v.set,
        },
        offset: match cborvalue::last(es, Value::Int(3)) {
            Some(Value::Int(n)) => if n == u64::MAX {
                None
            } else {
                Some(n)
            },
            _ => v.offset,
        },
        length: match cborvalue::last(es, Value::Int(4)) {
            Some(Value::Int(n)) => n,
            _ => v.length,
        },
        param: match cborvalue::last(es, Value::Int(5)) {
            Some(Value::Bytes(b)) => Some(b),
            _ => v.param,
        },
        proto: match cborvalue::last(es, Value::Int(6)) {
            Some(Value::Int(n)) => n,
            _ => v.proto,
        },
    }
}

proof fn lemma_request_members(
    s: Seq<u8>,
    pos: int,
    es: Seq<(Value, Value)>,
    expected: int,
    v: ReqView,
)
    requires
        cborvalue::stands(s, pos, cborvalue::enc_entries(es)),
        cborvalue::sized_entries(es),
        cborvalue::skips(s),
        request_entries(es),
        es.len() > 0 ==> es[0].0->Int_0 >= expected,
    ensures
        members(s, pos, es.len(), expected, v) == Ok::<ReqView, CtapError>(said(es, v)),
    decreases es.len(),
{
    if es.len() > 0 {
        let rest = es.subrange(1, es.len() as int);
        let p = pos + cborvalue::enc(es[0].0).len();
        let q = p + cborvalue::enc(es[0].1).len();
        let k = es[0].0->Int_0;
        cborvalue::lemma_first_entry(s, pos, es);
        assert(request_entry(es[0]));
        cbordec::lemma_taken(s, pos, es[0].0);
        cbordec::lemma_taken(s, p, es[0].1);
        assert forall|i: int| 0 <= i < rest.len() implies request_entry(#[trigger] rest[i]) by {
            assert(request_entry(es[i + 1]));
        }
        assert forall|i: int, j: int| 0 <= i < j < rest.len() implies (#[trigger] rest[i]).0->Int_0
            < (#[trigger] rest[j]).0->Int_0 by {
            assert(es[i + 1].0->Int_0 < es[j + 1].0->Int_0);
        }
        assert forall|i: int| 0 <= i < rest.len() implies (#[trigger] rest[i]).0->Int_0 > k by {
            assert(es[0].0->Int_0 < es[i + 1].0->Int_0);
        }
        cborvalue::lemma_last(rest, es[0].0);
        cborvalue::lemma_last(rest, Value::Int(1));
        cborvalue::lemma_last(rest, Value::Int(2));
        cborvalue::lemma_last(rest, Value::Int(3));
        cborvalue::lemma_last(rest, Value::Int(4));
        cborvalue::lemma_last(rest, Value::Int(5));
        cborvalue::lemma_last(rest, Value::Int(6));
        let w = member(s, p, k, v)->Ok_0.0;
        assert(member(s, p, k, v) == Ok::<(ReqView, int), CtapError>((w, q)));
        lemma_request_members(s, q, rest, k + 1, w);
        assert(said(rest, w) == said(es, v));
    }
}

/// A request is read member by member, each into its own field; what is absent
/// keeps its default.
pub proof fn law_request(es: Seq<(Value, Value)>)
    requires
        cborvalue::sized(Value::Table(es)),
        cborvalue::skips(cborvalue::enc(Value::Table(es))),
        request_entries(es),
        es.len() > 0 ==> es[0].0->Int_0 >= 1,
    ensures
        request(cborvalue::enc(Value::Table(es))) == Ok::<ReqView, CtapError>(
            said(
                es,
                ReqView { get: None, set: None, offset: None, length: 0, param: None, proto: 0 },
            ),
        ),
{
    let s = cborvalue::enc(Value::Table(es));
    assert(s.subrange(0, s.len() as int) =~= s);
    cbordec::lemma_taken(s, 0, Value::Table(es));
    lemma_request_members(s, s.len() - cborvalue::enc_entries(es).len(), es, 1, empty_req());
}

/// The answer to a read is a map with the fragment under 1.
pub proof fn law_fragment_reply(fragment: Seq<u8>)
    requires
        fragment.len() <= u32::MAX,
    ensures
        cborvalue::decoded(fragment_reply(fragment)) == Value::Table(
            seq![(Value::Int(1), Value::Bytes(fragment))],
        ),
{
    let w = cbor::map(1);
    let e0 = Seq::<(Value, Value)>::empty();
    cborvalue::lemma_nothing(w);
    cborvalue::lemma_entry(w, e0, Value::Int(1), Value::Bytes(fragment));
    let e1 = e0.push((Value::Int(1), Value::Bytes(fragment)));
    cborvalue::law_decoded(Value::Table(e1));
    assert(e1 =~= seq![(Value::Int(1), Value::Bytes(fragment))]);
}

/// Two reads one behind the other give what one read of both lengths gives, and a
/// read never gives more than was asked for.
pub proof fn law_reads_join(c: Map<u16, Seq<u8>>, a: int, b: int, offset: int)
    requires
        0 <= a,
        0 <= b,
        0 <= offset,
        offset + a <= stored(c).len(),
    ensures
        read_of(c, a, offset, 0) matches Ok(x) && read_of(c, b, offset + a, 0) matches Ok(y)
            && x.len() == a && y.len() <= b && read_of(c, a + b, offset, 0) == Ok::<
            Seq<u8>,
            CtapError,
        >(x + y),
{
    let blob = stored(c);
    let x = blob.subrange(offset, offset + a);
    if a + b <= blob.len() - offset {
        assert(x + blob.subrange(offset + a, offset + a + b) =~= blob.subrange(
            offset,
            offset + a + b,
        ));
    } else {
        assert(x + blob.skip(offset + a) =~= blob.skip(offset));
    }
}

/// A fragment is taken exactly where it follows what was taken, carries the MAC
/// under the token of 32 bytes 0xff, the command, a zero byte, the offset as four
/// little-endian bytes and the digest of the fragment, is allowed by the token and
/// fits the announced array.
pub proof fn law_fragment_is_authenticated(b: Buffer, w: Write)
    ensures
        takes(b, w) <==> {
            let announced = if w.offset == 0 {
                w.q.length
            } else {
                b.len
            };
            let next = if w.offset == 0 {
                0
            } else {
                b.next
            };
            let msg = Seq::new(32, |i: int| 0xffu8) + seq![0x0cu8, 0x00u8] + (sdk::le32(w.offset)
                + crypto::sha256_of(w.set));
            &&& w.set.len() <= 7545
            &&& if w.offset == 0 {
                17 <= w.q.length <= 2048
            } else {
                w.q.length == 0
            }
            &&& w.offset == next
            &&& w.q.proto == 1 || w.q.proto == 2
            &&& w.q.param == Some(
                pinproto::mac(
                    if w.q.proto == 1 {
                        PinProto::One
                    } else {
                        PinProto::Two
                    },
                    w.token,
                    msg,
                ),
            )
            &&& w.permissions & 0x10 != 0
            &&& w.offset + w.set.len() <= announced
        },
{
    let msg = Seq::new(32, |i: int| 0xffu8) + seq![0x0cu8, 0x00u8] + (sdk::le32(w.offset)
        + crypto::sha256_of(w.set));
    assert(fragment_msg(w.offset, w.set) == msg);
}

/// An array longer than its smallest form is stored only where its last 16 bytes
/// are the front of the SHA-256 digest of the bytes before them.
pub proof fn law_intact(front: Seq<u8>, tail: Seq<u8>)
    requires
        tail.len() == 16,
        front.len() > 1,
    ensures
        intact(front + tail) <==> tail == crypto::sha256_of(front).take(16),
{
    let blob = front + tail;
    assert(blob.skip(blob.len() - 16) =~= tail);
    assert(blob.take(blob.len() - 16) =~= front);
}

/// Every field of a request is seen under its own name.
pub proof fn law_request_fields(r: Req)
    ensures
        r.get matches Some(n) ==> r@.get == Some(n as int),
        r.get is None ==> r@.get is None,
        r.set matches Some(b) ==> r@.set == Some(b@),
        r.set is None ==> r@.set is None,
        r.offset matches Some(n) ==> r@.offset == Some(n as int),
        r.offset is None ==> r@.offset is None,
        r@.length == r.length,
        r.pin_uv_auth_param matches Some(p) ==> r@.param == Some(p@),
        r.pin_uv_auth_param is None ==> r@.param is None,
        r@.proto == r.proto,
{
}

/// A request reads or writes, and says where: one that does both or neither, or has
/// no offset, is refused, and nothing changes. A read answers the fragment of the
/// stored array.
pub proof fn law_read_or_write<S: Storage, R: Rng, P: UserPresence>(
    before: &Ctx<S, R, P>,
    after: &Ctx<S, R, P>,
    data: Seq<u8>,
    out_before: Seq<u8>,
    out_after: Seq<u8>,
    r: CtapResult,
)
    requires
        outcome(before, after, data, out_before, out_after, r),
        request(data) is Ok,
    ensures
        ({
            let q = request(data)->Ok_0;
            &&& q.offset is None || (q.get is Some && q.set is Some) || (q.get is None && q.set
                is None) ==> r == Err::<usize, CtapError>(CtapError::InvalidParameter)
                && after.fs.contents() == before.fs.contents() && out_after == out_before
            &&& q.get is Some ==> after.fs.contents() == before.fs.contents()
            &&& q.get is Some && q.set is None && q.offset is Some && (r matches Ok(n) && true)
                && out_before.len() <= usize::MAX ==> read_of(
                before.fs.contents(),
                q.get->0,
                q.offset->0,
                q.length,
            ) is Ok && out_after.take(r->Ok_0 as int) == cbor::map(1) + cbor::uint(1) + cbor::bytes(
                read_of(before.fs.contents(), q.get->0, q.offset->0, q.length)->Ok_0,
            )
        }),
{
    let q = request(data)->Ok_0;
    if q.get is Some && q.set is None && q.offset is Some && r is Ok && out_before.len()
        <= usize::MAX {
        let f = read_of(before.fs.contents(), q.get->0, q.offset->0, q.length)->Ok_0;
        assert(out_after.take(r->Ok_0 as int) =~= fragment_reply(f));
    }
}

}
