//! The request of `authenticatorVendor`.

use vstd::prelude::*;
use vstd::slice::slice_subrange;

use crate::cborvalue;
use crate::cborvalue::Value;
use crate::fido::cbordec;
use crate::fido::cbordec::{def_map, skip_item, take_bytes, take_i32, take_u32};
use crate::fido::consts::{
    VENDOR_ATT_IMPORT, VENDOR_AUDIT_CHECKPOINT, VENDOR_BACKUP_LOAD, VENDOR_MSE, VENDOR_UNLOCK,
};
use crate::fido::error::CtapError;
use crate::fido::largeblobs;

verus! {

/// A request.
pub struct VendorReq<'a> {
    pub subcommand: u64,
    pub kax: &'a [u8],
    pub kay: &'a [u8],
    /// The host's ML-KEM-768 encapsulation key, if it sent one.
    pub mlkem_ek: &'a [u8],
    pub blob: &'a [u8],
    /// The DER chain of an attestation import, leaf first.
    pub chain: &'a [u8],
    /// The encoded parameters, as the platform authenticated them.
    pub raw_subpara: &'a [u8],
    pub proto: u64,
    pub pin_uv_auth_param: Option<&'a [u8]>,
}

/// What a request says.
#[verifier::ext_equal]
pub struct VendorView {
    pub subcommand: int,
    pub kax: Seq<u8>,
    pub kay: Seq<u8>,
    pub mlkem_ek: Seq<u8>,
    pub blob: Seq<u8>,
    pub chain: Seq<u8>,
    pub raw: Seq<u8>,
    pub proto: int,
    pub param: Option<Seq<u8>>,
}

impl<'a> View for VendorReq<'a> {
    type V = VendorView;

    open spec fn view(&self) -> VendorView {
        VendorView {
            subcommand: self.subcommand as int,
            kax: self.kax@,
            kay: self.kay@,
            mlkem_ek: self.mlkem_ek@,
            blob: self.blob@,
            chain: self.chain@,
            raw: self.raw_subpara@,
            proto: self.proto as int,
            param: largeblobs::opt_bytes(self.pin_uv_auth_param),
        }
    }
}

/// A request that says nothing.
pub open spec fn no_request() -> VendorView {
    VendorView {
        subcommand: 0,
        kax: Seq::empty(),
        kay: Seq::empty(),
        mlkem_ek: Seq::empty(),
        blob: Seq::empty(),
        chain: Seq::empty(),
        raw: Seq::empty(),
        proto: 0,
        param: None,
    }
}

/// The subcommand takes a byte string as its first parameter.
pub open spec fn takes_blob(subcommand: int) -> bool {
    subcommand == VENDOR_BACKUP_LOAD || subcommand == VENDOR_UNLOCK || subcommand
        == VENDOR_AUDIT_CHECKPOINT || subcommand == VENDOR_ATT_IMPORT
}

/// `left` members of the host's COSE key from `pos` on.
pub open spec fn cose_members(s: Seq<u8>, pos: int, left: nat, v: VendorView) -> cbordec::Taken<
    VendorView,
>
    decreases left,
{
    if left == 0 {
        Ok((v, pos))
    } else {
        match cbordec::i32_item(s, pos) {
            Err(e) => Err(e),
            Ok((key, p)) => if key == -2 || key == -3 {
                match cbordec::bytes_item(s, p) {
                    Err(e) => Err(e),
                    Ok((b, q)) => cose_members(
                        s,
                        q,
                        (left - 1) as nat,
                        if key == -2 {
                            VendorView { kax: b, ..v }
                        } else {
                            VendorView { kay: b, ..v }
                        },
                    ),
                }
            } else {
                match cbordec::any_item(s, p) {
                    Err(e) => Err(e),
                    Ok(q) => cose_members(s, q, (left - 1) as nat, v),
                }
            },
        }
    }
}

/// The COSE key at `pos`.
pub open spec fn cose_key(s: Seq<u8>, pos: int, v: VendorView) -> cbordec::Taken<VendorView> {
    match cbordec::map_item(s, pos) {
        Err(e) => Err(e),
        Ok((n, p)) => cose_members(s, p, n as nat, v),
    }
}

/// The parameter of key `key` at `pos`, entered into the request. What the
/// subcommand does not know is passed over.
pub open spec fn param(s: Seq<u8>, pos: int, key: int, v: VendorView) -> cbordec::Taken<
    VendorView,
> {
    if key == 1 && v.subcommand == VENDOR_MSE {
        cose_key(s, pos, v)
    } else if (key == 1 && takes_blob(v.subcommand)) || (key == 2 && (v.subcommand
        == VENDOR_ATT_IMPORT || v.subcommand == VENDOR_MSE)) {
        match cbordec::bytes_item(s, pos) {
            Err(e) => Err(e),
            Ok((b, p)) => Ok(
                (
                    if key == 1 {
                        VendorView { blob: b, ..v }
                    } else if v.subcommand == VENDOR_ATT_IMPORT {
                        VendorView { chain: b, ..v }
                    } else {
                        VendorView { mlkem_ek: b, ..v }
                    },
                    p,
                ),
            ),
        }
    } else {
        match cbordec::any_item(s, pos) {
            Err(e) => Err(e),
            Ok(p) => Ok((v, p)),
        }
    }
}

/// `left` parameters from `pos` on.
pub open spec fn params(s: Seq<u8>, pos: int, left: nat, v: VendorView) -> cbordec::Taken<
    VendorView,
>
    decreases left,
{
    if left == 0 {
        Ok((v, pos))
    } else {
        match cbordec::i32_item(s, pos) {
            Err(e) => Err(e),
            Ok((key, p)) => match param(s, p, key, v) {
                Err(e) => Err(e),
                Ok((w, q)) => params(s, q, (left - 1) as nat, w),
            },
        }
    }
}

/// The bytes from `a` up to `b`.
pub open spec fn between(s: Seq<u8>, a: int, b: int) -> Seq<u8> {
    if 0 <= a <= b <= s.len() {
        s.subrange(a, b)
    } else {
        Seq::empty()
    }
}

/// The map of parameters at `pos`, with its encoding.
pub open spec fn param_map(s: Seq<u8>, pos: int, v: VendorView) -> cbordec::Taken<VendorView> {
    match cbordec::map_item(s, pos) {
        Err(e) => Err(e),
        Ok((n, p)) => match params(s, p, n as nat, v) {
            Err(e) => Err(e),
            Ok((w, q)) => Ok((VendorView { raw: between(s, pos, q), ..w }, q)),
        },
    }
}

/// The member of key `key` at `pos`, entered into the request.
pub open spec fn member(s: Seq<u8>, pos: int, key: int, v: VendorView) -> cbordec::Taken<
    VendorView,
> {
    if key == 1 {
        match cbordec::u32_item(s, pos) {
            Err(e) => Err(e),
            Ok((n, p)) => Ok((VendorView { subcommand: n, ..v }, p)),
        }
    } else if key == 2 {
        param_map(s, pos, v)
    } else if key == 3 {
        match cbordec::u32_item(s, pos) {
            Err(e) => Err(e),
            Ok((n, p)) => Ok((VendorView { proto: n, ..v }, p)),
        }
    } else if key == 4 {
        match cbordec::bytes_item(s, pos) {
            Err(e) => Err(e),
            Ok((b, p)) => Ok((VendorView { param: Some(b), ..v }, p)),
        }
    } else {
        match cbordec::any_item(s, pos) {
            Err(e) => Err(e),
            Ok(p) => Ok((v, p)),
        }
    }
}

/// `left` members from `pos` on.
pub open spec fn members(s: Seq<u8>, pos: int, left: nat, v: VendorView) -> cbordec::Taken<
    VendorView,
>
    decreases left,
{
    if left == 0 {
        Ok((v, pos))
    } else {
        match cbordec::u32_item(s, pos) {
            Err(e) => Err(e),
            Ok((key, p)) => match member(s, p, key, v) {
                Err(e) => Err(e),
                Ok((w, q)) => members(s, q, (left - 1) as nat, w),
            },
        }
    }
}

/// The request that the bytes encode.
pub open spec fn request(s: Seq<u8>) -> Result<VendorView, CtapError> {
    match cbordec::map_item(s, 0) {
        Err(e) => Err(e),
        Ok((n, p)) => match members(s, p, n as nat, no_request()) {
            Err(e) => Err(e),
            Ok((v, _)) => Ok(v),
        },
    }
}

/// A part of a request that was parsed, and where the next item starts.
pub open spec fn seen_part(r: Result<usize, CtapError>, v: VendorView) -> cbordec::Taken<
    VendorView,
> {
    match r {
        Ok(p) => Ok((v, p as int)),
        Err(e) => Err(e),
    }
}

fn parse_cose<'a>(data: &'a [u8], pos: usize, req: &mut VendorReq<'a>) -> (r: Result<
    usize,
    CtapError,
>)
    ensures
        seen_part(r, final(req)@) == cose_key(data@, pos as int, old(req)@),
{
    let (n, first) = def_map(data, pos)?;
    let ghost start = req@;
    let mut at: usize = first;
    let mut i: u64 = 0;
    while i < n
        invariant
            i <= n,
            start == old(req)@,
            cose_key(data@, pos as int, start) == cose_members(
                data@,
                at as int,
                (n - i) as nat,
                req@,
            ),
        decreases n - i,
    {
        let (key, p) = take_i32(data, at)?;
        if key == -2 {
            let (b, q) = take_bytes(data, p)?;
            req.kax = b;
            at = q;
        } else if key == -3 {
            let (b, q) = take_bytes(data, p)?;
            req.kay = b;
            at = q;
        } else {
            at = skip_item(data, p)?;
        }
        i += 1;
    }
    Ok(at)
}

fn parse_param<'a>(data: &'a [u8], pos: usize, key: i64, req: &mut VendorReq<'a>) -> (r: Result<
    usize,
    CtapError,
>)
    ensures
        seen_part(r, final(req)@) == param(data@, pos as int, key as int, old(req)@),
{
    let sub: u64 = req.subcommand;
    if key == 1 && sub == VENDOR_MSE {
        return parse_cose(data, pos, req);
    }
    let blob: bool = sub == VENDOR_BACKUP_LOAD || sub == VENDOR_UNLOCK || sub
        == VENDOR_AUDIT_CHECKPOINT || sub == VENDOR_ATT_IMPORT;
    if key == 1 && blob {
        let (b, q) = take_bytes(data, pos)?;
        req.blob = b;
        Ok(q)
    } else if key == 2 && sub == VENDOR_ATT_IMPORT {
        let (b, q) = take_bytes(data, pos)?;
        req.chain = b;
        Ok(q)
    } else if key == 2 && sub == VENDOR_MSE {
        let (b, q) = take_bytes(data, pos)?;
        req.mlkem_ek = b;
        Ok(q)
    } else {
        skip_item(data, pos)
    }
}

fn parse_params<'a>(data: &'a [u8], pos: usize, req: &mut VendorReq<'a>) -> (r: Result<
    usize,
    CtapError,
>)
    ensures
        seen_part(r, final(req)@) == param_map(data@, pos as int, old(req)@),
{
    let (n, first) = def_map(data, pos)?;
    let ghost start = req@;
    let ghost whole = params(data@, first as int, n as nat, start);
    let mut at: usize = first;
    let mut i: u64 = 0;
    while i < n
        invariant
            i <= n,
            start == old(req)@,
            whole == params(data@, at as int, (n - i) as nat, req@),
            cbordec::map_item(data@, pos as int) == Ok::<(int, int), CtapError>(
                (n as int, first as int),
            ),
            whole == params(data@, first as int, n as nat, start),
        decreases n - i,
    {
        let (key, p) = take_i32(data, at)?;
        at = parse_param(data, p, key, req)?;
        i += 1;
    }
    let raw: &'a [u8] = if pos <= at && at <= data.len() {
        slice_subrange(data, pos, at)
    } else {
        &[]
    };
    assert(raw@ =~= between(data@, pos as int, at as int));
    req.raw_subpara = raw;
    Ok(at)
}

/// The outcome of parsing, seen as a request.
pub open spec fn seen_req(r: Result<VendorReq<'_>, CtapError>) -> Result<VendorView, CtapError> {
    match r {
        Ok(v) => Ok(v@),
        Err(e) => Err(e),
    }
}

/// Parses a request. The parameters are read by the subcommand that stands
/// before them.
pub fn parse<'a>(data: &'a [u8]) -> (r: Result<VendorReq<'a>, CtapError>)
    ensures
        seen_req(r) == request(data@),
{
    let mut req = VendorReq {
        subcommand: 0,
        kax: &[],
        kay: &[],
        mlkem_ek: &[],
        blob: &[],
        chain: &[],
        raw_subpara: &[],
        proto: 0,
        pin_uv_auth_param: None,
    };
    assert(req@ =~= no_request());
    let (n, first) = def_map(data, 0)?;
    let ghost whole = members(data@, first as int, n as nat, no_request());
    let mut at: usize = first;
    let mut i: u64 = 0;
    while i < n
        invariant
            i <= n,
            cbordec::map_item(data@, 0) == Ok::<(int, int), CtapError>((n as int, first as int)),
            whole == members(data@, first as int, n as nat, no_request()),
            whole == members(data@, at as int, (n - i) as nat, req@),
        decreases n - i,
    {
        let (key, p) = take_u32(data, at)?;
        match key {
            1 => {
                let (v, q) = take_u32(data, p)?;
                req.subcommand = v;
                at = q;
            },
            2 => {
                at = parse_params(data, p, &mut req)?;
            },
            3 => {
                let (v, q) = take_u32(data, p)?;
                req.proto = v;
                at = q;
            },
            4 => {
                let (b, q) = take_bytes(data, p)?;
                req.pin_uv_auth_param = Some(b);
                at = q;
            },
            _ => {
                at = skip_item(data, p)?;
            },
        }
        i += 1;
    }
    Ok(req)
}

// ---- what a request says ----
/// An entry of the host's key.
pub open spec fn key_entry(e: (Value, Value)) -> bool {
    &&& e.0 matches Value::Int(k) && i32::MIN <= k <= i32::MAX
    &&& e.0 == Value::Int(-2) || e.0 == Value::Int(-3) ==> e.1 is Bytes
}

/// The bytes under a number, `old` where there are none.
pub open spec fn bytes_under(es: Seq<(Value, Value)>, key: int, old: Seq<u8>) -> Seq<u8> {
    match cborvalue::last(es, Value::Int(key)) {
        Some(Value::Bytes(b)) => b,
        _ => old,
    }
}

/// The subcommands whose first parameter is a byte string: loading a backup,
/// unlocking, a checkpoint of the journal and importing an attestation key.
pub open spec fn blob_first(sub: int) -> bool {
    sub == 0x03 || sub == 0x06 || sub == 0x08 || sub == 0x09
}

/// A parameter of a subcommand.
pub open spec fn param_entry(sub: int, e: (Value, Value)) -> bool {
    &&& e.0 matches Value::Int(k) && i32::MIN <= k <= i32::MAX
    &&& e.0 == Value::Int(1) && sub == 0x01 ==> (e.1 matches Value::Table(c) && forall|i: int|
        0 <= i < c.len() ==> key_entry(#[trigger] c[i]))
    &&& e.0 == Value::Int(1) && blob_first(sub) ==> e.1 is Bytes
    &&& e.0 == Value::Int(2) && (sub == 0x01 || sub == 0x09) ==> e.1 is Bytes
}

/// The parameters of a subcommand, no key twice.
pub open spec fn param_entries(sub: int, ps: Seq<(Value, Value)>) -> bool {
    &&& forall|i: int| 0 <= i < ps.len() ==> param_entry(sub, #[trigger] ps[i])
    &&& forall|i: int, j: int| 0 <= i < j < ps.len() ==> #[trigger] ps[i].0 != #[trigger] ps[j].0
}

/// `v` with the coordinates of the host's key.
pub open spec fn key_said(c: Seq<(Value, Value)>, v: VendorView) -> VendorView {
    VendorView { kax: bytes_under(c, -2, v.kax), kay: bytes_under(c, -3, v.kay), ..v }
}

/// `v` with what the parameters of its subcommand say.
pub open spec fn params_said(ps: Seq<(Value, Value)>, v: VendorView) -> VendorView {
    let w = match cborvalue::last(ps, Value::Int(1)) {
        Some(Value::Table(c)) => if v.subcommand == 0x01 {
            key_said(c, v)
        } else {
            v
        },
        _ => v,
    };
    VendorView {
        blob: if blob_first(v.subcommand) {
            bytes_under(ps, 1, v.blob)
        } else {
            v.blob
        },
        chain: if v.subcommand == 0x09 {
            bytes_under(ps, 2, v.chain)
        } else {
            v.chain
        },
        mlkem_ek: if v.subcommand == 0x01 {
            bytes_under(ps, 2, v.mlkem_ek)
        } else {
            v.mlkem_ek
        },
        ..w
    }
}

proof fn lemma_key_members(s: Seq<u8>, pos: int, c: Seq<(Value, Value)>, v: VendorView)
    requires
        cborvalue::stands(s, pos, cborvalue::enc_entries(c)),
        cborvalue::sized_entries(c),
        cborvalue::skips(s),
        forall|i: int| 0 <= i < c.len() ==> key_entry(#[trigger] c[i]),
    ensures
        cose_members(s, pos, c.len(), v) == Ok::<(VendorView, int), CtapError>(
            (key_said(c, v), pos + cborvalue::enc_entries(c).len()),
        ),
    decreases c.len(),
{
    if c.len() == 0 {
        assert(key_said(c, v) =~= v);
    } else {
        let rest = c.subrange(1, c.len() as int);
        let p = pos + cborvalue::enc(c[0].0).len();
        let q = p + cborvalue::enc(c[0].1).len();
        cborvalue::lemma_first_entry(s, pos, c);
        assert(key_entry(c[0]));
        cbordec::lemma_taken(s, pos, c[0].0);
        cbordec::lemma_taken(s, p, c[0].1);
        assert forall|i: int| 0 <= i < rest.len() implies key_entry(#[trigger] rest[i]) by {
            assert(key_entry(c[i + 1]));
        }
        cborvalue::lemma_last(rest, Value::Int(-2));
        cborvalue::lemma_last(rest, Value::Int(-3));
        let w = if c[0].0 == Value::Int(-2) {
            VendorView { kax: c[0].1->Bytes_0, ..v }
        } else if c[0].0 == Value::Int(-3) {
            VendorView { kay: c[0].1->Bytes_0, ..v }
        } else {
            v
        };
        lemma_key_members(s, q, rest, w);
        assert(key_said(rest, w) =~= key_said(c, v));
    }
}

proof fn lemma_params(s: Seq<u8>, pos: int, ps: Seq<(Value, Value)>, v: VendorView)
    requires
        cborvalue::stands(s, pos, cborvalue::enc_entries(ps)),
        cborvalue::sized_entries(ps),
        cborvalue::skips(s),
        param_entries(v.subcommand, ps),
    ensures
        params(s, pos, ps.len(), v) == Ok::<(VendorView, int), CtapError>(
            (params_said(ps, v), pos + cborvalue::enc_entries(ps).len()),
        ),
    decreases ps.len(),
{
    if ps.len() == 0 {
        assert(params_said(ps, v) =~= v);
    } else {
        let sub = v.subcommand;
        let rest = ps.subrange(1, ps.len() as int);
        let p = pos + cborvalue::enc(ps[0].0).len();
        let q = p + cborvalue::enc(ps[0].1).len();
        cborvalue::lemma_first_entry(s, pos, ps);
        assert(param_entry(sub, ps[0]));
        assert(cborvalue::sized(ps[0].1));
        cbordec::lemma_taken(s, pos, ps[0].0);
        cbordec::lemma_taken(s, p, ps[0].1);
        assert forall|i: int| 0 <= i < rest.len() implies param_entry(sub, #[trigger] rest[i]) by {
            assert(param_entry(sub, ps[i + 1]));
        }
        assert forall|i: int, j: int| 0 <= i < j < rest.len() implies #[trigger] rest[i].0
            != #[trigger] rest[j].0 by {
            assert(ps[i + 1].0 != ps[j + 1].0);
        }
        assert forall|i: int| 0 <= i < rest.len() implies (#[trigger] rest[i]).0 != ps[0].0 by {
            assert(ps[0].0 != ps[i + 1].0);
        }
        cborvalue::lemma_last(rest, ps[0].0);
        cborvalue::lemma_last(rest, Value::Int(1));
        cborvalue::lemma_last(rest, Value::Int(2));
        let w = if ps[0].0 == Value::Int(1) && sub == 0x01 {
            key_said(ps[0].1->Table_0, v)
        } else if ps[0].0 == Value::Int(1) && blob_first(sub) {
            VendorView { blob: ps[0].1->Bytes_0, ..v }
        } else if ps[0].0 == Value::Int(2) && sub == 0x09 {
            VendorView { chain: ps[0].1->Bytes_0, ..v }
        } else if ps[0].0 == Value::Int(2) && sub == 0x01 {
            VendorView { mlkem_ek: ps[0].1->Bytes_0, ..v }
        } else {
            v
        };
        if ps[0].0 == Value::Int(1) && sub == 0x01 {
            let c = ps[0].1->Table_0;
            lemma_key_members(s, q - cborvalue::enc_entries(c).len(), c, v);
        }
        assert(param(s, p, ps[0].0->Int_0, v) == Ok::<(VendorView, int), CtapError>((w, q)));
        lemma_params(s, q, rest, w);
        assert(params_said(rest, w) =~= params_said(ps, v));
    }
}

/// The parameters of a subcommand are read into the fields that the subcommand
/// gives them, and their encoding is kept as it stands.
pub proof fn law_parameters(s: Seq<u8>, pos: int, ps: Seq<(Value, Value)>, v: VendorView)
    requires
        cborvalue::stands(s, pos, cborvalue::enc(Value::Table(ps))),
        cborvalue::sized(Value::Table(ps)),
        cborvalue::skips(s),
        param_entries(v.subcommand, ps),
    ensures
        param_map(s, pos, v) == Ok::<(VendorView, int), CtapError>(
            (
                VendorView { raw: cborvalue::enc(Value::Table(ps)), ..params_said(ps, v) },
                pos + cborvalue::enc(Value::Table(ps)).len(),
            ),
        ),
{
    let item = cborvalue::enc(Value::Table(ps));
    cbordec::lemma_taken(s, pos, Value::Table(ps));
    lemma_params(s, pos + item.len() - cborvalue::enc_entries(ps).len(), ps, v);
}

/// The member of a request with key `k`.
pub open spec fn part(
    sub: int,
    ps: Option<Seq<(Value, Value)>>,
    proto: Option<int>,
    auth: Option<Seq<u8>>,
    k: int,
) -> Option<Value> {
    if k == 1 {
        Some(Value::Int(sub))
    } else if k == 2 {
        match ps {
            Some(x) => Some(Value::Table(x)),
            None => None,
        }
    } else if k == 3 {
        match proto {
            Some(x) => Some(Value::Int(x)),
            None => None,
        }
    } else {
        match auth {
            Some(x) => Some(Value::Bytes(x)),
            None => None,
        }
    }
}

/// The entries of a request from key `k` on.
pub open spec fn entries_from(
    sub: int,
    ps: Option<Seq<(Value, Value)>>,
    proto: Option<int>,
    auth: Option<Seq<u8>>,
    k: int,
) -> Seq<(Value, Value)>
    decreases 5 - k,
{
    if k > 4 {
        Seq::empty()
    } else {
        match part(sub, ps, proto, auth, k) {
            Some(v) => seq![(Value::Int(k), v)] + entries_from(sub, ps, proto, auth, k + 1),
            None => entries_from(sub, ps, proto, auth, k + 1),
        }
    }
}

/// `v` with what the member of key `k` says.
spec fn entered(
    sub: int,
    ps: Option<Seq<(Value, Value)>>,
    proto: Option<int>,
    auth: Option<Seq<u8>>,
    k: int,
    v: VendorView,
) -> VendorView {
    match part(sub, ps, proto, auth, k) {
        None => v,
        Some(x) => if k == 1 {
            VendorView { subcommand: sub, ..v }
        } else if k == 2 {
            VendorView { raw: cborvalue::enc(x), ..params_said(ps->0, v) }
        } else if k == 3 {
            VendorView { proto: proto->0, ..v }
        } else {
            VendorView { param: auth, ..v }
        },
    }
}

spec fn all_entered(
    sub: int,
    ps: Option<Seq<(Value, Value)>>,
    proto: Option<int>,
    auth: Option<Seq<u8>>,
    k: int,
    v: VendorView,
) -> VendorView
    decreases 5 - k,
{
    if k > 4 {
        v
    } else {
        all_entered(sub, ps, proto, auth, k + 1, entered(sub, ps, proto, auth, k, v))
    }
}

proof fn lemma_members_from(
    s: Seq<u8>,
    pos: int,
    sub: int,
    ps: Option<Seq<(Value, Value)>>,
    proto: Option<int>,
    auth: Option<Seq<u8>>,
    k: int,
    v: VendorView,
)
    requires
        1 <= k <= 5,
        cborvalue::stands(s, pos, cborvalue::enc_entries(entries_from(sub, ps, proto, auth, k))),
        cborvalue::sized_entries(entries_from(sub, ps, proto, auth, k)),
        cborvalue::skips(s),
        0 <= sub <= u32::MAX,
        proto matches Some(n) ==> 0 <= n <= u32::MAX,
        ps matches Some(x) ==> param_entries(sub, x),
        k > 1 ==> v.subcommand == sub,
    ensures
        members(s, pos, entries_from(sub, ps, proto, auth, k).len(), v) matches Ok((w, _)) && w
            == all_entered(sub, ps, proto, auth, k, v),
    decreases 5 - k,
{
    if k <= 4 {
        let es = entries_from(sub, ps, proto, auth, k);
        let w = entered(sub, ps, proto, auth, k, v);
        if part(sub, ps, proto, auth, k) is Some {
            let val = part(sub, ps, proto, auth, k)->0;
            let p = pos + cborvalue::enc(Value::Int(k)).len();
            let q = p + cborvalue::enc(val).len();
            assert(es[0] == (Value::Int(k), val));
            assert(es.subrange(1, es.len() as int) =~= entries_from(sub, ps, proto, auth, k + 1));
            cborvalue::lemma_first_entry(s, pos, es);
            assert(cborvalue::sized(val));
            cbordec::lemma_taken(s, pos, Value::Int(k));
            cbordec::lemma_taken(s, p, val);
            if k == 2 {
                law_parameters(s, p, ps->0, v);
            }
            assert(member(s, p, k, v) == Ok::<(VendorView, int), CtapError>((w, q)));
            lemma_members_from(s, q, sub, ps, proto, auth, k + 1, w);
        } else {
            lemma_members_from(s, pos, sub, ps, proto, auth, k + 1, w);
        }
    }
}

/// A vendor request is read as its subcommand, the parameters of that subcommand,
/// the protocol and the authentication; what is absent keeps its default.
pub proof fn law_vendor_request(
    sub: int,
    ps: Option<Seq<(Value, Value)>>,
    proto: Option<int>,
    auth: Option<Seq<u8>>,
)
    requires
        cborvalue::sized(Value::Table(entries_from(sub, ps, proto, auth, 1))),
        cborvalue::skips(cborvalue::enc(Value::Table(entries_from(sub, ps, proto, auth, 1)))),
        0 <= sub <= u32::MAX,
        proto matches Some(n) ==> 0 <= n <= u32::MAX,
        ps matches Some(x) ==> param_entries(sub, x),
    ensures
        request(cborvalue::enc(Value::Table(entries_from(sub, ps, proto, auth, 1)))) matches Ok(v)
            && {
            let given = match ps {
                Some(x) => x,
                None => Seq::empty(),
            };
            &&& v.subcommand == sub
            &&& v.proto == (match proto {
                Some(n) => n,
                None => 0,
            })
            &&& v.param == auth
            &&& v.raw == (match ps {
                Some(x) => cborvalue::enc(Value::Table(x)),
                None => Seq::empty(),
            })
            &&& v.blob == if blob_first(sub) {
                bytes_under(given, 1, Seq::empty())
            } else {
                Seq::empty()
            }
            &&& v.chain == if sub == 0x09 {
                bytes_under(given, 2, Seq::empty())
            } else {
                Seq::empty()
            }
            &&& v.mlkem_ek == if sub == 0x01 {
                bytes_under(given, 2, Seq::empty())
            } else {
                Seq::empty()
            }
            &&& v.kax == (match cborvalue::last(given, Value::Int(1)) {
                Some(Value::Table(c)) => if sub == 0x01 {
                    bytes_under(c, -2, Seq::empty())
                } else {
                    Seq::empty()
                },
                _ => Seq::empty(),
            })
            &&& v.kay == (match cborvalue::last(given, Value::Int(1)) {
                Some(Value::Table(c)) => if sub == 0x01 {
                    bytes_under(c, -3, Seq::empty())
                } else {
                    Seq::empty()
                },
                _ => Seq::empty(),
            })
        },
{
    let es = entries_from(sub, ps, proto, auth, 1);
    let s = cborvalue::enc(Value::Table(es));
    assert(s.subrange(0, s.len() as int) =~= s);
    cbordec::lemma_taken(s, 0, Value::Table(es));
    let at = s.len() - cborvalue::enc_entries(es).len();
    lemma_members_from(s, at, sub, ps, proto, auth, 1, no_request());
    reveal_with_fuel(all_entered, 5);
}

/// Every field of a request is seen under its own name.
pub proof fn law_request_fields(r: VendorReq)
    ensures
        r@.subcommand == r.subcommand,
        r@.kax == r.kax@,
        r@.kay == r.kay@,
        r@.mlkem_ek == r.mlkem_ek@,
        r@.blob == r.blob@,
        r@.chain == r.chain@,
        r@.raw == r.raw_subpara@,
        r@.proto == r.proto,
        r.pin_uv_auth_param matches Some(p) ==> r@.param == Some(p@),
        r.pin_uv_auth_param is None ==> r@.param is None,
{
}

}
