//! Reading the CBOR items of a request.

use vstd::prelude::*;
use vstd::utf8::*;

use crate::cbor;
use crate::cbor::{
    next_array, next_bool, next_bytes, next_i64, next_map, next_skip, next_text, next_u64,
};
use crate::cborvalue;
use crate::cborvalue::Value;
use crate::fido::error::CtapError;

verus! {

/// A value and where the next item starts.
pub type Taken<T> = Result<(T, int), CtapError>;

/// The refusal of an item that could not be read.
pub open spec fn fault(mismatch: bool) -> CtapError {
    if mismatch {
        CtapError::CborUnexpectedType
    } else {
        CtapError::InvalidCbor
    }
}

/// The item, or the refusal that its fault stands for.
pub open spec fn taken<T>(i: cbor::Item<T>) -> Taken<T> {
    match i {
        Ok(v) => Ok(v),
        Err(m) => Err(fault(m)),
    }
}

/// The item, if its value lies between the bounds.
pub open spec fn bounded(i: Taken<int>, lo: int, hi: int) -> Taken<int> {
    match i {
        Ok(v) => if lo <= v.0 <= hi {
            Ok(v)
        } else {
            Err(CtapError::InvalidCbor)
        },
        Err(e) => Err(e),
    }
}

/// The count, if it is definite.
pub open spec fn definite(i: Taken<Option<int>>) -> Taken<int> {
    match i {
        Ok((Some(n), next)) => Ok((n, next)),
        Ok((None, _)) => Err(CtapError::InvalidCbor),
        Err(e) => Err(e),
    }
}

/// An unsigned 64-bit number.
pub open spec fn u64_item(s: Seq<u8>, pos: int) -> Taken<int> {
    taken(cbor::u64_at(s, pos))
}

/// An unsigned 32-bit number.
pub open spec fn u32_item(s: Seq<u8>, pos: int) -> Taken<int> {
    bounded(taken(cbor::u64_at(s, pos)), 0, u32::MAX as int)
}

/// A signed 64-bit number.
pub open spec fn i64_item(s: Seq<u8>, pos: int) -> Taken<int> {
    taken(cbor::i64_at(s, pos))
}

/// A signed 32-bit number.
pub open spec fn i32_item(s: Seq<u8>, pos: int) -> Taken<int> {
    bounded(taken(cbor::i64_at(s, pos)), i32::MIN as int, i32::MAX as int)
}

/// A boolean.
pub open spec fn bool_item(s: Seq<u8>, pos: int) -> Taken<bool> {
    taken(cbor::bool_at(s, pos))
}

/// A byte string.
pub open spec fn bytes_item(s: Seq<u8>, pos: int) -> Taken<Seq<u8>> {
    taken(cbor::bytes_at(s, pos))
}

/// The bytes of a text.
pub open spec fn text_item(s: Seq<u8>, pos: int) -> Taken<Seq<u8>> {
    taken(cbor::text_at(s, pos))
}

/// The head of a definite-length array.
pub open spec fn array_item(s: Seq<u8>, pos: int) -> Taken<int> {
    definite(taken(cbor::count_at(s, pos, 4)))
}

/// The head of a definite-length map.
pub open spec fn map_item(s: Seq<u8>, pos: int) -> Taken<int> {
    definite(taken(cbor::count_at(s, pos, 5)))
}

/// An item of any type, passed over.
pub open spec fn any_item(s: Seq<u8>, pos: int) -> Result<int, CtapError> {
    match cbor::skipped(s, pos) {
        Ok(next) => Ok(next),
        Err(m) => Err(fault(m)),
    }
}

/// The unsigned number that was taken.
pub open spec fn got_u(r: Result<(u64, usize), CtapError>) -> Taken<int> {
    match r {
        Ok(v) => Ok((v.0 as int, v.1 as int)),
        Err(e) => Err(e),
    }
}

/// The signed number that was taken.
pub open spec fn got_i(r: Result<(i64, usize), CtapError>) -> Taken<int> {
    match r {
        Ok(v) => Ok((v.0 as int, v.1 as int)),
        Err(e) => Err(e),
    }
}

/// The boolean that was taken.
pub open spec fn got_b(r: Result<(bool, usize), CtapError>) -> Taken<bool> {
    match r {
        Ok(v) => Ok((v.0, v.1 as int)),
        Err(e) => Err(e),
    }
}

/// The string that was taken.
pub open spec fn got_s(r: Result<(&[u8], usize), CtapError>) -> Taken<Seq<u8>> {
    match r {
        Ok(v) => Ok((v.0@, v.1 as int)),
        Err(e) => Err(e),
    }
}

/// The end of the item that was passed over.
pub open spec fn got_end(r: Result<usize, CtapError>) -> Result<int, CtapError> {
    match r {
        Ok(next) => Ok(next as int),
        Err(e) => Err(e),
    }
}

fn refusal(mismatch: bool) -> (e: CtapError)
    ensures
        e == fault(mismatch),
{
    if mismatch {
        CtapError::CborUnexpectedType
    } else {
        CtapError::InvalidCbor
    }
}

/// Takes an unsigned 64-bit number.
pub fn take_u64(data: &[u8], pos: usize) -> (r: Result<(u64, usize), CtapError>)
    ensures
        got_u(r) == u64_item(data@, pos as int),
{
    match next_u64(data, pos) {
        Ok(v) => Ok(v),
        Err(m) => Err(refusal(m)),
    }
}

/// Takes an unsigned 32-bit number.
pub fn take_u32(data: &[u8], pos: usize) -> (r: Result<(u64, usize), CtapError>)
    ensures
        got_u(r) == u32_item(data@, pos as int),
        r matches Ok(v) ==> v.0 <= u32::MAX,
{
    match next_u64(data, pos) {
        Ok(v) => {
            if v.0 > 0xffff_ffff {
                return Err(CtapError::InvalidCbor);
            }
            Ok(v)
        },
        Err(m) => Err(refusal(m)),
    }
}

/// Takes a signed 64-bit number.
pub fn take_i64(data: &[u8], pos: usize) -> (r: Result<(i64, usize), CtapError>)
    ensures
        got_i(r) == i64_item(data@, pos as int),
{
    match next_i64(data, pos) {
        Ok(v) => Ok(v),
        Err(m) => Err(refusal(m)),
    }
}

/// Takes a signed 32-bit number.
pub fn take_i32(data: &[u8], pos: usize) -> (r: Result<(i64, usize), CtapError>)
    ensures
        got_i(r) == i32_item(data@, pos as int),
{
    match next_i64(data, pos) {
        Ok(v) => {
            if v.0 < -0x8000_0000 || v.0 > 0x7fff_ffff {
                return Err(CtapError::InvalidCbor);
            }
            Ok(v)
        },
        Err(m) => Err(refusal(m)),
    }
}

/// Takes a boolean.
pub fn take_bool(data: &[u8], pos: usize) -> (r: Result<(bool, usize), CtapError>)
    ensures
        got_b(r) == bool_item(data@, pos as int),
{
    match next_bool(data, pos) {
        Ok(v) => Ok(v),
        Err(m) => Err(refusal(m)),
    }
}

/// Takes a byte string.
pub fn take_bytes(data: &[u8], pos: usize) -> (r: Result<(&[u8], usize), CtapError>)
    ensures
        got_s(r) == bytes_item(data@, pos as int),
{
    match next_bytes(data, pos) {
        Ok(v) => Ok(v),
        Err(m) => Err(refusal(m)),
    }
}

/// Takes a text, as its bytes.
pub fn take_text(data: &[u8], pos: usize) -> (r: Result<(&[u8], usize), CtapError>)
    ensures
        got_s(r) == text_item(data@, pos as int),
{
    match next_text(data, pos) {
        Ok(v) => Ok(v),
        Err(m) => Err(refusal(m)),
    }
}

/// Takes the head of a definite-length array.
pub fn def_arr(data: &[u8], pos: usize) -> (r: Result<(u64, usize), CtapError>)
    ensures
        got_u(r) == array_item(data@, pos as int),
{
    match next_array(data, pos) {
        Ok((Some(n), next)) => Ok((n, next)),
        Ok((None, _)) => Err(CtapError::InvalidCbor),
        Err(m) => Err(refusal(m)),
    }
}

/// Takes the head of a definite-length map.
pub fn def_map(data: &[u8], pos: usize) -> (r: Result<(u64, usize), CtapError>)
    ensures
        got_u(r) == map_item(data@, pos as int),
{
    match next_map(data, pos) {
        Ok((Some(n), next)) => Ok((n, next)),
        Ok((None, _)) => Err(CtapError::InvalidCbor),
        Err(m) => Err(refusal(m)),
    }
}

/// Passes over an item of any type.
pub fn skip_item(data: &[u8], pos: usize) -> (r: Result<usize, CtapError>)
    ensures
        got_end(r) == any_item(data@, pos as int),
{
    match next_skip(data, pos) {
        Ok(next) => Ok(next),
        Err(m) => Err(refusal(m)),
    }
}

/// What is taken where a value stands: the value itself, or the head of a list
/// or a map with its contents behind it.
pub proof fn lemma_taken(s: Seq<u8>, pos: int, v: Value)
    requires
        cborvalue::stands(s, pos, cborvalue::enc(v)),
        cborvalue::sized(v),
    ensures
        ({
            let end = pos + cborvalue::enc(v).len();
            match v {
                Value::Int(n) => {
                    &&& n >= 0 ==> u64_item(s, pos) == Ok::<(int, int), CtapError>((n, end))
                    &&& 0 <= n <= u32::MAX ==> u32_item(s, pos) == Ok::<(int, int), CtapError>(
                        (n, end),
                    )
                    &&& i64::MIN <= n <= i64::MAX ==> i64_item(s, pos) == Ok::<
                        (int, int),
                        CtapError,
                    >((n, end))
                    &&& i32::MIN <= n <= i32::MAX ==> i32_item(s, pos) == Ok::<
                        (int, int),
                        CtapError,
                    >((n, end))
                },
                Value::Bytes(b) => bytes_item(s, pos) == Ok::<(Seq<u8>, int), CtapError>((b, end)),
                Value::Text(t) => text_item(s, pos) == Ok::<(Seq<u8>, int), CtapError>(
                    (encode_utf8(t), end),
                ),
                Value::Bool(b) => bool_item(s, pos) == Ok::<(bool, int), CtapError>((b, end)),
                Value::List(items) => {
                    let at = end - cborvalue::enc_items(items).len();
                    &&& array_item(s, pos) == Ok::<(int, int), CtapError>((items.len() as int, at))
                    &&& cborvalue::stands(s, at, cborvalue::enc_items(items))
                },
                Value::Table(entries) => {
                    let at = end - cborvalue::enc_entries(entries).len();
                    &&& map_item(s, pos) == Ok::<(int, int), CtapError>((entries.len() as int, at))
                    &&& cborvalue::stands(s, at, cborvalue::enc_entries(entries))
                },
            }
        }),
{
    match v {
        Value::Int(n) => {
            if n >= 0 {
                cborvalue::lemma_uint(s, pos, n);
            }
            if i64::MIN <= n <= i64::MAX {
                cborvalue::lemma_sint(s, pos, n);
            }
        },
        Value::Bytes(b) => {
            cborvalue::lemma_bytes(s, pos, b);
        },
        Value::Text(t) => {
            cborvalue::lemma_text(s, pos, t);
        },
        Value::Bool(b) => {
            cborvalue::lemma_bool(s, pos, b);
        },
        Value::List(items) => {
            let h = cbor::array(items.len() as int);
            cborvalue::lemma_stands(s, pos, h, cborvalue::enc_items(items));
            cborvalue::lemma_count(s, pos, 4, items.len() as int);
        },
        Value::Table(entries) => {
            let h = cbor::map(entries.len() as int);
            cborvalue::lemma_stands(s, pos, h, cborvalue::enc_entries(entries));
            cborvalue::lemma_count(s, pos, 5, entries.len() as int);
        },
    }
}

/// Where a value of another type stands, it is refused as such: a map or a list
/// where a string is read, a string where a number is read, and so on.
pub proof fn law_wrong_type_is_refused(s: Seq<u8>, pos: int, v: Value)
    requires
        cborvalue::stands(s, pos, cborvalue::enc(v)),
        cborvalue::sized(v),
        !(v is Int),
    ensures
        u64_item(s, pos) == Err::<(int, int), CtapError>(CtapError::CborUnexpectedType),
        u32_item(s, pos) == Err::<(int, int), CtapError>(CtapError::CborUnexpectedType),
        i64_item(s, pos) == Err::<(int, int), CtapError>(CtapError::CborUnexpectedType),
        i32_item(s, pos) == Err::<(int, int), CtapError>(CtapError::CborUnexpectedType),
        !(v is Bool) ==> bool_item(s, pos) == Err::<(bool, int), CtapError>(
            CtapError::CborUnexpectedType,
        ),
        !(v is Bytes) ==> bytes_item(s, pos) == Err::<(Seq<u8>, int), CtapError>(
            CtapError::CborUnexpectedType,
        ),
        !(v is Text) ==> text_item(s, pos) == Err::<(Seq<u8>, int), CtapError>(
            CtapError::CborUnexpectedType,
        ),
        !(v is List) ==> array_item(s, pos) == Err::<(int, int), CtapError>(
            CtapError::CborUnexpectedType,
        ),
        !(v is Table) ==> map_item(s, pos) == Err::<(int, int), CtapError>(
            CtapError::CborUnexpectedType,
        ),
{
    match v {
        Value::Int(n) => {},
        Value::Bytes(b) => {
            cborvalue::lemma_stands(s, pos, cbor::head(2, b.len() as int), b);
            cborvalue::lemma_head(s, pos, 2, b.len() as int);
        },
        Value::Text(t) => {
            cborvalue::lemma_stands(
                s,
                pos,
                cbor::head(3, encode_utf8(t).len() as int),
                encode_utf8(t),
            );
            cborvalue::lemma_head(s, pos, 3, encode_utf8(t).len() as int);
        },
        Value::Bool(b) => {
            cborvalue::lemma_bool(s, pos, b);
        },
        Value::List(items) => {
            cborvalue::lemma_stands(
                s,
                pos,
                cbor::array(items.len() as int),
                cborvalue::enc_items(items),
            );
            cborvalue::lemma_head(s, pos, 4, items.len() as int);
        },
        Value::Table(entries) => {
            cborvalue::lemma_stands(
                s,
                pos,
                cbor::map(entries.len() as int),
                cborvalue::enc_entries(entries),
            );
            cborvalue::lemma_head(s, pos, 5, entries.len() as int);
        },
    }
}

}
