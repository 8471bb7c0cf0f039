//! CBOR items at a position of a byte string, and CBOR items appended to one.
//!
//! Each reading function is one call of `minicbor::Decoder`, each writing
//! function one call of `minicbor::Encoder`; the spec functions say what those
//! calls accept, give and write.

use minicbor::{Decoder, Encoder};
use vstd::prelude::*;
use vstd::utf8::*;

use crate::crypto;

verus! {

// ---- reading ----
/// The outcome of reading an item: its value and where the next item starts,
/// or why there is none. `Err(true)` is an item of another type, `Err(false)`
/// everything else: the input ends, a number does not fit, a text is not UTF-8.
pub type Item<T> = Result<(T, int), bool>;

/// The argument of an item head whose low five bits are `info`, the bytes that
/// follow the head starting at `at`.
pub open spec fn argument(s: Seq<u8>, at: int, info: u8) -> Item<int> {
    let width: int = if info <= 0x17 {
        0
    } else if info == 0x18 {
        1
    } else if info == 0x19 {
        2
    } else if info == 0x1a {
        4
    } else {
        8
    };
    if info > 0x1b {
        Err(true)
    } else if info <= 0x17 {
        Ok((info as int, at))
    } else if at + width > s.len() {
        Err(false)
    } else {
        Ok((crypto::be_value(s.subrange(at, at + width)) as int, at + width))
    }
}

/// What reading another type at `pos` gives. The type of a negative integer
/// with an explicit argument is told by the byte two places on, so a shorter
/// input is reported as ended.
pub open spec fn other_type<T>(s: Seq<u8>, pos: int) -> Item<T> {
    if 0x38 <= s[pos] <= 0x3b && pos + 2 >= s.len() {
        Err(false)
    } else {
        Err(true)
    }
}

/// An unsigned integer.
pub open spec fn u64_at(s: Seq<u8>, pos: int) -> Item<int> {
    if pos >= s.len() {
        Err(false)
    } else if s[pos] <= 0x1b {
        argument(s, pos + 1, s[pos])
    } else {
        other_type(s, pos)
    }
}

/// A signed integer.
pub open spec fn i64_at(s: Seq<u8>, pos: int) -> Item<int> {
    if pos >= s.len() {
        Err(false)
    } else if s[pos] <= 0x1b || 0x20 <= s[pos] <= 0x3b {
        match argument(s, pos + 1, (s[pos] % 0x20) as u8) {
            Ok((n, next)) => if n > i64::MAX {
                Err(false)
            } else if s[pos] <= 0x1b {
                Ok((n, next))
            } else {
                Ok((-1 - n, next))
            },
            Err(e) => Err(e),
        }
    } else {
        other_type(s, pos)
    }
}

/// A boolean.
pub open spec fn bool_at(s: Seq<u8>, pos: int) -> Item<bool> {
    if pos >= s.len() {
        Err(false)
    } else if s[pos] == 0xf4 {
        Ok((false, pos + 1))
    } else if s[pos] == 0xf5 {
        Ok((true, pos + 1))
    } else {
        other_type(s, pos)
    }
}

/// The bytes of a definite-length string of the given major type.
pub open spec fn string_at(s: Seq<u8>, pos: int, major: u8) -> Item<Seq<u8>> {
    if pos >= s.len() {
        Err(false)
    } else if s[pos] / 0x20 != major || s[pos] % 0x20 == 31 {
        other_type(s, pos)
    } else {
        match argument(s, pos + 1, (s[pos] % 0x20) as u8) {
            Ok((n, next)) => if next + n > s.len() {
                Err(false)
            } else {
                Ok((s.subrange(next, next + n), next + n))
            },
            Err(e) => Err(e),
        }
    }
}

/// A definite-length byte string.
pub open spec fn bytes_at(s: Seq<u8>, pos: int) -> Item<Seq<u8>> {
    string_at(s, pos, 2)
}

/// The UTF-8 bytes of a definite-length text.
pub open spec fn text_at(s: Seq<u8>, pos: int) -> Item<Seq<u8>> {
    match string_at(s, pos, 3) {
        Ok((t, next)) => if valid_utf8(t) {
            Ok((t, next))
        } else {
            Err(false)
        },
        Err(e) => Err(e),
    }
}

/// The number of entries of an array (major type 4) or map (5), `None` where
/// the length is indefinite.
pub open spec fn count_at(s: Seq<u8>, pos: int, major: u8) -> Item<Option<int>> {
    if pos >= s.len() {
        Err(false)
    } else if s[pos] / 0x20 != major {
        other_type(s, pos)
    } else if s[pos] % 0x20 == 31 {
        Ok((None, pos + 1))
    } else {
        match argument(s, pos + 1, (s[pos] % 0x20) as u8) {
            Ok((n, next)) => Ok((Some(n), next)),
            Err(e) => Err(e),
        }
    }
}

/// Where the item at a position ends, or why it cannot be passed over.
pub uninterp spec fn skipped(s: Seq<u8>, pos: int) -> Result<int, bool>;

/// An integer was read as stated.
pub open spec fn read_u64(r: Result<(u64, usize), bool>, e: Item<int>) -> bool {
    match r {
        Ok(v) => e == Ok::<(int, int), bool>((v.0 as int, v.1 as int)),
        Err(m) => e == Err::<(int, int), bool>(m),
    }
}

/// A signed integer was read as stated.
pub open spec fn read_i64(r: Result<(i64, usize), bool>, e: Item<int>) -> bool {
    match r {
        Ok(v) => e == Ok::<(int, int), bool>((v.0 as int, v.1 as int)),
        Err(m) => e == Err::<(int, int), bool>(m),
    }
}

/// A boolean was read as stated.
pub open spec fn read_bool(r: Result<(bool, usize), bool>, e: Item<bool>) -> bool {
    match r {
        Ok(v) => e == Ok::<(bool, int), bool>((v.0, v.1 as int)),
        Err(m) => e == Err::<(bool, int), bool>(m),
    }
}

/// A string was read as stated.
pub open spec fn read_string(r: Result<(&[u8], usize), bool>, e: Item<Seq<u8>>) -> bool {
    match r {
        Ok(v) => e == Ok::<(Seq<u8>, int), bool>((v.0@, v.1 as int)),
        Err(m) => e == Err::<(Seq<u8>, int), bool>(m),
    }
}

/// A count was read as stated.
pub open spec fn read_count(r: Result<(Option<u64>, usize), bool>, e: Item<Option<int>>) -> bool {
    match r {
        Ok((Some(n), next)) => e == Ok::<(Option<int>, int), bool>((Some(n as int), next as int)),
        Ok((None, next)) => e == Ok::<(Option<int>, int), bool>((None, next as int)),
        Err(m) => e == Err::<(Option<int>, int), bool>(m),
    }
}

/// An item was passed over as stated.
pub open spec fn read_end(r: Result<usize, bool>, e: Result<int, bool>) -> bool {
    match r {
        Ok(next) => e == Ok::<int, bool>(next as int),
        Err(m) => e == Err::<int, bool>(m),
    }
}

/// `minicbor::Decoder::u64` at `pos`.
#[verifier::external_body]
pub(crate) fn next_u64(data: &[u8], pos: usize) -> (r: Result<(u64, usize), bool>)
    ensures
        read_u64(r, u64_at(data@, pos as int)),
{
    let mut d = Decoder::new(data);
    d.set_position(pos);
    match d.u64() {
        Ok(v) => Ok((v, d.position())),
        Err(e) => Err(e.is_type_mismatch()),
    }
}

/// `minicbor::Decoder::i64` at `pos`.
#[verifier::external_body]
pub(crate) fn next_i64(data: &[u8], pos: usize) -> (r: Result<(i64, usize), bool>)
    ensures
        read_i64(r, i64_at(data@, pos as int)),
{
    let mut d = Decoder::new(data);
    d.set_position(pos);
    match d.i64() {
        Ok(v) => Ok((v, d.position())),
        Err(e) => Err(e.is_type_mismatch()),
    }
}

/// `minicbor::Decoder::bool` at `pos`.
#[verifier::external_body]
pub(crate) fn next_bool(data: &[u8], pos: usize) -> (r: Result<(bool, usize), bool>)
    ensures
        read_bool(r, bool_at(data@, pos as int)),
{
    let mut d = Decoder::new(data);
    d.set_position(pos);
    match d.bool() {
        Ok(v) => Ok((v, d.position())),
        Err(e) => Err(e.is_type_mismatch()),
    }
}

/// `minicbor::Decoder::bytes` at `pos`.
#[verifier::external_body]
pub(crate) fn next_bytes(data: &[u8], pos: usize) -> (r: Result<(&[u8], usize), bool>)
    ensures
        read_string(r, bytes_at(data@, pos as int)),
{
    let mut d = Decoder::new(data);
    d.set_position(pos);
    match d.bytes() {
        Ok(v) => Ok((v, d.position())),
        Err(e) => Err(e.is_type_mismatch()),
    }
}

/// `minicbor::Decoder::str` at `pos`, as the bytes of the text.
#[verifier::external_body]
pub(crate) fn next_text(data: &[u8], pos: usize) -> (r: Result<(&[u8], usize), bool>)
    ensures
        read_string(r, text_at(data@, pos as int)),
{
    let mut d = Decoder::new(data);
    d.set_position(pos);
    match d.str() {
        Ok(v) => Ok((v.as_bytes(), d.position())),
        Err(e) => Err(e.is_type_mismatch()),
    }
}

/// `minicbor::Decoder::array` at `pos`.
#[verifier::external_body]
pub(crate) fn next_array(data: &[u8], pos: usize) -> (r: Result<(Option<u64>, usize), bool>)
    ensures
        read_count(r, count_at(data@, pos as int, 4)),
{
    let mut d = Decoder::new(data);
    d.set_position(pos);
    match d.array() {
        Ok(v) => Ok((v, d.position())),
        Err(e) => Err(e.is_type_mismatch()),
    }
}

/// `minicbor::Decoder::map` at `pos`.
#[verifier::external_body]
pub(crate) fn next_map(data: &[u8], pos: usize) -> (r: Result<(Option<u64>, usize), bool>)
    ensures
        read_count(r, count_at(data@, pos as int, 5)),
{
    let mut d = Decoder::new(data);
    d.set_position(pos);
    match d.map() {
        Ok(v) => Ok((v, d.position())),
        Err(e) => Err(e.is_type_mismatch()),
    }
}

/// `minicbor::Decoder::skip` at `pos`: where the item ends is determined by the
/// bytes and the position. It consumes at least one byte and no more than there
/// are.
#[verifier::external_body]
pub(crate) fn next_skip(data: &[u8], pos: usize) -> (r: Result<usize, bool>)
    ensures
        read_end(r, skipped(data@, pos as int)),
        r matches Ok(next) ==> pos < next <= data@.len(),
{
    let mut d = Decoder::new(data);
    d.set_position(pos);
    match d.skip() {
        Ok(()) => Ok(d.position()),
        Err(e) => Err(e.is_type_mismatch()),
    }
}

// ---- writing ----
/// `n` as `width` big-endian bytes.
pub open spec fn be_bytes(n: int, width: nat) -> Seq<u8>
    decreases width,
{
    if width == 0 {
        Seq::empty()
    } else {
        be_bytes(n / 256, (width - 1) as nat).push((n % 256) as u8)
    }
}

/// The shortest item head of the given major type and argument.
pub open spec fn head(major: int, n: int) -> Seq<u8> {
    let top = major * 0x20;
    if n <= 0x17 {
        seq![(top + n) as u8]
    } else if n <= 0xff {
        seq![(top + 0x18) as u8] + be_bytes(n, 1)
    } else if n <= 0xffff {
        seq![(top + 0x19) as u8] + be_bytes(n, 2)
    } else if n <= 0xffff_ffff {
        seq![(top + 0x1a) as u8] + be_bytes(n, 4)
    } else {
        seq![(top + 0x1b) as u8] + be_bytes(n, 8)
    }
}

/// An unsigned integer.
pub open spec fn uint(n: int) -> Seq<u8> {
    head(0, n)
}

/// A signed integer.
pub open spec fn sint(n: int) -> Seq<u8> {
    if n >= 0 {
        head(0, n)
    } else {
        head(1, -1 - n)
    }
}

/// A byte string.
pub open spec fn bytes(b: Seq<u8>) -> Seq<u8> {
    head(2, b.len() as int) + b
}

/// A text.
pub open spec fn text(t: Seq<char>) -> Seq<u8> {
    head(3, encode_utf8(t).len() as int) + encode_utf8(t)
}

/// A boolean.
pub open spec fn boolean(b: bool) -> Seq<u8> {
    seq![if b {
        0xf5u8
    } else {
        0xf4u8
    }]
}

/// The head of an array of `n` items.
pub open spec fn array(n: int) -> Seq<u8> {
    head(4, n)
}

/// The head of a map of `n` entries.
pub open spec fn map(n: int) -> Seq<u8> {
    head(5, n)
}

/// `minicbor::Encoder::u64` at the end of `out`.
#[verifier::external_body]
pub(crate) fn put_u64(out: &mut Vec<u8>, n: u64)
    ensures
        final(out)@ == old(out)@ + uint(n as int),
{
    Encoder::new(out).u64(n).unwrap();
}

/// `minicbor::Encoder::i64` at the end of `out`.
#[verifier::external_body]
pub(crate) fn put_i64(out: &mut Vec<u8>, n: i64)
    ensures
        final(out)@ == old(out)@ + sint(n as int),
{
    Encoder::new(out).i64(n).unwrap();
}

/// `minicbor::Encoder::bytes` at the end of `out`.
#[verifier::external_body]
pub(crate) fn put_bytes(out: &mut Vec<u8>, b: &[u8])
    ensures
        final(out)@ == old(out)@ + bytes(b@),
{
    Encoder::new(out).bytes(b).unwrap();
}

/// `minicbor::Encoder::str` at the end of `out`.
#[verifier::external_body]
pub(crate) fn put_str(out: &mut Vec<u8>, t: &str)
    ensures
        final(out)@ == old(out)@ + text(t@),
{
    Encoder::new(out).str(t).unwrap();
}

/// `minicbor::Encoder::bool` at the end of `out`.
#[verifier::external_body]
pub(crate) fn put_bool(out: &mut Vec<u8>, b: bool)
    ensures
        final(out)@ == old(out)@ + boolean(b),
{
    Encoder::new(out).bool(b).unwrap();
}

/// `minicbor::Encoder::array` at the end of `out`.
#[verifier::external_body]
pub(crate) fn put_array(out: &mut Vec<u8>, n: u64)
    ensures
        final(out)@ == old(out)@ + array(n as int),
{
    Encoder::new(out).array(n).unwrap();
}

/// `minicbor::Encoder::map` at the end of `out`.
#[verifier::external_body]
pub(crate) fn put_map(out: &mut Vec<u8>, n: u64)
    ensures
        final(out)@ == old(out)@ + map(n as int),
{
    Encoder::new(out).map(n).unwrap();
}

}
