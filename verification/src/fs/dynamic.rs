//! The list of dynamic files, in a vector of fixed capacity.

use heapless;
use vstd::prelude::*;

verus! {

/// `heapless::Vec`, a vector of fixed capacity.
#[verifier::external_type_specification]
#[verifier::external_body]
#[verifier::reject_recursive_types(T)]
pub struct ExHeaplessVec<T, const N: usize>(heapless::Vec<T, N>);

/// What a list of files holds, in order.
pub uninterp spec fn fid_list(v: heapless::Vec<u16, 1280>) -> Seq<u16>;

/// `heapless::Vec::new`: the list is empty.
#[verifier::external_body]
pub(crate) fn list_new() -> (v: heapless::Vec<u16, 1280>)
    ensures
        fid_list(v) == Seq::<u16>::empty(),
{
    heapless::Vec::new()
}

/// `len` on a `heapless::Vec`: the number of items, at most the capacity.
#[verifier::external_body]
pub(crate) fn list_len(v: &heapless::Vec<u16, 1280>) -> (n: usize)
    ensures
        n == fid_list(*v).len(),
        n <= 1280,
{
    v.len()
}

/// `contains` on a `heapless::Vec`: whether an item equals `fid`.
#[verifier::external_body]
pub(crate) fn list_contains(v: &heapless::Vec<u16, 1280>, fid: u16) -> (r: bool)
    ensures
        r == fid_list(*v).contains(fid),
{
    v.contains(&fid)
}

/// `heapless::Vec::is_full`: whether the capacity is used up.
#[verifier::external_body]
pub(crate) fn list_is_full(v: &heapless::Vec<u16, 1280>) -> (r: bool)
    ensures
        r == (fid_list(*v).len() >= 1280),
{
    v.is_full()
}

/// `heapless::Vec::push`: appends the item, or hands it back and changes
/// nothing when the capacity is used up.
#[verifier::external_body]
pub(crate) fn list_push(v: &mut heapless::Vec<u16, 1280>, fid: u16) -> (r: Result<(), u16>)
    ensures
        r is Ok <==> fid_list(*old(v)).len() < 1280,
        r is Ok ==> fid_list(*final(v)) == fid_list(*old(v)).push(fid),
        r is Err ==> fid_list(*final(v)) == fid_list(*old(v)),
        r matches Err(back) ==> back == fid,
{
    v.push(fid)
}

/// `heapless::Vec::clear`: the list is empty.
#[verifier::external_body]
pub(crate) fn list_clear(v: &mut heapless::Vec<u16, 1280>)
    ensures
        fid_list(*final(v)) == Seq::<u16>::empty(),
{
    v.clear();
}

/// The FIDs differ.
pub(crate) fn differs(a: u16, b: u16) -> (r: bool)
    ensures
        r == (a != b),
{
    a != b
}

/// The items other than `fid`, in order.
pub open spec fn others(s: Seq<u16>, fid: u16) -> Seq<u16> {
    s.filter(|f: u16| f != fid)
}

/// `heapless::Vec::retain`: keeps the items other than `fid`, in order.
#[verifier::external_body]
pub(crate) fn list_drop(v: &mut heapless::Vec<u16, 1280>, fid: u16)
    ensures
        fid_list(*final(v)) == others(fid_list(*old(v)), fid),
{
    v.retain(|f| differs(*f, fid));
}

}
