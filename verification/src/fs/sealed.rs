//! Types that keep secret key material out of the plain read and write paths.

use vstd::prelude::*;

verus! {

/// The FID of a key slot. It is no `u16`, so the plain file calls do not take
/// it.
#[derive(Debug, Clone, Copy, PartialEq, Eq, Structural)]
pub struct KeyFid(u16);

impl KeyFid {
    /// The FID of the slot.
    pub closed spec fn fid(&self) -> u16 {
        self.0
    }

    /// Names the slot `fid`.
    pub fn new(fid: u16) -> (k: Self)
        ensures
            k.fid() == fid,
    {
        KeyFid(fid)
    }

    /// The FID of the slot.
    pub fn get(&self) -> (fid: u16)
        ensures
            fid == self.fid(),
    {
        self.0
    }
}

/// Bytes that have been sealed and may go to a key slot.
pub struct Sealed<'a>(&'a [u8]);

impl<'a> View for Sealed<'a> {
    type V = Seq<u8>;

    closed spec fn view(&self) -> Seq<u8> {
        self.0@
    }
}

impl<'a> Sealed<'a> {
    /// Marks `bytes` as sealed.
    pub fn wrap(bytes: &'a [u8]) -> (s: Self)
        ensures
            s@ == bytes@,
    {
        Sealed(bytes)
    }

    /// The sealed bytes.
    pub fn as_bytes(&self) -> (b: &'a [u8])
        ensures
            b@ == self@,
    {
        self.0
    }
}

}
