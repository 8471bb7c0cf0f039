//! Overwriting secrets before their memory is given up.

use vstd::prelude::*;
use zeroize::Zeroize;

verus! {

/// `zeroize::Zeroize::zeroize` on a slice of bytes: afterwards every byte of
/// the slice is zero.
#[verifier::external_body]
pub(crate) fn wipe(b: &mut [u8])
    ensures
        final(b)@.len() == old(b)@.len(),
        forall|i: int| 0 <= i < final(b)@.len() ==> final(b)@[i] == 0u8,
    opens_invariants none
    no_unwind
{
    b.zeroize();
}

/// `zeroize::Zeroize::zeroize` on a slice of 32-bit integers: afterwards every
/// integer of the slice is zero.
#[verifier::external_body]
pub(crate) fn wipe_words(b: &mut [i32])
    ensures
        final(b)@.len() == old(b)@.len(),
        forall|i: int| 0 <= i < final(b)@.len() ==> final(b)@[i] == 0i32,
    opens_invariants none
    no_unwind
{
    b.zeroize();
}

}
