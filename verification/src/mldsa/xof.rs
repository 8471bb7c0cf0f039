//! The extendable-output functions behind all sampling and hashing.

use sha3::digest::{ExtendableOutput, Update, XofReader};
use sha3::{Shake128, Shake256};
use vstd::prelude::*;

verus! {

/// Byte `i` of the SHAKE256 output stream on `input`.
pub uninterp spec fn shake256_byte(input: Seq<u8>, i: int) -> u8;

/// Byte `i` of the SHAKE128 output stream on `input`.
pub uninterp spec fn shake128_byte(input: Seq<u8>, i: int) -> u8;

/// The first `n` bytes of the SHAKE256 output stream on `input`.
pub open spec fn stream256(input: Seq<u8>, n: nat) -> Seq<u8> {
    Seq::new(n, |i: int| shake256_byte(input, i))
}

/// The first `n` bytes of the SHAKE128 output stream on `input`.
pub open spec fn stream128(input: Seq<u8>, n: nat) -> Seq<u8> {
    Seq::new(n, |i: int| shake128_byte(input, i))
}

/// `sha3::Shake256`, fed with `input` and read once for `n` bytes: the bytes
/// read are the start of one output stream that the input alone determines. No
/// vector can hold more than is allowed here on a 32-bit machine.
#[verifier::external_body]
pub(crate) fn shake256(input: &[u8], n: usize) -> (out: Vec<u8>)
    requires
        n <= 0x7fff_ffff,
    ensures
        out@.len() == n,
        forall|i: int| 0 <= i < n ==> #[trigger] out@[i] == shake256_byte(input@, i),
{
    let mut h = Shake256::default();
    h.update(input);
    let mut out = vec![0u8; n];
    h.finalize_xof().read(&mut out);
    out
}

/// `sha3::Shake128`, fed with `input` and read once for `n` bytes: the bytes
/// read are the start of one output stream that the input alone determines. No
/// vector can hold more than is allowed here on a 32-bit machine.
#[verifier::external_body]
pub(crate) fn shake128(input: &[u8], n: usize) -> (out: Vec<u8>)
    requires
        n <= 0x7fff_ffff,
    ensures
        out@.len() == n,
        forall|i: int| 0 <= i < n ==> #[trigger] out@[i] == shake128_byte(input@, i),
{
    let mut h = Shake128::default();
    h.update(input);
    let mut out = vec![0u8; n];
    h.finalize_xof().read(&mut out);
    out
}

}
