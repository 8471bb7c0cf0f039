//! ML-DSA (FIPS 204) key generation, signing and verification for the
//! parameter sets ML-DSA-44 and ML-DSA-65.

pub mod digits;
pub mod encode;
pub mod laws;
pub mod modq;
pub mod ntt;
pub mod pack;
pub mod params;
pub mod poly;
pub mod reduce;
pub mod ring;
pub mod round;
pub mod sample;
pub mod scheme;
pub mod sign;
pub mod xof;

use vstd::prelude::*;

use crate::mldsa::params::{ml_dsa_44, ml_dsa_65};
use crate::mldsa::scheme::KeyData;
use crate::mldsa::sign::{seed_expands, verify, ExpandedKey};

verus! {

/// Length of the key-generation seed (both parameter sets).
pub const SEED_LEN: usize = 32;

/// ML-DSA-44 serialized public-key length.
pub const MLDSA44_PK_LEN: usize = 1312;

/// ML-DSA-44 signature length.
pub const MLDSA44_SIG_LEN: usize = 2420;

/// ML-DSA-65 serialized public-key length.
pub const MLDSA65_PK_LEN: usize = 1952;

/// ML-DSA-65 signature length.
pub const MLDSA65_SIG_LEN: usize = 3309;

/// Errors from the fallible operations.
#[derive(Debug, Clone, Copy, PartialEq, Eq, Structural)]
pub enum Error {
    /// The signature output buffer was shorter than the parameter set's
    /// signature length.
    BufferTooSmall,
    /// No attempt was accepted before the 16-bit counter ran out, or a hash
    /// stream did not hold enough values.
    Exhausted,
}

/// An ML-DSA-44 keypair expanded from a 32-byte seed. Signs with an empty FIPS 204
/// context (the COSE and WebAuthn profile). The key is overwritten when it goes
/// out of scope.
pub struct MlDsa44(ExpandedKey<4, 4>);

impl View for MlDsa44 {
    type V = KeyData;

    closed spec fn view(&self) -> KeyData {
        self.0@
    }
}

impl MlDsa44 {
    #[verifier::type_invariant]
    closed spec fn inv(&self) -> bool {
        self.0.wf(ml_dsa_44())
    }

    /// Overwrites the whole key with zeros, as going out of scope does.
    pub fn wipe(&mut self)
        ensures
            scheme::wiped(final(self)@),
    {
        proof {
            use_type_invariant(&*self);
        }
        self.0.wipe();
    }

    /// Expands the keypair from the seed.
    pub fn from_seed(xi: &[u8; 32]) -> (key: Self)
        requires
            scheme::keygen_defined(ml_dsa_44(), xi@),
        ensures
            key@ == scheme::keygen(ml_dsa_44(), xi@),
    {
        MlDsa44(ExpandedKey::from_seed(&ml_dsa_44(), xi))
    }

    /// Expands the keypair from the seed where the hash streams hold enough
    /// values, and gives `None` where they do not.
    pub fn try_from_seed(xi: &[u8; 32]) -> (r: Option<Self>)
        ensures
            r is Some <==> scheme::keygen_defined(ml_dsa_44(), xi@),
            r matches Some(key) ==> key@ == scheme::keygen(ml_dsa_44(), xi@),
    {
        if seed_expands(&ml_dsa_44(), xi) {
            Some(MlDsa44::from_seed(xi))
        } else {
            None
        }
    }

    /// The serialized public key (the COSE `pub` parameter).
    pub fn public_key(&self) -> (pk: [u8; 1312])
        ensures
            pk@ == scheme::public_key(self@),
    {
        proof {
            use_type_invariant(self);
        }
        let mut pk = [0u8; 1312];
        self.0.write_public_key(&ml_dsa_44(), &mut pk);
        pk
    }

    /// Signs `msg` (empty context) into the front of `out` and returns the
    /// signature length. `rnd` is the hedge randomness; all-zero is the
    /// deterministic variant.
    pub fn sign(&self, msg: &[u8], rnd: &[u8; 32], out: &mut [u8]) -> (r: Result<usize, Error>)
        ensures
            final(out)@.len() == old(out)@.len(),
            ({
                let sig = scheme::signature(ml_dsa_44(), self@, msg@, Seq::empty(), rnd@);
                if old(out)@.len() < MLDSA44_SIG_LEN {
                    r == Err::<usize, Error>(Error::BufferTooSmall) && final(out)@ == old(out)@
                } else if sig is None {
                    r == Err::<usize, Error>(Error::Exhausted) && final(out)@ == old(out)@
                } else {
                    r == Ok::<usize, Error>(MLDSA44_SIG_LEN) && final(out)@ == sig->0 + old(
                        out,
                    )@.skip(MLDSA44_SIG_LEN as int)
                }
            }),
    {
        proof {
            use_type_invariant(self);
        }
        if out.len() < MLDSA44_SIG_LEN {
            return Err(Error::BufferTooSmall);
        }
        let empty: Vec<u8> = Vec::new();
        let (front, _) = out.split_at_mut(MLDSA44_SIG_LEN);
        let r = self.0.sign(&ml_dsa_44(), msg, &empty, rnd, front);
        assert(empty@ =~= Seq::empty());
        proof {
            let sig = scheme::signature(ml_dsa_44(), self@, msg@, Seq::empty(), rnd@);
            if sig is Some {
                assert(out@ =~= sig->0 + old(out)@.skip(MLDSA44_SIG_LEN as int));
            } else {
                assert(out@ =~= old(out)@);
            }
        }
        match r {
            Ok(()) => Ok(MLDSA44_SIG_LEN),
            Err(e) => Err(e),
        }
    }
}

/// Verifies an ML-DSA-44 signature (empty context) against a serialized public
/// key. Malformed keys or signatures verify as `false`.
pub fn mldsa44_verify(pk: &[u8; 1312], msg: &[u8], sig: &[u8; 2420]) -> (r: bool)
    ensures
        r == scheme::valid(ml_dsa_44(), pk@, msg@, Seq::empty(), sig@),
{
    let empty: Vec<u8> = Vec::new();
    assert(empty@ =~= Seq::empty());
    verify::<4, 4>(&ml_dsa_44(), pk.as_slice(), msg, &empty, sig.as_slice())
}

/// An ML-DSA-65 keypair expanded from a 32-byte seed. Signs with an empty FIPS 204
/// context (the COSE and WebAuthn profile). The key is overwritten when it goes
/// out of scope.
pub struct MlDsa65(ExpandedKey<6, 5>);

impl View for MlDsa65 {
    type V = KeyData;

    closed spec fn view(&self) -> KeyData {
        self.0@
    }
}

impl MlDsa65 {
    #[verifier::type_invariant]
    closed spec fn inv(&self) -> bool {
        self.0.wf(ml_dsa_65())
    }

    /// Overwrites the whole key with zeros, as going out of scope does.
    pub fn wipe(&mut self)
        ensures
            scheme::wiped(final(self)@),
    {
        proof {
            use_type_invariant(&*self);
        }
        self.0.wipe();
    }

    /// Expands the keypair from the seed.
    pub fn from_seed(xi: &[u8; 32]) -> (key: Self)
        requires
            scheme::keygen_defined(ml_dsa_65(), xi@),
        ensures
            key@ == scheme::keygen(ml_dsa_65(), xi@),
    {
        MlDsa65(ExpandedKey::from_seed(&ml_dsa_65(), xi))
    }

    /// Expands the keypair from the seed where the hash streams hold enough
    /// values, and gives `None` where they do not.
    pub fn try_from_seed(xi: &[u8; 32]) -> (r: Option<Self>)
        ensures
            r is Some <==> scheme::keygen_defined(ml_dsa_65(), xi@),
            r matches Some(key) ==> key@ == scheme::keygen(ml_dsa_65(), xi@),
    {
        if seed_expands(&ml_dsa_65(), xi) {
            Some(MlDsa65::from_seed(xi))
        } else {
            None
        }
    }

    /// The serialized public key (the COSE `pub` parameter).
    pub fn public_key(&self) -> (pk: [u8; 1952])
        ensures
            pk@ == scheme::public_key(self@),
    {
        proof {
            use_type_invariant(self);
        }
        let mut pk = [0u8; 1952];
        self.0.write_public_key(&ml_dsa_65(), &mut pk);
        pk
    }

    /// Signs `msg` (empty context) into the front of `out` and returns the
    /// signature length. `rnd` is the hedge randomness; all-zero is the
    /// deterministic variant.
    pub fn sign(&self, msg: &[u8], rnd: &[u8; 32], out: &mut [u8]) -> (r: Result<usize, Error>)
        ensures
            final(out)@.len() == old(out)@.len(),
            ({
                let sig = scheme::signature(ml_dsa_65(), self@, msg@, Seq::empty(), rnd@);
                if old(out)@.len() < MLDSA65_SIG_LEN {
                    r == Err::<usize, Error>(Error::BufferTooSmall) && final(out)@ == old(out)@
                } else if sig is None {
                    r == Err::<usize, Error>(Error::Exhausted) && final(out)@ == old(out)@
                } else {
                    r == Ok::<usize, Error>(MLDSA65_SIG_LEN) && final(out)@ == sig->0 + old(
                        out,
                    )@.skip(MLDSA65_SIG_LEN as int)
                }
            }),
    {
        proof {
            use_type_invariant(self);
        }
        if out.len() < MLDSA65_SIG_LEN {
            return Err(Error::BufferTooSmall);
        }
        let empty: Vec<u8> = Vec::new();
        let (front, _) = out.split_at_mut(MLDSA65_SIG_LEN);
        let r = self.0.sign(&ml_dsa_65(), msg, &empty, rnd, front);
        assert(empty@ =~= Seq::empty());
        proof {
            let sig = scheme::signature(ml_dsa_65(), self@, msg@, Seq::empty(), rnd@);
            if sig is Some {
                assert(out@ =~= sig->0 + old(out)@.skip(MLDSA65_SIG_LEN as int));
            } else {
                assert(out@ =~= old(out)@);
            }
        }
        match r {
            Ok(()) => Ok(MLDSA65_SIG_LEN),
            Err(e) => Err(e),
        }
    }
}

/// Verifies an ML-DSA-65 signature (empty context) against a serialized public
/// key. Malformed keys or signatures verify as `false`.
pub fn mldsa65_verify(pk: &[u8; 1952], msg: &[u8], sig: &[u8; 3309]) -> (r: bool)
    ensures
        r == scheme::valid(ml_dsa_65(), pk@, msg@, Seq::empty(), sig@),
{
    let empty: Vec<u8> = Vec::new();
    assert(empty@ =~= Seq::empty());
    verify::<6, 5>(&ml_dsa_65(), pk.as_slice(), msg, &empty, sig.as_slice())
}

}
