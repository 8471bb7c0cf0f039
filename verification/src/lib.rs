//! Verified core of a hardware security key: post-quantum signatures, the
//! key-value file system, device configuration and the FIDO authenticator.

pub mod cbor;
pub mod cborvalue;
pub mod crypto;
pub mod fido;
pub mod fs;
pub mod led;
pub mod mgmt;
pub mod mldsa;
pub mod sdk;
pub mod wipe;
