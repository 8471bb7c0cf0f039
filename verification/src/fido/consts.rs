//! Commands, files, algorithms and limits of the authenticator.

use vstd::prelude::*;

use crate::fs::KeyFid;

verus! {

// ---- CTAP2 commands ----
pub const CTAP_MAKE_CREDENTIAL: u8 = 0x01;
pub const CTAP_GET_ASSERTION: u8 = 0x02;
pub const CTAP_GET_INFO: u8 = 0x04;
pub const CTAP_CLIENT_PIN: u8 = 0x06;
pub const CTAP_RESET: u8 = 0x07;
pub const CTAP_GET_NEXT_ASSERTION: u8 = 0x08;
pub const CTAP_CREDENTIAL_MGMT: u8 = 0x0A;
pub const CTAP_SELECTION: u8 = 0x0B;
pub const CTAP_LARGE_BLOBS: u8 = 0x0C;
pub const CTAP_CONFIG: u8 = 0x0D;
pub const CTAP_VENDOR: u8 = 0x41;

// ---- U2F (CTAP1) ----
pub const CTAP_REGISTER: u8 = 0x01;
pub const CTAP_AUTHENTICATE: u8 = 0x02;
pub const CTAP_VERSION: u8 = 0x03;
pub const U2F_REGISTER_ID: u8 = 0x05;
pub const U2F_AUTH_ENFORCE: u8 = 0x03;
pub const U2F_AUTH_CHECK_ONLY: u8 = 0x07;
pub const U2F_AUTH_FLAG_TUP: u8 = 0x01;

// ---- vendor subcommands ----
pub const VENDOR_MSE: u64 = 0x01;
pub const VENDOR_BACKUP_EXPORT: u64 = 0x02;
pub const VENDOR_BACKUP_LOAD: u64 = 0x03;
pub const VENDOR_BACKUP_FINALIZE: u64 = 0x04;
pub const VENDOR_BACKUP_STATE: u64 = 0x05;
pub const VENDOR_UNLOCK: u64 = 0x06;
pub const VENDOR_AUDIT_READ: u64 = 0x07;
pub const VENDOR_AUDIT_CHECKPOINT: u64 = 0x08;
pub const VENDOR_ATT_IMPORT: u64 = 0x09;
pub const VENDOR_ATT_CLEAR: u64 = 0x0A;
pub const VENDOR_ATT_STATE: u64 = 0x0B;

// ---- files ----
pub const EF_PIN: u16 = 0x1080;
pub const EF_AUTHTOKEN: u16 = 0x1090;
pub const EF_PAUTHTOKEN: u16 = 0x1091;
pub const EF_MINPINLEN: u16 = 0x1100;
pub const EF_LARGEBLOB: u16 = 0x1101;
pub const EF_DEVICE_PIN: u16 = 0x1102;
pub const EF_COUNTER: u16 = 0xC000;
pub const EF_CRED_CTR: u16 = 0xC001;
pub const EF_EA_ENABLED: u16 = 0xC002;
pub const EF_ALWAYS_UV: u16 = 0xC003;
pub const EF_BACKUP_SEALED: u16 = 0xC004;
pub const EF_AUDIT_META: u16 = 0xC100;
/// The first of [`AUDIT_RING_SLOTS`] journal slots.
pub const EF_AUDIT_RING: u16 = 0xC110;
/// The FID of the sealed seed.
pub const FID_KEY_DEV: u16 = 0xCC00;
/// The FID of the soft-locked seed.
pub const FID_KEY_DEV_ENC: u16 = 0xCC02;
/// The FID of the sealed organisation attestation scalar.
pub const FID_ATT_KEY: u16 = 0xCC03;
pub const EF_EE_DEV: u16 = 0xCE00;
pub const EF_ATT_CHAIN: u16 = 0xCE01;
/// The first of [`MAX_RESIDENT_CREDENTIALS`] credential slots.
pub const EF_CRED: u16 = 0xCF00;
/// The first of [`MAX_RESIDENT_CREDENTIALS`] relying-party slots.
pub const EF_RP: u16 = 0xD000;
/// The first of [`MAX_RESIDENT_CREDENTIALS`] nickname slots.
pub const EF_RPNICK: u16 = 0xD100;

/// The slot of the sealed seed.
pub fn ef_key_dev() -> (k: KeyFid)
    ensures
        k.fid() == FID_KEY_DEV,
{
    KeyFid::new(FID_KEY_DEV)
}

/// The slot of the soft-locked seed.
pub fn ef_key_dev_enc() -> (k: KeyFid)
    ensures
        k.fid() == FID_KEY_DEV_ENC,
{
    KeyFid::new(FID_KEY_DEV_ENC)
}

/// The slot of the sealed organisation attestation scalar.
pub fn ef_att_key() -> (k: KeyFid)
    ensures
        k.fid() == FID_ATT_KEY,
{
    KeyFid::new(FID_ATT_KEY)
}

// ---- COSE algorithms and curves ----
pub const ALG_ES256: i64 = -7;
pub const ALG_EDDSA: i64 = -8;
pub const ALG_ESP256: i64 = -9;
pub const ALG_ED25519: i64 = -19;
pub const ALG_ES384: i64 = -35;
pub const ALG_ES512: i64 = -36;
pub const ALG_ES256K: i64 = -47;
pub const ALG_MLDSA44: i64 = -48;
pub const ALG_MLDSA65: i64 = -49;
pub const ALG_ESP384: i64 = -51;
pub const ALG_ESP512: i64 = -52;

pub const CURVE_P256: u8 = 1;
pub const CURVE_P384: u8 = 2;
pub const CURVE_P521: u8 = 3;
pub const CURVE_ED25519: u8 = 6;
pub const CURVE_P256K1: u8 = 8;
pub const CURVE_MLDSA44: u8 = 44;
pub const CURVE_MLDSA65: u8 = 65;

// ---- authenticator data flags ----
pub const FLAG_UP: u8 = 0x01;
pub const FLAG_UV: u8 = 0x04;
pub const FLAG_AT: u8 = 0x40;
pub const FLAG_ED: u8 = 0x80;

// ---- limits ----
pub const AUDIT_RING_SLOTS: u32 = 128;
pub const MAX_RESIDENT_CREDENTIALS: u16 = 256;
pub const MAX_CREDENTIAL_COUNT_IN_LIST: u64 = 16;
pub const MAX_CRED_ID_LENGTH: u64 = 1024;
pub const MAX_CREDBLOB_LENGTH: usize = 128;
pub const MAX_LARGE_BLOB_SIZE: usize = 2048;
pub const MAX_MSG_SIZE: u64 = 7609;
/// What fits a message beside the framing of a fragment.
pub const MAX_FRAGMENT_LENGTH: usize = 7545;
pub const MAX_MIN_PIN_RPIDS: usize = 8;
pub const MIN_PIN_LENGTH: u8 = 4;
pub const MAX_PIN_LENGTH: u8 = 63;
pub const RP_ID_MAX: usize = 253;
pub const USER_ID_MAX: usize = 64;
pub const USER_NAME_MAX: usize = 64;
pub const CRED_PROT_UV_REQUIRED: u64 = 3;
/// Length of the id of a resident credential.
pub const CRED_RESIDENT_LEN: usize = 42;
/// A credential record starts with the rpIdHash and the resident id.
pub const RECORD_PREFIX: usize = 74;
/// Largest sealed credential box.
pub const CRED_BOX_MAX: usize = 748;
/// Largest credential record.
pub const CRED_REC_MAX: usize = 822;
/// A relying-party record starts with the credential count and the rpIdHash.
pub const RP_PREFIX: usize = 33;
/// Largest relying-party record.
pub const RP_REC_MAX: usize = 314;
/// Longest nickname of a relying party.
pub const RP_NICK_MAX_LEN: usize = 32;
/// Largest sealed nickname.
pub const NICK_BOX_MAX: usize = 60;
/// Largest attestation chain on the wire.
pub const ATT_CHAIN_MAX: usize = 2048;
/// Largest number of certificates in an attestation chain.
pub const ATT_CHAIN_MAX_CERTS: usize = 7;
/// Largest packed attestation chain.
pub const ATT_CHAIN_REC_MAX: usize = 2063;
pub const FIRMWARE_VERSION: u32 = 0x0005_0704;

/// The identifier of the authenticator model.
pub open spec fn spec_aaguid() -> [u8; 16] {
    [
        0x52, 0x53, 0x4b, 0x2d, 0x52, 0x50, 0x32, 0x33, 0x35, 0x30, 0x2d, 0x46, 0x49, 0x44, 0x4f,
        0x32,
    ]
}

/// The identifier of the authenticator model.
#[verifier::when_used_as_spec(spec_aaguid)]
pub fn aaguid() -> (r: [u8; 16])
    ensures
        r == spec_aaguid(),
{
    [
        0x52, 0x53, 0x4b, 0x2d, 0x52, 0x50, 0x32, 0x33, 0x35, 0x30, 0x2d, 0x46, 0x49, 0x44, 0x4f,
        0x32,
    ]
}

/// The large-blob array of a fresh device: an empty array and the left half of
/// its SHA-256 digest.
pub open spec fn spec_largeblob_initial() -> [u8; 17] {
    [
        0x80, 0x76, 0xbe, 0x8b, 0x52, 0x8d, 0x00, 0x75, 0xf7, 0xaa, 0xe9, 0x8d, 0x6f, 0xa5, 0x7a,
        0x6d, 0x3c,
    ]
}

/// The large-blob array of a fresh device: an empty array and the left half of
/// its SHA-256 digest.
#[verifier::when_used_as_spec(spec_largeblob_initial)]
pub fn largeblob_initial() -> (r: [u8; 17])
    ensures
        r == spec_largeblob_initial(),
{
    [
        0x80, 0x76, 0xbe, 0x8b, 0x52, 0x8d, 0x00, 0x75, 0xf7, 0xaa, 0xe9, 0x8d, 0x6f, 0xa5, 0x7a,
        0x6d, 0x3c,
    ]
}

}
