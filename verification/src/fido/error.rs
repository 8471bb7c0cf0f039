//! CTAP status codes.

use vstd::prelude::*;

verus! {

/// The status byte of a command that succeeded.
pub const CTAP2_OK: u8 = 0x00;

/// Why a command was refused.
#[derive(Debug, Clone, Copy, PartialEq, Eq, Structural)]
pub enum CtapError {
    InvalidCommand,
    InvalidParameter,
    InvalidLength,
    InvalidSeq,
    CborUnexpectedType,
    InvalidCbor,
    MissingParameter,
    LargeBlobStorageFull,
    CredentialExcluded,
    UnsupportedAlgorithm,
    OperationDenied,
    KeyStoreFull,
    InvalidOption,
    KeepAliveCancel,
    UserActionTimeout,
    NotAllowed,
    PinAuthInvalid,
    PinNotSet,
    PuatRequired,
    RequestTooLarge,
    IntegrityFailure,
    Other,
    ExtensionFirst,
}

/// The number of response bytes, or the refusal.
pub type CtapResult = Result<usize, CtapError>;

/// The status byte of a refusal.
pub open spec fn status(e: CtapError) -> u8 {
    match e {
        CtapError::InvalidCommand => 0x01,
        CtapError::InvalidParameter => 0x02,
        CtapError::InvalidLength => 0x03,
        CtapError::InvalidSeq => 0x04,
        CtapError::CborUnexpectedType => 0x11,
        CtapError::InvalidCbor => 0x12,
        CtapError::MissingParameter => 0x14,
        CtapError::LargeBlobStorageFull => 0x18,
        CtapError::CredentialExcluded => 0x19,
        CtapError::UnsupportedAlgorithm => 0x26,
        CtapError::OperationDenied => 0x27,
        CtapError::KeyStoreFull => 0x28,
        CtapError::InvalidOption => 0x2C,
        CtapError::KeepAliveCancel => 0x2D,
        CtapError::UserActionTimeout => 0x2F,
        CtapError::NotAllowed => 0x30,
        CtapError::PinAuthInvalid => 0x33,
        CtapError::PinNotSet => 0x35,
        CtapError::PuatRequired => 0x36,
        CtapError::RequestTooLarge => 0x39,
        CtapError::IntegrityFailure => 0x3D,
        CtapError::Other => 0x7F,
        CtapError::ExtensionFirst => 0xE0,
    }
}

impl CtapError {
    /// The status byte on the wire.
    pub fn as_u8(&self) -> (b: u8)
        ensures
            b == status(*self),
            b != CTAP2_OK,
    {
        match self {
            CtapError::InvalidCommand => 0x01,
            CtapError::InvalidParameter => 0x02,
            CtapError::InvalidLength => 0x03,
            CtapError::InvalidSeq => 0x04,
            CtapError::CborUnexpectedType => 0x11,
            CtapError::InvalidCbor => 0x12,
            CtapError::MissingParameter => 0x14,
            CtapError::LargeBlobStorageFull => 0x18,
            CtapError::CredentialExcluded => 0x19,
            CtapError::UnsupportedAlgorithm => 0x26,
            CtapError::OperationDenied => 0x27,
            CtapError::KeyStoreFull => 0x28,
            CtapError::InvalidOption => 0x2C,
            CtapError::KeepAliveCancel => 0x2D,
            CtapError::UserActionTimeout => 0x2F,
            CtapError::NotAllowed => 0x30,
            CtapError::PinAuthInvalid => 0x33,
            CtapError::PinNotSet => 0x35,
            CtapError::PuatRequired => 0x36,
            CtapError::RequestTooLarge => 0x39,
            CtapError::IntegrityFailure => 0x3D,
            CtapError::Other => 0x7F,
            CtapError::ExtensionFirst => 0xE0,
        }
    }
}

/// No two refusals share a status byte, and none is the byte of success.
pub proof fn law_status_unique(a: CtapError, b: CtapError)
    ensures
        status(a) == status(b) ==> a == b,
        status(a) != CTAP2_OK,
{
}

/// The statuses on the wire are those of CTAP, and none of them is zero, the
/// status of success.
pub proof fn law_status_codes(e: CtapError)
    ensures
        status(e) != 0,
        status(CtapError::InvalidCommand) == 0x01,
        status(CtapError::InvalidParameter) == 0x02,
        status(CtapError::InvalidLength) == 0x03,
        status(CtapError::InvalidSeq) == 0x04,
        status(CtapError::CborUnexpectedType) == 0x11,
        status(CtapError::InvalidCbor) == 0x12,
        status(CtapError::MissingParameter) == 0x14,
        status(CtapError::LargeBlobStorageFull) == 0x18,
        status(CtapError::CredentialExcluded) == 0x19,
        status(CtapError::UnsupportedAlgorithm) == 0x26,
        status(CtapError::OperationDenied) == 0x27,
        status(CtapError::KeyStoreFull) == 0x28,
        status(CtapError::InvalidOption) == 0x2c,
        status(CtapError::KeepAliveCancel) == 0x2d,
        status(CtapError::UserActionTimeout) == 0x2f,
        status(CtapError::NotAllowed) == 0x30,
        status(CtapError::PinAuthInvalid) == 0x33,
        status(CtapError::PinNotSet) == 0x35,
        status(CtapError::PuatRequired) == 0x36,
        status(CtapError::RequestTooLarge) == 0x39,
        status(CtapError::IntegrityFailure) == 0x3d,
        status(CtapError::Other) == 0x7f,
        status(CtapError::ExtensionFirst) == 0xe0,
{
}

}
