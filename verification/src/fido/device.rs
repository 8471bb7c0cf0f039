//! The identity of the device.

use vstd::prelude::*;

verus! {

/// The identity of the device: its serial, and the root keys that secrets at
/// rest are sealed under.
#[derive(Clone, Copy)]
pub struct Device {
    pub serial_hash: [u8; 32],
    pub serial_id: [u8; 8],
    /// The root key without the fused key.
    pub kbase: [u8; 32],
    /// The root key with the fused key, once the device has one.
    pub kbase_otp: Option<[u8; 32]>,
}

impl Device {
    /// The root key that the device seals under now.
    pub open spec fn current(&self) -> Seq<u8> {
        match self.kbase_otp {
            Some(k) => k@,
            None => self.kbase@,
        }
    }

    /// The root key of the arm with or without the fused key.
    pub open spec fn arm(&self, otp: bool) -> Option<Seq<u8>> {
        if !otp {
            Some(self.kbase@)
        } else {
            match self.kbase_otp {
                Some(k) => Some(k@),
                None => None,
            }
        }
    }

    /// The root key of the arm with or without the fused key; nothing for the
    /// fused arm of a device without a fused key.
    pub fn arm_key(&self, otp: bool) -> (r: Option<[u8; 32]>)
        ensures
            match r {
                Some(k) => self.arm(otp) == Some(k@),
                None => self.arm(otp) is None,
            },
    {
        if otp {
            self.kbase_otp
        } else {
            Some(self.kbase)
        }
    }
}

}
