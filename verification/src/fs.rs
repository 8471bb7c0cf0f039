//! Key/value files over a backend-agnostic [`Storage`](storage::Storage): file
//! contents are keyed by 16-bit FID. A present-cache and a metadata side-store
//! sit on top; applets own their FID ranges and access control.

pub mod dynamic;
pub mod file_system;
pub mod meta;
pub mod sealed;
pub mod storage;

pub use crate::fs::file_system::{Fs, EF_META, MAX_DYNAMIC_FILES};
pub use crate::fs::sealed::{KeyFid, Sealed};
pub use crate::fs::storage::{RamStorage, Storage};
