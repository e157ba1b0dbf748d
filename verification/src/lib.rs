//! An append-only store of posts with a versioned storage schema.
//!
//! A post is persisted as SCALE bytes under a dense 32-bit id. Two layouts
//! exist: the legacy one, whose content is a bare byte string, and the
//! current one, whose content is tagged as plain text or ciphertext. Writes
//! always produce the current layout; a migration sweep rewrites what is
//! still stored in the legacy one.

pub mod error;
pub mod pallet;
pub mod scale;
pub mod v1;
pub mod v2;

pub use error::Error;
pub use pallet::{AccountId, Entry, Event, Origin, Pallet, Version};
pub use v2::{Content, Post};
