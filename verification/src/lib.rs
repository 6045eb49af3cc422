//! Verified core of a save-data container: an IVFC hash-verified block
//! layer, a doubly-linked run-encoded FAT block allocator, and the
//! hash-bucketed directory/file metadata tables that together form the
//! save filesystem.

pub mod bytes;
pub mod error;
pub mod fat;
pub mod fs_meta;
pub mod hash;
pub mod ivfc;
pub mod save_data;
pub mod sd;

use vstd::prelude::*;

verus! {

} // verus!
