//! A tiny block-based file system over a 512-byte block device.
//!
//! The crate is organised bottom-up: a block device port, a bounded
//! dirty-tracked block cache, a bitmap allocator, the on-disk records
//! (super block, inode, directory entry) with their byte codecs and the
//! three-level block index, the file system layout manager, and a small
//! VFS facade over a flat root directory.
use vstd::prelude::*;

pub mod bitmap;
pub mod block_cache;
pub mod block_dev;
pub mod layout;
pub mod scenarios;
pub mod tfs;
pub mod vfs;

verus! {

/// Size of one device block in bytes.
pub const BLOCK_SZ: usize = 512;

} // verus!
