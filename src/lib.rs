//! A small content-addressed object database in the style of git's plumbing:
//! loose objects framed as `"<kind> <len>\0" + payload` and named by their
//! SHA-1, the canonical tree encoding, commits, and a packfile decoder with
//! REF_DELTA reconstruction.
//!
//! Everything here computes on values: reading and writing files or talking
//! to a remote is left to the caller, which hands in bytes and writes out the
//! [`objects::LooseObject`] values that the store functions produce.

pub mod clone;
pub mod codec;
pub mod error;
pub mod files;
pub mod objects;
pub mod packs;
pub mod tree;

use vstd::prelude::*;

verus! {

} // verus!
