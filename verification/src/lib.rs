//! Virtual-memory subsystem of a small x86-64 kernel, as a verified model.
//!
//! The crate tracks usable physical frames, edits a four-level page-table
//! hierarchy through its recursive self-mapping, and moves a machine from the
//! boot loader's provisional identity mapping to a kernel-controlled address
//! space. Page tables live in a [`memory::machine::Machine`]: a model of
//! physical memory, the page-table base register and the translation cache.
use vstd::prelude::*;

pub mod memory;

verus! {

/// First virtual address of the kernel heap.
pub const HEAP_START: u64 = 0o_000_001_000_000_0000;

/// Size of the kernel heap in bytes: 100 KiB.
pub const HEAP_SIZE: u64 = 100 * 1024;

} // verus!
