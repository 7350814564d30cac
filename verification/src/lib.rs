//! A Two-Level Segregated Fit (TLSF) allocator core.
//!
//! The engine keeps every piece of allocator bookkeeping — block headers,
//! per-class free lists, the two-level bitmaps and the area list — as plain
//! values over an explicit address space: a block header that a pointer-based
//! allocator would write in front of its buffer is kept in a table keyed by
//! the header's address, and all of the split, coalesce and growth arithmetic
//! runs on those addresses.  Raw memory enters the picture only at the crate's
//! boundary: a caller hands in the base address and size of each zeroed region
//! it obtained from the operating system, and gets buffer addresses back.

use vstd::prelude::*;

pub mod bits;
pub mod block;
pub mod consts;
pub mod extvec;
pub mod function;
pub mod index;
pub mod pool;

verus! {

} // verus!
