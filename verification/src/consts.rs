//! Fixed parameters of the allocator: alignment, size-class geometry, and
//! the aligned sizes of the in-band records of the modelled address space.
//!
//! Byte sizes and addresses are carried as `u64`; class indices as `usize`.

use vstd::prelude::*;

verus! {

/// Smallest user buffer a block may carry, in bytes.
pub const MINIMUM_BLOCK_SIZE: u64 = 16;

/// Every header size and buffer size is a multiple of this (two machine words).
pub const BLOCK_ALIGNOF: u64 = 16;

/// Buffer sizes below this map to outer row zero of the class table.
pub const SMALL_BLOCK_SIZE: u64 = 128;

/// One past the largest outer row exponent: indexable sizes are below
/// `2^FIRST_INDEX_MAX`.
pub const FIRST_INDEX_MAX: usize = 36;

/// Outer rows start at this power of two.
pub const FIRST_INDEX_OFFSET: usize = 6;

/// Log2 of the number of inner classes per outer row.
pub const SECOND_INDEX_LOG2_MAX: usize = 5;

/// Number of inner classes per outer row.
pub const SECOND_INDEX_MAX: usize = 32;

/// Number of outer rows actually kept.
pub const FIRST_INDEX_REAL: usize = FIRST_INDEX_MAX - FIRST_INDEX_OFFSET;

/// Total number of size classes.
pub const TOTAL_COUNT: usize = FIRST_INDEX_REAL * SECOND_INDEX_MAX;

/// Aligned byte size of a block header.
pub const BLOCK_HEADER_SIZE: u64 = 16;

/// Aligned byte size of an area record, carried in a start sentinel's buffer.
pub const AREA_INFO_SIZE: u64 = 16;

/// Aligned byte size of the free-list link carried in a free block's buffer.
pub const FREE_NODE_SIZE: u64 = 16;

/// Aligned byte size of the global index header hosted by the root chunk.
pub const GLOBAL_HEADER_SIZE: u64 = 7840;

/// Exclusive upper bound on any buffer size the class table can file:
/// `2^FIRST_INDEX_MAX` bytes.
pub const CLASS_SIZE_LIMIT: u64 = 68719476736;

/// Largest request the allocator accepts.  The bound keeps the searching
/// size, which may round a request up by almost `2^30` bytes, below
/// `CLASS_SIZE_LIMIT`.
pub const MAX_REQUEST_SIZE: u64 = CLASS_SIZE_LIMIT - 1073741824;

/// Size of the chunk that backs a fresh pool when nothing has been
/// allocated yet (2 MiB).
pub const INIT_CHUNK_SIZE: u64 = 2097152;

/// Alignment for oversized first chunks (8 MiB).
pub const INIT_EXPANDED_ALIGNMENT: u64 = 8388608;

/// Number of additional chunks the pool may acquire after the root chunk.
pub const ADDITIONAL_CHUNK_COUNT: usize = 32;

} // verus!
