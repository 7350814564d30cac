//! Block headers, free-list links and area records.
//!
//! A block is a header followed by its buffer.  The header packs the
//! buffer size (always a multiple of `BLOCK_ALIGNOF`) with two flags in
//! the low bits: bit 0 says the block itself is free, bit 1 says its
//! physical predecessor is free.  A free block's buffer holds a
//! `FreeNode` link; a start sentinel's buffer holds an `AreaInfo`.

use vstd::prelude::*;
use crate::consts::{AREA_INFO_SIZE, BLOCK_ALIGNOF, BLOCK_HEADER_SIZE, MINIMUM_BLOCK_SIZE};
use crate::function::{
    lemma_round_up_props, round_down_block, round_up_block, spec_is_aligned, spec_round_down,
    spec_round_up,
};

verus! {

/// Link of a free block within its size-class list.  The two fields hold
/// the header addresses of the neighbouring free blocks of the same class.
#[derive(Clone, Copy, Debug)]
pub struct FreeNode {
    pub prev: Option<u64>,
    pub next: Option<u64>,
}

impl FreeNode {
    /// An unlinked node.
    pub fn new() -> (r: Self)
        ensures
            r.prev.is_none(),
            r.next.is_none(),
    {
        Self { prev: None, next: None }
    }
}

/// Header that precedes every buffer.
#[derive(Clone, Copy, Debug)]
pub struct BlockHeader {
    /// Header address of the physically preceding block, when known.
    pub previous_header: Option<u64>,
    /// Buffer size combined with the two flag bits.
    pub stored_size: u64,
}

/// Decoding a stored size built from an aligned size and the two flags.
proof fn lemma_stored_decode(size: nat, is_freed: bool, is_prev_freed: bool)
    requires
        spec_is_aligned(size),
    ensures
        ({
            let c: nat = (if is_freed { 1nat } else { 0nat }) + (if is_prev_freed {
                2nat
            } else {
                0nat
            });
            let v = size + c;
            &&& spec_round_down(v) == size
            &&& (v % 2 == 1) == is_freed
            &&& ((v / 2) % 2 == 1) == is_prev_freed
        }),
{
    let c: nat = (if is_freed { 1nat } else { 0nat }) + (if is_prev_freed { 2nat } else { 0nat });
    let v = size + c;
    let k = size / 16;
    vstd::arithmetic::div_mod::lemma_fundamental_div_mod(size as int, 16);
    assert(size == 16 * k);
    vstd::arithmetic::div_mod::lemma_fundamental_div_mod_converse(v as int, 16, k as int, c as int);
    assert(v / 16 == k && v % 16 == c);
    vstd::arithmetic::div_mod::lemma_fundamental_div_mod_converse(
        v as int,
        2,
        (8 * k + c / 2) as int,
        (c % 2) as int,
    );
    assert(v % 2 == c % 2);
    assert(v / 2 == 8 * k + c / 2);
    vstd::arithmetic::div_mod::lemma_fundamental_div_mod_converse(
        (8 * k + c / 2) as int,
        2,
        (4 * k) as int,
        (c / 2) as int,
    );
}

impl BlockHeader {
    /// The buffer size encoded in the header.
    pub open spec fn spec_buffer_size(self) -> nat {
        spec_round_down(self.stored_size as nat)
    }

    /// Header plus buffer, in bytes.
    pub open spec fn spec_size_with_header(self) -> nat {
        (BLOCK_HEADER_SIZE as nat) + self.spec_buffer_size()
    }

    /// The flag saying this block is free.
    pub open spec fn spec_is_freed(self) -> bool {
        self.stored_size as nat % 2 == 1
    }

    /// The flag saying the physical predecessor is free.
    pub open spec fn spec_is_prev_freed(self) -> bool {
        (self.stored_size as nat / 2) % 2 == 1
    }

    /// Combine an aligned buffer size with the two flags.
    pub fn calculate_stored_size(buffer_size: u64, is_freed: bool, is_prev_freed: bool) -> (r: u64)
        requires
            buffer_size + BLOCK_ALIGNOF + 3 <= u64::MAX,
        ensures
            r as nat == spec_round_up(buffer_size as nat) + (if is_freed {
                1nat
            } else {
                0nat
            }) + (if is_prev_freed {
                2nat
            } else {
                0nat
            }),
            spec_round_down(r as nat) == spec_round_up(buffer_size as nat),
            (r as nat % 2 == 1) == is_freed,
            ((r as nat / 2) % 2 == 1) == is_prev_freed,
    {
        let size = round_up_block(buffer_size);
        proof {
            lemma_round_up_props(buffer_size as nat);
            lemma_stored_decode(size as nat, is_freed, is_prev_freed);
        }
        let flags = (if is_freed {
            1
        } else {
            0
        }) + (if is_prev_freed {
            2
        } else {
            0
        });
        size + flags
    }

    /// Aligned byte size of a block header.
    pub fn get_aligned_size() -> (r: u64)
        ensures
            r == BLOCK_HEADER_SIZE,
    {
        BLOCK_HEADER_SIZE
    }

    /// Create a new block header.
    pub fn new(
        buffer_size: u64,
        is_freed: bool,
        is_prev_freed: bool,
        previous_header: Option<u64>,
    ) -> (r: Self)
        requires
            buffer_size + BLOCK_ALIGNOF + 3 <= u64::MAX,
        ensures
            r.previous_header == previous_header,
            r.spec_buffer_size() == spec_round_up(buffer_size as nat),
            r.spec_is_freed() == is_freed,
            r.spec_is_prev_freed() == is_prev_freed,
            spec_is_aligned(buffer_size as nat) ==> r.spec_buffer_size() == buffer_size,
    {
        proof {
            lemma_round_up_props(buffer_size as nat);
        }
        Self {
            previous_header,
            stored_size: Self::calculate_stored_size(buffer_size, is_freed, is_prev_freed),
        }
    }

    /// Header of a chunk's start sentinel: a non-free block whose buffer
    /// carries the area record.
    pub fn new_start_block() -> (r: Self)
        ensures
            r.previous_header.is_none(),
            r.spec_buffer_size() == AREA_INFO_SIZE,
            !r.spec_is_freed(),
            !r.spec_is_prev_freed(),
    {
        proof {
            lemma_round_up_props(AREA_INFO_SIZE as nat);
        }
        Self::new(AREA_INFO_SIZE, false, false, None)
    }

    /// The buffer size, without the flag bits.
    pub fn buffer_size(&self) -> (r: u64)
        ensures
            r as nat == self.spec_buffer_size(),
    {
        round_down_block(self.stored_size)
    }

    /// Header plus buffer, in bytes.
    pub fn buffer_size_with_header(&self) -> (r: u64)
        requires
            self.spec_buffer_size() + BLOCK_HEADER_SIZE <= u64::MAX,
        ensures
            r as nat == self.spec_size_with_header(),
    {
        Self::get_aligned_size() + self.buffer_size()
    }

    /// Whether this block is free.
    pub fn is_freed(&self) -> (r: bool)
        ensures
            r == self.spec_is_freed(),
    {
        self.stored_size % 2 == 1
    }

    /// Whether the physical predecessor is free.
    pub fn is_prev_freed(&self) -> (r: bool)
        ensures
            r == self.spec_is_prev_freed(),
    {
        (self.stored_size / 2) % 2 == 1
    }

    /// Address of the physically preceding block's header, when known.
    pub fn previous_block_ptr(&mut self) -> (r: Option<u64>)
        ensures
            *final(self) == *old(self),
            r == old(self).previous_header,
    {
        self.previous_header
    }

    /// Record the physically preceding block.
    pub fn set_previous_header(&mut self, prev_block: u64)
        ensures
            final(self).previous_header == Some(prev_block),
            final(self).stored_size == old(self).stored_size,
    {
        self.previous_header = Some(prev_block);
    }

    /// Forget the physically preceding block.
    pub fn reset_previous_block(&mut self)
        ensures
            final(self).previous_header.is_none(),
            final(self).stored_size == old(self).stored_size,
    {
        self.previous_header = None;
    }

    /// Set the free flag, preserving the size and the other flag.
    pub fn set_freed(&mut self, is_free: bool)
        requires
            old(self).spec_buffer_size() + BLOCK_ALIGNOF + 3 <= u64::MAX,
        ensures
            final(self).spec_buffer_size() == old(self).spec_buffer_size(),
            final(self).spec_is_freed() == is_free,
            final(self).spec_is_prev_freed() == old(self).spec_is_prev_freed(),
            final(self).previous_header == old(self).previous_header,
    {
        proof {
            crate::function::lemma_round_down_props(self.stored_size as nat);
            lemma_round_up_props(self.spec_buffer_size());
        }
        let size = self.buffer_size();
        let prev_freed = self.is_prev_freed();
        self.stored_size = Self::calculate_stored_size(size, is_free, prev_freed);
    }

    /// Set the predecessor-free flag, preserving the size and the other flag.
    pub fn set_previous_freed(&mut self, is_prev_free: bool)
        requires
            old(self).spec_buffer_size() + BLOCK_ALIGNOF + 3 <= u64::MAX,
        ensures
            final(self).spec_buffer_size() == old(self).spec_buffer_size(),
            final(self).spec_is_freed() == old(self).spec_is_freed(),
            final(self).spec_is_prev_freed() == is_prev_free,
            final(self).previous_header == old(self).previous_header,
    {
        proof {
            crate::function::lemma_round_down_props(self.stored_size as nat);
            lemma_round_up_props(self.spec_buffer_size());
        }
        let size = self.buffer_size();
        let freed = self.is_freed();
        self.stored_size = Self::calculate_stored_size(size, freed, is_prev_free);
    }

    /// Replace the buffer size, preserving both flags.
    pub fn set_buffer_size(&mut self, size: u64)
        requires
            spec_is_aligned(size as nat),
            size + BLOCK_ALIGNOF + 3 <= u64::MAX,
        ensures
            final(self).spec_buffer_size() == size,
            final(self).spec_is_freed() == old(self).spec_is_freed(),
            final(self).spec_is_prev_freed() == old(self).spec_is_prev_freed(),
            final(self).previous_header == old(self).previous_header,
    {
        proof {
            lemma_round_up_props(size as nat);
        }
        let freed = self.is_freed();
        let prev_freed = self.is_prev_freed();
        self.stored_size = Self::calculate_stored_size(size, freed, prev_freed);
    }
}

/// Area record carried in the buffer of a chunk's start sentinel: the
/// chunk's end sentinel and the next area in the global area list.
#[derive(Clone, Copy, Debug)]
pub struct AreaInfo {
    pub end_block_header: Option<u64>,
    pub next_area_header: Option<u64>,
}

impl AreaInfo {
    /// Aligned byte size of an area record.
    pub fn get_aligned_size() -> (r: u64)
        ensures
            r == AREA_INFO_SIZE,
    {
        AREA_INFO_SIZE
    }

    /// An empty area record.
    pub fn new() -> (r: Self)
        ensures
            r.end_block_header.is_none(),
            r.next_area_header.is_none(),
    {
        Self { end_block_header: None, next_area_header: None }
    }
}

/// What a block's buffer holds in the modelled address space: opaque user
/// bytes, a free-list link, or an area record.
#[derive(Clone, Copy, Debug)]
pub enum BufferData {
    User,
    Link(FreeNode),
    Area(AreaInfo),
}

/// A block as the address-space table keeps it: header plus the record
/// overlaid on its buffer.
#[derive(Clone, Copy, Debug)]
pub struct Block {
    pub header: BlockHeader,
    pub data: BufferData,
}

impl Block {
    /// The free-list link of a free block.
    pub open spec fn spec_link(self) -> FreeNode
        recommends
            self.data is Link,
    {
        self.data->Link_0
    }

    /// A free block of buffer size `size` carrying the link `link`.
    pub open spec fn spec_is_free_with(self, size: nat, link: FreeNode) -> bool {
        &&& self.header.spec_is_freed()
        &&& self.header.spec_buffer_size() == size
        &&& self.data == BufferData::Link(link)
    }
}

} // verus!
