//! Pool assembly: chunk records, pool initialization, the root pool with
//! its allocate and free paths, chunk growth, and the dynamically growing
//! pool that drives them.

use vstd::prelude::*;
use crate::block::{AreaInfo, Block, BlockHeader, BufferData, FreeNode};
use crate::consts::{
    AREA_INFO_SIZE, BLOCK_ALIGNOF, BLOCK_HEADER_SIZE, CLASS_SIZE_LIMIT, FREE_NODE_SIZE,
    GLOBAL_HEADER_SIZE, INIT_CHUNK_SIZE, INIT_EXPANDED_ALIGNMENT, MAX_REQUEST_SIZE,
    MINIMUM_BLOCK_SIZE, TOTAL_COUNT,
};
use crate::function::{
    calculate_allocation_searching_size, calculate_mapping_indices, lemma_aligned_add,
    lemma_aligned_sub, lemma_round_down_props, lemma_search_size_props, lemma_suitable_class_fits,
    round_down_block, spec_alloc_size, spec_class_of, spec_flat_index, spec_is_aligned,
    spec_next_chunk_size,
    spec_search_size,
};
use crate::index::{spec_block_class, spec_free_size_ok, TLSFRawHeader};

verus! {

/// A raw region handed to the pool: its base address and byte size.
#[derive(Clone, Copy, Debug)]
pub struct TLSFChunk {
    pub base: u64,
    pub size: u64,
}

impl TLSFChunk {
    /// Record a chunk, checking that its base is aligned and its size can
    /// be laid out as a pool area.
    pub fn new(base: u64, requested_size: u64) -> (r: Option<Self>)
        ensures
            r matches Some(c) ==> {
                &&& c.base == base
                &&& c.size == requested_size
                &&& spec_is_aligned(base as nat)
                &&& spec_is_aligned(requested_size as nat)
            },
            (spec_is_aligned(base as nat) && spec_is_aligned(requested_size as nat))
                ==> r == Some(TLSFChunk { base, size: requested_size }),
    {
        if crate::function::is_aligned(base) && crate::function::is_aligned(requested_size) {
            Some(Self { base, size: requested_size })
        } else {
            None
        }
    }
}

/// Lay out a fresh pool area over `[start_addr, start_addr + total_size)`:
/// a start sentinel carrying an area record, one large block covering the
/// rest, and a zero-sized end sentinel.  The large block is created
/// non-free; freeing it through the normal path files it in the index.
pub fn initialize_pool(header: &mut TLSFRawHeader, start_addr: u64, total_size: u64)
    requires
        old(header).wf(),
        spec_is_aligned(start_addr as nat),
        spec_is_aligned(total_size as nat),
        AREA_INFO_SIZE + 3 * BLOCK_HEADER_SIZE + MINIMUM_BLOCK_SIZE <= total_size
            < CLASS_SIZE_LIMIT,
        start_addr + total_size + 64 <= u64::MAX,
        forall|a: u64|
            #[trigger] old(header).spec_blocks().contains_key(a) ==> !(start_addr <= a
                < start_addr + total_size),
    ensures
        final(header).wf(),
        final(header).same_index_state(*old(header)),
        ({
            let s_addr = start_addr;
            let f_addr = start_addr + BLOCK_HEADER_SIZE + AREA_INFO_SIZE;
            let e_addr = start_addr + total_size - BLOCK_HEADER_SIZE;
            let f_size = total_size - AREA_INFO_SIZE - 3 * BLOCK_HEADER_SIZE;
            &&& final(header).spec_blocks().dom() == old(header).spec_blocks().dom().insert(
                s_addr as u64,
            ).insert(f_addr as u64).insert(e_addr as u64)
            &&& forall|a: u64|
                #[trigger] old(header).spec_blocks().contains_key(a) ==> final(header).spec_blocks()[a] == old(header).spec_blocks()[a]
            &&& ({
                let sb = final(header).spec_blocks()[s_addr as u64];
                &&& sb.header.spec_buffer_size() == AREA_INFO_SIZE
                &&& !sb.header.spec_is_freed()
                &&& !sb.header.spec_is_prev_freed()
                &&& sb.header.previous_header.is_none()
                &&& sb.data == BufferData::Area(
                    AreaInfo {
                        end_block_header: Some(e_addr as u64),
                        next_area_header: None::<u64>,
                    },
                )
            })
            &&& ({
                let fb = final(header).spec_blocks()[f_addr as u64];
                &&& fb.header.spec_buffer_size() == f_size
                &&& !fb.header.spec_is_freed()
                &&& !fb.header.spec_is_prev_freed()
                &&& fb.header.previous_header.is_none()
                &&& fb.data == BufferData::Link(
                    FreeNode { prev: None::<u64>, next: None::<u64> },
                )
            })
            &&& ({
                let eb = final(header).spec_blocks()[e_addr as u64];
                &&& eb.header.spec_buffer_size() == 0
                &&& !eb.header.spec_is_freed()
                &&& eb.header.spec_is_prev_freed()
                &&& eb.header.previous_header == Some(f_addr as u64)
                &&& eb.data == BufferData::User
            })
        }),
{
    proof {
        lemma_aligned_add(start_addr as nat, total_size as nat);
        lemma_aligned_add(start_addr as nat, (BLOCK_HEADER_SIZE + AREA_INFO_SIZE) as nat);
        lemma_aligned_sub((start_addr + total_size) as nat, BLOCK_HEADER_SIZE as nat);
        lemma_aligned_sub(
            total_size as nat,
            (AREA_INFO_SIZE + 3 * BLOCK_HEADER_SIZE) as nat,
        );
    }
    let s_addr = start_addr;
    let f_addr = start_addr + BLOCK_HEADER_SIZE + AREA_INFO_SIZE;
    let e_addr = start_addr + total_size - BLOCK_HEADER_SIZE;
    let buffer_size = total_size - AREA_INFO_SIZE - 3 * BLOCK_HEADER_SIZE;

    // Start sentinel, with a fresh area record in its buffer.
    header.insert_fresh_block(
        s_addr,
        Block { header: BlockHeader::new_start_block(), data: BufferData::Area(AreaInfo::new()) },
    );

    // The chunk's one large block; freed later through the normal path.
    header.insert_fresh_block(
        f_addr,
        Block {
            header: BlockHeader::new(buffer_size, false, false, None),
            data: BufferData::Link(FreeNode::new()),
        },
    );

    // End sentinel: zero-sized, never free, never merged.
    header.insert_fresh_block(
        e_addr,
        Block {
            header: BlockHeader::new(0, false, true, Some(f_addr)),
            data: BufferData::User,
        },
    );

    // Point the area record at the end sentinel.
    header.set_area_data(
        s_addr,
        AreaInfo { end_block_header: Some(e_addr), next_area_header: None },
    );
    proof {
        assert(final(header).spec_blocks().dom() =~= old(header).spec_blocks().dom().insert(
            s_addr,
        ).insert(f_addr).insert(e_addr));
    }
}

/// The root chunk: the region that hosts the global header at its base,
/// followed by the root pool area.
pub struct TLSFRootChunk {
    pub chunk: TLSFChunk,
    pub header: TLSFRawHeader,
}

/// Smallest root region that leaves room for the global header, the two
/// sentinels, the area record, and one minimum block.
pub const MINIMUM_ROOT_SIZE: u64 = GLOBAL_HEADER_SIZE + AREA_INFO_SIZE + 3 * BLOCK_HEADER_SIZE
    + MINIMUM_BLOCK_SIZE;

impl TLSFRootChunk {
    /// Set up the global header and the root pool area over a region.
    pub fn new(base: u64, requested_size: u64) -> (r: Option<Self>)
        requires
            spec_is_aligned(base as nat),
            base + requested_size + 64 <= u64::MAX,
            requested_size < CLASS_SIZE_LIMIT,
            MINIMUM_ROOT_SIZE <= requested_size,
        ensures
            r matches Some(c) ==> {
                let total = crate::function::spec_round_down(requested_size as nat)
                    - GLOBAL_HEADER_SIZE;
                let s_addr = base + GLOBAL_HEADER_SIZE;
                let f_addr = s_addr + BLOCK_HEADER_SIZE + AREA_INFO_SIZE;
                let e_addr = s_addr + total - BLOCK_HEADER_SIZE;
                let f_size = total - AREA_INFO_SIZE - 3 * BLOCK_HEADER_SIZE;
                &&& c.chunk.base == base
                &&& c.chunk.size == requested_size
                &&& c.header.wf()
                &&& c.header.maximum_memory_size == 0
                &&& c.header.used_memory_size == 0
                &&& c.header.areainfo_ptr == Some((s_addr + BLOCK_HEADER_SIZE) as u64)
                &&& forall|k: int| 0 <= k < TOTAL_COUNT ==> c.header.spec_head(k).is_none()
                &&& c.header.spec_blocks().dom() == Set::<u64>::empty().insert(
                    s_addr as u64,
                ).insert(f_addr as u64).insert(e_addr as u64)
                &&& c.header.spec_blocks()[f_addr as u64].header.spec_buffer_size() == f_size
                &&& !c.header.spec_blocks()[f_addr as u64].header.spec_is_freed()
                &&& !c.header.spec_blocks()[f_addr as u64].header.spec_is_prev_freed()
                &&& c.header.spec_blocks()[f_addr as u64].data == BufferData::Link(
                    FreeNode { prev: None::<u64>, next: None::<u64> },
                )
                &&& c.header.spec_blocks()[e_addr as u64].header.spec_buffer_size() == 0
                &&& !c.header.spec_blocks()[e_addr as u64].header.spec_is_freed()
                &&& c.header.spec_blocks()[e_addr as u64].header.previous_header == Some(
                    f_addr as u64,
                )
                &&& ({
                    let sb = c.header.spec_blocks()[s_addr as u64];
                    &&& !sb.header.spec_is_freed()
                    &&& !sb.header.spec_is_prev_freed()
                    &&& sb.header.spec_buffer_size() == AREA_INFO_SIZE
                    &&& sb.header.previous_header.is_none()
                    &&& sb.data == BufferData::Area(
                        AreaInfo {
                            end_block_header: Some(e_addr as u64),
                            next_area_header: None::<u64>,
                        },
                    )
                })
                &&& spec_is_aligned(f_addr as nat)
                &&& MINIMUM_BLOCK_SIZE <= f_size < CLASS_SIZE_LIMIT
                &&& spec_is_aligned(f_size as nat)
            },
            r.is_some(),
    {
        let mut header = TLSFRawHeader::new();
        let total_area_size = round_down_block(requested_size) - TLSFRawHeader::get_aligned_size();
        proof {
            lemma_round_down_props(requested_size as nat);
            lemma_aligned_sub(
                crate::function::spec_round_down(requested_size as nat),
                GLOBAL_HEADER_SIZE as nat,
            );
            lemma_aligned_add(base as nat, GLOBAL_HEADER_SIZE as nat);
            lemma_aligned_add(
                (base + GLOBAL_HEADER_SIZE) as nat,
                (BLOCK_HEADER_SIZE + AREA_INFO_SIZE) as nat,
            );
            lemma_aligned_sub(
                total_area_size as nat,
                (AREA_INFO_SIZE + 3 * BLOCK_HEADER_SIZE) as nat,
            );
        }
        let start_addr = base + TLSFRawHeader::get_aligned_size();
        initialize_pool(&mut header, start_addr, total_area_size);
        header.set_areainfo_ptr(Some(start_addr + BlockHeader::get_aligned_size()));
        proof {
            assert(header.spec_blocks().dom() =~= Set::<u64>::empty().insert(start_addr).insert(
                (start_addr + BLOCK_HEADER_SIZE + AREA_INFO_SIZE) as u64,
            ).insert((start_addr + total_area_size - BLOCK_HEADER_SIZE) as u64));
        }
        Some(Self { chunk: TLSFChunk { base, size: requested_size }, header })
    }

    /// Base address of the root chunk.
    pub fn ptr(&self) -> (r: u64)
        ensures
            r == self.chunk.base,
    {
        self.chunk.base
    }
}



/// Whether freeing the block at `h` absorbs its free physical successor:
/// the successor exists, is free, and the combined size stays indexable.
pub open spec fn spec_fmerge(bs: Map<u64, Block>, h: u64) -> bool {
    let bufh = bs[h].header.spec_buffer_size();
    let f_addr = (h + BLOCK_HEADER_SIZE + bufh) as u64;
    &&& bs.contains_key(f_addr)
    &&& bs[f_addr].header.spec_is_freed()
    &&& bufh + BLOCK_HEADER_SIZE + bs[f_addr].header.spec_buffer_size() < CLASS_SIZE_LIMIT
}

/// Size of the freed block after the forward merge.
pub open spec fn spec_fmerged_size(bs: Map<u64, Block>, h: u64) -> int {
    let bufh = bs[h].header.spec_buffer_size();
    let f_addr = (h + BLOCK_HEADER_SIZE + bufh) as u64;
    if spec_fmerge(bs, h) {
        bufh + BLOCK_HEADER_SIZE + bs[f_addr].header.spec_buffer_size()
    } else {
        bufh as int
    }
}

/// Whether the freed block is absorbed into its free physical predecessor:
/// the predecessor-free flag is set, the back pointer names a free block
/// whose span ends exactly at `h`, and the combined size stays indexable.
pub open spec fn spec_bmerge(bs: Map<u64, Block>, h: u64) -> bool {
    let prev = bs[h].header.previous_header;
    &&& bs[h].header.spec_is_prev_freed()
    &&& (prev matches Some(p) && {
        &&& bs.contains_key(p)
        &&& bs[p].header.spec_is_freed()
        &&& p + BLOCK_HEADER_SIZE + bs[p].header.spec_buffer_size() == h
        &&& bs[p].header.spec_buffer_size() + BLOCK_HEADER_SIZE + spec_fmerged_size(bs, h)
            < CLASS_SIZE_LIMIT
    })
}

/// Address of the block that survives the two merges.
pub open spec fn spec_free_target(bs: Map<u64, Block>, h: u64) -> u64 {
    if spec_bmerge(bs, h) {
        bs[h].header.previous_header.unwrap()
    } else {
        h
    }
}

/// Buffer size of the surviving block after both merges.
pub open spec fn spec_freed_size(bs: Map<u64, Block>, h: u64) -> int {
    if spec_bmerge(bs, h) {
        bs[bs[h].header.previous_header.unwrap()].header.spec_buffer_size() + BLOCK_HEADER_SIZE
            + spec_fmerged_size(bs, h)
    } else {
        spec_fmerged_size(bs, h)
    }
}

/// What freeing the buffer at `ptr` does to an index state `pre`, yielding
/// `post`.  Mirrors the free path of the design: the block is flagged free,
/// absorbed into a free physical successor and predecessor where the
/// defensive checks pass, filed at the head of its class, and the
/// physically following block is pointed back at it.  Every clause is
/// relative to `pre`, so call sequences can be chained through it.
pub open spec fn spec_free_outcome(pre: TLSFRawHeader, post: TLSFRawHeader, ptr: u64) -> bool {
    let h = (ptr - BLOCK_HEADER_SIZE) as u64;
    let bs = pre.spec_blocks();
    let bufh = bs[h].header.spec_buffer_size();
    let f_addr = (h + BLOCK_HEADER_SIZE + bufh) as u64;
    let fmerge = spec_fmerge(bs, h);
    let bmerge = spec_bmerge(bs, h);
    let target = spec_free_target(bs, h);
    let s2 = spec_freed_size(bs, h);
    let x_addr = (target + BLOCK_HEADER_SIZE + s2) as u64;
    &&& post.used_memory_size == (if pre.used_memory_size >= BLOCK_HEADER_SIZE + bufh {
        (pre.used_memory_size - BLOCK_HEADER_SIZE - bufh) as u64
    } else {
        0
    })
    &&& post.maximum_memory_size == pre.maximum_memory_size
    &&& post.areainfo_ptr == pre.areainfo_ptr
    // the merged block is filed at the head of its class
    &&& post.spec_head(spec_class_of(s2 as nat) as int) == Some(target)
    &&& post.spec_blocks().contains_key(target)
    &&& post.spec_blocks()[target].header.spec_is_freed()
    &&& post.spec_blocks()[target].header.spec_buffer_size() == s2 as nat
    &&& post.spec_blocks()[target].header.previous_header == bs[target].header.previous_header
    // the absorbed neighbours leave the table; nothing else does
    &&& post.spec_blocks().dom() == (if fmerge {
        if bmerge {
            bs.dom().remove(f_addr).remove(h)
        } else {
            bs.dom().remove(f_addr)
        }
    } else {
        if bmerge {
            bs.dom().remove(h)
        } else {
            bs.dom()
        }
    })
    // the physically following block is repointed at the merged block
    &&& (bs.contains_key(x_addr) ==> {
        &&& post.spec_blocks().contains_key(x_addr)
        &&& post.spec_blocks()[x_addr].header.spec_is_prev_freed()
        &&& post.spec_blocks()[x_addr].header.previous_header == Some(target)
        &&& post.spec_blocks()[x_addr].header.spec_buffer_size() == bs[
            x_addr
        ].header.spec_buffer_size()
        &&& post.spec_blocks()[x_addr].header.spec_is_freed() == bs[
            x_addr
        ].header.spec_is_freed()
    })
    // every other surviving block keeps its header ...
    &&& (forall|a: u64|
        #[trigger] bs.contains_key(a) && a != h && a != f_addr && a != target && a != x_addr
            ==> post.spec_blocks().contains_key(a) && post.spec_blocks()[a].header == bs[
            a
        ].header)
    // ... and blocks that were allocated keep their buffers too
    &&& (forall|a: u64|
        #[trigger] bs.contains_key(a) && !bs[a].header.spec_is_freed() && a != h && a != x_addr
            ==> post.spec_blocks()[a] == bs[a])
    // class heads other than the touched classes are unchanged
    &&& (forall|k: int|
        0 <= k < TOTAL_COUNT && k != spec_class_of(s2 as nat) && (fmerge ==> k
            != spec_block_class(bs[f_addr])) && (bmerge ==> k != spec_block_class(
            bs[bs[h].header.previous_header.unwrap()],
        )) ==> #[trigger] post.spec_head(k) == pre.spec_head(k))
    // the class a merged-away successor left (in a plain forward merge):
    // its head moves on to that block's list successor
    &&& (fmerge && !bmerge && spec_block_class(bs[f_addr]) != spec_class_of(s2 as nat)
        ==> post.spec_head(spec_block_class(bs[f_addr]) as int) == (if pre.spec_head(
        spec_block_class(bs[f_addr]) as int,
    ) == Some(f_addr) {
        bs[f_addr].spec_link().next
    } else {
        pre.spec_head(spec_block_class(bs[f_addr]) as int)
    }))
    // and likewise for a merged-away predecessor in a plain backward merge
    &&& (bmerge && !fmerge && spec_block_class(bs[bs[h].header.previous_header.unwrap()])
        != spec_class_of(s2 as nat) ==> post.spec_head(
        spec_block_class(bs[bs[h].header.previous_header.unwrap()]) as int,
    ) == (if pre.spec_head(spec_block_class(bs[bs[h].header.previous_header.unwrap()]) as int)
        == Some(bs[h].header.previous_header.unwrap()) {
        bs[bs[h].header.previous_header.unwrap()].spec_link().next
    } else {
        pre.spec_head(spec_block_class(bs[bs[h].header.previous_header.unwrap()]) as int)
    }))
}

/// What serving a request of `size` bytes does to an index state `pre`,
/// yielding `post` and the buffer address `ptr`.  The served block is the
/// head of the lowest non-empty class at or above the request's searching
/// class; it is cut down to the searching size when the remainder can host
/// a block of its own (which is then filed at the head of its class), and
/// handed out whole otherwise, clearing the successor's predecessor-free
/// flag.  Every clause is relative to `pre`, so call sequences can be
/// chained through it.
pub open spec fn spec_allocate_outcome(
    pre: TLSFRawHeader,
    post: TLSFRawHeader,
    size: u64,
    ptr: u64,
) -> bool {
    let h = (ptr - BLOCK_HEADER_SIZE) as u64;
    let bs = pre.spec_blocks();
    let bsize = bs[h].header.spec_buffer_size();
    let ssize = spec_search_size(size as nat);
    let k0 = spec_class_of(ssize);
    let kf = spec_block_class(bs[h]);
    let new_addr = (h + BLOCK_HEADER_SIZE + ssize) as u64;
    let next_addr = (h + BLOCK_HEADER_SIZE + bsize) as u64;
    let split = bsize - ssize >= BLOCK_HEADER_SIZE + FREE_NODE_SIZE && !bs.contains_key(new_addr);
    let rem_size = bsize - ssize - BLOCK_HEADER_SIZE;
    let blk = post.spec_blocks()[h];
    &&& ptr >= BLOCK_HEADER_SIZE
    // the served block was the head of the lowest non-empty class at or
    // above the searching class
    &&& bs.contains_key(h)
    &&& bs[h].header.spec_is_freed()
    &&& pre.spec_head(kf as int) == Some(h)
    &&& k0 <= kf
    &&& (forall|k: int| k0 <= k < kf ==> (#[trigger] pre.spec_head(k)).is_none())
    // it is handed out with exactly the searching size when it splits,
    // whole otherwise
    &&& post.spec_blocks().contains_key(h)
    &&& !blk.header.spec_is_freed()
    &&& blk.data == BufferData::User
    &&& blk.header.spec_buffer_size() == (if split {
        ssize as int
    } else {
        bsize as int
    })
    &&& blk.header.previous_header == bs[h].header.previous_header
    &&& spec_is_aligned(blk.header.spec_buffer_size())
    &&& ssize <= blk.header.spec_buffer_size() < CLASS_SIZE_LIMIT
    &&& spec_alloc_size(size as nat) <= blk.header.spec_buffer_size()
    &&& size <= blk.header.spec_buffer_size()
    &&& MINIMUM_BLOCK_SIZE <= blk.header.spec_buffer_size()
    // the split remainder is a fresh free block, filed at the head of its
    // own class, with its back pointer at the served block
    &&& post.spec_blocks().dom() == (if split {
        bs.dom().insert(new_addr)
    } else {
        bs.dom()
    })
    &&& (split ==> {
        let rem = post.spec_blocks()[new_addr];
        &&& post.spec_blocks().contains_key(new_addr)
        &&& rem.header.spec_is_freed()
        &&& rem.header.spec_buffer_size() == rem_size
        &&& rem.header.previous_header == Some(h)
        &&& post.spec_head(spec_class_of(rem_size as nat) as int) == Some(new_addr)
    })
    // the physical successor points back at the remainder, or learns that
    // its predecessor is no longer free
    &&& (bs.contains_key(next_addr) ==> {
        &&& post.spec_blocks().contains_key(next_addr)
        &&& post.spec_blocks()[next_addr].header.spec_buffer_size() == bs[
            next_addr
        ].header.spec_buffer_size()
        &&& post.spec_blocks()[next_addr].header.spec_is_freed() == bs[
            next_addr
        ].header.spec_is_freed()
        &&& (split ==> post.spec_blocks()[next_addr].header.previous_header == Some(new_addr)
            && post.spec_blocks()[next_addr].header.spec_is_prev_freed() == bs[
            next_addr
        ].header.spec_is_prev_freed())
        &&& (!split ==> !post.spec_blocks()[next_addr].header.spec_is_prev_freed()
            && post.spec_blocks()[next_addr].header.previous_header == bs[
            next_addr
        ].header.previous_header)
    })
    // headers of everything else survive untouched ...
    &&& (forall|a: u64|
        #[trigger] bs.contains_key(a) && a != h && a != next_addr
            ==> post.spec_blocks().contains_key(a) && post.spec_blocks()[a].header == bs[
            a
        ].header)
    // ... and blocks that were allocated are untouched entirely
    &&& (forall|a: u64|
        #[trigger] bs.contains_key(a) && !bs[a].header.spec_is_freed() && a != next_addr
            ==> post.spec_blocks()[a] == bs[a])
    // the found class's head moves on to the popped block's list successor
    &&& post.spec_head(kf as int) == (if split && spec_class_of(rem_size as nat) == kf {
        Some(new_addr)
    } else {
        bs[h].spec_link().next
    })
    // class heads other than the found class and the remainder's class are
    // unchanged
    &&& (forall|k: int|
        0 <= k < TOTAL_COUNT && k != kf && (split ==> k != spec_class_of(rem_size as nat))
            ==> #[trigger] post.spec_head(k) == pre.spec_head(k))
    // accounting
    &&& post.used_memory_size == (if pre.used_memory_size + BLOCK_HEADER_SIZE
        + blk.header.spec_buffer_size() <= u64::MAX {
        (pre.used_memory_size + BLOCK_HEADER_SIZE + blk.header.spec_buffer_size()) as u64
    } else {
        u64::MAX
    })
    &&& post.maximum_memory_size == pre.maximum_memory_size
    &&& post.areainfo_ptr == pre.areainfo_ptr
}

/// The root pool: the global index header living in its root chunk.
pub struct RootPool {
    pub memory: TLSFRootChunk,
}

impl RootPool {
    /// The pool's index is intact.
    pub open spec fn wf(self) -> bool {
        self.memory.header.wf()
    }

    pub open spec fn spec_header(self) -> TLSFRawHeader {
        self.memory.header
    }

    /// Build a pool over the region `[base, base + requested_size)`.
    /// Returns nothing when the region is too small to host the global
    /// header and one minimum block.
    pub fn from(base: u64, requested_size: u64) -> (r: Option<Self>)
        requires
            spec_is_aligned(base as nat),
            base + requested_size + 64 <= u64::MAX,
            requested_size < CLASS_SIZE_LIMIT,
        ensures
            r.is_some() <==> requested_size >= MINIMUM_ROOT_SIZE,
            r matches Some(p) ==> {
                let total = crate::function::spec_round_down(requested_size as nat)
                    - GLOBAL_HEADER_SIZE;
                let s_addr = base + GLOBAL_HEADER_SIZE;
                let f_addr = base + GLOBAL_HEADER_SIZE + BLOCK_HEADER_SIZE + AREA_INFO_SIZE;
                let e_addr = s_addr + total - BLOCK_HEADER_SIZE;
                let f_size = total - AREA_INFO_SIZE - 3 * BLOCK_HEADER_SIZE;
                &&& p.wf()
                &&& p.memory.chunk.base == base
                &&& p.memory.chunk.size == requested_size
                &&& p.spec_header().used_memory_size == 0
                &&& p.spec_header().maximum_memory_size == f_size + BLOCK_HEADER_SIZE
                &&& p.spec_header().spec_head(spec_class_of(f_size as nat) as int) == Some(
                    f_addr as u64,
                )
                // the pool holds exactly its three records: the start
                // sentinel with the sole area record, the one spanning free
                // block at the head of its class, and the end sentinel
                // pointing back at it; every other class is empty
                &&& p.spec_header().spec_blocks().dom() == Set::<u64>::empty().insert(
                    s_addr as u64,
                ).insert(f_addr as u64).insert(e_addr as u64)
                &&& p.spec_header().areainfo_ptr == Some((s_addr + BLOCK_HEADER_SIZE) as u64)
                &&& ({
                    let sb = p.spec_header().spec_blocks()[s_addr as u64];
                    &&& !sb.header.spec_is_freed()
                    &&& !sb.header.spec_is_prev_freed()
                    &&& sb.header.spec_buffer_size() == AREA_INFO_SIZE
                    &&& sb.header.previous_header.is_none()
                    &&& sb.data == BufferData::Area(
                        AreaInfo {
                            end_block_header: Some(e_addr as u64),
                            next_area_header: None::<u64>,
                        },
                    )
                })
                &&& p.spec_header().spec_blocks()[
                    f_addr as u64
                ].header.spec_is_freed()
                &&& p.spec_header().spec_blocks()[
                    f_addr as u64
                ].header.spec_buffer_size() == f_size
                &&& ({
                    let eb = p.spec_header().spec_blocks()[e_addr as u64];
                    &&& !eb.header.spec_is_freed()
                    &&& eb.header.spec_is_prev_freed()
                    &&& eb.header.spec_buffer_size() == 0
                    &&& eb.header.previous_header == Some(f_addr as u64)
                })
                &&& (forall|k: int|
                    0 <= k < TOTAL_COUNT && k != spec_class_of(f_size as nat) ==> (
                    #[trigger] p.spec_header().spec_head(k)).is_none())
            },
    {
        if requested_size < MINIMUM_ROOT_SIZE {
            return None;
        }
        let chunk = match TLSFRootChunk::new(base, requested_size) {
            Some(chunk) => chunk,
            None => {
                return None;
            },
        };
        let mut pool = Self { memory: chunk };
        let total_area_size = round_down_block(requested_size) - TLSFRawHeader::get_aligned_size();
        let f_addr = base + TLSFRawHeader::get_aligned_size() + BlockHeader::get_aligned_size()
            + AreaInfo::get_aligned_size();
        let f_size = total_area_size - AreaInfo::get_aligned_size() - 3
            * BlockHeader::get_aligned_size();
        proof {
            lemma_round_down_props(requested_size as nat);
        }

        // Account the pool's one large block, then free it through the
        // normal path so that it enters the index like any other block.
        pool.memory.header.account_grow(f_size + BLOCK_HEADER_SIZE, true);
        let ghost before_free = pool.spec_header();
        pool.dealloc(f_addr + BlockHeader::get_aligned_size());
        proof {
            let post = pool.spec_header();
            let s_addr = (base + GLOBAL_HEADER_SIZE) as u64;
            let e_addr = (base + GLOBAL_HEADER_SIZE + total_area_size - BLOCK_HEADER_SIZE) as u64;
            // the lone block has a non-free successor and no free
            // predecessor, so the free path files it unmerged
            assert(!spec_fmerge(before_free.spec_blocks(), f_addr));
            assert(!spec_bmerge(before_free.spec_blocks(), f_addr));
            assert(spec_free_target(before_free.spec_blocks(), f_addr) == f_addr);
            assert(spec_freed_size(before_free.spec_blocks(), f_addr) == f_size as int);
            assert(before_free.spec_blocks().contains_key(s_addr));
            assert(before_free.spec_blocks().contains_key(e_addr));
            assert(!before_free.spec_blocks()[s_addr].header.spec_is_freed());
            assert(s_addr != f_addr && e_addr == (f_addr + BLOCK_HEADER_SIZE + f_size) as u64
                && s_addr != e_addr);
            assert(post.spec_blocks().dom() =~= Set::<u64>::empty().insert(s_addr).insert(
                f_addr,
            ).insert(e_addr));
            assert(post.spec_blocks()[s_addr] == before_free.spec_blocks()[s_addr]);
            assert forall|k: int|
                0 <= k < TOTAL_COUNT && k != spec_class_of(
                    (total_area_size - AREA_INFO_SIZE - 3 * BLOCK_HEADER_SIZE) as nat,
                ) implies (#[trigger] post.spec_head(k)).is_none() by {
                assert(post.spec_head(k) == before_free.spec_head(k));
            }
        }
        Some(pool)
    }

    /// Serve a request of `size` bytes: search the index for a fitting
    /// class, pop its head, split off the remainder when it can host a
    /// block of its own, and return the buffer address.
    ///
    /// Returns nothing exactly when no class at or above the request's
    /// searching class has a free block.
    ///
    /// Class lists are last-in first-out: when the searching class itself
    /// has a head block, it is exactly that block that is handed out.
    #[verifier::rlimit(100)]
    pub fn allocate(&mut self, size: u64) -> (r: Option<u64>)
        requires
            old(self).wf(),
            size <= MAX_REQUEST_SIZE,
        ensures
            final(self).wf(),
            old(self).spec_header().spec_head(
                spec_class_of(spec_search_size(size as nat)) as int,
            ) matches Some(b) ==> r == Some((b + BLOCK_HEADER_SIZE) as u64),
            final(self).memory.chunk == old(self).memory.chunk,
            final(self).spec_header().maximum_memory_size == old(self).spec_header().maximum_memory_size,
            r.is_none() ==> *final(self) == *old(self) && (forall|k: int|
                spec_class_of(spec_search_size(size as nat)) <= k < TOTAL_COUNT ==> (
                #[trigger] old(self).spec_header().spec_head(k)).is_none()),
            r matches Some(ptr) ==> spec_allocate_outcome(
                old(self).spec_header(),
                final(self).spec_header(),
                size,
                ptr,
            ),
    {
        let aligned_size = calculate_allocation_searching_size(size);
        proof {
            lemma_search_size_props(size as nat);
        }
        let mapping_indices = match self.memory.header.find_suitable_indices(aligned_size) {
            None => {
                proof {
                    crate::function::lemma_class_min_le_member(spec_search_size(size as nat));
                    let k0 = spec_class_of(spec_search_size(size as nat)) as int;
                    assert(self.memory.header.spec_head(k0).is_none());
                }
                return None;
            },
            Some(mapping_indices) => mapping_indices,
        };
        proof {
            crate::function::lemma_class_min_le_member(spec_search_size(size as nat));
            let k0 = spec_class_of(spec_search_size(size as nat)) as int;
            match old(self).spec_header().spec_head(k0) {
                Some(b) => {
                    assert(spec_flat_index(
                        mapping_indices.0 as nat,
                        mapping_indices.1 as nat,
                    ) == k0) by {
                        if spec_flat_index(mapping_indices.0 as nat, mapping_indices.1 as nat)
                            > k0 {
                            assert(self.memory.header.spec_head(k0).is_none());
                        }
                    }
                },
                None => (),
            }
        }

        let extracted = self.memory.header.extract_root_block(mapping_indices);
        proof {
            assert(extracted.is_some());
        }
        let suitable = match extracted {
            None => {
                return None;
            },
            Some(suitable) => suitable,
        };
        let b = *self.memory.header.blocks.get(&suitable).unwrap();
        let suitable_size = b.header.buffer_size();
        proof {
            lemma_suitable_class_fits(suitable_size as nat, size as nat);
        }

        // Split when the remainder can host a header and a link of its own.
        let ghost g0 = self.memory.header;
        let remained_size = suitable_size - aligned_size;
        let new_addr = suitable + BlockHeader::get_aligned_size() + aligned_size;
        let next_addr = suitable + BlockHeader::get_aligned_size() + suitable_size;
        proof {
            assert(suitable < new_addr <= next_addr);
        }
        if remained_size >= BlockHeader::get_aligned_size() + FREE_NODE_SIZE
            && !self.memory.header.blocks.contains_key(&new_addr) {
            proof {
                lemma_aligned_sub(suitable_size as nat, spec_search_size(size as nat));
            }
            self.memory.header.split_excess(suitable, aligned_size);
        } else {
            // The block is handed out whole: its successor no longer has a
            // free predecessor.
            if self.memory.header.blocks.contains_key(&next_addr) {
                proof {
                    assert(next_addr != suitable);
                }
                self.memory.header.set_prev_freed_of(next_addr, false);
                proof {
                    assert(self.memory.header.spec_blocks()[suitable] == g0.spec_blocks()[
                        suitable
                    ]);
                }
            }
            proof {
                let gw = self.memory.header;
                assert(gw.spec_blocks().dom() =~= g0.spec_blocks().dom());
                assert forall|kk: int| 0 <= kk < TOTAL_COUNT implies #[trigger] gw.spec_head(kk)
                    == g0.spec_head(kk) && gw.spec_head(kk) != Some(suitable) by {
                    assert(g0.spec_head(kk) != Some(suitable));
                }
            }
        }

        let ghost gmid = self.memory.header;
        self.memory.header.set_allocated(suitable);
        let allocated = *self.memory.header.blocks.get(&suitable).unwrap();
        self.memory.header.account_grow(
            BlockHeader::get_aligned_size() + allocated.header.buffer_size(),
            false,
        );
        proof {
            let pre = old(self).spec_header();
            let post = self.memory.header;
            let bs = pre.spec_blocks();
            let ga = self.memory.header;
            let ptr2 = (suitable + BLOCK_HEADER_SIZE) as u64;
            let ssize = spec_search_size(size as nat);
            let kf = spec_block_class(bs[suitable]);
            let split = suitable_size - ssize >= BLOCK_HEADER_SIZE + FREE_NODE_SIZE
                && !bs.contains_key((suitable + BLOCK_HEADER_SIZE + ssize) as u64);
            let rem_size = suitable_size - ssize - BLOCK_HEADER_SIZE;

            // the popped block carried its class, which the search found
            assert(bs[suitable].header == g0.spec_blocks()[suitable].header);
            assert(g0.spec_blocks().dom() =~= bs.dom());
            assert(split == (remained_size >= BLOCK_HEADER_SIZE + FREE_NODE_SIZE
                && !g0.spec_blocks().contains_key(new_addr)));

            // the served block after the flag flip and the accounting
            assert(post.spec_blocks()[suitable].header.spec_buffer_size() == (if split {
                ssize as int
            } else {
                suitable_size as int
            }));
            assert(!post.spec_blocks()[suitable].header.spec_is_freed());
            assert(post.spec_blocks()[suitable].data == BufferData::User);
            assert(post.spec_blocks()[suitable].header.previous_header == bs[
                suitable
            ].header.previous_header);
            assert(post.spec_blocks().dom() =~= (if split {
                bs.dom().insert(new_addr)
            } else {
                bs.dom()
            }));

            // frames and the head bookkeeping carry through the last two
            // steps, which touch only the served block and the counters
            assert forall|a: u64|
                #[trigger] bs.contains_key(a) && a != suitable && a != next_addr implies
                post.spec_blocks().contains_key(a) && post.spec_blocks()[a].header == bs[
                a
            ].header by {
                assert(gmid.spec_blocks()[a].header == bs[a].header);
                assert(post.spec_blocks()[a] == gmid.spec_blocks()[a]);
            }
            assert forall|a: u64|
                #[trigger] bs.contains_key(a) && !bs[a].header.spec_is_freed() && a != next_addr
                implies post.spec_blocks()[a] == bs[a] by {
                assert(a != suitable);
                assert(gmid.spec_blocks()[a] == g0.spec_blocks()[a] && g0.spec_blocks()[a] == bs[
                    a
                ]);
                assert(post.spec_blocks()[a] == gmid.spec_blocks()[a]);
            }
            assert forall|k: int|
                0 <= k < TOTAL_COUNT && k != kf && (split ==> k != spec_class_of(
                    rem_size as nat,
                )) implies #[trigger] post.spec_head(k) == pre.spec_head(k) by {
                assert(gmid.spec_head(k) == g0.spec_head(k));
                assert(g0.spec_head(k) == pre.spec_head(k));
                assert(post.spec_head(k) == gmid.spec_head(k));
            }
            assert(post.spec_head(kf as int) == (if split && spec_class_of(rem_size as nat) == kf {
                Some(new_addr)
            } else {
                bs[suitable].spec_link().next
            })) by {
                if split {
                    if spec_class_of(rem_size as nat) == kf {
                    } else {
                        assert(gmid.spec_head(kf as int) == g0.spec_head(kf as int));
                    }
                } else {
                    assert(gmid.spec_head(kf as int) == g0.spec_head(kf as int));
                }
                assert(post.spec_head(kf as int) == gmid.spec_head(kf as int));
            }
            assert(bs.contains_key(next_addr) ==> {
                &&& post.spec_blocks().contains_key(next_addr)
                &&& post.spec_blocks()[next_addr].header.spec_buffer_size() == bs[
                    next_addr
                ].header.spec_buffer_size()
                &&& post.spec_blocks()[next_addr].header.spec_is_freed() == bs[
                    next_addr
                ].header.spec_is_freed()
                &&& (split ==> post.spec_blocks()[next_addr].header.previous_header == Some(
                    new_addr,
                ) && post.spec_blocks()[next_addr].header.spec_is_prev_freed() == bs[
                    next_addr
                ].header.spec_is_prev_freed())
                &&& (!split ==> !post.spec_blocks()[next_addr].header.spec_is_prev_freed()
                    && post.spec_blocks()[next_addr].header.previous_header == bs[
                    next_addr
                ].header.previous_header)
            }) by {
                if bs.contains_key(next_addr) {
                    assert(next_addr != suitable);
                    assert(post.spec_blocks()[next_addr] == gmid.spec_blocks()[next_addr]);
                }
            }
        }
        Some(suitable + BlockHeader::get_aligned_size())
    }

    /// Return the buffer at `ptr` to the pool: flag its block free, merge
    /// it with a free physical successor and a free physical predecessor,
    /// file the result in the index, and point the following block back at
    /// it.  The full effect is `spec_free_outcome`.
    #[verifier::rlimit(100)]
    pub fn dealloc(&mut self, ptr: u64)
        requires
            old(self).wf(),
            ptr >= BLOCK_HEADER_SIZE,
            old(self).spec_header().spec_blocks().contains_key((ptr - BLOCK_HEADER_SIZE) as u64),
            !old(self).spec_header().spec_blocks()[
                (ptr - BLOCK_HEADER_SIZE) as u64
            ].header.spec_is_freed(),
            spec_is_aligned(
                old(self).spec_header().spec_blocks()[
                    (ptr - BLOCK_HEADER_SIZE) as u64
                ].header.spec_buffer_size(),
            ),
            MINIMUM_BLOCK_SIZE <= old(self).spec_header().spec_blocks()[
                (ptr - BLOCK_HEADER_SIZE) as u64
            ].header.spec_buffer_size() < CLASS_SIZE_LIMIT,
        ensures
            final(self).wf(),
            final(self).memory.chunk == old(self).memory.chunk,
            spec_free_outcome(old(self).spec_header(), final(self).spec_header(), ptr),
    {
        let h = ptr - BlockHeader::get_aligned_size();
        let ghost bs = old(self).spec_header().spec_blocks();

        // Flag the block free, with a fresh link overlaid on its buffer.
        self.memory.header.set_freed_floating(h);
        let ghost gf = self.memory.header;
        let bufh = {
            let b = *self.memory.header.blocks.get(&h).unwrap();
            b.header.buffer_size()
        };
        self.memory.header.account_shrink(BlockHeader::get_aligned_size() + bufh);
        let ghost ga = self.memory.header;
        proof {
            // freeing the block changes neither the merge decision nor the
            // sizes it is made from
            assert(ga.spec_blocks() == gf.spec_blocks());
            assert(ga.spec_blocks() == bs.insert(h, ga.spec_blocks()[h]));
            assert(h + BLOCK_HEADER_SIZE + bufh > h);
            assert(spec_fmerge(ga.spec_blocks(), h) == spec_fmerge(bs, h));
            assert(spec_fmerged_size(ga.spec_blocks(), h) == spec_fmerged_size(bs, h));
            assert(spec_bmerge(ga.spec_blocks(), h) == spec_bmerge(bs, h)) by {
                match bs[h].header.previous_header {
                    Some(p) => {
                        if p + BLOCK_HEADER_SIZE + bs[p].header.spec_buffer_size() == h {
                            assert(p != h);
                        }
                    },
                    None => (),
                }
            }
            assert(spec_free_target(ga.spec_blocks(), h) == spec_free_target(bs, h));
            assert(spec_freed_size(ga.spec_blocks(), h) == spec_freed_size(bs, h));
        }

        // Absorb the free neighbours.
        let (target, final_size) = self.memory.header.coalesce_neighbors(h);
        let ghost gm = self.memory.header;

        // File the merged block in the index.
        let mapping_indices = calculate_mapping_indices(final_size);
        self.memory.header.insert_block(target, mapping_indices);
        let ghost gi = self.memory.header;
        let ghost oh = gm.spec_head(spec_class_of(final_size as nat) as int);

        // Point the physically following block back at the merged block.
        let x_addr = target + BlockHeader::get_aligned_size() + final_size;
        proof {
            assert(gi.spec_blocks().dom() =~= gm.spec_blocks().dom()) by {
                match oh {
                    Some(o) => {
                        assert(gm.spec_blocks().contains_key(o));
                    },
                    None => (),
                }
            }
            assert(x_addr > target);
            match oh {
                Some(o) => {
                    assert(gi.spec_blocks()[o].header == gm.spec_blocks()[o].header);
                },
                None => (),
            }
        }
        if self.memory.header.blocks.contains_key(&x_addr) {
            self.memory.header.set_prev_freed_of(x_addr, true);
            self.memory.header.set_prev_header_of(x_addr, Some(target));
        }

        proof {
            let pre = old(self).spec_header();
            let post = self.memory.header;
            let fmerge = spec_fmerge(bs, h);
            let bmerge = spec_bmerge(bs, h);
            let s2 = spec_freed_size(bs, h);
            let f_addr = (h + BLOCK_HEADER_SIZE + bufh) as u64;
            let k2 = spec_class_of(s2 as nat) as int;

            // domain: the filing and repointing steps add and drop nothing
            assert(post.spec_blocks().dom() =~= gi.spec_blocks().dom());
            assert(post.spec_blocks().dom() == (if fmerge {
                if bmerge {
                    bs.dom().remove(f_addr).remove(h)
                } else {
                    bs.dom().remove(f_addr)
                }
            } else {
                if bmerge {
                    bs.dom().remove(h)
                } else {
                    bs.dom()
                }
            })) by {
                if fmerge {
                    if bmerge {
                        assert(gm.spec_blocks().dom() =~= bs.dom().remove(f_addr).remove(h));
                    } else {
                        assert(gm.spec_blocks().dom() =~= bs.dom().remove(f_addr));
                    }
                } else {
                    if bmerge {
                        assert(gm.spec_blocks().dom() =~= bs.dom().remove(h));
                    } else {
                        assert(gm.spec_blocks().dom() =~= bs.dom());
                    }
                }
            }

            // the merged block, as filed
            assert(post.spec_blocks()[target].header == gi.spec_blocks()[target].header);
            assert(post.spec_head(k2) == gi.spec_head(k2));

            // the repointed successor
            assert(bs.contains_key(x_addr as u64) ==> {
                &&& post.spec_blocks().contains_key(x_addr as u64)
                &&& post.spec_blocks()[x_addr as u64].header.spec_is_prev_freed()
                &&& post.spec_blocks()[x_addr as u64].header.previous_header == Some(target)
                &&& post.spec_blocks()[x_addr as u64].header.spec_buffer_size() == bs[
                    x_addr as u64
                ].header.spec_buffer_size()
                &&& post.spec_blocks()[x_addr as u64].header.spec_is_freed() == bs[
                    x_addr as u64
                ].header.spec_is_freed()
            }) by {
                if bs.contains_key(x_addr as u64) {
                    assert(x_addr != f_addr || !fmerge);
                    assert(gm.spec_blocks().contains_key(x_addr as u64));
                    assert(gm.spec_blocks()[x_addr as u64].header == bs[x_addr as u64].header);
                    assert(gi.spec_blocks()[x_addr as u64].header == gm.spec_blocks()[
                        x_addr as u64
                    ].header);
                }
            }

            // headers of everything else survive untouched
            assert forall|a: u64|
                #[trigger] bs.contains_key(a) && a != h && a != f_addr && a != target && a
                    != x_addr implies post.spec_blocks().contains_key(a)
                && post.spec_blocks()[a].header == bs[a].header by {
                assert(gm.spec_blocks().contains_key(a) && gm.spec_blocks()[a].header == bs[
                    a
                ].header);
                assert(gi.spec_blocks()[a].header == gm.spec_blocks()[a].header) by {
                    match oh {
                        Some(o) => {
                            if a == o {
                                assert(gi.spec_blocks()[o].header == gm.spec_blocks()[o].header);
                            }
                        },
                        None => (),
                    }
                }
            }

            // blocks that were allocated are untouched entirely
            assert forall|a: u64|
                #[trigger] bs.contains_key(a) && !bs[a].header.spec_is_freed() && a != h && a
                    != x_addr implies post.spec_blocks()[a] == bs[a] by {
                assert(gm.spec_blocks()[a] == bs[a] && gm.spec_blocks().contains_key(a));
                assert(a != target);
                assert(gi.spec_blocks()[a] == gm.spec_blocks()[a]) by {
                    match oh {
                        Some(o) => {
                            assert(gm.spec_blocks()[o].header.spec_is_freed());
                            assert(a != o);
                        },
                        None => (),
                    }
                }
            }

            // class heads outside the touched classes are unchanged
            assert forall|k: int|
                0 <= k < TOTAL_COUNT && k != k2 && (fmerge ==> k != spec_block_class(
                    bs[f_addr],
                )) && (bmerge ==> k != spec_block_class(
                    bs[bs[h].header.previous_header.unwrap()],
                )) implies #[trigger] post.spec_head(k) == pre.spec_head(k) by {
                assert(gm.spec_head(k) == ga.spec_head(k));
                assert(ga.spec_head(k) == gf.spec_head(k) && gf.spec_head(k) == pre.spec_head(
                    k,
                ));
                assert(gi.spec_head(k) == gm.spec_head(k));
                assert(post.spec_head(k) == gi.spec_head(k));
            }

            // the head the absorbed neighbour's class moves to
            if fmerge && !bmerge && spec_block_class(bs[f_addr]) != spec_class_of(s2 as nat) {
                crate::function::lemma_class_min_le_member(
                    bs[f_addr].header.spec_buffer_size(),
                );
                let kf = spec_block_class(bs[f_addr]) as int;
                assert(ga.spec_blocks()[f_addr] == bs[f_addr]);
                assert(ga.spec_head(kf) == pre.spec_head(kf));
                assert(gi.spec_head(kf) == gm.spec_head(kf));
                assert(post.spec_head(kf) == gi.spec_head(kf));
            }
            if bmerge && !fmerge {
                let p = bs[h].header.previous_header.unwrap();
                if spec_block_class(bs[p]) != spec_class_of(s2 as nat) {
                    crate::function::lemma_class_min_le_member(
                        bs[p].header.spec_buffer_size(),
                    );
                    let kp = spec_block_class(bs[p]) as int;
                    assert(ga.spec_blocks()[p] == bs[p]);
                    assert(ga.spec_head(kp) == pre.spec_head(kp));
                    assert(gi.spec_head(kp) == gm.spec_head(kp));
                    assert(post.spec_head(kp) == gi.spec_head(kp));
                }
            }
        }
    }
}

/// State after the forward merge: the sole old area (start `oi`, end
/// sentinel `oe`) has been unlinked and its end sentinel has absorbed the
/// region's start sentinel and main block.
#[verifier::opaque]
pub open spec fn spec_merged_forward(
    pre: TLSFRawHeader,
    cur: TLSFRawHeader,
    base: u64,
    total: u64,
) -> bool {
    let oi = spec_sole_area_start(pre);
    let oe = spec_sole_area_end(pre);
    let f_addr = (base + BLOCK_HEADER_SIZE + AREA_INFO_SIZE) as u64;
    let e_addr = (base + total - BLOCK_HEADER_SIZE) as u64;
    &&& cur.areainfo_ptr.is_none()
    &&& cur.spec_blocks().dom() == pre.spec_blocks().dom().remove(base).remove(f_addr)
    &&& cur.spec_blocks()[oi].header == pre.spec_blocks()[oi].header
    &&& cur.spec_blocks()[oe].header.spec_buffer_size() == total - BLOCK_HEADER_SIZE
    &&& cur.spec_blocks()[e_addr].header.previous_header == Some(oe)
    &&& cur.spec_blocks()[e_addr].header.spec_buffer_size() == pre.spec_blocks()[
        e_addr
    ].header.spec_buffer_size()
    &&& !cur.spec_blocks()[e_addr].header.spec_is_freed()
    &&& (forall|a: u64|
        #[trigger] pre.spec_blocks().contains_key(a) && a != base && a != f_addr && a != oi && a
            != oe && a != e_addr ==> cur.spec_blocks()[a] == pre.spec_blocks()[a])
    &&& (forall|kk: int|
        0 <= kk < TOTAL_COUNT ==> #[trigger] cur.spec_head(kk) == pre.spec_head(kk))
}

/// State after the reverse merge: the region's main block has swallowed
/// its own end sentinel and the sole old area's start sentinel.
#[verifier::opaque]
pub open spec fn spec_merged_reverse(
    pre: TLSFRawHeader,
    cur: TLSFRawHeader,
    base: u64,
    total: u64,
) -> bool {
    let oi = spec_sole_area_start(pre);
    let oe = spec_sole_area_end(pre);
    let f_addr = (base + BLOCK_HEADER_SIZE + AREA_INFO_SIZE) as u64;
    let e_addr = (base + total - BLOCK_HEADER_SIZE) as u64;
    let of_addr = (oi + BLOCK_HEADER_SIZE + AREA_INFO_SIZE) as u64;
    &&& cur.areainfo_ptr.is_none()
    &&& cur.spec_blocks().dom() == pre.spec_blocks().dom().remove(e_addr).remove(oi)
    &&& cur.spec_blocks()[base].header == pre.spec_blocks()[base].header
    &&& cur.spec_blocks()[base].data == pre.spec_blocks()[base].data
    &&& cur.spec_blocks()[f_addr].header.spec_buffer_size() == total - BLOCK_HEADER_SIZE
    &&& (pre.spec_blocks().contains_key(of_addr) ==> {
        &&& cur.spec_blocks().contains_key(of_addr)
        &&& cur.spec_blocks()[of_addr].header.previous_header == Some(f_addr)
        &&& cur.spec_blocks()[of_addr].header.spec_buffer_size() == pre.spec_blocks()[
            of_addr
        ].header.spec_buffer_size()
        &&& cur.spec_blocks()[of_addr].header.spec_is_freed() == pre.spec_blocks()[
            of_addr
        ].header.spec_is_freed()
    })
    &&& (forall|a: u64|
        #[trigger] pre.spec_blocks().contains_key(a) && a != base && a != f_addr && a != oi && a
            != e_addr && a != of_addr ==> cur.spec_blocks()[a] == pre.spec_blocks()[a])
    &&& (forall|kk: int|
        0 <= kk < TOTAL_COUNT ==> #[trigger] cur.spec_head(kk) == pre.spec_head(kk))
}

/// The head of the area list names a well-formed area: a non-free start
/// sentinel whose record points at a non-free end sentinel, with the
/// returned buffer's block lying between the two.
pub open spec fn spec_area_head_ok(post: TLSFRawHeader, r: Option<u64>) -> bool {
    match post.areainfo_ptr {
        Some(ai) => ai >= BLOCK_HEADER_SIZE && {
            let info_addr = (ai - BLOCK_HEADER_SIZE) as u64;
            &&& post.spec_blocks().contains_key(info_addr)
            &&& !post.spec_blocks()[info_addr].header.spec_is_freed()
            &&& match post.spec_blocks()[info_addr].data {
                BufferData::Area(info) => match info.end_block_header {
                    Some(e) => {
                        &&& post.spec_blocks().contains_key(e)
                        &&& !post.spec_blocks()[e].header.spec_is_freed()
                        &&& match r {
                            Some(ptr) => info_addr < ((ptr - BLOCK_HEADER_SIZE) as u64) && ((
                            ptr - BLOCK_HEADER_SIZE) as u64) < e,
                            None => true,
                        }
                    },
                    None => false,
                },
                _ => false,
            }
        },
        None => false,
    }
}

/// No block in the table is physically adjacent to the region
/// `[base, base + total)`: none ends exactly at its base and none sits
/// exactly at its end.
#[verifier::opaque]
pub open spec fn spec_region_detached(bs: Map<u64, Block>, base: u64, total: u64) -> bool {
    forall|a: u64|
        #[trigger] bs.contains_key(a) ==> a + BLOCK_HEADER_SIZE + bs[a].header.spec_buffer_size()
            != base && a != base + total
}

/// Start-sentinel address of the sole area on the list (meaningful when
/// the list has exactly one entry).
pub open spec fn spec_sole_area_start(pre: TLSFRawHeader) -> u64 {
    (pre.areainfo_ptr.unwrap() - BLOCK_HEADER_SIZE) as u64
}

/// End-sentinel address named by the sole area's record.
pub open spec fn spec_sole_area_end(pre: TLSFRawHeader) -> u64 {
    match pre.spec_blocks()[spec_sole_area_start(pre)].data {
        BufferData::Area(info) => info.end_block_header.unwrap(),
        _ => 0,
    }
}

/// The area list holds exactly one area, whose buffer ends exactly where
/// the region `[base, base + total)` begins.
#[verifier::opaque]
pub open spec fn spec_single_area_forward(pre: TLSFRawHeader, base: u64, total: u64) -> bool {
    match pre.areainfo_ptr {
        Some(ai) => ai >= BLOCK_HEADER_SIZE && {
            let oi = (ai - BLOCK_HEADER_SIZE) as u64;
            let bs = pre.spec_blocks();
            &&& bs.contains_key(oi)
            &&& !bs[oi].header.spec_is_freed()
            &&& match bs[oi].data {
                BufferData::Area(info) => match info.end_block_header {
                    Some(oe) => {
                        &&& info.next_area_header.is_none()
                        &&& bs.contains_key(oe)
                        &&& !bs[oe].header.spec_is_freed()
                        &&& oi < oe
                        &&& oe + BLOCK_HEADER_SIZE + bs[oe].header.spec_buffer_size() == base
                    },
                    None => false,
                },
                _ => false,
            }
        },
        None => false,
    }
}

/// The area list holds exactly one area, whose start sentinel sits exactly
/// where the region `[base, base + total)` ends.
#[verifier::opaque]
pub open spec fn spec_single_area_reverse(pre: TLSFRawHeader, base: u64, total: u64) -> bool {
    match pre.areainfo_ptr {
        Some(ai) => ai >= BLOCK_HEADER_SIZE && {
            let oi = (ai - BLOCK_HEADER_SIZE) as u64;
            let bs = pre.spec_blocks();
            &&& bs.contains_key(oi)
            &&& !bs[oi].header.spec_is_freed()
            &&& bs[oi].header.spec_buffer_size() == AREA_INFO_SIZE
            &&& oi == base + total
            &&& base + total + 96 <= u64::MAX
            &&& match bs[oi].data {
                BufferData::Area(info) => match info.end_block_header {
                    Some(oe) => {
                        &&& info.next_area_header.is_none()
                        &&& bs.contains_key(oe)
                        &&& !bs[oe].header.spec_is_freed()
                        &&& oi < oe
                    },
                    None => false,
                },
                _ => false,
            }
        },
        None => false,
    }
}

/// Chaining the five steps of the forward merge — unlink, two removals,
/// the end sentinel's resize, and the repointed new end sentinel — yields
/// the merged-area state.
proof fn lemma_forward_merge_summary(
    pre: TLSFRawHeader,
    m1: TLSFRawHeader,
    m2: TLSFRawHeader,
    m3: TLSFRawHeader,
    m4: TLSFRawHeader,
    fin: TLSFRawHeader,
    base: u64,
    total: u64,
)
    requires
        spec_single_area_forward(pre, base, total),
        AREA_INFO_SIZE + 3 * BLOCK_HEADER_SIZE + MINIMUM_BLOCK_SIZE <= total,
        base + total + 64 <= u64::MAX,
        pre.spec_blocks().contains_key(base),
        pre.spec_blocks().contains_key((base + BLOCK_HEADER_SIZE + AREA_INFO_SIZE) as u64),
        pre.spec_blocks().contains_key((base + total - BLOCK_HEADER_SIZE) as u64),
        !pre.spec_blocks()[
            (base + total - BLOCK_HEADER_SIZE) as u64
        ].header.spec_is_freed(),
        ({
            let oi = spec_sole_area_start(pre);
            let oe = spec_sole_area_end(pre);
            let fa = (base + BLOCK_HEADER_SIZE + AREA_INFO_SIZE) as u64;
            let ea = (base + total - BLOCK_HEADER_SIZE) as u64;
            &&& m1.spec_blocks() == pre.spec_blocks()
            &&& m1.areainfo_ptr.is_none()
            &&& (forall|kk: int|
                0 <= kk < TOTAL_COUNT ==> #[trigger] m1.spec_head(kk) == pre.spec_head(kk))
            &&& m2.spec_blocks() == m1.spec_blocks().remove(base)
            &&& m2.areainfo_ptr == m1.areainfo_ptr
            &&& (forall|kk: int|
                0 <= kk < TOTAL_COUNT ==> #[trigger] m2.spec_head(kk) == m1.spec_head(kk))
            &&& m3.spec_blocks() == m2.spec_blocks().remove(fa)
            &&& m3.areainfo_ptr == m2.areainfo_ptr
            &&& (forall|kk: int|
                0 <= kk < TOTAL_COUNT ==> #[trigger] m3.spec_head(kk) == m2.spec_head(kk))
            &&& m4.spec_blocks().dom() == m3.spec_blocks().dom()
            &&& m3.spec_blocks().contains_key(oe)
            &&& m4.spec_blocks()[oe].header.spec_buffer_size() == total - BLOCK_HEADER_SIZE
            &&& m4.spec_blocks()[oe].header.spec_is_freed() == m3.spec_blocks()[
                oe
            ].header.spec_is_freed()
            &&& m4.spec_blocks()[oe].header.previous_header == m3.spec_blocks()[
                oe
            ].header.previous_header
            &&& (forall|a: u64|
                #[trigger] m3.spec_blocks().contains_key(a) && a != oe ==> m4.spec_blocks()[a]
                    == m3.spec_blocks()[a])
            &&& m4.areainfo_ptr == m3.areainfo_ptr
            &&& (forall|kk: int|
                0 <= kk < TOTAL_COUNT ==> #[trigger] m4.spec_head(kk) == m3.spec_head(kk))
            &&& m4.spec_blocks().contains_key(ea)
            &&& fin.spec_blocks() == m4.spec_blocks().insert(
                ea,
                Block {
                    header: BlockHeader {
                        previous_header: Some(oe),
                        stored_size: m4.spec_blocks()[ea].header.stored_size,
                    },
                    data: m4.spec_blocks()[ea].data,
                },
            )
            &&& fin.areainfo_ptr == m4.areainfo_ptr
            &&& (forall|kk: int|
                0 <= kk < TOTAL_COUNT ==> #[trigger] fin.spec_head(kk) == m4.spec_head(kk))
        }),
    ensures
        spec_merged_forward(pre, fin, base, total),
{
    reveal(spec_merged_forward);
    reveal(spec_single_area_forward);
    let oi = spec_sole_area_start(pre);
    let oe = spec_sole_area_end(pre);
    let fa = (base + BLOCK_HEADER_SIZE + AREA_INFO_SIZE) as u64;
    let ea = (base + total - BLOCK_HEADER_SIZE) as u64;
    assert(oi < oe && oe + BLOCK_HEADER_SIZE <= base);
    assert(fin.spec_blocks().dom() =~= pre.spec_blocks().dom().remove(base).remove(fa));
    assert(fin.spec_blocks()[oi] == pre.spec_blocks()[oi]) by {
        assert(oi != base && oi != fa && oi != ea && oi != oe);
        assert(m2.spec_blocks()[oi] == m1.spec_blocks()[oi]);
        assert(m3.spec_blocks()[oi] == m2.spec_blocks()[oi]);
        assert(m3.spec_blocks().contains_key(oi));
        assert(m4.spec_blocks()[oi] == m3.spec_blocks()[oi]);
        assert(fin.spec_blocks()[oi] == m4.spec_blocks()[oi]);
    }
    assert(fin.spec_blocks()[ea].header.spec_buffer_size() == pre.spec_blocks()[
        ea
    ].header.spec_buffer_size() && !fin.spec_blocks()[ea].header.spec_is_freed()
        && fin.spec_blocks()[ea].header.previous_header == Some(oe)) by {
        assert(ea != base && ea != fa && ea != oi && ea != oe);
        assert(m2.spec_blocks()[ea] == m1.spec_blocks()[ea]);
        assert(m3.spec_blocks()[ea] == m2.spec_blocks()[ea]);
        assert(m3.spec_blocks().contains_key(ea));
        assert(m4.spec_blocks()[ea] == m3.spec_blocks()[ea]);
    }
    assert(fin.spec_blocks()[oe].header.spec_buffer_size() == total - BLOCK_HEADER_SIZE) by {
        assert(oe != ea);
        assert(fin.spec_blocks()[oe] == m4.spec_blocks()[oe]);
    }
    assert forall|a: u64|
        #[trigger] pre.spec_blocks().contains_key(a) && a != base && a != fa && a != oi && a
            != oe && a != ea implies fin.spec_blocks()[a] == pre.spec_blocks()[a] by {
        assert(m3.spec_blocks().contains_key(a));
        assert(m4.spec_blocks()[a] == m3.spec_blocks()[a]);
    }
    assert forall|kk: int|
        0 <= kk < TOTAL_COUNT implies #[trigger] fin.spec_head(kk) == pre.spec_head(kk) by {
        assert(m4.spec_head(kk) == m3.spec_head(kk) && m3.spec_head(kk) == m2.spec_head(kk)
            && m2.spec_head(kk) == m1.spec_head(kk) && m1.spec_head(kk) == pre.spec_head(kk));
    }
}

/// Chaining the five steps of the reverse merge — unlink, removal of the
/// region's end sentinel and the old start sentinel, the main block's
/// resize, and the repointed old first block — yields the merged-area
/// state.
proof fn lemma_reverse_merge_summary(
    pre: TLSFRawHeader,
    m1: TLSFRawHeader,
    m2: TLSFRawHeader,
    m3: TLSFRawHeader,
    m4: TLSFRawHeader,
    fin: TLSFRawHeader,
    base: u64,
    total: u64,
)
    requires
        spec_single_area_reverse(pre, base, total),
        AREA_INFO_SIZE + 3 * BLOCK_HEADER_SIZE + MINIMUM_BLOCK_SIZE <= total,
        pre.spec_blocks().contains_key(base),
        pre.spec_blocks().contains_key((base + BLOCK_HEADER_SIZE + AREA_INFO_SIZE) as u64),
        pre.spec_blocks().contains_key((base + total - BLOCK_HEADER_SIZE) as u64),
        ({
            let oi = spec_sole_area_start(pre);
            let oe = spec_sole_area_end(pre);
            let fa = (base + BLOCK_HEADER_SIZE + AREA_INFO_SIZE) as u64;
            let ea = (base + total - BLOCK_HEADER_SIZE) as u64;
            let ofa = (oi + BLOCK_HEADER_SIZE + AREA_INFO_SIZE) as u64;
            &&& m1.spec_blocks() == pre.spec_blocks()
            &&& m1.areainfo_ptr.is_none()
            &&& (forall|kk: int|
                0 <= kk < TOTAL_COUNT ==> #[trigger] m1.spec_head(kk) == pre.spec_head(kk))
            &&& m2.spec_blocks() == m1.spec_blocks().remove(ea)
            &&& m2.areainfo_ptr == m1.areainfo_ptr
            &&& (forall|kk: int|
                0 <= kk < TOTAL_COUNT ==> #[trigger] m2.spec_head(kk) == m1.spec_head(kk))
            &&& m3.spec_blocks() == m2.spec_blocks().remove(oi)
            &&& m3.areainfo_ptr == m2.areainfo_ptr
            &&& (forall|kk: int|
                0 <= kk < TOTAL_COUNT ==> #[trigger] m3.spec_head(kk) == m2.spec_head(kk))
            &&& m4.spec_blocks().dom() == m3.spec_blocks().dom()
            &&& m3.spec_blocks().contains_key(fa)
            &&& m4.spec_blocks()[fa].header.spec_buffer_size() == total - BLOCK_HEADER_SIZE
            &&& m4.spec_blocks()[fa].header.spec_is_freed() == m3.spec_blocks()[
                fa
            ].header.spec_is_freed()
            &&& (forall|a: u64|
                #[trigger] m3.spec_blocks().contains_key(a) && a != fa ==> m4.spec_blocks()[a]
                    == m3.spec_blocks()[a])
            &&& m4.areainfo_ptr == m3.areainfo_ptr
            &&& (forall|kk: int|
                0 <= kk < TOTAL_COUNT ==> #[trigger] m4.spec_head(kk) == m3.spec_head(kk))
            &&& fin.spec_blocks() == (if m4.spec_blocks().contains_key(ofa) {
                m4.spec_blocks().insert(
                    ofa,
                    Block {
                        header: BlockHeader {
                            previous_header: Some(fa),
                            stored_size: m4.spec_blocks()[ofa].header.stored_size,
                        },
                        data: m4.spec_blocks()[ofa].data,
                    },
                )
            } else {
                m4.spec_blocks()
            })
            &&& fin.areainfo_ptr == m4.areainfo_ptr
            &&& (forall|kk: int|
                0 <= kk < TOTAL_COUNT ==> #[trigger] fin.spec_head(kk) == m4.spec_head(kk))
        }),
    ensures
        spec_merged_reverse(pre, fin, base, total),
{
    reveal(spec_merged_reverse);
    reveal(spec_single_area_reverse);
    let oi = spec_sole_area_start(pre);
    let oe = spec_sole_area_end(pre);
    let fa = (base + BLOCK_HEADER_SIZE + AREA_INFO_SIZE) as u64;
    let ea = (base + total - BLOCK_HEADER_SIZE) as u64;
    let ofa = (oi + BLOCK_HEADER_SIZE + AREA_INFO_SIZE) as u64;
    assert(base < fa < ea && ea < oi && oi < ofa);
    assert(fin.spec_blocks().dom() =~= pre.spec_blocks().dom().remove(ea).remove(oi));
    assert(fin.spec_blocks()[base] == pre.spec_blocks()[base]) by {
        assert(base != ea && base != oi && base != fa && base != ofa);
        assert(m2.spec_blocks()[base] == m1.spec_blocks()[base]);
        assert(m3.spec_blocks()[base] == m2.spec_blocks()[base]);
        assert(m3.spec_blocks().contains_key(base));
        assert(m4.spec_blocks()[base] == m3.spec_blocks()[base]);
        assert(fin.spec_blocks()[base] == m4.spec_blocks()[base]);
    }
    assert(fin.spec_blocks()[fa].header.spec_buffer_size() == total - BLOCK_HEADER_SIZE) by {
        assert(fa != ofa);
        assert(fin.spec_blocks()[fa] == m4.spec_blocks()[fa]);
    }
    assert(pre.spec_blocks().contains_key(ofa) ==> {
        &&& fin.spec_blocks().contains_key(ofa)
        &&& fin.spec_blocks()[ofa].header.previous_header == Some(fa)
        &&& fin.spec_blocks()[ofa].header.spec_buffer_size() == pre.spec_blocks()[
            ofa
        ].header.spec_buffer_size()
        &&& fin.spec_blocks()[ofa].header.spec_is_freed() == pre.spec_blocks()[
            ofa
        ].header.spec_is_freed()
    }) by {
        if pre.spec_blocks().contains_key(ofa) {
            assert(ofa != ea && ofa != oi && ofa != fa);
            assert(m2.spec_blocks()[ofa] == m1.spec_blocks()[ofa]);
            assert(m3.spec_blocks()[ofa] == m2.spec_blocks()[ofa]);
            assert(m3.spec_blocks().contains_key(ofa));
            assert(m4.spec_blocks()[ofa] == m3.spec_blocks()[ofa]);
            assert(m4.spec_blocks().contains_key(ofa));
        }
    }
    assert forall|a: u64|
        #[trigger] pre.spec_blocks().contains_key(a) && a != base && a != fa && a != oi && a
            != ea && a != ofa implies fin.spec_blocks()[a] == pre.spec_blocks()[a] by {
        assert(m3.spec_blocks().contains_key(a));
        assert(m4.spec_blocks()[a] == m3.spec_blocks()[a]);
    }
    assert forall|kk: int|
        0 <= kk < TOTAL_COUNT implies #[trigger] fin.spec_head(kk) == pre.spec_head(kk) by {
        assert(m4.spec_head(kk) == m3.spec_head(kk) && m3.spec_head(kk) == m2.spec_head(kk)
            && m2.spec_head(kk) == m1.spec_head(kk) && m1.spec_head(kk) == pre.spec_head(kk));
    }
}

impl TLSFRawHeader {
    /// Carve the excess off the free floating block at `h` (flagged free,
    /// cleared link, in no list): keep `keep_size` bytes of buffer, lay a
    /// fresh free block over the rest, file it at the head of its class,
    /// and point the physical successor back at it.
    #[verifier::rlimit(100)]
    fn split_excess(&mut self, h: u64, keep_size: u64)
        requires
            old(self).wf(),
            old(self).spec_blocks().contains_key(h),
            old(self).spec_blocks()[h].header.spec_is_freed(),
            old(self).spec_blocks()[h].data == BufferData::Link(
                FreeNode { prev: None::<u64>, next: None::<u64> },
            ),
            spec_free_size_ok(old(self).spec_blocks()[h]),
            forall|kk: int|
                0 <= kk < TOTAL_COUNT ==> #[trigger] old(self).spec_head(kk) != Some(h),
            spec_is_aligned(keep_size as nat),
            MINIMUM_BLOCK_SIZE <= keep_size,
            keep_size + BLOCK_HEADER_SIZE + FREE_NODE_SIZE <= old(self).spec_blocks()[
                h
            ].header.spec_buffer_size(),
            !old(self).spec_blocks().contains_key((h + BLOCK_HEADER_SIZE + keep_size) as u64),
        ensures
            final(self).wf(),
            ({
                let bs = old(self).spec_blocks();
                let bsize = bs[h].header.spec_buffer_size();
                let new_addr = (h + BLOCK_HEADER_SIZE + keep_size) as u64;
                let next_addr = (h + BLOCK_HEADER_SIZE + bsize) as u64;
                let rem_size = bsize - keep_size - BLOCK_HEADER_SIZE;
                &&& final(self).spec_blocks().dom() == bs.dom().insert(new_addr)
                &&& final(self).spec_blocks()[h].header.spec_is_freed()
                &&& final(self).spec_blocks()[h].header.spec_buffer_size() == keep_size
                &&& final(self).spec_blocks()[h].header.spec_is_prev_freed() == bs[
                    h
                ].header.spec_is_prev_freed()
                &&& final(self).spec_blocks()[h].header.previous_header == bs[
                    h
                ].header.previous_header
                &&& final(self).spec_blocks()[h].data == BufferData::Link(
                    FreeNode { prev: None::<u64>, next: None::<u64> },
                )
                &&& forall|kk: int|
                    0 <= kk < TOTAL_COUNT ==> #[trigger] final(self).spec_head(kk) != Some(h)
                &&& final(self).spec_blocks().contains_key(new_addr)
                &&& final(self).spec_blocks()[new_addr].header.spec_is_freed()
                &&& final(self).spec_blocks()[new_addr].header.spec_buffer_size()
                    == rem_size as nat
                &&& final(self).spec_blocks()[new_addr].header.previous_header == Some(h)
                &&& final(self).spec_head(spec_class_of(rem_size as nat) as int) == Some(
                    new_addr,
                )
                &&& (bs.contains_key(next_addr) ==> {
                    &&& final(self).spec_blocks().contains_key(next_addr)
                    &&& final(self).spec_blocks()[next_addr].header.previous_header == Some(
                        new_addr,
                    )
                    &&& final(self).spec_blocks()[next_addr].header.spec_is_prev_freed() == bs[
                        next_addr
                    ].header.spec_is_prev_freed()
                    &&& final(self).spec_blocks()[next_addr].header.spec_buffer_size() == bs[
                        next_addr
                    ].header.spec_buffer_size()
                    &&& final(self).spec_blocks()[next_addr].header.spec_is_freed() == bs[
                        next_addr
                    ].header.spec_is_freed()
                })
                &&& forall|a: u64|
                    #[trigger] bs.contains_key(a) && a != h && a != next_addr ==> final(self).spec_blocks().contains_key(a) && final(self).spec_blocks()[a].header == bs[
                        a
                    ].header
                &&& forall|a: u64|
                    #[trigger] bs.contains_key(a) && !bs[a].header.spec_is_freed() && a
                        != next_addr ==> final(self).spec_blocks()[a] == bs[a]
                &&& forall|k: int|
                    0 <= k < TOTAL_COUNT && k != spec_class_of(rem_size as nat)
                        ==> #[trigger] final(self).spec_head(k) == old(self).spec_head(k)
                &&& final(self).used_memory_size == old(self).used_memory_size
                &&& final(self).maximum_memory_size == old(self).maximum_memory_size
                &&& final(self).areainfo_ptr == old(self).areainfo_ptr
            }),
    {
        let ghost bs0 = old(self).spec_blocks();
        let bsize = {
            let b = *self.blocks.get(&h).unwrap();
            b.header.buffer_size()
        };
        let new_addr = h + BlockHeader::get_aligned_size() + keep_size;
        let next_addr = h + BlockHeader::get_aligned_size() + bsize;
        let new_buffer_size = bsize - keep_size - BlockHeader::get_aligned_size();
        proof {
            lemma_aligned_sub(bsize as nat, keep_size as nat);
            lemma_aligned_sub((bsize - keep_size) as nat, BLOCK_HEADER_SIZE as nat);
        }
        let new_block = Block {
            header: BlockHeader::new(new_buffer_size, true, false, Some(h)),
            data: BufferData::Link(FreeNode::new()),
        };
        self.insert_fresh_block(new_addr, new_block);
        let ghost g1 = *self;
        if self.blocks.contains_key(&next_addr) {
            proof {
                assert(next_addr != new_addr);
            }
            self.set_prev_header_of(next_addr, Some(new_addr));
        }
        let ghost g2 = *self;
        proof {
            assert(g2.spec_blocks()[h] == bs0[h]);
            assert(g2.spec_blocks()[new_addr] == new_block);
            assert(forall|kk: int|
                0 <= kk < TOTAL_COUNT ==> #[trigger] g2.spec_head(kk) != Some(h));
        }
        self.resize_block(h, keep_size);
        let ghost g3 = *self;
        proof {
            assert(g2.spec_blocks().contains_key(new_addr));
            assert(g3.spec_blocks()[new_addr] == g2.spec_blocks()[new_addr]);
            assert(g3.spec_blocks()[new_addr] == new_block);
            assert forall|kk: int| 0 <= kk < TOTAL_COUNT implies #[trigger] g3.spec_head(kk)
                != Some(new_addr) by {
                assert(g3.spec_head(kk) == g2.spec_head(kk) && g2.spec_head(kk) == g1.spec_head(
                    kk,
                ));
            }
        }
        let new_mapping = calculate_mapping_indices(new_buffer_size);
        self.insert_block(new_addr, new_mapping);
        proof {
            let g4 = *self;
            let krem = spec_class_of(new_buffer_size as nat) as int;
            assert(g4.spec_blocks()[h] == g3.spec_blocks()[h]) by {
                match g3.spec_head(krem) {
                    Some(hh) => {
                        assert(hh != h);
                    },
                    None => (),
                }
            }
            assert forall|kk: int| 0 <= kk < TOTAL_COUNT implies #[trigger] g4.spec_head(kk)
                != Some(h) by {
                if g4.spec_head(kk) == Some(h) {
                    assert(g4.spec_head(kk) == g3.spec_head(kk) || g4.spec_head(kk) == Some(
                        new_addr,
                    ));
                }
            }
            assert(g4.spec_blocks().dom() =~= bs0.dom().insert(new_addr));
            assert(bs0.contains_key(next_addr) ==> {
                &&& g4.spec_blocks().contains_key(next_addr)
                &&& g4.spec_blocks()[next_addr].header.previous_header == Some(new_addr)
                &&& g4.spec_blocks()[next_addr].header.spec_is_prev_freed() == bs0[
                    next_addr
                ].header.spec_is_prev_freed()
                &&& g4.spec_blocks()[next_addr].header.spec_buffer_size() == bs0[
                    next_addr
                ].header.spec_buffer_size()
                &&& g4.spec_blocks()[next_addr].header.spec_is_freed() == bs0[
                    next_addr
                ].header.spec_is_freed()
            }) by {
                if bs0.contains_key(next_addr) {
                    assert(g2.spec_blocks()[next_addr].header.previous_header == Some(new_addr));
                    assert(g2.spec_blocks().contains_key(next_addr));
                    assert(g3.spec_blocks()[next_addr] == g2.spec_blocks()[next_addr]);
                    assert(g4.spec_blocks()[next_addr].header == g3.spec_blocks()[
                        next_addr
                    ].header) by {
                        match g3.spec_head(krem) {
                            Some(hh) => {
                                if hh == next_addr {
                                    assert(g4.spec_blocks()[next_addr].header
                                        == g3.spec_blocks()[next_addr].header);
                                }
                            },
                            None => (),
                        }
                    }
                }
            }
            assert forall|a: u64|
                #[trigger] bs0.contains_key(a) && a != h && a != next_addr && a != new_addr
                implies g4.spec_blocks().contains_key(a) && g4.spec_blocks()[a].header == bs0[
                a
            ].header by {
                assert(g1.spec_blocks()[a].header == bs0[a].header);
                assert(g2.spec_blocks()[a].header == g1.spec_blocks()[a].header);
                assert(g2.spec_blocks().contains_key(a));
                assert(g3.spec_blocks()[a] == g2.spec_blocks()[a]);
                assert(g4.spec_blocks()[a].header == g3.spec_blocks()[a].header) by {
                    match g3.spec_head(krem) {
                        Some(hh) => {
                            if a == hh {
                                assert(g4.spec_blocks()[a].header == g3.spec_blocks()[a].header);
                            }
                        },
                        None => (),
                    }
                }
            }
            assert forall|a: u64|
                #[trigger] bs0.contains_key(a) && !bs0[a].header.spec_is_freed() && a
                    != next_addr implies g4.spec_blocks()[a] == bs0[a] by {
                assert(a != h && a != new_addr);
                assert(g1.spec_blocks()[a] == bs0[a]);
                assert(g2.spec_blocks()[a] == g1.spec_blocks()[a]);
                assert(g2.spec_blocks().contains_key(a));
                assert(g3.spec_blocks()[a] == g2.spec_blocks()[a]);
                assert(g4.spec_blocks()[a] == g3.spec_blocks()[a]) by {
                    match g3.spec_head(krem) {
                        Some(hh) => {
                            assert(g3.spec_blocks()[hh].header.spec_is_freed());
                            assert(a != hh);
                        },
                        None => (),
                    }
                }
            }
            assert forall|k: int|
                0 <= k < TOTAL_COUNT && k != krem implies #[trigger] g4.spec_head(k)
                == old(self).spec_head(k) by {
                assert(g3.spec_head(k) == g2.spec_head(k) && g2.spec_head(k) == g1.spec_head(k));
                assert(g1.spec_head(k) == old(self).spec_head(k));
            }
        }
    }

    /// Absorb a free physical successor and then a free physical
    /// predecessor into the floating free block at `h` (flagged free, with
    /// a cleared link, in no list).  Returns the surviving block's address
    /// and its merged buffer size; absorbed blocks leave the table.
    #[verifier::rlimit(100)]
    fn coalesce_neighbors(&mut self, h: u64) -> (r: (u64, u64))
        requires
            old(self).wf(),
            old(self).spec_blocks().contains_key(h),
            old(self).spec_blocks()[h].header.spec_is_freed(),
            old(self).spec_blocks()[h].data == BufferData::Link(
                FreeNode { prev: None::<u64>, next: None::<u64> },
            ),
            spec_free_size_ok(old(self).spec_blocks()[h]),
            forall|kk: int|
                0 <= kk < TOTAL_COUNT ==> #[trigger] old(self).spec_head(kk) != Some(h),
        ensures
            final(self).wf(),
            ({
                let bs = old(self).spec_blocks();
                let bufh = bs[h].header.spec_buffer_size();
                let f_addr = (h + BLOCK_HEADER_SIZE + bufh) as u64;
                let fmerge = spec_fmerge(bs, h);
                let bmerge = spec_bmerge(bs, h);
                let target = spec_free_target(bs, h);
                let s2 = spec_freed_size(bs, h);
                &&& r == (target, s2 as u64)
                &&& MINIMUM_BLOCK_SIZE <= s2 < CLASS_SIZE_LIMIT
                &&& spec_is_aligned(s2 as nat)
                &&& final(self).used_memory_size == old(self).used_memory_size
                &&& final(self).maximum_memory_size == old(self).maximum_memory_size
                &&& final(self).areainfo_ptr == old(self).areainfo_ptr
                &&& final(self).spec_blocks().dom() == (if fmerge {
                    if bmerge {
                        bs.dom().remove(f_addr).remove(h)
                    } else {
                        bs.dom().remove(f_addr)
                    }
                } else {
                    if bmerge {
                        bs.dom().remove(h)
                    } else {
                        bs.dom()
                    }
                })
                &&& final(self).spec_blocks().contains_key(target)
                &&& final(self).spec_blocks()[target].header.spec_is_freed()
                &&& final(self).spec_blocks()[target].header.spec_buffer_size() == s2 as nat
                &&& final(self).spec_blocks()[target].header.previous_header == bs[
                    target
                ].header.previous_header
                &&& final(self).spec_blocks()[target].data == BufferData::Link(
                    FreeNode { prev: None::<u64>, next: None::<u64> },
                )
                &&& forall|kk: int|
                    0 <= kk < TOTAL_COUNT ==> #[trigger] final(self).spec_head(kk) != Some(
                        target,
                    )
                &&& forall|a: u64|
                    #[trigger] bs.contains_key(a) && a != h && a != target && (fmerge ==> a
                        != f_addr) ==> final(self).spec_blocks().contains_key(a) && final(self).spec_blocks()[a].header == bs[a].header
                &&& forall|a: u64|
                    #[trigger] bs.contains_key(a) && !bs[a].header.spec_is_freed() ==> final(self).spec_blocks()[a] == bs[a] && final(self).spec_blocks().contains_key(a)
                &&& forall|k: int|
                    0 <= k < TOTAL_COUNT && (fmerge ==> k != spec_block_class(bs[f_addr])) && (
                    bmerge ==> k != spec_block_class(bs[bs[h].header.previous_header.unwrap()]))
                        ==> #[trigger] final(self).spec_head(k) == old(self).spec_head(k)
                &&& (fmerge && !bmerge ==> final(self).spec_head(
                    spec_block_class(bs[f_addr]) as int,
                ) == (if old(self).spec_head(spec_block_class(bs[f_addr]) as int) == Some(
                    f_addr,
                ) {
                    bs[f_addr].spec_link().next
                } else {
                    old(self).spec_head(spec_block_class(bs[f_addr]) as int)
                }))
                &&& (bmerge && !fmerge ==> final(self).spec_head(
                    spec_block_class(bs[bs[h].header.previous_header.unwrap()]) as int,
                ) == (if old(self).spec_head(
                    spec_block_class(bs[bs[h].header.previous_header.unwrap()]) as int,
                ) == Some(bs[h].header.previous_header.unwrap()) {
                    bs[bs[h].header.previous_header.unwrap()].spec_link().next
                } else {
                    old(self).spec_head(
                        spec_block_class(bs[bs[h].header.previous_header.unwrap()]) as int,
                    )
                }))
            }),
    {
        let ghost bs = old(self).spec_blocks();
        let bufh = {
            let b = *self.blocks.get(&h).unwrap();
            b.header.buffer_size()
        };

        // Merge with a free physical successor.
        let f_addr = h + BlockHeader::get_aligned_size() + bufh;
        let mut merged_size = bufh;
        let fb = match self.blocks.get(&f_addr) {
            Some(fblock) => Some(*fblock),
            None => None,
        };
        let ghost g0 = self.spec_blocks();
        match fb {
            Some(fblock) => {
                if fblock.header.is_freed() && bufh + BlockHeader::get_aligned_size()
                    + fblock.header.buffer_size() < CLASS_SIZE_LIMIT {
                    proof {
                        // the successor's list neighbours cannot be the block
                        // being freed, whose fresh link points nowhere and is
                        // pointed at by nothing
                        assert(f_addr != h);
                        if g0[f_addr].spec_link().next == Some(h) {
                            assert(g0[h].spec_link().prev == Some(f_addr));
                        }
                        if g0[f_addr].spec_link().prev == Some(h) {
                            assert(g0[h].spec_link().next == Some(f_addr));
                        }
                    }
                    self.extract_freed_block(f_addr);
                    let ghost g1 = *self;
                    proof {
                        assert(g1.spec_blocks()[h] == bs[h]);
                        assert forall|kk: int|
                            0 <= kk < TOTAL_COUNT implies #[trigger] g1.spec_head(kk) != Some(
                            h,
                        ) by {
                            crate::function::lemma_class_min_le_member(
                                bs[f_addr].header.spec_buffer_size(),
                            );
                            let kb = spec_block_class(bs[f_addr]) as int;
                            assert(0 <= kb < TOTAL_COUNT);
                            assert(old(self).spec_head(kk) != Some(h));
                            if old(self).spec_head(kb) == Some(f_addr) && kk == kb {
                                assert(g1.spec_head(kk) == bs[f_addr].spec_link().next);
                            } else {
                                assert(g1.spec_head(kk) == old(self).spec_head(kk));
                            }
                        }
                    }
                    self.remove_block(f_addr);
                    let ghost g1r = *self;
                    proof {
                        assert(g1r.spec_blocks()[h] == g1.spec_blocks()[h]);
                        assert forall|kk: int|
                            0 <= kk < TOTAL_COUNT implies #[trigger] g1r.spec_head(kk) != Some(
                            h,
                        ) by {
                            assert(g1r.spec_head(kk) == g1.spec_head(kk));
                        }
                    }
                    merged_size = bufh + BlockHeader::get_aligned_size()
                        + fblock.header.buffer_size();
                    proof {
                        lemma_aligned_add(
                            bufh as nat,
                            (BLOCK_HEADER_SIZE + fblock.header.spec_buffer_size()) as nat,
                        );
                        lemma_aligned_add(
                            BLOCK_HEADER_SIZE as nat,
                            fblock.header.spec_buffer_size(),
                        );
                    }
                    self.resize_block(h, merged_size);
                    proof {
                        // where the successor's class list now starts
                        crate::function::lemma_class_min_le_member(
                            bs[f_addr].header.spec_buffer_size(),
                        );
                        let kf = spec_block_class(bs[f_addr]) as int;
                        assert(self.spec_head(kf) == (if old(self).spec_head(kf) == Some(
                            f_addr,
                        ) {
                            bs[f_addr].spec_link().next
                        } else {
                            old(self).spec_head(kf)
                        })) by {
                            if old(self).spec_head(kf) == Some(f_addr) {
                                assert(g1.spec_head(kf) == bs[f_addr].spec_link().next);
                            } else {
                                assert(g1.spec_head(kf) == old(self).spec_head(kf));
                            }
                            assert(g1r.spec_head(kf) == g1.spec_head(kf));
                            assert(self.spec_head(kf) == g1r.spec_head(kf));
                        }
                        // summary of the forward merge against the entry state
                        assert(self.spec_blocks().dom() =~= bs.dom().remove(f_addr));
                        assert forall|a: u64|
                            #[trigger] bs.contains_key(a) && a != h && a != f_addr implies
                            self.spec_blocks().contains_key(a) && self.spec_blocks()[a].header
                            == bs[a].header by {
                            assert(g1.spec_blocks()[a].header == bs[a].header);
                            assert(g1r.spec_blocks()[a] == g1.spec_blocks()[a]);
                            assert(self.spec_blocks()[a] == g1r.spec_blocks()[a]);
                        }
                        assert forall|a: u64|
                            #[trigger] bs.contains_key(a) && !bs[a].header.spec_is_freed()
                            implies self.spec_blocks()[a] == bs[a]
                            && self.spec_blocks().contains_key(a) by {
                            assert(a != h && a != f_addr);
                            assert(g1.spec_blocks()[a] == bs[a]) by {
                                if bs[f_addr].spec_link().prev == Some(a) || bs[
                                    f_addr
                                ].spec_link().next == Some(a) {
                                    assert(bs[a].header.spec_is_freed());
                                }
                            }
                            assert(g1r.spec_blocks()[a] == g1.spec_blocks()[a]);
                            assert(self.spec_blocks()[a] == g1r.spec_blocks()[a]);
                        }
                        assert forall|k: int|
                            0 <= k < TOTAL_COUNT && k != spec_block_class(bs[f_addr]) implies
                            #[trigger] self.spec_head(k) == old(self).spec_head(k) by {
                            assert(old(self).spec_blocks().contains_key(f_addr));
                            crate::function::lemma_class_min_le_member(
                                bs[f_addr].header.spec_buffer_size(),
                            );
                            let kb = spec_block_class(bs[f_addr]) as int;
                            assert(0 <= kb < TOTAL_COUNT && k != kb);
                            assert(g1.spec_head(k) == old(self).spec_head(k));
                            assert(g1r.spec_head(k) == g1.spec_head(k));
                            assert(self.spec_head(k) == g1r.spec_head(k));
                        }
                    }
                }
            },
            None => (),
        }

        // Merge with a free physical predecessor.
        let ghost gfor = *self;
        let hblock = *self.blocks.get(&h).unwrap();
        let mut target = h;
        let mut final_size = merged_size;
        if hblock.header.is_prev_freed() {
            match hblock.header.previous_header {
                Some(p) => {
                    let pb = match self.blocks.get(&p) {
                        Some(pblock) => Some(*pblock),
                        None => None,
                    };
                    match pb {
                        Some(pblock) => {
                            if pblock.header.is_freed() && p
                                + BlockHeader::get_aligned_size()
                                + pblock.header.buffer_size() == h && pblock.header.buffer_size()
                                + BlockHeader::get_aligned_size() + merged_size
                                < CLASS_SIZE_LIMIT {
                                let ghost g2 = *self;
                                proof {
                                    assert(p < h);
                                    // a forward merge may have rewired p's
                                    // link, but never its header
                                    assert(g2.spec_blocks()[p].header == bs[p].header);
                                    if g2.spec_blocks()[p].spec_link().next == Some(h) {
                                        assert(g2.spec_blocks()[h].spec_link().prev == Some(p));
                                    }
                                    if g2.spec_blocks()[p].spec_link().prev == Some(h) {
                                        assert(g2.spec_blocks()[h].spec_link().next == Some(p));
                                    }
                                }
                                self.extract_freed_block(p);
                                let ghost g3 = *self;
                                proof {
                                    assert(g3.spec_blocks()[h] == g2.spec_blocks()[h]);
                                    assert forall|kk: int|
                                        0 <= kk < TOTAL_COUNT implies #[trigger] g3.spec_head(
                                        kk,
                                    ) != Some(h) by {
                                        crate::function::lemma_class_min_le_member(
                                            g2.spec_blocks()[p].header.spec_buffer_size(),
                                        );
                                        let kb = spec_block_class(g2.spec_blocks()[p]) as int;
                                        assert(0 <= kb < TOTAL_COUNT);
                                        assert(g2.spec_head(kk) != Some(h));
                                        if g2.spec_head(kb) == Some(p) && kk == kb {
                                            assert(g3.spec_head(kk) == g2.spec_blocks()[
                                                p
                                            ].spec_link().next);
                                        } else {
                                            assert(g3.spec_head(kk) == g2.spec_head(kk));
                                        }
                                    }
                                    assert forall|kk: int|
                                        0 <= kk < TOTAL_COUNT implies #[trigger] g3.spec_head(
                                        kk,
                                    ) != Some(p) by {
                                    }
                                }
                                self.remove_block(h);
                                let ghost g3r = *self;
                                final_size = pblock.header.buffer_size()
                                    + BlockHeader::get_aligned_size() + merged_size;
                                proof {
                                    lemma_aligned_add(
                                        (pblock.header.spec_buffer_size()
                                            + BLOCK_HEADER_SIZE) as nat,
                                        merged_size as nat,
                                    );
                                    lemma_aligned_add(
                                        pblock.header.spec_buffer_size(),
                                        BLOCK_HEADER_SIZE as nat,
                                    );
                                }
                                self.resize_block(p, final_size);
                                target = p;
                                proof {
                                    // where the predecessor's class list now
                                    // starts, when no forward merge happened
                                    if !spec_fmerge(bs, h) {
                                        crate::function::lemma_class_min_le_member(
                                            bs[p].header.spec_buffer_size(),
                                        );
                                        let kp = spec_block_class(bs[p]) as int;
                                        assert(gfor == *old(self));
                                        assert(self.spec_head(kp) == (if old(self).spec_head(
                                            kp,
                                        ) == Some(p) {
                                            bs[p].spec_link().next
                                        } else {
                                            old(self).spec_head(kp)
                                        })) by {
                                            assert(g2.spec_blocks()[p] == bs[p]);
                                            if g2.spec_head(kp) == Some(p) {
                                                assert(g3.spec_head(kp) == g2.spec_blocks()[
                                                    p
                                                ].spec_link().next);
                                            } else {
                                                assert(g3.spec_head(kp) == g2.spec_head(kp));
                                            }
                                            assert(g3r.spec_head(kp) == g3.spec_head(kp));
                                            assert(self.spec_head(kp) == g3r.spec_head(kp));
                                        }
                                    }
                                    // summary of the backward merge
                                    assert(self.spec_blocks().dom() =~= gfor.spec_blocks().dom().remove(h));
                                    assert forall|a: u64|
                                        #[trigger] gfor.spec_blocks().contains_key(a) && a != h
                                        && a != p implies self.spec_blocks().contains_key(a)
                                        && self.spec_blocks()[a].header == gfor.spec_blocks()[
                                        a
                                    ].header by {
                                        assert(g3.spec_blocks()[a].header == gfor.spec_blocks()[
                                            a
                                        ].header);
                                        assert(g3r.spec_blocks()[a] == g3.spec_blocks()[a]);
                                        assert(self.spec_blocks()[a] == g3r.spec_blocks()[a]);
                                    }
                                    assert forall|a: u64|
                                        #[trigger] gfor.spec_blocks().contains_key(a)
                                        && !gfor.spec_blocks()[a].header.spec_is_freed() implies
                                        self.spec_blocks()[a] == gfor.spec_blocks()[a]
                                        && self.spec_blocks().contains_key(a) by {
                                        assert(a != h && a != p);
                                        assert(g3.spec_blocks()[a] == gfor.spec_blocks()[a]) by {
                                            if g2.spec_blocks()[p].spec_link().prev == Some(a)
                                                || g2.spec_blocks()[p].spec_link().next == Some(
                                                a,
                                            ) {
                                                assert(gfor.spec_blocks()[
                                                    a
                                                ].header.spec_is_freed());
                                            }
                                        }
                                        assert(g3r.spec_blocks()[a] == g3.spec_blocks()[a]);
                                        assert(self.spec_blocks()[a] == g3r.spec_blocks()[a]);
                                    }
                                    assert forall|k: int|
                                        0 <= k < TOTAL_COUNT && k != spec_block_class(
                                            gfor.spec_blocks()[p],
                                        ) implies #[trigger] self.spec_head(k)
                                        == gfor.spec_head(k) by {
                                        assert(g2.spec_blocks().contains_key(p));
                                        crate::function::lemma_class_min_le_member(
                                            g2.spec_blocks()[p].header.spec_buffer_size(),
                                        );
                                        let kb = spec_block_class(g2.spec_blocks()[p]) as int;
                                        assert(0 <= kb < TOTAL_COUNT && k != kb);
                                        assert(g3.spec_head(k) == g2.spec_head(k));
                                        assert(g3r.spec_head(k) == g3.spec_head(k));
                                        assert(self.spec_head(k) == g3r.spec_head(k));
                                    }
                                    assert forall|kk: int|
                                        0 <= kk < TOTAL_COUNT implies #[trigger] self.spec_head(
                                        kk,
                                    ) != Some(p) by {
                                        assert(g3.spec_head(kk) != Some(p));
                                        assert(g3r.spec_head(kk) == g3.spec_head(kk));
                                        assert(self.spec_head(kk) == g3r.spec_head(kk));
                                    }
                                }
                            }
                        },
                        None => (),
                    }
                },
                None => (),
            }
        }
        (target, final_size)
    }

    /// Splice a freshly laid-out chunk into the area list, merging it with
    /// any physically adjacent existing area: an area that ends exactly at
    /// the chunk's base absorbs the chunk's start sentinel and main block
    /// into its end sentinel; an area that starts exactly at the chunk's
    /// end is swallowed from the chunk's main block.  Returns the buffer
    /// address of the final main block, which the caller frees through the
    /// normal path.
    #[verifier::rlimit(100)]
    pub fn add_new_chunk(&mut self, new_chunk: &TLSFChunk) -> (r: Option<u64>)
        requires
            old(self).wf(),
            spec_is_aligned(new_chunk.base as nat),
            spec_is_aligned(new_chunk.size as nat),
            ({
                let base = new_chunk.base;
                let total = new_chunk.size;
                let f_addr = (base + BLOCK_HEADER_SIZE + AREA_INFO_SIZE) as u64;
                let e_addr = (base + total - BLOCK_HEADER_SIZE) as u64;
                let f_size = total - AREA_INFO_SIZE - 3 * BLOCK_HEADER_SIZE;
                &&& AREA_INFO_SIZE + 3 * BLOCK_HEADER_SIZE + MINIMUM_BLOCK_SIZE <= total
                    < CLASS_SIZE_LIMIT
                &&& base + total + 64 <= u64::MAX
                &&& old(self).spec_blocks().contains_key(base)
                &&& !old(self).spec_blocks()[base].header.spec_is_freed()
                &&& old(self).spec_blocks()[base].header.spec_buffer_size() == AREA_INFO_SIZE
                &&& old(self).spec_blocks().contains_key(f_addr)
                &&& !old(self).spec_blocks()[f_addr].header.spec_is_freed()
                &&& old(self).spec_blocks()[f_addr].header.spec_buffer_size() == f_size
                &&& old(self).spec_blocks().contains_key(e_addr)
                &&& !old(self).spec_blocks()[e_addr].header.spec_is_freed()
            }),
        ensures
            final(self).wf(),
            r.is_some(),
            // the area list afterwards heads at a non-free start sentinel
            // whose record names a non-free end sentinel beyond the
            // returned block
            spec_area_head_ok(*final(self), r),
            // a region with no physically adjacent area merges with nothing:
            // it becomes one fresh area pushed onto the list, and the rest
            // of the state is untouched
            spec_region_detached(old(self).spec_blocks(), new_chunk.base, new_chunk.size) ==> {
                let base = new_chunk.base;
                let total = new_chunk.size;
                let e_addr = (base + total - BLOCK_HEADER_SIZE) as u64;
                &&& r == Some((base + 3 * BLOCK_HEADER_SIZE) as u64)
                &&& final(self).spec_blocks() == old(self).spec_blocks().insert(
                    base,
                    Block {
                        header: old(self).spec_blocks()[base].header,
                        data: BufferData::Area(
                            AreaInfo {
                                end_block_header: Some(e_addr),
                                next_area_header: old(self).areainfo_ptr,
                            },
                        ),
                    },
                )
                &&& final(self).areainfo_ptr == Some((base + BLOCK_HEADER_SIZE) as u64)
                &&& (forall|kk: int|
                    0 <= kk < TOTAL_COUNT ==> #[trigger] final(self).spec_head(kk) == old(self).spec_head(kk))
            },
            // when the list holds exactly one area ending at the region's
            // base, the two merge: the old area is unlinked, its end
            // sentinel absorbs the region's start sentinel and main block
            // into one combined block, and a single area record with a
            // single end sentinel covers the union
            spec_single_area_forward(*old(self), new_chunk.base, new_chunk.size) ==> {
                let base = new_chunk.base;
                let total = new_chunk.size;
                let oi = spec_sole_area_start(*old(self));
                let oe = spec_sole_area_end(*old(self));
                let f_addr = (base + BLOCK_HEADER_SIZE + AREA_INFO_SIZE) as u64;
                let e_addr = (base + total - BLOCK_HEADER_SIZE) as u64;
                &&& r == Some((oe + BLOCK_HEADER_SIZE) as u64)
                &&& final(self).areainfo_ptr == Some((oi + BLOCK_HEADER_SIZE) as u64)
                &&& final(self).spec_blocks().dom() == old(self).spec_blocks().dom().remove(
                    base,
                ).remove(f_addr)
                &&& final(self).spec_blocks()[oi].data == BufferData::Area(
                    AreaInfo { end_block_header: Some(e_addr), next_area_header: None::<u64> },
                )
                &&& final(self).spec_blocks()[oi].header == old(self).spec_blocks()[oi].header
                &&& final(self).spec_blocks()[oe].header.spec_buffer_size() == total
                    - BLOCK_HEADER_SIZE
                &&& !final(self).spec_blocks()[oe].header.spec_is_freed()
                &&& final(self).spec_blocks()[e_addr].header.previous_header == Some(oe)
                &&& final(self).spec_blocks()[e_addr].header.spec_buffer_size() == old(self).spec_blocks()[e_addr].header.spec_buffer_size()
                &&& !final(self).spec_blocks()[e_addr].header.spec_is_freed()
                &&& (forall|a: u64|
                    #[trigger] old(self).spec_blocks().contains_key(a) && a != base && a
                        != f_addr && a != oi && a != oe && a != e_addr ==> final(self).spec_blocks()[a] == old(self).spec_blocks()[a])
                &&& (forall|kk: int|
                    0 <= kk < TOTAL_COUNT ==> #[trigger] final(self).spec_head(kk) == old(self).spec_head(kk))
            },
            // symmetrically, when the sole area starts exactly at the
            // region's end, the region's main block swallows its own end
            // sentinel and the old start sentinel, and the single area
            // record runs to the old end sentinel
            spec_single_area_reverse(*old(self), new_chunk.base, new_chunk.size) ==> {
                let base = new_chunk.base;
                let total = new_chunk.size;
                let oi = spec_sole_area_start(*old(self));
                let oe = spec_sole_area_end(*old(self));
                let f_addr = (base + BLOCK_HEADER_SIZE + AREA_INFO_SIZE) as u64;
                let e_addr = (base + total - BLOCK_HEADER_SIZE) as u64;
                let of_addr = (oi + BLOCK_HEADER_SIZE + AREA_INFO_SIZE) as u64;
                &&& r == Some((f_addr + BLOCK_HEADER_SIZE) as u64)
                &&& final(self).areainfo_ptr == Some((base + BLOCK_HEADER_SIZE) as u64)
                &&& final(self).spec_blocks().dom() == old(self).spec_blocks().dom().remove(
                    e_addr,
                ).remove(oi)
                &&& final(self).spec_blocks()[base].data == BufferData::Area(
                    AreaInfo { end_block_header: Some(oe), next_area_header: None::<u64> },
                )
                &&& final(self).spec_blocks()[base].header == old(self).spec_blocks()[
                    base
                ].header
                &&& final(self).spec_blocks()[f_addr].header.spec_buffer_size() == total
                    - BLOCK_HEADER_SIZE
                &&& !final(self).spec_blocks()[f_addr].header.spec_is_freed()
                &&& (old(self).spec_blocks().contains_key(of_addr) ==> {
                    &&& final(self).spec_blocks().contains_key(of_addr)
                    &&& final(self).spec_blocks()[of_addr].header.previous_header == Some(
                        f_addr,
                    )
                    &&& final(self).spec_blocks()[of_addr].header.spec_buffer_size() == old(self).spec_blocks()[of_addr].header.spec_buffer_size()
                    &&& final(self).spec_blocks()[of_addr].header.spec_is_freed() == old(self).spec_blocks()[of_addr].header.spec_is_freed()
                })
                &&& (forall|a: u64|
                    #[trigger] old(self).spec_blocks().contains_key(a) && a != base && a
                        != f_addr && a != oi && a != e_addr && a != of_addr ==> final(self).spec_blocks()[a] == old(self).spec_blocks()[a])
                &&& (forall|kk: int|
                    0 <= kk < TOTAL_COUNT ==> #[trigger] final(self).spec_head(kk) == old(self).spec_head(kk))
            },
            r matches Some(ptr) ==> {
                let h = (ptr - BLOCK_HEADER_SIZE) as u64;
                let blk = final(self).spec_blocks()[h];
                &&& ptr >= BLOCK_HEADER_SIZE
                &&& final(self).spec_blocks().contains_key(h)
                &&& !blk.header.spec_is_freed()
                &&& spec_is_aligned(blk.header.spec_buffer_size())
                &&& MINIMUM_BLOCK_SIZE <= blk.header.spec_buffer_size() < CLASS_SIZE_LIMIT
                &&& new_chunk.size - AREA_INFO_SIZE - 3 * BLOCK_HEADER_SIZE
                    <= blk.header.spec_buffer_size()
                &&& final(self).used_memory_size == (if old(self).used_memory_size
                    + BLOCK_HEADER_SIZE + blk.header.spec_buffer_size() <= u64::MAX {
                    (old(self).used_memory_size + BLOCK_HEADER_SIZE
                        + blk.header.spec_buffer_size()) as u64
                } else {
                    u64::MAX
                })
                &&& final(self).maximum_memory_size == (if old(self).maximum_memory_size
                    + BLOCK_HEADER_SIZE + blk.header.spec_buffer_size() <= u64::MAX {
                    (old(self).maximum_memory_size + BLOCK_HEADER_SIZE
                        + blk.header.spec_buffer_size()) as u64
                } else {
                    u64::MAX
                })
            },
    {
        let total = new_chunk.size;
        let ghost init_size = (total - AREA_INFO_SIZE - 3 * BLOCK_HEADER_SIZE) as u64;
        let mut cur_info: u64 = new_chunk.base;
        let mut cur_first: u64 = new_chunk.base + BlockHeader::get_aligned_size()
            + AreaInfo::get_aligned_size();
        let mut cur_end: u64 = new_chunk.base + total - BlockHeader::get_aligned_size();
        proof {
            lemma_aligned_sub(
                total as nat,
                (AREA_INFO_SIZE + 3 * BLOCK_HEADER_SIZE) as nat,
            );
        }
        let mut cursor: Option<u64> = self.areainfo_ptr;
        let mut prev_area: Option<u64> = None;
        let mut fuel: usize = crate::consts::ADDITIONAL_CHUNK_COUNT + 2;

        // The area list is never longer than the number of chunks, so the
        // fuel bound is never the reason the scan stops on an intact list.
        while fuel > 0
            invariant
                self.wf(),
                spec_is_aligned(new_chunk.base as nat),
                spec_is_aligned(new_chunk.size as nat),
                AREA_INFO_SIZE + 3 * BLOCK_HEADER_SIZE + MINIMUM_BLOCK_SIZE <= new_chunk.size
                    < CLASS_SIZE_LIMIT,
                new_chunk.base + new_chunk.size + 64 <= u64::MAX,
                old(self).spec_blocks().contains_key(new_chunk.base),
                !old(self).spec_blocks()[new_chunk.base].header.spec_is_freed(),
                old(self).spec_blocks()[new_chunk.base].header.spec_buffer_size()
                    == AREA_INFO_SIZE,
                old(self).spec_blocks().contains_key(
                    (new_chunk.base + BLOCK_HEADER_SIZE + AREA_INFO_SIZE) as u64,
                ),
                !old(self).spec_blocks()[
                    (new_chunk.base + BLOCK_HEADER_SIZE + AREA_INFO_SIZE) as u64
                ].header.spec_is_freed(),
                old(self).spec_blocks()[
                    (new_chunk.base + BLOCK_HEADER_SIZE + AREA_INFO_SIZE) as u64
                ].header.spec_buffer_size() == new_chunk.size - AREA_INFO_SIZE - 3
                    * BLOCK_HEADER_SIZE,
                old(self).spec_blocks().contains_key(
                    (new_chunk.base + new_chunk.size - BLOCK_HEADER_SIZE) as u64,
                ),
                !old(self).spec_blocks()[
                    (new_chunk.base + new_chunk.size - BLOCK_HEADER_SIZE) as u64
                ].header.spec_is_freed(),
                init_size == new_chunk.size - AREA_INFO_SIZE - 3 * BLOCK_HEADER_SIZE,
                spec_region_detached(
                    old(self).spec_blocks(),
                    new_chunk.base,
                    new_chunk.size,
                ) ==> (*self == *old(self) && cur_info == new_chunk.base && cur_first
                    == new_chunk.base + BLOCK_HEADER_SIZE + AREA_INFO_SIZE && cur_end
                    == new_chunk.base + new_chunk.size - BLOCK_HEADER_SIZE),
                spec_single_area_forward(*old(self), new_chunk.base, new_chunk.size) ==> ((fuel
                    == crate::consts::ADDITIONAL_CHUNK_COUNT + 2 && *self == *old(self) && cursor
                    == old(self).areainfo_ptr && prev_area.is_none() && cur_info
                    == new_chunk.base && cur_first == new_chunk.base + BLOCK_HEADER_SIZE
                    + AREA_INFO_SIZE && cur_end == new_chunk.base + new_chunk.size
                    - BLOCK_HEADER_SIZE) || (cursor.is_none() && cur_info == spec_sole_area_start(
                    *old(self),
                ) && cur_first == spec_sole_area_end(*old(self)) && cur_end == new_chunk.base
                    + new_chunk.size - BLOCK_HEADER_SIZE && spec_merged_forward(
                    *old(self),
                    *self,
                    new_chunk.base,
                    new_chunk.size,
                ))),
                spec_single_area_reverse(*old(self), new_chunk.base, new_chunk.size) ==> ((fuel
                    == crate::consts::ADDITIONAL_CHUNK_COUNT + 2 && *self == *old(self) && cursor
                    == old(self).areainfo_ptr && prev_area.is_none() && cur_info
                    == new_chunk.base && cur_first == new_chunk.base + BLOCK_HEADER_SIZE
                    + AREA_INFO_SIZE && cur_end == new_chunk.base + new_chunk.size
                    - BLOCK_HEADER_SIZE) || (cursor.is_none() && cur_info == new_chunk.base
                    && cur_first == new_chunk.base + BLOCK_HEADER_SIZE + AREA_INFO_SIZE
                    && cur_end == spec_sole_area_end(*old(self)) && spec_merged_reverse(
                    *old(self),
                    *self,
                    new_chunk.base,
                    new_chunk.size,
                ))),
                self.spec_blocks().contains_key(cur_info),
                !self.spec_blocks()[cur_info].header.spec_is_freed(),
                self.spec_blocks().contains_key(cur_first),
                !self.spec_blocks()[cur_first].header.spec_is_freed(),
                spec_is_aligned(self.spec_blocks()[cur_first].header.spec_buffer_size()),
                init_size <= self.spec_blocks()[cur_first].header.spec_buffer_size()
                    < CLASS_SIZE_LIMIT,
                MINIMUM_BLOCK_SIZE <= init_size,
                self.spec_blocks().contains_key(cur_end),
                !self.spec_blocks()[cur_end].header.spec_is_freed(),
                cur_info < cur_first < cur_end,
                self.used_memory_size == old(self).used_memory_size,
                self.maximum_memory_size == old(self).maximum_memory_size,
            ensures
                spec_single_area_forward(*old(self), new_chunk.base, new_chunk.size) ==> (
                cur_info == spec_sole_area_start(*old(self)) && cur_first == spec_sole_area_end(
                    *old(self),
                ) && cur_end == new_chunk.base + new_chunk.size - BLOCK_HEADER_SIZE
                    && spec_merged_forward(*old(self), *self, new_chunk.base, new_chunk.size)),
                spec_single_area_reverse(*old(self), new_chunk.base, new_chunk.size) ==> (
                cur_info == new_chunk.base && cur_first == new_chunk.base + BLOCK_HEADER_SIZE
                    + AREA_INFO_SIZE && cur_end == spec_sole_area_end(*old(self))
                    && spec_merged_reverse(*old(self), *self, new_chunk.base, new_chunk.size)),
            decreases fuel,
        {
            fuel = fuel - 1;
            let c = match cursor {
                None => {
                    proof {
                        reveal(spec_single_area_forward);
                        reveal(spec_single_area_reverse);
                    }
                    break ;
                },
                Some(c) => c,
            };
            if c < BlockHeader::get_aligned_size() {
                proof {
                    reveal(spec_single_area_forward);
                    reveal(spec_single_area_reverse);
                }
                break ;
            }
            let old_info_addr = c - BlockHeader::get_aligned_size();
            let old_info = match self.blocks.get(&old_info_addr) {
                Some(b) => *b,
                None => {
                    proof {
                        reveal(spec_single_area_forward);
                        reveal(spec_single_area_reverse);
                    }
                    break ;
                },
            };
            let info = match old_info.data {
                BufferData::Area(info) => info,
                _ => {
                    proof {
                        reveal(spec_single_area_forward);
                        reveal(spec_single_area_reverse);
                    }
                    break ;
                },
            };
            let old_end_addr = match info.end_block_header {
                Some(e) => e,
                None => {
                    proof {
                        reveal(spec_single_area_forward);
                        reveal(spec_single_area_reverse);
                    }
                    break ;
                },
            };

            let mut merged = false;
            if !old_info.header.is_freed() && old_info_addr < old_end_addr {
                let old_end = match self.blocks.get(&old_end_addr) {
                    Some(b) => Some(*b),
                    None => None,
                };
                match old_end {
                    Some(old_end) => {
                        if !old_end.header.is_freed() && old_end_addr <= u64::MAX
                            - BlockHeader::get_aligned_size()
                            - old_end.header.buffer_size() {
                            let old_buffer_end = old_end_addr + BlockHeader::get_aligned_size()
                                + old_end.header.buffer_size();
                            let first_size = {
                                let fb = *self.blocks.get(&cur_first).unwrap();
                                fb.header.buffer_size()
                            };
                            let info_size = {
                                let ib = *self.blocks.get(&cur_info).unwrap();
                                ib.header.buffer_size()
                            };
                            if old_buffer_end == cur_info && old_end_addr + 1 < cur_info
                                && info_size < CLASS_SIZE_LIMIT
                                && BLOCK_HEADER_SIZE + first_size + BLOCK_HEADER_SIZE + info_size
                                < CLASS_SIZE_LIMIT && old_end_addr
                                <= u64::MAX - 64 - (BLOCK_HEADER_SIZE + first_size
                                + BLOCK_HEADER_SIZE + info_size) {
                                // An existing area ends exactly where the new
                                // chunk begins: its end sentinel absorbs the
                                // chunk's start sentinel and main block.
                                let combined = BLOCK_HEADER_SIZE + first_size + BLOCK_HEADER_SIZE
                                    + info_size;
                                proof {
                                    lemma_aligned_add(
                                        (BLOCK_HEADER_SIZE + BLOCK_HEADER_SIZE
                                            + self.spec_blocks()[
                                            cur_first
                                        ].header.spec_buffer_size()) as nat,
                                        self.spec_blocks()[
                                            cur_info
                                        ].header.spec_buffer_size(),
                                    );
                                    assert(spec_is_aligned(
                                        self.spec_blocks()[cur_info].header.spec_buffer_size(),
                                    )) by {
                                        crate::function::lemma_round_down_props(
                                            self.spec_blocks()[
                                                cur_info
                                            ].header.stored_size as nat,
                                        );
                                    }
                                    assert(spec_is_aligned(32 as nat));
                                }
                                // unlink the old area from the list
                                let ghost m0 = *self;
                                if !self.unlink_area(c, prev_area, info) {
                                    proof {
                                        reveal(spec_single_area_forward);
                                        reveal(spec_single_area_reverse);
                                    }
                                    break ;
                                }
                                let ghost m1 = *self;
                                cursor = info.next_area_header;
                                self.remove_block(cur_info);
                                let ghost m2 = *self;
                                self.remove_block(cur_first);
                                let ghost m3 = *self;
                                self.resize_block(old_end_addr, combined);
                                let ghost m4 = *self;
                                self.set_prev_header_of(cur_end, Some(old_end_addr));
                                proof {
                                    reveal(spec_region_detached);
                                    reveal(spec_single_area_forward);
                                    reveal(spec_single_area_reverse);
                                    if spec_region_detached(
                                        old(self).spec_blocks(),
                                        new_chunk.base,
                                        new_chunk.size,
                                    ) {
                                        // a detached region has no adjacent
                                        // area to merge with
                                        assert(m0 == *old(self));
                                        assert(false);
                                    }
                                    if spec_single_area_reverse(
                                        *old(self),
                                        new_chunk.base,
                                        new_chunk.size,
                                    ) {
                                        // the sole area sits past the region,
                                        // so its buffer cannot end at the base
                                        let pre = *old(self);
                                        assert(m0 == pre);
                                        assert(old_end_addr == spec_sole_area_end(pre));
                                        assert(false);
                                    }
                                    if spec_single_area_forward(
                                        *old(self),
                                        new_chunk.base,
                                        new_chunk.size,
                                    ) {
                                        let pre = *old(self);
                                        let base = new_chunk.base;
                                        let total = new_chunk.size;
                                        assert(m0 == pre);
                                        assert(old_info_addr == spec_sole_area_start(pre));
                                        assert(old_end_addr == spec_sole_area_end(pre));
                                        assert(cur_first == (base + BLOCK_HEADER_SIZE
                                            + AREA_INFO_SIZE) as u64);
                                        assert(first_size as nat == pre.spec_blocks()[
                                            cur_first
                                        ].header.spec_buffer_size());
                                        assert(old(self).spec_blocks()[(new_chunk.base
                                            + BLOCK_HEADER_SIZE + AREA_INFO_SIZE) as u64]
                                            .header.spec_buffer_size() == new_chunk.size
                                            - AREA_INFO_SIZE - 3 * BLOCK_HEADER_SIZE);
                                        assert(pre.spec_blocks()[
                                            cur_first
                                        ].header.spec_buffer_size() == total - AREA_INFO_SIZE
                                            - 3 * BLOCK_HEADER_SIZE);
                                        assert(first_size == total - AREA_INFO_SIZE - 3
                                            * BLOCK_HEADER_SIZE);
                                        assert(info_size == AREA_INFO_SIZE);
                                        assert(combined == total - BLOCK_HEADER_SIZE);
                                        assert(old_end_addr + BLOCK_HEADER_SIZE <= base);
                                        assert(m3.spec_blocks().contains_key(old_end_addr));
                                        assert(m4.spec_blocks().contains_key(cur_end));
                                        lemma_forward_merge_summary(
                                            pre,
                                            m1,
                                            m2,
                                            m3,
                                            m4,
                                            *self,
                                            base,
                                            total,
                                        );
                                    }
                                }
                                cur_first = old_end_addr;
                                cur_info = old_info_addr;
                                merged = true;
                            } else if old_info_addr == cur_end + BlockHeader::get_aligned_size()
                                && old_end_addr > old_info_addr && info_size < CLASS_SIZE_LIMIT
                                && first_size
                                + BLOCK_HEADER_SIZE + BLOCK_HEADER_SIZE + info_size
                                < CLASS_SIZE_LIMIT && cur_first <= u64::MAX - 64 - (first_size
                                + BLOCK_HEADER_SIZE + BLOCK_HEADER_SIZE + info_size) {
                                // The new chunk ends exactly where an existing
                                // area begins: the chunk's main block swallows
                                // its own end sentinel and the old start
                                // sentinel.
                                let combined = first_size + BLOCK_HEADER_SIZE + BLOCK_HEADER_SIZE
                                    + info_size;
                                proof {
                                    lemma_aligned_add(
                                        (self.spec_blocks()[
                                            cur_first
                                        ].header.spec_buffer_size() + BLOCK_HEADER_SIZE
                                            + BLOCK_HEADER_SIZE) as nat,
                                        self.spec_blocks()[
                                            cur_info
                                        ].header.spec_buffer_size(),
                                    );
                                    assert(spec_is_aligned(
                                        self.spec_blocks()[cur_info].header.spec_buffer_size(),
                                    )) by {
                                        crate::function::lemma_round_down_props(
                                            self.spec_blocks()[
                                                cur_info
                                            ].header.stored_size as nat,
                                        );
                                    }
                                }
                                let ghost n0 = *self;
                                if !self.unlink_area(c, prev_area, info) {
                                    proof {
                                        reveal(spec_single_area_forward);
                                        reveal(spec_single_area_reverse);
                                    }
                                    break ;
                                }
                                let ghost n1 = *self;
                                cursor = info.next_area_header;
                                self.remove_block(cur_end);
                                let ghost n2 = *self;
                                self.remove_block(old_info_addr);
                                let ghost n3 = *self;
                                self.resize_block(cur_first, combined);
                                let ghost n4 = *self;
                                let old_first_addr = old_info_addr
                                    + BlockHeader::get_aligned_size()
                                    + AreaInfo::get_aligned_size();
                                if self.blocks.contains_key(&old_first_addr) {
                                    self.set_prev_header_of(old_first_addr, Some(cur_first));
                                }
                                proof {
                                    reveal(spec_region_detached);
                                    reveal(spec_single_area_forward);
                                    reveal(spec_single_area_reverse);
                                    if spec_region_detached(
                                        old(self).spec_blocks(),
                                        new_chunk.base,
                                        new_chunk.size,
                                    ) {
                                        // a detached region has no adjacent
                                        // area to merge with
                                        assert(n0 == *old(self));
                                        assert(false);
                                    }
                                    if spec_single_area_forward(
                                        *old(self),
                                        new_chunk.base,
                                        new_chunk.size,
                                    ) {
                                        // the sole area ends at the region's
                                        // base, so it cannot start at its end
                                        let pre = *old(self);
                                        assert(n0 == pre);
                                        assert(old_info_addr == spec_sole_area_start(pre));
                                        assert(old_end_addr == spec_sole_area_end(pre));
                                        assert(false);
                                    }
                                    if spec_single_area_reverse(
                                        *old(self),
                                        new_chunk.base,
                                        new_chunk.size,
                                    ) {
                                        let pre = *old(self);
                                        let base = new_chunk.base;
                                        let total = new_chunk.size;
                                        assert(n0 == pre);
                                        assert(old_info_addr == spec_sole_area_start(pre));
                                        assert(old_end_addr == spec_sole_area_end(pre));
                                        assert(cur_first == (base + BLOCK_HEADER_SIZE
                                            + AREA_INFO_SIZE) as u64);
                                        assert(cur_end == (base + total
                                            - BLOCK_HEADER_SIZE) as u64);
                                        assert(first_size as nat == pre.spec_blocks()[
                                            cur_first
                                        ].header.spec_buffer_size());
                                        assert(old(self).spec_blocks()[(new_chunk.base
                                            + BLOCK_HEADER_SIZE + AREA_INFO_SIZE) as u64]
                                            .header.spec_buffer_size() == new_chunk.size
                                            - AREA_INFO_SIZE - 3 * BLOCK_HEADER_SIZE);
                                        assert(pre.spec_blocks()[
                                            cur_first
                                        ].header.spec_buffer_size() == total - AREA_INFO_SIZE
                                            - 3 * BLOCK_HEADER_SIZE);
                                        assert(first_size == total - AREA_INFO_SIZE - 3
                                            * BLOCK_HEADER_SIZE);
                                        assert(info_size as nat == pre.spec_blocks()[
                                            cur_info
                                        ].header.spec_buffer_size());
                                        assert(old(self).spec_blocks()[
                                            new_chunk.base
                                        ].header.spec_buffer_size() == AREA_INFO_SIZE);
                                        assert(info_size == AREA_INFO_SIZE);
                                        assert(combined == total - BLOCK_HEADER_SIZE);
                                        assert(old_first_addr == (old_info_addr
                                            + BLOCK_HEADER_SIZE + AREA_INFO_SIZE) as u64);
                                        assert(n3.spec_blocks().contains_key(cur_first));
                                        lemma_reverse_merge_summary(
                                            pre,
                                            n1,
                                            n2,
                                            n3,
                                            n4,
                                            *self,
                                            base,
                                            total,
                                        );
                                    }
                                }
                                cur_end = old_end_addr;
                                merged = true;
                            }
                        }
                    },
                    None => (),
                }
            }
            if !merged {
                proof {
                    reveal(spec_single_area_forward);
                    reveal(spec_single_area_reverse);
                    // a sole adjacent area would have been merged above
                    if spec_single_area_forward(*old(self), new_chunk.base, new_chunk.size) {
                        let pre = *old(self);
                        assert(old_info_addr == spec_sole_area_start(pre));
                        assert(old_end_addr == spec_sole_area_end(pre));
                        assert(pre.spec_blocks()[old_info_addr].header.spec_buffer_size()
                            == AREA_INFO_SIZE);
                        assert(false);
                    }
                    if spec_single_area_reverse(*old(self), new_chunk.base, new_chunk.size) {
                        let pre = *old(self);
                        let base = new_chunk.base;
                        let total = new_chunk.size;
                        assert(old_info_addr == spec_sole_area_start(pre));
                        assert(old_end_addr == spec_sole_area_end(pre));
                        assert(old_info_addr == base + total);
                        assert(cur_end == (base + total - BLOCK_HEADER_SIZE) as u64);
                        assert(pre.spec_blocks().contains_key(old_end_addr));
                        assert(pre.spec_blocks()[base].header.spec_buffer_size()
                            == AREA_INFO_SIZE);
                        assert(pre.spec_blocks()[(base + BLOCK_HEADER_SIZE
                            + AREA_INFO_SIZE) as u64].header.spec_buffer_size() == total
                            - AREA_INFO_SIZE - 3 * BLOCK_HEADER_SIZE);
                        assert(base + total + 96 <= u64::MAX);
                        assert(false);
                    }
                }
                prev_area = Some(c);
                cursor = info.next_area_header;
            }
        }

        // Record the final area and push it onto the list.
        let ghost t0 = *self;
        let list_head = self.areainfo_ptr;
        self.set_area_data(
            cur_info,
            AreaInfo { end_block_header: Some(cur_end), next_area_header: list_head },
        );
        self.set_areainfo_ptr(Some(cur_info + BlockHeader::get_aligned_size()));
        proof {
            reveal(spec_single_area_forward);
            reveal(spec_single_area_reverse);
            let pre = *old(self);
            let base = new_chunk.base;
            let total = new_chunk.size;
            if spec_single_area_forward(pre, base, total) {
                reveal(spec_merged_forward);
                let oi = spec_sole_area_start(pre);
                let oe = spec_sole_area_end(pre);
                let fa = (base + BLOCK_HEADER_SIZE + AREA_INFO_SIZE) as u64;
                let ea = (base + total - BLOCK_HEADER_SIZE) as u64;
                assert(self.spec_blocks().dom() =~= pre.spec_blocks().dom().remove(base).remove(
                    fa,
                ));
                assert(self.spec_blocks()[oi].data == BufferData::Area(
                    AreaInfo { end_block_header: Some(ea), next_area_header: None::<u64> },
                ));
                assert(self.spec_blocks()[oi].header == pre.spec_blocks()[oi].header);
                assert(oi < oe && oe < ea);
                assert forall|a: u64|
                    #[trigger] pre.spec_blocks().contains_key(a) && a != base && a != fa && a
                        != oi && a != oe && a != ea implies self.spec_blocks()[a]
                    == pre.spec_blocks()[a] by {
                    assert(t0.spec_blocks()[a] == pre.spec_blocks()[a]);
                }
                assert forall|kk: int|
                    0 <= kk < TOTAL_COUNT implies #[trigger] self.spec_head(kk) == pre.spec_head(
                    kk,
                ) by {
                    assert(t0.spec_head(kk) == pre.spec_head(kk));
                }
            }
            if spec_single_area_reverse(pre, base, total) {
                reveal(spec_merged_reverse);
                let oi = spec_sole_area_start(pre);
                let oe = spec_sole_area_end(pre);
                let fa = (base + BLOCK_HEADER_SIZE + AREA_INFO_SIZE) as u64;
                let ea = (base + total - BLOCK_HEADER_SIZE) as u64;
                let ofa = (oi + BLOCK_HEADER_SIZE + AREA_INFO_SIZE) as u64;
                assert(self.spec_blocks().dom() =~= pre.spec_blocks().dom().remove(ea).remove(
                    oi,
                ));
                assert(self.spec_blocks()[base].data == BufferData::Area(
                    AreaInfo { end_block_header: Some(oe), next_area_header: None::<u64> },
                ));
                assert(self.spec_blocks()[base].header == pre.spec_blocks()[base].header);
                assert(base < fa && fa < oe);
                assert(pre.spec_blocks().contains_key(ofa) ==> {
                    &&& self.spec_blocks().contains_key(ofa)
                    &&& self.spec_blocks()[ofa].header.previous_header == Some(fa)
                    &&& self.spec_blocks()[ofa].header.spec_buffer_size() == pre.spec_blocks()[
                        ofa
                    ].header.spec_buffer_size()
                    &&& self.spec_blocks()[ofa].header.spec_is_freed() == pre.spec_blocks()[
                        ofa
                    ].header.spec_is_freed()
                }) by {
                    if pre.spec_blocks().contains_key(ofa) {
                        assert(ofa != base);
                        assert(t0.spec_blocks().contains_key(ofa));
                    }
                }
                assert forall|a: u64|
                    #[trigger] pre.spec_blocks().contains_key(a) && a != base && a != fa && a
                        != oi && a != ea && a != ofa implies self.spec_blocks()[a]
                    == pre.spec_blocks()[a] by {
                    assert(t0.spec_blocks()[a] == pre.spec_blocks()[a]);
                }
                assert forall|kk: int|
                    0 <= kk < TOTAL_COUNT implies #[trigger] self.spec_head(kk) == pre.spec_head(
                    kk,
                ) by {
                    assert(t0.spec_head(kk) == pre.spec_head(kk));
                }
            }
        }

        // Account the chunk's main block; the caller frees it into the index.
        let first_size = {
            let fb = *self.blocks.get(&cur_first).unwrap();
            fb.header.buffer_size()
        };
        self.account_grow(BlockHeader::get_aligned_size() + first_size, true);
        Some(cur_first + BlockHeader::get_aligned_size())
    }

    /// Take one area out of the singly linked area list: rewire the list
    /// head, or the previous area's record, to the area's successor.
    fn unlink_area(&mut self, area_ptr: u64, prev_area: Option<u64>, info: AreaInfo) -> (ok: bool)
        requires
            old(self).wf(),
        ensures
            final(self).wf(),
            prev_area.is_none() ==> ok,
            !ok ==> *final(self) == *old(self),
            ok && prev_area.is_none() ==> final(self).areainfo_ptr == info.next_area_header
                && final(self).spec_blocks() == old(self).spec_blocks(),
            final(self).spec_blocks().dom() == old(self).spec_blocks().dom(),
            forall|a: u64|
                #[trigger] old(self).spec_blocks().contains_key(a) ==> {
                    &&& final(self).spec_blocks()[a].header == old(self).spec_blocks()[a].header
                    &&& (final(self).spec_blocks()[a].data is Link == old(self).spec_blocks()[
                        a
                    ].data is Link)
                    &&& (final(self).spec_blocks()[a].data is Link ==> final(self).spec_blocks()[a].data == old(self).spec_blocks()[a].data)
                    &&& (final(self).spec_blocks()[a].header.spec_is_freed() ==> final(self).spec_blocks()[a] == old(self).spec_blocks()[a])
                },
            forall|kk: int|
                0 <= kk < TOTAL_COUNT ==> #[trigger] final(self).spec_head(kk) == old(self).spec_head(kk),
            final(self).used_memory_size == old(self).used_memory_size,
            final(self).maximum_memory_size == old(self).maximum_memory_size,
    {
        match prev_area {
            None => {
                self.set_areainfo_ptr(info.next_area_header);
                proof {
                    assert(self.spec_blocks() == old(self).spec_blocks());
                }
                true
            },
            Some(pc) => {
                if pc < BlockHeader::get_aligned_size() {
                    return false;
                }
                let prev_block_addr = pc - BlockHeader::get_aligned_size();
                let pb = match self.blocks.get(&prev_block_addr) {
                    Some(b) => *b,
                    None => {
                        return false;
                    },
                };
                match pb.data {
                    BufferData::Area(pinfo) => {
                        if pb.header.is_freed() {
                            return false;
                        }
                        self.set_area_data(
                            prev_block_addr,
                            AreaInfo {
                                end_block_header: pinfo.end_block_header,
                                next_area_header: info.next_area_header,
                            },
                        );
                        proof {
                            assert(self.spec_blocks().dom() =~= old(self).spec_blocks().dom());
                        }
                        true
                    },
                    _ => false,
                }
            },
        }
    }
}


/// What a dynamically growing pool answers to an allocation attempt.
pub enum AllocStep {
    /// The request was served at this buffer address.
    Granted(u64),
    /// The pool needs a fresh zeroed region of this many bytes; hand it to
    /// `supply_region` and the request will be retried there.
    NeedRegion(u64),
    /// Growth is no longer possible: the chunk table is full.
    Exhausted,
}

/// A pool that starts empty and grows chunk by chunk.  The pool itself
/// only decides; the raw regions it asks for come from the caller, which
/// obtains them from the host and must hand in regions disjoint from
/// everything handed in before.
pub struct DynamicPool {
    pub root_pool: Option<RootPool>,
    pub additional_chunks: arrayvec::ArrayVec<(u64, u64), 32>,
}

impl DynamicPool {
    /// The pool's index is intact and its growth bookkeeping is sane.
    pub open spec fn wf(self) -> bool {
        &&& (self.root_pool matches Some(p) ==> {
            &&& p.wf()
            &&& 0 < p.spec_header().maximum_memory_size
            &&& p.spec_header().maximum_memory_size <= CLASS_SIZE_LIMIT * (1
                + crate::extvec::chunk_vec_contents(self.additional_chunks).len())
        })
        &&& crate::extvec::chunk_vec_contents(self.additional_chunks).len() <= 32
        &&& forall|i: int|
            0 <= i < crate::extvec::chunk_vec_contents(self.additional_chunks).len() ==> {
                let c = #[trigger] crate::extvec::chunk_vec_contents(self.additional_chunks)[i];
                0 < c.1 < CLASS_SIZE_LIMIT
            }
    }

    /// An empty pool: no root, no chunks.
    pub fn new() -> (r: Self)
        ensures
            r.wf(),
            r.root_pool.is_none(),
            crate::extvec::chunk_vec_contents(r.additional_chunks) == Seq::<(u64, u64)>::empty(),
    {
        Self { root_pool: None, additional_chunks: crate::extvec::chunk_vec_new() }
    }

    /// Try to serve a request of `size` bytes from what the pool already
    /// has: when some class at or above the request's searching class has a
    /// free block, the request is granted.  When that fails, say how much
    /// raw memory to obtain — always a size `supply_region` accepts; when
    /// even growth cannot help (the chunk table is full, or the sizing
    /// policy exceeds what the class table can file), say so.
    pub fn try_allocate(&mut self, size: u64) -> (r: AllocStep)
        requires
            old(self).wf(),
            size <= MAX_REQUEST_SIZE,
        ensures
            final(self).wf(),
            r matches AllocStep::Granted(ptr) ==> {
                &&& final(self).root_pool.is_some()
                &&& old(self).root_pool.is_some()
                &&& spec_allocate_outcome(
                    old(self).root_pool.unwrap().spec_header(),
                    final(self).root_pool.unwrap().spec_header(),
                    size,
                    ptr,
                )
            },
            // success is owed whenever a fitting class is populated
            (old(self).root_pool matches Some(p) && (exists|k: int|
                spec_class_of(spec_search_size(size as nat)) <= k < TOTAL_COUNT && (
                #[trigger] p.spec_header().spec_head(k)).is_some())) ==> r is Granted,
            r matches AllocStep::NeedRegion(want) ==> {
                &&& *final(self) == *old(self)
                &&& want < CLASS_SIZE_LIMIT
                &&& (old(self).root_pool.is_none() ==> want == spec_next_chunk_size(
                    0,
                    0,
                    size as nat,
                ) && want >= MINIMUM_ROOT_SIZE)
                &&& (old(self).root_pool matches Some(p) ==> {
                    let cs = crate::extvec::chunk_vec_contents(old(self).additional_chunks);
                    let last = if cs.len() == 0 {
                        p.spec_header().maximum_memory_size as nat
                    } else {
                        cs[cs.len() - 1].1 as nat
                    };
                    want == spec_next_chunk_size(
                        p.spec_header().maximum_memory_size as nat,
                        last,
                        spec_alloc_size(size as nat),
                    )
                })
            },
            r is Exhausted ==> *final(self) == *old(self) && (crate::extvec::chunk_vec_contents(
                old(self).additional_chunks,
            ).len() == 32 || (old(self).root_pool.is_none() && spec_next_chunk_size(
                0,
                0,
                size as nat,
            ) >= CLASS_SIZE_LIMIT) || (old(self).root_pool matches Some(p) && {
                let cs = crate::extvec::chunk_vec_contents(old(self).additional_chunks);
                let last = if cs.len() == 0 {
                    p.spec_header().maximum_memory_size as nat
                } else {
                    cs[cs.len() - 1].1 as nat
                };
                spec_next_chunk_size(
                    p.spec_header().maximum_memory_size as nat,
                    last,
                    spec_alloc_size(size as nat),
                ) >= CLASS_SIZE_LIMIT
            })),
    {
        let root = match &mut self.root_pool {
            None => {
                let want = crate::function::next_chunk_size(0, 0, size);
                if want >= CLASS_SIZE_LIMIT {
                    return AllocStep::Exhausted;
                }
                proof {
                    let a = if size > 0 {
                        vstd::arithmetic::power2::pow2(
                            crate::function::spec_msb(size as nat) + 1,
                        )
                    } else {
                        1024nat
                    };
                    if 4 * a > INIT_CHUNK_SIZE {
                        crate::function::lemma_round_up_to_props(
                            4 * a,
                            INIT_EXPANDED_ALIGNMENT as nat,
                        );
                    }
                }
                return AllocStep::NeedRegion(want);
            },
            Some(root) => root,
        };
        match root.allocate(size) {
            Some(ptr) => AllocStep::Granted(ptr),
            None => {
                let len = crate::extvec::chunk_vec_len(&self.additional_chunks);
                let capacity = crate::extvec::chunk_vec_capacity(&self.additional_chunks);
                if len >= capacity {
                    AllocStep::Exhausted
                } else {
                    let total = match &self.root_pool {
                        Some(root) => root.memory.header.maximum_memory_size,
                        None => 0,
                    };
                    let last_chunk_size = if len == 0 {
                        total
                    } else {
                        let c = crate::extvec::chunk_vec_get(&self.additional_chunks, len - 1);
                        c.1
                    };
                    proof {
                        assert(0 < last_chunk_size <= 0x1000000000000) by {
                            assert(CLASS_SIZE_LIMIT * (1 + crate::extvec::chunk_vec_contents(
                                self.additional_chunks,
                            ).len()) <= CLASS_SIZE_LIMIT * 33) by (nonlinear_arith)
                                requires
                                    crate::extvec::chunk_vec_contents(
                                        self.additional_chunks,
                                    ).len() <= 32,
                            ;
                        }
                    }
                    let aligned = crate::function::calculate_allocation_size(size);
                    let want = crate::function::next_chunk_size(total, last_chunk_size, aligned);
                    if want >= CLASS_SIZE_LIMIT {
                        AllocStep::Exhausted
                    } else {
                        AllocStep::NeedRegion(want)
                    }
                }
            },
        }
    }

    /// Hand the pool a fresh zeroed region of `region_size` bytes at
    /// `base`, then retry the request of `request` bytes there.  The
    /// region must be disjoint from every region handed in before.
    #[verifier::rlimit(100)]
    pub fn supply_region(&mut self, base: u64, region_size: u64, request: u64) -> (r: Option<
        u64,
    >)
        requires
            old(self).wf(),
            request <= MAX_REQUEST_SIZE,
            spec_is_aligned(base as nat),
            spec_is_aligned(region_size as nat),
            base + region_size + 64 <= u64::MAX,
            region_size < CLASS_SIZE_LIMIT,
            old(self).root_pool.is_none() ==> MINIMUM_ROOT_SIZE <= region_size,
            old(self).root_pool.is_some() ==> AREA_INFO_SIZE + 3 * BLOCK_HEADER_SIZE
                + MINIMUM_BLOCK_SIZE <= region_size,
            old(self).root_pool matches Some(p) ==> forall|a: u64|
                #[trigger] p.spec_header().spec_blocks().contains_key(a) ==> !(base <= a < base
                    + region_size),
        ensures
            final(self).wf(),
            r matches Some(ptr) ==> {
                let p = final(self).root_pool.unwrap();
                let h = (ptr - BLOCK_HEADER_SIZE) as u64;
                &&& final(self).root_pool.is_some()
                &&& ptr >= BLOCK_HEADER_SIZE
                &&& p.spec_header().spec_blocks().contains_key(h)
                &&& !p.spec_header().spec_blocks()[h].header.spec_is_freed()
                &&& spec_is_aligned(
                    p.spec_header().spec_blocks()[h].header.spec_buffer_size(),
                )
                &&& spec_search_size(request as nat) <= p.spec_header().spec_blocks()[
                    h
                ].header.spec_buffer_size() < CLASS_SIZE_LIMIT
                &&& MINIMUM_BLOCK_SIZE <= p.spec_header().spec_blocks()[
                    h
                ].header.spec_buffer_size()
            },
            // success is owed on a fresh root whose one block's class can
            // serve the searching class of the request
            old(self).root_pool.is_none() ==> {
                let f_size = crate::function::spec_round_down(region_size as nat)
                    - GLOBAL_HEADER_SIZE - AREA_INFO_SIZE - 3 * BLOCK_HEADER_SIZE;
                spec_class_of(f_size as nat) >= spec_class_of(
                    spec_search_size(request as nat),
                ) ==> r.is_some()
            },
            // ... and on a grown pool whose new chunk's main block's class
            // can serve it, as long as the chunk table has room
            (old(self).root_pool.is_some() && crate::extvec::chunk_vec_contents(
                old(self).additional_chunks,
            ).len() < 32 && spec_class_of(
                (region_size - AREA_INFO_SIZE - 3 * BLOCK_HEADER_SIZE) as nat,
            ) >= spec_class_of(spec_search_size(request as nat))) ==> r.is_some(),
    {
        match &mut self.root_pool {
            None => {
                let pool = match RootPool::from(base, region_size) {
                    None => {
                        return None;
                    },
                    Some(pool) => pool,
                };
                proof {
                    crate::function::lemma_round_down_props(region_size as nat);
                }
                self.root_pool = Some(pool);
                match &mut self.root_pool {
                    Some(root) => {
                        let r = root.allocate(request);
                        proof {
                            let f_size = crate::function::spec_round_down(region_size as nat)
                                - GLOBAL_HEADER_SIZE - AREA_INFO_SIZE - 3 * BLOCK_HEADER_SIZE;
                            let k1 = spec_class_of(f_size as nat) as int;
                            crate::function::lemma_class_min_le_member(f_size as nat);
                            if r.is_none() && k1 >= spec_class_of(
                                spec_search_size(request as nat),
                            ) {
                                assert(pool.spec_header().spec_head(k1).is_none());
                            }
                        }
                        r
                    },
                    None => None,
                }
            },
            Some(root) => {
                let len = crate::extvec::chunk_vec_len(&self.additional_chunks);
                if len >= 32 {
                    return None;
                }
                let total = round_down_block(region_size);
                proof {
                    lemma_round_down_props(region_size as nat);
                }
                if total < AreaInfo::get_aligned_size() + 3 * BlockHeader::get_aligned_size()
                    + crate::consts::MINIMUM_BLOCK_SIZE {
                    return None;
                }
                let chunk = match TLSFChunk::new(base, total) {
                    None => {
                        return None;
                    },
                    Some(chunk) => chunk,
                };
                initialize_pool(&mut root.memory.header, base, total);
                crate::extvec::chunk_vec_push(&mut self.additional_chunks, (base, total));
                let root = match &mut self.root_pool {
                    Some(root) => root,
                    None => {
                        return None;
                    },
                };
                let buffer = match root.memory.header.add_new_chunk(&chunk) {
                    None => {
                        return None;
                    },
                    Some(buffer) => buffer,
                };
                let ghost gadd = root.memory.header;
                root.dealloc(buffer);
                let ghost gfree = root.memory.header;
                let r = root.allocate(request);
                proof {
                    // if the chunk's main block's class serves the request's
                    // searching class, the freed merged block does too, and
                    // the retry cannot have come back empty
                    let f_size = (region_size - AREA_INFO_SIZE - 3 * BLOCK_HEADER_SIZE) as nat;
                    lemma_search_size_props(request as nat);
                    crate::function::lemma_class_min_le_member(spec_search_size(request as nat));
                    let k0 = spec_class_of(spec_search_size(request as nat)) as int;
                    if r.is_none() && spec_class_of(f_size) >= k0 {
                        let bsd = gadd.spec_blocks();
                        let hb = (buffer - BLOCK_HEADER_SIZE) as u64;
                        let s2 = spec_freed_size(bsd, hb);
                        let target = spec_free_target(bsd, hb);
                        assert(f_size <= bsd[hb].header.spec_buffer_size());
                        assert(bsd[hb].header.spec_buffer_size() <= spec_fmerged_size(bsd, hb));
                        assert(spec_fmerged_size(bsd, hb) <= s2);
                        assert(gfree.spec_head(spec_class_of(s2 as nat) as int) == Some(target));
                        assert(gfree.spec_blocks()[target].header.spec_buffer_size()
                            == s2 as nat);
                        assert(gfree.spec_blocks().contains_key(target));
                        assert(s2 < CLASS_SIZE_LIMIT);
                        crate::function::lemma_class_of_monotone(f_size, s2 as nat);
                        crate::function::lemma_class_min_le_member(s2 as nat);
                        assert(spec_class_of(s2 as nat) >= k0);
                        assert(gfree.spec_head(spec_class_of(s2 as nat) as int).is_none());
                    }
                }
                r
            },
        }
    }

    /// Return a buffer obtained from `try_allocate` or `supply_region`.
    pub fn dealloc(&mut self, ptr: u64)
        requires
            old(self).wf(),
            old(self).root_pool matches Some(p) && {
                &&& ptr >= BLOCK_HEADER_SIZE
                &&& p.spec_header().spec_blocks().contains_key((ptr - BLOCK_HEADER_SIZE) as u64)
                &&& !p.spec_header().spec_blocks()[
                    (ptr - BLOCK_HEADER_SIZE) as u64
                ].header.spec_is_freed()
                &&& spec_is_aligned(
                    p.spec_header().spec_blocks()[
                        (ptr - BLOCK_HEADER_SIZE) as u64
                    ].header.spec_buffer_size(),
                )
                &&& MINIMUM_BLOCK_SIZE <= p.spec_header().spec_blocks()[
                    (ptr - BLOCK_HEADER_SIZE) as u64
                ].header.spec_buffer_size() < CLASS_SIZE_LIMIT
            },
        ensures
            final(self).wf(),
            final(self).root_pool.is_some(),
            spec_free_outcome(
                old(self).root_pool.unwrap().spec_header(),
                final(self).root_pool.unwrap().spec_header(),
                ptr,
            ),
    {
        match &mut self.root_pool {
            Some(root) => root.dealloc(ptr),
            None => (),
        }
    }
}


/// A freshly laid-out area is tiled exactly: walking its start sentinel,
/// its main block and its end sentinel covers the region without gap or
/// overlap, and the three header-plus-buffer spans sum to the region size.
pub proof fn lemma_fresh_area_tiles(header: TLSFRawHeader, start_addr: u64, total_size: u64)
    requires
        AREA_INFO_SIZE + 3 * BLOCK_HEADER_SIZE + MINIMUM_BLOCK_SIZE <= total_size,
        start_addr + total_size <= u64::MAX,
        ({
            let s_addr = start_addr;
            let f_addr = (start_addr + BLOCK_HEADER_SIZE + AREA_INFO_SIZE) as u64;
            let e_addr = (start_addr + total_size - BLOCK_HEADER_SIZE) as u64;
            &&& header.spec_blocks().contains_key(s_addr)
            &&& header.spec_blocks()[s_addr].header.spec_buffer_size() == AREA_INFO_SIZE
            &&& header.spec_blocks().contains_key(f_addr)
            &&& header.spec_blocks()[f_addr].header.spec_buffer_size() == total_size
                - AREA_INFO_SIZE - 3 * BLOCK_HEADER_SIZE
            &&& header.spec_blocks().contains_key(e_addr)
            &&& header.spec_blocks()[e_addr].header.spec_buffer_size() == 0
        }),
    ensures
        ({
            let s_addr = start_addr;
            let f_addr = (start_addr + BLOCK_HEADER_SIZE + AREA_INFO_SIZE) as u64;
            let e_addr = (start_addr + total_size - BLOCK_HEADER_SIZE) as u64;
            let sb = header.spec_blocks()[s_addr];
            let fb = header.spec_blocks()[f_addr];
            let eb = header.spec_blocks()[e_addr];
            &&& s_addr + sb.header.spec_size_with_header() == f_addr
            &&& f_addr + fb.header.spec_size_with_header() == e_addr
            &&& e_addr + eb.header.spec_size_with_header() == start_addr + total_size
            &&& sb.header.spec_size_with_header() + fb.header.spec_size_with_header()
                + eb.header.spec_size_with_header() == total_size
        }),
{
}

} // verus!
