//! The free-block index: the per-class head table, the two-level bitmaps,
//! and the raw global header with its insert / extract / search operations
//! over the block table.

use vstd::prelude::*;
use std::collections::HashMap;
use crate::bits::{
    lemma_u32_bit_clear, lemma_u32_bit_set, lemma_u32_lsb, lemma_u32_mask_ge, lemma_u32_zero_bits,
    u32_bit,
};
use crate::block::{AreaInfo, Block, BlockHeader, BufferData, FreeNode};
use crate::consts::{
    BLOCK_ALIGNOF, BLOCK_HEADER_SIZE, CLASS_SIZE_LIMIT, FIRST_INDEX_REAL, MAX_REQUEST_SIZE,
    MINIMUM_BLOCK_SIZE, SECOND_INDEX_MAX, TOTAL_COUNT,
};
use crate::function::{
    calculate_allocation_size, calculate_index, calculate_lsb, calculate_mapping_indices,
    lemma_search_size_props, spec_alloc_size, spec_class_of, spec_flat_index, spec_is_aligned,
    spec_lsb, spec_map_fl, spec_map_sl,
};

verus! {

broadcast use vstd::std_specs::hash::group_hash_axioms;

/// Head table of the size-class free lists: one optional block-header
/// address per class.
pub struct FreeNodeHeaderMap {
    pub map: Vec<Option<u64>>,
}

impl FreeNodeHeaderMap {
    /// The table has one slot per class.
    pub open spec fn wf(self) -> bool {
        self.map@.len() == TOTAL_COUNT
    }

    /// Head of class `k`.
    pub open spec fn spec_head(self, k: int) -> Option<u64>
        recommends
            0 <= k < TOTAL_COUNT,
    {
        self.map@[k]
    }

    /// An empty head table.
    pub fn new() -> (r: Self)
        ensures
            r.wf(),
            forall|k: int| 0 <= k < TOTAL_COUNT ==> r.spec_head(k).is_none(),
    {
        let mut map: Vec<Option<u64>> = Vec::new();
        let mut i: usize = 0;
        while i < TOTAL_COUNT
            invariant
                map@.len() == i,
                i <= TOTAL_COUNT,
                forall|k: int| 0 <= k < i ==> map@[k].is_none(),
            decreases TOTAL_COUNT - i,
        {
            map.push(None);
            i = i + 1;
        }
        Self { map }
    }

    /// Head of the class `mapping_indices`, or nothing for an index out of
    /// range.
    pub fn get_item(&self, mapping_indices: (usize, usize)) -> (r: Option<Option<u64>>)
        requires
            self.wf(),
            mapping_indices.0 < FIRST_INDEX_REAL,
            mapping_indices.1 < SECOND_INDEX_MAX,
        ensures
            r == Some(
                self.spec_head(
                    spec_flat_index(mapping_indices.0 as nat, mapping_indices.1 as nat) as int,
                ),
            ),
    {
        let index = calculate_index(mapping_indices);
        if index >= TOTAL_COUNT {
            None
        } else {
            Some(self.map[index])
        }
    }

    /// Set the head of the class `mapping_indices`.
    pub fn set_item(&mut self, mapping_indices: (usize, usize), block: u64)
        requires
            old(self).wf(),
            mapping_indices.0 < FIRST_INDEX_REAL,
            mapping_indices.1 < SECOND_INDEX_MAX,
        ensures
            final(self).wf(),
            final(self).map@ == old(self).map@.update(
                spec_flat_index(mapping_indices.0 as nat, mapping_indices.1 as nat) as int,
                Some(block),
            ),
    {
        let index = calculate_index(mapping_indices);
        self.map.set(index, Some(block));
    }

    /// Clear the head of the class `mapping_indices`.
    pub fn reset_item(&mut self, mapping_indices: (usize, usize))
        requires
            old(self).wf(),
            mapping_indices.0 < FIRST_INDEX_REAL,
            mapping_indices.1 < SECOND_INDEX_MAX,
        ensures
            final(self).wf(),
            final(self).map@ == old(self).map@.update(
                spec_flat_index(mapping_indices.0 as nat, mapping_indices.1 as nat) as int,
                None::<u64>,
            ),
    {
        let index = calculate_index(mapping_indices);
        self.map.set(index, None);
    }
}

/// Flat class of a block, by its buffer size.
pub open spec fn spec_block_class(b: Block) -> nat {
    spec_class_of(b.header.spec_buffer_size())
}

/// Size constraints every free block obeys: aligned, at least the minimum
/// block size, and small enough to be filed in the class table.
pub open spec fn spec_free_size_ok(b: Block) -> bool {
    &&& spec_is_aligned(b.header.spec_buffer_size())
    &&& MINIMUM_BLOCK_SIZE <= b.header.spec_buffer_size()
    &&& b.header.spec_buffer_size() < CLASS_SIZE_LIMIT
}

/// The global index header: the two-level bitmaps, the head table, the
/// area list, the usage counters, and the block table that models the
/// address space.
pub struct TLSFRawHeader {
    pub fl_bitmap: u32,
    pub sl_bitmap: Vec<u32>,
    pub areainfo_ptr: Option<u64>,
    pub freed_block_map: FreeNodeHeaderMap,
    pub maximum_memory_size: u64,
    pub used_memory_size: u64,
    pub blocks: HashMap<u64, Block>,
}

impl TLSFRawHeader {
    /// Aligned byte size this header occupies at the front of the root
    /// chunk.
    pub fn get_aligned_size() -> (r: u64)
        ensures
            r == crate::consts::GLOBAL_HEADER_SIZE,
    {
        crate::consts::GLOBAL_HEADER_SIZE
    }

    pub open spec fn spec_blocks(self) -> Map<u64, Block> {
        self.blocks@
    }

    pub open spec fn spec_head(self, k: int) -> Option<u64> {
        self.freed_block_map.spec_head(k)
    }

    /// The tables have their fixed shapes.
    pub open spec fn wf_shape(self) -> bool {
        &&& self.freed_block_map.wf()
        &&& self.sl_bitmap@.len() == FIRST_INDEX_REAL
    }

    /// The bitmaps agree with the head table: an inner bit is set exactly
    /// when its class has a head, an outer bit exactly when its row has a
    /// set inner bit, and no outer bit beyond the real rows is set.
    pub open spec fn wf_bitmaps(self) -> bool {
        &&& forall|f: int, s: u32|
            0 <= f < FIRST_INDEX_REAL && s < 32 ==> (#[trigger] u32_bit(self.sl_bitmap@[f], s))
                == self.spec_head(f * 32 + s).is_some()
        &&& forall|f: u32|
            f < FIRST_INDEX_REAL ==> (#[trigger] u32_bit(self.fl_bitmap, f)) == (self.sl_bitmap@[
                f as int
            ] != 0)
        &&& forall|f: u32|
            FIRST_INDEX_REAL <= f < 32 ==> !(#[trigger] u32_bit(self.fl_bitmap, f))
    }

    /// Every class head names a free block of that class which sits in the
    /// block table and is the first of its list.
    pub open spec fn wf_heads(self) -> bool {
        forall|k: int|
            0 <= k < TOTAL_COUNT ==> ((#[trigger] self.spec_head(k)) matches Some(a) ==> {
                &&& self.spec_blocks().contains_key(a)
                &&& self.spec_blocks()[a].header.spec_is_freed()
                &&& self.spec_blocks()[a].data is Link
                &&& self.spec_blocks()[a].spec_link().prev.is_none()
                &&& spec_block_class(self.spec_blocks()[a]) == k
            })
    }

    /// Every free block carries a link, has a well-formed size, and links
    /// only to free blocks of its own class that link back to it.
    pub open spec fn wf_links(self) -> bool {
        forall|a: u64|
            #[trigger] self.spec_blocks().contains_key(a)
                && self.spec_blocks()[a].header.spec_is_freed() ==> {
                let b = self.spec_blocks()[a];
                &&& b.data is Link
                &&& spec_free_size_ok(b)
                &&& (b.spec_link().next matches Some(n) ==> {
                    &&& self.spec_blocks().contains_key(n)
                    &&& self.spec_blocks()[n].header.spec_is_freed()
                    &&& self.spec_blocks()[n].data is Link
                    &&& spec_block_class(self.spec_blocks()[n]) == spec_block_class(b)
                    &&& self.spec_blocks()[n].spec_link().prev == Some(a)
                })
                &&& (b.spec_link().prev matches Some(p) ==> {
                    &&& self.spec_blocks().contains_key(p)
                    &&& self.spec_blocks()[p].header.spec_is_freed()
                    &&& self.spec_blocks()[p].data is Link
                    &&& spec_block_class(self.spec_blocks()[p]) == spec_block_class(b)
                    &&& self.spec_blocks()[p].spec_link().next == Some(a)
                })
            }
    }

    /// Every block's span, plus room for a following header and the flag
    /// bits, stays within the address space.
    pub open spec fn wf_addresses(self) -> bool {
        forall|a: u64|
            #[trigger] self.spec_blocks().contains_key(a) ==> a + BLOCK_HEADER_SIZE
                + self.spec_blocks()[a].header.spec_buffer_size() + BLOCK_HEADER_SIZE
                + BLOCK_ALIGNOF + 3 <= u64::MAX
    }

    /// The index is intact: bitmaps, heads, list links and address bounds
    /// all agree.
    pub open spec fn wf(self) -> bool {
        &&& self.wf_shape()
        &&& self.wf_bitmaps()
        &&& self.wf_heads()
        &&& self.wf_links()
        &&& self.wf_addresses()
    }

    /// An empty index: no free blocks, no areas, zero counters.
    pub fn new() -> (r: Self)
        ensures
            r.wf(),
            r.fl_bitmap == 0,
            forall|f: int| 0 <= f < FIRST_INDEX_REAL ==> r.sl_bitmap@[f] == 0,
            forall|k: int| 0 <= k < TOTAL_COUNT ==> r.spec_head(k).is_none(),
            r.spec_blocks() == Map::<u64, Block>::empty(),
            r.areainfo_ptr.is_none(),
            r.maximum_memory_size == 0,
            r.used_memory_size == 0,
    {
        let mut sl_bitmap: Vec<u32> = Vec::new();
        let mut i: usize = 0;
        while i < FIRST_INDEX_REAL
            invariant
                sl_bitmap@.len() == i,
                i <= FIRST_INDEX_REAL,
                forall|f: int| 0 <= f < i ==> sl_bitmap@[f] == 0,
            decreases FIRST_INDEX_REAL - i,
        {
            sl_bitmap.push(0);
            i = i + 1;
        }
        let r = Self {
            fl_bitmap: 0,
            sl_bitmap,
            areainfo_ptr: None,
            freed_block_map: FreeNodeHeaderMap::new(),
            maximum_memory_size: 0,
            used_memory_size: 0,
            blocks: HashMap::new(),
        };
        proof {
            lemma_u32_zero_bits();
        }
        r
    }

    /// Find the class whose head should serve a request of `size` bytes:
    /// the lowest non-empty class at or above the class of the request's
    /// allocation size.  Returns nothing when every such class is empty.
    pub fn find_suitable_indices(&self, size: u64) -> (r: Option<(usize, usize)>)
        requires
            self.wf(),
            size + BLOCK_ALIGNOF <= u64::MAX,
            spec_alloc_size(size as nat) < CLASS_SIZE_LIMIT,
        ensures
            ({
                let k0 = spec_class_of(spec_alloc_size(size as nat));
                match r {
                    None => forall|k: int|
                        k0 <= k < TOTAL_COUNT ==> (#[trigger] self.spec_head(k)).is_none(),
                    Some((f, s)) => {
                        &&& f < FIRST_INDEX_REAL
                        &&& s < SECOND_INDEX_MAX
                        &&& k0 <= spec_flat_index(f as nat, s as nat)
                        &&& self.spec_head(spec_flat_index(f as nat, s as nat) as int).is_some()
                        &&& forall|k: int|
                            k0 <= k < spec_flat_index(f as nat, s as nat) ==> (
                            #[trigger] self.spec_head(k)).is_none()
                    },
                }
            }),
    {
        let allocation = calculate_allocation_size(size);
        proof {
            crate::function::lemma_round_up_props(
                if size < MINIMUM_BLOCK_SIZE {
                    MINIMUM_BLOCK_SIZE as nat
                } else {
                    size as nat
                },
            );
        }
        let (first, second) = calculate_mapping_indices(allocation);
        let ghost k0 = spec_class_of(spec_alloc_size(size as nat));
        proof {
            assert(k0 == first * 32 + second);
        }

        let second_bitmask: u32 = 0xffff_ffffu32 << (second as u32);
        let row = self.sl_bitmap[first];
        let second_masked_bits: u32 = row & second_bitmask;
        proof {
            lemma_u32_mask_ge(row, second as u32);
        }
        if second_masked_bits > 0 {
            proof {
                lemma_u32_lsb(second_masked_bits);
            }
            let s = match calculate_lsb(second_masked_bits as u64) {
                Some(s) => s,
                None => 0,
            };
            proof {
                let l = spec_lsb(second_masked_bits as nat);
                assert(u32_bit(row, l as u32) && l >= second);
                assert forall|k: int| k0 <= k < first * 32 + l implies (#[trigger] self.spec_head(
                    k,
                )).is_none() by {
                    let sk = (k - first * 32) as u32;
                    assert(second <= sk < l);
                    assert(!u32_bit(second_masked_bits, sk));
                    assert(!u32_bit(row, sk) || sk < second);
                }
            }
            Some((first, s))
        } else {
            proof {
                lemma_u32_zero_bits();
                assert forall|k: int| k0 <= k < first * 32 + 32 implies (#[trigger] self.spec_head(
                    k,
                )).is_none() by {
                    let sk = (k - first * 32) as u32;
                    assert(!u32_bit(second_masked_bits, sk));
                }
            }
            let first_bitmask: u32 = if first + 1 < 32 {
                0xffff_ffffu32 << ((first + 1) as u32)
            } else {
                0
            };
            let first_masked_bits: u32 = self.fl_bitmap & first_bitmask;
            proof {
                lemma_u32_mask_ge(self.fl_bitmap, (first + 1) as u32);
            }
            if first_masked_bits == 0 {
                proof {
                    lemma_u32_zero_bits();
                    assert forall|k: int| k0 <= k < TOTAL_COUNT implies (#[trigger] self.spec_head(
                        k,
                    )).is_none() by {
                        let fk = k / 32;
                        let sk = (k % 32) as u32;
                        vstd::arithmetic::div_mod::lemma_fundamental_div_mod(k, 32);
                        assert(k == fk * 32 + sk);
                        if fk > first {
                            assert(!u32_bit(first_masked_bits, fk as u32));
                            assert(!u32_bit(self.fl_bitmap, fk as u32));
                            assert(self.sl_bitmap@[fk] == 0);
                            assert(!u32_bit(self.sl_bitmap@[fk], sk));
                        } else {
                            assert(fk == first);
                        }
                    }
                }
                None
            } else {
                proof {
                    lemma_u32_lsb(first_masked_bits);
                }
                let fnext = match calculate_lsb(first_masked_bits as u64) {
                    Some(f) => f,
                    None => 0,
                };
                proof {
                    assert(u32_bit(self.fl_bitmap, fnext as u32));
                    assert(fnext < FIRST_INDEX_REAL);
                }
                let row_next = self.sl_bitmap[fnext];
                proof {
                    lemma_u32_lsb(row_next);
                }
                let s = match calculate_lsb(row_next as u64) {
                    Some(s) => s,
                    None => 0,
                };
                proof {
                    let l = spec_lsb(row_next as nat);
                    assert(u32_bit(row_next, l as u32));
                    assert forall|k: int| k0 <= k < fnext * 32 + l implies (
                    #[trigger] self.spec_head(k)).is_none() by {
                        let fk = k / 32;
                        let sk = (k % 32) as u32;
                        vstd::arithmetic::div_mod::lemma_fundamental_div_mod(k, 32);
                        assert(k == fk * 32 + sk);
                        if fk == first {
                            assert(!u32_bit(second_masked_bits, sk));
                        } else if fk < fnext {
                            assert(first < fk);
                            assert(!u32_bit(first_masked_bits, fk as u32));
                            assert(!u32_bit(self.fl_bitmap, fk as u32));
                            assert(self.sl_bitmap@[fk] == 0);
                            lemma_u32_zero_bits();
                            assert(!u32_bit(self.sl_bitmap@[fk], sk));
                        } else {
                            assert(fk == fnext);
                            assert(sk < l);
                            assert(!u32_bit(row_next, sk));
                        }
                    }
                }
                Some((fnext, s))
            }
        }
    }

    /// Link a free block at the head of the class list `mapping_indices`
    /// and set the class's bits in both bitmaps.
    ///
    /// The block must already be flagged free, carry a fresh link, be of
    /// the named class, and not already stand at the head of its list.
    pub fn insert_block(&mut self, block_ptr: u64, mapping_indices: (usize, usize))
        requires
            old(self).wf(),
            mapping_indices.0 < FIRST_INDEX_REAL,
            mapping_indices.1 < SECOND_INDEX_MAX,
            old(self).spec_blocks().contains_key(block_ptr),
            old(self).spec_blocks()[block_ptr].header.spec_is_freed(),
            old(self).spec_blocks()[block_ptr].data == BufferData::Link(
                FreeNode { prev: None::<u64>, next: None::<u64> },
            ),
            spec_free_size_ok(old(self).spec_blocks()[block_ptr]),
            spec_block_class(old(self).spec_blocks()[block_ptr]) == spec_flat_index(
                mapping_indices.0 as nat,
                mapping_indices.1 as nat,
            ),
            old(self).spec_head(
                spec_flat_index(mapping_indices.0 as nat, mapping_indices.1 as nat) as int,
            ) != Some(block_ptr),
        ensures
            final(self).wf(),
            ({
                let k = spec_flat_index(mapping_indices.0 as nat, mapping_indices.1 as nat) as int;
                let head = old(self).spec_head(k);
                let linked = Block {
                    header: old(self).spec_blocks()[block_ptr].header,
                    data: BufferData::Link(FreeNode { prev: None::<u64>, next: head }),
                };
                &&& final(self).freed_block_map.map@ == old(self).freed_block_map.map@.update(
                    k,
                    Some(block_ptr),
                )
                &&& final(self).spec_blocks() == (match head {
                    None => old(self).spec_blocks().insert(block_ptr, linked),
                    Some(h) => old(self).spec_blocks().insert(block_ptr, linked).insert(
                        h,
                        Block {
                            header: old(self).spec_blocks()[h].header,
                            data: BufferData::Link(
                                FreeNode {
                                    prev: Some(block_ptr),
                                    next: old(self).spec_blocks()[h].spec_link().next,
                                },
                            ),
                        },
                    ),
                })
                &&& final(self).areainfo_ptr == old(self).areainfo_ptr
                &&& final(self).maximum_memory_size == old(self).maximum_memory_size
                &&& final(self).used_memory_size == old(self).used_memory_size
            }),
    {
        let ghost k = spec_flat_index(mapping_indices.0 as nat, mapping_indices.1 as nat) as int;
        let head = match self.freed_block_map.get_item(mapping_indices) {
            Some(head) => head,
            None => None,
        };

        // Link the block in front of the current head.
        let mut b = *self.blocks.get(&block_ptr).unwrap();
        b.data = BufferData::Link(FreeNode { prev: None, next: head });
        self.blocks.insert(block_ptr, b);

        // Chain the old head back to the new one.
        match head {
            None => (),
            Some(h) => {
                let mut hb = *self.blocks.get(&h).unwrap();
                let next = match hb.data {
                    BufferData::Link(l) => l.next,
                    _ => None,
                };
                hb.data = BufferData::Link(FreeNode { prev: Some(block_ptr), next });
                self.blocks.insert(h, hb);
            },
        }

        self.freed_block_map.set_item(mapping_indices, block_ptr);

        // Raise the class's bits.
        let (first, second) = mapping_indices;
        let ghost old_fl = self.fl_bitmap;
        self.fl_bitmap = self.fl_bitmap | (1u32 << (first as u32));
        let row = self.sl_bitmap[first];
        self.sl_bitmap.set(first, row | (1u32 << (second as u32)));

        proof {
            let os = *old(self);
            lemma_u32_bit_set(old_fl, first as u32);
            lemma_u32_bit_set(row, second as u32);
            lemma_u32_zero_bits();
            let bs0 = os.spec_blocks();
            let bs1 = self.spec_blocks();
            let bp = block_ptr;
            let head = os.spec_head(k);

            assert(self.wf_shape());
            // nothing in the old table links to the inserted block
            assert forall|c: u64|
                bs0.contains_key(c) && bs0[c].header.spec_is_freed() implies {
                &&& bs0[c].spec_link().next != Some(bp)
                &&& bs0[c].spec_link().prev != Some(bp)
            } by {
                if bs0[c].spec_link().next == Some(bp) {
                    assert(bs0[bp].spec_link().prev == Some(c));
                }
                if bs0[c].spec_link().prev == Some(bp) {
                    assert(bs0[bp].spec_link().next == Some(c));
                }
            }
            // no class head other than k names the inserted block
            assert forall|kk: int|
                0 <= kk < TOTAL_COUNT && os.spec_head(kk) == Some(bp) implies kk == k by {
                assert(spec_block_class(bs0[bp]) == kk);
            }

            assert(self.wf_bitmaps()) by {
                assert forall|f: int, sx: u32|
                    0 <= f < FIRST_INDEX_REAL && sx < 32 implies (#[trigger] u32_bit(
                    self.sl_bitmap@[f],
                    sx,
                )) == self.spec_head(f * 32 + sx).is_some() by {
                    if f == first {
                        assert(u32_bit(self.sl_bitmap@[f], sx) == (sx == second || u32_bit(
                            row,
                            sx,
                        )));
                    } else {
                        assert(self.sl_bitmap@[f] == os.sl_bitmap@[f]);
                        assert(f * 32 + sx != k);
                    }
                }
                assert forall|f: u32| f < FIRST_INDEX_REAL implies (#[trigger] u32_bit(
                    self.fl_bitmap,
                    f,
                )) == (self.sl_bitmap@[f as int] != 0) by {
                    if f == first as u32 {
                        assert(u32_bit(self.sl_bitmap@[first as int], second as u32));
                        assert(self.sl_bitmap@[first as int] != 0);
                    }
                }
                assert forall|f: u32| FIRST_INDEX_REAL <= f < 32 implies !(#[trigger] u32_bit(
                    self.fl_bitmap,
                    f,
                )) by {
                    assert(!u32_bit(old_fl, f));
                }
            }

            assert(self.wf_heads()) by {
                assert forall|kk: int| 0 <= kk < TOTAL_COUNT implies ({
                    let hd = #[trigger] self.spec_head(kk);
                    hd matches Some(a) ==> {
                        &&& bs1.contains_key(a)
                        &&& bs1[a].header.spec_is_freed()
                        &&& bs1[a].data is Link
                        &&& bs1[a].spec_link().prev.is_none()
                        &&& spec_block_class(bs1[a]) == kk
                    }
                }) by {
                    match self.spec_head(kk) {
                        None => (),
                        Some(a) => {
                            if kk == k {
                                assert(a == bp);
                            } else {
                                assert(self.spec_head(kk) == os.spec_head(kk));
                                assert(a != bp);
                                match head {
                                    Some(h) => {
                                        if a == h {
                                            assert(spec_block_class(bs0[a]) == k);
                                            assert(spec_block_class(bs0[a]) == kk);
                                            assert(false);
                                        }
                                    },
                                    None => (),
                                }
                                assert(bs1[a] == bs0[a]);
                            }
                        },
                    }
                }
            }

            assert(self.wf_links()) by {
                assert forall|a: u64|
                    #[trigger] bs1.contains_key(a) && bs1[a].header.spec_is_freed() implies {
                    let b = bs1[a];
                    &&& b.data is Link
                    &&& spec_free_size_ok(b)
                    &&& (b.spec_link().next matches Some(n) ==> {
                        &&& bs1.contains_key(n)
                        &&& bs1[n].header.spec_is_freed()
                        &&& bs1[n].data is Link
                        &&& spec_block_class(bs1[n]) == spec_block_class(b)
                        &&& bs1[n].spec_link().prev == Some(a)
                    })
                    &&& (b.spec_link().prev matches Some(p) ==> {
                        &&& bs1.contains_key(p)
                        &&& bs1[p].header.spec_is_freed()
                        &&& bs1[p].data is Link
                        &&& spec_block_class(bs1[p]) == spec_block_class(b)
                        &&& bs1[p].spec_link().next == Some(a)
                    })
                } by {
                    if a == bp {
                        match head {
                            Some(h) => {
                                assert(spec_block_class(bs0[h]) == k);
                            },
                            None => (),
                        }
                    } else if head == Some(a) {
                        assert(bs1[a].spec_link().next == bs0[a].spec_link().next);
                        match bs0[a].spec_link().next {
                            Some(n) => {
                                assert(n != bp);
                                assert(bs1[n] == bs0[n]);
                            },
                            None => (),
                        }
                    } else {
                        assert(bs1[a] == bs0[a]);
                        match bs0[a].spec_link().next {
                            Some(n) => {
                                assert(n != bp);
                                match head {
                                    Some(h) => {
                                        if n == h {
                                            assert(bs0[h].spec_link().prev.is_none());
                                            assert(bs0[n].spec_link().prev == Some(a));
                                            assert(false);
                                        }
                                    },
                                    None => (),
                                }
                                assert(bs1[n] == bs0[n]);
                            },
                            None => (),
                        }
                        match bs0[a].spec_link().prev {
                            Some(p) => {
                                assert(p != bp);
                                match head {
                                    Some(h) => {
                                        if p == h {
                                            assert(bs1[p].spec_link().next == bs0[
                                                p
                                            ].spec_link().next);
                                        }
                                    },
                                    None => (),
                                }
                            },
                            None => (),
                        }
                    }
                }
            }

            assert(self.wf_addresses()) by {
                assert forall|a: u64| #[trigger] bs1.contains_key(a) implies a + BLOCK_HEADER_SIZE
                    + bs1[a].header.spec_buffer_size() + BLOCK_HEADER_SIZE + BLOCK_ALIGNOF + 3
                    <= u64::MAX by {
                    assert(bs0.contains_key(a));
                    assert(bs1[a].header == bs0[a].header);
                }
            }
        }
    }

    /// Pop the head block of the class `mapping_indices`, clearing the
    /// class's bits when its list becomes empty.  The popped block keeps
    /// its free flag; its link is cleared.  Returns nothing when the class
    /// is empty.
    pub fn extract_root_block(&mut self, mapping_indices: (usize, usize)) -> (r: Option<u64>)
        requires
            old(self).wf(),
            mapping_indices.0 < FIRST_INDEX_REAL,
            mapping_indices.1 < SECOND_INDEX_MAX,
        ensures
            final(self).wf(),
            r == old(self).spec_head(
                spec_flat_index(mapping_indices.0 as nat, mapping_indices.1 as nat) as int,
            ),
            r.is_none() ==> *final(self) == *old(self),
            ({
                let k = spec_flat_index(mapping_indices.0 as nat, mapping_indices.1 as nat) as int;
                r matches Some(h) ==> {
                    let hb = old(self).spec_blocks()[h];
                    let next = hb.spec_link().next;
                    let cleared = Block {
                        header: hb.header,
                        data: BufferData::Link(FreeNode { prev: None::<u64>, next: None::<u64> }),
                    };
                    &&& old(self).spec_blocks().contains_key(h)
                    &&& hb.header.spec_is_freed()
                    &&& hb.data is Link
                    &&& spec_free_size_ok(hb)
                    &&& spec_block_class(hb) == k
                    &&& final(self).freed_block_map.map@ == old(
                        self,
                    ).freed_block_map.map@.update(k, next)
                    &&& final(self).spec_blocks() == (match next {
                        None => old(self).spec_blocks().insert(h, cleared),
                        Some(n) => old(self).spec_blocks().insert(h, cleared).insert(
                            n,
                            Block {
                                header: old(self).spec_blocks()[n].header,
                                data: BufferData::Link(
                                    FreeNode {
                                        prev: None::<u64>,
                                        next: old(self).spec_blocks()[n].spec_link().next,
                                    },
                                ),
                            },
                        ),
                    })
                    &&& final(self).blocks@[h].header == hb.header
                    &&& forall|kk: int|
                        0 <= kk < TOTAL_COUNT ==> #[trigger] final(self).spec_head(kk) != Some(h)
                    &&& final(self).areainfo_ptr == old(self).areainfo_ptr
                    &&& final(self).maximum_memory_size == old(self).maximum_memory_size
                    &&& final(self).used_memory_size == old(self).used_memory_size
                }
            }),
    {
        let ghost k = spec_flat_index(mapping_indices.0 as nat, mapping_indices.1 as nat) as int;
        let block_ptr = match self.freed_block_map.get_item(mapping_indices) {
            Some(head) => head,
            None => None,
        };
        let h = match block_ptr {
            None => {
                return None;
            },
            Some(h) => h,
        };

        let mut b = *self.blocks.get(&h).unwrap();
        let lnext = match b.data {
            BufferData::Link(l) => l.next,
            _ => None,
        };
        b.data = BufferData::Link(FreeNode { prev: None, next: None });
        self.blocks.insert(h, b);

        match lnext {
            None => {
                self.freed_block_map.reset_item(mapping_indices);
                let (first, second) = mapping_indices;
                let ghost old_fl = self.fl_bitmap;
                let ghost old_row = self.sl_bitmap@[first as int];
                let row = self.sl_bitmap[first] ^ (1u32 << (second as u32));
                self.sl_bitmap.set(first, row);
                proof {
                    lemma_u32_bit_clear(old_row, second as u32);
                }
                if row == 0 {
                    self.fl_bitmap = self.fl_bitmap ^ (1u32 << (first as u32));
                    proof {
                        lemma_u32_zero_bits();
                        assert(u32_bit(old_row, second as u32));
                        assert(old_row != 0);
                        assert(u32_bit(old_fl, first as u32));
                        lemma_u32_bit_clear(old_fl, first as u32);
                    }
                }
            },
            Some(n) => {
                self.freed_block_map.set_item(mapping_indices, n);
                let mut nb = *self.blocks.get(&n).unwrap();
                let nnext = match nb.data {
                    BufferData::Link(l) => l.next,
                    _ => None,
                };
                nb.data = BufferData::Link(FreeNode { prev: None, next: nnext });
                self.blocks.insert(n, nb);
            },
        }

        proof {
            let os = *old(self);
            lemma_u32_zero_bits();
            let bs0 = os.spec_blocks();
            let bs1 = self.spec_blocks();
            let hb = bs0[h];
            let next = hb.spec_link().next;

            // h is referenced only through n's back link
            assert forall|c: u64|
                bs0.contains_key(c) && bs0[c].header.spec_is_freed() implies {
                &&& bs0[c].spec_link().next != Some(h)
                &&& (bs0[c].spec_link().prev == Some(h) ==> Some(c) == next)
            } by {
                if bs0[c].spec_link().next == Some(h) {
                    assert(bs0[h].spec_link().prev == Some(c));
                }
                if bs0[c].spec_link().prev == Some(h) {
                    assert(bs0[h].spec_link().next == Some(c));
                }
            }
            // no other class head names h, and none names n
            assert forall|kk: int|
                0 <= kk < TOTAL_COUNT && os.spec_head(kk) == Some(h) implies kk == k by {
                assert(spec_block_class(bs0[h]) == kk);
            }
            match next {
                Some(n) => {
                    assert(bs0[n].spec_link().prev == Some(h));
                    assert(n != h);
                    assert forall|kk: int|
                        0 <= kk < TOTAL_COUNT implies os.spec_head(kk) != Some(n) by {
                        if os.spec_head(kk) == Some(n) {
                            assert(bs0[n].spec_link().prev.is_none());
                        }
                    }
                },
                None => (),
            }

            assert(self.wf_shape());
            assert(self.wf_bitmaps()) by {
                assert forall|f: int, sx: u32|
                    0 <= f < FIRST_INDEX_REAL && sx < 32 implies (#[trigger] u32_bit(
                    self.sl_bitmap@[f],
                    sx,
                )) == self.spec_head(f * 32 + sx).is_some() by {
                    if f == mapping_indices.0 as int && next.is_none() {
                        assert(u32_bit(os.sl_bitmap@[f], mapping_indices.1 as u32));
                    } else {
                        assert(self.sl_bitmap@[f] == os.sl_bitmap@[f]);
                    }
                }
                assert forall|f: u32| f < FIRST_INDEX_REAL implies (#[trigger] u32_bit(
                    self.fl_bitmap,
                    f,
                )) == (self.sl_bitmap@[f as int] != 0) by {
                    if f == mapping_indices.0 as u32 && next.is_none() {
                        assert(u32_bit(os.sl_bitmap@[f as int], mapping_indices.1 as u32));
                        assert(os.sl_bitmap@[f as int] != 0);
                        assert(u32_bit(os.fl_bitmap, f));
                    }
                }
                assert forall|f: u32| FIRST_INDEX_REAL <= f < 32 implies !(#[trigger] u32_bit(
                    self.fl_bitmap,
                    f,
                )) by {
                    assert(!u32_bit(os.fl_bitmap, f));
                }
            }

            assert(self.wf_heads()) by {
                assert forall|kk: int| 0 <= kk < TOTAL_COUNT implies ({
                    let hd = #[trigger] self.spec_head(kk);
                    hd matches Some(a) ==> {
                        &&& bs1.contains_key(a)
                        &&& bs1[a].header.spec_is_freed()
                        &&& bs1[a].data is Link
                        &&& bs1[a].spec_link().prev.is_none()
                        &&& spec_block_class(bs1[a]) == kk
                    }
                }) by {
                    match self.spec_head(kk) {
                        None => (),
                        Some(a) => {
                            if kk == k {
                                assert(Some(a) == next);
                            } else {
                                assert(self.spec_head(kk) == os.spec_head(kk));
                                assert(a != h);
                                assert(Some(a) != next);
                                assert(bs1[a] == bs0[a]);
                            }
                        },
                    }
                }
            }

            assert(self.wf_links()) by {
                assert forall|a: u64|
                    #[trigger] bs1.contains_key(a) && bs1[a].header.spec_is_freed() implies {
                    let b = bs1[a];
                    &&& b.data is Link
                    &&& spec_free_size_ok(b)
                    &&& (b.spec_link().next matches Some(n2) ==> {
                        &&& bs1.contains_key(n2)
                        &&& bs1[n2].header.spec_is_freed()
                        &&& bs1[n2].data is Link
                        &&& spec_block_class(bs1[n2]) == spec_block_class(b)
                        &&& bs1[n2].spec_link().prev == Some(a)
                    })
                    &&& (b.spec_link().prev matches Some(p) ==> {
                        &&& bs1.contains_key(p)
                        &&& bs1[p].header.spec_is_freed()
                        &&& bs1[p].data is Link
                        &&& spec_block_class(bs1[p]) == spec_block_class(b)
                        &&& bs1[p].spec_link().next == Some(a)
                    })
                } by {
                    if a == h {
                        // cleared link: no edges
                    } else if Some(a) == next {
                        match bs0[a].spec_link().next {
                            Some(m) => {
                                assert(bs0[m].spec_link().prev == Some(a));
                                assert(m != h);
                                assert(m != a);
                                assert(bs1[m] == bs0[m]);
                            },
                            None => (),
                        }
                    } else {
                        assert(bs1[a] == bs0[a]);
                        match bs0[a].spec_link().next {
                            Some(m) => {
                                assert(m != h);
                                if Some(m) == next {
                                    assert(bs0[m].spec_link().prev == Some(h));
                                    assert(bs0[m].spec_link().prev == Some(a));
                                    assert(false);
                                }
                                assert(bs1[m] == bs0[m]);
                            },
                            None => (),
                        }
                        match bs0[a].spec_link().prev {
                            Some(p) => {
                                assert(p != h);
                                if Some(p) == next {
                                    assert(bs1[p].spec_link().next == bs0[p].spec_link().next);
                                }
                            },
                            None => (),
                        }
                    }
                }
            }

            assert(self.wf_addresses()) by {
                assert forall|a: u64| #[trigger] bs1.contains_key(a) implies a + BLOCK_HEADER_SIZE
                    + bs1[a].header.spec_buffer_size() + BLOCK_HEADER_SIZE + BLOCK_ALIGNOF + 3
                    <= u64::MAX by {
                    assert(bs0.contains_key(a));
                    assert(bs1[a].header == bs0[a].header);
                }
            }
            assert forall|kk: int| 0 <= kk < TOTAL_COUNT implies #[trigger] self.spec_head(kk)
                != Some(h) by {
                if kk != k {
                    assert(self.spec_head(kk) == os.spec_head(kk));
                }
            }
        }
        Some(h)
    }

    /// Unlink a free block from wherever it stands in its class list,
    /// rewiring its neighbours and, when it was the head, promoting its
    /// successor (clearing the class's bits if the list becomes empty).
    /// The block keeps its free flag; its link is cleared.
    #[verifier::rlimit(100)]
    pub fn extract_freed_block(&mut self, block_ptr: u64)
        requires
            old(self).wf(),
            old(self).spec_blocks().contains_key(block_ptr),
            old(self).spec_blocks()[block_ptr].header.spec_is_freed(),
        ensures
            final(self).wf(),
            ({
                let b0 = old(self).spec_blocks()[block_ptr];
                let lp = b0.spec_link().prev;
                let ln = b0.spec_link().next;
                let kb = spec_block_class(b0) as int;
                let was_head = old(self).spec_head(kb) == Some(block_ptr);
                &&& final(self).freed_block_map.map@ == (if was_head {
                    old(self).freed_block_map.map@.update(kb, ln)
                } else {
                    old(self).freed_block_map.map@
                })
                &&& final(self).spec_blocks().dom() == old(self).spec_blocks().dom()
                &&& forall|a: u64|
                    old(self).spec_blocks().contains_key(a) ==> final(self).spec_blocks()[a].header
                        == (#[trigger] old(self).spec_blocks()[a]).header
                &&& final(self).spec_blocks()[block_ptr].data == BufferData::Link(
                    FreeNode { prev: None::<u64>, next: None::<u64> },
                )
                &&& forall|a: u64|
                    #[trigger] old(self).spec_blocks().contains_key(a) && a != block_ptr && Some(a)
                        != lp && Some(a) != ln ==> final(self).spec_blocks()[a] == old(
                        self,
                    ).spec_blocks()[a]
                &&& (ln matches Some(n) ==> (n != block_ptr ==> {
                    &&& final(self).spec_blocks()[n].spec_link().prev == lp
                    &&& (lp != Some(n) ==> final(self).spec_blocks()[n].spec_link().next == old(
                        self,
                    ).spec_blocks()[n].spec_link().next)
                }))
                &&& (lp matches Some(p) ==> (p != block_ptr ==> {
                    &&& final(self).spec_blocks()[p].spec_link().next == ln
                    &&& (ln != Some(p) ==> final(self).spec_blocks()[p].spec_link().prev == old(
                        self,
                    ).spec_blocks()[p].spec_link().prev)
                }))
                &&& forall|kk: int|
                    0 <= kk < TOTAL_COUNT ==> #[trigger] final(self).spec_head(kk) != Some(
                        block_ptr,
                    )
                &&& final(self).areainfo_ptr == old(self).areainfo_ptr
                &&& final(self).maximum_memory_size == old(self).maximum_memory_size
                &&& final(self).used_memory_size == old(self).used_memory_size
            }),
    {
        let b = *self.blocks.get(&block_ptr).unwrap();
        let (lprev, lnext) = match b.data {
            BufferData::Link(l) => (l.prev, l.next),
            _ => (None, None),
        };
        let ghost b0 = old(self).spec_blocks()[block_ptr];
        let ghost kb = spec_block_class(b0) as int;
        proof {
            // a self-looped link can only loop on both sides at once
            if lnext == Some(block_ptr) || lprev == Some(block_ptr) {
                assert(self.spec_blocks()[block_ptr].spec_link().prev == Some(block_ptr)
                    && self.spec_blocks()[block_ptr].spec_link().next == Some(block_ptr));
            }
        }

        // Rewire the neighbours around the block.
        match lnext {
            Some(n) => {
                let mut nb = *self.blocks.get(&n).unwrap();
                let (nprev, nnext) = match nb.data {
                    BufferData::Link(l) => (l.prev, l.next),
                    _ => (None, None),
                };
                nb.data = BufferData::Link(FreeNode { prev: lprev, next: nnext });
                self.blocks.insert(n, nb);
            },
            None => (),
        }
        match lprev {
            Some(p) => {
                let mut pb = *self.blocks.get(&p).unwrap();
                let (pprev, pnext) = match pb.data {
                    BufferData::Link(l) => (l.prev, l.next),
                    _ => (None, None),
                };
                pb.data = BufferData::Link(FreeNode { prev: pprev, next: lnext });
                self.blocks.insert(p, pb);
            },
            None => (),
        }

        // Promote the successor when the block was the head of its list.
        let size = b.header.buffer_size();
        let mapping_indices = calculate_mapping_indices(size);
        let head = match self.freed_block_map.get_item(mapping_indices) {
            Some(head) => head,
            None => None,
        };
        match head {
            Some(hh) => {
                if hh == block_ptr {
                    match lnext {
                        Some(n) => {
                            self.freed_block_map.set_item(mapping_indices, n);
                        },
                        None => {
                            self.freed_block_map.reset_item(mapping_indices);
                            let (first, second) = mapping_indices;
                            let ghost old_fl = self.fl_bitmap;
                            let ghost old_row = self.sl_bitmap@[first as int];
                            proof {
                                assert(old(self).spec_head(kb).is_some());
                                assert(u32_bit(old_row, second as u32));
                                lemma_u32_bit_clear(old_row, second as u32);
                            }
                            let row = self.sl_bitmap[first] ^ (1u32 << (second as u32));
                            self.sl_bitmap.set(first, row);
                            if row == 0 {
                                proof {
                                    lemma_u32_zero_bits();
                                    assert(old_row != 0);
                                    assert(u32_bit(old_fl, first as u32));
                                    lemma_u32_bit_clear(old_fl, first as u32);
                                }
                                self.fl_bitmap = self.fl_bitmap ^ (1u32 << (first as u32));
                            }
                        },
                    }
                }
            },
            None => (),
        }

        // Clear the block's own link.
        let mut cleared = b;
        cleared.data = BufferData::Link(FreeNode { prev: None, next: None });
        self.blocks.insert(block_ptr, cleared);

        proof {
            let os = *old(self);
            lemma_u32_zero_bits();
            let bs0 = os.spec_blocks();
            let bs1 = self.spec_blocks();
            let bp = block_ptr;
            let lp = b0.spec_link().prev;
            let ln = b0.spec_link().next;
            let was_head = os.spec_head(kb) == Some(bp);

            // only the listed neighbours reference the block
            assert forall|c: u64|
                bs0.contains_key(c) && bs0[c].header.spec_is_freed() implies {
                &&& (bs0[c].spec_link().next == Some(bp) ==> lp == Some(c))
                &&& (bs0[c].spec_link().prev == Some(bp) ==> ln == Some(c))
            } by {
                if bs0[c].spec_link().next == Some(bp) {
                    assert(bs0[bp].spec_link().prev == Some(c));
                }
                if bs0[c].spec_link().prev == Some(bp) {
                    assert(bs0[bp].spec_link().next == Some(c));
                }
            }
            // the only class head that can name the block is its own
            assert forall|kk: int|
                0 <= kk < TOTAL_COUNT && os.spec_head(kk) == Some(bp) implies kk == kb by {
                assert(spec_block_class(bs0[bp]) == kk);
            }
            if was_head {
                assert(lp.is_none());
            }
            match ln {
                Some(n) => {
                    if n != bp {
                        assert(bs0[n].spec_link().prev == Some(bp));
                        assert forall|kk: int|
                            0 <= kk < TOTAL_COUNT implies os.spec_head(kk) != Some(n) by {
                            if os.spec_head(kk) == Some(n) {
                                assert(bs0[n].spec_link().prev.is_none());
                            }
                        }
                    }
                },
                None => (),
            }
            match lp {
                Some(p) => {
                    if p != bp {
                        assert(bs0[p].spec_link().next == Some(bp));
                        assert(bs0[p].header.spec_is_freed());
                        assert(spec_block_class(bs0[p]) == kb);
                    }
                },
                None => (),
            }

            assert(self.wf_shape());
            assert(self.wf_bitmaps()) by {
                assert forall|f: int, sx: u32|
                    0 <= f < FIRST_INDEX_REAL && sx < 32 implies (#[trigger] u32_bit(
                    self.sl_bitmap@[f],
                    sx,
                )) == self.spec_head(f * 32 + sx).is_some() by {
                    if !(f == mapping_indices.0 as int && was_head && ln.is_none()) {
                        assert(self.sl_bitmap@[f] == os.sl_bitmap@[f]);
                    }
                }
                assert forall|f: u32| f < FIRST_INDEX_REAL implies (#[trigger] u32_bit(
                    self.fl_bitmap,
                    f,
                )) == (self.sl_bitmap@[f as int] != 0) by {
                    if f == mapping_indices.0 as u32 && was_head && ln.is_none() {
                        assert(u32_bit(os.sl_bitmap@[f as int], mapping_indices.1 as u32));
                        assert(os.sl_bitmap@[f as int] != 0);
                        assert(u32_bit(os.fl_bitmap, f));
                    }
                }
                assert forall|f: u32| FIRST_INDEX_REAL <= f < 32 implies !(#[trigger] u32_bit(
                    self.fl_bitmap,
                    f,
                )) by {
                    assert(!u32_bit(os.fl_bitmap, f));
                }
            }

            assert(self.wf_heads()) by {
                assert forall|kk: int| 0 <= kk < TOTAL_COUNT implies ({
                    let hd = #[trigger] self.spec_head(kk);
                    hd matches Some(a) ==> {
                        &&& bs1.contains_key(a)
                        &&& bs1[a].header.spec_is_freed()
                        &&& bs1[a].data is Link
                        &&& bs1[a].spec_link().prev.is_none()
                        &&& spec_block_class(bs1[a]) == kk
                    }
                }) by {
                    match self.spec_head(kk) {
                        None => (),
                        Some(a) => {
                            if was_head && kk == kb {
                                assert(Some(a) == ln);
                                assert(a != bp);
                            } else {
                                assert(self.spec_head(kk) == os.spec_head(kk));
                                assert(a != bp);
                                if Some(a) == ln {
                                    // the successor had a predecessor, so it was no head
                                    assert(bs0[a].spec_link().prev == Some(bp));
                                    assert(false);
                                }
                                if Some(a) == lp {
                                    assert(bs1[a].spec_link().prev == bs0[a].spec_link().prev);
                                    assert(bs1[a].header == bs0[a].header);
                                } else {
                                    assert(bs1[a] == bs0[a]);
                                }
                            }
                        },
                    }
                }
            }

            assert(self.wf_links()) by {
                assert forall|a: u64|
                    #[trigger] bs1.contains_key(a) && bs1[a].header.spec_is_freed() implies {
                    let bb = bs1[a];
                    &&& bb.data is Link
                    &&& spec_free_size_ok(bb)
                    &&& (bb.spec_link().next matches Some(n2) ==> {
                        &&& bs1.contains_key(n2)
                        &&& bs1[n2].header.spec_is_freed()
                        &&& bs1[n2].data is Link
                        &&& spec_block_class(bs1[n2]) == spec_block_class(bb)
                        &&& bs1[n2].spec_link().prev == Some(a)
                    })
                    &&& (bb.spec_link().prev matches Some(p2) ==> {
                        &&& bs1.contains_key(p2)
                        &&& bs1[p2].header.spec_is_freed()
                        &&& bs1[p2].data is Link
                        &&& spec_block_class(bs1[p2]) == spec_block_class(bb)
                        &&& bs1[p2].spec_link().next == Some(a)
                    })
                } by {
                    assert(bs1[a].header == bs0[a].header);
                    if a == bp {
                        // cleared link: no edges
                    } else if ln == Some(a) && lp == Some(a) {
                        // both-sided neighbour: now self-looped
                        assert(bs1[a].spec_link() == FreeNode {
                            prev: Some(a),
                            next: Some(a),
                        });
                    } else if ln == Some(a) {
                        assert(bs1[a].spec_link().prev == lp);
                        assert(bs1[a].spec_link().next == bs0[a].spec_link().next);
                        match bs0[a].spec_link().next {
                            Some(m) => {
                                assert(bs0[m].spec_link().prev == Some(a));
                                assert(m != bp);
                                if lp == Some(m) {
                                    assert(bs1[m].spec_link().prev == bs0[m].spec_link().prev);
                                } else {
                                    assert(bs1[m] == bs0[m]);
                                }
                            },
                            None => (),
                        }
                        match lp {
                            Some(p2) => {
                                assert(p2 != bp);
                                assert(bs1[p2].spec_link().next == ln);
                            },
                            None => (),
                        }
                    } else if lp == Some(a) {
                        assert(bs1[a].spec_link().next == ln);
                        assert(bs1[a].spec_link().prev == bs0[a].spec_link().prev);
                        match bs0[a].spec_link().prev {
                            Some(m) => {
                                assert(bs0[m].spec_link().next == Some(a));
                                assert(m != bp);
                                if ln == Some(m) {
                                    assert(bs1[m].spec_link().next == bs0[m].spec_link().next);
                                } else {
                                    assert(bs1[m] == bs0[m]);
                                }
                            },
                            None => (),
                        }
                        match ln {
                            Some(n2) => {
                                assert(n2 != bp);
                                assert(bs1[n2].spec_link().prev == lp);
                            },
                            None => (),
                        }
                    } else {
                        assert(bs1[a] == bs0[a]);
                        match bs0[a].spec_link().next {
                            Some(m) => {
                                assert(bs0[m].spec_link().prev == Some(a));
                                assert(m != bp);
                                if ln == Some(m) {
                                    assert(lp == Some(a));
                                    assert(false);
                                }
                                if lp == Some(m) {
                                    assert(bs1[m].spec_link().prev == bs0[m].spec_link().prev);
                                } else {
                                    assert(bs1[m] == bs0[m]);
                                }
                            },
                            None => (),
                        }
                        match bs0[a].spec_link().prev {
                            Some(m) => {
                                assert(bs0[m].spec_link().next == Some(a));
                                assert(m != bp);
                                if lp == Some(m) {
                                    assert(ln == Some(a));
                                    assert(false);
                                }
                                if ln == Some(m) {
                                    assert(bs1[m].spec_link().next == bs0[m].spec_link().next);
                                } else {
                                    assert(bs1[m] == bs0[m]);
                                }
                            },
                            None => (),
                        }
                    }
                }
            }

            assert(self.wf_addresses()) by {
                assert forall|a: u64| #[trigger] bs1.contains_key(a) implies a + BLOCK_HEADER_SIZE
                    + bs1[a].header.spec_buffer_size() + BLOCK_HEADER_SIZE + BLOCK_ALIGNOF + 3
                    <= u64::MAX by {
                    assert(bs0.contains_key(a));
                    assert(bs1[a].header == bs0[a].header);
                }
            }
            assert forall|kk: int| 0 <= kk < TOTAL_COUNT implies #[trigger] self.spec_head(kk)
                != Some(bp) by {
                if self.spec_head(kk) == Some(bp) {
                    if was_head && kk == kb {
                        assert(ln == Some(bp));
                        assert(lp == Some(bp));
                        assert(lp.is_none());
                    } else {
                        assert(os.spec_head(kk) == Some(bp));
                        assert(kk == kb);
                        assert(was_head);
                    }
                }
            }
        }
    }

    /// All parts of the state that single-block edits leave alone.
    pub open spec fn same_index_state(self, other: Self) -> bool {
        &&& self.freed_block_map.map@ == other.freed_block_map.map@
        &&& self.fl_bitmap == other.fl_bitmap
        &&& self.sl_bitmap@ == other.sl_bitmap@
        &&& self.areainfo_ptr == other.areainfo_ptr
        &&& self.maximum_memory_size == other.maximum_memory_size
        &&& self.used_memory_size == other.used_memory_size
    }

    /// Record a block's physical predecessor.  Size, flags and buffer
    /// contents stay as they are, so the index is untouched.
    pub fn set_prev_header_of(&mut self, addr: u64, prev: Option<u64>)
        requires
            old(self).wf(),
            old(self).spec_blocks().contains_key(addr),
        ensures
            final(self).wf(),
            final(self).same_index_state(*old(self)),
            forall|kk: int|
                0 <= kk < TOTAL_COUNT ==> #[trigger] final(self).spec_head(kk) == old(
                    self,
                ).spec_head(kk),
            final(self).spec_blocks() == old(self).spec_blocks().insert(
                addr,
                Block {
                    header: BlockHeader {
                        previous_header: prev,
                        stored_size: old(self).spec_blocks()[addr].header.stored_size,
                    },
                    data: old(self).spec_blocks()[addr].data,
                },
            ),
    {
        let mut b = *self.blocks.get(&addr).unwrap();
        match prev {
            Some(p) => b.header.set_previous_header(p),
            None => b.header.reset_previous_block(),
        }
        self.blocks.insert(addr, b);
        proof {
            assert(self.spec_blocks().dom() =~= old(self).spec_blocks().dom());
            self.lemma_wf_after_block_tweak(*old(self), addr);
        }
    }

    /// Set or clear a block's predecessor-free flag.  The buffer size and
    /// the free flag are unchanged, so the block's class is unchanged.
    pub fn set_prev_freed_of(&mut self, addr: u64, is_prev_free: bool)
        requires
            old(self).wf(),
            old(self).spec_blocks().contains_key(addr),
        ensures
            final(self).wf(),
            final(self).same_index_state(*old(self)),
            forall|kk: int|
                0 <= kk < TOTAL_COUNT ==> #[trigger] final(self).spec_head(kk) == old(
                    self,
                ).spec_head(kk),
            final(self).spec_blocks().dom() == old(self).spec_blocks().dom(),
            ({
                let b0 = old(self).spec_blocks()[addr];
                let b1 = final(self).spec_blocks()[addr];
                &&& b1.header.spec_buffer_size() == b0.header.spec_buffer_size()
                &&& b1.header.spec_is_freed() == b0.header.spec_is_freed()
                &&& b1.header.spec_is_prev_freed() == is_prev_free
                &&& b1.header.previous_header == b0.header.previous_header
                &&& b1.data == b0.data
            }),
            forall|a: u64|
                #[trigger] old(self).spec_blocks().contains_key(a) && a != addr ==> final(self).spec_blocks()[a] == old(self).spec_blocks()[a],
    {
        let mut b = *self.blocks.get(&addr).unwrap();
        proof {
            crate::function::lemma_round_down_props(b.header.stored_size as nat);
        }
        b.header.set_previous_freed(is_prev_free);
        self.blocks.insert(addr, b);
        proof {
            assert(self.spec_blocks().dom() =~= old(self).spec_blocks().dom());
            self.lemma_wf_after_block_tweak(*old(self), addr);
        }
    }

    /// A single-key rewrite that keeps the block's free flag, buffer size
    /// and buffer data preserves well-formedness.
    proof fn lemma_wf_after_block_tweak(self, os: Self, addr: u64)
        requires
            os.wf(),
            os.spec_blocks().contains_key(addr),
            self.same_index_state(os),
            self.spec_blocks().dom() == os.spec_blocks().dom(),
            self.spec_blocks()[addr].header.spec_is_freed() == os.spec_blocks()[
                addr
            ].header.spec_is_freed(),
            self.spec_blocks()[addr].header.spec_buffer_size() == os.spec_blocks()[
                addr
            ].header.spec_buffer_size(),
            self.spec_blocks()[addr].data == os.spec_blocks()[addr].data,
            forall|a: u64|
                #[trigger] os.spec_blocks().contains_key(a) && a != addr ==> self.spec_blocks()[a]
                    == os.spec_blocks()[a],
        ensures
            self.wf(),
    {
        let bs0 = os.spec_blocks();
        let bs1 = self.spec_blocks();
        assert forall|a: u64| #[trigger] bs1.contains_key(a) implies {
            &&& bs0.contains_key(a)
            &&& bs1[a].header.spec_is_freed() == bs0[a].header.spec_is_freed()
            &&& bs1[a].header.spec_buffer_size() == bs0[a].header.spec_buffer_size()
            &&& bs1[a].data == bs0[a].data
        } by {
            assert(bs0.contains_key(a));
        }
        assert(self.wf_heads()) by {
            assert forall|kk: int| 0 <= kk < TOTAL_COUNT implies ({
                let hd = #[trigger] self.spec_head(kk);
                hd matches Some(a) ==> {
                    &&& bs1.contains_key(a)
                    &&& bs1[a].header.spec_is_freed()
                    &&& bs1[a].data is Link
                    &&& bs1[a].spec_link().prev.is_none()
                    &&& spec_block_class(bs1[a]) == kk
                }
            }) by {
                assert(self.spec_head(kk) == os.spec_head(kk));
            }
        }
        assert(self.wf_links()) by {
            assert forall|a: u64|
                #[trigger] bs1.contains_key(a) && bs1[a].header.spec_is_freed() implies {
                let bb = bs1[a];
                &&& bb.data is Link
                &&& spec_free_size_ok(bb)
                &&& (bb.spec_link().next matches Some(n2) ==> {
                    &&& bs1.contains_key(n2)
                    &&& bs1[n2].header.spec_is_freed()
                    &&& bs1[n2].data is Link
                    &&& spec_block_class(bs1[n2]) == spec_block_class(bb)
                    &&& bs1[n2].spec_link().prev == Some(a)
                })
                &&& (bb.spec_link().prev matches Some(p2) ==> {
                    &&& bs1.contains_key(p2)
                    &&& bs1[p2].header.spec_is_freed()
                    &&& bs1[p2].data is Link
                    &&& spec_block_class(bs1[p2]) == spec_block_class(bb)
                    &&& bs1[p2].spec_link().next == Some(a)
                })
            } by {
                assert(spec_block_class(bs1[a]) == spec_block_class(bs0[a]));
            }
        }
        assert(self.wf_addresses()) by {
            assert forall|a: u64| #[trigger] bs1.contains_key(a) implies a + BLOCK_HEADER_SIZE
                + bs1[a].header.spec_buffer_size() + BLOCK_HEADER_SIZE + BLOCK_ALIGNOF + 3
                <= u64::MAX by {
                assert(bs0.contains_key(a));
            }
        }
    }

    /// Put a brand-new block at a fresh address.  A free block must carry a
    /// cleared link and a well-formed size.
    pub fn insert_fresh_block(&mut self, addr: u64, block: Block)
        requires
            old(self).wf(),
            !old(self).spec_blocks().contains_key(addr),
            addr + BLOCK_HEADER_SIZE + block.header.spec_buffer_size() + BLOCK_HEADER_SIZE
                + BLOCK_ALIGNOF + 3 <= u64::MAX,
            block.header.spec_is_freed() ==> block.data == BufferData::Link(
                FreeNode { prev: None::<u64>, next: None::<u64> },
            ) && spec_free_size_ok(block),
        ensures
            final(self).wf(),
            final(self).same_index_state(*old(self)),
            forall|kk: int|
                0 <= kk < TOTAL_COUNT ==> #[trigger] final(self).spec_head(kk) == old(
                    self,
                ).spec_head(kk),
            final(self).spec_blocks() == old(self).spec_blocks().insert(addr, block),
            forall|kk: int|
                0 <= kk < TOTAL_COUNT ==> #[trigger] final(self).spec_head(kk) != Some(addr),
    {
        self.blocks.insert(addr, block);
        proof {
            let os = *old(self);
            let bs0 = os.spec_blocks();
            let bs1 = self.spec_blocks();
            assert forall|kk: int| 0 <= kk < TOTAL_COUNT implies #[trigger] self.spec_head(kk)
                != Some(addr) by {
                if os.spec_head(kk) == Some(addr) {
                    assert(bs0.contains_key(addr));
                }
            }
            assert(self.wf_heads()) by {
                assert forall|kk: int| 0 <= kk < TOTAL_COUNT implies ({
                    let hd = #[trigger] self.spec_head(kk);
                    hd matches Some(a) ==> {
                        &&& bs1.contains_key(a)
                        &&& bs1[a].header.spec_is_freed()
                        &&& bs1[a].data is Link
                        &&& bs1[a].spec_link().prev.is_none()
                        &&& spec_block_class(bs1[a]) == kk
                    }
                }) by {
                    assert(self.spec_head(kk) == os.spec_head(kk));
                    match self.spec_head(kk) {
                        Some(a) => {
                            assert(a != addr);
                            assert(bs1[a] == bs0[a]);
                        },
                        None => (),
                    }
                }
            }
            assert(self.wf_links()) by {
                assert forall|a: u64|
                    #[trigger] bs1.contains_key(a) && bs1[a].header.spec_is_freed() implies {
                    let bb = bs1[a];
                    &&& bb.data is Link
                    &&& spec_free_size_ok(bb)
                    &&& (bb.spec_link().next matches Some(n2) ==> {
                        &&& bs1.contains_key(n2)
                        &&& bs1[n2].header.spec_is_freed()
                        &&& bs1[n2].data is Link
                        &&& spec_block_class(bs1[n2]) == spec_block_class(bb)
                        &&& bs1[n2].spec_link().prev == Some(a)
                    })
                    &&& (bb.spec_link().prev matches Some(p2) ==> {
                        &&& bs1.contains_key(p2)
                        &&& bs1[p2].header.spec_is_freed()
                        &&& bs1[p2].data is Link
                        &&& spec_block_class(bs1[p2]) == spec_block_class(bb)
                        &&& bs1[p2].spec_link().next == Some(a)
                    })
                } by {
                    if a != addr {
                        assert(bs1[a] == bs0[a]);
                        match bs0[a].spec_link().next {
                            Some(m) => {
                                assert(bs0.contains_key(m));
                                assert(m != addr);
                                assert(bs1[m] == bs0[m]);
                            },
                            None => (),
                        }
                        match bs0[a].spec_link().prev {
                            Some(m) => {
                                assert(bs0.contains_key(m));
                                assert(m != addr);
                                assert(bs1[m] == bs0[m]);
                            },
                            None => (),
                        }
                    }
                }
            }
            assert(self.wf_addresses()) by {
                assert forall|a: u64| #[trigger] bs1.contains_key(a) implies a + BLOCK_HEADER_SIZE
                    + bs1[a].header.spec_buffer_size() + BLOCK_HEADER_SIZE + BLOCK_ALIGNOF + 3
                    <= u64::MAX by {
                    if a != addr {
                        assert(bs0.contains_key(a));
                    }
                }
            }
        }
    }

    /// Drop a block from the table.  A free block must be fully unlinked:
    /// cleared link and not named by any class head.
    pub fn remove_block(&mut self, addr: u64)
        requires
            old(self).wf(),
            old(self).spec_blocks().contains_key(addr),
            old(self).spec_blocks()[addr].header.spec_is_freed() ==> {
                &&& old(self).spec_blocks()[addr].data == BufferData::Link(
                    FreeNode { prev: None::<u64>, next: None::<u64> },
                )
                &&& forall|kk: int|
                    0 <= kk < TOTAL_COUNT ==> #[trigger] old(self).spec_head(kk) != Some(addr)
            },
        ensures
            final(self).wf(),
            final(self).same_index_state(*old(self)),
            forall|kk: int|
                0 <= kk < TOTAL_COUNT ==> #[trigger] final(self).spec_head(kk) == old(
                    self,
                ).spec_head(kk),
            final(self).spec_blocks() == old(self).spec_blocks().remove(addr),
    {
        self.blocks.remove(&addr);
        proof {
            let os = *old(self);
            let bs0 = os.spec_blocks();
            let bs1 = self.spec_blocks();
            // nothing references the removed block
            assert forall|c: u64|
                bs0.contains_key(c) && bs0[c].header.spec_is_freed() implies {
                &&& bs0[c].spec_link().next != Some(addr)
                &&& bs0[c].spec_link().prev != Some(addr)
            } by {
                if bs0[c].spec_link().next == Some(addr) {
                    assert(bs0[addr].header.spec_is_freed());
                    assert(bs0[addr].spec_link().prev == Some(c));
                }
                if bs0[c].spec_link().prev == Some(addr) {
                    assert(bs0[addr].header.spec_is_freed());
                    assert(bs0[addr].spec_link().next == Some(c));
                }
            }
            assert(self.wf_heads()) by {
                assert forall|kk: int| 0 <= kk < TOTAL_COUNT implies ({
                    let hd = #[trigger] self.spec_head(kk);
                    hd matches Some(a) ==> {
                        &&& bs1.contains_key(a)
                        &&& bs1[a].header.spec_is_freed()
                        &&& bs1[a].data is Link
                        &&& bs1[a].spec_link().prev.is_none()
                        &&& spec_block_class(bs1[a]) == kk
                    }
                }) by {
                    assert(self.spec_head(kk) == os.spec_head(kk));
                    match self.spec_head(kk) {
                        Some(a) => {
                            if a == addr {
                                assert(bs0[addr].header.spec_is_freed());
                                assert(os.spec_head(kk) != Some(addr));
                            }
                            assert(bs1[a] == bs0[a]);
                        },
                        None => (),
                    }
                }
            }
            assert(self.wf_links()) by {
                assert forall|a: u64|
                    #[trigger] bs1.contains_key(a) && bs1[a].header.spec_is_freed() implies {
                    let bb = bs1[a];
                    &&& bb.data is Link
                    &&& spec_free_size_ok(bb)
                    &&& (bb.spec_link().next matches Some(n2) ==> {
                        &&& bs1.contains_key(n2)
                        &&& bs1[n2].header.spec_is_freed()
                        &&& bs1[n2].data is Link
                        &&& spec_block_class(bs1[n2]) == spec_block_class(bb)
                        &&& bs1[n2].spec_link().prev == Some(a)
                    })
                    &&& (bb.spec_link().prev matches Some(p2) ==> {
                        &&& bs1.contains_key(p2)
                        &&& bs1[p2].header.spec_is_freed()
                        &&& bs1[p2].data is Link
                        &&& spec_block_class(bs1[p2]) == spec_block_class(bb)
                        &&& bs1[p2].spec_link().next == Some(a)
                    })
                } by {
                    assert(bs1[a] == bs0[a]);
                    match bs0[a].spec_link().next {
                        Some(m) => {
                            assert(m != addr);
                            assert(bs1[m] == bs0[m]);
                        },
                        None => (),
                    }
                    match bs0[a].spec_link().prev {
                        Some(m) => {
                            assert(m != addr);
                            assert(bs1[m] == bs0[m]);
                        },
                        None => (),
                    }
                }
            }
            assert(self.wf_addresses()) by {
                assert forall|a: u64| #[trigger] bs1.contains_key(a) implies a + BLOCK_HEADER_SIZE
                    + bs1[a].header.spec_buffer_size() + BLOCK_HEADER_SIZE + BLOCK_ALIGNOF + 3
                    <= u64::MAX by {
                    assert(bs0.contains_key(a));
                }
            }
        }
    }

    /// Rewrite a block's buffer size.  A free block must be fully unlinked;
    /// its class simply changes with its size.
    pub fn resize_block(&mut self, addr: u64, new_size: u64)
        requires
            old(self).wf(),
            old(self).spec_blocks().contains_key(addr),
            spec_is_aligned(new_size as nat),
            MINIMUM_BLOCK_SIZE <= new_size < CLASS_SIZE_LIMIT,
            addr + BLOCK_HEADER_SIZE + new_size + BLOCK_HEADER_SIZE + BLOCK_ALIGNOF + 3
                <= u64::MAX,
            old(self).spec_blocks()[addr].header.spec_is_freed() ==> {
                &&& old(self).spec_blocks()[addr].data == BufferData::Link(
                    FreeNode { prev: None::<u64>, next: None::<u64> },
                )
                &&& forall|kk: int|
                    0 <= kk < TOTAL_COUNT ==> #[trigger] old(self).spec_head(kk) != Some(addr)
            },
        ensures
            final(self).wf(),
            final(self).same_index_state(*old(self)),
            forall|kk: int|
                0 <= kk < TOTAL_COUNT ==> #[trigger] final(self).spec_head(kk) == old(
                    self,
                ).spec_head(kk),
            final(self).spec_blocks().dom() == old(self).spec_blocks().dom(),
            ({
                let b0 = old(self).spec_blocks()[addr];
                let b1 = final(self).spec_blocks()[addr];
                &&& b1.header.spec_buffer_size() == new_size
                &&& b1.header.spec_is_freed() == b0.header.spec_is_freed()
                &&& b1.header.spec_is_prev_freed() == b0.header.spec_is_prev_freed()
                &&& b1.header.previous_header == b0.header.previous_header
                &&& b1.data == b0.data
            }),
            forall|a: u64|
                #[trigger] old(self).spec_blocks().contains_key(a) && a != addr ==> final(self).spec_blocks()[a] == old(self).spec_blocks()[a],
            forall|kk: int|
                0 <= kk < TOTAL_COUNT && old(self).spec_head(kk) != Some(addr)
                    ==> #[trigger] final(self).spec_head(kk) != Some(addr),
    {
        let mut b = *self.blocks.get(&addr).unwrap();
        b.header.set_buffer_size(new_size);
        self.blocks.insert(addr, b);
        proof {
            assert(self.spec_blocks().dom() =~= old(self).spec_blocks().dom());
            let os = *old(self);
            let bs0 = os.spec_blocks();
            let bs1 = self.spec_blocks();
            // nothing references the resized block when it is free
            assert forall|c: u64|
                bs0.contains_key(c) && bs0[c].header.spec_is_freed() implies {
                &&& bs0[c].spec_link().next != Some(addr)
                &&& bs0[c].spec_link().prev != Some(addr)
            } by {
                if bs0[c].spec_link().next == Some(addr) {
                    assert(bs0[addr].header.spec_is_freed());
                    assert(bs0[addr].spec_link().prev == Some(c));
                }
                if bs0[c].spec_link().prev == Some(addr) {
                    assert(bs0[addr].header.spec_is_freed());
                    assert(bs0[addr].spec_link().next == Some(c));
                }
            }
            assert(self.wf_heads()) by {
                assert forall|kk: int| 0 <= kk < TOTAL_COUNT implies ({
                    let hd = #[trigger] self.spec_head(kk);
                    hd matches Some(a) ==> {
                        &&& bs1.contains_key(a)
                        &&& bs1[a].header.spec_is_freed()
                        &&& bs1[a].data is Link
                        &&& bs1[a].spec_link().prev.is_none()
                        &&& spec_block_class(bs1[a]) == kk
                    }
                }) by {
                    assert(self.spec_head(kk) == os.spec_head(kk));
                    match self.spec_head(kk) {
                        Some(a) => {
                            if a == addr {
                                assert(bs0[addr].header.spec_is_freed());
                                assert(os.spec_head(kk) != Some(addr));
                            }
                            assert(bs1[a] == bs0[a]);
                        },
                        None => (),
                    }
                }
            }
            assert(self.wf_links()) by {
                assert forall|a: u64|
                    #[trigger] bs1.contains_key(a) && bs1[a].header.spec_is_freed() implies {
                    let bb = bs1[a];
                    &&& bb.data is Link
                    &&& spec_free_size_ok(bb)
                    &&& (bb.spec_link().next matches Some(n2) ==> {
                        &&& bs1.contains_key(n2)
                        &&& bs1[n2].header.spec_is_freed()
                        &&& bs1[n2].data is Link
                        &&& spec_block_class(bs1[n2]) == spec_block_class(bb)
                        &&& bs1[n2].spec_link().prev == Some(a)
                    })
                    &&& (bb.spec_link().prev matches Some(p2) ==> {
                        &&& bs1.contains_key(p2)
                        &&& bs1[p2].header.spec_is_freed()
                        &&& bs1[p2].data is Link
                        &&& spec_block_class(bs1[p2]) == spec_block_class(bb)
                        &&& bs1[p2].spec_link().next == Some(a)
                    })
                } by {
                    if a != addr {
                        assert(bs1[a] == bs0[a]);
                        match bs0[a].spec_link().next {
                            Some(m) => {
                                assert(m != addr);
                                assert(bs1[m] == bs0[m]);
                            },
                            None => (),
                        }
                        match bs0[a].spec_link().prev {
                            Some(m) => {
                                assert(m != addr);
                                assert(bs1[m] == bs0[m]);
                            },
                            None => (),
                        }
                    }
                }
            }
            assert(self.wf_addresses()) by {
                assert forall|a: u64| #[trigger] bs1.contains_key(a) implies a + BLOCK_HEADER_SIZE
                    + bs1[a].header.spec_buffer_size() + BLOCK_HEADER_SIZE + BLOCK_ALIGNOF + 3
                    <= u64::MAX by {
                    assert(bs0.contains_key(a));
                    if a != addr {
                        assert(bs1[a] == bs0[a]);
                    }
                }
            }
        }
    }

    /// Flag an allocated block free and overlay a cleared link on its
    /// buffer.  The block becomes a floating free block, in no list yet.
    pub fn set_freed_floating(&mut self, addr: u64)
        requires
            old(self).wf(),
            old(self).spec_blocks().contains_key(addr),
            !old(self).spec_blocks()[addr].header.spec_is_freed(),
            spec_is_aligned(old(self).spec_blocks()[addr].header.spec_buffer_size()),
            MINIMUM_BLOCK_SIZE <= old(self).spec_blocks()[addr].header.spec_buffer_size()
                < CLASS_SIZE_LIMIT,
        ensures
            final(self).wf(),
            final(self).same_index_state(*old(self)),
            forall|kk: int|
                0 <= kk < TOTAL_COUNT ==> #[trigger] final(self).spec_head(kk) == old(
                    self,
                ).spec_head(kk),
            final(self).spec_blocks() == old(self).spec_blocks().insert(
                addr,
                final(self).spec_blocks()[addr],
            ),
            final(self).spec_blocks().dom() == old(self).spec_blocks().dom(),
            ({
                let b0 = old(self).spec_blocks()[addr];
                let b1 = final(self).spec_blocks()[addr];
                &&& b1.header.spec_buffer_size() == b0.header.spec_buffer_size()
                &&& b1.header.spec_is_freed()
                &&& b1.header.spec_is_prev_freed() == b0.header.spec_is_prev_freed()
                &&& b1.header.previous_header == b0.header.previous_header
                &&& b1.data == BufferData::Link(FreeNode { prev: None::<u64>, next: None::<u64> })
            }),
            forall|a: u64|
                #[trigger] old(self).spec_blocks().contains_key(a) && a != addr ==> final(self).spec_blocks()[a] == old(self).spec_blocks()[a],
            forall|kk: int|
                0 <= kk < TOTAL_COUNT ==> #[trigger] final(self).spec_head(kk) != Some(addr),
    {
        let mut b = *self.blocks.get(&addr).unwrap();
        proof {
            crate::function::lemma_round_down_props(b.header.stored_size as nat);
        }
        b.header.set_freed(true);
        b.data = BufferData::Link(FreeNode { prev: None, next: None });
        self.blocks.insert(addr, b);
        proof {
            assert(self.spec_blocks().dom() =~= old(self).spec_blocks().dom());
            let os = *old(self);
            let bs0 = os.spec_blocks();
            let bs1 = self.spec_blocks();
            // nothing references a block that was not free
            assert forall|c: u64|
                bs0.contains_key(c) && bs0[c].header.spec_is_freed() implies {
                &&& bs0[c].spec_link().next != Some(addr)
                &&& bs0[c].spec_link().prev != Some(addr)
            } by {
                if bs0[c].spec_link().next == Some(addr) {
                    assert(bs0[addr].header.spec_is_freed());
                }
                if bs0[c].spec_link().prev == Some(addr) {
                    assert(bs0[addr].header.spec_is_freed());
                }
            }
            assert forall|kk: int| 0 <= kk < TOTAL_COUNT implies #[trigger] self.spec_head(kk)
                != Some(addr) by {
                if os.spec_head(kk) == Some(addr) {
                    assert(bs0[addr].header.spec_is_freed());
                }
            }
            assert(self.wf_heads()) by {
                assert forall|kk: int| 0 <= kk < TOTAL_COUNT implies ({
                    let hd = #[trigger] self.spec_head(kk);
                    hd matches Some(a) ==> {
                        &&& bs1.contains_key(a)
                        &&& bs1[a].header.spec_is_freed()
                        &&& bs1[a].data is Link
                        &&& bs1[a].spec_link().prev.is_none()
                        &&& spec_block_class(bs1[a]) == kk
                    }
                }) by {
                    assert(self.spec_head(kk) == os.spec_head(kk));
                    match self.spec_head(kk) {
                        Some(a) => {
                            assert(a != addr);
                            assert(bs1[a] == bs0[a]);
                        },
                        None => (),
                    }
                }
            }
            assert(self.wf_links()) by {
                assert forall|a: u64|
                    #[trigger] bs1.contains_key(a) && bs1[a].header.spec_is_freed() implies {
                    let bb = bs1[a];
                    &&& bb.data is Link
                    &&& spec_free_size_ok(bb)
                    &&& (bb.spec_link().next matches Some(n2) ==> {
                        &&& bs1.contains_key(n2)
                        &&& bs1[n2].header.spec_is_freed()
                        &&& bs1[n2].data is Link
                        &&& spec_block_class(bs1[n2]) == spec_block_class(bb)
                        &&& bs1[n2].spec_link().prev == Some(a)
                    })
                    &&& (bb.spec_link().prev matches Some(p2) ==> {
                        &&& bs1.contains_key(p2)
                        &&& bs1[p2].header.spec_is_freed()
                        &&& bs1[p2].data is Link
                        &&& spec_block_class(bs1[p2]) == spec_block_class(bb)
                        &&& bs1[p2].spec_link().next == Some(a)
                    })
                } by {
                    if a != addr {
                        assert(bs1[a] == bs0[a]);
                        match bs0[a].spec_link().next {
                            Some(m) => {
                                assert(m != addr);
                                assert(bs1[m] == bs0[m]);
                            },
                            None => (),
                        }
                        match bs0[a].spec_link().prev {
                            Some(m) => {
                                assert(m != addr);
                                assert(bs1[m] == bs0[m]);
                            },
                            None => (),
                        }
                    }
                }
            }
            assert(self.wf_addresses()) by {
                assert forall|a: u64| #[trigger] bs1.contains_key(a) implies a + BLOCK_HEADER_SIZE
                    + bs1[a].header.spec_buffer_size() + BLOCK_HEADER_SIZE + BLOCK_ALIGNOF + 3
                    <= u64::MAX by {
                    assert(bs0.contains_key(a));
                    if a != addr {
                        assert(bs1[a] == bs0[a]);
                    }
                }
            }
        }
    }

    /// Flag a floating free block (cleared link, not in any list) as
    /// allocated; its buffer becomes opaque user memory.
    pub fn set_allocated(&mut self, addr: u64)
        requires
            old(self).wf(),
            old(self).spec_blocks().contains_key(addr),
            old(self).spec_blocks()[addr].header.spec_is_freed(),
            old(self).spec_blocks()[addr].data == BufferData::Link(
                FreeNode { prev: None::<u64>, next: None::<u64> },
            ),
            forall|kk: int|
                0 <= kk < TOTAL_COUNT ==> #[trigger] old(self).spec_head(kk) != Some(addr),
        ensures
            final(self).wf(),
            final(self).same_index_state(*old(self)),
            forall|kk: int|
                0 <= kk < TOTAL_COUNT ==> #[trigger] final(self).spec_head(kk) == old(
                    self,
                ).spec_head(kk),
            final(self).spec_blocks().dom() == old(self).spec_blocks().dom(),
            ({
                let b0 = old(self).spec_blocks()[addr];
                let b1 = final(self).spec_blocks()[addr];
                &&& b1.header.spec_buffer_size() == b0.header.spec_buffer_size()
                &&& !b1.header.spec_is_freed()
                &&& b1.header.spec_is_prev_freed() == b0.header.spec_is_prev_freed()
                &&& b1.header.previous_header == b0.header.previous_header
                &&& b1.data == BufferData::User
            }),
            forall|a: u64|
                #[trigger] old(self).spec_blocks().contains_key(a) && a != addr ==> final(self).spec_blocks()[a] == old(self).spec_blocks()[a],
    {
        let mut b = *self.blocks.get(&addr).unwrap();
        proof {
            crate::function::lemma_round_down_props(b.header.stored_size as nat);
        }
        b.header.set_freed(false);
        b.data = BufferData::User;
        self.blocks.insert(addr, b);
        proof {
            assert(self.spec_blocks().dom() =~= old(self).spec_blocks().dom());
            let os = *old(self);
            let bs0 = os.spec_blocks();
            let bs1 = self.spec_blocks();
            // nothing references the floating block
            assert forall|c: u64|
                bs0.contains_key(c) && bs0[c].header.spec_is_freed() implies {
                &&& bs0[c].spec_link().next != Some(addr)
                &&& bs0[c].spec_link().prev != Some(addr)
            } by {
                if bs0[c].spec_link().next == Some(addr) {
                    assert(bs0[addr].spec_link().prev == Some(c));
                }
                if bs0[c].spec_link().prev == Some(addr) {
                    assert(bs0[addr].spec_link().next == Some(c));
                }
            }
            assert(self.wf_heads()) by {
                assert forall|kk: int| 0 <= kk < TOTAL_COUNT implies ({
                    let hd = #[trigger] self.spec_head(kk);
                    hd matches Some(a) ==> {
                        &&& bs1.contains_key(a)
                        &&& bs1[a].header.spec_is_freed()
                        &&& bs1[a].data is Link
                        &&& bs1[a].spec_link().prev.is_none()
                        &&& spec_block_class(bs1[a]) == kk
                    }
                }) by {
                    assert(self.spec_head(kk) == os.spec_head(kk));
                    match self.spec_head(kk) {
                        Some(a) => {
                            assert(a != addr);
                            assert(bs1[a] == bs0[a]);
                        },
                        None => (),
                    }
                }
            }
            assert(self.wf_links()) by {
                assert forall|a: u64|
                    #[trigger] bs1.contains_key(a) && bs1[a].header.spec_is_freed() implies {
                    let bb = bs1[a];
                    &&& bb.data is Link
                    &&& spec_free_size_ok(bb)
                    &&& (bb.spec_link().next matches Some(n2) ==> {
                        &&& bs1.contains_key(n2)
                        &&& bs1[n2].header.spec_is_freed()
                        &&& bs1[n2].data is Link
                        &&& spec_block_class(bs1[n2]) == spec_block_class(bb)
                        &&& bs1[n2].spec_link().prev == Some(a)
                    })
                    &&& (bb.spec_link().prev matches Some(p2) ==> {
                        &&& bs1.contains_key(p2)
                        &&& bs1[p2].header.spec_is_freed()
                        &&& bs1[p2].data is Link
                        &&& spec_block_class(bs1[p2]) == spec_block_class(bb)
                        &&& bs1[p2].spec_link().next == Some(a)
                    })
                } by {
                    assert(a != addr);
                    assert(bs1[a] == bs0[a]);
                    match bs0[a].spec_link().next {
                        Some(m) => {
                            assert(m != addr);
                            assert(bs1[m] == bs0[m]);
                        },
                        None => (),
                    }
                    match bs0[a].spec_link().prev {
                        Some(m) => {
                            assert(m != addr);
                            assert(bs1[m] == bs0[m]);
                        },
                        None => (),
                    }
                }
            }
            assert(self.wf_addresses()) by {
                assert forall|a: u64| #[trigger] bs1.contains_key(a) implies a + BLOCK_HEADER_SIZE
                    + bs1[a].header.spec_buffer_size() + BLOCK_HEADER_SIZE + BLOCK_ALIGNOF + 3
                    <= u64::MAX by {
                    assert(bs0.contains_key(a));
                    if a != addr {
                        assert(bs1[a] == bs0[a]);
                    }
                }
            }
        }
    }

    /// Write an area record into a non-free block's buffer.
    pub fn set_area_data(&mut self, addr: u64, info: AreaInfo)
        requires
            old(self).wf(),
            old(self).spec_blocks().contains_key(addr),
            !old(self).spec_blocks()[addr].header.spec_is_freed(),
        ensures
            final(self).wf(),
            final(self).same_index_state(*old(self)),
            forall|kk: int|
                0 <= kk < TOTAL_COUNT ==> #[trigger] final(self).spec_head(kk) == old(
                    self,
                ).spec_head(kk),
            final(self).spec_blocks() == old(self).spec_blocks().insert(
                addr,
                Block { header: old(self).spec_blocks()[addr].header, data: BufferData::Area(info) },
            ),
    {
        let mut b = *self.blocks.get(&addr).unwrap();
        b.data = BufferData::Area(info);
        self.blocks.insert(addr, b);
        proof {
            let os = *old(self);
            let bs0 = os.spec_blocks();
            let bs1 = self.spec_blocks();
            assert forall|c: u64|
                bs0.contains_key(c) && bs0[c].header.spec_is_freed() implies {
                &&& bs0[c].spec_link().next != Some(addr)
                &&& bs0[c].spec_link().prev != Some(addr)
            } by {
                if bs0[c].spec_link().next == Some(addr) {
                    assert(bs0[addr].header.spec_is_freed());
                }
                if bs0[c].spec_link().prev == Some(addr) {
                    assert(bs0[addr].header.spec_is_freed());
                }
            }
            assert(self.wf_heads()) by {
                assert forall|kk: int| 0 <= kk < TOTAL_COUNT implies ({
                    let hd = #[trigger] self.spec_head(kk);
                    hd matches Some(a) ==> {
                        &&& bs1.contains_key(a)
                        &&& bs1[a].header.spec_is_freed()
                        &&& bs1[a].data is Link
                        &&& bs1[a].spec_link().prev.is_none()
                        &&& spec_block_class(bs1[a]) == kk
                    }
                }) by {
                    assert(self.spec_head(kk) == os.spec_head(kk));
                    match self.spec_head(kk) {
                        Some(a) => {
                            assert(a != addr);
                            assert(bs1[a] == bs0[a]);
                        },
                        None => (),
                    }
                }
            }
            assert(self.wf_links()) by {
                assert forall|a: u64|
                    #[trigger] bs1.contains_key(a) && bs1[a].header.spec_is_freed() implies {
                    let bb = bs1[a];
                    &&& bb.data is Link
                    &&& spec_free_size_ok(bb)
                    &&& (bb.spec_link().next matches Some(n2) ==> {
                        &&& bs1.contains_key(n2)
                        &&& bs1[n2].header.spec_is_freed()
                        &&& bs1[n2].data is Link
                        &&& spec_block_class(bs1[n2]) == spec_block_class(bb)
                        &&& bs1[n2].spec_link().prev == Some(a)
                    })
                    &&& (bb.spec_link().prev matches Some(p2) ==> {
                        &&& bs1.contains_key(p2)
                        &&& bs1[p2].header.spec_is_freed()
                        &&& bs1[p2].data is Link
                        &&& spec_block_class(bs1[p2]) == spec_block_class(bb)
                        &&& bs1[p2].spec_link().next == Some(a)
                    })
                } by {
                    assert(a != addr);
                    assert(bs1[a] == bs0[a]);
                    match bs0[a].spec_link().next {
                        Some(m) => {
                            assert(m != addr);
                            assert(bs1[m] == bs0[m]);
                        },
                        None => (),
                    }
                    match bs0[a].spec_link().prev {
                        Some(m) => {
                            assert(m != addr);
                            assert(bs1[m] == bs0[m]);
                        },
                        None => (),
                    }
                }
            }
            assert(self.wf_addresses()) by {
                assert forall|a: u64| #[trigger] bs1.contains_key(a) implies a + BLOCK_HEADER_SIZE
                    + bs1[a].header.spec_buffer_size() + BLOCK_HEADER_SIZE + BLOCK_ALIGNOF + 3
                    <= u64::MAX by {
                    assert(bs0.contains_key(a));
                    if a != addr {
                        assert(bs1[a] == bs0[a]);
                    }
                }
            }
        }
    }

    /// Well-formedness depends only on the head table, the bitmaps and the
    /// block table; the counters and the area pointer play no part.
    pub proof fn lemma_wf_core(self, os: Self)
        requires
            os.wf(),
            self.freed_block_map.map@ == os.freed_block_map.map@,
            self.fl_bitmap == os.fl_bitmap,
            self.sl_bitmap@ == os.sl_bitmap@,
            self.spec_blocks() == os.spec_blocks(),
        ensures
            self.wf(),
    {
        let bs0 = os.spec_blocks();
        let bs1 = self.spec_blocks();
        assert(self.wf_bitmaps()) by {
            assert forall|f: int, sx: u32|
                0 <= f < FIRST_INDEX_REAL && sx < 32 implies (#[trigger] u32_bit(
                self.sl_bitmap@[f],
                sx,
            )) == self.spec_head(f * 32 + sx).is_some() by {
                assert(self.sl_bitmap@[f] == os.sl_bitmap@[f]);
                assert(self.spec_head(f * 32 + sx) == os.spec_head(f * 32 + sx));
            }
            assert forall|f: u32| f < FIRST_INDEX_REAL implies (#[trigger] u32_bit(
                self.fl_bitmap,
                f,
            )) == (self.sl_bitmap@[f as int] != 0) by {
                assert(u32_bit(os.fl_bitmap, f) == (os.sl_bitmap@[f as int] != 0));
            }
            assert forall|f: u32| FIRST_INDEX_REAL <= f < 32 implies !(#[trigger] u32_bit(
                self.fl_bitmap,
                f,
            )) by {
                assert(!u32_bit(os.fl_bitmap, f));
            }
        }
        assert(self.wf_heads()) by {
            assert forall|kk: int| 0 <= kk < TOTAL_COUNT implies ({
                let hd = #[trigger] self.spec_head(kk);
                hd matches Some(a) ==> {
                    &&& bs1.contains_key(a)
                    &&& bs1[a].header.spec_is_freed()
                    &&& bs1[a].data is Link
                    &&& bs1[a].spec_link().prev.is_none()
                    &&& spec_block_class(bs1[a]) == kk
                }
            }) by {
                assert(self.spec_head(kk) == os.spec_head(kk));
            }
        }
        assert(self.wf_links());
        assert(self.wf_addresses());
    }

    /// Replace the head of the area list.
    pub fn set_areainfo_ptr(&mut self, ptr: Option<u64>)
        requires
            old(self).wf(),
        ensures
            final(self).wf(),
            final(self).areainfo_ptr == ptr,
            final(self).spec_blocks() == old(self).spec_blocks(),
            final(self).freed_block_map.map@ == old(self).freed_block_map.map@,
            forall|kk: int|
                0 <= kk < TOTAL_COUNT ==> #[trigger] final(self).spec_head(kk) == old(
                    self,
                ).spec_head(kk),

            final(self).fl_bitmap == old(self).fl_bitmap,
            final(self).sl_bitmap@ == old(self).sl_bitmap@,
            final(self).maximum_memory_size == old(self).maximum_memory_size,
            final(self).used_memory_size == old(self).used_memory_size,
    {
        self.areainfo_ptr = ptr;
        proof {
            self.lemma_wf_core(*old(self));
        }
    }

    /// Account `bytes` more of the pool as in use, and as capacity when
    /// `grow_maximum` is set.  The counters saturate rather than wrap.
    pub fn account_grow(&mut self, bytes: u64, grow_maximum: bool)
        requires
            old(self).wf(),
        ensures
            final(self).wf(),
            final(self).spec_blocks() == old(self).spec_blocks(),
            final(self).freed_block_map.map@ == old(self).freed_block_map.map@,
            forall|kk: int|
                0 <= kk < TOTAL_COUNT ==> #[trigger] final(self).spec_head(kk) == old(
                    self,
                ).spec_head(kk),

            final(self).fl_bitmap == old(self).fl_bitmap,
            final(self).sl_bitmap@ == old(self).sl_bitmap@,
            final(self).areainfo_ptr == old(self).areainfo_ptr,
            final(self).used_memory_size == if old(self).used_memory_size + bytes <= u64::MAX {
                (old(self).used_memory_size + bytes) as u64
            } else {
                u64::MAX
            },
            final(self).maximum_memory_size == if grow_maximum {
                if old(self).maximum_memory_size + bytes <= u64::MAX {
                    (old(self).maximum_memory_size + bytes) as u64
                } else {
                    u64::MAX
                }
            } else {
                old(self).maximum_memory_size
            },
    {
        self.used_memory_size = if self.used_memory_size <= u64::MAX - bytes {
            self.used_memory_size + bytes
        } else {
            u64::MAX
        };
        if grow_maximum {
            self.maximum_memory_size = if self.maximum_memory_size <= u64::MAX - bytes {
                self.maximum_memory_size + bytes
            } else {
                u64::MAX
            };
        }
        proof {
            self.lemma_wf_core(*old(self));
        }
    }

    /// Account `bytes` of the pool as no longer in use; the counter
    /// saturates at zero rather than wrapping.
    pub fn account_shrink(&mut self, bytes: u64)
        requires
            old(self).wf(),
        ensures
            final(self).wf(),
            final(self).spec_blocks() == old(self).spec_blocks(),
            final(self).freed_block_map.map@ == old(self).freed_block_map.map@,
            forall|kk: int|
                0 <= kk < TOTAL_COUNT ==> #[trigger] final(self).spec_head(kk) == old(
                    self,
                ).spec_head(kk),

            final(self).fl_bitmap == old(self).fl_bitmap,
            final(self).sl_bitmap@ == old(self).sl_bitmap@,
            final(self).areainfo_ptr == old(self).areainfo_ptr,
            final(self).maximum_memory_size == old(self).maximum_memory_size,
            final(self).used_memory_size == if old(self).used_memory_size >= bytes {
                (old(self).used_memory_size - bytes) as u64
            } else {
                0
            },
    {
        self.used_memory_size = if self.used_memory_size >= bytes {
            self.used_memory_size - bytes
        } else {
            0
        };
        proof {
            self.lemma_wf_core(*old(self));
        }
    }
}


/// The block reached by following `n` links from the head of class `k`.
pub open spec fn spec_nth_in_class_list(h: TLSFRawHeader, k: int, n: nat) -> Option<u64>
    decreases n,
{
    if n == 0 {
        h.spec_head(k)
    } else {
        match spec_nth_in_class_list(h, k, (n - 1) as nat) {
            Some(a) => if h.spec_blocks().contains_key(a) && h.spec_blocks()[
                a
            ].header.spec_is_freed() && h.spec_blocks()[a].data is Link {
                h.spec_blocks()[a].spec_link().next
            } else {
                None
            },
            None => None,
        }
    }
}

/// In a well-formed index, every block reachable along the list of class
/// `k` sits in the block table, is free, and is of class `k`: a class list
/// holds exactly blocks of its own class.
pub proof fn lemma_class_list_members(h: TLSFRawHeader, k: int, n: nat)
    requires
        h.wf(),
        0 <= k < TOTAL_COUNT,
    ensures
        spec_nth_in_class_list(h, k, n) matches Some(a) ==> {
            &&& h.spec_blocks().contains_key(a)
            &&& h.spec_blocks()[a].header.spec_is_freed()
            &&& h.spec_blocks()[a].data is Link
            &&& spec_block_class(h.spec_blocks()[a]) == k
        },
    decreases n,
{
    if n == 0 {
    } else {
        lemma_class_list_members(h, k, (n - 1) as nat);
    }
}

} // verus!
