//! Unit tests for block headers, the class head table, and the raw index.

use tlsf::block::{AreaInfo, BlockHeader, FreeNode};
use tlsf::index::{FreeNodeHeaderMap, TLSFRawHeader};
use tlsf::pool::RootPool;

#[test]
fn free_node_starts_unlinked() {
    let n = FreeNode::new();
    assert!(n.prev.is_none());
    assert!(n.next.is_none());
}

#[test]
fn header_packs_size_and_flags() {
    let h = BlockHeader::new(48, true, false, Some(0x1000));
    assert_eq!(h.buffer_size(), 48);
    assert_eq!(h.buffer_size_with_header(), 64);
    assert!(h.is_freed());
    assert!(!h.is_prev_freed());
    assert_eq!(h.previous_header, Some(0x1000));

    let stored = BlockHeader::calculate_stored_size(48, true, true);
    assert_eq!(stored, 48 + 3);
}

#[test]
fn header_setters_preserve_the_rest() {
    let mut h = BlockHeader::new(64, false, true, None);
    h.set_freed(true);
    assert!(h.is_freed());
    assert!(h.is_prev_freed());
    assert_eq!(h.buffer_size(), 64);
    h.set_previous_freed(false);
    assert!(h.is_freed());
    assert!(!h.is_prev_freed());
    h.set_buffer_size(128);
    assert_eq!(h.buffer_size(), 128);
    assert!(h.is_freed());
    h.set_previous_header(0x40);
    assert_eq!(h.previous_header, Some(0x40));
    h.reset_previous_block();
    assert_eq!(h.previous_header, None);
}

#[test]
fn start_block_carries_the_area_record_size() {
    let h = BlockHeader::new_start_block();
    assert_eq!(h.buffer_size(), AreaInfo::get_aligned_size());
    assert!(!h.is_freed());
    assert_eq!(BlockHeader::get_aligned_size(), 16);
}

#[test]
fn head_table_set_get_reset() {
    let mut m = FreeNodeHeaderMap::new();
    assert_eq!(m.get_item((1, 20)), Some(None));
    m.set_item((1, 20), 0xbeef0);
    assert_eq!(m.get_item((1, 20)), Some(Some(0xbeef0)));
    assert_eq!(m.get_item((1, 19)), Some(None));
    m.reset_item((1, 20));
    assert_eq!(m.get_item((1, 20)), Some(None));
}

#[test]
fn empty_index_finds_nothing() {
    let header = TLSFRawHeader::new();
    assert_eq!(header.fl_bitmap, 0);
    assert_eq!(header.maximum_memory_size, 0);
    assert_eq!(header.used_memory_size, 0);
    assert!(header.find_suitable_indices(64).is_none());
    assert_eq!(TLSFRawHeader::get_aligned_size(), 7840);
}

#[test]
fn exhausted_pool_returns_nothing() {
    // the smallest possible pool holds exactly one minimum block
    let mut pool = RootPool::from(1 << 32, 7920).unwrap();
    let p = pool.allocate(16).expect("one block fits");
    assert!(pool.allocate(16).is_none());
    pool.dealloc(p);
    assert!(pool.allocate(16).is_some());
}
