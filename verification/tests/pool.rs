//! Scenario tests for the pool: allocation, freeing, coalescing, growth,
//! and an instrumented walk that checks the structural invariants.

use std::collections::HashSet;
use tlsf::block::{Block, BufferData};
use tlsf::consts::{BLOCK_HEADER_SIZE, GLOBAL_HEADER_SIZE, TOTAL_COUNT};
use tlsf::function::{
    calculate_allocation_size, calculate_index, calculate_mapping_indices, next_chunk_size,
    round_down_block,
};
use tlsf::pool::{AllocStep, DynamicPool, RootPool, MINIMUM_ROOT_SIZE};

const BASE: u64 = 1 << 32;
const TWO_MIB: u64 = 2097152;

/// Walk one area's physical block list and every class list, checking:
/// blocks tile the area exactly (I1); each class list holds exactly free
/// blocks of its class and the bitmaps agree with the lists (I2); the
/// predecessor-free flag matches the predecessor and no two adjacent
/// blocks are both free (I3); the usage counters match the block walk
/// (I4).  Returns (free bytes, used bytes counted with headers).
fn check_invariants(pool: &RootPool, areas: &[(u64, u64)]) -> (u64, u64) {
    let header = &pool.memory.header;
    let blocks = &header.blocks;

    // class lists: collect members, check class membership and back links
    let mut listed: HashSet<u64> = HashSet::new();
    for k in 0..TOTAL_COUNT {
        let head = pool.memory.header.freed_block_map.map[k];
        let row = header.sl_bitmap[k / 32];
        let bit = (row >> (k % 32)) & 1 == 1;
        assert_eq!(bit, head.is_some(), "bitmap and head disagree at class {}", k);
        let mut cursor = head;
        let mut prev: Option<u64> = None;
        let mut steps = 0;
        while let Some(a) = cursor {
            steps += 1;
            assert!(steps <= blocks.len(), "class list {} does not terminate", k);
            let b = blocks.get(&a).expect("listed block missing");
            assert!(b.header.is_freed(), "listed block not free");
            let size = b.header.buffer_size();
            let idx = calculate_index(calculate_mapping_indices(size));
            assert_eq!(idx, k, "listed block of wrong class");
            let link = match b.data {
                BufferData::Link(l) => l,
                _ => panic!("free block carries no link"),
            };
            assert_eq!(link.prev, prev, "broken back link in class {}", k);
            assert!(listed.insert(a), "block listed twice");
            prev = Some(a);
            cursor = link.next;
        }
    }
    for f in 0..30 {
        let bit = (header.fl_bitmap >> f) & 1 == 1;
        assert_eq!(bit, header.sl_bitmap[f as usize] != 0, "outer bitmap row {}", f);
    }

    // physical walk over each area
    let mut free_bytes: u64 = 0;
    let mut used_bytes: u64 = 0;
    for &(start, total) in areas {
        let mut addr = start;
        let mut prev: Option<(u64, bool)> = None;
        let mut sum: u64 = 0;
        let mut sentinel = false;
        loop {
            let b: &Block = blocks.get(&addr).expect("physical walk left the table");
            let size = b.header.buffer_size();
            let free = b.header.is_freed();
            match prev {
                None => {
                    assert!(!free, "start sentinel must not be free");
                }
                Some((p, pfree)) => {
                    assert_eq!(
                        b.header.is_prev_freed(),
                        pfree,
                        "predecessor-free flag wrong at {:#x}",
                        addr
                    );
                    if b.header.is_prev_freed() {
                        assert_eq!(b.header.previous_header, Some(p), "stale back pointer");
                    }
                    if free {
                        assert!(!pfree, "two adjacent free blocks");
                    }
                }
            }
            if free {
                assert!(listed.remove(&addr), "free block missing from its class list");
                free_bytes += size;
            }
            sum += BLOCK_HEADER_SIZE + size;
            if size == 0 && prev.is_some() {
                // end sentinel
                assert_eq!(addr, start + total - BLOCK_HEADER_SIZE, "end sentinel misplaced");
                assert_eq!(sum, total, "area is not tiled exactly");
                sentinel = true;
                break;
            }
            if prev.is_some() && !free && !matches!(b.data, BufferData::Area(_)) {
                used_bytes += BLOCK_HEADER_SIZE + size;
            }
            prev = Some((addr, free));
            addr = addr + BLOCK_HEADER_SIZE + size;
        }
        assert!(sentinel);
    }
    assert!(listed.is_empty(), "class lists hold blocks outside the areas");
    assert_eq!(header.used_memory_size, used_bytes, "used counter disagrees with walk");
    (free_bytes, used_bytes)
}

fn root_areas(requested: u64) -> Vec<(u64, u64)> {
    vec![(BASE + GLOBAL_HEADER_SIZE, round_down_block(requested) - GLOBAL_HEADER_SIZE)]
}

#[test]
fn root_pool_too_small_is_refused() {
    assert!(RootPool::from(BASE, MINIMUM_ROOT_SIZE - 16).is_none());
    assert!(RootPool::from(BASE, MINIMUM_ROOT_SIZE).is_some());
}

#[test]
fn single_alloc_and_free_restores_the_pool() {
    let mut pool = RootPool::from(BASE, TWO_MIB).unwrap();
    let total = TWO_MIB - GLOBAL_HEADER_SIZE;
    let f_addr = BASE + GLOBAL_HEADER_SIZE + 32;
    let f_size = total - 64;

    let ptr = pool.allocate(24).unwrap();
    assert_eq!(ptr % 16, 0);
    let b = pool.memory.header.blocks.get(&(ptr - 16)).unwrap();
    assert!(!b.header.is_freed());
    assert_eq!(b.header.buffer_size(), 32);
    check_invariants(&pool, &root_areas(TWO_MIB));

    pool.dealloc(ptr);
    assert_eq!(pool.memory.header.used_memory_size, 0);
    let fb = pool.memory.header.blocks.get(&f_addr).unwrap();
    assert!(fb.header.is_freed());
    assert_eq!(fb.header.buffer_size(), f_size);
    check_invariants(&pool, &root_areas(TWO_MIB));
}

#[test]
fn allocation_is_lifo() {
    let mut pool = RootPool::from(BASE, TWO_MIB).unwrap();
    let p1 = pool.allocate(24).unwrap();
    pool.dealloc(p1);
    let p2 = pool.allocate(24).unwrap();
    assert_eq!(p1, p2);
}

#[test]
fn middle_free_lands_in_its_class() {
    let mut pool = RootPool::from(BASE, TWO_MIB).unwrap();
    let p1 = pool.allocate(32).unwrap();
    let p2 = pool.allocate(64).unwrap();
    let p3 = pool.allocate(32).unwrap();
    pool.dealloc(p2);

    // the freed 64-byte block sits in class (0, 16)
    assert_eq!(calculate_mapping_indices(64), (0, 16));
    let head = pool.memory.header.freed_block_map.map[16];
    assert_eq!(head, Some(p2 - BLOCK_HEADER_SIZE));
    check_invariants(&pool, &root_areas(TWO_MIB));

    // freeing the rest coalesces everything into one block
    pool.dealloc(p1);
    pool.dealloc(p3);
    let nonempty = pool
        .memory
        .header
        .freed_block_map
        .map
        .iter()
        .filter(|h| h.is_some())
        .count();
    assert_eq!(nonempty, 1);
    assert_eq!(pool.memory.header.used_memory_size, 0);
    check_invariants(&pool, &root_areas(TWO_MIB));
}

#[test]
fn fill_with_many_small_blocks() {
    let mut pool = RootPool::from(BASE, TWO_MIB).unwrap();
    let mut ptrs = Vec::new();
    for _ in 0..1024 {
        ptrs.push(pool.allocate(32).expect("room for 1024 small blocks"));
    }
    // the next one must either succeed or fail without corrupting state
    match pool.allocate(32) {
        Some(p) => ptrs.push(p),
        None => (),
    }
    check_invariants(&pool, &root_areas(TWO_MIB));
    for p in ptrs {
        pool.dealloc(p);
    }
    assert_eq!(pool.memory.header.used_memory_size, 0);
    let (free_bytes, _) = check_invariants(&pool, &root_areas(TWO_MIB));
    assert_eq!(free_bytes, TWO_MIB - GLOBAL_HEADER_SIZE - 64);
}

#[test]
fn large_request_from_default_pool() {
    let mut pool = RootPool::from(BASE, TWO_MIB).unwrap();
    let ptr = pool.allocate(200000).expect("200000 bytes fit in a 2 MiB pool");
    let b = pool.memory.header.blocks.get(&(ptr - 16)).unwrap();
    // the searching size of 200000 is 200704, and the split is exact
    assert!(b.header.buffer_size() >= 200704);
    assert_eq!(b.header.buffer_size(), 200704);
    check_invariants(&pool, &root_areas(TWO_MIB));
}

#[test]
fn fragmentation_pattern_keeps_invariants() {
    let mut pool = RootPool::from(BASE, 1 << 24).unwrap();
    let mut state: u64 = 0x2545F4914F6CDD1D;
    let mut next = || {
        state ^= state << 13;
        state ^= state >> 7;
        state ^= state << 17;
        state
    };
    let mut ptrs = Vec::new();
    for _ in 0..1000 {
        let size = 16 + (next() % (4096 - 16));
        ptrs.push((pool.allocate(size).expect("pool large enough"), size));
    }
    // free every other one
    let mut freed_bytes: u64 = 0;
    for (i, &(p, size)) in ptrs.iter().enumerate() {
        if i % 2 == 0 {
            pool.dealloc(p);
            freed_bytes += calculate_allocation_size(size);
        }
    }
    let areas = vec![(BASE + GLOBAL_HEADER_SIZE, (1 << 24) - GLOBAL_HEADER_SIZE)];
    let (free_bytes, _) = check_invariants(&pool, &areas);
    assert!(free_bytes >= freed_bytes);

    // holes averaged over the freed half are reusable without growth
    let average = freed_bytes / 500;
    let reuse = pool.allocate(average / 2);
    assert!(reuse.is_some());
    check_invariants(&pool, &areas);
}

#[test]
fn growth_merges_adjacent_chunks() {
    let mut pool = DynamicPool::new();

    // first touch: the pool asks for its root region
    let want = match pool.try_allocate(64) {
        AllocStep::NeedRegion(w) => w,
        _ => panic!("an empty pool must ask for memory"),
    };
    assert_eq!(want, next_chunk_size(0, 0, 64));
    assert_eq!(want, TWO_MIB);
    let p0 = pool.supply_region(BASE, want, 64).expect("root region serves the request");

    // exhaust the root pool so that the next request needs a chunk
    let grow = match pool.try_allocate(2080000) {
        AllocStep::NeedRegion(w) => w,
        _ => panic!("2080000 bytes cannot be carved from what is left"),
    };

    // supply a region that starts exactly where the root chunk ends
    let base2 = BASE + TWO_MIB;
    let p1 = pool
        .supply_region(base2, grow, 2080000)
        .expect("grown pool serves the request");
    let root = pool.root_pool.as_ref().unwrap();
    let b1 = root.memory.header.blocks.get(&(p1 - 16)).unwrap();
    // the served block is larger than the root chunk could ever hold
    assert!(b1.header.buffer_size() >= 2080000);
    assert!(b1.header.buffer_size() as u64 > TWO_MIB - GLOBAL_HEADER_SIZE);

    // one area record for the combined region, one end sentinel
    let s_addr = BASE + GLOBAL_HEADER_SIZE;
    assert_eq!(root.memory.header.areainfo_ptr, Some(s_addr + 16));
    let sb = root.memory.header.blocks.get(&s_addr).unwrap();
    let info = match sb.data {
        BufferData::Area(info) => info,
        _ => panic!("start sentinel lost its area record"),
    };
    assert_eq!(info.next_area_header, None);
    let merged_end = base2 + round_down_block(grow) - 16;
    assert_eq!(info.end_block_header, Some(merged_end));
    let eb = root.memory.header.blocks.get(&merged_end).unwrap();
    assert_eq!(eb.header.buffer_size(), 0);
    // the old end sentinel of the root chunk is gone as a sentinel: the
    // combined region is walked as a single area
    let combined = vec![(s_addr, TWO_MIB - GLOBAL_HEADER_SIZE + round_down_block(grow))];
    check_invariants(root, &combined);
    assert!(p0 >= BASE + GLOBAL_HEADER_SIZE);
}

#[test]
fn growth_sizing_uses_the_last_chunk() {
    let mut pool = DynamicPool::new();
    let want = match pool.try_allocate(64) {
        AllocStep::NeedRegion(w) => w,
        _ => panic!("an empty pool must ask for memory"),
    };
    pool.supply_region(BASE, want, 64).expect("root serves");

    // force a first chunk, far away from the root chunk
    let w1 = match pool.try_allocate(2080000) {
        AllocStep::NeedRegion(w) => w,
        _ => panic!("request must trigger growth"),
    };
    let far = BASE + (1 << 30);
    pool.supply_region(far, w1, 2080000).expect("first chunk serves");

    // force a second chunk and check the sizing used the first chunk
    let mut w2 = None;
    for _ in 0..64 {
        match pool.try_allocate(2080000) {
            AllocStep::Granted(_) => continue,
            AllocStep::NeedRegion(w) => {
                w2 = Some(w);
                break;
            }
            AllocStep::Exhausted => panic!("chunk table cannot be full yet"),
        }
    }
    let w2 = w2.expect("the first chunk is finite");
    let root = pool.root_pool.as_ref().unwrap();
    let total = root.memory.header.maximum_memory_size;
    assert_eq!(
        w2,
        next_chunk_size(total, round_down_block(w1), calculate_allocation_size(2080000))
    );
}

#[test]
fn chunk_table_fills_up() {
    let mut pool = DynamicPool::new();
    match pool.try_allocate(64) {
        AllocStep::NeedRegion(w) => {
            // a minimal root region: after one allocation it is spent
            let _ = w;
            pool.supply_region(BASE, MINIMUM_ROOT_SIZE, 16).expect("minimal root serves once");
        }
        _ => panic!("an empty pool must ask for memory"),
    }
    // each growth round adds one minimal chunk that cannot serve the
    // request, until the chunk table is full
    let mut exhausted = false;
    for i in 0..40 {
        match pool.try_allocate(65536) {
            AllocStep::Granted(_) => panic!("minimal chunks cannot serve 65536 bytes"),
            AllocStep::NeedRegion(_) => {
                let base = BASE + (1 << 20) * (i as u64 + 1);
                let served = pool.supply_region(base, MINIMUM_ROOT_SIZE, 65536);
                assert!(served.is_none());
            }
            AllocStep::Exhausted => {
                exhausted = true;
                assert_eq!(i, 32);
                break;
            }
        }
    }
    assert!(exhausted, "the chunk table must fill after 32 chunks");
}


#[test]
fn growth_merges_chunk_placed_before_an_area() {
    let mut pool = DynamicPool::new();
    let want = match pool.try_allocate(64) {
        AllocStep::NeedRegion(w) => w,
        _ => panic!("an empty pool must ask for memory"),
    };
    pool.supply_region(BASE, want, 64).expect("root serves");

    // first chunk, far from the root chunk
    let w1 = match pool.try_allocate(2080000) {
        AllocStep::NeedRegion(w) => w,
        _ => panic!("request must trigger growth"),
    };
    let base_a = BASE + (1 << 30);
    pool.supply_region(base_a, w1, 2080000).expect("first chunk serves");

    // exhaust that chunk, then place the second chunk so that it ends
    // exactly where the first one begins
    let mut w2 = None;
    for _ in 0..64 {
        match pool.try_allocate(2080000) {
            AllocStep::Granted(_) => continue,
            AllocStep::NeedRegion(w) => {
                w2 = Some(w);
                break;
            }
            AllocStep::Exhausted => panic!("chunk table cannot be full yet"),
        }
    }
    let w2 = w2.expect("the first chunk is finite");
    let base_b = base_a - round_down_block(w2);
    pool.supply_region(base_b, w2, 2080000).expect("second chunk serves");

    // the two chunks form one area: start sentinel at the second chunk's
    // base, end sentinel at the first chunk's end
    let root = pool.root_pool.as_ref().unwrap();
    let sb = root.memory.header.blocks.get(&base_b).expect("merged area start");
    let info = match sb.data {
        BufferData::Area(info) => info,
        _ => panic!("merged start sentinel lost its area record"),
    };
    let merged_end = base_a + round_down_block(w1) - 16;
    assert_eq!(info.end_block_header, Some(merged_end));
    // the first chunk's start sentinel is gone: the combined region is
    // walked as a single area, alongside the untouched root area
    let areas = vec![
        (BASE + GLOBAL_HEADER_SIZE, TWO_MIB - GLOBAL_HEADER_SIZE),
        (base_b, round_down_block(w2) + round_down_block(w1)),
    ];
    check_invariants(root, &areas);
}
