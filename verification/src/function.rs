//! Size-class arithmetic: most/least significant bit, alignment rounding,
//! allocation and searching sizes, the mapping from a buffer size to its
//! `(first, second)` class, and the chunk sizing policy.

use vstd::prelude::*;
use vstd::arithmetic::power2::{
    lemma2_to64, lemma2_to64_rest, lemma_pow2_adds, lemma_pow2_pos, lemma_pow2_strictly_increases,
    lemma_pow2_unfold, pow2,
};
use crate::consts::{
    BLOCK_ALIGNOF, CLASS_SIZE_LIMIT, FIRST_INDEX_OFFSET, FIRST_INDEX_REAL, INIT_CHUNK_SIZE,
    INIT_EXPANDED_ALIGNMENT, MAX_REQUEST_SIZE, MINIMUM_BLOCK_SIZE, SECOND_INDEX_LOG2_MAX,
    SECOND_INDEX_MAX, SMALL_BLOCK_SIZE, TOTAL_COUNT,
};

verus! {

/// Index of the highest set bit of `v`, with `spec_msb(0) == 0`.
pub open spec fn spec_msb(v: nat) -> nat
    decreases v,
{
    if v < 2 {
        0
    } else {
        spec_msb(v / 2) + 1
    }
}

/// Index of the lowest set bit of `v`, with `spec_lsb(0) == 0`.
pub open spec fn spec_lsb(v: nat) -> nat
    decreases v,
{
    if v == 0 || v % 2 == 1 {
        0
    } else {
        spec_lsb(v / 2) + 1
    }
}

/// `v` rounded up to the next multiple of `BLOCK_ALIGNOF`.
pub open spec fn spec_round_up(v: nat) -> nat {
    (((v + BLOCK_ALIGNOF - 1) as nat) / (BLOCK_ALIGNOF as nat)) * (BLOCK_ALIGNOF as nat)
}

/// `v` rounded down to a multiple of `BLOCK_ALIGNOF`.
pub open spec fn spec_round_down(v: nat) -> nat {
    (v / (BLOCK_ALIGNOF as nat)) * (BLOCK_ALIGNOF as nat)
}

pub open spec fn spec_is_aligned(v: nat) -> bool {
    v % (BLOCK_ALIGNOF as nat) == 0
}

/// The buffer size actually set aside for a request of `v` bytes.
pub open spec fn spec_alloc_size(v: nat) -> nat {
    spec_round_up(
        if v < MINIMUM_BLOCK_SIZE {
            MINIMUM_BLOCK_SIZE as nat
        } else {
            v
        },
    )
}

/// `v` rounded up to the next multiple of `step`.
pub open spec fn spec_round_up_to(v: nat, step: nat) -> nat
    recommends
        step > 0,
{
    (((v + step - 1) as nat) / step) * step
}

/// The size used to pick a class to search: the allocation size, rounded up
/// so that every block filed in the chosen class is large enough.
pub open spec fn spec_search_size(v: nat) -> nat {
    let s = spec_alloc_size(v);
    if s < SMALL_BLOCK_SIZE {
        s
    } else {
        spec_round_up_to(s, pow2((spec_msb(s) - SECOND_INDEX_LOG2_MAX) as nat))
    }
}

/// Outer row of the class a buffer size belongs to.
pub open spec fn spec_map_fl(sz: nat) -> nat {
    if sz < SMALL_BLOCK_SIZE {
        0
    } else {
        (spec_msb(sz) - FIRST_INDEX_OFFSET) as nat
    }
}

/// Inner column of the class a buffer size belongs to.
pub open spec fn spec_map_sl(sz: nat) -> nat {
    if sz < SMALL_BLOCK_SIZE {
        sz / ((SMALL_BLOCK_SIZE as nat) / (SECOND_INDEX_MAX as nat))
    } else {
        (sz / pow2((spec_msb(sz) - SECOND_INDEX_LOG2_MAX) as nat) - SECOND_INDEX_MAX) as nat
    }
}

/// Flat position of class `(f, s)` in the head table.
pub open spec fn spec_flat_index(f: nat, s: nat) -> nat {
    f * (SECOND_INDEX_MAX as nat) + s
}

/// Chunk sizing policy: the byte size of the next chunk to obtain when the
/// pool has `total` bytes, the newest chunk has `last` bytes, and a request
/// of `size` bytes could not be served.
pub open spec fn spec_next_chunk_size(total: nat, last: nat, size: nat) -> nat {
    let a = if size > 0 {
        pow2(spec_msb(size) + 1)
    } else {
        1024
    };
    if total == 0 {
        if 4 * a <= INIT_CHUNK_SIZE {
            INIT_CHUNK_SIZE as nat
        } else {
            spec_round_up_to(4 * a, INIT_EXPANDED_ALIGNMENT as nat)
        }
    } else {
        if 4 * a <= 2 * last {
            2 * last
        } else {
            spec_round_up_to(4 * a, last)
        }
    }
}

/// `pow2(spec_msb(v))` is the largest power of two at or below `v`.
pub proof fn lemma_msb_bounds(v: nat)
    requires
        v >= 1,
    ensures
        pow2(spec_msb(v)) <= v < pow2(spec_msb(v) + 1),
    decreases v,
{
    lemma2_to64();
    if v < 2 {
        assert(spec_msb(v) == 0);
    } else {
        lemma_msb_bounds(v / 2);
        lemma_pow2_unfold(spec_msb(v) + 1);
        lemma_pow2_unfold(spec_msb(v));
        assert(pow2(spec_msb(v)) == 2 * pow2(spec_msb(v / 2)));
        assert(2 * (v / 2) <= v < 2 * (v / 2) + 2);
    }
}

/// A value below `pow2(k)` has its highest set bit below `k`.
pub proof fn lemma_msb_below(v: nat, k: nat)
    requires
        1 <= v < pow2(k),
    ensures
        spec_msb(v) < k,
{
    lemma_msb_bounds(v);
    if spec_msb(v) >= k {
        if spec_msb(v) > k {
            lemma_pow2_strictly_increases(k, spec_msb(v));
        }
        assert(pow2(k) <= pow2(spec_msb(v)));
    }
}

/// A value at or above `pow2(k)` has its highest set bit at or above `k`.
pub proof fn lemma_msb_at_least(v: nat, k: nat)
    requires
        pow2(k) <= v,
    ensures
        spec_msb(v) >= k,
{
    lemma_pow2_pos(k);
    lemma_msb_bounds(v);
    if spec_msb(v) < k {
        assert(pow2(spec_msb(v) + 1) <= pow2(k)) by {
            if spec_msb(v) + 1 < k {
                lemma_pow2_strictly_increases(spec_msb(v) + 1, k);
            }
        }
    }
}

/// The highest set bit is monotone in the value.
pub proof fn lemma_msb_monotone(v1: nat, v2: nat)
    requires
        1 <= v1 <= v2,
    ensures
        spec_msb(v1) <= spec_msb(v2),
{
    lemma_msb_bounds(v1);
    lemma_msb_bounds(v2);
    if spec_msb(v1) > spec_msb(v2) {
        assert(pow2(spec_msb(v2) + 1) <= pow2(spec_msb(v1))) by {
            if spec_msb(v2) + 1 < spec_msb(v1) {
                lemma_pow2_strictly_increases(spec_msb(v2) + 1, spec_msb(v1));
            }
        }
    }
}

/// Calculate the index of the most significant set bit of `value`.
///
/// Returns nothing when `value` is zero.
pub fn calculate_msb(value: u64) -> (r: Option<usize>)
    ensures
        r == if value == 0 {
            None::<usize>
        } else {
            Some(spec_msb(value as nat) as usize)
        },
        value != 0 ==> spec_msb(value as nat) < 64,
{
    if value == 0 {
        None
    } else {
        proof {
            lemma2_to64();
            lemma2_to64_rest();
            lemma_msb_below(value as nat, 64);
        }
        let mut v: u64 = value;
        let mut idx: usize = 0;
        while v > 1
            invariant
                1 <= v <= value,
                spec_msb(value as nat) == idx + spec_msb(v as nat),
                idx <= spec_msb(value as nat) < 64,
            decreases v,
        {
            v = v / 2;
            idx = idx + 1;
        }
        Some(idx)
    }
}

/// Calculate the index of the least significant set bit of `value`.
///
/// For a zero `value` the result is `Some(0)`.
pub fn calculate_lsb(value: u64) -> (r: Option<usize>)
    ensures
        r == Some(spec_lsb(value as nat) as usize),
        spec_lsb(value as nat) < 64,
{
    if value == 0 {
        Some(0)
    } else {
        proof {
            lemma2_to64();
            lemma2_to64_rest();
            lemma_lsb_le_msb(value as nat);
            lemma_msb_below(value as nat, 64);
        }
        let mut v: u64 = value;
        let mut idx: usize = 0;
        while v % 2 == 0
            invariant
                1 <= v <= value,
                spec_lsb(value as nat) == idx + spec_lsb(v as nat),
                idx <= spec_lsb(value as nat) < 64,
            decreases v,
        {
            v = v / 2;
            idx = idx + 1;
        }
        Some(idx)
    }
}

/// The lowest set bit sits no higher than the highest set bit.
pub proof fn lemma_lsb_le_msb(v: nat)
    requires
        v >= 1,
    ensures
        spec_lsb(v) <= spec_msb(v),
    decreases v,
{
    if v % 2 == 0 && v >= 2 {
        lemma_lsb_le_msb(v / 2);
    }
}

/// Round `value` up to `BLOCK_ALIGNOF`.
pub fn round_up_block(value: u64) -> (r: u64)
    requires
        value + BLOCK_ALIGNOF <= u64::MAX,
    ensures
        r as nat == spec_round_up(value as nat),
{
    proof {
        lemma_round_up_props(value as nat);
    }
    ((value + (BLOCK_ALIGNOF - 1)) / BLOCK_ALIGNOF) * BLOCK_ALIGNOF
}

/// Basic facts about `spec_round_up`.
pub proof fn lemma_round_up_props(v: nat)
    ensures
        v <= spec_round_up(v) < v + BLOCK_ALIGNOF,
        spec_is_aligned(spec_round_up(v)),
        spec_is_aligned(v) ==> spec_round_up(v) == v,
{
    let a = BLOCK_ALIGNOF as nat;
    let q = ((v + a - 1) as nat) / a;
    vstd::arithmetic::div_mod::lemma_fundamental_div_mod((v + a - 1) as int, a as int);
    assert(q * a == spec_round_up(v));
    assert(spec_is_aligned(q * a)) by {
        vstd::arithmetic::div_mod::lemma_mod_multiples_basic(q as int, a as int);
    }
    if v % a == 0 {
        vstd::arithmetic::div_mod::lemma_fundamental_div_mod(v as int, a as int);
        assert(((v + a - 1) as nat) / a == v / a) by {
            vstd::arithmetic::div_mod::lemma_fundamental_div_mod_converse(
                (v + a - 1) as int,
                a as int,
                (v / a) as int,
                (a - 1) as int,
            );
        }
    }
}

/// Round `value` down to `BLOCK_ALIGNOF`.
pub fn round_down_block(value: u64) -> (r: u64)
    ensures
        r as nat == spec_round_down(value as nat),
        r <= value,
{
    proof {
        lemma_round_down_props(value as nat);
    }
    (value / BLOCK_ALIGNOF) * BLOCK_ALIGNOF
}

/// Basic facts about `spec_round_down`.
pub proof fn lemma_round_down_props(v: nat)
    ensures
        v - BLOCK_ALIGNOF < spec_round_down(v) <= v,
        spec_is_aligned(spec_round_down(v)),
        spec_is_aligned(v) ==> spec_round_down(v) == v,
{
    let a = BLOCK_ALIGNOF as nat;
    vstd::arithmetic::div_mod::lemma_fundamental_div_mod(v as int, a as int);
    vstd::arithmetic::div_mod::lemma_mod_multiples_basic((v / a) as int, a as int);
}

/// Check that `value` is a multiple of `BLOCK_ALIGNOF`.
pub fn is_aligned(value: u64) -> (r: bool)
    ensures
        r == spec_is_aligned(value as nat),
{
    value % BLOCK_ALIGNOF == 0
}

/// The buffer size set aside for a request of `size` bytes: at least the
/// minimum block size, rounded up to the block alignment.
pub fn calculate_allocation_size(size: u64) -> (r: u64)
    requires
        size + BLOCK_ALIGNOF <= u64::MAX,
    ensures
        r as nat == spec_alloc_size(size as nat),
{
    round_up_block(
        if size < MINIMUM_BLOCK_SIZE {
            MINIMUM_BLOCK_SIZE
        } else {
            size
        },
    )
}

/// `pow2(e)` as a 64-bit word.
pub fn pow2_u64(e: usize) -> (r: u64)
    requires
        e < 64,
    ensures
        r as nat == pow2(e as nat),
{
    proof {
        lemma2_to64();
        lemma2_to64_rest();
    }
    let mut r: u64 = 1;
    let mut i: usize = 0;
    while i < e
        invariant
            i <= e < 64,
            r as nat == pow2(i as nat),
        decreases e - i,
    {
        proof {
            lemma2_to64();
            lemma2_to64_rest();
            lemma_pow2_strictly_increases(i as nat + 1, 64);
            lemma_pow2_unfold(i as nat + 1);
        }
        r = r * 2;
        i = i + 1;
    }
    r
}

/// The size whose class is searched for a request of `size` bytes.  At or
/// above `SMALL_BLOCK_SIZE` the allocation size is rounded up so that the
/// chosen class holds no block smaller than the allocation size.
pub fn calculate_allocation_searching_size(size: u64) -> (r: u64)
    requires
        size <= MAX_REQUEST_SIZE,
    ensures
        r as nat == spec_search_size(size as nat),
{
    let s = calculate_allocation_size(size);
    proof {
        lemma_round_up_props(if size < MINIMUM_BLOCK_SIZE {
            MINIMUM_BLOCK_SIZE as nat
        } else {
            size as nat
        });
    }
    if s < SMALL_BLOCK_SIZE {
        s
    } else {
        proof {
            lemma2_to64();
            lemma2_to64_rest();
            lemma_msb_at_least(s as nat, 7);
            lemma_msb_below(s as nat, 36);
        }
        let m = match calculate_msb(s) {
            Some(m) => m,
            None => 0,
        };
        let step = pow2_u64(m - SECOND_INDEX_LOG2_MAX);
        proof {
            lemma_pow2_pos((m - 5) as nat);
            lemma_pow2_strictly_increases((m - 5) as nat, 36);
            lemma_round_up_to_props(s as nat, step as nat);
        }
        ((s + (step - 1)) / step) * step
    }
}

/// The class `(first, second)` that a buffer of `block_size` bytes is
/// filed under.
pub fn calculate_mapping_indices(block_size: u64) -> (r: (usize, usize))
    requires
        block_size < CLASS_SIZE_LIMIT,
    ensures
        r.0 as nat == spec_map_fl(block_size as nat),
        r.1 as nat == spec_map_sl(block_size as nat),
        r.0 < FIRST_INDEX_REAL,
        r.1 < SECOND_INDEX_MAX,
{
    if block_size < SMALL_BLOCK_SIZE {
        proof {
            vstd::arithmetic::div_mod::lemma_fundamental_div_mod(block_size as int, 4);
        }
        (0, (block_size / (SMALL_BLOCK_SIZE / (SECOND_INDEX_MAX as u64))) as usize)
    } else {
        proof {
            lemma2_to64();
            lemma2_to64_rest();
            lemma_msb_at_least(block_size as nat, 7);
            lemma_msb_below(block_size as nat, 36);
        }
        let first = match calculate_msb(block_size) {
            Some(m) => m,
            None => 0,
        };
        let step = pow2_u64(first - SECOND_INDEX_LOG2_MAX);
        proof {
            lemma_map_sl_range(block_size as nat);
            lemma_pow2_pos((first - 5) as nat);
        }
        let second = (block_size / step) as usize - SECOND_INDEX_MAX;
        (first - FIRST_INDEX_OFFSET, second)
    }
}

/// For sizes at or above `SMALL_BLOCK_SIZE`, the inner quotient lies in
/// `[SECOND_INDEX_MAX, 2 * SECOND_INDEX_MAX)`.
pub proof fn lemma_map_sl_range(sz: nat)
    requires
        SMALL_BLOCK_SIZE <= sz,
    ensures
        SECOND_INDEX_MAX <= sz / pow2((spec_msb(sz) - SECOND_INDEX_LOG2_MAX) as nat) < 2
            * SECOND_INDEX_MAX,
        spec_map_sl(sz) < SECOND_INDEX_MAX,
{
    let m = spec_msb(sz);
    lemma2_to64();
    lemma_msb_at_least(sz, 7);
    lemma_msb_bounds(sz);
    let e = (m - 5) as nat;
    lemma_pow2_pos(e);
    lemma_pow2_adds(e, 5);
    assert(pow2(m) == pow2(e) * 32);
    lemma_pow2_adds(e, 6);
    assert(pow2(m + 1) == pow2(e) * 64);
    assert(sz / pow2(e) >= 32) by {
        vstd::arithmetic::div_mod::lemma_div_is_ordered(
            (pow2(e) * 32) as int,
            sz as int,
            pow2(e) as int,
        );
        vstd::arithmetic::div_mod::lemma_div_by_multiple(32, pow2(e) as int);
    }
    assert(sz / pow2(e) < 64) by {
        vstd::arithmetic::div_mod::lemma_multiply_divide_lt(sz as int, pow2(e) as int, 64);
    }
}

/// Flat position of a class pair in the head table.
pub fn calculate_index(mapping_indices: (usize, usize)) -> (r: usize)
    requires
        mapping_indices.0 < FIRST_INDEX_REAL,
        mapping_indices.1 < SECOND_INDEX_MAX,
    ensures
        r as nat == spec_flat_index(mapping_indices.0 as nat, mapping_indices.1 as nat),
        r < TOTAL_COUNT,
{
    let (first, second) = mapping_indices;
    first * SECOND_INDEX_MAX + second
}

/// `size` gibibytes in bytes.
pub fn gigabytes_of(size: u64) -> (r: u64)
    requires
        size * 1024 * 1024 * 1024 <= u64::MAX,
    ensures
        r == size * 1024 * 1024 * 1024,
{
    size * 1024 * 1024 * 1024
}

/// `size` mebibytes in bytes.
pub fn megabytes_of(size: u64) -> (r: u64)
    requires
        size * 1024 * 1024 <= u64::MAX,
    ensures
        r == size * 1024 * 1024,
{
    size * 1024 * 1024
}

/// `size` kibibytes in bytes.
pub fn kilobytes_of(size: u64) -> (r: u64)
    requires
        size * 1024 <= u64::MAX,
    ensures
        r == size * 1024,
{
    size * 1024
}

/// Size of the next chunk to obtain from the host.
///
/// `total` is the pool's current capacity, `last_chunk_size` the byte size
/// of the most recently added chunk, and `size` the allocation size that
/// could not be served.
pub fn next_chunk_size(total: u64, last_chunk_size: u64, size: u64) -> (r: u64)
    requires
        size <= MAX_REQUEST_SIZE,
        total > 0 ==> 0 < last_chunk_size <= 0x1000000000000,
    ensures
        r as nat == spec_next_chunk_size(total as nat, last_chunk_size as nat, size as nat),
{
    let aligned_size: u64 = if size > 0 {
        proof {
            lemma2_to64();
            lemma2_to64_rest();
            lemma_msb_below(size as nat, 36);
        }
        let m = match calculate_msb(size) {
            Some(m) => m,
            None => 0,
        };
        pow2_u64(m + 1)
    } else {
        1024
    };

    if total == 0 {
        if 4 * aligned_size <= INIT_CHUNK_SIZE {
            INIT_CHUNK_SIZE
        } else {
            proof {
                lemma_round_up_to_props((4 * aligned_size) as nat, INIT_EXPANDED_ALIGNMENT as nat);
            }
            ((4 * aligned_size + (INIT_EXPANDED_ALIGNMENT - 1)) / INIT_EXPANDED_ALIGNMENT)
                * INIT_EXPANDED_ALIGNMENT
        }
    } else {
        let expected = last_chunk_size * 2;
        if 4 * aligned_size <= expected {
            expected
        } else {
            proof {
                lemma_round_up_to_props((4 * aligned_size) as nat, last_chunk_size as nat);
            }
            ((4 * aligned_size + (last_chunk_size - 1)) / last_chunk_size) * last_chunk_size
        }
    }
}

/// Basic facts about rounding up to a multiple of `step`.
pub proof fn lemma_round_up_to_props(v: nat, step: nat)
    requires
        step > 0,
    ensures
        v <= spec_round_up_to(v, step) < v + step,
        spec_round_up_to(v, step) % step == 0,
{
    let q = ((v + step - 1) as nat) / step;
    vstd::arithmetic::div_mod::lemma_fundamental_div_mod((v + step - 1) as int, step as int);
    vstd::arithmetic::div_mod::lemma_mod_multiples_basic(q as int, step as int);
}


/// Flat class of a buffer size.
pub open spec fn spec_class_of(sz: nat) -> nat {
    spec_flat_index(spec_map_fl(sz), spec_map_sl(sz))
}

/// Smallest buffer size that class `(f, s)` can hold.
pub open spec fn spec_class_min_size(f: nat, s: nat) -> nat {
    if f == 0 {
        s * ((SMALL_BLOCK_SIZE as nat) / (SECOND_INDEX_MAX as nat))
    } else {
        (s + SECOND_INDEX_MAX as nat) * pow2(f + 1)
    }
}

/// Every buffer size is at or above the least size of its own class.
pub proof fn lemma_class_min_le_member(sz: nat)
    requires
        sz < CLASS_SIZE_LIMIT,
    ensures
        spec_class_min_size(spec_map_fl(sz), spec_map_sl(sz)) <= sz,
        spec_map_sl(sz) < SECOND_INDEX_MAX,
        spec_map_fl(sz) < FIRST_INDEX_REAL,
{
    lemma2_to64();
    lemma2_to64_rest();
    if sz < SMALL_BLOCK_SIZE {
        vstd::arithmetic::div_mod::lemma_fundamental_div_mod(sz as int, 4);
    } else {
        let m = spec_msb(sz);
        lemma_msb_at_least(sz, 7);
        lemma_msb_below(sz, 36);
        lemma_map_sl_range(sz);
        let e = (m - 5) as nat;
        lemma_pow2_pos(e);
        let q = sz / pow2(e);
        assert(spec_class_min_size(spec_map_fl(sz), spec_map_sl(sz)) == q * pow2(e));
        vstd::arithmetic::div_mod::lemma_fundamental_div_mod(sz as int, pow2(e) as int);
        vstd::arithmetic::mul::lemma_mul_is_commutative(q as int, pow2(e) as int);
    }
}

/// The least class size is monotone in the flat class order.
pub proof fn lemma_class_min_monotone(f1: nat, s1: nat, f2: nat, s2: nat)
    requires
        s1 < SECOND_INDEX_MAX,
        s2 < SECOND_INDEX_MAX,
        spec_flat_index(f1, s1) <= spec_flat_index(f2, s2),
    ensures
        spec_class_min_size(f1, s1) <= spec_class_min_size(f2, s2),
{
    lemma2_to64();
    lemma_pow2_pos(f1 + 1);
    lemma_pow2_pos(f2 + 1);
    assert(SECOND_INDEX_MAX == 32);
    assert((SMALL_BLOCK_SIZE as nat) / (SECOND_INDEX_MAX as nat) == 4);
    if f1 == f2 {
        assert(s1 <= s2);
        if f1 > 0 {
            vstd::arithmetic::mul::lemma_mul_inequality(
                (s1 + 32) as int,
                (s2 + 32) as int,
                pow2(f1 + 1) as int,
            );
        }
    } else {
        assert(f1 < f2);
        if f1 == 0 {
            // at most 124 on the left; at least 32 * 4 on the right
            assert(spec_class_min_size(f1, s1) == s1 * 4);
            assert(pow2(2) <= pow2(f2 + 1)) by {
                if 2 < f2 + 1 {
                    lemma_pow2_strictly_increases(2, f2 + 1);
                }
            }
            vstd::arithmetic::mul::lemma_mul_inequality(
                32,
                (s2 + 32) as int,
                pow2(f2 + 1) as int,
            );
            assert(32 * pow2(f2 + 1) >= 128);
            assert(spec_class_min_size(f2, s2) >= 128) by {
                vstd::arithmetic::mul::lemma_mul_is_commutative(32, pow2(f2 + 1) as int);
                vstd::arithmetic::mul::lemma_mul_is_commutative((s2 + 32) as int, pow2(f2 + 1) as int);
            }
        } else {
            vstd::arithmetic::mul::lemma_mul_inequality(
                (s1 + 32) as int,
                64,
                pow2(f1 + 1) as int,
            );
            lemma_pow2_adds(f1 + 1, 6);
            assert(64 * pow2(f1 + 1) == pow2(f1 + 7)) by {
                vstd::arithmetic::mul::lemma_mul_is_commutative(64, pow2(f1 + 1) as int);
            }
            assert(pow2(f1 + 7) <= pow2(f2 + 6)) by {
                if f1 + 7 < f2 + 6 {
                    lemma_pow2_strictly_increases(f1 + 7, f2 + 6);
                }
            }
            lemma_pow2_adds(f2 + 1, 5);
            assert(pow2(f2 + 6) == 32 * pow2(f2 + 1)) by {
                vstd::arithmetic::mul::lemma_mul_is_commutative(32, pow2(f2 + 1) as int);
            }
            vstd::arithmetic::mul::lemma_mul_inequality(
                32,
                (s2 + 32) as int,
                pow2(f2 + 1) as int,
            );
        }
    }
}

/// The searching size is aligned, bounded, a fixed point of the allocation
/// size, and exactly the least size of its own class.  This is what makes
/// the class search sound: the head of any class at or above the searched
/// one is guaranteed to fit the request.
pub proof fn lemma_search_size_props(req: nat)
    requires
        req <= MAX_REQUEST_SIZE,
    ensures
        spec_alloc_size(req) <= spec_search_size(req) < CLASS_SIZE_LIMIT,
        spec_is_aligned(spec_search_size(req)),
        MINIMUM_BLOCK_SIZE <= spec_search_size(req),
        spec_alloc_size(spec_search_size(req)) == spec_search_size(req),
        spec_class_min_size(
            spec_map_fl(spec_search_size(req)),
            spec_map_sl(spec_search_size(req)),
        ) == spec_search_size(req),
{
    lemma2_to64();
    lemma2_to64_rest();
    let a = spec_alloc_size(req);
    lemma_round_up_props(if req < MINIMUM_BLOCK_SIZE { MINIMUM_BLOCK_SIZE as nat } else { req });
    assert(16 <= a <= MAX_REQUEST_SIZE);
    assert(spec_is_aligned(a));
    let ss = spec_search_size(req);
    if a < SMALL_BLOCK_SIZE {
        assert(ss == a);
        lemma_round_up_props(ss);
        // a is a multiple of 16, hence of 4, so the row-zero class holds it exactly
        let k = a / 16;
        vstd::arithmetic::div_mod::lemma_fundamental_div_mod(a as int, 16);
        assert(a == 16 * k);
        assert(a / 4 == 4 * k) by {
            vstd::arithmetic::div_mod::lemma_fundamental_div_mod_converse(
                a as int,
                4,
                (4 * k) as int,
                0,
            );
        }
    } else {
        let m = spec_msb(a);
        lemma_msb_at_least(a, 7);
        lemma_msb_below(a, 36);
        let e = (m - 5) as nat;
        let step = pow2(e);
        lemma_pow2_pos(e);
        assert(step <= 0x40000000) by {
            if e < 30 {
                lemma_pow2_strictly_increases(e, 30);
            }
        }
        lemma_round_up_to_props(a, step);
        assert(ss == spec_round_up_to(a, step));
        assert(a <= ss < a + step);
        assert(ss < CLASS_SIZE_LIMIT);
        let q = ss / step;
        vstd::arithmetic::div_mod::lemma_fundamental_div_mod(ss as int, step as int);
        assert(ss % step == 0);
        assert(ss == step * q);
        // alignment of the searching size
        if m <= 8 {
            // the step divides 16, and a is already a multiple of the step
            assert(step == 4 || step == 8);
            let k16 = a / 16;
            vstd::arithmetic::div_mod::lemma_fundamental_div_mod(a as int, 16);
            assert(a % step == 0) by {
                if step == 4 {
                    vstd::arithmetic::div_mod::lemma_fundamental_div_mod_converse(
                        a as int,
                        4,
                        (4 * k16) as int,
                        0,
                    );
                } else {
                    vstd::arithmetic::div_mod::lemma_fundamental_div_mod_converse(
                        a as int,
                        8,
                        (2 * k16) as int,
                        0,
                    );
                }
            }
            assert(ss == a) by {
                vstd::arithmetic::div_mod::lemma_fundamental_div_mod(a as int, step as int);
                assert(a == step * (a / step) + (a % step));
                assert(a == step * (a / step));
                vstd::arithmetic::div_mod::lemma_fundamental_div_mod_converse(
                    (a + step - 1) as int,
                    step as int,
                    (a / step) as int,
                    (step - 1) as int,
                );
                assert(((a + step - 1) as nat) / step == a / step);
                vstd::arithmetic::mul::lemma_mul_is_commutative((a / step) as int, step as int);
            }
        } else {
            // the step is a multiple of 16, and so is any multiple of the step
            lemma_pow2_adds((e - 4) as nat, 4);
            assert(step == pow2((e - 4) as nat) * 16);
            assert(ss == (q * pow2((e - 4) as nat)) * 16) by {
                vstd::arithmetic::mul::lemma_mul_is_associative(
                    q as int,
                    pow2((e - 4) as nat) as int,
                    16,
                );
                vstd::arithmetic::mul::lemma_mul_is_commutative(q as int, step as int);
            }
            vstd::arithmetic::div_mod::lemma_mod_multiples_basic(
                (q * pow2((e - 4) as nat)) as int,
                16,
            );
        }
        assert(spec_is_aligned(ss));
        lemma_round_up_props(ss);
        assert(spec_alloc_size(ss) == ss);
        // the searching size is the least member of its class
        lemma_pow2_adds(e, 6);
        assert(pow2(m + 1) == step * 64);
        if ss < pow2(m + 1) {
            assert(pow2(m) <= a <= ss) by {
                lemma_msb_bounds(a);
            }
            lemma_msb_at_least(ss, m);
            lemma_msb_below(ss, m + 1);
            assert(spec_msb(ss) == m);
            lemma_map_sl_range(ss);
            assert(spec_class_min_size(spec_map_fl(ss), spec_map_sl(ss)) == (ss / step) * step);
            vstd::arithmetic::mul::lemma_mul_is_commutative(q as int, step as int);
        } else {
            // the rounded size reached the next power of two exactly
            assert(pow2(m + 1) % step == 0) by {
                vstd::arithmetic::div_mod::lemma_mod_multiples_basic(64, step as int);
                vstd::arithmetic::mul::lemma_mul_is_commutative(64, step as int);
            }
            assert(a <= pow2(m + 1)) by {
                lemma_msb_bounds(a);
            }
            assert(ss - pow2(m + 1) < step);
            assert((ss - pow2(m + 1)) % (step as int) == 0) by {
                vstd::arithmetic::div_mod::lemma_sub_mod_noop(
                    ss as int,
                    pow2(m + 1) as int,
                    step as int,
                );
            }
            assert(ss == pow2(m + 1)) by {
                vstd::arithmetic::div_mod::lemma_small_mod(
                    (ss - pow2(m + 1)) as nat,
                    step,
                );
            }
            lemma_pow2_strictly_increases(m + 1, m + 2);
            lemma_msb_at_least(ss, m + 1);
            lemma_msb_below(ss, m + 2);
            assert(spec_msb(ss) == m + 1);
            let e2 = (m - 4) as nat;
            lemma_pow2_adds(e2, 5);
            lemma_pow2_pos(e2);
            assert(pow2(m + 1) == pow2(e2) * 32);
            assert(ss / pow2(e2) == 32) by {
                vstd::arithmetic::div_mod::lemma_fundamental_div_mod_converse(
                    ss as int,
                    pow2(e2) as int,
                    32,
                    0,
                );
                vstd::arithmetic::mul::lemma_mul_is_commutative(32, pow2(e2) as int);
            }
            lemma_map_sl_range(ss);
            assert(spec_map_sl(ss) == 0);
            assert(spec_map_fl(ss) == m - 5);
            assert(spec_class_min_size(spec_map_fl(ss), spec_map_sl(ss)) == 32 * pow2(e2)) by {
                vstd::arithmetic::mul::lemma_mul_is_commutative(32, pow2(e2) as int);
            }
        }
    }
}

/// Any buffer filed in a class at or above the class of the searching size
/// is large enough for the request.
pub proof fn lemma_suitable_class_fits(b: nat, req: nat)
    requires
        b < CLASS_SIZE_LIMIT,
        req <= MAX_REQUEST_SIZE,
        spec_class_of(b) >= spec_class_of(spec_search_size(req)),
    ensures
        b >= spec_search_size(req) >= spec_alloc_size(req),
{
    let ss = spec_search_size(req);
    lemma_search_size_props(req);
    lemma_class_min_le_member(b);
    lemma_class_min_le_member(ss);
    lemma_class_min_monotone(
        spec_map_fl(ss),
        spec_map_sl(ss),
        spec_map_fl(b),
        spec_map_sl(b),
    );
}


/// Alignment is preserved by addition.
pub proof fn lemma_aligned_add(a: nat, b: nat)
    requires
        spec_is_aligned(a),
        spec_is_aligned(b),
    ensures
        spec_is_aligned(a + b),
{
    vstd::arithmetic::div_mod::lemma_add_mod_noop(a as int, b as int, BLOCK_ALIGNOF as int);
}

/// Alignment is preserved by subtraction.
pub proof fn lemma_aligned_sub(a: nat, b: nat)
    requires
        spec_is_aligned(a),
        spec_is_aligned(b),
        b <= a,
    ensures
        spec_is_aligned((a - b) as nat),
{
    vstd::arithmetic::div_mod::lemma_sub_mod_noop(a as int, b as int, BLOCK_ALIGNOF as int);
}


/// The flat class is monotone in the buffer size.
pub proof fn lemma_class_of_monotone(s1: nat, s2: nat)
    requires
        s1 <= s2 < CLASS_SIZE_LIMIT,
    ensures
        spec_class_of(s1) <= spec_class_of(s2),
{
    lemma2_to64();
    lemma2_to64_rest();
    if s2 < SMALL_BLOCK_SIZE {
        vstd::arithmetic::div_mod::lemma_div_is_ordered(s1 as int, s2 as int, 4);
    } else if s1 < SMALL_BLOCK_SIZE {
        lemma_class_min_le_member(s1);
        lemma_msb_at_least(s2, 7);
        assert(spec_class_of(s1) == spec_map_sl(s1) < 32);
        assert(spec_class_of(s2) >= 32 * (spec_msb(s2) - 6));
    } else {
        let m1 = spec_msb(s1);
        let m2 = spec_msb(s2);
        lemma_msb_at_least(s1, 7);
        lemma_msb_at_least(s2, 7);
        lemma_msb_below(s2, 36);
        lemma_msb_monotone(s1, s2);
        lemma_map_sl_range(s1);
        lemma_map_sl_range(s2);
        if m1 == m2 {
            let e = (m1 - 5) as nat;
            lemma_pow2_pos(e);
            vstd::arithmetic::div_mod::lemma_div_is_ordered(s1 as int, s2 as int, pow2(e) as int);
        } else {
            assert(spec_class_of(s1) < 32 * (m1 - 6) + 32);
            assert(spec_class_of(s2) >= 32 * (m2 - 6));
        }
    }
}

} // verus!
