//! What holds of every buddy allocator: the invariant and what it implies,
//! and how allocating and releasing undo each other.
use vstd::prelude::*;
use vstd::arithmetic::power2::is_pow2;
use crate::modules::mem::blocks::{
    lemma_address_unique, lemma_alloc_blocks_valid, lemma_bytes_partition,
    lemma_coalesce_keeps_allocated, lemma_coalesce_valid, lemma_free_buddy_unique,
    lemma_prefix_bytes, lemma_release_valid, lemma_split_remainder, lemma_split_valid,
    lemma_state_absent, lemma_state_concat, lemma_state_single, lemma_state_splice,
};
use crate::modules::mem::buddy::{
    allocated_index, bytes_in, coalesce, count_in, first_fit, is_allocated, is_allocated_at,
    is_first_fit, is_free_buddy, merge, split_remainder, total_bytes, Block, BlockState,
    BuddyView,
};
use crate::modules::mem::power::{
    buddy_address, lemma_buddy_address, lemma_next_power_of_two, lemma_next_power_of_two_fixed,
    lemma_next_power_of_two_least, lemma_pow2_double, lemma_pow2_ordered, lemma_pow2_positive,
};

verus! {

/// A fresh allocator satisfies the invariant.
pub proof fn lemma_fresh_valid(total_size: usize, min_block_size: usize)
    requires
        is_pow2(total_size as int),
        is_pow2(min_block_size as int),
        min_block_size <= total_size,
    ensures
        BuddyView::fresh(total_size, min_block_size).valid(),
{
    lemma_pow2_positive(total_size as int);
    vstd::arithmetic::div_mod::lemma_small_mod(0, total_size as nat);
    let v = BuddyView::fresh(total_size, min_block_size);
    assert(v.blocks[0].valid(min_block_size as int, total_size as int));
}

/// Where some block fits a request, one of them is the first.
pub proof fn lemma_first_fit_exists(blocks: Seq<Block>, requested: int, k: int)
    requires
        0 <= k < blocks.len(),
        blocks[k].fits(requested),
    ensures
        is_first_fit(blocks, requested, first_fit(blocks, requested)),
        first_fit(blocks, requested) <= k,
    decreases k,
{
    if exists|j: int| 0 <= j < k && (#[trigger] blocks[j]).fits(requested) {
        let j = choose|j: int| 0 <= j < k && (#[trigger] blocks[j]).fits(requested);
        lemma_first_fit_exists(blocks, requested, j);
    } else {
        assert(is_first_fit(blocks, requested, k));
        let chosen = first_fit(blocks, requested);
        assert(is_first_fit(blocks, requested, chosen));
        if chosen > k {
            assert(!blocks[k].fits(requested));
        }
    }
}

/// The size that serves a request is a power of two between the smallest
/// block and the whole range, and not below the request.
pub proof fn lemma_request_size(v: BuddyView, size: usize)
    requires
        v.valid(),
        size <= v.total_size,
    ensures
        is_pow2(v.request_size(size)),
        v.min_block_size <= v.request_size(size) <= v.total_size,
        size <= v.request_size(size),
{
    let wanted = if size >= v.min_block_size {
        size as int
    } else {
        v.min_block_size as int
    };
    lemma_next_power_of_two(wanted);
    lemma_next_power_of_two_least(wanted, v.total_size as int);
}

/// Allocation keeps the invariant, whether it succeeds or fails.
pub proof fn lemma_allocate_valid(v: BuddyView, pid: u32, size: usize)
    requires
        v.valid(),
    ensures
        v.allocate(pid, size).0.valid(),
{
    if v.allocate(pid, size).1 is Ok {
        let requested = v.request_size(size);
        lemma_request_size(v, size);
        let k = choose|k: int| 0 <= k < v.blocks.len() && (#[trigger] v.blocks[k]).fits(requested);
        lemma_first_fit_exists(v.blocks, requested, k);
        lemma_alloc_blocks_valid(v, first_fit(v.blocks, requested), pid, requested);
    }
}

/// Release keeps the invariant, whether it succeeds or fails.
pub proof fn lemma_free_valid(v: BuddyView, address: usize)
    requires
        v.valid(),
    ensures
        v.free(address).0.valid(),
{
    if is_allocated(v.blocks, address) {
        let i = allocated_index(v.blocks, address);
        assert(is_allocated_at(v.blocks, address, i));
        lemma_release_valid(v, i);
        let released = BuddyView {
            blocks: v.blocks.update(i, Block::free(v.blocks[i].address, v.blocks[i].size)),
            ..v
        };
        lemma_coalesce_valid(released, i);
    }
}

/// In every allocator that satisfies the invariant the block sizes add up
/// to the size of the range, and every byte is either free or allocated.
pub proof fn lemma_sizes_sum_to_total(v: BuddyView)
    requires
        v.valid(),
    ensures
        total_bytes(v.blocks) == v.total_size,
        bytes_in(v.blocks, BlockState::Free) + bytes_in(v.blocks, BlockState::Allocated)
            == v.total_size,
        count_in(v.blocks, BlockState::Free) + count_in(v.blocks, BlockState::Allocated)
            == v.blocks.len(),
{
    lemma_prefix_bytes(v.blocks, 0, v.total_size as int, v.blocks.len() as int);
    assert(v.blocks.take(v.blocks.len() as int) =~= v.blocks);
    assert forall|i: int| 0 <= i < v.blocks.len() implies (#[trigger] v.blocks[i]).state
        != BlockState::Split by {
        assert(v.blocks[i].valid(v.min_block_size as int, v.total_size as int));
    }
    lemma_bytes_partition(v.blocks);
}

/// An allocation that succeeds moves as many bytes as the served block
/// has from the free to the allocated ones, and adds one allocated block. One
/// that fails changes nothing.
pub proof fn lemma_allocate_accounts(v: BuddyView, pid: u32, size: usize)
    requires
        v.valid(),
    ensures
        ({
            let (after, result) = v.allocate(pid, size);
            let moved = if result is Ok {
                v.request_size(size)
            } else {
                0
            };
            &&& bytes_in(after.blocks, BlockState::Allocated) == bytes_in(
                v.blocks,
                BlockState::Allocated,
            ) + moved
            &&& bytes_in(after.blocks, BlockState::Free) == bytes_in(v.blocks, BlockState::Free)
                - moved
            &&& count_in(after.blocks, BlockState::Allocated) == count_in(
                v.blocks,
                BlockState::Allocated,
            ) + (if result is Ok {
                1int
            } else {
                0
            })
            &&& result is Err ==> after == v
        }),
{
    lemma_allocate_valid(v, pid, size);
    lemma_sizes_sum_to_total(v);
    lemma_sizes_sum_to_total(v.allocate(pid, size).0);
    if v.allocate(pid, size).1 is Ok {
        let requested = v.request_size(size);
        lemma_request_size(v, size);
        let k = choose|k: int| 0 <= k < v.blocks.len() && (#[trigger] v.blocks[k]).fits(requested);
        lemma_first_fit_exists(v.blocks, requested, k);
        let i = first_fit(v.blocks, requested);
        let whole = v.blocks[i];
        assert(whole.valid(v.min_block_size as int, v.total_size as int));
        let served = seq![Block::allocated(whole.address, requested as usize, pid)];
        let rest = split_remainder(whole.address as int, requested, whole.size as int);
        lemma_split_remainder(
            whole.address as int,
            requested,
            whole.size as int,
            v.min_block_size as int,
            v.total_size as int,
        );
        let part = v.blocks.subrange(i, i + 1);
        assert(part[0] == whole);
        lemma_state_absent(part, BlockState::Allocated);
        lemma_state_absent(rest, BlockState::Allocated);
        lemma_state_splice(v.blocks, i, i + 1, served + rest, BlockState::Allocated);
        lemma_state_concat(served, rest, BlockState::Allocated);
        lemma_state_single(served[0], BlockState::Allocated);
        assert(v.allocate(pid, size).0.blocks =~= v.blocks.subrange(0, i) + (served + rest)
            + v.blocks.subrange(i + 1, v.blocks.len() as int));
    }
}

/// A release that succeeds moves as many bytes as the released block has
/// from the allocated to the free ones, and takes one allocated block away.
/// One that fails changes nothing.
pub proof fn lemma_free_accounts(v: BuddyView, address: usize)
    requires
        v.valid(),
    ensures
        ({
            let (after, result) = v.free(address);
            let moved = if result is Ok {
                v.blocks[allocated_index(v.blocks, address)].size as int
            } else {
                0
            };
            &&& bytes_in(after.blocks, BlockState::Allocated) == bytes_in(
                v.blocks,
                BlockState::Allocated,
            ) - moved
            &&& bytes_in(after.blocks, BlockState::Free) == bytes_in(v.blocks, BlockState::Free)
                + moved
            &&& count_in(after.blocks, BlockState::Allocated) == count_in(
                v.blocks,
                BlockState::Allocated,
            ) - (if result is Ok {
                1int
            } else {
                0
            })
            &&& result is Err ==> after == v
        }),
{
    lemma_free_valid(v, address);
    lemma_sizes_sum_to_total(v);
    lemma_sizes_sum_to_total(v.free(address).0);
    if is_allocated(v.blocks, address) {
        let i = allocated_index(v.blocks, address);
        assert(is_allocated_at(v.blocks, address, i));
        let held = v.blocks[i];
        let released = v.blocks.update(i, Block::free(held.address, held.size));
        lemma_release_valid(v, i);
        let part = v.blocks.subrange(i, i + 1);
        let free = seq![Block::free(held.address, held.size)];
        assert(part =~= seq![held]);
        lemma_state_single(held, BlockState::Allocated);
        lemma_state_absent(free, BlockState::Allocated);
        lemma_state_splice(v.blocks, i, i + 1, free, BlockState::Allocated);
        assert(released =~= v.blocks.subrange(0, i) + free + v.blocks.subrange(
            i + 1,
            v.blocks.len() as int,
        ));
        lemma_coalesce_keeps_allocated(BuddyView { blocks: released, ..v }, i);
    }
}

/// In every allocator that satisfies the invariant each block starts at a
/// multiple of its size, and its buddy address is the start of the block of
/// the same size that completes the aligned pair: the next one where the
/// block is the lower half of the pair, the one before where it is the upper.
pub proof fn lemma_block_aligned(v: BuddyView, i: int)
    requires
        v.valid(),
        0 <= i < v.blocks.len(),
    ensures
        v.blocks[i].address as int % v.blocks[i].size as int == 0,
        buddy_address(v.blocks[i].address, v.blocks[i].size) == (if v.blocks[i].address as int
            % (2 * v.blocks[i].size) == 0 {
            v.blocks[i].address + v.blocks[i].size
        } else {
            v.blocks[i].address - v.blocks[i].size
        }),
{
    assert(v.blocks[i].valid(v.min_block_size as int, v.total_size as int));
    lemma_buddy_address(v.blocks[i].address, v.blocks[i].size);
}

/// The block list of a range of `total` bytes that has been split down to a
/// free block of `lo` bytes at address zero.
pub open spec fn ladder(lo: usize, total: usize) -> Seq<Block> {
    seq![Block::free(0, lo)] + split_remainder(0, lo as int, total as int)
}

/// A ladder satisfies the invariant.
pub proof fn lemma_ladder_valid(lo: usize, total: usize, min: usize)
    requires
        is_pow2(total as int),
        is_pow2(min as int),
        is_pow2(lo as int),
        min <= lo <= total,
    ensures
        (BuddyView { blocks: ladder(lo, total), ..BuddyView::fresh(total, min) }).valid(),
{
    let fresh = BuddyView::fresh(total, min);
    lemma_fresh_valid(total, min);
    lemma_split_valid(fresh, 0, lo as int);
    assert(fresh.blocks.subrange(0, 0) + ladder(lo, total) + fresh.blocks.subrange(1, 1)
        =~= ladder(lo, total));
}

/// Merging the lowest block of a ladder with its buddies gives back the one
/// free block that covers the range.
pub proof fn lemma_ladder_coalesces(lo: usize, total: usize, min: usize)
    requires
        is_pow2(total as int),
        is_pow2(min as int),
        is_pow2(lo as int),
        min <= lo <= total,
    ensures
        coalesce(ladder(lo, total), 0) == seq![Block::free(0, total)],
    decreases total - lo,
{
    let steps = ladder(lo, total);
    let v = BuddyView { blocks: steps, ..BuddyView::fresh(total, min) };
    lemma_ladder_valid(lo, total, min);
    lemma_pow2_positive(lo as int);
    if lo == total {
        assert(steps =~= seq![Block::free(0, total)]);
        assert forall|j: int| !is_free_buddy(steps, 0, j) by {}
    } else {
        lemma_pow2_ordered(lo as int, total as int);
        lemma_pow2_double(lo as int);
        let twice: usize = (2 * lo) as usize;
        vstd::arithmetic::div_mod::lemma_small_mod(0, lo as nat);
        vstd::arithmetic::div_mod::lemma_small_mod(0, (2 * lo) as nat);
        lemma_buddy_address(0, lo);
        let rest = split_remainder(0, 2 * lo, total as int);
        assert(split_remainder(0, lo as int, total as int) == seq![Block::free(lo, lo)] + rest);
        assert(steps[1] == Block::free(lo, lo));
        assert(is_free_buddy(steps, 0, 1));
        assert forall|j: int| is_free_buddy(steps, 0, j) implies j == 1 by {
            lemma_free_buddy_unique(v, 0, j, 1);
        }
        assert(merge(steps, 0, 1) =~= ladder(twice, total));
        lemma_ladder_coalesces(twice, total, min);
    }
}

/// On a fresh allocator, an allocation that is released at once leaves the
/// block list as it was: one free block. The free and the allocated bytes
/// and blocks are then what they were before the allocation.
pub proof fn lemma_allocate_free_round_trip(
    total_size: usize,
    min_block_size: usize,
    pid: u32,
    size: usize,
)
    requires
        is_pow2(total_size as int),
        is_pow2(min_block_size as int),
        min_block_size <= total_size,
        0 < size <= total_size,
    ensures
        ({
            let fresh = BuddyView::fresh(total_size, min_block_size);
            let (served, address) = fresh.allocate(pid, size);
            let (released, outcome) = served.free(0);
            &&& address == Ok::<usize, crate::modules::mem::buddy::BuddyError>(0)
            &&& outcome is Ok
            &&& released.blocks == fresh.blocks
            &&& released.stats().free_memory == fresh.stats().free_memory
            &&& released.stats().free_blocks == fresh.stats().free_blocks
            &&& released.stats().allocated_memory == fresh.stats().allocated_memory
            &&& released.stats().allocated_blocks == fresh.stats().allocated_blocks
            &&& released.stats().largest_free_block == fresh.stats().largest_free_block
        }),
{
    let fresh = BuddyView::fresh(total_size, min_block_size);
    lemma_fresh_valid(total_size, min_block_size);
    lemma_request_size(fresh, size);
    let requested = fresh.request_size(size);
    assert(fresh.blocks[0].fits(requested));
    lemma_first_fit_exists(fresh.blocks, requested, 0);
    let served = fresh.allocate(pid, size).0;
    lemma_allocate_valid(fresh, pid, size);
    assert(served.blocks =~= seq![Block::allocated(0, requested as usize, pid)]
        + split_remainder(0, requested, total_size as int));
    assert(is_allocated_at(served.blocks, 0, 0));
    assert forall|k: int| is_allocated_at(served.blocks, 0, k) implies k == 0 by {
        lemma_address_unique(
            served.blocks,
            min_block_size as int,
            total_size as int,
            k,
            0,
        );
    }
    assert(served.blocks.update(0, Block::free(0, requested as usize)) =~= ladder(
        requested as usize,
        total_size,
    ));
    lemma_ladder_coalesces(requested as usize, total_size, min_block_size);
}

/// On a fresh allocator with room for two smallest blocks, two requests of
/// at most the smallest block size are served at address zero and right
/// after it, and releasing both, in either order, merges the two blocks with
/// each other and on up to the one free block that covers the range.
pub proof fn lemma_two_blocks_coalesce(
    total_size: usize,
    min_block_size: usize,
    first_pid: u32,
    first_size: usize,
    second_pid: u32,
    second_size: usize,
)
    requires
        is_pow2(total_size as int),
        is_pow2(min_block_size as int),
        2 * min_block_size <= total_size,
        0 < first_size <= min_block_size,
        0 < second_size <= min_block_size,
    ensures
        ({
            let fresh = BuddyView::fresh(total_size, min_block_size);
            let (one, first_address) = fresh.allocate(first_pid, first_size);
            let (two, second_address) = one.allocate(second_pid, second_size);
            &&& first_address == Ok::<usize, crate::modules::mem::buddy::BuddyError>(0)
            &&& second_address == Ok::<usize, crate::modules::mem::buddy::BuddyError>(
                min_block_size,
            )
            &&& two.free(0).1 is Ok
            &&& two.free(0).0.free(min_block_size).1 is Ok
            &&& two.free(0).0.free(min_block_size).0.blocks == fresh.blocks
            &&& two.free(min_block_size).1 is Ok
            &&& two.free(min_block_size).0.free(0).1 is Ok
            &&& two.free(min_block_size).0.free(0).0.blocks == fresh.blocks
        }),
{
    let total = total_size as int;
    let min = min_block_size as int;
    let m = min_block_size;
    let fresh = BuddyView::fresh(total_size, min_block_size);
    lemma_fresh_valid(total_size, min_block_size);
    lemma_pow2_positive(min);
    lemma_next_power_of_two_fixed(min);
    assert(fresh.request_size(first_size) == min);
    assert(fresh.request_size(second_size) == min);
    let rest = split_remainder(0, 2 * min, total);
    assert(split_remainder(0, min, total) == seq![Block::free(m, m)] + rest);
    let held_low = Block::allocated(0, m, first_pid);
    let held_high = Block::allocated(m, m, second_pid);
    let free_low = Block::free(0, m);
    let free_high = Block::free(m, m);

    // The first allocation takes the lowest smallest block.
    assert(fresh.blocks[0].fits(min));
    lemma_first_fit_exists(fresh.blocks, min, 0);
    let one = fresh.allocate(first_pid, first_size).0;
    lemma_allocate_valid(fresh, first_pid, first_size);
    assert(one.blocks =~= seq![held_low, free_high] + rest);

    // The second allocation takes its buddy, which needs no splitting.
    assert(one.blocks[1].fits(min));
    lemma_first_fit_exists(one.blocks, min, 1);
    assert(!one.blocks[0].fits(min));
    assert(first_fit(one.blocks, min) == 1);
    let two = one.allocate(second_pid, second_size).0;
    lemma_allocate_valid(one, second_pid, second_size);
    assert(split_remainder(m as int, min, min) =~= Seq::<Block>::empty());
    assert(two.blocks =~= seq![held_low, held_high] + rest);
    assert(two.blocks.len() >= 2);

    vstd::arithmetic::div_mod::lemma_small_mod(0, m as nat);
    vstd::arithmetic::div_mod::lemma_small_mod(0, (2 * m) as nat);
    vstd::arithmetic::div_mod::lemma_small_mod(m as nat, (2 * m) as nat);
    vstd::arithmetic::div_mod::lemma_mod_self_0(min);
    lemma_buddy_address(0, m);
    lemma_buddy_address(m, m);
    assert(buddy_address(0, m) == m);
    assert(buddy_address(m, m) == 0);

    assert(is_allocated_at(two.blocks, 0, 0));
    assert(is_allocated_at(two.blocks, m, 1));
    assert forall|k: int| is_allocated_at(two.blocks, 0, k) implies k == 0 by {
        lemma_address_unique(two.blocks, min, total, k, 0);
    }
    assert forall|k: int| is_allocated_at(two.blocks, m, k) implies k == 1 by {
        lemma_address_unique(two.blocks, min, total, k, 1);
    }
    lemma_ladder_coalesces(m, total_size, min_block_size);
    let both_free = seq![free_low, free_high] + rest;
    assert(both_free =~= ladder(m, total_size));
    lemma_ladder_valid(m, total_size, min_block_size);
    let both_free_view = BuddyView { blocks: both_free, ..fresh };

    // Lower block first: its buddy is still held, so nothing merges yet.
    {
        let low_free = seq![free_low, held_high] + rest;
        assert(two.blocks.update(0, free_low) =~= low_free);
        lemma_release_valid(two, 0);
        let low_free_view = BuddyView { blocks: low_free, ..two };
        assert forall|j: int| !is_free_buddy(low_free, 0, j) by {
            if is_free_buddy(low_free, 0, j) {
                lemma_address_unique(low_free, min, total, j, 1);
            }
        }
        assert(coalesce(low_free, 0) == low_free);
        let after = two.free(0).0;
        assert(after.blocks == low_free);
        assert(is_allocated_at(low_free, m, 1));
        assert forall|k: int| is_allocated_at(low_free, m, k) implies k == 1 by {
            lemma_address_unique(low_free, min, total, k, 1);
        }
        assert(low_free.update(1, free_high) =~= both_free);
        assert(is_free_buddy(both_free, 1, 0));
        assert forall|j: int| is_free_buddy(both_free, 1, j) implies j == 0 by {
            lemma_free_buddy_unique(both_free_view, 1, j, 0);
        }
        assert(merge(both_free, 1, 0) =~= ladder((2 * m) as usize, total_size));
        lemma_pow2_double(min);
        lemma_ladder_coalesces((2 * m) as usize, total_size, min_block_size);
        assert(coalesce(both_free, 1) == seq![Block::free(0, total_size)]);
    }

    // Upper block first: its buddy is still held, so nothing merges yet.
    {
        let high_free = seq![held_low, free_high] + rest;
        assert(two.blocks.update(1, free_high) =~= high_free);
        lemma_release_valid(two, 1);
        assert forall|j: int| !is_free_buddy(high_free, 1, j) by {
            if is_free_buddy(high_free, 1, j) {
                lemma_address_unique(high_free, min, total, j, 0);
            }
        }
        assert(coalesce(high_free, 1) == high_free);
        let after = two.free(m).0;
        assert(after.blocks == high_free);
        assert(is_allocated_at(high_free, 0, 0));
        assert forall|k: int| is_allocated_at(high_free, 0, k) implies k == 0 by {
            lemma_address_unique(high_free, min, total, k, 0);
        }
        assert(high_free.update(0, free_low) =~= both_free);
        assert(coalesce(both_free, 0) == seq![Block::free(0, total_size)]);
    }
}

} // verus!
