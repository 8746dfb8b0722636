//! Facts about block lists: order, sums, splitting and merging.
use vstd::prelude::*;
use vstd::arithmetic::power2::is_pow2;
use crate::modules::mem::buddy::{
    all_valid, alloc_blocks, bytes_in, chained, coalesce, count_in, is_allocated,
    is_allocated_at, is_free_buddy, largest_free, merge, merged_block, split_remainder, tiles,
    total_bytes, Block, BlockState, BuddyView,
};
use crate::modules::mem::power::{
    lemma_buddy_address, lemma_multiple_of_divisor, lemma_multiple_plus, lemma_pow2_divides,
    lemma_pow2_double, lemma_pow2_ordered, lemma_pow2_positive,
};

verus! {

/// The address at which block `i` of a chain from `start` begins: `start`
/// for the first block, the end of the block before it for the others.
pub open spec fn boundary(blocks: Seq<Block>, start: int, i: int) -> int {
    if i == 0 {
        start
    } else {
        blocks[i - 1].end()
    }
}

/// Two chains that meet make one chain.
pub proof fn lemma_chained_concat(a: Seq<Block>, b: Seq<Block>, start: int, mid: int, end: int)
    requires
        chained(a, start, mid),
        chained(b, mid, end),
    ensures
        chained(a + b, start, end),
{
    let c = a + b;
    if a.len() == 0 {
        assert(c =~= b);
    } else if b.len() == 0 {
        assert(c =~= a);
    } else {
        assert(c[0] == a[0]);
        assert(c.last() == b.last());
        assert forall|i: int, j: int| 0 <= i && j == i + 1 && j < c.len() implies (
        #[trigger] c[i]).end() == (#[trigger] c[j]).address by {
            if j < a.len() {
                assert(c[i] == a[i] && c[j] == a[j]);
            } else if i < a.len() {
                assert(c[i] == a.last());
                assert(c[j] == b[0]);
            } else {
                assert(c[i] == b[i - a.len()] && c[j] == b[j - a.len()]);
            }
        }
    }
}

/// A part of a chain is a chain between its boundaries.
pub proof fn lemma_chained_subrange(blocks: Seq<Block>, start: int, end: int, lo: int, hi: int)
    requires
        chained(blocks, start, end),
        0 <= lo <= hi <= blocks.len(),
    ensures
        chained(
            blocks.subrange(lo, hi),
            boundary(blocks, start, lo),
            boundary(blocks, start, hi),
        ),
        lo < blocks.len() ==> boundary(blocks, start, lo) == blocks[lo].address,
        boundary(blocks, start, blocks.len() as int) == end,
{
    let part = blocks.subrange(lo, hi);
    if lo < blocks.len() && lo > 0 {
        assert(blocks[lo - 1].end() == blocks[lo].address);
    }
    if lo < hi {
        assert(part[0] == blocks[lo]);
        assert(part.last() == blocks[hi - 1]);
        assert forall|i: int, j: int| 0 <= i && j == i + 1 && j < part.len() implies (
        #[trigger] part[i]).end() == (#[trigger] part[j]).address by {
            assert(part[i] == blocks[lo + i] && part[j] == blocks[lo + j]);
        }
    }
}

/// In a valid list that covers a range, a block ends before every later block begins.
pub proof fn lemma_blocks_ordered(blocks: Seq<Block>, min: int, total: int, i: int, j: int)
    requires
        tiles(blocks, total),
        all_valid(blocks, min, total),
        0 <= i < j < blocks.len(),
    ensures
        blocks[i].end() <= blocks[j].address,
    decreases j - i,
{
    if j == i + 1 {
        assert(blocks[i].end() == blocks[j].address);
    } else {
        lemma_blocks_ordered(blocks, min, total, i, j - 1);
        assert(blocks[j - 1].end() == blocks[j].address);
        assert(blocks[j - 1].valid(min, total));
        lemma_pow2_positive(blocks[j - 1].size as int);
    }
}

/// In a valid list that covers a range, no two blocks start at the same address.
pub proof fn lemma_address_unique(blocks: Seq<Block>, min: int, total: int, i: int, j: int)
    requires
        tiles(blocks, total),
        all_valid(blocks, min, total),
        0 <= i < blocks.len(),
        0 <= j < blocks.len(),
        blocks[i].address == blocks[j].address,
    ensures
        i == j,
{
    if i < j {
        lemma_blocks_ordered(blocks, min, total, i, j);
        assert(blocks[i].valid(min, total));
        lemma_pow2_positive(blocks[i].size as int);
    } else if j < i {
        lemma_blocks_ordered(blocks, min, total, j, i);
        assert(blocks[j].valid(min, total));
        lemma_pow2_positive(blocks[j].size as int);
    }
}

/// The sizes of the first `k` blocks of a chain add up to the distance from
/// its start to the boundary after them.
pub proof fn lemma_prefix_bytes(blocks: Seq<Block>, start: int, end: int, k: int)
    requires
        chained(blocks, start, end),
        0 <= k <= blocks.len(),
    ensures
        total_bytes(blocks.take(k)) == boundary(blocks, start, k) - start,
    decreases k,
{
    if k > 0 {
        lemma_prefix_bytes(blocks, start, end, k - 1);
        assert(blocks.take(k).drop_last() =~= blocks.take(k - 1));
        assert(blocks.take(k).last() == blocks[k - 1]);
        if k > 1 {
            assert(blocks[k - 2].end() == blocks[k - 1].address);
        }
    }
}

/// The bytes in one state are bounded by all the bytes, the blocks in one
/// state by the number of blocks, and the largest free block by the free bytes.
pub proof fn lemma_state_bounds(blocks: Seq<Block>, state: BlockState)
    ensures
        0 <= bytes_in(blocks, state) <= total_bytes(blocks),
        0 <= count_in(blocks, state) <= blocks.len(),
        0 <= largest_free(blocks) <= bytes_in(blocks, BlockState::Free),
        count_in(blocks, BlockState::Free) == 0 ==> largest_free(blocks) == 0,
    decreases blocks.len(),
{
    if blocks.len() > 0 {
        lemma_state_bounds(blocks.drop_last(), state);
        lemma_state_bounds(blocks.drop_last(), BlockState::Free);
    }
}

/// In a list without split blocks, the free and the allocated bytes are all the bytes.
pub proof fn lemma_bytes_partition(blocks: Seq<Block>)
    requires
        forall|i: int| 0 <= i < blocks.len() ==> (#[trigger] blocks[i]).state != BlockState::Split,
    ensures
        bytes_in(blocks, BlockState::Free) + bytes_in(blocks, BlockState::Allocated)
            == total_bytes(blocks),
        count_in(blocks, BlockState::Free) + count_in(blocks, BlockState::Allocated)
            == blocks.len(),
    decreases blocks.len(),
{
    if blocks.len() > 0 {
        let rest = blocks.drop_last();
        assert forall|i: int| 0 <= i < rest.len() implies (#[trigger] rest[i]).state
            != BlockState::Split by {
            assert(rest[i] == blocks[i]);
        }
        lemma_bytes_partition(rest);
        assert(blocks.last() == blocks[blocks.len() - 1]);
    }
}

/// The bytes and the blocks in one state of a list made of two lists are
/// those of the one and those of the other.
pub proof fn lemma_state_concat(a: Seq<Block>, b: Seq<Block>, state: BlockState)
    ensures
        bytes_in(a + b, state) == bytes_in(a, state) + bytes_in(b, state),
        count_in(a + b, state) == count_in(a, state) + count_in(b, state),
    decreases b.len(),
{
    if b.len() == 0 {
        assert(a + b =~= a);
    } else {
        lemma_state_concat(a, b.drop_last(), state);
        assert((a + b).drop_last() =~= a + b.drop_last());
        assert((a + b).last() == b.last());
    }
}

/// The bytes and the blocks in one state of a list of one block are those
/// of the block.
pub proof fn lemma_state_single(block: Block, state: BlockState)
    ensures
        bytes_in(seq![block], state) == (if block.state == state {
            block.size as int
        } else {
            0
        }),
        count_in(seq![block], state) == (if block.state == state {
            1int
        } else {
            0
        }),
{
    let one = seq![block];
    assert(one.drop_last() =~= Seq::<Block>::empty());
    assert(bytes_in(one.drop_last(), state) == 0);
    assert(count_in(one.drop_last(), state) == 0);
    assert(one.last() == block);
}

/// A list without a block in `state` has no bytes and no blocks in that state.
pub proof fn lemma_state_absent(blocks: Seq<Block>, state: BlockState)
    requires
        forall|k: int| 0 <= k < blocks.len() ==> (#[trigger] blocks[k]).state != state,
    ensures
        bytes_in(blocks, state) == 0,
        count_in(blocks, state) == 0,
    decreases blocks.len(),
{
    if blocks.len() > 0 {
        let front = blocks.drop_last();
        assert forall|k: int| 0 <= k < front.len() implies (#[trigger] front[k]).state
            != state by {
            assert(front[k] == blocks[k]);
        }
        lemma_state_absent(front, state);
        assert(blocks.last() == blocks[blocks.len() - 1]);
    }
}

/// Replacing a part of a list by other blocks changes the bytes and the
/// blocks in one state by what the other blocks have more of them than the
/// part had.
pub proof fn lemma_state_splice(
    blocks: Seq<Block>,
    lo: int,
    hi: int,
    mid: Seq<Block>,
    state: BlockState,
)
    requires
        0 <= lo <= hi <= blocks.len(),
    ensures
        bytes_in(
            blocks.subrange(0, lo) + mid + blocks.subrange(hi, blocks.len() as int),
            state,
        ) == bytes_in(blocks, state) - bytes_in(blocks.subrange(lo, hi), state) + bytes_in(
            mid,
            state,
        ),
        count_in(
            blocks.subrange(0, lo) + mid + blocks.subrange(hi, blocks.len() as int),
            state,
        ) == count_in(blocks, state) - count_in(blocks.subrange(lo, hi), state) + count_in(
            mid,
            state,
        ),
{
    let before = blocks.subrange(0, lo);
    let part = blocks.subrange(lo, hi);
    let after = blocks.subrange(hi, blocks.len() as int);
    assert(blocks =~= before + part + after);
    lemma_state_concat(before, part, state);
    lemma_state_concat(before + part, after, state);
    lemma_state_concat(before, mid, state);
    lemma_state_concat(before + mid, after, state);
}

/// A list made of two lists of valid blocks holds valid blocks only.
pub proof fn lemma_all_valid_concat(a: Seq<Block>, b: Seq<Block>, min: int, total: int)
    requires
        all_valid(a, min, total),
        all_valid(b, min, total),
    ensures
        all_valid(a + b, min, total),
{
    let c = a + b;
    assert forall|i: int| 0 <= i < c.len() implies (#[trigger] c[i]).valid(min, total) by {
        if i < a.len() {
            assert(c[i] == a[i]);
        } else {
            assert(c[i] == b[i - a.len()]);
        }
    }
}

/// A part of a list of valid blocks holds valid blocks only.
pub proof fn lemma_all_valid_subrange(blocks: Seq<Block>, min: int, total: int, lo: int, hi: int)
    requires
        all_valid(blocks, min, total),
        0 <= lo <= hi <= blocks.len(),
    ensures
        all_valid(blocks.subrange(lo, hi), min, total),
{
    let part = blocks.subrange(lo, hi);
    assert forall|i: int| 0 <= i < part.len() implies (#[trigger] part[i]).valid(min, total) by {
        assert(part[i] == blocks[lo + i]);
    }
}

/// What is left over of a split is a chain of valid free blocks from the end
/// of the lowest part to the end of the block that was split.
pub proof fn lemma_split_remainder(address: int, lo: int, hi: int, min: int, total: int)
    requires
        is_pow2(lo),
        is_pow2(hi),
        min <= lo <= hi,
        0 <= address,
        address % hi == 0,
        address + hi <= total <= usize::MAX,
    ensures
        chained(split_remainder(address, lo, hi), address + lo, address + hi),
        all_valid(split_remainder(address, lo, hi), min, total),
        forall|k: int|
            0 <= k < split_remainder(address, lo, hi).len() ==> (#[trigger] split_remainder(
                address,
                lo,
                hi,
            )[k]).state == BlockState::Free,
    decreases hi - lo,
{
    lemma_pow2_positive(lo);
    if lo < hi {
        lemma_pow2_ordered(lo, hi);
        lemma_pow2_double(lo);
        lemma_split_remainder(address, 2 * lo, hi, min, total);
        let first = Block::free((address + lo) as usize, lo as usize);
        let rest = split_remainder(address, 2 * lo, hi);
        let all = split_remainder(address, lo, hi);
        assert(all == seq![first] + rest);
        lemma_multiple_of_divisor(address, lo, hi);
        lemma_multiple_plus(address, lo);
        assert(first.valid(min, total));
        assert(chained(seq![first], address + lo, address + 2 * lo));
        lemma_chained_concat(seq![first], rest, address + lo, address + 2 * lo, address + hi);
        assert(all_valid(seq![first], min, total));
        lemma_all_valid_concat(seq![first], rest, min, total);
        assert forall|k: int| 0 <= k < all.len() implies (#[trigger] all[k]).state
            == BlockState::Free by {
            if k > 0 {
                assert(all[k] == rest[k - 1]);
            }
        }
    }
}

/// Serving a request from a block that fits keeps the list valid.
pub proof fn lemma_alloc_blocks_valid(v: BuddyView, i: int, pid: u32, requested: int)
    requires
        v.valid(),
        0 <= i < v.blocks.len(),
        v.blocks[i].fits(requested),
        is_pow2(requested),
        v.min_block_size <= requested,
    ensures
        (BuddyView { blocks: alloc_blocks(v.blocks, i, pid, requested), ..v }).valid(),
{
    let min = v.min_block_size as int;
    let total = v.total_size as int;
    let blocks = v.blocks;
    let b = blocks[i];
    assert(b.valid(min, total));
    let before = blocks.subrange(0, i);
    let after = blocks.subrange(i + 1, blocks.len() as int);
    let served = Block::allocated(b.address, requested as usize, pid);
    let rest = split_remainder(b.address as int, requested, b.size as int);
    lemma_chained_subrange(blocks, 0, total, 0, i);
    lemma_chained_subrange(blocks, 0, total, i + 1, blocks.len() as int);
    lemma_split_remainder(b.address as int, requested, b.size as int, min, total);
    lemma_pow2_positive(requested);
    lemma_pow2_divides(requested, b.size as int);
    lemma_multiple_of_divisor(b.address as int, requested, b.size as int);
    assert(served.valid(min, total));
    assert(chained(seq![served], b.address as int, b.address + requested));
    lemma_chained_concat(before, seq![served], 0, b.address as int, b.address + requested);
    lemma_chained_concat(before + seq![served], rest, 0, b.address + requested, b.end());
    lemma_chained_concat(before + seq![served] + rest, after, 0, b.end(), total);
    lemma_all_valid_subrange(blocks, min, total, 0, i);
    lemma_all_valid_subrange(blocks, min, total, i + 1, blocks.len() as int);
    assert(all_valid(seq![served], min, total));
    lemma_all_valid_concat(before, seq![served], min, total);
    lemma_all_valid_concat(before + seq![served], rest, min, total);
    lemma_all_valid_concat(before + seq![served] + rest, after, min, total);
}

/// The free buddy of a block is the block next to it: the one after it where
/// the block starts an aligned pair, the one before it otherwise. The lower of
/// the two starts the aligned pair, and the upper one begins where it ends.
pub proof fn lemma_free_buddy_adjacent(v: BuddyView, i: int, j: int)
    requires
        v.valid(),
        0 <= i < v.blocks.len(),
        is_free_buddy(v.blocks, i, j),
    ensures
        j == i + 1 || j == i - 1,
        ({
            let first = if i < j {
                i
            } else {
                j
            };
            &&& merged_block(v.blocks, i).address == v.blocks[first].address
            &&& v.blocks[first].address as int % (2 * v.blocks[i].size) == 0
            &&& v.blocks[first].end() == v.blocks[first + 1].address
            &&& v.blocks[first].size == v.blocks[first + 1].size
        }),
{
    let min = v.min_block_size as int;
    let total = v.total_size as int;
    let blocks = v.blocks;
    let b = blocks[i];
    assert(b.valid(min, total));
    assert(blocks[j].valid(min, total));
    lemma_pow2_positive(b.size as int);
    lemma_buddy_address(b.address, b.size);
    if b.address as int % (2 * b.size) == 0 {
        if i + 1 < blocks.len() {
            assert(blocks[i].end() == blocks[i + 1].address);
            lemma_address_unique(blocks, min, total, i + 1, j);
        }
    } else {
        if i < j {
            lemma_blocks_ordered(blocks, min, total, i, j);
        }
        assert(blocks[j].end() == blocks[j + 1].address);
        lemma_address_unique(blocks, min, total, j + 1, i);
    }
}

/// A block has at most one free buddy.
pub proof fn lemma_free_buddy_unique(v: BuddyView, i: int, j: int, k: int)
    requires
        v.valid(),
        0 <= i < v.blocks.len(),
        is_free_buddy(v.blocks, i, j),
        is_free_buddy(v.blocks, i, k),
    ensures
        j == k,
{
    lemma_address_unique(v.blocks, v.min_block_size as int, v.total_size as int, j, k);
}

/// Merging a free block with its free buddy puts one free block in the place
/// of the two and keeps the list valid.
pub proof fn lemma_merge(v: BuddyView, i: int, j: int)
    requires
        v.valid(),
        0 <= i < v.blocks.len(),
        v.blocks[i].state == BlockState::Free,
        is_free_buddy(v.blocks, i, j),
    ensures
        ({
            let first = if i < j {
                i
            } else {
                j
            };
            &&& 0 <= first < v.blocks.len() - 1
            &&& merge(v.blocks, i, j) == v.blocks.subrange(0, first) + seq![
                merged_block(v.blocks, i),
            ] + v.blocks.subrange(first + 2, v.blocks.len() as int)
            &&& merge(v.blocks, i, j)[first] == merged_block(v.blocks, i)
        }),
        merge(v.blocks, i, j).len() == v.blocks.len() - 1,
        (BuddyView { blocks: merge(v.blocks, i, j), ..v }).valid(),
{
    let min = v.min_block_size as int;
    let total = v.total_size as int;
    let blocks = v.blocks;
    let first = if i < j {
        i
    } else {
        j
    };
    lemma_free_buddy_adjacent(v, i, j);
    let m = merged_block(blocks, i);
    let before = blocks.subrange(0, first);
    let after = blocks.subrange(first + 2, blocks.len() as int);
    assert(merge(blocks, i, j) =~= before + seq![m] + after);
    let lower = blocks[first];
    let upper = blocks[first + 1];
    assert(lower.valid(min, total));
    assert(upper.valid(min, total));
    lemma_pow2_double(lower.size as int);
    assert(m.valid(min, total));
    lemma_chained_subrange(blocks, 0, total, 0, first);
    lemma_chained_subrange(blocks, 0, total, first + 2, blocks.len() as int);
    assert(chained(seq![m], lower.address as int, upper.end()));
    lemma_chained_concat(before, seq![m], 0, lower.address as int, upper.end());
    lemma_chained_concat(before + seq![m], after, 0, upper.end(), total);
    lemma_all_valid_subrange(blocks, min, total, 0, first);
    lemma_all_valid_subrange(blocks, min, total, first + 2, blocks.len() as int);
    assert(all_valid(seq![m], min, total));
    lemma_all_valid_concat(before, seq![m], min, total);
    lemma_all_valid_concat(before + seq![m], after, min, total);
}

/// Merging a free block with its free buddies for as long as there is one
/// keeps the list valid.
pub proof fn lemma_coalesce_valid(v: BuddyView, i: int)
    requires
        v.valid(),
        0 <= i < v.blocks.len(),
        v.blocks[i].state == BlockState::Free,
    ensures
        (BuddyView { blocks: coalesce(v.blocks, i), ..v }).valid(),
    decreases v.blocks.len(),
{
    if exists|j: int| is_free_buddy(v.blocks, i, j) {
        let j = choose|j: int| is_free_buddy(v.blocks, i, j);
        lemma_merge(v, i, j);
        let first = if i < j {
            i
        } else {
            j
        };
        lemma_coalesce_valid(BuddyView { blocks: merge(v.blocks, i, j), ..v }, first);
    }
}

/// Merging a free block with its free buddies for as long as there is one
/// leaves the allocated bytes and blocks as they are.
pub proof fn lemma_coalesce_keeps_allocated(v: BuddyView, i: int)
    requires
        v.valid(),
        0 <= i < v.blocks.len(),
        v.blocks[i].state == BlockState::Free,
    ensures
        bytes_in(coalesce(v.blocks, i), BlockState::Allocated) == bytes_in(
            v.blocks,
            BlockState::Allocated,
        ),
        count_in(coalesce(v.blocks, i), BlockState::Allocated) == count_in(
            v.blocks,
            BlockState::Allocated,
        ),
    decreases v.blocks.len(),
{
    if exists|j: int| is_free_buddy(v.blocks, i, j) {
        let j = choose|j: int| is_free_buddy(v.blocks, i, j);
        lemma_merge(v, i, j);
        lemma_free_buddy_adjacent(v, i, j);
        let first = if i < j {
            i
        } else {
            j
        };
        let pair = v.blocks.subrange(first, first + 2);
        let merged = seq![merged_block(v.blocks, i)];
        assert forall|k: int| 0 <= k < pair.len() implies (#[trigger] pair[k]).state
            != BlockState::Allocated by {
            assert(pair[k] == v.blocks[first + k]);
        }
        lemma_state_absent(pair, BlockState::Allocated);
        lemma_state_absent(merged, BlockState::Allocated);
        lemma_state_splice(v.blocks, first, first + 2, merged, BlockState::Allocated);
        lemma_coalesce_keeps_allocated(BuddyView { blocks: merge(v.blocks, i, j), ..v }, first);
    }
}

/// Whether `index` holds exactly the allocated blocks of `blocks`, each under its address.
pub open spec fn index_matches(index: Map<usize, Block>, blocks: Seq<Block>) -> bool {
    &&& forall|i: int|
        0 <= i < blocks.len() && (#[trigger] blocks[i]).state == BlockState::Allocated
            ==> index.contains_key(blocks[i].address) && index[blocks[i].address] == blocks[i]
    &&& forall|a: usize| #[trigger] index.contains_key(a) ==> is_allocated(blocks, a)
}

/// An index stays right when blocks that are not allocated are replaced by
/// blocks that are not allocated.
pub proof fn lemma_index_splice(
    index: Map<usize, Block>,
    blocks: Seq<Block>,
    lo: int,
    hi: int,
    mid: Seq<Block>,
)
    requires
        index_matches(index, blocks),
        0 <= lo <= hi <= blocks.len(),
        forall|k: int| lo <= k < hi ==> (#[trigger] blocks[k]).state != BlockState::Allocated,
        forall|k: int| 0 <= k < mid.len() ==> (#[trigger] mid[k]).state != BlockState::Allocated,
    ensures
        index_matches(
            index,
            blocks.subrange(0, lo) + mid + blocks.subrange(hi, blocks.len() as int),
        ),
{
    let new = blocks.subrange(0, lo) + mid + blocks.subrange(hi, blocks.len() as int);
    assert forall|i: int|
        0 <= i < new.len() && (#[trigger] new[i]).state
            == BlockState::Allocated implies index.contains_key(new[i].address)
        && index[new[i].address] == new[i] by {
        if i < lo {
            assert(new[i] == blocks[i]);
        } else if i < lo + mid.len() {
            assert(new[i] == mid[i - lo]);
        } else {
            assert(new[i] == blocks[i - lo - mid.len() + hi]);
        }
    }
    assert forall|a: usize| #[trigger] index.contains_key(a) implies is_allocated(new, a) by {
        let k = choose|k: int| is_allocated_at(blocks, a, k);
        if k < lo {
            assert(new[k] == blocks[k]);
            assert(is_allocated_at(new, a, k));
        } else {
            let n = k - hi + lo + mid.len();
            assert(new[n] == blocks[k]);
            assert(is_allocated_at(new, a, n));
        }
    }
}

/// An index stays right when a free block becomes allocated and is entered
/// under its address.
pub proof fn lemma_index_mark(index: Map<usize, Block>, v: BuddyView, i: int, served: Block)
    requires
        v.valid(),
        index_matches(index, v.blocks),
        0 <= i < v.blocks.len(),
        v.blocks[i].state != BlockState::Allocated,
        served.address == v.blocks[i].address,
        served.state == BlockState::Allocated,
    ensures
        index_matches(index.insert(served.address, served), v.blocks.update(i, served)),
{
    let blocks = v.blocks;
    let new = blocks.update(i, served);
    let new_index = index.insert(served.address, served);
    assert forall|k: int|
        0 <= k < new.len() && (#[trigger] new[k]).state
            == BlockState::Allocated implies new_index.contains_key(new[k].address)
        && new_index[new[k].address] == new[k] by {
        if k != i {
            assert(new[k] == blocks[k]);
            if blocks[k].address == served.address {
                lemma_address_unique(
                    blocks,
                    v.min_block_size as int,
                    v.total_size as int,
                    k,
                    i,
                );
            }
        }
    }
    assert forall|a: usize| #[trigger] new_index.contains_key(a) implies is_allocated(new, a) by {
        if a == served.address {
            assert(is_allocated_at(new, a, i));
        } else {
            let k = choose|k: int| is_allocated_at(blocks, a, k);
            assert(new[k] == blocks[k]);
            assert(is_allocated_at(new, a, k));
        }
    }
}

/// An index stays right when an allocated block becomes free and leaves the index.
pub proof fn lemma_index_unmark(index: Map<usize, Block>, v: BuddyView, i: int)
    requires
        v.valid(),
        index_matches(index, v.blocks),
        0 <= i < v.blocks.len(),
    ensures
        index_matches(
            index.remove(v.blocks[i].address),
            v.blocks.update(i, Block::free(v.blocks[i].address, v.blocks[i].size)),
        ),
{
    let blocks = v.blocks;
    let address = blocks[i].address;
    let new = blocks.update(i, Block::free(address, blocks[i].size));
    let new_index = index.remove(address);
    assert forall|k: int|
        0 <= k < new.len() && (#[trigger] new[k]).state
            == BlockState::Allocated implies new_index.contains_key(new[k].address)
        && new_index[new[k].address] == new[k] by {
        assert(k != i);
        assert(new[k] == blocks[k]);
        if blocks[k].address == address {
            lemma_address_unique(blocks, v.min_block_size as int, v.total_size as int, k, i);
        }
    }
    assert forall|a: usize| #[trigger] new_index.contains_key(a) implies is_allocated(new, a) by {
        let k = choose|k: int| is_allocated_at(blocks, a, k);
        assert(new[k] == blocks[k]);
        assert(is_allocated_at(new, a, k));
    }
}

/// Releasing an allocated block keeps the list valid.
pub proof fn lemma_release_valid(v: BuddyView, i: int)
    requires
        v.valid(),
        0 <= i < v.blocks.len(),
    ensures
        (BuddyView {
            blocks: v.blocks.update(i, Block::free(v.blocks[i].address, v.blocks[i].size)),
            ..v
        }).valid(),
{
    let min = v.min_block_size as int;
    let total = v.total_size as int;
    let blocks = v.blocks;
    let new = blocks.update(i, Block::free(blocks[i].address, blocks[i].size));
    assert(blocks[i].valid(min, total));
    assert forall|k: int| 0 <= k < new.len() implies (#[trigger] new[k]).valid(min, total) by {
        if k != i {
            assert(new[k] == blocks[k]);
        }
    }
    assert forall|k: int, l: int| 0 <= k && l == k + 1 && l < new.len() implies (
    #[trigger] new[k]).end() == (#[trigger] new[l]).address by {
        assert(blocks[k].end() == blocks[l].address);
    }
}

/// Splitting a free block that fits keeps the list valid.
pub proof fn lemma_split_valid(v: BuddyView, i: int, requested: int)
    requires
        v.valid(),
        0 <= i < v.blocks.len(),
        v.blocks[i].fits(requested),
        is_pow2(requested),
        v.min_block_size <= requested,
    ensures
        (BuddyView {
            blocks: v.blocks.subrange(0, i) + (seq![
                Block::free(v.blocks[i].address, requested as usize),
            ] + split_remainder(v.blocks[i].address as int, requested, v.blocks[i].size as int))
                + v.blocks.subrange(i + 1, v.blocks.len() as int),
            ..v
        }).valid(),
{
    let served = alloc_blocks(v.blocks, i, 0, requested);
    lemma_alloc_blocks_valid(v, i, 0, requested);
    let split = v.blocks.subrange(0, i) + (seq![
        Block::free(v.blocks[i].address, requested as usize),
    ] + split_remainder(v.blocks[i].address as int, requested, v.blocks[i].size as int))
        + v.blocks.subrange(i + 1, v.blocks.len() as int);
    let lowest = Block::free(v.blocks[i].address, requested as usize);
    assert(split =~= served.update(i, lowest));
    assert(served[i] == Block::allocated(v.blocks[i].address, requested as usize, 0));
    let min = v.min_block_size as int;
    let total = v.total_size as int;
    assert(served[i].valid(min, total));
    assert forall|k: int| 0 <= k < split.len() implies (#[trigger] split[k]).valid(
        min,
        total,
    ) by {
        if k != i {
            assert(split[k] == served[k]);
        }
    }
    assert forall|k: int, l: int| 0 <= k && l == k + 1 && l < split.len() implies (
    #[trigger] split[k]).end() == (#[trigger] split[l]).address by {
        assert(served[k].end() == served[l].address);
    }
}

} // verus!
