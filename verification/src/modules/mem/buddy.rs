//! A buddy allocator: one power-of-two address range, kept as an
//! address-ordered list of power-of-two blocks that are split on allocation
//! and merged with their buddies on release.
use vstd::prelude::*;
use vstd::arithmetic::power2::is_pow2;
use std::collections::HashMap;
use crate::modules::mem::blocks::{
    index_matches, lemma_address_unique, lemma_alloc_blocks_valid, lemma_free_buddy_adjacent,
    lemma_free_buddy_unique, lemma_index_mark, lemma_index_splice, lemma_index_unmark, lemma_merge, lemma_prefix_bytes,
    lemma_release_valid, lemma_split_remainder, lemma_split_valid, lemma_state_bounds,
};
use crate::modules::mem::power::{
    buddy_address, lemma_buddy_address, lemma_next_power_of_two,
    lemma_next_power_of_two_least, lemma_pow2_double, lemma_pow2_half, lemma_pow2_ordered, lemma_pow2_positive, next_power_of_two,
};

verus! {

/// State of a block.
#[derive(Debug, Clone, Copy, PartialEq, Eq, Structural)]
pub enum BlockState {
    Free,
    Allocated,
    Split,
}

/// A block of the allocator's address range.
#[derive(Debug, Clone, Copy)]
pub struct Block {
    pub address: usize,
    pub size: usize,
    pub state: BlockState,
    /// The owning process, for an allocated block.
    pub pid: Option<u32>,
}

/// Why a request to the allocator failed.
#[derive(Debug, Clone, Copy, PartialEq, Eq, Structural)]
pub enum BuddyError {
    /// No free block is large enough.
    OutOfMemory,
    /// The requested size is zero or exceeds the allocator's range.
    InvalidSize,
    /// No allocated block starts at the address.
    NotAllocated,
}

impl Block {
    /// The free block of `size` bytes at `address`.
    pub open spec fn free(address: usize, size: usize) -> Block {
        Block { address, size, state: BlockState::Free, pid: None }
    }

    /// The block of `size` bytes at `address` that `pid` holds.
    pub open spec fn allocated(address: usize, size: usize, pid: u32) -> Block {
        Block { address, size, state: BlockState::Allocated, pid: Some(pid) }
    }

    /// The first address past the block.
    pub open spec fn end(self) -> int {
        self.address + self.size
    }

    /// What holds of each block of an allocator of `total` bytes whose
    /// smallest block has `min` bytes: the size is a power of two of at least
    /// `min`, the address is a multiple of the size, the block lies within
    /// the range, and it is either free or allocated to a process.
    pub open spec fn valid(self, min: int, total: int) -> bool {
        &&& is_pow2(self.size as int)
        &&& min <= self.size
        &&& self.address as int % self.size as int == 0
        &&& self.end() <= total
        &&& self.state != BlockState::Split
        &&& (self.state == BlockState::Allocated <==> self.pid is Some)
    }

    /// Whether the block can serve a request of `requested` bytes.
    pub open spec fn fits(self, requested: int) -> bool {
        self.state == BlockState::Free && self.size >= requested
    }
}

/// Whether `blocks` cover `[start, end)` in address order, without gap or overlap.
pub open spec fn chained(blocks: Seq<Block>, start: int, end: int) -> bool {
    if blocks.len() == 0 {
        start == end
    } else {
        &&& blocks[0].address == start
        &&& forall|i: int, j: int|
            0 <= i && j == i + 1 && j < blocks.len() ==> (#[trigger] blocks[i]).end() == (
            #[trigger] blocks[j]).address
        &&& blocks.last().end() == end
    }
}

/// Whether `blocks` is a list of at least one block that covers `[0, total)`
/// in address order, without gap or overlap.
pub open spec fn tiles(blocks: Seq<Block>, total: int) -> bool {
    blocks.len() > 0 && chained(blocks, 0, total)
}

/// Whether every block of `blocks` is valid.
pub open spec fn all_valid(blocks: Seq<Block>, min: int, total: int) -> bool {
    forall|i: int| 0 <= i < blocks.len() ==> (#[trigger] blocks[i]).valid(min, total)
}

/// The sum of the sizes of `blocks`.
pub open spec fn total_bytes(blocks: Seq<Block>) -> int
    decreases blocks.len(),
{
    if blocks.len() == 0 {
        0
    } else {
        total_bytes(blocks.drop_last()) + blocks.last().size
    }
}

/// The sum of the sizes of the blocks of `blocks` that are in `state`.
pub open spec fn bytes_in(blocks: Seq<Block>, state: BlockState) -> int
    decreases blocks.len(),
{
    if blocks.len() == 0 {
        0
    } else {
        bytes_in(blocks.drop_last(), state) + if blocks.last().state == state {
            blocks.last().size as int
        } else {
            0
        }
    }
}

/// The number of blocks of `blocks` that are in `state`.
pub open spec fn count_in(blocks: Seq<Block>, state: BlockState) -> int
    decreases blocks.len(),
{
    if blocks.len() == 0 {
        0
    } else {
        count_in(blocks.drop_last(), state) + if blocks.last().state == state {
            1int
        } else {
            0
        }
    }
}

/// The size of the largest free block of `blocks`; zero where none is free.
pub open spec fn largest_free(blocks: Seq<Block>) -> int
    decreases blocks.len(),
{
    if blocks.len() == 0 {
        0
    } else {
        let rest = largest_free(blocks.drop_last());
        if blocks.last().state == BlockState::Free && blocks.last().size > rest {
            blocks.last().size as int
        } else {
            rest
        }
    }
}

/// Whether some block of `blocks` can serve a request of `requested` bytes.
pub open spec fn has_fit(blocks: Seq<Block>, requested: int) -> bool {
    exists|i: int| 0 <= i < blocks.len() && (#[trigger] blocks[i]).fits(requested)
}

/// Whether `i` is the first block of `blocks`, in address order, that can
/// serve a request of `requested` bytes.
pub open spec fn is_first_fit(blocks: Seq<Block>, requested: int, i: int) -> bool {
    &&& 0 <= i < blocks.len()
    &&& blocks[i].fits(requested)
    &&& forall|j: int| 0 <= j < i ==> !(#[trigger] blocks[j]).fits(requested)
}

/// The index of the first block that can serve a request of `requested` bytes.
pub open spec fn first_fit(blocks: Seq<Block>, requested: int) -> int {
    choose|i: int| is_first_fit(blocks, requested, i)
}

/// The free blocks that are left over, in address order, when a block of
/// `hi` bytes at `address` is split down to a block of `lo` bytes at the same
/// address: one of `lo` bytes, one of `2 * lo` bytes, and so on up to one of
/// `hi / 2` bytes, each at `address` plus its own size.
pub open spec fn split_remainder(address: int, lo: int, hi: int) -> Seq<Block>
    recommends
        0 <= address,
        address + hi <= usize::MAX,
    decreases
            (if lo < hi {
                hi - lo
            } else {
                0
            }),
{
    if 0 < lo < hi {
        seq![Block::free((address + lo) as usize, lo as usize)] + split_remainder(
            address,
            2 * lo,
            hi,
        )
    } else {
        Seq::empty()
    }
}

/// The block list after block `i` has been split down to `requested` bytes
/// and its lowest part given to `pid`.
pub open spec fn alloc_blocks(blocks: Seq<Block>, i: int, pid: u32, requested: int) -> Seq<
    Block,
> {
    blocks.subrange(0, i) + seq![
        Block::allocated(blocks[i].address, requested as usize, pid),
    ] + split_remainder(blocks[i].address as int, requested, blocks[i].size as int)
        + blocks.subrange(i + 1, blocks.len() as int)
}

/// Whether block `j` is the buddy of block `i` and free: another block of
/// the same size that starts at the buddy address.
pub open spec fn is_free_buddy(blocks: Seq<Block>, i: int, j: int) -> bool {
    &&& 0 <= j < blocks.len()
    &&& j != i
    &&& blocks[j].address == buddy_address(blocks[i].address, blocks[i].size)
    &&& blocks[j].size == blocks[i].size
    &&& blocks[j].state == BlockState::Free
}

/// The free block that covers block `i` and its buddy.
pub open spec fn merged_block(blocks: Seq<Block>, i: int) -> Block {
    let address = blocks[i].address;
    let buddy = buddy_address(address, blocks[i].size);
    Block::free(
        if address <= buddy {
            address
        } else {
            buddy
        },
        (2 * blocks[i].size) as usize,
    )
}

/// The block list after block `i` and its buddy, block `j`, have been
/// replaced by the one free block that covers both.
pub open spec fn merge(blocks: Seq<Block>, i: int, j: int) -> Seq<Block> {
    let first = if i < j {
        i
    } else {
        j
    };
    let second = if i < j {
        j
    } else {
        i
    };
    blocks.remove(second).remove(first).insert(first, merged_block(blocks, i))
}

/// The block list after free block `i` has been merged with its buddy for as
/// long as that buddy is a free block of the same size.
pub open spec fn coalesce(blocks: Seq<Block>, i: int) -> Seq<Block>
    decreases blocks.len(),
{
    if 0 <= i < blocks.len() && exists|j: int| is_free_buddy(blocks, i, j) {
        let j = choose|j: int| is_free_buddy(blocks, i, j);
        coalesce(
            merge(blocks, i, j),
            if i < j {
                i
            } else {
                j
            },
        )
    } else {
        blocks
    }
}

/// Whether block `i` of `blocks` is the allocated block at `address`.
pub open spec fn is_allocated_at(blocks: Seq<Block>, address: usize, i: int) -> bool {
    &&& 0 <= i < blocks.len()
    &&& blocks[i].address == address
    &&& blocks[i].state == BlockState::Allocated
}

/// Whether an allocated block of `blocks` starts at `address`.
pub open spec fn is_allocated(blocks: Seq<Block>, address: usize) -> bool {
    exists|i: int| is_allocated_at(blocks, address, i)
}

/// The index of the allocated block that starts at `address`.
pub open spec fn allocated_index(blocks: Seq<Block>, address: usize) -> int {
    choose|i: int| is_allocated_at(blocks, address, i)
}

/// The block list after allocated block `i` has been released and merged
/// with its free buddies.
pub open spec fn free_blocks(blocks: Seq<Block>, i: int) -> Seq<Block> {
    coalesce(blocks.update(i, Block::free(blocks[i].address, blocks[i].size)), i)
}

/// Figures of an allocator at one moment.
#[derive(Debug, Clone, Copy)]
pub struct BuddyStats {
    pub total_size: usize,
    /// Bytes in free blocks.
    pub free_memory: usize,
    /// Bytes in allocated blocks.
    pub allocated_memory: usize,
    pub free_blocks: usize,
    pub allocated_blocks: usize,
    /// Allocations served so far.
    pub total_allocations: u64,
    /// Releases served so far.
    pub total_deallocations: u64,
    /// Bytes lost to rounding, summed over every allocation served so far.
    pub internal_fragmentation: usize,
    /// Size of the largest free block; zero where no block is free.
    pub largest_free_block: usize,
}

/// The mathematical value of a [`BuddyAllocator`].
pub struct BuddyView {
    pub total_size: usize,
    pub min_block_size: usize,
    /// The blocks, in address order.
    pub blocks: Seq<Block>,
    pub total_allocations: nat,
    pub total_deallocations: nat,
    pub internal_fragmentation: nat,
}

impl BuddyView {
    /// An allocator of `total_size` bytes that is one free block.
    pub open spec fn fresh(total_size: usize, min_block_size: usize) -> BuddyView {
        BuddyView {
            total_size,
            min_block_size,
            blocks: seq![Block::free(0, total_size)],
            total_allocations: 0,
            total_deallocations: 0,
            internal_fragmentation: 0,
        }
    }

    /// The invariant of an allocator: both sizes are powers of two, the
    /// smallest block is no larger than the range, the blocks cover the range
    /// in address order, and each block is valid.
    pub open spec fn valid(self) -> bool {
        &&& is_pow2(self.total_size as int)
        &&& is_pow2(self.min_block_size as int)
        &&& self.min_block_size <= self.total_size
        &&& tiles(self.blocks, self.total_size as int)
        &&& all_valid(self.blocks, self.min_block_size as int, self.total_size as int)
    }

    /// The block size that serves a request of `size` bytes: the least power
    /// of two that is neither below `size` nor below the smallest block.
    pub open spec fn request_size(self, size: usize) -> int {
        next_power_of_two(
            if size >= self.min_block_size {
                size as int
            } else {
                self.min_block_size as int
            },
        )
    }

    /// The allocator after `pid` has asked for `size` bytes, and the answer.
    pub open spec fn allocate(self, pid: u32, size: usize) -> (BuddyView, Result<usize, BuddyError>) {
        let requested = self.request_size(size);
        if size == 0 || size > self.total_size {
            (self, Err(BuddyError::InvalidSize))
        } else if !has_fit(self.blocks, requested) {
            (self, Err(BuddyError::OutOfMemory))
        } else {
            let i = first_fit(self.blocks, requested);
            (
                BuddyView {
                    blocks: alloc_blocks(self.blocks, i, pid, requested),
                    total_allocations: self.total_allocations + 1,
                    internal_fragmentation: (self.internal_fragmentation + requested
                        - size) as nat,
                    ..self
                },
                Ok(self.blocks[i].address),
            )
        }
    }

    /// The allocator after the release of the block at `address`, and the answer.
    pub open spec fn free(self, address: usize) -> (BuddyView, Result<(), BuddyError>) {
        if !is_allocated(self.blocks, address) {
            (self, Err(BuddyError::NotAllocated))
        } else {
            (
                BuddyView {
                    blocks: free_blocks(self.blocks, allocated_index(self.blocks, address)),
                    total_deallocations: self.total_deallocations + 1,
                    ..self
                },
                Ok(()),
            )
        }
    }

    /// The figures of the allocator.
    pub open spec fn stats(self) -> BuddyStats {
        BuddyStats {
            total_size: self.total_size,
            free_memory: bytes_in(self.blocks, BlockState::Free) as usize,
            allocated_memory: bytes_in(self.blocks, BlockState::Allocated) as usize,
            free_blocks: count_in(self.blocks, BlockState::Free) as usize,
            allocated_blocks: count_in(self.blocks, BlockState::Allocated) as usize,
            total_allocations: self.total_allocations as u64,
            total_deallocations: self.total_deallocations as u64,
            internal_fragmentation: self.internal_fragmentation as usize,
            largest_free_block: largest_free(self.blocks) as usize,
        }
    }
}

/// A buddy allocator over the range `[0, total_size)`.
pub struct BuddyAllocator {
    total_size: usize,
    min_block_size: usize,
    /// The blocks, in address order.
    blocks: Vec<Block>,
    /// The allocated blocks, each under its address.
    allocated_blocks: HashMap<usize, Block>,
    total_allocations: u64,
    total_deallocations: u64,
    internal_fragmentation: usize,
}

impl View for BuddyAllocator {
    type V = BuddyView;

    closed spec fn view(&self) -> BuddyView {
        BuddyView {
            total_size: self.total_size,
            min_block_size: self.min_block_size,
            blocks: self.blocks@,
            total_allocations: self.total_allocations as nat,
            total_deallocations: self.total_deallocations as nat,
            internal_fragmentation: self.internal_fragmentation as nat,
        }
    }
}

impl BuddyAllocator {
    /// Whether the lookup table of allocated blocks agrees with the block list.
    pub closed spec fn index_consistent(&self) -> bool {
        index_matches(self.allocated_blocks@, self.blocks@)
    }

    /// The invariant of the allocator. It holds after `new` and is kept by
    /// every operation.
    pub open spec fn wf(&self) -> bool {
        self@.valid() && self.index_consistent()
    }

    /// An allocator of `total_size` bytes whose blocks have at least
    /// `min_block_size` bytes. It starts as one free block.
    pub fn new(total_size: usize, min_block_size: usize) -> (allocator: Self)
        requires
            is_pow2(total_size as int),
            is_pow2(min_block_size as int),
            min_block_size <= total_size,
        ensures
            allocator.wf(),
            allocator@ == BuddyView::fresh(total_size, min_block_size),
    {
        let initial_block = Block {
            address: 0,
            size: total_size,
            state: BlockState::Free,
            pid: None,
        };
        let mut blocks: Vec<Block> = Vec::new();
        blocks.push(initial_block);
        let allocator = Self {
            total_size,
            min_block_size,
            blocks,
            allocated_blocks: HashMap::new(),
            total_allocations: 0,
            total_deallocations: 0,
            internal_fragmentation: 0,
        };
        proof {
            lemma_pow2_positive(total_size as int);
            vstd::arithmetic::div_mod::lemma_small_mod(0, total_size as nat);
            assert(allocator@.blocks =~= seq![Block::free(0, total_size)]);
            assert(allocator@.blocks[0].valid(min_block_size as int, total_size as int));
        }
        allocator
    }

    /// Serves a request of `pid` for `size` bytes from the first free block,
    /// in address order, that is large enough, split down to the least power
    /// of two that holds the request. Returns the address of the block.
    pub fn allocate(&mut self, pid: u32, size: usize) -> (result: Result<usize, BuddyError>)
        requires
            old(self).wf(),
            old(self)@.allocate(pid, size).1 is Ok ==> old(self)@.total_allocations < u64::MAX
                && old(self)@.internal_fragmentation + old(self)@.request_size(size) - size
                <= usize::MAX,
        ensures
            final(self).wf(),
            (final(self)@, result) == old(self)@.allocate(pid, size),
    {
        if size == 0 || size > self.total_size {
            return Err(BuddyError::InvalidSize);
        }
        let wanted: usize = if size >= self.min_block_size {
            size
        } else {
            self.min_block_size
        };
        let required_size: usize = self.next_power_of_2(wanted);
        match self.find_free_block(required_size) {
            None => Err(BuddyError::OutOfMemory),
            Some(block_idx) => {
                let ghost before = self@;
                let ghost index = self.allocated_blocks@;
                proof {
                    assert forall|k: int|
                        is_first_fit(before.blocks, required_size as int, k) implies k
                        == block_idx by {}
                    assert(before.blocks[block_idx as int].fits(required_size as int));
                    lemma_alloc_blocks_valid(before, block_idx as int, pid, required_size as int);
                    lemma_split_remainder(
                        before.blocks[block_idx as int].address as int,
                        required_size as int,
                        before.blocks[block_idx as int].size as int,
                        before.min_block_size as int,
                        before.total_size as int,
                    );
                }
                self.split_block(block_idx, required_size);
                let ghost split = self@;
                self.blocks[block_idx].state = BlockState::Allocated;
                self.blocks[block_idx].pid = Some(pid);
                let address: usize = self.blocks[block_idx].address;
                let served: Block = self.blocks[block_idx];
                self.allocated_blocks.insert(address, served);
                self.total_allocations += 1;
                self.internal_fragmentation += required_size - size;
                proof {
                    let lowest = Block::free(address, required_size);
                    let rest = split_remainder(
                        address as int,
                        required_size as int,
                        before.blocks[block_idx as int].size as int,
                    );
                    assert(self@.blocks =~= alloc_blocks(
                        before.blocks,
                        block_idx as int,
                        pid,
                        required_size as int,
                    ));
                    assert(self@.blocks =~= split.blocks.update(block_idx as int, served));
                    assert forall|k: int| 0 <= k < (seq![lowest] + rest).len() implies (
                    #[trigger] (seq![lowest] + rest)[k]).state != BlockState::Allocated by {
                        if k > 0 {
                            assert((seq![lowest] + rest)[k] == rest[k - 1]);
                        }
                    }
                    lemma_index_splice(
                        index,
                        before.blocks,
                        block_idx as int,
                        block_idx + 1,
                        seq![lowest] + rest,
                    );
                    assert(split.blocks =~= before.blocks.subrange(0, block_idx as int) + (
                    seq![lowest] + rest) + before.blocks.subrange(
                        block_idx + 1,
                        before.blocks.len() as int,
                    ));
                    assert(split.valid()) by {
                        lemma_split_valid(before, block_idx as int, required_size as int);
                    }
                    lemma_index_mark(index, split, block_idx as int, served);
                }
                Ok(address)
            },
        }
    }

    /// Index of the first free block of at least `size` bytes.
    fn find_free_block(&self, size: usize) -> (found: Option<usize>)
        ensures
            match found {
                Some(i) => is_first_fit(self@.blocks, size as int, i as int),
                None => !has_fit(self@.blocks, size as int),
            },
    {
        let mut i: usize = 0;
        while i < self.blocks.len()
            invariant
                i <= self.blocks.len(),
                forall|j: int| 0 <= j < i ==> !(#[trigger] self.blocks@[j]).fits(size as int),
            decreases self.blocks.len() - i,
        {
            if self.blocks[i].state == BlockState::Free && self.blocks[i].size >= size {
                return Some(i);
            }
            i += 1;
        }
        None
    }

    /// Splits free block `idx` in halves, and its lower half again, until
    /// the block at `idx` has `target_size` bytes. The upper halves stay free.
    fn split_block(&mut self, idx: usize, target_size: usize)
        requires
            old(self).wf(),
            idx < old(self)@.blocks.len(),
            old(self)@.blocks[idx as int].fits(target_size as int),
            is_pow2(target_size as int),
        ensures
            final(self)@ == (BuddyView {
                blocks: old(self)@.blocks.subrange(0, idx as int) + seq![
                    Block::free(old(self)@.blocks[idx as int].address, target_size),
                ] + split_remainder(
                    old(self)@.blocks[idx as int].address as int,
                    target_size as int,
                    old(self)@.blocks[idx as int].size as int,
                ) + old(self)@.blocks.subrange(idx + 1, old(self)@.blocks.len() as int),
                ..old(self)@
            }),
            final(self).allocated_blocks@ == old(self).allocated_blocks@,
    {
        let ghost initial = self.blocks@;
        let ghost whole = initial[idx as int];
        proof {
            assert(whole.valid(self.min_block_size as int, self.total_size as int));
            assert(self.blocks@ =~= initial.subrange(0, idx as int) + seq![
                Block::free(whole.address, whole.size),
            ] + split_remainder(whole.address as int, whole.size as int, whole.size as int)
                + initial.subrange(idx + 1, initial.len() as int));
        }
        while self.blocks[idx].size > target_size
            invariant
                idx < self.blocks.len(),
                idx < initial.len(),
                whole == initial[idx as int],
                whole.end() <= usize::MAX,
                is_pow2(target_size as int),
                is_pow2(self.blocks@[idx as int].size as int),
                target_size <= self.blocks@[idx as int].size <= whole.size,
                self.blocks@[idx as int].address == whole.address,
                self.blocks@ == initial.subrange(0, idx as int) + seq![
                    Block::free(whole.address, self.blocks@[idx as int].size),
                ] + split_remainder(
                    whole.address as int,
                    self.blocks@[idx as int].size as int,
                    whole.size as int,
                ) + initial.subrange(idx + 1, initial.len() as int),
                self.total_size == old(self).total_size,
                self.min_block_size == old(self).min_block_size,
                self.total_allocations == old(self).total_allocations,
                self.total_deallocations == old(self).total_deallocations,
                self.internal_fragmentation == old(self).internal_fragmentation,
                self.allocated_blocks@ == old(self).allocated_blocks@,
            decreases self.blocks@[idx as int].size,
        {
            let ghost size = self.blocks@[idx as int].size;
            proof {
                lemma_pow2_positive(target_size as int);
                lemma_pow2_half(size as int);
                lemma_pow2_ordered(target_size as int, size as int);
            }
            let half: usize = self.blocks[idx].size / 2;
            let address: usize = self.blocks[idx].address;
            self.blocks[idx].size = half;
            let upper = Block {
                address: address + half,
                size: half,
                state: BlockState::Free,
                pid: None,
            };
            self.blocks.insert(idx + 1, upper);
            proof {
                assert(split_remainder(whole.address as int, half as int, whole.size as int)
                    == seq![upper] + split_remainder(
                    whole.address as int,
                    size as int,
                    whole.size as int,
                ));
                assert(self.blocks@ =~= initial.subrange(0, idx as int) + seq![
                    Block::free(whole.address, half),
                ] + split_remainder(whole.address as int, half as int, whole.size as int)
                    + initial.subrange(idx + 1, initial.len() as int));
            }
        }
    }

    /// Releases the allocated block at `address` and merges it with its
    /// buddy for as long as that buddy is a free block of the same size.
    /// Where no allocated block starts at `address`, nothing changes.
    pub fn free(&mut self, address: usize) -> (result: Result<(), BuddyError>)
        requires
            old(self).wf(),
            is_allocated(old(self)@.blocks, address) ==> old(self)@.total_deallocations
                < u64::MAX,
        ensures
            final(self).wf(),
            (final(self)@, result) == old(self)@.free(address),
    {
        broadcast use vstd::std_specs::hash::group_hash_axioms;

        if !self.allocated_blocks.contains_key(&address) {
            proof {
                if is_allocated(self@.blocks, address) {
                    let k = choose|k: int| is_allocated_at(self@.blocks, address, k);
                    assert(self@.blocks[k].state == BlockState::Allocated);
                }
            }
            return Err(BuddyError::NotAllocated);
        }
        let ghost before = self@;
        let ghost index = self.allocated_blocks@;
        let ghost known = choose|k: int| is_allocated_at(before.blocks, address, k);
        let idx: usize = self.position_of(address);
        proof {
            lemma_address_unique(
                before.blocks,
                before.min_block_size as int,
                before.total_size as int,
                known,
                idx as int,
            );
            assert forall|k: int| is_allocated_at(before.blocks, address, k) implies k
                == idx by {
                lemma_address_unique(
                    before.blocks,
                    before.min_block_size as int,
                    before.total_size as int,
                    k,
                    idx as int,
                );
            }
            lemma_release_valid(before, idx as int);
            lemma_index_unmark(index, before, idx as int);
        }
        self.allocated_blocks.remove(&address);
        self.blocks[idx].state = BlockState::Free;
        self.blocks[idx].pid = None;
        proof {
            assert(self@.blocks =~= before.blocks.update(
                idx as int,
                Block::free(address, before.blocks[idx as int].size),
            ));
            assert(self.allocated_blocks@ =~= index.remove(address));
        }
        self.coalesce(idx);
        self.total_deallocations += 1;
        Ok(())
    }

    /// Index of the block that starts at `address`.
    fn position_of(&self, address: usize) -> (idx: usize)
        requires
            exists|k: int| 0 <= k < self@.blocks.len() && self@.blocks[k].address == address,
        ensures
            idx < self@.blocks.len(),
            self@.blocks[idx as int].address == address,
    {
        let mut i: usize = 0;
        while i < self.blocks.len() && self.blocks[i].address != address
            invariant
                i <= self.blocks.len(),
                forall|j: int| 0 <= j < i ==> (#[trigger] self.blocks@[j]).address != address,
            decreases self.blocks.len() - i,
        {
            i += 1;
        }
        i
    }

    /// Index of the first block of `size` bytes that starts at `address`.
    fn find_block(&self, address: usize, size: usize) -> (found: Option<usize>)
        ensures
            match found {
                Some(j) => j < self@.blocks.len() && self@.blocks[j as int].address == address
                    && self@.blocks[j as int].size == size,
                None => forall|j: int|
                    0 <= j < self@.blocks.len() ==> !((#[trigger] self@.blocks[j]).address
                        == address && self@.blocks[j].size == size),
            },
    {
        let mut i: usize = 0;
        while i < self.blocks.len()
            invariant
                i <= self.blocks.len(),
                forall|j: int|
                    0 <= j < i ==> !((#[trigger] self.blocks@[j]).address == address
                        && self.blocks@[j].size == size),
            decreases self.blocks.len() - i,
        {
            if self.blocks[i].address == address && self.blocks[i].size == size {
                return Some(i);
            }
            i += 1;
        }
        None
    }

    /// Merges free block `idx` with its buddy, and the merged block with its
    /// buddy in turn, for as long as the buddy is a free block of the same size.
    fn coalesce(&mut self, idx: usize)
        requires
            old(self).wf(),
            idx < old(self)@.blocks.len(),
            old(self)@.blocks[idx as int].state == BlockState::Free,
        ensures
            final(self).wf(),
            final(self)@ == (BuddyView {
                blocks: coalesce(old(self)@.blocks, idx as int),
                ..old(self)@
            }),
    {
        let mut current: usize = idx;
        loop
            invariant
                self.wf(),
                current < self@.blocks.len(),
                self@.blocks[current as int].state == BlockState::Free,
                coalesce(self@.blocks, current as int) == coalesce(old(self)@.blocks, idx as int),
                self@ == (BuddyView { blocks: self@.blocks, ..old(self)@ }),
            ensures
                self@.blocks == coalesce(old(self)@.blocks, idx as int),
            decreases self@.blocks.len(),
        {
            let ghost before = self@;
            let ghost index = self.allocated_blocks@;
            let block: Block = self.blocks[current];
            proof {
                assert(block.valid(before.min_block_size as int, before.total_size as int));
                lemma_buddy_address(block.address, block.size);
                lemma_pow2_positive(block.size as int);
            }
            let buddy: usize = self.get_buddy_address(block.address, block.size);
            let found = self.find_block(buddy, block.size);
            let partner: usize = match found {
                Some(j) => j,
                None => current,
            };
            if partner == current || self.blocks[partner].state != BlockState::Free {
                proof {
                    assert forall|j: int| !is_free_buddy(before.blocks, current as int, j) by {
                        if is_free_buddy(before.blocks, current as int, j) {
                            if found is Some {
                                lemma_address_unique(
                                    before.blocks,
                                    before.min_block_size as int,
                                    before.total_size as int,
                                    j,
                                    partner as int,
                                );
                            }
                        }
                    }
                }
                break;
            }
            proof {
                assert(is_free_buddy(before.blocks, current as int, partner as int));
                lemma_merge(before, current as int, partner as int);
                lemma_free_buddy_adjacent(before, current as int, partner as int);
                assert forall|j: int|
                    is_free_buddy(before.blocks, current as int, j) implies j == partner by {
                    lemma_free_buddy_unique(before, current as int, j, partner as int);
                }
            }
            let first: usize = if current < partner {
                current
            } else {
                partner
            };
            let second: usize = if current < partner {
                partner
            } else {
                current
            };
            proof {
                assert(before.blocks[first as int].valid(
                    before.min_block_size as int,
                    before.total_size as int,
                ));
                assert(before.blocks[second as int].valid(
                    before.min_block_size as int,
                    before.total_size as int,
                ));
            }
            let merged = Block {
                address: if block.address <= buddy {
                    block.address
                } else {
                    buddy
                },
                size: block.size * 2,
                state: BlockState::Free,
                pid: None,
            };
            self.blocks.remove(second);
            self.blocks.remove(first);
            self.blocks.insert(first, merged);
            proof {
                assert(merged == merged_block(before.blocks, current as int));
                assert(self@.blocks == merge(before.blocks, current as int, partner as int));
                lemma_index_splice(
                    index,
                    before.blocks,
                    first as int,
                    first + 2,
                    seq![merged],
                );
            }
            current = first;
        }
    }

    /// The figures of the allocator: bytes and blocks by state, the
    /// cumulative counters, and the largest free block.
    pub fn stats(&self) -> (stats: BuddyStats)
        requires
            self.wf(),
        ensures
            stats == self@.stats(),
    {
        let mut free_blocks: usize = 0;
        let mut allocated_blocks: usize = 0;
        let mut total_free: usize = 0;
        let mut total_allocated: usize = 0;
        let mut i: usize = 0;
        while i < self.blocks.len()
            invariant
                self.wf(),
                i <= self.blocks.len(),
                free_blocks == count_in(self@.blocks.take(i as int), BlockState::Free),
                allocated_blocks == count_in(self@.blocks.take(i as int), BlockState::Allocated),
                total_free == bytes_in(self@.blocks.take(i as int), BlockState::Free),
                total_allocated == bytes_in(self@.blocks.take(i as int), BlockState::Allocated),
            decreases self.blocks.len() - i,
        {
            proof {
                let next = self@.blocks.take(i + 1);
                assert(next.drop_last() =~= self@.blocks.take(i as int));
                assert(next.last() == self@.blocks[i as int]);
                assert(self@.blocks[i as int].valid(
                    self@.min_block_size as int,
                    self@.total_size as int,
                ));
                lemma_prefix_bytes(self@.blocks, 0, self@.total_size as int, i + 1);
                lemma_state_bounds(next, BlockState::Free);
                lemma_state_bounds(next, BlockState::Allocated);
            }
            if self.blocks[i].state == BlockState::Free {
                free_blocks += 1;
                total_free += self.blocks[i].size;
            } else if self.blocks[i].state == BlockState::Allocated {
                allocated_blocks += 1;
                total_allocated += self.blocks[i].size;
            }
            i += 1;
        }
        proof {
            assert(self@.blocks.take(i as int) =~= self@.blocks);
        }
        BuddyStats {
            total_size: self.total_size,
            free_memory: total_free,
            allocated_memory: total_allocated,
            free_blocks,
            allocated_blocks,
            total_allocations: self.total_allocations,
            total_deallocations: self.total_deallocations,
            internal_fragmentation: self.internal_fragmentation,
            largest_free_block: self.largest_free_block(),
        }
    }

    /// Size of the largest free block; zero where no block is free.
    fn largest_free_block(&self) -> (largest: usize)
        ensures
            largest == largest_free(self@.blocks),
    {
        let mut largest: usize = 0;
        let mut i: usize = 0;
        while i < self.blocks.len()
            invariant
                i <= self.blocks.len(),
                largest == largest_free(self@.blocks.take(i as int)),
            decreases self.blocks.len() - i,
        {
            proof {
                let next = self@.blocks.take(i + 1);
                assert(next.drop_last() =~= self@.blocks.take(i as int));
                assert(next.last() == self@.blocks[i as int]);
            }
            if self.blocks[i].state == BlockState::Free && self.blocks[i].size > largest {
                largest = self.blocks[i].size;
            }
            i += 1;
        }
        proof {
            assert(self@.blocks.take(i as int) =~= self@.blocks);
        }
        largest
    }

    /// The blocks, in address order.
    pub fn blocks(&self) -> (blocks: &Vec<Block>)
        ensures
            blocks@ == self@.blocks,
    {
        &self.blocks
    }

    /// The size of the address range.
    pub fn total_size(&self) -> (size: usize)
        ensures
            size == self@.total_size,
    {
        self.total_size
    }

    /// The size of the smallest block.
    pub fn min_block_size(&self) -> (size: usize)
        ensures
            size == self@.min_block_size,
    {
        self.min_block_size
    }

    /// The address of the buddy of the block of `size` bytes at `address`.
    fn get_buddy_address(&self, address: usize, size: usize) -> (buddy: usize)
        ensures
            buddy == buddy_address(address, size),
    {
        address ^ size
    }

    /// The least block size, from the smallest block upwards by doubling,
    /// that is not below `n`.
    fn next_power_of_2(&self, n: usize) -> (power: usize)
        requires
            self@.valid(),
            self@.min_block_size <= n <= self@.total_size,
        ensures
            power == next_power_of_two(n as int),
            is_pow2(power as int),
            n <= power <= self@.total_size,
    {
        let mut power: usize = self.min_block_size;
        while power < n
            invariant
                self@.valid(),
                self@.min_block_size <= n <= self@.total_size,
                is_pow2(power as int),
                self@.min_block_size <= power <= self@.total_size,
                power == self@.min_block_size || power < 2 * n,
            decreases self@.total_size - power,
        {
            proof {
                lemma_pow2_ordered(power as int, self.total_size as int);
                lemma_pow2_double(power as int);
                lemma_pow2_positive(power as int);
            }
            power *= 2;
        }
        proof {
            let least = next_power_of_two(n as int);
            lemma_next_power_of_two(n as int);
            lemma_next_power_of_two_least(n as int, power as int);
            lemma_pow2_positive(least);
            if least < power {
                lemma_pow2_ordered(least, power as int);
            }
        }
        power
    }
}

} // verus!
