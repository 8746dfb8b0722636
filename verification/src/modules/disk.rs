//! The simulated disk: a block device and head scheduling.
use vstd::prelude::*;

pub mod scheduler;

verus! {

/// Number of bytes in a disk block.
pub const BLOCK_SIZE: usize = 512;

/// Reads block `block_id`. The simulated disk holds zeroes only.
pub fn read_block(block_id: u64) -> (data: Vec<u8>)
    ensures
        data@ == Seq::new(BLOCK_SIZE as nat, |i: int| 0u8),
{
    let mut data: Vec<u8> = Vec::new();
    let mut i: usize = 0;
    while i < BLOCK_SIZE
        invariant
            i <= BLOCK_SIZE,
            data@ == Seq::new(i as nat, |k: int| 0u8),
        decreases BLOCK_SIZE - i,
    {
        data.push(0u8);
        assert(data@ =~= Seq::new((i + 1) as nat, |k: int| 0u8));
        i += 1;
    }
    data
}

} // verus!
