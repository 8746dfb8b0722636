//! Memory management: a paged frame pool and a buddy allocator.
use vstd::prelude::*;

pub mod blocks;
pub mod buddy;
pub mod buddy_laws;
pub mod paging;
pub mod power;

verus! {

/// A stand-in for a memory manager: it hands out the same address to
/// everyone and keeps no books.
pub struct MemoryManager {}

impl MemoryManager {
    /// A memory manager.
    pub fn new() -> Self {
        MemoryManager {  }
    }

    /// Grants `pid` a request for `size` bytes at the simulated address zero.
    pub fn allocate(&mut self, pid: u32, size: usize) -> (address: Result<usize, &'static str>)
        ensures
            address == Ok::<usize, &'static str>(0),
    {
        Ok(0)
    }
}

} // verus!
