//! A small operating-system kernel simulator: process bookkeeping, CPU and
//! disk scheduling queues, semaphores, and a memory subsystem made of a
//! paged frame pool and a buddy allocator.
pub mod kernel;
pub mod process;
pub mod modules;
pub mod scheduler;
