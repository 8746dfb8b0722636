//! Subsystems of the simulated kernel.
pub mod disk;
pub mod ipc;
pub mod mem;
