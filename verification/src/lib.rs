//! A ring-buffer pool of host memory from which small chunks are handed out,
//! shared between a CPU-side producer and a GPU-side consumer, and reclaimed
//! once every holder of a chunk has let go of it.

pub mod error;
pub mod families;
pub mod ledger;
pub mod pool;
pub mod usage;
pub mod theorems;
