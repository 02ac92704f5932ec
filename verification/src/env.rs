//! The devices a test runs on: pieces of one backing device in memory.
pub mod mem_blk;
pub mod pool;
pub mod pool_laws;
