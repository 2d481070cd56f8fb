//! A memory pool with a fixed budget for fresh regions and first-fit reuse
//! of the regions that callers have given back.

pub mod block;
pub mod model;
pub mod pool;

pub use crate::block::{align_up, Handle, MemoryBlock, Region, ALIGNMENT};
pub use crate::model::PoolState;
pub use crate::pool::MemoryPool;
