//! A dual-strategy allocator over one growable linear memory region.
//!
//! The region is a flat byte space that grows by whole pages at its end.
//! Over it stand either a free-list heap, which splits and coalesces blocks,
//! or three bump arenas, one per tier, which give memory back only in bulk.
//! Every offset that leaves the library is relative to the start of the region.

pub mod arena;
pub mod facade;
pub mod free_list;
pub mod heap;
pub mod layout;
pub mod region;
pub mod tier;
pub mod tiered;

pub use crate::arena::Arena;
pub use crate::facade::{AllocatorStrategy, MemoryStats, TierStats, Walloc};
pub use crate::free_list::{Block, DefaultAllocator};
pub use crate::region::{AccessError, MemoryRegion};
pub use crate::tier::Tier;
pub use crate::tiered::{MemoryOwner, TieredAllocator};
