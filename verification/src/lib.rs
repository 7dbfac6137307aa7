//! Virtual-memory management layer for a unikernel: a bitmap-backed physical
//! memory allocator with a typed error taxonomy, a frame supply built on it,
//! a portable permission model with an architecture-specific translation, and
//! a radix page table that maps byte regions page by page, sourcing its table
//! frames from the allocator.

pub mod addr;
pub mod allocator;
pub mod bitmap;
pub mod flags;
pub mod paging;
