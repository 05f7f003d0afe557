//! Physical and virtual memory: addresses, frames, regions, slabs and buddies.
pub mod addr;

pub mod frames;
pub mod regions;
pub mod slab;
pub mod buddy;
