//! Memory management: addresses, frames, page tables, map areas and address
//! spaces.

pub mod address;
pub mod error;
pub mod flags;
pub mod frame_allocator;
pub mod page_table;
pub mod frame_map;
pub mod memory_area;
pub mod memory_set;
pub mod user_buffer;
pub mod loader;
pub mod mmap;
pub mod kernel_space;
pub mod ownership;
