//! Physical memory management core of a small 64-bit RISC-V kernel.
//!
//! The crate covers the path from "no allocator, no virtual memory" to a
//! working kernel heap and an Sv39 address space: an early bump-scan heap,
//! a normalised map of usable memory, a frame table that accounts for every
//! 4 KiB frame, and a three-level page-table engine that maps its own tables
//! through a self-referencing window.
//!
//! Memory is never reached through raw pointers here. The heap owns its byte
//! range, a frame segment owns its metadata words, and page tables live in a
//! [`physical_memory::PhysicalMemory`] that the caller hands to every
//! operation.
use vstd::prelude::*;

pub mod align;
pub mod bringup;
pub mod console;
pub mod device_tree;
pub mod early_heap;
pub mod frame_table;
pub mod memory_map;
pub mod page_table;
pub mod physical_memory;

verus! {

/// Size of a page frame in bytes.
pub const PAGE_SIZE_B: usize = 4096;

/// Size of a page frame in KiB.
pub const PAGE_SIZE_KB: usize = 4;

} // verus!
