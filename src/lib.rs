//! The memory-space core of a Unix-like kernel: the virtual address space of a process, its
//! free regions (gaps) and allocated regions (mappings), lazy allocation of physical frames,
//! copy on write across `fork`, and page fault resolution.
//!
//! Physical memory, the page tables and the processor's active translation context are
//! modelled in software (`phys`, `vmem`) and passed explicitly to each operation, so that
//! every memory space of a machine shares one `PhysMem`.
//!
//! The crate also holds the file types, file status and permission checks of the kernel's
//! virtual filesystem (`file`), and the meminfo file (`mem_info`).
use vstd::prelude::*;

pub mod errno;
pub mod file;
pub mod gap;
pub mod gap_registry;
pub mod machine;
pub mod mapping;
pub mod mapping_registry;
pub mod mem_info;
pub mod mem_space;
pub mod memory;
pub mod phys;
pub mod ref_counter;
pub mod vmem;

verus! {

} // verus!
