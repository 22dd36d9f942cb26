//! What differs from one architecture to the next.

use crate::device_tree::DeviceTree;
use vstd::prelude::*;

pub mod riscv64;

verus! {

/// The paging backend of the architecture that the kernel is built for.
pub type MemoryImpl = riscv64::sv39::PageTable;

/// What the boot code has found out about the machine, as plain values.
pub struct ArchImpl {
    /// The device tree that the firmware handed over.
    pub device_tree: DeviceTree,
    /// The address of the first byte of the kernel's image.
    pub kernel_start: usize,
    /// The address just behind the kernel's image.
    pub kernel_end: usize,
    /// The address ranges of the devices that have a driver, each with its
    /// first address and its length.
    pub drivers: Vec<(usize, usize)>,
}

} // verus!
