//! What the kernel reads in the device tree that the firmware hands over.

use vstd::prelude::*;

verus! {

/// The parts of a device tree that the memory subsystem reads, as plain
/// values.
pub struct DeviceTree {
    /// The address of the first byte of main memory.
    pub memory_start: usize,
    /// The size of main memory in bytes.
    pub memory_size: usize,
    /// The regions of memory that the firmware keeps for itself, each with
    /// its first address and its size in bytes.
    pub reserved: Vec<(usize, usize)>,
}

impl DeviceTree {
    /// The reserved regions, each with its first address and its size.
    pub fn reserved_memory_regions(&self) -> (r: &Vec<(usize, usize)>)
        ensures
            r@ == self.reserved@,
    {
        &self.reserved
    }
}

} // verus!
