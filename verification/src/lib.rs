//! The virtual-memory subsystem of a kernel for 64-bit RISC-V: the Sv39
//! page tables, the contract that hides them from the rest of the kernel,
//! the set-up of the kernel's own address space, and the loader that puts
//! ELF programs into address spaces of their own.

pub mod arch;
pub mod arch_mem;
pub mod device_tree;
pub mod executable;
pub mod kernel_tests;
pub mod mm;
pub mod paging;
