//! What the memory management asks of the tables of an architecture when
//! all it does is to build an address space and to switch to it.

use crate::mm;
use crate::paging::{ceiling, floor};
use vstd::arithmetic::power2::pow2;
use vstd::prelude::*;

verus! {

/// An address space that is built once and then switched to: pages are
/// mapped, with the tables made as they are needed, and nothing is ever
/// refused.
pub trait ArchitectureMemory: Sized {
    /// The invariant of the address space.
    spec fn sound(&self) -> bool;

    /// The number of tables that are missing on the way to the page of `va`,
    /// and that a mapping of it has to allocate first.
    spec fn lacking(&self, va: mm::VAddr) -> nat;

    /// The number of address bits that select a byte within a page.
    spec fn offset_bits() -> nat;

    /// Whether the hardware can take this address space as its active one.
    spec fn reachable(&self) -> bool;

    /// A fresh address space with nothing mapped, its root table in a page
    /// taken from `allocator`.
    fn new(allocator: &mut mm::PhysicalMemoryManager) -> (r: Self)
        requires
            old(allocator).wf(),
            old(allocator)@.free() >= 1,
        ensures
            r.sound(),
            final(allocator).wf(),
            final(allocator)@ == old(allocator)@.take(1),
    ;

    /// The size of a page in bytes: two to the power of `offset_bits()`.
    fn get_page_size() -> (r: usize)
        ensures
            r == pow2(Self::offset_bits()),
            Self::offset_bits() < usize::BITS,
    ;

    /// `addr` rounded down to a page boundary.
    fn align_down(addr: usize) -> (r: usize)
        ensures
            r == floor(addr as int, pow2(Self::offset_bits()) as int),
    ;

    /// `addr` rounded up to a page boundary.
    fn align_up(addr: usize) -> (r: usize)
        requires
            addr + pow2(Self::offset_bits()) - 1 <= usize::MAX,
        ensures
            r == ceiling(addr as int, pow2(Self::offset_bits()) as int),
    ;

    /// Maps the page of `va` to the page of `pa` with the rights `perms`,
    /// and takes from `allocator` a page for every table that is missing
    /// on the way.
    fn map(
        &mut self,
        allocator: &mut mm::PhysicalMemoryManager,
        pa: mm::PAddr,
        va: mm::VAddr,
        perms: mm::Permissions,
    )
        requires
            old(self).sound(),
            old(allocator).wf(),
            old(allocator)@.free() >= old(self).lacking(va),
        ensures
            final(self).sound(),
            final(allocator).wf(),
            final(allocator)@ == old(allocator)@.take(old(self).lacking(va) as int),
            final(self).lacking(va) == 0,
    ;

    /// The value that, written to the register that controls translation,
    /// makes this address space the active one. The caller writes it and
    /// flushes the translation cache.
    fn reload(&mut self) -> (r: u64)
        requires
            old(self).sound(),
            old(self).reachable(),
        ensures
            *final(self) == *old(self),
    ;

    /// The value that, written to the register that controls translation,
    /// switches translation off. The caller writes it and flushes the
    /// translation cache.
    fn disable(&mut self) -> (r: u64)
        ensures
            *final(self) == *old(self),
    ;
}

} // verus!
