//! The Sv39 tables as the address space that the memory management builds.

use crate::arch::riscv64::sv39::{page_of, Mappings, PageTable, PageTableEntry, SATP_SV39};
use crate::arch_mem::ArchitectureMemory;
use crate::mm;
use vstd::prelude::*;

verus! {

impl ArchitectureMemory for PageTable {
    open spec fn sound(&self) -> bool {
        self.inv()
    }

    open spec fn lacking(&self, va: mm::VAddr) -> nat {
        self@.missing(page_of(va))
    }

    open spec fn offset_bits() -> nat {
        12
    }

    open spec fn reachable(&self) -> bool {
        self.address() < 0x100_0000_0000_0000
    }

    fn new(allocator: &mut mm::PhysicalMemoryManager) -> (r: Self)
        ensures
            r@ == Mappings::empty(),
            r.address() == old(allocator)@.next() as u64,
            forall|p: nat, l: nat| #[trigger]
                r.table_address(l, p) == if l == 2 {
                    Some(r.address())
                } else {
                    None
                },
    {
        <PageTable as crate::paging::PagingImpl>::new(allocator)
    }

    fn get_page_size() -> (r: usize)
        ensures
            r == 4096,
    {
        <PageTable as crate::paging::PagingImpl>::get_page_size()
    }

    fn align_down(addr: usize) -> (r: usize) {
        <PageTable as crate::paging::PagingImpl>::align_down(addr)
    }

    fn align_up(addr: usize) -> (r: usize) {
        <PageTable as crate::paging::PagingImpl>::align_up(addr)
    }

    fn map(
        &mut self,
        allocator: &mut mm::PhysicalMemoryManager,
        pa: mm::PAddr,
        va: mm::VAddr,
        perms: mm::Permissions,
    )
        ensures
            final(self)@ == old(self)@.map(
                page_of(va),
                PageTableEntry::mapping(pa@ as u64, perms@),
            ),
            final(self).address() == old(self).address(),
            forall|p: nat, l: nat| #[trigger]
                final(self).table_address(l, p) == PageTable::table_address_after(
                    old(self).table_address(l, p),
                    p,
                    page_of(va),
                    l,
                    old(self)@.missing(page_of(va)),
                    old(allocator)@.next(),
                    old(allocator)@.page_size as int,
                ),
    {
        let _ = <PageTable as crate::paging::PagingImpl>::map(self, allocator, pa, va, perms);
    }

    fn reload(&mut self) -> (r: u64)
        ensures
            r == SATP_SV39 | (old(self).address() >> 12),
    {
        <PageTable as crate::paging::PagingImpl>::reload(self)
    }

    fn disable(&mut self) -> (r: u64)
        ensures
            r == 0,
    {
        <PageTable as crate::paging::PagingImpl>::disable(self)
    }
}

} // verus!
