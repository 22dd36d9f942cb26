//! The state that the kernel's own tests run in.

use crate::arch::riscv64::sv39::{Mappings, SATP_SV39};
use crate::arch::{ArchImpl, MemoryImpl};
use crate::mm::physical_memory_manager::{metadata_count, valid_geometry, Memory};
use crate::mm::{
    address_space_count, address_space_fits, address_space_requests, count_address_space,
    lemma_address_space_count,
    map_address_space, PhysicalMemoryManager,
};
use crate::paging::PagingImpl;
use vstd::prelude::*;

verus! {

/// What a test of the kernel works on: the machine as the boot code found
/// it, its physical memory, and the kernel's address space in it.
pub struct TestContext {
    /// The address at which the firmware left the device tree.
    pub device_tree_address: usize,
    /// The machine.
    pub arch: ArchImpl,
    /// The physical memory and its allocator.
    pub memory: PhysicalMemoryManager,
    /// The kernel's address space.
    pub page_table: MemoryImpl,
    /// The register value that makes `page_table` the active address
    /// space.
    pub satp: u64,
}

/// The number of pages of main memory on `arch`.
pub open spec fn page_count(arch: ArchImpl) -> usize {
    arch.device_tree.memory_size / 4096
}

/// The addresses of the pages that the allocator of `arch` keeps for its
/// bookkeeping.
pub open spec fn metadata_pages(arch: ArchImpl) -> Seq<usize> {
    Seq::new(
        metadata_count(4096, page_count(arch)) as nat,
        |i: int| (arch.device_tree.memory_start + i * 4096) as usize,
    )
}

/// The memory of `arch` before anything but the allocator's bookkeeping is
/// in it.
pub open spec fn fresh_memory(arch: ArchImpl) -> Memory {
    Memory {
        base: arch.device_tree.memory_start,
        page_size: 4096,
        page_count: page_count(arch),
        metadata_count: metadata_count(4096, page_count(arch)) as usize,
        allocated: metadata_count(4096, page_count(arch)) as usize,
        bytes: Seq::new((page_count(arch) * 4096) as nat, |i: int| 0u8),
    }
}

/// The requests that set up the kernel's address space on `arch`.
pub open spec fn kernel_requests(arch: ArchImpl) -> Seq<crate::arch::riscv64::sv39::Request> {
    address_space_requests(
        arch.kernel_start,
        arch.kernel_end,
        4096,
        metadata_pages(arch),
        arch.drivers@,
    )
}

/// Whether a context can be built on `arch`: its main memory starts on a
/// page boundary and ends within the address space, no address of the
/// kernel's image or of a device lies beyond the address space, the root
/// table comes to lie where the hardware can reach it, and the memory has
/// the pages for the root table and for every table that the kernel's
/// address space takes.
pub open spec fn buildable(arch: ArchImpl) -> bool {
    &&& valid_geometry(arch.device_tree.memory_start, 4096, page_count(arch))
    &&& arch.kernel_end + 4095 <= usize::MAX
    &&& forall|i: int|
        0 <= i < arch.drivers@.len() ==> (#[trigger] arch.drivers@[i]).0 + arch.drivers@[i].1
            <= usize::MAX
    &&& fresh_memory(arch).next() < 0x100_0000_0000_0000
    &&& fresh_memory(arch).free() >= 1 + Mappings::empty().missing_all(kernel_requests(arch))
}

/// Whether `arch` has memory enough to build a context on it whatever its
/// address ranges are: what `buildable` asks for, with two tables reckoned
/// for every page that is mapped.
pub open spec fn roomy(arch: ArchImpl) -> bool {
    &&& valid_geometry(arch.device_tree.memory_start, 4096, page_count(arch))
    &&& arch.kernel_end + 4095 <= usize::MAX
    &&& forall|i: int|
        0 <= i < arch.drivers@.len() ==> (#[trigger] arch.drivers@[i]).0 + arch.drivers@[i].1
            <= usize::MAX
    &&& fresh_memory(arch).next() < 0x100_0000_0000_0000
    &&& fresh_memory(arch).free() >= 1 + 2 * address_space_count(
        arch.kernel_start,
        arch.kernel_end,
        4096,
        metadata_pages(arch).len(),
        arch.drivers@,
    )
}

/// A machine with memory enough can have a context built on it.
pub proof fn lemma_roomy_is_buildable(arch: ArchImpl)
    requires
        roomy(arch),
    ensures
        buildable(arch),
{
    lemma_address_space_count(
        Mappings::empty(),
        arch.kernel_start,
        arch.kernel_end,
        4096,
        metadata_pages(arch),
        arch.drivers@,
    );
}

impl TestContext {
    /// Whether `arch` has memory enough to build a context on it.
    pub fn can_build(arch: &ArchImpl) -> (r: bool)
        ensures
            r == roomy(*arch),
            r ==> buildable(*arch),
    {
        let start = arch.device_tree.memory_start;
        let pages = arch.device_tree.memory_size / 4096;
        if start % 4096 != 0 {
            return false;
        }
        let size = match pages.checked_mul(4096) {
            Some(size) => size,
            None => {
                return false;
            },
        };
        if size > usize::MAX - start || arch.kernel_end > usize::MAX - 4095 {
            return false;
        }
        let metadata = (pages + 4095) / 4096;
        let next = start + metadata * 4096;
        if next as u64 >= 0x100_0000_0000_0000 {
            return false;
        }
        let mut i: usize = 0;
        while i < arch.drivers.len()
            invariant
                i <= arch.drivers@.len(),
                forall|j: int|
                    0 <= j < i ==> (#[trigger] arch.drivers@[j]).0 + arch.drivers@[j].1
                        <= usize::MAX,
            decreases arch.drivers@.len() - i,
        {
            let (base, len) = arch.drivers[i];
            if len > usize::MAX - base {
                return false;
            }
            i = i + 1;
        }
        let free = pages - metadata;
        if free < 1 {
            return false;
        }
        let limit = (free - 1) / 2;
        let r = match count_address_space(
            arch.kernel_start,
            arch.kernel_end,
            4096,
            metadata,
            &arch.drivers,
            limit,
        ) {
            Some(_) => true,
            None => false,
        };
        proof {
            if r {
                lemma_roomy_is_buildable(*arch);
            }
        }
        r
    }

    /// Whether a context can be built on `arch`. The memory of the machine
    /// is set up and the kernel's address space is gone through to tell.
    pub fn is_buildable(arch: &ArchImpl) -> (r: bool)
        ensures
            r == buildable(*arch),
    {
        let start = arch.device_tree.memory_start;
        let pages = arch.device_tree.memory_size / 4096;
        if arch.kernel_end > usize::MAX - 4095 {
            return false;
        }
        let mut i: usize = 0;
        while i < arch.drivers.len()
            invariant
                i <= arch.drivers@.len(),
                forall|j: int|
                    0 <= j < i ==> (#[trigger] arch.drivers@[j]).0 + arch.drivers@[j].1
                        <= usize::MAX,
            decreases arch.drivers@.len() - i,
        {
            let (base, len) = arch.drivers[i];
            if len > usize::MAX - base {
                return false;
            }
            i = i + 1;
        }
        let mut memory = match PhysicalMemoryManager::new(start, 4096, pages) {
            Some(memory) => memory,
            None => {
                return false;
            },
        };
        proof {
            memory@.lemma_take(0);
        }
        if memory.free_pages() < 1 {
            return false;
        }
        let page_table = MemoryImpl::new(&mut memory);
        if page_table.addr() >= 0x100_0000_0000_0000 {
            return false;
        }
        proof {
            assert(metadata_pages(*arch) =~= Seq::new(
                memory@.metadata_count as nat,
                |i: int| (memory@.base + i * memory@.page_size) as usize,
            ));
        }
        address_space_fits(
            &page_table,
            &memory,
            &arch.drivers,
            arch.kernel_start,
            arch.kernel_end,
        )
    }

    /// Whether the context is what building it on its machine gives: the
    /// kernel's address space with its image, the allocator's bookkeeping
    /// and the devices mapped, the memory with the pages taken that this
    /// took, and the register value that leads to the root table.
    pub open spec fn built(self) -> bool {
        &&& self.memory.wf()
        &&& self.page_table.inv()
        &&& self.page_table.address() == fresh_memory(self.arch).next() as u64
        &&& self.page_table@ == Mappings::empty().map_all(kernel_requests(self.arch))
        &&& self.memory@ == fresh_memory(self.arch).take(
            (1 + Mappings::empty().missing_all(kernel_requests(self.arch))) as int,
        )
        &&& self.satp == SATP_SV39 | (self.page_table.address() >> 12)
    }

    /// The context built on the machine `arch`, whose device tree the
    /// firmware left at `device_tree_address`.
    pub fn new(device_tree_address: usize, arch: ArchImpl) -> (r: Self)
        requires
            buildable(arch),
        ensures
            r.device_tree_address == device_tree_address,
            r.arch == arch,
            r.built(),
    {
        let (memory, page_table, satp) = TestContext::build_context_data(&arch);

        TestContext { device_tree_address, arch, memory, page_table, satp }
    }

    /// Builds the context anew on the same machine and forgets what was
    /// allocated and mapped since. Returns the register value that switches
    /// translation off: the caller writes it before it goes on, and then
    /// `satp` to switch to the new address space.
    pub fn reset(&mut self) -> (r: u64)
        requires
            buildable(old(self).arch),
        ensures
            r == 0,
            final(self).device_tree_address == old(self).device_tree_address,
            final(self).arch == old(self).arch,
            final(self).built(),
    {
        // The tables of the address space in use lie in the memory that is about to be
        // handed out anew, so translation has to be off before anything is built in it.
        let off = self.page_table.disable();

        let (memory, page_table, satp) = TestContext::build_context_data(&self.arch);

        self.memory = memory;
        self.page_table = page_table;
        self.satp = satp;
        off
    }

    fn build_context_data(arch: &ArchImpl) -> (r: (PhysicalMemoryManager, MemoryImpl, u64))
        requires
            buildable(*arch),
        ensures
            r.0.wf(),
            r.1.inv(),
            r.1.address() == fresh_memory(*arch).next() as u64,
            r.1@ == Mappings::empty().map_all(kernel_requests(*arch)),
            r.0@ == fresh_memory(*arch).take(
                (1 + Mappings::empty().missing_all(kernel_requests(*arch))) as int,
            ),
            r.2 == SATP_SV39 | (r.1.address() >> 12),
    {
        let page_size = MemoryImpl::get_page_size();
        let mut memory = PhysicalMemoryManager::new(
            arch.device_tree.memory_start,
            page_size,
            arch.device_tree.memory_size / page_size,
        ).unwrap();
        let mut page_table = MemoryImpl::new(&mut memory);
        proof {
            assert(metadata_pages(*arch) =~= Seq::new(
                memory@.metadata_count as nat,
                |i: int| (memory@.base + i * memory@.page_size) as usize,
            ));
        }
        let satp = map_address_space(
            &arch.device_tree,
            &mut page_table,
            &mut memory,
            &arch.drivers,
            arch.kernel_start,
            arch.kernel_end,
        );

        (memory, page_table, satp)
    }
}

} // verus!
