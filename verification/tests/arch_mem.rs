use goose::arch::riscv64::sv39::PageTable;
use goose::arch_mem::ArchitectureMemory;
use goose::mm::{PAddr, Permissions, PhysicalMemoryManager, VAddr};

#[test]
fn architecture_memory_align_down() {
    assert!(<PageTable as ArchitectureMemory>::align_down(0x1042) == 0x1000);
}

#[test]
fn architecture_memory_align_up() {
    assert!(<PageTable as ArchitectureMemory>::align_up(0x1042) == 0x2000);
}

#[test]
fn architecture_memory_page_size() {
    assert_eq!(<PageTable as ArchitectureMemory>::get_page_size(), 4096);
}

#[test]
fn architecture_memory_maps_and_switches() {
    let mut mm = PhysicalMemoryManager::new(0x8000_0000, 4096, 16).unwrap();
    let mut pt: PageTable = ArchitectureMemory::new(&mut mm);
    assert_eq!(mm.free_pages(), 14);
    ArchitectureMemory::map(
        &mut pt,
        &mut mm,
        PAddr::from(0x8020_0000),
        VAddr::from(0x4000_1000),
        Permissions::read() | Permissions::execute(),
    );
    assert_eq!(mm.free_pages(), 12);
    let (pa, perms) = pt.lookup(VAddr::from(0x4000_1abc)).unwrap();
    assert_eq!(usize::from(pa), 0x8020_0000);
    assert_eq!(perms.bits(), 5);
    assert_eq!(ArchitectureMemory::reload(&mut pt), 0x8000_0000_0008_0001);
    assert_eq!(ArchitectureMemory::disable(&mut pt), 0);
}
