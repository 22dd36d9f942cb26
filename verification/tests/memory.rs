use goose::mm::{PhysicalMemoryManager, Permissions};

#[test]
fn geometry_is_checked() {
    assert!(PhysicalMemoryManager::new(0x8000_0000, 4096, 16).is_some());
    assert!(PhysicalMemoryManager::new(0x8000_0000, 0, 16).is_none());
    assert!(PhysicalMemoryManager::new(0x8000_0001, 4096, 16).is_none());
    assert!(PhysicalMemoryManager::new(usize::MAX - 4095, 4096, 2).is_none());
    assert!(PhysicalMemoryManager::new(0, 4096, usize::MAX).is_none());
    assert!(PhysicalMemoryManager::new(0, 4096, 0).is_some());
}

#[test]
fn bookkeeping_takes_the_first_pages() {
    let mm = PhysicalMemoryManager::new(0x8000_0000, 4096, 16).unwrap();
    assert_eq!(mm.metadata_pages(), vec![0x8000_0000]);
    assert_eq!(mm.free_pages(), 15);

    let mm = PhysicalMemoryManager::new(0x1000, 16, 33).unwrap();
    assert_eq!(mm.metadata_pages(), vec![0x1000, 0x1010, 0x1020]);
    assert_eq!(mm.free_pages(), 30);

    let mm = PhysicalMemoryManager::new(0x1000, 16, 0).unwrap();
    assert_eq!(mm.metadata_pages(), Vec::<usize>::new());
    assert_eq!(mm.free_pages(), 0);
}

#[test]
fn pages_leave_in_order() {
    let mut mm = PhysicalMemoryManager::new(0x8000_0000, 4096, 8).unwrap();
    assert_eq!(mm.page_size(), 4096);
    assert_eq!(mm.base(), 0x8000_0000);
    assert_eq!(usize::from(mm.alloc_pages(1).unwrap()), 0x8000_1000);
    assert_eq!(usize::from(mm.alloc_pages(3).unwrap()), 0x8000_2000);
    assert_eq!(usize::from(mm.alloc_pages(1).unwrap()), 0x8000_5000);
    assert_eq!(mm.free_pages(), 2);
}

#[test]
fn exhaustion_fails_and_changes_nothing() {
    let mut mm = PhysicalMemoryManager::new(0x8000_0000, 4096, 4).unwrap();
    assert!(mm.alloc_pages(4).is_none());
    assert_eq!(mm.free_pages(), 3);
    assert!(mm.alloc_pages(3).is_some());
    assert!(mm.alloc_pages(1).is_none());
    assert_eq!(mm.free_pages(), 0);
    assert_eq!(usize::from(mm.alloc_pages(0).unwrap()), 0x8000_4000);
}

#[test]
fn memory_starts_zeroed() {
    let mm = PhysicalMemoryManager::new(0x1000, 64, 4).unwrap();
    assert_eq!(mm.read(0x1000, 256), vec![0u8; 256]);
}

#[test]
fn write_then_read() {
    let mut mm = PhysicalMemoryManager::new(0x1000, 64, 4).unwrap();
    mm.write(0x1041, &[1, 2, 3, 4]);
    assert_eq!(mm.read(0x1040, 6), vec![0, 1, 2, 3, 4, 0]);
    mm.fill(0x1042, 2, 0xee);
    assert_eq!(mm.read(0x1040, 6), vec![0, 1, 0xee, 0xee, 4, 0]);
    mm.write(0x10fc, &[9, 9, 9, 9]);
    assert_eq!(mm.read(0x10fc, 4), vec![9, 9, 9, 9]);
    mm.write(0x1000, &[]);
    assert_eq!(mm.read(0x1000, 1), vec![0]);
}

#[test]
fn bounds_are_told() {
    let mm = PhysicalMemoryManager::new(0x1000, 64, 4).unwrap();
    assert!(mm.holds(0x1000, 256));
    assert!(mm.holds(0x1100, 0));
    assert!(!mm.holds(0x1000, 257));
    assert!(!mm.holds(0xfff, 1));
    assert!(!mm.holds(0x1101, 0));
    assert!(!mm.holds(usize::MAX, 2));
}

#[test]
fn permission_flags() {
    assert_eq!(Permissions::empty().bits(), 0);
    assert_eq!(Permissions::read().bits(), 1);
    assert_eq!(Permissions::write().bits(), 2);
    assert_eq!(Permissions::execute().bits(), 4);
    assert_eq!(Permissions::user().bits(), 8);
    let rw = Permissions::read() | Permissions::write();
    assert_eq!(rw.bits(), 3);
    assert!(rw.contains(Permissions::read()));
    assert!(rw.contains(Permissions::write()));
    assert!(!rw.contains(Permissions::execute()));
    assert!(rw.contains(Permissions::empty()));
    assert!(rw == Permissions::read().union(Permissions::write()));
    assert!(rw != Permissions::read());
}
