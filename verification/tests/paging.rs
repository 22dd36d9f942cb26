use goose::arch::riscv64::sv39::PageTable;
use goose::mm::{PAddr, Permissions, PhysicalMemoryManager, VAddr};
use goose::paging::{Error, PagingImpl};

fn memory(pages: usize) -> PhysicalMemoryManager {
    PhysicalMemoryManager::new(0x8000_0000, 4096, pages).unwrap()
}

fn translation(pt: &PageTable, va: usize) -> Option<(usize, u8)> {
    pt.lookup(VAddr::from(va))
        .map(|(pa, perms)| (usize::from(pa), perms.bits()))
}

#[test]
fn align_down() {
    assert!(PageTable::align_down(0x1042) == 0x1000);
}

#[test]
fn align_up() {
    assert!(PageTable::align_up(0x1042) == 0x2000);
}

#[test]
fn alignment_at_the_edges() {
    assert_eq!(PageTable::align_down(0), 0);
    assert_eq!(PageTable::align_down(0xfff), 0);
    assert_eq!(PageTable::align_down(0x1000), 0x1000);
    assert_eq!(PageTable::align_down(usize::MAX), usize::MAX - 0xfff);
    assert_eq!(PageTable::align_up(0), 0);
    assert_eq!(PageTable::align_up(1), 0x1000);
    assert_eq!(PageTable::align_up(0x1000), 0x1000);
    assert_eq!(PageTable::align_up(0x1001), 0x2000);
}

#[test]
fn alignment_laws_on_samples() {
    for a in [0usize, 1, 0xfff, 0x1000, 0x1042, 0x7fff_ffff, 0xdead_beef] {
        let down = PageTable::align_down(a);
        let up = PageTable::align_up(a);
        assert!(down <= a && a < down + 4096);
        assert_eq!(PageTable::align_down(up), up);
        assert!(up >= a && up - a < 4096);
    }
}

#[test]
fn page_size_and_top_address() {
    assert_eq!(PageTable::get_page_size(), 4096);
    assert_eq!(PageTable::get_uppermost_address(), usize::MAX);
}

#[test]
fn a_fresh_table_maps_nothing() {
    let mut mm = memory(16);
    let pt = PageTable::new(&mut mm);
    assert_eq!(mm.free_pages(), 14);
    assert_eq!(pt.addr(), 0x8000_1000);
    assert!(pt.lookup(VAddr::from(0)).is_none());
    assert!(pt.entry(VAddr::from(0)).is_none());
    assert_eq!(pt.missing_tables(VAddr::from(0x4000_1042)), 2);
}

#[test]
fn map_then_lookup() {
    let mut mm = memory(16);
    let mut pt = PageTable::new(&mut mm);
    pt.map(
        &mut mm,
        PAddr::from(0x8020_0000),
        VAddr::from(0x4000_1042),
        Permissions::read() | Permissions::write(),
    )
    .unwrap();
    assert_eq!(translation(&pt, 0x4000_1000), Some((0x8020_0000, 3)));
    assert_eq!(translation(&pt, 0x4000_1fff), Some((0x8020_0000, 3)));
    assert_eq!(translation(&pt, 0x4000_2000), None);
    assert_eq!(translation(&pt, 0x4000_0fff), None);
    assert_eq!(mm.free_pages(), 16 - 1 - 1 - 2);
    assert_eq!(
        pt.entry(VAddr::from(0x4000_1042)).unwrap().bits(),
        0x2008_0007
    );
}

#[test]
fn tables_are_made_only_where_missing() {
    let mut mm = memory(16);
    let mut pt = PageTable::new(&mut mm);
    let rw = Permissions::read() | Permissions::write();
    assert_eq!(pt.missing_tables(VAddr::from(0x4000_1000)), 2);
    pt.map(&mut mm, PAddr::from(0x1000), VAddr::from(0x4000_1000), rw)
        .unwrap();
    assert_eq!(mm.free_pages(), 12);
    // same table of level 0
    assert_eq!(pt.missing_tables(VAddr::from(0x4000_2000)), 0);
    pt.map(&mut mm, PAddr::from(0x2000), VAddr::from(0x4000_2000), rw)
        .unwrap();
    assert_eq!(mm.free_pages(), 12);
    // same table of level 1, another of level 0
    assert_eq!(pt.missing_tables(VAddr::from(0x4020_0000)), 1);
    pt.map(&mut mm, PAddr::from(0x3000), VAddr::from(0x4020_0000), rw)
        .unwrap();
    assert_eq!(mm.free_pages(), 11);
    // another entry of the root
    assert_eq!(pt.missing_tables(VAddr::from(0x8000_0000)), 2);
    pt.map(&mut mm, PAddr::from(0x4000), VAddr::from(0x8000_0000), rw)
        .unwrap();
    assert_eq!(mm.free_pages(), 9);
    assert_eq!(translation(&pt, 0x4000_1000), Some((0x1000, 3)));
    assert_eq!(translation(&pt, 0x4000_2000), Some((0x2000, 3)));
    assert_eq!(translation(&pt, 0x4020_0000), Some((0x3000, 3)));
    assert_eq!(translation(&pt, 0x8000_0000), Some((0x4000, 3)));
}

#[test]
fn the_last_mapping_of_a_page_wins() {
    let mut mm = memory(16);
    let mut pt = PageTable::new(&mut mm);
    pt.map(
        &mut mm,
        PAddr::from(0x1000),
        VAddr::from(0x5000),
        Permissions::read(),
    )
    .unwrap();
    pt.map(
        &mut mm,
        PAddr::from(0x7000),
        VAddr::from(0x5abc),
        Permissions::read() | Permissions::execute(),
    )
    .unwrap();
    assert_eq!(translation(&pt, 0x5000), Some((0x7000, 5)));
}

#[test]
fn pages_do_not_alias() {
    let mut mm = memory(64);
    let mut pt = PageTable::new(&mut mm);
    let pages: Vec<usize> = vec![
        0x0,
        0x1000,
        0x1f_f000,
        0x20_0000,
        0x3fff_f000,
        0x4000_0000,
        0x7f_ffff_f000,
        0x3f_ffff_f000,
    ];
    for (i, va) in pages.iter().enumerate() {
        let needed = pt.missing_tables(VAddr::from(*va));
        assert!(mm.free_pages() >= needed);
        pt.map(
            &mut mm,
            PAddr::from(0x10_0000 + i * 0x1000),
            VAddr::from(*va),
            Permissions { bits: (i % 7 + 1) as u8 },
        )
        .unwrap();
    }
    for (i, va) in pages.iter().enumerate() {
        assert_eq!(
            translation(&pt, *va),
            Some((0x10_0000 + i * 0x1000, (i % 7 + 1) as u8))
        );
    }
    assert_eq!(translation(&pt, 0x2000), None);
    assert_eq!(translation(&pt, 0x20_1000), None);
}

#[test]
fn bits_above_the_translated_ones_do_not_tell_pages_apart() {
    let mut mm = memory(16);
    let mut pt = PageTable::new(&mut mm);
    pt.map(
        &mut mm,
        PAddr::from(0x9000),
        VAddr::from(0x40_0000_3000),
        Permissions::read(),
    )
    .unwrap();
    assert_eq!(translation(&pt, 0xffff_ffc0_0000_3000), Some((0x9000, 1)));
    assert_eq!(translation(&pt, 0x3000), None);
}

#[test]
fn the_user_flag_is_not_kept_by_a_mapping() {
    let mut mm = memory(16);
    let mut pt = PageTable::new(&mut mm);
    pt.map(
        &mut mm,
        PAddr::from(0x9000),
        VAddr::from(0x3000),
        Permissions::user() | Permissions::write(),
    )
    .unwrap();
    assert_eq!(translation(&pt, 0x3000), Some((0x9000, 2)));
}

#[test]
fn map_noalloc_fails_where_a_table_is_missing() {
    let mut mm = memory(16);
    let mut pt = PageTable::new(&mut mm);
    let free = mm.free_pages();
    let r = pt.map_noalloc(
        PAddr::from(0x8020_0000),
        VAddr::from(0x4000_1000),
        Permissions::read(),
    );
    assert!(matches!(r, Err(Error::CannotMapNoAlloc)));
    assert_eq!(mm.free_pages(), free);
    assert_eq!(pt.missing_tables(VAddr::from(0x4000_1000)), 2);
    assert!(pt.lookup(VAddr::from(0x4000_1000)).is_none());

    // the same arguments succeed with an allocator
    pt.map(
        &mut mm,
        PAddr::from(0x8020_0000),
        VAddr::from(0x4000_1000),
        Permissions::read(),
    )
    .unwrap();
    assert_eq!(translation(&pt, 0x4000_1000), Some((0x8020_0000, 1)));
}

#[test]
fn map_noalloc_fails_where_only_the_last_table_is_missing() {
    let mut mm = memory(16);
    let mut pt = PageTable::new(&mut mm);
    pt.map(
        &mut mm,
        PAddr::from(0x1000),
        VAddr::from(0x4000_0000),
        Permissions::read(),
    )
    .unwrap();
    assert_eq!(pt.missing_tables(VAddr::from(0x4020_0000)), 1);
    let r = pt.map_noalloc(
        PAddr::from(0x2000),
        VAddr::from(0x4020_0000),
        Permissions::read(),
    );
    assert!(matches!(r, Err(Error::CannotMapNoAlloc)));
    assert_eq!(pt.missing_tables(VAddr::from(0x4020_0000)), 1);
    assert_eq!(translation(&pt, 0x4000_0000), Some((0x1000, 1)));
}

#[test]
fn map_noalloc_maps_where_the_tables_stand() {
    let mut mm = memory(16);
    let mut pt = PageTable::new(&mut mm);
    pt.map(
        &mut mm,
        PAddr::from(0x1000),
        VAddr::from(0x4000_0000),
        Permissions::read(),
    )
    .unwrap();
    let free = mm.free_pages();
    pt.map_noalloc(
        PAddr::from(0x2000),
        VAddr::from(0x4000_1000),
        Permissions::write(),
    )
    .unwrap();
    pt.map_noalloc(
        PAddr::from(0x3000),
        VAddr::from(0x4000_0000),
        Permissions::execute(),
    )
    .unwrap();
    assert_eq!(mm.free_pages(), free);
    assert_eq!(translation(&pt, 0x4000_1000), Some((0x2000, 2)));
    assert_eq!(translation(&pt, 0x4000_0000), Some((0x3000, 4)));
}

#[test]
fn an_invalid_entry_reserves_its_slot() {
    let mut mm = memory(16);
    let mut pt = PageTable::new(&mut mm);
    let free = mm.free_pages();
    pt.add_invalid_entry(&mut mm, VAddr::from(0x4000_1000))
        .unwrap();
    assert_eq!(mm.free_pages(), free - 2);
    assert_eq!(pt.missing_tables(VAddr::from(0x4000_1000)), 0);
    let entry = pt.entry(VAddr::from(0x4000_1000)).unwrap();
    assert!(!entry.is_valid());
    assert_eq!(entry.bits(), 0x0002_8282_8282_8002);
    assert!(pt.lookup(VAddr::from(0x4000_1000)).is_none());
    // its neighbours have an empty slot in the same table
    assert_eq!(pt.entry(VAddr::from(0x4000_2000)).unwrap().bits(), 0);
    // and it can be mapped later without an allocator
    pt.map_noalloc(
        PAddr::from(0x5000),
        VAddr::from(0x4000_1000),
        Permissions::read(),
    )
    .unwrap();
    assert_eq!(translation(&pt, 0x4000_1000), Some((0x5000, 1)));
}

#[test]
fn an_invalid_entry_hides_an_earlier_mapping() {
    let mut mm = memory(16);
    let mut pt = PageTable::new(&mut mm);
    pt.map(
        &mut mm,
        PAddr::from(0x1000),
        VAddr::from(0x7000),
        Permissions::read(),
    )
    .unwrap();
    pt.add_invalid_entry(&mut mm, VAddr::from(0x7000)).unwrap();
    assert!(pt.lookup(VAddr::from(0x7000)).is_none());
    assert!(!pt.entry(VAddr::from(0x7000)).unwrap().is_valid());
}

#[test]
fn conversion_errors_are_wrapped() {
    let e = u8::try_from(300u32).unwrap_err();
    assert!(matches!(Error::from(e), Error::InvalidConversion(_)));
}

#[test]
fn physical_bits_above_55_are_not_kept() {
    let mut mm = memory(16);
    let mut pt = PageTable::new(&mut mm);
    pt.map(
        &mut mm,
        PAddr::from(0xfff0_0000_0000_1abc),
        VAddr::from(0x3000),
        Permissions::read(),
    )
    .unwrap();
    assert_eq!(translation(&pt, 0x3000), Some((0x00f0_0000_0000_1000, 1)));
    pt.map(
        &mut mm,
        PAddr::from(0x0010_0000_0000_0000),
        VAddr::from(0x4000),
        Permissions::read(),
    )
    .unwrap();
    assert_eq!(translation(&pt, 0x4000), Some((0x0010_0000_0000_0000, 1)));
    pt.map_noalloc(
        PAddr::from(0x00ff_ffff_ffff_ffff),
        VAddr::from(0x4000),
        Permissions::write(),
    )
    .unwrap();
    assert_eq!(translation(&pt, 0x4000), Some((0x00ff_ffff_ffff_f000, 2)));
}

#[test]
fn new_tables_lie_in_the_next_pages() {
    let mut mm = memory(16);
    let mut pt = PageTable::new(&mut mm);
    let va = VAddr::from(0x4000_1000);
    assert_eq!(pt.table(va, 2).unwrap().0, 0x8000_1000);
    assert_eq!(pt.table(va, 2).unwrap().1.bits(), 0);
    assert!(pt.table(va, 1).is_none());
    assert!(pt.table(va, 0).is_none());

    pt.map(&mut mm, PAddr::from(0x8020_0000), va, Permissions::read())
        .unwrap();
    let (root, root_entry) = pt.table(va, 2).unwrap();
    let (dir, dir_entry) = pt.table(va, 1).unwrap();
    let (leaf, leaf_entry) = pt.table(va, 0).unwrap();
    assert_eq!(root, 0x8000_1000);
    assert_eq!(dir, 0x8000_2000);
    assert_eq!(leaf, 0x8000_3000);
    // the upper entries point to the tables below them
    assert_eq!(root_entry.bits(), 0x2000_0801);
    assert_eq!(root_entry.get_target(), dir);
    assert!(root_entry.is_valid() && !root_entry.is_leaf());
    assert_eq!(dir_entry.bits(), 0x2000_0c01);
    assert_eq!(dir_entry.get_target(), leaf);
    assert_eq!(leaf_entry.bits(), pt.entry(va).unwrap().bits());

    // a page that goes the same way finds the same tables
    let near = VAddr::from(0x4000_5000);
    assert_eq!(pt.table(near, 0).unwrap().0, leaf);
    // one that parts at level 1 gets a table of its own, in the next page
    let far = VAddr::from(0x4020_0000);
    assert_eq!(pt.table(far, 1).unwrap().0, dir);
    assert_eq!(pt.table(far, 1).unwrap().1.bits(), 0);
    assert!(pt.table(far, 0).is_none());
    pt.add_invalid_entry(&mut mm, far).unwrap();
    assert_eq!(pt.table(far, 0).unwrap().0, 0x8000_4000);
    assert_eq!(pt.table(far, 1).unwrap().1.get_target(), 0x8000_4000);
    // and the first is where it was
    assert_eq!(pt.table(va, 0).unwrap().0, leaf);
    pt.map_noalloc(PAddr::from(0x9000), va, Permissions::write())
        .unwrap();
    assert_eq!(pt.table(va, 0).unwrap().0, leaf);
}

#[test]
fn rounding_up_at_the_top_of_the_address_space() {
    assert_eq!(PageTable::align_up(usize::MAX - 4095), usize::MAX - 4095);
    assert_eq!(PageTable::align_up(usize::MAX - 4096), usize::MAX - 4095);
    assert_eq!(PageTable::align_down(usize::MAX - 4095), usize::MAX - 4095);
}

#[test]
fn all_tables_are_listed_root_first() {
    let mut mm = memory(16);
    let mut pt = PageTable::new(&mut mm);
    let fresh = pt.tables();
    assert_eq!(fresh.len(), 1);
    assert_eq!(fresh[0].0, 0x8000_1000);
    assert_eq!(fresh[0].1, vec![0u64; 512]);

    pt.map(
        &mut mm,
        PAddr::from(0x8020_0000),
        VAddr::from(0x4000_1000),
        Permissions::read() | Permissions::write(),
    )
    .unwrap();
    pt.map(
        &mut mm,
        PAddr::from(0x8030_0000),
        VAddr::from(0x20_0000),
        Permissions::execute(),
    )
    .unwrap();
    let tables = pt.tables();
    let addresses: Vec<u64> = tables.iter().map(|t| t.0).collect();
    // the root, then what hangs below its entry 0, then below its entry 1
    assert_eq!(
        addresses,
        vec![0x8000_1000, 0x8000_4000, 0x8000_5000, 0x8000_2000, 0x8000_3000]
    );
    for (_, words) in &tables {
        assert_eq!(words.len(), 512);
    }
    // the root points to the two directories
    assert_eq!(tables[0].1[0], 0x2000_1001);
    assert_eq!(tables[0].1[1], 0x2000_0801);
    assert_eq!(tables[0].1.iter().filter(|w| **w != 0).count(), 2);
    // the directories point to the tables of level 0
    assert_eq!(tables[1].1[1], 0x2000_1401);
    assert_eq!(tables[3].1[0], 0x2000_0c01);
    // and these hold the mappings
    assert_eq!(tables[2].1[0], 0x200c_0009);
    assert_eq!(tables[4].1[1], 0x2008_0007);
}
