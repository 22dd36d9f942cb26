use goose::arch::riscv64::sv39::PageTable;
use goose::executable::elf::{
    elf_to_mm_permissions, Elf, Header, ProgramHeader, PF_R, PF_W, PF_X, PT_LOAD, SIZEOF_EHDR,
    SIZEOF_PHDR,
};
use goose::mm::{PhysicalMemoryManager, VAddr};
use goose::paging::PagingImpl;

struct Segment {
    p_type: u32,
    p_flags: u32,
    p_offset: u64,
    p_paddr: u64,
    p_filesz: u64,
    p_memsz: u64,
}

fn put(bytes: &mut Vec<u8>, at: usize, value: u64, width: usize) {
    for i in 0..width {
        bytes[at + i] = (value >> (8 * i)) as u8;
    }
}

/// An image of `len` bytes with the given entry point and program headers;
/// the bytes behind the headers count up from 1.
fn image(entry: u64, segments: &[Segment], len: usize) -> Vec<u8> {
    let mut bytes = vec![0u8; len];
    for i in 0..len {
        bytes[i] = (i % 251 + 1) as u8;
    }
    for i in 0..64 {
        bytes[i] = 0;
    }
    bytes[0] = 0x7f;
    bytes[1] = b'E';
    bytes[2] = b'L';
    bytes[3] = b'F';
    bytes[4] = 2;
    bytes[5] = 1;
    bytes[6] = 1;
    put(&mut bytes, 16, 2, 2);
    put(&mut bytes, 18, 0xf3, 2);
    put(&mut bytes, 20, 1, 4);
    put(&mut bytes, 24, entry, 8);
    put(&mut bytes, 32, 64, 8);
    put(&mut bytes, 52, 64, 2);
    put(&mut bytes, 54, 56, 2);
    put(&mut bytes, 56, segments.len() as u64, 2);
    put(&mut bytes, 58, 64, 2);
    for (i, s) in segments.iter().enumerate() {
        let at = 64 + 56 * i;
        put(&mut bytes, at, s.p_type as u64, 4);
        put(&mut bytes, at + 4, s.p_flags as u64, 4);
        put(&mut bytes, at + 8, s.p_offset, 8);
        put(&mut bytes, at + 16, s.p_paddr, 8);
        put(&mut bytes, at + 24, s.p_paddr, 8);
        put(&mut bytes, at + 32, s.p_filesz, 8);
        put(&mut bytes, at + 40, s.p_memsz, 8);
        put(&mut bytes, at + 48, 0x1000, 8);
    }
    bytes
}

fn load_segment(flags: u32, offset: u64, paddr: u64, filesz: u64, memsz: u64) -> Segment {
    Segment {
        p_type: PT_LOAD,
        p_flags: flags,
        p_offset: offset,
        p_paddr: paddr,
        p_filesz: filesz,
        p_memsz: memsz,
    }
}

fn memory(pages: usize) -> PhysicalMemoryManager {
    PhysicalMemoryManager::new(0x8000_0000, 4096, pages).unwrap()
}

fn translation(pt: &PageTable, va: usize) -> Option<(usize, u8)> {
    pt.lookup(VAddr::from(va))
        .map(|(pa, perms)| (usize::from(pa), perms.bits()))
}

#[test]
fn constants_are_those_of_the_format() {
    assert_eq!(PT_LOAD, goblin::elf::program_header::PT_LOAD);
    assert_eq!(PF_R, goblin::elf::program_header::PF_R);
    assert_eq!(PF_W, goblin::elf::program_header::PF_W);
    assert_eq!(PF_X, goblin::elf::program_header::PF_X);
    assert_eq!(SIZEOF_EHDR, goblin::elf64::header::SIZEOF_EHDR);
    assert_eq!(SIZEOF_PHDR, goblin::elf64::program_header::SIZEOF_PHDR);
}

#[test]
fn header_fields_sit_at_their_offsets() {
    let bytes = image(
        0x0123_4567_89ab_cdef,
        &[load_segment(PF_R, 0x200, 0x1_0000, 16, 16)],
        0x300,
    );
    let header = Header::parse(&bytes);
    assert_eq!(header.e_entry, 0x0123_4567_89ab_cdef);
    assert_eq!(header.e_phoff, 64);
    assert_eq!(header.e_phentsize, 56);
    assert_eq!(header.e_phnum, 1);
}

#[test]
fn header_agrees_with_goblin() {
    let bytes = image(
        0xfedc_ba98_7654_3210,
        &[
            load_segment(PF_R | PF_X, 0x200, 0x1_0000, 16, 16),
            load_segment(PF_R | PF_W, 0x210, 0x2_0000, 16, 4096),
        ],
        0x300,
    );
    let theirs = goblin::elf64::header::Header::parse(&bytes).unwrap();
    let ours = Header::parse(&bytes);
    assert_eq!(ours.e_entry, theirs.e_entry);
    assert_eq!(ours.e_phoff, theirs.e_phoff);
    assert_eq!(ours.e_phentsize, theirs.e_phentsize);
    assert_eq!(ours.e_phnum, theirs.e_phnum);
}

#[test]
fn program_headers_agree_with_goblin() {
    let bytes = image(
        0x1_0000,
        &[
            load_segment(PF_R | PF_X, 0x200, 0x1_0040, 16, 16),
            Segment {
                p_type: 4,
                p_flags: PF_R,
                p_offset: 0x1234_5678_9abc_def0,
                p_paddr: 0x0fed_cba9_8765_4321,
                p_filesz: 0x1111_2222_3333_4444,
                p_memsz: 0x5555_6666_7777_8888,
            },
            load_segment(PF_R | PF_W, 0x210, 0x2_0000, 16, 4096),
        ],
        0x300,
    );
    let theirs = goblin::elf64::program_header::ProgramHeader::parse(
        &bytes,
        64,
        3,
        goblin::container::Endian::Little,
    )
    .unwrap();
    let elf = Elf::from_bytes(&bytes);
    assert!(elf.is_framed());
    let ours = elf.segments();
    assert_eq!(ours.len(), 3);
    for i in 0..3 {
        assert_eq!(ours[i].p_type, theirs[i].p_type);
        assert_eq!(ours[i].p_flags, theirs[i].p_flags);
        assert_eq!(ours[i].p_offset, theirs[i].p_offset);
        assert_eq!(ours[i].p_vaddr, theirs[i].p_vaddr);
        assert_eq!(ours[i].p_paddr, theirs[i].p_paddr);
        assert_eq!(ours[i].p_filesz, theirs[i].p_filesz);
        assert_eq!(ours[i].p_memsz, theirs[i].p_memsz);
        assert_eq!(ours[i].p_align, theirs[i].p_align);
    }
    let single = ProgramHeader::parse(&bytes, 64 + 56);
    assert_eq!(single.p_type, 4);
    assert_eq!(single.p_offset, 0x1234_5678_9abc_def0);
}

#[test]
fn entry_point() {
    let bytes = image(0x1_0abc, &[], 64);
    let elf = Elf::from_bytes(&bytes);
    assert_eq!(elf.get_entry_point(), 0x1_0abc);
}

#[test]
fn segments_can_be_listed_again_and_again() {
    let bytes = image(
        0,
        &[
            load_segment(PF_R, 0x200, 0x1_0000, 1, 2),
            load_segment(PF_W, 0x201, 0x2_0000, 3, 4),
        ],
        0x300,
    );
    let elf = Elf::from_bytes(&bytes);
    let first = elf.segments();
    let second = elf.segments();
    assert_eq!(first.len(), 2);
    assert_eq!(second.len(), 2);
    for i in 0..2 {
        assert_eq!(first[i].p_flags, second[i].p_flags);
        assert_eq!(first[i].p_filesz, second[i].p_filesz);
    }
    assert_eq!(first[1].p_memsz, 4);
    assert!(Elf::from_bytes(&image(0, &[], 64)).segments().is_empty());
}

#[test]
fn pages_needed_rounds_up_to_one_and_then_down() {
    let needed = |memsz: u64| {
        Elf::pages_needed(
            &ProgramHeader {
                p_type: PT_LOAD,
                p_flags: PF_R,
                p_offset: 0,
                p_vaddr: 0,
                p_paddr: 0,
                p_filesz: 0,
                p_memsz: memsz,
                p_align: 0x1000,
            },
            4096,
        )
    };
    assert_eq!(needed(0), 1);
    assert_eq!(needed(1), 1);
    assert_eq!(needed(4095), 1);
    assert_eq!(needed(4096), 1);
    assert_eq!(needed(4097), 1);
    assert_eq!(needed(8191), 1);
    assert_eq!(needed(8192), 2);
    assert_eq!(needed(3 * 4096 + 10), 3);
}

#[test]
fn flags_become_rights_and_the_user_mark() {
    assert_eq!(elf_to_mm_permissions(0).bits(), 8);
    assert_eq!(elf_to_mm_permissions(PF_R).bits(), 9);
    assert_eq!(elf_to_mm_permissions(PF_W).bits(), 10);
    assert_eq!(elf_to_mm_permissions(PF_X).bits(), 12);
    assert_eq!(elf_to_mm_permissions(PF_R | PF_W).bits(), 11);
    assert_eq!(elf_to_mm_permissions(PF_R | PF_W | PF_X).bits(), 15);
    assert_eq!(elf_to_mm_permissions(0xffff_fff8).bits(), 8);
    assert_eq!(elf_to_mm_permissions(0xffff_fff8 | PF_X).bits(), 12);
}

#[test]
fn framing_is_checked() {
    let bytes = image(0, &[load_segment(PF_R, 0x200, 0x1_0000, 16, 16)], 0x300);
    assert!(Elf::from_bytes(&bytes).is_framed());
    assert!(!Elf::from_bytes(&bytes[..63]).is_framed());
    assert!(Elf::from_bytes(&bytes[..64 + 56]).is_framed());
    assert!(!Elf::from_bytes(&bytes[..64 + 55]).is_framed());

    let mut far = bytes.clone();
    put(&mut far, 32, 0x300 - 55, 8);
    assert!(!Elf::from_bytes(&far).is_framed());
    put(&mut far, 32, 0x300 - 56, 8);
    assert!(Elf::from_bytes(&far).is_framed());

    let mut many = bytes.clone();
    put(&mut many, 56, 13, 2);
    assert!(!Elf::from_bytes(&many).is_framed());
    put(&mut many, 56, 12, 2);
    assert!(Elf::from_bytes(&many).is_framed());

    let mut none = bytes.clone();
    put(&mut none, 56, 0, 2);
    put(&mut none, 32, u64::MAX, 8);
    assert!(Elf::from_bytes(&none).is_framed());
}

#[test]
fn loadability_is_checked() {
    let ok = image(0, &[load_segment(PF_R, 0x200, 0x1_0000, 0x100, 0x100)], 0x300);
    assert!(Elf::from_bytes(&ok).is_loadable(4096));

    let beyond = image(0, &[load_segment(PF_R, 0x200, 0x1_0000, 0x101, 0x101)], 0x300);
    assert!(!Elf::from_bytes(&beyond).is_loadable(4096));

    let shrinks = image(0, &[load_segment(PF_R, 0x200, 0x1_0000, 0x100, 0xff)], 0x300);
    assert!(!Elf::from_bytes(&shrinks).is_loadable(4096));

    let high = image(
        0,
        &[load_segment(PF_R, 0x200, u64::MAX, 0x100, 3 * 4096)],
        0x300,
    );
    assert!(!Elf::from_bytes(&high).is_loadable(4096));

    // what is not loaded is not looked at
    let other = image(
        0,
        &[Segment {
            p_type: 2,
            p_flags: 0,
            p_offset: 0x1000,
            p_paddr: u64::MAX,
            p_filesz: 0x1000,
            p_memsz: 0,
        }],
        0x300,
    );
    assert!(Elf::from_bytes(&other).is_loadable(4096));
    assert!(!Elf::from_bytes(&ok[..10]).is_loadable(4096));
}

#[test]
fn a_small_segment_takes_one_page() {
    let bytes = image(
        0x1_0000,
        &[load_segment(PF_R | PF_X, 0x200, 0x1_0000, 0x100, 0x100)],
        0x300,
    );
    let elf = Elf::from_bytes(&bytes);
    let mut mm = memory(32);
    let mut pt = PageTable::new(&mut mm);
    let free = mm.free_pages();
    let physical = 0x8000_0000 + (32 - free) * 4096;
    assert!(elf.is_loadable(mm.page_size()));

    elf.load(&mut pt, &mut mm);

    // one page for the segment, two for the tables on the way
    assert_eq!(mm.free_pages(), free - 1 - 2);
    assert_eq!(mm.read(physical, 0x100), bytes[0x200..0x300].to_vec());
    assert_eq!(mm.read(physical + 0x100, 4096 - 0x100), vec![0u8; 4096 - 0x100]);
    assert_eq!(translation(&pt, 0x1_0000), Some((physical, 5)));
    assert_eq!(translation(&pt, 0x1_0fff), Some((physical, 5)));
    assert_eq!(translation(&pt, 0x1_1000), None);
    assert_eq!(translation(&pt, 0xf000), None);
}

#[test]
fn what_the_file_lacks_is_zeroed() {
    let bytes = image(
        0,
        &[load_segment(PF_R | PF_W, 0x200, 0x2_0000, 0x40, 0x900)],
        0x300,
    );
    let elf = Elf::from_bytes(&bytes);
    let mut mm = memory(32);
    let mut pt = PageTable::new(&mut mm);
    let physical = 0x8000_0000 + (32 - mm.free_pages()) * 4096;
    // the page-to-be holds something else
    mm.fill(physical, 4096, 0xaa);

    elf.load(&mut pt, &mut mm);

    assert_eq!(mm.read(physical, 0x40), bytes[0x200..0x240].to_vec());
    assert_eq!(mm.read(physical + 0x40, 0x900 - 0x40), vec![0u8; 0x900 - 0x40]);
    assert_eq!(mm.read(physical + 0x900, 4096 - 0x900), vec![0xaau8; 4096 - 0x900]);
    assert_eq!(translation(&pt, 0x2_0000), Some((physical, 3)));
}

#[test]
fn a_segment_without_file_bytes_is_all_zero() {
    let bytes = image(0, &[load_segment(PF_W, 0x300, 0x2_0000, 0, 4096)], 0x300);
    let elf = Elf::from_bytes(&bytes);
    let mut mm = memory(32);
    let mut pt = PageTable::new(&mut mm);
    let physical = 0x8000_0000 + (32 - mm.free_pages()) * 4096;
    mm.fill(physical, 4096, 0xaa);
    elf.load(&mut pt, &mut mm);
    assert_eq!(mm.read(physical, 4096), vec![0u8; 4096]);
    assert_eq!(translation(&pt, 0x2_0000), Some((physical, 2)));
}

#[test]
fn a_trailing_part_of_a_page_is_left_out() {
    let len = 0x200 + 3 * 4096;
    let bytes = image(
        0,
        &[load_segment(
            PF_R,
            0x200,
            0x40_0000,
            2 * 4096 + 100,
            2 * 4096 + 200,
        )],
        len,
    );
    let elf = Elf::from_bytes(&bytes);
    let mut mm = memory(32);
    let mut pt = PageTable::new(&mut mm);
    let free = mm.free_pages();
    let physical = 0x8000_0000 + (32 - free) * 4096;
    mm.fill(physical, 3 * 4096, 0xaa);

    elf.load(&mut pt, &mut mm);

    assert_eq!(mm.free_pages(), free - 2 - 2);
    assert_eq!(
        mm.read(physical, 2 * 4096),
        bytes[0x200..0x200 + 2 * 4096].to_vec()
    );
    // the page behind the two holds tables or nothing of the segment
    assert_eq!(translation(&pt, 0x40_0000), Some((physical, 1)));
    assert_eq!(translation(&pt, 0x40_1000), Some((physical + 4096, 1)));
    assert_eq!(translation(&pt, 0x40_2000), None);
}

#[test]
fn the_target_address_is_rounded_down() {
    let bytes = image(0, &[load_segment(PF_R, 0x200, 0x1_0abc, 0x10, 0x10)], 0x300);
    let elf = Elf::from_bytes(&bytes);
    let mut mm = memory(32);
    let mut pt = PageTable::new(&mut mm);
    let physical = 0x8000_0000 + (32 - mm.free_pages()) * 4096;
    elf.load(&mut pt, &mut mm);
    assert_eq!(translation(&pt, 0x1_0000), Some((physical, 1)));
    // the bytes stand at the start of the page
    assert_eq!(mm.read(physical, 0x10), bytes[0x200..0x210].to_vec());
}

#[test]
fn only_load_segments_are_loaded() {
    let bytes = image(
        0,
        &[
            Segment {
                p_type: 6,
                p_flags: PF_R,
                p_offset: 64,
                p_paddr: 0x5_0000,
                p_filesz: 56,
                p_memsz: 56,
            },
            load_segment(PF_R | PF_X, 0x200, 0x1_0000, 0x80, 0x80),
            Segment {
                p_type: 0x6474_e551,
                p_flags: PF_R | PF_W,
                p_offset: 0,
                p_paddr: 0x6_0000,
                p_filesz: 0,
                p_memsz: 0,
            },
            load_segment(PF_R | PF_W, 0x280, 0x2_0000, 0x80, 0x1000),
        ],
        0x300,
    );
    let elf = Elf::from_bytes(&bytes);
    let mut mm = memory(32);
    let mut pt = PageTable::new(&mut mm);
    let free = mm.free_pages();
    let first = 0x8000_0000 + (32 - free) * 4096;

    elf.load(&mut pt, &mut mm);

    // first segment: its page, then two tables; second: its page, no table
    let second = first + 3 * 4096;
    assert_eq!(mm.free_pages(), free - 4);
    assert_eq!(translation(&pt, 0x1_0000), Some((first, 5)));
    assert_eq!(translation(&pt, 0x2_0000), Some((second, 3)));
    assert_eq!(translation(&pt, 0x5_0000), None);
    assert_eq!(translation(&pt, 0x6_0000), None);
    assert_eq!(mm.read(first, 0x80), bytes[0x200..0x280].to_vec());
    assert_eq!(mm.read(second, 0x80), bytes[0x280..0x300].to_vec());
    assert_eq!(mm.read(second + 0x80, 0xf80), vec![0u8; 0xf80]);
}

#[test]
fn a_later_segment_wins_a_shared_page() {
    let bytes = image(
        0,
        &[
            load_segment(PF_R, 0x200, 0x1_0000, 0x10, 0x10),
            load_segment(PF_W, 0x210, 0x1_0800, 0x10, 0x10),
        ],
        0x300,
    );
    let elf = Elf::from_bytes(&bytes);
    let mut mm = memory(32);
    let mut pt = PageTable::new(&mut mm);
    let first = 0x8000_0000 + (32 - mm.free_pages()) * 4096;
    elf.load(&mut pt, &mut mm);
    assert_eq!(translation(&pt, 0x1_0000), Some((first + 3 * 4096, 2)));
}

#[test]
fn an_image_without_segments_changes_nothing() {
    let bytes = image(0x42, &[], 64);
    let elf = Elf::from_bytes(&bytes);
    let mut mm = memory(8);
    let mut pt = PageTable::new(&mut mm);
    let free = mm.free_pages();
    elf.load(&mut pt, &mut mm);
    assert_eq!(mm.free_pages(), free);
    assert_eq!(pt.missing_tables(VAddr::from(0)), 2);
}

#[test]
fn room_is_reckoned_before_loading() {
    let bytes = image(
        0,
        &[
            load_segment(PF_R, 0x200, 0x1_0000, 0x10, 2 * 4096),
            Segment {
                p_type: 4,
                p_flags: 0,
                p_offset: 0,
                p_paddr: 0,
                p_filesz: 0,
                p_memsz: 100 * 4096,
            },
            load_segment(PF_W, 0x210, 0x2_0000, 0x10, 0x10),
        ],
        0x300,
    );
    let elf = Elf::from_bytes(&bytes);
    // three pages for each of the three pages that are loaded
    let mut exact = memory(1 + 9);
    assert!(elf.fits(&exact));
    exact.alloc_pages(1).unwrap();
    assert!(!elf.fits(&exact));
    assert!(!elf.fits(&memory(1)));
    assert!(elf.fits(&memory(64)));
    assert!(Elf::from_bytes(&image(0, &[], 64)).fits(&memory(1)));
}

#[test]
fn room_is_told_exactly() {
    let bytes = image(
        0,
        &[
            load_segment(PF_R, 0x200, 0x1_0000, 0x10, 2 * 4096),
            load_segment(PF_W, 0x210, 0x1_2000, 0x10, 0x10),
        ],
        0x300,
    );
    let elf = Elf::from_bytes(&bytes);
    // three pages of segments, and two tables that all of them share
    let mut mm = memory(2 + 5);
    let mut pt = PageTable::new(&mut mm);
    assert_eq!(mm.free_pages(), 5);
    assert!(elf.has_room(&pt, &mm));
    assert!(!elf.fits(&mm));
    elf.load(&mut pt, &mut mm);
    assert_eq!(mm.free_pages(), 0);
    assert_eq!(translation(&pt, 0x1_2000).unwrap().1, 2);

    let mut mm = memory(2 + 4);
    let pt = PageTable::new(&mut mm);
    assert!(!elf.has_room(&pt, &mm));
}

#[test]
fn tables_that_stand_are_not_reckoned() {
    let bytes = image(0, &[load_segment(PF_R, 0x200, 0x1_0000, 0x10, 0x10)], 0x300);
    let elf = Elf::from_bytes(&bytes);
    let mut mm = memory(2 + 3);
    let mut pt = PageTable::new(&mut mm);
    pt.add_invalid_entry(&mut mm, VAddr::from(0x1_f000)).unwrap();
    assert_eq!(mm.free_pages(), 1);
    assert!(elf.has_room(&pt, &mm));
    elf.load(&mut pt, &mut mm);
    assert_eq!(mm.free_pages(), 0);
    assert!(!elf.has_room(&pt, &mm));
    assert_eq!(elf.len(), 0x300);
}
