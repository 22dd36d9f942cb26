//! The loader of 64-bit little-endian ELF executables.

use crate::arch::riscv64::sv39::{page_of, request, Mappings, PageTableEntry, Request};
use crate::arch::MemoryImpl;
use crate::mm;
use crate::mm::physical_memory_manager::Memory;
use crate::arch::riscv64::sv39::Plan;
use crate::mm::{blank, blank_run, lemma_blank, reckon_run, run_requests, PhysicalMemoryManager};
use crate::paging::{floor, PagingImpl};
use vstd::prelude::*;

verus! {

/// The size of the file header in bytes.
pub const SIZEOF_EHDR: usize = 64;

/// The size of a program header in bytes.
pub const SIZEOF_PHDR: usize = 56;

/// The type of a program header that describes a segment to be loaded.
pub const PT_LOAD: u32 = 1;

/// The flag of a segment that may be executed.
pub const PF_X: u32 = 1;

/// The flag of a segment that may be written.
pub const PF_W: u32 = 2;

/// The flag of a segment that may be read.
pub const PF_R: u32 = 4;

/// The number that the two bytes of `bytes` from `at` on stand for, the low
/// byte first.
pub open spec fn le_u16(bytes: Seq<u8>, at: int) -> int {
    bytes[at] + 0x100 * bytes[at + 1]
}

/// The number that the four bytes of `bytes` from `at` on stand for, the low
/// byte first.
pub open spec fn le_u32(bytes: Seq<u8>, at: int) -> int {
    le_u16(bytes, at) + 0x1_0000 * le_u16(bytes, at + 2)
}

/// The number that the eight bytes of `bytes` from `at` on stand for, the
/// low byte first.
pub open spec fn le_u64(bytes: Seq<u8>, at: int) -> int {
    le_u32(bytes, at) + 0x1_0000_0000 * le_u32(bytes, at + 4)
}

fn read_u16(data: &[u8], at: usize) -> (r: u16)
    requires
        at + 2 <= data.len(),
    ensures
        r == le_u16(data@, at as int),
{
    let b0 = data[at] as u16;
    let b1 = data[at + 1] as u16;
    b0 + 0x100 * b1
}

fn read_u32(data: &[u8], at: usize) -> (r: u32)
    requires
        at + 4 <= data.len(),
    ensures
        r == le_u32(data@, at as int),
{
    let lo = read_u16(data, at) as u32;
    let hi = read_u16(data, at + 2) as u32;
    lo + 0x1_0000 * hi
}

fn read_u64(data: &[u8], at: usize) -> (r: u64)
    requires
        at + 8 <= data.len(),
    ensures
        r == le_u64(data@, at as int),
{
    let lo = read_u32(data, at) as u64;
    let hi = read_u32(data, at + 4) as u64;
    lo + 0x1_0000_0000 * hi
}

/// What the loader reads in the file header, which takes the first 64 bytes
/// of the file.
#[derive(Clone, Copy, Debug)]
pub struct Header {
    /// The virtual address at which the program starts to run.
    pub e_entry: u64,
    /// The offset in the file at which the program headers start.
    pub e_phoff: u64,
    /// The size of one program header in the file.
    pub e_phentsize: u16,
    /// The number of program headers.
    pub e_phnum: u16,
}

impl Header {
    /// The header that the first 64 bytes of `bytes` stand for: each field
    /// at its fixed offset, the low byte first.
    pub open spec fn decode(bytes: Seq<u8>) -> Header {
        Header {
            e_entry: le_u64(bytes, 24) as u64,
            e_phoff: le_u64(bytes, 32) as u64,
            e_phentsize: le_u16(bytes, 54) as u16,
            e_phnum: le_u16(bytes, 56) as u16,
        }
    }

    /// Reads the header in the first 64 bytes of `bytes`. Nothing is
    /// checked: what stands at the offsets is taken as it is.
    pub fn parse(bytes: &[u8]) -> (r: Header)
        requires
            bytes.len() >= SIZEOF_EHDR,
        ensures
            r == Self::decode(bytes@),
    {
        Header {
            e_entry: read_u64(bytes, 24),
            e_phoff: read_u64(bytes, 32),
            e_phentsize: read_u16(bytes, 54),
            e_phnum: read_u16(bytes, 56),
        }
    }
}

/// A program header: the description of one segment of the program.
#[derive(Clone, Copy, Debug)]
pub struct ProgramHeader {
    /// The type of the segment.
    pub p_type: u32,
    /// The flags of the segment: readable, writable, executable.
    pub p_flags: u32,
    /// The offset in the file at which the bytes of the segment start.
    pub p_offset: u64,
    /// The virtual address of the segment.
    pub p_vaddr: u64,
    /// The address at which the segment is meant to be loaded.
    pub p_paddr: u64,
    /// The number of bytes that the segment has in the file.
    pub p_filesz: u64,
    /// The number of bytes that the segment has in memory.
    pub p_memsz: u64,
    /// The alignment of the segment.
    pub p_align: u64,
}

impl ProgramHeader {
    /// The program header that the 56 bytes of `bytes` from `at` on stand
    /// for: each field at its fixed offset, the low byte first.
    pub open spec fn decode(bytes: Seq<u8>, at: int) -> ProgramHeader {
        ProgramHeader {
            p_type: le_u32(bytes, at) as u32,
            p_flags: le_u32(bytes, at + 4) as u32,
            p_offset: le_u64(bytes, at + 8) as u64,
            p_vaddr: le_u64(bytes, at + 16) as u64,
            p_paddr: le_u64(bytes, at + 24) as u64,
            p_filesz: le_u64(bytes, at + 32) as u64,
            p_memsz: le_u64(bytes, at + 40) as u64,
            p_align: le_u64(bytes, at + 48) as u64,
        }
    }

    /// Reads the program header in the 56 bytes of `bytes` from `at` on.
    pub fn parse(bytes: &[u8], at: usize) -> (r: ProgramHeader)
        requires
            at + SIZEOF_PHDR <= bytes.len(),
        ensures
            r == Self::decode(bytes@, at as int),
    {
        ProgramHeader {
            p_type: read_u32(bytes, at),
            p_flags: read_u32(bytes, at + 4),
            p_offset: read_u64(bytes, at + 8),
            p_vaddr: read_u64(bytes, at + 16),
            p_paddr: read_u64(bytes, at + 24),
            p_filesz: read_u64(bytes, at + 32),
            p_memsz: read_u64(bytes, at + 40),
            p_align: read_u64(bytes, at + 48),
        }
    }
}

/// The rights that a segment with the flags `flags` is mapped with.
pub open spec fn segment_rights(flags: u32) -> u8 {
    mm::USER | (if flags & PF_R != 0 {
        mm::READ
    } else {
        0
    }) | (if flags & PF_W != 0 {
        mm::WRITE
    } else {
        0
    }) | (if flags & PF_X != 0 {
        mm::EXECUTE
    } else {
        0
    })
}

/// The rights that a segment with the flags `elf_permission` is mapped
/// with: reading, writing and executing as the flags say, and always the
/// mark of user space, since no such segment is ever mapped elsewhere.
pub fn elf_to_mm_permissions(elf_permission: u32) -> (r: mm::Permissions)
    ensures
        r@ == segment_rights(elf_permission),
{
    let mut perms = mm::Permissions::user();
    proof {
        let u = mm::USER;
        assert(u | 0u8 == u) by (bit_vector);
    }
    if elf_permission & PF_R != 0 {
        perms = perms | mm::Permissions::read();
    }
    proof {
        let p = perms@;
        assert(p | 0u8 == p) by (bit_vector);
    }
    if elf_permission & PF_W != 0 {
        perms = perms | mm::Permissions::write();
    }
    proof {
        let p = perms@;
        assert(p | 0u8 == p) by (bit_vector);
    }
    if elf_permission & PF_X != 0 {
        perms = perms | mm::Permissions::execute();
    }
    perms
}

/// The number of pages that the segment `segment` gets where a page has
/// `page_size` bytes: one where the segment is smaller than a page, and
/// else as many as it fills. A last page that it fills in part is left out.
pub open spec fn pages_of(segment: ProgramHeader, page_size: usize) -> int {
    if (segment.p_memsz as usize) < page_size {
        1
    } else {
        ((segment.p_memsz as usize) / page_size) as int
    }
}

/// The number of bytes that the pages of the segment hold.
pub open spec fn room_of(segment: ProgramHeader, page_size: usize) -> int {
    pages_of(segment, page_size) * page_size
}

/// The number of bytes of the segment that come from the file: its size in
/// the file, as far as its pages hold it.
pub open spec fn copied_of(segment: ProgramHeader, page_size: usize) -> int {
    if (segment.p_filesz as usize) <= room_of(segment, page_size) {
        (segment.p_filesz as usize) as int
    } else {
        room_of(segment, page_size)
    }
}

/// The number of bytes of the segment that are set: its size in memory, as
/// far as its pages hold it.
pub open spec fn filled_of(segment: ProgramHeader, page_size: usize) -> int {
    if (segment.p_memsz as usize) <= room_of(segment, page_size) {
        (segment.p_memsz as usize) as int
    } else {
        room_of(segment, page_size)
    }
}

/// The bytes that the pages of the segment hold from their start on once
/// it is placed: what the file `data` has for it, then zeros up to its size
/// in memory.
pub open spec fn contents_of(data: Seq<u8>, segment: ProgramHeader, page_size: usize) -> Seq<u8> {
    data.subrange(
        (segment.p_offset as usize) as int,
        (segment.p_offset as usize) + copied_of(segment, page_size),
    ) + Seq::new(
        (filled_of(segment, page_size) - copied_of(segment, page_size)) as nat,
        |i: int| 0u8,
    )
}

/// The memory after the segment was placed: its pages are taken, the next
/// free ones, and hold its contents from their start on.
pub open spec fn placed(memory: Memory, data: Seq<u8>, segment: ProgramHeader) -> Memory {
    memory.take(pages_of(segment, memory.page_size)).store(
        memory.next(),
        contents_of(data, segment, memory.page_size),
    )
}

/// The virtual address of the first page of the segment: the address at
/// which it is meant to be loaded, rounded down to a page of the hardware.
pub open spec fn target_of(segment: ProgramHeader) -> int {
    floor((segment.p_paddr as usize) as int, 4096)
}

/// The requests that map the pages of the segment, which start at the
/// physical address `physical`, one after the other from its target address
/// on.
pub open spec fn segment_requests(segment: ProgramHeader, physical: int, page_size: usize) -> Seq<
    Request,
> {
    run_requests(
        physical as usize,
        target_of(segment) as usize,
        pages_of(segment, page_size) as nat,
        page_size,
        mm::Permissions { bits: segment_rights(segment.p_flags) },
    )
}

/// Whether the segment can be loaded from a file of `len` bytes: its bytes
/// lie in the file, it is no larger in the file than in memory, and its
/// last page starts within the address space.
pub open spec fn segment_ok(segment: ProgramHeader, len: int, page_size: usize) -> bool {
    &&& (segment.p_offset as usize) + (segment.p_filesz as usize) <= len
    &&& (segment.p_filesz as usize) <= (segment.p_memsz as usize)
    &&& target_of(segment) + (pages_of(segment, page_size) - 1) * page_size <= usize::MAX
}

/// An address space together with the memory behind it: what loading a
/// program changes.
pub struct Image {
    /// The address space.
    pub space: Mappings,
    /// The physical memory.
    pub memory: Memory,
}

impl Image {
    /// Whether the memory has the pages that loading `segment` takes: those
    /// of the segment and those of the tables that are missing.
    pub open spec fn has_room(self, segment: ProgramHeader) -> bool {
        segment.p_type == PT_LOAD ==> self.memory.free() >= pages_of(
            segment,
            self.memory.page_size,
        ) + self.space.missing_all(
            segment_requests(segment, self.memory.next(), self.memory.page_size),
        )
    }

    /// The image after `segment` of the file `data` was loaded: nothing is
    /// changed where it is not to be loaded; else it is placed, and then its
    /// pages are mapped.
    pub open spec fn load_segment(self, data: Seq<u8>, segment: ProgramHeader) -> Image {
        if segment.p_type != PT_LOAD {
            self
        } else {
            Image {
                space: self.space.map_all(
                    segment_requests(segment, self.memory.next(), self.memory.page_size),
                ),
                memory: placed(self.memory, data, segment).take(
                    self.space.missing_all(
                        segment_requests(segment, self.memory.next(), self.memory.page_size),
                    ) as int,
                ),
            }
        }
    }

    /// The image after the segments `segments` of the file `data` were
    /// loaded one after the other.
    pub open spec fn load(self, data: Seq<u8>, segments: Seq<ProgramHeader>) -> Image
        decreases segments.len(),
    {
        if segments.len() == 0 {
            self
        } else {
            self.load(data, segments.drop_last()).load_segment(data, segments.last())
        }
    }

    /// Whether the memory has the pages that loading `segments` one after
    /// the other takes.
    pub open spec fn has_room_for(self, data: Seq<u8>, segments: Seq<ProgramHeader>) -> bool
        decreases segments.len(),
    {
        segments.len() > 0 ==> self.has_room_for(data, segments.drop_last()) && self.load(
            data,
            segments.drop_last(),
        ).has_room(segments.last())
    }

    /// Where there is room for all the segments, there is room for the
    /// first `k`.
    pub proof fn lemma_room_prefix(self, data: Seq<u8>, segments: Seq<ProgramHeader>, k: int)
        requires
            0 <= k <= segments.len(),
            self.has_room_for(data, segments),
        ensures
            self.has_room_for(data, segments.take(k)),
        decreases segments.len(),
    {
        if k == segments.len() {
            assert(segments.take(k) =~= segments);
        } else {
            self.lemma_room_prefix(data, segments.drop_last(), k);
            assert(segments.drop_last().take(k) =~= segments.take(k));
        }
    }
}

/// What the pages of a placed segment hold: they are taken from the memory
/// in one run, the next free ones; from their start on they hold the bytes
/// that the file has for the segment, unchanged, and behind these zeros up
/// to the size of the segment in memory. All this is so before any page of
/// the segment is mapped: placing touches no address space.
pub proof fn lemma_placed(memory: Memory, data: Seq<u8>, segment: ProgramHeader)
    requires
        memory.wf(),
        memory.free() >= pages_of(segment, memory.page_size),
        segment_ok(segment, data.len() as int, memory.page_size),
    ensures
        placed(memory, data, segment).allocated == memory.allocated + pages_of(
            segment,
            memory.page_size,
        ),
        placed(memory, data, segment).holds(memory.next(), room_of(segment, memory.page_size)),
        forall|i: int|
            0 <= i < copied_of(segment, memory.page_size) ==> #[trigger] placed(
                memory,
                data,
                segment,
            ).range(memory.next(), room_of(segment, memory.page_size))[i] == data[(
            segment.p_offset as usize) + i],
        forall|i: int|
            copied_of(segment, memory.page_size) <= i < filled_of(segment, memory.page_size)
                ==> #[trigger] placed(memory, data, segment).range(
                memory.next(),
                room_of(segment, memory.page_size),
            )[i] == 0,
{
    let page_size = memory.page_size;
    let pages = pages_of(segment, page_size);
    let allocated = memory.allocated;
    let page_count = memory.page_count;
    assert(pages >= 1) by (nonlinear_arith)
        requires
            pages == pages_of(segment, page_size),
            page_size > 0,
    ;
    assert((allocated + pages) * page_size <= page_count * page_size) by (nonlinear_arith)
        requires
            allocated + pages <= page_count,
            page_size >= 0,
    ;
    assert((allocated + pages) * page_size == allocated * page_size + pages * page_size)
        by (nonlinear_arith);
    assert(allocated * page_size >= 0) by (nonlinear_arith)
        requires
            allocated >= 0,
            page_size >= 0,
    ;
}

/// A segment that is smaller than a page and as large in the file as in
/// memory is loaded into exactly one fresh page: the page holds the bytes
/// of the segment unchanged, and the page of the segment's target address
/// is mapped to it with the rights that the flags of the segment give.
/// Beside that page the memory gives only the tables that were missing on
/// the way.
pub proof fn lemma_small_segment(image: Image, data: Seq<u8>, segment: ProgramHeader)
    requires
        image.memory.wf(),
        segment.p_type == PT_LOAD,
        segment.p_memsz == segment.p_filesz,
        (segment.p_memsz as usize) < image.memory.page_size,
        segment_ok(segment, data.len() as int, image.memory.page_size),
        image.has_room(segment),
    ensures
        pages_of(segment, image.memory.page_size) == 1,
        image.load(data, seq![segment]) == image.load_segment(data, segment),
        image.load_segment(data, segment).space == image.space.map(
            page_of(mm::VAddr { addr: target_of(segment) as usize }),
            PageTableEntry::mapping(
                image.memory.next() as usize as u64,
                segment_rights(segment.p_flags),
            ),
        ),
        image.load_segment(data, segment).memory.allocated == image.memory.allocated + 1
            + image.space.missing(page_of(mm::VAddr { addr: target_of(segment) as usize })),
        image.load_segment(data, segment).memory.range(
            image.memory.next(),
            (segment.p_filesz as usize) as int,
        ) == data.subrange(
            (segment.p_offset as usize) as int,
            (segment.p_offset as usize) + (segment.p_filesz as usize),
        ),
{
    let page_size = image.memory.page_size;
    let next = image.memory.next();
    let reqs = segment_requests(segment, next, page_size);
    lemma_placed(image.memory, data, segment);
    assert(seq![segment].drop_last() =~= Seq::<ProgramHeader>::empty());
    assert(seq![segment].last() == segment);
    assert(image.load(data, Seq::<ProgramHeader>::empty()) == image);
    assert(reqs.drop_last() =~= Seq::<Request>::empty());
    assert(image.space.map_all(Seq::<Request>::empty()) == image.space);
    assert(image.space.missing_all(Seq::<Request>::empty()) == 0);
    assert(reqs.len() == 1);
    assert(0 * page_size == 0);
    assert(0 <= next <= usize::MAX);
    assert(0 <= target_of(segment) <= usize::MAX) by {
        crate::paging::lemma_alignment((segment.p_paddr as usize) as int, 4096);
    }
    assert(reqs.last() == request(
        mm::PAddr { addr: next as usize },
        mm::VAddr { addr: target_of(segment) as usize },
        mm::Permissions { bits: segment_rights(segment.p_flags) },
    ));
    assert(image.load_segment(data, segment).memory.range(
        next,
        (segment.p_filesz as usize) as int,
    ) =~= data.subrange(
        (segment.p_offset as usize) as int,
        (segment.p_offset as usize) + (segment.p_filesz as usize),
    ));
}

/// Whether every segment of `segments` that is to be loaded can be loaded
/// from a file of `len` bytes.
pub open spec fn all_ok(segments: Seq<ProgramHeader>, len: int, page_size: usize) -> bool {
    forall|i: int|
        0 <= i < segments.len() && (#[trigger] segments[i]).p_type == PT_LOAD ==> segment_ok(
            segments[i],
            len,
            page_size,
        )
}

impl Image {
    /// Loading `a` and then `b` is loading the two in a row, and there is
    /// room for the row where there is room for `a` and then for `b`.
    pub proof fn lemma_load_concat(self, data: Seq<u8>, a: Seq<ProgramHeader>, b: Seq<ProgramHeader>)
        ensures
            self.load(data, a + b) == self.load(data, a).load(data, b),
            self.has_room_for(data, a + b) <==> self.has_room_for(data, a) && self.load(
                data,
                a,
            ).has_room_for(data, b),
        decreases b.len(),
    {
        if b.len() == 0 {
            assert(a + b =~= a);
        } else {
            self.lemma_load_concat(data, a, b.drop_last());
            assert((a + b).drop_last() =~= a + b.drop_last());
        }
    }

    /// What loading one segment leaves of the memory: it stays well formed
    /// with the same pages, nothing is handed back, and no byte of a page
    /// that was handed out before is changed. The pages of a segment that
    /// is loaded are the next free ones, and hold its contents.
    pub proof fn lemma_segment_keeps(self, data: Seq<u8>, segment: ProgramHeader)
        requires
            self.memory.wf(),
            self.has_room(segment),
            segment.p_type == PT_LOAD ==> segment_ok(
                segment,
                data.len() as int,
                self.memory.page_size,
            ),
        ensures
            self.load_segment(data, segment).memory.wf(),
            self.load_segment(data, segment).memory.base == self.memory.base,
            self.load_segment(data, segment).memory.page_size == self.memory.page_size,
            self.load_segment(data, segment).memory.page_count == self.memory.page_count,
            self.load_segment(data, segment).memory.next() >= self.memory.next(),
            forall|at: int|
                0 <= at < self.memory.next() - self.memory.base ==> #[trigger] self.load_segment(
                    data,
                    segment,
                ).memory.bytes[at] == self.memory.bytes[at],
            segment.p_type == PT_LOAD ==> self.load_segment(data, segment).memory.next()
                >= self.memory.next() + room_of(segment, self.memory.page_size) && room_of(
                segment,
                self.memory.page_size,
            ) >= filled_of(segment, self.memory.page_size) && forall|i: int|
                0 <= i < filled_of(segment, self.memory.page_size) ==> #[trigger] self.load_segment(
                    data,
                    segment,
                ).memory.bytes[self.memory.next() - self.memory.base + i] == contents_of(
                    data,
                    segment,
                    self.memory.page_size,
                )[i],
    {
        self.memory.lemma_take(0);
        if segment.p_type == PT_LOAD {
            let page_size = self.memory.page_size;
            let pages = pages_of(segment, page_size);
            let missing = self.space.missing_all(
                segment_requests(segment, self.memory.next(), page_size),
            );
            assert(pages >= 1) by (nonlinear_arith)
                requires
                    pages == pages_of(segment, page_size),
                    page_size > 0,
            ;
            self.memory.lemma_take(pages);
            self.memory.lemma_take(pages + missing);
            let taken = self.memory.take(pages);
            let stored = placed(self.memory, data, segment);
            assert(stored.bytes.len() == self.memory.bytes.len());
            stored.lemma_take(missing as int);
            assert(pages * page_size >= 0) by (nonlinear_arith)
                requires
                    pages >= 0,
                    page_size >= 0,
            ;
            assert(missing * page_size >= 0) by (nonlinear_arith)
                requires
                    missing >= 0,
                    page_size >= 0,
            ;
        }
    }

    /// What loading a row of segments leaves of the memory: it stays well
    /// formed with the same pages, nothing is handed back, and no byte of a
    /// page that was handed out before is changed.
    pub proof fn lemma_load_keeps(self, data: Seq<u8>, segments: Seq<ProgramHeader>)
        requires
            self.memory.wf(),
            self.has_room_for(data, segments),
            all_ok(segments, data.len() as int, self.memory.page_size),
        ensures
            self.load(data, segments).memory.wf(),
            self.load(data, segments).memory.base == self.memory.base,
            self.load(data, segments).memory.page_size == self.memory.page_size,
            self.load(data, segments).memory.page_count == self.memory.page_count,
            self.load(data, segments).memory.next() >= self.memory.next(),
            forall|at: int|
                0 <= at < self.memory.next() - self.memory.base ==> #[trigger] self.load(
                    data,
                    segments,
                ).memory.bytes[at] == self.memory.bytes[at],
        decreases segments.len(),
    {
        if segments.len() > 0 {
            let front = segments.drop_last();
            assert forall|i: int| 0 <= i < front.len() && (#[trigger] front[i]).p_type
                == PT_LOAD implies segment_ok(
                front[i],
                data.len() as int,
                self.memory.page_size,
            ) by {
                assert(front[i] == segments[i]);
            }
            self.lemma_load_keeps(data, front);
            let mid = self.load(data, front);
            assert(segments[segments.len() - 1] == segments.last());
            mid.lemma_segment_keeps(data, segments.last());
        }
    }

    /// The bytes of a loaded segment outlast the segments that are loaded
    /// after it: once all of `segments` are loaded, the pages that were the
    /// next free ones when segment `k` came hold from their start on what
    /// the file has for it, unchanged, and behind that zeros up to its size
    /// in memory.
    pub proof fn lemma_segment_survives(self, data: Seq<u8>, segments: Seq<ProgramHeader>, k: int)
        requires
            self.memory.wf(),
            self.has_room_for(data, segments),
            all_ok(segments, data.len() as int, self.memory.page_size),
            0 <= k < segments.len(),
            segments[k].p_type == PT_LOAD,
        ensures
            forall|i: int|
                0 <= i < filled_of(segments[k], self.memory.page_size) ==> #[trigger] self.load(
                    data,
                    segments,
                ).memory.bytes[self.load(data, segments.take(k)).memory.next() - self.memory.base
                    + i] == contents_of(data, segments[k], self.memory.page_size)[i],
    {
        let page_size = self.memory.page_size;
        let before = segments.take(k);
        let upto = segments.take(k + 1);
        let rest = segments.skip(k + 1);
        assert(upto + rest =~= segments);
        assert(upto.drop_last() =~= before);
        assert(upto.last() == segments[k]);
        self.lemma_load_concat(data, upto, rest);
        assert forall|i: int| 0 <= i < before.len() && (#[trigger] before[i]).p_type
            == PT_LOAD implies segment_ok(before[i], data.len() as int, page_size) by {
            assert(before[i] == segments[i]);
        }
        assert forall|i: int| 0 <= i < rest.len() && (#[trigger] rest[i]).p_type
            == PT_LOAD implies segment_ok(rest[i], data.len() as int, page_size) by {
            assert(rest[i] == segments[k + 1 + i]);
        }
        self.lemma_load_keeps(data, before);
        let at = self.load(data, before);
        at.lemma_segment_keeps(data, segments[k]);
        let mid = at.load_segment(data, segments[k]);
        assert(mid == self.load(data, upto));
        mid.lemma_load_keeps(data, rest);
        at.memory.lemma_take(0);
    }
}

/// A number of pages that is enough to load `segments` whatever the
/// address space holds already: for every segment that is to be loaded its
/// own pages, and two tables for each of them.
pub open spec fn demand_of(segments: Seq<ProgramHeader>, page_size: usize) -> int
    decreases segments.len(),
{
    if segments.len() == 0 {
        0
    } else {
        demand_of(segments.drop_last(), page_size) + if segments.last().p_type == PT_LOAD {
            3 * pages_of(segments.last(), page_size)
        } else {
            0
        }
    }
}

/// A memory with `demand_of` free pages has room for the segments.
pub proof fn lemma_demand_suffices(image: Image, data: Seq<u8>, segments: Seq<ProgramHeader>)
    requires
        image.memory.page_size > 0,
        image.memory.allocated <= image.memory.page_count,
        image.memory.free() >= demand_of(segments, image.memory.page_size),
    ensures
        image.has_room_for(data, segments),
        image.load(data, segments).memory.page_size == image.memory.page_size,
        image.load(data, segments).memory.page_count == image.memory.page_count,
        image.load(data, segments).memory.allocated <= image.memory.page_count,
        image.load(data, segments).memory.free() >= image.memory.free() - demand_of(
            segments,
            image.memory.page_size,
        ),
    decreases segments.len(),
{
    if segments.len() > 0 {
        let page_size = image.memory.page_size;
        let last = segments.last();
        let pages = pages_of(last, page_size);
        assert(pages >= 1) by (nonlinear_arith)
            requires
                pages == pages_of(last, page_size),
                page_size > 0,
        ;
        lemma_demand_suffices(image, data, segments.drop_last());
        let mid = image.load(data, segments.drop_last());
        if last.p_type == PT_LOAD {
            mid.space.lemma_missing_all_bound(
                segment_requests(last, mid.memory.next(), page_size),
            );
        }
    }
}

/// An ELF executable in memory: a view of the bytes of the file.
pub struct Elf<'a> {
    data: &'a [u8],
}

impl<'a> View for Elf<'a> {
    type V = Seq<u8>;

    closed spec fn view(&self) -> Seq<u8> {
        self.data@
    }
}

impl<'a> Elf<'a> {
    /// The file header.
    pub open spec fn file_header(self) -> Header {
        Header::decode(self@)
    }

    /// The offset in the file of program header number `i`.
    pub open spec fn header_offset(self, i: int) -> int {
        (self.file_header().e_phoff as usize) + i * (self.file_header().e_phentsize as usize)
    }

    /// The program headers, in the order of the file.
    pub open spec fn program_headers(self) -> Seq<ProgramHeader> {
        Seq::new(
            self.file_header().e_phnum as nat,
            |i: int| ProgramHeader::decode(self@, self.header_offset(i)),
        )
    }

    /// Whether the file header and every program header lie in the file.
    pub open spec fn framed(self) -> bool {
        &&& self@.len() >= SIZEOF_EHDR
        &&& forall|i: int|
            0 <= i < self.file_header().e_phnum ==> #[trigger] self.header_offset(i) + SIZEOF_PHDR
                <= self@.len()
    }

    /// Whether the file can be loaded into pages of `page_size` bytes: its
    /// headers lie in the file, and so does every segment that is to be
    /// loaded.
    pub open spec fn loadable(self, page_size: usize) -> bool {
        &&& self.framed()
        &&& forall|i: int|
            0 <= i < self.program_headers().len() && (#[trigger] self.program_headers()[i]).p_type
                == PT_LOAD ==> segment_ok(self.program_headers()[i], self@.len() as int, page_size)
    }

    /// Create a new Elf struct from a byte slice
    pub fn from_bytes(data: &'a [u8]) -> (r: Self)
        ensures
            r@ == data@,
    {
        Self { data }
    }

    /// The number of bytes of the file.
    pub fn len(&self) -> (r: usize)
        ensures
            r == self@.len(),
    {
        self.data.len()
    }

    /// Get the header struct of an ELF file
    fn header(&self) -> (r: Header)
        requires
            self@.len() >= SIZEOF_EHDR,
        ensures
            r == self.file_header(),
    {
        assert(self.data@.len() == self.data.len());
        Header::parse(self.data)
    }

    /// Whether the file header and every program header lie in the file.
    pub fn is_framed(&self) -> (r: bool)
        ensures
            r == self.framed(),
    {
        let len = self.data.len();
        if len < SIZEOF_EHDR {
            return false;
        }
        let header = self.header();
        if header.e_phnum == 0 {
            return true;
        }
        let first = header.e_phoff as usize;
        if first > len - SIZEOF_PHDR {
            assert(!(self.header_offset(0) + SIZEOF_PHDR <= self@.len()));
            return false;
        }
        let last = header.e_phnum as usize - 1;
        let size = header.e_phentsize as usize;
        assert(last * size <= 0xffff * 0xffff) by (nonlinear_arith)
            requires
                last <= 0xffff,
                size <= 0xffff,
        ;
        let span = last * size;
        if span > len - SIZEOF_PHDR - first {
            assert(!(self.header_offset(last as int) + SIZEOF_PHDR <= self@.len()));
            return false;
        }
        assert forall|i: int| 0 <= i < self.file_header().e_phnum implies #[trigger]
            self.header_offset(i) + SIZEOF_PHDR <= self@.len() by {
            assert(i * size <= last * size) by (nonlinear_arith)
                requires
                    0 <= i <= last,
                    size >= 0,
            ;
        }
        true
    }

    /// Get all the segments of an ELF file, in the order of the file
    pub fn segments(&self) -> (r: Vec<ProgramHeader>)
        requires
            self.framed(),
        ensures
            r@ == self.program_headers(),
    {
        let header = self.header();
        let mut segments: Vec<ProgramHeader> = Vec::new();
        let mut n: usize = 0;
        while n < header.e_phnum as usize
            invariant
                n <= header.e_phnum,
                header == self.file_header(),
                self.framed(),
                segments@ == self.program_headers().take(n as int),
            decreases header.e_phnum - n,
        {
            segments.push(self.segment(&header, n));
            assert(segments@ =~= self.program_headers().take(n + 1));
            n = n + 1;
        }
        assert(self.program_headers().take(header.e_phnum as int) =~= self.program_headers());
        segments
    }

    /// Program header number `n` of the file.
    fn segment(&self, header: &Header, n: usize) -> (r: ProgramHeader)
        requires
            self.framed(),
            *header == self.file_header(),
            n < header.e_phnum,
        ensures
            r == self.program_headers()[n as int],
    {
        assert(self.data@.len() == self.data.len());
        assert(self.header_offset(n as int) + SIZEOF_PHDR <= self@.len());
        assert(self.header_offset(0) + SIZEOF_PHDR <= self@.len());
        assert(n * (header.e_phentsize as usize) >= 0) by (nonlinear_arith)
            requires
                n >= 0,
                (header.e_phentsize as usize) >= 0,
        ;
        let addr = header.e_phoff as usize + (n * header.e_phentsize as usize);
        ProgramHeader::parse(self.data, addr)
    }

    /// The virtual address at which the program starts to run.
    pub fn get_entry_point(&self) -> (r: usize)
        requires
            self@.len() >= SIZEOF_EHDR,
        ensures
            r == self.file_header().e_entry as usize,
    {
        self.header().e_entry as usize
    }

    /// The number of pages of `page_size` bytes that `segment` gets.
    pub fn pages_needed(segment: &ProgramHeader, page_size: usize) -> (r: usize)
        requires
            page_size > 0,
        ensures
            r == pages_of(*segment, page_size),
            r >= 1,
    {
        let p_memsz = segment.p_memsz as usize;

        if p_memsz < page_size {
            1
        } else {
            assert(p_memsz / page_size >= 1) by (nonlinear_arith)
                requires
                    p_memsz >= page_size,
                    page_size > 0,
            ;
            p_memsz / page_size
        }
    }

    /// Whether the file can be loaded into pages of `page_size` bytes.
    pub fn is_loadable(&self, page_size: usize) -> (r: bool)
        requires
            page_size > 0,
        ensures
            r == self.loadable(page_size),
    {
        if !self.is_framed() {
            return false;
        }
        let len = self.data.len();
        let header = self.header();
        let mut n: usize = 0;
        while n < header.e_phnum as usize
            invariant
                n <= header.e_phnum,
                header == self.file_header(),
                self.framed(),
                page_size > 0,
                len == self@.len(),
                forall|i: int|
                    0 <= i < n && (#[trigger] self.program_headers()[i]).p_type == PT_LOAD
                        ==> segment_ok(self.program_headers()[i], self@.len() as int, page_size),
            decreases header.e_phnum - n,
        {
            let segment = self.segment(&header, n);
            if segment.p_type == PT_LOAD {
                let p_offset = segment.p_offset as usize;
                let p_filesz = segment.p_filesz as usize;
                let p_memsz = segment.p_memsz as usize;
                let pages = Self::pages_needed(&segment, page_size);
                let target = MemoryImpl::align_down(segment.p_paddr as usize);
                proof {
                    vstd::arithmetic::power2::lemma2_to64();
                }
                let fits = match (pages - 1).checked_mul(page_size) {
                    Some(span) => span <= usize::MAX - target,
                    None => false,
                };
                if p_offset > len || p_filesz > len - p_offset || p_filesz > p_memsz || !fits {
                    return false;
                }
            }
            n = n + 1;
        }
        true
    }

    /// Takes the pages for `segment` from `mm` and fills them: with the
    /// bytes that the file has for the segment, and with zeros from there
    /// up to its size in memory. No address space is touched.
    fn place(&self, segment: &ProgramHeader, mm: &mut PhysicalMemoryManager) -> (r: mm::PAddr)
        requires
            old(mm).wf(),
            segment_ok(*segment, self@.len() as int, old(mm)@.page_size),
            old(mm)@.free() >= pages_of(*segment, old(mm)@.page_size),
        ensures
            final(mm).wf(),
            r@ == old(mm)@.next(),
            final(mm)@ == placed(old(mm)@, self@, *segment),
    {
        assert(self.data@.len() == self.data.len());
        let page_size = mm.page_size();
        let p_offset = segment.p_offset as usize;
        let p_filesz = segment.p_filesz as usize;
        let p_memsz = segment.p_memsz as usize;

        let pages_needed = Self::pages_needed(segment, page_size);
        let physical_pages = mm.alloc_pages(pages_needed).unwrap();
        let base = usize::from(physical_pages);
        proof {
            let allocated = old(mm)@.allocated;
            let page_count = old(mm)@.page_count;
            assert((allocated + pages_needed) * page_size <= page_count * page_size)
                by (nonlinear_arith)
                requires
                    allocated + pages_needed <= page_count,
                    page_size >= 0,
            ;
            assert((allocated + pages_needed) * page_size == allocated * page_size + pages_needed
                * page_size) by (nonlinear_arith);
        }
        let room = pages_needed * page_size;
        let copied = if p_filesz <= room {
            p_filesz
        } else {
            room
        };
        let filled = if p_memsz <= room {
            p_memsz
        } else {
            room
        };

        // Zeroing uninitialized data
        mm.fill(base + copied, filled - copied, 0u8);
        mm.write(base, &self.data[p_offset..p_offset + copied]);
        proof {
            assert(mm@.bytes =~= placed(old(mm)@, self@, *segment).bytes);
        }
        physical_pages
    }

    /// Loads the program into the address space `pagetable`, with pages
    /// from `mm`: every segment that is to be loaded is placed in fresh
    /// pages, and these are mapped from its target address on with the
    /// rights that its flags give. The segments are taken in the order of
    /// the file; the others are passed over.
    ///
    /// A segment that does not fill whole pages loses what lies behind its
    /// last whole page: those bytes are neither copied nor mapped.
    pub fn load(&self, pagetable: &mut MemoryImpl, mm: &mut PhysicalMemoryManager)
        requires
            old(pagetable).wf(),
            old(mm).wf(),
            self.loadable(old(mm)@.page_size),
            (Image { space: old(pagetable)@, memory: old(mm)@ }).has_room_for(
                self@,
                self.program_headers(),
            ),
        ensures
            final(pagetable).wf(),
            final(mm).wf(),
            final(pagetable).address() == old(pagetable).address(),
            (Image { space: final(pagetable)@, memory: final(mm)@ }) == (Image {
                space: old(pagetable)@,
                memory: old(mm)@,
            }).load(self@, self.program_headers()),
    {
        let page_size = mm.page_size();
        let header = self.header();
        let ghost before = Image { space: pagetable@, memory: mm@ };
        let ghost all = self.program_headers();
        let mut n: usize = 0;
        proof {
            assert(all.take(0) =~= Seq::empty());
        }
        while n < header.e_phnum as usize
            invariant
                n <= header.e_phnum,
                header == self.file_header(),
                all == self.program_headers(),
                before == (Image { space: old(pagetable)@, memory: old(mm)@ }),
                page_size == old(mm)@.page_size,
                page_size == mm@.page_size,
                self.loadable(page_size),
                before.has_room_for(self@, all),
                pagetable.wf(),
                mm.wf(),
                pagetable.address() == old(pagetable).address(),
                (Image { space: pagetable@, memory: mm@ }) == before.load(self@, all.take(n as int)),
            decreases header.e_phnum - n,
        {
            let segment = self.segment(&header, n);
            proof {
                before.lemma_room_prefix(self@, all, n + 1);
                assert(all.take(n + 1).drop_last() =~= all.take(n as int));
                assert(all.take(n + 1).last() == segment);
            }
            if segment.p_type == PT_LOAD {
                let ghost here = Image { space: pagetable@, memory: mm@ };
                let ghost reqs = segment_requests(segment, mm@.next(), page_size);
                let pages_needed = Self::pages_needed(&segment, page_size);
                let physical_pages = self.place(&segment, mm);
                let perms = elf_to_mm_permissions(segment.p_flags);
                let virtual_pages = MemoryImpl::align_down(segment.p_paddr as usize);
                proof {
                    vstd::arithmetic::power2::lemma2_to64();
                    assert((here.memory.allocated + pages_needed) * page_size
                        <= here.memory.page_count * page_size) by (nonlinear_arith)
                        requires
                            here.memory.allocated + pages_needed <= here.memory.page_count,
                            page_size >= 0,
                    ;
                    assert((here.memory.allocated + pages_needed) * page_size
                        == here.memory.allocated * page_size + pages_needed * page_size)
                        by (nonlinear_arith);
                    assert((pages_needed - 1) * page_size <= pages_needed * page_size)
                        by (nonlinear_arith)
                        requires
                            page_size >= 0,
                    ;
                }
                crate::mm::map_run(
                    pagetable,
                    mm,
                    usize::from(physical_pages),
                    virtual_pages,
                    pages_needed,
                    page_size,
                    perms,
                );
            }
            n = n + 1;
        }
        proof {
            assert(all.take(header.e_phnum as int) =~= all);
        }
    }

    /// Whether `mm` has the pages that are enough to load the program
    /// whatever the address space holds already: `demand_of` tells how many
    /// these are.
    pub fn fits(&self, mm: &PhysicalMemoryManager) -> (r: bool)
        requires
            self.framed(),
            mm.wf(),
        ensures
            r == (mm@.free() >= demand_of(self.program_headers(), mm@.page_size)),
            r ==> forall|space: Mappings| #[trigger]
                (Image { space, memory: mm@ }).has_room_for(self@, self.program_headers()),
    {
        let page_size = mm.page_size();
        let free = mm.free_pages();
        let header = self.header();
        let ghost all = self.program_headers();
        let mut demand: usize = 0;
        let mut n: usize = 0;
        proof {
            assert(all.take(0) =~= Seq::empty());
        }
        while n < header.e_phnum as usize
            invariant
                n <= header.e_phnum,
                header == self.file_header(),
                all == self.program_headers(),
                self.framed(),
                page_size == mm@.page_size,
                page_size > 0,
                free == mm@.free(),
                demand == demand_of(all.take(n as int), page_size),
                demand <= free,
            decreases header.e_phnum - n,
        {
            let segment = self.segment(&header, n);
            proof {
                assert(all.take(n + 1).drop_last() =~= all.take(n as int));
                assert(all.take(n + 1).last() == segment);
                lemma_demand_grows(all, page_size, n + 1);
            }
            if segment.p_type == PT_LOAD {
                let pages = Self::pages_needed(&segment, page_size);
                if pages > (free - demand) / 3 {
                    return false;
                }
                demand = demand + 3 * pages;
            }
            n = n + 1;
        }
        proof {
            assert(all.take(header.e_phnum as int) =~= all);
            assert forall|space: Mappings| #[trigger]
                (Image { space, memory: mm@ }).has_room_for(self@, all) by {
                lemma_demand_suffices(Image { space, memory: mm@ }, self@, all);
            }
        }
        true
    }
}

impl<'a> Elf<'a> {
    /// Whether `mm` has the pages that loading the program into
    /// `pagetable` takes: those of its segments and those of the tables that
    /// are missing. The load is gone through without a change to the
    /// address space or to the memory.
    pub fn has_room(&self, pagetable: &MemoryImpl, mm: &PhysicalMemoryManager) -> (r: bool)
        requires
            pagetable.wf(),
            mm.wf(),
            self.loadable(mm@.page_size),
        ensures
            r == (Image { space: pagetable@, memory: mm@ }).has_room_for(
                self@,
                self.program_headers(),
            ),
    {
        let page_size = mm.page_size();
        let free = mm.free_pages();
        let header = self.header();
        let ghost before = Image { space: pagetable@, memory: mm@ };
        let ghost all = self.program_headers();
        let ghost mut flat: Seq<Request> = Seq::empty();
        let mut plan = Plan::new();
        let mut tables: usize = 0;
        let mut taken: usize = 0;
        let mut n: usize = 0;
        proof {
            assert(all.take(0) =~= Seq::empty());
            assert(blank(flat) =~= Seq::<Request>::empty());
        }
        while n < header.e_phnum as usize
            invariant
                n <= header.e_phnum,
                header == self.file_header(),
                all == self.program_headers(),
                before == (Image { space: pagetable@, memory: mm@ }),
                page_size == mm@.page_size,
                free == mm@.free(),
                pagetable.wf(),
                mm.wf(),
                self.loadable(page_size),
                plan.wf(pagetable@),
                plan.requests() == blank(flat),
                tables == before.space.missing_all(flat),
                taken + tables <= free,
                before.has_room_for(self@, all.take(n as int)),
                before.load(self@, all.take(n as int)).space == before.space.map_all(flat),
                before.load(self@, all.take(n as int)).memory.base == mm@.base,
                before.load(self@, all.take(n as int)).memory.page_size == mm@.page_size,
                before.load(self@, all.take(n as int)).memory.page_count == mm@.page_count,
                before.load(self@, all.take(n as int)).memory.allocated == mm@.allocated + taken
                    + tables,
            decreases header.e_phnum - n,
        {
            let segment = self.segment(&header, n);
            let ghost here = before.load(self@, all.take(n as int));
            proof {
                assert(all.take(n + 1).drop_last() =~= all.take(n as int));
                assert(all.take(n + 1).last() == segment);
                if !before.has_room_for(self@, all.take(n + 1)) && before.has_room_for(self@, all) {
                    before.lemma_room_prefix(self@, all, n + 1);
                }
                lemma_blank(before.space, flat);
            }
            if segment.p_type == PT_LOAD {
                let pages = Self::pages_needed(&segment, page_size);
                let ghost reqs = segment_requests(segment, here.memory.next(), page_size);
                proof {
                    before.space.lemma_map_all_concat(flat, reqs);
                    lemma_blank(before.space, flat + reqs);
                }
                if pages > free - taken - tables {
                    return false;
                }
                let target = MemoryImpl::align_down(segment.p_paddr as usize);
                let limit = free - taken - pages;
                proof {
                    vstd::arithmetic::power2::lemma2_to64();
                    assert(blank(flat) + blank_run(target, pages as nat, page_size) =~= blank(
                        flat + reqs,
                    ));
                }
                match reckon_run(&mut plan, pagetable, target, pages, page_size, tables, limit) {
                    Some(sum) => {
                        tables = sum;
                    },
                    None => {
                        return false;
                    },
                }
                taken = taken + pages;
                proof {
                    flat = flat + reqs;
                }
            }
            n = n + 1;
        }
        proof {
            assert(all.take(header.e_phnum as int) =~= all);
        }
        true
    }
}

/// The first `k` segments demand no more pages than all.
proof fn lemma_demand_grows(segments: Seq<ProgramHeader>, page_size: usize, k: int)
    requires
        0 <= k <= segments.len(),
        page_size > 0,
    ensures
        0 <= demand_of(segments.take(k), page_size) <= demand_of(segments, page_size),
    decreases segments.len(),
{
    if segments.len() > 0 {
        let pages = pages_of(segments.last(), page_size);
        assert(pages >= 1) by (nonlinear_arith)
            requires
                pages == pages_of(segments.last(), page_size),
                page_size > 0,
        ;
    }
    if k == segments.len() {
        assert(segments.take(k) =~= segments);
        if k > 0 {
            lemma_demand_grows(segments.drop_last(), page_size, k - 1);
            assert(segments.drop_last().take(k - 1) =~= segments.drop_last());
        }
    } else {
        lemma_demand_grows(segments.drop_last(), page_size, k);
        assert(segments.drop_last().take(k) =~= segments.take(k));
    }
}

} // verus!
