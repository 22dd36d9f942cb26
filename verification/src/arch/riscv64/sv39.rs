//! The Sv39 translation scheme of RISC-V: 39-bit virtual addresses, three
//! levels of 512-entry tables, 4096-byte pages.

use crate::mm;
use crate::paging::{Error, PagingImpl};
use vstd::prelude::*;
use vstd::std_specs::convert::FromSpecImpl;

verus! {

/// Bit 38 of an address, the highest bit that Sv39 translates.
pub const BIT_38: u64 = 0x0000_0040_0000_0000;

/// Bits 38 to 63 of an address.
pub const BITS_38_UP: u64 = 0xFFFF_FFC0_0000_0000;

/// Bit 55 of an address, the highest bit of a physical page number.
pub const BIT_55: u64 = 0x0080_0000_0000_0000;

/// Bits 56 to 63 of an address.
pub const BITS_56_UP: u64 = 0xFF00_0000_0000_0000;

/// A virtual address in the form the Sv39 hardware accepts: bits 39 to 63
/// repeat bit 38.
#[derive(Clone, Copy, Debug)]
pub struct VAddr {
    addr: u64,
}

impl View for VAddr {
    type V = u64;

    closed spec fn view(&self) -> u64 {
        self.addr
    }
}

impl VAddr {
    /// `addr` with bits 38 to 63 all made equal to its bit 38.
    pub open spec fn canonical(addr: u64) -> u64 {
        if addr & BIT_38 != 0 {
            addr | BITS_38_UP
        } else {
            addr & !BITS_38_UP
        }
    }

    /// The 9-bit index that this address selects in a table of `level`.
    pub open spec fn index(self, level: nat) -> nat {
        if level == 0 {
            ((self@ >> 12) & 0x1ff) as nat
        } else if level == 1 {
            ((self@ >> 21) & 0x1ff) as nat
        } else {
            ((self@ >> 30) & 0x1ff) as nat
        }
    }

    /// The number of the virtual page that this address lies in: its 27
    /// translated bits above the page offset.
    pub open spec fn page(self) -> nat {
        ((self@ >> 12) & 0x7ff_ffff) as nat
    }

    /// Whether the address is in canonical form.
    pub open spec fn is_canonical(self) -> bool {
        Self::canonical(self@) == self@
    }

    /// Takes `addr` into canonical form. No address is rejected.
    pub fn from_u64(addr: u64) -> (r: VAddr)
        ensures
            r@ == Self::canonical(addr),
            r.is_canonical(),
    {
        proof {
            lemma_canonical_idempotent(addr);
        }
        let mut vaddr = VAddr { addr };
        let top = vaddr.vpn(2);
        let bit38 = (top >> 8) != 0;
        assert(bit38 == (addr & BIT_38 != 0)) by (bit_vector)
            requires
                top == (addr >> 30) & 0x1ff,
                bit38 == ((top >> 8) != 0),
        ;
        vaddr.extend_38th_bit(bit38);
        vaddr
    }

    /// The address as a number.
    pub fn as_u64(&self) -> (r: u64)
        ensures
            r == self@,
    {
        self.addr
    }

    /// The page-number field number `nb`, counted from the lowest.
    pub fn vpn(&self, nb: usize) -> (r: u16)
        requires
            nb <= 2,
        ensures
            r == self.index(nb as nat),
            r < 512,
    {
        let vpn = self.addr >> 12;
        let a = self.addr;
        assert((a >> 12) >> 0 == a >> 12 && (a >> 12) >> 9 == a >> 21 && (a >> 12) >> 18 == a
            >> 30 && (a >> 12) & 0x1ff < 512 && (a >> 21) & 0x1ff < 512 && (a >> 30) & 0x1ff
            < 512) by (bit_vector);
        ((vpn >> (nb * 9)) & 0x1ff) as u16
    }

    /// Makes bits 38 to 63 all equal to `bit`.
    fn extend_38th_bit(&mut self, bit: bool)
        ensures
            final(self)@ == if bit {
                old(self)@ | BITS_38_UP
            } else {
                old(self)@ & !BITS_38_UP
            },
    {
        let mask = ((!1u64) >> 38) << 38;
        assert(mask == BITS_38_UP) by (bit_vector)
            requires
                mask == ((!1u64) >> 38) << 38,
        ;
        if bit {
            self.addr |= mask;
        } else {
            self.addr &= !mask;
        }
    }
}

impl From<mm::VAddr> for VAddr {
    fn from(vaddr: mm::VAddr) -> (r: VAddr) {
        Self::from_u64(usize::from(vaddr) as u64)
    }
}

impl FromSpecImpl<mm::VAddr> for VAddr {
    open spec fn obeys_from_spec() -> bool {
        true
    }

    closed spec fn from_spec(vaddr: mm::VAddr) -> VAddr {
        VAddr { addr: Self::canonical(vaddr@ as u64) }
    }
}

/// A physical address in the form this backend stores it.
#[derive(Clone, Copy, Debug)]
pub struct PAddr {
    addr: u64,
}

impl View for PAddr {
    type V = u64;

    closed spec fn view(&self) -> u64 {
        self.addr
    }
}

impl PAddr {
    /// `addr` with bits 56 to 63 all made equal to its bit 55.
    pub open spec fn canonical(addr: u64) -> u64 {
        if addr & BIT_55 != 0 {
            addr | BITS_56_UP
        } else {
            addr & !BITS_56_UP
        }
    }

    /// The page-number field of `level`: nine bits at levels 0 and 1, and at
    /// level 2 the 26 bits from bit 30 up.
    pub open spec fn field(self, level: nat) -> u64 {
        if level == 0 {
            (self@ >> 12) & 0x1ff
        } else if level == 1 {
            (self@ >> 21) & 0x1ff
        } else {
            (self@ >> 30) & 0x3ff_ffff
        }
    }

    /// The number of the physical page that a table entry keeps of this
    /// address: its bits 12 to 55.
    pub open spec fn frame(self) -> u64 {
        (self@ >> 12) & 0xfff_ffff_ffff
    }

    /// Whether the address is in the stored form.
    pub open spec fn is_canonical(self) -> bool {
        Self::canonical(self@) == self@
    }

    /// Takes `addr` into the stored form. No address is rejected.
    pub fn from_u64(addr: u64) -> (r: PAddr)
        ensures
            r@ == Self::canonical(addr),
            r.is_canonical(),
            r.frame() == (addr >> 12) & 0xfff_ffff_ffff,
    {
        proof {
            lemma_canonical_idempotent(addr);
        }
        let mut paddr = PAddr { addr };
        let top = paddr.ppn(2);
        let bit55 = (top >> 25) != 0;
        assert(bit55 == (addr & BIT_55 != 0) && ((addr | BITS_56_UP) >> 12) & 0xfff_ffff_ffff == (
        addr >> 12) & 0xfff_ffff_ffff && ((addr & !BITS_56_UP) >> 12) & 0xfff_ffff_ffff == (addr
            >> 12) & 0xfff_ffff_ffff) by (bit_vector)
            requires
                top == (addr >> 30) & 0x3ff_ffff,
                bit55 == ((top >> 25) != 0),
        ;
        paddr.extend_55th_bit(bit55);
        paddr
    }

    /// The address as a number.
    pub fn as_u64(&self) -> (r: u64)
        ensures
            r == self@,
    {
        self.addr
    }

    /// The page-number field number `nb`, counted from the lowest.
    fn ppn(&self, nb: usize) -> (r: u64)
        requires
            nb <= 2,
        ensures
            r == self.field(nb as nat),
    {
        let ppn = self.addr >> 12;
        let a = self.addr;
        assert((a >> 12) >> 0 == a >> 12 && (a >> 12) >> 9 == a >> 21 && (a >> 12) >> 18 == a
            >> 30) by (bit_vector);
        if nb == 2 {
            (ppn >> (nb * 9)) & 0x3ffffff
        } else {
            (ppn >> (nb * 9)) & 0x1ff
        }
    }

    /// Makes bits 56 to 63 all equal to `bit`, the value of bit 55.
    fn extend_55th_bit(&mut self, bit: bool)
        ensures
            final(self)@ == if bit {
                old(self)@ | BITS_56_UP
            } else {
                old(self)@ & !BITS_56_UP
            },
    {
        let mask = ((!0u64) >> 56) << 56;
        assert(mask == BITS_56_UP) by (bit_vector)
            requires
                mask == ((!0u64) >> 56) << 56,
        ;
        if bit {
            self.addr |= mask;
        } else {
            self.addr &= !mask;
        }
    }
}

impl From<mm::PAddr> for PAddr {
    fn from(paddr: mm::PAddr) -> (r: PAddr) {
        Self::from_u64(usize::from(paddr) as u64)
    }
}

impl FromSpecImpl<mm::PAddr> for PAddr {
    open spec fn obeys_from_spec() -> bool {
        true
    }

    closed spec fn from_spec(paddr: mm::PAddr) -> PAddr {
        PAddr { addr: Self::canonical(paddr@ as u64) }
    }
}

/// Taking an address into canonical form a second time changes nothing,
/// for virtual and for physical addresses alike.
pub proof fn lemma_canonical_idempotent(addr: u64)
    ensures
        VAddr::canonical(VAddr::canonical(addr)) == VAddr::canonical(addr),
        PAddr::canonical(PAddr::canonical(addr)) == PAddr::canonical(addr),
{
    assert(VAddr::canonical(VAddr::canonical(addr)) == VAddr::canonical(addr)) by (bit_vector);
    assert(PAddr::canonical(PAddr::canonical(addr)) == PAddr::canonical(addr)) by (bit_vector);
}

/// What the conversion from a kernel address gives: its canonical form.
pub proof fn lemma_from_kernel_address(vaddr: mm::VAddr, paddr: mm::PAddr)
    ensures
        <VAddr as vstd::std_specs::convert::FromSpec<mm::VAddr>>::from_spec(vaddr)@
            == VAddr::canonical(vaddr@ as u64),
        <PAddr as vstd::std_specs::convert::FromSpec<mm::PAddr>>::from_spec(paddr)@
            == PAddr::canonical(paddr@ as u64),
{
}

/// The valid bit of a table entry.
pub const PTE_V: u64 = 0x1;

/// The readable, writable and executable bits of a table entry.
pub const PTE_RWX: u64 = 0xe;

/// The three page-number fields of a table entry together: bits 10 to 53.
pub const PTE_PPN: u64 = 0x003f_ffff_ffff_fc00;

/// The bits of a table entry that this backend ever sets: valid, readable,
/// writable, executable, and the page number.
pub const PTE_USED: u64 = 0x003f_ffff_ffff_fc0f;

/// One entry of an Sv39 table, in the hardware's layout. From bit 0 up:
/// valid, readable, writable, executable, user, global, accessed, dirty, two
/// bits for software, the page-number fields of 9, 9 and 26 bits, and ten
/// reserved bits.
#[derive(Clone, Copy, Debug)]
pub struct PageTableEntry {
    pub bits: u64,
}

impl View for PageTableEntry {
    type V = u64;

    open spec fn view(&self) -> u64 {
        self.bits
    }
}

impl PageTableEntry {
    /// Whether the valid bit is set.
    pub open spec fn valid(self) -> bool {
        self@ & PTE_V != 0
    }

    /// Whether the entry ends translation: one of readable, writable and
    /// executable is set.
    pub open spec fn leaf(self) -> bool {
        self@ & PTE_RWX != 0
    }

    /// The physical address that the page-number fields hold.
    pub open spec fn target(self) -> u64 {
        ((self@ >> 10) & 0xfff_ffff_ffff) << 12
    }

    /// The rights that the entry grants, as flags of `mm::Permissions`.
    pub open spec fn rights(self) -> u8 {
        ((self@ >> 1) & 0x7) as u8
    }

    /// The entry that maps the page at the physical address `addr` with
    /// the rights `perms`: valid, with bits 12 to 55 of `addr` as its page
    /// number, the readable, writable and executable bits taken from
    /// `perms`, and every other bit clear.
    pub open spec fn mapping(addr: u64, perms: u8) -> PageTableEntry {
        PageTableEntry {
            bits: (((addr >> 12) & 0xfff_ffff_ffff) << 10) | (((perms & 0x7) as u64) << 1) | PTE_V,
        }
    }

    /// The entry that points to the table at the physical address `addr`:
    /// valid, no leaf, with bits 12 to 55 of `addr` as its page number.
    pub open spec fn pointer(addr: u64) -> PageTableEntry {
        PageTableEntry { bits: (((addr >> 12) & 0xfff_ffff_ffff) << 10) | PTE_V }
    }

    /// The entry with every bit clear.
    pub open spec fn zero() -> PageTableEntry {
        PageTableEntry { bits: 0 }
    }

    /// The entry with its valid bit cleared and its other bits kept.
    pub open spec fn invalidated(self) -> PageTableEntry {
        PageTableEntry { bits: self@ & !PTE_V }
    }

    /// Whether the entry has no bit set but those this backend ever sets.
    pub open spec fn plain(self) -> bool {
        self@ & !PTE_USED == 0
    }

    /// The entry with every bit clear.
    pub fn new() -> (r: PageTableEntry)
        ensures
            r@ == 0,
    {
        PageTableEntry { bits: 0 }
    }

    /// The 64 bits as the hardware reads them.
    pub fn bits(&self) -> (r: u64)
        ensures
            r == self@,
    {
        self.bits
    }

    /// Clears every bit.
    pub fn clear(&mut self)
        ensures
            final(self)@ == 0,
    {
        self.bits = 0;
    }

    /// Whether the valid bit is set.
    pub fn is_valid(&self) -> (r: bool)
        ensures
            r == self.valid(),
    {
        self.bits & PTE_V != 0
    }

    /// Whether the entry ends translation.
    pub fn is_leaf(&self) -> (r: bool)
        ensures
            r == self.leaf(),
    {
        self.bits & PTE_RWX != 0
    }

    /// Sets the valid bit and leaves the others.
    pub fn set_valid(&mut self)
        ensures
            final(self)@ == old(self)@ | PTE_V,
    {
        self.bits = self.bits | PTE_V;
    }

    /// Clears the valid bit and leaves the others.
    pub fn set_invalid(&mut self)
        ensures
            final(self)@ == old(self)@ & !PTE_V,
    {
        self.bits = self.bits & !PTE_V;
    }

    /// Writes the page number of `paddr` into the three page-number fields and
    /// leaves the other bits.
    pub fn set_paddr(&mut self, paddr: &PAddr)
        ensures
            final(self)@ == (old(self)@ & !PTE_PPN) | (paddr.frame() << 10),
    {
        let p2 = paddr.ppn(2);
        let p1 = paddr.ppn(1);
        let p0 = paddr.ppn(0);
        let a = paddr.addr;
        let old_bits = self.bits;
        let new_bits = (old_bits & !PTE_PPN) | (p2 << 28) | (p1 << 19) | (p0 << 10);
        assert(new_bits == (old_bits & !PTE_PPN) | (((a >> 12) & 0xfff_ffff_ffff) << 10))
            by (bit_vector)
            requires
                p2 == (a >> 30) & 0x3ff_ffff,
                p1 == (a >> 21) & 0x1ff,
                p0 == (a >> 12) & 0x1ff,
                new_bits == (old_bits & !PTE_PPN) | (p2 << 28) | (p1 << 19) | (p0 << 10),
        ;
        self.bits = new_bits;
    }

    /// Makes the entry point to the table at address `addr`, as `set_paddr`
    /// does for a page.
    pub fn set_target(&mut self, addr: u64)
        ensures
            final(self)@ == (old(self)@ & !PTE_PPN) | (((addr >> 12) & 0xfff_ffff_ffff) << 10),
    {
        self.set_paddr(&PAddr::from_u64(addr))
    }

    /// Takes the readable, writable and executable bits from `perms`, one
    /// for one, and leaves the other bits.
    pub fn set_perms(&mut self, perms: mm::Permissions)
        ensures
            final(self)@ == (old(self)@ & !PTE_RWX) | (((perms@ & 0x7) as u64) << 1),
    {
        let r: u64 = if perms.contains(mm::Permissions::read()) {
            1
        } else {
            0
        };
        let w: u64 = if perms.contains(mm::Permissions::write()) {
            1
        } else {
            0
        };
        let x: u64 = if perms.contains(mm::Permissions::execute()) {
            1
        } else {
            0
        };
        let p = perms.bits();
        let old_bits = self.bits;
        let new_bits = (old_bits & !PTE_RWX) | (r << 1) | (w << 2) | (x << 3);
        assert(new_bits == (old_bits & !PTE_RWX) | (((p & 0x7) as u64) << 1)) by (bit_vector)
            requires
                r == (if p & 1 == 1 { 1u64 } else { 0u64 }),
                w == (if p & 2 == 2 { 1u64 } else { 0u64 }),
                x == (if p & 4 == 4 { 1u64 } else { 0u64 }),
                new_bits == (old_bits & !PTE_RWX) | (r << 1) | (w << 2) | (x << 3),
        ;
        self.bits = new_bits;
    }

    /// The rights that the entry grants.
    pub fn get_perms(&self) -> (r: u8)
        ensures
            r == self.rights(),
    {
        ((self.bits >> 1) & 0x7) as u8
    }

    /// The physical address that the page-number fields hold: that of the
    /// next table where the entry is valid and no leaf.
    pub fn get_target(&self) -> (r: u64)
        ensures
            r == self.target(),
    {
        let b = self.bits;
        let ppn = (b >> 10) & 0xfff_ffff_ffff;
        assert(ppn * 4096 <= u64::MAX && ppn * 4096 == ppn << 12) by (bit_vector)
            requires
                ppn == (b >> 10) & 0xfff_ffff_ffff,
        ;
        ppn * 4096u64
    }
}

/// The number of entries of a table.
pub const ENTRIES: usize = 512;

/// The size of a page in bytes.
pub const PAGE_SIZE: usize = 4096;

/// The number of virtual pages that Sv39 tells apart: two to the power 27.
pub const PAGES: usize = 0x800_0000;

/// The number of pages that one entry of the root table spans.
pub const DIR_SPAN: usize = 0x4_0000;

/// The index that the page number `page` selects in a table of `level`.
pub open spec fn index_of(page: nat, level: nat) -> nat {
    if level == 0 {
        page % 512
    } else if level == 1 {
        (page / 512) % 512
    } else {
        (page / 512 / 512) % 512
    }
}

/// Whether `p` and `q` select the same entry at `level` and at every level
/// below it.
pub open spec fn same_slot(p: nat, q: nat, level: nat) -> bool
    decreases level,
{
    index_of(p, level) == index_of(q, level) && (level > 0 ==> same_slot(
        p,
        q,
        (level - 1) as nat,
    ))
}

/// Whether `p` and `q` select the same entry at `level` and at every level
/// below it down to level 1, and thus lie in the same table of level 0.
pub open spec fn same_table(p: nat, q: nat, level: nat) -> bool
    decreases level,
{
    level == 0 || (index_of(p, level) == index_of(q, level) && same_table(
        p,
        q,
        (level - 1) as nat,
    ))
}

/// Whether `p` and `q` select the same entry at `level` and at the levels
/// below it, `depth` levels in all: whether a walk of `depth` steps from a
/// table of `level` ends for both in the same table.
pub open spec fn same_prefix(p: nat, q: nat, level: nat, depth: nat) -> bool {
    ||| depth == 0
    ||| depth == 1 && level >= 1 && index_of(p, level) == index_of(q, level)
    ||| depth == 2 && level >= 2 && index_of(p, level) == index_of(q, level) && index_of(
        p,
        (level - 1) as nat,
    ) == index_of(q, (level - 1) as nat)
}

/// The address of the table that is made as number `k` in one mapping, the
/// first as number 0: tables are made from the root down, each in the page
/// that the allocator hands out next.
pub open spec fn new_table(next: int, page_size: int, k: int) -> u64 {
    if k <= 0 {
        next as u64
    } else {
        (next + page_size) as u64
    }
}

/// The number of the virtual page that the address `va` lies in.
pub open spec fn page_of(va: mm::VAddr) -> nat {
    (((va@ as u64) >> 12) & 0x7ff_ffff) as nat
}

/// What an address space holds, as plain values.
///
/// A page has a slot as soon as the tables on the way to it exist; the slot
/// holds the entry that the hardware would read.
#[verifier::ext_equal]
pub struct Mappings {
    /// The entry of every page that has a slot, by page number.
    pub slots: Map<nat, PageTableEntry>,
    /// The entries of the root table that have a table of level 1 below
    /// them, by index.
    pub dirs: Set<nat>,
}

impl Mappings {
    /// The address space in which no page has a slot.
    pub open spec fn empty() -> Mappings {
        Mappings { slots: Map::empty(), dirs: Set::empty() }
    }

    /// The number of tables that are missing on the way to `page`.
    pub open spec fn missing(self, page: nat) -> nat {
        if self.slots.contains_key(page) {
            0
        } else if self.dirs.contains(page / (DIR_SPAN as nat)) {
            1
        } else {
            2
        }
    }

    /// The physical address and the rights that `page` translates to;
    /// `None` where it has no slot or its entry is not valid.
    pub open spec fn translate(self, page: nat) -> Option<(mm::PAddr, mm::Permissions)> {
        if self.slots.contains_key(page) && self.slots[page].valid() {
            Some(
                (
                    mm::PAddr { addr: self.slots[page].target() as usize },
                    mm::Permissions { bits: self.slots[page].rights() },
                ),
            )
        } else {
            None
        }
    }

    /// The address space after `entry` was written to the slot of `page`,
    /// with the missing tables on the way made first: `page` has `entry`,
    /// the other pages of its level-0 table have a slot, an empty one where
    /// they had none, and every other page is as before.
    pub open spec fn map(self, page: nat, entry: PageTableEntry) -> Mappings {
        Mappings {
            slots: Map::new(
                |p: nat| self.slots.contains_key(p) || (p < PAGES && p / 512 == page / 512),
                |p: nat|
                    if p == page {
                        entry
                    } else if self.slots.contains_key(p) {
                        self.slots[p]
                    } else {
                        PageTableEntry::zero()
                    },
            ),
            dirs: self.dirs.insert(page / (DIR_SPAN as nat)),
        }
    }
}

/// A table of the Sv39 scheme together with the tables below it.
///
/// The table stands for the page at `address()`; its 512 entries are what
/// the hardware reads there. A table owns the tables that its entries point
/// to, so an address space is a tree of depth three, and nothing in it is
/// shared.
pub struct PageTable {
    addr: u64,
    entries: Vec<PageTableEntry>,
    children: Vec<Option<PageTable>>,
}

impl View for PageTable {
    type V = Mappings;

    closed spec fn view(&self) -> Mappings {
        Mappings {
            slots: Map::new(
                |p: nat| p < PAGES && self.slot(2, p) is Some,
                |p: nat| self.slot(2, p).unwrap(),
            ),
            dirs: Set::new(|d: nat| d < 512 && self.lacking(2, d * (DIR_SPAN as nat)) < 2),
        }
    }
}

impl PageTable {
    /// The physical address of the page that holds this table.
    pub closed spec fn address(self) -> u64 {
        self.addr
    }

    /// The invariant of a root table: it and the tables below it have 512
    /// entries each; an entry of the two upper levels is either clear or
    /// the pointer to the table that stands below it; an entry of the lowest
    /// level has no bit set but those this backend ever sets.
    pub closed spec fn inv(self) -> bool {
        self.wf_at(2)
    }

    spec fn wf_at(self, level: nat) -> bool
        decreases level,
    {
        &&& self.entries@.len() == 512
        &&& if level == 0 {
            &&& self.children@.len() == 0
            &&& forall|i: int| 0 <= i < 512 ==> (#[trigger] self.entries@[i]).plain()
        } else {
            &&& self.children@.len() == 512
            &&& forall|i: int|
                0 <= i < 512 ==> match #[trigger] self.children@[i] {
                    Some(c) => c.wf_at((level - 1) as nat) && self.entries@[i]
                        == PageTableEntry::pointer(c.addr),
                    None => self.entries@[i] == PageTableEntry::zero(),
                }
        }
    }

    /// The entry that a walk from this table of `level` reaches for `page`;
    /// `None` where a table on the way is missing.
    spec fn slot(self, level: nat, page: nat) -> Option<PageTableEntry>
        decreases level,
    {
        if level == 0 {
            Some(self.entries@[index_of(page, 0) as int])
        } else {
            match self.children@[index_of(page, level) as int] {
                Some(c) => c.slot((level - 1) as nat, page),
                None => None,
            }
        }
    }

    /// The number of tables that a walk from this table of `level` to
    /// `page` finds missing.
    spec fn lacking(self, level: nat, page: nat) -> nat
        decreases level,
    {
        if level == 0 {
            0
        } else {
            match self.children@[index_of(page, level) as int] {
                Some(c) => c.lacking((level - 1) as nat, page),
                None => level,
            }
        }
    }

    /// The address of the table that a walk from this table of `level`
    /// reaches after `depth` steps towards `page`; `None` where it is
    /// missing.
    spec fn table_at(self, level: nat, depth: nat, page: nat) -> Option<u64>
        decreases depth,
    {
        if depth == 0 {
            Some(self.addr)
        } else if level == 0 {
            None
        } else {
            match self.children@[index_of(page, level) as int] {
                Some(c) => c.table_at((level - 1) as nat, (depth - 1) as nat, page),
                None => None,
            }
        }
    }

    /// The entry that leads on towards `page` in the table that a walk from
    /// this table of `level` reaches after `depth` steps towards `page`;
    /// `None` where that table is missing.
    spec fn entry_at(self, level: nat, depth: nat, page: nat) -> Option<PageTableEntry>
        decreases depth,
    {
        if depth == 0 {
            Some(self.entries@[index_of(page, level) as int])
        } else if level == 0 {
            None
        } else {
            match self.children@[index_of(page, level) as int] {
                Some(c) => c.entry_at((level - 1) as nat, (depth - 1) as nat, page),
                None => None,
            }
        }
    }

    /// What `table_at` gives for `p` once the tables on the way to `page`
    /// were made, `missing` of them, in pages that follow each other from
    /// `next` on.
    spec fn table_after(
        before: Option<u64>,
        p: nat,
        page: nat,
        level: nat,
        depth: nat,
        missing: nat,
        next: int,
        page_size: int,
    ) -> Option<u64> {
        if before is Some {
            before
        } else if depth <= level && same_prefix(p, page, level, depth) {
            Some(new_table(next, page_size, depth - (level - missing) - 1))
        } else {
            None
        }
    }

    /// A walk from a table of `level` finds at most `level` tables missing.
    proof fn lemma_lacking_bound(self, level: nat, page: nat)
        ensures
            self.lacking(level, page) <= level,
        decreases level,
    {
        if level > 0 {
            if self.children@[index_of(page, level) as int] is Some {
                self.children@[index_of(page, level) as int].unwrap().lemma_lacking_bound(
                    (level - 1) as nat,
                    page,
                );
            }
        }
    }

    /// What `slot` gives for `p` once `entry` was mapped at `page`, with the
    /// missing tables made first.
    spec fn slot_after(
        before: Option<PageTableEntry>,
        p: nat,
        page: nat,
        level: nat,
        entry: PageTableEntry,
    ) -> Option<PageTableEntry> {
        if same_slot(p, page, level) {
            Some(entry)
        } else if before is Some {
            before
        } else if same_table(p, page, level) {
            Some(PageTableEntry::zero())
        } else {
            None
        }
    }

    /// What `lacking` gives for `p` once the tables on the way to `page`
    /// were made.
    spec fn lacking_after(before: nat, p: nat, page: nat, level: nat) -> nat
        decreases level,
    {
        if level == 0 {
            0
        } else if index_of(p, level) != index_of(page, level) {
            before
        } else {
            Self::lacking_after(
                if before < level {
                    before
                } else {
                    (level - 1) as nat
                },
                p,
                page,
                (level - 1) as nat,
            )
        }
    }

    /// A table of `level` with every entry clear, in a page taken from
    /// `allocator`.
    fn alloc_table(allocator: &mut mm::PhysicalMemoryManager, level: usize) -> (r: PageTable)
        requires
            old(allocator).wf(),
            old(allocator)@.free() >= 1,
            level <= 2,
        ensures
            final(allocator).wf(),
            final(allocator)@ == old(allocator)@.take(1),
            r.addr == old(allocator)@.next() as u64,
            r.wf_at(level as nat),
            forall|p: nat| #[trigger]
                r.slot(level as nat, p) == if level == 0 {
                    Some(PageTableEntry::zero())
                } else {
                    None
                },
            forall|p: nat| #[trigger] r.lacking(level as nat, p) == level,
            forall|p: nat, d: nat| #[trigger]
                r.table_at(level as nat, d, p) == if d == 0 {
                    Some(r.addr)
                } else {
                    None
                },
    {
        let page = allocator.alloc_pages(1).unwrap();
        let mut entries: Vec<PageTableEntry> = Vec::new();
        let mut children: Vec<Option<PageTable>> = Vec::new();
        let mut i: usize = 0;
        while i < ENTRIES
            invariant
                i <= ENTRIES,
                entries@.len() == i,
                children@.len() == (if level == 0 {
                    0
                } else {
                    i as int
                }),
                forall|j: int| 0 <= j < i ==> #[trigger] entries@[j] == PageTableEntry::zero(),
                forall|j: int| 0 <= j < children@.len() ==> #[trigger] children@[j] is None,
            decreases ENTRIES - i,
        {
            let mut pte = PageTableEntry::new();
            pte.clear();
            entries.push(pte);
            if level > 0 {
                children.push(None);
            }
            i = i + 1;
        }
        proof {
            assert(0u64 & !PTE_USED == 0) by (bit_vector);
        }
        PageTable { addr: page.addr as u64, entries, children }
    }

    /// Walks from this table of `level` to the slot of `vaddr`, makes the
    /// tables that are missing on the way where an allocator is given, and
    /// writes the mapping of `paddr` with `perms` into the slot.
    fn map_inner(
        &mut self,
        mut allocator: Option<&mut mm::PhysicalMemoryManager>,
        paddr: PAddr,
        vaddr: VAddr,
        perms: mm::Permissions,
        level: usize,
    ) -> (r: Result<(), Error>)
        requires
            level <= 2,
            old(self).wf_at(level as nat),
            allocator matches Some(a) ==> a.wf() && a@.free() >= old(self).lacking(
                level as nat,
                vaddr.page(),
            ),
        ensures
            final(self).wf_at(level as nat),
            final(self).addr == old(self).addr,
            allocator matches Some(a) ==> r is Ok && final(a).wf() && final(a)@ == a@.take(
                old(self).lacking(level as nat, vaddr.page()) as int,
            ),
            allocator is None ==> (r is Ok <==> old(self).lacking(level as nat, vaddr.page())
                == 0),
            r matches Err(e) ==> e == Error::CannotMapNoAlloc,
            r is Err ==> forall|p: nat| #[trigger]
                final(self).slot(level as nat, p) == old(self).slot(level as nat, p),
            r is Err ==> forall|p: nat| #[trigger]
                final(self).lacking(level as nat, p) == old(self).lacking(level as nat, p),
            r is Ok ==> forall|p: nat| #[trigger]
                final(self).slot(level as nat, p) == Self::slot_after(
                    old(self).slot(level as nat, p),
                    p,
                    vaddr.page(),
                    level as nat,
                    PageTableEntry::mapping(paddr@, perms@),
                ),
            r is Ok ==> forall|p: nat| #[trigger]
                final(self).lacking(level as nat, p) == Self::lacking_after(
                    old(self).lacking(level as nat, p),
                    p,
                    vaddr.page(),
                    level as nat,
                ),
            allocator is None ==> forall|p: nat, d: nat| #[trigger]
                final(self).table_at(level as nat, d, p) == old(self).table_at(level as nat, d, p),
            allocator matches Some(a) ==> forall|p: nat, d: nat| #[trigger]
                final(self).table_at(level as nat, d, p) == Self::table_after(
                    old(self).table_at(level as nat, d, p),
                    p,
                    vaddr.page(),
                    level as nat,
                    d,
                    old(self).lacking(level as nat, vaddr.page()),
                    a@.next(),
                    a@.page_size as int,
                ),
        decreases level,
    {
        let vpn = vaddr.vpn(level);
        let idx = vpn as usize;
        proof {
            lemma_index(vaddr@);
        }
        let ghost start: Option<mm::physical_memory_manager::Memory> = match allocator {
            Some(ref a) => Some(a@),
            None => None,
        };
        if level == 0 {
            let mut pte = self.entries[idx];
            proof {
                lemma_entry_bits(pte@, paddr@, perms@);
            }
            pte.set_paddr(&paddr);
            pte.set_perms(perms);
            pte.set_valid();
            self.entries[idx] = pte;
            return Ok(());
        }
        let level_below = level - 1;
        let ghost fresh = !self.entries[idx as int].valid();
        proof {
            lemma_pointer_bits(0);
            if old(self).children@[idx as int] is Some {
                lemma_pointer_bits(old(self).children@[idx as int].unwrap().addr);
            }
            assert(fresh == (old(self).children@[idx as int] is None));
        }
        if !self.entries[idx].is_valid() {
            if let Some(alloc) = allocator.as_mut() {
                let new_page_table = PageTable::alloc_table(alloc, level_below);
                let mut pte = self.entries[idx];
                proof {
                    lemma_pointer_bits(new_page_table.addr);
                }
                pte.set_target(new_page_table.addr);
                pte.set_valid();
                self.entries[idx] = pte;
                self.children[idx] = Some(new_page_table);
            } else {
                return Err(Error::CannotMapNoAlloc);
            }
        }
        let ghost mid = *self;
        let r = match &mut self.children[idx] {
            Some(child) => child.map_inner(allocator, paddr, vaddr, perms, level_below),
            None => Err(Error::CannotMapNoAlloc),
        };
        proof {
            let page = vaddr.page();
            let entry = PageTableEntry::mapping(paddr@, perms@);
            assert(self.children@.len() == 512);
            assert(r is Err ==> !fresh);
            assert(!fresh ==> mid.children@ == old(self).children@);
            assert forall|i: int| 0 <= i < 512 implies match #[trigger] self.children@[i] {
                Some(c) => c.wf_at((level - 1) as nat) && self.entries@[i] == PageTableEntry::pointer(
                    c.addr,
                ),
                None => self.entries@[i] == PageTableEntry::zero(),
            } by {
                if i != idx {
                    assert(self.children@[i] == mid.children@[i]);
                    assert(mid.children@[i] == old(self).children@[i]);
                }
            }
            assert forall|p: nat| r is Err implies #[trigger] self.slot(level as nat, p) == old(
                self,
            ).slot(level as nat, p) by {
                let i = index_of(p, level as nat) as int;
                assert(mid.children@[i] == old(self).children@[i]);
                if i != idx {
                    assert(self.children@[i] == mid.children@[i]);
                } else {
                    let before = mid.children@[i].unwrap();
                    let after = self.children@[i].unwrap();
                    assert(after.slot((level - 1) as nat, p) == before.slot((level - 1) as nat, p));
                }
            }
            assert forall|p: nat| r is Err implies #[trigger] self.lacking(level as nat, p) == old(
                self,
            ).lacking(level as nat, p) by {
                let i = index_of(p, level as nat) as int;
                assert(mid.children@[i] == old(self).children@[i]);
                if i != idx {
                    assert(self.children@[i] == mid.children@[i]);
                } else {
                    let before = mid.children@[i].unwrap();
                    let after = self.children@[i].unwrap();
                    assert(after.lacking((level - 1) as nat, p) == before.lacking((level - 1) as nat, p));
                }
            }
            assert forall|p: nat| r is Ok implies #[trigger] self.slot(level as nat, p)
                == Self::slot_after(old(self).slot(level as nat, p), p, page, level as nat, entry) by {
                let i = index_of(p, level as nat) as int;
                if i != idx {
                    assert(self.children@[i] == mid.children@[i]);
                    assert(mid.children@[i] == old(self).children@[i]);
                    assert(!same_slot(p, page, level as nat));
                    assert(!same_table(p, page, level as nat));
                    assert(self.slot(level as nat, p) == old(self).slot(level as nat, p));
                } else {
                    let before = mid.children@[i].unwrap();
                    let after = self.children@[i].unwrap();
                    assert(self.slot(level as nat, p) == after.slot((level - 1) as nat, p));
                    assert(after.slot((level - 1) as nat, p) == Self::slot_after(
                        before.slot((level - 1) as nat, p),
                        p,
                        page,
                        (level - 1) as nat,
                        entry,
                    ));
                    assert(same_slot(p, page, level as nat) == same_slot(p, page, (level - 1) as nat));
                    assert(same_table(p, page, level as nat) == same_table(
                        p,
                        page,
                        (level - 1) as nat,
                    ));
                    if fresh {
                        assert(old(self).slot(level as nat, p) is None);
                    } else {
                        assert(old(self).slot(level as nat, p) == before.slot((level - 1) as nat, p));
                    }
                }
            }
            assert forall|p: nat| r is Ok implies #[trigger] self.lacking(level as nat, p)
                == Self::lacking_after(old(self).lacking(level as nat, p), p, page, level as nat) by {
                let i = index_of(p, level as nat) as int;
                if i != idx {
                    assert(self.children@[i] == mid.children@[i]);
                    assert(mid.children@[i] == old(self).children@[i]);
                } else {
                    let before = mid.children@[i].unwrap();
                    let after = self.children@[i].unwrap();
                    before.lemma_lacking_bound((level - 1) as nat, p);
                    assert(after.lacking((level - 1) as nat, p) == Self::lacking_after(
                        before.lacking((level - 1) as nat, p),
                        p,
                        page,
                        (level - 1) as nat,
                    ));
                    if fresh {
                        assert(old(self).lacking(level as nat, p) == level);
                        assert(before.lacking((level - 1) as nat, p) == level - 1);
                    } else {
                        assert(old(self).lacking(level as nat, p) == before.lacking(
                            (level - 1) as nat,
                            p,
                        ));
                    }
                }
            }
            if start is None {
                assert forall|p: nat, d: nat| #[trigger]
                    self.table_at(level as nat, d, p) == old(self).table_at(level as nat, d, p) by {
                    let i = index_of(p, level as nat) as int;
                    assert(mid.children@[i] == old(self).children@[i]);
                    if d > 0 {
                        if i != idx {
                            assert(self.children@[i] == mid.children@[i]);
                        } else {
                            let before = mid.children@[i].unwrap();
                            let after = self.children@[i].unwrap();
                            assert(after.table_at((level - 1) as nat, (d - 1) as nat, p)
                                == before.table_at((level - 1) as nat, (d - 1) as nat, p));
                        }
                    }
                }
            } else {
                let memory = start.unwrap();
                let next = memory.next();
                let page_size = memory.page_size as int;
                let missing = old(self).lacking(level as nat, page);
                old(self).lemma_lacking_bound(level as nat, page);
                if fresh {
                    memory.lemma_take(1);
                }
                assert forall|p: nat, d: nat| #[trigger]
                    self.table_at(level as nat, d, p) == Self::table_after(
                        old(self).table_at(level as nat, d, p),
                        p,
                        page,
                        level as nat,
                        d,
                        missing,
                        next,
                        page_size,
                    ) by {
                    let i = index_of(p, level as nat) as int;
                    if d > 0 {
                        if i != idx {
                            assert(self.children@[i] == mid.children@[i]);
                            assert(mid.children@[i] == old(self).children@[i]);
                            assert(!same_prefix(p, page, level as nat, d));
                        } else {
                            let before = mid.children@[i].unwrap();
                            let after = self.children@[i].unwrap();
                            before.lemma_lacking_bound((level - 1) as nat, page);
                            assert(same_prefix(p, page, level as nat, d) == same_prefix(
                                p,
                                page,
                                (level - 1) as nat,
                                (d - 1) as nat,
                            ));
                            if fresh {
                                assert(after.table_at((level - 1) as nat, (d - 1) as nat, p)
                                    == Self::table_after(
                                    before.table_at((level - 1) as nat, (d - 1) as nat, p),
                                    p,
                                    page,
                                    (level - 1) as nat,
                                    (d - 1) as nat,
                                    (level - 1) as nat,
                                    next + page_size,
                                    page_size,
                                ));
                                assert(old(self).table_at(level as nat, d, p) is None);
                                assert(before.addr == next as u64);
                            } else {
                                assert(after.table_at((level - 1) as nat, (d - 1) as nat, p)
                                    == Self::table_after(
                                    before.table_at((level - 1) as nat, (d - 1) as nat, p),
                                    p,
                                    page,
                                    (level - 1) as nat,
                                    (d - 1) as nat,
                                    missing,
                                    next,
                                    page_size,
                                ));
                                assert(old(self).table_at(level as nat, d, p) == before.table_at(
                                    (level - 1) as nat,
                                    (d - 1) as nat,
                                    p,
                                ));
                            }
                        }
                    }
                }
            }
        }
        r
    }

    /// Walks from this table of `level` to the slot of `vaddr`, which has
    /// to exist, and clears the valid bit of its entry.
    fn invalidate_inner(&mut self, vaddr: VAddr, level: usize)
        requires
            level <= 2,
            old(self).wf_at(level as nat),
            old(self).lacking(level as nat, vaddr.page()) == 0,
        ensures
            final(self).wf_at(level as nat),
            final(self).addr == old(self).addr,
            forall|p: nat| #[trigger]
                final(self).slot(level as nat, p) == if same_slot(p, vaddr.page(), level as nat) {
                    Some(old(self).slot(level as nat, p).unwrap().invalidated())
                } else {
                    old(self).slot(level as nat, p)
                },
            forall|p: nat| #[trigger]
                final(self).lacking(level as nat, p) == old(self).lacking(level as nat, p),
            forall|p: nat, d: nat| #[trigger]
                final(self).table_at(level as nat, d, p) == old(self).table_at(level as nat, d, p),
        decreases level,
    {
        let vpn = vaddr.vpn(level);
        let idx = vpn as usize;
        proof {
            lemma_index(vaddr@);
        }
        if level == 0 {
            let mut pte = self.entries[idx];
            proof {
                lemma_entry_bits(pte@, 0, 0);
            }
            pte.set_invalid();
            self.entries[idx] = pte;
            return ;
        }
        let level_below = level - 1;
        match &mut self.children[idx] {
            Some(child) => child.invalidate_inner(vaddr, level_below),
            None => {},
        };
        proof {
            let page = vaddr.page();
            assert(self.children@.len() == 512);
            assert forall|i: int| 0 <= i < 512 implies match #[trigger] self.children@[i] {
                Some(c) => c.wf_at((level - 1) as nat) && self.entries@[i] == PageTableEntry::pointer(
                    c.addr,
                ),
                None => self.entries@[i] == PageTableEntry::zero(),
            } by {
                if i != idx {
                    assert(self.children@[i] == old(self).children@[i]);
                }
            }
            assert forall|p: nat| #[trigger]
                self.slot(level as nat, p) == if same_slot(p, page, level as nat) {
                    Some(old(self).slot(level as nat, p).unwrap().invalidated())
                } else {
                    old(self).slot(level as nat, p)
                } by {
                let i = index_of(p, level as nat) as int;
                if i != idx {
                    assert(self.children@[i] == old(self).children@[i]);
                } else {
                    let before = old(self).children@[i].unwrap();
                    let after = self.children@[i].unwrap();
                    assert(after.slot((level - 1) as nat, p) == if same_slot(
                        p,
                        page,
                        (level - 1) as nat,
                    ) {
                        Some(before.slot((level - 1) as nat, p).unwrap().invalidated())
                    } else {
                        before.slot((level - 1) as nat, p)
                    });
                }
            }
            assert forall|p: nat| #[trigger]
                self.lacking(level as nat, p) == old(self).lacking(level as nat, p) by {
                let i = index_of(p, level as nat) as int;
                if i != idx {
                    assert(self.children@[i] == old(self).children@[i]);
                } else {
                    let before = old(self).children@[i].unwrap();
                    let after = self.children@[i].unwrap();
                    assert(after.lacking((level - 1) as nat, p) == before.lacking(
                        (level - 1) as nat,
                        p,
                    ));
                }
            }
            assert forall|p: nat, d: nat| #[trigger]
                self.table_at(level as nat, d, p) == old(self).table_at(level as nat, d, p) by {
                let i = index_of(p, level as nat) as int;
                if d > 0 {
                    if i != idx {
                        assert(self.children@[i] == old(self).children@[i]);
                    } else {
                        let before = old(self).children@[i].unwrap();
                        let after = self.children@[i].unwrap();
                        assert(after.table_at((level - 1) as nat, (d - 1) as nat, p)
                            == before.table_at((level - 1) as nat, (d - 1) as nat, p));
                    }
                }
            }
        }
    }

    /// Walks `depth` steps from this table of `level` towards the slot of
    /// `vaddr` and changes nothing: the address of the table that the walk
    /// reaches, and the entry in it that leads on towards the slot.
    fn find(&self, vaddr: VAddr, level: usize, depth: usize) -> (r: Option<(u64, PageTableEntry)>)
        requires
            depth <= level <= 2,
            self.wf_at(level as nat),
        ensures
            match r {
                Some((addr, entry)) => self.table_at(level as nat, depth as nat, vaddr.page())
                    == Some(addr) && self.entry_at(level as nat, depth as nat, vaddr.page())
                    == Some(entry),
                None => self.table_at(level as nat, depth as nat, vaddr.page()) is None
                    && self.entry_at(level as nat, depth as nat, vaddr.page()) is None,
            },
        decreases depth,
    {
        let vpn = vaddr.vpn(level);
        let idx = vpn as usize;
        proof {
            lemma_index(vaddr@);
        }
        if depth == 0 {
            return Some((self.addr, self.entries[idx]));
        }
        match &self.children[idx] {
            Some(child) => child.find(vaddr, level - 1, depth - 1),
            None => None,
        }
    }

    /// Walks from this table of `level` towards the slot of `vaddr` and
    /// changes nothing: the entry in the slot, or the number of tables that
    /// are missing on the way.
    fn walk(&self, vaddr: VAddr, level: usize) -> (r: Result<PageTableEntry, usize>)
        requires
            level <= 2,
            self.wf_at(level as nat),
        ensures
            match r {
                Ok(entry) => self.slot(level as nat, vaddr.page()) == Some(entry) && self.lacking(
                    level as nat,
                    vaddr.page(),
                ) == 0,
                Err(count) => self.slot(level as nat, vaddr.page()) is None && self.lacking(
                    level as nat,
                    vaddr.page(),
                ) == count && 0 < count <= level,
            },
        decreases level,
    {
        let vpn = vaddr.vpn(level);
        let idx = vpn as usize;
        proof {
            lemma_index(vaddr@);
        }
        if level == 0 {
            return Ok(self.entries[idx]);
        }
        match &self.children[idx] {
            Some(child) => child.walk(vaddr, level - 1),
            None => Err(level),
        }
    }

    /// The physical address of the table of `level` on the way to `page`,
    /// the root being the table of level 2; `None` where that table is
    /// missing.
    pub closed spec fn table_address(self, level: nat, page: nat) -> Option<u64> {
        if level <= 2 {
            self.table_at(2, (2 - level) as nat, page)
        } else {
            None
        }
    }

    /// The entry that the hardware reads for `page` in the table of `level`
    /// on the way to it; `None` where that table is missing.
    pub closed spec fn table_entry(self, level: nat, page: nat) -> Option<PageTableEntry> {
        if level <= 2 {
            self.entry_at(2, (2 - level) as nat, page)
        } else {
            None
        }
    }

    /// What `table_address` gives for `p` once `page` was mapped, with the
    /// `missing` tables on the way to it made first, in the pages that the
    /// allocator hands out from `next` on: a table that stood stands where
    /// it stood, and a table that was made is found by every page that comes
    /// the same way.
    pub open spec fn table_address_after(
        before: Option<u64>,
        p: nat,
        page: nat,
        level: nat,
        missing: nat,
        next: int,
        page_size: int,
    ) -> Option<u64> {
        if before is Some {
            before
        } else if level <= 2 && same_prefix(p, page, 2, (2 - level) as nat) {
            Some(new_table(next, page_size, missing - level - 1))
        } else {
            None
        }
    }

    /// How the tables hang together: the root is the table of level 2 for
    /// every page; a table of a lower level stands where the view says that
    /// the page has a directory or a slot; the entry for a page in a table of
    /// the two upper levels is the pointer to the table below where that
    /// stands, and clear where it is missing; and the entry in the table of
    /// level 0 is what the slot holds.
    pub proof fn lemma_tables(self, page: nat)
        requires
            self.inv(),
            page < PAGES,
        ensures
            self.table_address(2, page) == Some(self.address()),
            self.table_address(1, page) is Some <==> self@.dirs.contains(page / (DIR_SPAN as nat)),
            self.table_address(0, page) is Some <==> self@.slots.contains_key(page),
            self.table_address(0, page) is Some ==> self.table_address(1, page) is Some,
            self.table_entry(2, page) == Some(
                match self.table_address(1, page) {
                    Some(addr) => PageTableEntry::pointer(addr),
                    None => PageTableEntry::zero(),
                },
            ),
            self.table_entry(1, page) == match self.table_address(1, page) {
                Some(_) => Some(
                    match self.table_address(0, page) {
                        Some(addr) => PageTableEntry::pointer(addr),
                        None => PageTableEntry::zero(),
                    },
                ),
                None => None,
            },
            self.table_entry(0, page) == if self@.slots.contains_key(page) {
                Some(self@.slots[page])
            } else {
                None
            },
    {
        reveal_with_fuel(PageTable::table_at, 3);
        reveal_with_fuel(PageTable::entry_at, 3);
        reveal_with_fuel(PageTable::lacking, 3);
        reveal_with_fuel(PageTable::slot, 3);
        reveal_with_fuel(PageTable::wf_at, 3);
        self.lemma_missing(page);
        lemma_digits(page);
        let d = page / (DIR_SPAN as nat);
        lemma_digits(d * (DIR_SPAN as nat));
        if self.children@[index_of(page, 2) as int] is Some {
            let dir = self.children@[index_of(page, 2) as int].unwrap();
            let below = dir.children@[index_of(page, 1) as int];
            assert(below is Some ==> dir.entries@[index_of(page, 1) as int]
                == PageTableEntry::pointer(below.unwrap().addr));
        }
    }

    /// The physical address of the table of `level` on the way to the page
    /// of `va`, and the entry that the hardware reads in it for that page;
    /// `None` where the table is missing. Nothing is changed.
    pub fn table(&self, va: mm::VAddr, level: usize) -> (r: Option<(u64, PageTableEntry)>)
        requires
            self.inv(),
            level <= 2,
        ensures
            match r {
                Some((addr, entry)) => self.table_address(level as nat, page_of(va)) == Some(addr)
                    && self.table_entry(level as nat, page_of(va)) == Some(entry),
                None => self.table_address(level as nat, page_of(va)) is None && self.table_entry(
                    level as nat,
                    page_of(va),
                ) is None,
            },
    {
        let vaddr = VAddr::from(va);
        proof {
            lemma_page(va@ as u64);
        }
        self.find(vaddr, 2, 2 - level)
    }

    /// The physical address of the page that holds this table.
    pub fn addr(&self) -> (r: u64)
        ensures
            r == self.address(),
    {
        self.addr
    }

    /// The entry that the hardware would read for the page of `va`; `None`
    /// where a table on the way is missing. Nothing is changed.
    pub fn entry(&self, va: mm::VAddr) -> (r: Option<PageTableEntry>)
        requires
            self.inv(),
        ensures
            r == if self@.slots.contains_key(page_of(va)) {
                Some(self@.slots[page_of(va)])
            } else {
                None::<PageTableEntry>
            },
    {
        let vaddr = VAddr::from(va);
        proof {
            lemma_page(va@ as u64);
        }
        match self.walk(vaddr, 2) {
            Ok(entry) => Some(entry),
            Err(_) => None,
        }
    }

    /// The physical address and the rights that the page of `va` translates
    /// to; `None` where it has no valid mapping. Nothing is changed.
    pub fn lookup(&self, va: mm::VAddr) -> (r: Option<(mm::PAddr, mm::Permissions)>)
        requires
            self.inv(),
        ensures
            r == self@.translate(page_of(va)),
    {
        match self.entry(va) {
            Some(entry) => {
                if entry.is_valid() {
                    Some(
                        (
                            mm::PAddr { addr: entry.get_target() as usize },
                            mm::Permissions { bits: entry.get_perms() },
                        ),
                    )
                } else {
                    None
                }
            },
            None => None,
        }
    }

    /// The number of tables that are missing on the way to the page of
    /// `va`: what a mapping of it takes from the allocator.
    pub fn missing_tables(&self, va: mm::VAddr) -> (r: usize)
        requires
            self.inv(),
        ensures
            r == self@.missing(page_of(va)),
            r <= 2,
    {
        let vaddr = VAddr::from(va);
        proof {
            lemma_page(va@ as u64);
            self.lemma_missing(page_of(va));
        }
        match self.walk(vaddr, 2) {
            Ok(_) => 0,
            Err(count) => count,
        }
    }

    /// What a mapping walk from the root leaves, said of the view.
    proof fn lemma_mapped(before: PageTable, after: PageTable, page: nat, entry: PageTableEntry)
        requires
            page < PAGES,
            forall|p: nat| #[trigger]
                after.slot(2, p) == Self::slot_after(before.slot(2, p), p, page, 2, entry),
            forall|p: nat| #[trigger]
                after.lacking(2, p) == Self::lacking_after(before.lacking(2, p), p, page, 2),
        ensures
            after@ == before@.map(page, entry),
    {
        reveal_with_fuel(same_slot, 3);
        reveal_with_fuel(same_table, 3);
        reveal_with_fuel(PageTable::lacking_after, 3);
        lemma_digits(page);
        assert forall|p: nat| p < PAGES implies (same_slot(p, page, 2) <==> p == page) && (
        same_table(p, page, 2) <==> p / 512 == page / 512) by {
            lemma_digits(p);
        }
        assert(after@.slots =~= before@.map(page, entry).slots);
        assert forall|d: nat| after@.dirs.contains(d) == before@.map(page, entry).dirs.contains(
            d,
        ) by {
            if d < 512 {
                lemma_digits(d * (DIR_SPAN as nat));
                assert(index_of(d * (DIR_SPAN as nat), 2) == d);
            }
        }
        assert(after@.dirs =~= before@.map(page, entry).dirs);
    }

    /// What an invalidating walk from the root leaves, said of the view.
    proof fn lemma_invalidated(before: PageTable, after: PageTable, page: nat)
        requires
            page < PAGES,
            before.slot(2, page) is Some,
            forall|p: nat| #[trigger]
                after.slot(2, p) == if same_slot(p, page, 2) {
                    Some(before.slot(2, p).unwrap().invalidated())
                } else {
                    before.slot(2, p)
                },
            forall|p: nat| #[trigger] after.lacking(2, p) == before.lacking(2, p),
        ensures
            after@ == before@.map(page, before@.slots[page].invalidated()),
    {
        reveal_with_fuel(same_slot, 3);
        reveal_with_fuel(PageTable::slot, 3);
        lemma_digits(page);
        assert forall|p: nat| p < PAGES implies (same_slot(p, page, 2) <==> p == page) && (p / 512
            == page / 512 ==> before.slot(2, p) is Some) by {
            lemma_digits(p);
        }
        let entry = before@.slots[page].invalidated();
        assert(after@.slots =~= before@.map(page, entry).slots);
        assert forall|d: nat| after@.dirs.contains(d) == before@.map(page, entry).dirs.contains(
            d,
        ) by {
            if d == page / (DIR_SPAN as nat) {
                reveal_with_fuel(PageTable::lacking, 3);
                lemma_digits(d * (DIR_SPAN as nat));
            }
        }
        assert(after@.dirs =~= before@.map(page, entry).dirs);
    }

    /// Where no table is missing on the way to `page`, making the tables
    /// on the way to it changes nothing for any page `p`.
    proof fn lemma_present(self, page: nat, p: nat)
        requires
            self.lacking(2, page) == 0,
        ensures
            Self::lacking_after(self.lacking(2, p), p, page, 2) == self.lacking(2, p),
    {
        reveal_with_fuel(PageTable::lacking, 3);
        reveal_with_fuel(PageTable::lacking_after, 3);
    }

    /// The view tells how many tables a walk finds missing.
    proof fn lemma_missing(self, page: nat)
        requires
            self.wf_at(2),
            page < PAGES,
        ensures
            self@.missing(page) == self.lacking(2, page),
            self@.slots.contains_key(page) <==> self.slot(2, page) is Some,
            self@.slots.contains_key(page) ==> self@.slots[page] == self.slot(2, page).unwrap(),
    {
        reveal_with_fuel(PageTable::lacking, 3);
        reveal_with_fuel(PageTable::slot, 3);
        lemma_digits(page);
        let d = page / (DIR_SPAN as nat);
        lemma_digits(d * (DIR_SPAN as nat));
    }
}

/// The three table indices of an address are the three base-512 digits of
/// its page number.
proof fn lemma_index(a: u64)
    by (bit_vector)
    ensures
        (a >> 12) & 0x1ff == ((a >> 12) & 0x7ff_ffff) % 512,
        (a >> 21) & 0x1ff == (((a >> 12) & 0x7ff_ffff) / 512) % 512,
        (a >> 30) & 0x1ff == (((a >> 12) & 0x7ff_ffff) / 512 / 512) % 512,
{
}

/// The page number of an address is that of its canonical form.
proof fn lemma_page(a: u64)
    by (bit_vector)
    ensures
        (VAddr::canonical(a) >> 12) & 0x7ff_ffff == (a >> 12) & 0x7ff_ffff,
        (a >> 12) & 0x7ff_ffff < 0x800_0000,
{
}

/// How the index at the root relates to the span of a root entry.
proof fn lemma_digits(p: nat)
    ensures
        p / 512 / 512 == p / (DIR_SPAN as nat),
        p < PAGES ==> index_of(p, 2) == p / (DIR_SPAN as nat),
        p < PAGES ==> p / (DIR_SPAN as nat) < 512,
        p < PAGES ==> index_of(p / (DIR_SPAN as nat) * (DIR_SPAN as nat), 2) == p / (
        DIR_SPAN as nat),
{
    vstd::arithmetic::div_mod::lemma_div_denominator(p as int, 512, 512);
}

/// What the setters of an entry make of one that has no stray bit set.
proof fn lemma_entry_bits(before: u64, addr: u64, perms: u8)
    by (bit_vector)
    requires
        before & !PTE_USED == 0,
    ensures
        ((((before & !PTE_PPN) | (((addr >> 12) & 0xfff_ffff_ffff) << 10)) & !PTE_RWX) | (((perms
            & 0x7) as u64) << 1)) | PTE_V == (((addr >> 12) & 0xfff_ffff_ffff) << 10) | (((perms
            & 0x7) as u64) << 1) | PTE_V,
        ((((addr >> 12) & 0xfff_ffff_ffff) << 10) | (((perms & 0x7) as u64) << 1) | PTE_V) & !PTE_USED
            == 0,
        (before & !PTE_V) & !PTE_USED == 0,
{
}

/// What the setters make of a clear entry that is pointed at a table.
proof fn lemma_pointer_bits(addr: u64)
    by (bit_vector)
    ensures
        ((0u64 & !PTE_PPN) | (((addr >> 12) & 0xfff_ffff_ffff) << 10)) | PTE_V == (((addr >> 12)
            & 0xfff_ffff_ffff) << 10) | PTE_V,
        ((((addr >> 12) & 0xfff_ffff_ffff) << 10) | PTE_V) & PTE_V != 0,
        ((((addr >> 12) & 0xfff_ffff_ffff) << 10) | PTE_V) & PTE_RWX == 0,
        0u64 & PTE_V == 0,
        0u64 & !PTE_USED == 0,
{
}

/// The sentinel physical address that a reserved slot holds.
pub const RESERVED_ADDRESS: u64 = 0x0A0A_0A0A_0A0A_0A0A;

impl PageTableEntry {
    /// The entry of a slot that is reserved and not accessible: the mapping
    /// of the sentinel address for reading, with its valid bit cleared.
    pub open spec fn reserved() -> PageTableEntry {
        Self::mapping(RESERVED_ADDRESS, mm::READ).invalidated()
    }
}

impl PagingImpl for PageTable {
    open spec fn wf(&self) -> bool {
        self.inv()
    }

    open spec fn missing(&self, va: mm::VAddr) -> nat {
        self@.missing(page_of(va))
    }

    open spec fn page_bits() -> nat {
        12
    }

    open spec fn translation(&self, va: mm::VAddr) -> Option<(mm::PAddr, mm::Permissions)> {
        self@.translate(page_of(va))
    }

    open spec fn same_page(a: mm::VAddr, b: mm::VAddr) -> bool {
        page_of(a) == page_of(b)
    }

    open spec fn kept(pa: mm::PAddr, perms: mm::Permissions) -> (mm::PAddr, mm::Permissions) {
        (
            mm::PAddr { addr: ((pa@ as u64) & 0x00ff_ffff_ffff_f000) as usize },
            mm::Permissions { bits: perms@ & 0x7 },
        )
    }

    open spec fn loadable(&self) -> bool {
        self.address() < 0x100_0000_0000_0000
    }

    fn new(allocator: &mut mm::PhysicalMemoryManager) -> (r: Self)
        ensures
            r@ == Mappings::empty(),
            r.address() == old(allocator)@.next() as u64,
            forall|p: nat, l: nat| #[trigger]
                r.table_address(l, p) == if l == 2 {
                    Some(r.address())
                } else {
                    None
                },
    {
        let table = PageTable::alloc_table(allocator, 2);
        proof {
            assert(table@.slots =~= Mappings::empty().slots);
            assert(table@.dirs =~= Mappings::empty().dirs);
        }
        table
    }

    fn get_page_size() -> (r: usize)
        ensures
            r == PAGE_SIZE,
    {
        proof {
            vstd::arithmetic::power2::lemma2_to64();
        }
        4096
    }

    open spec fn uppermost_address() -> usize {
        usize::MAX
    }

    fn get_uppermost_address() -> (r: usize) {
        usize::MAX
    }

    fn map(
        &mut self,
        allocator: &mut mm::PhysicalMemoryManager,
        pa: mm::PAddr,
        va: mm::VAddr,
        perms: mm::Permissions,
    ) -> (r: Result<(), Error>)
        ensures
            final(self)@ == old(self)@.map(
                page_of(va),
                PageTableEntry::mapping(pa@ as u64, perms@),
            ),
            final(self).address() == old(self).address(),
            forall|p: nat, l: nat| #[trigger]
                final(self).table_address(l, p) == PageTable::table_address_after(
                    old(self).table_address(l, p),
                    p,
                    page_of(va),
                    l,
                    old(self)@.missing(page_of(va)),
                    old(allocator)@.next(),
                    old(allocator)@.page_size as int,
                ),
    {
        let paddr = PAddr::from(pa);
        let vaddr = VAddr::from(va);
        proof {
            lemma_page(va@ as u64);
            lemma_frame(pa@ as u64);
            self.lemma_missing(page_of(va));
        }
        let r = self.map_inner(Some(allocator), paddr, vaddr, perms, 2);
        proof {
            Self::lemma_mapped(
                *old(self),
                *self,
                page_of(va),
                PageTableEntry::mapping(pa@ as u64, perms@),
            );
            old(self)@.lemma_map_missing(page_of(va), PageTableEntry::mapping(pa@ as u64, perms@));
            old(self)@.lemma_map_translate(page_of(va), PageTableEntry::mapping(pa@ as u64, perms@));
            lemma_map_then_lookup(old(self)@, pa, va, perms);
        }
        r
    }

    fn map_noalloc(&mut self, pa: mm::PAddr, va: mm::VAddr, perms: mm::Permissions) -> (r: Result<
        (),
        Error,
    >)
        ensures
            r is Ok ==> final(self)@ == old(self)@.map(
                page_of(va),
                PageTableEntry::mapping(pa@ as u64, perms@),
            ),
            r is Err ==> final(self)@ == old(self)@,
            final(self).address() == old(self).address(),
            forall|p: nat, l: nat| #[trigger]
                final(self).table_address(l, p) == old(self).table_address(l, p),
    {
        let paddr = PAddr::from(pa);
        let vaddr = VAddr::from(va);
        proof {
            lemma_page(va@ as u64);
            lemma_frame(pa@ as u64);
            self.lemma_missing(page_of(va));
        }
        let r = self.map_inner(None, paddr, vaddr, perms, 2);
        proof {
            if r is Ok {
                Self::lemma_mapped(
                    *old(self),
                    *self,
                    page_of(va),
                    PageTableEntry::mapping(pa@ as u64, perms@),
                );
                old(self)@.lemma_map_missing(
                    page_of(va),
                    PageTableEntry::mapping(pa@ as u64, perms@),
                );
                old(self)@.lemma_map_translate(
                    page_of(va),
                    PageTableEntry::mapping(pa@ as u64, perms@),
                );
                lemma_map_then_lookup(old(self)@, pa, va, perms);
            } else {
                assert(self@.slots =~= old(self)@.slots);
                assert(self@.dirs =~= old(self)@.dirs);
            }
            assert forall|v: mm::VAddr| #[trigger]
                self@.missing(page_of(v)) == old(self)@.missing(page_of(v)) by {
                lemma_page(v@ as u64);
                old(self).lemma_missing(page_of(v));
                self.lemma_missing(page_of(v));
                if r is Ok {
                    old(self).lemma_present(page_of(va), page_of(v));
                }
            }
        }
        r
    }

    fn add_invalid_entry(&mut self, allocator: &mut mm::PhysicalMemoryManager, vaddr: mm::VAddr) -> (r:
        Result<(), Error>)
        ensures
            final(self)@ == old(self)@.map(page_of(vaddr), PageTableEntry::reserved()),
            final(self)@.slots.contains_key(page_of(vaddr)),
            !final(self)@.slots[page_of(vaddr)].valid(),
            final(self)@.translate(page_of(vaddr)) is None,
            final(self).address() == old(self).address(),
            forall|p: nat, l: nat| #[trigger]
                final(self).table_address(l, p) == PageTable::table_address_after(
                    old(self).table_address(l, p),
                    p,
                    page_of(vaddr),
                    l,
                    old(self)@.missing(page_of(vaddr)),
                    old(allocator)@.next(),
                    old(allocator)@.page_size as int,
                ),
    {
        let va = VAddr::from(vaddr);
        let sentinel = PAddr::from_u64(0x0A0A_0A0A_0A0A_0A0A);
        let ghost page = page_of(vaddr);
        let ghost entry = PageTableEntry::mapping(RESERVED_ADDRESS, mm::READ);
        proof {
            lemma_page(vaddr@ as u64);
            lemma_frame(RESERVED_ADDRESS);
            self.lemma_missing(page);
        }
        let r = self.map_inner(Some(allocator), sentinel, va, mm::Permissions::read(), 2);
        let ghost mid = *self;
        proof {
            Self::lemma_mapped(*old(self), mid, page, entry);
            mid.lemma_missing(page);
        }
        self.invalidate_inner(va, 2);
        proof {
            Self::lemma_invalidated(mid, *self, page);
            old(self)@.lemma_map_missing(page, entry);
            old(self)@.lemma_map_missing(page, PageTableEntry::reserved());
            assert(mid@.map(page, entry.invalidated()).slots =~= old(self)@.map(
                page,
                PageTableEntry::reserved(),
            ).slots);
            assert(mid@.map(page, entry.invalidated()).dirs =~= old(self)@.map(
                page,
                PageTableEntry::reserved(),
            ).dirs);
            let bits = entry@;
            assert((bits & !PTE_V) & PTE_V == 0) by (bit_vector);
            old(self)@.lemma_map_translate(page, PageTableEntry::reserved());
        }
        r
    }

    fn reload(&mut self) -> (r: u64)
        ensures
            r == SATP_SV39 | (old(self).address() >> 12),
    {
        u64::from(load_pt(self))
    }

    fn disable(&mut self) -> (r: u64)
        ensures
            r == 0,
    {
        let satp = Satp::new().with_ppn(0).with_asid(0).with_mode(SatpMode::Bare.bits());
        proof {
            lemma_satp(0);
        }
        u64::from(satp)
    }
}

impl Mappings {
    /// Mapping a page changes what no other page translates to.
    pub proof fn lemma_map_translate(self, page: nat, entry: PageTableEntry)
        ensures
            forall|p: nat|
                p != page ==> #[trigger] self.map(page, entry).translate(p) == self.translate(p),
    {
        assert(0u64 & PTE_V == 0) by (bit_vector);
    }

    /// After a page was mapped no table is missing on the way to it, and on
    /// the way to any other page none is missing that was not before.
    pub proof fn lemma_map_missing(self, page: nat, entry: PageTableEntry)
        requires
            page < PAGES,
        ensures
            self.map(page, entry).missing(page) == 0,
            forall|p: nat| #[trigger] self.map(page, entry).missing(p) <= self.missing(p),
    {
    }
}

/// The mode field of the register that controls translation.
#[derive(Clone, Copy, Debug, PartialEq, Eq)]
pub enum SatpMode {
    /// No translation.
    Bare,
    /// Three levels, 39-bit virtual addresses.
    Sv39,
    /// Four levels, 48-bit virtual addresses.
    _Sv48,
    /// Five levels, 57-bit virtual addresses.
    _Sv57,
    /// Reserved for 64-bit virtual addresses.
    _Sv64,
}

impl SatpMode {
    /// The four bits that stand for the mode in the register.
    pub open spec fn encoding(self) -> u8 {
        match self {
            SatpMode::Bare => 0,
            SatpMode::Sv39 => 8,
            SatpMode::_Sv48 => 9,
            SatpMode::_Sv57 => 10,
            SatpMode::_Sv64 => 11,
        }
    }

    /// The four bits that stand for the mode in the register.
    pub fn bits(&self) -> (r: u8)
        ensures
            r == self.encoding(),
            r < 16,
    {
        match self {
            SatpMode::Bare => 0,
            SatpMode::Sv39 => 8,
            SatpMode::_Sv48 => 9,
            SatpMode::_Sv57 => 10,
            SatpMode::_Sv64 => 11,
        }
    }
}

/// The page-number field of the register: bits 0 to 43.
pub const SATP_PPN: u64 = 0x0000_0fff_ffff_ffff;

/// The address-space field of the register: bits 44 to 59.
pub const SATP_ASID: u64 = 0x0fff_f000_0000_0000;

/// The mode field of the register: bits 60 to 63.
pub const SATP_MODE: u64 = 0xf000_0000_0000_0000;

/// The mode field of the register set to Sv39.
pub const SATP_SV39: u64 = 0x8000_0000_0000_0000;

/// The value of the register that controls translation: from bit 0 up, the
/// number of the root table's page in 44 bits, the address-space identifier
/// in 16 bits, and the mode in 4 bits.
#[derive(Clone, Copy, Debug)]
pub struct Satp {
    pub bits: u64,
}

impl View for Satp {
    type V = u64;

    open spec fn view(&self) -> u64 {
        self.bits
    }
}

impl Satp {
    /// The value with every field zero.
    pub fn new() -> (r: Satp)
        ensures
            r@ == 0,
    {
        Satp { bits: 0 }
    }

    /// The value with its page number replaced by `ppn`.
    pub fn with_ppn(self, ppn: u64) -> (r: Satp)
        requires
            ppn <= SATP_PPN,
        ensures
            r@ == (self@ & !SATP_PPN) | ppn,
    {
        Satp { bits: (self.bits & !SATP_PPN) | ppn }
    }

    /// The value with its address-space identifier replaced by `asid`.
    pub fn with_asid(self, asid: u16) -> (r: Satp)
        ensures
            r@ == (self@ & !SATP_ASID) | ((asid as u64) << 44),
    {
        Satp { bits: (self.bits & !SATP_ASID) | ((asid as u64) << 44) }
    }

    /// The value with its mode replaced by `mode`.
    pub fn with_mode(self, mode: u8) -> (r: Satp)
        requires
            mode < 16,
        ensures
            r@ == (self@ & !SATP_MODE) | ((mode as u64) << 60),
    {
        Satp { bits: (self.bits & !SATP_MODE) | ((mode as u64) << 60) }
    }
}

impl From<Satp> for u64 {
    fn from(satp: Satp) -> (r: u64) {
        satp.bits
    }
}

impl FromSpecImpl<Satp> for u64 {
    open spec fn obeys_from_spec() -> bool {
        true
    }

    open spec fn from_spec(satp: Satp) -> u64 {
        satp.bits
    }
}

/// The register value that makes `pt` the root of the active address
/// space: mode Sv39, address space 0, and the number of the page that holds
/// `pt`. The caller writes it and flushes the translation cache.
pub fn load_pt(pt: &PageTable) -> (r: Satp)
    requires
        pt.address() < 0x100_0000_0000_0000,
    ensures
        r@ == SATP_SV39 | (pt.address() >> 12),
{
    let pt_addr = pt.addr;
    let ppn = pt_addr >> 12;
    proof {
        lemma_satp(pt_addr);
    }
    Satp::new().with_ppn(ppn).with_asid(0).with_mode(SatpMode::Sv39.bits())
}

/// How the fields of the register come together.
proof fn lemma_satp(addr: u64)
    by (bit_vector)
    ensures
        addr < 0x100_0000_0000_0000 ==> (addr >> 12) <= SATP_PPN,
        ((((((0u64 & !SATP_PPN) | (addr >> 12)) & !SATP_ASID) | ((0u16 as u64) << 44)) & !SATP_MODE)
            | ((8u8 as u64) << 60)) == SATP_SV39 | ((addr >> 12) & SATP_PPN & !SATP_ASID),
        addr < 0x100_0000_0000_0000 ==> (addr >> 12) & SATP_PPN & !SATP_ASID == addr >> 12,
        ((((((0u64 & !SATP_PPN) | 0) & !SATP_ASID) | ((0u16 as u64) << 44)) & !SATP_MODE) | ((
        0u8 as u64) << 60)) == 0,
{
}

/// The page number that an entry keeps of an address is that of its stored
/// form.
proof fn lemma_frame(addr: u64)
    by (bit_vector)
    ensures
        (PAddr::canonical(addr) >> 12) & 0xfff_ffff_ffff == (addr >> 12) & 0xfff_ffff_ffff,
{
}

/// One mapping that is asked for: the page, and the entry for its slot.
pub struct Request {
    /// The number of the virtual page.
    pub page: nat,
    /// The entry to be written.
    pub entry: PageTableEntry,
}

/// The request that a call of `map` with these arguments stands for.
pub open spec fn request(pa: mm::PAddr, va: mm::VAddr, perms: mm::Permissions) -> Request {
    Request { page: page_of(va), entry: PageTableEntry::mapping(pa@ as u64, perms@) }
}

impl Mappings {
    /// The address space after the requests `reqs` were met one after the
    /// other, the first first.
    pub open spec fn map_all(self, reqs: Seq<Request>) -> Mappings
        decreases reqs.len(),
    {
        if reqs.len() == 0 {
            self
        } else {
            self.map_all(reqs.drop_last()).map(reqs.last().page, reqs.last().entry)
        }
    }

    /// The number of tables that have to be made while `reqs` are met one
    /// after the other.
    pub open spec fn missing_all(self, reqs: Seq<Request>) -> nat
        decreases reqs.len(),
    {
        if reqs.len() == 0 {
            0
        } else {
            self.missing_all(reqs.drop_last()) + self.map_all(reqs.drop_last()).missing(
                reqs.last().page,
            )
        }
    }

    /// Meeting one more request is mapping one more page.
    pub proof fn lemma_map_all_push(self, reqs: Seq<Request>, last: Request)
        ensures
            self.map_all(reqs.push(last)) == self.map_all(reqs).map(last.page, last.entry),
            self.missing_all(reqs.push(last)) == self.missing_all(reqs) + self.map_all(
                reqs,
            ).missing(last.page),
    {
        assert(reqs.push(last).drop_last() =~= reqs);
    }

    /// Meeting `a` and then `b` is meeting the two in a row.
    pub proof fn lemma_map_all_concat(self, a: Seq<Request>, b: Seq<Request>)
        ensures
            self.map_all(a + b) == self.map_all(a).map_all(b),
            self.missing_all(a + b) == self.missing_all(a) + self.map_all(a).missing_all(b),
        decreases b.len(),
    {
        if b.len() == 0 {
            assert(a + b =~= a);
        } else {
            self.lemma_map_all_concat(a, b.drop_last());
            assert((a + b).drop_last() =~= a + b.drop_last());
        }
    }

    /// Meeting the first `k` requests takes no more tables than meeting
    /// all.
    pub proof fn lemma_missing_all_prefix(self, reqs: Seq<Request>, k: int)
        requires
            0 <= k <= reqs.len(),
        ensures
            self.missing_all(reqs.take(k)) <= self.missing_all(reqs),
    {
        self.lemma_map_all_concat(reqs.take(k), reqs.skip(k));
        assert(reqs.take(k) + reqs.skip(k) =~= reqs);
    }

    /// No request takes more than two tables.
    pub proof fn lemma_missing_all_bound(self, reqs: Seq<Request>)
        ensures
            self.missing_all(reqs) <= 2 * reqs.len(),
        decreases reqs.len(),
    {
        if reqs.len() > 0 {
            self.lemma_missing_all_bound(reqs.drop_last());
        }
    }

    /// The last request for a page decides what its slot holds: after
    /// `reqs` were met, the page of request `i` has a slot with the entry of
    /// request `i`, if no later request is for the same page.
    pub proof fn lemma_last_write_wins(self, reqs: Seq<Request>, i: int)
        requires
            0 <= i < reqs.len(),
            reqs[i].page < PAGES,
            forall|j: int| i < j < reqs.len() ==> reqs[j].page != reqs[i].page,
        ensures
            self.map_all(reqs).slots.contains_key(reqs[i].page),
            self.map_all(reqs).slots[reqs[i].page] == reqs[i].entry,
        decreases reqs.len(),
    {
        if i < reqs.len() - 1 {
            self.lemma_last_write_wins(reqs.drop_last(), i);
        }
    }

    /// A page that no request is for translates as before: what is mapped
    /// for one page is never seen through another.
    pub proof fn lemma_untouched(self, reqs: Seq<Request>, page: nat)
        requires
            forall|j: int| 0 <= j < reqs.len() ==> reqs[j].page != page,
        ensures
            self.map_all(reqs).translate(page) == self.translate(page),
            self.slots.contains_key(page) ==> self.map_all(reqs).slots.contains_key(page)
                && self.map_all(reqs).slots[page] == self.slots[page],
        decreases reqs.len(),
    {
        if reqs.len() > 0 {
            self.lemma_untouched(reqs.drop_last(), page);
            assert(0u64 & PTE_V == 0) by (bit_vector);
        }
    }
}

/// What a lookup returns of a mapping: once the page of `va` was mapped to
/// `pa` with `perms`, it translates to the page that `pa` lies in, bits 12
/// to 55 of it, with what `perms` holds of reading, writing and executing.
pub proof fn lemma_map_then_lookup(
    before: Mappings,
    pa: mm::PAddr,
    va: mm::VAddr,
    perms: mm::Permissions,
)
    ensures
        before.map(page_of(va), request(pa, va, perms).entry).translate(page_of(va)) == Some(
            (
                mm::PAddr { addr: ((pa@ as u64) & 0x00ff_ffff_ffff_f000) as usize },
                mm::Permissions { bits: perms@ & 0x7 },
            ),
        ),
{
    lemma_mapping_bits(pa@ as u64, perms@);
    lemma_page(va@ as u64);
}

/// The requests that a row of calls of `map` stands for, each call given by
/// its physical address, its virtual address and its rights.
pub open spec fn requests_of(calls: Seq<(mm::PAddr, mm::VAddr, mm::Permissions)>) -> Seq<Request> {
    Seq::new(calls.len(), |k: int| request(calls[k].0, calls[k].1, calls[k].2))
}

/// After any row of calls of `map`, the page of a call translates to what
/// that call mapped it to, if no later call is for the same page: the last
/// mapping of a page wins, and the mappings of other pages do not touch it.
pub proof fn lemma_last_mapping_wins(
    before: Mappings,
    calls: Seq<(mm::PAddr, mm::VAddr, mm::Permissions)>,
    i: int,
)
    requires
        0 <= i < calls.len(),
        forall|j: int| i < j < calls.len() ==> page_of(calls[j].1) != page_of(calls[i].1),
    ensures
        before.map_all(requests_of(calls)).translate(page_of(calls[i].1)) == Some(
            (
                mm::PAddr { addr: ((calls[i].0@ as u64) & 0x00ff_ffff_ffff_f000) as usize },
                mm::Permissions { bits: calls[i].2@ & 0x7 },
            ),
        ),
{
    lemma_page(calls[i].1@ as u64);
    lemma_mapping_bits(calls[i].0@ as u64, calls[i].2@);
    before.lemma_last_write_wins(requests_of(calls), i);
}

/// What an entry keeps of the address of a table: the entry that points to
/// the table at `addr` is valid and no leaf, and leads to bits 12 to 55 of
/// `addr`; so it leads to `addr` itself where that is the address of a page
/// below two to the power 56.
pub proof fn lemma_pointer_reads_back(addr: u64)
    ensures
        PageTableEntry::pointer(addr).valid(),
        !PageTableEntry::pointer(addr).leaf(),
        PageTableEntry::pointer(addr).target() == addr & 0x00ff_ffff_ffff_f000,
        addr % 4096 == 0 && addr < 0x100_0000_0000_0000 ==> PageTableEntry::pointer(addr).target()
            == addr,
{
    lemma_pointer_bits(addr);
    let bits = PageTableEntry::pointer(addr)@;
    assert(((bits >> 10) & 0xfff_ffff_ffff) << 12 == addr & 0x00ff_ffff_ffff_f000) by (bit_vector)
        requires
            bits == (((addr >> 12) & 0xfff_ffff_ffff) << 10) | PTE_V,
    ;
    assert(addr % 4096 == 0 && addr < 0x100_0000_0000_0000 ==> addr & 0x00ff_ffff_ffff_f000 == addr)
        by (bit_vector);
}

/// The fields of the entry made for a mapping.
proof fn lemma_mapping_bits(addr: u64, perms: u8)
    by (bit_vector)
    ensures
        ((((addr >> 12) & 0xfff_ffff_ffff) << 10) | (((perms & 0x7) as u64) << 1) | PTE_V) & PTE_V
            != 0,
        ((((((addr >> 12) & 0xfff_ffff_ffff) << 10) | (((perms & 0x7) as u64) << 1) | PTE_V) >> 10)
            & 0xfff_ffff_ffff) << 12 == addr & 0x00ff_ffff_ffff_f000,
        ((((((addr >> 12) & 0xfff_ffff_ffff) << 10) | (((perms & 0x7) as u64) << 1) | PTE_V) >> 1)
            & 0x7) as u8 == perms & 0x7,
{
}

impl Mappings {
    /// Which pages have a slot and which root entries a directory after
    /// `reqs` were met: those that had one before, and those that go the way
    /// of a request.
    pub proof fn lemma_map_all_domain(self, reqs: Seq<Request>)
        ensures
            forall|p: nat|
                #![trigger self.map_all(reqs).slots.contains_key(p)]
                self.map_all(reqs).slots.contains_key(p) <==> self.slots.contains_key(p) || (p
                    < PAGES && exists|j: int|
                    0 <= j < reqs.len() && (#[trigger] reqs[j]).page / 512 == p / 512),
            forall|d: nat|
                #![trigger self.map_all(reqs).dirs.contains(d)]
                self.map_all(reqs).dirs.contains(d) <==> self.dirs.contains(d) || exists|j: int|
                    0 <= j < reqs.len() && (#[trigger] reqs[j]).page / (DIR_SPAN as nat) == d,
        decreases reqs.len(),
    {
        if reqs.len() > 0 {
            let front = reqs.drop_last();
            let last = reqs.last();
            self.lemma_map_all_domain(front);
            assert forall|p: nat|
                #![trigger self.map_all(reqs).slots.contains_key(p)]
                self.map_all(reqs).slots.contains_key(p) <==> self.slots.contains_key(p) || (p
                    < PAGES && exists|j: int|
                    0 <= j < reqs.len() && (#[trigger] reqs[j]).page / 512 == p / 512) by {
                let after = self.map_all(front).map(last.page, last.entry);
                assert(self.map_all(reqs) == after);
                assert(after.slots.contains_key(p) <==> self.map_all(front).slots.contains_key(p)
                    || (p < PAGES && p / 512 == last.page / 512));
                if self.map_all(front).slots.contains_key(p) && !self.slots.contains_key(p) {
                    let j = choose|j: int|
                        0 <= j < front.len() && (#[trigger] front[j]).page / 512 == p / 512;
                    assert(reqs[j] == front[j]);
                    assert(reqs[j].page / 512 == p / 512);
                }
                if p < PAGES && last.page / 512 == p / 512 {
                    assert(reqs[reqs.len() - 1] == last);
                    assert(reqs[reqs.len() - 1].page / 512 == p / 512);
                }
                if p < PAGES && exists|j: int|
                    0 <= j < reqs.len() && (#[trigger] reqs[j]).page / 512 == p / 512 {
                    let j = choose|j: int|
                        0 <= j < reqs.len() && (#[trigger] reqs[j]).page / 512 == p / 512;
                    if j < front.len() {
                        assert(front[j] == reqs[j]);
                        assert(front[j].page / 512 == p / 512);
                        assert(self.map_all(front).slots.contains_key(p));
                    } else {
                        assert(reqs[j] == last);
                    }
                }
            }
            assert forall|d: nat|
                #![trigger self.map_all(reqs).dirs.contains(d)]
                self.map_all(reqs).dirs.contains(d) <==> self.dirs.contains(d) || exists|j: int|
                    0 <= j < reqs.len() && (#[trigger] reqs[j]).page / (DIR_SPAN as nat) == d by {
                let after = self.map_all(front).map(last.page, last.entry);
                assert(self.map_all(reqs) == after);
                assert(after.dirs.contains(d) <==> self.map_all(front).dirs.contains(d) || d
                    == last.page / (DIR_SPAN as nat));
                if self.map_all(front).dirs.contains(d) && !self.dirs.contains(d) {
                    let j = choose|j: int|
                        0 <= j < front.len() && (#[trigger] front[j]).page / (DIR_SPAN as nat) == d;
                    assert(reqs[j] == front[j]);
                    assert(reqs[j].page / (DIR_SPAN as nat) == d);
                }
                if last.page / (DIR_SPAN as nat) == d {
                    assert(reqs[reqs.len() - 1] == last);
                    assert(reqs[reqs.len() - 1].page / (DIR_SPAN as nat) == d);
                }
                if exists|j: int|
                    0 <= j < reqs.len() && (#[trigger] reqs[j]).page / (DIR_SPAN as nat) == d {
                    let j = choose|j: int|
                        0 <= j < reqs.len() && (#[trigger] reqs[j]).page / (DIR_SPAN as nat) == d;
                    if j < front.len() {
                        assert(front[j] == reqs[j]);
                        assert(front[j].page / (DIR_SPAN as nat) == d);
                        assert(self.map_all(front).dirs.contains(d));
                    } else {
                        assert(reqs[j] == last);
                    }
                }
            }
        }
    }

    /// How many tables a row of requests takes depends on their pages only,
    /// not on what is mapped there.
    pub proof fn lemma_missing_all_by_pages(self, a: Seq<Request>, b: Seq<Request>)
        requires
            a.len() == b.len(),
            forall|j: int| 0 <= j < a.len() ==> (#[trigger] a[j]).page == b[j].page,
        ensures
            self.missing_all(a) == self.missing_all(b),
            forall|p: nat| #[trigger] self.map_all(a).missing(p) == self.map_all(b).missing(p),
        decreases a.len(),
    {
        self.lemma_map_all_domain(a);
        self.lemma_map_all_domain(b);
        assert forall|p: nat| #[trigger]
            self.map_all(a).missing(p) == self.map_all(b).missing(p) by {
            let d = p / (DIR_SPAN as nat);
            if exists|j: int| 0 <= j < a.len() && (#[trigger] a[j]).page / 512 == p / 512 {
                let j = choose|j: int| 0 <= j < a.len() && (#[trigger] a[j]).page / 512 == p / 512;
                assert(b[j].page / 512 == p / 512);
            }
            if exists|j: int| 0 <= j < b.len() && (#[trigger] b[j]).page / 512 == p / 512 {
                let j = choose|j: int| 0 <= j < b.len() && (#[trigger] b[j]).page / 512 == p / 512;
                assert(a[j].page / 512 == p / 512);
            }
            if exists|j: int| 0 <= j < a.len() && (#[trigger] a[j]).page / (DIR_SPAN as nat) == d {
                let j = choose|j: int|
                    0 <= j < a.len() && (#[trigger] a[j]).page / (DIR_SPAN as nat) == d;
                assert(b[j].page / (DIR_SPAN as nat) == d);
            }
            if exists|j: int| 0 <= j < b.len() && (#[trigger] b[j]).page / (DIR_SPAN as nat) == d {
                let j = choose|j: int|
                    0 <= j < b.len() && (#[trigger] b[j]).page / (DIR_SPAN as nat) == d;
                assert(a[j].page / (DIR_SPAN as nat) == d);
            }
        }
        if a.len() > 0 {
            self.lemma_missing_all_by_pages(a.drop_last(), b.drop_last());
        }
    }
}

impl PageTable {
    /// The pages of one table of level 0 have their slots together, and a
    /// page with a slot has its directory.
    pub proof fn lemma_slots_go_together(self, p: nat, q: nat)
        requires
            self.inv(),
            p < PAGES,
            q < PAGES,
        ensures
            p / 512 == q / 512 ==> (self@.slots.contains_key(p) <==> self@.slots.contains_key(q)),
            self@.slots.contains_key(p) ==> self@.dirs.contains(p / (DIR_SPAN as nat)),
    {
        reveal_with_fuel(PageTable::slot, 3);
        self.lemma_tables(p);
        lemma_digits(p);
        lemma_digits(q);
    }
}

/// Whether a request of `reqs` is for a page in the range number `key` of
/// ranges of `span` pages.
pub open spec fn goes(reqs: Seq<Request>, key: nat, span: nat) -> bool {
    exists|j: int| 0 <= j < reqs.len() && (#[trigger] reqs[j]).page / span == key
}

/// Whether `key` is among `keys`.
pub open spec fn holds(keys: Seq<usize>, key: nat) -> bool {
    exists|i: int| 0 <= i < keys.len() && #[trigger] keys[i] == key
}

/// A reckoning of the tables that a row of mappings takes, made ahead of
/// the mappings and without a change to the address space.
pub struct Plan {
    tables: Vec<usize>,
    dirs: Vec<usize>,
    done: Ghost<Seq<Request>>,
}

impl Plan {
    /// The requests that were reckoned so far, in their order. What they
    /// map their pages to is left open: it does not tell on the tables.
    pub closed spec fn requests(self) -> Seq<Request> {
        self.done@
    }

    /// The invariant of a reckoning for the address space `space`: it
    /// keeps the tables that the requests so far take, and no others.
    pub closed spec fn wf(self, space: Mappings) -> bool {
        &&& forall|i: int|
            0 <= i < self.tables@.len() ==> goes(self.done@, (#[trigger] self.tables@[i]) as nat, 512)
        &&& forall|i: int|
            0 <= i < self.dirs@.len() ==> goes(
                self.done@,
                (#[trigger] self.dirs@[i]) as nat,
                DIR_SPAN as nat,
            )
        &&& forall|j: int|
            0 <= j < self.done@.len() ==> (#[trigger] self.done@[j]).page < PAGES && (
            space.slots.contains_key(self.done@[j].page) || holds(
                self.tables@,
                self.done@[j].page / 512,
            )) && (space.dirs.contains(self.done@[j].page / (DIR_SPAN as nat)) || holds(
                self.dirs@,
                self.done@[j].page / (DIR_SPAN as nat),
            ))
    }

    /// A reckoning of no request.
    pub fn new() -> (r: Plan)
        ensures
            r.requests() == Seq::<Request>::empty(),
            forall|space: Mappings| #[trigger] r.wf(space),
    {
        Plan { tables: Vec::new(), dirs: Vec::new(), done: Ghost(Seq::empty()) }
    }

    /// Reckons one more mapping, that of the page of `va` in the address
    /// space `pt` once the requests so far were met, and returns the number
    /// of tables that it takes.
    pub fn add(&mut self, pt: &PageTable, va: mm::VAddr) -> (r: usize)
        requires
            pt.inv(),
            old(self).wf(pt@),
        ensures
            final(self).wf(pt@),
            final(self).requests() == old(self).requests().push(
                Request { page: page_of(va), entry: PageTableEntry::zero() },
            ),
            r == pt@.map_all(old(self).requests()).missing(page_of(va)),
            r <= 2,
    {
        let before = pt.missing_tables(va);
        let address = usize::from(va) as u64;
        let page = ((address >> 12) & 0x7ff_ffff) as usize;
        let table = page / 512;
        let dir = page / DIR_SPAN;
        let ghost reqs = self.done@;
        let ghost last = Request { page: page_of(va), entry: PageTableEntry::zero() };
        proof {
            lemma_page(address);
            pt@.lemma_map_all_domain(reqs);
            lemma_digits(page as nat);
        }
        let has_table = before == 0 || has(&self.tables, table);
        let has_dir = before <= 1 || has(&self.dirs, dir);
        proof {
            let now = pt@.map_all(reqs);
            if now.slots.contains_key(page as nat) && !has_table {
                let j = choose|j: int|
                    0 <= j < reqs.len() && (#[trigger] reqs[j]).page / 512 == page as nat / 512;
                pt.lemma_slots_go_together(reqs[j].page, page as nat);
            }
            if has_table && before != 0 {
                let i = choose|i: int|
                    0 <= i < self.tables@.len() && #[trigger] self.tables@[i] == table as nat;
                assert(goes(reqs, self.tables@[i] as nat, 512));
            }
            if has_dir && before > 1 {
                let i = choose|i: int|
                    0 <= i < self.dirs@.len() && #[trigger] self.dirs@[i] == dir as nat;
                assert(goes(reqs, self.dirs@[i] as nat, DIR_SPAN as nat));
            }
            assert(has_table == now.slots.contains_key(page as nat));
            pt.lemma_slots_go_together(page as nat, page as nat);
            if now.dirs.contains(dir as nat) && !has_dir {
                let j = choose|j: int|
                    0 <= j < reqs.len() && (#[trigger] reqs[j]).page / (DIR_SPAN as nat)
                        == dir as nat;
                assert(pt@.dirs.contains(reqs[j].page / (DIR_SPAN as nat)) || holds(
                    self.dirs@,
                    reqs[j].page / (DIR_SPAN as nat),
                ));
            }
            assert(has_dir == now.dirs.contains(page as nat / (DIR_SPAN as nat)));
        }
        let ghost tables_before = self.tables@;
        let ghost dirs_before = self.dirs@;
        if !has_table {
            self.tables.push(table);
        }
        if !has_dir {
            self.dirs.push(dir);
        }
        self.done = Ghost(reqs.push(last));
        proof {
            let done = reqs.push(last);
            assert(done[reqs.len() as int] == last);
            assert forall|i: int| 0 <= i < self.tables@.len() implies goes(
                done,
                (#[trigger] self.tables@[i]) as nat,
                512,
            ) by {
                if i < tables_before.len() {
                    assert(self.tables@[i] == tables_before[i]);
                    assert(goes(reqs, tables_before[i] as nat, 512));
                    let j = choose|j: int|
                        0 <= j < reqs.len() && (#[trigger] reqs[j]).page / 512
                            == tables_before[i] as nat;
                    assert(done[j] == reqs[j]);
                } else {
                    assert(done[reqs.len() as int].page / 512 == table as nat);
                }
            }
            assert forall|i: int| 0 <= i < self.dirs@.len() implies goes(
                done,
                (#[trigger] self.dirs@[i]) as nat,
                DIR_SPAN as nat,
            ) by {
                if i < dirs_before.len() {
                    assert(self.dirs@[i] == dirs_before[i]);
                    assert(goes(reqs, dirs_before[i] as nat, DIR_SPAN as nat));
                    let j = choose|j: int|
                        0 <= j < reqs.len() && (#[trigger] reqs[j]).page / (DIR_SPAN as nat)
                            == dirs_before[i] as nat;
                    assert(done[j] == reqs[j]);
                } else {
                    assert(done[reqs.len() as int].page / (DIR_SPAN as nat) == dir as nat);
                }
            }
            assert forall|j: int| 0 <= j < done.len() implies (#[trigger] done[j]).page < PAGES && (
            pt@.slots.contains_key(done[j].page) || holds(self.tables@, done[j].page / 512)) && (
            pt@.dirs.contains(done[j].page / (DIR_SPAN as nat)) || holds(
                self.dirs@,
                done[j].page / (DIR_SPAN as nat),
            )) by {
                if j < reqs.len() {
                    assert(done[j] == reqs[j]);
                    if holds(tables_before, reqs[j].page / 512) {
                        let i = choose|i: int|
                            0 <= i < tables_before.len() && #[trigger] tables_before[i]
                                == reqs[j].page / 512;
                        assert(self.tables@[i] == tables_before[i]);
                    }
                    if holds(dirs_before, reqs[j].page / (DIR_SPAN as nat)) {
                        let i = choose|i: int|
                            0 <= i < dirs_before.len() && #[trigger] dirs_before[i] == reqs[j].page
                                / (DIR_SPAN as nat);
                        assert(self.dirs@[i] == dirs_before[i]);
                    }
                } else {
                    pt.lemma_slots_go_together(page as nat, page as nat);
                    if before != 0 {
                        if has_table {
                            let i = choose|i: int|
                                0 <= i < tables_before.len() && #[trigger] tables_before[i]
                                    == table as nat;
                            assert(self.tables@[i] == tables_before[i]);
                        } else {
                            assert(self.tables@[tables_before.len() as int] == table);
                        }
                    }
                    if before > 1 {
                        if has_dir {
                            let i = choose|i: int|
                                0 <= i < dirs_before.len() && #[trigger] dirs_before[i]
                                    == dir as nat;
                            assert(self.dirs@[i] == dirs_before[i]);
                        } else {
                            assert(self.dirs@[dirs_before.len() as int] == dir);
                        }
                    }
                }
            }
        }
        if has_table {
            0
        } else if has_dir {
            1
        } else {
            2
        }
    }
}

/// Whether `key` is among `keys`.
fn has(keys: &Vec<usize>, key: usize) -> (r: bool)
    ensures
        r == holds(keys@, key as nat),
{
    let mut i: usize = 0;
    while i < keys.len()
        invariant
            i <= keys@.len(),
            forall|k: int| 0 <= k < i ==> #[trigger] keys@[k] != key,
        decreases keys@.len() - i,
    {
        if keys[i] == key {
            return true;
        }
        i = i + 1;
    }
    false
}

/// Whether the list `tables` of tables, each with its address and its
/// words, has the table at `addr` with the word `word` as its entry number
/// `index`.
pub open spec fn listed(tables: Seq<(u64, Seq<u64>)>, addr: u64, index: nat, word: u64) -> bool {
    exists|k: int|
        0 <= k < tables.len() && (#[trigger] tables[k]).0 == addr && tables[k].1.len() == 512
            && tables[k].1[index as int] == word
}

/// What a list of tables holds, as plain values.
pub open spec fn images(tables: Seq<(u64, Vec<u64>)>) -> Seq<(u64, Seq<u64>)> {
    Seq::new(tables.len(), |k: int| (tables[k].0, tables[k].1@))
}

impl PageTable {
    /// The 512 words of this table as the hardware reads them.
    spec fn words(self) -> Seq<u64> {
        Seq::new(512, |i: int| self.entries@[i]@)
    }

    /// This table of `level` and the tables below it, each with its address
    /// and its words: a table stands before those below it, and these in
    /// the order of its entries.
    spec fn dump(self, level: nat) -> Seq<(u64, Seq<u64>)>
        decreases level, 1nat, 0nat,
    {
        seq![(self.addr, self.words())] + self.dump_below(level, 512)
    }

    /// The tables below the first `upto` entries of this table of `level`.
    spec fn dump_below(self, level: nat, upto: nat) -> Seq<(u64, Seq<u64>)>
        decreases level, 0nat, upto,
    {
        if level == 0 || upto == 0 {
            Seq::empty()
        } else {
            self.dump_below(level, (upto - 1) as nat) + match self.children@[upto - 1] {
                Some(c) => c.dump((level - 1) as nat),
                None => Seq::empty(),
            }
        }
    }

    /// All the tables of this address space, the root first, each with its
    /// address and its 512 words as the hardware reads them.
    pub closed spec fn all_tables(self) -> Seq<(u64, Seq<u64>)> {
        self.dump(2)
    }

    /// What is listed for the table below entry `idx` is listed for the
    /// tables below the first `upto` entries, where `idx` is among them.
    proof fn lemma_below_lists(
        self,
        level: nat,
        upto: nat,
        idx: nat,
        addr: u64,
        index: nat,
        word: u64,
    )
        requires
            level > 0,
            idx < upto,
            self.children@[idx as int] is Some,
            listed(self.children@[idx as int].unwrap().dump((level - 1) as nat), addr, index, word),
        ensures
            listed(self.dump_below(level, upto), addr, index, word),
        decreases upto,
    {
        let front = self.dump_below(level, (upto - 1) as nat);
        let all = self.dump_below(level, upto);
        if idx == upto - 1 {
            let part = self.children@[idx as int].unwrap().dump((level - 1) as nat);
            let k = choose|k: int|
                0 <= k < part.len() && (#[trigger] part[k]).0 == addr && part[k].1.len() == 512
                    && part[k].1[index as int] == word;
            assert(all[front.len() + k] == part[k]);
        } else {
            self.lemma_below_lists(level, (upto - 1) as nat, idx, addr, index, word);
            let k = choose|k: int|
                0 <= k < front.len() && (#[trigger] front[k]).0 == addr && front[k].1.len() == 512
                    && front[k].1[index as int] == word;
            assert(all[k] == front[k]);
        }
    }

    /// The table that a walk reaches is listed, with the entry that leads
    /// on.
    proof fn lemma_lists(self, level: nat, depth: nat, page: nat)
        requires
            self.wf_at(level),
            depth <= level,
            self.table_at(level, depth, page) is Some,
        ensures
            self.entry_at(level, depth, page) is Some,
            listed(
                self.dump(level),
                self.table_at(level, depth, page).unwrap(),
                index_of(page, (level - depth) as nat),
                self.entry_at(level, depth, page).unwrap()@,
            ),
        decreases depth,
    {
        let all = self.dump(level);
        if depth == 0 {
            assert(all[0] == (self.addr, self.words()));
        } else {
            let idx = index_of(page, level);
            let child = self.children@[idx as int].unwrap();
            child.lemma_lists((level - 1) as nat, (depth - 1) as nat, page);
            let addr = self.table_at(level, depth, page).unwrap();
            let index = index_of(page, (level - depth) as nat);
            let word = self.entry_at(level, depth, page).unwrap()@;
            self.lemma_below_lists(level, 512, idx, addr, index, word);
            let below = self.dump_below(level, 512);
            let k = choose|k: int|
                0 <= k < below.len() && (#[trigger] below[k]).0 == addr && below[k].1.len() == 512
                    && below[k].1[index as int] == word;
            assert(all[1 + k] == below[k]);
        }
    }

    /// Every table on the way to a page is among `all_tables`, with the
    /// entry that the hardware reads in it for that page; and the root is
    /// the first of them.
    pub proof fn lemma_tables_listed(self, level: nat, page: nat)
        requires
            self.inv(),
            level <= 2,
            self.table_address(level, page) is Some,
        ensures
            self.table_entry(level, page) is Some,
            listed(
                self.all_tables(),
                self.table_address(level, page).unwrap(),
                index_of(page, level),
                self.table_entry(level, page).unwrap()@,
            ),
            self.all_tables().len() > 0,
            self.all_tables()[0].0 == self.address(),
    {
        self.lemma_lists(2, (2 - level) as nat, page);
    }

    /// Adds to `out` this table of `level` and the tables below it.
    fn dump_into(&self, level: usize, out: &mut Vec<(u64, Vec<u64>)>)
        requires
            level <= 2,
            self.wf_at(level as nat),
        ensures
            images(final(out)@) == images(old(out)@) + self.dump(level as nat),
        decreases level,
    {
        let mut words: Vec<u64> = Vec::new();
        let mut i: usize = 0;
        while i < ENTRIES
            invariant
                i <= ENTRIES,
                self.entries@.len() == 512,
                words@.len() == i,
                forall|k: int| 0 <= k < i ==> #[trigger] words@[k] == self.entries@[k]@,
            decreases ENTRIES - i,
        {
            words.push(self.entries[i].bits());
            i = i + 1;
        }
        proof {
            assert(words@ =~= self.words());
        }
        out.push((self.addr, words));
        let ghost head = images(old(out)@) + seq![(self.addr, self.words())];
        proof {
            assert(images(out@) =~= head);
            assert(head + self.dump_below(level as nat, 0) =~= head);
        }
        if level > 0 {
            let mut i: usize = 0;
            while i < ENTRIES
                invariant
                    i <= ENTRIES,
                    0 < level <= 2,
                    self.wf_at(level as nat),
                    images(out@) == head + self.dump_below(level as nat, i as nat),
                decreases ENTRIES - i,
            {
                let ghost before = images(out@);
                match &self.children[i] {
                    Some(child) => {
                        child.dump_into(level - 1, out);
                    },
                    None => {},
                }
                proof {
                    let more = match self.children@[i as int] {
                        Some(c) => c.dump((level - 1) as nat),
                        None => Seq::empty(),
                    };
                    assert(images(out@) =~= before + more);
                    assert(head + self.dump_below(level as nat, (i + 1) as nat) =~= before + more);
                }
                i = i + 1;
            }
        }
        proof {
            assert(images(old(out)@) + self.dump(level as nat) =~= head + self.dump_below(
                level as nat,
                512,
            ));
            if level == 0 {
                assert(self.dump_below(0, 512) =~= self.dump_below(0, 0));
            }
        }
    }

    /// All the tables of this address space, the root first, each with its
    /// address and its 512 words as the hardware reads them. Nothing is
    /// changed.
    pub fn tables(&self) -> (r: Vec<(u64, Vec<u64>)>)
        requires
            self.inv(),
        ensures
            images(r@) == self.all_tables(),
    {
        let mut out: Vec<(u64, Vec<u64>)> = Vec::new();
        self.dump_into(2, &mut out);
        proof {
            assert(images(Seq::<(u64, Vec<u64>)>::empty()) + self.dump(2) =~= self.dump(2));
        }
        out
    }
}

} // verus!
