//! The contract between the kernel and the paging backend of an
//! architecture.

use crate::mm;
use crate::mm::PhysicalMemoryManager;
use core::num::TryFromIntError;
use vstd::arithmetic::power2::{lemma_pow2_pos, pow2};
use vstd::bits::{lemma_usize_low_bits_mask_is_mod, low_bits_mask};
use vstd::prelude::*;
use vstd::std_specs::convert::FromSpecImpl;

verus! {

/// What can go wrong while an address space is changed.
#[derive(Debug)]
pub enum Error {
    /// A table on the way to the page is missing, and the call may not
    /// allocate one.
    CannotMapNoAlloc,
    /// An address does not fit the integer type that the backend needs.
    InvalidConversion(TryFromIntError),
}

impl From<TryFromIntError> for Error {
    fn from(tfie: TryFromIntError) -> (r: Error) {
        Self::InvalidConversion(tfie)
    }
}

impl FromSpecImpl<TryFromIntError> for Error {
    open spec fn obeys_from_spec() -> bool {
        true
    }

    open spec fn from_spec(tfie: TryFromIntError) -> Error {
        Error::InvalidConversion(tfie)
    }
}

/// `addr` rounded down to a multiple of `page_size`.
pub open spec fn floor(addr: int, page_size: int) -> int {
    addr - addr % page_size
}

/// `addr` rounded up to a multiple of `page_size`.
pub open spec fn ceiling(addr: int, page_size: int) -> int {
    ((addr + page_size - 1) / page_size) * page_size
}

/// Rounding down gives the start of the page that an address lies in, and
/// an address that was rounded up lies on a page boundary: rounding it down
/// changes nothing.
pub proof fn lemma_alignment(addr: int, page_size: int)
    requires
        page_size > 0,
    ensures
        floor(addr, page_size) <= addr < floor(addr, page_size) + page_size,
        floor(ceiling(addr, page_size), page_size) == ceiling(addr, page_size),
{
    vstd::arithmetic::div_mod::lemma_mod_multiples_basic(
        (addr + page_size - 1) / page_size,
        page_size,
    );
    vstd::arithmetic::div_mod::lemma_mod_bound(addr, page_size);
}

/// An address space that the kernel can fill page by page, whatever the
/// architecture's tables look like.
pub trait PagingImpl: Sized {
    /// The invariant of the address space.
    spec fn wf(&self) -> bool;

    /// The number of tables that are missing on the way to the page of `va`,
    /// and that a mapping of it has to allocate first.
    spec fn missing(&self, va: mm::VAddr) -> nat;

    /// The physical address and the rights that `va` translates to; `None`
    /// where its page has no valid mapping.
    spec fn translation(&self, va: mm::VAddr) -> Option<(mm::PAddr, mm::Permissions)>;

    /// Whether `a` and `b` lie in the same page.
    spec fn same_page(a: mm::VAddr, b: mm::VAddr) -> bool;

    /// What a lookup returns of a page that was mapped to `pa` with `perms`:
    /// the part of the address and of the rights that the architecture
    /// keeps.
    spec fn kept(pa: mm::PAddr, perms: mm::Permissions) -> (mm::PAddr, mm::Permissions);

    /// A fresh address space with nothing mapped, its root table in a page
    /// taken from `mm`.
    fn new(mm: &mut PhysicalMemoryManager) -> (r: Self)
        requires
            old(mm).wf(),
            old(mm)@.free() >= 1,
        ensures
            r.wf(),
            final(mm).wf(),
            final(mm)@ == old(mm)@.take(1),
            forall|v: mm::VAddr| #[trigger] r.translation(v) is None,
    ;

    /// The number of address bits that select a byte within a page.
    spec fn page_bits() -> nat;

    /// The size of a page in bytes: two to the power of `page_bits()`.
    fn get_page_size() -> (r: usize)
        ensures
            r == pow2(Self::page_bits()),
            Self::page_bits() < usize::BITS,
    ;

    /// The highest virtual address that the architecture has.
    spec fn uppermost_address() -> usize;

    /// The highest virtual address that the architecture has.
    fn get_uppermost_address() -> (r: usize)
        ensures
            r == Self::uppermost_address(),
    ;

    /// `addr` rounded down to a page boundary.
    fn align_down(addr: usize) -> (r: usize)
        ensures
            r == floor(addr as int, pow2(Self::page_bits()) as int),
    {
        let page_size = Self::get_page_size();
        proof {
            lemma_pow2_pos(Self::page_bits());
        }
        let page_mask = !(page_size - 1);
        proof {
            lemma_usize_low_bits_mask_is_mod(addr, Self::page_bits());
            let low = (page_size - 1) as usize;
            assert(low == low_bits_mask(Self::page_bits()));
            assert(addr & !low == addr - (addr & low)) by (bit_vector);
        }
        addr & page_mask
    }

    /// `addr` rounded up to a page boundary.
    fn align_up(addr: usize) -> (r: usize)
        requires
            addr + pow2(Self::page_bits()) - 1 <= usize::MAX,
        ensures
            r == ceiling(addr as int, pow2(Self::page_bits()) as int),
    {
        let page_size = Self::get_page_size();
        proof {
            lemma_pow2_pos(Self::page_bits());
            assert(page_size > 0);
            let q = (addr + page_size - 1) / (page_size as int);
            assert(q * page_size <= addr + page_size - 1) by (nonlinear_arith)
                requires
                    page_size > 0,
                    q == (addr + page_size - 1) / (page_size as int),
            ;
        }
        ((addr + (page_size - 1)) / page_size) * page_size
    }

    /// Maps the page of `va` to the page of `pa` with the rights `perms`,
    /// and takes from `mm` a page for every table that is missing on the
    /// way. It does not fail: the caller sees to it that `mm` has the pages.
    fn map(
        &mut self,
        mm: &mut PhysicalMemoryManager,
        pa: mm::PAddr,
        va: mm::VAddr,
        perms: mm::Permissions,
    ) -> (r: Result<(), Error>)
        requires
            old(self).wf(),
            old(mm).wf(),
            old(mm)@.free() >= old(self).missing(va),
        ensures
            r is Ok,
            final(self).wf(),
            final(mm).wf(),
            final(mm)@ == old(mm)@.take(old(self).missing(va) as int),
            final(self).missing(va) == 0,
            forall|v: mm::VAddr| #[trigger] final(self).missing(v) <= old(self).missing(v),
            forall|v: mm::VAddr| #[trigger]
                final(self).translation(v) == if Self::same_page(v, va) {
                    Some(Self::kept(pa, perms))
                } else {
                    old(self).translation(v)
                },
    ;

    /// Maps the page of `va` as `map` does where no table is missing on the
    /// way; where one is, fails with `CannotMapNoAlloc`. Either way no table
    /// is made.
    fn map_noalloc(&mut self, pa: mm::PAddr, va: mm::VAddr, perms: mm::Permissions) -> (r: Result<
        (),
        Error,
    >)
        requires
            old(self).wf(),
        ensures
            final(self).wf(),
            r is Ok <==> old(self).missing(va) == 0,
            r matches Err(e) ==> e == Error::CannotMapNoAlloc,
            forall|v: mm::VAddr| #[trigger] final(self).missing(v) == old(self).missing(v),
            forall|v: mm::VAddr| #[trigger]
                final(self).translation(v) == if r is Ok && Self::same_page(v, va) {
                    Some(Self::kept(pa, perms))
                } else {
                    old(self).translation(v)
                },
    ;

    /// Makes the tables on the way to the page of `vaddr` as `map` does,
    /// and leaves the page itself without a valid mapping.
    fn add_invalid_entry(&mut self, mm: &mut PhysicalMemoryManager, vaddr: mm::VAddr) -> (r:
        Result<(), Error>)
        requires
            old(self).wf(),
            old(mm).wf(),
            old(mm)@.free() >= old(self).missing(vaddr),
        ensures
            r is Ok,
            final(self).wf(),
            final(mm).wf(),
            final(mm)@ == old(mm)@.take(old(self).missing(vaddr) as int),
            final(self).missing(vaddr) == 0,
            forall|v: mm::VAddr| #[trigger] final(self).missing(v) <= old(self).missing(v),
            forall|v: mm::VAddr| #[trigger]
                final(self).translation(v) == if Self::same_page(v, vaddr) {
                    None
                } else {
                    old(self).translation(v)
                },
    ;

    /// Whether the hardware can take this address space as its active one.
    spec fn loadable(&self) -> bool;

    /// The value that, written to the register that controls translation,
    /// makes this address space the active one. The caller writes it and
    /// flushes the translation cache.
    fn reload(&mut self) -> (r: u64)
        requires
            old(self).wf(),
            old(self).loadable(),
        ensures
            *final(self) == *old(self),
    ;

    /// The value that, written to the register that controls translation,
    /// switches translation off. The caller writes it and flushes the
    /// translation cache.
    fn disable(&mut self) -> (r: u64)
        ensures
            *final(self) == *old(self),
    ;
}

} // verus!
