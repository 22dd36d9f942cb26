//! Architecture-independent memory types: access rights and the generic
//! address wrappers that the rest of the kernel hands to a paging backend.

pub mod physical_memory_manager;

pub use physical_memory_manager::PhysicalMemoryManager;
use crate::arch::riscv64::sv39::{
    page_of, request, Mappings, PageTableEntry, Plan, Request, SATP_SV39,
};
use crate::arch::MemoryImpl;
use crate::device_tree::DeviceTree;
use crate::paging::{ceiling, PagingImpl};
use vstd::prelude::*;
use vstd::std_specs::convert::FromSpecImpl;
use vstd::std_specs::ops::BitOrSpecImpl;

verus! {

/// Bit of [`Permissions`] that allows loads.
pub const READ: u8 = 0b0000_0001;

/// Bit of [`Permissions`] that allows stores.
pub const WRITE: u8 = 0b0000_0010;

/// Bit of [`Permissions`] that allows instruction fetches.
pub const EXECUTE: u8 = 0b0000_0100;

/// Bit of [`Permissions`] that marks a mapping as belonging to user space.
pub const USER: u8 = 0b0000_1000;

/// Access rights of a mapping: a set of the flags `READ`, `WRITE`, `EXECUTE`
/// and `USER`, packed in one byte.
#[derive(Clone, Copy, Debug)]
pub struct Permissions {
    pub bits: u8,
}

impl View for Permissions {
    type V = u8;

    open spec fn view(&self) -> u8 {
        self.bits
    }
}

impl Permissions {
    /// The empty set of rights.
    pub fn empty() -> (r: Permissions)
        ensures
            r@ == 0,
    {
        Permissions { bits: 0 }
    }

    /// The right to load.
    pub fn read() -> (r: Permissions)
        ensures
            r@ == READ,
    {
        Permissions { bits: READ }
    }

    /// The right to store.
    pub fn write() -> (r: Permissions)
        ensures
            r@ == WRITE,
    {
        Permissions { bits: WRITE }
    }

    /// The right to fetch instructions.
    pub fn execute() -> (r: Permissions)
        ensures
            r@ == EXECUTE,
    {
        Permissions { bits: EXECUTE }
    }

    /// The mark of a user-space mapping.
    pub fn user() -> (r: Permissions)
        ensures
            r@ == USER,
    {
        Permissions { bits: USER }
    }

    /// The flags as a byte.
    pub fn bits(&self) -> (r: u8)
        ensures
            r == self@,
    {
        self.bits
    }

    /// Whether every flag of `other` is also a flag of `self`.
    pub open spec fn spec_contains(&self, other: Permissions) -> bool {
        self@ & other@ == other@
    }

    /// Whether every flag of `other` is also a flag of `self`.
    #[verifier::when_used_as_spec(spec_contains)]
    pub fn contains(&self, other: Permissions) -> (r: bool)
        ensures
            r == self.spec_contains(other),
    {
        self.bits & other.bits == other.bits
    }

    /// The flags of `self` together with those of `other`.
    pub fn union(self, other: Permissions) -> (r: Permissions)
        ensures
            r@ == self@ | other@,
    {
        Permissions { bits: self.bits | other.bits }
    }
}

impl PartialEq for Permissions {
    fn eq(&self, other: &Permissions) -> (r: bool) {
        self.bits == other.bits
    }
}

impl Eq for Permissions {

}

impl vstd::std_specs::cmp::PartialEqSpecImpl for Permissions {
    open spec fn obeys_eq_spec() -> bool {
        true
    }

    open spec fn eq_spec(&self, other: &Permissions) -> bool {
        self.bits == other.bits
    }
}

impl core::ops::BitOr for Permissions {
    type Output = Permissions;

    fn bitor(self, rhs: Permissions) -> (r: Permissions) {
        Permissions { bits: self.bits | rhs.bits }
    }
}

impl BitOrSpecImpl for Permissions {
    open spec fn obeys_bitor_spec() -> bool {
        true
    }

    open spec fn bitor_req(self, rhs: Permissions) -> bool {
        true
    }

    open spec fn bitor_spec(self, rhs: Permissions) -> Permissions {
        Permissions { bits: self.bits | rhs.bits }
    }
}

/// A virtual address as the kernel passes it around, before any backend has
/// brought it into the form its hardware wants.
#[derive(Clone, Copy, Debug)]
pub struct VAddr {
    pub addr: usize,
}

impl View for VAddr {
    type V = usize;

    open spec fn view(&self) -> usize {
        self.addr
    }
}

impl From<usize> for VAddr {
    fn from(val: usize) -> (r: VAddr) {
        VAddr { addr: val }
    }
}

impl FromSpecImpl<usize> for VAddr {
    open spec fn obeys_from_spec() -> bool {
        true
    }

    open spec fn from_spec(val: usize) -> VAddr {
        VAddr { addr: val }
    }
}

impl From<VAddr> for usize {
    fn from(val: VAddr) -> (r: usize) {
        val.addr
    }
}

impl FromSpecImpl<VAddr> for usize {
    open spec fn obeys_from_spec() -> bool {
        true
    }

    open spec fn from_spec(val: VAddr) -> usize {
        val.addr
    }
}

/// A physical address as the kernel passes it around.
#[derive(Clone, Copy, Debug)]
pub struct PAddr {
    pub addr: usize,
}

impl View for PAddr {
    type V = usize;

    open spec fn view(&self) -> usize {
        self.addr
    }
}

impl From<usize> for PAddr {
    fn from(val: usize) -> (r: PAddr) {
        PAddr { addr: val }
    }
}

impl FromSpecImpl<usize> for PAddr {
    open spec fn obeys_from_spec() -> bool {
        true
    }

    open spec fn from_spec(val: usize) -> PAddr {
        PAddr { addr: val }
    }
}

impl From<PAddr> for usize {
    fn from(val: PAddr) -> (r: usize) {
        val.addr
    }
}

impl FromSpecImpl<PAddr> for usize {
    open spec fn obeys_from_spec() -> bool {
        true
    }

    open spec fn from_spec(val: PAddr) -> usize {
        val.addr
    }
}

/// Whether the page at `base` lies in the kernel's own image, which starts
/// at `kernel_start` and ends before `kernel_end`.
pub fn is_kernel_page(base: usize, kernel_start: usize, kernel_end: usize) -> (r: bool)
    ensures
        r == (kernel_start <= base < kernel_end),
{
    base >= kernel_start && base < kernel_end
}

/// Whether `base` lies in the region that starts at `region.0` and has
/// `region.1` bytes, its two ends included.
pub open spec fn in_region(base: usize, region: (usize, usize)) -> bool {
    region.0 <= base <= region.0 + region.1
}

/// Whether the page at `base` lies in a region of memory that the device
/// tree reserves.
pub fn is_reserved_page(base: usize, device_tree: &DeviceTree) -> (r: bool)
    ensures
        r == exists|i: int|
            0 <= i < device_tree.reserved@.len() && in_region(
                base,
                #[trigger] device_tree.reserved@[i],
            ),
{
    let regions = device_tree.reserved_memory_regions();
    let mut is_res = false;
    let mut i: usize = 0;
    while i < regions.len()
        invariant
            i <= regions@.len(),
            regions@ == device_tree.reserved@,
            is_res == exists|j: int| 0 <= j < i && in_region(base, #[trigger] regions@[j]),
        decreases regions@.len() - i,
    {
        let (region_start, region_size) = regions[i];
        if base >= region_start && base - region_start <= region_size {
            is_res = true;
        }
        i = i + 1;
    }
    is_res
}

/// The number of addresses from `start` on, `step` apart, that lie before
/// `end`.
pub open spec fn steps(start: int, end: int, step: int) -> nat {
    if end <= start {
        0
    } else {
        ((end - start - 1) / step + 1) as nat
    }
}

/// The requests that map a run of `count` pages with `perms`: the pages of
/// the virtual addresses from `va` on, `step` apart, to those of the
/// physical addresses from `pa` on, `step` apart, in order.
pub open spec fn run_requests(pa: usize, va: usize, count: nat, step: usize, perms: Permissions) -> Seq<
    Request,
> {
    Seq::new(
        count,
        |k: int|
            request(
                PAddr { addr: (pa + k * step) as usize },
                VAddr { addr: (va + k * step) as usize },
                perms,
            ),
    )
}

/// The requests that map `count` pages onto themselves with `perms`: the
/// pages of the addresses from `start` on, `step` apart.
pub open spec fn identity_requests(start: usize, count: nat, step: usize, perms: Permissions) -> Seq<
    Request,
> {
    run_requests(start, start, count, step, perms)
}

/// The requests that map the pages at the addresses `pages` onto
/// themselves with `perms`.
pub open spec fn page_requests(pages: Seq<usize>, perms: Permissions) -> Seq<Request> {
    Seq::new(
        pages.len(),
        |k: int| request(PAddr { addr: pages[k] }, VAddr { addr: pages[k] }, perms),
    )
}

/// The requests that map the device ranges `ranges`, each given by its first
/// address and its length, onto themselves for reading and writing, in
/// steps of `step` bytes.
pub open spec fn device_requests(ranges: Seq<(usize, usize)>, step: usize) -> Seq<Request>
    decreases ranges.len(),
{
    if ranges.len() == 0 {
        Seq::empty()
    } else {
        device_requests(ranges.drop_last(), step) + identity_requests(
            ranges.last().0,
            steps(ranges.last().0 as int, ranges.last().0 + ranges.last().1, step as int),
            step,
            Permissions { bits: READ | WRITE },
        )
    }
}

/// The requests that set up the kernel's address space: its own image,
/// from `kernel_start` to `kernel_end` rounded up to a page, for reading,
/// writing and executing; then the pages `metadata` of the allocator's
/// bookkeeping and the device ranges `devices` for reading and writing. All
/// are mapped onto themselves.
pub open spec fn address_space_requests(
    kernel_start: usize,
    kernel_end: usize,
    page_size: usize,
    metadata: Seq<usize>,
    devices: Seq<(usize, usize)>,
) -> Seq<Request> {
    identity_requests(
        kernel_start,
        steps(kernel_start as int, ceiling(kernel_end as int, page_size as int), page_size as int),
        page_size,
        Permissions { bits: READ | WRITE | EXECUTE },
    ) + page_requests(metadata, Permissions { bits: READ | WRITE }) + device_requests(
        devices,
        page_size,
    )
}

/// Maps a run of `count` pages with `perms`: the pages of the virtual
/// addresses from `va` on, `step` apart, to those of the physical addresses
/// from `pa` on, `step` apart, in order.
pub fn map_run(
    page_table: &mut MemoryImpl,
    pmm: &mut PhysicalMemoryManager,
    pa: usize,
    va: usize,
    count: usize,
    step: usize,
    perms: Permissions,
)
    requires
        old(page_table).wf(),
        old(pmm).wf(),
        count > 0 ==> pa + (count - 1) * step <= usize::MAX && va + (count - 1) * step
            <= usize::MAX,
        old(pmm)@.free() >= old(page_table)@.missing_all(
            run_requests(pa, va, count as nat, step, perms),
        ),
    ensures
        final(page_table).wf(),
        final(pmm).wf(),
        final(page_table).address() == old(page_table).address(),
        final(page_table)@ == old(page_table)@.map_all(
            run_requests(pa, va, count as nat, step, perms),
        ),
        final(pmm)@ == old(pmm)@.take(
            old(page_table)@.missing_all(run_requests(pa, va, count as nat, step, perms)) as int,
        ),
{
    let ghost reqs = run_requests(pa, va, count as nat, step, perms);
    let mut k: usize = 0;
    proof {
        assert(reqs.take(0) =~= Seq::empty());
    }
    while k < count
        invariant
            k <= count,
            count > 0 ==> pa + (count - 1) * step <= usize::MAX && va + (count - 1) * step
                <= usize::MAX,
            reqs == run_requests(pa, va, count as nat, step, perms),
            page_table.wf(),
            pmm.wf(),
            page_table.address() == old(page_table).address(),
            old(pmm)@.free() >= old(page_table)@.missing_all(reqs),
            page_table@ == old(page_table)@.map_all(reqs.take(k as int)),
            pmm@ == old(pmm)@.take(old(page_table)@.missing_all(reqs.take(k as int)) as int),
        decreases count - k,
    {
        proof {
            assert(k * step <= (count - 1) * step) by (nonlinear_arith)
                requires
                    0 <= k <= count - 1,
                    step >= 0,
            ;
            old(page_table)@.lemma_map_all_push(reqs.take(k as int), reqs[k as int]);
            assert(reqs.take(k as int).push(reqs[k as int]) =~= reqs.take(k + 1));
            old(page_table)@.lemma_missing_all_prefix(reqs, k + 1);
        }
        let page_offset = k * step;
        let _ = page_table.map(
            pmm,
            PAddr::from(pa + page_offset),
            VAddr::from(va + page_offset),
            perms,
        );
        k = k + 1;
    }
    proof {
        assert(reqs.take(count as int) =~= reqs);
    }
}

/// Maps the pages of the addresses from `start` on, `step` apart and
/// before `end`, onto themselves with `perms`.
fn map_range(
    page_table: &mut MemoryImpl,
    pmm: &mut PhysicalMemoryManager,
    start: usize,
    end: usize,
    step: usize,
    perms: Permissions,
)
    requires
        old(page_table).wf(),
        old(pmm).wf(),
        step > 0,
        old(pmm)@.free() >= old(page_table)@.missing_all(
            identity_requests(start, steps(start as int, end as int, step as int), step, perms),
        ),
    ensures
        final(page_table).wf(),
        final(pmm).wf(),
        final(page_table).address() == old(page_table).address(),
        final(page_table)@ == old(page_table)@.map_all(
            identity_requests(start, steps(start as int, end as int, step as int), step, perms),
        ),
        final(pmm)@ == old(pmm)@.take(
            old(page_table)@.missing_all(
                identity_requests(start, steps(start as int, end as int, step as int), step, perms),
            ) as int,
        ),
{
    if end <= start {
        assert(identity_requests(start, 0, step, perms) =~= Seq::empty());
        return ;
    }
    let count = (end - start - 1) / step + 1;
    proof {
        let q = (end - start - 1) / (step as int);
        assert(q * step <= end - start - 1) by (nonlinear_arith)
            requires
                step > 0,
                q == (end - start - 1) / (step as int),
                end - start - 1 >= 0,
        ;
    }
    map_run(page_table, pmm, start, start, count, step, perms);
}

/// Maps the pages at the addresses `pages` onto themselves with `perms`.
fn map_pages(
    page_table: &mut MemoryImpl,
    pmm: &mut PhysicalMemoryManager,
    pages: &Vec<usize>,
    perms: Permissions,
)
    requires
        old(page_table).wf(),
        old(pmm).wf(),
        old(pmm)@.free() >= old(page_table)@.missing_all(page_requests(pages@, perms)),
    ensures
        final(page_table).wf(),
        final(pmm).wf(),
        final(page_table).address() == old(page_table).address(),
        final(page_table)@ == old(page_table)@.map_all(page_requests(pages@, perms)),
        final(pmm)@ == old(pmm)@.take(
            old(page_table)@.missing_all(page_requests(pages@, perms)) as int,
        ),
{
    let ghost reqs = page_requests(pages@, perms);
    let mut k: usize = 0;
    proof {
        assert(reqs.take(0) =~= Seq::empty());
    }
    while k < pages.len()
        invariant
            k <= pages@.len(),
            reqs == page_requests(pages@, perms),
            page_table.wf(),
            pmm.wf(),
            page_table.address() == old(page_table).address(),
            old(pmm)@.free() >= old(page_table)@.missing_all(reqs),
            page_table@ == old(page_table)@.map_all(reqs.take(k as int)),
            pmm@ == old(pmm)@.take(old(page_table)@.missing_all(reqs.take(k as int)) as int),
        decreases pages@.len() - k,
    {
        proof {
            old(page_table)@.lemma_map_all_push(reqs.take(k as int), reqs[k as int]);
            assert(reqs.take(k as int).push(reqs[k as int]) =~= reqs.take(k + 1));
            old(page_table)@.lemma_missing_all_prefix(reqs, k + 1);
        }
        let page = pages[k];
        let _ = page_table.map(pmm, PAddr::from(page), VAddr::from(page), perms);
        k = k + 1;
    }
    proof {
        assert(reqs.take(pages@.len() as int) =~= reqs);
    }
}

/// Maps the kernel's own image onto itself for reading, writing and
/// executing: the kernel runs from it and works on its own data in it. The
/// image starts at `kernel_start` and ends before `kernel_end`.
fn map_kernel_rwx(
    mm: &mut MemoryImpl,
    pmm: &mut PhysicalMemoryManager,
    page_size: usize,
    kernel_start: usize,
    kernel_end: usize,
)
    requires
        old(mm).wf(),
        old(pmm).wf(),
        page_size > 0,
        kernel_end + page_size - 1 <= usize::MAX,
        old(pmm)@.free() >= old(mm)@.missing_all(
            identity_requests(
                kernel_start,
                steps(
                    kernel_start as int,
                    ceiling(kernel_end as int, page_size as int),
                    page_size as int,
                ),
                page_size,
                Permissions { bits: READ | WRITE | EXECUTE },
            ),
        ),
    ensures
        final(mm).wf(),
        final(pmm).wf(),
        final(mm).address() == old(mm).address(),
        final(mm)@ == old(mm)@.map_all(
            identity_requests(
                kernel_start,
                steps(
                    kernel_start as int,
                    ceiling(kernel_end as int, page_size as int),
                    page_size as int,
                ),
                page_size,
                Permissions { bits: READ | WRITE | EXECUTE },
            ),
        ),
        final(pmm)@ == old(pmm)@.take(
            old(mm)@.missing_all(
                identity_requests(
                    kernel_start,
                    steps(
                        kernel_start as int,
                        ceiling(kernel_end as int, page_size as int),
                        page_size as int,
                    ),
                    page_size,
                    Permissions { bits: READ | WRITE | EXECUTE },
                ),
            ) as int,
        ),
{
    proof {
        let q = (kernel_end + page_size - 1) / (page_size as int);
        assert(q * page_size <= kernel_end + page_size - 1) by (nonlinear_arith)
            requires
                page_size > 0,
                q == (kernel_end + page_size - 1) / (page_size as int),
        ;
    }
    let kernel_end_align = ((kernel_end + (page_size - 1)) / page_size) * page_size;
    map_range(
        mm,
        pmm,
        kernel_start,
        kernel_end_align,
        page_size,
        Permissions::read() | Permissions::write() | Permissions::execute(),
    );
}

/// Sets up the kernel's address space in `page_table`: maps the kernel's
/// image, the pages of the allocator's bookkeeping and the ranges of the
/// devices, each onto itself, and returns the register value that makes
/// the address space the active one. The caller writes that value and
/// flushes the translation cache.
///
/// The image starts at `kernel_start` and ends before `kernel_end`; each of
/// `drivers` is the range of a device, its first address and its length.
pub fn map_address_space(
    device_tree: &DeviceTree,
    page_table: &mut MemoryImpl,
    pmm: &mut PhysicalMemoryManager,
    drivers: &Vec<(usize, usize)>,
    kernel_start: usize,
    kernel_end: usize,
) -> (r: u64)
    requires
        old(page_table).wf(),
        old(page_table).loadable(),
        old(pmm).wf(),
        kernel_end + old(pmm)@.page_size - 1 <= usize::MAX,
        forall|i: int| 0 <= i < drivers@.len() ==> (#[trigger] drivers@[i]).0 + drivers@[i].1
            <= usize::MAX,
        old(pmm)@.free() >= old(page_table)@.missing_all(
            address_space_requests(
                kernel_start,
                kernel_end,
                old(pmm)@.page_size,
                Seq::new(
                    old(pmm)@.metadata_count as nat,
                    |i: int| (old(pmm)@.base + i * old(pmm)@.page_size) as usize,
                ),
                drivers@,
            ),
        ),
    ensures
        final(page_table).wf(),
        final(pmm).wf(),
        final(page_table).address() == old(page_table).address(),
        final(page_table)@ == old(page_table)@.map_all(
            address_space_requests(
                kernel_start,
                kernel_end,
                old(pmm)@.page_size,
                Seq::new(
                    old(pmm)@.metadata_count as nat,
                    |i: int| (old(pmm)@.base + i * old(pmm)@.page_size) as usize,
                ),
                drivers@,
            ),
        ),
        final(pmm)@ == old(pmm)@.take(
            old(page_table)@.missing_all(
                address_space_requests(
                    kernel_start,
                    kernel_end,
                    old(pmm)@.page_size,
                    Seq::new(
                        old(pmm)@.metadata_count as nat,
                        |i: int| (old(pmm)@.base + i * old(pmm)@.page_size) as usize,
                    ),
                    drivers@,
                ),
            ) as int,
        ),
        r == SATP_SV39 | (old(page_table).address() >> 12),
{
    let page_size = pmm.page_size();
    let ghost before = page_table@;
    let ghost metadata = Seq::new(
        pmm@.metadata_count as nat,
        |i: int| (pmm@.base + i * pmm@.page_size) as usize,
    );
    let ghost kernel = identity_requests(
        kernel_start,
        steps(kernel_start as int, ceiling(kernel_end as int, page_size as int), page_size as int),
        page_size,
        Permissions { bits: READ | WRITE | EXECUTE },
    );
    let ghost rw = Permissions { bits: READ | WRITE };
    let ghost all = address_space_requests(kernel_start, kernel_end, page_size, metadata, drivers@);
    proof {
        before.lemma_map_all_concat(
            kernel + page_requests(metadata, rw),
            device_requests(drivers@, page_size),
        );
        before.lemma_map_all_concat(kernel, page_requests(metadata, rw));
    }
    map_kernel_rwx(page_table, pmm, page_size, kernel_start, kernel_end);

    let metadata_pages = pmm.metadata_pages();
    proof {
        assert(metadata_pages@ =~= metadata);
    }
    map_pages(page_table, pmm, &metadata_pages, Permissions::read() | Permissions::write());

    let ghost fixed = kernel + page_requests(metadata, rw);
    let mut i: usize = 0;
    proof {
        assert(device_requests(drivers@.take(0), page_size) =~= Seq::empty());
        assert(fixed + device_requests(drivers@.take(0), page_size) =~= fixed);
    }
    while i < drivers.len()
        invariant
            i <= drivers@.len(),
            page_size == pmm@.page_size,
            page_size > 0,
            page_table.wf(),
            pmm.wf(),
            page_table.address() == old(page_table).address(),
            before == old(page_table)@,
            rw == (Permissions { bits: READ | WRITE }),
            all == fixed + device_requests(drivers@, page_size),
            forall|j: int| 0 <= j < drivers@.len() ==> (#[trigger] drivers@[j]).0 + drivers@[j].1
                <= usize::MAX,
            old(pmm)@.free() >= before.missing_all(all),
            page_table@ == before.map_all(fixed + device_requests(drivers@.take(i as int), page_size)),
            pmm@ == old(pmm)@.take(
                before.missing_all(fixed + device_requests(drivers@.take(i as int), page_size)) as int,
            ),
        decreases drivers@.len() - i,
    {
        let (base, len) = drivers[i];
        proof {
            let done = fixed + device_requests(drivers@.take(i as int), page_size);
            let next = identity_requests(
                base,
                steps(base as int, base + len, page_size as int),
                page_size,
                rw,
            );
            assert(drivers@.take(i + 1).drop_last() =~= drivers@.take(i as int));
            assert(drivers@.take(i + 1).last() == (base, len));
            assert(device_requests(drivers@.take(i + 1), page_size) == device_requests(
                drivers@.take(i as int),
                page_size,
            ) + next);
            assert(fixed + device_requests(drivers@.take(i + 1), page_size) =~= done + next);
            before.lemma_map_all_concat(done, next);
            lemma_device_requests_prefix(drivers@, page_size, i + 1);
            let rest = device_requests(drivers@, page_size).skip(
                device_requests(drivers@.take(i + 1), page_size).len() as int,
            );
            assert(all =~= (done + next) + rest);
            before.lemma_map_all_concat(done + next, rest);
        }
        map_range(
            page_table,
            pmm,
            base,
            base + len,
            page_size,
            Permissions::read() | Permissions::write(),
        );
        i = i + 1;
    }
    proof {
        assert(drivers@.take(drivers@.len() as int) =~= drivers@);
    }
    page_table.reload()
}

/// The requests for the first `k` device ranges are the first of the
/// requests for all.
proof fn lemma_device_requests_prefix(ranges: Seq<(usize, usize)>, step: usize, k: int)
    requires
        0 <= k <= ranges.len(),
    ensures
        device_requests(ranges.take(k), step).len() <= device_requests(ranges, step).len(),
        device_requests(ranges.take(k), step) == device_requests(ranges, step).take(
            device_requests(ranges.take(k), step).len() as int,
        ),
    decreases ranges.len(),
{
    if k == ranges.len() {
        assert(ranges.take(k) =~= ranges);
        assert(device_requests(ranges, step).take(device_requests(ranges, step).len() as int)
            =~= device_requests(ranges, step));
    } else {
        lemma_device_requests_prefix(ranges.drop_last(), step, k);
        assert(ranges.drop_last().take(k) =~= ranges.take(k));
        assert(device_requests(ranges.drop_last(), step).take(
            device_requests(ranges.take(k), step).len() as int,
        ) =~= device_requests(ranges, step).take(
            device_requests(ranges.take(k), step).len() as int,
        ));
    }
}

/// The number of pages that `device_requests` asks for.
pub open spec fn device_count(ranges: Seq<(usize, usize)>, step: usize) -> nat
    decreases ranges.len(),
{
    if ranges.len() == 0 {
        0
    } else {
        device_count(ranges.drop_last(), step) + steps(
            ranges.last().0 as int,
            ranges.last().0 + ranges.last().1,
            step as int,
        )
    }
}

/// The number of pages that `address_space_requests` asks for, where the
/// allocator's bookkeeping takes `metadata_count` pages.
pub open spec fn address_space_count(
    kernel_start: usize,
    kernel_end: usize,
    page_size: usize,
    metadata_count: nat,
    devices: Seq<(usize, usize)>,
) -> nat {
    steps(kernel_start as int, ceiling(kernel_end as int, page_size as int), page_size as int)
        + metadata_count + device_count(devices, page_size)
}

/// `address_space_count` counts the requests of `address_space_requests`,
/// and twice as many pages are enough for the tables that these take.
pub proof fn lemma_address_space_count(
    before: crate::arch::riscv64::sv39::Mappings,
    kernel_start: usize,
    kernel_end: usize,
    page_size: usize,
    metadata: Seq<usize>,
    devices: Seq<(usize, usize)>,
)
    ensures
        address_space_requests(kernel_start, kernel_end, page_size, metadata, devices).len()
            == address_space_count(kernel_start, kernel_end, page_size, metadata.len(), devices),
        before.missing_all(
            address_space_requests(kernel_start, kernel_end, page_size, metadata, devices),
        ) <= 2 * address_space_count(
            kernel_start,
            kernel_end,
            page_size,
            metadata.len(),
            devices,
        ),
{
    lemma_device_count(devices, page_size);
    before.lemma_missing_all_bound(
        address_space_requests(kernel_start, kernel_end, page_size, metadata, devices),
    );
}

/// `device_count` counts the requests of `device_requests`.
proof fn lemma_device_count(ranges: Seq<(usize, usize)>, step: usize)
    ensures
        device_requests(ranges, step).len() == device_count(ranges, step),
    decreases ranges.len(),
{
    if ranges.len() > 0 {
        lemma_device_count(ranges.drop_last(), step);
    }
}

/// The first `k` device ranges ask for no more pages than all.
proof fn lemma_device_count_grows(ranges: Seq<(usize, usize)>, step: usize, k: int)
    requires
        0 <= k <= ranges.len(),
    ensures
        device_count(ranges.take(k), step) <= device_count(ranges, step),
    decreases ranges.len(),
{
    if k == ranges.len() {
        assert(ranges.take(k) =~= ranges);
    } else {
        lemma_device_count_grows(ranges.drop_last(), step, k);
        assert(ranges.drop_last().take(k) =~= ranges.take(k));
    }
}

/// The number of pages that setting up the kernel's address space asks
/// for, as `address_space_count` tells it, if it is at most `limit`;
/// `None` if it is more.
pub fn count_address_space(
    kernel_start: usize,
    kernel_end: usize,
    page_size: usize,
    metadata_count: usize,
    drivers: &Vec<(usize, usize)>,
    limit: usize,
) -> (r: Option<usize>)
    requires
        page_size > 0,
        kernel_end + page_size - 1 <= usize::MAX,
        forall|i: int| 0 <= i < drivers@.len() ==> (#[trigger] drivers@[i]).0 + drivers@[i].1
            <= usize::MAX,
    ensures
        match r {
            Some(count) => count == address_space_count(
                kernel_start,
                kernel_end,
                page_size,
                metadata_count as nat,
                drivers@,
            ) && count <= limit,
            None => address_space_count(
                kernel_start,
                kernel_end,
                page_size,
                metadata_count as nat,
                drivers@,
            ) > limit,
        },
{
    proof {
        let q = (kernel_end + page_size - 1) / (page_size as int);
        assert(q * page_size <= kernel_end + page_size - 1) by (nonlinear_arith)
            requires
                page_size > 0,
                q == (kernel_end + page_size - 1) / (page_size as int),
        ;
    }
    let kernel_end_align = ((kernel_end + (page_size - 1)) / page_size) * page_size;
    let kernel = count_steps(kernel_start, kernel_end_align, page_size);
    if kernel > limit || metadata_count > limit - kernel {
        return None;
    }
    let mut count = kernel + metadata_count;
    let mut i: usize = 0;
    proof {
        assert(drivers@.take(0) =~= Seq::empty());
    }
    while i < drivers.len()
        invariant
            i <= drivers@.len(),
            page_size > 0,
            forall|j: int| 0 <= j < drivers@.len() ==> (#[trigger] drivers@[j]).0 + drivers@[j].1
                <= usize::MAX,
            kernel == steps(
                kernel_start as int,
                ceiling(kernel_end as int, page_size as int),
                page_size as int,
            ),
            count == kernel + metadata_count + device_count(drivers@.take(i as int), page_size),
            count <= limit,
        decreases drivers@.len() - i,
    {
        let (base, len) = drivers[i];
        proof {
            assert(drivers@.take(i + 1).drop_last() =~= drivers@.take(i as int));
            assert(drivers@.take(i + 1).last() == (base, len));
            lemma_device_count_grows(drivers@, page_size, i + 1);
            assert(device_count(drivers@.take(i + 1), page_size) == device_count(
                drivers@.take(i as int),
                page_size,
            ) + steps(base as int, base + len, page_size as int));
        }
        let pages = count_steps(base, base + len, page_size);
        if pages > limit - count {
            return None;
        }
        count = count + pages;
        i = i + 1;
    }
    proof {
        assert(drivers@.take(drivers@.len() as int) =~= drivers@);
    }
    Some(count)
}

/// The number of addresses from `start` on, `step` apart, that lie before
/// `end`.
fn count_steps(start: usize, end: usize, step: usize) -> (r: usize)
    requires
        step > 0,
    ensures
        r == steps(start as int, end as int, step as int),
{
    if end <= start {
        0
    } else {
        (end - start - 1) / step + 1
    }
}

/// The requests `reqs` with what they map their pages to left open.
pub open spec fn blank(reqs: Seq<Request>) -> Seq<Request> {
    Seq::new(reqs.len(), |k: int| Request { page: reqs[k].page, entry: PageTableEntry::zero() })
}

/// The requests for a run of `count` pages from the virtual address `va`
/// on, `step` apart, with what the pages are mapped to left open.
pub open spec fn blank_run(va: usize, count: nat, step: usize) -> Seq<Request> {
    Seq::new(
        count,
        |k: int|
            Request {
                page: page_of(VAddr { addr: (va + k * step) as usize }),
                entry: PageTableEntry::zero(),
            },
    )
}

/// Leaving open what requests map to changes nothing in the tables that
/// they take.
pub proof fn lemma_blank(space: Mappings, reqs: Seq<Request>)
    ensures
        space.missing_all(blank(reqs)) == space.missing_all(reqs),
        forall|p: nat| #[trigger]
            space.map_all(blank(reqs)).missing(p) == space.map_all(reqs).missing(p),
{
    space.lemma_missing_all_by_pages(blank(reqs), reqs);
}

/// Reckons in `plan` the mappings of a run of `count` pages from the
/// virtual address `va` on, `step` apart. `total` is the number of tables
/// that the requests before take; the result is the number with the run,
/// or `None` as soon as that exceeds `limit`.
pub fn reckon_run(
    plan: &mut Plan,
    page_table: &MemoryImpl,
    va: usize,
    count: usize,
    step: usize,
    total: usize,
    limit: usize,
) -> (r: Option<usize>)
    requires
        page_table.wf(),
        old(plan).wf(page_table@),
        count > 0 ==> va + (count - 1) * step <= usize::MAX,
        total == page_table@.missing_all(old(plan).requests()),
        total <= limit,
    ensures
        final(plan).wf(page_table@),
        match r {
            Some(sum) => final(plan).requests() == old(plan).requests() + blank_run(
                va,
                count as nat,
                step,
            ) && sum == page_table@.missing_all(final(plan).requests()) && sum <= limit,
            None => page_table@.missing_all(
                old(plan).requests() + blank_run(va, count as nat, step),
            ) > limit,
        },
{
    let ghost before = plan.requests();
    let ghost run = blank_run(va, count as nat, step);
    let mut sum = total;
    let mut k: usize = 0;
    proof {
        assert(before + run.take(0) =~= before);
    }
    while k < count
        invariant
            k <= count,
            count > 0 ==> va + (count - 1) * step <= usize::MAX,
            page_table.wf(),
            plan.wf(page_table@),
            before == old(plan).requests(),
            run == blank_run(va, count as nat, step),
            plan.requests() == before + run.take(k as int),
            sum == page_table@.missing_all(plan.requests()),
            sum <= limit,
        decreases count - k,
    {
        proof {
            assert(k * step <= (count - 1) * step) by (nonlinear_arith)
                requires
                    0 <= k <= count - 1,
                    step >= 0,
            ;
            page_table@.lemma_map_all_push(plan.requests(), run[k as int]);
            assert((before + run.take(k as int)).push(run[k as int]) =~= before + run.take(k + 1));
            page_table@.lemma_missing_all_prefix(before + run, before.len() + k + 1);
            assert((before + run).take(before.len() + k + 1) =~= before + run.take(k + 1));
        }
        let more = plan.add(page_table, VAddr::from(va + k * step));
        if more > limit - sum {
            return None;
        }
        sum = sum + more;
        k = k + 1;
    }
    proof {
        assert(run.take(count as int) =~= run);
    }
    Some(sum)
}

/// Whether `pmm` has the pages for the tables that `map_address_space`
/// takes with the same arguments. Nothing is changed.
pub fn address_space_fits(
    page_table: &MemoryImpl,
    pmm: &PhysicalMemoryManager,
    drivers: &Vec<(usize, usize)>,
    kernel_start: usize,
    kernel_end: usize,
) -> (r: bool)
    requires
        page_table.wf(),
        pmm.wf(),
        kernel_end + pmm@.page_size - 1 <= usize::MAX,
        forall|i: int| 0 <= i < drivers@.len() ==> (#[trigger] drivers@[i]).0 + drivers@[i].1
            <= usize::MAX,
    ensures
        r == (pmm@.free() >= page_table@.missing_all(
            address_space_requests(
                kernel_start,
                kernel_end,
                pmm@.page_size,
                Seq::new(
                    pmm@.metadata_count as nat,
                    |i: int| (pmm@.base + i * pmm@.page_size) as usize,
                ),
                drivers@,
            ),
        )),
{
    let page_size = pmm.page_size();
    let free = pmm.free_pages();
    let ghost space = page_table@;
    let ghost metadata = Seq::new(
        pmm@.metadata_count as nat,
        |i: int| (pmm@.base + i * pmm@.page_size) as usize,
    );
    let ghost rw = Permissions { bits: READ | WRITE };
    let ghost kernel = identity_requests(
        kernel_start,
        steps(kernel_start as int, ceiling(kernel_end as int, page_size as int), page_size as int),
        page_size,
        Permissions { bits: READ | WRITE | EXECUTE },
    );
    let ghost fixed = kernel + page_requests(metadata, rw);
    let ghost all = address_space_requests(kernel_start, kernel_end, page_size, metadata, drivers@);
    proof {
        let q = (kernel_end + page_size - 1) / (page_size as int);
        assert(q * page_size <= kernel_end + page_size - 1) by (nonlinear_arith)
            requires
                page_size > 0,
                q == (kernel_end + page_size - 1) / (page_size as int),
        ;
        lemma_blank(space, all);
    }
    let kernel_end_align = ((kernel_end + (page_size - 1)) / page_size) * page_size;
    let kernel_pages = count_steps(kernel_start, kernel_end_align, page_size);
    proof {
        if kernel_pages > 0 {
            let q = (kernel_end_align - kernel_start - 1) / (page_size as int);
            assert(q * page_size <= kernel_end_align - kernel_start - 1) by (nonlinear_arith)
                requires
                    page_size > 0,
                    q == (kernel_end_align - kernel_start - 1) / (page_size as int),
                    kernel_end_align - kernel_start - 1 >= 0,
            ;
        }
    }
    let mut plan = Plan::new();
    proof {
        assert(blank(all).take(0) =~= Seq::<Request>::empty());
        assert(Seq::<Request>::empty() + blank_run(kernel_start, kernel_pages as nat, page_size)
            =~= blank(kernel));
        assert(blank(all).take(kernel.len() as int) =~= blank(kernel));
        space.lemma_missing_all_prefix(blank(all), kernel.len() as int);
    }
    let mut sum = match reckon_run(&mut plan, page_table, kernel_start, kernel_pages, page_size, 0, free) {
        Some(sum) => sum,
        None => {
            return false;
        },
    };
    let metadata_pages = pmm.metadata_pages().len();
    proof {
        pmm@.lemma_take(0);
        if metadata_pages > 0 {
            assert((metadata_pages - 1) * page_size <= pmm@.page_count * page_size)
                by (nonlinear_arith)
                requires
                    metadata_pages - 1 <= pmm@.page_count,
                    page_size >= 0,
            ;
        }
        assert(blank(kernel) + blank_run(pmm@.base, metadata_pages as nat, page_size) =~= blank(
            fixed,
        ));
        assert(blank(all).take(fixed.len() as int) =~= blank(fixed));
        space.lemma_missing_all_prefix(blank(all), fixed.len() as int);
    }
    sum = match reckon_run(&mut plan, page_table, pmm.base(), metadata_pages, page_size, sum, free) {
        Some(sum) => sum,
        None => {
            return false;
        },
    };
    let mut i: usize = 0;
    proof {
        assert(device_requests(drivers@.take(0), page_size) =~= Seq::empty());
        assert(fixed + device_requests(drivers@.take(0), page_size) =~= fixed);
    }
    while i < drivers.len()
        invariant
            i <= drivers@.len(),
            page_size == pmm@.page_size,
            page_size > 0,
            page_table.wf(),
            space == page_table@,
            plan.wf(space),
            rw == (Permissions { bits: READ | WRITE }),
            all == fixed + device_requests(drivers@, page_size),
            forall|j: int| 0 <= j < drivers@.len() ==> (#[trigger] drivers@[j]).0 + drivers@[j].1
                <= usize::MAX,
            plan.requests() == blank(fixed + device_requests(drivers@.take(i as int), page_size)),
            sum == space.missing_all(plan.requests()),
            sum <= free,
            free == pmm@.free(),
            space.missing_all(blank(all)) == space.missing_all(all),
            metadata == Seq::new(
                pmm@.metadata_count as nat,
                |i: int| (pmm@.base + i * pmm@.page_size) as usize,
            ),
            all == address_space_requests(kernel_start, kernel_end, page_size, metadata, drivers@),
        decreases drivers@.len() - i,
    {
        let (base, len) = drivers[i];
        let pages = count_steps(base, base + len, page_size);
        proof {
            let done = fixed + device_requests(drivers@.take(i as int), page_size);
            let next = identity_requests(
                base,
                steps(base as int, base + len, page_size as int),
                page_size,
                rw,
            );
            assert(drivers@.take(i + 1).drop_last() =~= drivers@.take(i as int));
            assert(drivers@.take(i + 1).last() == (base, len));
            assert(device_requests(drivers@.take(i + 1), page_size) == device_requests(
                drivers@.take(i as int),
                page_size,
            ) + next);
            assert(fixed + device_requests(drivers@.take(i + 1), page_size) =~= done + next);
            assert(blank(done) + blank_run(base, pages as nat, page_size) =~= blank(done + next));
            lemma_device_requests_prefix(drivers@, page_size, i + 1);
            let upto = (done + next).len() as int;
            assert(all.take(upto) =~= done + next);
            assert(blank(all).take(upto) =~= blank(done + next));
            space.lemma_missing_all_prefix(blank(all), upto);
            if pages > 0 {
                let q = (base + len - base - 1) / (page_size as int);
                assert(q * page_size <= base + len - base - 1) by (nonlinear_arith)
                    requires
                        page_size > 0,
                        q == (base + len - base - 1) / (page_size as int),
                        base + len - base - 1 >= 0,
                ;
            }
        }
        sum = match reckon_run(&mut plan, page_table, base, pages, page_size, sum, free) {
            Some(sum) => sum,
            None => {
                return false;
            },
        };
        i = i + 1;
    }
    proof {
        assert(drivers@.take(drivers@.len() as int) =~= drivers@);
    }
    true
}

} // verus!
