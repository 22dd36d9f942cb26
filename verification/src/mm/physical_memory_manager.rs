//! The physical memory that the kernel manages: a run of equally sized
//! pages, handed out in order, and the bytes they hold.

use crate::mm::PAddr;
use vstd::prelude::*;

verus! {

/// What a [`PhysicalMemoryManager`] is, as plain values.
pub struct Memory {
    /// The address of the first page.
    pub base: usize,
    /// The size of a page in bytes.
    pub page_size: usize,
    /// The number of pages.
    pub page_count: usize,
    /// The number of pages, from the first on, that hold the manager's own
    /// bookkeeping.
    pub metadata_count: usize,
    /// The number of pages handed out so far, the bookkeeping pages
    /// included: page number `allocated` is the next to go.
    pub allocated: usize,
    /// The contents of all the pages, in order.
    pub bytes: Seq<u8>,
}

impl Memory {
    /// The invariant of the memory: its geometry is valid, every page has
    /// its bytes, and the bookkeeping pages count as handed out.
    pub open spec fn wf(self) -> bool {
        &&& valid_geometry(self.base, self.page_size, self.page_count)
        &&& self.metadata_count == metadata_count(self.page_size, self.page_count)
        &&& self.bytes.len() == self.page_count * self.page_size
        &&& self.metadata_count <= self.allocated <= self.page_count
    }

    /// Handing out `count` of the free pages moves the next page on by as
    /// many pages, and not beyond the end.
    pub proof fn lemma_take(self, count: int)
        requires
            self.wf(),
            0 <= count <= self.free(),
        ensures
            self.take(count).wf(),
            self.take(count).next() == self.next() + count * self.page_size,
            self.base <= self.next(),
            self.take(count).next() <= self.end() <= usize::MAX,
    {
        let a = self.allocated as int;
        let ps = self.page_size as int;
        let pc = self.page_count as int;
        assert((a + count) * ps == a * ps + count * ps) by (nonlinear_arith);
        assert((a + count) * ps <= pc * ps) by (nonlinear_arith)
            requires
                a + count <= pc,
                ps >= 0,
        ;
        assert(a * ps >= 0) by (nonlinear_arith)
            requires
                a >= 0,
                ps >= 0,
        ;
    }

    /// The address just behind the last page.
    pub open spec fn end(self) -> int {
        self.base + self.page_count * self.page_size
    }

    /// The number of pages not handed out yet.
    pub open spec fn free(self) -> int {
        self.page_count - self.allocated
    }

    /// The address of the next page to be handed out.
    pub open spec fn next(self) -> int {
        self.base + self.allocated * self.page_size
    }

    /// Whether the `len` bytes from `addr` on all lie in the managed pages.
    pub open spec fn holds(self, addr: int, len: int) -> bool {
        self.base <= addr && 0 <= len && addr + len <= self.end()
    }

    /// The `len` bytes from `addr` on.
    pub open spec fn range(self, addr: int, len: int) -> Seq<u8> {
        self.bytes.subrange(addr - self.base, addr - self.base + len)
    }

    /// The memory after `count` more pages were handed out.
    pub open spec fn take(self, count: int) -> Memory {
        Memory { allocated: (self.allocated + count) as usize, ..self }
    }

    /// The memory after `data` was stored from `addr` on.
    pub open spec fn store(self, addr: int, data: Seq<u8>) -> Memory {
        Memory {
            bytes: self.bytes.subrange(0, addr - self.base) + data + self.bytes.subrange(
                addr - self.base + data.len(),
                self.bytes.len() as int,
            ),
            ..self
        }
    }
}

/// Whether pages of `page_size` bytes, `page_count` of them from `base` on,
/// can be managed: a page has a size, the first lies on a page boundary,
/// the last ends within the address space.
pub open spec fn valid_geometry(base: usize, page_size: usize, page_count: usize) -> bool {
    &&& page_size > 0
    &&& base % page_size == 0
    &&& base + page_count * page_size <= usize::MAX
}

/// The number of pages that the bookkeeping for `page_count` pages of
/// `page_size` bytes takes: one byte for each page, in whole pages.
pub open spec fn metadata_count(page_size: usize, page_count: usize) -> int {
    (page_count + page_size - 1) / (page_size as int)
}

/// The allocator of physical pages, together with the memory it hands out.
///
/// Pages leave in the order of their addresses and never come back.
pub struct PhysicalMemoryManager {
    base: usize,
    page_size: usize,
    page_count: usize,
    metadata_count: usize,
    allocated: usize,
    memory: Vec<u8>,
}

impl View for PhysicalMemoryManager {
    type V = Memory;

    closed spec fn view(&self) -> Memory {
        Memory {
            base: self.base,
            page_size: self.page_size,
            page_count: self.page_count,
            metadata_count: self.metadata_count,
            allocated: self.allocated,
            bytes: self.memory@,
        }
    }
}

impl PhysicalMemoryManager {
    /// The invariant of the manager: that of the memory it stands for.
    pub open spec fn wf(self) -> bool {
        self@.wf()
    }

    /// A manager for `page_count` pages of `page_size` bytes from `base` on,
    /// all bytes zero, with the first pages taken for its bookkeeping;
    /// `None` where that geometry is not valid.
    pub fn new(base: usize, page_size: usize, page_count: usize) -> (r: Option<Self>)
        ensures
            r is Some <==> valid_geometry(base, page_size, page_count),
            r matches Some(m) ==> m.wf() && m@ == (Memory {
                base,
                page_size,
                page_count,
                metadata_count: metadata_count(page_size, page_count) as usize,
                allocated: metadata_count(page_size, page_count) as usize,
                bytes: Seq::new((page_count * page_size) as nat, |i: int| 0u8),
            }),
    {
        if page_size == 0 || base % page_size != 0 {
            return None;
        }
        let size = match page_count.checked_mul(page_size) {
            Some(size) => size,
            None => {
                return None;
            },
        };
        if size > usize::MAX - base {
            return None;
        }
        assert(page_count >= 1 ==> page_count + page_size - 1 <= page_count * page_size)
            by (nonlinear_arith)
            requires
                page_size >= 1,
        ;
        let metadata_count = (page_count + (page_size - 1)) / page_size;
        assert(metadata_count <= page_count) by (nonlinear_arith)
            requires
                page_size >= 1,
                metadata_count == (page_count + (page_size - 1)) / (page_size as int),
        ;
        let memory = vec![0u8; size];
        assert(memory@ =~= Seq::new((page_count * page_size) as nat, |i: int| 0u8));
        Some(
            PhysicalMemoryManager {
                base,
                page_size,
                page_count,
                metadata_count,
                allocated: metadata_count,
                memory,
            },
        )
    }

    /// The size of a page in bytes.
    pub fn page_size(&self) -> (r: usize)
        ensures
            r == self@.page_size,
    {
        self.page_size
    }

    /// The number of pages.
    pub fn page_count(&self) -> (r: usize)
        ensures
            r == self@.page_count,
    {
        self.page_count
    }

    /// The address of the first page.
    pub fn base(&self) -> (r: usize)
        ensures
            r == self@.base,
    {
        self.base
    }

    /// The number of pages not handed out yet.
    pub fn free_pages(&self) -> (r: usize)
        requires
            self.wf(),
        ensures
            r == self@.free(),
    {
        self.page_count - self.allocated
    }

    /// Hands out `count` pages that follow each other and returns the
    /// address of the first; `None`, with nothing changed, where fewer than
    /// `count` are left.
    pub fn alloc_pages(&mut self, count: usize) -> (r: Option<PAddr>)
        requires
            old(self).wf(),
        ensures
            final(self).wf(),
            count <= old(self)@.free() ==> r == Some(PAddr { addr: old(self)@.next() as usize })
                && final(self)@ == old(self)@.take(count as int),
            count > old(self)@.free() ==> r is None && final(self)@ == old(self)@,
            old(self)@.next() <= old(self)@.end(),
    {
        proof {
            vstd::arithmetic::mul::lemma_mul_inequality(
                self.allocated as int,
                self.page_count as int,
                self.page_size as int,
            );
        }
        if count > self.page_count - self.allocated {
            return None;
        }
        let addr = self.base + self.allocated * self.page_size;
        self.allocated = self.allocated + count;
        Some(PAddr { addr })
    }

    /// The addresses of the pages that hold the manager's own bookkeeping,
    /// in order.
    pub fn metadata_pages(&self) -> (r: Vec<usize>)
        requires
            self.wf(),
        ensures
            r@.len() == self@.metadata_count,
            forall|i: int|
                0 <= i < r@.len() ==> #[trigger] r@[i] == self@.base + i * self@.page_size,
    {
        let mut pages: Vec<usize> = Vec::new();
        let mut i: usize = 0;
        while i < self.metadata_count
            invariant
                self.wf(),
                i <= self.metadata_count,
                pages@.len() == i,
                forall|j: int|
                    0 <= j < i ==> #[trigger] pages@[j] == self@.base + j * self@.page_size,
            decreases self.metadata_count - i,
        {
            proof {
                vstd::arithmetic::mul::lemma_mul_inequality(
                    i as int,
                    self.page_count as int,
                    self.page_size as int,
                );
            }
            pages.push(self.base + i * self.page_size);
            i = i + 1;
        }
        pages
    }

    /// Whether the `len` bytes from `addr` on all lie in the managed pages.
    pub fn holds(&self, addr: usize, len: usize) -> (r: bool)
        requires
            self.wf(),
        ensures
            r == self@.holds(addr as int, len as int),
    {
        addr >= self.base && addr - self.base <= self.memory.len() && len <= self.memory.len() - (
        addr - self.base)
    }

    /// Copies the `len` bytes from `addr` on out of the memory.
    pub fn read(&self, addr: usize, len: usize) -> (r: Vec<u8>)
        requires
            self.wf(),
            self@.holds(addr as int, len as int),
        ensures
            r@ == self@.range(addr as int, len as int),
    {
        let start = addr - self.base;
        assert(self.memory@.len() == self.memory.len());
        let mut out: Vec<u8> = Vec::new();
        let mut i: usize = 0;
        while i < len
            invariant
                i <= len,
                start + len <= self.memory@.len() <= usize::MAX,
                out@ == self.memory@.subrange(start as int, start + i),
            decreases len - i,
        {
            out.push(self.memory[start + i]);
            assert(out@ =~= self.memory@.subrange(start as int, start + i + 1));
            i = i + 1;
        }
        out
    }

    /// Stores `data` from `addr` on and changes nothing else.
    pub fn write(&mut self, addr: usize, data: &[u8])
        requires
            old(self).wf(),
            old(self)@.holds(addr as int, data@.len() as int),
        ensures
            final(self).wf(),
            final(self)@ == old(self)@.store(addr as int, data@),
    {
        let start = addr - self.base;
        assert(self.memory@.len() == self.memory.len());
        let len = data.len();
        let mut i: usize = 0;
        while i < len
            invariant
                i <= len,
                len == data@.len(),
                start + len <= self.memory@.len() <= usize::MAX,
                self.memory@.len() == old(self).memory@.len(),
                self.base == old(self).base,
                self.page_size == old(self).page_size,
                self.page_count == old(self).page_count,
                self.metadata_count == old(self).metadata_count,
                self.allocated == old(self).allocated,
                self.memory@ == old(self).memory@.subrange(0, start as int) + data@.subrange(
                    0,
                    i as int,
                ) + old(self).memory@.subrange(start + i, old(self).memory@.len() as int),
            decreases len - i,
        {
            self.memory[start + i] = data[i];
            assert(self.memory@ =~= old(self).memory@.subrange(0, start as int) + data@.subrange(
                0,
                i + 1,
            ) + old(self).memory@.subrange(start + i + 1, old(self).memory@.len() as int));
            i = i + 1;
        }
        assert(data@.subrange(0, len as int) =~= data@);
    }

    /// Stores `len` times the byte `value` from `addr` on and changes
    /// nothing else.
    pub fn fill(&mut self, addr: usize, len: usize, value: u8)
        requires
            old(self).wf(),
            old(self)@.holds(addr as int, len as int),
        ensures
            final(self).wf(),
            final(self)@ == old(self)@.store(
                addr as int,
                Seq::new(len as nat, |i: int| value),
            ),
    {
        let start = addr - self.base;
        assert(self.memory@.len() == self.memory.len());
        let mut i: usize = 0;
        while i < len
            invariant
                i <= len,
                start + len <= self.memory@.len() <= usize::MAX,
                self.memory@.len() == old(self).memory@.len(),
                self.base == old(self).base,
                self.page_size == old(self).page_size,
                self.page_count == old(self).page_count,
                self.metadata_count == old(self).metadata_count,
                self.allocated == old(self).allocated,
                self.memory@ == old(self).memory@.subrange(0, start as int) + Seq::new(
                    i as nat,
                    |j: int| value,
                ) + old(self).memory@.subrange(start + i, old(self).memory@.len() as int),
            decreases len - i,
        {
            self.memory[start + i] = value;
            assert(self.memory@ =~= old(self).memory@.subrange(0, start as int) + Seq::new(
                (i + 1) as nat,
                |j: int| value,
            ) + old(self).memory@.subrange(start + i + 1, old(self).memory@.len() as int));
            i = i + 1;
        }
    }
}

} // verus!
