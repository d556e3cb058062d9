//! The physical memory that page frames live in, as 64-bit words.
//!
//! Page tables are not reached through pointers: a table is named by the
//! physical address of its frame, and every read and write of an entry goes
//! through the [`PhysicalMemory`] that holds the frame.
use crate::frame_table::{MemoryAllocation, SegmentView};
use vstd::prelude::*;

verus! {

/// The mathematical content of a physical memory: the words from `base` on.
pub struct MemoryView {
    pub base: usize,
    pub words: Seq<u64>,
}

impl MemoryView {
    /// One byte past the memory.
    pub open spec fn end(self) -> int {
        self.base + 8 * self.words.len()
    }

    /// `addr` is the address of a whole page of this memory.
    pub open spec fn holds_page(self, addr: usize) -> bool {
        &&& addr % 4096 == 0
        &&& self.base <= addr
        &&& addr + 4096 <= self.end()
    }

    /// Position among the words of entry `index` of the page at `page`.
    pub open spec fn slot(self, page: usize, index: int) -> int {
        (page - self.base) / 8 + index
    }

    /// Entry `index` of the page at `page`.
    pub open spec fn word(self, page: usize, index: int) -> u64 {
        self.words[self.slot(page, index)]
    }

    /// The memory after `value` has been stored in entry `index` of the page
    /// at `page`.
    pub open spec fn write(self, page: usize, index: int, value: u64) -> MemoryView {
        MemoryView { words: self.words.update(self.slot(page, index), value), ..self }
    }

    /// The memory after the page at `page` has been filled with zeros.
    pub open spec fn zero_page(self, page: usize) -> MemoryView {
        MemoryView {
            words: Seq::new(
                self.words.len(),
                |i: int|
                    if self.slot(page, 0) <= i < self.slot(page, 512) {
                        0u64
                    } else {
                        self.words[i]
                    },
            ),
            ..self
        }
    }

    /// The memory after the first `pages` pages from `addr` on have been
    /// filled with zeros.
    pub open spec fn zero_pages(self, addr: usize, pages: int) -> MemoryView
        decreases pages,
    {
        if pages <= 0 {
            self
        } else {
            self.zero_pages(addr, pages - 1).zero_page((addr + 4096 * (pages - 1)) as usize)
        }
    }

    /// Every frame of every segment is a page of this memory.
    pub open spec fn backs(self, table: Seq<SegmentView>) -> bool {
        forall|s: int|
            0 <= s < table.len() ==> {
                &&& (#[trigger] table[s]).first_page_addr % 4096 == 0
                &&& self.base <= table[s].first_page_addr
                &&& table[s].pages_end() <= self.end()
            }
    }

    /// The whole run of `a` lies in this memory, on page boundaries.
    pub open spec fn holds_run(self, a: MemoryAllocation) -> bool {
        &&& a.phys_addr % 4096 == 0
        &&& self.base <= a.phys_addr
        &&& a.end_spec() <= self.end()
    }

    /// The base is page aligned, the memory is a whole number of pages, and
    /// it fits the address space.
    pub open spec fn wf(self) -> bool {
        &&& self.base % 4096 == 0
        &&& self.words.len() % 512 == 0
        &&& self.end() <= usize::MAX
    }
}

/// A run of a table that the memory backs lies in the memory.
pub proof fn lemma_backed_run(
    mem: MemoryView,
    table: Seq<SegmentView>,
    a: MemoryAllocation,
    s: int,
    idx: int,
)
    requires
        mem.backs(table),
        crate::frame_table::is_run_of(table, a, s, idx),
    ensures
        mem.holds_run(a),
        a.page_count > 0 ==> mem.holds_page(a.phys_addr),
{
}

/// A write changes the entry written and no other entry of any page, and
/// leaves the memory the same pages.
pub proof fn lemma_write(mem: MemoryView, page: usize, index: int, value: u64, other: usize, at: int)
    requires
        mem.wf(),
        mem.holds_page(page),
        mem.holds_page(other),
        0 <= index < 512,
        0 <= at < 512,
    ensures
        mem.write(page, index, value).word(other, at) == if page == other && index == at {
            value
        } else {
            mem.word(other, at)
        },
        mem.write(page, index, value).wf(),
        mem.write(page, index, value).base == mem.base,
        mem.write(page, index, value).words.len() == mem.words.len(),
{
}

/// Filling a page with zeros changes the entries of that page and no other.
pub proof fn lemma_zero_page(mem: MemoryView, page: usize, other: usize, at: int)
    requires
        mem.wf(),
        mem.holds_page(page),
        mem.holds_page(other),
        0 <= at < 512,
    ensures
        mem.zero_page(page).word(other, at) == if page == other {
            0u64
        } else {
            mem.word(other, at)
        },
        mem.zero_page(page).wf(),
        mem.zero_page(page).base == mem.base,
        mem.zero_page(page).words.len() == mem.words.len(),
{
}

/// A stretch of physical memory, held as 64-bit words.
pub struct PhysicalMemory {
    /// Physical address of the first word.
    pub base: usize,
    /// The words, 512 to a page.
    pub words: Vec<u64>,
}

impl View for PhysicalMemory {
    type V = MemoryView;

    open spec fn view(&self) -> MemoryView {
        MemoryView { base: self.base, words: self.words@ }
    }
}

impl PhysicalMemory {
    pub open spec fn wf(&self) -> bool {
        self@.wf()
    }

    /// A zero-filled memory of `pages` pages at `base`. `None` where `base`
    /// is not page aligned or the memory would not fit the address space.
    pub fn new(base: usize, pages: usize) -> (r: Option<PhysicalMemory>)
        ensures
            r is Some <==> base % 4096 == 0 && base + 4096 * pages <= usize::MAX,
            r matches Some(mem) ==> {
                &&& mem.wf()
                &&& mem.base == base
                &&& mem.words@.len() == 512 * pages
                &&& forall|i: int| 0 <= i < mem.words@.len() ==> mem.words@[i] == 0
            },
    {
        if base % 4096 != 0 || pages > (usize::MAX - base) / 4096 {
            return None;
        }
        let words: Vec<u64> = vec![0u64; pages * 512];
        Some(PhysicalMemory { base, words })
    }

    /// Whether `addr` is the address of a whole page of this memory.
    pub fn holds_page(&self, addr: usize) -> (held: bool)
        requires
            self.wf(),
        ensures
            held == self@.holds_page(addr),
    {
        addr % 4096 == 0 && self.base <= addr && (addr - self.base) / 8 + 512 <= self.words.len()
    }

    /// Reads entry `index` of the page at `page`.
    pub fn read(&self, page: usize, index: usize) -> (value: u64)
        requires
            self.wf(),
            self@.holds_page(page),
            index < 512,
        ensures
            value == self@.word(page, index as int),
    {
        self.words[(page - self.base) / 8 + index]
    }

    /// Stores `value` in entry `index` of the page at `page`.
    pub fn write(&mut self, page: usize, index: usize, value: u64)
        requires
            old(self).wf(),
            old(self)@.holds_page(page),
            index < 512,
        ensures
            final(self)@ == old(self)@.write(page, index as int, value),
            final(self).wf(),
    {
        let slot: usize = (page - self.base) / 8 + index;
        self.words[slot] = value;
    }

    /// Fills the page at `page` with zeros.
    pub fn zero_page(&mut self, page: usize)
        requires
            old(self).wf(),
            old(self)@.holds_page(page),
        ensures
            final(self)@ == old(self)@.zero_page(page),
            final(self).wf(),
    {
        let first: usize = (page - self.base) / 8;
        let mut i: usize = 0;
        while i < 512
            invariant
                i <= 512,
                self.base == old(self).base,
                first == (page - self.base) / 8,
                first + 512 <= self.words@.len(),
                self.words@.len() == old(self).words@.len(),
                forall|k: int|
                    0 <= k < self.words@.len() ==> #[trigger] self.words@[k] == if first <= k < first + i {
                        0u64
                    } else {
                        old(self).words@[k]
                    },
            decreases 512 - i,
        {
            self.words[first + i] = 0;
            i += 1;
        }
        assert(self@.words =~= old(self)@.zero_page(page).words);
    }
}

impl MemoryAllocation {
    /// Fills every frame of the allocation with zeros.
    pub fn zero(&self, mem: &mut PhysicalMemory)
        requires
            old(mem).wf(),
            old(mem)@.holds_run(*self),
        ensures
            final(mem)@ == old(mem)@.zero_pages(self.phys_addr, self.page_count as int),
            final(mem).wf(),
    {
        let mut i: usize = 0;
        while i < self.page_count
            invariant
                i <= self.page_count,
                mem.wf(),
                mem@.base == old(mem)@.base,
                mem@.words.len() == old(mem)@.words.len(),
                old(mem)@.holds_run(*self),
                mem@ == old(mem)@.zero_pages(self.phys_addr, i as int),
            decreases self.page_count - i,
        {
            mem.zero_page(self.phys_addr + i * 4096);
            i += 1;
        }
    }
}

} // verus!
