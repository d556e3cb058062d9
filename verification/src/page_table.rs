//! The Sv39 page-table engine: entries, tables, and the operations that build
//! an address space in a [`PhysicalMemory`].
use crate::frame_table::{
    table_alloc_back, table_alloc_front, FrameState, FrameTable, MemoryAllocation, SegmentView,
};
use crate::page_table::virt_map::compose_spec;
use crate::physical_memory::{MemoryView, PhysicalMemory};
use vstd::prelude::*;

pub mod bootstrap;
pub mod space;
pub mod virt_map;

pub use bootstrap::bootstrap_pt;

verus! {

/// What a page-table entry is, read off its X, W and R bits.
#[derive(Debug, Clone, Copy, PartialEq, Eq, Structural)]
pub enum PTEKind {
    /// X=0, W=0, R=0: a link to the next level.
    NextLevel,
    /// R only.
    ReadOnly,
    /// R and W.
    ReadWrite,
    /// X only.
    ExecOnly,
    /// R and X.
    ReadExecute,
    /// R, W and X.
    ReadWriteExecute,
    /// W only: a reserved combination.
    _Reserved1,
    /// W and X: a reserved combination.
    _Reserved2,
}

impl PTEKind {
    /// The X, W and R bits that stand for the kind, in their place in an
    /// entry (bits 3, 2 and 1).
    pub open spec fn bits(self) -> u64 {
        match self {
            PTEKind::NextLevel => 0,
            PTEKind::ReadOnly => 2,
            PTEKind::_Reserved1 => 4,
            PTEKind::ReadWrite => 6,
            PTEKind::ExecOnly => 8,
            PTEKind::ReadExecute => 10,
            PTEKind::_Reserved2 => 12,
            PTEKind::ReadWriteExecute => 14,
        }
    }

    /// The kind that the X, W and R bits of `raw` stand for.
    pub open spec fn of(raw: u64) -> PTEKind {
        let xwr = raw & 0xE;
        if xwr == 0 {
            PTEKind::NextLevel
        } else if xwr == 2 {
            PTEKind::ReadOnly
        } else if xwr == 4 {
            PTEKind::_Reserved1
        } else if xwr == 6 {
            PTEKind::ReadWrite
        } else if xwr == 8 {
            PTEKind::ExecOnly
        } else if xwr == 10 {
            PTEKind::ReadExecute
        } else if xwr == 12 {
            PTEKind::_Reserved2
        } else {
            PTEKind::ReadWriteExecute
        }
    }
}

/// A 64-bit Sv39 page-table entry: V in bit 0, R, W, X in bits 1-3, U, G, A,
/// D in bits 4-7, the physical page number in bits 10-53.
#[derive(Debug, Clone, Copy, PartialEq, Eq, Structural)]
pub struct PageTableEntry(pub u64);

/// The entry is valid.
pub const FLAG_V: u64 = 1;

/// The page may be read.
pub const FLAG_R: u64 = 2;

/// The page may be written.
pub const FLAG_W: u64 = 4;

/// The page may be executed.
pub const FLAG_X: u64 = 8;

/// The page is accessible from user mode.
pub const FLAG_U: u64 = 16;

/// The mapping is global.
pub const FLAG_G: u64 = 32;

/// The page has been accessed; set by the hardware.
pub const FLAG_A: u64 = 64;

/// The page has been written; set by the hardware.
pub const FLAG_D: u64 = 128;

/// Replacing the X, W and R bits sets them and keeps every other bit.
proof fn lemma_with_xwr(raw: u64, xwr: u64)
    by (bit_vector)
    requires
        xwr & 0xE == xwr,
    ensures
        ((raw & !0xEu64) | xwr) & 0xE == xwr,
        ((raw & !0xEu64) | xwr) & !0xEu64 == raw & !0xEu64,
{
}

/// The fields of an entry made of an address and flags within ten bits.
proof fn lemma_encode_fields(phys_addr: u64, flags: u64)
    by (bit_vector)
    requires
        flags < 1024,
    ensures
        (((phys_addr >> 12) << 10) | flags) & 0x3FF == flags,
        (((phys_addr >> 12) << 10) | flags) & 1 == flags & 1,
        (((phys_addr >> 12) << 10) | flags) & 0xE == flags & 0xE,
        ((((((phys_addr >> 12) << 10) | flags) >> 10) & 0xFFF_FFFF_FFFF) << 12) == phys_addr
            & 0x00FF_FFFF_FFFF_F000,
{
}

/// A page address below 2^56 has no bit outside the page number.
proof fn lemma_page_address(phys_addr: u64)
    by (bit_vector)
    requires
        phys_addr % 4096 == 0,
        phys_addr < 0x0100_0000_0000_0000,
    ensures
        phys_addr & 0x00FF_FFFF_FFFF_F000 == phys_addr,
{
}

/// Every field of the zero entry is zero.
proof fn lemma_zero_entry()
    by (bit_vector)
    ensures
        0u64 & 1 == 0,
        0u64 & 0xE == 0,
        ((0u64 >> 10) & 0xFFF_FFFF_FFFF) << 12 == 0,
{
}

/// The address an entry names is a page address below 2^56.
proof fn lemma_phys_addr_aligned(raw: u64)
    by (bit_vector)
    ensures
        (((raw >> 10) & 0xFFF_FFFF_FFFF) << 12) % 4096 == 0,
        (((raw >> 10) & 0xFFF_FFFF_FFFF) << 12) < 0x0100_0000_0000_0000,
{
}

/// The address an entry names is page aligned and below 2^56.
pub proof fn lemma_entry_address(entry: PageTableEntry)
    ensures
        entry.phys_addr_bits() % 4096 == 0,
        entry.phys_addr_bits() < 0x0100_0000_0000_0000,
{
    lemma_phys_addr_aligned(entry.0);
}

impl PageTableEntry {
    /// V is set.
    pub open spec fn is_valid_spec(self) -> bool {
        self.0 & 1 != 0
    }

    /// One of R, W and X is set.
    pub open spec fn is_leaf_spec(self) -> bool {
        self.0 & 0xE != 0
    }

    /// The physical address the entry names, as a 64-bit value.
    pub open spec fn phys_addr_bits(self) -> u64 {
        ((self.0 >> 10) & 0xFFF_FFFF_FFFF) << 12
    }

    /// The physical address the entry names.
    pub open spec fn phys_addr_spec(self) -> usize {
        self.phys_addr_bits() as usize
    }

    /// Every bit is zero.
    pub open spec fn is_unused_spec(self) -> bool {
        self.0 == 0
    }

    /// The kind that the X, W and R bits stand for.
    pub open spec fn kind_spec(self) -> PTEKind {
        PTEKind::of(self.0)
    }

    /// The entry that `set` writes: the page number of `phys_addr`, and
    /// `flags`.
    pub open spec fn encode(phys_addr: u64, flags: u64) -> PageTableEntry {
        PageTableEntry(((phys_addr >> 12) << 10) | flags)
    }

    /// The entry with its X, W and R bits replaced by those of `kind`.
    pub open spec fn with_kind(self, kind: PTEKind) -> PageTableEntry {
        PageTableEntry((self.0 & !0xEu64) | kind.bits())
    }

    /// A link to a next-level table: valid, no R, W or X, a page number
    /// other than zero.
    pub open spec fn is_intermediary(self) -> bool {
        self.is_valid_spec() && self.kind_spec() == PTEKind::NextLevel && self.phys_addr_spec() != 0
    }

    /// A valid leaf: V set and at least one of R, W, X.
    pub open spec fn is_mapping(self) -> bool {
        self.is_valid_spec() && self.is_leaf_spec()
    }

    /// An entry made of a page address below 2^56 and flags within the low
    /// ten bits gives both back.
    pub proof fn lemma_encode(phys_addr: usize, flags: u64)
        requires
            flags < 1024,
        ensures
            Self::encode(phys_addr as u64, flags).0 & 0x3FF == flags,
            Self::encode(phys_addr as u64, flags).is_valid_spec() == (flags & 1 != 0),
            Self::encode(phys_addr as u64, flags).is_leaf_spec() == (flags & 0xE != 0),
            Self::encode(phys_addr as u64, flags).kind_spec() == PTEKind::of(flags),
            phys_addr % 4096 == 0 && phys_addr < 0x0100_0000_0000_0000 ==> Self::encode(
                phys_addr as u64,
                flags,
            ).phys_addr_spec() == phys_addr && Self::encode(phys_addr as u64, flags).phys_addr_bits()
                == phys_addr,
    {
        lemma_encode_fields(phys_addr as u64, flags);
        if phys_addr % 4096 == 0 && phys_addr < 0x0100_0000_0000_0000 {
            lemma_page_address(phys_addr as u64);
        }
    }

    /// The zero entry is unused: not valid, no leaf, no address.
    pub proof fn lemma_unused(self)
        requires
            self.is_unused_spec(),
        ensures
            !self.is_valid_spec(),
            !self.is_leaf_spec(),
            !self.is_intermediary(),
            !self.is_mapping(),
            self.kind_spec() == PTEKind::NextLevel,
            self.phys_addr_spec() == 0,
    {
        lemma_zero_entry();
    }

    /// Whether V is set.
    pub fn is_valid(&self) -> (valid: bool)
        ensures
            valid == self.is_valid_spec(),
    {
        self.0 & FLAG_V != 0
    }

    /// Whether one of R, W and X is set.
    pub fn is_leaf(&self) -> (leaf: bool)
        ensures
            leaf == self.is_leaf_spec(),
    {
        assert(FLAG_R | FLAG_W | FLAG_X == 0xE) by (bit_vector);
        self.0 & (FLAG_R | FLAG_W | FLAG_X) != 0
    }

    /// The physical address the entry names: its page number times 4096.
    pub fn phys_addr(&self) -> (addr: usize)
        ensures
            addr == self.phys_addr_spec(),
    {
        let ppn: u64 = (self.0 >> 10) & 0xFFF_FFFF_FFFF;
        proof {
            lemma_phys_addr_aligned(self.0);
            assert(ppn << 12 == self.phys_addr_bits());
        }
        (ppn << 12) as usize
    }

    /// The physical address the entry names, as a 64-bit value.
    pub fn phys_addr_wide(&self) -> (addr: u64)
        ensures
            addr == self.phys_addr_bits(),
    {
        ((self.0 >> 10) & 0xFFF_FFFF_FFFF) << 12
    }

    /// Overwrites the entry with the page number of `phys_addr` and `flags`.
    pub fn set(&mut self, phys_addr: u64, flags: u64)
        ensures
            *final(self) == Self::encode(phys_addr, flags),
    {
        let ppn: u64 = phys_addr >> 12;
        self.0 = (ppn << 10) | flags;
    }

    /// Makes the entry unused.
    pub fn clear(&mut self)
        ensures
            final(self).is_unused_spec(),
    {
        self.0 = 0;
    }

    /// Whether every bit of the entry is zero.
    pub fn is_unused(&self) -> (unused: bool)
        ensures
            unused == self.is_unused_spec(),
    {
        self.0 == 0
    }

    /// What the entry is, read off its X, W and R bits.
    pub fn kind(&self) -> (kind: PTEKind)
        ensures
            kind == self.kind_spec(),
    {
        let xwr: u64 = self.0 & 0xE;
        if xwr == 0 {
            PTEKind::NextLevel
        } else if xwr == 2 {
            PTEKind::ReadOnly
        } else if xwr == 4 {
            PTEKind::_Reserved1
        } else if xwr == 6 {
            PTEKind::ReadWrite
        } else if xwr == 8 {
            PTEKind::ExecOnly
        } else if xwr == 10 {
            PTEKind::ReadExecute
        } else if xwr == 12 {
            PTEKind::_Reserved2
        } else {
            PTEKind::ReadWriteExecute
        }
    }

    /// Replaces the X, W and R bits by those of `kind`; every other bit stays.
    pub fn set_kind(&mut self, kind: PTEKind)
        ensures
            *final(self) == old(self).with_kind(kind),
            final(self).kind_spec() == kind,
            final(self).0 & !0xEu64 == old(self).0 & !0xEu64,
    {
        let xwr: u64 = match kind {
            PTEKind::NextLevel => 0,
            PTEKind::ReadOnly => 2,
            PTEKind::_Reserved1 => 4,
            PTEKind::ReadWrite => 6,
            PTEKind::ExecOnly => 8,
            PTEKind::ReadExecute => 10,
            PTEKind::_Reserved2 => 12,
            PTEKind::ReadWriteExecute => 14,
        };
        proof {
            assert(xwr & 0xE == xwr) by (bit_vector)
                requires
                    xwr == 0 || xwr == 2 || xwr == 4 || xwr == 6 || xwr == 8 || xwr == 10 || xwr
                        == 12 || xwr == 14,
            ;
            lemma_with_xwr(self.0, xwr);
        }
        self.0 = (self.0 & !0xEu64) | xwr;
    }
}

/// An index into a page table: an integer below 512.
#[derive(Debug, Clone, Copy)]
pub struct PageTableIndex(u16);

impl View for PageTableIndex {
    type V = usize;

    closed spec fn view(&self) -> usize {
        self.0 as usize
    }
}

impl PageTableIndex {
    #[verifier::type_invariant]
    spec fn in_range(self) -> bool {
        self.0 < 512
    }

    /// The index `val`, which must be below 512.
    pub fn new(val: u16) -> (index: Self)
        requires
            val < 512,
        ensures
            index@ == val,
    {
        Self(val)
    }

    /// The index as a position in a table.
    pub fn as_addr(&self) -> (addr: usize)
        ensures
            addr == self@,
            addr < 512,
    {
        proof {
            use_type_invariant(self);
        }
        self.0 as usize
    }
}

impl From<PageTableIndex> for usize {
    fn from(value: PageTableIndex) -> (r: usize) {
        value.0 as usize
    }
}

impl vstd::std_specs::convert::FromSpecImpl<PageTableIndex> for usize {
    open spec fn obeys_from_spec() -> bool {
        true
    }

    open spec fn from_spec(value: PageTableIndex) -> usize {
        value@
    }
}

/// A page table: 512 entries in the frame at `phys_addr`. The table is a
/// handle; its entries are read and written through the memory that holds
/// the frame.
#[derive(Debug, Clone, Copy, PartialEq, Eq, Structural)]
pub struct PageTable {
    pub phys_addr: usize,
}


/// What `allocate_intermediary` hands back: the child table, its physical
/// address, and whether a frame was allocated for it.
#[derive(Debug, Clone, Copy, PartialEq, Eq, Structural)]
pub struct IntermediaryPageTableResult {
    pub page_table: PageTable,
    pub physical_starting_memory_address: usize,
    pub allocated: bool,
}

/// Entry `index` of the table at `table`.
pub open spec fn entry_at(mem: MemoryView, table: usize, index: int) -> PageTableEntry {
    PageTableEntry(mem.word(table, index))
}

/// The table that entry `index` of the table at `table` links to: the entry
/// is an intermediary and the frame it names is a page of the memory.
pub open spec fn child_of(mem: MemoryView, table: usize, index: int) -> Option<usize> {
    let e = entry_at(mem, table, index);
    if e.is_intermediary() && mem.holds_page(e.phys_addr_spec()) {
        Some(e.phys_addr_spec())
    } else {
        None
    }
}

/// The page with indices `l1`, `l2`, `l3` can be mapped under `root`: the
/// path to it ends in an unused entry, at whatever level, and every entry
/// before that is a link to a table in memory.
pub open spec fn is_free_spec(mem: MemoryView, root: usize, l1: int, l2: int, l3: int) -> bool {
    if entry_at(mem, root, l1).is_unused_spec() {
        true
    } else {
        match child_of(mem, root, l1) {
            None => false,
            Some(second) => if entry_at(mem, second, l2).is_unused_spec() {
                true
            } else {
                match child_of(mem, second, l2) {
                    None => false,
                    Some(third) => entry_at(mem, third, l3).is_unused_spec(),
                }
            },
        }
    }
}

/// The entries `start .. start + count` of the table at `table` exist and
/// all read as `NextLevel`, which in a leaf table means "free slot".
pub open spec fn cells_free(mem: MemoryView, table: usize, start: int, count: int) -> bool {
    &&& 0 <= start
    &&& 0 < count
    &&& start + count <= 512
    &&& forall|k: int|
        start <= k < start + count ==> (#[trigger] entry_at(mem, table, k)).kind_spec() == PTEKind::NextLevel
}

/// The lowest start at or after `from` of `count` free cells in a row.
pub open spec fn first_free_cells_from(mem: MemoryView, table: usize, count: int, from: int) -> Option<int>
    decreases 512 - from,
{
    if from < 0 || count <= 0 || from + count > 512 {
        None
    } else if cells_free(mem, table, from, count) {
        Some(from)
    } else {
        first_free_cells_from(mem, table, count, from + 1)
    }
}

/// The lowest start of `count` free cells in a row in the table at `table`.
pub open spec fn first_free_cells(mem: MemoryView, table: usize, count: int) -> Option<int> {
    first_free_cells_from(mem, table, count, 0)
}

/// `first_free_cells_from` finds free cells, and none start between `from`
/// and what it finds; where it finds none, none start at or after `from`.
pub proof fn lemma_first_free_cells_from(mem: MemoryView, table: usize, count: int, from: int)
    requires
        0 <= from,
    ensures
        match first_free_cells_from(mem, table, count, from) {
            Some(start) => from <= start && cells_free(mem, table, start, count) && forall|j: int|
                from <= j < start ==> !cells_free(mem, table, j, count),
            None => forall|j: int| from <= j ==> !cells_free(mem, table, j, count),
        },
    decreases 512 - from,
{
    if from < 0 || count <= 0 || from + count > 512 {
    } else if cells_free(mem, table, from, count) {
    } else {
        lemma_first_free_cells_from(mem, table, count, from + 1);
    }
}

/// What `next_level` does to the frame table, and the table it returns.
pub open spec fn next_level_spec(entry: PageTableEntry, frames: Seq<SegmentView>) -> (
    Seq<SegmentView>,
    Option<PageTable>,
) {
    if entry.is_intermediary() {
        (frames, Some(PageTable { phys_addr: entry.phys_addr_spec() }))
    } else if entry.is_unused_spec() {
        let (after, r) = table_alloc_front(frames, 1, FrameState::PageTable, 0);
        match r {
            Some(a) => (after, Some(PageTable { phys_addr: a.phys_addr })),
            None => (after, None),
        }
    } else {
        (frames, None)
    }
}

/// What `allocate_intermediary` does to memory and frame table, and what it
/// returns.
pub open spec fn allocate_intermediary_spec(
    mem: MemoryView,
    frames: Seq<SegmentView>,
    table: usize,
    index: int,
) -> (MemoryView, Seq<SegmentView>, Result<IntermediaryPageTableResult, ()>) {
    let e = entry_at(mem, table, index);
    if e.is_unused_spec() {
        let (after, r) = table_alloc_front(frames, 1, FrameState::PageTable, 0);
        match r {
            Some(a) => (
                mem.zero_page(a.phys_addr).write(
                    table,
                    index,
                    PageTableEntry::encode(a.phys_addr as u64, FLAG_V).0,
                ),
                after,
                Ok(
                    IntermediaryPageTableResult {
                        page_table: PageTable { phys_addr: a.phys_addr },
                        physical_starting_memory_address: a.phys_addr,
                        allocated: true,
                    },
                ),
            ),
            None => (mem, after, Err(())),
        }
    } else if e.is_intermediary() {
        (
            mem,
            frames,
            Ok(
                IntermediaryPageTableResult {
                    page_table: PageTable { phys_addr: e.phys_addr_spec() },
                    physical_starting_memory_address: e.phys_addr_spec(),
                    allocated: false,
                },
            ),
        )
    } else {
        (mem, frames, Err(()))
    }
}

impl PageTableEntry {
    /// The table an entry leads to. A valid intermediary with a page number
    /// other than zero gives the table it names. An unused entry gives a
    /// freshly allocated `PageTable` frame, or `None` where the frame table
    /// is exhausted; the entry itself stays zero until the caller commits.
    /// Any other entry (a leaf, or a non-standard one) gives `None`.
    pub fn next_level(&self, frame_table: &mut FrameTable) -> (r: Option<PageTable>)
        requires
            old(frame_table).wf(),
        ensures
            (final(frame_table)@, r) == next_level_spec(*self, old(frame_table)@),
            final(frame_table).wf(),
            crate::frame_table::same_layout(final(frame_table)@, old(frame_table)@),
    {
        if self.is_valid() && self.kind() == PTEKind::NextLevel && self.phys_addr() != 0 {
            Some(PageTable { phys_addr: self.phys_addr() })
        } else if self.is_unused() {
            match frame_table.alloc_front(1, FrameState::PageTable, 0) {
                Some(allocation) => Some(PageTable { phys_addr: allocation.phys_addr }),
                None => None,
            }
        } else {
            None
        }
    }
}

impl PageTable {
    /// The table whose frame is at `pointer`.
    pub fn from_pointer(pointer: usize) -> (table: Self)
        ensures
            table.phys_addr == pointer,
    {
        Self { phys_addr: pointer }
    }

    /// Reads entry `index`.
    pub fn entry(&self, mem: &PhysicalMemory, index: usize) -> (e: PageTableEntry)
        requires
            mem.wf(),
            mem@.holds_page(self.phys_addr),
            index < 512,
        ensures
            e == entry_at(mem@, self.phys_addr, index as int),
    {
        PageTableEntry(mem.read(self.phys_addr, index))
    }

    /// The table that entry `index` links to, where it links to one in
    /// memory.
    pub fn child(&self, mem: &PhysicalMemory, index: usize) -> (r: Option<PageTable>)
        requires
            mem.wf(),
            mem@.holds_page(self.phys_addr),
            index < 512,
        ensures
            r == match child_of(mem@, self.phys_addr, index as int) {
                Some(addr) => Some(PageTable { phys_addr: addr }),
                None => None,
            },
    {
        let e = self.entry(mem, index);
        if e.is_valid() && e.kind() == PTEKind::NextLevel && e.phys_addr() != 0 && mem.holds_page(
            e.phys_addr(),
        ) {
            Some(PageTable { phys_addr: e.phys_addr() })
        } else {
            None
        }
    }

    /// Whether the page with the given indices can be mapped under this
    /// root.
    pub fn is_free(
        &self,
        mem: &PhysicalMemory,
        l1_index: PageTableIndex,
        l2_index: PageTableIndex,
        l3_index: PageTableIndex,
    ) -> (free: bool)
        requires
            mem.wf(),
            mem@.holds_page(self.phys_addr),
        ensures
            free == is_free_spec(mem@, self.phys_addr, l1_index@ as int, l2_index@ as int, l3_index@ as int),
    {
        let e1 = self.entry(mem, l1_index.as_addr());
        if e1.is_unused() {
            return true;
        }
        match self.child(mem, l1_index.as_addr()) {
            None => false,
            Some(p2) => {
                let e2 = p2.entry(mem, l2_index.as_addr());
                if e2.is_unused() {
                    return true;
                }
                match p2.child(mem, l2_index.as_addr()) {
                    None => false,
                    Some(p3) => {
                        let e3 = p3.entry(mem, l3_index.as_addr());
                        e3.is_unused()
                    },
                }
            },
        }
    }

    /// Writes a mapping to `address` with `flags` into entry `index`,
    /// whatever the entry held.
    pub fn make_mapping(&self, mem: &mut PhysicalMemory, index: PageTableIndex, address: usize, flags: u64)
        requires
            old(mem).wf(),
            old(mem)@.holds_page(self.phys_addr),
        ensures
            final(mem)@ == old(mem)@.write(
                self.phys_addr,
                index@ as int,
                PageTableEntry::encode(address as u64, flags).0,
            ),
            final(mem).wf(),
            final(mem)@.base == old(mem)@.base,
            final(mem)@.words.len() == old(mem)@.words.len(),
    {
        let mut e = PageTableEntry(0);
        e.set(address as u64, flags);
        mem.write(self.phys_addr, index.as_addr(), e.0);
    }

    /// Makes entry `index` a link to a child table and returns the child.
    /// An unused entry gets a freshly allocated, zero-filled `PageTable`
    /// frame, written with V alone; an entry that already links to a table
    /// gives that table. Fails, changing nothing, where the entry is
    /// anything else or no frame is left.
    pub fn allocate_intermediary(
        &self,
        mem: &mut PhysicalMemory,
        index: PageTableIndex,
        frame_table: &mut FrameTable,
    ) -> (r: Result<IntermediaryPageTableResult, ()>)
        requires
            old(mem).wf(),
            old(frame_table).wf(),
            old(mem)@.backs(old(frame_table)@),
            old(mem)@.holds_page(self.phys_addr),
        ensures
            (final(mem)@, final(frame_table)@, r) == allocate_intermediary_spec(
                old(mem)@,
                old(frame_table)@,
                self.phys_addr,
                index@ as int,
            ),
            final(mem).wf(),
            final(frame_table).wf(),
            crate::frame_table::same_layout(final(frame_table)@, old(frame_table)@),
            final(mem)@.backs(final(frame_table)@),
    {
        let e = self.entry(mem, index.as_addr());
        if e.is_unused() {
            proof {
                crate::frame_table::lemma_table_alloc(
                    frame_table@,
                    true,
                    1,
                    FrameState::PageTable,
                    0,
                );
            }
            match frame_table.alloc_front(1, FrameState::PageTable, 0) {
                Some(allocation) => {
                    proof {
                        let (s, idx) = choose|s: int, idx: int| #[trigger]
                            crate::frame_table::is_run_of(old(frame_table)@, allocation, s, idx);
                        crate::physical_memory::lemma_backed_run(
                            mem@,
                            old(frame_table)@,
                            allocation,
                            s,
                            idx,
                        );
                    }
                    mem.zero_page(allocation.phys_addr);
                    let mut link = PageTableEntry(0);
                    link.set(allocation.phys_addr as u64, FLAG_V);
                    mem.write(self.phys_addr, index.as_addr(), link.0);
                    Ok(
                        IntermediaryPageTableResult {
                            page_table: PageTable { phys_addr: allocation.phys_addr },
                            physical_starting_memory_address: allocation.phys_addr,
                            allocated: true,
                        },
                    )
                },
                None => Err(()),
            }
        } else if e.phys_addr() != 0 && e.is_valid() && e.kind() == PTEKind::NextLevel {
            Ok(
                IntermediaryPageTableResult {
                    page_table: PageTable { phys_addr: e.phys_addr() },
                    physical_starting_memory_address: e.phys_addr(),
                    allocated: false,
                },
            )
        } else {
            Err(())
        }
    }

    /// The first index of a run of `page_count` entries that read as
    /// `NextLevel`; `None` where the table has no such run or `page_count`
    /// is 0.
    pub fn first_free_cells_accommodating(&self, mem: &PhysicalMemory, page_count: usize) -> (r: Option<
        usize,
    >)
        requires
            mem.wf(),
            mem@.holds_page(self.phys_addr),
        ensures
            first_free_cells(mem@, self.phys_addr, page_count as int) == match r {
                Some(start) => Some(start as int),
                None => None,
            },
            r matches Some(start) ==> cells_free(mem@, self.phys_addr, start as int, page_count as int)
                && forall|j: int| 0 <= j < start ==> !cells_free(mem@, self.phys_addr, j, page_count as int),
            r is None ==> forall|j: int| !cells_free(mem@, self.phys_addr, j, page_count as int),
    {
        let mut current_run_length: usize = 0;
        let mut i: usize = 0;
        while i < 512
            invariant
                i <= 512,
                mem.wf(),
                mem@.holds_page(self.phys_addr),
                current_run_length <= i,
                current_run_length < page_count || page_count == 0,
                forall|k: int|
                    i - current_run_length <= k < i ==> (#[trigger] entry_at(mem@, self.phys_addr, k)).kind_spec()
                        == PTEKind::NextLevel,
                forall|j: int|
                    0 <= j < i - current_run_length ==> !cells_free(mem@, self.phys_addr, j, page_count as int),
            decreases 512 - i,
        {
            let page = self.entry(mem, i);
            if page.kind() == PTEKind::NextLevel {
                current_run_length += 1;
                if current_run_length == page_count {
                    let start: usize = i + 1 - current_run_length;
                    assert(cells_free(mem@, self.phys_addr, start as int, page_count as int));
                    proof {
                        lemma_first_free_cells_from(mem@, self.phys_addr, page_count as int, 0);
                        match first_free_cells(mem@, self.phys_addr, page_count as int) {
                            Some(found) => {
                                if found < start {
                                    assert(!cells_free(mem@, self.phys_addr, found, page_count as int));
                                }
                            },
                            None => {},
                        }
                    }
                    return Some(start);
                }
            } else {
                assert forall|j: int| 0 <= j < i + 1 implies !cells_free(
                    mem@,
                    self.phys_addr,
                    j,
                    page_count as int,
                ) by {
                    if j >= i - current_run_length && j + page_count <= 512 && page_count > 0 {
                        assert(entry_at(mem@, self.phys_addr, i as int).kind_spec() != PTEKind::NextLevel);
                    }
                }
                current_run_length = 0;
            }
            i += 1;
        }
        proof {
            lemma_first_free_cells_from(mem@, self.phys_addr, page_count as int, 0);
            if let Some(found) = first_free_cells(mem@, self.phys_addr, page_count as int) {
                assert(!cells_free(mem@, self.phys_addr, found, page_count as int));
            }
        }
        None
    }
}


/// Root index of the self-referencing window.
pub const SELF_REF_ROOT_INDEX: u16 = 280;

/// Flags of a page-table frame mapped in the self-referencing window.
pub open spec fn window_flags() -> u64 {
    7
}

/// What taking one zero-filled `PageTable` frame does to memory and frame
/// table, and the frame taken.
pub open spec fn take_table_frame_spec(mem: MemoryView, frames: Seq<SegmentView>) -> (
    MemoryView,
    Seq<SegmentView>,
    Option<MemoryAllocation>,
) {
    let (after, r) = table_alloc_front(frames, 1, FrameState::PageTable, 0);
    match r {
        Some(a) => (mem.zero_page(a.phys_addr), after, r),
        None => (mem, after, r),
    }
}

/// What `meta_allocate_page_table` does to memory and frame table, and the
/// frame it returns.
#[verifier::opaque]
pub open spec fn meta_allocate_spec(mem: MemoryView, frames: Seq<SegmentView>, root: usize) -> (
    MemoryView,
    Seq<SegmentView>,
    Option<MemoryAllocation>,
) {
    let (mem1, frames1, r) = take_table_frame_spec(mem, frames);
    match r {
        None => (mem1, frames1, None),
        Some(a) => {
            let base = frames[0].first_page_addr;
            let pages_offset = (a.phys_addr - base) / 4096;
            let l1 = (pages_offset / 512) % 512;
            let l2 = pages_offset % 512;
            match child_of(mem1, root, SELF_REF_ROOT_INDEX as int) {
                None => (mem1, frames1, None),
                Some(window) => if a.phys_addr < base {
                    (mem1, frames1, None)
                } else if entry_at(mem1, window, l1).is_unused_spec() {
                    let (mem2, frames2, r2) = take_table_frame_spec(mem1, frames1);
                    match r2 {
                        None => (mem2, frames2, None),
                        Some(inter) => if l2 != 0 || a.phys_addr + 4096 != inter.phys_addr {
                            (mem2, frames2, None)
                        } else {
                            (
                                mem2.write(
                                    window,
                                    l1,
                                    PageTableEntry::encode(inter.phys_addr as u64, FLAG_V).0,
                                ).write(
                                    inter.phys_addr,
                                    0,
                                    PageTableEntry::encode(a.phys_addr as u64, window_flags()).0,
                                ).write(
                                    inter.phys_addr,
                                    1,
                                    PageTableEntry::encode(inter.phys_addr as u64, FLAG_V).0,
                                ),
                                frames2,
                                Some(a),
                            )
                        },
                    }
                } else {
                    match child_of(mem1, window, l1) {
                        None => (mem1, frames1, None),
                        Some(leaves) => if entry_at(mem1, leaves, l2).is_unused_spec() {
                            (
                                mem1.write(
                                    leaves,
                                    l2,
                                    PageTableEntry::encode(a.phys_addr as u64, window_flags()).0,
                                ),
                                frames1,
                                Some(a),
                            )
                        } else {
                            (mem1, frames1, None)
                        },
                    }
                },
            }
        },
    }
}

/// What following entry `index` of the table at `table` down one level
/// does, a table being meta-allocated and linked where the entry is unused:
/// memory and frame table afterwards, and the child table.
#[verifier::opaque]
pub open spec fn descend_spec(
    mem: MemoryView,
    frames: Seq<SegmentView>,
    root: usize,
    table: usize,
    index: int,
) -> (MemoryView, Seq<SegmentView>, Option<usize>) {
    if entry_at(mem, table, index).is_unused_spec() {
        let (mem1, frames1, r) = meta_allocate_spec(mem, frames, root);
        match r {
            None => (mem1, frames1, None),
            Some(a) => (
                mem1.write(table, index, PageTableEntry::encode(a.phys_addr as u64, FLAG_V).0),
                frames1,
                Some(a.phys_addr),
            ),
        }
    } else {
        (mem, frames, child_of(mem, table, index))
    }
}

/// What `virtually_map` does to memory and frame table, and whether the
/// leaf was installed.
pub open spec fn virtually_map_spec(
    mem: MemoryView,
    frames: Seq<SegmentView>,
    root: usize,
    l1: int,
    l2: int,
    l3: int,
    phys_addr: usize,
    flags: u64,
) -> (MemoryView, Seq<SegmentView>, bool) {
    let (mem1, frames1, second) = descend_spec(mem, frames, root, root, l1);
    match second {
        None => (mem1, frames1, false),
        Some(second) => {
            let (mem2, frames2, third) = descend_spec(mem1, frames1, root, second, l2);
            match third {
                None => (mem2, frames2, false),
                Some(third) => (
                    mem2.write(third, l3, PageTableEntry::encode(phys_addr as u64, flags).0),
                    frames2,
                    true,
                ),
            }
        },
    }
}

/// The leaf table under `root` at indices `l1`, `l2`, where both links
/// exist.
pub open spec fn leaf_table(mem: MemoryView, root: usize, l1: int, l2: int) -> Option<usize> {
    match child_of(mem, root, l1) {
        Some(second) => child_of(mem, second, l2),
        None => None,
    }
}

/// The leaf table at position `at` (root index times 512 plus second-level
/// index) exists and has `count` free cells in a row.
pub open spec fn hosts_run(mem: MemoryView, root: usize, count: int, at: int) -> bool {
    match leaf_table(mem, root, at / 512, at % 512) {
        Some(leaves) => first_free_cells(mem, leaves, count) is Some,
        None => false,
    }
}

/// The first position at or after `from`, in index order, whose leaf table
/// hosts a run of `count` free cells.
pub open spec fn first_host_from(mem: MemoryView, root: usize, count: int, from: int) -> Option<int>
    decreases 512 * 512 - from,
{
    if from < 0 || from >= 512 * 512 {
        None
    } else if hosts_run(mem, root, count, from) {
        Some(from)
    } else {
        first_host_from(mem, root, count, from + 1)
    }
}

/// The memory after the cells `start .. start + count` of the table at
/// `table` have been mapped to the pages from `phys_addr` on, with `flags`.
pub open spec fn write_run(
    mem: MemoryView,
    table: usize,
    start: int,
    count: int,
    phys_addr: usize,
    flags: u64,
) -> MemoryView
    decreases count,
{
    if count <= 0 {
        mem
    } else {
        write_run(mem, table, start, count - 1, phys_addr, flags).write(
            table,
            start + count - 1,
            PageTableEntry::encode((phys_addr + 4096 * (count - 1)) as u64, flags).0,
        )
    }
}

/// What `create_allocation_pages` does to memory and frame table, and the
/// virtual address it returns.
pub open spec fn create_allocation_pages_spec(
    mem: MemoryView,
    frames: Seq<SegmentView>,
    root: usize,
    page_count: usize,
    flags: u64,
) -> (MemoryView, Seq<SegmentView>, Result<u64, ()>) {
    match first_host_from(mem, root, page_count as int, 0) {
        None => (mem, frames, Err(())),
        Some(at) => {
            let leaves = leaf_table(mem, root, at / 512, at % 512).unwrap();
            let start = first_free_cells(mem, leaves, page_count as int).unwrap();
            let (after, r) = table_alloc_back(frames, page_count, FrameState::Kernel, 0);
            match r {
                None => (mem, after, Err(())),
                Some(a) => (
                    write_run(mem, leaves, start, page_count as int, a.phys_addr, flags),
                    after,
                    Ok(compose_spec((at / 512) as u64, (at % 512) as u64, start as u64, 0)),
                ),
            }
        },
    }
}

/// A row of the root without a second-level table hosts nothing.
proof fn lemma_row_without_table(mem: MemoryView, root: usize, count: int, l1: int, l2: int)
    requires
        0 <= l1 < 512,
        0 <= l2 <= 512,
        child_of(mem, root, l1) is None,
    ensures
        first_host_from(mem, root, count, l1 * 512 + l2) == first_host_from(
            mem,
            root,
            count,
            (l1 + 1) * 512,
        ),
    decreases 512 - l2,
{
    if l2 < 512 {
        assert((l1 * 512 + l2) / 512 == l1);
        lemma_row_without_table(mem, root, count, l1, l2 + 1);
    }
}

/// Takes one `PageTable` frame from the front of the frame table and fills
/// it with zeros.
pub(crate) fn take_table_frame(mem: &mut PhysicalMemory, frame_table: &mut FrameTable) -> (r: Option<
    MemoryAllocation,
>)
    requires
        old(mem).wf(),
        old(frame_table).wf(),
        old(mem)@.backs(old(frame_table)@),
    ensures
        (final(mem)@, final(frame_table)@, r) == take_table_frame_spec(old(mem)@, old(frame_table)@),
        final(mem).wf(),
        final(frame_table).wf(),
        crate::frame_table::same_layout(final(frame_table)@, old(frame_table)@),
        final(mem)@.backs(final(frame_table)@),
        final(mem)@.base == old(mem)@.base,
        final(mem)@.words.len() == old(mem)@.words.len(),
        r matches Some(a) ==> old(mem)@.holds_page(a.phys_addr) && old(frame_table)@.len() > 0
            && a.page_count == 1,
{
    proof {
        crate::frame_table::lemma_table_alloc(frame_table@, true, 1, FrameState::PageTable, 0);
    }
    match frame_table.alloc_front(1, FrameState::PageTable, 0) {
        Some(allocation) => {
            proof {
                let (s, idx) = choose|s: int, idx: int| #[trigger]
                    crate::frame_table::is_run_of(old(frame_table)@, allocation, s, idx);
                crate::physical_memory::lemma_backed_run(
                    mem@,
                    old(frame_table)@,
                    allocation,
                    s,
                    idx,
                );
            }
            mem.zero_page(allocation.phys_addr);
            Some(allocation)
        },
        None => None,
    }
}

impl PageTable {
    /// Allocates a frame for a page table and maps it in the
    /// self-referencing window of this root, at the slot that the frame's
    /// index in the frame table selects. Returns the frame.
    ///
    /// `None` where no frame is left, the window is missing, the slot is
    /// taken, or a new window table is needed and the frame is not first in
    /// it or the table's own frame does not follow it directly. Frames taken
    /// before the failure stay taken.
    pub fn meta_allocate_page_table(&self, mem: &mut PhysicalMemory, frame_table: &mut FrameTable) -> (r:
        Option<MemoryAllocation>)
        requires
            old(mem).wf(),
            old(frame_table).wf(),
            old(mem)@.backs(old(frame_table)@),
            old(mem)@.holds_page(self.phys_addr),
        ensures
            (final(mem)@, final(frame_table)@, r) == meta_allocate_spec(
                old(mem)@,
                old(frame_table)@,
                self.phys_addr,
            ),
            final(mem).wf(),
            final(frame_table).wf(),
            crate::frame_table::same_layout(final(frame_table)@, old(frame_table)@),
            final(mem)@.backs(final(frame_table)@),
            final(mem)@.base == old(mem)@.base,
            final(mem)@.words.len() == old(mem)@.words.len(),
            r matches Some(a) ==> old(mem)@.holds_page(a.phys_addr),
            r matches Some(a) ==> (crate::page_table::space::tidy(
                old(mem)@,
                old(frame_table)@,
                self.phys_addr,
            ) ==> crate::page_table::space::tidy(final(mem)@, final(frame_table)@, self.phys_addr)
                && crate::page_table::space::mapping(
                final(mem)@,
                self.phys_addr,
                280,
                crate::page_table::space::window_slot(old(frame_table)@, a.phys_addr).0,
                crate::page_table::space::window_slot(old(frame_table)@, a.phys_addr).1,
            ) == Some(a.phys_addr as u64)),
    {
        proof {
            if crate::page_table::space::tidy(mem@, frame_table@, self.phys_addr) && meta_allocate_spec(
                mem@,
                frame_table@,
                self.phys_addr,
            ).2 is Some {
                crate::page_table::space::lemma_meta_allocate_keeps_tidy(mem@, frame_table@, self.phys_addr);
            }
        }
        reveal(meta_allocate_spec);
        let allocation = match take_table_frame(mem, frame_table) {
            Some(a) => a,
            None => { return None; },
        };
        let base: usize = match frame_table.root_frame_address() {
            Some(b) => b,
            None => { return None; },
        };
        let window = match self.child(mem, SELF_REF_ROOT_INDEX as usize) {
            Some(w) => w,
            None => { return None; },
        };
        if allocation.phys_addr < base {
            return None;
        }
        let pages_offset: usize = (allocation.phys_addr - base) / 4096;
        let l1_index: usize = (pages_offset / 512) % 512;
        let l2_index: usize = pages_offset % 512;
        let link = window.entry(mem, l1_index);
        if link.is_unused() {
            let intermediary = match take_table_frame(mem, frame_table) {
                Some(a) => a,
                None => { return None; },
            };
            if l2_index != 0 || intermediary.phys_addr < 4096 || allocation.phys_addr
                != intermediary.phys_addr - 4096 {
                return None;
            }
            let leaves = PageTable { phys_addr: intermediary.phys_addr };
            mem.write(
                window.phys_addr,
                l1_index,
                PageTableEntry(((intermediary.phys_addr as u64 >> 12) << 10) | FLAG_V).0,
            );
            leaves.make_mapping(mem, PageTableIndex::new(0), allocation.phys_addr, FLAG_V | FLAG_R | FLAG_W);
            leaves.make_mapping(mem, PageTableIndex::new(1), intermediary.phys_addr, FLAG_V);
            assert(FLAG_V | FLAG_R | FLAG_W == 7) by (bit_vector);
            Some(allocation)
        } else {
            let leaves = match window.child(mem, l1_index) {
                Some(t) => t,
                None => { return None; },
            };
            let entry = leaves.entry(mem, l2_index);
            if !entry.is_unused() {
                return None;
            }
            assert(FLAG_V | FLAG_R | FLAG_W == 7) by (bit_vector);
            let slot = PageTableIndex::new(l2_index as u16);
            leaves.make_mapping(mem, slot, allocation.phys_addr, FLAG_V | FLAG_R | FLAG_W);
            Some(allocation)
        }
    }

    /// Follows entry `index` of `table` down one level. An unused entry gets
    /// a meta-allocated table, linked with V alone.
    fn descend(
        &self,
        mem: &mut PhysicalMemory,
        frame_table: &mut FrameTable,
        table: PageTable,
        index: PageTableIndex,
    ) -> (r: Option<PageTable>)
        requires
            old(mem).wf(),
            old(frame_table).wf(),
            old(mem)@.backs(old(frame_table)@),
            old(mem)@.holds_page(self.phys_addr),
            old(mem)@.holds_page(table.phys_addr),
        ensures
            (final(mem)@, final(frame_table)@, match r {
                Some(t) => Some(t.phys_addr),
                None => None,
            }) == descend_spec(
                old(mem)@,
                old(frame_table)@,
                self.phys_addr,
                table.phys_addr,
                index@ as int,
            ),
            final(mem).wf(),
            final(frame_table).wf(),
            crate::frame_table::same_layout(final(frame_table)@, old(frame_table)@),
            final(mem)@.backs(final(frame_table)@),
            final(mem)@.base == old(mem)@.base,
            final(mem)@.words.len() == old(mem)@.words.len(),
            r matches Some(t) ==> old(mem)@.holds_page(t.phys_addr),
    {
        reveal(descend_spec);
        let e = table.entry(mem, index.as_addr());
        if e.is_unused() {
            match self.meta_allocate_page_table(mem, frame_table) {
                None => None,
                Some(allocation) => {
                    table.make_mapping(mem, index, allocation.phys_addr, FLAG_V);
                    Some(PageTable { phys_addr: allocation.phys_addr })
                },
            }
        } else {
            table.child(mem, index.as_addr())
        }
    }

    /// Maps the page with indices `l1`, `l2`, `l3` to `phys_addr` with
    /// `flags`: descends from this root, meta-allocating and linking a table
    /// wherever an entry on the way is unused, and writes the leaf. Fails
    /// where an entry on the way is neither unused nor a link to a table in
    /// memory, or a table cannot be meta-allocated; what was allocated and
    /// linked before the failure stays.
    pub fn virtually_map(
        &self,
        mem: &mut PhysicalMemory,
        frame_table: &mut FrameTable,
        l1_index: PageTableIndex,
        l2_index: PageTableIndex,
        l3_index: PageTableIndex,
        phys_addr: usize,
        flags: u64,
    ) -> (r: Result<(), ()>)
        requires
            old(mem).wf(),
            old(frame_table).wf(),
            old(mem)@.backs(old(frame_table)@),
            old(mem)@.holds_page(self.phys_addr),
        ensures
            (final(mem)@, final(frame_table)@, r is Ok) == virtually_map_spec(
                old(mem)@,
                old(frame_table)@,
                self.phys_addr,
                l1_index@ as int,
                l2_index@ as int,
                l3_index@ as int,
                phys_addr,
                flags,
            ),
            final(mem).wf(),
            final(frame_table).wf(),
            crate::frame_table::same_layout(final(frame_table)@, old(frame_table)@),
            final(mem)@.backs(final(frame_table)@),
            final(mem)@.base == old(mem)@.base,
            final(mem)@.words.len() == old(mem)@.words.len(),
            r is Ok && crate::page_table::space::tidy(old(mem)@, old(frame_table)@, self.phys_addr)
                && l1_index@ != 280 && crate::page_table::space::leaf_flags(flags) && phys_addr % 4096 == 0
                && phys_addr < 0x0100_0000_0000_0000 ==> crate::page_table::space::tidy(
                final(mem)@,
                final(frame_table)@,
                self.phys_addr,
            ) && crate::page_table::space::mapping(
                final(mem)@,
                self.phys_addr,
                l1_index@ as int,
                l2_index@ as int,
                l3_index@ as int,
            ) == Some(phys_addr as u64),
    {
        let at1: usize = l1_index.as_addr();
        let at2: usize = l2_index.as_addr();
        let at3: usize = l3_index.as_addr();
        proof {
            let l1 = at1 as int;
            let l2 = at2 as int;
            let l3 = at3 as int;
            if crate::page_table::space::tidy(mem@, frame_table@, self.phys_addr) && l1 != 280
                && crate::page_table::space::leaf_flags(flags) && phys_addr % 4096 == 0 && phys_addr
                < 0x0100_0000_0000_0000 && virtually_map_spec(
                mem@,
                frame_table@,
                self.phys_addr,
                l1,
                l2,
                l3,
                phys_addr,
                flags,
            ).2 {
                crate::page_table::space::law_virtually_map_maps(
                    mem@,
                    frame_table@,
                    self.phys_addr,
                    l1,
                    l2,
                    l3,
                    phys_addr,
                    flags,
                );
            }
        }
        let second = match self.descend(mem, frame_table, *self, l1_index) {
            Some(t) => t,
            None => { return Err(()); },
        };
        let third = match self.descend(mem, frame_table, second, l2_index) {
            Some(t) => t,
            None => { return Err(()); },
        };
        let ghost frames = frame_table@;
        assert(mem@.backs(frames));
        third.make_mapping(mem, l3_index, phys_addr, flags);
        assert(mem@.backs(frames));
        Ok(())
    }

    /// Maps the cells `start .. start + count` of this table to the pages
    /// from `phys_addr` on, each with `flags`.
    fn map_run(&self, mem: &mut PhysicalMemory, start: usize, count: usize, phys_addr: usize, flags: u64)
        requires
            old(mem).wf(),
            old(mem)@.holds_page(self.phys_addr),
            start + count <= 512,
            phys_addr + 4096 * count <= usize::MAX,
        ensures
            final(mem)@ == write_run(
                old(mem)@,
                self.phys_addr,
                start as int,
                count as int,
                phys_addr,
                flags,
            ),
            final(mem).wf(),
            final(mem)@.base == old(mem)@.base,
            final(mem)@.words.len() == old(mem)@.words.len(),
    {
        let mut i: usize = 0;
        while i < count
            invariant
                i <= count,
                start + count <= 512,
                phys_addr + 4096 * count <= usize::MAX,
                mem.wf(),
                mem@.base == old(mem)@.base,
                mem@.words.len() == old(mem)@.words.len(),
                old(mem)@.holds_page(self.phys_addr),
                mem@ == write_run(old(mem)@, self.phys_addr, start as int, i as int, phys_addr, flags),
            decreases count - i,
        {
            let cell = PageTableIndex::new((start + i) as u16);
            self.make_mapping(mem, cell, phys_addr + 4096 * i, flags);
            i += 1;
        }
    }

    /// Backs `page_count` fresh virtual pages with frames and returns their
    /// virtual base address.
    ///
    /// The leaf tables that already exist under this root are visited in
    /// index order. The first one with `page_count` entries in a row that
    /// read as `NextLevel` hosts the pages: that many `Kernel` frames are
    /// taken from the back of the frame table and mapped there with `flags`.
    /// Fails, changing nothing, where no leaf table has such a run or the
    /// frame table has no such run of frames.
    pub fn create_allocation_pages(
        &self,
        mem: &mut PhysicalMemory,
        page_count: usize,
        frame_table: &mut FrameTable,
        flags: u64,
    ) -> (r: Result<u64, ()>)
        requires
            page_count <= 512,
            old(mem).wf(),
            old(frame_table).wf(),
            old(mem)@.backs(old(frame_table)@),
            old(mem)@.holds_page(self.phys_addr),
        ensures
            (final(mem)@, final(frame_table)@, r) == create_allocation_pages_spec(
                old(mem)@,
                old(frame_table)@,
                self.phys_addr,
                page_count,
                flags,
            ),
            final(mem).wf(),
            final(frame_table).wf(),
            crate::frame_table::same_layout(final(frame_table)@, old(frame_table)@),
            final(mem)@.backs(final(frame_table)@),
            r is Err ==> final(mem)@ == old(mem)@ && final(frame_table)@ == old(frame_table)@,
            crate::page_table::space::tidy(old(mem)@, old(frame_table)@, self.phys_addr)
                ==> crate::page_table::space::tidy(final(mem)@, final(frame_table)@, self.phys_addr),
            r matches Ok(base) ==> (crate::page_table::space::tidy(
                old(mem)@,
                old(frame_table)@,
                self.phys_addr,
            ) && crate::page_table::space::leaf_flags(flags) ==> crate::page_table::space::pages_mapped(
                final(mem)@,
                self.phys_addr,
                base,
                table_alloc_back(old(frame_table)@, page_count, FrameState::Kernel, 0).1.unwrap().phys_addr,
                page_count as int,
            )),
    {
        let mut l1: usize = 0;
        while l1 < 512
            invariant
                l1 <= 512,
                page_count <= 512,
                mem.wf(),
                frame_table.wf(),
                mem@ == old(mem)@,
                frame_table@ == old(frame_table)@,
                mem@.backs(frame_table@),
                mem@.holds_page(self.phys_addr),
                first_host_from(mem@, self.phys_addr, page_count as int, 0) == first_host_from(
                    mem@,
                    self.phys_addr,
                    page_count as int,
                    l1 * 512,
                ),
            decreases 512 - l1,
        {
            match self.child(mem, l1) {
                None => {
                    proof {
                        lemma_row_without_table(mem@, self.phys_addr, page_count as int, l1 as int, 0);
                    }
                },
                Some(second) => {
                    let mut l2: usize = 0;
                    while l2 < 512
                        invariant
                            l1 < 512,
                            l2 <= 512,
                            page_count <= 512,
                            mem.wf(),
                            frame_table.wf(),
                            mem@ == old(mem)@,
                            frame_table@ == old(frame_table)@,
                            mem@.backs(frame_table@),
                            mem@.holds_page(self.phys_addr),
                            mem@.holds_page(second.phys_addr),
                            child_of(mem@, self.phys_addr, l1 as int) == Some(second.phys_addr),
                            first_host_from(mem@, self.phys_addr, page_count as int, 0)
                                == first_host_from(
                                mem@,
                                self.phys_addr,
                                page_count as int,
                                l1 * 512 + l2,
                            ),
                        decreases 512 - l2,
                    {
                        let ghost at: int = l1 * 512 + l2;
                        assert(at / 512 == l1 && at % 512 == l2);
                        match second.child(mem, l2) {
                            None => {},
                            Some(leaves) => {
                                match leaves.first_free_cells_accommodating(mem, page_count) {
                                    None => {},
                                    Some(start) => {
                                        assert(hosts_run(mem@, self.phys_addr, page_count as int, at));
                                        proof {
                                            crate::frame_table::lemma_table_alloc(
                                                frame_table@,
                                                false,
                                                page_count,
                                                FrameState::Kernel,
                                                0,
                                            );
                                        }
                                        match frame_table.alloc_back(page_count, FrameState::Kernel, 0) {
                                            None => {
                                                return Err(());
                                            },
                                            Some(frames) => {
                                                proof {
                                                    let (s, idx) = choose|s: int, idx: int| #[trigger]
                                                        crate::frame_table::is_run_of(
                                                            old(frame_table)@,
                                                            frames,
                                                            s,
                                                            idx,
                                                        );
                                                    assert(old(frame_table)@[s].wf());
                                                }
                                                leaves.map_run(mem, start, page_count, frames.phys_addr, flags);
                                                let base = crate::page_table::virt_map::compose_virt_addr(
                                                    PageTableIndex::new(l1 as u16),
                                                    PageTableIndex::new(l2 as u16),
                                                    PageTableIndex::new(start as u16),
                                                    0,
                                                );
                                                proof {
                                                    if crate::page_table::space::tidy(
                                                        old(mem)@,
                                                        old(frame_table)@,
                                                        self.phys_addr,
                                                    ) {
                                                        crate::page_table::space::law_created_pages_in_tidy_space(
                                                            old(mem)@,
                                                            old(frame_table)@,
                                                            self.phys_addr,
                                                            page_count,
                                                            flags,
                                                        );
                                                    }
                                                }
                                                return Ok(base);
                                            },
                                        }
                                    },
                                }
                            },
                        }
                        assert(!hosts_run(mem@, self.phys_addr, page_count as int, at));
                        l2 += 1;
                    }
                },
            }
            l1 += 1;
        }
        Err(())
    }
}


/// `first_host_from` finds a position whose leaf table hosts the run, and
/// no position between `from` and it does; where it finds none, none at or
/// after `from` does.
pub proof fn lemma_first_host_from(mem: MemoryView, root: usize, count: int, from: int)
    requires
        0 <= from,
    ensures
        match first_host_from(mem, root, count, from) {
            Some(at) => from <= at < 512 * 512 && hosts_run(mem, root, count, at) && forall|p: int|
                from <= p < at ==> !hosts_run(mem, root, count, p),
            None => forall|p: int| from <= p < 512 * 512 ==> !hosts_run(mem, root, count, p),
        },
    decreases 512 * 512 - from,
{
    if from < 512 * 512 && !hosts_run(mem, root, count, from) {
        lemma_first_host_from(mem, root, count, from + 1);
    }
}

/// What mapping a run changes: the cells of the run map the pages, each
/// with `flags`; nothing else has changed.
pub proof fn lemma_write_run(
    mem: MemoryView,
    table: usize,
    start: int,
    count: int,
    phys_addr: usize,
    flags: u64,
)
    requires
        mem.wf(),
        mem.holds_page(table),
        0 <= start,
        0 <= count,
        start + count <= 512,
    ensures
        write_run(mem, table, start, count, phys_addr, flags).wf(),
        write_run(mem, table, start, count, phys_addr, flags).base == mem.base,
        write_run(mem, table, start, count, phys_addr, flags).words.len() == mem.words.len(),
        forall|i: int|
            0 <= i < count ==> #[trigger] write_run(mem, table, start, count, phys_addr, flags).word(
                table,
                start + i,
            ) == PageTableEntry::encode((phys_addr + 4096 * i) as u64, flags).0,
        forall|page: usize, j: int|
            mem.holds_page(page) && 0 <= j < 512 && !(page == table && start <= j < start + count)
                ==> #[trigger] write_run(mem, table, start, count, phys_addr, flags).word(page, j) == mem.word(
                page,
                j,
            ),
    decreases count,
{
    if count > 0 {
        lemma_write_run(mem, table, start, count - 1, phys_addr, flags);
        let before = write_run(mem, table, start, count - 1, phys_addr, flags);
        let value = PageTableEntry::encode((phys_addr + 4096 * (count - 1)) as u64, flags).0;
        let after = write_run(mem, table, start, count, phys_addr, flags);
        assert(after == before.write(table, start + count - 1, value));
        crate::physical_memory::lemma_write(before, table, start + count - 1, value, table, start + count - 1);
        assert forall|i: int| 0 <= i < count implies #[trigger] after.word(table, start + i)
            == PageTableEntry::encode((phys_addr + 4096 * i) as u64, flags).0 by {
            crate::physical_memory::lemma_write(before, table, start + count - 1, value, table, start + i);
        }
        assert forall|page: usize, j: int|
            mem.holds_page(page) && 0 <= j < 512 && !(page == table && start <= j < start + count) implies #[trigger] after.word(
            page,
            j,
        ) == mem.word(page, j) by {
            crate::physical_memory::lemma_write(before, table, start + count - 1, value, page, j);
        }
    }
}

/// The pages that `create_allocation_pages` has installed are mapped: the
/// page walk from the root takes byte `offset` of page `i` of the range it
/// returned to byte `offset` of frame `i` of the frames it took.
///
/// The flags must make a valid leaf, the frames must lie below 2^56, and
/// the hosting leaf table must be neither the root nor its own parent.
pub proof fn law_created_pages_are_mapped(
    mem: MemoryView,
    frames: Seq<SegmentView>,
    root: usize,
    page_count: usize,
    flags: u64,
    i: int,
    offset: u64,
)
    requires
        mem.wf(),
        mem.end() <= 0x0100_0000_0000_0000,
        crate::frame_table::table_wf(frames),
        mem.backs(frames),
        mem.holds_page(root),
        page_count <= 512,
        flags < 1024,
        flags & 1 != 0,
        flags & 0xE != 0,
        0 <= i < page_count,
        offset < 4096,
        create_allocation_pages_spec(mem, frames, root, page_count, flags).2 is Ok,
        ({
            let at = first_host_from(mem, root, page_count as int, 0).unwrap();
            let second = child_of(mem, root, at / 512).unwrap();
            let leaves = leaf_table(mem, root, at / 512, at % 512).unwrap();
            leaves != root && leaves != second
        }),
    ensures
        ({
            let at = first_host_from(mem, root, page_count as int, 0).unwrap();
            let leaves = leaf_table(mem, root, at / 512, at % 512).unwrap();
            let start = first_free_cells(mem, leaves, page_count as int).unwrap();
            let taken = table_alloc_back(frames, page_count, FrameState::Kernel, 0).1.unwrap();
            let after = create_allocation_pages_spec(mem, frames, root, page_count, flags).0;
            let base = create_allocation_pages_spec(mem, frames, root, page_count, flags).2->Ok_0;
            &&& base + 4096 * i + offset <= u64::MAX
            &&& crate::page_table::virt_map::translate(after, root, (base + 4096 * i + offset) as u64)
                == Some(taken.phys_addr + 4096 * i + offset)
        }),
{
    let count = page_count as int;
    lemma_first_host_from(mem, root, count, 0);
    let at = first_host_from(mem, root, count, 0).unwrap();
    let l1 = at / 512;
    let l2 = at % 512;
    let second = child_of(mem, root, l1).unwrap();
    let leaves = leaf_table(mem, root, l1, l2).unwrap();
    lemma_first_free_cells_from(mem, leaves, count, 0);
    let start = first_free_cells(mem, leaves, count).unwrap();
    let (frames1, r) = table_alloc_back(frames, page_count, FrameState::Kernel, 0);
    let taken = r.unwrap();
    crate::frame_table::lemma_table_alloc(frames, false, page_count, FrameState::Kernel, 0);
    let (s, idx) = choose|s: int, idx: int| #[trigger] crate::frame_table::is_run_of(frames, taken, s, idx);
    assert(frames[s].wf());
    crate::physical_memory::lemma_backed_run(mem, frames, taken, s, idx);
    let after = write_run(mem, leaves, start, count, taken.phys_addr, flags);
    lemma_write_run(mem, leaves, start, count, taken.phys_addr, flags);
    let frame = (taken.phys_addr + 4096 * i) as usize;
    PageTableEntry::lemma_encode(frame, flags);
    let v = compose_spec(l1 as u64, l2 as u64, (start + i) as u64, offset);
    crate::page_table::virt_map::law_sv39_round_trip(l1 as u64, l2 as u64, (start + i) as u64, offset);
    crate::page_table::virt_map::lemma_compose_advances(l1 as u64, l2 as u64, start as u64, i as u64, offset);
    assert(after.word(root, l1) == mem.word(root, l1));
    assert(child_of(after, root, l1) == Some(second));
    assert(after.word(second, l2) == mem.word(second, l2));
    assert(child_of(after, second, l2) == Some(leaves));
    assert(entry_at(after, leaves, start + i) == PageTableEntry::encode(frame as u64, flags));
}


/// Where both tables on the way to a page exist, `virtually_map` allocates
/// nothing and writes the leaf alone, and the page is mapped afterwards:
/// the page walk from the root takes byte `offset` of the page to byte
/// `offset` of `phys_addr`.
///
/// The flags must make a valid leaf, `phys_addr` must be a page address
/// below 2^56, and the leaf table must be neither the root nor its own
/// parent.
pub proof fn law_mapped_page_translates(
    mem: MemoryView,
    frames: Seq<SegmentView>,
    root: usize,
    l1: u64,
    l2: u64,
    l3: u64,
    phys_addr: usize,
    flags: u64,
    offset: u64,
)
    requires
        mem.wf(),
        mem.holds_page(root),
        l1 < 512,
        l2 < 512,
        l3 < 512,
        offset < 4096,
        flags < 1024,
        flags & 1 != 0,
        flags & 0xE != 0,
        phys_addr % 4096 == 0,
        phys_addr < 0x0100_0000_0000_0000,
        leaf_table(mem, root, l1 as int, l2 as int) is Some,
        leaf_table(mem, root, l1 as int, l2 as int).unwrap() != root,
        leaf_table(mem, root, l1 as int, l2 as int) != child_of(mem, root, l1 as int),
    ensures
        ({
            let third = leaf_table(mem, root, l1 as int, l2 as int).unwrap();
            let (after, frames1, ok) = virtually_map_spec(
                mem,
                frames,
                root,
                l1 as int,
                l2 as int,
                l3 as int,
                phys_addr,
                flags,
            );
            &&& ok
            &&& frames1 == frames
            &&& after == mem.write(third, l3 as int, PageTableEntry::encode(phys_addr as u64, flags).0)
            &&& crate::page_table::virt_map::translate(after, root, compose_spec(l1, l2, l3, offset)) == Some(
                phys_addr + offset,
            )
        }),
{
    reveal(descend_spec);
    let second = child_of(mem, root, l1 as int).unwrap();
    let third = child_of(mem, second, l2 as int).unwrap();
    if entry_at(mem, root, l1 as int).is_unused_spec() {
        entry_at(mem, root, l1 as int).lemma_unused();
    }
    if entry_at(mem, second, l2 as int).is_unused_spec() {
        entry_at(mem, second, l2 as int).lemma_unused();
    }
    let value = PageTableEntry::encode(phys_addr as u64, flags).0;
    let after = mem.write(third, l3 as int, value);
    crate::physical_memory::lemma_write(mem, third, l3 as int, value, root, l1 as int);
    crate::physical_memory::lemma_write(mem, third, l3 as int, value, second, l2 as int);
    crate::physical_memory::lemma_write(mem, third, l3 as int, value, third, l3 as int);
    PageTableEntry::lemma_encode(phys_addr, flags);
    crate::page_table::virt_map::law_sv39_round_trip(l1, l2, l3, offset);
    assert(child_of(after, root, l1 as int) == Some(second));
    assert(child_of(after, second, l2 as int) == Some(third));
}

} // verus!
