//! Linear mappings and the decomposition of Sv39 addresses.
use crate::frame_table::{FrameTable, SegmentView};
use crate::page_table::{
    child_of, entry_at, is_free_spec, virtually_map_spec, PageTable, PageTableIndex, FLAG_R,
    FLAG_V, FLAG_W, FLAG_X,
};
use crate::physical_memory::{MemoryView, PhysicalMemory};
use vstd::prelude::*;

verus! {

/// A run of physical pages.
#[derive(Debug, Clone, Copy)]
pub struct PageRegion {
    /// Page-aligned physical address of the first page.
    pub address: usize,
    /// Number of pages.
    pub count: usize,
}

/// Why a linear mapping was not made.
#[derive(Debug, Clone, Copy, PartialEq, Eq, Structural)]
pub enum LinearMapError {
    /// Some target page is already mapped, or its path is blocked; nothing
    /// was changed.
    NotFree,
    /// The targets were free, but a table could not be allocated or linked
    /// while the mappings were installed.
    Exhausted,
}

/// The three table indices of a virtual page, from the root down.
#[derive(Debug, Clone, Copy)]
pub struct DecomposedVirtualPageAddress {
    pub l1_index: PageTableIndex,
    pub l2_index: PageTableIndex,
    pub l3_index: PageTableIndex,
}

/// Root-level index of a virtual page number: its bits 18-26.
pub open spec fn l1_of(page: u64) -> u64 {
    (page >> 18) & 0x1FF
}

/// Second-level index of a virtual page number: its bits 9-17.
pub open spec fn l2_of(page: u64) -> u64 {
    (page >> 9) & 0x1FF
}

/// Leaf-level index of a virtual page number: its bits 0-8.
pub open spec fn l3_of(page: u64) -> u64 {
    page & 0x1FF
}

/// The Sv39 virtual address with the given indices and offset: 39 bits,
/// sign-extended from bit 38.
pub open spec fn compose_spec(l1: u64, l2: u64, l3: u64, offset: u64) -> u64 {
    let low = (l1 << 30) | (l2 << 21) | (l3 << 12) | offset;
    if l1 >= 256 {
        low | 0xFFFF_FF80_0000_0000
    } else {
        low
    }
}

/// Bits 39-63 of `addr` all equal bit 38.
pub open spec fn is_canonical(addr: u64) -> bool {
    addr >> 38 == 0 || addr >> 38 == 0x3FF_FFFF
}

/// Every index of a page is below 512.
proof fn lemma_index_ranges(page: u64)
    by (bit_vector)
    ensures
        (page >> 18) & 0x1FF < 512,
        (page >> 9) & 0x1FF < 512,
        page & 0x1FF < 512,
{
}

/// The fields of a composed address are the indices and the offset it was
/// composed of.
proof fn lemma_compose_fields(l1: u64, l2: u64, l3: u64, offset: u64)
    by (bit_vector)
    requires
        l1 < 512,
        l2 < 512,
        l3 < 512,
        offset < 4096,
    ensures
        ({
            let low = (l1 << 30) | (l2 << 21) | (l3 << 12) | offset;
            let high = low | 0xFFFF_FF80_0000_0000;
            &&& ((low >> 12) >> 18) & 0x1FF == l1
            &&& ((low >> 12) >> 9) & 0x1FF == l2
            &&& (low >> 12) & 0x1FF == l3
            &&& low & 0xFFF == offset
            &&& ((high >> 12) >> 18) & 0x1FF == l1
            &&& ((high >> 12) >> 9) & 0x1FF == l2
            &&& (high >> 12) & 0x1FF == l3
            &&& high & 0xFFF == offset
            &&& low >> 39 == 0
            &&& l1 < 256 ==> low >> 38 == 0
            &&& l1 >= 256 ==> high >> 38 == 0x3FF_FFFF
            &&& high >> 39 == 0x1FF_FFFF
        }),
{
}

/// Composing an Sv39 address and taking it apart again gives the indices
/// and the offset back; the address is canonical, and for `l1 >= 256` its
/// bits 39-63 are all ones.
pub proof fn law_sv39_round_trip(l1: u64, l2: u64, l3: u64, offset: u64)
    requires
        l1 < 512,
        l2 < 512,
        l3 < 512,
        offset < 4096,
    ensures
        l1_of(compose_spec(l1, l2, l3, offset) >> 12) == l1,
        l2_of(compose_spec(l1, l2, l3, offset) >> 12) == l2,
        l3_of(compose_spec(l1, l2, l3, offset) >> 12) == l3,
        compose_spec(l1, l2, l3, offset) & 0xFFF == offset,
        is_canonical(compose_spec(l1, l2, l3, offset)),
        l1 >= 256 ==> compose_spec(l1, l2, l3, offset) >> 39 == 0x1FF_FFFF,
        l1 < 256 ==> compose_spec(l1, l2, l3, offset) >> 39 == 0,
{
    lemma_compose_fields(l1, l2, l3, offset);
}

/// Adding pages and an offset to a composed page address advances the
/// leaf index.
proof fn lemma_compose_step(l1: u64, l2: u64, l3: u64, i: u64, next: u64, offset: u64)
    by (bit_vector)
    requires
        l1 < 512,
        l2 < 512,
        l3 < 512,
        i < 512,
        next == l3 + i,
        next < 512,
        offset < 4096,
    ensures
        ((l1 << 30) | (l2 << 21) | (l3 << 12) | 0) + 4096 * i + offset == (l1 << 30) | (l2 << 21) | (next
            << 12) | offset,
        l1 >= 256 ==> (((l1 << 30) | (l2 << 21) | (l3 << 12) | 0) | 0xFFFF_FF80_0000_0000) + 4096 * i
            + offset == ((l1 << 30) | (l2 << 21) | (next << 12) | offset) | 0xFFFF_FF80_0000_0000,
{
}

/// Byte `offset` of the `i`-th page after the page with indices `l1`, `l2`,
/// `l3` in the same leaf table is at the address of that page plus
/// `4096 * i + offset`.
pub proof fn lemma_compose_advances(l1: u64, l2: u64, l3: u64, i: u64, offset: u64)
    requires
        l1 < 512,
        l2 < 512,
        l3 + i < 512,
        offset < 4096,
    ensures
        compose_spec(l1, l2, l3, 0) + 4096 * i + offset == compose_spec(l1, l2, (l3 + i) as u64, offset),
{
    lemma_compose_step(l1, l2, l3, i, (l3 + i) as u64, offset);
}

/// Splits a virtual page number (an address shifted right by 12) into its
/// three table indices.
pub fn decompose_virt_pageaddr(addr: u64) -> (parts: DecomposedVirtualPageAddress)
    ensures
        parts.l1_index@ == l1_of(addr),
        parts.l2_index@ == l2_of(addr),
        parts.l3_index@ == l3_of(addr),
{
    proof {
        lemma_index_ranges(addr);
    }
    let l3_index: u64 = addr & 0x1FF;
    let l2_index: u64 = (addr >> 9) & 0x1FF;
    let l1_index: u64 = (addr >> 18) & 0x1FF;
    DecomposedVirtualPageAddress {
        l1_index: PageTableIndex::new(l1_index as u16),
        l2_index: PageTableIndex::new(l2_index as u16),
        l3_index: PageTableIndex::new(l3_index as u16),
    }
}

/// The Sv39 virtual address with the given indices and offset.
pub fn compose_virt_addr(
    l1_index: PageTableIndex,
    l2_index: PageTableIndex,
    l3_index: PageTableIndex,
    offset: u64,
) -> (addr: u64)
    requires
        offset < 4096,
    ensures
        addr == compose_spec(l1_index@ as u64, l2_index@ as u64, l3_index@ as u64, offset),
{
    let l1: u64 = l1_index.as_addr() as u64;
    let l2: u64 = l2_index.as_addr() as u64;
    let l3: u64 = l3_index.as_addr() as u64;
    let low: u64 = (l1 << 30) | (l2 << 21) | (l3 << 12) | offset;
    if l1 >= 256 {
        low | 0xFFFF_FF80_0000_0000
    } else {
        low
    }
}

/// Where the page walk from `root` takes the virtual address `vaddr`: the
/// physical address it is mapped to, if every level links on and the leaf
/// is a valid mapping.
pub open spec fn translate(mem: MemoryView, root: usize, vaddr: u64) -> Option<int> {
    let page = vaddr >> 12;
    if !is_canonical(vaddr) || !mem.holds_page(root) {
        None
    } else {
        match child_of(mem, root, l1_of(page) as int) {
            None => None,
            Some(second) => match child_of(mem, second, l2_of(page) as int) {
                None => None,
                Some(third) => {
                    let leaf = entry_at(mem, third, l3_of(page) as int);
                    if leaf.is_mapping() {
                        Some(leaf.phys_addr_bits() + (vaddr & 0xFFF))
                    } else {
                        None
                    }
                },
            },
        }
    }
}


/// The virtual page with number `page` can be mapped under `root`.
pub open spec fn page_free(mem: MemoryView, root: usize, page: u64) -> bool {
    is_free_spec(mem, root, l1_of(page) as int, l2_of(page) as int, l3_of(page) as int)
}

/// Each of the `count` virtual pages from `first_page` on can be mapped
/// under `root`.
pub open spec fn all_free(mem: MemoryView, root: usize, first_page: u64, count: int) -> bool {
    forall|i: int| 0 <= i < count ==> #[trigger] page_free(mem, root, (first_page + i) as u64)
}

/// Flags of a linear mapping: V, R, W and X.
pub open spec fn linear_flags() -> u64 {
    15
}

/// What installing the first `count` pages of a linear mapping, in
/// ascending order and stopping at the first failure, does to memory and
/// frame table, and whether all were installed.
pub open spec fn map_pages_spec(
    mem: MemoryView,
    frames: Seq<SegmentView>,
    root: usize,
    first_virtual: u64,
    first_physical: usize,
    count: int,
) -> (MemoryView, Seq<SegmentView>, bool)
    decreases count,
{
    if count <= 0 {
        (mem, frames, true)
    } else {
        let (mem1, frames1, ok) = map_pages_spec(
            mem,
            frames,
            root,
            first_virtual,
            first_physical,
            count - 1,
        );
        if !ok {
            (mem1, frames1, false)
        } else {
            let page = (first_virtual + count - 1) as u64;
            let frame = (first_physical + count - 1) as usize;
            virtually_map_spec(
                mem1,
                frames1,
                root,
                l1_of(page) as int,
                l2_of(page) as int,
                l3_of(page) as int,
                frame << 12,
                linear_flags(),
            )
        }
    }
}

/// What `virtual_map_linear` does to memory and frame table, and what it
/// returns.
pub open spec fn virtual_map_linear_spec(
    mem: MemoryView,
    frames: Seq<SegmentView>,
    root: usize,
    physical_region: PageRegion,
    virtual_start_addr: u64,
) -> (MemoryView, Seq<SegmentView>, Result<(), LinearMapError>) {
    if !all_free(mem, root, virtual_start_addr >> 12, physical_region.count as int) {
        (mem, frames, Err(LinearMapError::NotFree))
    } else {
        let (mem1, frames1, ok) = map_pages_spec(
            mem,
            frames,
            root,
            virtual_start_addr >> 12,
            physical_region.address >> 12,
            physical_region.count as int,
        );
        (
            mem1,
            frames1,
            if ok {
                Ok(())
            } else {
                Err(LinearMapError::Exhausted)
            },
        )
    }
}

/// Once a page of a linear mapping has failed, asking for more pages
/// changes nothing further.
proof fn lemma_map_pages_stuck(
    mem: MemoryView,
    frames: Seq<SegmentView>,
    root: usize,
    first_virtual: u64,
    first_physical: usize,
    failed: int,
    count: int,
)
    requires
        0 <= failed <= count,
        !map_pages_spec(mem, frames, root, first_virtual, first_physical, failed).2,
    ensures
        map_pages_spec(mem, frames, root, first_virtual, first_physical, count) == map_pages_spec(
            mem,
            frames,
            root,
            first_virtual,
            first_physical,
            failed,
        ),
    decreases count - failed,
{
    if failed < count {
        lemma_map_pages_stuck(mem, frames, root, first_virtual, first_physical, failed, count - 1);
    }
}

/// Maps the `count` pages of `physical_region` at consecutive virtual pages
/// from `virtual_start_addr` on, so that virtual page `i` of the range
/// leads to physical page `i` of the region, readable, writable and
/// executable.
///
/// First every target page is checked. If one of them is occupied the call
/// fails with `NotFree` and neither the memory nor the frame table has
/// changed. Otherwise the pages are installed in ascending order, tables
/// being meta-allocated on the way; if that fails for a page the call stops
/// with `Exhausted` and what was installed stays.
pub fn virtual_map_linear(
    page_table: &PageTable,
    mem: &mut PhysicalMemory,
    frame_table: &mut FrameTable,
    physical_region: PageRegion,
    virtual_start_addr: u64,
) -> (r: Result<(), LinearMapError>)
    requires
        old(mem).wf(),
        old(frame_table).wf(),
        old(mem)@.backs(old(frame_table)@),
        old(mem)@.holds_page(page_table.phys_addr),
        (virtual_start_addr >> 12) + physical_region.count <= u64::MAX,
        (physical_region.address >> 12) + physical_region.count <= usize::MAX,
    ensures
        (final(mem)@, final(frame_table)@, r) == virtual_map_linear_spec(
            old(mem)@,
            old(frame_table)@,
            page_table.phys_addr,
            physical_region,
            virtual_start_addr,
        ),
        r == Err::<(), LinearMapError>(LinearMapError::NotFree) <==> !all_free(
            old(mem)@,
            page_table.phys_addr,
            virtual_start_addr >> 12,
            physical_region.count as int,
        ),
        r == Err::<(), LinearMapError>(LinearMapError::NotFree) ==> final(mem)@ == old(mem)@
            && final(frame_table)@ == old(frame_table)@,
        final(mem).wf(),
        final(frame_table).wf(),
        crate::frame_table::same_layout(final(frame_table)@, old(frame_table)@),
        final(mem)@.backs(final(frame_table)@),
        r is Ok && crate::page_table::space::tidy(old(mem)@, old(frame_table)@, page_table.phys_addr)
            && crate::page_table::space::linear_fits(physical_region, virtual_start_addr)
            ==> crate::page_table::space::tidy(final(mem)@, final(frame_table)@, page_table.phys_addr)
            && crate::page_table::space::linearly_mapped(
            final(mem)@,
            page_table.phys_addr,
            physical_region,
            virtual_start_addr,
        ),
{
    proof {
        if crate::page_table::space::tidy(mem@, frame_table@, page_table.phys_addr)
            && crate::page_table::space::linear_fits(physical_region, virtual_start_addr)
            && virtual_map_linear_spec(
            mem@,
            frame_table@,
            page_table.phys_addr,
            physical_region,
            virtual_start_addr,
        ).2 is Ok {
            crate::page_table::space::law_linear_map_maps_range(
                mem@,
                frame_table@,
                page_table.phys_addr,
                physical_region,
                virtual_start_addr,
            );
        }
    }
    let virt_page_num: u64 = virtual_start_addr >> 12;
    let first_hardware_page: usize = physical_region.address >> 12;
    let count: usize = physical_region.count;
    let mut i: usize = 0;
    while i < count
        invariant
            i <= count,
            count == physical_region.count,
            virt_page_num == virtual_start_addr >> 12,
            virt_page_num + count <= u64::MAX,
            mem.wf(),
            mem@ == old(mem)@,
            frame_table@ == old(frame_table)@,
            frame_table.wf(),
            mem@.backs(frame_table@),
            mem@.holds_page(page_table.phys_addr),
            all_free(mem@, page_table.phys_addr, virt_page_num, i as int),
        decreases count - i,
    {
        let parts = decompose_virt_pageaddr(virt_page_num + i as u64);
        if !page_table.is_free(mem, parts.l1_index, parts.l2_index, parts.l3_index) {
            assert(!page_free(mem@, page_table.phys_addr, (virt_page_num + i) as u64));
            return Err(LinearMapError::NotFree);
        }
        i += 1;
    }
    let mut i: usize = 0;
    while i < count
        invariant
            i <= count,
            count == physical_region.count,
            virt_page_num == virtual_start_addr >> 12,
            first_hardware_page == physical_region.address >> 12,
            virt_page_num + count <= u64::MAX,
            first_hardware_page + count <= usize::MAX,
            mem.wf(),
            frame_table.wf(),
            mem@.backs(frame_table@),
            mem@.base == old(mem)@.base,
            mem@.words.len() == old(mem)@.words.len(),
            old(mem)@.holds_page(page_table.phys_addr),
            crate::frame_table::same_layout(frame_table@, old(frame_table)@),
            all_free(old(mem)@, page_table.phys_addr, virt_page_num, count as int),
            (mem@, frame_table@, true) == map_pages_spec(
                old(mem)@,
                old(frame_table)@,
                page_table.phys_addr,
                virt_page_num,
                first_hardware_page,
                i as int,
            ),
        decreases count - i,
    {
        let hardware_page: usize = first_hardware_page + i;
        let virtual_page: u64 = virt_page_num + i as u64;
        let parts = decompose_virt_pageaddr(virtual_page);
        assert(FLAG_V | FLAG_R | FLAG_W | FLAG_X == 15) by (bit_vector);
        let mapped = page_table.virtually_map(
            mem,
            frame_table,
            parts.l1_index,
            parts.l2_index,
            parts.l3_index,
            hardware_page << 12,
            FLAG_V | FLAG_R | FLAG_W | FLAG_X,
        );
        if mapped.is_err() {
            proof {
                lemma_map_pages_stuck(
                    old(mem)@,
                    old(frame_table)@,
                    page_table.phys_addr,
                    virt_page_num,
                    first_hardware_page,
                    i as int + 1,
                    count as int,
                );
            }
            return Err(LinearMapError::Exhausted);
        }
        i += 1;
    }
    Ok(())
}


impl PageTable {
    /// Walks the tables from this root as the hardware does and returns the
    /// physical address that `vaddr` is mapped to, if it is mapped.
    pub fn translate(&self, mem: &PhysicalMemory, vaddr: u64) -> (r: Option<u64>)
        requires
            mem.wf(),
        ensures
            translate(mem@, self.phys_addr, vaddr) == match r {
                Some(addr) => Some(addr as int),
                None => None,
            },
    {
        let top: u64 = vaddr >> 38;
        if !(top == 0 || top == 0x3FF_FFFF) || !mem.holds_page(self.phys_addr) {
            return None;
        }
        let parts = decompose_virt_pageaddr(vaddr >> 12);
        let second = match self.child(mem, parts.l1_index.as_addr()) {
            Some(t) => t,
            None => { return None; },
        };
        let third = match second.child(mem, parts.l2_index.as_addr()) {
            Some(t) => t,
            None => { return None; },
        };
        let leaf = third.entry(mem, parts.l3_index.as_addr());
        if leaf.is_valid() && leaf.is_leaf() {
            let offset: u64 = vaddr & 0xFFF;
            let page: u64 = leaf.phys_addr_wide();
            proof {
                assert(vaddr & 0xFFF < 4096) by (bit_vector);
                crate::page_table::lemma_entry_address(leaf);
            }
            Some(page + offset)
        } else {
            None
        }
    }
}

} // verus!
