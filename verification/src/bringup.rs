//! Bring-up: from the device tree's memory description to a frame table
//! and a root page table.
use crate::frame_table::{
    lemma_segment_fits, max_pages, meta_bytes, table_disjoint, table_wf, usable_pages, FrameSegment,
    FrameTable, SegmentView,
};
use crate::memory_map::{regions_wf, MemoryMap, MemoryRegion};
use crate::frame_table::{table_page_tables, FrameState};
use crate::page_table::bootstrap::{
    addressable, bootstrap_pt, bootstrap_spec, law_window_reaches_tables, lemma_bootstrap_keeps_shape,
    window_address, PageTableOffsettingData, PT_VIRT_START,
};
use crate::page_table::virt_map::translate;
use crate::page_table::{take_table_frame_spec, PageTable};
use crate::physical_memory::PhysicalMemory;
use vstd::prelude::*;

verus! {

/// Size of the early heap in bytes.
pub const EARLY_HEAP_SIZE: usize = 64_000;

/// Distance from the end of the kernel image to the early heap.
pub const EARLY_HEAP_GAP: usize = 32;

/// The only cell width that bring-up supports: two 32-bit cells, that is
/// 64-bit addresses and sizes.
pub const SUPPORTED_CELLS: u32 = 2;

/// Whether the device tree's cell widths are the supported configuration:
/// address and size cells of the root and of `/reserved-memory` all 2.
pub fn cells_supported(address_cells: u32, size_cells: u32, rsv_address_cells: u32, rsv_size_cells: u32) -> (ok:
    bool)
    ensures
        ok == (address_cells == 2 && size_cells == 2 && rsv_address_cells == 2 && rsv_size_cells == 2),
{
    address_cells == size_cells && rsv_address_cells == size_cells && rsv_size_cells == size_cells
        && address_cells == SUPPORTED_CELLS
}

/// The region of the kernel image, from its first byte to one past its
/// last.
pub fn kernel_region(start_address: usize, end_address: usize) -> (r: MemoryRegion)
    requires
        start_address <= end_address,
    ensures
        r.addr == start_address,
        r.end_spec() == end_address,
        r.valid(),
{
    MemoryRegion { addr: start_address, size: end_address - start_address }
}

/// The region of the early heap: 64,000 bytes, 32 bytes above the end of
/// the kernel image.
pub fn early_heap_region(kernel_end: usize) -> (r: MemoryRegion)
    requires
        kernel_end + 32 + 64_000 <= usize::MAX,
    ensures
        r.addr == kernel_end + 32,
        r.size == 64_000,
        r.valid(),
{
    MemoryRegion { addr: kernel_end + EARLY_HEAP_GAP, size: EARLY_HEAP_SIZE }
}

/// The region that an (address, size) tuple of a `reg` property names.
pub open spec fn tuple_region(tuple: (u128, u128)) -> MemoryRegion {
    MemoryRegion { addr: tuple.0 as usize, size: tuple.1 as usize }
}

/// Every tuple names a region that fits the address space.
pub open spec fn tuples_fit(tuples: Seq<(u128, u128)>) -> bool {
    forall|i: int|
        0 <= i < tuples.len() ==> (#[trigger] tuples[i]).0 + tuples[i].1 <= usize::MAX
}

/// The addresses that the first `n` tuples name.
pub open spec fn tuples_span(tuples: Seq<(u128, u128)>, n: int) -> Set<int>
    decreases n,
{
    if n <= 0 {
        Set::empty()
    } else {
        tuples_span(tuples, n - 1).union(tuple_region(tuples[n - 1]).span())
    }
}

/// Adds the region of every tuple to the map.
pub fn add_memory(map: &mut MemoryMap, tuples: &Vec<(u128, u128)>)
    requires
        old(map).wf(),
        tuples_fit(tuples@),
    ensures
        final(map).wf(),
        final(map)@ == old(map)@.union(tuples_span(tuples@, tuples@.len() as int)),
{
    let mut i: usize = 0;
    assert(map@.union(tuples_span(tuples@, 0)) =~= map@);
    while i < tuples.len()
        invariant
            i <= tuples@.len(),
            map.wf(),
            tuples_fit(tuples@),
            map@ == old(map)@.union(tuples_span(tuples@, i as int)),
        decreases tuples@.len() - i,
    {
        let tuple = tuples[i];
        assert(tuples_fit(tuples@) && tuples@[i as int].0 + tuples@[i as int].1 <= usize::MAX);
        let region = MemoryRegion { addr: tuple.0 as usize, size: tuple.1 as usize };
        let ghost before = map@;
        map.add_region(region);
        assert(map@ =~= old(map)@.union(tuples_span(tuples@, i as int + 1)));
        i += 1;
    }
}

/// Cuts the region of every tuple out of the map.
pub fn cut_memory(map: &mut MemoryMap, tuples: &Vec<(u128, u128)>)
    requires
        old(map).wf(),
        tuples_fit(tuples@),
    ensures
        final(map).wf(),
        final(map)@ == old(map)@.difference(tuples_span(tuples@, tuples@.len() as int)),
{
    let mut i: usize = 0;
    assert(map@.difference(tuples_span(tuples@, 0)) =~= map@);
    while i < tuples.len()
        invariant
            i <= tuples@.len(),
            map.wf(),
            tuples_fit(tuples@),
            map@ == old(map)@.difference(tuples_span(tuples@, i as int)),
        decreases tuples@.len() - i,
    {
        let tuple = tuples[i];
        assert(tuples_fit(tuples@) && tuples@[i as int].0 + tuples@[i as int].1 <= usize::MAX);
        let region = MemoryRegion { addr: tuple.0 as usize, size: tuple.1 as usize };
        map.cut_region(region);
        assert(map@ =~= old(map)@.difference(tuples_span(tuples@, i as int + 1)));
        i += 1;
    }
}

/// The map of usable memory: what the `memory@` nodes name, without what
/// the `reserved-memory` children name, without the kernel image, without
/// the early heap.
pub fn build_memory_map(
    memory: &Vec<(u128, u128)>,
    reserved: &Vec<(u128, u128)>,
    kernel: MemoryRegion,
    early_heap: MemoryRegion,
) -> (map: MemoryMap)
    requires
        tuples_fit(memory@),
        tuples_fit(reserved@),
        kernel.valid(),
        early_heap.valid(),
    ensures
        map.wf(),
        map@ == tuples_span(memory@, memory@.len() as int).difference(
            tuples_span(reserved@, reserved@.len() as int),
        ).difference(kernel.span()).difference(early_heap.span()),
{
    let mut map = MemoryMap::new();
    add_memory(&mut map, memory);
    assert(map@ =~= tuples_span(memory@, memory@.len() as int));
    cut_memory(&mut map, reserved);
    map.cut_region(kernel);
    map.cut_region(early_heap);
    map
}

/// Whether a region is large enough for a frame segment.
pub open spec fn makes_segment(region: MemoryRegion) -> bool {
    max_pages(region.size as int) >= 1 && usable_pages(region.size as int) >= 1
}

/// The segment that `FrameSegment::initialize` lays out in a region.
pub open spec fn segment_of(region: MemoryRegion) -> SegmentView {
    SegmentView {
        frame_metadata_start_addr: region.addr,
        first_page_addr: (region.addr + meta_bytes(region.size as int)) as usize,
        page_count: usable_pages(region.size as int) as usize,
        metadata: Seq::new(
            usable_pages(region.size as int) as nat,
            |k: int| crate::frame_table::FrameMetadataEntry { raw: 0 },
        ),
    }
}

/// The segments of the first `n` regions, in order, regions too small for
/// a segment left out.
pub open spec fn segments_of(regions: Seq<MemoryRegion>, n: int) -> Seq<SegmentView>
    decreases n,
{
    if n <= 0 {
        Seq::empty()
    } else if makes_segment(regions[n - 1]) {
        segments_of(regions, n - 1).push(segment_of(regions[n - 1]))
    } else {
        segments_of(regions, n - 1)
    }
}

/// The segments of well-formed regions are well formed and pairwise
/// disjoint, and each lies below the end of the last region it was made of.
proof fn lemma_segments_of(regions: Seq<MemoryRegion>, n: int)
    requires
        regions_wf(regions),
        0 <= n <= regions.len(),
    ensures
        table_wf(segments_of(regions, n)),
        table_disjoint(segments_of(regions, n)),
        forall|s: int|
            0 <= s < segments_of(regions, n).len() && n > 0 ==> (#[trigger] segments_of(
                regions,
                n,
            )[s]).pages_end() <= regions[n - 1].end_spec(),
    decreases n,
{
    if n > 0 {
        lemma_segments_of(regions, n - 1);
        let before = segments_of(regions, n - 1);
        let region = regions[n - 1];
        if n > 1 {
            assert(regions[n - 2].end_spec() < regions[n - 1].addr);
        }
        if makes_segment(region) {
            lemma_segment_fits(region.size as int);
            let seg = segment_of(region);
            let all = before.push(seg);
            assert(seg.wf());
            assert forall|s: int, t: int| 0 <= s < t < all.len() implies (#[trigger] all[s]).pages_end()
                <= (#[trigger] all[t]).first_page_addr || all[t].pages_end() <= all[s].first_page_addr by {
                if t == all.len() - 1 {
                    assert(before[s].pages_end() <= regions[n - 2].end_spec());
                }
            }
        }
    }
}

/// The frame table of a memory map: one segment for every region that can
/// hold one, in the order of the regions, every frame free.
pub fn build_frame_table(map: &MemoryMap) -> (table: FrameTable)
    requires
        map.wf(),
    ensures
        table@ == segments_of(map.regions@, map.regions@.len() as int),
        table.wf(),
        table_disjoint(table@),
{
    let mut table = FrameTable::new();
    let mut i: usize = 0;
    while i < map.regions.len()
        invariant
            i <= map.regions@.len(),
            map.wf(),
            table@ == segments_of(map.regions@, i as int),
        decreases map.regions@.len() - i,
    {
        let region = map.regions[i];
        let ghost before = table@;
        match FrameSegment::initialize(region.addr, region.size) {
            Some(segment) => {
                assert(segment@ =~= segment_of(region)) by {
                    assert(segment@.metadata =~= segment_of(region).metadata);
                }
                table.segments.push(segment);
                assert(table@ =~= before.push(segment_of(region)));
            },
            None => {},
        }
        i += 1;
    }
    proof {
        lemma_segments_of(map.regions@, map.regions@.len() as int);
    }
    table
}

/// Takes the first free frame for the root page table and fills it with
/// zeros. `None` where the frame table has no free frame.
pub fn allocate_root_table(frame_table: &mut FrameTable, mem: &mut PhysicalMemory) -> (root: Option<
    PageTable,
>)
    requires
        old(frame_table).wf(),
        old(mem).wf(),
        old(mem)@.backs(old(frame_table)@),
    ensures
        (final(mem)@, final(frame_table)@, match root {
            Some(table) => Some(table.phys_addr),
            None => None,
        }) == ({
            let (mem1, frames1, r) = take_table_frame_spec(old(mem)@, old(frame_table)@);
            (
                mem1,
                frames1,
                match r {
                    Some(a) => Some(a.phys_addr),
                    None => None,
                },
            )
        }),
        final(frame_table).wf(),
        final(mem).wf(),
        final(mem)@.backs(final(frame_table)@),
        root matches Some(table) ==> final(mem)@.holds_page(table.phys_addr),
{
    match crate::page_table::take_table_frame(mem, frame_table) {
        Some(allocation) => Some(PageTable::from_pointer(allocation.phys_addr)),
        None => None,
    }
}


/// What `establish_address_space` does to memory and frame table, and what
/// it returns: a root table is taken and bootstrapped.
pub open spec fn establish_address_space_spec(
    mem: crate::physical_memory::MemoryView,
    frames: Seq<SegmentView>,
) -> (
    crate::physical_memory::MemoryView,
    Seq<SegmentView>,
    Option<(PageTable, PageTableOffsettingData)>,
) {
    let (mem1, frames1, taken) = take_table_frame_spec(mem, frames);
    match taken {
        None => (mem1, frames1, None),
        Some(a) => {
            let (mem2, frames2, data) = bootstrap_spec(mem1, frames1, a.phys_addr);
            match data {
                None => (mem2, frames2, None),
                Some(data) => (mem2, frames2, Some((PageTable { phys_addr: a.phys_addr }, data))),
            }
        },
    }
}

/// In a freshly established address space every frame that holds a page
/// table, the root among them, is reached through the window: the page
/// walk from the root takes the address of window slot `k` to the `k`-th
/// such frame.
pub proof fn law_established_space_reaches_tables(
    mem: crate::physical_memory::MemoryView,
    frames: Seq<SegmentView>,
)
    requires
        table_wf(frames),
        table_disjoint(frames),
        mem.wf(),
        addressable(mem),
        mem.backs(frames),
    ensures
        ({
            let (mem2, frames2, r) = establish_address_space_spec(mem, frames);
            &&& table_wf(frames2)
            &&& table_disjoint(frames2)
            &&& crate::frame_table::same_layout(frames2, frames)
            &&& r matches Some((root, data)) ==> {
                let tables = table_page_tables(frames2, frames2.len() as int);
                &&& crate::page_table::space::tidy(mem2, frames2, root.phys_addr)
                &&& data.physical_root_null_offset == root.phys_addr
                &&& data.virtual_root_null_offset == PT_VIRT_START
                &&& tables.contains(root.phys_addr)
                &&& forall|k: int|
                    0 <= k < tables.len() ==> translate(mem2, root.phys_addr, #[trigger] window_address(k))
                        == Some(tables[k] as int)
            }
        }),
{
    let (mem1, frames1, taken) = take_table_frame_spec(mem, frames);
    crate::frame_table::lemma_table_alloc_keeps_shape(frames, true, 1, FrameState::PageTable, 0);
    if let Some(a) = taken {
        let root = a.phys_addr;
        crate::frame_table::lemma_table_alloc(frames, true, 1, FrameState::PageTable, 0);
        crate::frame_table::lemma_alloc_marks_run(frames, true, 1, FrameState::PageTable, 0, 0);
        crate::page_table::bootstrap::lemma_backed_frame(mem, frames, root as int);
        crate::physical_memory::lemma_zero_page(mem, root, root, 280);
        lemma_root_holds_table(frames);
        lemma_bootstrap_keeps_shape(mem1, frames1, root);
        let (mem2, frames2, data) = bootstrap_spec(mem1, frames1, root);
        if data is Some {
            let tables = table_page_tables(frames2, frames2.len() as int);
            assert forall|k: int| 0 <= k < tables.len() implies translate(mem2, root, #[trigger] window_address(k))
                == Some(tables[k] as int) by {
                law_window_reaches_tables(mem1, frames1, root, k);
            }
            crate::page_table::bootstrap::lemma_root_is_listed(mem1, frames1, root);
            assert forall|j: int| 0 <= j < 512 implies #[trigger] mem1.word(root, j) == 0 by {
                crate::physical_memory::lemma_zero_page(mem, root, root, j);
            }
            crate::page_table::space::law_bootstrap_makes_tidy(mem1, frames1, root);
        }
    }
}

/// The frame that a front allocation of one page-table frame takes holds a
/// page table afterwards.
proof fn lemma_root_holds_table(frames: Seq<SegmentView>)
    requires
        table_wf(frames),
        crate::frame_table::table_alloc_front(frames, 1, FrameState::PageTable, 0).1 is Some,
    ensures
        ({
            let (after, r) = crate::frame_table::table_alloc_front(frames, 1, FrameState::PageTable, 0);
            let root = r.unwrap().phys_addr;
            exists|s: int, k: int|
                0 <= s < after.len() && 0 <= k < after[s].page_count && root == after[s].first_page_addr + 4096
                    * k && (#[trigger] after[s].metadata[k]).state_spec() == FrameState::PageTable
        }),
{
    let (after, r) = crate::frame_table::table_alloc_front(frames, 1, FrameState::PageTable, 0);
    let a = r.unwrap();
    crate::frame_table::lemma_table_alloc(frames, true, 1, FrameState::PageTable, 0);
    let (s, idx) = choose|s: int, idx: int|
        {
            &&& #[trigger] crate::frame_table::is_run_of(frames, a, s, idx)
            &&& crate::frame_table::run_free(frames[s].metadata, idx, 1)
            &&& after == frames.update(
                s,
                frames[s].with_metadata(
                    crate::frame_table::claim_run(frames[s].metadata, idx, 1, FrameState::PageTable, 0),
                ),
            )
        };
    assert(frames[s].wf());
    frames[s].metadata[idx].lemma_claimed(FrameState::PageTable, 0);
    assert(after[s].metadata[idx].state_spec() == FrameState::PageTable);
}

/// Takes a frame for the root page table and gives it its
/// self-referencing window. Afterwards every frame that holds a page table
/// (the root among them) can be reached through the window: the page walk
/// from the root takes the address of window slot `k` to the `k`-th such
/// frame.
///
/// `None` where the frame table runs out of frames on the way; frames taken
/// before that stay taken.
pub fn establish_address_space(frame_table: &mut FrameTable, mem: &mut PhysicalMemory) -> (r: Option<
    (PageTable, PageTableOffsettingData),
>)
    requires
        old(frame_table).wf(),
        table_disjoint(old(frame_table)@),
        old(mem).wf(),
        addressable(old(mem)@),
        old(mem)@.backs(old(frame_table)@),
    ensures
        (final(mem)@, final(frame_table)@, r) == establish_address_space_spec(old(mem)@, old(frame_table)@),
        final(frame_table).wf(),
        table_disjoint(final(frame_table)@),
        final(mem).wf(),
        final(mem)@.backs(final(frame_table)@),
        r matches Some((root, data)) ==> {
            let tables = table_page_tables(final(frame_table)@, final(frame_table)@.len() as int);
            &&& final(mem)@.holds_page(root.phys_addr)
            &&& crate::page_table::space::tidy(final(mem)@, final(frame_table)@, root.phys_addr)
            &&& data.physical_root_null_offset == root.phys_addr
            &&& data.virtual_root_null_offset == PT_VIRT_START
            &&& tables.contains(root.phys_addr)
            &&& forall|k: int|
                0 <= k < tables.len() ==> translate(final(mem)@, root.phys_addr, #[trigger] window_address(k))
                    == Some(tables[k] as int)
        },
{
    proof {
        law_established_space_reaches_tables(mem@, frame_table@);
        let (mem2, frames2, r) = establish_address_space_spec(mem@, frame_table@);
        if let Some((root, data)) = r {
            crate::page_table::space::lemma_tidy_root(mem2, frames2, root.phys_addr);
        }
    }
    let root = match allocate_root_table(frame_table, mem) {
        Some(root) => root,
        None => { return None; },
    };
    match bootstrap_pt(&root, mem, frame_table) {
        Some(data) => Some((root, data)),
        None => None,
    }
}

} // verus!
