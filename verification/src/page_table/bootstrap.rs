//! The self-referencing bootstrap of a root page table.
use crate::frame_table::{
    frame_addr, frame_in_use, is_frame_of, lemma_alloc_marks_run, lemma_alloc_spares_frames_in_use,
    lemma_page_tables_are_frames, lemma_table_alloc, lemma_table_alloc_keeps_shape, same_layout,
    table_alloc_front, table_disjoint, table_page_tables, table_wf, FrameState, FrameTable,
    SegmentView,
};
use crate::page_table::virt_map::translate;
use crate::page_table::{
    allocate_intermediary_spec, child_of, entry_at, window_flags, PageTable, PageTableEntry,
    PageTableIndex, FLAG_R, FLAG_V, FLAG_W, SELF_REF_ROOT_INDEX,
};
use crate::physical_memory::{lemma_write, lemma_zero_page, MemoryView, PhysicalMemory};
use vstd::prelude::*;

verus! {

/// Base of the virtual window through which page tables are reached once
/// paging is on: the Sv39 address with indices 280, 0, 0 and offset 0.
pub const PT_VIRT_START: u64 = 0xFFFF_FFC6_0000_0000;

/// Where the root table is: physically, and in the self-referencing window.
#[derive(Debug, Clone, Copy, PartialEq, Eq, Structural)]
pub struct PageTableOffsettingData {
    pub physical_root_null_offset: usize,
    pub virtual_root_null_offset: u64,
}

/// The memory after the first `n` of `tables` have been mapped, read-write,
/// at the cells `0 .. n` of the table at `leaves`.
pub open spec fn install_window(mem: MemoryView, leaves: usize, tables: Seq<usize>, n: int) -> MemoryView
    decreases n,
{
    if n <= 0 {
        mem
    } else {
        install_window(mem, leaves, tables, n - 1).write(
            leaves,
            n - 1,
            PageTableEntry::encode(tables[n - 1] as u64, window_flags()).0,
        )
    }
}

/// What `bootstrap_pt` does to memory and frame table, and what it returns.
pub open spec fn bootstrap_spec(mem: MemoryView, frames: Seq<SegmentView>, root: usize) -> (
    MemoryView,
    Seq<SegmentView>,
    Option<PageTableOffsettingData>,
) {
    let (mem1, frames1, first) = allocate_intermediary_spec(mem, frames, root, SELF_REF_ROOT_INDEX as int);
    match first {
        Err(_) => (mem1, frames1, None),
        Ok(window) => if !mem1.holds_page(window.physical_starting_memory_address) {
            (mem1, frames1, None)
        } else {
            let (mem2, frames2, second) = allocate_intermediary_spec(
                mem1,
                frames1,
                window.physical_starting_memory_address,
                0,
            );
            match second {
                Err(_) => (mem2, frames2, None),
                Ok(leaves) => {
                    let tables = table_page_tables(frames2, frames2.len() as int);
                    if !mem2.holds_page(leaves.physical_starting_memory_address) || tables.len() > 512 {
                        (mem2, frames2, None)
                    } else {
                        (
                            install_window(
                                mem2,
                                leaves.physical_starting_memory_address,
                                tables,
                                tables.len() as int,
                            ),
                            frames2,
                            Some(
                                PageTableOffsettingData {
                                    physical_root_null_offset: root,
                                    virtual_root_null_offset: PT_VIRT_START,
                                },
                            ),
                        )
                    }
                },
            }
        },
    }
}

/// Gives the root table its self-referencing window: a link at root index
/// 280, under it a link at index 0, and in the table under that one
/// read-write mapping for every frame that holds a page table, in the order
/// of `FrameTable::iter_front`. Must run on a root before any other mapping
/// operation.
///
/// `None` where a link cannot be made or followed, or more than 512 frames
/// hold page tables; links made before the failure stay.
pub fn bootstrap_pt(root_page_table: &PageTable, mem: &mut PhysicalMemory, frame_table: &mut FrameTable) -> (r:
    Option<PageTableOffsettingData>)
    requires
        old(mem).wf(),
        old(frame_table).wf(),
        old(mem)@.backs(old(frame_table)@),
        old(mem)@.holds_page(root_page_table.phys_addr),
    ensures
        (final(mem)@, final(frame_table)@, r) == bootstrap_spec(
            old(mem)@,
            old(frame_table)@,
            root_page_table.phys_addr,
        ),
        final(mem).wf(),
        final(frame_table).wf(),
        same_layout(final(frame_table)@, old(frame_table)@),
        final(mem)@.backs(final(frame_table)@),
        r is Some && crate::page_table::space::fitting(old(mem)@, old(frame_table)@) && frame_in_use(
            old(frame_table)@,
            root_page_table.phys_addr as int,
        ) && crate::page_table::space::blank(old(mem)@, root_page_table.phys_addr)
            ==> crate::page_table::space::tidy(final(mem)@, final(frame_table)@, root_page_table.phys_addr),
{
    proof {
        if crate::page_table::space::fitting(mem@, frame_table@) && frame_in_use(
            frame_table@,
            root_page_table.phys_addr as int,
        ) && crate::page_table::space::blank(mem@, root_page_table.phys_addr) && bootstrap_spec(
            mem@,
            frame_table@,
            root_page_table.phys_addr,
        ).2 is Some {
            crate::page_table::space::law_bootstrap_makes_tidy(mem@, frame_table@, root_page_table.phys_addr);
        }
    }
    let window = match root_page_table.allocate_intermediary(
        mem,
        PageTableIndex::new(SELF_REF_ROOT_INDEX),
        frame_table,
    ) {
        Ok(t) => t,
        Err(_) => { return None; },
    };
    if !mem.holds_page(window.physical_starting_memory_address) {
        return None;
    }
    let leaves = match window.page_table.allocate_intermediary(mem, PageTableIndex::new(0), frame_table) {
        Ok(t) => t,
        Err(_) => { return None; },
    };
    let tables = frame_table.iter_front();
    if !mem.holds_page(leaves.physical_starting_memory_address) || tables.len() > 512 {
        return None;
    }
    let ghost before = mem@;
    let mut index: usize = 0;
    while index < tables.len()
        invariant
            index <= tables.len() <= 512,
            mem.wf(),
            mem@.base == before.base,
            mem@.words.len() == before.words.len(),
            before.holds_page(leaves.page_table.phys_addr),
            mem@ == install_window(before, leaves.page_table.phys_addr, tables@, index as int),
        decreases tables.len() - index,
    {
        assert(FLAG_V | FLAG_R | FLAG_W == 7) by (bit_vector);
        leaves.page_table.make_mapping(
            mem,
            PageTableIndex::new(index as u16),
            tables[index],
            FLAG_V | FLAG_R | FLAG_W,
        );
        index += 1;
    }
    Some(
        PageTableOffsettingData {
            physical_root_null_offset: root_page_table.phys_addr,
            virtual_root_null_offset: PT_VIRT_START,
        },
    )
}


/// Every address of the memory can stand in a page-table entry: none is 0
/// and all lie below 2^56.
pub open spec fn addressable(mem: MemoryView) -> bool {
    mem.base > 0 && mem.end() <= 0x0100_0000_0000_0000
}

/// The virtual address of slot `k` of the self-referencing window.
pub open spec fn window_address(k: int) -> u64 {
    (PT_VIRT_START + 4096 * k) as u64
}

/// The indices of the address of window slot `k` are 280, 0 and `k`.
proof fn lemma_window_address(k: u64, v: u64)
    by (bit_vector)
    requires
        k < 512,
        v == 0xFFFF_FFC6_0000_0000 + 4096 * k,
    ensures
        ((v >> 12) >> 18) & 0x1FF == 280,
        ((v >> 12) >> 9) & 0x1FF == 0,
        (v >> 12) & 0x1FF == k,
        v & 0xFFF == 0,
        v >> 38 == 0x3FF_FFFF,
{
}

/// V alone is valid and no leaf; V, R and W are a valid leaf.
proof fn lemma_flag_bits()
    by (bit_vector)
    ensures
        1u64 & 1 != 0,
        1u64 & 0xE == 0,
        7u64 & 1 != 0,
        7u64 & 0xE != 0,
{
}

/// An entry made of a page address of an addressable memory and V alone is
/// a link to that page.
pub proof fn lemma_link_entry(mem: MemoryView, page: usize)
    requires
        mem.wf(),
        addressable(mem),
        mem.holds_page(page),
    ensures
        PageTableEntry::encode(page as u64, FLAG_V).is_intermediary(),
        PageTableEntry::encode(page as u64, FLAG_V).phys_addr_spec() == page,
        !PageTableEntry::encode(page as u64, FLAG_V).is_unused_spec(),
{
    PageTableEntry::lemma_encode(page, FLAG_V);
    lemma_flag_bits();
    let e = PageTableEntry::encode(page as u64, FLAG_V);
    if e.is_unused_spec() {
        e.lemma_unused();
    }
}

/// An entry made of a page address below 2^56 and V, R and W is a mapping
/// to that page.
pub proof fn lemma_window_entry(page: usize)
    requires
        page % 4096 == 0,
        page < 0x0100_0000_0000_0000,
    ensures
        PageTableEntry::encode(page as u64, window_flags()).is_mapping(),
        PageTableEntry::encode(page as u64, window_flags()).phys_addr_bits() == page,
{
    PageTableEntry::lemma_encode(page, window_flags());
    lemma_flag_bits();
    crate::page_table::lemma_entry_address(PageTableEntry::encode(page as u64, window_flags()));
}

/// A frame in use is a frame of the table.
pub proof fn lemma_in_use_is_frame(frames: Seq<SegmentView>, addr: int)
    requires
        frame_in_use(frames, addr),
    ensures
        is_frame_of(frames, addr),
{
    let (s, k) = choose|s: int, k: int|
        0 <= s < frames.len() && 0 <= k < frames[s].page_count && addr == frames[s].first_page_addr + 4096 * k
            && (#[trigger] frames[s].metadata[k]).state_spec() != FrameState::Free;
    assert(addr == frame_addr(frames, s, k));
}

/// A frame of a table that the memory backs is a page of the memory.
pub proof fn lemma_backed_frame(mem: MemoryView, frames: Seq<SegmentView>, addr: int)
    requires
        mem.wf(),
        mem.backs(frames),
        table_wf(frames),
        is_frame_of(frames, addr),
    ensures
        0 <= addr <= usize::MAX,
        mem.holds_page(addr as usize),
{
    let (s, k) = choose|s: int, k: int|
        0 <= s < frames.len() && 0 <= k < frames[s].page_count && addr == #[trigger] frame_addr(frames, s, k);
    assert(frames[s].wf());
}

/// What a fresh link gives: where entry `index` of the table at `table` is
/// unused and a frame is left, `allocate_intermediary` links the entry to a
/// frame that was free, and so is none of the frames in use; the new table
/// is blank; no other entry of any other page has changed; and every frame
/// that was in use still is, as is the new one.
pub proof fn lemma_fresh_link(mem: MemoryView, frames: Seq<SegmentView>, table: usize, index: int)
    requires
        mem.wf(),
        addressable(mem),
        table_wf(frames),
        table_disjoint(frames),
        mem.backs(frames),
        mem.holds_page(table),
        frame_in_use(frames, table as int),
        0 <= index < 512,
        entry_at(mem, table, index).is_unused_spec(),
        allocate_intermediary_spec(mem, frames, table, index).2 is Ok,
    ensures
        ({
            let (mem1, frames1, r) = allocate_intermediary_spec(mem, frames, table, index);
            let child = r->Ok_0.physical_starting_memory_address;
            &&& mem1.wf() && mem1.base == mem.base && mem1.words.len() == mem.words.len()
            &&& table_wf(frames1) && table_disjoint(frames1) && mem1.backs(frames1)
            &&& mem1.holds_page(child)
            &&& child != table
            &&& child_of(mem1, table, index) == Some(child)
            &&& frame_in_use(frames1, child as int)
            &&& forall|addr: int| #[trigger]
                frame_in_use(frames, addr) ==> frame_in_use(frames1, addr) && addr != child
            &&& forall|j: int| 0 <= j < 512 ==> (#[trigger] entry_at(mem1, child, j)).is_unused_spec()
            &&& forall|page: usize, j: int|
                mem.holds_page(page) && page != child && 0 <= j < 512 && !(page == table && j == index)
                    ==> #[trigger] mem1.word(page, j) == mem.word(page, j)
        }),
{
    let (mem1, frames1, r) = allocate_intermediary_spec(mem, frames, table, index);
    let (after, taken) = table_alloc_front(frames, 1, FrameState::PageTable, 0);
    let a = taken.unwrap();
    let child = a.phys_addr;
    lemma_table_alloc(frames, true, 1, FrameState::PageTable, 0);
    lemma_table_alloc_keeps_shape(frames, true, 1, FrameState::PageTable, 0);
    lemma_alloc_marks_run(frames, true, 1, FrameState::PageTable, 0, 0);
    lemma_backed_frame(mem, frames, child as int);
    lemma_alloc_spares_frames_in_use(frames, true, 1, FrameState::PageTable, 0, table as int);
    assert forall|addr: int| #[trigger] frame_in_use(frames, addr) implies frame_in_use(frames1, addr)
        && addr != child by {
        lemma_alloc_spares_frames_in_use(frames, true, 1, FrameState::PageTable, 0, addr);
    }
    let zeroed = mem.zero_page(child);
    let link = PageTableEntry::encode(child as u64, FLAG_V).0;
    lemma_zero_page(mem, child, table, index);
    lemma_write(zeroed, table, index, link, table, index);
    lemma_link_entry(mem, child);
    assert forall|j: int| 0 <= j < 512 implies (#[trigger] entry_at(mem1, child, j)).is_unused_spec() by {
        lemma_zero_page(mem, child, child, j);
        lemma_write(zeroed, table, index, link, child, j);
    }
    assert forall|page: usize, j: int|
        mem.holds_page(page) && page != child && 0 <= j < 512 && !(page == table && j == index) implies #[trigger] mem1.word(
        page,
        j,
    ) == mem.word(page, j) by {
        lemma_zero_page(mem, child, page, j);
        lemma_write(zeroed, table, index, link, page, j);
    }
}

/// What installing the window changes: the first `n` cells of the table at
/// `leaves` map the first `n` of `tables`; nothing else has changed.
pub proof fn lemma_install_window(mem: MemoryView, leaves: usize, tables: Seq<usize>, n: int)
    requires
        mem.wf(),
        mem.holds_page(leaves),
        0 <= n <= 512,
        n <= tables.len(),
    ensures
        install_window(mem, leaves, tables, n).wf(),
        install_window(mem, leaves, tables, n).base == mem.base,
        install_window(mem, leaves, tables, n).words.len() == mem.words.len(),
        forall|j: int|
            0 <= j < n ==> #[trigger] install_window(mem, leaves, tables, n).word(leaves, j)
                == PageTableEntry::encode(tables[j] as u64, window_flags()).0,
        forall|page: usize, j: int|
            mem.holds_page(page) && 0 <= j < 512 && !(page == leaves && j < n) ==> #[trigger] install_window(
                mem,
                leaves,
                tables,
                n,
            ).word(page, j) == mem.word(page, j),
    decreases n,
{
    if n > 0 {
        lemma_install_window(mem, leaves, tables, n - 1);
        let before = install_window(mem, leaves, tables, n - 1);
        let value = PageTableEntry::encode(tables[n - 1] as u64, window_flags()).0;
        let after = install_window(mem, leaves, tables, n);
        assert(after == before.write(leaves, n - 1, value));
        lemma_write(before, leaves, n - 1, value, leaves, n - 1);
        assert forall|j: int| 0 <= j < n implies #[trigger] after.word(leaves, j) == PageTableEntry::encode(
            tables[j] as u64,
            window_flags(),
        ).0 by {
            lemma_write(before, leaves, n - 1, value, leaves, j);
        }
        assert forall|page: usize, j: int|
            mem.holds_page(page) && 0 <= j < 512 && !(page == leaves && j < n) implies #[trigger] after.word(
            page,
            j,
        ) == mem.word(page, j) by {
            lemma_write(before, leaves, n - 1, value, page, j);
        }
    }
}

/// After a bootstrap of a root whose entry
/// 280 was unused, every frame that holds a page table is mapped in the
/// window: the page walk from the root takes the virtual address of window
/// slot `k` to the `k`-th such frame, in the order of
/// `FrameTable::iter_front`.
///
/// The root must be a frame in use of a frame table whose segments are
/// pairwise disjoint and lie in the memory, and the memory must be
/// addressable.
pub proof fn law_window_reaches_tables(mem: MemoryView, frames: Seq<SegmentView>, root: usize, k: int)
    requires
        mem.wf(),
        addressable(mem),
        table_wf(frames),
        table_disjoint(frames),
        mem.backs(frames),
        frame_in_use(frames, root as int),
        entry_at(mem, root, SELF_REF_ROOT_INDEX as int).is_unused_spec(),
        bootstrap_spec(mem, frames, root).2 is Some,
        0 <= k < table_page_tables(
            bootstrap_spec(mem, frames, root).1,
            bootstrap_spec(mem, frames, root).1.len() as int,
        ).len(),
    ensures
        translate(bootstrap_spec(mem, frames, root).0, root, window_address(k)) == Some(
            table_page_tables(
                bootstrap_spec(mem, frames, root).1,
                bootstrap_spec(mem, frames, root).1.len() as int,
            )[k] as int,
        ),
{
    lemma_in_use_is_frame(frames, root as int);
    lemma_backed_frame(mem, frames, root as int);
    let (mem1, frames1, first) = allocate_intermediary_spec(mem, frames, root, SELF_REF_ROOT_INDEX as int);
    lemma_fresh_link(mem, frames, root, SELF_REF_ROOT_INDEX as int);
    let window = first->Ok_0.physical_starting_memory_address;
    assert(frame_in_use(frames1, root as int));
    assert(entry_at(mem1, window, 0).is_unused_spec());
    let (mem2, frames2, second) = allocate_intermediary_spec(mem1, frames1, window, 0);
    lemma_fresh_link(mem1, frames1, window, 0);
    let leaves = second->Ok_0.physical_starting_memory_address;
    assert(frame_in_use(frames1, root as int) ==> root != leaves);
    let tables = table_page_tables(frames2, frames2.len() as int);
    let n = tables.len() as int;
    let mem3 = install_window(mem2, leaves, tables, n);
    assert(bootstrap_spec(mem, frames, root).0 == mem3);
    assert(bootstrap_spec(mem, frames, root).1 == frames2);
    lemma_install_window(mem2, leaves, tables, n);
    lemma_page_tables_are_frames(frames2, frames2.len() as int, k);
    lemma_backed_frame(mem2, frames2, tables[k] as int);
    lemma_window_entry(tables[k]);
    lemma_link_entry(mem, window);
    lemma_link_entry(mem, leaves);
    let v = window_address(k);
    lemma_window_address(k as u64, v);
    assert(mem3.word(root, 280) == mem2.word(root, 280));
    assert(mem2.word(root, 280) == mem1.word(root, 280));
    assert(child_of(mem1, root, 280) == Some(window));
    assert(child_of(mem3, root, 280) == Some(window));
    assert(mem3.word(window, 0) == mem2.word(window, 0));
    assert(child_of(mem2, window, 0) == Some(leaves));
    assert(child_of(mem3, window, 0) == Some(leaves));
    assert(entry_at(mem3, leaves, k) == PageTableEntry::encode(tables[k] as u64, window_flags()));
}

/// Where the frames that hold page tables are the leading frames of the
/// first segment, as they are after a bring-up that has allocated nothing
/// else at the front, the window slot of such a frame is its index in the
/// frame table: the virtual address derived from the index of frame `F`
/// translates to `F`.
pub proof fn law_window_slot_is_frame_index(
    mem: MemoryView,
    frames: Seq<SegmentView>,
    root: usize,
    frame: usize,
)
    requires
        mem.wf(),
        addressable(mem),
        table_wf(frames),
        table_disjoint(frames),
        mem.backs(frames),
        frame_in_use(frames, root as int),
        entry_at(mem, root, SELF_REF_ROOT_INDEX as int).is_unused_spec(),
        bootstrap_spec(mem, frames, root).2 is Some,
        ({
            let after = bootstrap_spec(mem, frames, root).1;
            let tables = table_page_tables(after, after.len() as int);
            &&& tables.contains(frame)
            &&& forall|i: int| 0 <= i < tables.len() ==> tables[i] == after[0].first_page_addr + 4096 * i
        }),
    ensures
        ({
            let after = bootstrap_spec(mem, frames, root).1;
            let index = (frame - after[0].first_page_addr) / 4096;
            translate(bootstrap_spec(mem, frames, root).0, root, window_address(index)) == Some(frame as int)
        }),
{
    let after = bootstrap_spec(mem, frames, root).1;
    let tables = table_page_tables(after, after.len() as int);
    let k = choose|k: int| 0 <= k < tables.len() && tables[k] == frame;
    law_window_reaches_tables(mem, frames, root, k);
}


/// A bootstrap keeps the frame table well formed, its segments where they
/// were and disjoint, and every frame that was in use in use.
pub proof fn lemma_bootstrap_keeps_shape(mem: MemoryView, frames: Seq<SegmentView>, root: usize)
    requires
        table_wf(frames),
    ensures
        table_wf(bootstrap_spec(mem, frames, root).1),
        same_layout(bootstrap_spec(mem, frames, root).1, frames),
        table_disjoint(frames) ==> table_disjoint(bootstrap_spec(mem, frames, root).1),
        forall|addr: int|
            table_disjoint(frames) && #[trigger] frame_in_use(frames, addr) ==> frame_in_use(
                bootstrap_spec(mem, frames, root).1,
                addr,
            ),
{
    let (mem1, frames1, first) = allocate_intermediary_spec(mem, frames, root, SELF_REF_ROOT_INDEX as int);
    lemma_table_alloc_keeps_shape(frames, true, 1, FrameState::PageTable, 0);
    lemma_table_alloc(frames, true, 1, FrameState::PageTable, 0);
    assert(table_wf(frames1) && same_layout(frames1, frames));
    assert(table_disjoint(frames) ==> table_disjoint(frames1));
    let (mem2, frames2, second) = allocate_intermediary_spec(
        mem1,
        frames1,
        first->Ok_0.physical_starting_memory_address,
        0,
    );
    lemma_table_alloc_keeps_shape(frames1, true, 1, FrameState::PageTable, 0);
    lemma_table_alloc(frames1, true, 1, FrameState::PageTable, 0);
    assert(table_wf(frames2) && same_layout(frames2, frames1));
    assert(table_disjoint(frames1) ==> table_disjoint(frames2));
    assert forall|addr: int| table_disjoint(frames) && #[trigger] frame_in_use(frames, addr) implies frame_in_use(
        bootstrap_spec(mem, frames, root).1,
        addr,
    ) by {
        lemma_alloc_spares_frames_in_use(frames, true, 1, FrameState::PageTable, 0, addr);
        lemma_alloc_spares_frames_in_use(frames1, true, 1, FrameState::PageTable, 0, addr);
    }
}

/// Every frame of the first `n` of a segment that holds a page table is
/// listed by `segment_page_tables`.
proof fn lemma_segment_lists(seg: SegmentView, n: int, k: int)
    requires
        0 <= k < n,
        seg.metadata[k].state_spec() == FrameState::PageTable,
    ensures
        crate::frame_table::segment_page_tables(seg, n).contains((seg.first_page_addr + 4096 * k) as usize),
    decreases n,
{
    let all = crate::frame_table::segment_page_tables(seg, n);
    if k == n - 1 {
        assert(all[all.len() - 1] == (seg.first_page_addr + 4096 * k) as usize);
    } else {
        lemma_segment_lists(seg, n - 1, k);
        let before = crate::frame_table::segment_page_tables(seg, n - 1);
        let i = choose|i: int| 0 <= i < before.len() && before[i] == (seg.first_page_addr + 4096 * k) as usize;
        assert(all[i] == before[i]);
    }
}

/// Every frame of the first `s` segments that holds a page table is listed
/// by `table_page_tables`.
proof fn lemma_table_lists(table: Seq<SegmentView>, s: int, t: int, k: int)
    requires
        0 <= t < s <= table.len(),
        0 <= k < table[t].page_count,
        table[t].metadata[k].state_spec() == FrameState::PageTable,
    ensures
        table_page_tables(table, s).contains((table[t].first_page_addr + 4096 * k) as usize),
    decreases s,
{
    let all = table_page_tables(table, s);
    let before = table_page_tables(table, s - 1);
    let own = crate::frame_table::segment_page_tables(table[s - 1], table[s - 1].page_count as int);
    let x = (table[t].first_page_addr + 4096 * k) as usize;
    if t == s - 1 {
        lemma_segment_lists(table[t], table[t].page_count as int, k);
        let i = choose|i: int| 0 <= i < own.len() && own[i] == x;
        assert(all[before.len() + i] == own[i]);
    } else {
        lemma_table_lists(table, s - 1, t, k);
        let i = choose|i: int| 0 <= i < before.len() && before[i] == x;
        assert(all[i] == before[i]);
    }
}

/// A root that holds a page table before a bootstrap is among the frames
/// that the bootstrap lists.
pub proof fn lemma_root_is_listed(mem: MemoryView, frames: Seq<SegmentView>, root: usize)
    requires
        table_wf(frames),
        table_disjoint(frames),
        exists|s: int, k: int|
            0 <= s < frames.len() && 0 <= k < frames[s].page_count && root == frames[s].first_page_addr + 4096
                * k && (#[trigger] frames[s].metadata[k]).state_spec() == FrameState::PageTable,
    ensures
        table_page_tables(
            bootstrap_spec(mem, frames, root).1,
            bootstrap_spec(mem, frames, root).1.len() as int,
        ).contains(root),
{
    let (s, k) = choose|s: int, k: int|
        0 <= s < frames.len() && 0 <= k < frames[s].page_count && root == frames[s].first_page_addr + 4096 * k
            && (#[trigger] frames[s].metadata[k]).state_spec() == FrameState::PageTable;
    let after = bootstrap_spec(mem, frames, root).1;
    lemma_bootstrap_keeps_shape(mem, frames, root);
    lemma_bootstrap_keeps_state(mem, frames, root, s, k);
    lemma_table_lists(after, after.len() as int, s, k);
}

/// A bootstrap leaves the metadata of a frame that was not free as it was.
proof fn lemma_bootstrap_keeps_state(mem: MemoryView, frames: Seq<SegmentView>, root: usize, s: int, k: int)
    requires
        table_wf(frames),
        0 <= s < frames.len(),
        0 <= k < frames[s].page_count,
        frames[s].metadata[k].state_spec() != FrameState::Free,
    ensures
        bootstrap_spec(mem, frames, root).1.len() == frames.len(),
        bootstrap_spec(mem, frames, root).1[s].metadata[k] == frames[s].metadata[k],
{
    let (mem1, frames1, first) = allocate_intermediary_spec(mem, frames, root, SELF_REF_ROOT_INDEX as int);
    lemma_alloc_keeps_entry(frames, s, k);
    lemma_table_alloc_keeps_shape(frames, true, 1, FrameState::PageTable, 0);
    let (mem2, frames2, second) = allocate_intermediary_spec(
        mem1,
        frames1,
        first->Ok_0.physical_starting_memory_address,
        0,
    );
    lemma_alloc_keeps_entry(frames1, s, k);
}

/// Taking a page-table frame leaves the metadata of a frame that was not
/// free as it was.
proof fn lemma_alloc_keeps_entry(frames: Seq<SegmentView>, s: int, k: int)
    requires
        table_wf(frames),
        0 <= s < frames.len(),
        0 <= k < frames[s].page_count,
        frames[s].metadata[k].state_spec() != FrameState::Free,
    ensures
        table_alloc_front(frames, 1, FrameState::PageTable, 0).0.len() == frames.len(),
        table_alloc_front(frames, 1, FrameState::PageTable, 0).0[s].metadata[k] == frames[s].metadata[k],
{
    lemma_table_alloc(frames, true, 1, FrameState::PageTable, 0);
    let (after, r) = table_alloc_front(frames, 1, FrameState::PageTable, 0);
    if let Some(a) = r {
        let (t, idx) = choose|t: int, idx: int|
            {
                &&& #[trigger] crate::frame_table::is_run_of(frames, a, t, idx)
                &&& crate::frame_table::run_free(frames[t].metadata, idx, 1)
                &&& after == frames.update(
                    t,
                    frames[t].with_metadata(
                        crate::frame_table::claim_run(frames[t].metadata, idx, 1, FrameState::PageTable, 0),
                    ),
                )
            };
        assert(frames[t].wf());
        if t == s && idx == k {
            assert(frames[t].metadata[k].state_spec() == FrameState::Free);
        }
    }
}

} // verus!
