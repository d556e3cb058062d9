use chopin::frame_table::{FrameSegment, FrameState, FrameTable};
use chopin::page_table::bootstrap::{PageTableOffsettingData, PT_VIRT_START};
use chopin::page_table::virt_map::{
    compose_virt_addr, decompose_virt_pageaddr, virtual_map_linear, LinearMapError, PageRegion,
};
use chopin::page_table::{
    bootstrap_pt, PTEKind, PageTable, PageTableEntry, PageTableIndex, FLAG_A, FLAG_D, FLAG_G, FLAG_R,
    FLAG_U, FLAG_V, FLAG_W, FLAG_X,
};
use chopin::physical_memory::PhysicalMemory;

const BASE: usize = 0x8010_0000;
const FIRST_FRAME: usize = 0x8010_1000;

fn idx(i: u16) -> PageTableIndex {
    PageTableIndex::new(i)
}

fn machine() -> (PhysicalMemory, FrameTable, PageTable) {
    let mem = PhysicalMemory::new(BASE, 256).unwrap();
    let mut frames = FrameTable::new();
    frames.segments.push(FrameSegment::initialize(BASE, 0x0010_0000).unwrap());
    let root = frames.alloc_front(1, FrameState::PageTable, 0).unwrap();
    (mem, frames, PageTable::from_pointer(root.phys_addr))
}

#[test]
fn flag_values() {
    assert_eq!(FLAG_V, 1 << 0);
    assert_eq!(FLAG_R, 1 << 1);
    assert_eq!(FLAG_W, 1 << 2);
    assert_eq!(FLAG_X, 1 << 3);
    assert_eq!(FLAG_U, 1 << 4);
    assert_eq!(FLAG_G, 1 << 5);
    assert_eq!(FLAG_A, 1 << 6);
    assert_eq!(FLAG_D, 1 << 7);
}

#[test]
fn entry_set_and_read_back() {
    let mut e = PageTableEntry(0);
    assert!(e.is_unused());
    assert!(!e.is_valid());
    assert!(!e.is_leaf());
    e.set(0x8020_3000, FLAG_V | FLAG_R | FLAG_W);
    assert_eq!(e.0, (0x80203 << 10) | 7);
    assert!(e.is_valid());
    assert!(e.is_leaf());
    assert!(!e.is_unused());
    assert_eq!(e.phys_addr(), 0x8020_3000);
    assert_eq!(e.phys_addr_wide(), 0x8020_3000);
    assert_eq!(e.kind(), PTEKind::ReadWrite);
    e.clear();
    assert!(e.is_unused());
    assert_eq!(e.0, 0);
}

#[test]
fn entry_set_drops_page_offset() {
    let mut e = PageTableEntry(0);
    e.set(0x8020_3abc, FLAG_V);
    assert_eq!(e.phys_addr(), 0x8020_3000);
    assert_eq!(e.kind(), PTEKind::NextLevel);
    assert!(!e.is_leaf());
}

#[test]
fn entry_kinds_follow_xwr() {
    let cases = [
        (0u64, PTEKind::NextLevel),
        (FLAG_R, PTEKind::ReadOnly),
        (FLAG_R | FLAG_W, PTEKind::ReadWrite),
        (FLAG_X, PTEKind::ExecOnly),
        (FLAG_R | FLAG_X, PTEKind::ReadExecute),
        (FLAG_R | FLAG_W | FLAG_X, PTEKind::ReadWriteExecute),
        (FLAG_W, PTEKind::_Reserved1),
        (FLAG_W | FLAG_X, PTEKind::_Reserved2),
    ];
    for (bits, kind) in cases {
        let e = PageTableEntry(bits | FLAG_V | FLAG_U | (0x1234 << 10));
        assert_eq!(e.kind(), kind);
        let mut f = PageTableEntry(FLAG_V | FLAG_D | FLAG_R | FLAG_W | FLAG_X | (0x77 << 10));
        f.set_kind(kind);
        assert_eq!(f.kind(), kind);
        assert_eq!(f.0 & !0xE, FLAG_V | FLAG_D | (0x77 << 10));
        assert_eq!(f.0 & 0xE, bits);
    }
}

#[test]
fn sv39_compose_scenario() {
    assert_eq!(compose_virt_addr(idx(280), idx(0), idx(0), 0), 0xFFFF_FFC6_0000_0000);
    assert_eq!(compose_virt_addr(idx(0), idx(0), idx(0), 0), 0x0);
    assert_eq!(PT_VIRT_START, 0xFFFF_FFC6_0000_0000);
}

#[test]
fn sv39_round_trip() {
    for (l1, l2, l3, off) in [(0u16, 0u16, 0u16, 0u64), (1, 2, 3, 4), (255, 511, 511, 4095), (256, 0, 0, 0), (511, 511, 511, 4095), (280, 17, 400, 8)] {
        let v = compose_virt_addr(idx(l1), idx(l2), idx(l3), off);
        let parts = decompose_virt_pageaddr(v >> 12);
        assert_eq!(parts.l1_index.as_addr(), l1 as usize);
        assert_eq!(parts.l2_index.as_addr(), l2 as usize);
        assert_eq!(parts.l3_index.as_addr(), l3 as usize);
        assert_eq!(v & 0xFFF, off);
        if l1 >= 256 {
            assert_eq!(v >> 39, 0x1FF_FFFF);
        } else {
            assert_eq!(v >> 39, 0);
        }
    }
}

#[test]
fn decompose_exact_values() {
    let parts = decompose_virt_pageaddr(0x4000_0000 >> 12);
    assert_eq!(parts.l1_index.as_addr(), 1);
    assert_eq!(parts.l2_index.as_addr(), 0);
    assert_eq!(parts.l3_index.as_addr(), 0);
    let parts = decompose_virt_pageaddr((5 << 18) | (6 << 9) | 7);
    assert_eq!(parts.l1_index.as_addr(), 5);
    assert_eq!(parts.l2_index.as_addr(), 6);
    assert_eq!(parts.l3_index.as_addr(), 7);
}

#[test]
fn physical_memory_reads_what_was_written() {
    let mut mem = PhysicalMemory::new(BASE, 4).unwrap();
    assert!(PhysicalMemory::new(BASE + 1, 4).is_none());
    assert!(mem.holds_page(BASE));
    assert!(mem.holds_page(BASE + 0x3000));
    assert!(!mem.holds_page(BASE + 0x4000));
    assert!(!mem.holds_page(BASE + 8));
    assert!(!mem.holds_page(BASE - 0x1000));
    mem.write(BASE + 0x1000, 5, 0xDEAD);
    assert_eq!(mem.read(BASE + 0x1000, 5), 0xDEAD);
    assert_eq!(mem.words[512 + 5], 0xDEAD);
    assert_eq!(mem.read(BASE + 0x1000, 4), 0);
    mem.zero_page(BASE + 0x1000);
    assert_eq!(mem.read(BASE + 0x1000, 5), 0);
}

#[test]
fn allocation_zero_clears_every_page() {
    let mut mem = PhysicalMemory::new(BASE, 4).unwrap();
    for i in 0..mem.words.len() {
        mem.words[i] = 0xFFFF;
    }
    let a = chopin::frame_table::MemoryAllocation {
        phys_addr: BASE + 0x1000,
        page_count: 2,
        pid: 0,
        state: FrameState::Kernel,
    };
    a.zero(&mut mem);
    assert!(mem.words[..512].iter().all(|w| *w == 0xFFFF));
    assert!(mem.words[512..1536].iter().all(|w| *w == 0));
    assert!(mem.words[1536..].iter().all(|w| *w == 0xFFFF));
}

#[test]
fn next_level_cases() {
    let (_mem, mut frames, _root) = machine();
    let mut link = PageTableEntry(0);
    link.set(0x8010_5000, FLAG_V);
    assert_eq!(link.next_level(&mut frames), Some(PageTable::from_pointer(0x8010_5000)));
    let unused = PageTableEntry(0);
    assert_eq!(unused.next_level(&mut frames), Some(PageTable::from_pointer(0x8010_2000)));
    assert_eq!(frames.segments[0].get_metadata(1).state(), FrameState::PageTable);
    let mut leaf = PageTableEntry(0);
    leaf.set(0x8010_5000, FLAG_V | FLAG_R);
    assert_eq!(leaf.next_level(&mut frames), None);
    let zero_ppn = PageTableEntry(FLAG_V);
    assert_eq!(zero_ppn.next_level(&mut frames), None);
    let mut invalid = PageTableEntry(0);
    invalid.set(0x8010_5000, FLAG_U);
    assert_eq!(invalid.next_level(&mut frames), None);
    frames.alloc_front(253, FrameState::Kernel, 0).unwrap();
    assert_eq!(unused.next_level(&mut frames), None);
}

#[test]
fn allocate_intermediary_cases() {
    let (mut mem, mut frames, root) = machine();
    let first = root.allocate_intermediary(&mut mem, idx(7), &mut frames).unwrap();
    assert!(first.allocated);
    assert_eq!(first.physical_starting_memory_address, 0x8010_2000);
    assert_eq!(first.page_table, PageTable::from_pointer(0x8010_2000));
    let e = root.entry(&mem, 7);
    assert!(e.is_valid());
    assert_eq!(e.kind(), PTEKind::NextLevel);
    assert_eq!(e.phys_addr(), 0x8010_2000);
    assert_eq!(e.0, (0x80102 << 10) | FLAG_V);
    let again = root.allocate_intermediary(&mut mem, idx(7), &mut frames).unwrap();
    assert!(!again.allocated);
    assert_eq!(again.physical_starting_memory_address, 0x8010_2000);
    root.make_mapping(&mut mem, idx(8), 0x9000_0000, FLAG_V | FLAG_R);
    assert!(root.allocate_intermediary(&mut mem, idx(8), &mut frames).is_err());
    frames.alloc_front(253, FrameState::Kernel, 0).unwrap();
    let before = mem.words.clone();
    assert!(root.allocate_intermediary(&mut mem, idx(9), &mut frames).is_err());
    assert_eq!(mem.words, before);
}

#[test]
fn allocate_intermediary_blanks_new_table() {
    let (mut mem, mut frames, root) = machine();
    for i in 0..mem.words.len() {
        mem.words[i] = 0x5555_5555;
    }
    mem.zero_page(root.phys_addr);
    let child = root.allocate_intermediary(&mut mem, idx(3), &mut frames).unwrap();
    for i in 0..512 {
        assert!(child.page_table.entry(&mem, i).is_unused());
    }
}

#[test]
fn bootstrap_sanity() {
    let (mut mem, mut frames, root) = machine();
    let data = bootstrap_pt(&root, &mut mem, &mut frames).unwrap();
    assert_eq!(
        data,
        PageTableOffsettingData { physical_root_null_offset: FIRST_FRAME, virtual_root_null_offset: PT_VIRT_START }
    );
    let e = root.entry(&mem, 280);
    assert!(e.is_valid());
    assert!(!e.is_leaf());
    assert_eq!(e.kind(), PTEKind::NextLevel);
    assert_ne!(e.phys_addr(), 0);
    let window = PageTable::from_pointer(e.phys_addr());
    let link = window.entry(&mem, 0);
    assert!(link.is_valid());
    assert_eq!(link.kind(), PTEKind::NextLevel);
    let leaves = PageTable::from_pointer(link.phys_addr());
    let leaf = leaves.entry(&mem, 0);
    assert!(leaf.is_valid());
    assert_eq!(leaf.kind(), PTEKind::ReadWrite);
    assert_eq!(leaf.phys_addr() >> 12, root.phys_addr >> 12);
    assert_eq!(leaves.entry(&mem, 1).phys_addr(), window.phys_addr);
    assert_eq!(leaves.entry(&mem, 2).phys_addr(), leaves.phys_addr);
    assert!(leaves.entry(&mem, 3).is_unused());
}

#[test]
fn bootstrap_makes_every_table_reachable() {
    let (mut mem, mut frames, root) = machine();
    bootstrap_pt(&root, &mut mem, &mut frames).unwrap();
    let tables = frames.iter_front();
    assert_eq!(tables, vec![0x8010_1000, 0x8010_2000, 0x8010_3000]);
    for (k, frame) in tables.iter().enumerate() {
        let index = (frame - frames.root_frame_address().unwrap()) >> 12;
        assert_eq!(index, k);
        let vaddr = PT_VIRT_START + 4096 * index as u64;
        assert_eq!(root.translate(&mem, vaddr), Some(*frame as u64));
        assert_eq!(root.translate(&mem, vaddr + 0x18), Some(*frame as u64 + 0x18));
    }
    assert_eq!(root.translate(&mem, PT_VIRT_START + 3 * 4096), None);
    assert_eq!(root.translate(&mem, 0x4000_0000), None);
    assert_eq!(root.translate(&mem, 0x0000_8000_0000_0000), None);
}

#[test]
fn bootstrap_fails_on_occupied_slot() {
    let (mut mem, mut frames, root) = machine();
    root.make_mapping(&mut mem, idx(280), 0x9000_0000, FLAG_V | FLAG_R);
    assert_eq!(bootstrap_pt(&root, &mut mem, &mut frames), None);
}

#[test]
fn is_free_follows_the_path() {
    let (mut mem, mut frames, root) = machine();
    assert!(root.is_free(&mem, idx(1), idx(0), idx(5)));
    let second = root.allocate_intermediary(&mut mem, idx(1), &mut frames).unwrap().page_table;
    assert!(root.is_free(&mem, idx(1), idx(0), idx(5)));
    let third = second.allocate_intermediary(&mut mem, idx(0), &mut frames).unwrap().page_table;
    assert!(root.is_free(&mem, idx(1), idx(0), idx(5)));
    third.make_mapping(&mut mem, idx(5), 0x9000_0000, FLAG_V | FLAG_R);
    assert!(!root.is_free(&mem, idx(1), idx(0), idx(5)));
    assert!(root.is_free(&mem, idx(1), idx(0), idx(4)));
    second.make_mapping(&mut mem, idx(9), 0x9000_0000, FLAG_V | FLAG_R | FLAG_X);
    assert!(!root.is_free(&mem, idx(1), idx(9), idx(0)));
}

#[test]
fn linear_map_reject() {
    let (mut mem, mut frames, root) = machine();
    let second = root.allocate_intermediary(&mut mem, idx(1), &mut frames).unwrap().page_table;
    let third = second.allocate_intermediary(&mut mem, idx(0), &mut frames).unwrap().page_table;
    third.make_mapping(&mut mem, idx(5), 0x9000_0000, FLAG_V | FLAG_R);
    let words = mem.words.clone();
    let metadata = frames.segments[0].metadata.clone();
    let r = virtual_map_linear(
        &root,
        &mut mem,
        &mut frames,
        PageRegion { address: 0x8020_0000, count: 10 },
        0x0000_0000_4000_0000,
    );
    assert_eq!(r, Err(LinearMapError::NotFree));
    assert_eq!(mem.words, words);
    assert_eq!(frames.segments[0].metadata, metadata);
}

#[test]
fn linear_map_installs_every_page() {
    let (mut mem, mut frames, root) = machine();
    bootstrap_pt(&root, &mut mem, &mut frames).unwrap();
    let r = virtual_map_linear(
        &root,
        &mut mem,
        &mut frames,
        PageRegion { address: 0x8020_0000, count: 10 },
        0x0000_0000_4000_0000,
    );
    assert_eq!(r, Ok(()));
    for i in 0..10u64 {
        assert_eq!(root.translate(&mem, 0x4000_0000 + i * 4096 + 4), Some(0x8020_0000 + i * 4096 + 4));
    }
    assert_eq!(root.translate(&mem, 0x4000_0000 + 10 * 4096), None);
    let second = PageTable::from_pointer(root.entry(&mem, 1).phys_addr());
    let third = PageTable::from_pointer(second.entry(&mem, 0).phys_addr());
    assert_eq!(third.entry(&mem, 3).0, (0x80203 << 10) | 15);
    assert_eq!(second.phys_addr, 0x8010_4000);
    assert_eq!(third.phys_addr, 0x8010_5000);
    assert_eq!(root.translate(&mem, PT_VIRT_START + 3 * 4096), Some(0x8010_4000));
    assert_eq!(root.translate(&mem, PT_VIRT_START + 4 * 4096), Some(0x8010_5000));
    assert_eq!(
        virtual_map_linear(&root, &mut mem, &mut frames, PageRegion { address: 0x8030_0000, count: 1 }, 0x4000_9000),
        Err(LinearMapError::NotFree)
    );
}

#[test]
fn linear_map_without_window_is_exhausted() {
    let (mut mem, mut frames, root) = machine();
    let r = virtual_map_linear(
        &root,
        &mut mem,
        &mut frames,
        PageRegion { address: 0x8020_0000, count: 1 },
        0x4000_0000,
    );
    assert_eq!(r, Err(LinearMapError::Exhausted));
}

#[test]
fn linear_map_of_no_pages_succeeds() {
    let (mut mem, mut frames, root) = machine();
    let words = mem.words.clone();
    let r = virtual_map_linear(&root, &mut mem, &mut frames, PageRegion { address: 0x8020_0000, count: 0 }, 0);
    assert_eq!(r, Ok(()));
    assert_eq!(mem.words, words);
}

#[test]
fn meta_allocate_maps_frame_in_window() {
    let (mut mem, mut frames, root) = machine();
    assert_eq!(root.meta_allocate_page_table(&mut mem, &mut frames), None);
    let (mut mem, mut frames, root) = machine();
    bootstrap_pt(&root, &mut mem, &mut frames).unwrap();
    let a = root.meta_allocate_page_table(&mut mem, &mut frames).unwrap();
    assert_eq!(a.phys_addr, 0x8010_4000);
    assert_eq!(a.page_count, 1);
    assert_eq!(a.state, FrameState::PageTable);
    assert_eq!(root.translate(&mem, PT_VIRT_START + 3 * 4096), Some(0x8010_4000));
    let leaves = PageTable::from_pointer(0x8010_3000);
    assert_eq!(leaves.entry(&mem, 3).0, (0x80104 << 10) | 7);
}

#[test]
fn first_free_cells_finds_first_run() {
    let (mut mem, _frames, root) = machine();
    assert_eq!(root.first_free_cells_accommodating(&mem, 1), Some(0));
    assert_eq!(root.first_free_cells_accommodating(&mem, 512), Some(0));
    assert_eq!(root.first_free_cells_accommodating(&mem, 513), None);
    assert_eq!(root.first_free_cells_accommodating(&mem, 0), None);
    root.make_mapping(&mut mem, idx(0), 0x9000_0000, FLAG_V | FLAG_R);
    root.make_mapping(&mut mem, idx(3), 0x9000_0000, FLAG_V | FLAG_X);
    assert_eq!(root.first_free_cells_accommodating(&mem, 1), Some(1));
    assert_eq!(root.first_free_cells_accommodating(&mem, 2), Some(1));
    assert_eq!(root.first_free_cells_accommodating(&mem, 3), Some(4));
    assert_eq!(root.first_free_cells_accommodating(&mem, 508), Some(4));
    assert_eq!(root.first_free_cells_accommodating(&mem, 509), None);
}

#[test]
fn create_allocation_pages_uses_existing_leaf_table() {
    let (mut mem, mut frames, root) = machine();
    assert!(root.create_allocation_pages(&mut mem, 2, &mut frames, FLAG_V | FLAG_R | FLAG_W).is_err());
    let second = root.allocate_intermediary(&mut mem, idx(2), &mut frames).unwrap().page_table;
    let third = second.allocate_intermediary(&mut mem, idx(3), &mut frames).unwrap().page_table;
    third.make_mapping(&mut mem, idx(0), 0x9000_0000, FLAG_V | FLAG_R);
    let v = root.create_allocation_pages(&mut mem, 2, &mut frames, FLAG_V | FLAG_R | FLAG_W).unwrap();
    assert_eq!(v, (2 << 30) | (3 << 21) | (1 << 12));
    let back = FIRST_FRAME + 253 * 4096;
    assert_eq!(third.entry(&mem, 1).0, (((back as u64) >> 12) << 10) | 7);
    assert_eq!(third.entry(&mem, 2).phys_addr(), back + 4096);
    assert_eq!(root.translate(&mem, v), Some(back as u64));
    assert_eq!(root.translate(&mem, v + 4096 + 9), Some(back as u64 + 4096 + 9));
    assert_eq!(frames.segments[0].get_metadata(253).state(), FrameState::Kernel);
    assert_eq!(frames.segments[0].get_metadata(254).state(), FrameState::Kernel);
    assert!(root.create_allocation_pages(&mut mem, 0, &mut frames, FLAG_V | FLAG_R).is_err());
}

#[test]
fn create_allocation_pages_in_high_half_is_sign_extended() {
    let (mut mem, mut frames, root) = machine();
    bootstrap_pt(&root, &mut mem, &mut frames).unwrap();
    let v = root.create_allocation_pages(&mut mem, 1, &mut frames, FLAG_V | FLAG_R).unwrap();
    assert_eq!(v, PT_VIRT_START + 3 * 4096);
    assert_eq!(root.translate(&mem, v), Some((FIRST_FRAME + 254 * 4096) as u64));
}

#[test]
fn create_allocation_pages_fails_without_frames() {
    let (mut mem, mut frames, root) = machine();
    bootstrap_pt(&root, &mut mem, &mut frames).unwrap();
    frames.alloc_front(252, FrameState::Kernel, 0).unwrap();
    let words = mem.words.clone();
    assert!(root.create_allocation_pages(&mut mem, 1, &mut frames, FLAG_V | FLAG_R).is_err());
    assert_eq!(mem.words, words);
}

#[test]
fn virtually_map_links_tables_and_writes_leaf() {
    let (mut mem, mut frames, root) = machine();
    bootstrap_pt(&root, &mut mem, &mut frames).unwrap();
    let r = root.virtually_map(&mut mem, &mut frames, idx(4), idx(5), idx(6), 0x8030_0000, FLAG_V | FLAG_R);
    assert!(r.is_ok());
    let v = compose_virt_addr(idx(4), idx(5), idx(6), 0x10);
    assert_eq!(root.translate(&mem, v), Some(0x8030_0010));
    root.make_mapping(&mut mem, idx(9), 0x9000_0000, FLAG_V | FLAG_R);
    let r = root.virtually_map(&mut mem, &mut frames, idx(9), idx(0), idx(0), 0x8030_0000, FLAG_V | FLAG_R);
    assert!(r.is_err());
}

#[test]
fn index_converts_to_usize() {
    assert_eq!(usize::from(idx(280)), 280);
    assert_eq!(idx(511).as_addr(), 511);
}
