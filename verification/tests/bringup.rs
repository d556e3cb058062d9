use chopin::bringup::{
    add_memory, allocate_root_table, build_frame_table, build_memory_map, cells_supported, cut_memory,
    early_heap_region, kernel_region, EARLY_HEAP_SIZE,
};
use chopin::console::{format_u32, format_u64, nibble_char};
use chopin::frame_table::FrameState;
use chopin::memory_map::{MemoryMap, MemoryRegion};
use chopin::physical_memory::PhysicalMemory;

fn region(addr: usize, size: usize) -> MemoryRegion {
    MemoryRegion { addr, size }
}

#[test]
fn only_two_cells_are_supported() {
    assert!(cells_supported(2, 2, 2, 2));
    assert!(!cells_supported(1, 1, 1, 1));
    assert!(!cells_supported(2, 1, 2, 2));
    assert!(!cells_supported(2, 2, 1, 2));
    assert!(!cells_supported(2, 2, 2, 1));
}

#[test]
fn early_heap_sits_32_bytes_above_kernel() {
    assert_eq!(early_heap_region(0x8020_0000), region(0x8020_0020, 64_000));
    assert_eq!(EARLY_HEAP_SIZE, 64_000);
    assert_eq!(kernel_region(0x8000_0000, 0x8020_0000), region(0x8000_0000, 0x20_0000));
}

#[test]
fn memory_map_excludes_reserved_kernel_and_heap() {
    let memory = vec![(0x8000_0000u128, 0x0800_0000u128)];
    let reserved = vec![(0x8000_0000u128, 0x4_0000u128), (0x8700_0000, 0x1000)];
    let kernel = kernel_region(0x8020_0000, 0x8030_0000);
    let heap = early_heap_region(0x8030_0000);
    let map = build_memory_map(&memory, &reserved, kernel, heap);
    assert_eq!(
        map.regions,
        vec![
            region(0x8004_0000, 0x1c_0000),
            region(0x8030_0000, 0x20),
            region(0x8030_0020 + 64_000, 0x8700_0000 - 0x8030_0020 - 64_000),
            region(0x8700_1000, 0x0ff_f000),
        ]
    );
}

#[test]
fn add_and_cut_memory_apply_every_tuple() {
    let mut map = MemoryMap::new();
    add_memory(&mut map, &vec![(0x1000, 0x1000), (0x2000, 0x1000), (0x8000, 0x1000)]);
    assert_eq!(map.regions, vec![region(0x1000, 0x2000), region(0x8000, 0x1000)]);
    cut_memory(&mut map, &vec![(0x1800, 0x100), (0x8000, 0x800)]);
    assert_eq!(map.regions, vec![region(0x1000, 0x800), region(0x1900, 0x1700), region(0x8800, 0x800)]);
}

#[test]
fn frame_table_has_one_segment_per_large_region() {
    let mut map = MemoryMap::new();
    map.add_region(region(0x8000_0000, 0x20));
    map.add_region(region(0x8010_0000, 0x10_0000));
    map.add_region(region(0x9000_0000, 0x4000));
    let table = build_frame_table(&map);
    assert_eq!(table.segments.len(), 2);
    assert_eq!(table.segments[0].first_page_addr, 0x8010_1000);
    assert_eq!(table.segments[0].page_count, 255);
    assert_eq!(table.segments[1].first_page_addr, 0x9000_1000);
    assert_eq!(table.segments[1].page_count, 3);
    assert!(table.segments[1].metadata.iter().all(|e| e.raw == 0));
}

#[test]
fn root_table_is_first_frame_and_blank() {
    let mut map = MemoryMap::new();
    map.add_region(region(0x8010_0000, 0x10_0000));
    let mut table = build_frame_table(&map);
    let mut mem = PhysicalMemory::new(0x8010_0000, 256).unwrap();
    for i in 0..mem.words.len() {
        mem.words[i] = 7;
    }
    let root = allocate_root_table(&mut table, &mut mem).unwrap();
    assert_eq!(root.phys_addr, 0x8010_1000);
    assert_eq!(table.segments[0].get_metadata(0).state(), FrameState::PageTable);
    assert!(mem.words[512..1024].iter().all(|w| *w == 0));
    assert!(mem.words[1024..].iter().all(|w| *w == 7));
    let mut empty = chopin::frame_table::FrameTable::new();
    assert!(allocate_root_table(&mut empty, &mut mem).is_none());
}

#[test]
fn numbers_print_as_grouped_hex() {
    assert_eq!(format_u32(0x1234_ABCD), b"0x12_34_AB_CD".to_vec());
    assert_eq!(format_u32(0), b"0x00_00_00_00".to_vec());
    assert_eq!(format_u64(0x0123_4567_89AB_CDEF), b"0x01_23_45_67_89_AB_CD_EF".to_vec());
    assert_eq!(format_u64(u64::MAX), b"0xFF_FF_FF_FF_FF_FF_FF_FF".to_vec());
    assert_eq!(nibble_char(0), b'0');
    assert_eq!(nibble_char(9), b'9');
    assert_eq!(nibble_char(10), b'A');
    assert_eq!(nibble_char(15), b'F');
}

#[test]
fn established_space_reaches_every_table() {
    let mut map = MemoryMap::new();
    map.add_region(region(0x8010_0000, 0x10_0000));
    let mut table = build_frame_table(&map);
    let mut mem = PhysicalMemory::new(0x8010_0000, 256).unwrap();
    let (root, data) = chopin::bringup::establish_address_space(&mut table, &mut mem).unwrap();
    assert_eq!(root.phys_addr, 0x8010_1000);
    assert_eq!(data.physical_root_null_offset, 0x8010_1000);
    assert_eq!(data.virtual_root_null_offset, 0xFFFF_FFC6_0000_0000);
    let tables = table.iter_front();
    assert_eq!(tables, vec![0x8010_1000, 0x8010_2000, 0x8010_3000]);
    for (k, frame) in tables.iter().enumerate() {
        assert_eq!(root.translate(&mem, data.virtual_root_null_offset + 4096 * k as u64), Some(*frame as u64));
    }
}

#[test]
fn establishing_without_frames_fails() {
    let mut map = MemoryMap::new();
    map.add_region(region(0x8010_0000, 3 * 4096));
    let mut table = build_frame_table(&map);
    assert_eq!(table.segments[0].page_count, 2);
    let mut mem = PhysicalMemory::new(0x8010_0000, 4).unwrap();
    assert!(chopin::bringup::establish_address_space(&mut table, &mut mem).is_none());
}
