use chopin::frame_table::{
    FrameMetadataEntry, FrameSegment, FrameState, FrameTable, MemoryAllocation,
};

fn one_segment() -> FrameTable {
    let mut table = FrameTable::new();
    table.segments.push(FrameSegment::initialize(0x8010_0000, 0x0010_0000).unwrap());
    table
}

#[test]
fn metadata_entry_starts_free() {
    let e = FrameMetadataEntry::new();
    assert_eq!(e.raw, 0);
    assert_eq!(e.state(), FrameState::Free);
    assert_eq!(e.flags(), 0);
    assert_eq!(e.pid(), 0);
}

#[test]
fn metadata_entry_fields_are_independent() {
    let mut e = FrameMetadataEntry::new();
    e.set_state(FrameState::PageTable);
    e.set_flags(0xAB);
    e.set_pid(0x1234);
    assert_eq!(e.raw, 0x0012_34B4);
    assert_eq!(e.state(), FrameState::PageTable);
    assert_eq!(e.flags(), 0xB);
    assert_eq!(e.pid(), 0x1234);
    e.set_state(FrameState::Reserved);
    assert_eq!(e.raw, 0x0012_34B5);
    e.set_pid(0);
    assert_eq!(e.raw, 0xB5);
}

#[test]
fn unknown_state_code_reads_as_used() {
    let e = FrameMetadataEntry { raw: 0xF };
    assert_eq!(e.state(), FrameState::Used);
    assert_eq!(FrameState::from_bits(6), FrameState::Used);
    assert_eq!(FrameState::from_bits(1), FrameState::Used);
    assert_eq!(FrameState::Kernel.to_bits(), 2);
}

#[test]
fn frame_segment_scenario() {
    let seg = FrameSegment::initialize(0x8010_0000, 0x0010_0000).unwrap();
    assert_eq!(seg.frame_metadata_start_addr, 0x8010_0000);
    assert_eq!(seg.first_page_addr, 0x8010_1000);
    assert_eq!(seg.page_count, 255);
    assert_eq!(seg.metadata.len(), 255);
    let mut table = FrameTable::new();
    table.segments.push(seg);
    let a = table.alloc_front(3, FrameState::Kernel, 0).unwrap();
    assert_eq!(a.phys_addr, 0x8010_1000);
    assert_eq!(a.page_count, 3);
    assert_eq!(a.state, FrameState::Kernel);
    assert_eq!(a.pid, 0);
}

#[test]
fn back_alloc_scenario() {
    let mut table = one_segment();
    let a = table.alloc_back(2, FrameState::Kernel, 0).unwrap();
    assert_eq!(a.phys_addr, 0x8010_1000 + 253 * 4096);
    assert_eq!(a.page_count, 2);
}

#[test]
fn segment_needs_room_for_one_frame() {
    assert!(FrameSegment::initialize(0x1000, 4099).is_none());
    assert!(FrameSegment::initialize(0x1000, 4100).is_none());
    assert!(FrameSegment::initialize(0x1000, 8191).is_none());
    let seg = FrameSegment::initialize(0x1000, 8192).unwrap();
    assert_eq!(seg.first_page_addr, 0x2000);
    assert_eq!(seg.page_count, 1);
}

#[test]
fn segment_sizing_fits_region() {
    for size in [8192usize, 0x10_0000, 0x12_3456, 4_202_496, 10_000_000] {
        let seg = FrameSegment::initialize(0x4000_0000, size).unwrap();
        let meta = seg.first_page_addr - seg.frame_metadata_start_addr;
        assert_eq!(meta % 4096, 0);
        assert!(meta + seg.page_count * 4096 <= size);
    }
}

#[test]
fn segment_header_is_one_word_short_at_4202496() {
    let seg = FrameSegment::initialize(0x4000_0000, 4_202_496).unwrap();
    assert_eq!(seg.first_page_addr - seg.frame_metadata_start_addr, 4096);
    assert_eq!(seg.page_count, 1025);
}

#[test]
fn front_takes_lowest_and_back_takes_highest() {
    let mut table = one_segment();
    let a = table.alloc_front(2, FrameState::User, 7).unwrap();
    let b = table.alloc_front(1, FrameState::Kernel, 0).unwrap();
    let c = table.alloc_back(1, FrameState::Kernel, 0).unwrap();
    let d = table.alloc_back(4, FrameState::Used, 1).unwrap();
    assert_eq!(a.phys_addr, 0x8010_1000);
    assert_eq!(b.phys_addr, 0x8010_3000);
    assert_eq!(c.phys_addr, 0x8010_1000 + 254 * 4096);
    assert_eq!(d.phys_addr, 0x8010_1000 + 250 * 4096);
    assert_eq!(table.segments[0].get_metadata(0).state(), FrameState::User);
    assert_eq!(table.segments[0].get_metadata(0).pid(), 7);
    assert_eq!(table.segments[0].get_metadata(1).state(), FrameState::User);
    assert_eq!(table.segments[0].get_metadata(2).state(), FrameState::Kernel);
    assert_eq!(table.segments[0].get_metadata(3).state(), FrameState::Free);
    assert_eq!(table.segments[0].get_metadata(250).pid(), 1);
}

#[test]
fn front_skips_runs_that_are_too_short() {
    let mut table = one_segment();
    let a = table.alloc_front(1, FrameState::Kernel, 0).unwrap();
    let b = table.alloc_front(1, FrameState::Kernel, 0).unwrap();
    let c = table.alloc_front(1, FrameState::Kernel, 0).unwrap();
    assert!(table.release(&a));
    assert!(table.release(&c));
    let d = table.alloc_front(2, FrameState::Kernel, 0).unwrap();
    assert_eq!(d.phys_addr, c.phys_addr);
    let e = table.alloc_front(1, FrameState::Kernel, 0).unwrap();
    assert_eq!(e.phys_addr, a.phys_addr);
    assert_eq!(b.phys_addr, 0x8010_2000);
}

#[test]
fn allocations_are_disjoint() {
    let mut table = one_segment();
    let mut taken: Vec<MemoryAllocation> = Vec::new();
    for i in 0..20usize {
        let a = if i % 2 == 0 {
            table.alloc_front(1 + i % 5, FrameState::Kernel, 0)
        } else {
            table.alloc_back(1 + i % 3, FrameState::User, 3)
        };
        taken.push(a.unwrap());
    }
    for i in 0..taken.len() {
        for j in i + 1..taken.len() {
            let (a, b) = (&taken[i], &taken[j]);
            let a_end = a.phys_addr + 4096 * a.page_count;
            let b_end = b.phys_addr + 4096 * b.page_count;
            assert!(a_end <= b.phys_addr || b_end <= a.phys_addr);
        }
    }
}

#[test]
fn exhaustion_returns_none_and_changes_nothing() {
    let mut table = one_segment();
    assert!(table.alloc_front(256, FrameState::Kernel, 0).is_none());
    assert!(table.alloc_back(256, FrameState::Kernel, 0).is_none());
    assert!(table.alloc_back(0, FrameState::Kernel, 0).is_none());
    let all = table.alloc_front(255, FrameState::Kernel, 0).unwrap();
    assert_eq!(all.phys_addr, 0x8010_1000);
    assert!(table.alloc_front(1, FrameState::Kernel, 0).is_none());
    assert!(table.alloc_back(1, FrameState::Kernel, 0).is_none());
}

#[test]
fn front_alloc_of_no_frames_succeeds_at_segment_start() {
    let mut table = one_segment();
    let a = table.alloc_front(0, FrameState::Kernel, 0).unwrap();
    assert_eq!(a.phys_addr, 0x8010_1000);
    assert_eq!(a.page_count, 0);
    assert_eq!(table.segments[0].get_metadata(0).state(), FrameState::Free);
}

#[test]
fn second_segment_serves_when_first_is_full() {
    let mut table = FrameTable::new();
    table.segments.push(FrameSegment::initialize(0x8000_0000, 3 * 4096).unwrap());
    table.segments.push(FrameSegment::initialize(0x9000_0000, 0x10_0000).unwrap());
    assert_eq!(table.segments[0].page_count, 2);
    assert_eq!(table.root_frame_address(), Some(0x8000_1000));
    let a = table.alloc_front(2, FrameState::Kernel, 0).unwrap();
    let b = table.alloc_front(2, FrameState::Kernel, 0).unwrap();
    assert_eq!(a.phys_addr, 0x8000_1000);
    assert_eq!(b.phys_addr, 0x9000_1000);
    let c = table.alloc_back(3, FrameState::Kernel, 0).unwrap();
    assert_eq!(c.phys_addr, 0x9000_1000 + 252 * 4096);
}

#[test]
fn release_frees_frames_and_keeps_flags() {
    let mut table = one_segment();
    let a = table.alloc_front(2, FrameState::User, 9).unwrap();
    let mut e = table.segments[0].metadata[1];
    e.set_flags(5);
    table.segments[0].metadata[1] = e;
    assert!(table.release(&a));
    assert_eq!(table.segments[0].get_metadata(0).raw, 0);
    assert_eq!(table.segments[0].get_metadata(1).state(), FrameState::Free);
    assert_eq!(table.segments[0].get_metadata(1).pid(), 0);
    assert_eq!(table.segments[0].get_metadata(1).flags(), 5);
    let stray = MemoryAllocation { phys_addr: 0x1000, page_count: 1, pid: 0, state: FrameState::Kernel };
    assert!(!table.release(&stray));
}

#[test]
fn iter_front_lists_page_table_frames() {
    let mut table = one_segment();
    table.alloc_front(1, FrameState::PageTable, 0).unwrap();
    table.alloc_front(2, FrameState::Kernel, 0).unwrap();
    table.alloc_front(1, FrameState::PageTable, 0).unwrap();
    table.alloc_back(1, FrameState::PageTable, 0).unwrap();
    assert_eq!(
        table.iter_front(),
        vec![0x8010_1000, 0x8010_4000, 0x8010_1000 + 254 * 4096]
    );
}

#[test]
fn iter_pages_lists_each_frame() {
    let a = MemoryAllocation { phys_addr: 0x8010_1000, page_count: 3, pid: 0, state: FrameState::Kernel };
    assert_eq!(a.iter_pages(), vec![0x8010_1000, 0x8010_2000, 0x8010_3000]);
    let seg = FrameSegment::initialize(0x8010_0000, 0x0010_0000).unwrap();
    assert_eq!(seg.get_page(2), 0x8010_3000);
}

#[test]
fn empty_table_has_no_root_frame() {
    let mut table = FrameTable::new();
    assert_eq!(table.root_frame_address(), None);
    assert!(table.alloc_front(1, FrameState::Kernel, 0).is_none());
    assert!(table.iter_front().is_empty());
}

#[test]
fn layout_splits_region() {
    assert_eq!(FrameSegment::layout(0x0010_0000), Some((4096, 255)));
    assert_eq!(FrameSegment::layout(4099), None);
    assert_eq!(FrameSegment::layout(8191), None);
    assert_eq!(FrameSegment::layout(8192), Some((4096, 1)));
    assert_eq!(FrameSegment::layout(4100 * 1025), Some((8192, 1024)));
}

#[test]
fn allocations_agree_with_a_model_of_frames() {
    let mut table = FrameTable::new();
    table.segments.push(FrameSegment::initialize(0x8000_0000, 21 * 4096).unwrap());
    table.segments.push(FrameSegment::initialize(0x9000_0000, 11 * 4096).unwrap());
    let sizes = [table.segments[0].page_count, table.segments[1].page_count];
    assert_eq!(sizes, [20, 10]);
    let mut model: Vec<Vec<bool>> = sizes.iter().map(|n| vec![false; *n]).collect();
    let mut live: Vec<MemoryAllocation> = Vec::new();
    let mut seed: u64 = 5;
    let mut next = |bound: usize| {
        seed = seed.wrapping_mul(6364136223846793005).wrapping_add(1442695040888963407);
        ((seed >> 33) as usize) % bound
    };
    for _ in 0..3000 {
        let choice = next(3);
        if choice == 2 && !live.is_empty() {
            let a = live.remove(next(live.len()));
            assert!(table.release(&a));
            let s = if a.phys_addr >= 0x9000_0000 { 1 } else { 0 };
            let idx = (a.phys_addr - table.segments[s].first_page_addr) / 4096;
            for k in idx..idx + a.page_count {
                model[s][k] = false;
            }
            continue;
        }
        let count = 1 + next(4);
        let front = choice == 0;
        let mut expected = None;
        for (s, frames) in model.iter().enumerate() {
            let starts: Vec<usize> = (0..frames.len().saturating_sub(count - 1))
                .filter(|i| frames[*i..*i + count].iter().all(|used| !used))
                .collect();
            let pick = if front { starts.first() } else { starts.last() };
            if let Some(idx) = pick {
                expected = Some((s, *idx));
                break;
            }
        }
        let got = if front {
            table.alloc_front(count, FrameState::Kernel, 1)
        } else {
            table.alloc_back(count, FrameState::User, 2)
        };
        match (expected, got) {
            (None, None) => {}
            (Some((s, idx)), Some(a)) => {
                assert_eq!(a.phys_addr, table.segments[s].first_page_addr + 4096 * idx);
                assert_eq!(a.page_count, count);
                for k in idx..idx + count {
                    model[s][k] = true;
                }
                live.push(a);
            }
            other => panic!("{:?}", other),
        }
        for (s, frames) in model.iter().enumerate() {
            for (k, used) in frames.iter().enumerate() {
                assert_eq!(table.segments[s].get_metadata(k).state() != FrameState::Free, *used);
            }
        }
    }
}
