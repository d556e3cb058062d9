use chopin::align::align_up;
use chopin::memory_map::{MemoryMap, MemoryRegion};

fn region(addr: usize, size: usize) -> MemoryRegion {
    MemoryRegion { addr, size }
}

fn map_of(regions: &[(usize, usize)]) -> MemoryMap {
    let mut map = MemoryMap::new();
    for (addr, size) in regions {
        map.add_region(region(*addr, *size));
    }
    map
}

#[test]
fn region_end_and_overlap() {
    let a = region(0x1000, 0x1000);
    let b = region(0x1800, 0x1000);
    let c = region(0x2000, 0x1000);
    assert_eq!(a.end(), 0x2000);
    assert!(a.overlaps(&b));
    assert!(b.overlaps(&a));
    assert!(!a.overlaps(&c));
}

#[test]
fn extend_with_spans_both() {
    let mut a = region(0x3000, 0x1000);
    a.extend_with(&region(0x1000, 0x800));
    assert_eq!(a, region(0x1000, 0x3000));
    a.extend_with(&region(0x2000, 0x4000));
    assert_eq!(a, region(0x1000, 0x5000));
}

#[test]
fn add_keeps_regions_sorted() {
    let map = map_of(&[(0x5000, 0x1000), (0x1000, 0x1000), (0x3000, 0x1000)]);
    assert_eq!(map.regions, vec![region(0x1000, 0x1000), region(0x3000, 0x1000), region(0x5000, 0x1000)]);
}

#[test]
fn add_merges_adjacent_and_overlapping() {
    let mut map = map_of(&[(0x1000, 0x1000), (0x3000, 0x1000), (0x6000, 0x1000)]);
    map.add_region(region(0x2000, 0x1000));
    assert_eq!(map.regions, vec![region(0x1000, 0x3000), region(0x6000, 0x1000)]);
    map.add_region(region(0x3800, 0x3000));
    assert_eq!(map.regions, vec![region(0x1000, 0x6000)]);
}

#[test]
fn add_of_empty_region_changes_nothing() {
    let mut map = map_of(&[(0x1000, 0x1000)]);
    map.add_region(region(0x5000, 0));
    assert_eq!(map.regions, vec![region(0x1000, 0x1000)]);
    let mut empty = MemoryMap::new();
    empty.add_region(region(0x5000, 0));
    assert!(empty.regions.is_empty());
}

#[test]
fn cut_splits_a_straddling_region() {
    let mut map = map_of(&[(0x1000, 0x4000)]);
    map.cut_region(region(0x2000, 0x1000));
    assert_eq!(map.regions, vec![region(0x1000, 0x1000), region(0x3000, 0x2000)]);
}

#[test]
fn cut_trims_and_removes() {
    let mut map = map_of(&[(0x1000, 0x1000), (0x3000, 0x1000), (0x5000, 0x2000)]);
    map.cut_region(region(0x1800, 0x3900));
    assert_eq!(map.regions, vec![region(0x1000, 0x800), region(0x5100, 0x1f00)]);
    map.cut_region(region(0x0, 0x10000));
    assert!(map.regions.is_empty());
}

#[test]
fn cut_of_empty_region_changes_nothing() {
    let mut map = map_of(&[(0x1000, 0x4000)]);
    map.cut_region(region(0x2000, 0));
    assert_eq!(map.regions, vec![region(0x1000, 0x4000)]);
}

#[test]
fn add_then_cut_restores_disjoint_map() {
    let mut map = map_of(&[(0x1000, 0x1000), (0x8000, 0x1000)]);
    let r = region(0x3000, 0x2000);
    map.add_region(r);
    map.cut_region(r);
    assert_eq!(map.regions, vec![region(0x1000, 0x1000), region(0x8000, 0x1000)]);
    let touching = region(0x2000, 0x6000);
    map.add_region(touching);
    assert_eq!(map.regions, vec![region(0x1000, 0x8000)]);
    map.cut_region(touching);
    assert_eq!(map.regions, vec![region(0x1000, 0x1000), region(0x8000, 0x1000)]);
}

#[test]
fn cut_then_add_restores_map() {
    let mut map = map_of(&[(0x1000, 0x4000), (0x8000, 0x1000)]);
    let r = region(0x2000, 0x1000);
    map.cut_region(r);
    map.add_region(r);
    assert_eq!(map.regions, vec![region(0x1000, 0x4000), region(0x8000, 0x1000)]);
}

#[test]
fn bite_first_carves_prefix() {
    let mut map = map_of(&[(0x1000, 0x800), (0x3000, 0x2000)]);
    assert_eq!(map.bite_first(0x1000), Some(region(0x3000, 0x1000)));
    assert_eq!(map.regions, vec![region(0x1000, 0x800), region(0x4000, 0x1000)]);
    assert_eq!(map.bite_first(0x1000), Some(region(0x4000, 0x1000)));
    assert_eq!(map.regions, vec![region(0x1000, 0x800)]);
    assert_eq!(map.bite_first(0x1000), None);
    assert_eq!(map.regions, vec![region(0x1000, 0x800)]);
}

#[test]
fn bite_first_aligned_rounds_start_up() {
    let mut map = map_of(&[(0x1234, 0x3000)]);
    assert_eq!(map.bite_first_aligned(0x1000, 0x1000), Some(region(0x2000, 0x1000)));
    assert_eq!(map.regions, vec![region(0x3000, 0x1234)]);
    assert_eq!(map.bite_first_aligned(0x1000, 0x1000), Some(region(0x3000, 0x1000)));
    assert_eq!(map.regions, vec![region(0x4000, 0x234)]);
    assert_eq!(map.bite_first_aligned(0x1000, 0x1000), None);
    assert_eq!(map.bite_first_aligned(0x234, 0x1000), Some(region(0x4000, 0x234)));
    assert!(map.regions.is_empty());
}

#[test]
fn align_up_values() {
    assert_eq!(align_up(0, 4096), 0);
    assert_eq!(align_up(1, 4096), 4096);
    assert_eq!(align_up(4096, 4096), 4096);
    assert_eq!(align_up(1020, 4096), 4096);
    assert_eq!(align_up(13, 8), 16);
    assert_eq!(align_up(13, 1), 13);
}

struct Lcg(u64);

impl Lcg {
    fn next(&mut self, bound: usize) -> usize {
        self.0 = self.0.wrapping_mul(6364136223846793005).wrapping_add(1442695040888963407);
        ((self.0 >> 33) as usize) % bound
    }
}

fn covered(map: &MemoryMap, space: usize) -> Vec<bool> {
    let mut bits = vec![false; space];
    for r in map.regions.iter() {
        for a in r.addr..r.addr + r.size {
            bits[a] = true;
        }
    }
    bits
}

fn assert_normal(map: &MemoryMap) {
    for r in map.regions.iter() {
        assert!(r.size > 0);
    }
    for pair in map.regions.windows(2) {
        assert!(pair[0].addr + pair[0].size < pair[1].addr);
    }
}

#[test]
fn map_agrees_with_a_set_of_addresses() {
    let space = 96;
    let mut rng = Lcg(7);
    let mut map = MemoryMap::new();
    let mut model = vec![false; space];
    for step in 0..2000 {
        let addr = rng.next(space);
        let size = rng.next(space - addr + 1).min(12);
        let r = region(addr, size);
        if step % 3 == 2 {
            map.cut_region(r);
            for a in addr..addr + size {
                model[a] = false;
            }
        } else {
            map.add_region(r);
            for a in addr..addr + size {
                model[a] = true;
            }
        }
        assert_normal(&map);
        assert_eq!(covered(&map, space), model);
    }
}

#[test]
fn bites_agree_with_a_set_of_addresses() {
    let space = 256;
    let mut rng = Lcg(11);
    for _ in 0..200 {
        let mut map = MemoryMap::new();
        for _ in 0..6 {
            let addr = rng.next(space - 16);
            map.add_region(region(addr, 1 + rng.next(15)));
        }
        let before = covered(&map, space);
        let size = rng.next(10);
        let align = 1 << rng.next(4);
        let first = map.regions.iter().find(|r| align_up(r.addr, align) + size <= r.addr + r.size).copied();
        let bite = map.bite_first_aligned(size, align);
        assert_normal(&map);
        match (first, bite) {
            (None, None) => assert_eq!(covered(&map, space), before),
            (Some(host), Some(bite)) => {
                assert_eq!(bite, region(align_up(host.addr, align), size));
                let mut expected = before.clone();
                for a in host.addr..bite.addr + bite.size {
                    expected[a] = false;
                }
                assert_eq!(covered(&map, space), expected);
            }
            other => panic!("{:?}", other),
        }
    }
}
