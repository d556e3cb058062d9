//! The map of usable memory: a sorted list of regions that never touch.
use crate::align::{align_up, align_up_spec};
use vstd::prelude::*;

verus! {

/// A stretch of memory: `size` bytes from `addr` on.
#[derive(Debug, Clone, Copy, PartialEq, Eq, Structural)]
pub struct MemoryRegion {
    pub addr: usize,
    pub size: usize,
}

impl MemoryRegion {
    /// One byte past the region.
    pub open spec fn end_spec(self) -> int {
        self.addr + self.size
    }

    /// The region fits the address space.
    pub open spec fn valid(self) -> bool {
        self.addr + self.size <= usize::MAX
    }

    /// The address `a` lies in the region.
    pub open spec fn contains(self, a: int) -> bool {
        self.addr <= a < self.addr + self.size
    }

    /// The addresses of the region.
    pub open spec fn span(self) -> Set<int> {
        Set::new(|a: int| self.contains(a))
    }

    /// Each region starts below the end of the other.
    pub open spec fn overlaps_spec(self, other: MemoryRegion) -> bool {
        self.addr < other.end_spec() && other.addr < self.end_spec()
    }

    /// Whether the two regions share an address.
    pub fn overlaps(&self, other: &MemoryRegion) -> (r: bool)
        requires
            self.valid(),
            other.valid(),
        ensures
            r == self.overlaps_spec(*other),
            self.size > 0 && other.size > 0 ==> (r <==> exists|a: int|
                self.contains(a) && other.contains(a)),
    {
        let r = self.addr < other.end() && other.addr < self.end();
        proof {
            if r && self.size > 0 && other.size > 0 {
                let a = if self.addr >= other.addr {
                    self.addr as int
                } else {
                    other.addr as int
                };
                assert(self.contains(a) && other.contains(a));
            }
        }
        r
    }

    /// One byte past the region.
    pub fn end(&self) -> (e: usize)
        requires
            self.valid(),
        ensures
            e == self.end_spec(),
    {
        self.addr + self.size
    }

    /// Grows the region to the smallest one that holds both it and `other`.
    pub fn extend_with(&mut self, other: &MemoryRegion)
        requires
            old(self).valid(),
            other.valid(),
        ensures
            final(self).valid(),
            final(self).addr == if old(self).addr <= other.addr {
                old(self).addr
            } else {
                other.addr
            },
            final(self).end_spec() == if old(self).end_spec() >= other.end_spec() {
                old(self).end_spec()
            } else {
                other.end_spec()
            },
    {
        let new_start = if self.addr <= other.addr {
            self.addr
        } else {
            other.addr
        };
        let new_end = if self.end() >= other.end() {
            self.end()
        } else {
            other.end()
        };
        self.addr = new_start;
        self.size = new_end - new_start;
    }
}

/// Some region of the first `n` holds the address `a`.
pub open spec fn covered_by_first(regions: Seq<MemoryRegion>, n: int, a: int) -> bool {
    exists|i: int| 0 <= i < n && i < regions.len() && (#[trigger] regions[i]).contains(a)
}

/// Some region holds the address `a`.
pub open spec fn covered(regions: Seq<MemoryRegion>, a: int) -> bool {
    covered_by_first(regions, regions.len() as int, a)
}

/// The invariant of a memory map: every region has a size above 0 and fits
/// the address space, and each ends strictly below the start of the next,
/// so that the regions are sorted, disjoint and never adjacent.
pub open spec fn regions_wf(regions: Seq<MemoryRegion>) -> bool {
    &&& forall|i: int| 0 <= i < regions.len() ==> (#[trigger] regions[i]).size > 0 && regions[i].valid()
    &&& forall|i: int, j: int|
        0 <= i < j < regions.len() ==> (#[trigger] regions[i]).end_spec() < (#[trigger] regions[j]).addr
}

/// How `add_region` rebuilds the list: the regions before `first` stay, the
/// regions `first .. stop` and `r` become `merged`, the regions from `stop`
/// on stay.
pub open spec fn is_merge(
    regions: Seq<MemoryRegion>,
    r: MemoryRegion,
    first: int,
    stop: int,
    merged: MemoryRegion,
    rebuilt: Seq<MemoryRegion>,
) -> bool {
    &&& regions_wf(regions)
    &&& r.valid() && r.size > 0
    &&& 0 <= first <= stop <= regions.len()
    &&& merged.valid()
    &&& merged.addr <= r.addr && r.end_spec() <= merged.end_spec()
    &&& merged.addr == r.addr || (first < stop && merged.addr == regions[first].addr)
    &&& forall|k: int| 0 <= k < first ==> (#[trigger] regions[k]).end_spec() < r.addr
    &&& forall|k: int| first <= k < stop ==> (#[trigger] regions[k]).end_spec() <= merged.end_spec()
    &&& first < regions.len() ==> merged.addr <= regions[first].addr
    &&& stop < regions.len() ==> merged.end_spec() < regions[stop].addr
    &&& forall|a: int|
        merged.contains(a) ==> r.contains(a) || exists|k: int|
            first <= k < stop && (#[trigger] regions[k]).contains(a)
    &&& rebuilt == regions.subrange(0, first).push(merged) + regions.subrange(
        stop,
        regions.len() as int,
    )
}

/// Where each region of the rebuilt list comes from.
proof fn lemma_merged_index(
    regions: Seq<MemoryRegion>,
    r: MemoryRegion,
    first: int,
    stop: int,
    merged: MemoryRegion,
    rebuilt: Seq<MemoryRegion>,
)
    requires
        is_merge(regions, r, first, stop, merged, rebuilt),
    ensures
        rebuilt.len() == first + 1 + regions.len() - stop,
        rebuilt[first] == merged,
        forall|k: int| 0 <= k < first ==> #[trigger] rebuilt[k] == regions[k],
        forall|k: int| first < k < rebuilt.len() ==> #[trigger] rebuilt[k] == regions[k - first - 1 + stop],
{
}

/// The rebuilt list keeps the invariant.
proof fn lemma_merged_wf(
    regions: Seq<MemoryRegion>,
    r: MemoryRegion,
    first: int,
    stop: int,
    merged: MemoryRegion,
    rebuilt: Seq<MemoryRegion>,
)
    requires
        is_merge(regions, r, first, stop, merged, rebuilt),
    ensures
        regions_wf(rebuilt),
{
    lemma_merged_index(regions, r, first, stop, merged, rebuilt);
    assert forall|j: int, k: int| 0 <= j < k < rebuilt.len() implies (#[trigger] rebuilt[j]).end_spec()
        < (#[trigger] rebuilt[k]).addr by {
        if k < first {
            assert(regions[j].end_spec() < regions[k].addr);
        } else if k == first {
            assert(regions[j].end_spec() < r.addr);
            if first < stop {
                assert(regions[j].end_spec() < regions[first].addr);
            }
        } else {
            let m = k - first - 1 + stop;
            if j < first {
                assert(regions[j].end_spec() < regions[m].addr);
            } else if j == first {
                if m > stop {
                    assert(regions[stop].end_spec() < regions[m].addr);
                }
            } else {
                assert(regions[j - first - 1 + stop].end_spec() < regions[m].addr);
            }
        }
    }
}

/// The rebuilt list holds what the list held, and the addresses of `r`.
proof fn lemma_merged_covers(
    regions: Seq<MemoryRegion>,
    r: MemoryRegion,
    first: int,
    stop: int,
    merged: MemoryRegion,
    rebuilt: Seq<MemoryRegion>,
)
    requires
        is_merge(regions, r, first, stop, merged, rebuilt),
    ensures
        forall|a: int| covered(rebuilt, a) <==> covered(regions, a) || r.contains(a),
{
    lemma_merged_index(regions, r, first, stop, merged, rebuilt);
    assert forall|a: int| covered(rebuilt, a) implies covered(regions, a) || r.contains(a) by {
        let k = choose|k: int| 0 <= k < rebuilt.len() && (#[trigger] rebuilt[k]).contains(a);
        if k < first {
            assert(regions[k].contains(a));
        } else if k > first {
            assert(regions[k - first - 1 + stop].contains(a));
        } else if !r.contains(a) {
            assert(merged.contains(a));
            let j = choose|j: int| first <= j < stop && (#[trigger] regions[j]).contains(a);
            assert(regions[j].contains(a));
        }
    }
    assert forall|a: int| covered(regions, a) || r.contains(a) implies covered(rebuilt, a) by {
        if r.contains(a) {
            assert(rebuilt[first].contains(a));
        } else {
            let k = choose|k: int| 0 <= k < regions.len() && (#[trigger] regions[k]).contains(a);
            if k < first {
                assert(rebuilt[k].contains(a));
            } else if k >= stop {
                assert(rebuilt[k - stop + first + 1] == regions[k]);
                assert(rebuilt[k - stop + first + 1].contains(a));
            } else {
                if k > first {
                    assert(regions[first].end_spec() < regions[k].addr);
                }
                assert(rebuilt[first].contains(a));
            }
        }
    }
}

/// Appending a region adds its addresses to what is covered.
pub proof fn lemma_covered_push(regions: Seq<MemoryRegion>, x: MemoryRegion, a: int)
    ensures
        covered(regions.push(x), a) <==> covered(regions, a) || x.contains(a),
{
    let pushed = regions.push(x);
    if covered(pushed, a) {
        let k = choose|k: int| 0 <= k < pushed.len() && (#[trigger] pushed[k]).contains(a);
        if k < regions.len() {
            assert(regions[k].contains(a));
        }
    }
    if x.contains(a) {
        assert(pushed[regions.len() as int].contains(a));
    } else if covered(regions, a) {
        let k = choose|k: int| 0 <= k < regions.len() && (#[trigger] regions[k]).contains(a);
        assert(pushed[k].contains(a));
    }
}

/// Appending a region that starts strictly above every end keeps the
/// invariant.
pub proof fn lemma_push_wf(regions: Seq<MemoryRegion>, x: MemoryRegion)
    requires
        regions_wf(regions),
        x.size > 0,
        x.valid(),
        forall|k: int| 0 <= k < regions.len() ==> (#[trigger] regions[k]).end_spec() < x.addr,
    ensures
        regions_wf(regions.push(x)),
{
    let pushed = regions.push(x);
    assert forall|j: int, k: int| 0 <= j < k < pushed.len() implies (#[trigger] pushed[j]).end_spec()
        < (#[trigger] pushed[k]).addr by {
        if k < regions.len() {
            assert(regions[j].end_spec() < regions[k].addr);
        } else {
            assert(regions[j].end_spec() < x.addr);
        }
    }
}

/// One more region adds its addresses to what the first regions cover.
pub proof fn lemma_covered_by_first_step(regions: Seq<MemoryRegion>, n: int, a: int)
    requires
        0 <= n < regions.len(),
    ensures
        covered_by_first(regions, n + 1, a) <==> covered_by_first(regions, n, a) || regions[n].contains(a),
{
    if covered_by_first(regions, n + 1, a) {
        let k = choose|k: int| 0 <= k < n + 1 && k < regions.len() && (#[trigger] regions[k]).contains(a);
        if k < n {
            assert(regions[k].contains(a));
        }
    }
    if regions[n].contains(a) {
    } else if covered_by_first(regions, n, a) {
        let k = choose|k: int| 0 <= k < n && k < regions.len() && (#[trigger] regions[k]).contains(a);
        assert(regions[k].contains(a));
    }
}

/// The usable memory: regions sorted by address, pairwise disjoint, never
/// adjacent, none empty.
#[derive(Debug)]
pub struct MemoryMap {
    pub regions: Vec<MemoryRegion>,
}

impl View for MemoryMap {
    type V = Set<int>;

    /// The addresses the map holds.
    open spec fn view(&self) -> Set<int> {
        Set::new(|a: int| covered(self.regions@, a))
    }
}

impl MemoryMap {
    pub open spec fn wf(&self) -> bool {
        regions_wf(self.regions@)
    }

    /// A map that holds no address.
    pub fn new() -> (map: MemoryMap)
        ensures
            map.wf(),
            map@ == Set::<int>::empty(),
            map.regions@.len() == 0,
    {
        let map = MemoryMap { regions: Vec::new() };
        assert(map@ =~= Set::<int>::empty());
        map
    }

    /// Adds the addresses of `r` to the map, merging `r` with every region
    /// it overlaps or touches. An empty `r` changes nothing.
    pub fn add_region(&mut self, r: MemoryRegion)
        requires
            old(self).wf(),
            r.valid(),
        ensures
            final(self).wf(),
            final(self)@ == old(self)@.union(r.span()),
    {
        if r.size == 0 {
            assert(self@.union(r.span()) =~= self@);
            return ;
        }
        let n: usize = self.regions.len();
        let mut out: Vec<MemoryRegion> = Vec::new();
        let mut i: usize = 0;
        while i < n && self.regions[i].end() < r.addr
            invariant
                self.wf(),
                n == self.regions@.len(),
                i <= n,
                out@ == self.regions@.subrange(0, i as int),
                forall|k: int| 0 <= k < i ==> (#[trigger] self.regions@[k]).end_spec() < r.addr,
            decreases n - i,
        {
            out.push(self.regions[i]);
            assert(out@ =~= self.regions@.subrange(0, i as int + 1));
            i += 1;
        }
        let first: usize = i;
        let mut lo: usize = r.addr;
        let mut hi: usize = r.addr + r.size;
        if i < n && self.regions[i].addr < r.addr {
            lo = self.regions[i].addr;
            if self.regions[i].end() > hi {
                hi = self.regions[i].end();
            }
            i += 1;
        }
        while i < n && self.regions[i].addr <= hi
            invariant
                self.wf(),
                r.valid(),
                r.size > 0,
                n == self.regions@.len(),
                first <= i <= n,
                lo <= r.addr,
                r.end_spec() <= hi,
                first < n ==> self.regions@[first as int].end_spec() >= r.addr,
                first < n ==> lo <= self.regions@[first as int].addr,
                lo == r.addr || (first < i && lo == self.regions@[first as int].addr),
                hi <= usize::MAX,
                forall|k: int| first <= k < i ==> (#[trigger] self.regions@[k]).end_spec() <= hi,
                forall|a: int|
                    lo <= a < hi ==> r.contains(a) || exists|k: int|
                        first <= k < i && (#[trigger] self.regions@[k]).contains(a),
            decreases n - i,
        {
            let ghost old_hi = hi;
            if self.regions[i].end() > hi {
                hi = self.regions[i].end();
            }
            assert forall|a: int| lo <= a < hi implies r.contains(a) || exists|k: int|
                first <= k < i + 1 && (#[trigger] self.regions@[k]).contains(a) by {
                if a >= old_hi {
                    assert(self.regions@[i as int].contains(a));
                } else if !r.contains(a) {
                    let k = choose|k: int| first <= k < i && (#[trigger] self.regions@[k]).contains(a);
                    assert(self.regions@[k].contains(a));
                }
            }
            i += 1;
        }
        let merged = MemoryRegion { addr: lo, size: hi - lo };
        let stop: usize = i;
        out.push(merged);
        while i < n
            invariant
                n == self.regions@.len(),
                first <= stop <= i <= n,
                out@ == self.regions@.subrange(0, first as int).push(merged) + self.regions@.subrange(
                    stop as int,
                    i as int,
                ),
            decreases n - i,
        {
            out.push(self.regions[i]);
            assert(out@ =~= self.regions@.subrange(0, first as int).push(merged) + self.regions@.subrange(
                stop as int,
                i as int + 1,
            ));
            i += 1;
        }
        proof {
            lemma_merged_wf(self.regions@, r, first as int, stop as int, merged, out@);
            lemma_merged_covers(self.regions@, r, first as int, stop as int, merged, out@);
        }
        self.regions = out;
        assert(self@ =~= old(self)@.union(r.span()));
    }

    /// Takes the addresses of `cut` out of the map. A region that straddles
    /// the cut is split into what lies below and what lies above it. An
    /// empty `cut` changes nothing.
    pub fn cut_region(&mut self, cut: MemoryRegion)
        requires
            old(self).wf(),
            cut.valid(),
        ensures
            final(self).wf(),
            final(self)@ == old(self)@.difference(cut.span()),
    {
        if cut.size == 0 {
            assert(self@.difference(cut.span()) =~= self@);
            return ;
        }
        let n: usize = self.regions.len();
        let c_start: usize = cut.addr;
        let c_end: usize = cut.end();
        let mut out: Vec<MemoryRegion> = Vec::new();
        let mut i: usize = 0;
        while i < n
            invariant
                self.wf(),
                cut.valid(),
                cut.size > 0,
                c_start == cut.addr,
                c_end == cut.end_spec(),
                n == self.regions@.len(),
                self.regions@ == old(self).regions@,
                i <= n,
                regions_wf(out@),
                forall|k: int|
                    0 <= k < out@.len() && i < n ==> (#[trigger] out@[k]).end_spec() < self.regions@[i as int].addr,
                forall|a: int|
                    #[trigger] covered(out@, a) <==> covered_by_first(self.regions@, i as int, a)
                        && !cut.contains(a),
            decreases n - i,
        {
            let region = self.regions[i];
            let ghost before = out@;
            proof {
                if i + 1 < n {
                    assert(self.regions@[i as int].end_spec() < self.regions@[i as int + 1].addr);
                }
            }
            if !region.overlaps(&cut) {
                out.push(region);
                proof {
                    lemma_push_wf(before, region);
                    assert forall|a: int| #[trigger] covered(out@, a) <==> covered_by_first(
                        self.regions@,
                        i as int + 1,
                        a,
                    ) && !cut.contains(a) by {
                        lemma_covered_push(before, region, a);
                        lemma_covered_by_first_step(self.regions@, i as int, a);
                        assert(covered(out@, a) <==> covered(before, a) || region.contains(a));
                        assert(covered(before, a) <==> covered_by_first(self.regions@, i as int, a)
                            && !cut.contains(a));
                        assert(region.contains(a) ==> !cut.contains(a));
                    }
                }
            } else {
                let r_start: usize = region.addr;
                let r_end: usize = region.end();
                let ghost mut mid = before;
                if c_start > r_start {
                    let left = MemoryRegion { addr: r_start, size: c_start - r_start };
                    out.push(left);
                    proof {
                        lemma_push_wf(before, left);
                        mid = before.push(left);
                        assert forall|a: int| #[trigger] covered(mid, a) <==> covered(before, a) || (r_start
                            <= a < c_start) by {
                            lemma_covered_push(before, left, a);
                        }
                    }
                }
                let ghost mid = mid;
                if c_end < r_end {
                    let right = MemoryRegion { addr: c_end, size: r_end - c_end };
                    out.push(right);
                    proof {
                        lemma_push_wf(mid, right);
                        assert forall|a: int| #[trigger] covered(out@, a) <==> covered(mid, a) || (c_end <= a
                            < r_end) by {
                            lemma_covered_push(mid, right, a);
                        }
                    }
                }
                assert forall|a: int| #[trigger] covered(out@, a) <==> covered_by_first(
                    self.regions@,
                    i as int + 1,
                    a,
                ) && !cut.contains(a) by {
                    lemma_covered_by_first_step(self.regions@, i as int, a);
                    assert(covered(before, a) <==> covered_by_first(self.regions@, i as int, a)
                        && !cut.contains(a));
                    assert(covered(mid, a) <==> covered(before, a) || (r_start <= a < c_start
                        && c_start > r_start));
                    assert(covered(out@, a) <==> covered(mid, a) || (c_end <= a < r_end && c_end < r_end));
                }
            }
            i += 1;
        }
        self.regions = out;
        assert forall|a: int| self@.contains(a) <==> old(self)@.difference(cut.span()).contains(a) by {
            assert(cut.span().contains(a) <==> cut.contains(a));
        }
        assert(self@ =~= old(self)@.difference(cut.span()));
    }

    /// Carves `size_bytes` off the front of the first region that is at
    /// least that large and returns what was carved; a region carved down
    /// to nothing leaves the map. `None`, and nothing changed, where no
    /// region is large enough.
    pub fn bite_first(&mut self, size_bytes: usize) -> (r: Option<MemoryRegion>)
        requires
            old(self).wf(),
        ensures
            final(self).wf(),
            r is Some <==> exists|k: int|
                0 <= k < old(self).regions@.len() && (#[trigger] old(self).regions@[k]).size >= size_bytes,
            r is None ==> final(self).regions@ == old(self).regions@,
            r matches Some(bite) ==> exists|k: int|
                {
                    &&& 0 <= k < old(self).regions@.len()
                    &&& (#[trigger] old(self).regions@[k]).size >= size_bytes
                    &&& forall|j: int| 0 <= j < k ==> (#[trigger] old(self).regions@[j]).size < size_bytes
                    &&& bite == (MemoryRegion { addr: old(self).regions@[k].addr, size: size_bytes })
                    &&& final(self).regions@ == if old(self).regions@[k].size == size_bytes {
                        old(self).regions@.remove(k)
                    } else {
                        old(self).regions@.update(
                            k,
                            MemoryRegion {
                                addr: (old(self).regions@[k].addr + size_bytes) as usize,
                                size: (old(self).regions@[k].size - size_bytes) as usize,
                            },
                        )
                    }
                },
            r matches Some(bite) ==> final(self)@ == old(self)@.difference(bite.span()),
    {
        let n: usize = self.regions.len();
        let mut i: usize = 0;
        while i < n
            invariant
                *self == *old(self),
                self.wf(),
                n == self.regions@.len(),
                i <= n,
                forall|j: int| 0 <= j < i ==> (#[trigger] self.regions@[j]).size < size_bytes,
            decreases n - i,
        {
            let region = self.regions[i];
            if region.size >= size_bytes {
                let bite = MemoryRegion { addr: region.addr, size: size_bytes };
                if region.size == size_bytes {
                    self.regions.remove(i);
                } else {
                    self.regions[i] = MemoryRegion {
                        addr: region.addr + size_bytes,
                        size: region.size - size_bytes,
                    };
                }
                proof {
                    lemma_carved(old(self).regions@, i as int, region.addr as int, bite.end_spec(), self.regions@);
                    assert(self@ =~= old(self)@.difference(bite.span()));
                }
                return Some(bite);
            }
            i += 1;
        }
        None
    }

    /// Carves `size_bytes` at an address rounded up by the mask of `align`
    /// out of the first region that can hold them there, and returns what
    /// was carved. The region keeps what lies above the carved bytes; what
    /// lies below them, up to the rounded address, leaves the map with
    /// them. `None`, and nothing changed, where no region can hold the bytes.
    pub fn bite_first_aligned(&mut self, size_bytes: usize, align: usize) -> (r: Option<MemoryRegion>)
        requires
            old(self).wf(),
            align >= 1,
        ensures
            final(self).wf(),
            r is Some <==> exists|k: int|
                0 <= k < old(self).regions@.len() && can_host(
                    #[trigger] old(self).regions@[k],
                    size_bytes,
                    align,
                ),
            r is None ==> final(self).regions@ == old(self).regions@,
            r matches Some(bite) ==> exists|k: int|
                {
                    &&& 0 <= k < old(self).regions@.len()
                    &&& can_host(#[trigger] old(self).regions@[k], size_bytes, align)
                    &&& forall|j: int|
                        0 <= j < k ==> !can_host(#[trigger] old(self).regions@[j], size_bytes, align)
                    &&& bite == (MemoryRegion {
                        addr: align_up_spec(old(self).regions@[k].addr, align),
                        size: size_bytes,
                    })
                    &&& final(self)@ == old(self)@.difference(
                        Set::new(|a: int| old(self).regions@[k].addr <= a < bite.end_spec()),
                    )
                },
    {
        let n: usize = self.regions.len();
        let mut i: usize = 0;
        while i < n
            invariant
                *self == *old(self),
                self.wf(),
                align >= 1,
                n == self.regions@.len(),
                i <= n,
                forall|j: int| 0 <= j < i ==> !can_host(#[trigger] self.regions@[j], size_bytes, align),
            decreases n - i,
        {
            let region = self.regions[i];
            let end: usize = region.addr + region.size;
            if align - 1 <= usize::MAX - region.addr {
                let aligned_start: usize = align_up(region.addr, align);
                if aligned_start <= end && size_bytes <= end - aligned_start {
                    let bite = MemoryRegion { addr: aligned_start, size: size_bytes };
                    if end - aligned_start == size_bytes {
                        self.regions.remove(i);
                    } else {
                        self.regions[i] = MemoryRegion {
                            addr: aligned_start + size_bytes,
                            size: end - (aligned_start + size_bytes),
                        };
                    }
                    proof {
                        lemma_carved(
                            old(self).regions@,
                            i as int,
                            region.addr as int,
                            bite.end_spec(),
                            self.regions@,
                        );
                        assert(self@ =~= old(self)@.difference(
                            Set::new(|a: int| old(self).regions@[i as int].addr <= a < bite.end_spec()),
                        ));
                    }
                    return Some(bite);
                }
            }
            i += 1;
        }
        None
    }
}

/// The region can hold `size_bytes` at its address rounded up by the mask
/// of `align`.
pub open spec fn can_host(region: MemoryRegion, size_bytes: usize, align: usize) -> bool {
    &&& region.addr + align - 1 <= usize::MAX
    &&& align_up_spec(region.addr, align) + size_bytes <= region.end_spec()
}

/// Carving the front of region `k` up to `upto` keeps the invariant and
/// takes exactly the carved addresses out of the map.
proof fn lemma_carved(regions: Seq<MemoryRegion>, k: int, from: int, upto: int, carved: Seq<MemoryRegion>)
    requires
        regions_wf(regions),
        0 <= k < regions.len(),
        from == regions[k].addr,
        from <= upto <= regions[k].end_spec(),
        carved == if upto == regions[k].end_spec() {
            regions.remove(k)
        } else {
            regions.update(
                k,
                MemoryRegion { addr: upto as usize, size: (regions[k].end_spec() - upto) as usize },
            )
        },
    ensures
        regions_wf(carved),
        forall|a: int| covered(carved, a) <==> covered(regions, a) && !(from <= a < upto),
{
    if upto == regions[k].end_spec() {
        assert forall|i: int, j: int| 0 <= i < j < carved.len() implies (#[trigger] carved[i]).end_spec()
            < (#[trigger] carved[j]).addr by {
            let i0 = if i < k {
                i
            } else {
                i + 1
            };
            let j0 = if j < k {
                j
            } else {
                j + 1
            };
            assert(regions[i0].end_spec() < regions[j0].addr);
        }
        assert forall|a: int| covered(carved, a) implies covered(regions, a) && !(from <= a < upto) by {
            let i = choose|i: int| 0 <= i < carved.len() && (#[trigger] carved[i]).contains(a);
            let i0 = if i < k {
                i
            } else {
                i + 1
            };
            assert(regions[i0].contains(a));
            if i0 < k {
                assert(regions[i0].end_spec() < regions[k].addr);
            } else {
                assert(regions[k].end_spec() < regions[i0].addr);
            }
        }
        assert forall|a: int| covered(regions, a) && !(from <= a < upto) implies covered(carved, a) by {
            let i = choose|i: int| 0 <= i < regions.len() && (#[trigger] regions[i]).contains(a);
            if i < k {
                assert(carved[i].contains(a));
            } else {
                assert(carved[i - 1] == regions[i]);
                assert(carved[i - 1].contains(a));
            }
        }
    } else {
        assert forall|i: int, j: int| 0 <= i < j < carved.len() implies (#[trigger] carved[i]).end_spec()
            < (#[trigger] carved[j]).addr by {
            assert(regions[i].end_spec() < regions[j].addr);
        }
        assert forall|a: int| covered(carved, a) implies covered(regions, a) && !(from <= a < upto) by {
            let i = choose|i: int| 0 <= i < carved.len() && (#[trigger] carved[i]).contains(a);
            assert(regions[i].contains(a));
            if i < k {
                assert(regions[i].end_spec() < regions[k].addr);
            } else if i > k {
                assert(regions[k].end_spec() < regions[i].addr);
            }
        }
        assert forall|a: int| covered(regions, a) && !(from <= a < upto) implies covered(carved, a) by {
            let i = choose|i: int| 0 <= i < regions.len() && (#[trigger] regions[i]).contains(a);
            assert(carved[i].contains(a));
        }
    }
}


/// The addresses that a list of regions holds.
pub open spec fn addresses(regions: Seq<MemoryRegion>) -> Set<int> {
    Set::new(|a: int| covered(regions, a))
}

/// Every address that a well-formed list holds lies at or above the start
/// of its first region.
proof fn lemma_first_is_lowest(regions: Seq<MemoryRegion>, a: int)
    requires
        regions_wf(regions),
        covered(regions, a),
    ensures
        regions.len() > 0,
        regions[0].addr <= a,
{
    let k = choose|k: int| 0 <= k < regions.len() && (#[trigger] regions[k]).contains(a);
    if k > 0 {
        assert(regions[0].end_spec() < regions[k].addr);
    }
}

/// The end of the first region is the lowest address above its start that
/// the list does not hold.
proof fn lemma_first_end_uncovered(regions: Seq<MemoryRegion>)
    requires
        regions_wf(regions),
        regions.len() > 0,
    ensures
        !covered(regions, regions[0].end_spec()),
        forall|a: int| regions[0].contains(a) ==> covered(regions, a),
{
    let e = regions[0].end_spec();
    if covered(regions, e) {
        let k = choose|k: int| 0 <= k < regions.len() && (#[trigger] regions[k]).contains(e);
        if k > 0 {
            assert(regions[0].end_spec() < regions[k].addr);
        }
    }
    assert forall|a: int| regions[0].contains(a) implies covered(regions, a) by {
        assert(regions[0].contains(a));
    }
}

/// Without its first region a well-formed list is well formed and holds
/// what it held before but for that region.
proof fn lemma_tail(regions: Seq<MemoryRegion>, a: int)
    requires
        regions_wf(regions),
        regions.len() > 0,
    ensures
        regions_wf(regions.subrange(1, regions.len() as int)),
        covered(regions.subrange(1, regions.len() as int), a) <==> covered(regions, a) && !regions[0].contains(a),
{
    let tail = regions.subrange(1, regions.len() as int);
    assert forall|i: int, j: int| 0 <= i < j < tail.len() implies (#[trigger] tail[i]).end_spec()
        < (#[trigger] tail[j]).addr by {
        assert(regions[i + 1].end_spec() < regions[j + 1].addr);
    }
    if covered(tail, a) {
        let k = choose|k: int| 0 <= k < tail.len() && (#[trigger] tail[k]).contains(a);
        assert(regions[k + 1].contains(a));
        assert(regions[0].end_spec() < regions[k + 1].addr);
    }
    if covered(regions, a) && !regions[0].contains(a) {
        let k = choose|k: int| 0 <= k < regions.len() && (#[trigger] regions[k]).contains(a);
        assert(tail[k - 1] == regions[k]);
        assert(tail[k - 1].contains(a));
    }
}

/// A set of addresses has one representation only: two well-formed lists
/// that hold the same addresses are the same list.
pub proof fn lemma_regions_unique(left: Seq<MemoryRegion>, right: Seq<MemoryRegion>)
    requires
        regions_wf(left),
        regions_wf(right),
        forall|a: int| covered(left, a) <==> covered(right, a),
    ensures
        left == right,
    decreases left.len(),
{
    if left.len() == 0 {
        if right.len() > 0 {
            assert(right[0].contains(right[0].addr as int));
            assert(covered(right, right[0].addr as int));
        }
        assert(left =~= right);
    } else {
        assert(left[0].contains(left[0].addr as int));
        assert(covered(left, left[0].addr as int));
        lemma_first_is_lowest(right, left[0].addr as int);
        assert(right[0].contains(right[0].addr as int));
        assert(covered(right, right[0].addr as int));
        lemma_first_is_lowest(left, right[0].addr as int);
        assert(left[0].addr == right[0].addr);
        lemma_first_end_uncovered(left);
        lemma_first_end_uncovered(right);
        if left[0].end_spec() < right[0].end_spec() {
            assert(right[0].contains(left[0].end_spec()));
        } else if right[0].end_spec() < left[0].end_spec() {
            assert(left[0].contains(right[0].end_spec()));
        }
        assert(left[0] == right[0]);
        let left_tail = left.subrange(1, left.len() as int);
        let right_tail = right.subrange(1, right.len() as int);
        assert forall|a: int| covered(left_tail, a) <==> covered(right_tail, a) by {
            lemma_tail(left, a);
            lemma_tail(right, a);
        }
        lemma_tail(left, 0);
        lemma_tail(right, 0);
        lemma_regions_unique(left_tail, right_tail);
        assert(left =~= right) by {
            assert(left.len() == right.len());
            assert forall|i: int| 0 <= i < left.len() implies left[i] == right[i] by {
                if i > 0 {
                    assert(left_tail[i - 1] == left[i]);
                    assert(right_tail[i - 1] == right[i]);
                }
            }
        }
    }
}

/// Adding a region and cutting the same region out again leaves the map
/// without the addresses of the region; where the map held none of them
/// before, it is the map it was, region for region.
pub proof fn law_add_then_cut(
    before: Seq<MemoryRegion>,
    added: Seq<MemoryRegion>,
    after: Seq<MemoryRegion>,
    r: MemoryRegion,
)
    requires
        regions_wf(before),
        regions_wf(added),
        regions_wf(after),
        addresses(added) == addresses(before).union(r.span()),
        addresses(after) == addresses(added).difference(r.span()),
    ensures
        addresses(after) == addresses(before).difference(r.span()),
        addresses(before).disjoint(r.span()) ==> after == before,
{
    assert(addresses(after) =~= addresses(before).difference(r.span()));
    if addresses(before).disjoint(r.span()) {
        assert forall|a: int| covered(after, a) <==> covered(before, a) by {
            assert(addresses(after).contains(a) <==> covered(after, a));
            assert(addresses(before).contains(a) <==> covered(before, a));
            assert(!(addresses(before).contains(a) && r.span().contains(a)));
        }
        lemma_regions_unique(after, before);
    }
}

/// Cutting a region out and adding it again leaves the map with the
/// addresses of the region added; where the map held all of them before
/// (the region is the piece that the cut removed), it is the map it was,
/// region for region.
pub proof fn law_cut_then_add(
    before: Seq<MemoryRegion>,
    cut: Seq<MemoryRegion>,
    after: Seq<MemoryRegion>,
    r: MemoryRegion,
)
    requires
        regions_wf(before),
        regions_wf(cut),
        regions_wf(after),
        addresses(cut) == addresses(before).difference(r.span()),
        addresses(after) == addresses(cut).union(r.span()),
    ensures
        addresses(after) == addresses(before).union(r.span()),
        r.span().subset_of(addresses(before)) ==> after == before,
{
    assert(addresses(after) =~= addresses(before).union(r.span()));
    if r.span().subset_of(addresses(before)) {
        assert forall|a: int| covered(after, a) <==> covered(before, a) by {
            assert(addresses(after).contains(a) <==> covered(after, a));
            assert(addresses(before).contains(a) <==> covered(before, a));
            assert(r.span().contains(a) ==> addresses(before).contains(a));
        }
        lemma_regions_unique(after, before);
    }
}

} // verus!
