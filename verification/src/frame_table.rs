//! The physical page-frame accountant: one 32-bit metadata word per 4 KiB
//! frame, over any number of memory segments.
use vstd::prelude::*;

verus! {

/// Current usage of a physical page frame.
#[derive(Debug, Clone, Copy, PartialEq, Eq, Structural)]
pub enum FrameState {
    /// Unused and available for allocation.
    Free,
    /// Allocated, purpose not tracked further.
    Used,
    /// Owned by the kernel itself.
    Kernel,
    /// Owned by a user-space process.
    User,
    /// Holds a page table of any level.
    PageTable,
    /// Reserved; never handed out.
    Reserved,
}

impl FrameState {
    /// The four-bit code under which the state is stored.
    pub open spec fn code(self) -> u32 {
        match self {
            FrameState::Free => 0,
            FrameState::Used => 1,
            FrameState::Kernel => 2,
            FrameState::User => 3,
            FrameState::PageTable => 4,
            FrameState::Reserved => 5,
        }
    }

    /// The state a four-bit code stands for; unknown codes read as `Used`.
    pub open spec fn from_code(bits: u32) -> FrameState {
        if bits == 0 {
            FrameState::Free
        } else if bits == 2 {
            FrameState::Kernel
        } else if bits == 3 {
            FrameState::User
        } else if bits == 4 {
            FrameState::PageTable
        } else if bits == 5 {
            FrameState::Reserved
        } else {
            FrameState::Used
        }
    }

    /// The four-bit code of the state.
    pub fn to_bits(self) -> (c: u32)
        ensures
            c == self.code(),
            c <= 5,
    {
        match self {
            FrameState::Free => 0,
            FrameState::Used => 1,
            FrameState::Kernel => 2,
            FrameState::User => 3,
            FrameState::PageTable => 4,
            FrameState::Reserved => 5,
        }
    }

    /// The state that a four-bit code stands for; unknown codes read as `Used`.
    pub fn from_bits(bits: u32) -> (s: FrameState)
        ensures
            s == Self::from_code(bits),
    {
        if bits == 0 {
            FrameState::Free
        } else if bits == 2 {
            FrameState::Kernel
        } else if bits == 3 {
            FrameState::User
        } else if bits == 4 {
            FrameState::PageTable
        } else if bits == 5 {
            FrameState::Reserved
        } else {
            FrameState::Used
        }
    }

    /// Decoding the code of a state gives the state back.
    pub proof fn lemma_code_round_trip(self)
        ensures
            Self::from_code(self.code()) == self,
            self.code() <= 5,
    {
    }
}

/// One frame's metadata word: state in bits 0-3, flags in bits 4-7, owning
/// process in bits 8-23.
#[derive(Debug, Clone, Copy, PartialEq, Eq, Structural)]
pub struct FrameMetadataEntry {
    pub raw: u32,
}

/// Replacing the state field sets it and keeps the other fields.
proof fn lemma_state_field(raw: u32, c: u32)
    by (bit_vector)
    requires
        c <= 5,
    ensures
        ((raw & !0xFu32) | c) & 0xF == c,
        (((raw & !0xFu32) | c) >> 4) & 0xF == (raw >> 4) & 0xF,
        (((raw & !0xFu32) | c) >> 8) & 0xFFFF == (raw >> 8) & 0xFFFF,
{
}

/// Replacing the flags field sets it and keeps the other fields.
proof fn lemma_flags_field(raw: u32, f: u32)
    by (bit_vector)
    requires
        f <= 0xFF,
    ensures
        ((raw & !(0xFu32 << 4)) | ((f & 0xF) << 4)) & 0xF == raw & 0xF,
        (((raw & !(0xFu32 << 4)) | ((f & 0xF) << 4)) >> 4) & 0xF == f & 0xF,
        (((raw & !(0xFu32 << 4)) | ((f & 0xF) << 4)) >> 8) & 0xFFFF == (raw >> 8) & 0xFFFF,
        f & 0xF <= 0xF,
{
}

/// Replacing the owner field sets it and keeps the other fields.
proof fn lemma_pid_field(raw: u32, p: u32)
    by (bit_vector)
    requires
        p <= 0xFFFF,
    ensures
        ((raw & !(0xFFFFu32 << 8)) | (p << 8)) & 0xF == raw & 0xF,
        (((raw & !(0xFFFFu32 << 8)) | (p << 8)) >> 4) & 0xF == (raw >> 4) & 0xF,
        (((raw & !(0xFFFFu32 << 8)) | (p << 8)) >> 8) & 0xFFFF == p,
{
}

/// Each field fits its width.
proof fn lemma_field_ranges(raw: u32)
    by (bit_vector)
    ensures
        raw & 0xF <= 0xF,
        (raw >> 4) & 0xF <= 0xF,
        (raw >> 8) & 0xFFFF <= 0xFFFF,
{
}

impl FrameMetadataEntry {
    /// The state that bits 0-3 stand for.
    pub open spec fn state_spec(self) -> FrameState {
        FrameState::from_code(self.raw & 0xF)
    }

    /// The flags: bits 4-7.
    pub open spec fn flags_spec(self) -> u8 {
        ((self.raw >> 4) & 0xF) as u8
    }

    /// The owning process: bits 8-23.
    pub open spec fn pid_spec(self) -> u16 {
        ((self.raw >> 8) & 0xFFFF) as u16
    }

    /// The entry with its state field replaced.
    pub open spec fn with_state(self, state: FrameState) -> FrameMetadataEntry {
        FrameMetadataEntry { raw: (self.raw & !0xFu32) | state.code() }
    }

    /// The entry with its flags field replaced by the low four bits of `flags`.
    pub open spec fn with_flags(self, flags: u8) -> FrameMetadataEntry {
        FrameMetadataEntry { raw: (self.raw & !(0xFu32 << 4)) | (((flags as u32) & 0xF) << 4) }
    }

    /// The entry with its owner field replaced.
    pub open spec fn with_pid(self, pid: u16) -> FrameMetadataEntry {
        FrameMetadataEntry { raw: (self.raw & !(0xFFFFu32 << 8)) | ((pid as u32) << 8) }
    }

    /// A fresh entry: `Free`, no flags, owned by the kernel.
    pub fn new() -> (e: Self)
        ensures
            e.raw == 0,
            e.state_spec() == FrameState::Free,
            e.flags_spec() == 0,
            e.pid_spec() == 0,
    {
        proof {
            assert(0u32 & 0xF == 0 && (0u32 >> 4) & 0xF == 0 && (0u32 >> 8) & 0xFFFF == 0)
                by (bit_vector);
        }
        Self { raw: 0 }
    }

    /// The state of the frame.
    pub fn state(&self) -> (s: FrameState)
        ensures
            s == self.state_spec(),
    {
        FrameState::from_bits(self.raw & 0xF)
    }

    /// Replaces the state; flags and owner stay.
    pub fn set_state(&mut self, state: FrameState)
        ensures
            *final(self) == old(self).with_state(state),
            final(self).state_spec() == state,
            final(self).flags_spec() == old(self).flags_spec(),
            final(self).pid_spec() == old(self).pid_spec(),
    {
        let c: u32 = state.to_bits();
        proof {
            lemma_state_field(self.raw, c);
            state.lemma_code_round_trip();
        }
        self.raw = (self.raw & !0xFu32) | c;
    }

    /// The flags of the frame.
    pub fn flags(&self) -> (f: u8)
        ensures
            f == self.flags_spec(),
            f <= 0xF,
    {
        proof {
            lemma_field_ranges(self.raw);
        }
        ((self.raw >> 4) & 0xF) as u8
    }

    /// Replaces the flags by the low four bits of `flags`; state and owner stay.
    pub fn set_flags(&mut self, flags: u8)
        ensures
            *final(self) == old(self).with_flags(flags),
            final(self).state_spec() == old(self).state_spec(),
            final(self).flags_spec() == flags & 0xF,
            final(self).pid_spec() == old(self).pid_spec(),
    {
        let f: u32 = flags as u32;
        proof {
            lemma_flags_field(self.raw, f);
            assert((f & 0xF) as u8 == flags & 0xF) by (bit_vector)
                requires
                    f == flags as u32,
            ;
        }
        self.raw = (self.raw & !(0xFu32 << 4)) | ((f & 0xF) << 4);
    }

    /// The process that owns the frame; 0 is the kernel.
    pub fn pid(&self) -> (p: u16)
        ensures
            p == self.pid_spec(),
    {
        proof {
            lemma_field_ranges(self.raw);
        }
        ((self.raw >> 8) & 0xFFFF) as u16
    }

    /// Replaces the owner; state and flags stay.
    pub fn set_pid(&mut self, pid: u16)
        ensures
            *final(self) == old(self).with_pid(pid),
            final(self).state_spec() == old(self).state_spec(),
            final(self).flags_spec() == old(self).flags_spec(),
            final(self).pid_spec() == pid,
    {
        let p: u32 = pid as u32;
        proof {
            lemma_pid_field(self.raw, p);
        }
        self.raw = (self.raw & !(0xFFFFu32 << 8)) | (p << 8);
    }

    /// What an allocation writes into an entry: the new state and owner, the
    /// flags kept.
    pub open spec fn claimed(self, state: FrameState, pid: u16) -> FrameMetadataEntry {
        self.with_state(state).with_pid(pid)
    }

    /// Claiming an entry sets state and owner and keeps the flags.
    pub proof fn lemma_claimed(self, state: FrameState, pid: u16)
        ensures
            self.claimed(state, pid).state_spec() == state,
            self.claimed(state, pid).pid_spec() == pid,
            self.claimed(state, pid).flags_spec() == self.flags_spec(),
    {
        state.lemma_code_round_trip();
        lemma_state_field(self.raw, state.code());
        lemma_pid_field(self.with_state(state).raw, pid as u32);
    }
}


/// A successful allocation of physical memory: `page_count` frames from
/// `phys_addr` on, all carrying `state` and `pid`.
#[derive(Debug, Clone, Copy, PartialEq, Eq, Structural)]
pub struct MemoryAllocation {
    /// Physical address of the first frame.
    pub phys_addr: usize,
    /// Number of 4 KiB frames.
    pub page_count: usize,
    /// Owning process (0 is the kernel).
    pub pid: u16,
    /// What the frames are used for.
    pub state: FrameState,
}

impl MemoryAllocation {
    /// One byte past the last frame.
    pub open spec fn end_spec(self) -> int {
        self.phys_addr + 4096 * self.page_count
    }

    /// The two allocations share no byte.
    pub open spec fn disjoint_from(self, other: MemoryAllocation) -> bool {
        ||| self.page_count == 0
        ||| other.page_count == 0
        ||| self.end_spec() <= other.phys_addr
        ||| other.end_spec() <= self.phys_addr
    }

    /// Physical address of each frame, in ascending order.
    pub fn iter_pages(&self) -> (pages: Vec<usize>)
        requires
            self.end_spec() <= usize::MAX,
        ensures
            pages@.len() == self.page_count,
            forall|i: int| 0 <= i < self.page_count ==> pages@[i] == self.phys_addr + 4096 * i,
    {
        let mut pages: Vec<usize> = Vec::new();
        let mut i: usize = 0;
        while i < self.page_count
            invariant
                i <= self.page_count,
                self.end_spec() <= usize::MAX,
                pages@.len() == i,
                forall|k: int| 0 <= k < i ==> pages@[k] == self.phys_addr + 4096 * k,
            decreases self.page_count - i,
        {
            pages.push(self.phys_addr + i * 4096);
            i += 1;
        }
        pages
    }
}

/// The mathematical content of a frame segment.
pub struct SegmentView {
    pub frame_metadata_start_addr: usize,
    pub first_page_addr: usize,
    pub page_count: usize,
    pub metadata: Seq<FrameMetadataEntry>,
}

/// The frames `idx .. idx + count` exist and are all `Free`.
pub open spec fn run_free(meta: Seq<FrameMetadataEntry>, idx: int, count: int) -> bool {
    &&& 0 <= idx
    &&& 0 <= count
    &&& idx + count <= meta.len()
    &&& forall|k: int| idx <= k < idx + count ==> (#[trigger] meta[k]).state_spec() == FrameState::Free
}

/// The lowest start at or after `from` of a free run of `count` frames.
pub open spec fn first_fit_from(meta: Seq<FrameMetadataEntry>, count: int, from: int) -> Option<int>
    decreases meta.len() - from,
{
    if from < 0 || count < 0 || from + count > meta.len() {
        None
    } else if run_free(meta, from, count) {
        Some(from)
    } else {
        first_fit_from(meta, count, from + 1)
    }
}

/// The highest start at or below `upto` of a free run of `count` frames.
pub open spec fn last_fit_upto(meta: Seq<FrameMetadataEntry>, count: int, upto: int) -> Option<int>
    decreases upto + 1,
{
    if upto < 0 {
        None
    } else if run_free(meta, upto, count) {
        Some(upto)
    } else {
        last_fit_upto(meta, count, upto - 1)
    }
}

/// Where a front allocation of `count` frames lands, if anywhere.
pub open spec fn first_fit(meta: Seq<FrameMetadataEntry>, count: int) -> Option<int> {
    first_fit_from(meta, count, 0)
}

/// Where a back allocation of `count` frames lands, if anywhere. A back
/// allocation of no frames never succeeds.
pub open spec fn last_fit(meta: Seq<FrameMetadataEntry>, count: int) -> Option<int> {
    if count <= 0 || count > meta.len() {
        None
    } else {
        last_fit_upto(meta, count, meta.len() - count)
    }
}

/// The metadata after the frames `idx .. idx + count` have been claimed.
pub open spec fn claim_run(
    meta: Seq<FrameMetadataEntry>,
    idx: int,
    count: int,
    state: FrameState,
    pid: u16,
) -> Seq<FrameMetadataEntry> {
    Seq::new(
        meta.len(),
        |k: int|
            if idx <= k < idx + count {
                meta[k].claimed(state, pid)
            } else {
                meta[k]
            },
    )
}

/// The metadata after the frames `idx .. idx + count` have been given back:
/// state `Free`, owner 0, flags kept.
pub open spec fn release_run(meta: Seq<FrameMetadataEntry>, idx: int, count: int) -> Seq<
    FrameMetadataEntry,
> {
    claim_run(meta, idx, count, FrameState::Free, 0)
}

/// `first_fit_from` finds a free run, and no free run starts between `from`
/// and it; where it finds none, none starts at or after `from`.
pub proof fn lemma_first_fit_from(meta: Seq<FrameMetadataEntry>, count: int, from: int)
    requires
        0 <= from,
    ensures
        match first_fit_from(meta, count, from) {
            Some(idx) => from <= idx && run_free(meta, idx, count) && forall|j: int|
                from <= j < idx ==> !run_free(meta, j, count),
            None => forall|j: int| from <= j ==> !run_free(meta, j, count),
        },
    decreases meta.len() - from,
{
    if from < 0 || count < 0 || from + count > meta.len() {
    } else if run_free(meta, from, count) {
    } else {
        lemma_first_fit_from(meta, count, from + 1);
    }
}

/// `last_fit_upto` finds a free run, and no free run starts between it and
/// `upto`; where it finds none, none starts at or below `upto`.
pub proof fn lemma_last_fit_upto(meta: Seq<FrameMetadataEntry>, count: int, upto: int)
    ensures
        match last_fit_upto(meta, count, upto) {
            Some(idx) => 0 <= idx <= upto && run_free(meta, idx, count) && forall|j: int|
                idx < j <= upto ==> !run_free(meta, j, count),
            None => forall|j: int| j <= upto ==> !run_free(meta, j, count),
        },
    decreases upto + 1,
{
    if upto < 0 {
    } else if run_free(meta, upto, count) {
    } else {
        lemma_last_fit_upto(meta, count, upto - 1);
    }
}

impl SegmentView {
    /// The metadata has one word per frame and the page array fits the
    /// address space.
    pub open spec fn wf(self) -> bool {
        &&& self.metadata.len() == self.page_count
        &&& self.first_page_addr + 4096 * self.page_count <= usize::MAX
    }

    /// One byte past the page array.
    pub open spec fn pages_end(self) -> int {
        self.first_page_addr + 4096 * self.page_count
    }

    /// The allocation record for a run of this segment.
    pub open spec fn allocation(self, idx: int, count: usize, state: FrameState, pid: u16) -> MemoryAllocation {
        MemoryAllocation {
            phys_addr: (self.first_page_addr + 4096 * idx) as usize,
            page_count: count,
            pid,
            state,
        }
    }

    /// The segment with other metadata.
    pub open spec fn with_metadata(self, metadata: Seq<FrameMetadataEntry>) -> SegmentView {
        SegmentView { metadata, ..self }
    }

    /// Front allocation: the segment afterwards, and the record if a run was
    /// found.
    pub open spec fn alloc_front(self, count: usize, state: FrameState, pid: u16) -> (
        SegmentView,
        Option<MemoryAllocation>,
    ) {
        match first_fit(self.metadata, count as int) {
            Some(idx) => (
                self.with_metadata(claim_run(self.metadata, idx, count as int, state, pid)),
                Some(self.allocation(idx, count, state, pid)),
            ),
            None => (self, None),
        }
    }

    /// Back allocation: the segment afterwards, and the record if a run was
    /// found.
    pub open spec fn alloc_back(self, count: usize, state: FrameState, pid: u16) -> (
        SegmentView,
        Option<MemoryAllocation>,
    ) {
        match last_fit(self.metadata, count as int) {
            Some(idx) => (
                self.with_metadata(claim_run(self.metadata, idx, count as int, state, pid)),
                Some(self.allocation(idx, count, state, pid)),
            ),
            None => (self, None),
        }
    }

    /// The run of `a` lies in this segment's page array, on frame boundaries.
    pub open spec fn holds(self, a: MemoryAllocation) -> bool {
        &&& self.first_page_addr <= a.phys_addr
        &&& a.end_spec() <= self.pages_end()
        &&& (a.phys_addr - self.first_page_addr) % 4096 == 0
    }

    /// Index of the frame at `addr`.
    pub open spec fn frame_index(self, addr: usize) -> int {
        (addr - self.first_page_addr) / 4096
    }
}

/// A contiguous stretch of physical memory: a metadata header, then the
/// frames it accounts for.
pub struct FrameSegment {
    /// Address at which the metadata words start.
    pub frame_metadata_start_addr: usize,
    /// Address of the first frame.
    pub first_page_addr: usize,
    /// Number of frames.
    pub page_count: usize,
    /// The metadata words, one per frame.
    pub metadata: Vec<FrameMetadataEntry>,
}

impl View for FrameSegment {
    type V = SegmentView;

    open spec fn view(&self) -> SegmentView {
        SegmentView {
            frame_metadata_start_addr: self.frame_metadata_start_addr,
            first_page_addr: self.first_page_addr,
            page_count: self.page_count,
            metadata: self.metadata@,
        }
    }
}

/// The largest number of frames a region of `size` bytes could hold if each
/// frame cost 4096 bytes plus one metadata word.
pub open spec fn max_pages(size: int) -> int {
    size / 4100
}

/// `bytes` rounded up to a whole number of pages.
pub open spec fn ceil_to_page(bytes: int) -> int {
    ((bytes + 4095) / 4096) * 4096
}

/// Bytes set aside for metadata at the low end of a region of `size` bytes.
pub open spec fn meta_bytes(size: int) -> int {
    ceil_to_page(max_pages(size) * 4)
}

/// Frames left in a region of `size` bytes after its metadata.
pub open spec fn usable_pages(size: int) -> int {
    (size - meta_bytes(size)) / 4096
}

/// Metadata and page array fit the region, and the metadata is a whole
/// number of pages.
#[verifier::spinoff_prover]
pub proof fn lemma_segment_fits(size: int)
    requires
        0 <= size,
        max_pages(size) >= 1,
    ensures
        0 <= usable_pages(size) <= max_pages(size) + 1,
        meta_bytes(size) + usable_pages(size) * 4096 <= size,
        meta_bytes(size) % 4096 == 0,
        4096 <= meta_bytes(size) <= size,
        max_pages(size) * 4 <= meta_bytes(size),
{
    let m = size / 4100;
    let q = (4 * m + 4095) / 4096;
    let mb = q * 4096;
    let u = (size - mb) / 4096;
    assert(4100 * m <= size < 4100 * m + 4100);
    assert(4096 * q <= 4 * m + 4095 < 4096 * q + 4096);
    assert(4096 * u <= size - mb < 4096 * u + 4096);
    assert(meta_bytes(size) == mb);
    assert(usable_pages(size) == u);
}

/// A region size on which the metadata header is one word short: a whole
/// number of metadata pages, and a remainder that holds one frame more.
pub open spec fn header_one_short(size: int) -> bool {
    max_pages(size) % 1024 == 0 && size - 4100 * max_pages(size) >= 4096
}

/// For every region that holds at least one frame
/// with its metadata word, metadata and page array fit the region; and
/// unless the header is one word short, the metadata has room for one word
/// per usable frame, rounded up to a page. Where it is one word short, it
/// has not.
#[verifier::spinoff_prover]
pub proof fn law_segment_sizing(size: int)
    requires
        0 <= size,
        max_pages(size) >= 1,
    ensures
        meta_bytes(size) + usable_pages(size) * 4096 <= size,
        !header_one_short(size) ==> usable_pages(size) <= max_pages(size),
        !header_one_short(size) <==> meta_bytes(size) >= ceil_to_page(usable_pages(size) * 4),
{
    let m = size / 4100;
    let q = (4 * m + 4095) / 4096;
    let mb = q * 4096;
    let u = (size - mb) / 4096;
    assert(4100 * m <= size < 4100 * m + 4100);
    assert(4096 * q <= 4 * m + 4095 < 4096 * q + 4096);
    assert(4096 * u <= size - mb < 4096 * u + 4096);
    assert(meta_bytes(size) == mb);
    assert(usable_pages(size) == u);
    let w = (4 * u + 4095) / 4096;
    assert(4096 * w <= 4 * u + 4095 < 4096 * w + 4096);
    assert(ceil_to_page(u * 4) == w * 4096);
    assert(m % 1024 == 0 <==> m == 1024 * (m / 1024));
    if header_one_short(size) {
        assert(1024 * q == m);
        assert(u == m + 1);
        assert(w == q + 1);
    } else {
        if u > m {
            assert(1024 * q < m + 1);
            assert(1024 * q == m);
            assert(false);
        }
        assert(w <= q);
    }
}

impl FrameSegment {
    /// The metadata has one word per frame and the page array fits the
    /// address space.
    pub open spec fn wf(&self) -> bool {
        self@.wf()
    }

    /// Physical address of frame `idx`.
    pub fn get_page(&self, idx: usize) -> (addr: usize)
        requires
            self.wf(),
            idx < self.page_count,
        ensures
            addr == self.first_page_addr + 4096 * idx,
    {
        self.first_page_addr + idx * 4096
    }

    /// The metadata word of frame `idx`.
    pub fn get_metadata(&self, idx: usize) -> (entry: FrameMetadataEntry)
        requires
            self.wf(),
            idx < self.page_count,
        ensures
            entry == self.metadata@[idx as int],
    {
        self.metadata[idx]
    }

    /// How a region of `size` bytes is split: the bytes set aside for
    /// metadata at its low end, and the number of frames after them. `None`
    /// where the region cannot hold the metadata and at least one frame.
    pub fn layout(size: usize) -> (r: Option<(usize, usize)>)
        ensures
            r is Some <==> max_pages(size as int) >= 1 && usable_pages(size as int) >= 1,
            r matches Some((meta, pages)) ==> {
                &&& meta == meta_bytes(size as int)
                &&& pages == usable_pages(size as int)
                &&& meta + 4096 * pages <= size
            },
    {
        let max_possible_pages: usize = size / (4096 + 4);
        if max_possible_pages == 0 {
            return None;
        }
        proof {
            lemma_segment_fits(size as int);
            crate::align::lemma_align_up_page((max_possible_pages * 4) as usize);
        }
        let raw_metadata_bytes: usize = max_possible_pages * 4;
        let aligned_metadata_bytes: usize = crate::align::align_up(raw_metadata_bytes, 4096);
        let usable_bytes: usize = size - aligned_metadata_bytes;
        let usable_page_count: usize = usable_bytes / 4096;
        if usable_page_count == 0 {
            return None;
        }
        Some((aligned_metadata_bytes, usable_page_count))
    }

    /// Lays a segment out in a region of `size` bytes at `start_address`:
    /// metadata at the low end, frames after it, every frame `Free`. `None`
    /// where the region cannot hold the metadata and at least one frame.
    pub fn initialize(start_address: usize, size: usize) -> (r: Option<FrameSegment>)
        requires
            start_address + size <= usize::MAX,
        ensures
            r is Some <==> max_pages(size as int) >= 1 && usable_pages(size as int) >= 1,
            r matches Some(seg) ==> {
                &&& seg.wf()
                &&& seg.frame_metadata_start_addr == start_address
                &&& seg.first_page_addr == start_address + meta_bytes(size as int)
                &&& seg.page_count == usable_pages(size as int)
                &&& seg@.pages_end() <= start_address + size
                &&& forall|k: int| 0 <= k < seg.page_count ==> (#[trigger] seg.metadata@[k]).raw == 0
            },
    {
        let (aligned_metadata_bytes, usable_page_count) = match Self::layout(size) {
            Some(l) => l,
            None => { return None; },
        };
        let mut metadata: Vec<FrameMetadataEntry> = Vec::new();
        let mut i: usize = 0;
        while i < usable_page_count
            invariant
                i <= usable_page_count,
                metadata@.len() == i,
                forall|k: int| 0 <= k < i ==> (#[trigger] metadata@[k]).raw == 0,
            decreases usable_page_count - i,
        {
            metadata.push(FrameMetadataEntry::new());
            i += 1;
        }
        Some(
            FrameSegment {
                frame_metadata_start_addr: start_address,
                first_page_addr: start_address + aligned_metadata_bytes,
                page_count: usable_page_count,
                metadata,
            },
        )
    }

    /// Whether the frames `idx .. idx + count` are all `Free`.
    fn run_is_free(&self, idx: usize, count: usize) -> (free: bool)
        requires
            self.wf(),
            idx + count <= self.page_count,
        ensures
            free == run_free(self.metadata@, idx as int, count as int),
    {
        let mut offset: usize = 0;
        while offset < count
            invariant
                self.wf(),
                idx + count <= self.page_count,
                offset <= count,
                forall|k: int| idx <= k < idx + offset ==> (#[trigger] self.metadata@[k]).state_spec() == FrameState::Free,
            decreases count - offset,
        {
            let state = self.metadata[idx + offset].state();
            if state != FrameState::Free {
                return false;
            }
            offset += 1;
        }
        true
    }

    /// Writes `state` and `pid` into the frames `idx .. idx + count`.
    fn claim(&mut self, idx: usize, count: usize, state: FrameState, pid: u16)
        requires
            old(self).wf(),
            idx + count <= old(self).page_count,
        ensures
            final(self)@ == old(self)@.with_metadata(
                claim_run(old(self).metadata@, idx as int, count as int, state, pid),
            ),
    {
        let mut offset: usize = 0;
        while offset < count
            invariant
                idx + count <= self.page_count,
                offset <= count,
                self.metadata@.len() == self.page_count,
                self.frame_metadata_start_addr == old(self).frame_metadata_start_addr,
                self.first_page_addr == old(self).first_page_addr,
                self.page_count == old(self).page_count,
                self.metadata@.len() == old(self).metadata@.len(),
                forall|k: int|
                    0 <= k < self.metadata@.len() ==> #[trigger] self.metadata@[k] == if idx <= k < idx
                        + offset {
                        old(self).metadata@[k].claimed(state, pid)
                    } else {
                        old(self).metadata@[k]
                    },
            decreases count - offset,
        {
            let mut entry = self.metadata[idx + offset];
            entry.set_state(state);
            entry.set_pid(pid);
            self.metadata[idx + offset] = entry;
            offset += 1;
        }
        assert(self.metadata@ =~= claim_run(
            old(self).metadata@,
            idx as int,
            count as int,
            state,
            pid,
        ));
    }

    /// Claims the lowest free run of `count` frames for `state` and `pid`.
    /// `None`, and nothing changed, where the segment has no such run.
    pub fn alloc_front(&mut self, count: usize, state: FrameState, pid: u16) -> (r: Option<
        MemoryAllocation,
    >)
        requires
            old(self).wf(),
        ensures
            (final(self)@, r) == old(self)@.alloc_front(count, state, pid),
            final(self).wf(),
            r matches Some(a) ==> {
                let idx = old(self)@.frame_index(a.phys_addr);
                &&& a.phys_addr == old(self).first_page_addr + 4096 * idx
                &&& a.page_count == count && a.state == state && a.pid == pid
                &&& run_free(old(self).metadata@, idx, count as int)
                &&& forall|j: int| 0 <= j < idx ==> !run_free(old(self).metadata@, j, count as int)
            },
            r is None ==> forall|j: int| !run_free(old(self).metadata@, j, count as int),
    {
        proof {
            lemma_first_fit_from(self.metadata@, count as int, 0);
        }
        if count > self.page_count {
            return None;
        }
        let end_idx: usize = self.page_count - count;
        let mut idx: usize = 0;
        while idx <= end_idx
            invariant
                self.wf(),
                *self == *old(self),
                end_idx == self.page_count - count,
                idx <= end_idx + 1,
                first_fit(self.metadata@, count as int) == first_fit_from(
                    self.metadata@,
                    count as int,
                    idx as int,
                ),
            decreases end_idx + 1 - idx,
        {
            if self.run_is_free(idx, count) {
                proof {
                    lemma_first_fit_from(self.metadata@, count as int, 0);
                    assert(first_fit_from(self.metadata@, count as int, 0) == Some(idx as int));
                    assert(forall|j: int|
                        0 <= j < idx ==> !run_free(self.metadata@, j, count as int));
                }
                assert(old(self)@.frame_index((self.first_page_addr + idx * 4096) as usize) == idx);
                self.claim(idx, count, state, pid);
                return Some(
                    MemoryAllocation {
                        phys_addr: self.first_page_addr + idx * 4096,
                        page_count: count,
                        pid,
                        state,
                    },
                );
            }
            idx += 1;
        }
        None
    }

    /// Claims the highest free run of `count` frames for `state` and `pid`.
    /// `None`, and nothing changed, where `count` is 0 or the segment has no
    /// such run.
    pub fn alloc_back(&mut self, count: usize, state: FrameState, pid: u16) -> (r: Option<
        MemoryAllocation,
    >)
        requires
            old(self).wf(),
        ensures
            (final(self)@, r) == old(self)@.alloc_back(count, state, pid),
            final(self).wf(),
            r matches Some(a) ==> {
                let idx = old(self)@.frame_index(a.phys_addr);
                &&& count > 0
                &&& a.phys_addr == old(self).first_page_addr + 4096 * idx
                &&& a.page_count == count && a.state == state && a.pid == pid
                &&& run_free(old(self).metadata@, idx, count as int)
                &&& forall|j: int| idx < j ==> !run_free(old(self).metadata@, j, count as int)
            },
            r is None ==> count == 0 || forall|j: int| !run_free(old(self).metadata@, j, count as int),
    {
        if count == 0 || count > self.page_count {
            return None;
        }
        proof {
            lemma_last_fit_upto(self.metadata@, count as int, self.page_count - count);
        }
        let mut idx: usize = self.page_count;
        while idx >= count
            invariant
                self.wf(),
                *self == *old(self),
                0 < count <= self.page_count,
                idx <= self.page_count,
                count - 1 <= idx,
                last_fit(self.metadata@, count as int) == last_fit_upto(
                    self.metadata@,
                    count as int,
                    idx - count,
                ),
            decreases idx,
        {
            let start: usize = idx - count;
            if self.run_is_free(start, count) {
                proof {
                    lemma_last_fit_upto(self.metadata@, count as int, self.page_count - count);
                    assert(last_fit_upto(self.metadata@, count as int, self.page_count - count)
                        == Some(start as int));
                    assert(forall|j: int|
                        start < j ==> !run_free(self.metadata@, j, count as int));
                }
                assert(old(self)@.frame_index((self.first_page_addr + start * 4096) as usize)
                    == start);
                self.claim(start, count, state, pid);
                return Some(
                    MemoryAllocation {
                        phys_addr: self.first_page_addr + start * 4096,
                        page_count: count,
                        pid,
                        state,
                    },
                );
            }
            idx -= 1;
        }
        None
    }
}


/// Every segment is well formed.
pub open spec fn table_wf(table: Seq<SegmentView>) -> bool {
    forall|s: int| 0 <= s < table.len() ==> (#[trigger] table[s]).wf()
}

/// No two segments' page arrays share a byte.
pub open spec fn table_disjoint(table: Seq<SegmentView>) -> bool {
    forall|s: int, t: int|
        0 <= s < t < table.len() ==> (#[trigger] table[s]).pages_end() <= (#[trigger] table[t]).first_page_addr
            || table[t].pages_end() <= table[s].first_page_addr
}

/// Two tables describe the same segments; only metadata may differ.
pub open spec fn same_layout(a: Seq<SegmentView>, b: Seq<SegmentView>) -> bool {
    &&& a.len() == b.len()
    &&& forall|s: int|
        0 <= s < a.len() ==> {
            &&& (#[trigger] a[s]).frame_metadata_start_addr == b[s].frame_metadata_start_addr
            &&& a[s].first_page_addr == b[s].first_page_addr
            &&& a[s].page_count == b[s].page_count
        }
}

/// Front allocation over the segments from `from` on, in order: the table
/// afterwards and the record, if any segment had a run.
pub open spec fn table_alloc_front_from(
    table: Seq<SegmentView>,
    count: usize,
    state: FrameState,
    pid: u16,
    from: int,
) -> (Seq<SegmentView>, Option<MemoryAllocation>)
    decreases table.len() - from,
{
    if from < 0 || from >= table.len() {
        (table, None)
    } else {
        let (seg, r) = table[from].alloc_front(count, state, pid);
        if r is Some {
            (table.update(from, seg), r)
        } else {
            table_alloc_front_from(table, count, state, pid, from + 1)
        }
    }
}

/// Back allocation over the segments from `from` on, in order: the table
/// afterwards and the record, if any segment had a run.
pub open spec fn table_alloc_back_from(
    table: Seq<SegmentView>,
    count: usize,
    state: FrameState,
    pid: u16,
    from: int,
) -> (Seq<SegmentView>, Option<MemoryAllocation>)
    decreases table.len() - from,
{
    if from < 0 || from >= table.len() {
        (table, None)
    } else {
        let (seg, r) = table[from].alloc_back(count, state, pid);
        if r is Some {
            (table.update(from, seg), r)
        } else {
            table_alloc_back_from(table, count, state, pid, from + 1)
        }
    }
}

/// Front allocation over the whole table.
pub open spec fn table_alloc_front(
    table: Seq<SegmentView>,
    count: usize,
    state: FrameState,
    pid: u16,
) -> (Seq<SegmentView>, Option<MemoryAllocation>) {
    table_alloc_front_from(table, count, state, pid, 0)
}

/// Back allocation over the whole table.
pub open spec fn table_alloc_back(
    table: Seq<SegmentView>,
    count: usize,
    state: FrameState,
    pid: u16,
) -> (Seq<SegmentView>, Option<MemoryAllocation>) {
    table_alloc_back_from(table, count, state, pid, 0)
}

/// The first segment from `from` on whose page array holds the run of `a`.
pub open spec fn holder_from(table: Seq<SegmentView>, a: MemoryAllocation, from: int) -> Option<int>
    decreases table.len() - from,
{
    if from < 0 || from >= table.len() {
        None
    } else if table[from].holds(a) {
        Some(from)
    } else {
        holder_from(table, a, from + 1)
    }
}

/// The table after the run of `a` has been given back; unchanged where no
/// segment holds the run.
pub open spec fn table_release(table: Seq<SegmentView>, a: MemoryAllocation) -> Seq<SegmentView> {
    match holder_from(table, a, 0) {
        Some(s) => table.update(
            s,
            table[s].with_metadata(
                release_run(table[s].metadata, table[s].frame_index(a.phys_addr), a.page_count as int),
            ),
        ),
        None => table,
    }
}

/// Addresses of the frames among the first `n` of a segment that hold page
/// tables, ascending.
pub open spec fn segment_page_tables(seg: SegmentView, n: int) -> Seq<usize>
    decreases n,
{
    if n <= 0 {
        Seq::empty()
    } else if seg.metadata[n - 1].state_spec() == FrameState::PageTable {
        segment_page_tables(seg, n - 1).push((seg.first_page_addr + 4096 * (n - 1)) as usize)
    } else {
        segment_page_tables(seg, n - 1)
    }
}

/// Addresses of the frames in the first `s` segments that hold page tables,
/// by segment and then ascending.
pub open spec fn table_page_tables(table: Seq<SegmentView>, s: int) -> Seq<usize>
    decreases s,
{
    if s <= 0 {
        Seq::empty()
    } else {
        table_page_tables(table, s - 1) + segment_page_tables(table[s - 1], table[s - 1].page_count as int)
    }
}

/// The frame at `addr` is a frame of the table and is not `Free`.
pub open spec fn frame_in_use(table: Seq<SegmentView>, addr: int) -> bool {
    exists|s: int, k: int|
        0 <= s < table.len() && 0 <= k < table[s].page_count && addr == table[s].first_page_addr + 4096 * k
            && (#[trigger] table[s].metadata[k]).state_spec() != FrameState::Free
}

/// Front (`front`) or back allocation over the whole table.
pub open spec fn table_alloc(
    table: Seq<SegmentView>,
    front: bool,
    count: usize,
    state: FrameState,
    pid: u16,
) -> (Seq<SegmentView>, Option<MemoryAllocation>) {
    if front {
        table_alloc_front(table, count, state, pid)
    } else {
        table_alloc_back(table, count, state, pid)
    }
}

/// `a` is the run of `a.page_count` frames from index `idx` of segment `s`.
pub open spec fn is_run_of(table: Seq<SegmentView>, a: MemoryAllocation, s: int, idx: int) -> bool {
    &&& 0 <= s < table.len()
    &&& 0 <= idx
    &&& idx + a.page_count <= table[s].page_count
    &&& a.phys_addr == table[s].first_page_addr + 4096 * idx
}

/// The segment in which a front allocation of `count` frames lands: the
/// first from `from` on, in order, that has a free run.
pub open spec fn front_segment_from(table: Seq<SegmentView>, count: int, from: int) -> Option<int>
    decreases table.len() - from,
{
    if from < 0 || from >= table.len() {
        None
    } else if first_fit(table[from].metadata, count) is Some {
        Some(from)
    } else {
        front_segment_from(table, count, from + 1)
    }
}

/// The segment in which a back allocation of `count` frames lands: the
/// first from `from` on, in order, that has a free run.
pub open spec fn back_segment_from(table: Seq<SegmentView>, count: int, from: int) -> Option<int>
    decreases table.len() - from,
{
    if from < 0 || from >= table.len() {
        None
    } else if last_fit(table[from].metadata, count) is Some {
        Some(from)
    } else {
        back_segment_from(table, count, from + 1)
    }
}

/// A front allocation takes the first segment, in order, that has a free run
/// of `count` frames, and in it the free run with the lowest index; it
/// claims that run and changes nothing else. Where no segment has such a
/// run it fails and changes nothing.
pub proof fn law_front_takes_lowest(
    table: Seq<SegmentView>,
    count: usize,
    state: FrameState,
    pid: u16,
    from: int,
)
    requires
        0 <= from,
    ensures
        ({
            let (after, r) = table_alloc_front_from(table, count, state, pid, from);
            match front_segment_from(table, count as int, from) {
                Some(s) => {
                    &&& from <= s < table.len()
                    &&& forall|t: int, j: int| from <= t < s ==> !run_free(table[t].metadata, j, count as int)
                    &&& first_fit(table[s].metadata, count as int) matches Some(idx) && {
                        &&& run_free(table[s].metadata, idx, count as int)
                        &&& forall|j: int| 0 <= j < idx ==> !run_free(table[s].metadata, j, count as int)
                        &&& r == Some(table[s].allocation(idx, count, state, pid))
                        &&& after == table.update(
                            s,
                            table[s].with_metadata(claim_run(table[s].metadata, idx, count as int, state, pid)),
                        )
                    }
                },
                None => {
                    &&& r is None
                    &&& after == table
                    &&& forall|t: int, j: int| from <= t < table.len() ==> !run_free(table[t].metadata, j, count as int)
                },
            }
        }),
    decreases table.len() - from,
{
    if from >= table.len() {
    } else {
        lemma_first_fit_from(table[from].metadata, count as int, 0);
        if first_fit(table[from].metadata, count as int) is Some {
        } else {
            law_front_takes_lowest(table, count, state, pid, from + 1);
            assert forall|j: int| !run_free(table[from].metadata, j, count as int) by {
                if j < 0 {
                }
            }
        }
    }
}

/// A back allocation takes the first segment, in order, that has a free run
/// of `count` frames, and in it the free run with the highest index; it
/// claims that run and changes nothing else. Where `count` is 0 or no
/// segment has such a run it fails and changes nothing.
pub proof fn law_back_takes_highest(
    table: Seq<SegmentView>,
    count: usize,
    state: FrameState,
    pid: u16,
    from: int,
)
    requires
        0 <= from,
    ensures
        ({
            let (after, r) = table_alloc_back_from(table, count, state, pid, from);
            match back_segment_from(table, count as int, from) {
                Some(s) => {
                    &&& from <= s < table.len()
                    &&& count > 0
                    &&& forall|t: int, j: int| from <= t < s ==> !run_free(table[t].metadata, j, count as int)
                    &&& last_fit(table[s].metadata, count as int) matches Some(idx) && {
                        &&& run_free(table[s].metadata, idx, count as int)
                        &&& forall|j: int| idx < j ==> !run_free(table[s].metadata, j, count as int)
                        &&& r == Some(table[s].allocation(idx, count, state, pid))
                        &&& after == table.update(
                            s,
                            table[s].with_metadata(claim_run(table[s].metadata, idx, count as int, state, pid)),
                        )
                    }
                },
                None => {
                    &&& r is None
                    &&& after == table
                    &&& count == 0 || forall|t: int, j: int|
                        from <= t < table.len() ==> !run_free(table[t].metadata, j, count as int)
                },
            }
        }),
    decreases table.len() - from,
{
    if from >= table.len() {
    } else {
        let meta = table[from].metadata;
        if count > 0 && count <= meta.len() {
            lemma_last_fit_upto(meta, count as int, meta.len() - count);
        }
        if last_fit(meta, count as int) is Some {
        } else {
            law_back_takes_highest(table, count, state, pid, from + 1);
        }
    }
}

/// What every successful allocation has in common: the record names a run
/// of some segment that was free, and the table afterwards differs only in
/// that this run is claimed.
pub proof fn lemma_table_alloc(
    table: Seq<SegmentView>,
    front: bool,
    count: usize,
    state: FrameState,
    pid: u16,
)
    requires
        table_wf(table),
    ensures
        ({
            let (after, r) = table_alloc(table, front, count, state, pid);
            match r {
                Some(a) => {
                    &&& a.page_count == count && a.state == state && a.pid == pid
                    &&& exists|s: int, idx: int|
                        {
                            &&& #[trigger] is_run_of(table, a, s, idx)
                            &&& run_free(table[s].metadata, idx, count as int)
                            &&& after == table.update(
                                s,
                                table[s].with_metadata(
                                    claim_run(table[s].metadata, idx, count as int, state, pid),
                                ),
                            )
                        }
                },
                None => after == table,
            }
        }),
{
    let (after, r) = table_alloc(table, front, count, state, pid);
    if front {
        law_front_takes_lowest(table, count, state, pid, 0);
        if let Some(s) = front_segment_from(table, count as int, 0) {
            let idx = first_fit(table[s].metadata, count as int).unwrap();
            assert(is_run_of(table, r.unwrap(), s, idx));
        }
    } else {
        law_back_takes_highest(table, count, state, pid, 0);
        if let Some(s) = back_segment_from(table, count as int, 0) {
            let idx = last_fit(table[s].metadata, count as int).unwrap();
            assert(is_run_of(table, r.unwrap(), s, idx));
        }
    }
}

/// An allocation keeps the table well formed and its layout and disjointness.
pub proof fn lemma_table_alloc_keeps_shape(
    table: Seq<SegmentView>,
    front: bool,
    count: usize,
    state: FrameState,
    pid: u16,
)
    requires
        table_wf(table),
    ensures
        table_wf(table_alloc(table, front, count, state, pid).0),
        same_layout(table_alloc(table, front, count, state, pid).0, table),
        table_disjoint(table) ==> table_disjoint(table_alloc(table, front, count, state, pid).0),
{
    lemma_table_alloc(table, front, count, state, pid);
}

/// Two successful allocations never overlap in physical address space: for
/// a table whose segments are pairwise disjoint, a run that has been claimed
/// with a state other than `Free` shares no byte with the run of any
/// allocation that follows it, front or back.
#[verifier::spinoff_prover]
#[verifier::rlimit(60)]
pub proof fn law_allocations_disjoint(
    table: Seq<SegmentView>,
    front1: bool,
    count1: usize,
    state1: FrameState,
    pid1: u16,
    front2: bool,
    count2: usize,
    state2: FrameState,
    pid2: u16,
)
    requires
        table_wf(table),
        table_disjoint(table),
        state1 != FrameState::Free,
    ensures
        ({
            let (mid, first) = table_alloc(table, front1, count1, state1, pid1);
            let (after, second) = table_alloc(mid, front2, count2, state2, pid2);
            first is Some && second is Some ==> first.unwrap().disjoint_from(second.unwrap())
        }),
{
    let (mid, first) = table_alloc(table, front1, count1, state1, pid1);
    let (after, second) = table_alloc(mid, front2, count2, state2, pid2);
    lemma_table_alloc(table, front1, count1, state1, pid1);
    lemma_table_alloc_keeps_shape(table, front1, count1, state1, pid1);
    lemma_table_alloc(mid, front2, count2, state2, pid2);
    if first is Some && second is Some && count1 > 0 && count2 > 0 {
        let a = first.unwrap();
        let b = second.unwrap();
        let (s1, i1) = choose|s: int, idx: int|
            {
                &&& #[trigger] is_run_of(table, a, s, idx)
                &&& run_free(table[s].metadata, idx, count1 as int)
                &&& mid == table.update(
                    s,
                    table[s].with_metadata(claim_run(table[s].metadata, idx, count1 as int, state1, pid1)),
                )
            };
        let (s2, i2) = choose|s: int, idx: int|
            {
                &&& #[trigger] is_run_of(mid, b, s, idx)
                &&& run_free(mid[s].metadata, idx, count2 as int)
                &&& after == mid.update(
                    s,
                    mid[s].with_metadata(claim_run(mid[s].metadata, idx, count2 as int, state2, pid2)),
                )
            };
        if s1 == s2 {
            if i1 < i2 + count2 && i2 < i1 + count1 {
                let k = if i1 >= i2 {
                    i1
                } else {
                    i2
                };
                table[s1].metadata[k].lemma_claimed(state1, pid1);
                assert(mid[s1].metadata[k].state_spec() == state1);
                assert(mid[s2].metadata[k].state_spec() == FrameState::Free);
            }
        } else {
            assert(table[s1].wf() && table[s2].wf());
            if s1 < s2 {
                assert(table[s1].pages_end() <= table[s2].first_page_addr || table[s2].pages_end()
                    <= table[s1].first_page_addr);
            } else {
                assert(table[s2].pages_end() <= table[s1].first_page_addr || table[s1].pages_end()
                    <= table[s2].first_page_addr);
            }
        }
    }
}

/// `addr` is the address of a frame of the table.
pub open spec fn is_frame_of(table: Seq<SegmentView>, addr: int) -> bool {
    exists|s: int, k: int|
        0 <= s < table.len() && 0 <= k < table[s].page_count && addr == #[trigger] frame_addr(table, s, k)
}

/// Address of frame `k` of segment `s`.
pub open spec fn frame_addr(table: Seq<SegmentView>, s: int, k: int) -> int {
    table[s].first_page_addr + 4096 * k
}

/// A frame that is in use is not part of the run that an allocation takes,
/// and is still in use after the allocation.
pub proof fn lemma_alloc_spares_frames_in_use(
    table: Seq<SegmentView>,
    front: bool,
    count: usize,
    state: FrameState,
    pid: u16,
    addr: int,
)
    requires
        table_wf(table),
        table_disjoint(table),
        frame_in_use(table, addr),
    ensures
        table_alloc(table, front, count, state, pid).1 matches Some(a) ==> !(a.phys_addr <= addr
            < a.end_spec()),
        frame_in_use(table_alloc(table, front, count, state, pid).0, addr),
{
    let (after, r) = table_alloc(table, front, count, state, pid);
    lemma_table_alloc(table, front, count, state, pid);
    let (s0, k0) = choose|s: int, k: int|
        0 <= s < table.len() && 0 <= k < table[s].page_count && addr == table[s].first_page_addr + 4096 * k
            && (#[trigger] table[s].metadata[k]).state_spec() != FrameState::Free;
    if let Some(a) = r {
        let (s, idx) = choose|s: int, idx: int|
            {
                &&& #[trigger] is_run_of(table, a, s, idx)
                &&& run_free(table[s].metadata, idx, count as int)
                &&& after == table.update(
                    s,
                    table[s].with_metadata(claim_run(table[s].metadata, idx, count as int, state, pid)),
                )
            };
        assert(table[s].wf() && table[s0].wf());
        if a.phys_addr <= addr < a.end_spec() {
            if s != s0 {
                if s < s0 {
                    assert(table[s].pages_end() <= table[s0].first_page_addr || table[s0].pages_end()
                        <= table[s].first_page_addr);
                } else {
                    assert(table[s0].pages_end() <= table[s].first_page_addr || table[s].pages_end()
                        <= table[s0].first_page_addr);
                }
            } else {
                assert(idx <= k0 < idx + count);
                assert(table[s].metadata[k0].state_spec() == FrameState::Free);
            }
        }
        if s == s0 {
            assert(!(idx <= k0 < idx + count)) by {
                if idx <= k0 < idx + count {
                    assert(table[s].metadata[k0].state_spec() == FrameState::Free);
                }
            }
            assert(after[s0].metadata[k0] == table[s0].metadata[k0]);
        }
        assert(after[s0].metadata[k0].state_spec() != FrameState::Free);
    }
}

/// The frames of a run that an allocation has claimed with a state other
/// than `Free` are in use afterwards, and carry that state.
pub proof fn lemma_alloc_marks_run(
    table: Seq<SegmentView>,
    front: bool,
    count: usize,
    state: FrameState,
    pid: u16,
    i: int,
)
    requires
        table_wf(table),
        state != FrameState::Free,
        0 <= i < count,
    ensures
        table_alloc(table, front, count, state, pid).1 matches Some(a) ==> frame_in_use(
            table_alloc(table, front, count, state, pid).0,
            a.phys_addr + 4096 * i,
        ) && is_frame_of(table, a.phys_addr + 4096 * i),
{
    let (after, r) = table_alloc(table, front, count, state, pid);
    lemma_table_alloc(table, front, count, state, pid);
    if let Some(a) = r {
        let (s, idx) = choose|s: int, idx: int|
            {
                &&& #[trigger] is_run_of(table, a, s, idx)
                &&& run_free(table[s].metadata, idx, count as int)
                &&& after == table.update(
                    s,
                    table[s].with_metadata(claim_run(table[s].metadata, idx, count as int, state, pid)),
                )
            };
        assert(table[s].wf());
        table[s].metadata[idx + i].lemma_claimed(state, pid);
        assert(after[s].metadata[idx + i].state_spec() == state);
        assert(a.phys_addr + 4096 * i == frame_addr(table, s, idx + i));
    }
}

/// Every address that `segment_page_tables` lists is that of a frame among
/// the first `n` of the segment, and that frame holds a page table. The
/// lemma returns the frame's index.
pub proof fn lemma_segment_page_tables(seg: SegmentView, n: int, i: int) -> (k: int)
    requires
        seg.wf(),
        0 <= n <= seg.page_count,
        0 <= i < segment_page_tables(seg, n).len(),
    ensures
        0 <= k < n,
        segment_page_tables(seg, n)[i] == seg.first_page_addr + 4096 * k,
        seg.metadata[k].state_spec() == FrameState::PageTable,
    decreases n,
{
    let before = segment_page_tables(seg, n - 1);
    if i < before.len() {
        lemma_segment_page_tables(seg, n - 1, i)
    } else {
        n - 1
    }
}

/// Every address that `table_page_tables` lists is that of a frame of the
/// table.
pub proof fn lemma_page_tables_are_frames(table: Seq<SegmentView>, s: int, i: int)
    requires
        table_wf(table),
        0 <= s <= table.len(),
        0 <= i < table_page_tables(table, s).len(),
    ensures
        is_frame_of(table, table_page_tables(table, s)[i] as int),
    decreases s,
{
    let before = table_page_tables(table, s - 1);
    if i < before.len() {
        lemma_page_tables_are_frames(table, s - 1, i);
    } else {
        let seg = table[s - 1];
        let k = lemma_segment_page_tables(seg, seg.page_count as int, i - before.len());
        assert(table_page_tables(table, s)[i] == frame_addr(table, s - 1, k));
    }
}

/// All physical frames on the system, as an ordered sequence of segments.
pub struct FrameTable {
    pub segments: Vec<FrameSegment>,
}

impl View for FrameTable {
    type V = Seq<SegmentView>;

    open spec fn view(&self) -> Seq<SegmentView> {
        Seq::new(self.segments@.len(), |s: int| self.segments@[s]@)
    }
}

impl FrameTable {
    /// Every segment is well formed.
    pub open spec fn wf(&self) -> bool {
        table_wf(self@)
    }

    /// A table without segments.
    pub fn new() -> (table: FrameTable)
        ensures
            table@ == Seq::<SegmentView>::empty(),
            table.wf(),
    {
        let table = FrameTable { segments: Vec::new() };
        assert(table@ =~= Seq::<SegmentView>::empty());
        table
    }

    /// Claims `count` contiguous frames from the first segment, in order,
    /// that has a free run, at the lowest index in it.
    pub fn alloc_front(&mut self, count: usize, state: FrameState, pid: u16) -> (r: Option<
        MemoryAllocation,
    >)
        requires
            old(self).wf(),
        ensures
            (final(self)@, r) == table_alloc_front(old(self)@, count, state, pid),
            final(self).wf(),
            same_layout(final(self)@, old(self)@),
    {
        let mut s: usize = 0;
        while s < self.segments.len()
            invariant
                s <= self.segments.len(),
                self@ == old(self)@,
                self.wf(),
                table_alloc_front(old(self)@, count, state, pid) == table_alloc_front_from(
                    old(self)@,
                    count,
                    state,
                    pid,
                    s as int,
                ),
            decreases self.segments.len() - s,
        {
            assert(self@[s as int] == self.segments@[s as int]@);
            assert(self@[s as int].wf());
            let r = self.segments[s].alloc_front(count, state, pid);
            if r.is_some() {
                assert(self@ =~= old(self)@.update(s as int, self.segments@[s as int]@));
                return r;
            }
            assert(self@ =~= old(self)@);
            s += 1;
        }
        None
    }

    /// Claims `count` contiguous frames from the first segment, in order,
    /// that has a free run, at the highest index in it.
    pub fn alloc_back(&mut self, count: usize, state: FrameState, pid: u16) -> (r: Option<
        MemoryAllocation,
    >)
        requires
            old(self).wf(),
        ensures
            (final(self)@, r) == table_alloc_back(old(self)@, count, state, pid),
            final(self).wf(),
            same_layout(final(self)@, old(self)@),
    {
        let mut s: usize = 0;
        while s < self.segments.len()
            invariant
                s <= self.segments.len(),
                self@ == old(self)@,
                self.wf(),
                table_alloc_back(old(self)@, count, state, pid) == table_alloc_back_from(
                    old(self)@,
                    count,
                    state,
                    pid,
                    s as int,
                ),
            decreases self.segments.len() - s,
        {
            assert(self@[s as int] == self.segments@[s as int]@);
            assert(self@[s as int].wf());
            let r = self.segments[s].alloc_back(count, state, pid);
            if r.is_some() {
                assert(self@ =~= old(self)@.update(s as int, self.segments@[s as int]@));
                return r;
            }
            assert(self@ =~= old(self)@);
            s += 1;
        }
        None
    }

    /// Address of the first frame of the first segment: the origin from which
    /// frame indices into the self-referencing window are counted. `None` for
    /// a table without segments.
    pub fn root_frame_address(&self) -> (r: Option<usize>)
        ensures
            r == if self@.len() > 0 {
                Some(self@[0].first_page_addr)
            } else {
                None
            },
    {
        if self.segments.len() == 0 {
            None
        } else {
            Some(self.segments[0].first_page_addr)
        }
    }

    /// Addresses of all frames that hold page tables, by segment and then
    /// ascending.
    pub fn iter_front(&self) -> (frames: Vec<usize>)
        requires
            self.wf(),
        ensures
            frames@ == table_page_tables(self@, self@.len() as int),
    {
        let mut frames: Vec<usize> = Vec::new();
        let mut s: usize = 0;
        while s < self.segments.len()
            invariant
                s <= self.segments.len(),
                self.wf(),
                frames@ == table_page_tables(self@, s as int),
            decreases self.segments.len() - s,
        {
            let seg = &self.segments[s];
            assert(self@[s as int] == seg@);
            assert(self@[s as int].wf());
            let ghost before = frames@;
            let mut k: usize = 0;
            while k < seg.page_count
                invariant
                    k <= seg.page_count,
                    seg@.wf(),
                    frames@ == before + segment_page_tables(seg@, k as int),
                decreases seg.page_count - k,
            {
                let state = seg.metadata[k].state();
                if state == FrameState::PageTable {
                    frames.push(seg.first_page_addr + k * 4096);
                    assert(frames@ =~= before + segment_page_tables(seg@, k as int + 1));
                }
                k += 1;
            }
            s += 1;
        }
        frames
    }

    /// Gives the run of `a` back: each of its frames becomes `Free` with
    /// owner 0. The frames' contents are not touched. Returns whether a
    /// segment holds the run; where none does, nothing changes.
    pub fn release(&mut self, a: &MemoryAllocation) -> (released: bool)
        requires
            old(self).wf(),
        ensures
            final(self)@ == table_release(old(self)@, *a),
            released == holder_from(old(self)@, *a, 0) is Some,
            final(self).wf(),
            same_layout(final(self)@, old(self)@),
    {
        let mut s: usize = 0;
        while s < self.segments.len()
            invariant
                s <= self.segments.len(),
                *self == *old(self),
                self.wf(),
                holder_from(self@, *a, 0) == holder_from(self@, *a, s as int),
            decreases self.segments.len() - s,
        {
            assert(self@[s as int] == self.segments@[s as int]@);
            assert(self@[s as int].wf());
            let first: usize = self.segments[s].first_page_addr;
            let pages: usize = self.segments[s].page_count;
            if first <= a.phys_addr {
                let offset: usize = a.phys_addr - first;
                let idx: usize = offset / 4096;
                if offset % 4096 == 0 && idx <= pages && a.page_count <= pages - idx {
                    assert(self@[s as int].holds(*a));
                    self.segments[s].claim(idx, a.page_count, FrameState::Free, 0);
                    assert(self@ =~= old(self)@.update(s as int, self.segments@[s as int]@));
                    return true;
                }
            }
            assert(!self@[s as int].holds(*a));
            s += 1;
        }
        false
    }
}

} // verus!
