//! The early kernel heap: a bump-scan allocator over a fixed, zero-filled
//! byte range.
//!
//! Zero is the only free signal. Every live allocation is preceded by a
//! 4-byte little-endian header, at an address that is a multiple of 4, which
//! holds the payload size; the bytes between header and payload, if the
//! alignment asks for any, hold the sentinel `0xFF`.
use crate::align::{align_up, align_up_spec, lemma_align_up_bounds, lemma_align_up_power_of_two};
use vstd::arithmetic::power2::is_pow2;
use vstd::prelude::*;

pub mod tiling;

verus! {

/// The byte that fills the padding between a header and its payload.
pub const PADDING_SENTINEL: u8 = 0xFF;

/// The mathematical content of the heap: its bytes, from address `start` on.
pub struct HeapView {
    pub start: usize,
    pub bytes: Seq<u8>,
}

/// Number of zero bytes in a row from index `from` on.
pub open spec fn zero_run(bytes: Seq<u8>, from: int) -> int
    decreases bytes.len() - from,
{
    if from < 0 || from >= bytes.len() || bytes[from] != 0 {
        0
    } else {
        1 + zero_run(bytes, from + 1)
    }
}

/// The little-endian 32-bit value of the four bytes at index `at`.
pub open spec fn header_value(bytes: Seq<u8>, at: int) -> int {
    bytes[at] + 256 * bytes[at + 1] + 65536 * bytes[at + 2] + 16777216 * bytes[at + 3]
}

/// Byte `k` of the little-endian form of `value`.
pub open spec fn le_byte(value: u32, k: int) -> u8 {
    if k == 0 {
        (value & 0xFF) as u8
    } else if k == 1 {
        ((value >> 8) & 0xFF) as u8
    } else if k == 2 {
        ((value >> 16) & 0xFF) as u8
    } else {
        ((value >> 24) & 0xFF) as u8
    }
}

/// The four bytes at index `at` are all the padding sentinel.
pub open spec fn is_sentinel_word(bytes: Seq<u8>, at: int) -> bool {
    bytes[at] == 0xFF && bytes[at + 1] == 0xFF && bytes[at + 2] == 0xFF && bytes[at + 3] == 0xFF
}

/// The four little-endian bytes of a value add up to the value.
pub proof fn lemma_le_bytes(value: u32)
    by (bit_vector)
    ensures
        (value & 0xFF) + 256 * ((value >> 8) & 0xFF) + 65536 * ((value >> 16) & 0xFF) + 16777216 * ((value
            >> 24) & 0xFF) == value,
        value & 0xFF <= 0xFF,
        (value >> 8) & 0xFF <= 0xFF,
        (value >> 16) & 0xFF <= 0xFF,
        (value >> 24) & 0xFF <= 0xFF,
{
}

/// A zero run stays inside the bytes, covers only zeros, and stops at a
/// byte that is not zero or at the end.
pub proof fn lemma_zero_run(bytes: Seq<u8>, from: int)
    requires
        0 <= from <= bytes.len(),
    ensures
        0 <= zero_run(bytes, from),
        from + zero_run(bytes, from) <= bytes.len(),
        forall|i: int| from <= i < from + zero_run(bytes, from) ==> bytes[i] == 0,
        from + zero_run(bytes, from) < bytes.len() ==> bytes[from + zero_run(bytes, from)] != 0,
    decreases bytes.len() - from,
{
    if from < bytes.len() && bytes[from] == 0 {
        lemma_zero_run(bytes, from + 1);
    }
}

/// Bytes that are all zero from `from` up to `to` make a zero run of at
/// least that length.
pub proof fn lemma_zero_run_covers(bytes: Seq<u8>, from: int, to: int)
    requires
        0 <= from <= to <= bytes.len(),
        forall|i: int| from <= i < to ==> bytes[i] == 0,
    ensures
        zero_run(bytes, from) >= to - from,
    decreases to - from,
{
    if from < to {
        assert(bytes[from] == 0);
        lemma_zero_run_covers(bytes, from + 1, to);
    } else {
        lemma_zero_run(bytes, from);
    }
}

impl HeapView {
    /// One byte past the heap.
    pub open spec fn end(self) -> int {
        self.start + self.bytes.len()
    }

    /// The byte at address `addr`.
    pub open spec fn byte(self, addr: int) -> u8 {
        self.bytes[addr - self.start]
    }

    /// The address at which a header is looked for when the cursor is at
    /// `cursor`: the cursor rounded up to a multiple of 4.
    pub open spec fn header_slot(cursor: int) -> int {
        ((cursor + 3) / 4) * 4
    }

    /// The payload address of a block whose header is at `meta`.
    pub open spec fn payload_of(meta: int, align: usize) -> usize {
        align_up_spec((meta + 4) as usize, align)
    }

    /// A block of `size` bytes aligned to `align` can be committed with its
    /// header at `meta`: the zero run from `meta` on covers header, padding
    /// and payload.
    pub open spec fn block_fits(self, meta: int, size: usize, align: usize) -> bool {
        &&& meta + 4 + align - 1 <= usize::MAX
        &&& zero_run(self.bytes, meta - self.start) >= (Self::payload_of(meta, align) - meta) + size
    }

    /// Where the scan from `cursor` commits a block of `size` bytes aligned
    /// to `align`: the address of its header, or `None` where the scan
    /// reaches the end of the heap.
    pub open spec fn scan(self, cursor: int, size: usize, align: usize) -> Option<int>
        decreases self.end() - cursor,
    {
        let meta = Self::header_slot(cursor);
        if cursor < self.start || meta + 4 > self.end() {
            None
        } else if self.block_fits(meta, size, align) {
            Some(meta)
        } else if self.byte(meta) != 0 {
            let next = meta + 4 + header_value(self.bytes, meta - self.start);
            if next > self.end() {
                None
            } else {
                self.scan(next, size, align)
            }
        } else {
            self.scan(meta + 1, size, align)
        }
    }

    /// The bytes after a block of `size` bytes has been committed with its
    /// header at `meta` and its payload at `payload`: the size in the
    /// header, the sentinel in the padding, everything else as before.
    pub open spec fn commit(self, meta: int, payload: int, size: usize) -> Seq<u8> {
        Seq::new(
            self.bytes.len(),
            |i: int|
                if meta <= i + self.start < meta + 4 {
                    le_byte(size as u32, i + self.start - meta)
                } else if meta + 4 <= i + self.start < payload {
                    0xFFu8
                } else {
                    self.bytes[i]
                },
        )
    }

    /// What `allocate` does to the heap, and the payload address it returns.
    pub open spec fn allocate(self, size: usize, align: usize) -> (HeapView, Option<usize>) {
        match self.scan(self.start as int, size, align) {
            Some(meta) => {
                let payload = Self::payload_of(meta, align);
                (HeapView { bytes: self.commit(meta, payload as int, size), ..self }, Some(payload))
            },
            None => (self, None),
        }
    }

    /// The lowest address at which a header may stand.
    pub open spec fn first_slot(self) -> int {
        Self::header_slot(self.start as int)
    }

    /// The header that `dealloc` finds by walking back from `at`, a multiple
    /// of 4: the first word at or below `at`, in steps of 4, that is not all
    /// sentinel, or the lowest header slot.
    pub open spec fn walk_back(self, at: int) -> int
        decreases at - self.start,
    {
        if at - 4 >= self.first_slot() && is_sentinel_word(self.bytes, at - self.start) {
            self.walk_back(at - 4)
        } else {
            at
        }
    }

    /// The header of the allocation whose payload is at `ptr`.
    pub open spec fn header_of(self, ptr: usize) -> int {
        self.walk_back(((ptr - 4) / 4) * 4)
    }

    /// The bytes with the addresses `from .. to` set to zero.
    pub open spec fn zeroed(self, from: int, to: int) -> Seq<u8> {
        Seq::new(
            self.bytes.len(),
            |i: int|
                if from <= i + self.start < to {
                    0u8
                } else {
                    self.bytes[i]
                },
        )
    }

    /// What `dealloc` does to the heap.
    pub open spec fn dealloc(self, ptr: usize, size: usize) -> HeapView {
        HeapView { bytes: self.zeroed(self.header_of(ptr), ptr + size), ..self }
    }

    /// `ptr` and `size` may be handed to `dealloc`: the payload lies in the
    /// heap and leaves room below it for a header.
    pub open spec fn may_release(self, ptr: usize, size: usize) -> bool {
        self.first_slot() + 4 <= ptr && ptr + size <= self.end()
    }

    /// The heap fits the address space and a 32-bit header can hold any
    /// size that fits the heap.
    pub open spec fn wf(self) -> bool {
        self.end() <= usize::MAX && self.bytes.len() <= u32::MAX
    }
}

/// The walk back ends on a header slot at or below where it began.
pub proof fn lemma_walk_back(heap: HeapView, at: int)
    requires
        heap.first_slot() <= at,
        at % 4 == 0,
    ensures
        heap.first_slot() <= heap.walk_back(at) <= at,
        heap.walk_back(at) % 4 == 0,
    decreases at - heap.start,
{
    if at - 4 >= heap.first_slot() && is_sentinel_word(heap.bytes, at - heap.start) {
        lemma_walk_back(heap, at - 4);
    }
}

/// The early heap: the byte range `heap_start .. heap_end` and its bytes.
pub struct EarlyKernelAllocator {
    pub heap_start: usize,
    pub heap_end: usize,
    pub heap: Vec<u8>,
}

impl View for EarlyKernelAllocator {
    type V = HeapView;

    open spec fn view(&self) -> HeapView {
        HeapView { start: self.heap_start, bytes: self.heap@ }
    }
}

impl EarlyKernelAllocator {
    pub open spec fn wf(&self) -> bool {
        &&& self@.wf()
        &&& self.heap_end == self.heap_start + self.heap@.len()
    }

    /// A heap over `start .. end`, every byte zero.
    pub fn new(start: usize, end: usize) -> (heap: EarlyKernelAllocator)
        requires
            start <= end,
            end - start <= u32::MAX,
        ensures
            heap.wf(),
            heap.heap_start == start,
            heap.heap_end == end,
            forall|i: int| 0 <= i < end - start ==> heap.heap@[i] == 0,
    {
        let len: usize = end - start;
        let heap: Vec<u8> = vec![0u8; len];
        EarlyKernelAllocator { heap_start: start, heap_end: end, heap }
    }

    /// Number of zero bytes in a row from address `addr` on.
    fn zero_run_at(&self, addr: usize) -> (run: usize)
        requires
            self.wf(),
            self.heap_start <= addr <= self.heap_end,
        ensures
            run == zero_run(self.heap@, addr - self.heap_start),
    {
        let from: usize = addr - self.heap_start;
        let mut i: usize = from;
        while i < self.heap.len() && self.heap[i] == 0
            invariant
                from <= i <= self.heap@.len(),
                zero_run(self.heap@, from as int) == (i - from) + zero_run(self.heap@, i as int),
            decreases self.heap@.len() - i,
        {
            i += 1;
        }
        i - from
    }

    /// The little-endian 32-bit value of the four bytes at address `addr`.
    fn header_at(&self, addr: usize) -> (value: u32)
        requires
            self.wf(),
            self.heap_start <= addr,
            addr + 4 <= self.heap_end,
        ensures
            value == header_value(self.heap@, addr - self.heap_start),
    {
        let at: usize = addr - self.heap_start;
        self.heap[at] as u32 + 256 * (self.heap[at + 1] as u32) + 65536 * (self.heap[at + 2] as u32)
            + 16777216 * (self.heap[at + 3] as u32)
    }

    /// Writes the header and the padding of a block.
    fn commit(&mut self, meta: usize, payload: usize, size: usize)
        requires
            old(self).wf(),
            old(self).heap_start <= meta,
            meta + 4 <= payload <= old(self).heap_end,
            size <= u32::MAX,
        ensures
            final(self).heap@ == old(self)@.commit(meta as int, payload as int, size),
            final(self).heap_start == old(self).heap_start,
            final(self).heap_end == old(self).heap_end,
            final(self).wf(),
    {
        let value: u32 = size as u32;
        let at: usize = meta - self.heap_start;
        proof {
            lemma_le_bytes(value);
        }
        self.heap[at] = (value & 0xFF) as u8;
        self.heap[at + 1] = ((value >> 8) & 0xFF) as u8;
        self.heap[at + 2] = ((value >> 16) & 0xFF) as u8;
        self.heap[at + 3] = ((value >> 24) & 0xFF) as u8;
        let stop: usize = payload - self.heap_start;
        let mut i: usize = at + 4;
        while i < stop
            invariant
                at + 4 <= i <= stop <= self.heap@.len(),
                at == meta - self.heap_start,
                stop == payload - self.heap_start,
                value == size as u32,
                self.heap_start == old(self).heap_start,
                self.heap_end == old(self).heap_end,
                self.heap@.len() == old(self).heap@.len(),
                forall|k: int|
                    0 <= k < self.heap@.len() ==> #[trigger] self.heap@[k] == if at <= k < at + 4 {
                        le_byte(value, k - at)
                    } else if at + 4 <= k < i {
                        0xFFu8
                    } else {
                        old(self).heap@[k]
                    },
            decreases stop - i,
        {
            self.heap[i] = PADDING_SENTINEL;
            i += 1;
        }
        assert(self.heap@ =~= old(self)@.commit(meta as int, payload as int, size));
    }

    /// Serves a request for `size` bytes aligned to `align`.
    ///
    /// The scan starts at the beginning of the heap. At each header slot it
    /// commits the block if the zero run from the slot on covers header,
    /// padding and payload; else it skips the block whose header stands
    /// there, or one byte. Returns the payload address, or `None` where the
    /// scan reaches the end of the heap.
    pub fn allocate(&mut self, size: usize, align: usize) -> (r: Option<usize>)
        requires
            old(self).wf(),
            align >= 1,
        ensures
            (final(self)@, r) == old(self)@.allocate(size, align),
            final(self).wf(),
            final(self).heap_end == old(self).heap_end,
            r is None ==> final(self)@ == old(self)@,
            r matches Some(payload) ==> {
                let meta = old(self)@.scan(old(self).heap_start as int, size, align).unwrap();
                &&& old(self).heap_start <= meta
                &&& meta % 4 == 0
                &&& meta + 4 <= payload
                &&& payload + size <= old(self).heap_end
                &&& payload == align_up_spec((meta + 4) as usize, align)
                &&& is_pow2(align as int) ==> payload % align == 0
                &&& forall|a: int| meta <= a < payload + size ==> old(self)@.byte(a) == 0
                &&& header_value(final(self).heap@, meta - old(self).heap_start) == size
                &&& forall|a: int| meta + 4 <= a < payload ==> final(self)@.byte(a) == 0xFF
                &&& forall|a: int|
                    old(self).heap_start <= a < old(self).heap_end && !(meta <= a < payload)
                        ==> final(self)@.byte(a) == old(self)@.byte(a)
            },
    {
        let mut cursor: usize = self.heap_start;
        loop
            invariant
                self.wf(),
                *self == *old(self),
                align >= 1,
                self.heap_start <= cursor,
                self@.scan(self.heap_start as int, size, align) == self@.scan(cursor as int, size, align),
            decreases self.heap_end - cursor,
        {
            if cursor > usize::MAX - 3 {
                return None;
            }
            let meta: usize = (cursor + 3) / 4 * 4;
            if meta > self.heap_end || self.heap_end - meta < 4 {
                return None;
            }
            let potential: usize = meta + 4;
            let run: usize = self.zero_run_at(meta);
            if align - 1 <= usize::MAX - potential {
                let payload: usize = align_up(potential, align);
                let padding: usize = payload - potential;
                if run >= 4 + padding && run - 4 - padding >= size {
                    proof {
                        lemma_zero_run(self.heap@, meta - self.heap_start);
                        lemma_le_bytes(size as u32);
                        if is_pow2(align as int) {
                            lemma_align_up_power_of_two(potential, align);
                        }
                    }
                    self.commit(meta, payload, size);
                    return Some(payload);
                }
            }
            if self.heap[meta - self.heap_start] != 0 {
                let skip: u32 = self.header_at(meta);
                if skip as usize > self.heap_end - meta - 4 {
                    return None;
                }
                cursor = meta + 4 + skip as usize;
            } else {
                cursor = meta + 1;
            }
        }
    }

    /// Reads the byte at address `addr`.
    pub fn load(&self, addr: usize) -> (value: u8)
        requires
            self.wf(),
            self.heap_start <= addr < self.heap_end,
        ensures
            value == self@.byte(addr as int),
    {
        self.heap[addr - self.heap_start]
    }

    /// Stores `value` at address `addr`; every other byte stays.
    pub fn store(&mut self, addr: usize, value: u8)
        requires
            old(self).wf(),
            old(self).heap_start <= addr < old(self).heap_end,
        ensures
            final(self)@ == (HeapView {
                bytes: old(self)@.bytes.update(addr - old(self).heap_start, value),
                ..old(self)@
            }),
            final(self).heap_end == old(self).heap_end,
            final(self).wf(),
    {
        let at: usize = addr - self.heap_start;
        self.heap[at] = value;
    }

    /// Walks back from `at` over sentinel words to the header.
    fn find_header(&self, at: usize) -> (header: usize)
        requires
            self.wf(),
            self@.first_slot() <= at,
            at % 4 == 0,
            at + 4 <= self.heap_end,
        ensures
            header == self@.walk_back(at as int),
            self@.first_slot() <= header <= at,
    {
        proof {
            lemma_walk_back(self@, at as int);
        }
        let first: usize = (self.heap_start + 3) / 4 * 4;
        let mut h: usize = at;
        while h >= first + 4 && self.heap[h - self.heap_start] == PADDING_SENTINEL && self.heap[h
            - self.heap_start + 1] == PADDING_SENTINEL && self.heap[h - self.heap_start + 2]
            == PADDING_SENTINEL && self.heap[h - self.heap_start + 3] == PADDING_SENTINEL
            invariant
                self.wf(),
                first == self@.first_slot(),
                first <= h <= at,
                h % 4 == 0,
                at + 4 <= self.heap_end,
                self@.walk_back(at as int) == self@.walk_back(h as int),
            decreases h,
        {
            h -= 4;
        }
        h
    }

    /// Releases the allocation of `size` bytes whose payload is at `ptr`:
    /// walks back from the payload over the padding to the header and sets
    /// everything from the header to the end of the payload to zero.
    pub fn dealloc(&mut self, ptr: usize, size: usize)
        requires
            old(self).wf(),
            old(self)@.may_release(ptr, size),
        ensures
            final(self)@ == old(self)@.dealloc(ptr, size),
            final(self).wf(),
            final(self).heap_end == old(self).heap_end,
            old(self)@.first_slot() <= old(self)@.header_of(ptr) <= ptr - 4,
    {
        let header: usize = self.find_header((ptr - 4) / 4 * 4);
        let stop: usize = ptr + size - self.heap_start;
        let from: usize = header - self.heap_start;
        let mut i: usize = from;
        while i < stop
            invariant
                from <= i <= stop <= self.heap@.len(),
                self.heap_start == old(self).heap_start,
                self.heap_end == old(self).heap_end,
                self.heap@.len() == old(self).heap@.len(),
                forall|k: int|
                    0 <= k < self.heap@.len() ==> #[trigger] self.heap@[k] == if from <= k < i {
                        0u8
                    } else {
                        old(self).heap@[k]
                    },
            decreases stop - i,
        {
            self.heap[i] = 0;
            i += 1;
        }
        assert(self.heap@ =~= old(self)@.zeroed(header as int, ptr + size));
    }
}


/// Where the scan commits, the header slot lies in the heap at or after the
/// cursor, on a multiple of 4, and the block fits there.
pub proof fn lemma_scan(heap: HeapView, cursor: int, size: usize, align: usize)
    requires
        heap.start <= cursor,
    ensures
        heap.scan(cursor, size, align) matches Some(meta) ==> {
            &&& cursor <= meta
            &&& meta % 4 == 0
            &&& meta + 4 <= heap.end()
            &&& heap.first_slot() <= meta
            &&& heap.block_fits(meta, size, align)
        },
    decreases heap.end() - cursor,
{
    let meta = HeapView::header_slot(cursor);
    if meta + 4 > heap.end() {
    } else if heap.block_fits(meta, size, align) {
    } else if heap.byte(meta) != 0 {
        let next = meta + 4 + header_value(heap.bytes, meta - heap.start);
        if next <= heap.end() {
            lemma_scan(heap, next, size, align);
        }
    } else {
        lemma_scan(heap, meta + 1, size, align);
    }
}

/// Walking back over words that are all sentinel ends on the first word
/// below them that is not.
proof fn lemma_walk_over_padding(heap: HeapView, meta: int, at: int)
    requires
        heap.start <= heap.first_slot() <= meta <= at,
        at + 4 <= heap.end(),
        meta % 4 == 0,
        at % 4 == 0,
        !is_sentinel_word(heap.bytes, meta - heap.start),
        forall|a: int| meta + 4 <= a < at + 4 ==> heap.byte(a) == 0xFF,
    ensures
        heap.walk_back(at) == meta,
    decreases at - meta,
{
    if at > meta {
        assert(heap.byte(at) == 0xFF && heap.byte(at + 1) == 0xFF && heap.byte(at + 2) == 0xFF
            && heap.byte(at + 3) == 0xFF);
        lemma_walk_over_padding(heap, meta, at - 4);
    }
}

/// For a power-of-two alignment, releasing what was just
/// allocated gives back the heap as it was before the allocation, byte for
/// byte; a request that fails changes nothing.
pub proof fn law_release_restores(heap: HeapView, size: usize, align: usize)
    requires
        heap.wf(),
        is_pow2(align as int),
    ensures
        ({
            let (after, r) = heap.allocate(size, align);
            match r {
                Some(payload) => after.may_release(payload, size) && after.dealloc(payload, size)
                    == heap,
                None => after == heap,
            }
        }),
{
    let (after, r) = heap.allocate(size, align);
    if let Some(payload) = r {
        reveal(is_pow2);
        let meta = heap.scan(heap.start as int, size, align).unwrap();
        lemma_scan(heap, heap.start as int, size, align);
        lemma_zero_run(heap.bytes, meta - heap.start);
        lemma_align_up_bounds((meta + 4) as usize, align);
        lemma_align_up_power_of_two((meta + 4) as usize, align);
        lemma_le_bytes(size as u32);
        assert(payload % 4 == 0) by {
            if align as int % 4 == 0 {
                let a = align as int;
                let q = payload as int / a;
                let quarter = a / 4;
                vstd::arithmetic::div_mod::lemma_fundamental_div_mod(payload as int, a);
                assert(payload as int == (quarter * q) * 4) by (nonlinear_arith)
                    requires
                        payload as int == a * q,
                        a == 4 * quarter,
                ;
                vstd::arithmetic::div_mod::lemma_mod_multiples_basic(quarter * q, 4);
            } else {
                lemma_small_power_of_two(align as int);
                assert(align == 1 || align == 2);
                assert(payload == crate::align::next_multiple(meta + 4, align as int));
            }
        }
        assert(!is_sentinel_word(after.bytes, meta - heap.start));
        lemma_walk_over_padding(after, meta, payload - 4);
        assert(after.header_of(payload) == meta);
        assert(after.dealloc(payload, size).bytes =~= heap.bytes);
    }
}

/// A power of two that is not a multiple of 4 is 1 or 2.
proof fn lemma_small_power_of_two(n: int)
    requires
        is_pow2(n),
        n % 4 != 0,
    ensures
        n == 1 || n == 2,
{
    reveal(is_pow2);
    if n > 1 {
        assert(is_pow2(n / 2));
        if n / 2 > 1 {
            assert((n / 2) % 2 == 0);
        }
    }
}

/// The process-wide allocator: not yet installed, or the early heap.
pub enum AllocatorVariant {
    Uninitialized,
    Early(EarlyKernelAllocator),
}

/// The kernel's allocator, which forwards every request to the variant that
/// has been installed.
pub struct KernelAllocator {
    pub allocator: AllocatorVariant,
}

impl KernelAllocator {
    /// An allocator with nothing installed.
    pub fn new() -> (k: KernelAllocator)
        ensures
            k.allocator is Uninitialized,
    {
        KernelAllocator { allocator: AllocatorVariant::Uninitialized }
    }

    /// Installs the early heap. This happens once, before any heap use.
    pub fn install(&mut self, early: EarlyKernelAllocator)
        requires
            old(self).allocator is Uninitialized,
        ensures
            final(self).allocator == AllocatorVariant::Early(early),
    {
        self.allocator = AllocatorVariant::Early(early);
    }

    /// Whether a heap has been installed.
    pub fn is_installed(&self) -> (installed: bool)
        ensures
            installed == self.allocator is Early,
    {
        match &self.allocator {
            AllocatorVariant::Uninitialized => false,
            AllocatorVariant::Early(_) => true,
        }
    }

    /// The heap that has been installed.
    pub open spec fn early(&self) -> EarlyKernelAllocator {
        self.allocator->Early_0
    }

    /// Serves a request from the installed heap. A request before a heap is
    /// installed is a contract violation.
    pub fn allocate(&mut self, size: usize, align: usize) -> (r: Option<usize>)
        requires
            old(self).allocator is Early,
            old(self).early().wf(),
            align >= 1,
        ensures
            final(self).allocator is Early,
            (final(self).early()@, r) == old(self).early()@.allocate(size, align),
            final(self).early().wf(),
    {
        match &mut self.allocator {
            AllocatorVariant::Uninitialized => None,
            AllocatorVariant::Early(ek) => ek.allocate(size, align),
        }
    }

    /// Releases an allocation of the installed heap. A release before a heap
    /// is installed is a contract violation.
    pub fn dealloc(&mut self, ptr: usize, size: usize)
        requires
            old(self).allocator is Early,
            old(self).early().wf(),
            old(self).early()@.may_release(ptr, size),
        ensures
            final(self).allocator is Early,
            final(self).early()@ == old(self).early()@.dealloc(ptr, size),
            final(self).early().wf(),
    {
        match &mut self.allocator {
            AllocatorVariant::Uninitialized => {},
            AllocatorVariant::Early(ek) => ek.dealloc(ptr, size),
        }
    }
}

} // verus!
