//! The shape of a heap whose live allocations tile it: what the scan sees,
//! and how allocation, writing and release keep the shape.
//!
//! The laws here hold for allocations whose header stands directly before
//! the payload (no padding) and whose size is not a multiple of 256, so
//! that the first byte of the header is not zero. Other allocations leave
//! the scan blind to where a block ends or begins.
use crate::early_heap::{
    header_value, is_sentinel_word, lemma_le_bytes, lemma_scan, lemma_zero_run, lemma_zero_run_covers,
    zero_run, HeapView,
};
use vstd::prelude::*;

verus! {

/// A live allocation: a header at `meta`, and `size` bytes of payload
/// directly after it.
pub struct Block {
    pub meta: int,
    pub size: int,
}

impl Block {
    /// Address of the payload.
    pub open spec fn payload(self) -> int {
        self.meta + 4
    }

    /// One byte past the payload.
    pub open spec fn end(self) -> int {
        self.meta + 4 + self.size
    }

    /// The address `a` lies in the header or the payload.
    pub open spec fn holds(self, a: int) -> bool {
        self.meta <= a < self.end()
    }
}

/// The address `a` lies in one of the blocks.
pub open spec fn in_a_block(blocks: Seq<Block>, a: int) -> bool {
    exists|i: int| 0 <= i < blocks.len() && (#[trigger] blocks[i]).holds(a)
}

/// The block lies in the heap on a header slot, and its header holds its
/// size, which is not a multiple of 256.
pub open spec fn block_ok(heap: HeapView, b: Block) -> bool {
    &&& heap.first_slot() <= b.meta
    &&& b.meta % 4 == 0
    &&& 0 < b.size
    &&& b.size % 256 != 0
    &&& b.end() <= heap.end()
    &&& header_value(heap.bytes, b.meta - heap.start) == b.size
}

/// The live allocations tile the heap: they lie in it in ascending order
/// without overlap, each header holds the size of its payload, and every
/// byte outside them is zero.
#[verifier::opaque]
pub open spec fn tiled(heap: HeapView, blocks: Seq<Block>) -> bool {
    &&& heap.wf()
    &&& forall|i: int| 0 <= i < blocks.len() ==> block_ok(heap, #[trigger] blocks[i])
    &&& forall|i: int, j: int|
        0 <= i < j < blocks.len() ==> (#[trigger] blocks[i]).end() <= (#[trigger] blocks[j]).meta
    &&& forall|a: int| heap.start <= a < heap.end() && !in_a_block(blocks, a) ==> #[trigger] heap.byte(a) == 0
}

/// The header addresses that a scan from `cursor` visits: at each header
/// slot, a zero byte is skipped, and any other byte is taken for the first
/// byte of a header, whose length says how far to skip.
pub open spec fn headers(heap: HeapView, cursor: int) -> Seq<int>
    decreases heap.end() - cursor,
{
    let meta = HeapView::header_slot(cursor);
    if cursor < heap.start || meta + 4 > heap.end() {
        Seq::empty()
    } else if heap.byte(meta) != 0 {
        let next = meta + 4 + header_value(heap.bytes, meta - heap.start);
        if next > heap.end() {
            seq![meta]
        } else {
            seq![meta] + headers(heap, next)
        }
    } else {
        headers(heap, meta + 1)
    }
}

/// The header addresses of the blocks from index `from` on.
pub open spec fn metas_from(blocks: Seq<Block>, from: int) -> Seq<int> {
    Seq::new((blocks.len() - from) as nat, |i: int| blocks[from + i].meta)
}

/// The first byte of a live header is not zero.
proof fn lemma_header_byte(heap: HeapView, b: Block)
    requires
        heap.wf(),
        block_ok(heap, b),
    ensures
        heap.byte(b.meta) != 0,
        !is_sentinel_word(heap.bytes, b.meta - heap.start),
        heap.start <= b.meta,
{
    let at = b.meta - heap.start;
    if heap.bytes[at] == 0 {
        assert(header_value(heap.bytes, at) % 256 == 0);
    }
}

/// An address between two neighbouring blocks lies in no block.
proof fn lemma_gap(blocks: Seq<Block>, i: int, a: int)
    requires
        forall|i: int, j: int|
            0 <= i < j < blocks.len() ==> (#[trigger] blocks[i]).end() <= (#[trigger] blocks[j]).meta,
        forall|k: int| 0 <= k < blocks.len() ==> (#[trigger] blocks[k]).size > 0,
        0 <= i <= blocks.len(),
        i > 0 ==> blocks[i - 1].end() <= a,
        i < blocks.len() ==> a < blocks[i].meta,
    ensures
        !in_a_block(blocks, a),
{
    if in_a_block(blocks, a) {
        let k = choose|k: int| 0 <= k < blocks.len() && (#[trigger] blocks[k]).holds(a);
        if k < i - 1 {
            assert(blocks[k].end() <= blocks[i - 1].meta);
        } else if k > i {
            assert(blocks[i].end() <= blocks[k].meta);
        }
    }
}

/// In a tiled heap the scan from the beginning visits
/// the header of every live allocation, each once, in ascending order, and
/// nothing else.
pub proof fn law_scan_visits_headers(heap: HeapView, blocks: Seq<Block>)
    requires
        tiled(heap, blocks),
    ensures
        headers(heap, heap.start as int) == metas_from(blocks, 0),
        forall|i: int|
            0 <= i < blocks.len() ==> header_value(heap.bytes, (#[trigger] blocks[i]).meta - heap.start)
                == blocks[i].size,
{
    reveal(tiled);
    if blocks.len() > 0 {
        assert(block_ok(heap, blocks[0]));
    }
    assert forall|i: int| 0 <= i < blocks.len() implies header_value(
        heap.bytes,
        (#[trigger] blocks[i]).meta - heap.start,
    ) == blocks[i].size by {
        assert(block_ok(heap, blocks[i]));
    }
    lemma_headers_from(heap, blocks, 0, heap.start as int);
}

/// From a cursor in the gap before block `i`, the scan visits the headers
/// of the blocks from `i` on.
proof fn lemma_headers_from(heap: HeapView, blocks: Seq<Block>, i: int, cursor: int)
    requires
        tiled(heap, blocks),
        0 <= i <= blocks.len(),
        heap.start <= cursor,
        i > 0 ==> blocks[i - 1].end() <= cursor,
        i < blocks.len() ==> cursor <= blocks[i].meta,
    ensures
        headers(heap, cursor) == metas_from(blocks, i),
    decreases heap.end() - cursor,
{
    reveal(tiled);
    let meta = HeapView::header_slot(cursor);
    if meta + 4 > heap.end() {
        if i < blocks.len() {
            assert(block_ok(heap, blocks[i]));
            assert(meta <= blocks[i].meta);
        }
        assert(metas_from(blocks, i) =~= Seq::<int>::empty());
    } else if i < blocks.len() && meta == blocks[i].meta {
        assert(block_ok(heap, blocks[i]));
        lemma_header_byte(heap, blocks[i]);
        let next = blocks[i].end();
        if i + 1 < blocks.len() {
            assert(blocks[i].end() <= blocks[i + 1].meta);
        }
        lemma_headers_from(heap, blocks, i + 1, next);
        assert(metas_from(blocks, i) =~= seq![meta] + metas_from(blocks, i + 1));
    } else {
        if i < blocks.len() {
            assert(block_ok(heap, blocks[i]));
            assert(meta < blocks[i].meta);
        }
        lemma_gap(blocks, i, meta);
        assert(heap.byte(meta) == 0);
        lemma_headers_from(heap, blocks, i, meta + 1);
    }
}

/// A heap that is all zero is tiled by no allocation, and a heap tiled by
/// no allocation is all zero.
pub proof fn law_empty_heap_is_zero(heap: HeapView)
    requires
        heap.wf(),
    ensures
        tiled(heap, Seq::empty()) <==> forall|a: int| heap.start <= a < heap.end() ==> heap.byte(a) == 0,
{
    reveal(tiled);
    assert(forall|a: int| !in_a_block(Seq::<Block>::empty(), a));
    if tiled(heap, Seq::empty()) {
        assert forall|a: int| heap.start <= a < heap.end() implies heap.byte(a) == 0 by {
            assert(!in_a_block(Seq::<Block>::empty(), a));
        }
    }
}

/// What tiling says of block `i`: it is in order, after its predecessor and
/// before its successor.
proof fn lemma_tiled_block(heap: HeapView, blocks: Seq<Block>, i: int)
    requires
        tiled(heap, blocks),
        0 <= i < blocks.len(),
    ensures
        heap.wf(),
        block_ok(heap, blocks[i]),
        i > 0 ==> blocks[i - 1].end() <= blocks[i].meta,
        i + 1 < blocks.len() ==> blocks[i].end() <= blocks[i + 1].meta,
{
    reveal(tiled);
}

/// What tiling says of the gap before block `i`: every byte in it is zero.
proof fn lemma_tiled_gap(heap: HeapView, blocks: Seq<Block>, i: int, a: int)
    requires
        tiled(heap, blocks),
        0 <= i <= blocks.len(),
        heap.start <= a < heap.end(),
        i > 0 ==> blocks[i - 1].end() <= a,
        i < blocks.len() ==> a < blocks[i].meta,
    ensures
        heap.byte(a) == 0,
{
    reveal(tiled);
    assert forall|k: int| 0 <= k < blocks.len() implies (#[trigger] blocks[k]).size > 0 by {
        assert(block_ok(heap, blocks[k]));
    }
    lemma_gap(blocks, i, a);
}

/// No block can be committed on the header of a live allocation.
proof fn lemma_no_fit_on_header(heap: HeapView, b: Block, size: usize, align: usize)
    requires
        heap.wf(),
        block_ok(heap, b),
        align >= 1,
    ensures
        !heap.block_fits(b.meta, size, align),
{
    lemma_header_byte(heap, b);
    if b.meta + 4 + align - 1 <= usize::MAX {
        crate::align::lemma_align_up_bounds((b.meta + 4) as usize, align);
    }
}

/// A block that fits ends in the heap, covers only zeros, and ends at or
/// before the next byte that is not zero.
proof fn lemma_fit_is_clear(heap: HeapView, meta: int, size: usize, align: usize, other: int)
    requires
        heap.wf(),
        heap.start <= meta <= heap.end(),
        align >= 1,
        heap.block_fits(meta, size, align),
    ensures
        meta + 4 <= HeapView::payload_of(meta, align),
        HeapView::payload_of(meta, align) + size <= heap.end(),
        meta <= other < heap.end() && heap.byte(other) != 0 ==> HeapView::payload_of(meta, align) + size
            <= other,
{
    lemma_zero_run(heap.bytes, meta - heap.start);
    crate::align::lemma_align_up_bounds((meta + 4) as usize, align);
    let stop = HeapView::payload_of(meta, align) + size;
    if meta <= other < heap.end() && heap.byte(other) != 0 && stop > other {
        assert(heap.bytes[other - heap.start] == 0);
    }
}

/// Where the scan of a tiled heap commits: in the gap before block `j`
/// (or after the last block), clear of every live allocation.
proof fn lemma_scan_lands_in_gap(
    heap: HeapView,
    blocks: Seq<Block>,
    i: int,
    cursor: int,
    size: usize,
    align: usize,
) -> (j: int)
    requires
        tiled(heap, blocks),
        heap.wf(),
        align >= 1,
        0 <= i <= blocks.len(),
        heap.start <= cursor,
        i > 0 ==> blocks[i - 1].end() <= cursor,
        i < blocks.len() ==> cursor <= blocks[i].meta,
        heap.scan(cursor, size, align) is Some,
    ensures
        i <= j <= blocks.len(),
        j > 0 ==> blocks[j - 1].end() <= heap.scan(cursor, size, align).unwrap(),
        j < blocks.len() ==> HeapView::payload_of(heap.scan(cursor, size, align).unwrap(), align) + size
            <= blocks[j].meta,
    decreases heap.end() - cursor,
{
    let meta = HeapView::header_slot(cursor);
    if i < blocks.len() {
        lemma_tiled_block(heap, blocks, i);
        lemma_header_byte(heap, blocks[i]);
    }
    if i < blocks.len() && meta == blocks[i].meta {
        lemma_no_fit_on_header(heap, blocks[i], size, align);
        let next = blocks[i].end();
        assert(heap.scan(cursor, size, align) == heap.scan(next, size, align));
        lemma_scan_lands_in_gap(heap, blocks, i + 1, next, size, align)
    } else {
        lemma_tiled_gap(heap, blocks, i, meta);
        if heap.block_fits(meta, size, align) {
            if i < blocks.len() {
                lemma_fit_is_clear(heap, meta, size, align, blocks[i].meta);
            }
            i
        } else {
            assert(heap.scan(cursor, size, align) == heap.scan(meta + 1, size, align));
            lemma_scan_lands_in_gap(heap, blocks, i, meta + 1, size, align)
        }
    }
}

/// Putting a block into the gap before block `j` keeps the order, and an
/// address in no block of the new list is in none of the old and not in
/// the new block.
proof fn lemma_insert_block(blocks: Seq<Block>, j: int, fresh: Block)
    requires
        forall|i: int, k: int|
            0 <= i < k < blocks.len() ==> (#[trigger] blocks[i]).end() <= (#[trigger] blocks[k]).meta,
        forall|k: int| 0 <= k < blocks.len() ==> (#[trigger] blocks[k]).size > 0,
        0 <= j <= blocks.len(),
        fresh.size > 0,
        j > 0 ==> blocks[j - 1].end() <= fresh.meta,
        j < blocks.len() ==> fresh.end() <= blocks[j].meta,
    ensures
        forall|i: int, k: int|
            0 <= i < k < blocks.insert(j, fresh).len() ==> (#[trigger] blocks.insert(j, fresh)[i]).end() <= (
            #[trigger] blocks.insert(j, fresh)[k]).meta,
        forall|a: int|
            !in_a_block(blocks.insert(j, fresh), a) ==> !(#[trigger] in_a_block(blocks, a)) && !fresh.holds(a),
{
    let all = blocks.insert(j, fresh);
    assert forall|i: int, k: int| 0 <= i < k < all.len() implies (#[trigger] all[i]).end() <= (#[trigger] all[k]).meta by {
        let i0 = if i < j {
            i
        } else {
            i - 1
        };
        let k0 = if k < j {
            k
        } else {
            k - 1
        };
        if i != j && k != j {
            assert(blocks[i0].end() <= blocks[k0].meta);
        } else if i == j {
            if k0 > j {
                assert(blocks[j].end() <= blocks[k0].meta);
            }
        } else {
            if i0 < j - 1 {
                assert(blocks[i0].end() <= blocks[j - 1].meta);
            }
        }
    }
    assert forall|a: int| !in_a_block(all, a) implies !(#[trigger] in_a_block(blocks, a)) && !fresh.holds(a) by {
        assert(all[j] == fresh);
        if fresh.holds(a) {
            assert(all[j].holds(a));
        }
        if in_a_block(blocks, a) {
            let k = choose|k: int| 0 <= k < blocks.len() && (#[trigger] blocks[k]).holds(a);
            let k1 = if k < j {
                k
            } else {
                k + 1
            };
            assert(all[k1] == blocks[k]);
            assert(all[k1].holds(a));
        }
    }
}

/// Committing a block without padding in a gap of a tiled heap leaves the
/// heap tiled.
#[verifier::spinoff_prover]
proof fn lemma_commit_keeps_tiling(heap: HeapView, blocks: Seq<Block>, j: int, meta: int, size: usize)
    requires
        tiled(heap, blocks),
        0 <= j <= blocks.len(),
        heap.first_slot() <= meta,
        heap.start <= meta,
        meta % 4 == 0,
        size % 256 != 0,
        meta + 4 + size <= heap.end(),
        j > 0 ==> blocks[j - 1].end() <= meta,
        j < blocks.len() ==> meta + 4 + size <= blocks[j].meta,
        forall|a: int| meta <= a < meta + 4 + size ==> heap.byte(a) == 0,
    ensures
        tiled(
            HeapView { bytes: heap.commit(meta, meta + 4, size), ..heap },
            blocks.insert(j, Block { meta, size: size as int }),
        ),
{
    reveal(tiled);
    let after = HeapView { bytes: heap.commit(meta, meta + 4, size), ..heap };
    let fresh = Block { meta, size: size as int };
    let all = blocks.insert(j, fresh);
    assert forall|k: int| 0 <= k < blocks.len() implies (#[trigger] blocks[k]).size > 0 by {
        assert(block_ok(heap, blocks[k]));
    }
    lemma_insert_block(blocks, j, fresh);
    lemma_le_bytes(size as u32);
    assert(header_value(after.bytes, meta - heap.start) == size);
    assert forall|i: int| 0 <= i < all.len() implies block_ok(after, #[trigger] all[i]) by {
        if i < j {
            assert(all[i] == blocks[i]);
            assert(block_ok(heap, blocks[i]));
            if i < j - 1 {
                assert(blocks[i].end() <= blocks[j - 1].meta);
            }
        } else if i > j {
            assert(all[i] == blocks[i - 1]);
            assert(block_ok(heap, blocks[i - 1]));
            if i - 1 > j {
                assert(blocks[j].end() <= blocks[i - 1].meta);
            }
        }
    }
    assert forall|a: int| heap.start <= a < heap.end() && !in_a_block(all, a) implies #[trigger] after.byte(
        a,
    ) == 0 by {
        assert(!in_a_block(blocks, a) && !fresh.holds(a));
        assert(heap.byte(a) == 0);
    }
}

/// A successful allocation in a tiled heap
/// lies in the heap and overlaps no live allocation; where its header
/// stands directly before its payload and its size is not a multiple of
/// 256, the heap is tiled again, by the allocations it had and the new one.
/// The lemma returns the place of the new allocation among the others.
pub proof fn law_allocate_keeps_tiling(heap: HeapView, blocks: Seq<Block>, size: usize, align: usize) -> (j:
    int)
    requires
        tiled(heap, blocks),
        align >= 1,
        heap.allocate(size, align).1 is Some,
    ensures
        0 <= j <= blocks.len(),
        ({
            let (after, r) = heap.allocate(size, align);
            let meta = heap.scan(heap.start as int, size, align).unwrap();
            let payload = r.unwrap();
            &&& heap.start <= meta && meta + 4 <= payload && payload + size <= heap.end()
            &&& forall|a: int| meta <= a < payload + size ==> !in_a_block(blocks, a)
            &&& payload == meta + 4 && size % 256 != 0 ==> tiled(
                after,
                blocks.insert(j, Block { meta, size: size as int }),
            )
        }),
{
    reveal(tiled);
    let (after, r) = heap.allocate(size, align);
    let meta = heap.scan(heap.start as int, size, align).unwrap();
    let payload = r.unwrap();
    lemma_scan(heap, heap.start as int, size, align);
    lemma_fit_is_clear(heap, meta, size, align, meta);
    let j = lemma_scan_lands_in_gap(heap, blocks, 0, heap.start as int, size, align);
    assert forall|k: int| 0 <= k < blocks.len() implies (#[trigger] blocks[k]).size > 0 by {
        assert(block_ok(heap, blocks[k]));
    }
    assert forall|a: int| meta <= a < payload + size implies !in_a_block(blocks, a) by {
        lemma_gap(blocks, j, a);
    }
    if payload == meta + 4 && size % 256 != 0 {
        lemma_zero_run(heap.bytes, meta - heap.start);
        assert forall|a: int| meta <= a < meta + 4 + size implies heap.byte(a) == 0 by {
            assert(heap.bytes[a - heap.start] == 0);
        }
        lemma_commit_keeps_tiling(heap, blocks, j, meta, size);
    }
    j
}

/// Storing a byte in the payload of a live
/// allocation leaves the heap tiled by the same allocations.
pub proof fn law_store_keeps_tiling(heap: HeapView, blocks: Seq<Block>, i: int, addr: int, value: u8)
    requires
        tiled(heap, blocks),
        0 <= i < blocks.len(),
        blocks[i].payload() <= addr < blocks[i].end(),
    ensures
        tiled(HeapView { bytes: heap.bytes.update(addr - heap.start, value), ..heap }, blocks),
{
    reveal(tiled);
    let after = HeapView { bytes: heap.bytes.update(addr - heap.start, value), ..heap };
    assert(block_ok(heap, blocks[i]));
    assert forall|k: int| 0 <= k < blocks.len() implies block_ok(after, #[trigger] blocks[k]) by {
        assert(block_ok(heap, blocks[k]));
        if k < i {
            assert(blocks[k].end() <= blocks[i].meta);
        } else if k > i {
            assert(blocks[i].end() <= blocks[k].meta);
        }
    }
    assert forall|a: int| heap.start <= a < heap.end() && !in_a_block(blocks, a) implies #[trigger] after.byte(
        a,
    ) == 0 by {
        assert(blocks[i].holds(addr));
        assert(heap.byte(a) == 0);
    }
}

/// Releasing a live allocation of a tiled heap
/// leaves the heap tiled by the others; so once every allocation has been
/// released, every byte of the heap is zero.
pub proof fn law_dealloc_keeps_tiling(heap: HeapView, blocks: Seq<Block>, i: int)
    requires
        tiled(heap, blocks),
        0 <= i < blocks.len(),
    ensures
        heap.may_release(blocks[i].payload() as usize, blocks[i].size as usize),
        tiled(heap.dealloc(blocks[i].payload() as usize, blocks[i].size as usize), blocks.remove(i)),
{
    reveal(tiled);
    let b = blocks[i];
    assert(block_ok(heap, b));
    lemma_header_byte(heap, b);
    let ptr = b.payload() as usize;
    let size = b.size as usize;
    assert(heap.header_of(ptr) == b.meta);
    let after = heap.dealloc(ptr, size);
    let rest = blocks.remove(i);
    assert forall|k: int| 0 <= k < rest.len() implies block_ok(after, #[trigger] rest[k]) by {
        let k0 = if k < i {
            k
        } else {
            k + 1
        };
        assert(rest[k] == blocks[k0]);
        assert(block_ok(heap, blocks[k0]));
        if k0 < i {
            assert(blocks[k0].end() <= blocks[i].meta);
        } else {
            assert(blocks[i].end() <= blocks[k0].meta);
        }
    }
    assert forall|k: int, l: int| 0 <= k < l < rest.len() implies (#[trigger] rest[k]).end() <= (#[trigger] rest[l]).meta by {
        let k0 = if k < i {
            k
        } else {
            k + 1
        };
        let l0 = if l < i {
            l
        } else {
            l + 1
        };
        assert(blocks[k0].end() <= blocks[l0].meta);
    }
    assert forall|a: int| heap.start <= a < heap.end() && !in_a_block(rest, a) implies #[trigger] after.byte(
        a,
    ) == 0 by {
        if !b.holds(a) {
            if in_a_block(blocks, a) {
                let k = choose|k: int| 0 <= k < blocks.len() && (#[trigger] blocks[k]).holds(a);
                let k1 = if k < i {
                    k
                } else {
                    k - 1
                };
                assert(rest[k1] == blocks[k]);
                assert(rest[k1].holds(a));
            }
            assert(heap.byte(a) == 0);
        }
    }
}

} // verus!
