//! The shape of an address space that the walk can rely on, and what the
//! mapping operations make of it.
//!
//! An address space is tidy when every table that the walk can reach from
//! the root is a frame in use, no table stands at two places, and no table
//! is reached on two levels. A tidy space stays tidy under the mapping
//! operations, what was mapped stays mapped, and what they map is mapped.
use crate::frame_table::{
    frame_in_use, lemma_alloc_marks_run, lemma_alloc_spares_frames_in_use, lemma_table_alloc,
    lemma_table_alloc_keeps_shape, table_alloc_front, table_disjoint, table_wf, FrameState,
    SegmentView,
};
use crate::page_table::bootstrap::{
    addressable, lemma_backed_frame, lemma_in_use_is_frame, lemma_link_entry,
};
use crate::page_table::{child_of, entry_at, leaf_table, take_table_frame_spec, PageTableEntry};
use crate::physical_memory::{lemma_write, lemma_zero_page, MemoryView};
use vstd::prelude::*;

verus! {

/// The table at `t` is reached from the root in one step.
pub open spec fn is_second(mem: MemoryView, root: usize, t: usize) -> bool {
    exists|l1: int| 0 <= l1 < 512 && #[trigger] child_of(mem, root, l1) == Some(t)
}

/// The table at `u` is reached from the root in two steps.
pub open spec fn is_third(mem: MemoryView, root: usize, u: usize) -> bool {
    exists|l1: int, l2: int|
        0 <= l1 < 512 && 0 <= l2 < 512 && #[trigger] leaf_table(mem, root, l1, l2) == Some(u)
}

/// Memory and frame table fit each other: both well formed, the segments
/// disjoint and in the memory, every address fit for a page-table entry.
pub open spec fn fitting(mem: MemoryView, frames: Seq<SegmentView>) -> bool {
    &&& mem.wf()
    &&& addressable(mem)
    &&& table_wf(frames)
    &&& table_disjoint(frames)
    &&& mem.backs(frames)
}

/// The address space under `root` is tidy: the root and every table
/// reached from it are frames in use; no table reached is the root; no
/// table stands at two places of its level; no table is reached both in
/// one step and in two.
#[verifier::opaque]
pub open spec fn tidy(mem: MemoryView, frames: Seq<SegmentView>, root: usize) -> bool {
    &&& fitting(mem, frames)
    &&& frame_in_use(frames, root as int)
    &&& forall|l1: int|
        0 <= l1 < 512 ==> (#[trigger] child_of(mem, root, l1) matches Some(t) ==> t != root && frame_in_use(
            frames,
            t as int,
        ))
    &&& forall|l1: int, l2: int|
        0 <= l1 < 512 && 0 <= l2 < 512 ==> (#[trigger] leaf_table(mem, root, l1, l2) matches Some(u) ==> u
            != root && frame_in_use(frames, u as int))
    &&& forall|l1: int, l2: int, x: int|
        0 <= l1 < 512 && 0 <= l2 < 512 && 0 <= x < 512 && leaf_table(mem, root, l1, l2) is Some ==> #[trigger] leaf_table(
            mem,
            root,
            l1,
            l2,
        ) != #[trigger] child_of(mem, root, x)
    &&& forall|a: int, b: int|
        0 <= a < 512 && 0 <= b < 512 && child_of(mem, root, a) is Some && #[trigger] child_of(mem, root, a)
            == #[trigger] child_of(mem, root, b) ==> a == b
    &&& forall|a1: int, a2: int, b1: int, b2: int|
        0 <= a1 < 512 && 0 <= a2 < 512 && 0 <= b1 < 512 && 0 <= b2 < 512 && leaf_table(mem, root, a1, a2) is Some
            && #[trigger] leaf_table(mem, root, a1, a2) == #[trigger] leaf_table(mem, root, b1, b2) ==> a1
            == b1 && a2 == b2
}

/// What tidiness says of the root.
pub proof fn lemma_tidy_root(mem: MemoryView, frames: Seq<SegmentView>, root: usize)
    requires
        tidy(mem, frames, root),
    ensures
        fitting(mem, frames),
        frame_in_use(frames, root as int),
        mem.holds_page(root),
{
    reveal(tidy);
    lemma_in_use_is_frame(frames, root as int);
    lemma_backed_frame(mem, frames, root as int);
}

/// What tidiness says of a table reached in one step.
pub proof fn lemma_tidy_second(mem: MemoryView, frames: Seq<SegmentView>, root: usize, l1: int)
    requires
        tidy(mem, frames, root),
        0 <= l1 < 512,
        child_of(mem, root, l1) is Some,
    ensures
        child_of(mem, root, l1).unwrap() != root,
        frame_in_use(frames, child_of(mem, root, l1).unwrap() as int),
        mem.holds_page(child_of(mem, root, l1).unwrap()),
        is_second(mem, root, child_of(mem, root, l1).unwrap()),
        !is_third(mem, root, child_of(mem, root, l1).unwrap()),
        forall|x: int|
            0 <= x < 512 && #[trigger] child_of(mem, root, x) == child_of(mem, root, l1) ==> x == l1,
{
    reveal(tidy);
    let t = child_of(mem, root, l1).unwrap();
    if is_third(mem, root, t) {
        let (a, b) = choose|a: int, b: int|
            0 <= a < 512 && 0 <= b < 512 && #[trigger] leaf_table(mem, root, a, b) == Some(t);
        assert(leaf_table(mem, root, a, b) != child_of(mem, root, l1));
    }
}

/// What tidiness says of a table reached in two steps.
pub proof fn lemma_tidy_third(mem: MemoryView, frames: Seq<SegmentView>, root: usize, l1: int, l2: int)
    requires
        tidy(mem, frames, root),
        0 <= l1 < 512,
        0 <= l2 < 512,
        leaf_table(mem, root, l1, l2) is Some,
    ensures
        leaf_table(mem, root, l1, l2).unwrap() != root,
        frame_in_use(frames, leaf_table(mem, root, l1, l2).unwrap() as int),
        mem.holds_page(leaf_table(mem, root, l1, l2).unwrap()),
        is_third(mem, root, leaf_table(mem, root, l1, l2).unwrap()),
        !is_second(mem, root, leaf_table(mem, root, l1, l2).unwrap()),
        forall|x: int, y: int|
            0 <= x < 512 && 0 <= y < 512 && #[trigger] leaf_table(mem, root, x, y) == leaf_table(
                mem,
                root,
                l1,
                l2,
            ) ==> x == l1 && y == l2,
{
    reveal(tidy);
    let u = leaf_table(mem, root, l1, l2).unwrap();
    if is_second(mem, root, u) {
        let x = choose|x: int| 0 <= x < 512 && #[trigger] child_of(mem, root, x) == Some(u);
        assert(leaf_table(mem, root, l1, l2) != child_of(mem, root, x));
    }
}

/// A space in which every place leads where it led in a tidy space is
/// tidy, as long as memory and frame table still fit and every frame that
/// was in use still is.
pub proof fn lemma_same_links_tidy(
    mem: MemoryView,
    frames: Seq<SegmentView>,
    root: usize,
    mem1: MemoryView,
    frames1: Seq<SegmentView>,
)
    requires
        tidy(mem, frames, root),
        fitting(mem1, frames1),
        forall|addr: int| #[trigger] frame_in_use(frames, addr) ==> frame_in_use(frames1, addr),
        forall|l1: int| 0 <= l1 < 512 ==> #[trigger] child_of(mem1, root, l1) == child_of(mem, root, l1),
        forall|l1: int, l2: int|
            0 <= l1 < 512 && 0 <= l2 < 512 ==> #[trigger] leaf_table(mem1, root, l1, l2) == leaf_table(
                mem,
                root,
                l1,
                l2,
            ),
    ensures
        tidy(mem1, frames1, root),
{
    reveal(tidy);
    assert forall|l1: int, l2: int, x: int|
        0 <= l1 < 512 && 0 <= l2 < 512 && 0 <= x < 512 && leaf_table(mem1, root, l1, l2) is Some implies #[trigger] leaf_table(
        mem1,
        root,
        l1,
        l2,
    ) != #[trigger] child_of(mem1, root, x) by {
        assert(leaf_table(mem, root, l1, l2) != child_of(mem, root, x));
    }
    assert forall|a: int, b: int|
        0 <= a < 512 && 0 <= b < 512 && child_of(mem1, root, a) is Some && #[trigger] child_of(mem1, root, a)
            == #[trigger] child_of(mem1, root, b) implies a == b by {
        assert(child_of(mem, root, a) == child_of(mem, root, b));
    }
    assert forall|a1: int, a2: int, b1: int, b2: int|
        0 <= a1 < 512 && 0 <= a2 < 512 && 0 <= b1 < 512 && 0 <= b2 < 512 && leaf_table(mem1, root, a1, a2) is Some
            && #[trigger] leaf_table(mem1, root, a1, a2) == #[trigger] leaf_table(mem1, root, b1, b2) implies a1
        == b1 && a2 == b2 by {
        assert(leaf_table(mem, root, a1, a2) == leaf_table(mem, root, b1, b2));
    }
}


/// The frame at `c` is a spare table: a page of the memory that is in use,
/// blank, not the root and not reached from it.
pub open spec fn spare(mem: MemoryView, frames: Seq<SegmentView>, root: usize, c: usize) -> bool {
    &&& mem.holds_page(c)
    &&& frame_in_use(frames, c as int)
    &&& c != root
    &&& !is_second(mem, root, c)
    &&& !is_third(mem, root, c)
    &&& forall|j: int| 0 <= j < 512 ==> #[trigger] mem.word(c, j) == 0
}

/// From `mem` to `after`, every word other than zero of a page in use has
/// been kept.
pub open spec fn kept(mem: MemoryView, after: MemoryView, frames: Seq<SegmentView>) -> bool {
    &&& after.base == mem.base
    &&& after.words.len() == mem.words.len()
    &&& forall|page: usize, j: int|
        mem.holds_page(page) && 0 <= j < 512 && frame_in_use(frames, page as int) && mem.word(page, j) != 0
            ==> #[trigger] after.word(page, j) == mem.word(page, j)
}

/// An entry leads where it led if its word is the same.
pub proof fn lemma_child_same(mem: MemoryView, after: MemoryView, t: usize, j: int)
    requires
        after.base == mem.base,
        after.words.len() == mem.words.len(),
        after.word(t, j) == mem.word(t, j),
    ensures
        child_of(after, t, j) == child_of(mem, t, j),
{
}

/// A place that leads on holds a word other than zero.
pub proof fn lemma_child_word(mem: MemoryView, t: usize, j: int)
    requires
        child_of(mem, t, j) is Some,
    ensures
        mem.word(t, j) != 0,
{
    if mem.word(t, j) == 0 {
        entry_at(mem, t, j).lemma_unused();
    }
}

/// Taking a blank page-table frame keeps a tidy space tidy. The frame was
/// free and is a spare table afterwards; no word of a page in use has
/// changed; what was spare is spare.
pub proof fn lemma_take_keeps_tidy(mem: MemoryView, frames: Seq<SegmentView>, root: usize)
    requires
        tidy(mem, frames, root),
        take_table_frame_spec(mem, frames).2 is Some,
    ensures
        ({
            let (mem1, frames1, r) = take_table_frame_spec(mem, frames);
            let a = r.unwrap().phys_addr;
            &&& tidy(mem1, frames1, root)
            &&& spare(mem1, frames1, root, a)
            &&& !frame_in_use(frames, a as int)
            &&& mem.holds_page(a)
            &&& mem1 == mem.zero_page(a)
            &&& mem1.base == mem.base && mem1.words.len() == mem.words.len()
            &&& frames1.len() == frames.len() && frames.len() > 0
            &&& frames1[0].first_page_addr == frames[0].first_page_addr
            &&& forall|addr: int| #[trigger] frame_in_use(frames, addr) ==> frame_in_use(frames1, addr)
            &&& forall|page: usize, j: int|
                mem.holds_page(page) && 0 <= j < 512 && page != a ==> #[trigger] mem1.word(page, j) == mem.word(
                    page,
                    j,
                )
            &&& forall|l1: int| 0 <= l1 < 512 ==> #[trigger] child_of(mem1, root, l1) == child_of(mem, root, l1)
            &&& forall|l1: int, l2: int|
                0 <= l1 < 512 && 0 <= l2 < 512 ==> #[trigger] leaf_table(mem1, root, l1, l2) == leaf_table(
                    mem,
                    root,
                    l1,
                    l2,
                )
        }),
{
    let (mem1, frames1, r) = take_table_frame_spec(mem, frames);
    let a = r.unwrap().phys_addr;
    lemma_tidy_root(mem, frames, root);
    lemma_table_alloc(frames, true, 1, FrameState::PageTable, 0);
    lemma_table_alloc_keeps_shape(frames, true, 1, FrameState::PageTable, 0);
    lemma_alloc_marks_run(frames, true, 1, FrameState::PageTable, 0, 0);
    lemma_backed_frame(mem, frames, a as int);
    if frame_in_use(frames, a as int) {
        lemma_alloc_spares_frames_in_use(frames, true, 1, FrameState::PageTable, 0, a as int);
    }
    assert forall|addr: int| #[trigger] frame_in_use(frames, addr) implies frame_in_use(frames1, addr) by {
        lemma_alloc_spares_frames_in_use(frames, true, 1, FrameState::PageTable, 0, addr);
    }
    assert forall|page: usize, j: int| mem.holds_page(page) && 0 <= j < 512 && page != a implies #[trigger] mem1.word(
        page,
        j,
    ) == mem.word(page, j) by {
        lemma_zero_page(mem, a, page, j);
    }
    assert forall|j: int| 0 <= j < 512 implies #[trigger] mem1.word(a, j) == 0 by {
        lemma_zero_page(mem, a, a, j);
    }
    assert forall|l1: int| 0 <= l1 < 512 implies #[trigger] child_of(mem1, root, l1) == child_of(mem, root, l1) by {
        lemma_child_same(mem, mem1, root, l1);
    }
    assert forall|l1: int, l2: int| 0 <= l1 < 512 && 0 <= l2 < 512 implies #[trigger] leaf_table(
        mem1,
        root,
        l1,
        l2,
    ) == leaf_table(mem, root, l1, l2) by {
        if child_of(mem, root, l1) is Some {
            lemma_tidy_second(mem, frames, root, l1);
            lemma_child_same(mem, mem1, child_of(mem, root, l1).unwrap(), l2);
        }
    }
    lemma_same_links_tidy(mem, frames, root, mem1, frames1);
    if is_second(mem1, root, a) {
        let x = choose|x: int| 0 <= x < 512 && #[trigger] child_of(mem1, root, x) == Some(a);
        lemma_tidy_second(mem, frames, root, x);
    }
    if is_third(mem1, root, a) {
        let (x, y) = choose|x: int, y: int|
            0 <= x < 512 && 0 <= y < 512 && #[trigger] leaf_table(mem1, root, x, y) == Some(a);
        lemma_tidy_third(mem, frames, root, x, y);
    }
}

/// A spare table stays spare where its words and every place have stayed
/// what they were.
pub proof fn lemma_spare_stays(
    mem: MemoryView,
    frames: Seq<SegmentView>,
    root: usize,
    after: MemoryView,
    frames1: Seq<SegmentView>,
    c: usize,
)
    requires
        spare(mem, frames, root, c),
        after.base == mem.base,
        after.words.len() == mem.words.len(),
        frame_in_use(frames1, c as int),
        forall|j: int| 0 <= j < 512 ==> #[trigger] after.word(c, j) == mem.word(c, j),
        forall|l1: int|
            0 <= l1 < 512 ==> #[trigger] child_of(after, root, l1) == child_of(mem, root, l1) || child_of(
                after,
                root,
                l1,
            ) != Some(c),
        forall|l1: int, l2: int|
            0 <= l1 < 512 && 0 <= l2 < 512 ==> #[trigger] leaf_table(after, root, l1, l2) == leaf_table(
                mem,
                root,
                l1,
                l2,
            ) || leaf_table(after, root, l1, l2) != Some(c),
    ensures
        spare(after, frames1, root, c),
{
    if is_second(after, root, c) {
        let x = choose|x: int| 0 <= x < 512 && #[trigger] child_of(after, root, x) == Some(c);
        assert(child_of(mem, root, x) == Some(c));
    }
    if is_third(after, root, c) {
        let (x, y) = choose|x: int, y: int|
            0 <= x < 512 && 0 <= y < 512 && #[trigger] leaf_table(after, root, x, y) == Some(c);
        assert(leaf_table(mem, root, x, y) == Some(c));
    }
}

/// Writing a word into a table reached in two steps keeps a tidy space
/// tidy: every place leads where it led.
pub proof fn lemma_write_third_keeps_tidy(
    mem: MemoryView,
    frames: Seq<SegmentView>,
    root: usize,
    u: usize,
    j: int,
    value: u64,
)
    requires
        tidy(mem, frames, root),
        is_third(mem, root, u),
        0 <= j < 512,
    ensures
        tidy(mem.write(u, j, value), frames, root),
        mem.holds_page(u),
        mem.write(u, j, value).word(u, j) == value,
        forall|page: usize, i: int|
            mem.holds_page(page) && 0 <= i < 512 && !(page == u && i == j) ==> #[trigger] mem.write(
                u,
                j,
                value,
            ).word(page, i) == mem.word(page, i),
        forall|l1: int|
            0 <= l1 < 512 ==> #[trigger] child_of(mem.write(u, j, value), root, l1) == child_of(mem, root, l1),
        forall|l1: int, l2: int|
            0 <= l1 < 512 && 0 <= l2 < 512 ==> #[trigger] leaf_table(mem.write(u, j, value), root, l1, l2)
                == leaf_table(mem, root, l1, l2),
{
    let after = mem.write(u, j, value);
    let (x, y) = choose|x: int, y: int|
        0 <= x < 512 && 0 <= y < 512 && #[trigger] leaf_table(mem, root, x, y) == Some(u);
    lemma_tidy_root(mem, frames, root);
    lemma_tidy_third(mem, frames, root, x, y);
    lemma_write(mem, u, j, value, u, j);
    assert forall|page: usize, i: int| mem.holds_page(page) && 0 <= i < 512 && !(page == u && i == j) implies #[trigger] after.word(
        page,
        i,
    ) == mem.word(page, i) by {
        lemma_write(mem, u, j, value, page, i);
    }
    assert forall|l1: int| 0 <= l1 < 512 implies #[trigger] child_of(after, root, l1) == child_of(mem, root, l1) by {
        lemma_child_same(mem, after, root, l1);
    }
    assert forall|l1: int, l2: int| 0 <= l1 < 512 && 0 <= l2 < 512 implies #[trigger] leaf_table(
        after,
        root,
        l1,
        l2,
    ) == leaf_table(mem, root, l1, l2) by {
        if child_of(mem, root, l1) is Some {
            let t = child_of(mem, root, l1).unwrap();
            lemma_tidy_second(mem, frames, root, l1);
            assert(t != u);
            lemma_child_same(mem, after, t, l2);
        }
    }
    reveal(tidy);
    lemma_same_links_tidy(mem, frames, root, after, frames);
}


/// The word that links an entry to the table at `c`.
pub open spec fn link_to(c: usize) -> u64 {
    PageTableEntry::encode(c as u64, crate::page_table::FLAG_V).0
}

/// Linking an unused entry of the root to a spare table keeps a tidy space
/// tidy. The entry leads to the table, from which nothing leads on; every
/// other place leads where it led.
pub proof fn lemma_link_root_keeps_tidy(
    mem: MemoryView,
    frames: Seq<SegmentView>,
    root: usize,
    j: int,
    c: usize,
)
    requires
        tidy(mem, frames, root),
        spare(mem, frames, root, c),
        0 <= j < 512,
        mem.word(root, j) == 0,
    ensures
        tidy(mem.write(root, j, link_to(c)), frames, root),
        child_of(mem.write(root, j, link_to(c)), root, j) == Some(c),
        forall|page: usize, i: int|
            mem.holds_page(page) && 0 <= i < 512 && !(page == root && i == j) ==> #[trigger] mem.write(
                root,
                j,
                link_to(c),
            ).word(page, i) == mem.word(page, i),
        forall|l1: int|
            0 <= l1 < 512 && l1 != j ==> #[trigger] child_of(mem.write(root, j, link_to(c)), root, l1)
                == child_of(mem, root, l1),
        forall|l1: int, l2: int|
            0 <= l1 < 512 && 0 <= l2 < 512 ==> #[trigger] leaf_table(mem.write(root, j, link_to(c)), root, l1, l2)
                == if l1 == j {
                None
            } else {
                leaf_table(mem, root, l1, l2)
            },
{
    let after = mem.write(root, j, link_to(c));
    lemma_tidy_root(mem, frames, root);
    lemma_link_entry(mem, c);
    lemma_write(mem, root, j, link_to(c), root, j);
    assert forall|page: usize, i: int| mem.holds_page(page) && 0 <= i < 512 && !(page == root && i == j) implies #[trigger] after.word(
        page,
        i,
    ) == mem.word(page, i) by {
        lemma_write(mem, root, j, link_to(c), page, i);
    }
    assert(child_of(after, root, j) == Some(c));
    assert forall|l1: int| 0 <= l1 < 512 && l1 != j implies #[trigger] child_of(after, root, l1) == child_of(
        mem,
        root,
        l1,
    ) by {
        lemma_child_same(mem, after, root, l1);
    }
    assert forall|l1: int, l2: int| 0 <= l1 < 512 && 0 <= l2 < 512 implies #[trigger] leaf_table(
        after,
        root,
        l1,
        l2,
    ) == if l1 == j {
        None
    } else {
        leaf_table(mem, root, l1, l2)
    } by {
        if l1 == j {
            assert(after.word(c, l2) == 0);
            entry_at(after, c, l2).lemma_unused();
        } else if child_of(mem, root, l1) is Some {
            lemma_tidy_second(mem, frames, root, l1);
            lemma_child_same(mem, after, child_of(mem, root, l1).unwrap(), l2);
        }
    }
    if mem.word(root, j) == 0 {
        entry_at(mem, root, j).lemma_unused();
    }
    reveal(tidy);
    assert forall|l1: int| 0 <= l1 < 512 implies (#[trigger] child_of(after, root, l1) matches Some(t) ==> t
        != root && frame_in_use(frames, t as int)) by {
        if l1 != j {
            assert(child_of(after, root, l1) == child_of(mem, root, l1));
        }
    }
    assert forall|l1: int, l2: int| 0 <= l1 < 512 && 0 <= l2 < 512 implies (#[trigger] leaf_table(
        after,
        root,
        l1,
        l2,
    ) matches Some(u) ==> u != root && frame_in_use(frames, u as int)) by {
        if l1 != j {
            assert(leaf_table(after, root, l1, l2) == leaf_table(mem, root, l1, l2));
        }
    }
    assert forall|l1: int, l2: int, x: int|
        0 <= l1 < 512 && 0 <= l2 < 512 && 0 <= x < 512 && leaf_table(after, root, l1, l2) is Some implies #[trigger] leaf_table(
        after,
        root,
        l1,
        l2,
    ) != #[trigger] child_of(after, root, x) by {
        assert(leaf_table(after, root, l1, l2) == leaf_table(mem, root, l1, l2));
        if x == j {
            if leaf_table(mem, root, l1, l2) == Some(c) {
                assert(is_third(mem, root, c));
            }
        } else {
            assert(child_of(after, root, x) == child_of(mem, root, x));
            assert(leaf_table(mem, root, l1, l2) != child_of(mem, root, x));
        }
    }
    assert forall|a: int, b: int|
        0 <= a < 512 && 0 <= b < 512 && child_of(after, root, a) is Some && #[trigger] child_of(after, root, a)
            == #[trigger] child_of(after, root, b) implies a == b by {
        if a != j && b != j {
            assert(child_of(mem, root, a) == child_of(mem, root, b));
        } else if a != j {
            assert(child_of(mem, root, a) == Some(c));
            assert(is_second(mem, root, c));
        } else if b != j {
            assert(child_of(mem, root, b) == Some(c));
            assert(is_second(mem, root, c));
        }
    }
    assert forall|a1: int, a2: int, b1: int, b2: int|
        0 <= a1 < 512 && 0 <= a2 < 512 && 0 <= b1 < 512 && 0 <= b2 < 512 && leaf_table(after, root, a1, a2) is Some
            && #[trigger] leaf_table(after, root, a1, a2) == #[trigger] leaf_table(after, root, b1, b2) implies a1
        == b1 && a2 == b2 by {
        assert(leaf_table(after, root, a1, a2) == leaf_table(mem, root, a1, a2));
        assert(leaf_table(after, root, b1, b2) == leaf_table(mem, root, b1, b2));
    }
}

/// Linking an unused entry of a table reached in one step to a spare table
/// keeps a tidy space tidy. The entry leads to the table; every other
/// place leads where it led.
pub proof fn lemma_link_second_keeps_tidy(
    mem: MemoryView,
    frames: Seq<SegmentView>,
    root: usize,
    at: int,
    j: int,
    c: usize,
)
    requires
        tidy(mem, frames, root),
        spare(mem, frames, root, c),
        0 <= at < 512,
        0 <= j < 512,
        child_of(mem, root, at) is Some,
        mem.word(child_of(mem, root, at).unwrap(), j) == 0,
    ensures
        ({
            let t = child_of(mem, root, at).unwrap();
            let after = mem.write(t, j, link_to(c));
            &&& tidy(after, frames, root)
            &&& child_of(after, t, j) == Some(c)
            &&& forall|page: usize, i: int|
                mem.holds_page(page) && 0 <= i < 512 && !(page == t && i == j) ==> #[trigger] after.word(page, i)
                    == mem.word(page, i)
            &&& forall|l1: int| 0 <= l1 < 512 ==> #[trigger] child_of(after, root, l1) == child_of(mem, root, l1)
            &&& forall|l1: int, l2: int|
                0 <= l1 < 512 && 0 <= l2 < 512 ==> #[trigger] leaf_table(after, root, l1, l2) == if l1 == at
                    && l2 == j {
                    Some(c)
                } else {
                    leaf_table(mem, root, l1, l2)
                }
        }),
{
    let t = child_of(mem, root, at).unwrap();
    let after = mem.write(t, j, link_to(c));
    lemma_tidy_root(mem, frames, root);
    lemma_tidy_second(mem, frames, root, at);
    lemma_link_entry(mem, c);
    lemma_write(mem, t, j, link_to(c), t, j);
    assert forall|page: usize, i: int| mem.holds_page(page) && 0 <= i < 512 && !(page == t && i == j) implies #[trigger] after.word(
        page,
        i,
    ) == mem.word(page, i) by {
        lemma_write(mem, t, j, link_to(c), page, i);
    }
    assert forall|l1: int| 0 <= l1 < 512 implies #[trigger] child_of(after, root, l1) == child_of(mem, root, l1) by {
        lemma_child_same(mem, after, root, l1);
    }
    assert forall|l1: int, l2: int| 0 <= l1 < 512 && 0 <= l2 < 512 implies #[trigger] leaf_table(
        after,
        root,
        l1,
        l2,
    ) == if l1 == at && l2 == j {
        Some(c)
    } else {
        leaf_table(mem, root, l1, l2)
    } by {
        if child_of(mem, root, l1) is Some {
            let s = child_of(mem, root, l1).unwrap();
            lemma_tidy_second(mem, frames, root, l1);
            if !(l1 == at && l2 == j) {
                if s == t {
                    assert(l1 == at);
                }
                lemma_child_same(mem, after, s, l2);
            }
        }
    }
    reveal(tidy);
    assert forall|l1: int, l2: int| 0 <= l1 < 512 && 0 <= l2 < 512 implies (#[trigger] leaf_table(
        after,
        root,
        l1,
        l2,
    ) matches Some(u) ==> u != root && frame_in_use(frames, u as int)) by {
        if !(l1 == at && l2 == j) {
            assert(leaf_table(after, root, l1, l2) == leaf_table(mem, root, l1, l2));
        }
    }
    assert forall|l1: int, l2: int, x: int|
        0 <= l1 < 512 && 0 <= l2 < 512 && 0 <= x < 512 && leaf_table(after, root, l1, l2) is Some implies #[trigger] leaf_table(
        after,
        root,
        l1,
        l2,
    ) != #[trigger] child_of(after, root, x) by {
        assert(child_of(after, root, x) == child_of(mem, root, x));
        if l1 == at && l2 == j {
            if child_of(mem, root, x) == Some(c) {
                assert(is_second(mem, root, c));
            }
        } else {
            assert(leaf_table(after, root, l1, l2) == leaf_table(mem, root, l1, l2));
            assert(leaf_table(mem, root, l1, l2) != child_of(mem, root, x));
        }
    }
    assert forall|a: int, b: int|
        0 <= a < 512 && 0 <= b < 512 && child_of(after, root, a) is Some && #[trigger] child_of(after, root, a)
            == #[trigger] child_of(after, root, b) implies a == b by {
        assert(child_of(mem, root, a) == child_of(mem, root, b));
    }
    assert forall|a1: int, a2: int, b1: int, b2: int|
        0 <= a1 < 512 && 0 <= a2 < 512 && 0 <= b1 < 512 && 0 <= b2 < 512 && leaf_table(after, root, a1, a2) is Some
            && #[trigger] leaf_table(after, root, a1, a2) == #[trigger] leaf_table(after, root, b1, b2) implies a1
        == b1 && a2 == b2 by {
        let here_a = a1 == at && a2 == j;
        let here_b = b1 == at && b2 == j;
        if !here_a && !here_b {
            assert(leaf_table(mem, root, a1, a2) == leaf_table(mem, root, b1, b2));
        } else if !here_a {
            assert(leaf_table(mem, root, a1, a2) == Some(c));
            assert(is_third(mem, root, c));
        } else if !here_b {
            assert(leaf_table(mem, root, b1, b2) == Some(c));
            assert(is_third(mem, root, c));
        }
    }
}


/// Keeping is transitive, as long as the frames in use stay in use.
pub proof fn lemma_kept_chain(
    mem: MemoryView,
    mid: MemoryView,
    after: MemoryView,
    frames: Seq<SegmentView>,
    frames1: Seq<SegmentView>,
)
    requires
        kept(mem, mid, frames),
        kept(mid, after, frames1),
        forall|addr: int| #[trigger] frame_in_use(frames, addr) ==> frame_in_use(frames1, addr),
    ensures
        kept(mem, after, frames),
{
    assert forall|page: usize, j: int|
        mem.holds_page(page) && 0 <= j < 512 && frame_in_use(frames, page as int) && mem.word(page, j) != 0 implies #[trigger] after.word(
        page,
        j,
    ) == mem.word(page, j) by {
        assert(mid.word(page, j) == mem.word(page, j));
        assert(mid.holds_page(page));
    }
}

/// In a tidy space, keeping the words keeps the links: every place that
/// led to a table leads to it still, and every mapping still stands.
pub proof fn lemma_kept_links(mem: MemoryView, frames: Seq<SegmentView>, root: usize, after: MemoryView)
    requires
        tidy(mem, frames, root),
        kept(mem, after, frames),
    ensures
        forall|l1: int|
            0 <= l1 < 512 && child_of(mem, root, l1) is Some ==> #[trigger] child_of(after, root, l1)
                == child_of(mem, root, l1),
        forall|l1: int, l2: int|
            0 <= l1 < 512 && 0 <= l2 < 512 && leaf_table(mem, root, l1, l2) is Some ==> #[trigger] leaf_table(
                after,
                root,
                l1,
                l2,
            ) == leaf_table(mem, root, l1, l2),
        forall|l1: int, l2: int, l3: int|
            0 <= l1 < 512 && 0 <= l2 < 512 && 0 <= l3 < 512 && leaf_table(mem, root, l1, l2) is Some && mem.word(
                leaf_table(mem, root, l1, l2).unwrap(),
                l3,
            ) != 0 ==> #[trigger] after.word(leaf_table(mem, root, l1, l2).unwrap(), l3) == mem.word(
                leaf_table(mem, root, l1, l2).unwrap(),
                l3,
            ),
{
    lemma_tidy_root(mem, frames, root);
    assert forall|l1: int| 0 <= l1 < 512 && child_of(mem, root, l1) is Some implies #[trigger] child_of(
        after,
        root,
        l1,
    ) == child_of(mem, root, l1) by {
        lemma_child_word(mem, root, l1);
        assert(after.word(root, l1) == mem.word(root, l1));
        lemma_child_same(mem, after, root, l1);
    }
    assert forall|l1: int, l2: int|
        0 <= l1 < 512 && 0 <= l2 < 512 && leaf_table(mem, root, l1, l2) is Some implies #[trigger] leaf_table(
        after,
        root,
        l1,
        l2,
    ) == leaf_table(mem, root, l1, l2) by {
        let t = child_of(mem, root, l1).unwrap();
        lemma_tidy_second(mem, frames, root, l1);
        lemma_child_word(mem, t, l2);
        assert(child_of(after, root, l1) == child_of(mem, root, l1));
        assert(after.word(t, l2) == mem.word(t, l2));
        lemma_child_same(mem, after, t, l2);
    }
    assert forall|l1: int, l2: int, l3: int|
        0 <= l1 < 512 && 0 <= l2 < 512 && 0 <= l3 < 512 && leaf_table(mem, root, l1, l2) is Some && mem.word(
            leaf_table(mem, root, l1, l2).unwrap(),
            l3,
        ) != 0 implies #[trigger] after.word(leaf_table(mem, root, l1, l2).unwrap(), l3) == mem.word(
        leaf_table(mem, root, l1, l2).unwrap(),
        l3,
    ) by {
        lemma_tidy_third(mem, frames, root, l1, l2);
    }
}

/// The place in the self-referencing window of the frame at `a`: the two
/// indices under root entry 280 that the frame's index in the frame table
/// selects.
pub open spec fn window_slot(frames: Seq<SegmentView>, a: usize) -> (int, int) {
    let pages_offset = (a - frames[0].first_page_addr) / 4096;
    ((pages_offset / 512) % 512, pages_offset % 512)
}

/// What a meta-allocation that succeeds makes of a tidy space: the space
/// is tidy, the frame it returns is a spare table that was free before,
/// every word other than zero of a page in use has been kept, and no word
/// of the root or of a table reached in one step, other than the window
/// table, has changed.
pub proof fn lemma_meta_allocate_keeps_tidy(mem: MemoryView, frames: Seq<SegmentView>, root: usize)
    requires
        tidy(mem, frames, root),
        crate::page_table::meta_allocate_spec(mem, frames, root).2 is Some,
    ensures
        ({
            let (after, frames1, r) = crate::page_table::meta_allocate_spec(mem, frames, root);
            let a = r.unwrap().phys_addr;
            &&& tidy(after, frames1, root)
            &&& spare(after, frames1, root, a)
            &&& !frame_in_use(frames, a as int)
            &&& kept(mem, after, frames)
            &&& forall|addr: int| #[trigger] frame_in_use(frames, addr) ==> frame_in_use(frames1, addr)
            &&& forall|j: int| 0 <= j < 512 ==> #[trigger] after.word(root, j) == mem.word(root, j)
            &&& forall|l1: int, j: int|
                0 <= l1 < 512 && l1 != 280 && 0 <= j < 512 && child_of(mem, root, l1) is Some ==> #[trigger] after.word(
                    child_of(mem, root, l1).unwrap(),
                    j,
                ) == mem.word(child_of(mem, root, l1).unwrap(), j)
            &&& forall|c: usize| #[trigger] spare(mem, frames, root, c) ==> spare(after, frames1, root, c)
            &&& mapping(
                after,
                root,
                280,
                window_slot(frames, a).0,
                window_slot(frames, a).1,
            ) == Some(a as u64)
        }),
{
    reveal(crate::page_table::meta_allocate_spec);
    let (m1, f1, r1) = take_table_frame_spec(mem, frames);
    let a = r1.unwrap().phys_addr;
    lemma_take_keeps_tidy(mem, frames, root);
    let base = frames[0].first_page_addr;
    let pages_offset = (a - base) / 4096;
    let l1w = (pages_offset / 512) % 512;
    let l2w = pages_offset % 512;
    let window = child_of(m1, root, 280).unwrap();
    if entry_at(m1, window, l1w).is_unused_spec() {
        lemma_meta_new_window_table(mem, frames, root, l1w);
    } else {
        lemma_meta_window_slot(mem, frames, root, l1w, l2w);
    }
}

/// The meta-allocation that has to make a new window table.
#[verifier::spinoff_prover]
#[verifier::rlimit(100)]
proof fn lemma_meta_new_window_table(mem: MemoryView, frames: Seq<SegmentView>, root: usize, l1w: int)
    requires
        tidy(mem, frames, root),
        0 <= l1w < 512,
        take_table_frame_spec(mem, frames).2 is Some,
        child_of(take_table_frame_spec(mem, frames).0, root, 280) is Some,
        take_table_frame_spec(mem, frames).0.word(
            child_of(take_table_frame_spec(mem, frames).0, root, 280).unwrap(),
            l1w,
        ) == 0,
        take_table_frame_spec(take_table_frame_spec(mem, frames).0, take_table_frame_spec(mem, frames).1).2 is Some,
    ensures
        ({
            let (m1, f1, r1) = take_table_frame_spec(mem, frames);
            let a = r1.unwrap().phys_addr;
            let window = child_of(m1, root, 280).unwrap();
            let (m2, f2, r2) = take_table_frame_spec(m1, f1);
            let inter = r2.unwrap().phys_addr;
            let after = m2.write(window, l1w, link_to(inter)).write(
                inter,
                0,
                PageTableEntry::encode(a as u64, crate::page_table::window_flags()).0,
            ).write(inter, 1, link_to(inter));
            &&& tidy(after, f2, root)
            &&& spare(after, f2, root, a)
            &&& !frame_in_use(frames, a as int)
            &&& kept(mem, after, frames)
            &&& forall|addr: int| #[trigger] frame_in_use(frames, addr) ==> frame_in_use(f2, addr)
            &&& forall|j: int| 0 <= j < 512 ==> #[trigger] after.word(root, j) == mem.word(root, j)
            &&& forall|l1: int, j: int|
                0 <= l1 < 512 && l1 != 280 && 0 <= j < 512 && child_of(mem, root, l1) is Some ==> #[trigger] after.word(
                    child_of(mem, root, l1).unwrap(),
                    j,
                ) == mem.word(child_of(mem, root, l1).unwrap(), j)
            &&& forall|c: usize| #[trigger] spare(mem, frames, root, c) ==> spare(after, f2, root, c)
            &&& mapping(after, root, 280, l1w, 0) == Some(a as u64)
        }),
{
    let (m1, f1, r1) = take_table_frame_spec(mem, frames);
    let a = r1.unwrap().phys_addr;
    lemma_tidy_root(mem, frames, root);
    lemma_take_keeps_tidy(mem, frames, root);
    let window = child_of(m1, root, 280).unwrap();
    lemma_tidy_second(m1, f1, root, 280);
    lemma_tidy_second(mem, frames, root, 280);
    let (m2, f2, r2) = take_table_frame_spec(m1, f1);
    let inter = r2.unwrap().phys_addr;
    lemma_take_keeps_tidy(m1, f1, root);
    lemma_spare_stays(m1, f1, root, m2, f2, a);
    assert(m2.word(window, l1w) == 0);
    lemma_link_second_keeps_tidy(m2, f2, root, 280, l1w, inter);
    let m3 = m2.write(window, l1w, link_to(inter));
    assert(is_third(m3, root, inter)) by {
        assert(leaf_table(m3, root, 280, l1w) == Some(inter));
    }
    let v0 = PageTableEntry::encode(a as u64, crate::page_table::window_flags()).0;
    lemma_write_third_keeps_tidy(m3, f2, root, inter, 0, v0);
    let m4 = m3.write(inter, 0, v0);
    assert(is_third(m4, root, inter)) by {
        assert(leaf_table(m4, root, 280, l1w) == Some(inter));
    }
    lemma_write_third_keeps_tidy(m4, f2, root, inter, 1, link_to(inter));
    let after = m4.write(inter, 1, link_to(inter));
    assert(window != a && window != inter && root != inter && root != a && a != inter);
    assert(mem.word(window, l1w) == 0);
    assert forall|page: usize, j: int|
        mem.holds_page(page) && 0 <= j < 512 && page != a && page != inter && !(page == window && j == l1w) implies #[trigger] after.word(
        page,
        j,
    ) == mem.word(page, j) by {
        assert(m1.word(page, j) == mem.word(page, j));
        assert(m2.word(page, j) == m1.word(page, j));
        assert(m3.word(page, j) == m2.word(page, j));
        assert(m4.word(page, j) == m3.word(page, j));
    }
    assert forall|j: int| 0 <= j < 512 implies #[trigger] after.word(a, j) == 0 by {
        assert(m1.word(a, j) == 0);
        assert(m2.word(a, j) == m1.word(a, j));
        assert(m3.word(a, j) == m2.word(a, j));
        assert(m4.word(a, j) == m3.word(a, j));
    }
    assert forall|l1: int| 0 <= l1 < 512 implies #[trigger] child_of(after, root, l1) == child_of(mem, root, l1) by {
        assert(child_of(m1, root, l1) == child_of(mem, root, l1));
        assert(child_of(m2, root, l1) == child_of(m1, root, l1));
        assert(child_of(m3, root, l1) == child_of(m2, root, l1));
        assert(child_of(m4, root, l1) == child_of(m3, root, l1));
    }
    assert forall|l1: int, l2: int| 0 <= l1 < 512 && 0 <= l2 < 512 implies #[trigger] leaf_table(
        after,
        root,
        l1,
        l2,
    ) == leaf_table(mem, root, l1, l2) || (leaf_table(after, root, l1, l2) == Some(inter) && inter != a) by {
        assert(leaf_table(m1, root, l1, l2) == leaf_table(mem, root, l1, l2));
        assert(leaf_table(m2, root, l1, l2) == leaf_table(m1, root, l1, l2));
        assert(leaf_table(m4, root, l1, l2) == leaf_table(m3, root, l1, l2));
    }
    assert(is_second(mem, root, window)) by {
        assert(child_of(mem, root, 280) == Some(window));
    }
    assert(!frame_in_use(frames, inter as int));
    lemma_meta_facts(mem, frames, root, after, f2, a, inter, window, l1w);
    assert(leaf_table(after, root, 280, l1w) == Some(inter));
    assert(after.word(inter, 0) == v0);
    crate::page_table::bootstrap::lemma_window_entry(a);
}

/// The meta-allocation that finds its window table in place.
#[verifier::spinoff_prover]
#[verifier::rlimit(100)]
proof fn lemma_meta_window_slot(mem: MemoryView, frames: Seq<SegmentView>, root: usize, l1w: int, l2w: int)
    requires
        tidy(mem, frames, root),
        0 <= l1w < 512,
        0 <= l2w < 512,
        take_table_frame_spec(mem, frames).2 is Some,
        leaf_table(take_table_frame_spec(mem, frames).0, root, 280, l1w) is Some,
        take_table_frame_spec(mem, frames).0.word(
            leaf_table(take_table_frame_spec(mem, frames).0, root, 280, l1w).unwrap(),
            l2w,
        ) == 0,
    ensures
        ({
            let (m1, f1, r1) = take_table_frame_spec(mem, frames);
            let a = r1.unwrap().phys_addr;
            let leaves = leaf_table(m1, root, 280, l1w).unwrap();
            let after = m1.write(
                leaves,
                l2w,
                PageTableEntry::encode(a as u64, crate::page_table::window_flags()).0,
            );
            &&& tidy(after, f1, root)
            &&& spare(after, f1, root, a)
            &&& !frame_in_use(frames, a as int)
            &&& kept(mem, after, frames)
            &&& forall|addr: int| #[trigger] frame_in_use(frames, addr) ==> frame_in_use(f1, addr)
            &&& forall|j: int| 0 <= j < 512 ==> #[trigger] after.word(root, j) == mem.word(root, j)
            &&& forall|l1: int, j: int|
                0 <= l1 < 512 && l1 != 280 && 0 <= j < 512 && child_of(mem, root, l1) is Some ==> #[trigger] after.word(
                    child_of(mem, root, l1).unwrap(),
                    j,
                ) == mem.word(child_of(mem, root, l1).unwrap(), j)
            &&& forall|c: usize| #[trigger] spare(mem, frames, root, c) ==> spare(after, f1, root, c)
            &&& mapping(after, root, 280, l1w, l2w) == Some(a as u64)
        }),
{
    let (m1, f1, r1) = take_table_frame_spec(mem, frames);
    let a = r1.unwrap().phys_addr;
    lemma_tidy_root(mem, frames, root);
    lemma_take_keeps_tidy(mem, frames, root);
    let leaves = leaf_table(m1, root, 280, l1w).unwrap();
    lemma_tidy_third(m1, f1, root, 280, l1w);
    assert(leaf_table(mem, root, 280, l1w) == Some(leaves));
    lemma_tidy_third(mem, frames, root, 280, l1w);
    let v0 = PageTableEntry::encode(a as u64, crate::page_table::window_flags()).0;
    lemma_write_third_keeps_tidy(m1, f1, root, leaves, l2w, v0);
    let after = m1.write(leaves, l2w, v0);
    assert(leaves != a && leaves != root);
    assert(mem.word(leaves, l2w) == 0);
    assert forall|page: usize, j: int|
        mem.holds_page(page) && 0 <= j < 512 && page != a && !(page == leaves && j == l2w) implies #[trigger] after.word(
        page,
        j,
    ) == mem.word(page, j) by {
        assert(m1.word(page, j) == mem.word(page, j));
    }
    assert forall|j: int| 0 <= j < 512 implies #[trigger] after.word(a, j) == 0 by {
        assert(m1.word(a, j) == 0);
    }
    assert forall|l1: int| 0 <= l1 < 512 implies #[trigger] child_of(after, root, l1) == child_of(mem, root, l1) by {
        assert(child_of(m1, root, l1) == child_of(mem, root, l1));
    }
    assert forall|l1: int, l2: int| 0 <= l1 < 512 && 0 <= l2 < 512 implies #[trigger] leaf_table(
        after,
        root,
        l1,
        l2,
    ) == leaf_table(mem, root, l1, l2) by {
        assert(leaf_table(m1, root, l1, l2) == leaf_table(mem, root, l1, l2));
    }
    lemma_meta_facts(mem, frames, root, after, f1, a, a, leaves, l2w);
    assert(leaf_table(after, root, 280, l1w) == Some(leaves));
    assert(after.word(leaves, l2w) == v0);
    crate::page_table::bootstrap::lemma_window_entry(a);
}

/// The bookkeeping of a meta-allocation: a space that is tidy again and
/// differs from a tidy space only in the pages of the frame `a` and of a
/// second frame `inter` that were free (`inter` is `a` again where only one
/// frame was taken), in one word that was zero, and in links to `inter`,
/// keeps what the meta-allocation has to keep.
proof fn lemma_meta_facts(
    mem: MemoryView,
    frames: Seq<SegmentView>,
    root: usize,
    after: MemoryView,
    frames1: Seq<SegmentView>,
    a: usize,
    inter: usize,
    written: usize,
    index: int,
)
    requires
        tidy(mem, frames, root),
        tidy(after, frames1, root),
        after.base == mem.base,
        after.words.len() == mem.words.len(),
        mem.holds_page(a),
        mem.holds_page(inter),
        mem.holds_page(written),
        !frame_in_use(frames, a as int),
        !frame_in_use(frames, inter as int),
        frame_in_use(frames1, a as int),
        a != root,
        written != root,
        written != a,
        0 <= index < 512,
        mem.word(written, index) == 0 || !frame_in_use(frames, written as int),
        is_second(mem, root, written) || is_third(mem, root, written),
        is_second(mem, root, written) ==> child_of(mem, root, 280) == Some(written),
        forall|addr: int| #[trigger] frame_in_use(frames, addr) ==> frame_in_use(frames1, addr),
        forall|j: int| 0 <= j < 512 ==> #[trigger] after.word(a, j) == 0,
        forall|page: usize, j: int|
            mem.holds_page(page) && 0 <= j < 512 && page != a && page != inter && !(page == written && j == index)
                ==> #[trigger] after.word(page, j) == mem.word(page, j),
        forall|l1: int| 0 <= l1 < 512 ==> #[trigger] child_of(after, root, l1) == child_of(mem, root, l1),
        forall|l1: int, l2: int|
            0 <= l1 < 512 && 0 <= l2 < 512 ==> #[trigger] leaf_table(after, root, l1, l2) == leaf_table(
                mem,
                root,
                l1,
                l2,
            ) || (leaf_table(after, root, l1, l2) == Some(inter) && inter != a),
    ensures
        spare(after, frames1, root, a),
        kept(mem, after, frames),
        forall|j: int| 0 <= j < 512 ==> #[trigger] after.word(root, j) == mem.word(root, j),
        forall|l1: int, j: int|
            0 <= l1 < 512 && l1 != 280 && 0 <= j < 512 && child_of(mem, root, l1) is Some ==> #[trigger] after.word(
                child_of(mem, root, l1).unwrap(),
                j,
            ) == mem.word(child_of(mem, root, l1).unwrap(), j),
        forall|c: usize| #[trigger] spare(mem, frames, root, c) ==> spare(after, frames1, root, c),
{
    lemma_tidy_root(mem, frames, root);
    assert(root != inter);
    if is_second(after, root, a) {
        let x = choose|x: int| 0 <= x < 512 && #[trigger] child_of(after, root, x) == Some(a);
        assert(child_of(mem, root, x) == Some(a));
        lemma_tidy_second(mem, frames, root, x);
    }
    if is_third(after, root, a) {
        let (x, y) = choose|x: int, y: int|
            0 <= x < 512 && 0 <= y < 512 && #[trigger] leaf_table(after, root, x, y) == Some(a);
        assert(leaf_table(mem, root, x, y) == Some(a));
        lemma_tidy_third(mem, frames, root, x, y);
    }
    assert forall|l1: int, j: int|
        0 <= l1 < 512 && l1 != 280 && 0 <= j < 512 && child_of(mem, root, l1) is Some implies #[trigger] after.word(
        child_of(mem, root, l1).unwrap(),
        j,
    ) == mem.word(child_of(mem, root, l1).unwrap(), j) by {
        let t = child_of(mem, root, l1).unwrap();
        lemma_tidy_second(mem, frames, root, l1);
        if t == written {
            assert(child_of(mem, root, 280) == child_of(mem, root, l1));
        }
    }
    assert forall|c: usize| #[trigger] spare(mem, frames, root, c) implies spare(after, frames1, root, c) by {
        assert(c != a && c != inter && c != written);
        assert forall|j: int| 0 <= j < 512 implies #[trigger] after.word(c, j) == 0 by {
            assert(after.word(c, j) == mem.word(c, j));
        }
        if is_second(after, root, c) {
            let x = choose|x: int| 0 <= x < 512 && #[trigger] child_of(after, root, x) == Some(c);
            assert(child_of(mem, root, x) == Some(c));
        }
        if is_third(after, root, c) {
            let (x, y) = choose|x: int, y: int|
                0 <= x < 512 && 0 <= y < 512 && #[trigger] leaf_table(after, root, x, y) == Some(c);
            assert(leaf_table(mem, root, x, y) == Some(c));
        }
    }
}


/// Writing into a word that was zero keeps the words other than zero.
pub proof fn lemma_write_zero_kept(mem: MemoryView, frames: Seq<SegmentView>, page: usize, j: int, value: u64)
    requires
        mem.wf(),
        mem.holds_page(page),
        0 <= j < 512,
        mem.word(page, j) == 0,
    ensures
        kept(mem, mem.write(page, j, value), frames),
{
    assert forall|other: usize, i: int|
        mem.holds_page(other) && 0 <= i < 512 && frame_in_use(frames, other as int) && mem.word(other, i) != 0 implies #[trigger] mem.write(
        page,
        j,
        value,
    ).word(other, i) == mem.word(other, i) by {
        lemma_write(mem, page, j, value, other, i);
    }
}

/// What a step down from the root that succeeds makes of a tidy space:
/// the space is tidy, the entry leads to the table returned, every frame
/// in use is in use still, and every word other than zero of a page in use
/// has been kept.
pub proof fn lemma_descend_root(mem: MemoryView, frames: Seq<SegmentView>, root: usize, l1: int)
    requires
        tidy(mem, frames, root),
        0 <= l1 < 512,
        crate::page_table::descend_spec(mem, frames, root, root, l1).2 is Some,
    ensures
        ({
            let (after, frames1, r) = crate::page_table::descend_spec(mem, frames, root, root, l1);
            &&& tidy(after, frames1, root)
            &&& child_of(after, root, l1) == r
            &&& kept(mem, after, frames)
            &&& forall|addr: int| #[trigger] frame_in_use(frames, addr) ==> frame_in_use(frames1, addr)
        }),
{
    reveal(crate::page_table::descend_spec);
    lemma_tidy_root(mem, frames, root);
    if entry_at(mem, root, l1).is_unused_spec() {
        let (m1, f1, r1) = crate::page_table::meta_allocate_spec(mem, frames, root);
        let a = r1.unwrap().phys_addr;
        lemma_meta_allocate_keeps_tidy(mem, frames, root);
        assert(m1.word(root, l1) == 0);
        lemma_link_root_keeps_tidy(m1, f1, root, l1, a);
        lemma_tidy_root(m1, f1, root);
        lemma_write_zero_kept(m1, f1, root, l1, link_to(a));
        lemma_kept_chain(mem, m1, m1.write(root, l1, link_to(a)), frames, f1);
    }
}

/// What a step down from a table reached in one step, other than the
/// window table, makes of a tidy space when it succeeds: the space is
/// tidy, the entry leads to the table returned, the root leads where it
/// led, every frame in use is in use still, and every word other than zero
/// of a page in use has been kept.
pub proof fn lemma_descend_second(mem: MemoryView, frames: Seq<SegmentView>, root: usize, l1: int, l2: int)
    requires
        tidy(mem, frames, root),
        0 <= l1 < 512,
        l1 != 280,
        0 <= l2 < 512,
        child_of(mem, root, l1) is Some,
        crate::page_table::descend_spec(mem, frames, root, child_of(mem, root, l1).unwrap(), l2).2 is Some,
    ensures
        ({
            let (after, frames1, r) = crate::page_table::descend_spec(
                mem,
                frames,
                root,
                child_of(mem, root, l1).unwrap(),
                l2,
            );
            &&& tidy(after, frames1, root)
            &&& child_of(after, root, l1) == child_of(mem, root, l1)
            &&& leaf_table(after, root, l1, l2) == r
            &&& kept(mem, after, frames)
            &&& forall|addr: int| #[trigger] frame_in_use(frames, addr) ==> frame_in_use(frames1, addr)
        }),
{
    reveal(crate::page_table::descend_spec);
    let t = child_of(mem, root, l1).unwrap();
    lemma_tidy_root(mem, frames, root);
    lemma_tidy_second(mem, frames, root, l1);
    if entry_at(mem, t, l2).is_unused_spec() {
        let (m1, f1, r1) = crate::page_table::meta_allocate_spec(mem, frames, root);
        let a = r1.unwrap().phys_addr;
        lemma_meta_allocate_keeps_tidy(mem, frames, root);
        assert(m1.word(root, l1) == mem.word(root, l1));
        lemma_child_same(mem, m1, root, l1);
        assert(m1.word(t, l2) == mem.word(t, l2));
        lemma_link_second_keeps_tidy(m1, f1, root, l1, l2, a);
        lemma_tidy_root(m1, f1, root);
        lemma_tidy_second(m1, f1, root, l1);
        lemma_write_zero_kept(m1, f1, t, l2, link_to(a));
        lemma_kept_chain(mem, m1, m1.write(t, l2, link_to(a)), frames, f1);
    }
}

/// The physical page that the page with indices `l1`, `l2`, `l3` is mapped
/// to under `root`, if it is mapped.
pub open spec fn mapping(mem: MemoryView, root: usize, l1: int, l2: int, l3: int) -> Option<u64> {
    match leaf_table(mem, root, l1, l2) {
        Some(u) => if entry_at(mem, u, l3).is_mapping() {
            Some(entry_at(mem, u, l3).phys_addr_bits())
        } else {
            None
        },
        None => None,
    }
}

/// The page walk goes by the mapping of the page: it takes byte `offset`
/// of the page with indices `l1`, `l2`, `l3` to byte `offset` of the
/// physical page that the page is mapped to.
pub proof fn lemma_translate_by_mapping(mem: MemoryView, root: usize, l1: u64, l2: u64, l3: u64, offset: u64)
    requires
        mem.holds_page(root),
        l1 < 512,
        l2 < 512,
        l3 < 512,
        offset < 4096,
    ensures
        crate::page_table::virt_map::translate(
            mem,
            root,
            crate::page_table::virt_map::compose_spec(l1, l2, l3, offset),
        ) == match mapping(mem, root, l1 as int, l2 as int, l3 as int) {
            Some(page) => Some(page + offset),
            None => None,
        },
{
    crate::page_table::virt_map::law_sv39_round_trip(l1, l2, l3, offset);
}

/// Mapping a page in a tidy space. Where `virtually_map` succeeds on a
/// page outside the self-referencing window, the space is tidy again, the
/// page is mapped to `phys_addr`, and every other page that was mapped is
/// mapped where it was.
///
/// The flags must make a valid leaf and `phys_addr` must be a page address
/// below 2^56.
pub proof fn law_virtually_map_maps(
    mem: MemoryView,
    frames: Seq<SegmentView>,
    root: usize,
    l1: int,
    l2: int,
    l3: int,
    phys_addr: usize,
    flags: u64,
)
    requires
        tidy(mem, frames, root),
        0 <= l1 < 512,
        l1 != 280,
        0 <= l2 < 512,
        0 <= l3 < 512,
        flags < 1024,
        flags & 1 != 0,
        flags & 0xE != 0,
        phys_addr % 4096 == 0,
        phys_addr < 0x0100_0000_0000_0000,
        crate::page_table::virtually_map_spec(mem, frames, root, l1, l2, l3, phys_addr, flags).2,
    ensures
        ({
            let (after, frames1, ok) = crate::page_table::virtually_map_spec(
                mem,
                frames,
                root,
                l1,
                l2,
                l3,
                phys_addr,
                flags,
            );
            &&& tidy(after, frames1, root)
            &&& mapping(after, root, l1, l2, l3) == Some(phys_addr as u64)
            &&& forall|x1: int, x2: int, x3: int|
                0 <= x1 < 512 && 0 <= x2 < 512 && 0 <= x3 < 512 && !(x1 == l1 && x2 == l2 && x3 == l3) && mapping(
                    mem,
                    root,
                    x1,
                    x2,
                    x3,
                ) is Some ==> #[trigger] mapping(after, root, x1, x2, x3) == mapping(mem, root, x1, x2, x3)
        }),
{
    let (m1, f1, second) = crate::page_table::descend_spec(mem, frames, root, root, l1);
    lemma_descend_root(mem, frames, root, l1);
    let t = second.unwrap();
    let (m2, f2, third) = crate::page_table::descend_spec(m1, f1, root, t, l2);
    lemma_descend_second(m1, f1, root, l1, l2);
    let u = third.unwrap();
    let value = PageTableEntry::encode(phys_addr as u64, flags).0;
    let after = m2.write(u, l3, value);
    assert(is_third(m2, root, u)) by {
        assert(leaf_table(m2, root, l1, l2) == Some(u));
    }
    lemma_write_third_keeps_tidy(m2, f2, root, u, l3, value);
    PageTableEntry::lemma_encode(phys_addr, flags);
    assert(leaf_table(after, root, l1, l2) == Some(u));
    assert(entry_at(after, u, l3) == PageTableEntry::encode(phys_addr as u64, flags));
    lemma_kept_chain(mem, m1, m2, frames, f1);
    lemma_kept_links(mem, frames, root, m2);
    assert forall|x1: int, x2: int, x3: int|
        0 <= x1 < 512 && 0 <= x2 < 512 && 0 <= x3 < 512 && !(x1 == l1 && x2 == l2 && x3 == l3) && mapping(
            mem,
            root,
            x1,
            x2,
            x3,
        ) is Some implies #[trigger] mapping(after, root, x1, x2, x3) == mapping(mem, root, x1, x2, x3) by {
        let v = leaf_table(mem, root, x1, x2).unwrap();
        assert(leaf_table(m2, root, x1, x2) == Some(v));
        assert(leaf_table(after, root, x1, x2) == Some(v));
        lemma_tidy_third(mem, frames, root, x1, x2);
        if entry_at(mem, v, x3).is_unused_spec() {
            entry_at(mem, v, x3).lemma_unused();
        }
        assert(m2.word(v, x3) == mem.word(v, x3));
        if v == u {
            lemma_tidy_third(m2, f2, root, l1, l2);
            assert(x1 == l1 && x2 == l2);
        }
        assert(after.word(v, x3) == m2.word(v, x3));
    }
}


/// Two pages less than 2^27 apart differ in one of their indices.
proof fn lemma_distinct_pages(p: u64, q: u64)
    by (bit_vector)
    requires
        p < q,
        q - p < 0x800_0000,
    ensures
        (p >> 18) & 0x1FF != (q >> 18) & 0x1FF || (p >> 9) & 0x1FF != (q >> 9) & 0x1FF || p & 0x1FF != q
            & 0x1FF,
{
}

/// A canonical address is made of its indices and its offset.
proof fn lemma_canonical_composed(v: u64)
    by (bit_vector)
    requires
        v >> 38 == 0 || v >> 38 == 0x3FF_FFFF,
    ensures
        ((v >> 12) >> 18) & 0x1FF < 512,
        ((v >> 12) >> 9) & 0x1FF < 512,
        (v >> 12) & 0x1FF < 512,
        v & 0xFFF < 4096,
        ((v >> 12) >> 18) & 0x1FF < 256 ==> (((((v >> 12) >> 18) & 0x1FF) << 30) | ((((v >> 12) >> 9)
            & 0x1FF) << 21) | (((v >> 12) & 0x1FF) << 12) | (v & 0xFFF)) == v,
        ((v >> 12) >> 18) & 0x1FF >= 256 ==> (((((v >> 12) >> 18) & 0x1FF) << 30) | ((((v >> 12) >> 9)
            & 0x1FF) << 21) | (((v >> 12) & 0x1FF) << 12) | (v & 0xFFF)) | 0xFFFF_FF80_0000_0000 == v,
{
}

/// A canonical address is the address composed of its own indices and
/// offset.
pub proof fn lemma_canonical_is_composed(v: u64)
    requires
        crate::page_table::virt_map::is_canonical(v),
    ensures
        crate::page_table::virt_map::compose_spec(
            crate::page_table::virt_map::l1_of(v >> 12),
            crate::page_table::virt_map::l2_of(v >> 12),
            crate::page_table::virt_map::l3_of(v >> 12),
            v & 0xFFF,
        ) == v,
        crate::page_table::virt_map::l1_of(v >> 12) < 512,
        crate::page_table::virt_map::l2_of(v >> 12) < 512,
        crate::page_table::virt_map::l3_of(v >> 12) < 512,
        v & 0xFFF < 4096,
{
    lemma_canonical_composed(v);
}

/// The page frame `frame` is at address `4096 * frame`.
proof fn lemma_frame_address(frame: usize)
    requires
        4096 * frame <= usize::MAX,
    ensures
        frame << 12 == 4096 * frame,
{
    vstd::arithmetic::power2::lemma2_to64();
    vstd::bits::lemma_usize_shl_is_mul(frame, 12);
}

/// The `k`-th target of a linear mapping is outside the self-referencing
/// window.
pub open spec fn outside_window(first_virtual: u64, count: int) -> bool {
    forall|k: int|
        0 <= k < count ==> crate::page_table::virt_map::l1_of(#[trigger] ((first_virtual + k) as u64)) != 280
}

/// The page with number `page` is mapped to the physical page `frame`.
pub open spec fn page_mapped(mem: MemoryView, root: usize, page: u64, frame: int) -> bool {
    mapping(
        mem,
        root,
        crate::page_table::virt_map::l1_of(page) as int,
        crate::page_table::virt_map::l2_of(page) as int,
        crate::page_table::virt_map::l3_of(page) as int,
    ) == Some((4096 * frame) as u64)
}

/// The indices of the page with number `page` are `x1`, `x2`, `x3`.
pub open spec fn page_at(page: u64, x1: int, x2: int, x3: int) -> bool {
    crate::page_table::virt_map::l1_of(page) == x1 && crate::page_table::virt_map::l2_of(page) == x2
        && crate::page_table::virt_map::l3_of(page) == x3
}

/// What installing the pages of a linear mapping makes of a tidy space
/// when every page is installed: the space is tidy, page `k` of the range
/// is mapped to frame `k` of the region, and every page outside the range
/// that was mapped is mapped where it was.
pub proof fn lemma_map_pages(
    mem: MemoryView,
    frames: Seq<SegmentView>,
    root: usize,
    first_virtual: u64,
    first_physical: usize,
    count: int,
)
    requires
        tidy(mem, frames, root),
        0 <= count <= 0x800_0000,
        first_virtual + count <= u64::MAX,
        4096 * (first_physical + count) <= 0x0100_0000_0000_0000,
        4096 * (first_physical + count) <= usize::MAX,
        outside_window(first_virtual, count),
        crate::page_table::virt_map::map_pages_spec(mem, frames, root, first_virtual, first_physical, count).2,
    ensures
        ({
            let (after, frames1, ok) = crate::page_table::virt_map::map_pages_spec(
                mem,
                frames,
                root,
                first_virtual,
                first_physical,
                count,
            );
            &&& tidy(after, frames1, root)
            &&& forall|k: int|
                0 <= k < count ==> page_mapped(after, root, #[trigger] ((first_virtual + k) as u64), first_physical + k)
            &&& forall|x1: int, x2: int, x3: int|
                0 <= x1 < 512 && 0 <= x2 < 512 && 0 <= x3 < 512 && mapping(mem, root, x1, x2, x3) is Some && (forall|
                    k: int,
                |
                    0 <= k < count ==> !page_at(#[trigger] ((first_virtual + k) as u64), x1, x2, x3))
                    ==> #[trigger] mapping(after, root, x1, x2, x3) == mapping(mem, root, x1, x2, x3)
        }),
    decreases count,
{
    if count > 0 {
        let (m1, f1, ok1) = crate::page_table::virt_map::map_pages_spec(
            mem,
            frames,
            root,
            first_virtual,
            first_physical,
            count - 1,
        );
        assert(outside_window(first_virtual, count - 1));
        lemma_map_pages(mem, frames, root, first_virtual, first_physical, count - 1);
        let page = (first_virtual + count - 1) as u64;
        let frame = (first_physical + count - 1) as usize;
        let l1 = crate::page_table::virt_map::l1_of(page) as int;
        let l2 = crate::page_table::virt_map::l2_of(page) as int;
        let l3 = crate::page_table::virt_map::l3_of(page) as int;
        lemma_index_bounds(page);
        lemma_frame_address(frame);
        let flags = crate::page_table::virt_map::linear_flags();
        assert(flags & 1 != 0 && flags & 0xE != 0) by {
            assert(15u64 & 1 != 0 && 15u64 & 0xE != 0) by (bit_vector);
        }
        law_virtually_map_maps(m1, f1, root, l1, l2, l3, (frame << 12) as usize, flags);
        let (after, frames1, ok) = crate::page_table::virtually_map_spec(
            m1,
            f1,
            root,
            l1,
            l2,
            l3,
            (frame << 12) as usize,
            flags,
        );
        assert forall|k: int| 0 <= k < count implies page_mapped(
            after,
            root,
            #[trigger] ((first_virtual + k) as u64),
            first_physical + k,
        ) by {
            if k < count - 1 {
                let other = (first_virtual + k) as u64;
                lemma_distinct_pages(other, page);
                lemma_index_bounds(other);
                assert(page_mapped(m1, root, other, first_physical + k));
            }
        }
        assert forall|x1: int, x2: int, x3: int|
            0 <= x1 < 512 && 0 <= x2 < 512 && 0 <= x3 < 512 && mapping(mem, root, x1, x2, x3) is Some && (forall|
                k: int,
            |
                0 <= k < count ==> !page_at(#[trigger] ((first_virtual + k) as u64), x1, x2, x3)) implies #[trigger] mapping(
            after,
            root,
            x1,
            x2,
            x3,
        ) == mapping(mem, root, x1, x2, x3) by {
            assert(!page_at(((first_virtual + (count - 1)) as u64), x1, x2, x3));
            assert(mapping(m1, root, x1, x2, x3) == mapping(mem, root, x1, x2, x3));
        }
    }
}

/// Every index of a page is below 512.
proof fn lemma_index_bounds(page: u64)
    by (bit_vector)
    ensures
        (page >> 18) & 0x1FF < 512,
        (page >> 9) & 0x1FF < 512,
        page & 0x1FF < 512,
{
}

/// Linear mapping in a tidy space. Where `virtual_map_linear` succeeds on
/// a range outside the self-referencing window, the space is tidy again
/// and every address of the range is mapped linearly: the page walk takes
/// a canonical address in page `i` of the range to the same offset in
/// frame `i` of the region.
///
/// The range must not be longer than the Sv39 address space (2^27 pages),
/// and the region must lie below 2^56.
pub proof fn law_linear_map_maps(
    mem: MemoryView,
    frames: Seq<SegmentView>,
    root: usize,
    physical_region: crate::page_table::virt_map::PageRegion,
    virtual_start_addr: u64,
    vaddr: u64,
)
    requires
        tidy(mem, frames, root),
        physical_region.count <= 0x800_0000,
        4096 * ((physical_region.address >> 12) + physical_region.count) <= 0x0100_0000_0000_0000,
        4096 * ((physical_region.address >> 12) + physical_region.count) <= usize::MAX,
        outside_window(virtual_start_addr >> 12, physical_region.count as int),
        crate::page_table::virt_map::virtual_map_linear_spec(
            mem,
            frames,
            root,
            physical_region,
            virtual_start_addr,
        ).2 is Ok,
        crate::page_table::virt_map::is_canonical(vaddr),
        virtual_start_addr >> 12 <= vaddr >> 12,
        (vaddr >> 12) - (virtual_start_addr >> 12) < physical_region.count,
    ensures
        ({
            let (after, frames1, r) = crate::page_table::virt_map::virtual_map_linear_spec(
                mem,
                frames,
                root,
                physical_region,
                virtual_start_addr,
            );
            let i = (vaddr >> 12) - (virtual_start_addr >> 12);
            &&& tidy(after, frames1, root)
            &&& crate::page_table::virt_map::translate(after, root, vaddr) == Some(
                4096 * ((physical_region.address >> 12) + i) + (vaddr & 0xFFF),
            )
        }),
{
    let first_virtual = virtual_start_addr >> 12;
    let first_physical = physical_region.address >> 12;
    let count = physical_region.count as int;
    assert(first_virtual + count <= u64::MAX) by {
        assert(virtual_start_addr >> 12 <= 0xF_FFFF_FFFF_FFFF) by (bit_vector);
    }
    lemma_map_pages(mem, frames, root, first_virtual, first_physical, count);
    let (after, frames1, ok) = crate::page_table::virt_map::map_pages_spec(
        mem,
        frames,
        root,
        first_virtual,
        first_physical,
        count,
    );
    let i = (vaddr >> 12) - first_virtual;
    let page = vaddr >> 12;
    assert(page == (first_virtual + i) as u64);
    assert(page_mapped(after, root, ((first_virtual + i) as u64), first_physical + i));
    lemma_tidy_root(after, frames1, root);
    lemma_canonical_is_composed(vaddr);
    lemma_translate_by_mapping(
        after,
        root,
        crate::page_table::virt_map::l1_of(page),
        crate::page_table::virt_map::l2_of(page),
        crate::page_table::virt_map::l3_of(page),
        vaddr & 0xFFF,
    );
}


/// The page at `page` is blank: every word of it is zero.
pub open spec fn blank(mem: MemoryView, page: usize) -> bool {
    forall|j: int| 0 <= j < 512 ==> #[trigger] mem.word(page, j) == 0
}

/// A space whose root is a blank frame in use is tidy: nothing is reached
/// from the root.
pub proof fn lemma_blank_root_tidy(mem: MemoryView, frames: Seq<SegmentView>, root: usize)
    requires
        fitting(mem, frames),
        frame_in_use(frames, root as int),
        forall|j: int| 0 <= j < 512 ==> #[trigger] mem.word(root, j) == 0,
    ensures
        tidy(mem, frames, root),
        forall|l1: int| 0 <= l1 < 512 ==> #[trigger] child_of(mem, root, l1) is None,
{
    assert forall|l1: int| 0 <= l1 < 512 implies #[trigger] child_of(mem, root, l1) is None by {
        assert(mem.word(root, l1) == 0);
        entry_at(mem, root, l1).lemma_unused();
    }
    reveal(tidy);
}

/// A tidy space stays tidy when frames are taken from the frame table and
/// the memory stays what it is.
pub proof fn lemma_tidy_more_in_use(
    mem: MemoryView,
    frames: Seq<SegmentView>,
    root: usize,
    frames1: Seq<SegmentView>,
)
    requires
        tidy(mem, frames, root),
        fitting(mem, frames1),
        forall|addr: int| #[trigger] frame_in_use(frames, addr) ==> frame_in_use(frames1, addr),
    ensures
        tidy(mem, frames1, root),
{
    lemma_same_links_tidy(mem, frames, root, mem, frames1);
}

/// Installing the window writes into a table reached in two steps only,
/// and so keeps a tidy space tidy.
pub proof fn lemma_install_window_keeps_tidy(
    mem: MemoryView,
    frames: Seq<SegmentView>,
    root: usize,
    leaves: usize,
    tables: Seq<usize>,
    n: int,
)
    requires
        tidy(mem, frames, root),
        is_third(mem, root, leaves),
        0 <= n <= 512,
        n <= tables.len(),
    ensures
        tidy(crate::page_table::bootstrap::install_window(mem, leaves, tables, n), frames, root),
        is_third(crate::page_table::bootstrap::install_window(mem, leaves, tables, n), root, leaves),
    decreases n,
{
    if n > 0 {
        lemma_install_window_keeps_tidy(mem, frames, root, leaves, tables, n - 1);
        let before = crate::page_table::bootstrap::install_window(mem, leaves, tables, n - 1);
        let value = PageTableEntry::encode(tables[n - 1] as u64, crate::page_table::window_flags()).0;
        lemma_write_third_keeps_tidy(before, frames, root, leaves, n - 1, value);
        let (x, y) = choose|x: int, y: int|
            0 <= x < 512 && 0 <= y < 512 && #[trigger] leaf_table(before, root, x, y) == Some(leaves);
        assert(leaf_table(before.write(leaves, n - 1, value), root, x, y) == Some(leaves));
    }
}

/// A bootstrap that succeeds on a blank root makes a tidy space.
pub proof fn law_bootstrap_makes_tidy(mem: MemoryView, frames: Seq<SegmentView>, root: usize)
    requires
        fitting(mem, frames),
        frame_in_use(frames, root as int),
        forall|j: int| 0 <= j < 512 ==> #[trigger] mem.word(root, j) == 0,
        crate::page_table::bootstrap::bootstrap_spec(mem, frames, root).2 is Some,
    ensures
        tidy(
            crate::page_table::bootstrap::bootstrap_spec(mem, frames, root).0,
            crate::page_table::bootstrap::bootstrap_spec(mem, frames, root).1,
            root,
        ),
{
    lemma_blank_root_tidy(mem, frames, root);
    lemma_tidy_root(mem, frames, root);
    entry_at(mem, root, 280).lemma_unused();
    let (z1, f1, r1) = take_table_frame_spec(mem, frames);
    lemma_take_keeps_tidy(mem, frames, root);
    let window = r1.unwrap().phys_addr;
    assert(z1.word(root, 280) == 0);
    lemma_link_root_keeps_tidy(z1, f1, root, 280, window);
    let m1 = z1.write(root, 280, link_to(window));
    lemma_tidy_second(m1, f1, root, 280);
    assert(m1.word(window, 0) == 0);
    entry_at(m1, window, 0).lemma_unused();
    let (z2, f2, r2) = take_table_frame_spec(m1, f1);
    lemma_take_keeps_tidy(m1, f1, root);
    let leaves = r2.unwrap().phys_addr;
    assert(z2.word(window, 0) == 0);
    assert(child_of(z2, root, 280) == Some(window));
    lemma_link_second_keeps_tidy(z2, f2, root, 280, 0, leaves);
    let m2 = z2.write(window, 0, link_to(leaves));
    assert(is_third(m2, root, leaves)) by {
        assert(leaf_table(m2, root, 280, 0) == Some(leaves));
    }
    let tables = crate::frame_table::table_page_tables(f2, f2.len() as int);
    lemma_install_window_keeps_tidy(m2, f2, root, leaves, tables, tables.len() as int);
}


/// A linear mapping of `physical_region` at `virtual_start_addr` stays in
/// bounds: the range is not longer than the Sv39 address space, the region
/// lies below 2^56, and no page of the range is in the self-referencing
/// window.
pub open spec fn linear_fits(physical_region: crate::page_table::virt_map::PageRegion, virtual_start_addr: u64) -> bool {
    &&& physical_region.count <= 0x800_0000
    &&& 4096 * ((physical_region.address >> 12) + physical_region.count) <= 0x0100_0000_0000_0000
    &&& 4096 * ((physical_region.address >> 12) + physical_region.count) <= usize::MAX
    &&& outside_window(virtual_start_addr >> 12, physical_region.count as int)
}

/// Every canonical address in the range of the linear mapping is taken by
/// the page walk to the same offset in the frame of the region that its
/// page stands for.
pub open spec fn linearly_mapped(
    mem: MemoryView,
    root: usize,
    physical_region: crate::page_table::virt_map::PageRegion,
    virtual_start_addr: u64,
) -> bool {
    forall|vaddr: u64|
        crate::page_table::virt_map::is_canonical(vaddr) && virtual_start_addr >> 12 <= vaddr >> 12 && (vaddr
            >> 12) - (virtual_start_addr >> 12) < physical_region.count ==> #[trigger] crate::page_table::virt_map::translate(
            mem,
            root,
            vaddr,
        ) == Some(
            4096 * ((physical_region.address >> 12) + ((vaddr >> 12) - (virtual_start_addr >> 12))) + (vaddr
                & 0xFFF),
        )
}

/// Linear mapping in a tidy space, for every address of the range at once.
pub proof fn law_linear_map_maps_range(
    mem: MemoryView,
    frames: Seq<SegmentView>,
    root: usize,
    physical_region: crate::page_table::virt_map::PageRegion,
    virtual_start_addr: u64,
)
    requires
        tidy(mem, frames, root),
        linear_fits(physical_region, virtual_start_addr),
        crate::page_table::virt_map::virtual_map_linear_spec(
            mem,
            frames,
            root,
            physical_region,
            virtual_start_addr,
        ).2 is Ok,
    ensures
        ({
            let (after, frames1, r) = crate::page_table::virt_map::virtual_map_linear_spec(
                mem,
                frames,
                root,
                physical_region,
                virtual_start_addr,
            );
            tidy(after, frames1, root) && linearly_mapped(after, root, physical_region, virtual_start_addr)
        }),
{
    let (after, frames1, r) = crate::page_table::virt_map::virtual_map_linear_spec(
        mem,
        frames,
        root,
        physical_region,
        virtual_start_addr,
    );
    assert forall|vaddr: u64|
        crate::page_table::virt_map::is_canonical(vaddr) && virtual_start_addr >> 12 <= vaddr >> 12 && (vaddr
            >> 12) - (virtual_start_addr >> 12) < physical_region.count implies #[trigger] crate::page_table::virt_map::translate(
        after,
        root,
        vaddr,
    ) == Some(
        4096 * ((physical_region.address >> 12) + ((vaddr >> 12) - (virtual_start_addr >> 12))) + (vaddr & 0xFFF),
    ) by {
        law_linear_map_maps(mem, frames, root, physical_region, virtual_start_addr, vaddr);
    }
    assert((virtual_start_addr >> 12) + physical_region.count <= u64::MAX) by {
        assert(virtual_start_addr >> 12 <= 0xF_FFFF_FFFF_FFFF) by (bit_vector);
    }
    lemma_map_pages(
        mem,
        frames,
        root,
        virtual_start_addr >> 12,
        physical_region.address >> 12,
        physical_region.count as int,
    );
}


/// Mapping a run writes into a table reached in two steps only, and so
/// keeps a tidy space tidy.
pub proof fn lemma_write_run_keeps_tidy(
    mem: MemoryView,
    frames: Seq<SegmentView>,
    root: usize,
    leaves: usize,
    start: int,
    count: int,
    phys_addr: usize,
    flags: u64,
)
    requires
        tidy(mem, frames, root),
        is_third(mem, root, leaves),
        0 <= start,
        0 <= count,
        start + count <= 512,
    ensures
        tidy(crate::page_table::write_run(mem, leaves, start, count, phys_addr, flags), frames, root),
        is_third(crate::page_table::write_run(mem, leaves, start, count, phys_addr, flags), root, leaves),
    decreases count,
{
    if count > 0 {
        lemma_write_run_keeps_tidy(mem, frames, root, leaves, start, count - 1, phys_addr, flags);
        let before = crate::page_table::write_run(mem, leaves, start, count - 1, phys_addr, flags);
        let value = PageTableEntry::encode((phys_addr + 4096 * (count - 1)) as u64, flags).0;
        lemma_write_third_keeps_tidy(before, frames, root, leaves, start + count - 1, value);
        let (x, y) = choose|x: int, y: int|
            0 <= x < 512 && 0 <= y < 512 && #[trigger] leaf_table(before, root, x, y) == Some(leaves);
        assert(leaf_table(before.write(leaves, start + count - 1, value), root, x, y) == Some(leaves));
    }
}

/// The flags make a valid leaf: they fit the low ten bits, V is set, and
/// so is one of R, W and X.
pub open spec fn leaf_flags(flags: u64) -> bool {
    flags < 1024 && flags & 1 != 0 && flags & 0xE != 0
}

/// Every byte of the `count` pages from `base` on is taken by the page walk
/// to the same byte of the `count` frames from `phys_addr` on.
pub open spec fn pages_mapped(mem: MemoryView, root: usize, base: u64, phys_addr: usize, count: int) -> bool {
    forall|i: int, offset: u64|
        0 <= i < count && offset < 4096 ==> base + 4096 * i + offset <= u64::MAX && #[trigger] crate::page_table::virt_map::translate(
            mem,
            root,
            (base + 4096 * i + offset) as u64,
        ) == Some(phys_addr + 4096 * i + offset)
}

/// Fresh pages in a tidy space. Where `create_allocation_pages` succeeds
/// with flags that make a valid leaf, the space is tidy again and every
/// page of the range it returned is mapped to its frame.
pub proof fn law_created_pages_in_tidy_space(
    mem: MemoryView,
    frames: Seq<SegmentView>,
    root: usize,
    page_count: usize,
    flags: u64,
)
    requires
        tidy(mem, frames, root),
        page_count <= 512,
        crate::page_table::create_allocation_pages_spec(mem, frames, root, page_count, flags).2 is Ok,
    ensures
        ({
            let (after, frames1, r) = crate::page_table::create_allocation_pages_spec(
                mem,
                frames,
                root,
                page_count,
                flags,
            );
            let taken = crate::frame_table::table_alloc_back(frames, page_count, FrameState::Kernel, 0).1.unwrap();
            &&& tidy(after, frames1, root)
            &&& leaf_flags(flags) ==> pages_mapped(after, root, r->Ok_0, taken.phys_addr, page_count as int)
        }),
{
    let count = page_count as int;
    lemma_tidy_root(mem, frames, root);
    crate::page_table::lemma_first_host_from(mem, root, count, 0);
    let at = crate::page_table::first_host_from(mem, root, count, 0).unwrap();
    let leaves = leaf_table(mem, root, at / 512, at % 512).unwrap();
    lemma_tidy_second(mem, frames, root, at / 512);
    lemma_tidy_third(mem, frames, root, at / 512, at % 512);
    crate::page_table::lemma_first_free_cells_from(mem, leaves, count, 0);
    let start = crate::page_table::first_free_cells(mem, leaves, count).unwrap();
    let (frames1, r) = crate::frame_table::table_alloc_back(frames, page_count, FrameState::Kernel, 0);
    let taken = r.unwrap();
    lemma_table_alloc_keeps_shape(frames, false, page_count, FrameState::Kernel, 0);
    assert forall|addr: int| #[trigger] frame_in_use(frames, addr) implies frame_in_use(frames1, addr) by {
        lemma_alloc_spares_frames_in_use(frames, false, page_count, FrameState::Kernel, 0, addr);
    }
    lemma_tidy_more_in_use(mem, frames, root, frames1);
    lemma_write_run_keeps_tidy(mem, frames1, root, leaves, start, count, taken.phys_addr, flags);
    if leaf_flags(flags) {
        let after = crate::page_table::create_allocation_pages_spec(mem, frames, root, page_count, flags).0;
        let base = crate::page_table::create_allocation_pages_spec(mem, frames, root, page_count, flags).2->Ok_0;
        assert forall|i: int, offset: u64| 0 <= i < count && offset < 4096 implies base + 4096 * i + offset
            <= u64::MAX && #[trigger] crate::page_table::virt_map::translate(
            after,
            root,
            (base + 4096 * i + offset) as u64,
        ) == Some(taken.phys_addr + 4096 * i + offset) by {
            crate::page_table::law_created_pages_are_mapped(mem, frames, root, page_count, flags, i, offset);
        }
    }
}


/// A page that can be mapped is not mapped: where `is_free` holds of a
/// page, the page walk finds no mapping for it.
pub proof fn law_free_page_is_unmapped(mem: MemoryView, root: usize, l1: int, l2: int, l3: int)
    requires
        crate::page_table::is_free_spec(mem, root, l1, l2, l3),
    ensures
        mapping(mem, root, l1, l2, l3) is None,
{
    if entry_at(mem, root, l1).is_unused_spec() {
        entry_at(mem, root, l1).lemma_unused();
    } else {
        let second = child_of(mem, root, l1).unwrap();
        if entry_at(mem, second, l2).is_unused_spec() {
            entry_at(mem, second, l2).lemma_unused();
        } else {
            let third = child_of(mem, second, l2).unwrap();
            entry_at(mem, third, l3).lemma_unused();
        }
    }
}

} // verus!
