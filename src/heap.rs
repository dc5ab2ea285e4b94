use vstd::prelude::*;
use std::collections::HashMap;
use crate::constants::{
    BIN_COUNT, DIRECT_COUNT, SINGLE_INFO_SIZE, MI_BIN_HUGE, MI_INTPTR_SIZE, MI_LARGE_SIZE_MAX, MI_LARGE_WSIZE_MAX,
    MI_SEGMENT_SIZE,
    MI_SMALL_PAGES_PER_SEGMENT, MI_SMALL_PAGE_SIZE, MI_SMALL_SIZE_MAX, MI_SMALL_WSIZE_MAX,
    SEGMENT_HEADER_SIZE,
};
use crate::deferred_free::{DeferredFree, DeferredFreeHandle};
use crate::list::LinkedList;
use crate::os::OsAlloc;
use crate::page::Page;
use crate::segment::{kind_fits, spec_layout, PageKind, Segment};
use crate::utils::{
    bin_for_size, block_size_for_bin, is_power_of_two, lemma_power_of_two_word, is_bin_run, is_block_size_table, lemma_bin_monotone, lemma_bin_range,
    spec_bin_for_size, spec_bin_for_wsize, spec_wsize, wsize_from_size,
    wsize_range_in_same_small_bin,
};

verus! {

broadcast use vstd::std_specs::hash::group_hash_axioms;

/// Handle of the empty page: consulting it always falls to the slow path.
pub const EMPTY_PAGE: usize = usize::MAX;

/// Bound on the number of segment slots, which keeps page handles apart from
/// `EMPTY_PAGE`.
pub const MAX_SEGMENT_SLOTS: usize = 16777216;

/// Slot of the segment of a page handle.
pub open spec fn slot_of(h: int) -> int {
    h / (MI_SMALL_PAGES_PER_SEGMENT as int)
}

/// Index inside its segment of the page of a handle.
pub open spec fn idx_of(h: int) -> int {
    h % (MI_SMALL_PAGES_PER_SEGMENT as int)
}

pub open spec fn first_of(q: Seq<usize>) -> usize {
    if q.len() == 0 {
        EMPTY_PAGE
    } else {
        q[0]
    }
}

/// The per-process owner of the segments, the page queues of every bin and the direct
/// table from word size to page.
///
/// Pages are named by handles: `slot * MI_SMALL_PAGES_PER_SEGMENT + index`.
pub struct Heap<H> {
    pages_free_direct: Vec<usize>,
    pages: Vec<LinkedList>,
    small_free_segments: LinkedList,
    segments: Vec<Option<Segment>>,
    segment_slots: HashMap<usize, usize>,
    wsize_ranges: Vec<(u8, u8)>,
    block_sizes: Vec<usize>,
    deferred_free_hook: Option<H>,
    heartbeat: u64,
    segment_failures: Ghost<nat>,
}

impl<H: DeferredFree> Heap<H> {
    pub closed spec fn live(&self, slot: int) -> bool {
        0 <= slot < self.segments@.len() && self.segments@[slot] is Some
    }

    pub closed spec fn seg(&self, slot: int) -> Segment {
        self.segments@[slot]->0
    }

    pub closed spec fn valid_handle(&self, h: int) -> bool {
        &&& h >= 0
        &&& self.live(slot_of(h))
        &&& idx_of(h) < self.seg(slot_of(h)).capacity
    }

    pub closed spec fn page(&self, h: int) -> Page {
        self.seg(slot_of(h)).pages@[idx_of(h)]
    }

    pub closed spec fn queue(&self, b: int) -> Seq<usize> {
        self.pages@[b]@
    }

    pub closed spec fn wf_tables(&self) -> bool {
        &&& self.pages_free_direct@.len() == DIRECT_COUNT
        &&& self.pages@.len() == BIN_COUNT
        &&& self.wsize_ranges@.len() == DIRECT_COUNT
        &&& forall|w: int|
            0 <= w <= MI_SMALL_WSIZE_MAX ==> is_bin_run(
                w as nat,
                #[trigger] self.wsize_ranges@[w].0 as nat,
                self.wsize_ranges@[w].1 as nat,
            )
        &&& is_block_size_table(self.block_sizes@)
        &&& self.segments@.len() <= MAX_SEGMENT_SLOTS
    }

    pub closed spec fn wf_segments(&self) -> bool {
        &&& forall|slot: int| #[trigger] self.live(slot) ==> {
            let s = self.seg(slot);
            &&& s.wf()
            &&& s.used > 0
            &&& (s.segment_size != MI_SEGMENT_SIZE ==> s.pages@[0].reserved <= 1)
            &&& self.segment_slots@.contains_key(s.base)
            &&& self.segment_slots@[s.base] == slot
        }
        &&& forall|base: usize| #[trigger]
            self.segment_slots@.contains_key(base) ==> {
                &&& self.live(self.segment_slots@[base] as int)
                &&& self.seg(self.segment_slots@[base] as int).base == base
            }
    }

    /// The facts about an in-use page that allocation rests on.
    pub closed spec fn page_ok(&self, h: int) -> bool {
        let p = self.page(h);
        p.in_use ==> {
            &&& p.reserved > 0
            &&& (p.bin < MI_BIN_HUGE ==> p.block_size == self.block_sizes@[p.bin as int])
            &&& (p.flags.full ==> p.used > 0)
        }
    }

    /// An in-use page is in its bin's queue exactly when it is not full.
    pub closed spec fn page_shape_ok(&self, h: int) -> bool {
        let p = self.page(h);
        p.in_use ==> {
            &&& (p.flags.full ==> !self.queue(p.bin as int).contains(h as usize))
            &&& (!p.flags.full ==> self.queue(p.bin as int).contains(h as usize))
        }
    }

    pub closed spec fn wf_queues(&self, e: int) -> bool {
        &&& forall|b: int, j: int|
            0 <= b < BIN_COUNT && 0 <= j < self.queue(b).len() ==> {
                let h = #[trigger] self.queue(b)[j];
                &&& self.valid_handle(h as int)
                &&& self.page(h as int).in_use
                &&& self.page(h as int).bin == b
                &&& !self.page(h as int).flags.full
            }
        &&& forall|b: int, j1: int, j2: int|
            0 <= b < BIN_COUNT && 0 <= j1 < j2 < self.queue(b).len() ==> #[trigger] self.queue(
                b,
            )[j1] != #[trigger] self.queue(b)[j2]
        &&& forall|h: int| #[trigger] self.valid_handle(h) && h != e ==> self.page_ok(h)
        &&& forall|h: int| #[trigger] self.valid_handle(h) && h != e ==> self.page_shape_ok(h)
    }

    pub closed spec fn wf_direct(&self) -> bool {
        forall|w: int|
            0 <= w <= MI_SMALL_WSIZE_MAX ==> #[trigger] self.pages_free_direct@[w] == first_of(
                self.queue(spec_bin_for_wsize(w as nat) as int),
            )
    }

    pub closed spec fn wf_small_free(&self) -> bool {
        &&& forall|j: int|
            0 <= j < self.small_free_segments@.len() ==> {
                let slot = #[trigger] self.small_free_segments@[j] as int;
                &&& self.live(slot)
                &&& self.seg(slot).capacity == MI_SMALL_PAGES_PER_SEGMENT
                &&& self.seg(slot).used < MI_SMALL_PAGES_PER_SEGMENT
            }
        &&& forall|j1: int, j2: int|
            0 <= j1 < j2 < self.small_free_segments@.len() ==> #[trigger] self.small_free_segments@[j1]
                != #[trigger] self.small_free_segments@[j2]
    }

    /// The heap's invariant, but for the queue membership of page `e`.
    pub closed spec fn wf_but(&self, e: int) -> bool {
        &&& self.wf_tables()
        &&& self.wf_segments()
        &&& self.wf_queues(e)
        &&& self.wf_direct()
        &&& self.wf_small_free()
    }

    /// The heap's invariant.
    pub closed spec fn wf(&self) -> bool {
        self.wf_but(-1)
    }

    /// The invariant, but for segment `slot`, one of whose page slots was just cleared
    /// and is still counted as handed out.
    pub closed spec fn wf_page_cleared(&self, slot: int) -> bool {
        let c = self.seg(slot);
        &&& self.wf_tables()
        &&& self.wf_queues(-1)
        &&& self.wf_direct()
        &&& self.wf_small_free()
        &&& self.live(slot)
        &&& forall|sl: int| #[trigger] self.live(sl) && sl != slot ==> {
            let s = self.seg(sl);
            &&& s.wf()
            &&& s.used > 0
            &&& (s.segment_size != MI_SEGMENT_SIZE ==> s.pages@[0].reserved <= 1)
            &&& self.segment_slots@.contains_key(s.base)
            &&& self.segment_slots@[s.base] == sl
        }
        &&& forall|base: usize| #[trigger]
            self.segment_slots@.contains_key(base) ==> {
                &&& self.live(self.segment_slots@[base] as int)
                &&& self.seg(self.segment_slots@[base] as int).base == base
            }
        &&& c.wf_layout()
        &&& c.used == crate::segment::count_in_use(c.pages@) + 1
        &&& forall|i: int| 0 <= i < c.capacity ==> c.page_wf(i)
        &&& (c.segment_size != MI_SEGMENT_SIZE ==> c.pages@[0].reserved <= 1)
        &&& self.segment_slots@.contains_key(c.base)
        &&& self.segment_slots@[c.base] == slot
    }

    /// The two heaps hold the same segments and pages.
    pub closed spec fn same_segments(&self, o: Self) -> bool {
        &&& self.heartbeat == o.heartbeat
        &&& self.segments@ == o.segments@
        &&& self.segment_slots@ == o.segment_slots@
        &&& self.small_free_segments@ == o.small_free_segments@
        &&& self.segment_failures@ == o.segment_failures@
        &&& self.block_sizes@ == o.block_sizes@
        &&& self.wsize_ranges@ == o.wsize_ranges@
    }

    /// The two heaps hold the same segments, pages, queues and direct slots, whatever their
    /// heartbeats.
    pub closed spec fn same_state_but_heartbeat(&self, o: Self) -> bool {
        &&& self.segments@ == o.segments@
        &&& self.segment_slots@ == o.segment_slots@
        &&& self.pages@ == o.pages@
        &&& self.pages_free_direct@ == o.pages_free_direct@
        &&& self.small_free_segments@ == o.small_free_segments@
        &&& self.segment_failures@ == o.segment_failures@
        &&& self.block_sizes@ == o.block_sizes@
        &&& self.wsize_ranges@ == o.wsize_ranges@
    }

    /// The two heaps hold the same segments, pages, queues and direct slots.
    pub closed spec fn same_state(&self, o: Self) -> bool {
        &&& self.heartbeat == o.heartbeat
        &&& self.segments@ == o.segments@
        &&& self.segment_slots@ == o.segment_slots@
        &&& self.pages@ == o.pages@
        &&& self.pages_free_direct@ == o.pages_free_direct@
        &&& self.small_free_segments@ == o.small_free_segments@
    }

    /// Every direct slot of a bin holds the same page.
    pub closed spec fn direct_uniform(&self) -> bool {
        forall|w1: int, w2: int|
            0 <= w1 <= MI_SMALL_WSIZE_MAX && 0 <= w2 <= MI_SMALL_WSIZE_MAX && spec_bin_for_wsize(
                w1 as nat,
            ) == spec_bin_for_wsize(w2 as nat) ==> #[trigger] self.pages_free_direct@[w1]
                == #[trigger] self.pages_free_direct@[w2]
    }

    /// Page `h` may enter its bin's queue: it is in use, set up, and not full.
    pub closed spec fn ready_for_queue(&self, h: int) -> bool {
        let p = self.page(h);
        &&& self.valid_handle(h)
        &&& p.in_use
        &&& !p.flags.full
        &&& p.reserved > 0
        &&& (p.bin < MI_BIN_HUGE ==> p.block_size == self.block_sizes@[p.bin as int])
    }

    /// Page `h` was just handed out by its segment and still awaits its block size.
    pub closed spec fn fresh_in_use(&self, h: int) -> bool {
        let p = self.page(h);
        &&& self.valid_handle(h)
        &&& p.in_use
        &&& p.reserved == 0
        &&& p.capacity == 0
        &&& p.used == 0
        &&& p.free@.len() == 0
        &&& p.local_free@.len() == 0
        &&& p.flags == crate::page::PageFlags { has_aligned: false, full: false }
        &&& forall|b: int| 0 <= b < BIN_COUNT ==> !self.queue(b).contains(h as usize)
    }

    /// The heap differs from `o` in the contents of page `h` alone, which keeps its
    /// shape.
    pub closed spec fn page_changed(&self, o: Self, h: int) -> bool {
        let slot = slot_of(h);
        let os = o.seg(slot);
        let ns = self.seg(slot);
        let op = o.page(h);
        let np = self.page(h);
        &&& self.segments@ == o.segments@.update(slot, Some(ns))
        &&& ns.pages@ == os.pages@.update(idx_of(h), np)
        &&& ns.base == os.base
        &&& ns.used == os.used
        &&& ns.capacity == os.capacity
        &&& ns.segment_size == os.segment_size
        &&& ns.info_size == os.info_size
        &&& ns.page_size == os.page_size
        &&& np.in_use == op.in_use
        &&& np.reserved == op.reserved
        &&& np.bin == op.bin
        &&& np.block_size == op.block_size
        &&& np.flags.full == op.flags.full
        &&& ns.page_wf(idx_of(h))
        &&& self.pages_free_direct@ == o.pages_free_direct@
        &&& self.pages@ == o.pages@
        &&& self.small_free_segments@ == o.small_free_segments@
        &&& self.segment_slots@ == o.segment_slots@
        &&& self.wsize_ranges@ == o.wsize_ranges@
        &&& self.block_sizes@ == o.block_sizes@
        &&& self.heartbeat == o.heartbeat
        &&& self.segment_failures@ == o.segment_failures@
    }

    /// No page has the `has_aligned` flag that did not have it in `o`.
    pub closed spec fn no_new_aligned(&self, o: Self) -> bool {
        forall|g: int|
            #[trigger] self.valid_handle(g) && self.page(g).flags.has_aligned ==> o.valid_handle(g)
                && o.page(g).flags.has_aligned
    }

    /// The heap differs from `o` only in page `h`, and there only in that the head of the
    /// fast free list was handed out: the list lost its last entry and `used` grew by one.
    pub closed spec fn block_taken(&self, o: Self, h: int) -> bool {
        &&& self.page_changed(o, h)
        &&& self.page(h).capacity == o.page(h).capacity
        &&& self.page(h).flags == o.page(h).flags
        &&& self.page(h).local_free@ == o.page(h).local_free@
        &&& self.page(h).free@ == o.page(h).free@.drop_last()
        &&& self.page(h).used == o.page(h).used + 1
        &&& self.deferred_free_hook == o.deferred_free_hook
    }

    /// What `block_taken` fixes: every other page, the queues, the direct table, the
    /// segments, the small-segment list, the heartbeat and the hook.
    pub proof fn lemma_block_taken(&self, o: Self, h: int)
        requires
            o.wf(),
            o.valid_handle(h),
            self.block_taken(o, h),
        ensures
            forall|g: int| #[trigger] self.valid_handle(g) <==> o.valid_handle(g),
            forall|g: int| o.valid_handle(g) && g != h ==> #[trigger] self.page(g) == o.page(g),
            forall|b: int| #[trigger] self.queue(b) == o.queue(b),
            forall|w: int| #[trigger] self.direct(w) == o.direct(w),
            self.small_free() == o.small_free(),
            self.segment_count() == o.segment_count(),
            forall|sl: int| #[trigger] self.live(sl) <==> o.live(sl),
            self.heartbeat() == o.heartbeat(),
            self.segment_failures() == o.segment_failures(),
            self.hook() == o.hook(),
            self.page(h).in_use == o.page(h).in_use,
            self.page(h).block_size == o.page(h).block_size,
            self.page(h).bin == o.page(h).bin,
            self.page(h).reserved == o.page(h).reserved,
            self.page(h).capacity == o.page(h).capacity,
            self.page(h).flags == o.page(h).flags,
            self.page(h).local_free@ == o.page(h).local_free@,
            self.page(h).free@ == o.page(h).free@.drop_last(),
            self.page(h).used == o.page(h).used + 1,
    {
        self.lemma_page_changed(o, h, h);
        assert forall|sl: int| #[trigger] self.live(sl) <==> o.live(sl) by {
            if 0 <= sl < self.segments@.len() && sl != slot_of(h) {
                assert(self.segments@[sl] == o.segments@[sl]);
            }
        }
    }

    /// The heap differs from `o` in page `h` alone, which is in no queue.
    pub closed spec fn page_replaced(&self, o: Self, h: int) -> bool {
        let slot = slot_of(h);
        let os = o.seg(slot);
        let ns = self.seg(slot);
        &&& self.segments@ == o.segments@.update(slot, Some(ns))
        &&& ns.pages@ == os.pages@.update(idx_of(h), self.page(h))
        &&& ns.base == os.base
        &&& ns.used == os.used
        &&& ns.capacity == os.capacity
        &&& ns.segment_size == os.segment_size
        &&& ns.info_size == os.info_size
        &&& ns.page_size == os.page_size
        &&& self.page(h).in_use == o.page(h).in_use
        &&& ns.page_wf(idx_of(h))
        &&& (ns.segment_size != MI_SEGMENT_SIZE ==> ns.pages@[0].reserved <= 1)
        &&& forall|b: int| 0 <= b < BIN_COUNT ==> !o.queue(b).contains(h as usize)
        &&& self.pages_free_direct@ == o.pages_free_direct@
        &&& self.pages@ == o.pages@
        &&& self.small_free_segments@ == o.small_free_segments@
        &&& self.segment_slots@ == o.segment_slots@
        &&& self.wsize_ranges@ == o.wsize_ranges@
        &&& self.block_sizes@ == o.block_sizes@
        &&& self.heartbeat == o.heartbeat
        &&& self.segment_failures@ == o.segment_failures@
    }

    /// Number of segments held from the OS allocator.
    pub closed spec fn segment_count(&self) -> nat {
        self.segment_slots@.dom().len()
    }

    /// Number of times a segment was asked for and not obtained.
    pub closed spec fn segment_failures(&self) -> nat {
        self.segment_failures@
    }

    /// Whether the heap holds no segment at all.
    pub closed spec fn holds_no_segment(&self) -> bool {
        forall|slot: int| 0 <= slot < self.segments@.len() ==> !self.live(slot)
    }

    /// No block of any page is handed out.
    pub closed spec fn no_block_in_use(&self) -> bool {
        forall|h: int| #[trigger] self.valid_handle(h) ==> self.page(h).used == 0
    }

    /// `p` lies in a block of an in-use page of the segment that masking `p` finds, and
    /// `size` bytes from `p` stay inside that block.
    pub closed spec fn serves(&self, p: int, size: int) -> bool {
        let base = p - p % (MI_SEGMENT_SIZE as int);
        &&& 0 <= base <= usize::MAX
        &&& self.segment_slots@.contains_key(base as usize)
        &&& {
            let s = self.seg(self.segment_slots@[base as usize] as int);
            let i = (p - base) / (s.page_size as int);
            &&& 0 <= i < s.capacity
            &&& s.pages@[i].in_use
            &&& exists|blk: int|
                #[trigger] s.pages@[i].is_block(s.payload_addr(i), blk) && blk <= p && p < blk
                    + s.pages@[i].block_size && p + size <= blk + s.pages@[i].block_size
        }
    }

    /// `x` is a block of the in-use page `h`.
    pub closed spec fn is_block_of(&self, h: int, x: int) -> bool {
        &&& self.valid_handle(h)
        &&& self.page(h).in_use
        &&& self.page(h).is_block(self.seg(slot_of(h)).payload_addr(idx_of(h)), x)
    }

    /// `p` lies in an in-use page of a segment of this heap, found by masking.
    pub closed spec fn points_into_page(&self, p: int) -> bool {
        let base = p - p % (MI_SEGMENT_SIZE as int);
        &&& 0 < base <= usize::MAX
        &&& self.segment_slots@.contains_key(base as usize)
        &&& {
            let s = self.seg(self.segment_slots@[base as usize] as int);
            let i = (p - base) / (s.page_size as int);
            &&& i < s.capacity
            &&& s.pages@[i].in_use
        }
    }

    /// Handle of the page that masking and dividing find for `p`.
    pub closed spec fn page_handle_of(&self, p: int) -> int {
        let base = p - p % (MI_SEGMENT_SIZE as int);
        let slot = self.segment_slots@[base as usize] as int;
        slot * (MI_SMALL_PAGES_PER_SEGMENT as int) + (p - base) / (self.seg(slot).page_size as int)
    }

    /// The block of page `h` that a free of `p` gives back: `p` itself, or for a page that
    /// handed out aligned addresses, the start of the block holding `p`.
    pub closed spec fn block_freed(&self, h: int, p: int) -> int {
        let pg = self.page(h);
        let start = self.seg(slot_of(h)).payload_addr(idx_of(h));
        if !pg.flags.has_aligned {
            p
        } else {
            p - (p - start) % (pg.block_size as int)
        }
    }

    /// A free of `p` is taken by page `h`: `p` names one of its blocks and the page has
    /// blocks handed out.
    pub closed spec fn accepts_free(&self, h: int, p: int) -> bool {
        let pg = self.page(h);
        let start = self.seg(slot_of(h)).payload_addr(idx_of(h));
        &&& p >= start
        &&& pg.used > 0
        &&& pg.is_block(start, self.block_freed(h, p))
    }

    /// Every queued page holds a block and has no frees left to collect: what `collect`
    /// leaves behind.
    pub closed spec fn collected(&self) -> bool {
        &&& self.queued_pages_used()
        &&& forall|b: int, j: int|
            0 <= b < BIN_COUNT && 0 <= j < self.queue(b).len() ==> self.page(
                #[trigger] self.queue(b)[j] as int,
            ).local_free@.len() == 0
    }

    /// Every page in a queue holds a block.
    pub closed spec fn queued_pages_used(&self) -> bool {
        forall|b: int, j: int|
            0 <= b < BIN_COUNT && 0 <= j < self.queue(b).len() ==> self.page(
                #[trigger] self.queue(b)[j] as int,
            ).used > 0
    }

    /// The page that direct slot `w` names.
    pub closed spec fn direct(&self, w: int) -> usize {
        self.pages_free_direct@[w]
    }

    /// Usable bytes of the payload of page `h`.
    pub closed spec fn payload_size(&self, h: int) -> int {
        self.seg(slot_of(h)).usable_size(idx_of(h))
    }

    /// An empty heap: every direct slot holds the empty page.
    pub fn new() -> (r: Self)
        ensures
            r.wf(),
            r.holds_no_segment(),
            r.segment_count() == 0,
            r.segment_failures() == 0,
            r.hook() is None,
            r.heartbeat() == 0,
            r.small_free().len() == 0,
            forall|b: int| 0 <= b < BIN_COUNT ==> (#[trigger] r.queue(b)).len() == 0,
            forall|w: int| 0 <= w <= MI_SMALL_WSIZE_MAX ==> #[trigger] r.direct(w) == EMPTY_PAGE,
    {
        let mut pages_free_direct: Vec<usize> = Vec::new();
        let mut k: usize = 0;
        while k < DIRECT_COUNT
            invariant
                k <= DIRECT_COUNT,
                pages_free_direct@.len() == k,
                forall|i: int| 0 <= i < k ==> pages_free_direct@[i] == EMPTY_PAGE,
            decreases DIRECT_COUNT - k,
        {
            pages_free_direct.push(EMPTY_PAGE);
            k = k + 1;
        }
        let mut pages: Vec<LinkedList> = Vec::new();
        let mut k: usize = 0;
        while k < BIN_COUNT
            invariant
                k <= BIN_COUNT,
                pages@.len() == k,
                forall|i: int| 0 <= i < k ==> (#[trigger] pages@[i])@.len() == 0,
            decreases BIN_COUNT - k,
        {
            pages.push(LinkedList::new());
            k = k + 1;
        }
        let h = Heap {
            pages_free_direct,
            pages,
            small_free_segments: LinkedList::new(),
            segments: Vec::new(),
            segment_slots: HashMap::new(),
            wsize_ranges: wsize_range_in_same_small_bin(),
            block_sizes: block_size_for_bin(),
            deferred_free_hook: None,
            heartbeat: 0,
            segment_failures: Ghost(0),
        };
        proof {
            assert(h.segment_slots@.dom() =~= Set::<usize>::empty());
            assert forall|w: int| 0 <= w <= MI_SMALL_WSIZE_MAX implies #[trigger] h.pages_free_direct@[w]
                == first_of(h.queue(spec_bin_for_wsize(w as nat) as int)) by {
                lemma_bin_range(w as nat);
            }
        }
        h
    }

    /// A block of at least `size` bytes, word aligned; 0 when no segment could be had
    /// for it.
    pub fn malloc<A: OsAlloc>(&mut self, size: usize, os_alloc: &mut A) -> (r: usize)
        requires
            old(self).wf(),
        ensures
            final(self).no_new_aligned(*old(self)),
            final(self).wf(),
            r != 0 ==> final(self).serves(r as int, size as int) && r % MI_INTPTR_SIZE == 0,
            r == 0 ==> final(self).segment_failures() > old(self).segment_failures()
                || !huge_request_fits(size as int),
            old(self).ready_block(size as int) matches Some(x) ==> r == x,
            !huge_request_fits(size as int) ==> r == 0,
            r != 0 ==> final(self).page(final(self).page_handle_of(r as int)).used > 0,
            old(self).hook() is None && size <= MI_LARGE_SIZE_MAX && old(self).bin_has_ready_page(
                spec_bin_for_size(size as nat) as int,
            ) ==> r != 0,
    {
        let result = if size <= MI_SMALL_SIZE_MAX {
            let page = self.get_small_free_page(size);
            self.malloc_fast(page, size, os_alloc)
        } else {
            self.malloc_generic(size, os_alloc)
        };
        match result {
            Some((p, _)) => p,
            None => 0,
        }
    }

    /// A block of at least `size` bytes at a multiple of `align`; 0 when no segment could
    /// be had for it, when `size + align - 1` overflows, or when `align` exceeds half a
    /// segment (a pointer that far into a segment could not be traced back to it).
    pub fn malloc_aligned<A: OsAlloc>(&mut self, size: usize, align: usize, os_alloc: &mut A) -> (r:
        usize)
        requires
            old(self).wf(),
            is_power_of_two(align as nat),
        ensures
            align <= MI_INTPTR_SIZE ==> final(self).no_new_aligned(*old(self)),
            final(self).wf(),
            r != 0 ==> final(self).serves(r as int, size as int) && r % align == 0,
            r == 0 ==> final(self).segment_failures() > old(self).segment_failures()
                || !aligned_request_fits(size as int, align as int),
            align > MI_INTPTR_SIZE && (size >= usize::MAX - align || align > MI_SEGMENT_SIZE / 2)
                ==> r == 0 && *final(self) == *old(self) && *final(os_alloc) == *old(os_alloc),
            old(self).ready_block(size as int) matches Some(x) ==> ((align <= MI_INTPTR_SIZE || (x
                % align == 0 && aligned_request_fits(size as int, align as int))) ==> r == x),
            !aligned_request_fits(size as int, align as int) ==> r == 0,
            r != 0 ==> final(self).page(final(self).page_handle_of(r as int)).used > 0,
            align <= MI_INTPTR_SIZE && r != 0 ==> r % MI_INTPTR_SIZE == 0,
            old(self).hook() is None && aligned_request_fits(size as int, align as int) && ({
                let n = if align <= MI_INTPTR_SIZE {
                    size as int
                } else {
                    size + align - 1
                };
                n <= MI_LARGE_SIZE_MAX && old(self).bin_has_ready_page(
                    spec_bin_for_size(n as nat) as int,
                )
            }) ==> r != 0,
    {
        proof {
            lemma_power_of_two_word(align as nat);
        }
        if align <= MI_INTPTR_SIZE {
            let r = self.malloc(size, os_alloc);
            proof {
                if r != 0 {
                    let q = 8int / (align as int);
                    vstd::arithmetic::div_mod::lemma_fundamental_div_mod(8, align as int);
                    let m = (r as int) / 8;
                    vstd::arithmetic::div_mod::lemma_fundamental_div_mod(r as int, 8);
                    assert(r as int == (m * q) * (align as int)) by (nonlinear_arith)
                        requires
                            r as int == 8 * m,
                            8 == (align as int) * q,
                    ;
                    vstd::arithmetic::div_mod::lemma_mod_multiples_basic(m * q, align as int);
                }
            }
            return r;
        }
        if size >= usize::MAX - align || align > MI_SEGMENT_SIZE / 2 {
            return 0;
        }
        if size <= MI_SMALL_SIZE_MAX {
            let page = self.get_small_free_page(size);
            if page != EMPTY_PAGE {
                proof {
                    let pg = self.page(page as int);
                    if pg.free@.len() > 0 {
                        self.lemma_valid_page(page as int);
                        let x = pg.free@.last();
                        assert(pg.free@[pg.free@.len() - 1] == x);
                        assert(self.is_block_of(page as int, x as int));
                        self.lemma_block_serves(page as int, x as int, x as int, 0);
                    }
                }
                let free = self.page_ref(page).free();
                if free != 0 && free % align == 0 {
                    return match self.malloc_fast(page, size, os_alloc) {
                        Some((p, _)) => p,
                        None => 0,
                    };
                }
            }
        }
        match self.malloc_generic(size + align - 1, os_alloc) {
            None => 0,
            Some((p, h)) => {
                self.page_set_aligned(h, true);
                proof {
                    assert(self.is_block_of(h as int, p as int));
                    self.lemma_block_serves(h as int, p as int, p as int, 0);
                    assert(self.page(h as int).block_size >= align);
                }
                let aligned = if p % align == 0 {
                    p
                } else {
                    p - p % align + align
                };
                proof {
                    let bs = self.page(h as int).block_size as int;
                    let s = self.seg(slot_of(h as int));
                    assert(self.valid_handle(h as int));
                    assert(self.page(h as int).is_block(s.payload_addr(idx_of(h as int)), p as int));
                    self.lemma_valid_page(h as int);
                    assert(self.page_ok(h as int));
                    assert(bs % 8 == 0);
                    assert(bs >= align) by {
                        vstd::arithmetic::div_mod::lemma_fundamental_div_mod(align as int, 8);
                        vstd::arithmetic::div_mod::lemma_fundamental_div_mod(bs, 8);
                    }
                    vstd::arithmetic::div_mod::lemma_fundamental_div_mod(p as int, align as int);
                    if p % align != 0 {
                        let a = align as int;
                        let pp = p as int;
                        assert(aligned as int == (pp / a + 1) * a) by (nonlinear_arith)
                            requires
                                pp == a * (pp / a) + pp % a,
                                aligned as int == pp - pp % a + a,
                        ;
                        vstd::arithmetic::div_mod::lemma_fundamental_div_mod_converse(
                            aligned as int,
                            align as int,
                            (p as int) / (align as int) + 1,
                            0,
                        );
                    }
                    self.lemma_block_serves(h as int, p as int, aligned as int, size as int);
                }
                aligned
            },
        }
    }

    /// The fast path: a block of `page` if it has one ready, else the generic path.
    pub fn malloc_fast<A: OsAlloc>(&mut self, page: usize, size: usize, os_alloc: &mut A) -> (r:
        Option<(usize, usize)>)
        requires
            old(self).wf(),
            page == EMPTY_PAGE || (old(self).valid_handle(page as int) && old(self).page(
                page as int,
            ).in_use && old(self).page(page as int).block_size >= size),
        ensures
            final(self).no_new_aligned(*old(self)),
            final(self).wf(),
            r matches Some((p, h)) ==> {
                &&& p > 0
                &&& final(self).page_handle_of(p as int) == h
                &&& final(self).page(h as int).used > 0
                &&& final(self).is_block_of(h as int, p as int)
                &&& final(self).page(h as int).block_size >= size
                &&& final(self).serves(p as int, size as int)
                &&& p % MI_INTPTR_SIZE == 0
                &&& final(self).seg(slot_of(h as int)).segment_size == MI_SEGMENT_SIZE || p
                    == final(self).seg(slot_of(h as int)).payload_addr(0)
            },
            r is None ==> final(self).segment_failures() > old(self).segment_failures()
                || !huge_request_fits(size as int),
            page != EMPTY_PAGE && old(self).page(page as int).free@.len() > 0 ==> r == Some(
                (old(self).page(page as int).free@.last(), page),
            ),
            page != EMPTY_PAGE && old(self).page(page as int).free@.len() > 0 ==> {
                &&& final(self).block_taken(*old(self), page as int)
                &&& *final(os_alloc) == *old(os_alloc)
            },
            page == EMPTY_PAGE || old(self).page(page as int).free@.len() == 0 ==> {
                &&& final(self).heartbeat() == old(self).heartbeat().wrapping_add(1)
                &&& !huge_request_fits(size as int) ==> r is None
                &&& old(self).hook() is None && size <= MI_LARGE_SIZE_MAX
                    && old(self).bin_has_ready_page(spec_bin_for_size(size as nat) as int)
                    ==> r is Some
                &&& r is None ==> forall|sl: int| #[trigger] final(self).live(sl) ==> old(
                    self,
                ).live(sl)
            },
    {
        if page != EMPTY_PAGE && self.page_ref(page).immediate_available() {
            let p = self.take_block(page, size);
            proof {
                self.lemma_block_near_start(page as int, p as int);
            }
            Some((p, page))
        } else {
            self.malloc_generic(size, os_alloc)
        }
    }

    /// The slow path: runs the deferred-free hook, finds or makes a page for `size` bytes
    /// and takes a block of it.
    pub fn malloc_generic<A: OsAlloc>(&mut self, size: usize, os_alloc: &mut A) -> (r: Option<
        (usize, usize),
    >)
        requires
            old(self).wf(),
        ensures
            final(self).no_new_aligned(*old(self)),
            r is None ==> forall|sl: int| #[trigger] final(self).live(sl) ==> old(self).live(sl),
            final(self).wf(),
            r matches Some((p, h)) ==> {
                &&& p > 0
                &&& final(self).page_handle_of(p as int) == h
                &&& final(self).page(h as int).used > 0
                &&& final(self).is_block_of(h as int, p as int)
                &&& final(self).page(h as int).block_size >= size
                &&& final(self).serves(p as int, size as int)
                &&& p % MI_INTPTR_SIZE == 0
                &&& final(self).seg(slot_of(h as int)).segment_size == MI_SEGMENT_SIZE || p
                    == final(self).seg(slot_of(h as int)).payload_addr(0)
            },
            r is None ==> final(self).segment_failures() > old(self).segment_failures()
                || !huge_request_fits(size as int),
            final(self).heartbeat() == old(self).heartbeat().wrapping_add(1),
            !huge_request_fits(size as int) ==> r is None,
            old(self).hook() is None && size <= MI_LARGE_SIZE_MAX && old(self).bin_has_ready_page(
                spec_bin_for_size(size as nat) as int,
            ) ==> r is Some,
            r is None && old(self).hook() is None ==> forall|b: int, g: usize|
                0 <= b < BIN_COUNT && #[trigger] final(self).queue(b).contains(g) ==> old(
                    self,
                ).queue(b).contains(g),
    {
        self.deferred_free(false, os_alloc);
        proof {
            if old(self).hook() is None && size <= MI_LARGE_SIZE_MAX {
                let b = spec_bin_for_size(size as nat) as int;
                assert(self.queue(b) == old(self).queue(b));
                if old(self).bin_has_ready_page(b) {
                    let k = choose|k: int|
                        0 <= k < old(self).queue(b).len() && #[trigger] old(self).page_ready(
                            old(self).queue(b)[k] as int,
                        );
                    assert(self.page_ready(self.queue(b)[k] as int));
                }
            }
        }
        let page = if size <= MI_LARGE_SIZE_MAX {
            proof {
                self.lemma_bin_block_size(size as nat);
            }
            self.find_free_page(size, os_alloc)
        } else {
            self.alloc_huge_page(size, os_alloc)
        };
        match page {
            None => None,
            Some(h) => {
                proof {
                    if size <= MI_LARGE_SIZE_MAX {
                        let b = self.page(h as int).bin;
                        self.lemma_valid_page(h as int);
                        assert(self.page_ok(h as int));
                        lemma_bin_range(spec_wsize(size as nat));
                        self.lemma_bin_block_size(size as nat);
                    }
                }
                let p = self.take_block(h, size);
                proof {
                    self.lemma_block_near_start(h as int, p as int);
                }
                Some((p, h))
            },
        }
    }

    /// Frees the block that holds `p`; a pointer that lies in no page handed out by this
    /// heap (null included), or that its page does not take, is ignored.
    pub fn free<A: OsAlloc>(&mut self, p: usize, os_alloc: &mut A)
        requires
            old(self).wf(),
        ensures
            final(self).no_new_aligned(*old(self)),
            forall|sl: int| #[trigger] final(self).live(sl) ==> old(self).live(sl),
            final(self).heartbeat() == old(self).heartbeat(),
            final(self).wf(),
            final(self).segment_failures() == old(self).segment_failures(),
            !old(self).points_into_page(p as int) ==> *final(self) == *old(self),
            old(self).points_into_page(p as int) ==> {
                let h = old(self).page_handle_of(p as int);
                &&& old(self).accepts_free(h, p as int) ==> {
                    ||| (final(self).valid_handle(h) && final(self).page(h).in_use
                        && final(self).page(h).used == old(self).page(h).used - 1)
                    ||| !final(self).valid_handle(h)
                    ||| !final(self).page(h).in_use
                }
                &&& !old(self).accepts_free(h, p as int) ==> *final(self) == *old(self)
            },
            !old(self).points_into_page(p as int) ==> *final(os_alloc) == *old(os_alloc),
    {
        let base = Segment::of_ptr(p);
        if base == 0 {
            return;
        }
        let slot = match self.segment_slots.get(&base) {
            Some(s) => *s,
            None => {
                return;
            },
        };
        proof {
            assert(self.segment_slots@.contains_key(base));
            assert(self.live(slot as int));
            self.seg(slot as int).lemma_layout_facts();
        }
        let seg = self.segments[slot].as_ref().unwrap();
        let idx = seg.page_of_ptr(p);
        if idx >= seg.capacity || !seg.pages[idx].in_use {
            return;
        }
        let h = slot * MI_SMALL_PAGES_PER_SEGMENT + idx;
        proof {
            lemma_handle(slot as int, idx as int);
        }
        self.free_block(h, p, os_alloc);
    }

    /// Frees the block of page `h` that holds `p`. The page then counts one block less,
    /// unless it was retired; a free that the page does not take changes nothing.
    pub fn free_block<A: OsAlloc>(&mut self, h: usize, p: usize, os_alloc: &mut A)
        requires
            old(self).wf(),
            old(self).valid_handle(h as int),
            old(self).page(h as int).in_use,
        ensures
            final(self).no_new_aligned(*old(self)),
            forall|sl: int| #[trigger] final(self).live(sl) ==> old(self).live(sl),
            old(self).accepts_free(h as int, p as int) && final(self).valid_handle(h as int)
                && final(self).page(h as int).in_use ==> final(self).page(h as int).local_free@
                == old(self).page(h as int).local_free@.push(
                old(self).block_freed(h as int, p as int) as usize,
            ),
            old(self).accepts_free(h as int, p as int) && old(self).page(h as int).flags.full
                && old(self).page(h as int).used >= 2 ==> {
                &&& !final(self).page(h as int).flags.full
                &&& final(self).queue(old(self).page(h as int).bin as int) == old(self).queue(
                    old(self).page(h as int).bin as int,
                ).push(h)
            },
            final(self).heartbeat() == old(self).heartbeat(),
            final(self).wf(),
            final(self).segment_failures() == old(self).segment_failures(),
            old(self).accepts_free(h as int, p as int) ==> {
                ||| (final(self).valid_handle(h as int) && final(self).page(h as int).in_use
                    && final(self).page(h as int).used == old(self).page(h as int).used - 1)
                ||| !final(self).valid_handle(h as int)
                ||| !final(self).page(h as int).in_use
            },
            !old(self).accepts_free(h as int, p as int) ==> *final(self) == *old(self),
            old(self).accepts_free(h as int, p as int) && final(self).valid_handle(h as int)
                && final(self).page(h as int).in_use && final(self).page(h as int).used == 0
                ==> final(self).page(h as int).block_size < MI_LARGE_SIZE_MAX
                && final(self).neighbours_mostly_used(h as int),
    {
        proof {
            self.lemma_valid_page(h as int);
            assert(self.page_ok(h as int) && self.page_shape_ok(h as int));
        }
        let idx = h % MI_SMALL_PAGES_PER_SEGMENT;
        let seg = self.segments[h / MI_SMALL_PAGES_PER_SEGMENT].as_ref().unwrap();
        proof {
            seg.lemma_layout_facts();
        }
        let start = seg.page_payload_addr(idx);
        let page = &seg.pages[idx];
        let bs = page.block_size;
        if p < start || bs == 0 || page.used == 0 {
            return;
        }
        proof {
            let d = (p - start) as int;
            let b = bs as int;
            vstd::arithmetic::div_mod::lemma_fundamental_div_mod(d, b);
            assert(b * (d / b) >= 0) by (nonlinear_arith)
                requires
                    b > 0,
                    d >= 0,
            ;
        }
        let block = if page.flags.is_clear() || !page.flags.has_aligned {
            p
        } else {
            p - (p - start) % bs
        };
        if (block - start) % bs != 0 || (block - start) / bs >= page.capacity {
            return;
        }
        let was_full = page.flags.full;
        self.page_free_block_core(h, block);
        if self.page_ref(h).all_free() {
            if was_full {
                proof {
                    self.lemma_valid_page(h as int);
                }
                self.page_unfull(h);
            }
            if self.should_retire(h) {
                self.retire_page(h, os_alloc);
            }
        } else if was_full {
            proof {
                self.lemma_valid_page(h as int);
            }
            self.page_unfull(h);
        }
    }

    /// Collects the frees of every queued page and retires the pages left with no block
    /// in use; segments left with no page in use go back to the OS allocator.
    pub fn collect<A: OsAlloc>(&mut self, os_alloc: &mut A)
        requires
            old(self).wf(),
        ensures
            final(self).wf(),
            final(self).segment_failures() == old(self).segment_failures(),
            final(self).queued_pages_used(),
            final(self).collected(),
            old(self).collected() ==> final(self).same_state(*old(self)),
            old(self).no_block_in_use() ==> final(self).holds_no_segment()
                && final(self).segment_count() == 0,
            old(self).collected() ==> *final(os_alloc) == *old(os_alloc),
    {
        let ghost nb = self.no_block_in_use();
        let ghost pre = self.collected();
        let mut i: usize = 0;
        while i < BIN_COUNT
            invariant
                self.wf(),
                i <= BIN_COUNT,
                self.segment_failures() == old(self).segment_failures(),
                nb == old(self).no_block_in_use(),
                nb ==> self.no_block_in_use(),
                forall|b: int, j: int|
                    0 <= b < i && 0 <= j < self.queue(b).len() ==> self.page(
                        #[trigger] self.queue(b)[j] as int,
                    ).used > 0,
                nb ==> forall|b: int| 0 <= b < i ==> (#[trigger] self.queue(b)).len() == 0,
                pre == old(self).collected(),
                pre ==> self.same_state(*old(self)),
                pre ==> *os_alloc == *old(os_alloc),
                forall|b: int, j: int|
                    0 <= b < i && 0 <= j < self.queue(b).len() ==> self.page(
                        #[trigger] self.queue(b)[j] as int,
                    ).local_free@.len() == 0,
            decreases BIN_COUNT - i,
        {
            let snap = self.pages[i].to_vec();
            let mut j: usize = 0;
            proof {
                assert forall|g: usize| self.queue(i as int).contains(g) implies exists|k: int|
                    0 <= k < snap@.len() && #[trigger] snap@[k] == g by {
                    let k = choose|k: int| 0 <= k < self.queue(i as int).len() && self.queue(i as int)[k] == g;
                    assert(snap@[k] == g);
                }
            }
            while j < snap.len()
                invariant
                    self.wf(),
                    i < BIN_COUNT,
                    j <= snap@.len(),
                    self.segment_failures() == old(self).segment_failures(),
                    nb ==> self.no_block_in_use(),
                    forall|j1: int, j2: int|
                        0 <= j1 < j2 < snap@.len() ==> #[trigger] snap@[j1] != #[trigger] snap@[j2],
                    forall|k: int| j <= k < snap@.len() ==> self.queue(i as int).contains(#[trigger] snap@[k]),
                    forall|g: usize| #[trigger] self.queue(i as int).contains(g) ==> (self.page(g as int).used > 0
                        && !nb) || exists|k: int| j <= k < snap@.len() && #[trigger] snap@[k] == g,
                    forall|b: int, l: int|
                        0 <= b < i && 0 <= l < self.queue(b).len() ==> self.page(
                            #[trigger] self.queue(b)[l] as int,
                        ).used > 0,
                    nb ==> forall|b: int| 0 <= b < i ==> (#[trigger] self.queue(b)).len() == 0,
                    pre == old(self).collected(),
                    pre ==> self.same_state(*old(self)),
                    pre ==> *os_alloc == *old(os_alloc),
                    pre ==> snap@ == old(self).queue(i as int),
                    forall|b: int, l: int|
                        0 <= b < i && 0 <= l < self.queue(b).len() ==> self.page(
                            #[trigger] self.queue(b)[l] as int,
                        ).local_free@.len() == 0,
                    forall|g: usize| #[trigger] self.queue(i as int).contains(g) ==> self.page(g as int).local_free@.len() == 0
                        || exists|k: int| j <= k < snap@.len() && #[trigger] snap@[k] == g,
                decreases snap@.len() - j,
            {
                let h = snap[j];
                proof {
                    assert(self.queue(i as int).contains(h));
                    let l = choose|l: int| 0 <= l < self.queue(i as int).len() && self.queue(i as int)[l] == h;
                    assert(self.valid_handle(h as int));
                }
                let ghost b1 = *self;
                self.page_free_collect(h);
                proof {
                    assert forall|g: int| #[trigger] self.valid_handle(g) && g != h implies self.page(g) == b1.page(g) by {}
                    assert forall|b: int| 0 <= b < BIN_COUNT implies #[trigger] self.queue(b) == b1.queue(b) by {}
                    if nb {
                        assert forall|g: int| #[trigger] self.valid_handle(g) implies self.page(g).used == 0 by {
                            assert(b1.valid_handle(g));
                        }
                    }
                }
                let ghost b2 = *self;
                if self.page_ref(h).all_free() {
                    proof {
                        assert(self.page(h as int).in_use);
                    }
                    self.retire_page(h, os_alloc);
                    proof {
                        assert forall|g: usize| #[trigger] self.queue(i as int).contains(g) implies (self.page(g as int).used > 0
                            && !nb) || exists|k: int| j + 1 <= k < snap@.len() && #[trigger] snap@[k] == g by {
                            assert(g != h);
                            assert(b2.queue(i as int).contains(g));
                            let l = choose|l: int| 0 <= l < self.queue(i as int).len() && self.queue(i as int)[l] == g;
                            assert(self.valid_handle(g as int));
                            if exists|k: int| j <= k < snap@.len() && #[trigger] snap@[k] == g {
                                let k = choose|k: int| j <= k < snap@.len() && #[trigger] snap@[k] == g;
                                assert(k != j);
                            }
                        }
                        assert forall|k: int| j + 1 <= k < snap@.len() implies self.queue(i as int).contains(#[trigger] snap@[k]) by {
                            assert(snap@[k] != h);
                            assert(b2.queue(i as int).contains(snap@[k]));
                        }
                        assert forall|b: int, l: int|
                            0 <= b < i && 0 <= l < self.queue(b).len() implies self.page(
                                #[trigger] self.queue(b)[l] as int,
                            ).used > 0 by {
                            let g = self.queue(b)[l];
                            assert(self.queue(b).contains(g));
                            assert(g != h);
                            assert(b2.queue(b).contains(g));
                            let l2 = choose|l2: int| 0 <= l2 < b2.queue(b).len() && b2.queue(b)[l2] == g;
                            assert(self.valid_handle(g as int));
                        }
                        if nb {
                            assert forall|b: int| 0 <= b < i implies (#[trigger] self.queue(b)).len() == 0 by {
                                if self.queue(b).len() > 0 {
                                    let g = self.queue(b)[0];
                                    assert(self.queue(b).contains(g));
                                    assert(g != h);
                                    assert(b2.queue(b).contains(g));
                                }
                            }
                            assert forall|g: int| #[trigger] self.valid_handle(g) implies self.page(g).used == 0 by {
                                if g != h {
                                    assert(b2.valid_handle(g));
                                    assert(b2.page(g).used == 0);
                                }
                            }
                        }
                    }
                } else {
                    proof {
                        assert forall|g: usize| #[trigger] self.queue(i as int).contains(g) implies (self.page(g as int).used > 0
                            && !nb) || exists|k: int| j + 1 <= k < snap@.len() && #[trigger] snap@[k] == g by {
                            let l = choose|l: int| 0 <= l < self.queue(i as int).len() && self.queue(i as int)[l] == g;
                            assert(self.valid_handle(g as int));
                            if g == h {
                                if nb {
                                    assert(b1.page(h as int).used == 0);
                                }
                            } else if exists|k: int| j <= k < snap@.len() && #[trigger] snap@[k] == g {
                                let k = choose|k: int| j <= k < snap@.len() && #[trigger] snap@[k] == g;
                                assert(k != j);
                            }
                        }
                    }
                }
                j = j + 1;
            }
            proof {
                assert forall|l: int| 0 <= l < self.queue(i as int).len() implies self.page(
                    #[trigger] self.queue(i as int)[l] as int,
                ).used > 0 by {
                    assert(self.queue(i as int).contains(self.queue(i as int)[l]));
                }
                if nb && self.queue(i as int).len() > 0 {
                    assert(self.queue(i as int).contains(self.queue(i as int)[0]));
                }
            }
            i = i + 1;
        }
        proof {
            if nb {
                assert forall|slot: int| 0 <= slot < self.segments@.len() implies !self.live(slot) by {
                    if self.live(slot) {
                        let s = self.seg(slot);
                        crate::segment::lemma_count_in_use_bounds(s.pages@);
                        let k = choose|k: int| 0 <= k < s.pages@.len() && (#[trigger] s.pages@[k]).in_use;
                        let g = slot * 64 + k;
                        lemma_handle(slot, k);
                        assert(self.valid_handle(g));
                        assert(self.page_ok(g) && self.page_shape_ok(g));
                        self.lemma_valid_page(g);
                        assert(self.queue(self.page(g).bin as int).len() == 0);
                    }
                }
                assert(self.segment_slots@.dom() =~= Set::<usize>::empty()) by {
                    assert forall|k: usize| !self.segment_slots@.dom().contains(k) by {
                        if self.segment_slots@.contains_key(k) {
                            assert(self.live(self.segment_slots@[k] as int));
                        }
                    }
                }
            }
        }
    }

    /// A neighbour in a queue holds most of its blocks; a missing one counts as such.
    pub closed spec fn mostly_used_spec(&self, g: Option<usize>) -> bool {
        match g {
            None => true,
            Some(x) => {
                let p = self.page(x as int);
                p.reserved - p.used < p.reserved / 8
            },
        }
    }

    /// Both neighbours of page `h` in its bin's queue hold most of their blocks.
    pub closed spec fn neighbours_mostly_used(&self, h: int) -> bool {
        let q = self.queue(self.page(h).bin as int);
        let i = crate::list::first_index(q, h as usize);
        &&& self.mostly_used_spec(
            if i == 0 {
                None
            } else {
                Some(q[i - 1])
            },
        )
        &&& self.mostly_used_spec(
            if i + 1 < q.len() {
                Some(q[i + 1])
            } else {
                None
            },
        )
    }

    /// The slots of the small segments with a page slot to spare, in the order they are
    /// used.
    pub closed spec fn small_free(&self) -> Seq<usize> {
        self.small_free_segments@
    }

    /// Page `h` has a block ready, frees to collect, or blocks still to thread.
    pub closed spec fn page_ready(&self, h: int) -> bool {
        let f = self.page(h);
        f.free@.len() > 0 || f.local_free@.len() > 0 || f.capacity < f.reserved
    }

    /// Some page queued for bin `b` has a block ready, frees to collect, or blocks still to
    /// thread.
    pub closed spec fn bin_has_ready_page(&self, b: int) -> bool {
        exists|k: int| 0 <= k < self.queue(b).len() && #[trigger] self.page_ready(self.queue(b)[k] as int)
    }

    /// The first page queued for bin `b` has a block ready, frees to collect, or blocks
    /// still to thread.
    pub closed spec fn first_page_ready(&self, b: int) -> bool {
        let q = self.queue(b);
        &&& q.len() > 0
        &&& {
            let f = self.page(q[0] as int);
            f.free@.len() > 0 || f.local_free@.len() > 0 || f.capacity < f.reserved
        }
    }

    /// The block the fast path hands out for `size` bytes: the head of the fast free list
    /// of the page that the direct table names, when there is one.
    pub closed spec fn ready_block(&self, size: int) -> Option<usize> {
        if size <= MI_SMALL_SIZE_MAX {
            let h = self.direct(spec_wsize(size as nat) as int);
            if h != EMPTY_PAGE && self.page(h as int).free@.len() > 0 {
                Some(self.page(h as int).free@.last())
            } else {
                None
            }
        } else {
            None
        }
    }

    /// Number of runs of the slow path, modulo 2^64.
    pub closed spec fn heartbeat(&self) -> u64 {
        self.heartbeat
    }

    /// The hook run on the slow path, if one is registered.
    pub closed spec fn hook(&self) -> Option<H> {
        self.deferred_free_hook
    }

    /// Registers the hook run on the slow path; it replaces any earlier one.
    pub fn register_deferred_free(&mut self, hook: H)
        requires
            old(self).wf(),
        ensures
            final(self).wf(),
            final(self).hook() == Some(hook),
            final(self).same_state(*old(self)),
    {
        self.deferred_free_hook = Some(hook);
        proof {
            self.lemma_wf_frame(*old(self));
        }
    }

    /// Retires the all-free page `h`: takes it out of its queue, clears its descriptor and
    /// gives its slot back to the segment, which goes back to the OS allocator once no
    /// slot of it is in use.
    pub fn retire_page<A: OsAlloc>(&mut self, h: usize, os_alloc: &mut A)
        requires
            old(self).wf(),
            old(self).valid_handle(h as int),
            old(self).page(h as int).in_use,
            old(self).page(h as int).used == 0,
        ensures
            final(self).no_new_aligned(*old(self)),
            final(self).live(slot_of(h as int)) ==> final(self).seg(slot_of(h as int)).used == old(
                self,
            ).seg(slot_of(h as int)).used - 1 && final(self).page(h as int).is_fresh(),
            !final(self).live(slot_of(h as int)) ==> old(self).seg(slot_of(h as int)).used == 1,
            final(self).heartbeat() == old(self).heartbeat(),
            final(self).wf(),
            final(self).segment_failures() == old(self).segment_failures(),
            forall|g: int|
                #[trigger] final(self).valid_handle(g) && g != h ==> old(self).valid_handle(g)
                    && final(self).page(g) == old(self).page(g),
            forall|b: int, g: usize|
                0 <= b < BIN_COUNT && g != h ==> (#[trigger] final(self).queue(b).contains(g)
                    <==> old(self).queue(b).contains(g)),
            forall|sl: int| #[trigger] final(self).live(sl) ==> old(self).live(sl),
            forall|b: int| 0 <= b < BIN_COUNT ==> !(#[trigger] final(self).queue(b)).contains(h),
            final(self).valid_handle(h as int) ==> final(self).page(h as int).used == 0
                && !final(self).page(h as int).in_use,
    {
        proof {
            self.lemma_valid_page(h as int);
            assert(self.page_ok(h as int) && self.page_shape_ok(h as int));
        }
        let ghost bin = self.page(h as int).bin as int;
        self.page_queue_remove(h);
        let ghost mid = *self;
        proof {
            assert forall|b: int| 0 <= b < BIN_COUNT implies !self.queue(b).contains(h) by {
                if b != bin && self.queue(b).contains(h) {
                    let j = choose|j: int| 0 <= j < self.queue(b).len() && self.queue(b)[j] == h;
                    assert(self.page(self.queue(b)[j] as int).bin == b);
                }
            }
        }
        let slot = h / MI_SMALL_PAGES_PER_SEGMENT;
        let idx = h % MI_SMALL_PAGES_PER_SEGMENT;
        let seg = self.segments[slot].as_mut().unwrap();
        let ghost os = *seg;
        proof {
            os.lemma_layout_facts();
        }
        seg.pages.set(idx, Page::new());
        proof {
            crate::segment::lemma_count_in_use_update(os.pages@, idx as int, seg.pages@[idx as int]);
        }
        let ghost ns = *seg;
        proof {
            assert forall|i: int| 0 <= i < ns.capacity implies ns.page_wf(i) by {
                assert(os.page_wf(i));
                if i != idx {
                    assert(ns.pages@[i] == os.pages@[i]);
                }
            }
            assert(self.segments@ == mid.segments@.update(slot as int, Some(ns)));
            assert forall|g: int| #[trigger] self.valid_handle(g) <==> mid.valid_handle(g) by {
                if slot_of(g) != slot && 0 <= slot_of(g) < self.segments@.len() {
                    assert(self.segments@[slot_of(g)] == mid.segments@[slot_of(g)]);
                }
            }
            assert forall|g: int| #[trigger] self.valid_handle(g) && g != h implies self.page(g)
                == mid.page(g) by {
                if slot_of(g) == slot {
                    assert(idx_of(g) != idx);
                }
            }
            assert forall|b: int, j: int|
                0 <= b < BIN_COUNT && 0 <= j < self.queue(b).len() implies {
                    let g = #[trigger] self.queue(b)[j];
                    &&& self.valid_handle(g as int)
                    &&& self.page(g as int).in_use
                    &&& self.page(g as int).bin == b
                    &&& !self.page(g as int).flags.full
                } by {
                let g = mid.queue(b)[j];
                assert(mid.valid_handle(g as int));
                assert(g != h);
            }
            assert forall|g: int| #[trigger] self.valid_handle(g) && g != -1 implies self.page_ok(g)
                && self.page_shape_ok(g) by {
                if g != h {
                    assert(mid.page_ok(g) && mid.page_shape_ok(g));
                }
            }
            assert forall|b: int, j1: int, j2: int|
                0 <= b < BIN_COUNT && 0 <= j1 < j2 < self.queue(b).len() implies #[trigger] self.queue(
                    b,
                )[j1] != #[trigger] self.queue(b)[j2] by {
                assert(mid.queue(b)[j1] != mid.queue(b)[j2]);
            }
            self.lemma_tables_frame(mid);
            assert forall|sl: int| #[trigger] self.live(sl) && sl != slot implies {
                let s = self.seg(sl);
                &&& s.wf()
                &&& s.used > 0
                &&& (s.segment_size != MI_SEGMENT_SIZE ==> s.pages@[0].reserved <= 1)
                &&& self.segment_slots@.contains_key(s.base)
                &&& self.segment_slots@[s.base] == sl
            } by {
                assert(mid.live(sl));
            }
            assert forall|b: usize| #[trigger] self.segment_slots@.contains_key(b) implies {
                &&& self.live(self.segment_slots@[b] as int)
                &&& self.seg(self.segment_slots@[b] as int).base == b
            } by {
                assert(mid.segment_slots@.contains_key(b));
                assert(mid.live(mid.segment_slots@[b] as int));
            }
            assert forall|j: int| 0 <= j < self.small_free_segments@.len() implies {
                let sl = #[trigger] self.small_free_segments@[j] as int;
                &&& self.live(sl)
                &&& self.seg(sl).capacity == MI_SMALL_PAGES_PER_SEGMENT
                &&& self.seg(sl).used < MI_SMALL_PAGES_PER_SEGMENT
            } by {
                let sl = self.small_free_segments@[j] as int;
                assert(mid.live(sl));
            }
            assert forall|j1: int, j2: int|
                0 <= j1 < j2 < self.small_free_segments@.len() implies #[trigger] self.small_free_segments@[j1]
                    != #[trigger] self.small_free_segments@[j2] by {
                assert(mid.small_free_segments@[j1] != mid.small_free_segments@[j2]);
            }
            assert(self.wf_page_cleared(slot as int));
        }
        let ghost cl = *self;
        self.remove_a_page(slot, os_alloc);
        proof {
            assert forall|g: int| #[trigger] self.valid_handle(g) && g != h implies old(self).valid_handle(g)
                && self.page(g) == old(self).page(g) by {
                assert(cl.valid_handle(g));
            }
            assert forall|b: int, g: usize|
                0 <= b < BIN_COUNT && g != h implies (#[trigger] self.queue(b).contains(g)
                    <==> old(self).queue(b).contains(g)) by {
                assert(self.queue(b) == mid.queue(b));
            }
            assert forall|b: int| 0 <= b < BIN_COUNT implies !(#[trigger] self.queue(b)).contains(h) by {
                assert(self.queue(b) == mid.queue(b));
            }
            if self.valid_handle(h as int) {
                assert(cl.valid_handle(h as int));
                assert(self.page(h as int) == ns.pages@[idx as int]);
            }
        }
    }

    /// Gives back the page slot of segment `slot` whose descriptor was just cleared. A
    /// segment with no slot in use goes back to the OS allocator; a small segment that
    /// was full becomes one with a slot to spare.
    fn remove_a_page<A: OsAlloc>(&mut self, slot: usize, os_alloc: &mut A)
        requires
            old(self).wf_page_cleared(slot as int),
        ensures
            final(self).no_new_aligned(*old(self)),
            old(self).seg(slot as int).used == 1 <==> !final(self).live(slot as int),
            final(self).live(slot as int) ==> final(self).seg(slot as int).used == old(self).seg(
                slot as int,
            ).used - 1 && final(self).seg(slot as int).pages@ == old(self).seg(slot as int).pages@,
            old(self).seg(slot as int).used > 1 ==> final(self).small_free() == if old(self).seg(
                slot as int,
            ).used == old(self).seg(slot as int).capacity {
                old(self).small_free().push(slot)
            } else {
                old(self).small_free()
            },
            final(self).heartbeat() == old(self).heartbeat(),
            final(self).wf(),
            final(self).segment_failures() == old(self).segment_failures(),
            forall|g: int|
                #[trigger] final(self).valid_handle(g) ==> old(self).valid_handle(g)
                    && final(self).page(g) == old(self).page(g),
            forall|b: int| 0 <= b < BIN_COUNT ==> #[trigger] final(self).queue(b) == old(self).queue(b),
            forall|sl: int| #[trigger] final(self).live(sl) ==> old(self).live(sl),
    {
        let seg = self.segments[slot].as_mut().unwrap();
        let ghost os = *seg;
        proof {
            os.lemma_layout_facts();
        }
        seg.used = seg.used - 1;
        let used = seg.used;
        let capacity = seg.capacity;
        let base = seg.base;
        let segment_size = seg.segment_size;
        let ghost ns = *seg;
        proof {
            assert forall|i: int| 0 <= i < ns.capacity implies ns.page_wf(i) by {
                assert(os.page_wf(i));
            }
            assert(ns.wf());
            assert(self.segments@ == old(self).segments@.update(slot as int, Some(ns)));
            assert forall|g: int| #[trigger] self.valid_handle(g) <==> old(self).valid_handle(g) by {
                if slot_of(g) != slot && 0 <= slot_of(g) < self.segments@.len() {
                    assert(self.segments@[slot_of(g)] == old(self).segments@[slot_of(g)]);
                }
            }
            assert forall|g: int| #[trigger] self.valid_handle(g) implies self.page(g)
                == old(self).page(g) by {
            }
            assert forall|b: int, j: int|
                0 <= b < BIN_COUNT && 0 <= j < self.queue(b).len() implies {
                    let g = #[trigger] self.queue(b)[j];
                    &&& self.valid_handle(g as int)
                    &&& self.page(g as int).in_use
                    &&& self.page(g as int).bin == b
                    &&& !self.page(g as int).flags.full
                } by {
                let g = old(self).queue(b)[j];
                assert(old(self).valid_handle(g as int));
            }
            assert forall|g: int| #[trigger] self.valid_handle(g) && g != -1 implies self.page_ok(g)
                && self.page_shape_ok(g) by {
                assert(old(self).page_ok(g) && old(self).page_shape_ok(g));
            }
            assert forall|b: int, j1: int, j2: int|
                0 <= b < BIN_COUNT && 0 <= j1 < j2 < self.queue(b).len() implies #[trigger] self.queue(
                    b,
                )[j1] != #[trigger] self.queue(b)[j2] by {
                assert(old(self).queue(b)[j1] != old(self).queue(b)[j2]);
            }
            self.lemma_tables_frame(*old(self));
            assert(self.wf_queues(-1));
        }
        let ghost st = *self;
        proof {
            assert(self.pages@ == old(self).pages@);
        }
        if used == 0 {
            proof {
                crate::segment::lemma_count_in_use_bounds(ns.pages@);
            }
            self.segments.set(slot, None);
            self.segment_slots.remove(&base);
            let ghost before_list = *self;
            self.remove_small_free_segment(slot);
            os_alloc.deallocate(base, segment_size, MI_SEGMENT_SIZE);
            proof {
                assert(old(self).live(slot as int));
                assert forall|sl: int| #[trigger] self.live(sl) implies {
                    let s = self.seg(sl);
                    &&& s.wf()
                    &&& s.used > 0
                    &&& (s.segment_size != MI_SEGMENT_SIZE ==> s.pages@[0].reserved <= 1)
                    &&& self.segment_slots@.contains_key(s.base)
                    &&& self.segment_slots@[s.base] == sl
                } by {
                    assert(old(self).live(sl));
                    assert(sl != slot);
                    assert(old(self).segment_slots@[old(self).seg(sl).base] == sl);
                }
                assert forall|b: usize| #[trigger] self.segment_slots@.contains_key(b) implies {
                    &&& self.live(self.segment_slots@[b] as int)
                    &&& self.seg(self.segment_slots@[b] as int).base == b
                } by {
                    assert(old(self).segment_slots@.contains_key(b));
                    assert(old(self).live(old(self).segment_slots@[b] as int));
                }
                assert forall|g: int| #[trigger] st.valid_handle(g) && st.page(g).in_use implies slot_of(g) != slot by {
                    if slot_of(g) == slot {
                        assert(ns.pages@[idx_of(g)] == st.page(g));
                    }
                }
                assert forall|g: int| #[trigger] self.valid_handle(g) implies st.valid_handle(g) && self.page(g) == st.page(g) by {
                    assert(self.segments@[slot_of(g)] == st.segments@[slot_of(g)]);
                }
                assert forall|b: int, j: int|
                    0 <= b < BIN_COUNT && 0 <= j < self.queue(b).len() implies {
                        let g = #[trigger] self.queue(b)[j];
                        &&& self.valid_handle(g as int)
                        &&& self.page(g as int).in_use
                        &&& self.page(g as int).bin == b
                        &&& !self.page(g as int).flags.full
                    } by {
                    let g = st.queue(b)[j];
                    assert(st.valid_handle(g as int) && st.page(g as int).in_use);
                    assert(slot_of(g as int) != slot);
                    assert(self.segments@[slot_of(g as int)] == st.segments@[slot_of(g as int)]);
                }
                assert forall|b: int, j1: int, j2: int|
                    0 <= b < BIN_COUNT && 0 <= j1 < j2 < self.queue(b).len() implies #[trigger] self.queue(
                        b,
                    )[j1] != #[trigger] self.queue(b)[j2] by {
                    assert(st.queue(b)[j1] != st.queue(b)[j2]);
                }
                assert forall|g: int| #[trigger] self.valid_handle(g) && g != -1 implies self.page_ok(g)
                    && self.page_shape_ok(g) by {
                    assert(st.page_ok(g) && st.page_shape_ok(g));
                }
                assert forall|j: int| 0 <= j < self.small_free_segments@.len() implies {
                    let sl = #[trigger] self.small_free_segments@[j] as int;
                    &&& self.live(sl)
                    &&& self.seg(sl).capacity == MI_SMALL_PAGES_PER_SEGMENT
                    &&& self.seg(sl).used < MI_SMALL_PAGES_PER_SEGMENT
                } by {
                    let sl = self.small_free_segments@[j];
                    assert(self.small_free_segments@.contains(sl));
                    assert(before_list.small_free_segments@.contains(sl));
                    let k = choose|k: int| 0 <= k < st.small_free_segments@.len() && st.small_free_segments@[k] == sl;
                    assert(st.live(sl as int));
                }
                self.lemma_tables_frame(st);
                assert(self.segment_slots@.dom() == old(self).segment_slots@.dom().remove(base));
            }
        } else {
            proof {
                assert forall|sl: int| #[trigger] self.live(sl) implies {
                    let s = self.seg(sl);
                    &&& s.wf()
                    &&& s.used > 0
                    &&& (s.segment_size != MI_SEGMENT_SIZE ==> s.pages@[0].reserved <= 1)
                    &&& self.segment_slots@.contains_key(s.base)
                    &&& self.segment_slots@[s.base] == sl
                } by {
                    assert(old(self).live(sl));
                    if sl == slot as int {
                        assert(ns.pages@[0].reserved <= 1 || ns.segment_size == MI_SEGMENT_SIZE);
                    }
                }
                assert forall|b: usize| #[trigger] self.segment_slots@.contains_key(b) implies {
                    &&& self.live(self.segment_slots@[b] as int)
                    &&& self.seg(self.segment_slots@[b] as int).base == b
                } by {
                    assert(old(self).segment_slots@.contains_key(b));
                    assert(old(self).live(old(self).segment_slots@[b] as int));
                }
                assert forall|j: int| 0 <= j < self.small_free_segments@.len() implies {
                    let sl = #[trigger] self.small_free_segments@[j] as int;
                    &&& self.live(sl)
                    &&& self.seg(sl).capacity == MI_SMALL_PAGES_PER_SEGMENT
                    &&& self.seg(sl).used < MI_SMALL_PAGES_PER_SEGMENT
                } by {
                    let sl = self.small_free_segments@[j] as int;
                    assert(old(self).live(sl));
                }
                assert forall|j1: int, j2: int|
                    0 <= j1 < j2 < self.small_free_segments@.len() implies #[trigger] self.small_free_segments@[j1]
                        != #[trigger] self.small_free_segments@[j2] by {
                    assert(old(self).small_free_segments@[j1] != old(self).small_free_segments@[j2]);
                }
                assert(self.wf());
            }
            if used + 1 == capacity {
                proof {
                    if self.small_free_segments@.contains(slot) {
                        let j = choose|j: int| 0 <= j < self.small_free_segments@.len() && self.small_free_segments@[j] == slot;
                        assert(old(self).seg(slot as int).used < MI_SMALL_PAGES_PER_SEGMENT);
                    }
                }
                self.push_small_free_segment(slot);
                proof {
                    self.lemma_queues_frame(st, -1);
                    self.lemma_same_segments_wf(st);
                    self.lemma_tables_frame(st);
                }
            }
        }
        proof {
            assert forall|b: int| 0 <= b < BIN_COUNT implies #[trigger] self.queue(b) == old(self).queue(b) by {}
        }
    }

    /// A page holding blocks counts them within what it has threaded, threads within
    /// what it can hold, and holds no more than its payload.
    pub proof fn lemma_live_page_counts(&self, h: int)
        requires
            self.wf(),
            self.valid_handle(h),
            self.page(h).in_use,
            self.page(h).used > 0,
        ensures
            0 < self.page(h).used <= self.page(h).capacity <= self.page(h).reserved,
            self.page(h).capacity * self.page(h).block_size <= self.payload_size(h),
    {
        self.lemma_valid_page(h);
        let p = self.page(h);
        assert(p.capacity * p.block_size <= p.reserved * p.block_size) by (nonlinear_arith)
            requires
                p.capacity <= p.reserved,
        ;
    }

    /// A served address lies in an in-use page of this heap, whose blocks hold the request
    /// and which a free of that address reaches.
    pub proof fn lemma_serves(&self, p: int, size: int)
        requires
            self.wf(),
            self.serves(p, size),
            size >= 0,
        ensures
            self.points_into_page(p),
            self.valid_handle(self.page_handle_of(p)),
            self.page(self.page_handle_of(p)).in_use,
            self.page(self.page_handle_of(p)).block_size >= size,
            p > 0,
    {
        let base = p - p % (MI_SEGMENT_SIZE as int);
        let slot = self.segment_slots@[base as usize] as int;
        let s = self.seg(slot);
        assert(self.live(slot));
        s.lemma_layout_facts();
        let i = (p - base) / (s.page_size as int);
        lemma_handle(slot, i);
        let blk = choose|blk: int|
            #[trigger] s.pages@[i].is_block(s.payload_addr(i), blk) && blk <= p && p < blk
                + s.pages@[i].block_size && p + size <= blk + s.pages@[i].block_size;
        assert(base > 0);
    }

    /// Address of the payload of page `h`.
    pub closed spec fn payload_start(&self, h: int) -> int {
        self.seg(slot_of(h)).payload_addr(idx_of(h))
    }

    /// A served request stays inside one block among those its page has threaded.
    pub proof fn lemma_serves_block(&self, p: int, size: int)
        requires
            self.wf(),
            self.serves(p, size),
            size >= 0,
        ensures
            ({
                let h = self.page_handle_of(p);
                let pg = self.page(h);
                exists|blk: int|
                    #[trigger] pg.is_block(self.payload_start(h), blk) && blk <= p && p < blk
                        + pg.block_size && p + size <= blk + pg.block_size && blk + pg.block_size
                        <= self.payload_start(h) + pg.capacity * pg.block_size
            }),
    {
        self.lemma_serves(p, size);
        let h = self.page_handle_of(p);
        let pg = self.page(h);
        let start = self.payload_start(h);
        let blk = choose|blk: int|
            #[trigger] pg.is_block(start, blk) && blk <= p && p < blk + pg.block_size && p + size
                <= blk + pg.block_size;
        let bs = pg.block_size as int;
        let k = (blk - start) / bs;
        vstd::arithmetic::div_mod::lemma_fundamental_div_mod(blk - start, bs);
        assert(blk - start == k * bs) by (nonlinear_arith)
            requires
                blk - start == bs * ((blk - start) / bs) + (blk - start) % bs,
                (blk - start) % bs == 0,
                k == (blk - start) / bs,
        ;
        assert((k + 1) * bs <= pg.capacity * bs) by (nonlinear_arith)
            requires
                k + 1 <= pg.capacity,
                bs > 0,
        ;
        assert(blk + bs == start + (k + 1) * bs) by (nonlinear_arith)
            requires
                blk - start == k * bs,
        ;
    }

    /// A heap that holds no segment has empty queues, an empty small-segment list, no
    /// page, and a direct table of empty pages only.
    pub proof fn lemma_no_segment_empty(&self)
        requires
            self.wf(),
            self.holds_no_segment(),
        ensures
            forall|b: int| 0 <= b < BIN_COUNT ==> (#[trigger] self.queue(b)).len() == 0,
            self.small_free().len() == 0,
            forall|h: int| !#[trigger] self.valid_handle(h),
            forall|w: int| 0 <= w <= MI_SMALL_WSIZE_MAX ==> #[trigger] self.direct(w) == EMPTY_PAGE,
    {
        assert forall|b: int| 0 <= b < BIN_COUNT implies (#[trigger] self.queue(b)).len() == 0 by {
            if self.queue(b).len() > 0 {
                assert(self.valid_handle(self.queue(b)[0] as int));
            }
        }
        if self.small_free().len() > 0 {
            assert(self.live(self.small_free_segments@[0] as int));
        }
        assert forall|w: int| 0 <= w <= MI_SMALL_WSIZE_MAX implies #[trigger] self.direct(w)
            == EMPTY_PAGE by {
            lemma_bin_range(w as nat);
            assert(self.pages_free_direct@[w] == first_of(
                self.queue(spec_bin_for_wsize(w as nat) as int),
            ));
        }
    }

    /// What `same_state` fixes.
    pub proof fn lemma_same_state(&self, o: Self)
        requires
            self.same_state(o),
        ensures
            forall|b: int| #[trigger] self.queue(b) == o.queue(b),
            forall|w: int| #[trigger] self.direct(w) == o.direct(w),
            forall|h: int| #[trigger] self.valid_handle(h) <==> o.valid_handle(h),
            forall|h: int| #[trigger] self.page(h) == o.page(h),
            forall|sl: int| #[trigger] self.live(sl) <==> o.live(sl),
            self.small_free() == o.small_free(),
            self.segment_count() == o.segment_count(),
            self.heartbeat() == o.heartbeat(),
    {
    }

    /// No address in the first segment-sized window, null included, lies in a page.
    pub proof fn lemma_low_addresses_not_in_page(&self, p: int)
        requires
            0 <= p < MI_SEGMENT_SIZE,
        ensures
            !self.points_into_page(p),
    {
        vstd::arithmetic::div_mod::lemma_small_mod(p as nat, MI_SEGMENT_SIZE as nat);
    }

    /// Every page in the queue of bin `b` is in use, belongs to that bin and is not full.
    pub proof fn lemma_queue_pages(&self, b: int, j: int)
        requires
            self.wf(),
            0 <= b < BIN_COUNT,
            0 <= j < self.queue(b).len(),
        ensures
            self.valid_handle(self.queue(b)[j] as int),
            self.page(self.queue(b)[j] as int).in_use,
            self.page(self.queue(b)[j] as int).bin == b,
            !self.page(self.queue(b)[j] as int).flags.full,
    {
    }

    /// A page marked full is in no queue.
    pub proof fn lemma_full_page_not_queued(&self, h: int, b: int)
        requires
            self.wf(),
            self.valid_handle(h),
            self.page(h).in_use,
            self.page(h).flags.full,
            0 <= b < BIN_COUNT,
        ensures
            !self.queue(b).contains(h as usize),
    {
        assert(self.page_shape_ok(h));
        self.lemma_valid_page(h);
        if self.queue(b).contains(h as usize) {
            let j = choose|j: int| 0 <= j < self.queue(b).len() && self.queue(b)[j] == h as usize;
            assert(!self.page(self.queue(b)[j] as int).flags.full);
        }
    }

    /// Direct slot `w` names the first page of the bin of `w`, or the empty page; slots
    /// of word counts of one bin name the same page.
    pub proof fn lemma_direct_table(&self, w: int, v: int)
        requires
            self.wf(),
            0 <= w <= MI_SMALL_WSIZE_MAX,
            0 <= v <= MI_SMALL_WSIZE_MAX,
        ensures
            self.direct(w) == first_of(self.queue(spec_bin_for_wsize(w as nat) as int)),
            spec_bin_for_wsize(w as nat) == spec_bin_for_wsize(v as nat) ==> self.direct(w)
                == self.direct(v),
    {
        assert(self.pages_free_direct@[w] == first_of(
            self.queue(spec_bin_for_wsize(w as nat) as int),
        ));
        assert(self.pages_free_direct@[v] == first_of(
            self.queue(spec_bin_for_wsize(v as nat) as int),
        ));
    }

    /// The page that the direct table names for requests of `size` bytes.
    fn get_small_free_page(&self, size: usize) -> (r: usize)
        requires
            self.wf(),
            size <= MI_SMALL_SIZE_MAX,
        ensures
            r == self.pages_free_direct@[spec_wsize(size as nat) as int],
            r == EMPTY_PAGE || (self.valid_handle(r as int) && self.page(r as int).in_use
                && self.page(r as int).block_size >= size),
    {
        let wsize = wsize_from_size(size);
        let r = self.pages_free_direct[wsize];
        proof {
            let b = spec_bin_for_wsize(wsize as nat);
            lemma_bin_range(wsize as nat);
            assert(r == first_of(self.queue(b as int)));
            if r != EMPTY_PAGE {
                assert(self.queue(b as int)[0] == r);
                assert(self.valid_handle(r as int));
                assert(self.page_ok(r as int));
                self.lemma_bin_block_size(size as nat);
            }
        }
        r
    }

    /// Takes a block of page `h`, which has one ready.
    fn take_block(&mut self, h: usize, size: usize) -> (r: usize)
        requires
            old(self).wf(),
            old(self).valid_handle(h as int),
            old(self).page(h as int).in_use,
            old(self).page(h as int).free@.len() > 0,
            old(self).page(h as int).block_size >= size,
        ensures
            final(self).no_new_aligned(*old(self)),
            final(self).page_handle_of(r as int) == h,
            final(self).block_taken(*old(self), h as int),
            final(self).hook() == old(self).hook(),
            final(self).page(h as int).free@ == old(self).page(h as int).free@.drop_last(),
            final(self).page(h as int).used == old(self).page(h as int).used + 1,
            final(self).page(h as int).local_free@ == old(self).page(h as int).local_free@,
            final(self).heartbeat() == old(self).heartbeat(),
            final(self).wf(),
            r == old(self).page(h as int).free@.last(),
            r > 0,
            final(self).is_block_of(h as int, r as int),
            final(self).serves(r as int, size as int),
            r % MI_INTPTR_SIZE == 0,
            final(self).page(h as int).block_size == old(self).page(h as int).block_size,
            final(self).segment_failures@ == old(self).segment_failures@,
            final(self).segment_count() == old(self).segment_count(),
    {
        proof {
            self.lemma_valid_page(h as int);
            let pg = self.page(h as int);
            let s = self.seg(slot_of(h as int));
            assert(pg.free@.contains(pg.free@.last()));
            assert(pg.is_block(s.payload_addr(idx_of(h as int)), pg.free@[pg.free@.len() - 1] as int));
        }
        let r = self.page_take_free_block(h);
        proof {
            let os = old(self).seg(slot_of(h as int));
            let ns = self.seg(slot_of(h as int));
            assert(ns.payload_addr(idx_of(h as int)) == os.payload_addr(idx_of(h as int)));
            assert(old(self).page(h as int).is_block(os.payload_addr(idx_of(h as int)), r as int));
            assert(self.page(h as int).is_block(ns.payload_addr(idx_of(h as int)), r as int));
            assert(self.is_block_of(h as int, r as int));
            self.lemma_block_serves(h as int, r as int, r as int, size as int);
        }
        r
    }

    /// A page of bin `bin` with a block ready: the first page if collecting its frees is
    /// enough, else the first page of the queue that has or can thread a block (pages
    /// found without any block left are marked full and leave the queue), else a fresh
    /// page. Up to eight all-free pages are passed over for pages in use, and all but the
    /// last of them are retired.
    fn find_free_page<A: OsAlloc>(&mut self, size: usize, os_alloc: &mut A) -> (r: Option<usize>)
        requires
            old(self).wf(),
            size <= MI_LARGE_SIZE_MAX,
        ensures
            final(self).no_new_aligned(*old(self)),
            r is None ==> forall|sl: int| #[trigger] final(self).live(sl) ==> old(self).live(sl),
            final(self).heartbeat() == old(self).heartbeat(),
            final(self).wf(),
            r matches Some(h) ==> {
                &&& final(self).valid_handle(h as int)
                &&& final(self).page(h as int).in_use
                &&& !final(self).page(h as int).flags.full
                &&& final(self).page(h as int).bin == spec_bin_for_size(size as nat)
                &&& final(self).page(h as int).free@.len() > 0
                &&& final(self).segment_failures@ == old(self).segment_failures@
            },
            r is None ==> final(self).segment_failures@ == old(self).segment_failures@ + 1,
            old(self).first_page_ready(spec_bin_for_size(size as nat) as int) ==> r == Some(
                old(self).queue(spec_bin_for_size(size as nat) as int)[0],
            ),
            old(self).bin_has_ready_page(spec_bin_for_size(size as nat) as int) ==> r is Some,
            r is None ==> forall|b: int, g: usize|
                0 <= b < BIN_COUNT && #[trigger] final(self).queue(b).contains(g) ==> old(
                    self,
                ).queue(b).contains(g),
    {
        let bin = bin_for_size(size);
        let ghost any = exists|k: int|
            0 <= k < old(self).queue(bin as int).len() && #[trigger] old(self).page_ready(
                old(self).queue(bin as int)[k] as int,
            );
        let ghost ext = old(self).first_page_ready(bin as int) && old(self).page(
            old(self).queue(bin as int)[0] as int,
        ).free@.len() == 0 && old(self).page(old(self).queue(bin as int)[0] as int).local_free@.len()
            == 0;
        let ghost first0 = if old(self).queue(bin as int).len() > 0 {
            old(self).queue(bin as int)[0]
        } else {
            0
        };
        proof {
            lemma_bin_range(spec_wsize(size as nat));
        }
        match self.pages[bin].first() {
            Some(first) => {
                proof {
                    assert(self.queue(bin as int)[0] == first);
                }
                proof {
                    assert(self.valid_handle(first as int));
                }
                self.page_free_collect(first);
                if self.page_ref(first).immediate_available() {
                    proof {
                        assert(self.queue(bin as int)[0] == first);
                    }
                    return Some(first);
                }
                proof {
                    if old(self).first_page_ready(bin as int) {
                        assert(ext);
                    }
                    self.lemma_handle_not_empty(first as int);
                    assert(self.queue(bin as int) == old(self).queue(bin as int));
                    if any {
                        let q = old(self).queue(bin as int);
                        let k = choose|k: int| 0 <= k < q.len() && #[trigger] old(self).page_ready(
                            q[k] as int,
                        );
                        if k != 0 {
                            assert(q[0] != q[k]);
                            assert(old(self).valid_handle(q[k] as int));
                            assert(self.page(q[k] as int) == old(self).page(q[k] as int));
                        }
                        assert(self.page_ready(self.queue(bin as int)[k] as int));
                    }
                }
            },
            None => {},
        }
        let snap = self.pages[bin].to_vec();
        let ghost st_loop = *self;
        proof {
            if any {
                assert(self.queue(bin as int).len() > 0);
                let k = choose|k: int|
                    0 <= k < self.queue(bin as int).len() && #[trigger] self.page_ready(
                        self.queue(bin as int)[k] as int,
                    );
                assert(st_loop.page_ready(snap@[k] as int));
            }
        }
        let mut page_to_retire: usize = EMPTY_PAGE;
        let mut found: usize = EMPTY_PAGE;
        let mut page_free_count: usize = 0;
        let mut i: usize = 0;
        let ghost fails = self.segment_failures@;
        while i < snap.len() && found == EMPTY_PAGE
            invariant
                self.wf(),
                1 <= bin <= 60,
                bin == spec_bin_for_size(size as nat),
                self.segment_failures@ == fails,
                self.heartbeat == old(self).heartbeat,
                forall|sl: int| #[trigger] self.live(sl) ==> old(self).live(sl),
                self.no_new_aligned(*old(self)),
                forall|b: int, g: usize|
                    0 <= b < BIN_COUNT && #[trigger] self.queue(b).contains(g) ==> old(
                        self,
                    ).queue(b).contains(g),
                ext ==> snap@.len() > 0 && snap@[0] == first0 && first0 != EMPTY_PAGE,
                ext ==> (i == 0 && found == EMPTY_PAGE && page_to_retire == EMPTY_PAGE
                    && self.page(first0 as int).free@.len() == 0
                    && self.page(first0 as int).local_free@.len() == 0
                    && self.page(first0 as int).capacity < self.page(first0 as int).reserved) || (i
                    >= 1 && found == first0 && page_to_retire == EMPTY_PAGE),
                i <= snap@.len(),
                forall|j1: int, j2: int| 0 <= j1 < j2 < snap@.len() ==> #[trigger] snap@[j1] != #[trigger] snap@[j2],
                forall|k: int| i <= k < snap@.len() ==> self.queue(bin as int).contains(#[trigger] snap@[k]),
                page_free_count <= 8,
                forall|k: int|
                    i <= k < snap@.len() ==> #[trigger] self.page(snap@[k] as int) == st_loop.page(
                        snap@[k] as int,
                    ),
                any ==> found != EMPTY_PAGE || page_to_retire != EMPTY_PAGE || exists|k: int|
                    i <= k < snap@.len() && #[trigger] st_loop.page_ready(snap@[k] as int),
                page_to_retire != EMPTY_PAGE ==> {
                    &&& self.queue(bin as int).contains(page_to_retire)
                    &&& self.page(page_to_retire as int).used == 0
                    &&& self.page(page_to_retire as int).free@.len() > 0
                    &&& forall|k: int| i <= k < snap@.len() ==> snap@[k] != page_to_retire
                },
                found != EMPTY_PAGE ==> {
                    &&& self.queue(bin as int).contains(found)
                    &&& self.page(found as int).free@.len() > 0
                    &&& found != page_to_retire
                },
            decreases snap@.len() - i,
        {
            let p = snap[i];
            proof {
                assert(self.queue(bin as int).contains(p));
                let j = choose|j: int| 0 <= j < self.queue(bin as int).len() && self.queue(bin as int)[j] == p;
                assert(self.valid_handle(p as int));
            }
            proof {
                if ext {
                    assert(p == first0);
                }
            }
            let ghost before = *self;
            self.page_free_collect(p);
            proof {
                assert forall|b: int, g: usize| 0 <= b < BIN_COUNT && #[trigger] self.queue(b).contains(g) implies before.queue(
                    b,
                ).contains(g) by {
                    assert(self.queue(b) == before.queue(b));
                }
                assert forall|k: int| i < k < snap@.len() implies #[trigger] self.page(
                    snap@[k] as int,
                ) == before.page(snap@[k] as int) by {
                    assert(snap@[k] != p);
                    assert(before.queue(bin as int).contains(snap@[k]));
                    let j = choose|j: int|
                        0 <= j < before.queue(bin as int).len() && before.queue(bin as int)[j]
                            == snap@[k];
                    assert(before.valid_handle(snap@[k] as int));
                }
                assert forall|k: int| i <= k < snap@.len() implies self.queue(bin as int).contains(#[trigger] snap@[k]) by {
                    assert(self.queue(bin as int) == before.queue(bin as int));
                }
                if page_to_retire != EMPTY_PAGE {
                    assert(page_to_retire != p);
                    assert(self.page(page_to_retire as int) == before.page(page_to_retire as int));
                }
            }
            proof {
                if ext {
                    assert(self.page(p as int).free@.len() == 0);
                }
            }
            if self.page_ref(p).immediate_available() {
                if page_free_count < 8 && self.page_ref(p).all_free() {
                    page_free_count = page_free_count + 1;
                    if page_to_retire != EMPTY_PAGE {
                        let ghost b2 = *self;
                        proof {
                            let j = choose|j: int| 0 <= j < self.queue(bin as int).len() && self.queue(bin as int)[j] == page_to_retire;
                            assert(self.valid_handle(page_to_retire as int));
                        }
                        self.retire_page(page_to_retire, os_alloc);
                        proof {
                            assert forall|b: int, g: usize| 0 <= b < BIN_COUNT && #[trigger] self.queue(b).contains(g) implies b2.queue(
                                b,
                            ).contains(g) by {
                                assert(g != page_to_retire);
                            }
                            assert forall|k: int| i < k < snap@.len() implies #[trigger] self.page(
                                snap@[k] as int,
                            ) == b2.page(snap@[k] as int) by {
                                assert(b2.queue(bin as int).contains(snap@[k]));
                                assert(self.queue(bin as int).contains(snap@[k]));
                                let j = choose|j: int|
                                    0 <= j < self.queue(bin as int).len() && self.queue(
                                        bin as int,
                                    )[j] == snap@[k];
                                assert(self.valid_handle(snap@[k] as int));
                            }
                            assert(p != page_to_retire);
                            assert forall|k: int| i <= k < snap@.len() implies self.queue(bin as int).contains(#[trigger] snap@[k]) by {
                                assert(b2.queue(bin as int).contains(snap@[k]));
                            }
                            let j = choose|j: int| 0 <= j < self.queue(bin as int).len() && self.queue(bin as int)[j] == p;
                            assert(self.valid_handle(p as int));
                        }
                    }
                    page_to_retire = p;
                } else {
                    found = p;
                }
            } else {
                let ghost b3 = *self;
                self.page_extend(p);
                proof {
                    assert forall|b: int, g: usize| 0 <= b < BIN_COUNT && #[trigger] self.queue(b).contains(g) implies b3.queue(
                        b,
                    ).contains(g) by {
                        assert(self.queue(b) == b3.queue(b));
                    }
                    assert forall|k: int| i < k < snap@.len() implies #[trigger] self.page(
                        snap@[k] as int,
                    ) == b3.page(snap@[k] as int) by {
                        assert(snap@[k] != p);
                        assert(b3.queue(bin as int).contains(snap@[k]));
                        let j = choose|j: int|
                            0 <= j < b3.queue(bin as int).len() && b3.queue(bin as int)[j]
                                == snap@[k];
                        assert(b3.valid_handle(snap@[k] as int));
                    }
                    if ext {
                        assert(b3.page(p as int).free@.len() == 0);
                        assert(b3.page(p as int).capacity < b3.page(p as int).reserved);
                        assert(self.page(p as int).free@.len() > 0);
                    }
                }
                proof {
                    if page_to_retire != EMPTY_PAGE {
                        assert(self.page(page_to_retire as int) == b3.page(page_to_retire as int));
                    }
                    assert forall|k: int| i <= k < snap@.len() implies self.queue(bin as int).contains(#[trigger] snap@[k]) by {
                        assert(self.queue(bin as int) == b3.queue(bin as int));
                    }
                }
                if self.page_ref(p).immediate_available() {
                    found = p;
                } else {
                    let ghost b4 = *self;
                    proof {
                        assert(self.page_ok(p as int));
                        self.lemma_valid_page(p as int);
                        assert(self.page(p as int).used > 0);
                    }
                    self.page_queue_remove(p);
                    proof {
                        assert forall|b: int| 0 <= b < BIN_COUNT implies !self.queue(b).contains(p) by {
                            if b != bin && self.queue(b).contains(p) {
                                assert(b4.queue(b).contains(p));
                                let j = choose|j: int| 0 <= j < b4.queue(b).len() && b4.queue(b)[j] == p;
                                assert(b4.page(b4.queue(b)[j] as int).bin == b);
                            }
                        }
                        assert(self.page_ok(p as int)) by {
                            assert(self.page(p as int) == b4.page(p as int));
                        }
                    }
                    let ghost b5 = *self;
                    self.page_set_full(p);
                    proof {
                        assert forall|b: int, g: usize| 0 <= b < BIN_COUNT && #[trigger] self.queue(b).contains(g) implies b4.queue(
                            b,
                        ).contains(g) by {
                            assert(self.queue(b) == b5.queue(b));
                            assert(g != p);
                        }
                        assert forall|k: int| i < k < snap@.len() implies #[trigger] self.page(
                            snap@[k] as int,
                        ) == b4.page(snap@[k] as int) by {
                            assert(snap@[k] != p);
                            assert(b4.queue(bin as int).contains(snap@[k]));
                            let j = choose|j: int|
                                0 <= j < b4.queue(bin as int).len() && b4.queue(bin as int)[j]
                                    == snap@[k];
                            assert(b4.valid_handle(snap@[k] as int));
                            assert(b5.valid_handle(snap@[k] as int));
                        }
                        assert(!st_loop.page_ready(p as int)) by {
                            assert(b3.page(p as int).free@.len() == 0);
                            assert(before.page(p as int) == st_loop.page(p as int));
                        }
                        assert forall|k: int| i < k < snap@.len() implies self.queue(bin as int).contains(#[trigger] snap@[k]) by {
                            assert(snap@[k] != p);
                            assert(b4.queue(bin as int).contains(snap@[k]));
                        }
                        if page_to_retire != EMPTY_PAGE {
                            assert(page_to_retire != p);
                            assert(b4.queue(bin as int).contains(page_to_retire));
                            let j = choose|j: int| 0 <= j < b4.queue(bin as int).len() && b4.queue(bin as int)[j] == page_to_retire;
                            assert(b4.valid_handle(page_to_retire as int));
                            assert(b5.valid_handle(page_to_retire as int));
                            assert(b5.page(page_to_retire as int) == b4.page(page_to_retire as int));
                            assert(self.page(page_to_retire as int) == b5.page(page_to_retire as int));
                            assert(self.queue(bin as int) == b5.queue(bin as int));
                            assert(b5.queue(bin as int).contains(page_to_retire));
                        }
                    }
                }
            }
            proof {
                if any && found == EMPTY_PAGE && page_to_retire == EMPTY_PAGE {
                    let k = choose|k: int|
                        i <= k < snap@.len() && #[trigger] st_loop.page_ready(snap@[k] as int);
                    assert(k != i);
                    assert(exists|k: int|
                        i + 1 <= k < snap@.len() && #[trigger] st_loop.page_ready(snap@[k] as int));
                }
            }
            i = i + 1;
        }
        if found == EMPTY_PAGE {
            found = page_to_retire;
            page_to_retire = EMPTY_PAGE;
        }
        proof {
            if found != EMPTY_PAGE {
                assert(self.queue(bin as int).contains(found));
                assert(self.page(found as int).free@.len() > 0);
            }
        }
        let ghost b6 = *self;
        if page_to_retire != EMPTY_PAGE {
            proof {
                let j = choose|j: int| 0 <= j < self.queue(bin as int).len() && self.queue(bin as int)[j] == page_to_retire;
                assert(self.valid_handle(page_to_retire as int));
            }
            self.retire_page(page_to_retire, os_alloc);
        }
        proof {
            assert forall|b: int, g: usize| 0 <= b < BIN_COUNT && #[trigger] self.queue(b).contains(g)
                implies old(self).queue(b).contains(g) by {
                if page_to_retire != EMPTY_PAGE {
                    assert(g != page_to_retire);
                    assert(b6.queue(b).contains(g));
                }
            }
        }
        if found == EMPTY_PAGE {
            let block_size = self.block_sizes[bin];
            proof {
                self.lemma_bin_block_size(size as nat);
            }
            let ghost b7 = *self;
            let r = self.alloc_page(block_size, os_alloc);
            proof {
                if r is None {
                    assert forall|b: int, g: usize| 0 <= b < BIN_COUNT && #[trigger] self.queue(
                        b,
                    ).contains(g) implies old(self).queue(b).contains(g) by {
                        assert(self.queue(b) == b7.queue(b));
                    }
                }
            }
            r
        } else {
            proof {
                assert(found != page_to_retire);
                assert(self.queue(bin as int).contains(found));
                let j = choose|j: int| 0 <= j < self.queue(bin as int).len() && self.queue(bin as int)[j] == found;
                assert(self.valid_handle(found as int));
                let j6 = choose|j: int| 0 <= j < b6.queue(bin as int).len() && b6.queue(bin as int)[j] == found;
                assert(b6.valid_handle(found as int));
                assert(self.page(found as int) == b6.page(found as int));
            }
            Some(found)
        }
    }

    /// Hands out a fresh page for blocks of `block_size` bytes and puts it at the front
    /// of its bin's queue.
    fn alloc_page<A: OsAlloc>(&mut self, block_size: usize, os_alloc: &mut A) -> (r: Option<
        usize,
    >)
        requires
            old(self).wf(),
            block_size >= MI_INTPTR_SIZE,
            block_size % MI_INTPTR_SIZE == 0,
            spec_bin_for_size(block_size as nat) < MI_BIN_HUGE ==> block_size
                == old(self).block_sizes@[spec_bin_for_size(block_size as nat) as int],
        ensures
            final(self).no_new_aligned(*old(self)),
            final(self).heartbeat() == old(self).heartbeat(),
            final(self).wf(),
            r matches Some(h) ==> {
                &&& final(self).valid_handle(h as int)
                &&& final(self).page(h as int).in_use
                &&& !final(self).page(h as int).flags.full
                &&& final(self).page(h as int).block_size == block_size
                &&& final(self).page(h as int).bin == spec_bin_for_size(block_size as nat)
                &&& final(self).page(h as int).free@.len() > 0
                &&& final(self).segment_failures@ == old(self).segment_failures@
            },
            r is None ==> final(self).segment_failures@ == old(self).segment_failures@ + 1,
            r is None ==> final(self).same_state(*old(self)),
            block_size >= MI_LARGE_SIZE_MAX - SEGMENT_HEADER_SIZE && !kind_fits(
                PageKind::Huge(block_size),
            ) ==> r is None,
    {
        let h = match self.segment_page_alloc(block_size, os_alloc) {
            Some(h) => h,
            None => {
                return None;
            },
        };
        proof {
            if self.seg(slot_of(h as int)).segment_size != MI_SEGMENT_SIZE {
                assert(idx_of(h as int) == 0);
            }
        }
        self.page_init(h, block_size);
        proof {
            lemma_bin_range(spec_wsize(block_size as nat));
        }
        self.page_queue_push_front(h);
        Some(h)
    }

    /// A page for one huge block of at least `size` bytes.
    fn alloc_huge_page<A: OsAlloc>(&mut self, size: usize, os_alloc: &mut A) -> (r: Option<usize>)
        requires
            old(self).wf(),
            size > MI_LARGE_SIZE_MAX,
        ensures
            final(self).no_new_aligned(*old(self)),
            final(self).heartbeat() == old(self).heartbeat(),
            final(self).wf(),
            r matches Some(h) ==> {
                &&& final(self).valid_handle(h as int)
                &&& final(self).page(h as int).in_use
                &&& final(self).page(h as int).block_size >= size
                &&& final(self).page(h as int).free@.len() > 0
            },
            r is None ==> final(self).segment_failures() > old(self).segment_failures()
                || !huge_request_fits(size as int),
            !huge_request_fits(size as int) ==> r is None,
            r is None ==> final(self).same_state(*old(self)),
    {
        if size > usize::MAX - MI_INTPTR_SIZE {
            return None;
        }
        let block_size = if size % MI_INTPTR_SIZE == 0 {
            size
        } else {
            size - size % MI_INTPTR_SIZE + MI_INTPTR_SIZE
        };
        proof {
            lemma_bin_range(spec_wsize(block_size as nat));
        }
        self.alloc_page(block_size, os_alloc)
    }

    /// Hands out a page slot for blocks of `block_size` bytes: from a small segment with
    /// a slot to spare, or from a fresh segment of the right kind.
    fn segment_page_alloc<A: OsAlloc>(&mut self, block_size: usize, os_alloc: &mut A) -> (r:
        Option<usize>)
        requires
            old(self).wf(),
            block_size >= MI_INTPTR_SIZE,
        ensures
            final(self).no_new_aligned(*old(self)),
            final(self).heartbeat() == old(self).heartbeat(),
            final(self).block_sizes@ == old(self).block_sizes@,
            r matches Some(h) ==> {
                let s = final(self).seg(slot_of(h as int));
                &&& final(self).wf_but(h as int)
                &&& final(self).fresh_in_use(h as int)
                &&& block_size <= s.usable_size(idx_of(h as int))
                &&& (s.segment_size != MI_SEGMENT_SIZE ==> (idx_of(h as int) == 0
                    && s.usable_size(0) < 2 * block_size))
                &&& final(self).segment_failures@ == old(self).segment_failures@
                &&& block_size < MI_SMALL_PAGE_SIZE / 8 ==> s.capacity == MI_SMALL_PAGES_PER_SEGMENT
                &&& MI_SMALL_PAGE_SIZE / 8 <= block_size < MI_LARGE_SIZE_MAX - SEGMENT_HEADER_SIZE
                    ==> (s.capacity, s.segment_size, s.info_size, s.page_size) == spec_layout(
                    PageKind::Large,
                )
                &&& block_size >= MI_LARGE_SIZE_MAX - SEGMENT_HEADER_SIZE ==> (
                s.capacity,
                s.segment_size,
                s.info_size,
                s.page_size,
            ) == spec_layout(PageKind::Huge(block_size))
            },
            block_size < MI_SMALL_PAGE_SIZE / 8 && old(self).small_free().len() == 0 ==> (
            r matches Some(h) ==> final(self).small_free() == seq![slot_of(h as int) as usize]),
            block_size < MI_SMALL_PAGE_SIZE / 8 && old(self).small_free().len() > 0 ==> {
                let slot = old(self).small_free()[0] as int;
                &&& r is Some
                &&& slot_of(r->0 as int) == slot
                &&& !old(self).seg(slot).pages@[idx_of(r->0 as int)].in_use
                &&& forall|k: int|
                    0 <= k < idx_of(r->0 as int) ==> (#[trigger] old(self).seg(slot).pages@[k]).in_use
                &&& final(self).seg(slot).used == old(self).seg(slot).used + 1
                &&& final(self).small_free() == (if old(self).seg(slot).used + 1
                    == MI_SMALL_PAGES_PER_SEGMENT {
                    old(self).small_free().drop_first()
                } else {
                    old(self).small_free()
                })
            },
            block_size >= MI_LARGE_SIZE_MAX - SEGMENT_HEADER_SIZE && !kind_fits(
                PageKind::Huge(block_size),
            ) ==> r is None,
            r is None ==> {
                &&& final(self).wf()
                &&& final(self).same_state(*old(self))
                &&& final(self).segment_failures@ == old(self).segment_failures@ + 1
            },
    {
        if block_size < MI_SMALL_PAGE_SIZE / 8 {
            match self.small_free_segments.first() {
                Some(slot) => {
                    let h = self.take_small_page(slot);
                    proof {
                        let s = self.seg(slot_of(h as int));
                        s.lemma_layout_facts();
                    }
                    Some(h)
                },
                None => {
                    let seg = match Segment::allocate(PageKind::Small, os_alloc) {
                        Some(seg) => seg,
                        None => {
                            self.note_segment_failure();
                            return None;
                        },
                    };
                    proof {
                        seg.lemma_layout_facts();
                    }
                    let base = seg.base;
                    let segment_size = seg.segment_size;
                    match self.add_segment(seg) {
                        Some(h) => {
                            let slot = h / MI_SMALL_PAGES_PER_SEGMENT;
                            let ghost mid = *self;
                            proof {
                                assert(self.live(slot as int));
                                if self.small_free_segments@.contains(slot) {
                                    let j = choose|j: int|
                                        0 <= j < self.small_free_segments@.len()
                                            && self.small_free_segments@[j] == slot;
                                    assert(old(self).live(slot as int));
                                    assert(old(self).valid_handle(h as int));
                                    assert(old(self).page_ok(h as int));
                                    assert(old(self).seg(slot as int).used > 0);
                                    assert(old(self).seg(slot as int).wf());
                                }
                            }
                            self.push_small_free_segment(slot);
                            proof {
                                self.lemma_queues_frame(mid, h as int);
                                self.lemma_same_segments_wf(mid);
                                self.lemma_tables_frame(mid);
                            }
                            Some(h)
                        },
                        None => {
                            self.give_back(base, segment_size, os_alloc);
                            self.note_segment_failure();
                            None
                        },
                    }
                },
            }
        } else {
            let page_kind = if block_size < MI_LARGE_SIZE_MAX - SEGMENT_HEADER_SIZE {
                PageKind::Large
            } else {
                PageKind::Huge(block_size)
            };
            let seg = match Segment::allocate(page_kind, os_alloc) {
                Some(seg) => seg,
                None => {
                    self.note_segment_failure();
                    return None;
                },
            };
            proof {
                seg.lemma_layout_facts();
            }
            let base = seg.base;
            let segment_size = seg.segment_size;
            match self.add_segment(seg) {
                Some(h) => Some(h),
                None => {
                    self.give_back(base, segment_size, os_alloc);
                    self.note_segment_failure();
                    None
                },
            }
        }
    }

    /// Registers a segment fresh from the OS allocator, whose first page is handed out;
    /// returns the handle of that page.
    fn add_segment(&mut self, seg: Segment) -> (r: Option<usize>)
        requires
            old(self).wf(),
            seg.wf(),
            seg.used == 1,
            seg.pages@[0].in_use,
            seg.pages@[0].reserved == 0,
            seg.pages@[0].flags.full == false,
            seg.pages@[0].flags.has_aligned == false,
            forall|i: int| 1 <= i < seg.capacity ==> (#[trigger] seg.pages@[i]).is_fresh(),
        ensures
            final(self).no_new_aligned(*old(self)),
            final(self).heartbeat() == old(self).heartbeat(),
            r matches Some(h) ==> {
                &&& final(self).wf_but(h as int)
                &&& final(self).fresh_in_use(h as int)
                &&& idx_of(h as int) == 0
                &&& final(self).seg(slot_of(h as int)) == seg
                &&& final(self).small_free_segments@ == old(self).small_free_segments@
            },
            r is None ==> *final(self) == *old(self),
            r is None <==> (old(self).segment_slots@.contains_key(seg.base) || (old(
                self,
            ).segments@.len() >= MAX_SEGMENT_SLOTS && forall|k: int|
                0 <= k < old(self).segments@.len() ==> #[trigger] old(self).live(k))),
            final(self).segment_failures@ == old(self).segment_failures@,
    {
        if self.segment_slots.contains_key(&seg.base) {
            return None;
        }
        let mut slot: usize = 0;
        while slot < self.segments.len() && self.segments[slot].is_some()
            invariant
                slot <= self.segments@.len(),
                *self == *old(self),
                forall|k: int| 0 <= k < slot ==> #[trigger] self.live(k),
            decreases self.segments@.len() - slot,
        {
            slot = slot + 1;
        }
        if slot == self.segments.len() {
            if slot >= MAX_SEGMENT_SLOTS {
                return None;
            }
            self.segments.push(None);
        }
        proof {
            assert(!old(self).live(slot as int));
            if old(self).segments@.len() >= MAX_SEGMENT_SLOTS && forall|k: int|
                0 <= k < old(self).segments@.len() ==> #[trigger] old(self).live(k) {
                assert(old(self).live(slot as int));
            }
        }
        let ghost base = seg.base;
        let ghost sg = seg;
        self.segment_slots.insert(seg.base, slot);
        self.segments.set(slot, Some(seg));
        let h = slot * MI_SMALL_PAGES_PER_SEGMENT;
        proof {
            lemma_handle(slot as int, 0);
            sg.lemma_layout_facts();
            assert(sg.page_wf(0));
            let o = *old(self);
            assert forall|sl: int| #[trigger] self.live(sl) implies {
                let s = self.seg(sl);
                &&& s.wf()
                &&& s.used > 0
                &&& (s.segment_size != MI_SEGMENT_SIZE ==> s.pages@[0].reserved <= 1)
                &&& self.segment_slots@.contains_key(s.base)
                &&& self.segment_slots@[s.base] == sl
            } by {
                if sl != slot {
                    assert(o.live(sl));
                    assert(o.segment_slots@.contains_key(o.seg(sl).base));
                }
            }
            assert forall|b: usize| #[trigger] self.segment_slots@.contains_key(b) implies {
                &&& self.live(self.segment_slots@[b] as int)
                &&& self.seg(self.segment_slots@[b] as int).base == b
            } by {
                if b != base {
                    assert(o.segment_slots@.contains_key(b));
                    assert(o.live(o.segment_slots@[b] as int));
                }
            }
            assert forall|g: int| #[trigger] self.valid_handle(g) && slot_of(g) != slot implies o.valid_handle(g) && self.page(g) == o.page(g) by {
                assert(self.segments@[slot_of(g)] == o.segments@[slot_of(g)]);
            }
            assert forall|b: int, j: int|
                0 <= b < BIN_COUNT && 0 <= j < self.queue(b).len() implies {
                    let g = #[trigger] self.queue(b)[j];
                    &&& self.valid_handle(g as int)
                    &&& self.page(g as int).in_use
                    &&& self.page(g as int).bin == b
                    &&& !self.page(g as int).flags.full
                } by {
                let g = o.queue(b)[j];
                assert(o.valid_handle(g as int));
                assert(self.segments@[slot_of(g as int)] == o.segments@[slot_of(g as int)]);
            }
            assert forall|g: int| #[trigger] self.valid_handle(g) && g != h implies self.page_ok(g)
                && self.page_shape_ok(g) by {
                if slot_of(g) == slot {
                    assert(idx_of(g) != 0);
                    assert(sg.pages@[idx_of(g)].is_fresh());
                } else {
                    assert(o.valid_handle(g));
                    assert(o.page_ok(g) && o.page_shape_ok(g));
                }
            }
            assert forall|j: int| 0 <= j < self.small_free_segments@.len() implies {
                let sl = #[trigger] self.small_free_segments@[j] as int;
                &&& self.live(sl)
                &&& self.seg(sl).capacity == MI_SMALL_PAGES_PER_SEGMENT
                &&& self.seg(sl).used < MI_SMALL_PAGES_PER_SEGMENT
            } by {
                let sl = self.small_free_segments@[j] as int;
                assert(o.live(sl));
            }
            assert forall|b: int| 0 <= b < BIN_COUNT implies !self.queue(b).contains(h) by {
                if self.queue(b).contains(h) {
                    let j = choose|j: int| 0 <= j < self.queue(b).len() && self.queue(b)[j] == h;
                    assert(o.valid_handle(o.queue(b)[j] as int));
                }
            }
            assert(self.wf_tables());
            assert(self.wf_segments());
            assert(self.wf_queues(h as int));
            assert(self.wf_direct());
            assert(self.wf_small_free());
            assert(self.fresh_in_use(h as int));
        }
        Some(h)
    }

    /// Hands out a page slot of the first small segment that has one to spare.
    fn take_small_page(&mut self, slot: usize) -> (r: usize)
        requires
            old(self).wf(),
            old(self).small_free_segments@.len() > 0,
            old(self).small_free_segments@[0] == slot,
        ensures
            !old(self).seg(slot as int).pages@[idx_of(r as int)].in_use,
            forall|k: int|
                0 <= k < idx_of(r as int) ==> (#[trigger] old(self).seg(slot as int).pages@[k]).in_use,
            final(self).no_new_aligned(*old(self)),
            final(self).heartbeat() == old(self).heartbeat(),
            final(self).wf_but(r as int),
            final(self).fresh_in_use(r as int),
            final(self).seg(slot_of(r as int)).capacity == MI_SMALL_PAGES_PER_SEGMENT,
            final(self).seg(slot_of(r as int)).page_size == MI_SMALL_PAGE_SIZE,
            final(self).seg(slot_of(r as int)).wf(),
            slot_of(r as int) == slot,
            final(self).seg(slot as int).used == old(self).seg(slot as int).used + 1,
            final(self).small_free_segments@ == (if old(self).seg(slot as int).used + 1
                == MI_SMALL_PAGES_PER_SEGMENT {
                old(self).small_free_segments@.drop_first()
            } else {
                old(self).small_free_segments@
            }),
            final(self).segment_count() == old(self).segment_count(),
            final(self).segment_failures@ == old(self).segment_failures@,
    {
        proof {
            assert(self.live(slot as int));
        }
        let seg = self.segments[slot].as_mut().unwrap();
        let ghost os = *seg;
        let idx = seg.find_free_small_page();
        proof {
            crate::segment::lemma_count_in_use_update(os.pages@, idx as int, seg.pages@[idx as int]);
        }
        seg.increment_used();
        let full = seg.is_full();
        let ghost ns = *seg;
        proof {
            os.lemma_layout_facts();
            assert forall|i: int| 0 <= i < ns.capacity implies ns.page_wf(i) by {
                assert(os.page_wf(i));
                if i != idx {
                    assert(ns.pages@[i] == os.pages@[i]);
                } else {
                    assert(ns.pages@[i].wf(ns.payload_addr(i)));
                }
            }
            assert(ns.wf());
        }
        let h = slot * MI_SMALL_PAGES_PER_SEGMENT + idx;
        let ghost mid = *self;
        proof {
            lemma_handle(slot as int, idx as int);
            let o = *old(self);
            assert(self.segments@ == o.segments@.update(slot as int, Some(ns)));
            assert forall|sl: int| #[trigger] self.live(sl) implies {
                let s = self.seg(sl);
                &&& s.wf()
                &&& s.used > 0
                &&& (s.segment_size != MI_SEGMENT_SIZE ==> s.pages@[0].reserved <= 1)
                &&& self.segment_slots@.contains_key(s.base)
                &&& self.segment_slots@[s.base] == sl
            } by {
                assert(o.live(sl));
            }
            assert forall|b: usize| #[trigger] self.segment_slots@.contains_key(b) implies {
                &&& self.live(self.segment_slots@[b] as int)
                &&& self.seg(self.segment_slots@[b] as int).base == b
            } by {
                assert(o.segment_slots@.contains_key(b));
                assert(o.live(o.segment_slots@[b] as int));
            }
            assert forall|g: int| #[trigger] self.valid_handle(g) <==> o.valid_handle(g) by {
                if slot_of(g) != slot && 0 <= slot_of(g) < self.segments@.len() {
                    assert(self.segments@[slot_of(g)] == o.segments@[slot_of(g)]);
                }
            }
            assert forall|g: int| #[trigger] self.valid_handle(g) && g != h implies self.page(g)
                == o.page(g) by {
                if slot_of(g) == slot {
                    assert(idx_of(g) != idx);
                } else {
                    assert(self.segments@[slot_of(g)] == o.segments@[slot_of(g)]);
                }
            }
            assert forall|b: int, j: int|
                0 <= b < BIN_COUNT && 0 <= j < self.queue(b).len() implies {
                    let g = #[trigger] self.queue(b)[j];
                    &&& self.valid_handle(g as int)
                    &&& self.page(g as int).in_use
                    &&& self.page(g as int).bin == b
                    &&& !self.page(g as int).flags.full
                } by {
                let g = o.queue(b)[j];
                assert(o.valid_handle(g as int));
                assert(o.page(g as int).in_use);
                assert(g != h);
            }
            assert forall|g: int| #[trigger] self.valid_handle(g) && g != h implies self.page_ok(g)
                && self.page_shape_ok(g) by {
                assert(o.page_ok(g) && o.page_shape_ok(g));
            }
            assert forall|b: int| 0 <= b < BIN_COUNT implies !self.queue(b).contains(h) by {
                if self.queue(b).contains(h) {
                    let j = choose|j: int| 0 <= j < self.queue(b).len() && self.queue(b)[j] == h;
                    assert(o.valid_handle(o.queue(b)[j] as int));
                    assert(o.page(h as int).in_use);
                }
            }
            assert(os.page_wf(idx as int));
            assert(self.fresh_in_use(h as int));
            assert(self.wf_tables());
            assert(self.wf_segments());
            assert(self.wf_queues(h as int));
            assert(self.wf_direct());
        }
        if full {
            self.small_free_segments.remove(slot);
        }
        proof {
            let l = self.small_free_segments@;
            let ol = mid.small_free_segments@;
            if full {
                assert(l == ol.remove(0));
                assert(l =~= ol.drop_first());
                assert forall|j: int| 0 <= j < l.len() implies #[trigger] l[j] == ol[j + 1] by {}
            }
            assert forall|j: int| 0 <= j < l.len() implies {
                let sl = #[trigger] l[j] as int;
                &&& self.live(sl)
                &&& self.seg(sl).capacity == MI_SMALL_PAGES_PER_SEGMENT
                &&& self.seg(sl).used < MI_SMALL_PAGES_PER_SEGMENT
            } by {
                let k = if full {
                    j + 1
                } else {
                    j
                };
                assert(ol[k] == l[j]);
                assert(old(self).live(ol[k] as int));
                if ol[k] == slot {
                    assert(k == 0);
                }
            }
            assert forall|j1: int, j2: int| 0 <= j1 < j2 < l.len() implies #[trigger] l[j1]
                != #[trigger] l[j2] by {
                if full {
                    assert(ol[j1 + 1] != ol[j2 + 1]);
                } else {
                    assert(ol[j1] != ol[j2]);
                }
            }
            assert(self.wf_small_free());
            self.lemma_queues_frame(mid, h as int);
            self.lemma_same_segments_wf(mid);
            self.lemma_tables_frame(mid);
        }
        h
    }

    /// Records that the small segment in `slot` has a page slot to spare again.
    fn push_small_free_segment(&mut self, slot: usize)
        requires
            old(self).wf_tables(),
            old(self).wf_segments(),
            old(self).wf_small_free(),
            old(self).live(slot as int),
            old(self).seg(slot as int).capacity == MI_SMALL_PAGES_PER_SEGMENT,
            old(self).seg(slot as int).used < MI_SMALL_PAGES_PER_SEGMENT,
            !old(self).small_free_segments@.contains(slot),
        ensures
            final(self).no_new_aligned(*old(self)),
            final(self).heartbeat() == old(self).heartbeat(),
            final(self).wf_small_free(),
            final(self).small_free_segments@ == old(self).small_free_segments@.push(slot),
            final(self).segments@ == old(self).segments@,
            final(self).segment_slots@ == old(self).segment_slots@,
            final(self).pages@ == old(self).pages@,
            final(self).pages_free_direct@ == old(self).pages_free_direct@,
            final(self).wsize_ranges@ == old(self).wsize_ranges@,
            final(self).block_sizes@ == old(self).block_sizes@,
            final(self).segment_failures@ == old(self).segment_failures@,
    {
        self.small_free_segments.push_back(slot);
        proof {
            let l = self.small_free_segments@;
            let ol = old(self).small_free_segments@;
            assert forall|j1: int, j2: int| 0 <= j1 < j2 < l.len() implies #[trigger] l[j1]
                != #[trigger] l[j2] by {
                if j2 == ol.len() {
                    assert(ol[j1] == l[j1]);
                } else {
                    assert(ol[j1] != ol[j2]);
                }
            }
            assert forall|j: int| 0 <= j < l.len() implies {
                let sl = #[trigger] l[j] as int;
                &&& self.live(sl)
                &&& self.seg(sl).capacity == MI_SMALL_PAGES_PER_SEGMENT
                &&& self.seg(sl).used < MI_SMALL_PAGES_PER_SEGMENT
            } by {
                if j < ol.len() {
                    assert(ol[j] == l[j]);
                }
            }
        }
    }

    /// Forgets the segment in `slot` as one with page slots to spare.
    fn remove_small_free_segment(&mut self, slot: usize)
        requires
            forall|j1: int, j2: int|
                0 <= j1 < j2 < old(self).small_free_segments@.len()
                    ==> #[trigger] old(self).small_free_segments@[j1]
                    != #[trigger] old(self).small_free_segments@[j2],
        ensures
            final(self).no_new_aligned(*old(self)),
            final(self).heartbeat() == old(self).heartbeat(),
            !final(self).small_free_segments@.contains(slot),
            forall|x: usize| x != slot ==> (#[trigger] final(self).small_free_segments@.contains(x)
                <==> old(self).small_free_segments@.contains(x)),
            forall|j1: int, j2: int|
                0 <= j1 < j2 < final(self).small_free_segments@.len()
                    ==> #[trigger] final(self).small_free_segments@[j1]
                    != #[trigger] final(self).small_free_segments@[j2],
            final(self).segments@ == old(self).segments@,
            final(self).segment_slots@ == old(self).segment_slots@,
            final(self).pages@ == old(self).pages@,
            final(self).pages_free_direct@ == old(self).pages_free_direct@,
            final(self).wsize_ranges@ == old(self).wsize_ranges@,
            final(self).block_sizes@ == old(self).block_sizes@,
            final(self).segment_failures@ == old(self).segment_failures@,
    {
        let ghost ol = self.small_free_segments@;
        proof {
            crate::list::lemma_first_index(ol, slot);
        }
        let ghost fi = crate::list::first_index(ol, slot);
        if self.small_free_segments.contains(slot) {
            self.small_free_segments.remove(slot);
        }
        proof {
            let l = self.small_free_segments@;
            if ol.contains(slot) {
                assert(l == ol.remove(fi));
                assert forall|j: int| 0 <= j < l.len() implies l[j] == ol[if j < fi {
                    j
                } else {
                    j + 1
                }] by {}
                if l.contains(slot) {
                    let j = choose|j: int| 0 <= j < l.len() && l[j] == slot;
                    if j < fi {
                        assert(ol[j] == slot);
                    } else {
                        assert(ol[j + 1] == ol[fi]);
                    }
                }
                assert forall|x: usize| x != slot implies (#[trigger] l.contains(x)
                    <==> ol.contains(x)) by {
                    if ol.contains(x) {
                        let k = choose|k: int| 0 <= k < ol.len() && ol[k] == x;
                        if k < fi {
                            assert(l[k] == x);
                        } else {
                            assert(k != fi);
                            assert(l[k - 1] == x);
                        }
                    }
                    if l.contains(x) {
                        let j = choose|j: int| 0 <= j < l.len() && l[j] == x;
                        assert(ol[if j < fi {
                            j
                        } else {
                            j + 1
                        }] == x);
                    }
                }
                assert forall|j1: int, j2: int| 0 <= j1 < j2 < l.len() implies #[trigger] l[j1]
                    != #[trigger] l[j2] by {
                    let k1 = if j1 < fi {
                        j1
                    } else {
                        j1 + 1
                    };
                    let k2 = if j2 < fi {
                        j2
                    } else {
                        j2 + 1
                    };
                    assert(ol[k1] != ol[k2]);
                }
            }
        }
    }

    /// Hands back to the OS allocator a region that could not be registered, unless its
    /// address is that of a segment the heap holds.
    fn give_back<A: OsAlloc>(&self, base: usize, segment_size: usize, os_alloc: &mut A) {
        if !self.segment_slots.contains_key(&base) {
            os_alloc.deallocate(base, segment_size, MI_SEGMENT_SIZE);
        }
    }

    /// Counts one more segment that could not be obtained.
    fn note_segment_failure(&mut self)
        requires
            old(self).wf(),
        ensures
            final(self).no_new_aligned(*old(self)),
            final(self).heartbeat() == old(self).heartbeat(),
            final(self).wf(),
            final(self).segment_failures@ == old(self).segment_failures@ + 1,
            final(self).segments@ == old(self).segments@,
            final(self).segment_slots@ == old(self).segment_slots@,
            final(self).pages@ == old(self).pages@,
            final(self).pages_free_direct@ == old(self).pages_free_direct@,
            final(self).small_free_segments@ == old(self).small_free_segments@,
            final(self).wsize_ranges@ == old(self).wsize_ranges@,
            final(self).block_sizes@ == old(self).block_sizes@,
    {
        self.segment_failures = Ghost(self.segment_failures@ + 1);
        proof {
            self.lemma_wf_frame(*old(self));
        }
    }

    /// Runs the deferred-free hook, if one is registered, and frees what it releases.
    fn deferred_free<A: OsAlloc>(&mut self, force: bool, os_alloc: &mut A)
        requires
            old(self).wf(),
        ensures
            final(self).no_new_aligned(*old(self)),
            forall|sl: int| #[trigger] final(self).live(sl) ==> old(self).live(sl),
            final(self).wf(),
            final(self).segment_failures() == old(self).segment_failures(),
            final(self).heartbeat() == old(self).heartbeat().wrapping_add(1),
            old(self).hook() is None ==> final(self).same_state_but_heartbeat(*old(self))
                && final(self).hook() is None,
    {
        self.heartbeat = self.heartbeat.wrapping_add(1);
        proof {
            self.lemma_wf_frame(*old(self));
        }
        let mut handle = DeferredFreeHandle::new();
        let heartbeat = self.heartbeat;
        let ghost mid = *self;
        match &mut self.deferred_free_hook {
            Some(hook) => {
                hook.deferred_free(&mut handle, force, heartbeat);
            },
            None => {
                return;
            },
        }
        proof {
            self.lemma_wf_frame(mid);
        }
        let mut i: usize = 0;
        while i < handle.len()
            invariant
                self.wf(),
                self.segment_failures() == old(self).segment_failures(),
                self.heartbeat == heartbeat,
                heartbeat == old(self).heartbeat.wrapping_add(1),
                forall|sl: int| #[trigger] self.live(sl) ==> old(self).live(sl),
                self.no_new_aligned(*old(self)),
            decreases handle@.len() - i,
        {
            let ptr = handle.get(i);
            self.free(ptr, os_alloc);
            i = i + 1;
        }
    }

    /// Whether the all-free page `h` is retired: it is kept when its blocks are not
    /// large and both its neighbours in the queue hold most of their blocks, since a
    /// lone free page among full ones would soon be needed again. A kept page loses its
    /// flags.
    fn should_retire(&mut self, h: usize) -> (r: bool)
        requires
            old(self).wf(),
            old(self).valid_handle(h as int),
            old(self).page(h as int).in_use,
            !old(self).page(h as int).flags.full,
        ensures
            final(self).no_new_aligned(*old(self)),
            forall|sl: int| #[trigger] final(self).live(sl) ==> old(self).live(sl),
            final(self).page(h as int).local_free@ == old(self).page(h as int).local_free@,
            final(self).heartbeat() == old(self).heartbeat(),
            final(self).wf(),
            final(self).page(h as int).in_use,
            final(self).page(h as int).used == old(self).page(h as int).used,
            !final(self).page(h as int).flags.full,
            final(self).valid_handle(h as int),
            final(self).segment_failures() == old(self).segment_failures(),
            final(self).segment_count() == old(self).segment_count(),
            r == !(old(self).page(h as int).block_size < MI_LARGE_SIZE_MAX
                && old(self).neighbours_mostly_used(h as int)),
            !r ==> final(self).page(h as int).block_size < MI_LARGE_SIZE_MAX
                && final(self).neighbours_mostly_used(h as int)
                && !final(self).page(h as int).flags.has_aligned,
            r ==> final(self).same_state(*old(self)),
    {
        proof {
            self.lemma_valid_page(h as int);
            assert(self.page_shape_ok(h as int) && self.page_ok(h as int));
        }
        let bin = self.page_ref(h).bin;
        let pos = self.pages[bin].position(h);
        proof {
            crate::list::lemma_first_index(self.queue(bin as int), h);
        }
        proof {
            assert(self.queue(bin as int).contains(h));
            assert(pos < self.queue(bin as int).len());
        }
        let prev = if pos == 0 {
            None
        } else {
            Some(self.pages[bin].get(pos - 1))
        };
        let len = self.pages[bin].len();
        let next = if pos < len - 1 {
            Some(self.pages[bin].get(pos + 1))
        } else {
            None
        };
        proof {
            if pos > 0 {
                assert(self.valid_handle(self.queue(bin as int)[pos - 1] as int));
            }
            if pos + 1 < self.queue(bin as int).len() {
                assert(self.valid_handle(self.queue(bin as int)[pos + 1] as int));
            }
        }
        let ghost q = self.queue(bin as int);
        proof {
            assert(pos == crate::list::first_index(q, h));
        }
        if self.page_ref(h).block_size < MI_LARGE_SIZE_MAX && self.mostly_used(prev)
            && self.mostly_used(next) {
            let ghost before = *self;
            self.page_set_aligned(h, false);
            proof {
                assert(self.queue(bin as int) == q);
                if pos > 0 {
                    assert(self.valid_handle(q[pos - 1] as int));
                    assert(q[pos - 1] != h);
                    assert(self.page(q[pos - 1] as int) == before.page(q[pos - 1] as int));
                }
                if pos + 1 < q.len() {
                    assert(self.valid_handle(q[pos + 1] as int));
                    assert(q[pos + 1] != h);
                    assert(self.page(q[pos + 1] as int) == before.page(q[pos + 1] as int));
                }
            }
            false
        } else {
            true
        }
    }

    /// A neighbour in the queue holds most of its blocks (none counts as such).
    fn mostly_used(&self, g: Option<usize>) -> (r: bool)
        requires
            self.wf(),
            g matches Some(x) ==> self.valid_handle(x as int),
        ensures
            r == self.mostly_used_spec(g),
    {
        match g {
            None => true,
            Some(x) => {
                let p = self.page_ref(x);
                proof {
                    self.lemma_valid_page(x as int);
                }
                p.reserved - p.used < p.reserved / 8
            },
        }
    }

    /// Reference to the descriptor of page `h`.
    fn page_ref(&self, h: usize) -> (r: &Page)
        requires
            self.wf_segments(),
            self.valid_handle(h as int),
        ensures
            *r == self.page(h as int),
    {
        proof {
            self.lemma_valid_page(h as int);
        }
        let s = self.segments[h / MI_SMALL_PAGES_PER_SEGMENT].as_ref().unwrap();
        &s.pages[h % MI_SMALL_PAGES_PER_SEGMENT]
    }

    /// Takes the head of the fast free list of page `h`.
    fn page_take_free_block(&mut self, h: usize) -> (r: usize)
        requires
            old(self).wf_but(h as int),
            old(self).valid_handle(h as int),
            old(self).page(h as int).free@.len() > 0,
        ensures
            final(self).no_new_aligned(*old(self)),
            final(self).page(h as int).flags == old(self).page(h as int).flags,
            final(self).hook() == old(self).hook(),
            final(self).page(h as int).local_free@ == old(self).page(h as int).local_free@,
            final(self).heartbeat() == old(self).heartbeat(),
            old(self).wf() ==> final(self).wf(),
            final(self).wf_but(h as int),
            old(self).page_ok(h as int) ==> final(self).page_ok(h as int),
            final(self).page_changed(*old(self), h as int),
            r == old(self).page(h as int).free@.last(),
            final(self).page(h as int).used == old(self).page(h as int).used + 1,
            final(self).page(h as int).capacity == old(self).page(h as int).capacity,
            final(self).page(h as int).free@ == old(self).page(h as int).free@.drop_last(),
    {
        proof {
            self.lemma_valid_page(h as int);
        }
        let idx = h % MI_SMALL_PAGES_PER_SEGMENT;
        let seg = self.segments[h / MI_SMALL_PAGES_PER_SEGMENT].as_mut().unwrap();
        let r = seg.pages[idx].take_free_block();
        proof {
            self.lemma_page_changed(*old(self), h as int, h as int);
            if old(self).wf() {
                assert(old(self).page_ok(h as int));
                self.lemma_page_changed(*old(self), h as int, -1);
            }
        }
        r
    }

    /// Splices the local free list of page `h` onto its fast free list.
    fn page_free_collect(&mut self, h: usize)
        requires
            old(self).wf_but(h as int),
            old(self).valid_handle(h as int),
        ensures
            final(self).no_new_aligned(*old(self)),
            forall|sl: int| #[trigger] final(self).live(sl) ==> old(self).live(sl),
            final(self).page(h as int).capacity == old(self).page(h as int).capacity,
            final(self).heartbeat() == old(self).heartbeat(),
            old(self).page(h as int).local_free@.len() == 0 ==> final(self).same_state(*old(self)),
            old(self).wf() ==> final(self).wf(),
            final(self).wf_but(h as int),
            old(self).page_ok(h as int) ==> final(self).page_ok(h as int),
            final(self).page_changed(*old(self), h as int),
            final(self).page(h as int).free@ == old(self).page(h as int).local_free@ + old(
                self,
            ).page(h as int).free@,
            final(self).page(h as int).local_free@.len() == 0,
            final(self).page(h as int).used == old(self).page(h as int).used,
    {
        proof {
            self.lemma_valid_page(h as int);
        }
        if self.page_ref(h).local_free.len() == 0 {
            proof {
                let slot = slot_of(h as int);
                let os = self.seg(slot);
                assert(self.segments@.update(slot, Some(os)) =~= self.segments@);
                assert(os.pages@.update(idx_of(h as int), self.page(h as int)) =~= os.pages@);
                assert(self.page(h as int).local_free@ + self.page(h as int).free@ =~= self.page(h as int).free@);
            }
            return;
        }
        let idx = h % MI_SMALL_PAGES_PER_SEGMENT;
        let seg = self.segments[h / MI_SMALL_PAGES_PER_SEGMENT].as_mut().unwrap();
        seg.pages[idx].free_collect();
        proof {
            let ns = self.seg(slot_of(h as int));
            let os = old(self).seg(slot_of(h as int));
            assert(os.page_wf(idx as int));
            assert(old(self).page(h as int).wf(os.payload_addr(idx as int)));
            assert(ns.page_wf(idx as int));
            self.lemma_page_changed(*old(self), h as int, h as int);
            if old(self).wf() {
                assert(old(self).page_ok(h as int));
                self.lemma_page_changed(*old(self), h as int, -1);
            }
        }
    }

    /// Threads more blocks into page `h` if its fast free list is empty.
    fn page_extend(&mut self, h: usize)
        requires
            old(self).wf_but(h as int),
            old(self).valid_handle(h as int),
        ensures
            final(self).no_new_aligned(*old(self)),
            forall|sl: int| #[trigger] final(self).live(sl) ==> old(self).live(sl),
            old(self).page(h as int).free@.len() == 0 && old(self).page(h as int).capacity
                < old(self).page(h as int).reserved ==> final(self).page(h as int).free@.len() > 0,
            final(self).heartbeat() == old(self).heartbeat(),
            old(self).wf() ==> final(self).wf(),
            final(self).wf_but(h as int),
            old(self).page_ok(h as int) ==> final(self).page_ok(h as int),
            final(self).page_changed(*old(self), h as int),
            final(self).page(h as int).free@.len() == 0 ==> final(self).page(h as int).capacity
                == final(self).page(h as int).reserved,
            old(self).page(h as int).free@.len() > 0 ==> final(self).page(h as int).free@ == old(
                self,
            ).page(h as int).free@,
            final(self).page(h as int).used == old(self).page(h as int).used,
            final(self).page(h as int).local_free@ == old(self).page(h as int).local_free@,
    {
        proof {
            self.lemma_valid_page(h as int);
        }
        let idx = h % MI_SMALL_PAGES_PER_SEGMENT;
        let seg = self.segments[h / MI_SMALL_PAGES_PER_SEGMENT].as_mut().unwrap();
        let start = seg.page_payload_addr(idx);
        proof {
            seg.lemma_layout_facts();
        }
        seg.pages[idx].extend(start);
        proof {
            let ns = self.seg(slot_of(h as int));
            let np = self.page(h as int);
            let op = old(self).page(h as int);
            assert(ns.page_wf(idx as int));
            self.lemma_page_changed(*old(self), h as int, h as int);
            if old(self).wf() {
                assert(old(self).page_ok(h as int));
                self.lemma_page_changed(*old(self), h as int, -1);
            }
        }
    }

    /// Sets up the page `h` just handed out by its segment for blocks of `block_size`
    /// bytes.
    fn page_init(&mut self, h: usize, block_size: usize)
        requires
            old(self).wf_but(h as int),
            old(self).fresh_in_use(h as int),
            block_size >= MI_INTPTR_SIZE,
            block_size % MI_INTPTR_SIZE == 0,
            block_size <= old(self).seg(slot_of(h as int)).usable_size(idx_of(h as int)),
            old(self).seg(slot_of(h as int)).segment_size != MI_SEGMENT_SIZE ==> (idx_of(h as int)
                == 0 && old(self).seg(slot_of(h as int)).usable_size(0) < 2 * block_size),
            spec_bin_for_size(block_size as nat) < MI_BIN_HUGE ==> block_size
                == old(self).block_sizes@[spec_bin_for_size(block_size as nat) as int],
        ensures
            final(self).no_new_aligned(*old(self)),
            final(self).heartbeat() == old(self).heartbeat(),
            final(self).wf_but(h as int),
            final(self).ready_for_queue(h as int),
            final(self).page(h as int).bin == spec_bin_for_size(block_size as nat),
            final(self).page(h as int).block_size == block_size,
            final(self).page(h as int).free@.len() > 0,
            forall|b: int| 0 <= b < BIN_COUNT ==> !final(self).queue(b).contains(h),
            final(self).segment_count() == old(self).segment_count(),
            final(self).segment_failures@ == old(self).segment_failures@,
    {
        proof {
            self.lemma_valid_page(h as int);
        }
        let idx = h % MI_SMALL_PAGES_PER_SEGMENT;
        let seg = self.segments[h / MI_SMALL_PAGES_PER_SEGMENT].as_mut().unwrap();
        proof {
            seg.lemma_layout_facts();
        }
        let start = seg.page_payload_addr(idx);
        let size = seg.page_size(idx);
        seg.pages[idx].init(start, size, block_size);
        proof {
            let ns = self.seg(slot_of(h as int));
            let np = self.page(h as int);
            let u = size as int;
            assert(np.reserved * block_size <= u) by (nonlinear_arith)
                requires
                    np.reserved == u / (block_size as int),
                    block_size > 0,
            ;
            if ns.segment_size != MI_SEGMENT_SIZE {
                assert(np.reserved <= 1) by (nonlinear_arith)
                    requires
                        np.reserved == u / (block_size as int),
                        u < 2 * block_size,
                        block_size > 0,
                ;
            }
            assert(ns.page_wf(idx as int));
            self.lemma_page_replaced(*old(self), h as int);
            lemma_bin_range(spec_wsize(block_size as nat));
            assert forall|b: int| 0 <= b < BIN_COUNT implies !self.queue(b).contains(h) by {
                assert(self.queue(b) == old(self).queue(b));
            }
        }
    }

    /// Marks the page `h`, just taken out of its queue, as full.
    fn page_set_full(&mut self, h: usize)
        requires
            old(self).wf_but(h as int),
            old(self).valid_handle(h as int),
            old(self).page_ok(h as int),
            old(self).page(h as int).in_use,
            old(self).page(h as int).used > 0,
            forall|b: int| 0 <= b < BIN_COUNT ==> !old(self).queue(b).contains(h),
        ensures
            final(self).no_new_aligned(*old(self)),
            forall|sl: int| #[trigger] final(self).live(sl) ==> old(self).live(sl),
            final(self).heartbeat() == old(self).heartbeat(),
            final(self).wf(),
            final(self).page(h as int).flags.full,
            forall|g: int|
                #[trigger] final(self).valid_handle(g) <==> old(self).valid_handle(g),
            forall|g: int|
                #[trigger] old(self).valid_handle(g) && g != h ==> final(self).page(g) == old(
                    self,
                ).page(g),
            forall|b: int| 0 <= b < BIN_COUNT ==> #[trigger] final(self).queue(b) == old(self).queue(b),
            final(self).segment_count() == old(self).segment_count(),
            final(self).segment_failures@ == old(self).segment_failures@,
    {
        proof {
            self.lemma_valid_page(h as int);
        }
        let idx = h % MI_SMALL_PAGES_PER_SEGMENT;
        let seg = self.segments[h / MI_SMALL_PAGES_PER_SEGMENT].as_mut().unwrap();
        seg.pages[idx].set_full(true);
        proof {
            let ns = self.seg(slot_of(h as int));
            let os = old(self).seg(slot_of(h as int));
            assert(os.page_wf(idx as int));
            assert(self.page(h as int).wf(ns.payload_addr(idx as int)) ) by {
                assert forall|i: int| 0 <= i < self.page(h as int).free@.len() implies self.page(h as int).is_block(ns.payload_addr(idx as int), #[trigger] self.page(h as int).free@[i] as int) by {
                    assert(old(self).page(h as int).is_block(os.payload_addr(idx as int), old(self).page(h as int).free@[i] as int));
                }
                assert forall|i: int| 0 <= i < self.page(h as int).local_free@.len() implies self.page(h as int).is_block(ns.payload_addr(idx as int), #[trigger] self.page(h as int).local_free@[i] as int) by {
                    assert(old(self).page(h as int).is_block(os.payload_addr(idx as int), old(self).page(h as int).local_free@[i] as int));
                }
            }
            assert(ns.page_wf(idx as int));
            self.lemma_page_replaced(*old(self), h as int);
            assert forall|g: int| #[trigger] old(self).valid_handle(g) && g != h implies self.page(g) == old(self).page(g) by {
                if slot_of(g) == slot_of(h as int) {
                    assert(idx_of(g) != idx_of(h as int));
                }
            }
            self.lemma_wf_from_but(h as int);
        }
    }

    /// Sets the `has_aligned` flag of page `h`.
    fn page_set_aligned(&mut self, h: usize, aligned: bool)
        requires
            old(self).wf(),
            old(self).valid_handle(h as int),
            old(self).page(h as int).in_use,
        ensures
            forall|sl: int| #[trigger] final(self).live(sl) ==> old(self).live(sl),
            final(self).page(h as int).local_free@ == old(self).page(h as int).local_free@,
            final(self).heartbeat() == old(self).heartbeat(),
            final(self).wf(),
            final(self).page_changed(*old(self), h as int),
            final(self).page(h as int).flags.has_aligned == aligned,
            final(self).page(h as int).used == old(self).page(h as int).used,
            final(self).page(h as int).free@ == old(self).page(h as int).free@,
            final(self).page(h as int).capacity == old(self).page(h as int).capacity,
    {
        proof {
            self.lemma_valid_page(h as int);
            assert(self.page_ok(h as int));
        }
        let idx = h % MI_SMALL_PAGES_PER_SEGMENT;
        let seg = self.segments[h / MI_SMALL_PAGES_PER_SEGMENT].as_mut().unwrap();
        seg.pages[idx].set_aligned(aligned);
        proof {
            let ns = self.seg(slot_of(h as int));
            let os = old(self).seg(slot_of(h as int));
            let np = self.page(h as int);
            let op = old(self).page(h as int);
            let start = os.payload_addr(idx as int);
            assert(os.page_wf(idx as int));
            assert forall|i: int| 0 <= i < np.free@.len() implies np.is_block(start, #[trigger] np.free@[i] as int) by {
                assert(op.is_block(start, op.free@[i] as int));
            }
            assert forall|i: int| 0 <= i < np.local_free@.len() implies np.is_block(start, #[trigger] np.local_free@[i] as int) by {
                assert(op.is_block(start, op.local_free@[i] as int));
            }
            assert(ns.page_wf(idx as int));
            self.lemma_page_changed(*old(self), h as int, -1);
        }
    }

    /// Clears the full flag of page `h`, which had left its queue, and puts it back at the
    /// end of the queue.
    fn page_unfull(&mut self, h: usize)
        requires
            old(self).wf_but(h as int),
            old(self).valid_handle(h as int),
            old(self).page(h as int).in_use,
            old(self).page(h as int).flags.full,
            old(self).page(h as int).reserved > 0,
            old(self).page(h as int).bin < MI_BIN_HUGE ==> old(self).page(h as int).block_size
                == old(self).block_sizes@[old(self).page(h as int).bin as int],
            old(self).page_shape_ok(h as int),
        ensures
            final(self).no_new_aligned(*old(self)),
            forall|sl: int| #[trigger] final(self).live(sl) ==> old(self).live(sl),
            final(self).page(h as int).local_free@ == old(self).page(h as int).local_free@,
            final(self).page(h as int).bin == old(self).page(h as int).bin,
            final(self).queue(old(self).page(h as int).bin as int) == old(self).queue(
                old(self).page(h as int).bin as int,
            ).push(h),
            final(self).heartbeat() == old(self).heartbeat(),
            final(self).wf(),
            final(self).valid_handle(h as int),
            final(self).page(h as int).in_use,
            !final(self).page(h as int).flags.full,
            final(self).queue(final(self).page(h as int).bin as int).contains(h),
            final(self).page(h as int).used == old(self).page(h as int).used,
            final(self).segment_failures() == old(self).segment_failures(),
    {
        proof {
            self.lemma_valid_page(h as int);
            assert forall|b: int| 0 <= b < BIN_COUNT implies !self.queue(b).contains(h) by {
                if self.queue(b).contains(h) {
                    let j = choose|j: int| 0 <= j < self.queue(b).len() && self.queue(b)[j] == h;
                    assert(!self.page(self.queue(b)[j] as int).flags.full);
                }
            }
        }
        let idx = h % MI_SMALL_PAGES_PER_SEGMENT;
        let seg = self.segments[h / MI_SMALL_PAGES_PER_SEGMENT].as_mut().unwrap();
        seg.pages[idx].set_full(false);
        proof {
            let ns = self.seg(slot_of(h as int));
            let os = old(self).seg(slot_of(h as int));
            let np = self.page(h as int);
            let op = old(self).page(h as int);
            let start = os.payload_addr(idx as int);
            assert(os.page_wf(idx as int));
            assert forall|i: int| 0 <= i < np.free@.len() implies np.is_block(start, #[trigger] np.free@[i] as int) by {
                assert(op.is_block(start, op.free@[i] as int));
            }
            assert forall|i: int| 0 <= i < np.local_free@.len() implies np.is_block(start, #[trigger] np.local_free@[i] as int) by {
                assert(op.is_block(start, op.local_free@[i] as int));
            }
            assert(ns.page_wf(idx as int));
            self.lemma_page_replaced(*old(self), h as int);
            assert(self.queue(np.bin as int) == old(self).queue(np.bin as int));
            self.lemma_valid_page(h as int);
        }
        self.page_queue_push_back(h);
        proof {
            assert(self.valid_handle(h as int));
            self.lemma_valid_page(h as int);
            assert(self.page_shape_ok(h as int));
        }
    }

    /// Puts `block` on the local free list of page `h`.
    fn page_free_block_core(&mut self, h: usize, block: usize)
        requires
            old(self).wf(),
            old(self).valid_handle(h as int),
            old(self).page(h as int).used > 0,
            old(self).page(h as int).is_block(
                old(self).seg(slot_of(h as int)).payload_addr(idx_of(h as int)),
                block as int,
            ),
        ensures
            final(self).no_new_aligned(*old(self)),
            forall|sl: int| #[trigger] final(self).live(sl) ==> old(self).live(sl),
            final(self).heartbeat() == old(self).heartbeat(),
            final(self).wf_but(h as int),
            final(self).page_changed(*old(self), h as int),
            final(self).page(h as int).used == old(self).page(h as int).used - 1,
            final(self).page(h as int).local_free@ == old(self).page(h as int).local_free@.push(
                block,
            ),
            final(self).page(h as int).free@ == old(self).page(h as int).free@,
            !(final(self).page(h as int).flags.full && final(self).page(h as int).used == 0)
                ==> final(self).wf(),
            final(self).page_shape_ok(h as int),
    {
        proof {
            self.lemma_valid_page(h as int);
            assert(self.page_shape_ok(h as int) && self.page_ok(h as int));
        }
        let idx = h % MI_SMALL_PAGES_PER_SEGMENT;
        let seg = self.segments[h / MI_SMALL_PAGES_PER_SEGMENT].as_mut().unwrap();
        seg.pages[idx].free_block_core(block);
        proof {
            let ns = self.seg(slot_of(h as int));
            let os = old(self).seg(slot_of(h as int));
            let start = os.payload_addr(idx as int);
            assert(os.page_wf(idx as int));
            assert(old(self).page(h as int).wf(start));
            assert(self.page(h as int).wf(start));
            assert(ns.page_wf(idx as int));
            self.lemma_page_changed(*old(self), h as int, h as int);
            if !(self.page(h as int).flags.full && self.page(h as int).used == 0) {
                self.lemma_page_changed(*old(self), h as int, -1);
            }
        }
    }

    /// Refreshes the direct slots of the bin of `block_size` to `page`.
    fn page_queue_first_update(&mut self, block_size: usize, page: usize)
        requires
            old(self).wf_tables(),
            old(self).direct_uniform(),
        ensures
            final(self).no_new_aligned(*old(self)),
            final(self).heartbeat() == old(self).heartbeat(),
            forall|w: int|
                0 <= w <= MI_SMALL_WSIZE_MAX ==> #[trigger] final(self).pages_free_direct@[w] == (
                if spec_bin_for_wsize(w as nat) == spec_bin_for_size(block_size as nat) {
                    page
                } else {
                    old(self).pages_free_direct@[w]
                }),
            final(self).pages_free_direct@.len() == old(self).pages_free_direct@.len(),
            final(self).pages@ == old(self).pages@,
            final(self).small_free_segments@ == old(self).small_free_segments@,
            final(self).segments@ == old(self).segments@,
            final(self).segment_slots@ == old(self).segment_slots@,
            final(self).wsize_ranges@ == old(self).wsize_ranges@,
            final(self).block_sizes@ == old(self).block_sizes@,
            final(self).segment_failures@ == old(self).segment_failures@,
    {
        proof {
            lemma_bin_beyond_small(spec_wsize(block_size as nat));
        }
        if block_size <= MI_SMALL_SIZE_MAX {
            let wsize = wsize_from_size(block_size);
            if self.pages_free_direct[wsize] != page {
                let (l, r) = self.wsize_ranges[wsize];
                let l = l as usize;
                let r = r as usize;
                proof {
                    assert(is_bin_run(wsize as nat, l as nat, r as nat));
                    assert forall|x: int|
                        0 <= x <= MI_SMALL_WSIZE_MAX && #[trigger] spec_bin_for_wsize(x as nat)
                            == spec_bin_for_wsize(wsize as nat) implies l <= x < r by {
                        lemma_run_covers_bin(wsize as nat, l as nat, r as nat, x as nat);
                    }
                }
                let ghost before = self.pages_free_direct@;
                let mut i: usize = l;
                while i < r
                    invariant
                        l <= i <= r <= DIRECT_COUNT,
                        is_bin_run(wsize as nat, l as nat, r as nat),
                        self.pages_free_direct@.len() == DIRECT_COUNT,
                        forall|x: int|
                            0 <= x < DIRECT_COUNT ==> #[trigger] self.pages_free_direct@[x] == (
                            if l <= x < i {
                                page
                            } else {
                                before[x]
                            }),
                        self.pages@ == old(self).pages@,
                        self.small_free_segments@ == old(self).small_free_segments@,
                        self.segments@ == old(self).segments@,
                        self.segment_slots@ == old(self).segment_slots@,
                        self.wsize_ranges@ == old(self).wsize_ranges@,
                        self.block_sizes@ == old(self).block_sizes@,
                        self.heartbeat == old(self).heartbeat,
                        self.segment_failures@ == old(self).segment_failures@,
                    decreases r - i,
                {
                    self.pages_free_direct.set(i, page);
                    i = i + 1;
                }
            } else {
                proof {
                    assert forall|x: int|
                        0 <= x <= MI_SMALL_WSIZE_MAX && spec_bin_for_wsize(x as nat)
                            == spec_bin_for_wsize(wsize as nat) implies #[trigger] self.pages_free_direct@[x]
                        == page by {
                        assert(self.pages_free_direct@[wsize as int] == page);
                        assert(self.pages_free_direct@[wsize as int] == self.pages_free_direct@[x]);
                    }
                }
            }
        } else {
            proof {
                assert forall|x: int| 0 <= x <= MI_SMALL_WSIZE_MAX implies #[trigger] spec_bin_for_wsize(x as nat)
                    != spec_bin_for_size(block_size as nat) by {
                    lemma_bin_beyond_small(x as nat);
                }
            }
        }
    }

    /// Pushes page `h` at the front of its bin's queue.
    fn page_queue_push_front(&mut self, h: usize)
        requires
            old(self).wf_but(h as int),
            old(self).ready_for_queue(h as int),
            !old(self).queue(old(self).page(h as int).bin as int).contains(h),
        ensures
            final(self).no_new_aligned(*old(self)),
            final(self).heartbeat() == old(self).heartbeat(),
            final(self).wf(),
            final(self).same_segments(*old(self)),
    {
        let bin = self.page_ref(h).bin;
        let bs = self.page_ref(h).block_size;
        proof {
            self.lemma_wf_direct_uniform();
            self.lemma_valid_page(h as int);
            assert(self.page_shape_ok(h as int) || self.ready_for_queue(h as int));
        }
        self.pages[bin].push_front(h);
        self.page_queue_first_update(bs, h);
        proof {
            self.lemma_queue_changed(*old(self), bin as int, h as int);
            assert(self.queue(bin as int)[0] == h);
            self.lemma_wf_from_but(h as int);
        }
    }

    /// Pushes page `h` at the back of its bin's queue.
    fn page_queue_push_back(&mut self, h: usize)
        requires
            old(self).wf_but(h as int),
            old(self).ready_for_queue(h as int),
            !old(self).queue(old(self).page(h as int).bin as int).contains(h),
        ensures
            final(self).no_new_aligned(*old(self)),
            forall|sl: int| #[trigger] final(self).live(sl) ==> old(self).live(sl),
            final(self).queue(old(self).page(h as int).bin as int) == old(self).queue(
                old(self).page(h as int).bin as int,
            ).push(h),
            final(self).heartbeat() == old(self).heartbeat(),
            final(self).wf(),
            final(self).same_segments(*old(self)),
    {
        let bin = self.page_ref(h).bin;
        let bs = self.page_ref(h).block_size;
        proof {
            self.lemma_wf_direct_uniform();
            self.lemma_valid_page(h as int);
            assert(self.page_shape_ok(h as int) || self.ready_for_queue(h as int));
        }
        let ghost q = self.queue(bin as int);
        if self.pages[bin].push_back(h) {
            self.page_queue_first_update(bs, h);
        } else {
            proof {
                assert(self.queue(bin as int) == q.push(h));
                assert(first_of(self.queue(bin as int)) == first_of(q));
            }
        }
        proof {
            self.lemma_queue_changed(*old(self), bin as int, h as int);
            assert(self.queue(bin as int)[q.len() as int] == h);
            self.lemma_wf_from_but(h as int);
        }
    }

    /// Takes page `h` out of its bin's queue; the invariant then holds but for `h`.
    fn page_queue_remove(&mut self, h: usize)
        requires
            old(self).wf(),
            old(self).valid_handle(h as int),
            old(self).page(h as int).in_use,
            !old(self).page(h as int).flags.full,
        ensures
            forall|b: int| 0 <= b < BIN_COUNT ==> !(#[trigger] final(self).queue(b)).contains(h),
            final(self).no_new_aligned(*old(self)),
            forall|sl: int| #[trigger] final(self).live(sl) ==> old(self).live(sl),
            final(self).heartbeat() == old(self).heartbeat(),
            final(self).wf_but(h as int),
            !final(self).queue(final(self).page(h as int).bin as int).contains(h),
            forall|b: int, g: usize|
                0 <= b < BIN_COUNT && g != h ==> (#[trigger] final(self).queue(b).contains(g)
                    <==> old(self).queue(b).contains(g)),
            final(self).same_segments(*old(self)),
    {
        let bin = self.page_ref(h).bin;
        let bs = self.page_ref(h).block_size;
        proof {
            self.lemma_wf_direct_uniform();
            self.lemma_valid_page(h as int);
            assert(self.page_shape_ok(h as int) || self.ready_for_queue(h as int));
        }
        let ghost q = self.queue(bin as int);
        proof {
            crate::list::lemma_first_index(q, h);
        }
        let ghost fi = crate::list::first_index(q, h);
        if self.pages[bin].remove(h) {
            let first = match self.pages[bin].first() {
                Some(f) => f,
                None => EMPTY_PAGE,
            };
            self.page_queue_first_update(bs, first);
        } else {
            proof {
                assert(fi > 0);
                assert(self.queue(bin as int)[0] == q[0]);
            }
        }
        proof {
            assert(self.queue(bin as int) == q.remove(fi));
            if self.queue(bin as int).contains(h) {
                let j = choose|j: int|
                    0 <= j < self.queue(bin as int).len() && self.queue(bin as int)[j] == h;
                if j < fi {
                    assert(q[j] == h);
                } else {
                    assert(q[j + 1] == q[fi]);
                }
            }
            self.lemma_queue_changed(*old(self), bin as int, h as int);
            assert forall|b: int| 0 <= b < BIN_COUNT implies !(#[trigger] self.queue(b)).contains(h) by {
                if b != bin && self.queue(b).contains(h) {
                    let j = choose|j: int| 0 <= j < self.queue(b).len() && self.queue(b)[j] == h;
                    assert(self.page(self.queue(b)[j] as int).bin == b);
                }
            }
        }
    }

    /// A valid handle is never the empty page's.
    proof fn lemma_handle_not_empty(&self, h: int)
        requires
            self.wf_tables(),
            self.valid_handle(h),
        ensures
            h < EMPTY_PAGE,
    {
        vstd::arithmetic::div_mod::lemma_fundamental_div_mod(h, 64);
        assert(h < 64 * (slot_of(h) + 1));
        assert(64 * (slot_of(h) + 1) <= 64 * 16777216);
    }

    /// What the segment invariant gives about page `h`.
    proof fn lemma_valid_page(&self, h: int)
        requires
            self.wf_segments(),
            self.valid_handle(h),
        ensures
            self.seg(slot_of(h)).wf(),
            self.seg(slot_of(h)).page_wf(idx_of(h)),
            self.page(h).reserved > 0 ==> 1 <= self.page(h).bin <= MI_BIN_HUGE,
            self.page(h).wf(self.seg(slot_of(h)).payload_addr(idx_of(h))),
    {
        assert(self.live(slot_of(h)));
    }

    proof fn lemma_wf_from_but(&self, h: int)
        requires
            self.wf_but(h),
            self.valid_handle(h) ==> self.page_shape_ok(h) && self.page_ok(h),
        ensures
            self.wf(),
    {
    }

    proof fn lemma_wf_direct_uniform(&self)
        requires
            self.wf_tables(),
            self.wf_direct(),
        ensures
            self.direct_uniform(),
    {
    }

    /// The invariant speaks of the heap's data alone.
    proof fn lemma_wf_frame(&self, o: Self)
        requires
            o.wf(),
            self.segments@ == o.segments@,
            self.segment_slots@ == o.segment_slots@,
            self.pages@ == o.pages@,
            self.pages_free_direct@ == o.pages_free_direct@,
            self.small_free_segments@ == o.small_free_segments@,
            self.wsize_ranges@ == o.wsize_ranges@,
            self.block_sizes@ == o.block_sizes@,
        ensures
            self.wf(),
    {
        self.lemma_queues_frame(o, -1);
        self.lemma_same_segments_wf(o);
        self.lemma_tables_frame(o);
        assert forall|j1: int, j2: int|
            0 <= j1 < j2 < self.small_free_segments@.len() implies #[trigger] self.small_free_segments@[j1]
                != #[trigger] self.small_free_segments@[j2] by {
            assert(o.small_free_segments@[j1] != o.small_free_segments@[j2]);
        }
    }

    /// The segment invariant speaks of the segments and the slot map alone.
    proof fn lemma_same_segments_wf(&self, o: Self)
        requires
            o.wf_segments(),
            self.segments@ == o.segments@,
            self.segment_slots@ == o.segment_slots@,
        ensures
            self.wf_segments(),
    {
        assert forall|slot: int| #[trigger] self.live(slot) implies {
            let s = self.seg(slot);
            &&& s.wf()
            &&& s.used > 0
            &&& (s.segment_size != MI_SEGMENT_SIZE ==> s.pages@[0].reserved <= 1)
            &&& self.segment_slots@.contains_key(s.base)
            &&& self.segment_slots@[s.base] == slot
        } by {
            assert(o.live(slot));
        }
        assert forall|base: usize| #[trigger] self.segment_slots@.contains_key(base) implies {
            &&& self.live(self.segment_slots@[base] as int)
            &&& self.seg(self.segment_slots@[base] as int).base == base
        } by {
            assert(o.segment_slots@.contains_key(base));
            assert(o.live(o.segment_slots@[base] as int));
        }
    }

    /// The queue invariant speaks of the segments, the queues and the block sizes alone.
    proof fn lemma_queues_frame(&self, o: Self, e: int)
        requires
            o.wf_queues(e),
            self.segments@ == o.segments@,
            self.pages@ == o.pages@,
            self.block_sizes@ == o.block_sizes@,
        ensures
            self.wf_queues(e),
            o.fresh_in_use(e) ==> self.fresh_in_use(e),
    {
        assert forall|g: int| #[trigger] self.valid_handle(g) <==> o.valid_handle(g) by {}
        assert forall|b: int, j: int|
            0 <= b < BIN_COUNT && 0 <= j < self.queue(b).len() implies {
                let g = #[trigger] self.queue(b)[j];
                &&& self.valid_handle(g as int)
                &&& self.page(g as int).in_use
                &&& self.page(g as int).bin == b
                &&& !self.page(g as int).flags.full
            } by {
            assert(o.queue(b)[j] == self.queue(b)[j]);
        }
        assert forall|b: int, j1: int, j2: int|
            0 <= b < BIN_COUNT && 0 <= j1 < j2 < self.queue(b).len() implies #[trigger] self.queue(
                b,
            )[j1] != #[trigger] self.queue(b)[j2] by {
            assert(o.queue(b)[j1] != o.queue(b)[j2]);
        }
        assert forall|g: int| #[trigger] self.valid_handle(g) && g != e implies self.page_ok(g)
            && self.page_shape_ok(g) by {
            assert(o.page_ok(g) && o.page_shape_ok(g));
        }
        if o.fresh_in_use(e) {
            assert forall|b: int| 0 <= b < BIN_COUNT implies !self.queue(b).contains(e as usize) by {
                assert(!o.queue(b).contains(e as usize));
            }
        }
    }

    /// The table and direct invariants speak of the tables, the queues and the direct
    /// slots alone.
    proof fn lemma_tables_frame(&self, o: Self)
        requires
            o.wf_tables(),
            o.wf_direct(),
            self.segments@.len() == o.segments@.len(),
            self.pages@ == o.pages@,
            self.pages_free_direct@ == o.pages_free_direct@,
            self.wsize_ranges@ == o.wsize_ranges@,
            self.block_sizes@ == o.block_sizes@,
        ensures
            self.wf_tables(),
            self.wf_direct(),
    {
        assert forall|w: int| 0 <= w <= MI_SMALL_WSIZE_MAX implies is_bin_run(
            w as nat,
            #[trigger] self.wsize_ranges@[w].0 as nat,
            self.wsize_ranges@[w].1 as nat,
        ) by {
            assert(is_bin_run(w as nat, o.wsize_ranges@[w].0 as nat, o.wsize_ranges@[w].1 as nat));
        }
        assert forall|w: int| 0 <= w <= MI_SMALL_WSIZE_MAX implies #[trigger] self.pages_free_direct@[w]
            == first_of(self.queue(spec_bin_for_wsize(w as nat) as int)) by {
            assert(o.pages_free_direct@[w] == first_of(o.queue(spec_bin_for_wsize(w as nat) as int)));
        }
    }

    proof fn lemma_page_changed(&self, o: Self, h: int, e: int)
        requires
            o.wf_but(e),
            o.valid_handle(h),
            self.page_changed(o, h),
            h != e ==> (self.page(h).flags.full ==> self.page(h).used > 0),
        ensures
            self.wf_but(e),
            o.page_ok(h) && (self.page(h).flags.full ==> self.page(h).used > 0) ==> self.page_ok(h),
            forall|g: int| #[trigger] self.valid_handle(g) <==> o.valid_handle(g),
            forall|g: int| o.valid_handle(g) && g != h ==> #[trigger] self.page(g) == o.page(g),
    {
        let slot = slot_of(h);
        let idx = idx_of(h);
        let os = o.seg(slot);
        let ns = self.seg(slot);
        assert(o.live(slot));
        crate::segment::lemma_count_in_use_update(os.pages@, idx, self.page(h));
        assert(ns.pages@ == os.pages@.update(idx, self.page(h)));
        assert forall|i: int| 0 <= i < ns.capacity implies ns.page_wf(i) by {
            if i != idx {
                assert(os.page_wf(i));
                assert(ns.pages@[i] == os.pages@[i]);
            }
        }
        assert(ns.wf());
        assert forall|g: int| #[trigger] self.valid_handle(g) <==> o.valid_handle(g) by {
            if slot_of(g) == slot {
            } else if self.live(slot_of(g)) || o.live(slot_of(g)) {
                assert(self.segments@[slot_of(g)] == o.segments@[slot_of(g)]);
            }
        }
        assert forall|g: int| o.valid_handle(g) && g != h implies #[trigger] self.page(g) == o.page(g) by {
            if slot_of(g) == slot {
                assert(idx_of(g) != idx);
            }
        }
        assert forall|sl: int| #[trigger] self.live(sl) implies {
            let s = self.seg(sl);
            &&& s.wf()
            &&& s.used > 0
            &&& (s.segment_size != MI_SEGMENT_SIZE ==> s.pages@[0].reserved <= 1)
            &&& self.segment_slots@.contains_key(s.base)
            &&& self.segment_slots@[s.base] == sl
        } by {
            assert(o.live(sl));
            if sl == slot {
                assert(ns.pages@[0].reserved == os.pages@[0].reserved);
            }
        }
        assert forall|base: usize| #[trigger] self.segment_slots@.contains_key(base) implies {
            &&& self.live(self.segment_slots@[base] as int)
            &&& self.seg(self.segment_slots@[base] as int).base == base
        } by {
            assert(o.segment_slots@.contains_key(base));
            assert(o.live(o.segment_slots@[base] as int));
        }
        assert forall|b: int, j: int|
            0 <= b < BIN_COUNT && 0 <= j < self.queue(b).len() implies {
                let g = #[trigger] self.queue(b)[j];
                &&& self.valid_handle(g as int)
                &&& self.page(g as int).in_use
                &&& self.page(g as int).bin == b
                &&& !self.page(g as int).flags.full
            } by {
            assert(o.queue(b)[j] == self.queue(b)[j]);
        }
        assert forall|g: int| #[trigger] self.valid_handle(g) && g != e implies self.page_shape_ok(
            g,
        ) by {
            assert(o.page_shape_ok(g));
        }
        assert forall|g: int| #[trigger] self.valid_handle(g) && g != e implies self.page_ok(g) by {
            assert(o.page_ok(g));
        }
        assert forall|j: int| 0 <= j < self.small_free_segments@.len() implies {
            let sl = #[trigger] self.small_free_segments@[j] as int;
            &&& self.live(sl)
            &&& self.seg(sl).capacity == MI_SMALL_PAGES_PER_SEGMENT
            &&& self.seg(sl).used < MI_SMALL_PAGES_PER_SEGMENT
        } by {
            let sl = self.small_free_segments@[j] as int;
            assert(o.live(sl));
        }
    }

    proof fn lemma_page_replaced(&self, o: Self, h: int)
        requires
            o.wf_but(h),
            o.valid_handle(h),
            self.page_replaced(o, h),
        ensures
            self.wf_but(h),
            forall|g: int| #[trigger] self.valid_handle(g) <==> o.valid_handle(g),
    {
        let slot = slot_of(h);
        let idx = idx_of(h);
        let os = o.seg(slot);
        let ns = self.seg(slot);
        assert(o.live(slot));
        crate::segment::lemma_count_in_use_update(os.pages@, idx, self.page(h));
        assert forall|i: int| 0 <= i < ns.capacity implies ns.page_wf(i) by {
            if i != idx {
                assert(os.page_wf(i));
                assert(ns.pages@[i] == os.pages@[i]);
            }
        }
        assert(ns.wf());
        assert forall|g: int| #[trigger] self.valid_handle(g) <==> o.valid_handle(g) by {
            if slot_of(g) != slot && 0 <= slot_of(g) < self.segments@.len() {
                assert(self.segments@[slot_of(g)] == o.segments@[slot_of(g)]);
            }
        }
        assert forall|g: int| o.valid_handle(g) && g != h implies #[trigger] self.page(g) == o.page(g) by {
            if slot_of(g) == slot {
                assert(idx_of(g) != idx);
            }
        }
        assert forall|sl: int| #[trigger] self.live(sl) implies {
            let s = self.seg(sl);
            &&& s.wf()
            &&& s.used > 0
            &&& (s.segment_size != MI_SEGMENT_SIZE ==> s.pages@[0].reserved <= 1)
            &&& self.segment_slots@.contains_key(s.base)
            &&& self.segment_slots@[s.base] == sl
        } by {
            assert(o.live(sl));
        }
        assert forall|base: usize| #[trigger] self.segment_slots@.contains_key(base) implies {
            &&& self.live(self.segment_slots@[base] as int)
            &&& self.seg(self.segment_slots@[base] as int).base == base
        } by {
            assert(o.segment_slots@.contains_key(base));
            assert(o.live(o.segment_slots@[base] as int));
        }
        assert forall|b: int, j: int|
            0 <= b < BIN_COUNT && 0 <= j < self.queue(b).len() implies {
                let g = #[trigger] self.queue(b)[j];
                &&& self.valid_handle(g as int)
                &&& self.page(g as int).in_use
                &&& self.page(g as int).bin == b
                &&& !self.page(g as int).flags.full
            } by {
            let g = o.queue(b)[j];
            assert(o.valid_handle(g as int));
            if g as int == h {
                assert(o.queue(b).contains(h as usize));
            }
        }
        assert forall|g: int| #[trigger] self.valid_handle(g) && g != h implies self.page_shape_ok(
            g,
        ) && self.page_ok(g) by {
            assert(o.page_shape_ok(g) && o.page_ok(g));
        }
        assert forall|j: int| 0 <= j < self.small_free_segments@.len() implies {
            let sl = #[trigger] self.small_free_segments@[j] as int;
            &&& self.live(sl)
            &&& self.seg(sl).capacity == MI_SMALL_PAGES_PER_SEGMENT
            &&& self.seg(sl).used < MI_SMALL_PAGES_PER_SEGMENT
        } by {
            let sl = self.small_free_segments@[j] as int;
            assert(o.live(sl));
        }
        assert forall|b: int, j1: int, j2: int|
            0 <= b < BIN_COUNT && 0 <= j1 < j2 < self.queue(b).len() implies #[trigger] self.queue(
                b,
            )[j1] != #[trigger] self.queue(b)[j2] by {
            assert(o.queue(b)[j1] != o.queue(b)[j2]);
        }
        assert forall|j1: int, j2: int|
            0 <= j1 < j2 < self.small_free_segments@.len() implies #[trigger] self.small_free_segments@[j1]
                != #[trigger] self.small_free_segments@[j2] by {
            assert(o.small_free_segments@[j1] != o.small_free_segments@[j2]);
        }
        self.lemma_tables_frame(o);
        assert(self.wf_segments());
        assert(self.wf_queues(h));
        assert(self.wf_small_free());
    }

    /// After the queue of bin `b` changed by the page `h` alone, the invariant holds but for
    /// `h`.
    proof fn lemma_queue_changed(&self, old_heap: Self, b: int, h: int)
        requires
            old_heap.wf_but(h),
            old_heap.valid_handle(h),
            old_heap.page(h).bin == b,
            old_heap.page(h).in_use,
            self.segments@ == old_heap.segments@,
            self.segment_slots@ == old_heap.segment_slots@,
            self.small_free_segments@ == old_heap.small_free_segments@,
            self.wsize_ranges@ == old_heap.wsize_ranges@,
            self.block_sizes@ == old_heap.block_sizes@,
            self.pages@.len() == old_heap.pages@.len(),
            forall|c: int| 0 <= c < BIN_COUNT && c != b ==> self.queue(c) == old_heap.queue(c),
            ({
                let oq = old_heap.queue(b);
                let nq = self.queue(b);
                ||| (nq == seq![h as usize] + oq && !oq.contains(h as usize)
                    && !old_heap.page(h).flags.full)
                ||| (nq == oq.push(h as usize) && !oq.contains(h as usize)
                    && !old_heap.page(h).flags.full)
                ||| (oq.contains(h as usize) && nq == oq.remove(
                    crate::list::first_index(oq, h as usize),
                ))
                ||| nq == oq
            }),
            self.pages_free_direct@.len() == DIRECT_COUNT,
            forall|w: int|
                0 <= w <= MI_SMALL_WSIZE_MAX ==> #[trigger] self.pages_free_direct@[w] == (
                if spec_bin_for_wsize(w as nat) == b {
                    first_of(self.queue(b))
                } else {
                    old_heap.pages_free_direct@[w]
                }),
        ensures
            self.wf_but(h),
            forall|c: int, g: usize|
                0 <= c < BIN_COUNT && g != h as usize ==> (#[trigger] self.queue(c).contains(g)
                    <==> old_heap.queue(c).contains(g)),
    {
        let oq = old_heap.queue(b);
        let nq = self.queue(b);
        crate::list::lemma_first_index(oq, h as usize);
        let fi = crate::list::first_index(oq, h as usize);
        // every entry of the new queue is `h` or an entry of the old one
        assert forall|j: int| 0 <= j < nq.len() implies nq[j] == h as usize || exists|k: int|
            0 <= k < oq.len() && oq[k] == #[trigger] nq[j] by {
            if nq == seq![h as usize] + oq {
                if j > 0 {
                    assert(oq[j - 1] == nq[j]);
                }
            } else if nq == oq.push(h as usize) {
                if j < oq.len() {
                    assert(oq[j] == nq[j]);
                }
            } else if oq.contains(h as usize) && nq == oq.remove(fi) {
                if j < fi {
                    assert(oq[j] == nq[j]);
                } else {
                    assert(oq[j + 1] == nq[j]);
                }
            } else {
                assert(oq[j] == nq[j]);
            }
        }
        assert forall|c: int, j: int|
            0 <= c < BIN_COUNT && 0 <= j < self.queue(c).len() implies {
                let g = #[trigger] self.queue(c)[j];
                &&& self.valid_handle(g as int)
                &&& self.page(g as int).in_use
                &&& self.page(g as int).bin == c
                &&& !self.page(g as int).flags.full
            } by {
            if c == b {
                if nq[j] != h as usize {
                    let k = choose|k: int| 0 <= k < oq.len() && oq[k] == nq[j];
                    assert(old_heap.queue(b)[k] == nq[j]);
                } else if oq.contains(h as usize) {
                    assert(old_heap.queue(b)[fi] == h as usize);
                }
            } else {
                assert(old_heap.queue(c)[j] == self.queue(c)[j]);
            }
        }
        assert forall|c: int, j1: int, j2: int|
            0 <= c < BIN_COUNT && 0 <= j1 < j2 < self.queue(c).len() implies #[trigger] self.queue(
                c,
            )[j1] != #[trigger] self.queue(c)[j2] by {
            if c == b {
                if nq == seq![h as usize] + oq {
                    if j1 == 0 {
                        assert(oq[j2 - 1] == nq[j2]);
                    } else {
                        assert(old_heap.queue(b)[j1 - 1] != old_heap.queue(b)[j2 - 1]);
                    }
                } else if nq == oq.push(h as usize) {
                    if j2 == oq.len() {
                        assert(oq[j1] == nq[j1]);
                    } else {
                        assert(old_heap.queue(b)[j1] != old_heap.queue(b)[j2]);
                    }
                } else if oq.contains(h as usize) && nq == oq.remove(fi) {
                    let k1 = if j1 < fi {
                        j1
                    } else {
                        j1 + 1
                    };
                    let k2 = if j2 < fi {
                        j2
                    } else {
                        j2 + 1
                    };
                    assert(old_heap.queue(b)[k1] != old_heap.queue(b)[k2]);
                } else {
                    assert(old_heap.queue(b)[j1] != old_heap.queue(b)[j2]);
                }
            } else {
                assert(old_heap.queue(c)[j1] != old_heap.queue(c)[j2]);
            }
        }
        // membership of every other page is unchanged
        assert forall|g: usize| g != h as usize implies #[trigger] nq.contains(g) == oq.contains(
            g,
        ) by {
            if nq.contains(g) {
                let j = choose|j: int| 0 <= j < nq.len() && nq[j] == g;
                assert(nq[j] != h as usize);
                let k = choose|k: int| 0 <= k < oq.len() && oq[k] == nq[j];
                assert(oq[k] == g);
            }
            if oq.contains(g) {
                let k = choose|k: int| 0 <= k < oq.len() && oq[k] == g;
                if nq == seq![h as usize] + oq {
                    assert(nq[k + 1] == g);
                } else if nq == oq.push(h as usize) {
                    assert(nq[k] == g);
                } else if oq.contains(h as usize) && nq == oq.remove(fi) {
                    if k < fi {
                        assert(nq[k] == g);
                    } else {
                        assert(k != fi);
                        assert(nq[k - 1] == g);
                    }
                } else {
                    assert(nq[k] == g);
                }
            }
        }
        assert forall|g: int| #[trigger] self.valid_handle(g) && g != h implies self.page_shape_ok(
            g,
        ) by {
            assert(old_heap.valid_handle(g));
            assert(old_heap.page_shape_ok(g));
            old_heap.lemma_valid_page(g);
            assert(self.page(g) == old_heap.page(g));
            if old_heap.page(g).in_use && old_heap.page(g).bin == b {
                assert(g as usize != h as usize);
                assert(nq.contains(g as usize) == oq.contains(g as usize));
            }
        }
        assert forall|g: int| #[trigger] self.valid_handle(g) && g != h implies self.page_ok(g) by {
            assert(old_heap.valid_handle(g));
            assert(old_heap.page_ok(g));
        }
        assert forall|w: int| 0 <= w <= MI_SMALL_WSIZE_MAX implies #[trigger] self.pages_free_direct@[w]
            == first_of(self.queue(spec_bin_for_wsize(w as nat) as int)) by {
            lemma_bin_range(w as nat);
            assert(old_heap.pages_free_direct@[w] == first_of(
                old_heap.queue(spec_bin_for_wsize(w as nat) as int),
            ));
        }
        self.lemma_same_segments_wf(old_heap);
    }

    /// The representative block size of the bin of a request up to the large limit serves
    /// the request and belongs to that bin.
    proof fn lemma_bin_block_size(&self, size: nat)
        requires
            self.wf_tables(),
            size <= MI_LARGE_SIZE_MAX,
        ensures
            ({
                let b = spec_bin_for_size(size);
                let bs = self.block_sizes@[b as int];
                &&& 1 <= b <= 60
                &&& bs >= size
                &&& bs >= MI_INTPTR_SIZE
                &&& bs % MI_INTPTR_SIZE == 0
                &&& spec_bin_for_size(bs as nat) == b
            }),
    {
        let w0 = spec_wsize(size);
        let b = spec_bin_for_size(size);
        lemma_bin_range(w0);
        let w1: nat = if w0 == 0 {
            1
        } else {
            w0
        };
        assert(spec_bin_for_wsize(w1) == b);
        assert(self.block_sizes@[spec_bin_for_wsize(w1) as int] >= 8 * w1);
        let bs = self.block_sizes@[b as int];
        assert(bs != 1);
        let w = choose|w: nat|
            1 <= w <= MI_LARGE_WSIZE_MAX && spec_bin_for_wsize(w) == b && bs == 8 * w;
        assert(spec_wsize(bs as nat) == w);
    }

    /// A block of an in-use page is word aligned, and serves any `size` bytes from `p`
    /// that stay inside it and near its start.
    proof fn lemma_block_serves(&self, h: int, x: int, p: int, size: int)
        requires
            self.wf(),
            self.is_block_of(h, x),
            x <= p,
            p < x + self.page(h).block_size,
            p + size <= x + self.page(h).block_size,
            p < x + MI_SEGMENT_SIZE / 2,
            size >= 0,
        ensures
            self.serves(p, size),
            x % (MI_INTPTR_SIZE as int) == 0,
            x > 0,
            x + self.page(h).block_size <= usize::MAX,
            self.page_handle_of(p) == h,
    {
        let slot = slot_of(h);
        let i = idx_of(h);
        let s = self.seg(slot);
        let pg = self.page(h);
        self.lemma_valid_page(h);
        s.lemma_layout_facts();
        assert(self.page_ok(h));
        let start = s.payload_addr(i);
        let bs = pg.block_size as int;
        let k = (x - start) / bs;
        vstd::arithmetic::div_mod::lemma_fundamental_div_mod(x - start, bs);
        assert(x - start == k * bs) by (nonlinear_arith)
            requires
                x - start == bs * ((x - start) / bs) + (x - start) % bs,
                (x - start) % bs == 0,
                k == (x - start) / bs,
        ;
        assert((k + 1) * bs <= pg.reserved * bs) by (nonlinear_arith)
            requires
                k + 1 <= pg.reserved,
                bs > 0,
        ;
        let ps = s.page_size as int;
        let base = s.base as int;
        assert(s.page_wf(i));
        assert(pg.reserved * bs <= s.usable_size(i));
        assert(k < pg.capacity);
        assert(x + bs == start + (k + 1) * bs) by (nonlinear_arith)
            requires
                x - start == k * bs,
        ;
        assert(start + s.usable_size(i) == base + (i + 1) * ps);
        assert(p < base + (i + 1) * ps);
        assert(base + i * ps <= start) by {
            if i == 0 {
            } else {
            }
        }
        vstd::arithmetic::div_mod::lemma_fundamental_div_mod_converse(p - base, ps, i, p - base - i * ps);
        if s.segment_size != MI_SEGMENT_SIZE {
            assert(s.capacity == 1);
            assert(i == 0);
            assert(s.pages@[0].reserved <= 1);
            assert(k == 0);
            assert(k * bs == 0) by (nonlinear_arith)
                requires
                    k == 0,
            ;
            assert(x == start);
            assert(start == base + SINGLE_INFO_SIZE);
            assert(p - base < MI_SEGMENT_SIZE);
        } else {
            assert(p - base < MI_SEGMENT_SIZE);
        }
        vstd::arithmetic::div_mod::lemma_fundamental_div_mod_converse(
            p,
            MI_SEGMENT_SIZE as int,
            base / (MI_SEGMENT_SIZE as int),
            p - base,
        );
        vstd::arithmetic::div_mod::lemma_fundamental_div_mod(base, MI_SEGMENT_SIZE as int);
        assert(p - p % (MI_SEGMENT_SIZE as int) == base);
        vstd::arithmetic::div_mod::lemma_fundamental_div_mod(h, 64);
        assert(self.live(slot));
        assert(pg.is_block(start, x));
        let q = bs / 8;
        assert(k * bs == (k * q) * 8) by (nonlinear_arith)
            requires
                bs == q * 8,
        ;
        vstd::arithmetic::div_mod::lemma_mod_multiples_basic(k * q, 8);
        let r = start / 16;
        vstd::arithmetic::div_mod::lemma_fundamental_div_mod(start, 16);
        assert(start == r * 16);
        assert(x == (r * 2 + k * q) * 8);
        vstd::arithmetic::div_mod::lemma_mod_multiples_basic(r * 2 + k * q, 8);
    }

    /// In a segment of a single page that is not segment-sized, the one block starts the
    /// payload.
    proof fn lemma_block_near_start(&self, h: int, x: int)
        requires
            self.wf(),
            self.is_block_of(h, x),
        ensures
            self.seg(slot_of(h)).segment_size == MI_SEGMENT_SIZE || x == self.seg(
                slot_of(h),
            ).payload_addr(0),
    {
        let s = self.seg(slot_of(h));
        self.lemma_valid_page(h);
        s.lemma_layout_facts();
        if s.segment_size != MI_SEGMENT_SIZE {
            assert(self.live(slot_of(h)));
            assert(idx_of(h) == 0);
            let pg = self.page(h);
            let start = s.payload_addr(0);
            let bs = pg.block_size as int;
            vstd::arithmetic::div_mod::lemma_fundamental_div_mod(x - start, bs);
            assert(s.page_wf(0));
            assert((x - start) / bs == 0);
            assert(bs * ((x - start) / bs) == 0) by (nonlinear_arith)
                requires
                    (x - start) / bs == 0,
            ;
            assert(x - start == 0);
        }
    }
}

/// A huge request of `size` bytes can be laid out in the address space.
pub open spec fn huge_request_fits(size: int) -> bool {
    size <= MI_LARGE_SIZE_MAX || (size <= usize::MAX - MI_INTPTR_SIZE
        && crate::segment::huge_segment_size(round_to_word(size)) <= usize::MAX)
}

/// `size` rounded up to a multiple of the word size.
pub open spec fn round_to_word(size: int) -> int {
    if size % (MI_INTPTR_SIZE as int) == 0 {
        size
    } else {
        size - size % (MI_INTPTR_SIZE as int) + MI_INTPTR_SIZE
    }
}

impl<H: DeferredFree> Default for Heap<H> {
    /// An empty heap.
    fn default() -> (r: Self)
        ensures
            r.wf(),
            r.holds_no_segment(),
    {
        Heap::new()
    }
}

/// An aligned request of `size` bytes can be served without overflow.
pub open spec fn aligned_request_fits(size: int, align: int) -> bool {
    if align <= MI_INTPTR_SIZE {
        huge_request_fits(size)
    } else {
        &&& size < usize::MAX - align
        &&& align <= MI_SEGMENT_SIZE / 2
        &&& huge_request_fits(size + align - 1)
    }
}

/// A handle names its slot and index.
proof fn lemma_handle(slot: int, idx: int)
    requires
        slot >= 0,
        0 <= idx < MI_SMALL_PAGES_PER_SEGMENT,
    ensures
        slot_of(slot * (MI_SMALL_PAGES_PER_SEGMENT as int) + idx) == slot,
        idx_of(slot * (MI_SMALL_PAGES_PER_SEGMENT as int) + idx) == idx,
{
    vstd::arithmetic::div_mod::lemma_fundamental_div_mod_converse(
        slot * 64 + idx,
        64,
        slot,
        idx,
    );
}

/// A run of word counts holds every word count of its bin.
proof fn lemma_run_covers_bin(w: nat, l: nat, r: nat, x: nat)
    requires
        is_bin_run(w, l, r),
        x <= MI_SMALL_WSIZE_MAX,
        spec_bin_for_wsize(x) == spec_bin_for_wsize(w),
    ensures
        l <= x < r,
{
    if x < l {
        lemma_bin_monotone(x, (l - 1) as nat);
        lemma_bin_monotone((l - 1) as nat, w);
    }
    if x >= r {
        lemma_bin_monotone(w, r);
        lemma_bin_monotone(r, x);
    }
}

/// Word counts past the direct table have bins past those of the table.
proof fn lemma_bin_beyond_small(w: nat)
    ensures
        w <= MI_SMALL_WSIZE_MAX ==> spec_bin_for_wsize(w) <= 24,
        w > MI_SMALL_WSIZE_MAX ==> spec_bin_for_wsize(w) >= 25,
{
    lemma_bin_range(w);
    if w > MI_SMALL_WSIZE_MAX {
        reveal_with_fuel(crate::utils::bin_above_small, 7);
        assert(spec_bin_for_wsize(129) == 25);
        lemma_bin_monotone(129, w);
    }
}

} // verus!
