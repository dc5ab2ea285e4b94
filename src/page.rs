use vstd::prelude::*;
use crate::constants::{MI_BIN_HUGE, MI_INTPTR_SIZE, MI_MAX_EXTEND_SIZE, MI_MIN_EXTEND};
use crate::utils::{bin_for_size, spec_bin_for_size, lemma_bin_range, spec_wsize};

verus! {

/// The two exceptional states of a page; both clear is the common case of the free path.
#[derive(Clone, Copy, PartialEq, Eq, Structural)]
pub struct PageFlags {
    /// Some block of the page was handed out at an address past its start.
    pub has_aligned: bool,
    /// The page had no block left and was taken out of its bin's queue.
    pub full: bool,
}

impl PageFlags {
    pub fn clear() -> (r: Self)
        ensures
            !r.has_aligned && !r.full,
    {
        PageFlags { has_aligned: false, full: false }
    }

    /// Whether neither flag is set.
    pub fn is_clear(&self) -> (r: bool)
        ensures
            r == (!self.has_aligned && !self.full),
    {
        !self.has_aligned && !self.full
    }
}

/// A run of equally sized blocks inside a segment.
///
/// Both free lists hold block addresses with their head last: `free` feeds allocation,
/// `local_free` receives freed blocks until they are collected.
pub struct Page {
    pub in_use: bool,
    pub flags: PageFlags,
    /// Blocks threaded into the free lists so far.
    pub capacity: usize,
    /// Blocks the page can ever hold.
    pub reserved: usize,
    pub free: Vec<usize>,
    /// Blocks currently handed out.
    pub used: usize,
    pub local_free: Vec<usize>,
    pub block_size: usize,
    pub bin: usize,
}

/// The blocks threaded by one extension: `n` blocks from index `cap` on, the lowest
/// address at the head (the end of the sequence).
pub open spec fn extension(start: int, bs: int, cap: int, n: int) -> Seq<usize> {
    Seq::new(n as nat, |j: int| (start + (cap + n - 1 - j) * bs) as usize)
}

/// Number of blocks threaded by one extension of a page with these counts.
pub open spec fn extend_count(reserved: int, capacity: int, block_size: int) -> int {
    let max_extend = if (MI_MAX_EXTEND_SIZE as int) / block_size > MI_MIN_EXTEND {
        (MI_MAX_EXTEND_SIZE as int) / block_size
    } else {
        MI_MIN_EXTEND as int
    };
    if reserved - capacity < max_extend {
        reserved - capacity
    } else {
        max_extend
    }
}

impl Page {
    /// `x` is the address of one of the blocks threaded so far, for a payload at `start`.
    pub open spec fn is_block(&self, start: int, x: int) -> bool {
        &&& self.block_size > 0
        &&& x >= start
        &&& (x - start) % (self.block_size as int) == 0
        &&& (x - start) / (self.block_size as int) < self.capacity
    }

    /// A descriptor that holds nothing: the state of an unused page slot.
    pub open spec fn is_fresh(&self) -> bool {
        &&& !self.in_use
        &&& self.flags == PageFlags { has_aligned: false, full: false }
        &&& self.capacity == 0
        &&& self.reserved == 0
        &&& self.free@.len() == 0
        &&& self.used == 0
        &&& self.local_free@.len() == 0
        &&& self.block_size == 0
        &&& self.bin == 0
    }

    /// Well-formedness of a page whose payload starts at `start`.
    pub open spec fn wf(&self, start: int) -> bool {
        &&& self.used <= self.capacity <= self.reserved
        &&& self.used + self.free@.len() + self.local_free@.len() == self.capacity
        &&& (self.reserved == 0 ==> self.capacity == 0)
        &&& (self.reserved > 0 ==> {
            &&& self.block_size >= MI_INTPTR_SIZE
            &&& self.block_size % MI_INTPTR_SIZE == 0
            &&& self.bin == spec_bin_for_size(self.block_size as nat)
            &&& 1 <= self.bin <= MI_BIN_HUGE
        })
        &&& start + self.reserved * self.block_size <= usize::MAX
        &&& forall|i: int|
            0 <= i < self.free@.len() ==> self.is_block(start, #[trigger] self.free@[i] as int)
        &&& forall|i: int|
            0 <= i < self.local_free@.len() ==> self.is_block(
                start,
                #[trigger] self.local_free@[i] as int,
            )
    }

    /// An unused page descriptor.
    pub fn new() -> (r: Self)
        ensures
            r.is_fresh(),
    {
        Page {
            in_use: false,
            flags: PageFlags::clear(),
            capacity: 0,
            reserved: 0,
            free: Vec::new(),
            used: 0,
            local_free: Vec::new(),
            block_size: 0,
            bin: 0,
        }
    }

    /// Sets up a fresh page of `page_size` bytes at `start` for blocks of `block_size`
    /// bytes and threads its first blocks.
    pub fn init(&mut self, start: usize, page_size: usize, block_size: usize)
        requires
            old(self).reserved == 0,
            old(self).wf(start as int),
            block_size >= MI_INTPTR_SIZE,
            block_size % MI_INTPTR_SIZE == 0,
            block_size <= page_size,
            start + page_size <= usize::MAX,
        ensures
            final(self).wf(start as int),
            final(self).block_size == block_size,
            final(self).bin == spec_bin_for_size(block_size as nat),
            final(self).reserved == page_size / block_size,
            final(self).capacity == extend_count((page_size / block_size) as int, 0, block_size as int),
            final(self).free@.len() > 0,
            final(self).used == 0,
            final(self).local_free@.len() == 0,
            final(self).in_use == old(self).in_use,
            final(self).flags == old(self).flags,
    {
        self.block_size = block_size;
        self.bin = bin_for_size(block_size);
        self.reserved = page_size / block_size;
        proof {
            let r = page_size / block_size;
            assert(r * block_size <= page_size) by (nonlinear_arith)
                requires
                    r == page_size / block_size,
                    block_size > 0,
            ;
            assert(r >= 1) by (nonlinear_arith)
                requires
                    r == page_size / block_size,
                    block_size <= page_size,
                    block_size > 0,
            ;
        }
        self.extend(start);
    }

    /// Threads more blocks into an empty fast free list, if the page has blocks left.
    pub fn extend(&mut self, start: usize)
        requires
            old(self).wf(start as int),
        ensures
            final(self).wf(start as int),
            (old(self).free@.len() > 0 || old(self).capacity >= old(self).reserved) ==> (
            final(self).free@ == old(self).free@ && final(self).capacity == old(self).capacity),
            (old(self).free@.len() == 0 && old(self).capacity < old(self).reserved) ==> {
                let n = extend_count(
                    old(self).reserved as int,
                    old(self).capacity as int,
                    old(self).block_size as int,
                );
                &&& n >= 1
                &&& final(self).free@ == extension(
                    start as int,
                    old(self).block_size as int,
                    old(self).capacity as int,
                    n,
                )
                &&& final(self).capacity == old(self).capacity + n
                &&& final(self).free@.len() > 0
            },
            final(self).used == old(self).used,
            final(self).local_free@ == old(self).local_free@,
            final(self).reserved == old(self).reserved,
            final(self).block_size == old(self).block_size,
            final(self).bin == old(self).bin,
            final(self).in_use == old(self).in_use,
            final(self).flags == old(self).flags,
    {
        if self.free.len() > 0 || self.capacity >= self.reserved {
            return;
        }
        let bsize = self.block_size;
        let max_extend = if MI_MAX_EXTEND_SIZE / bsize > MI_MIN_EXTEND {
            MI_MAX_EXTEND_SIZE / bsize
        } else {
            MI_MIN_EXTEND
        };
        let extend = if self.reserved - self.capacity < max_extend {
            self.reserved - self.capacity
        } else {
            max_extend
        };
        let cap = self.capacity;
        let ghost reserved = self.reserved;
        let mut i = extend;
        while i > 0
            invariant
                0 <= i <= extend,
                1 <= extend,
                cap + extend <= reserved,
                start + reserved * bsize <= usize::MAX,
                bsize > 0,
                self.block_size == bsize,
                self.capacity == cap,
                self.reserved == reserved,
                self.used == old(self).used,
                self.bin == old(self).bin,
                self.in_use == old(self).in_use,
                self.flags == old(self).flags,
                self.local_free@ == old(self).local_free@,
                self.free@ == extension(start as int, bsize as int, cap as int, extend as int).take(
                    (extend - i) as int,
                ),
            decreases i,
        {
            i = i - 1;
            proof {
                assert((cap + i) * bsize <= reserved * bsize) by (nonlinear_arith)
                    requires
                        cap + i < reserved,
                        bsize > 0,
                ;
            }
            let addr = start + (cap + i) * bsize;
            self.free.push(addr);
            assert(self.free@ =~= extension(
                start as int,
                bsize as int,
                cap as int,
                extend as int,
            ).take((extend - i) as int));
        }
        self.capacity = cap + extend;
        proof {
            let ext = extension(start as int, bsize as int, cap as int, extend as int);
            assert(self.free@ =~= ext);
            assert forall|j: int| 0 <= j < self.free@.len() implies self.is_block(
                start as int,
                #[trigger] self.free@[j] as int,
            ) by {
                let k = cap + extend - 1 - j;
                assert(k * bsize <= reserved * bsize) by (nonlinear_arith)
                    requires
                        k < reserved,
                        bsize > 0,
                ;
                assert(self.free@[j] as int == start + k * bsize);
                assert((k * bsize) % (bsize as int) == 0 && (k * bsize) / (bsize as int) == k)
                    by (nonlinear_arith)
                    requires
                        bsize > 0,
                        k >= 0,
                ;
            }
            assert forall|j: int| 0 <= j < self.local_free@.len() implies self.is_block(
                start as int,
                #[trigger] self.local_free@[j] as int,
            ) by {
                assert(old(self).is_block(start as int, self.local_free@[j] as int));
            }
        }
    }

    /// Unlinks the head of the fast free list and counts it as used.
    pub fn take_free_block(&mut self) -> (r: usize)
        requires
            old(self).free@.len() > 0,
            old(self).used + old(self).free@.len() <= old(self).capacity,
        ensures
            r == old(self).free@.last(),
            final(self).free@ == old(self).free@.drop_last(),
            final(self).used == old(self).used + 1,
            final(self).local_free@ == old(self).local_free@,
            final(self).capacity == old(self).capacity,
            final(self).reserved == old(self).reserved,
            final(self).block_size == old(self).block_size,
            final(self).bin == old(self).bin,
            final(self).in_use == old(self).in_use,
            final(self).flags == old(self).flags,
            forall|start: int| old(self).wf(start) ==> final(self).wf(start),
    {
        let b = self.free.pop().unwrap();
        self.used = self.used + 1;
        proof {
            assert forall|start: int| old(self).wf(start) implies self.wf(start) by {
                assert forall|i: int| 0 <= i < self.free@.len() implies self.is_block(
                    start,
                    #[trigger] self.free@[i] as int,
                ) by {
                    assert(self.free@[i] == old(self).free@[i]);
                }
                assert forall|i: int| 0 <= i < self.local_free@.len() implies self.is_block(
                    start,
                    #[trigger] self.local_free@[i] as int,
                ) by {
                    assert(old(self).is_block(start, self.local_free@[i] as int));
                }
            }
        }
        b
    }

    /// Puts a block back on the local free list.
    pub fn free_block_core(&mut self, block: usize)
        requires
            old(self).used > 0,
        ensures
            final(self).local_free@ == old(self).local_free@.push(block),
            final(self).used == old(self).used - 1,
            final(self).free@ == old(self).free@,
            final(self).capacity == old(self).capacity,
            final(self).reserved == old(self).reserved,
            final(self).block_size == old(self).block_size,
            final(self).bin == old(self).bin,
            final(self).in_use == old(self).in_use,
            final(self).flags == old(self).flags,
            forall|start: int|
                old(self).wf(start) && old(self).is_block(start, block as int) ==> final(self).wf(
                    start,
                ),
    {
        self.local_free.push(block);
        self.used = self.used - 1;
        proof {
            assert forall|start: int|
                old(self).wf(start) && old(self).is_block(start, block as int) implies self.wf(
                start,
            ) by {
                assert forall|i: int| 0 <= i < self.free@.len() implies self.is_block(
                    start,
                    #[trigger] self.free@[i] as int,
                ) by {
                    assert(old(self).is_block(start, self.free@[i] as int));
                }
                assert forall|i: int| 0 <= i < self.local_free@.len() implies self.is_block(
                    start,
                    #[trigger] self.local_free@[i] as int,
                ) by {
                    if i < old(self).local_free@.len() {
                        assert(self.local_free@[i] == old(self).local_free@[i]);
                    }
                }
            }
        }
    }

    /// Splices the local free list onto the tail of the fast free list.
    pub fn free_collect(&mut self)
        ensures
            final(self).free@ == old(self).local_free@ + old(self).free@,
            final(self).local_free@.len() == 0,
            final(self).used == old(self).used,
            final(self).capacity == old(self).capacity,
            final(self).reserved == old(self).reserved,
            final(self).block_size == old(self).block_size,
            final(self).bin == old(self).bin,
            final(self).in_use == old(self).in_use,
            final(self).flags == old(self).flags,
            forall|start: int| old(self).wf(start) ==> final(self).wf(start),
            old(self).local_free@.len() == 0 ==> *final(self) == *old(self),
    {
        if self.local_free.len() > 0 {
            std::mem::swap(&mut self.free, &mut self.local_free);
            self.free.append(&mut self.local_free);
        }
        proof {
            assert(self.free@ =~= old(self).local_free@ + old(self).free@);
            assert forall|start: int| old(self).wf(start) implies self.wf(start) by {
                assert forall|i: int| 0 <= i < self.free@.len() implies self.is_block(
                    start,
                    #[trigger] self.free@[i] as int,
                ) by {
                    let n = old(self).local_free@.len() as int;
                    if i < n {
                        assert(old(self).is_block(start, old(self).local_free@[i] as int));
                    } else {
                        assert(self.free@[i] == old(self).free@[i - n]);
                        assert(old(self).is_block(start, old(self).free@[i - n] as int));
                    }
                }
            }
        }
    }

    /// Head of the fast free list, or 0 if it is empty.
    pub fn free(&self) -> (r: usize)
        ensures
            r == (if self.free@.len() == 0 {
                0
            } else {
                self.free@.last()
            }),
    {
        if self.free.len() == 0 {
            0
        } else {
            self.free[self.free.len() - 1]
        }
    }

    /// Whether a block can be handed out without further work.
    pub fn immediate_available(&self) -> (r: bool)
        ensures
            r == (self.free@.len() > 0),
    {
        self.free.len() > 0
    }

    pub fn block_size(&self) -> (r: usize)
        ensures
            r == self.block_size,
    {
        self.block_size
    }

    pub fn bin(&self) -> (r: usize)
        ensures
            r == self.bin,
    {
        self.bin
    }

    pub fn set_full(&mut self, full: bool)
        ensures
            final(self).flags.full == full,
            final(self).flags.has_aligned == old(self).flags.has_aligned,
            final(self).in_use == old(self).in_use,
            final(self).capacity == old(self).capacity,
            final(self).reserved == old(self).reserved,
            final(self).free@ == old(self).free@,
            final(self).used == old(self).used,
            final(self).local_free@ == old(self).local_free@,
            final(self).block_size == old(self).block_size,
            final(self).bin == old(self).bin,
    {
        self.flags.full = full;
    }

    /// Whether no block of the page is handed out.
    pub fn all_free(&self) -> (r: bool)
        ensures
            r == (self.used == 0),
    {
        self.used == 0
    }

    pub fn set_aligned(&mut self, aligned: bool)
        ensures
            final(self).flags.has_aligned == aligned,
            final(self).flags.full == old(self).flags.full,
            final(self).in_use == old(self).in_use,
            final(self).capacity == old(self).capacity,
            final(self).reserved == old(self).reserved,
            final(self).free@ == old(self).free@,
            final(self).used == old(self).used,
            final(self).local_free@ == old(self).local_free@,
            final(self).block_size == old(self).block_size,
            final(self).bin == old(self).bin,
    {
        self.flags.has_aligned = aligned;
    }

    pub fn in_use(&self) -> (r: bool)
        ensures
            r == self.in_use,
    {
        self.in_use
    }

    pub fn set_in_use(&mut self, in_use: bool)
        ensures
            final(self).in_use == in_use,
            final(self).flags == old(self).flags,
            final(self).capacity == old(self).capacity,
            final(self).reserved == old(self).reserved,
            final(self).free@ == old(self).free@,
            final(self).used == old(self).used,
            final(self).local_free@ == old(self).local_free@,
            final(self).block_size == old(self).block_size,
            final(self).bin == old(self).bin,
    {
        self.in_use = in_use;
    }
}

} // verus!
