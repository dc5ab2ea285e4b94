//! A segregated-free-list heap allocator after mimalloc: segments from an OS allocator,
//! pages of equally sized blocks inside them, a queue of pages per size class and a
//! direct table from small word sizes to pages.
//!
//! The allocator manages addresses; it never reads or writes the memory it hands out.

use vstd::prelude::*;

pub mod constants;
pub mod deferred_free;
pub mod heap;
pub mod list;
pub mod os;
pub mod page;
pub mod segment;
pub mod utils;

use crate::deferred_free::DeferredFree;
use crate::heap::{aligned_request_fits, Heap};
use crate::constants::{MI_INTPTR_SIZE, MI_LARGE_SIZE_MAX};
use crate::utils::spec_bin_for_size;
use crate::os::OsAlloc;
use crate::utils::is_power_of_two;

verus! {

/// The allocator: a heap and the OS allocator that feeds it segments.
pub struct Mimalloc<A, H> {
    heap: Heap<H>,
    os_alloc: A,
}

impl<A: OsAlloc, H: DeferredFree> Mimalloc<A, H> {
    pub closed spec fn heap(&self) -> Heap<H> {
        self.heap
    }

    /// The OS allocator's state.
    pub closed spec fn os(&self) -> A {
        self.os_alloc
    }

    pub open spec fn wf(&self) -> bool {
        self.heap().wf()
    }

    /// An allocator holding no segment yet.
    pub fn with_os_allocator(os_alloc: A) -> (r: Self)
        ensures
            r.wf(),
            r.heap().holds_no_segment(),
            r.heap().segment_count() == 0,
            r.heap().hook() is None,
    {
        Mimalloc { heap: Heap::new(), os_alloc }
    }

    /// Registers a hook run when the allocator is about to look for more memory; a new
    /// hook replaces the old one.
    pub fn register_deferred_free(&mut self, hook: H)
        requires
            old(self).wf(),
        ensures
            final(self).wf(),
            final(self).heap().hook() == Some(hook),
    {
        self.heap.register_deferred_free(hook);
    }

    /// Retires every page with no block in use; segments left empty go back to the OS
    /// allocator. With no block in use, no segment is held afterwards.
    pub fn collect(&mut self)
        requires
            old(self).wf(),
        ensures
            final(self).wf(),
            final(self).heap().queued_pages_used(),
            final(self).heap().collected(),
            old(self).heap().collected() ==> final(self).heap().same_state(old(self).heap())
                && final(self).os() == old(self).os(),
            old(self).heap().no_block_in_use() ==> final(self).heap().holds_no_segment()
                && final(self).heap().segment_count() == 0,
    {
        self.heap.collect(&mut self.os_alloc);
    }

    /// Address of a block of at least `size` bytes at a multiple of `align`, or 0.
    ///
    /// 0 comes only when the OS allocator did not deliver a segment, or when the request
    /// cannot be laid out (`size + align - 1` overflows, or `align` is over half a
    /// segment).
    pub fn allocate(&mut self, size: usize, align: usize) -> (r: usize)
        requires
            old(self).wf(),
            is_power_of_two(align as nat),
        ensures
            final(self).wf(),
            r != 0 ==> r % align == 0 && final(self).heap().serves(r as int, size as int),
            r == 0 ==> final(self).heap().segment_failures() > old(self).heap().segment_failures()
                || !aligned_request_fits(size as int, align as int),
            old(self).heap().ready_block(size as int) matches Some(x) ==> ((align
                <= MI_INTPTR_SIZE || (x % align == 0 && aligned_request_fits(
                size as int,
                align as int,
            ))) ==> r == x),
            !aligned_request_fits(size as int, align as int) ==> r == 0,
            r != 0 ==> final(self).heap().page(final(self).heap().page_handle_of(r as int)).used > 0,
            align <= MI_INTPTR_SIZE && r != 0 ==> r % MI_INTPTR_SIZE == 0,
            align <= MI_INTPTR_SIZE ==> final(self).heap().no_new_aligned(old(self).heap()),
            old(self).heap().hook() is None && aligned_request_fits(size as int, align as int) && ({
                let n = if align <= MI_INTPTR_SIZE {
                    size as int
                } else {
                    size + align - 1
                };
                n <= MI_LARGE_SIZE_MAX && old(self).heap().bin_has_ready_page(
                    spec_bin_for_size(n as nat) as int,
                )
            }) ==> r != 0,
    {
        self.heap.malloc_aligned(size, align, &mut self.os_alloc)
    }

    /// Frees the block at `ptr`; null, and any address in no page of this allocator, is
    /// ignored.
    pub fn dealloc(&mut self, ptr: usize)
        requires
            old(self).wf(),
        ensures
            final(self).wf(),
            !old(self).heap().points_into_page(ptr as int)
                ==> final(self).heap() == old(self).heap() && final(self).os() == old(self).os(),
            old(self).heap().points_into_page(ptr as int) ==> {
                let h = old(self).heap().page_handle_of(ptr as int);
                &&& old(self).heap().accepts_free(h, ptr as int) ==> {
                    ||| (final(self).heap().valid_handle(h) && final(self).heap().page(h).in_use
                        && final(self).heap().page(h).used == old(self).heap().page(h).used - 1)
                    ||| !final(self).heap().valid_handle(h)
                    ||| !final(self).heap().page(h).in_use
                }
                &&& !old(self).heap().accepts_free(h, ptr as int)
                    ==> final(self).heap() == old(self).heap()
            },
    {
        self.heap.free(ptr, &mut self.os_alloc)
    }

    /// The OS allocator.
    pub fn os_allocator(&self) -> &A {
        &self.os_alloc
    }
}

} // verus!
