use vstd::prelude::*;

verus! {

/// Handed to a deferred-free hook: the blocks the hook releases through it are freed by
/// the heap as soon as the hook returns.
pub struct DeferredFreeHandle {
    pending: Vec<usize>,
}

impl View for DeferredFreeHandle {
    type V = Seq<usize>;

    closed spec fn view(&self) -> Seq<usize> {
        self.pending@
    }
}

impl DeferredFreeHandle {
    pub fn new() -> (r: Self)
        ensures
            r@ == Seq::<usize>::empty(),
    {
        DeferredFreeHandle { pending: Vec::new() }
    }

    /// Releases the block at `ptr`.
    pub fn free(&mut self, ptr: usize)
        ensures
            final(self)@ == old(self)@.push(ptr),
    {
        self.pending.push(ptr);
    }

    /// Number of blocks released so far.
    pub fn len(&self) -> (r: usize)
        ensures
            r == self@.len(),
    {
        self.pending.len()
    }

    /// The `i`-th block released.
    pub fn get(&self, i: usize) -> (r: usize)
        requires
            i < self@.len(),
        ensures
            r == self@[i as int],
    {
        self.pending[i]
    }
}

/// A host's hook, run on the slow allocation path before the allocator looks for more
/// memory: it may release blocks that it holds lazily.
pub trait DeferredFree {
    /// `force` asks for everything that can be released; `heartbeat` counts the calls.
    fn deferred_free(&mut self, handle: &mut DeferredFreeHandle, force: bool, heartbeat: u64);
}

/// The hook of a heap that has none registered.
pub struct NoDeferredFree;

impl DeferredFree for NoDeferredFree {
    fn deferred_free(&mut self, handle: &mut DeferredFreeHandle, force: bool, heartbeat: u64) {
    }
}

} // verus!
