use vstd::prelude::*;

verus! {

/// The source of segments: hands out and takes back large aligned regions of address
/// space.
///
/// The allocator checks every region it receives (non-null, aligned, inside the address
/// space), so an implementation is trusted for nothing beyond not handing out a region
/// that is still in use.
pub trait OsAlloc {
    /// Address of a region of `size` bytes aligned to `align`, or 0 when none is
    /// available.
    fn allocate(&mut self, size: usize, align: usize) -> usize;

    /// Takes back a region that `allocate` handed out with the same size and alignment.
    fn deallocate(&mut self, addr: usize, size: usize, align: usize);
}

} // verus!
