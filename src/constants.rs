use vstd::prelude::*;

verus! {

/// Bytes in a machine word on the supported 64-bit targets.
pub const MI_INTPTR_SIZE: usize = 8;

/// `log2(MI_INTPTR_SIZE)`.
pub const MI_INTPTR_SHIFT: usize = 3;

/// `13 + MI_INTPTR_SHIFT`: small pages are 64 KiB.
pub const MI_SMALL_PAGE_SHIFT: usize = 16;

/// `6 + MI_SMALL_PAGE_SHIFT`: large pages are 4 MiB.
pub const MI_LARGE_PAGE_SHIFT: usize = 22;

/// Segments are as large as a large page.
pub const MI_SEGMENT_SHIFT: usize = 22;

/// `1 << MI_SEGMENT_SHIFT`.
pub const MI_SEGMENT_SIZE: usize = 4194304;

/// `MI_SEGMENT_SIZE - 1`.
pub const MI_SEGMENT_MASK: usize = 4194303;

/// `1 << MI_SMALL_PAGE_SHIFT`.
pub const MI_SMALL_PAGE_SIZE: usize = 65536;

/// `1 << MI_LARGE_PAGE_SHIFT`.
pub const MI_LARGE_PAGE_SIZE: usize = 4194304;

/// `MI_SEGMENT_SIZE / MI_SMALL_PAGE_SIZE`.
pub const MI_SMALL_PAGES_PER_SEGMENT: usize = 64;

/// `MI_SEGMENT_SIZE / MI_LARGE_PAGE_SIZE`.
pub const MI_LARGE_PAGES_PER_SEGMENT: usize = 1;

/// Largest word size served through the direct page table.
pub const MI_SMALL_WSIZE_MAX: usize = 128;

/// `MI_SMALL_WSIZE_MAX << MI_INTPTR_SHIFT`.
pub const MI_SMALL_SIZE_MAX: usize = 1024;

/// `MI_LARGE_PAGE_SIZE / 8`: larger requests get a huge segment of their own.
pub const MI_LARGE_SIZE_MAX: usize = 524288;

/// `MI_LARGE_SIZE_MAX >> MI_INTPTR_SHIFT`.
pub const MI_LARGE_WSIZE_MAX: usize = 65536;

/// Bin of the huge allocations.
pub const MI_BIN_HUGE: usize = 64;

/// Largest alignment that every block start honours by construction of the layout.
pub const MI_MAX_ALIGN_SIZE: usize = 16;

/// `MI_MAX_ALIGN_SIZE / MI_INTPTR_SIZE`: word alignment inside the smallest bins.
pub const MI_ALIGN_W: usize = 2;

/// Huge segments are sized in multiples of this.
pub const MI_PAGE_HUGE_ALIGN: usize = 262144;

/// At most this many bytes of blocks are threaded by one extension of a page.
pub const MI_MAX_EXTEND_SIZE: usize = 4096;

/// At least this many blocks are threaded by one extension of a page.
pub const MI_MIN_EXTEND: usize = 1;

/// Bytes of the segment header that starts every segment.
pub const SEGMENT_HEADER_SIZE: usize = 56;

/// Bytes of one page descriptor in the segment's info area.
pub const PAGE_DESCRIPTOR_SIZE: usize = 56;

/// The info area is rounded up to a multiple of this.
pub const INFO_ALIGN: usize = 16;

/// Info area of a small segment: header and 64 descriptors (3640 bytes), rounded up.
pub const SMALL_INFO_SIZE: usize = 3648;

/// Info area of a large or huge segment: header and one descriptor, rounded up.
pub const SINGLE_INFO_SIZE: usize = 112;

/// Number of bins, huge bin included.
pub const BIN_COUNT: usize = 65;

/// Number of slots in the direct page table.
pub const DIRECT_COUNT: usize = 129;

} // verus!
