use vstd::prelude::*;
use crate::constants::{
    MI_INTPTR_SIZE, MI_LARGE_PAGE_SIZE, MI_PAGE_HUGE_ALIGN, MI_SEGMENT_MASK, MI_SEGMENT_SIZE,
    MI_SMALL_PAGES_PER_SEGMENT, MI_SMALL_PAGE_SIZE, SINGLE_INFO_SIZE, SMALL_INFO_SIZE,
};
use crate::os::OsAlloc;
use crate::page::Page;

verus! {

/// What a segment is made for.
#[derive(Clone, Copy, PartialEq, Eq, Structural)]
pub enum PageKind {
    /// Many small pages.
    Small,
    /// One large page.
    Large,
    /// One page sized to a request of this many bytes.
    Huge(usize),
}

/// Size of the huge segment for a request of `size` bytes: the request and the info
/// area, rounded up to `MI_PAGE_HUGE_ALIGN`.
pub open spec fn huge_segment_size(size: int) -> int {
    let n = size + SINGLE_INFO_SIZE;
    if n % (MI_PAGE_HUGE_ALIGN as int) == 0 {
        n
    } else {
        n - n % (MI_PAGE_HUGE_ALIGN as int) + MI_PAGE_HUGE_ALIGN
    }
}

/// Whether a segment of this kind fits in the address space.
pub open spec fn kind_fits(kind: PageKind) -> bool {
    match kind {
        PageKind::Huge(size) => huge_segment_size(size as int) <= usize::MAX,
        _ => true,
    }
}

/// `(capacity, segment_size, info_size, page_size)` of a segment of this kind.
pub open spec fn spec_layout(kind: PageKind) -> (usize, usize, usize, usize) {
    match kind {
        PageKind::Small => (
            MI_SMALL_PAGES_PER_SEGMENT,
            MI_SEGMENT_SIZE,
            SMALL_INFO_SIZE,
            MI_SMALL_PAGE_SIZE,
        ),
        PageKind::Large => (1, MI_SEGMENT_SIZE, SINGLE_INFO_SIZE, MI_LARGE_PAGE_SIZE),
        PageKind::Huge(size) => {
            let s = huge_segment_size(size as int) as usize;
            (1, s, SINGLE_INFO_SIZE, s)
        },
    }
}

/// Number of page slots handed out.
pub open spec fn count_in_use(s: Seq<Page>) -> nat
    decreases s.len(),
{
    if s.len() == 0 {
        0
    } else {
        count_in_use(s.drop_last()) + if s.last().in_use {
            1nat
        } else {
            0nat
        }
    }
}

pub proof fn lemma_count_in_use_update(s: Seq<Page>, i: int, p: Page)
    requires
        0 <= i < s.len(),
    ensures
        count_in_use(s.update(i, p)) + (if s[i].in_use {
            1nat
        } else {
            0nat
        }) == count_in_use(s) + (if p.in_use {
            1nat
        } else {
            0nat
        }),
    decreases s.len(),
{
    let t = s.update(i, p);
    if i < s.len() - 1 {
        assert(t.drop_last() =~= s.drop_last().update(i, p));
        lemma_count_in_use_update(s.drop_last(), i, p);
    } else {
        assert(t.drop_last() =~= s.drop_last());
    }
}

pub proof fn lemma_count_in_use_bounds(s: Seq<Page>)
    ensures
        count_in_use(s) <= s.len(),
        count_in_use(s) < s.len() ==> exists|i: int| 0 <= i < s.len() && !(#[trigger] s[i]).in_use,
        count_in_use(s) > 0 ==> exists|i: int| 0 <= i < s.len() && (#[trigger] s[i]).in_use,
        (forall|i: int| 0 <= i < s.len() ==> !(#[trigger] s[i]).in_use) ==> count_in_use(s) == 0,
        count_in_use(s) == 0 ==> (forall|i: int| 0 <= i < s.len() ==> !(#[trigger] s[i]).in_use),
    decreases s.len(),
{
    if s.len() > 0 {
        let t = s.drop_last();
        lemma_count_in_use_bounds(t);
        if count_in_use(s) < s.len() && s.last().in_use {
            let i = choose|i: int| 0 <= i < t.len() && !(#[trigger] t[i]).in_use;
            assert(s[i] == t[i]);
        }
        if count_in_use(s) > 0 && !s.last().in_use {
            let i = choose|i: int| 0 <= i < t.len() && (#[trigger] t[i]).in_use;
            assert(s[i] == t[i]);
        }
        if forall|i: int| 0 <= i < s.len() ==> !(#[trigger] s[i]).in_use {
            assert forall|i: int| 0 <= i < t.len() implies !(#[trigger] t[i]).in_use by {
                assert(s[i] == t[i]);
            }
        }
        if s.last().in_use {
            assert(s[s.len() - 1].in_use);
        } else {
            assert(!s[s.len() - 1].in_use);
        }
        if count_in_use(s) == 0 {
            assert forall|i: int| 0 <= i < s.len() implies !(#[trigger] s[i]).in_use by {
                if i < s.len() - 1 {
                    assert(s[i] == t[i]);
                }
            }
        }
    }
}

/// A segment-aligned region from the OS allocator and the descriptors of its pages.
pub struct Segment {
    /// Address of the region.
    pub base: usize,
    /// Page slots handed out.
    pub used: usize,
    /// Page slots.
    pub capacity: usize,
    pub segment_size: usize,
    /// Bytes at the start of the region taken by the header and the descriptors.
    pub info_size: usize,
    /// Distance between page starts.
    pub page_size: usize,
    pub pages: Vec<Page>,
}

impl Segment {
    /// Address of the payload of page `i`.
    pub open spec fn payload_addr(&self, i: int) -> int {
        self.base + if i == 0 {
            self.info_size as int
        } else {
            i * self.page_size
        }
    }

    /// Usable bytes of page `i`.
    pub open spec fn usable_size(&self, i: int) -> int {
        if i == 0 {
            self.page_size - self.info_size
        } else {
            self.page_size as int
        }
    }

    /// The region has the layout of a segment of kind small, or of one of a single page.
    pub open spec fn wf_layout(&self) -> bool {
        &&& self.base > 0
        &&& self.base % MI_SEGMENT_SIZE == 0
        &&& self.base + self.segment_size <= usize::MAX
        &&& self.capacity == self.pages@.len()
        &&& {
            ||| (self.capacity, self.segment_size, self.info_size, self.page_size) == spec_layout(
                PageKind::Small,
            )
            ||| (self.capacity == 1 && self.info_size == SINGLE_INFO_SIZE && self.page_size
                == self.segment_size && self.segment_size >= MI_PAGE_HUGE_ALIGN
                && self.segment_size % MI_PAGE_HUGE_ALIGN == 0)
        }
    }

    /// Well-formedness of the layout and of every page descriptor.
    pub open spec fn wf(&self) -> bool {
        &&& self.wf_layout()
        &&& self.used == count_in_use(self.pages@)
        &&& forall|i: int| 0 <= i < self.capacity ==> self.page_wf(i)
    }

    /// Page `i` is well formed, within its payload, and holds nothing unless in use.
    pub open spec fn page_wf(&self, i: int) -> bool {
        let p = self.pages@[i];
        &&& p.wf(self.payload_addr(i))
        &&& p.reserved * p.block_size <= self.usable_size(i)
        &&& (!p.in_use ==> p.is_fresh())
    }

    pub proof fn lemma_layout_facts(&self)
        requires
            self.wf_layout(),
        ensures
            1 <= self.capacity <= MI_SMALL_PAGES_PER_SEGMENT,
            self.capacity * self.page_size == self.segment_size,
            self.info_size < self.page_size,
            self.info_size % 16 == 0,
            self.page_size % 16 == 0,
            self.base % 16 == 0,
            forall|i: int|
                0 <= i < self.capacity ==> #[trigger] self.payload_addr(i) + self.usable_size(i)
                    == self.base + (i + 1) * self.page_size && self.base + (i + 1) * self.page_size
                    <= self.base + self.segment_size,
            forall|i: int| 0 <= i < self.capacity ==> self.payload_addr(i) % 16 == 0,
    {
        if self.capacity == 1 {
            assert(self.capacity * self.page_size == self.page_size);
        } else {
            assert(64 * 65536 == 4194304);
        }
        assert forall|i: int| 0 <= i < self.capacity implies #[trigger] self.payload_addr(i)
            + self.usable_size(i) == self.base + (i + 1) * self.page_size && self.base + (i + 1)
            * self.page_size <= self.base + self.segment_size by {
            assert((i + 1) * self.page_size == i * self.page_size + self.page_size) by (
            nonlinear_arith);
            assert((i + 1) * self.page_size <= self.capacity * self.page_size) by (
            nonlinear_arith)
                requires
                    i + 1 <= self.capacity,
                    self.page_size >= 0,
            ;
        }
        assert forall|i: int| 0 <= i < self.capacity implies self.payload_addr(i) % 16 == 0 by {
            if i > 0 {
                let q = self.page_size / 16;
                assert(i * self.page_size == (i * q) * 16) by (nonlinear_arith)
                    requires
                        self.page_size == q * 16,
                ;
                vstd::arithmetic::div_mod::lemma_mod_multiples_basic(i * q, 16);
            }
        }
    }

    /// Layout of a segment of this kind; `None` if it does not fit in the address space.
    pub fn layout(kind: PageKind) -> (r: Option<(usize, usize, usize, usize)>)
        ensures
            r == (if kind_fits(kind) {
                Some(spec_layout(kind))
            } else {
                None
            }),
    {
        match kind {
            PageKind::Small => Some(
                (MI_SMALL_PAGES_PER_SEGMENT, MI_SEGMENT_SIZE, SMALL_INFO_SIZE, MI_SMALL_PAGE_SIZE),
            ),
            PageKind::Large => Some((1, MI_SEGMENT_SIZE, SINGLE_INFO_SIZE, MI_LARGE_PAGE_SIZE)),
            PageKind::Huge(size) => {
                if size > usize::MAX - SINGLE_INFO_SIZE {
                    return None;
                }
                let n = size + SINGLE_INFO_SIZE;
                let rem = n % MI_PAGE_HUGE_ALIGN;
                if rem == 0 {
                    Some((1, n, SINGLE_INFO_SIZE, n))
                } else if n - rem > usize::MAX - MI_PAGE_HUGE_ALIGN {
                    None
                } else {
                    let s = n - rem + MI_PAGE_HUGE_ALIGN;
                    Some((1, s, SINGLE_INFO_SIZE, s))
                }
            },
        }
    }

    /// The segment of this kind in the region at `addr`, with its first page slot handed
    /// out (still to be initialised); `None` when the region is null, not segment-aligned,
    /// or does not fit in the address space.
    pub fn from_region(page_kind: PageKind, addr: usize) -> (r: Option<Segment>)
        requires
            kind_fits(page_kind),
        ensures
            r is Some <==> (addr != 0 && addr % MI_SEGMENT_SIZE == 0 && addr + spec_layout(
                page_kind,
            ).1 <= usize::MAX),
            r matches Some(s) ==> {
                &&& s.base == addr
                &&& s.wf()
                &&& (s.capacity, s.segment_size, s.info_size, s.page_size) == spec_layout(
                    page_kind,
                )
                &&& s.used == 1
                &&& s.pages@[0].in_use
                &&& s.pages@[0].reserved == 0
                &&& s.pages@[0].flags.full == false
                &&& s.pages@[0].flags.has_aligned == false
                &&& forall|i: int| 1 <= i < s.capacity ==> (#[trigger] s.pages@[i]).is_fresh()
            },
    {
        let (capacity, segment_size, info_size, page_size) = match Self::layout(page_kind) {
            Some(l) => l,
            None => {
                return None;
            },
        };
        proof {
            if let PageKind::Huge(size) = page_kind {
                assert(huge_segment_size(size as int) % (MI_PAGE_HUGE_ALIGN as int) == 0);
            }
        }
        if addr == 0 || addr % MI_SEGMENT_SIZE != 0 || addr > usize::MAX - segment_size {
            return None;
        }
        let mut pages: Vec<Page> = Vec::new();
        let mut k: usize = 0;
        while k < capacity
            invariant
                k <= capacity,
                capacity <= MI_SMALL_PAGES_PER_SEGMENT,
                pages@.len() == k,
                forall|i: int| 0 <= i < k ==> (#[trigger] pages@[i]).is_fresh(),
            decreases capacity - k,
        {
            pages.push(Page::new());
            k = k + 1;
        }
        proof {
            lemma_count_in_use_bounds(pages@);
            lemma_count_in_use_update(pages@, 0, pages@[0]);
        }
        let ghost before = pages@;
        pages[0].in_use = true;
        proof {
            assert(pages@ == before.update(0, pages@[0]));
            lemma_count_in_use_update(before, 0, pages@[0]);
        }
        let s = Segment {
            base: addr,
            used: 1,
            capacity,
            segment_size,
            info_size,
            page_size,
            pages,
        };
        proof {
            s.lemma_layout_facts();
            assert forall|i: int| 0 <= i < s.capacity implies s.page_wf(i) by {
                if i > 0 {
                    assert(s.pages@[i] == before[i]);
                }
            }
            assert forall|i: int| 1 <= i < s.capacity implies (#[trigger] s.pages@[i]).is_fresh() by {
                assert(s.pages@[i] == before[i]);
            }
        }
        Some(s)
    }

    /// Takes a region for a segment of this kind from the OS allocator and hands out its
    /// first page slot (still to be initialised).
    ///
    /// `None` when the kind does not fit or the OS allocator did not deliver a usable
    /// region (see `from_region`); a non-null region that is not usable is handed back.
    pub fn allocate<A: OsAlloc>(page_kind: PageKind, os_alloc: &mut A) -> (r: Option<Segment>)
        ensures
            !kind_fits(page_kind) ==> r is None,
            r matches Some(s) ==> {
                &&& s.wf()
                &&& (s.capacity, s.segment_size, s.info_size, s.page_size) == spec_layout(
                    page_kind,
                )
                &&& s.used == 1
                &&& s.pages@[0].in_use
                &&& s.pages@[0].reserved == 0
                &&& s.pages@[0].flags.full == false
                &&& s.pages@[0].flags.has_aligned == false
                &&& forall|i: int| 1 <= i < s.capacity ==> (#[trigger] s.pages@[i]).is_fresh()
            },
    {
        let segment_size = match Self::layout(page_kind) {
            Some(l) => l.1,
            None => {
                return None;
            },
        };
        let addr = os_alloc.allocate(segment_size, MI_SEGMENT_SIZE);
        let r = Self::from_region(page_kind, addr);
        if r.is_none() && addr != 0 {
            os_alloc.deallocate(addr, segment_size, MI_SEGMENT_SIZE);
        }
        r
    }

    /// Hands out a page slot that is not in use. The caller counts it with
    /// `increment_used`.
    pub fn find_free_small_page(&mut self) -> (r: usize)
        requires
            old(self).wf(),
            old(self).used < old(self).capacity,
        ensures
            r < old(self).capacity,
            !old(self).pages@[r as int].in_use,
            forall|j: int| 0 <= j < r ==> (#[trigger] old(self).pages@[j]).in_use,
            final(self).pages@ == old(self).pages@.update(r as int, final(self).pages@[r as int]),
            final(self).pages@[r as int].in_use,
            final(self).pages@[r as int].flags == old(self).pages@[r as int].flags,
            final(self).pages@[r as int].free@ == old(self).pages@[r as int].free@,
            final(self).pages@[r as int].local_free@ == old(self).pages@[r as int].local_free@,
            final(self).pages@[r as int].capacity == old(self).pages@[r as int].capacity,
            final(self).pages@[r as int].reserved == old(self).pages@[r as int].reserved,
            final(self).pages@[r as int].used == old(self).pages@[r as int].used,
            final(self).pages@[r as int].block_size == old(self).pages@[r as int].block_size,
            final(self).pages@[r as int].bin == old(self).pages@[r as int].bin,
            final(self).base == old(self).base,
            final(self).used == old(self).used,
            final(self).capacity == old(self).capacity,
            final(self).segment_size == old(self).segment_size,
            final(self).info_size == old(self).info_size,
            final(self).page_size == old(self).page_size,
    {
        proof {
            lemma_count_in_use_bounds(self.pages@);
        }
        let ghost target = choose|i: int| 0 <= i < self.pages@.len() && !(#[trigger] self.pages@[i]).in_use;
        let mut i: usize = 0;
        while i < self.pages.len()
            invariant
                i <= self.pages@.len(),
                self.pages@ == old(self).pages@,
                self.base == old(self).base,
                self.used == old(self).used,
                self.capacity == old(self).capacity,
                self.segment_size == old(self).segment_size,
                self.info_size == old(self).info_size,
                self.page_size == old(self).page_size,
                self.capacity == self.pages@.len(),
                0 <= target < self.pages@.len(),
                !self.pages@[target].in_use,
                forall|j: int| 0 <= j < i ==> (#[trigger] self.pages@[j]).in_use,
            decreases self.pages@.len() - i,
        {
            if !self.pages[i].in_use {
                self.pages[i].set_in_use(true);
                proof {
                    assert(self.pages@ =~= old(self).pages@.update(i as int, self.pages@[i as int]));
                }
                return i;
            }
            i = i + 1;
        }
        proof {
            assert(self.pages@[target].in_use);
        }
        0
    }

    /// Whether every page slot is handed out.
    pub fn is_full(&self) -> (r: bool)
        ensures
            r == (self.used == self.capacity),
    {
        self.used == self.capacity
    }

    /// Counts one more page slot as handed out.
    pub fn increment_used(&mut self)
        requires
            old(self).used < old(self).capacity,
        ensures
            final(self).used == old(self).used + 1,
            final(self).pages@ == old(self).pages@,
            final(self).base == old(self).base,
            final(self).capacity == old(self).capacity,
            final(self).segment_size == old(self).segment_size,
            final(self).info_size == old(self).info_size,
            final(self).page_size == old(self).page_size,
    {
        self.used = self.used + 1;
    }

    /// Address of the payload of page `index`.
    pub fn page_payload_addr(&self, index: usize) -> (r: usize)
        requires
            self.wf_layout(),
            index < self.capacity,
        ensures
            r == self.payload_addr(index as int),
    {
        proof {
            self.lemma_layout_facts();
        }
        if index == 0 {
            self.base + self.info_size
        } else {
            self.base + index * self.page_size
        }
    }

    /// Usable bytes of page `index`: the first page loses the info area.
    pub fn page_size(&self, index: usize) -> (r: usize)
        requires
            self.wf_layout(),
        ensures
            r == self.usable_size(index as int),
    {
        proof {
            self.lemma_layout_facts();
        }
        if index == 0 {
            self.page_size - self.info_size
        } else {
            self.page_size
        }
    }

    /// Address of the segment that holds `ptr`, found by masking off the low bits.
    pub fn of_ptr(ptr: usize) -> (r: usize)
        ensures
            r == ptr - ptr % MI_SEGMENT_SIZE,
    {
        assert((ptr & !0x3fffffusize) == ptr - ptr % 0x400000usize) by (bit_vector);
        ptr & !MI_SEGMENT_MASK
    }

    /// Index of the page slot that holds `ptr`.
    pub fn page_of_ptr(&self, ptr: usize) -> (r: usize)
        requires
            self.wf_layout(),
            ptr >= self.base,
        ensures
            r == (ptr - self.base) / (self.page_size as int),
    {
        proof {
            self.lemma_layout_facts();
        }
        (ptr - self.base) / self.page_size
    }
}

} // verus!
