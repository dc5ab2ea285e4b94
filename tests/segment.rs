use baby_mimalloc::constants::{MI_SEGMENT_SIZE, MI_SMALL_PAGE_SIZE, SMALL_INFO_SIZE};
use baby_mimalloc::os::OsAlloc;
use baby_mimalloc::segment::{PageKind, Segment};

/// Hands out regions at a fixed address, counting the calls.
struct FixedOs {
    addr: usize,
    taken: Vec<(usize, usize, usize)>,
    given_back: Vec<(usize, usize, usize)>,
}

impl OsAlloc for FixedOs {
    fn allocate(&mut self, size: usize, align: usize) -> usize {
        self.taken.push((self.addr, size, align));
        self.addr
    }

    fn deallocate(&mut self, addr: usize, size: usize, align: usize) {
        self.given_back.push((addr, size, align));
    }
}

fn fixed(addr: usize) -> FixedOs {
    FixedOs { addr, taken: Vec::new(), given_back: Vec::new() }
}

#[test]
fn layouts_of_each_kind() {
    assert_eq!(
        Segment::layout(PageKind::Small),
        Some((64, MI_SEGMENT_SIZE, SMALL_INFO_SIZE, MI_SMALL_PAGE_SIZE))
    );
    assert_eq!(Segment::layout(PageKind::Large), Some((1, MI_SEGMENT_SIZE, 112, MI_SEGMENT_SIZE)));
    // 600000 + 112 rounded up to a multiple of 256 KiB
    assert_eq!(Segment::layout(PageKind::Huge(600000)), Some((1, 786432, 112, 786432)));
    assert_eq!(Segment::layout(PageKind::Huge(262144 - 112)), Some((1, 262144, 112, 262144)));
    assert_eq!(Segment::layout(PageKind::Huge(usize::MAX - 100)), None);
}

#[test]
fn small_segment_from_the_os() {
    let mut os = fixed(3 * MI_SEGMENT_SIZE);
    let seg = Segment::allocate(PageKind::Small, &mut os).unwrap();
    assert_eq!(os.taken, vec![(3 * MI_SEGMENT_SIZE, MI_SEGMENT_SIZE, MI_SEGMENT_SIZE)]);
    assert_eq!(seg.base, 3 * MI_SEGMENT_SIZE);
    assert_eq!(seg.used, 1);
    assert_eq!(seg.capacity, 64);
    assert!(seg.pages[0].in_use());
    assert!(!seg.pages[1].in_use());
    assert!(!seg.is_full());
    assert_eq!(seg.page_payload_addr(0), seg.base + SMALL_INFO_SIZE);
    assert_eq!(seg.page_payload_addr(5), seg.base + 5 * MI_SMALL_PAGE_SIZE);
    assert_eq!(seg.page_size(0), MI_SMALL_PAGE_SIZE - SMALL_INFO_SIZE);
    assert_eq!(seg.page_size(5), MI_SMALL_PAGE_SIZE);
    assert_eq!(seg.page_of_ptr(seg.base + 5 * MI_SMALL_PAGE_SIZE + 17), 5);
    assert_eq!(seg.page_of_ptr(seg.base + 100), 0);
}

#[test]
fn unusable_regions_are_refused() {
    let mut os = fixed(0);
    assert!(Segment::allocate(PageKind::Large, &mut os).is_none());
    assert!(os.given_back.is_empty());
    let mut os = fixed(MI_SEGMENT_SIZE + 4096);
    assert!(Segment::allocate(PageKind::Large, &mut os).is_none());
    assert_eq!(os.given_back, vec![(MI_SEGMENT_SIZE + 4096, MI_SEGMENT_SIZE, MI_SEGMENT_SIZE)]);
    let mut os = fixed(MI_SEGMENT_SIZE);
    assert!(Segment::allocate(PageKind::Huge(usize::MAX - 100), &mut os).is_none());
    assert!(os.taken.is_empty());
}

#[test]
fn free_small_pages_are_handed_out_in_order() {
    let mut os = fixed(MI_SEGMENT_SIZE);
    let mut seg = Segment::allocate(PageKind::Small, &mut os).unwrap();
    assert_eq!(seg.find_free_small_page(), 1);
    seg.increment_used();
    assert_eq!(seg.find_free_small_page(), 2);
    seg.increment_used();
    assert_eq!(seg.used, 3);
}

#[test]
fn masking_finds_the_segment() {
    assert_eq!(Segment::of_ptr(0), 0);
    assert_eq!(Segment::of_ptr(MI_SEGMENT_SIZE - 1), 0);
    assert_eq!(Segment::of_ptr(7 * MI_SEGMENT_SIZE + 12345), 7 * MI_SEGMENT_SIZE);
}

#[test]
fn regions_are_checked_before_use() {
    assert!(Segment::from_region(PageKind::Small, 0).is_none());
    assert!(Segment::from_region(PageKind::Small, MI_SEGMENT_SIZE + 8).is_none());
    assert!(Segment::from_region(PageKind::Large, usize::MAX - MI_SEGMENT_SIZE + 1).is_none());
    let seg = Segment::from_region(PageKind::Huge(600000), 5 * MI_SEGMENT_SIZE).unwrap();
    assert_eq!(seg.base, 5 * MI_SEGMENT_SIZE);
    assert_eq!(seg.segment_size, 786432);
    assert_eq!(seg.capacity, 1);
    assert!(seg.pages[0].in_use());
}

#[test]
fn lowest_free_slot_is_handed_out() {
    let mut os = fixed(MI_SEGMENT_SIZE);
    let mut seg = Segment::allocate(PageKind::Small, &mut os).unwrap();
    for _ in 0..3 {
        seg.find_free_small_page();
        seg.increment_used();
    }
    seg.pages[2].set_in_use(false);
    seg.used -= 1;
    assert_eq!(seg.find_free_small_page(), 2);
}
