use baby_mimalloc::constants::{MI_LARGE_SIZE_MAX, MI_SEGMENT_SIZE, MI_SMALL_SIZE_MAX};
use baby_mimalloc::deferred_free::{DeferredFree, DeferredFreeHandle, NoDeferredFree};
use baby_mimalloc::heap::Heap;
use baby_mimalloc::os::OsAlloc;
use baby_mimalloc::Mimalloc;
use std::cell::RefCell;
use std::collections::BTreeMap;
use std::rc::Rc;

/// An address space that is never touched: regions are laid out one after the other,
/// and the bytes held are counted.
#[derive(Default)]
struct SimOs {
    next: usize,
    regions: BTreeMap<usize, (usize, usize)>,
    used: usize,
    peak: usize,
    refuse: bool,
}

impl OsAlloc for SimOs {
    fn allocate(&mut self, size: usize, align: usize) -> usize {
        if self.refuse {
            return 0;
        }
        let start = if self.next == 0 { align } else { self.next };
        let addr = start.next_multiple_of(align);
        self.next = addr + size;
        self.regions.insert(addr, (size, align));
        self.used += size;
        self.peak = self.peak.max(self.used);
        addr
    }

    fn deallocate(&mut self, addr: usize, size: usize, align: usize) {
        let held = self.regions.remove(&addr).expect("deallocating unknown region");
        assert_eq!(held, (size, align), "deallocating with a different layout");
        self.used -= size;
    }
}

/// A tiny deterministic generator for the workloads.
struct Lcg(u64);

impl Lcg {
    fn next(&mut self) -> u64 {
        self.0 = self.0.wrapping_mul(6364136223846793005).wrapping_add(1442695040888963407);
        self.0 >> 33
    }

    fn below(&mut self, n: usize) -> usize {
        (self.next() % n as u64) as usize
    }
}

/// Live blocks, checked never to overlap.
#[derive(Default)]
struct Live(BTreeMap<usize, usize>);

impl Live {
    fn add(&mut self, p: usize, size: usize) {
        let len = size.max(1);
        if let Some((&q, &qlen)) = self.0.range(..=p).next_back() {
            assert!(q + qlen <= p, "block {p:#x} overlaps block {q:#x}");
        }
        if let Some((&q, _)) = self.0.range(p..).next() {
            assert!(p + len <= q, "block {p:#x} overlaps block {q:#x}");
        }
        self.0.insert(p, len);
    }

    fn remove(&mut self, p: usize) {
        self.0.remove(&p).expect("freeing a block twice");
    }
}

fn new_alloc() -> Mimalloc<SimOs, NoDeferredFree> {
    Mimalloc::with_os_allocator(SimOs::default())
}

fn alloc_checked(a: &mut Mimalloc<SimOs, NoDeferredFree>, live: &mut Live, size: usize, align: usize) -> usize {
    let p = a.allocate(size, align);
    assert_ne!(p, 0, "allocation of {size} bytes failed");
    assert_eq!(p % align, 0, "p: {p:#x}, align: {align}");
    live.add(p, size);
    p
}

#[test]
fn boundary_sizes_succeed() {
    let mut a = new_alloc();
    let mut live = Live::default();
    let sizes = [
        0,
        1,
        MI_SMALL_SIZE_MAX,
        MI_SMALL_SIZE_MAX + 1,
        MI_LARGE_SIZE_MAX,
        MI_LARGE_SIZE_MAX + 1,
        MI_SEGMENT_SIZE,
    ];
    let mut ptrs = Vec::new();
    for size in sizes {
        for align in [1, 8, 16, 4096] {
            ptrs.push(alloc_checked(&mut a, &mut live, size, align));
        }
    }
    for p in ptrs {
        live.remove(p);
        a.dealloc(p);
    }
    a.collect();
    assert_eq!(a.os_allocator().used, 0);
}

#[test]
fn zero_sized_requests_get_distinct_blocks() {
    let mut a = new_alloc();
    let p = a.allocate(0, 1);
    let q = a.allocate(0, 1);
    assert!(p != 0 && q != 0 && p != q);
    assert_eq!(p % 8, 0);
}

#[test]
fn small_blocks_come_from_one_page_in_order() {
    let mut a = new_alloc();
    let p = a.allocate(16, 8);
    let q = a.allocate(16, 8);
    assert_eq!(q, p + 16);
    // the first page of a small segment starts after its info area
    assert_eq!(p % MI_SEGMENT_SIZE, 3648);
}

#[test]
fn freed_block_is_reused_after_the_fast_list() {
    let mut a = new_alloc();
    let p = a.allocate(1024, 8);
    let q = a.allocate(1024, 8);
    a.dealloc(p);
    // three blocks of the first extension remain ahead of the freed one
    let r1 = a.allocate(1024, 8);
    let r2 = a.allocate(1024, 8);
    assert_eq!(r1, q + 1024);
    assert_eq!(r2, q + 2048);
}

#[test]
fn os_refusal_gives_null() {
    let mut os = SimOs::default();
    os.refuse = true;
    let mut a: Mimalloc<SimOs, NoDeferredFree> = Mimalloc::with_os_allocator(os);
    assert_eq!(a.allocate(100, 8), 0);
    assert_eq!(a.allocate(MI_SEGMENT_SIZE * 3, 64), 0);
}

#[test]
fn overflowing_requests_give_null() {
    let mut a = new_alloc();
    assert_eq!(a.allocate(usize::MAX - 10, 16), 0);
    assert_eq!(a.allocate(usize::MAX - 200, 1), 0);
    assert_eq!(a.allocate(16, MI_SEGMENT_SIZE), 0);
    assert_eq!(a.os_allocator().used, 0);
}

#[test]
fn null_and_foreign_pointers_are_ignored() {
    let mut a = new_alloc();
    let p = a.allocate(64, 8);
    a.dealloc(0);
    a.dealloc(p + 1000 * MI_SEGMENT_SIZE);
    let q = a.allocate(64, 8);
    assert_eq!(q, p + 64);
}

#[test]
fn lone_page_is_kept_until_collect() {
    let mut os = SimOs::default();
    let mut heap: Heap<NoDeferredFree> = Heap::new();
    let p = heap.malloc(100_000, &mut os);
    assert_ne!(p, 0);
    assert_eq!(os.used, MI_SEGMENT_SIZE);
    heap.free(p, &mut os);
    // missing neighbours count as mostly used: the page stays
    assert_eq!(os.used, MI_SEGMENT_SIZE);
    heap.collect(&mut os);
    assert_eq!(os.used, 0);
}

#[test]
fn default_heap_starts_empty() {
    let mut os = SimOs::default();
    let mut heap: Heap<NoDeferredFree> = Heap::default();
    let p = heap.malloc(24, &mut os);
    assert_eq!(p % MI_SEGMENT_SIZE, 3648);
    assert_eq!(os.used, MI_SEGMENT_SIZE);
    heap.free(p, &mut os);
    heap.collect(&mut os);
    assert_eq!(os.used, 0);
}

#[test]
fn huge_page_is_retired_on_free() {
    let mut os = SimOs::default();
    let mut heap: Heap<NoDeferredFree> = Heap::new();
    let p = heap.malloc(MI_LARGE_SIZE_MAX + 1, &mut os);
    assert_ne!(p, 0);
    // 524289 bytes rounded to words, plus the info area, in 256 KiB steps
    assert_eq!(os.used, 786432);
    heap.free(p, &mut os);
    assert_eq!(os.used, 0);
}

#[test]
fn collect_twice_changes_nothing() {
    let mut a = new_alloc();
    let mut ptrs = Vec::new();
    for i in 0..1000 {
        ptrs.push(a.allocate(8 + i % 200, 8));
    }
    for p in ptrs.iter().step_by(2) {
        a.dealloc(*p);
    }
    a.collect();
    let used = a.os_allocator().used;
    a.collect();
    assert_eq!(a.os_allocator().used, used);
    for p in ptrs.iter().skip(1).step_by(2) {
        a.dealloc(*p);
    }
    a.collect();
    assert_eq!(a.os_allocator().used, 0);
}

#[test]
fn alloc_iter_size() {
    let mut a = new_alloc();
    let mut live = Live::default();
    let ptrs: Vec<usize> = (0..100_000).map(|i| alloc_checked(&mut a, &mut live, i, 1)).collect();
    // every block is live at once: the peak is at least the sum of the sizes
    assert!(a.os_allocator().peak >= 100_000 * 99_999 / 2);
    for p in ptrs {
        live.remove(p);
        a.dealloc(p);
    }
    a.collect();
    assert_eq!(a.os_allocator().used, 0);
}

#[test]
fn random_alloc_small() {
    let mut rng = Lcg(1);
    let mut a = new_alloc();
    let ptrs: Vec<usize> = (0..20_000_000)
        .map(|_| {
            let align = 1 << rng.below(4);
            let size = (1 + rng.below(127)).next_multiple_of(align);
            let p = a.allocate(size, align);
            assert!(p != 0 && p % align == 0, "p: {p:#x}, align: {align}");
            p
        })
        .collect();
    for p in ptrs {
        a.dealloc(p);
    }
    a.collect();
    assert_eq!(a.os_allocator().used, 0);
}

#[test]
fn random_small_blocks_do_not_overlap() {
    let mut rng = Lcg(11);
    let mut a = new_alloc();
    let mut live = Live::default();
    let mut ptrs = Vec::new();
    for round in 0..4 {
        for _ in 0..100_000 {
            let align = 1 << rng.below(4);
            let size = (1 + rng.below(127)).next_multiple_of(align);
            ptrs.push(alloc_checked(&mut a, &mut live, size, align));
        }
        // free a random half, so that later rounds reuse freed blocks
        let mut kept = Vec::new();
        for p in ptrs.drain(..) {
            if rng.below(2) == 0 || round == 3 {
                live.remove(p);
                a.dealloc(p);
            } else {
                kept.push(p);
            }
        }
        ptrs = kept;
    }
    a.collect();
    assert_eq!(a.os_allocator().used, 0);
}

#[test]
fn random_alloc_large() {
    let mut rng = Lcg(2);
    let mut a = new_alloc();
    let mut live = Live::default();
    let ptrs: Vec<usize> = (0..10_000)
        .map(|_| {
            let align = 1 << rng.below(21);
            let size = (1 + rng.below(10)) * align;
            alloc_checked(&mut a, &mut live, size, align)
        })
        .collect();
    for p in ptrs {
        live.remove(p);
        a.dealloc(p);
    }
    a.collect();
    assert_eq!(a.os_allocator().used, 0);
}

#[test]
fn alloc_dealloc() {
    let mut a = new_alloc();
    const N: usize = 10_000_000;
    for count in (0..=N).step_by(N / 10) {
        let allocation: Vec<usize> = (0..count).map(|_| a.allocate(1, 1)).collect();
        for p in allocation {
            assert_ne!(p, 0);
            a.dealloc(p);
        }
    }
    let peak = a.os_allocator().peak;
    let threshold = (N * 9).next_multiple_of(4 * 1024 * 1024);
    assert!(peak <= threshold, "peak: {peak} > {threshold}");
    assert!(peak >= threshold / 2, "peak: {peak} < {threshold} / 2");
}

/// Runs `phases` rounds in which the number of live blocks of each of `k` classes moves
/// to a random count below `n` (below 2 in about half the rounds when `collect` is set);
/// returns the peak OS usage.
fn class_workload(n: usize, k: usize, phases: usize, collect: bool, seed: u64) -> usize {
    let mut rng = Lcg(seed);
    let mut a = new_alloc();
    let mut ptrs: Vec<Vec<usize>> = vec![Vec::new(); k];
    for t in 0..=phases {
        let new_count: Vec<usize> = (0..k)
            .map(|_| {
                if t == phases {
                    0
                } else if collect && rng.below(2) == 0 {
                    rng.below(2)
                } else {
                    rng.below(n)
                }
            })
            .collect();
        for i in 0..k {
            let new = new_count[i];
            let size = (i + 1) * 8;
            let old = ptrs[i].len();
            if new > old {
                for _ in old..new {
                    let p = a.allocate(size, 1);
                    assert_ne!(p, 0);
                    ptrs[i].push(p);
                }
            } else {
                for p in ptrs[i].drain(new..) {
                    a.dealloc(p);
                }
            }
            let len = ptrs[i].len();
            for j in (1..len).rev() {
                ptrs[i].swap(j, rng.below(j + 1));
            }
            if collect {
                a.collect();
            }
        }
    }
    a.collect();
    assert_eq!(a.os_allocator().used, 0);
    a.os_allocator().peak
}

#[test]
fn random_alloc_dealloc_small() {
    const N: usize = 1_000_000;
    const K: usize = 4;
    const T: usize = 100;
    let peak = class_workload(N, K, T, false, 3);
    let threshold = (N * 5 * K * (K + 1)).next_multiple_of(4 * 1024 * 1024);
    assert!(peak <= threshold, "peak: {peak} > {threshold}");
    assert!(peak >= threshold / 2, "peak: {peak} < {threshold} / 2");
}

#[test]
fn random_alloc_dealloc_small_collect() {
    const N: usize = 1_000_000;
    const K: usize = 3;
    const T: usize = 20;
    let peak = class_workload(N, K, T, true, 4);
    let threshold = (N * 5 * K * (K + 1)).next_multiple_of(4 * 1024 * 1024);
    assert!(peak <= threshold, "peak: {peak} > {threshold}");
    assert!(peak >= threshold / 2, "peak: {peak} < {threshold} / 2");
}

#[test]
fn random_alloc_dealloc_large() {
    let mut rng = Lcg(6);
    let mut a = new_alloc();
    const N: usize = 500;
    const M: usize = 10;
    const K: usize = 20;
    const T: usize = 100;
    let mut allocation: Vec<Vec<usize>> = vec![Vec::new(); K];
    for t in 0..=T {
        let new_count: Vec<usize> =
            (0..K).map(|_| if t == T { 0 } else { rng.below(N) }).collect();
        for i in 0..K {
            let new = new_count[i];
            let align = 1 << i;
            let old = allocation[i].len();
            if new > old {
                for _ in old..new {
                    let size = align * (1 + rng.below(M));
                    let p = a.allocate(size, align);
                    assert!(p != 0 && p % align == 0, "p: {p:#x}, align: {align}");
                    allocation[i].push(p);
                }
            } else {
                for p in allocation[i].drain(new..) {
                    a.dealloc(p);
                }
            }
            let len = allocation[i].len();
            for j in (1..len).rev() {
                allocation[i].swap(j, rng.below(j + 1));
            }
        }
    }
    let peak = a.os_allocator().peak;
    let threshold = (N * (1 << K) * M).next_multiple_of(4 * 1024 * 1024);
    assert!(peak <= threshold, "peak: {peak} > {threshold}");
    assert!(peak >= threshold / 2, "peak: {peak} < {threshold} / 2");
}

/// Holds blocks for the allocator and releases them all when asked.
struct Holder(Rc<RefCell<Vec<usize>>>);

impl DeferredFree for Holder {
    fn deferred_free(&mut self, handle: &mut DeferredFreeHandle, _force: bool, _heartbeat: u64) {
        for p in self.0.borrow_mut().drain(..) {
            handle.free(p);
        }
    }
}

#[test]
fn test_deferred_free() {
    let held = Rc::new(RefCell::new(Vec::new()));
    let mut a: Mimalloc<SimOs, Holder> = Mimalloc::with_os_allocator(SimOs::default());
    a.register_deferred_free(Holder(held.clone()));
    let mut rng = Lcg(5);
    for _ in 0..10_000_000 {
        let align = 1 << rng.below(4);
        let size = (1 + rng.below(127)).next_multiple_of(align);
        let p = a.allocate(size, align);
        assert!(p != 0 && p % align == 0, "p: {p:#x}, align: {align}");
        held.borrow_mut().push(p);
    }
    // without the hook, 10000000 blocks of up to 128 bytes would need hundreds of segments
    assert!(a.os_allocator().peak <= 16 * MI_SEGMENT_SIZE, "peak: {}", a.os_allocator().peak);
    for p in held.borrow_mut().drain(..) {
        a.dealloc(p);
    }
    a.collect();
    assert_eq!(a.os_allocator().used, 0);
}

#[test]
fn deferred_free_handle_records_blocks() {
    let mut h = DeferredFreeHandle::new();
    h.free(5);
    h.free(7);
    assert_eq!(h.len(), 2);
    assert_eq!(h.get(1), 7);
}
