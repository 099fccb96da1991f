//! The heap over a simulated memory.
use std::cell::RefCell;
use std::rc::Rc;

use wasmalloc::backend::{Memory, SimMemory};
use wasmalloc::bins::{
    bin, bin_size, blocks_per_page, kind_of_bin, PageKind, DIRECT_ENTRIES, LARGE_MAX_OBJ_SIZE,
    MAX_BINNED_BIN, MAX_BINNED_OBJ_SIZE, MAX_NATURAL_ALIGN, MEDIUM_MAX_OBJ_SIZE, SLICE_SIZE,
};
use wasmalloc::heap::{direct_range, huge_slices, Heap, RETIRE_CYCLES};
use wasmalloc::layout::Layout;
use wasmalloc::model::{FULL_QUEUE, QUEUE_COUNT};
use wasmalloc::page::{header_of, read};
use wasmalloc::slices::GrowPolicy;

/// A simulated memory the test keeps a hand on, to grow it behind the heap's back.
#[derive(Clone)]
struct Shared(Rc<RefCell<SimMemory>>);

impl Memory for Shared {
    fn heap_base(&self) -> usize {
        self.0.borrow().heap_base()
    }

    fn size_slices(&self) -> usize {
        self.0.borrow().size_slices()
    }

    fn grow(&mut self, slices: usize) -> Option<usize> {
        self.0.borrow_mut().grow(slices)
    }

    fn load(&self, addr: usize) -> u64 {
        self.0.borrow().load(addr)
    }

    fn store(&mut self, addr: usize, value: u64) {
        self.0.borrow_mut().store(addr, value)
    }
}

/// 1024 slices of bitmap: test regions of up to 64 MiB.
type TestHeap = Heap<Shared, 16>;

/// Address of the region: a multiple of 4 MiB.
const REGION_BASE: usize = 64 * SLICE_SIZE;

struct Fixture {
    heap: TestHeap,
    mem: Shared,
}

/// A heap over `total` slices of which `initial` are present at start and the heap base is
/// `offset` bytes into the region.
fn heap(total: usize, initial: usize, offset: usize) -> Fixture {
    let mem = Shared(Rc::new(RefCell::new(SimMemory::from_region(
        REGION_BASE,
        total * SLICE_SIZE,
        initial,
        offset,
    ))));
    let mut h = TestHeap::new(mem.clone());
    h.set_grow_policy(GrowPolicy {
        min_grow: 2,
        max_grow: 64,
        ..GrowPolicy::default()
    });
    Fixture { heap: h, mem }
}

/// Check every heap invariant, naming the queue or entry that fails.
fn validate(h: &TestHeap) {
    for qi in 0..QUEUE_COUNT {
        h.validate_queue(qi)
            .unwrap_or_else(|e| panic!("queue {qi}: {e}"));
    }
    for i in 0..DIRECT_ENTRIES {
        h.validate_direct_entry(i)
            .unwrap_or_else(|e| panic!("direct entry {i}: {e}"));
    }
    h.validate().unwrap();
}

fn layout(size: usize, align: usize) -> Layout {
    Layout::from_size_align(size, align).unwrap()
}

fn fill(h: &mut TestHeap, p: usize, size: usize, byte: u8) {
    let word = u64::from_ne_bytes([byte; 8]);
    let mut i = 0;
    while i + 8 <= size {
        h.store(p, i, word);
        i += 8;
    }
    while i < size {
        h.write_byte(p, i, byte);
        i += 1;
    }
}

/// Every byte of the block is `byte`.
fn check(h: &TestHeap, p: usize, size: usize, byte: u8) {
    let word = u64::from_ne_bytes([byte; 8]);
    let mut i = 0;
    while i + 8 <= size {
        assert_eq!(h.load(p, i), word, "word at {i} corrupted");
        i += 8;
    }
    while i < size {
        assert_eq!(h.read_byte(p, i), byte, "byte {i} corrupted");
        i += 1;
    }
}

#[test]
fn small_alloc_free_reuses_lifo() {
    let mut f = heap(64, 4, 100);
    let h = &mut f.heap;
    let l = layout(32, 8);
    let a = h.allocate(l).unwrap();
    let b = h.allocate(l).unwrap();
    assert_ne!(a, b);
    assert_eq!(a % 8, 0);
    fill(h, a, 32, 0xA1);
    fill(h, b, 32, 0xB2);
    check(h, a, 32, 0xA1);
    h.dealloc(a, l);
    let c = h.allocate(l).unwrap();
    assert_eq!(a, c, "LIFO reuse of the just-freed block");
    check(h, b, 32, 0xB2);
    h.dealloc(b, l);
    h.dealloc(c, l);
    validate(h);
}

#[test]
fn uses_the_linker_gap_before_growing() {
    let mut f = heap(64, 4, 100);
    let h = &mut f.heap;
    let before = h.memory().size_slices();
    let a = h.allocate(layout(64, 8)).unwrap();
    assert_eq!(
        h.memory().size_slices(),
        before,
        "first small page came from the gap"
    );
    h.dealloc(a, layout(64, 8));
    validate(h);
}

#[test]
fn every_bin_allocates_aligned_distinct_blocks_and_recovers_its_page() {
    let mut f = heap(1024, 4, 0);
    let h = &mut f.heap;
    for b in 1..=MAX_BINNED_BIN {
        let size = bin_size(b);
        let l = layout(size, 8);
        let kind = kind_of_bin(b);
        let natural = (size & size.wrapping_neg()).min(MAX_NATURAL_ALIGN);
        let mut blocks = Vec::new();
        for i in 0..7 {
            let p = h.allocate(l).unwrap();
            let addr = p;
            assert_eq!(addr % natural, 0, "bin {b} block {i} alignment");
            let page = read(header_of(kind, addr), h.memory());
            assert_eq!(page.bin, b);
            assert!(!blocks.contains(&p));
            fill(h, p, size, b);
            blocks.push(p);
        }
        validate(h);
        for p in blocks {
            check(h, p, size, b);
            h.dealloc(p, l);
        }
        validate(h);
    }
}

#[test]
fn page_exhaustion_adds_pages_and_full_queue_round_trips() {
    let mut f = heap(64, 4, 0);
    let h = &mut f.heap;
    let l = layout(1024, 8);
    let per_page = blocks_per_page(PageKind::Small, 1024);
    let mut blocks = Vec::new();
    for _ in 0..per_page * 3 + 1 {
        blocks.push(h.allocate(l).unwrap());
    }
    validate(h);
    assert!(h.queue(24).count + h.queue(FULL_QUEUE).count == 4);
    // Free one block from what is now a full page: it must come back to its bin queue.
    let victim = blocks.swap_remove(0);
    h.dealloc(victim, l);
    validate(h);
    let again = h.allocate(l).unwrap();
    blocks.push(again);
    validate(h);
    for p in blocks {
        h.dealloc(p, l);
    }
    validate(h);
    // Everything is free; retired pages linger until collected, then their slices return.
    h.collect_retired(true);
    validate(h);
    assert_eq!(h.queue(24).count, 0);
    assert_eq!(h.queue(FULL_QUEUE).count, 0);
}

#[test]
fn retired_page_is_kept_then_released() {
    let mut f = heap(64, 4, 0);
    let h = &mut f.heap;
    let l = layout(16, 8);
    let a = h.allocate(l).unwrap();
    let page_addr = header_of(PageKind::Small, a);
    h.dealloc(a, l);
    assert_eq!(h.queue(2).count, 1, "empty page retired, not freed");
    assert_ne!(read(page_addr, h.memory()).retire_expire, 0);
    // Reusing the page clears the retirement.
    let b = h.allocate(l).unwrap();
    assert_eq!(
        header_of(PageKind::Small, b),
        page_addr
    );
    h.dealloc(b, l);
    for _ in 0..RETIRE_CYCLES {
        h.collect_retired(false);
    }
    assert_eq!(
        h.queue(2).count, 0,
        "retired page released after RETIRE_CYCLES"
    );
    assert!(h.is_slice_free(page_addr / SLICE_SIZE));
    validate(h);
}

#[test]
fn retired_pages_are_released_before_memory_grows() {
    // Four initial slices, one page each for four bins, then all four blocks freed: four
    // retired pages and an empty map.
    let mut f = heap(64, 4, 0);
    let h = &mut f.heap;
    let sizes = [16usize, 24, 32, 40];
    let blocks: Vec<_> = sizes
        .iter()
        .map(|&s| h.allocate(layout(s, 8)).unwrap())
        .collect();
    let end = h.memory().size_slices();
    assert_eq!(h.free_slices(), 0);
    for (p, &s) in blocks.iter().zip(&sizes) {
        h.dealloc(*p, layout(s, 8));
    }
    for s in &sizes {
        let qi = bin(*s) as usize;
        assert_eq!(h.queue(qi).count, 1, "page of bin {qi} retired, not freed");
    }
    validate(h);
    // A fifth bin needs a page: the retired ones are released and one of their slices
    // is reused instead of growing memory.
    let e = h.allocate(layout(48, 8)).unwrap();
    assert_eq!(h.memory().size_slices(), end, "no memory.grow");
    for s in &sizes {
        assert_eq!(h.queue(bin(*s) as usize).count, 0);
    }
    assert_eq!(h.free_slices(), 3);
    validate(h);
    // Three of the released bins come back with a fresh page each from the map.
    let again: Vec<_> = sizes[..3]
        .iter()
        .map(|&s| h.allocate(layout(s, 8)).unwrap())
        .collect();
    assert_eq!(h.free_slices(), 0);
    assert_eq!(h.memory().size_slices(), end);
    // And once the map is empty with nothing retired, memory does grow.
    let g = h.allocate(layout(sizes[3], 8)).unwrap();
    assert!(h.memory().size_slices() > end);
    h.dealloc(g, layout(sizes[3], 8));
    h.dealloc(e, layout(48, 8));
    for (p, &s) in again.iter().zip(&sizes) {
        h.dealloc(*p, layout(s, 8));
    }
    validate(h);
}

#[test]
fn a_forced_collection_reaches_a_retired_page_behind_a_page_in_use() {
    let mut f = heap(64, 8, 0);
    let h = &mut f.heap;
    let l = layout(16, 8);
    let per_page = blocks_per_page(PageKind::Small, 16);
    let qi = bin(16) as usize;
    // Fill pages A and B (each moves to the full queue when the next allocation finds
    // it full) and start page C, which is the queue's only member.
    let a: Vec<_> = (0..per_page).map(|_| h.allocate(l).unwrap()).collect();
    let b: Vec<_> = (0..per_page).map(|_| h.allocate(l).unwrap()).collect();
    let c = h.allocate(l).unwrap();
    let page_a = header_of(PageKind::Small, a[0]);
    let page_b = header_of(PageKind::Small, b[0]);
    let page_c = header_of(PageKind::Small, c);
    assert_eq!(h.queue(qi).count, 1);
    assert_eq!(h.queue(qi).first, page_c);
    assert_eq!(h.queue(FULL_QUEUE).count, 2);
    // One block of A back: A returns to the end of the bin queue. Then B is emptied: its
    // first free puts it behind A, the last one retires it.
    h.dealloc(a[0], l);
    for p in b {
        h.dealloc(p, l);
    }
    assert_eq!(h.queue(qi).first, page_c);
    assert_eq!(h.queue(qi).last, page_b);
    assert_eq!(h.queue(qi).count, 3);
    assert_eq!(read(page_c, h.memory()).retire_expire, 0);
    assert_eq!(read(page_a, h.memory()).retire_expire, 0);
    assert_ne!(read(page_b, h.memory()).retire_expire, 0);
    validate(h);
    // Two pages in use precede B; the forced collection still releases it.
    h.collect_retired(true);
    assert_eq!(h.queue(qi).count, 2);
    assert_eq!(h.queue(qi).first, page_c);
    assert_eq!(h.queue(qi).last, page_a);
    assert!(h.is_slice_free(page_b / SLICE_SIZE));
    validate(h);
    h.dealloc(c, l);
    for p in &a[1..] {
        h.dealloc(*p, l);
    }
    validate(h);
}

#[test]
fn huge_alloc_free_and_realloc_in_place() {
    let mut f = heap(256, 4, 0);
    let h = &mut f.heap;
    // Grow memory once with a bigger run so that free slices exist beyond the block
    // (in-place growth can only claim slices the map already knows about).
    let warm = layout(24 * SLICE_SIZE, 8);
    let w = h.allocate(warm).unwrap();
    h.dealloc(w, warm);

    let l = layout(16 * SLICE_SIZE, 8);
    let p = h.allocate(l).unwrap();
    assert_eq!(p, w, "lowest free run is reused");
    assert_eq!(p % SLICE_SIZE, 0);
    fill(h, p, l.size(), 0x5A);
    let start = p / SLICE_SIZE;
    for s in 0..16 {
        assert!(!h.is_slice_free(start + s));
    }
    // Shrink in place (staying above the large-object limit) frees the tail slices.
    let smaller = 10 * SLICE_SIZE + 5;
    assert_eq!(huge_slices(&layout(smaller, 8)), 11);
    let q = h.realloc(p, l, smaller).unwrap();
    assert_eq!(p, q);
    check(h, q, smaller, 0x5A);
    for s in 11..16 {
        assert!(h.is_slice_free(start + s));
    }
    // Grow in place when the following slices are free; only the old bytes are kept.
    let bigger = 20 * SLICE_SIZE;
    let r = h.realloc(q, layout(smaller, 8), bigger).unwrap();
    assert_eq!(p, r);
    check(h, r, smaller, 0x5A);
    fill(h, r, bigger, 0x5B);
    for s in 0..20 {
        assert!(!h.is_slice_free(start + s));
    }
    // Shrinking to a binned size must move the block: the new Layout would classify it
    // as a page block and the next dealloc would mask to a page header.
    let tiny = MAX_BINNED_OBJ_SIZE;
    let t = h.realloc(r, layout(bigger, 8), tiny).unwrap();
    assert_ne!(t, r);
    check(h, t, tiny, 0x5B);
    for s in 0..20 {
        assert!(h.is_slice_free(start + s), "run released after the move");
    }
    h.dealloc(t, layout(tiny, 8));
    validate(h);
}

#[test]
fn realloc_grows_a_top_run_through_memory_growth() {
    let mut f = heap(256, 4, 0);
    let h = &mut f.heap;
    // Three of the four initial slices: the run reaches the end of memory with one
    // free slice after it, which is not enough for the growth below.
    let l = layout(3 * SLICE_SIZE, 8);
    let p = h.allocate(l).unwrap();
    let start = p / SLICE_SIZE;
    assert_eq!(h.memory().size_slices(), start + 4);
    fill(h, p, l.size(), 0x11);
    let bigger = 10 * SLICE_SIZE;
    let q = h.realloc(p, l, bigger).unwrap();
    assert_eq!(q, p, "extended in place through memory growth");
    check(h, q, l.size(), 0x11);
    assert_eq!(
        h.memory().size_slices(),
        start + 10,
        "grew by exactly the missing slices"
    );
    for s in 0..10 {
        assert!(!h.is_slice_free(start + s));
    }
    fill(h, q, bigger, 0x12);
    validate(h);

    // Growth the region cannot provide moves nothing and fails cleanly.
    let end = h.memory().size_slices();
    assert!(h.realloc(q, layout(bigger, 8), 1000 * SLICE_SIZE).is_none());
    assert_eq!(h.memory().size_slices(), end);
    check(h, q, bigger, 0x12);
    validate(h);

    // Someone else grows memory first: the fresh region is not contiguous with the
    // run, so the block moves; its contents survive and the region is not lost.
    assert!(f.mem.0.borrow_mut().skip_slices(1));
    let free_before = h.free_slices();
    let r = h.realloc(q, layout(bigger, 8), 12 * SLICE_SIZE).unwrap();
    assert_ne!(r, q, "a non-contiguous region cannot extend the run");
    check(h, r, bigger, 0x12);
    assert!(h.memory().size_slices() > end + 1);
    assert!(
        !h.is_slice_free(end + 1),
        "the skipped slice never enters the map"
    );
    assert!(
        h.free_slices() >= free_before + 10,
        "the old run is free again"
    );
    h.dealloc(r, layout(12 * SLICE_SIZE, 8));
    validate(h);
}

#[test]
fn a_run_that_cannot_extend_moves_to_the_top_of_the_heap() {
    let mut f = heap(256, 4, 0);
    let h = &mut f.heap;
    // Grow memory once so the top has room, then free it all.
    let warm = layout(40 * SLICE_SIZE, 8);
    let w = h.allocate(warm).unwrap();
    h.dealloc(w, warm);
    let end = h.memory().size_slices();
    let two = layout(2 * SLICE_SIZE, 8);
    // Over-aligned, so a run of one slice rather than a block in a medium page.
    let one = layout(100, 2 * MAX_NATURAL_ALIGN);
    // A run with another block right after it cannot extend in place.
    let a = h.allocate(two).unwrap();
    let b = h.allocate(one).unwrap();
    assert_eq!(b, a + 2 * SLICE_SIZE);
    fill(h, a, two.size(), 0x21);
    fill(h, b, one.size(), 0x22);
    let four = layout(4 * SLICE_SIZE, 8);
    let a2 = h.realloc(a, two, four.size()).unwrap();
    assert_ne!(a2, a);
    check(h, a2, two.size(), 0x21);
    check(h, b, one.size(), 0x22);
    // The moved run sits at the bottom of the free tail, right after `b`, with the rest
    // of the tail above it, and memory did not grow for it.
    assert_eq!(a2, b + SLICE_SIZE);
    assert_eq!(h.memory().size_slices(), end);
    validate(h);
    // From there it grows in place: through the tail first, then through memory.grow
    // once the tail is used up (37 free slices above it, 46 needed, so 9 missing; an
    // eighth of the 44-slice heap is 5, so the need wins).
    fill(h, a2, four.size(), 0x23);
    let big = layout(50 * SLICE_SIZE, 8);
    let a3 = h.realloc(a2, four, big.size()).unwrap();
    assert_eq!(a3, a2);
    check(h, a3, four.size(), 0x23);
    assert_eq!(
        h.memory().size_slices(),
        end + 9,
        "grew by exactly the missing slices"
    );
    // The slices the block left behind are free and the lowest fit reuses them.
    let c = h.allocate(two).unwrap();
    assert_eq!(c, a);
    h.dealloc(c, two);
    h.dealloc(b, one);
    h.dealloc(a3, big);
    validate(h);
}

#[test]
fn large_alignment_is_honoured() {
    let mut f = heap(512, 4, 0);
    let h = &mut f.heap;
    for shift in 0..=18 {
        let align = 1usize << shift;
        for size in [1usize, 24, 1000, 5000, 70_000, 600_000] {
            let l = layout(size, align);
            let p = h.allocate(l).unwrap();
            assert_eq!(p % align, 0, "size {size} align {align}");
            fill(h, p, size, 0x77);
            h.dealloc(p, l);
        }
    }
    validate(h);
}

#[test]
fn alloc_zeroed_is_zero_on_fresh_and_recycled_blocks() {
    let mut f = heap(512, 4, 0);
    let h = &mut f.heap;
    for size in [
        8usize,
        100,
        1024,
        5000,
        MEDIUM_MAX_OBJ_SIZE,
        300_000,
        5 * SLICE_SIZE + 3,
    ] {
        let l = layout(size, 8);
        let a = h.alloc_zeroed(l).unwrap();
        check(h, a, size, 0);
        fill(h, a, size, 0xFF);
        h.dealloc(a, l);
        let b = h.alloc_zeroed(l).unwrap();
        check(h, b, size, 0);
        h.dealloc(b, l);
    }
    validate(h);
}

#[test]
fn realloc_preserves_contents_across_classes() {
    let mut f = heap(256, 4, 0);
    let h = &mut f.heap;
    let sizes = [
        8usize, 24, 64, 1000, 1024, 4000, 10_240, 20_000, 90_000, 600_000, 24,
    ];
    let mut l = layout(sizes[0], 8);
    let mut p = h.allocate(l).unwrap();
    fill(h, p, l.size(), 0x3C);
    for &s in &sizes[1..] {
        let keep = l.size().min(s);
        p = h.realloc(p, l, s).unwrap();
        check(h, p, keep, 0x3C);
        fill(h, p, s, 0x3C);
        l = layout(s, 8);
    }
    h.dealloc(p, l);
    validate(h);
}

#[test]
fn realloc_within_a_bin_returns_the_same_block() {
    let mut f = heap(64, 4, 0);
    let h = &mut f.heap;
    let p = h.allocate(layout(70, 8)).unwrap();
    assert_eq!(h.realloc(p, layout(70, 8), 80).unwrap(), p);
    assert_eq!(h.realloc(p, layout(80, 8), 65).unwrap(), p);
    // Shrinking to below half moves the block to a smaller class.
    let q = h.realloc(p, layout(65, 8), 24).unwrap();
    assert_ne!(q, p);
    h.dealloc(q, layout(24, 8));
    validate(h);
}

#[test]
fn non_contiguous_growth_is_fine() {
    let mut f = heap(512, 2, 0);
    let h = &mut f.heap;
    let l = layout(MEDIUM_MAX_OBJ_SIZE, 8);
    let a = h.allocate(l).unwrap();
    f.mem.0.borrow_mut().skip_slices(3);
    let b = h.allocate(layout(LARGE_MAX_OBJ_SIZE, 8)).unwrap();
    f.mem.0.borrow_mut().skip_slices(1);
    let c = h.allocate(l).unwrap();
    fill(h, a, l.size(), 1);
    fill(h, b, LARGE_MAX_OBJ_SIZE, 2);
    fill(h, c, l.size(), 3);
    check(h, a, l.size(), 1);
    check(h, b, LARGE_MAX_OBJ_SIZE, 2);
    h.dealloc(a, l);
    h.dealloc(b, layout(LARGE_MAX_OBJ_SIZE, 8));
    h.dealloc(c, l);
    validate(h);
}

#[test]
fn out_of_memory_returns_none_and_keeps_state() {
    let mut f = heap(8, 2, 0);
    let h = &mut f.heap;
    let a = h.allocate(layout(100, 8)).unwrap();
    assert!(
        h.allocate(layout(LARGE_MAX_OBJ_SIZE, 8)).is_none(),
        "neither a 4 MiB page nor an 8-slice run fits in 7 slices"
    );
    assert!(
        h.allocate(layout(9 * SLICE_SIZE, 8)).is_none(),
        "huge run cannot fit"
    );
    validate(h);
    let b = h.allocate(layout(100, 8)).unwrap();
    h.dealloc(a, layout(100, 8));
    h.dealloc(b, layout(100, 8));
    validate(h);
}

/// Randomised churn against a tiny in-test model with content checks.
#[test]
fn random_churn_keeps_invariants_and_contents() {
    let mut f = heap(1024, 4, 4096);
    let h = &mut f.heap;
    let mut state = 0x9E37_79B9_7F4A_7C15u64;
    let mut next = move || {
        state ^= state << 13;
        state ^= state >> 7;
        state ^= state << 17;
        state
    };
    let mut live: Vec<(usize, Layout, u8)> = Vec::new();
    let steps = 20_000;
    for step in 0..steps {
        let r = next();
        let op = r % 100;
        if op < 45 || live.is_empty() {
            let size = match (r >> 8) % 100 {
                0..=79 => 1 + (r >> 16) as usize % 256,
                80..=94 => 1 + (r >> 16) as usize % 20_000,
                95..=98 => 1 + (r >> 16) as usize % 200_000,
                _ => 1 + (r >> 16) as usize % (3 * SLICE_SIZE),
            };
            let align = 1usize << ((r >> 40) % 12);
            let l = layout(size, align);
            let byte = (r >> 56) as u8;
            let p = if op % 2 == 0 {
                h.allocate(l).unwrap()
            } else {
                let p = h.alloc_zeroed(l).unwrap();
                check(h, p, size, 0);
                p
            };
            assert_eq!(p % align, 0);
            fill(h, p, size, byte);
            live.push((p, l, byte));
        } else if op < 85 {
            let i = (r >> 8) as usize % live.len();
            let (p, l, byte) = live.swap_remove(i);
            check(h, p, l.size(), byte);
            h.dealloc(p, l);
        } else {
            let i = (r >> 8) as usize % live.len();
            let (p, l, byte) = live[i];
            let new_size = 1 + (r >> 16) as usize % (2 * l.size() + 64);
            let q = h.realloc(p, l, new_size).unwrap();
            check(h, q, l.size().min(new_size), byte);
            fill(h, q, new_size, byte);
            live[i] = (q, layout(new_size, l.align()), byte);
        }
        if step % 997 == 0 {
            validate(h);
            for (p, l, byte) in &live {
                check(h, *p, l.size(), *byte);
            }
        }
    }
    for (p, l, byte) in live {
        check(h, p, l.size(), byte);
        h.dealloc(p, l);
    }
    validate(h);
    h.collect_retired(true);
    validate(h);
}

#[test]
fn direct_table_tiles_and_starts_at_sentinel() {
    let f = heap(8, 2, 0);
    for i in 0..DIRECT_ENTRIES {
        assert_eq!(f.heap.direct_entry(i), 0);
    }
    let (lo, hi) = direct_range(24);
    assert_eq!((lo, hi), (113, 128));
    assert_eq!(direct_range(1), (0, 1));
    assert_eq!(direct_range(2), (2, 2));
    assert_eq!(direct_range(9), (9, 10));
}
