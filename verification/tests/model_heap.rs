//! Every profile against the heap over a simulated linear memory.
use wasmalloc::bins::SLICE_SIZE;
use wasmalloc::layout::Layout;
use wasmalloc::slices::GrowPolicy;
use wasmalloc::testing::model::{run, Profile, RawAlloc};

type SimHeap = wasmalloc::testing::sim::SimHeap<1024>;

/// Four times the largest profile's live-byte cap: room for page granularity, retirement and
/// growth steps without ever giving the heap a legitimate reason to refuse a request.
const REGION_SLICES: usize = 16 * 1024;

/// Start conditions to vary per seed: how much initial memory there is and where the heap base
/// falls in it (mid-slice, slice-aligned, and past a whole slice).
const STARTS: [(usize, usize); 3] = [(4, 100), (1, 0), (64, SLICE_SIZE + 8)];

fn heap(initial_slices: usize, heap_base_offset: usize) -> SimHeap {
    let mut h = SimHeap::new(REGION_SLICES, initial_slices, heap_base_offset);
    // Small growth steps so a run crosses many growth boundaries and non-trivial slice map
    // states, not just one big initial growth.
    h.heap.set_grow_policy(GrowPolicy {
        min_grow: 2,
        max_grow: 256,
        ..GrowPolicy::default()
    });
    h
}

fn exercise(profile: Profile, ops: usize) {
    for (i, (initial, offset)) in STARTS.iter().enumerate() {
        let seed = i as u64 + 1;
        let mut h = heap(*initial, *offset);
        let stats = match run(&mut h, seed, ops, profile) {
            Ok(stats) => stats,
            Err(failure) => panic!("{}", failure.report()),
        };
        assert_eq!(stats.ops, ops, "{}: {stats:?}", profile.name);
        assert_eq!(
            stats.deallocs,
            stats.allocs + stats.zeroed_allocs,
            "{}: every block is freed exactly once: {stats:?}",
            profile.name
        );
        let footprint = stats
            .peak_footprint_bytes
            .expect("the heap reports its footprint");
        // A loose bound that only a gross leak (pages never reused) could break.
        assert!(
            footprint <= 4 * stats.peak_live_bytes + 128 * 1024 * 1024,
            "{}: footprint {footprint} for peak live {}: {stats:?}",
            profile.name,
            stats.peak_live_bytes
        );
    }
}

#[test]
fn model_heap_small_churn() {
    exercise(Profile::small_churn(), 50_000);
}

#[test]
fn model_heap_mixed() {
    exercise(Profile::mixed(), 30_000);
}

#[test]
fn model_heap_large_heavy() {
    exercise(Profile::large_heavy(), 3_000);
}

#[test]
fn model_heap_align_heavy() {
    exercise(Profile::align_heavy(), 30_000);
}

#[test]
fn model_heap_lifo_batches() {
    exercise(Profile::lifo_batches(), 50_000);
}

#[test]
fn model_heap_fifo_batches() {
    exercise(Profile::fifo_batches(), 50_000);
}

fn fill(h: &mut SimHeap, block: usize, size: usize, byte: u8) {
    for i in 0..size {
        h.write_byte(block, i, byte);
    }
}

fn holds(h: &SimHeap, block: usize, size: usize, byte: u8) -> bool {
    (0..size).all(|i| h.read_byte(block, i) == byte)
}

#[test]
fn zeroed_and_aligned_allocations() {
    let mut h = heap(4, 100);
    let z = h
        .alloc_zeroed(Layout::from_size_align(4 << 20, 4).unwrap())
        .unwrap();
    assert!((0..4 << 20).step_by(8).all(|i| h.read_word(z, i) == 0));

    let aligned = Layout::from_size_align(128, 64).unwrap();
    let boxes: Vec<usize> = (0..1_000)
        .map(|i| {
            let b = h.allocate(aligned).unwrap();
            fill(&mut h, b, 100, i as u8);
            b
        })
        .collect();
    for (i, &b) in boxes.iter().enumerate() {
        assert_eq!(b % 64, 0);
        assert!(holds(&h, b, 100, i as u8));
    }

    let p = h
        .allocate(Layout::from_size_align(8192, 8192).unwrap())
        .unwrap();
    fill(&mut h, p, 16, 7);
    assert_eq!(p % 8192, 0);
    assert!(holds(&h, p, 16, 7));
}

/// Everything from the heap base to the end of memory.
#[test]
fn the_footprint_is_what_the_memory_holds_above_the_heap_base() {
    let mut h = heap(4, 100);
    assert_eq!(h.footprint_bytes(), Some(4 * SLICE_SIZE - 100));
    let l = Layout::from_size_align(5 * SLICE_SIZE, 8).unwrap();
    let p = h.allocate(l).unwrap();
    let grown = h.footprint_bytes().unwrap();
    assert!(grown >= 8 * SLICE_SIZE - 100 && (grown + 100) % SLICE_SIZE == 0);
    h.dealloc(p, l);
    assert_eq!(h.footprint_bytes(), Some(grown));
}
