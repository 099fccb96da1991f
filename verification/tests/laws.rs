//! What holds of the library as a whole, on concrete values.
use wasmalloc::backend::{Memory, SimMemory};
use wasmalloc::bins::{
    bin, bin_size, block_start, blocks_per_page, class_block_size, classify, direct_index, kind_of_bin, serving_class, Class,
    PageKind, SLICE_SIZE,
};
use wasmalloc::bitmap::{
    all_clear, all_set, clear_bits, count_ones, full_bytes, mask, next_clear, next_set,
    prev_clear, set_bits,
};
use wasmalloc::bytes::{get_byte, put_byte};
use wasmalloc::heap::{huge_slices, Heap};
use wasmalloc::layout::{Layout, LayoutError};
use wasmalloc::model::FULL_QUEUE;
use wasmalloc::page::{header_of, read};
use wasmalloc::slices::SliceMap;
use wasmalloc::testing::fuzz::{drive, pick_profile, MAX_LIVE};
use wasmalloc::testing::intervals::Intervals;
use wasmalloc::testing::model::{run, run_with, FailureKind, Profile, RawAlloc};
use wasmalloc::testing::pattern::{fill, spans, verify};
use wasmalloc::testing::rng::{mix64, ByteSource, Rng};
use wasmalloc::testing::sim::SimHeap;
use wasmalloc::testing::text::{append_decimal, append_hex, append_hex_byte, append_layout};

fn layout(size: usize, align: usize) -> Layout {
    Layout::from_size_align(size, align).unwrap()
}

fn sim() -> SimHeap<64> {
    SimHeap::new(1024, 4, 100)
}

#[test]
fn layouts_are_powers_of_two_and_fit() {
    assert_eq!(Layout::from_size_align(8, 3), Err(LayoutError));
    assert_eq!(Layout::from_size_align(8, 0), Err(LayoutError));
    assert_eq!(Layout::from_size_align(isize::MAX as usize, 2), Err(LayoutError));
    let l = layout(isize::MAX as usize - 7, 8);
    assert_eq!((l.size(), l.align()), (isize::MAX as usize - 7, 8));
}

#[test]
fn bytes_are_taken_out_of_words_and_put_back() {
    let w = 0x8877_6655_4433_2211;
    assert_eq!(get_byte(w, 0), 0x11);
    assert_eq!(get_byte(w, 7), 0x88);
    assert_eq!(put_byte(w, 2, 0xff), 0x8877_6655_44ff_2211);
    assert_eq!(get_byte(put_byte(w, 5, 9), 5), 9);
}

#[test]
fn bitmaps_count_and_search() {
    let mut m = [0u64; 2];
    assert_eq!(mask(60, 4), 0xf << 60);
    set_bits(&mut m, 60, 8);
    assert_eq!(m, [0xf << 60, 0xf]);
    assert!(all_set(&m, 60, 8) && !all_set(&m, 59, 8));
    assert!(all_clear(&m, 0, 60) && !all_clear(&m, 0, 61));
    assert_eq!(count_ones(&m), 8);
    assert_eq!(next_set(&m, 0), Some(60));
    assert_eq!(next_set(&m, 68), None);
    assert_eq!(next_clear(&m, 60), 68);
    assert_eq!(prev_clear(&m, 67), Some(59));
    assert!(clear_bits(&mut m, 60, 8));
    assert_eq!(m, [0, 0]);
    assert_eq!(full_bytes(0xff00_ffff_0000_00f0), 0x0100_0101_0000_0000);
}

#[test]
fn bins_are_monotone_and_tight() {
    for size in 1..4096 {
        let b = bin(size);
        assert!(bin_size(b) >= size);
        assert!(bin(size + 1) >= b);
        assert_eq!(bin(bin_size(b)), b);
    }
    assert_eq!(classify(layout(1, 65536)), Class::Huge);
    assert_eq!(class_block_size(serving_class(layout(100, 8))), Some(bin_size(bin(100))));
    assert_eq!(class_block_size(Class::Huge), None);
    assert_eq!(direct_index(17), 3);
    assert_eq!(kind_of_bin(bin(8)), PageKind::Small);
}

#[test]
fn runs_cover_the_layout_and_its_alignment() {
    assert_eq!(huge_slices(&layout(1, 65536)), 1);
    assert_eq!(huge_slices(&layout(SLICE_SIZE + 1, 8)), 2);
    let mut h = sim();
    let l = layout(3 * SLICE_SIZE, 4 * SLICE_SIZE);
    let p = h.allocate(l).unwrap();
    assert_eq!(p % (4 * SLICE_SIZE), 0);
}

#[test]
fn masking_recovers_the_page_and_small_frees_find_it() {
    let mut h = sim();
    let l = layout(40, 8);
    let p = h.allocate(l).unwrap();
    let page = header_of(PageKind::Small, p);
    assert_eq!(page % SLICE_SIZE, 0);
    assert_eq!(h.heap.queue(bin(40) as usize).first, page);
    assert_eq!(h.heap.direct_entry(direct_index(40)), page);
}

#[test]
fn freeing_undoes_allocating_and_the_last_block_is_the_next() {
    let mut h = sim();
    let l = layout(64, 8);
    let a = h.allocate(l).unwrap();
    let b = h.allocate(l).unwrap();
    h.write_byte(a, 3, 77);
    h.dealloc(b, l);
    assert_eq!(h.read_byte(a, 3), 77);
    assert_eq!(h.allocate(l), Some(b));
    h.dealloc(a, l);
    assert_eq!(h.allocate(l), Some(a));
    assert_eq!(h.heap.validate(), Ok(()));
}

#[test]
fn a_freed_run_is_had_again_without_growing() {
    let mut h = sim();
    let l = layout(20 * SLICE_SIZE, 8);
    let p = h.allocate(l).unwrap();
    h.dealloc(p, l);
    let end = h.heap.memory().size_slices();
    assert!(h.allocate(l).is_some());
    assert_eq!(h.heap.memory().size_slices(), end);
}

#[test]
fn live_blocks_are_apart_and_every_slice_is_free_or_held() {
    let mut h = sim();
    let layouts = [layout(1, 1), layout(100, 64), layout(9000, 8), layout(70_000, 4096)];
    let mut live: Vec<(usize, usize)> = Vec::new();
    for i in 0..200 {
        let l = layouts[i % 4];
        let p = h.allocate(l).unwrap();
        assert_eq!(p % l.align(), 0);
        assert!(live.iter().all(|&(q, n)| p + l.size() <= q || q + n <= p));
        assert!(!h.heap.is_slice_free(p / SLICE_SIZE));
        live.push((p, l.size()));
    }
    assert_eq!(h.heap.validate(), Ok(()));
}

#[test]
fn the_last_block_retires_its_page_and_turns_release_it() {
    let mut h = sim();
    let l = layout(48, 8);
    let p = h.allocate(l).unwrap();
    let page = header_of(PageKind::Small, p);
    let qi = bin(48) as usize;
    h.dealloc(p, l);
    assert_eq!((h.heap.queue(qi).first, h.heap.queue(qi).count), (page, 1));
    assert!(!h.heap.is_slice_free(page / SLICE_SIZE));
    h.heap.collect_retired(false);
    assert!(!h.heap.is_slice_free(page / SLICE_SIZE));
    let mut turns = 1;
    while !h.heap.is_slice_free(page / SLICE_SIZE) {
        h.heap.collect_retired(false);
        turns += 1;
        assert!(turns <= 64);
    }
    assert_eq!(turns, 16);
    assert_eq!(h.heap.queue(qi).count, 0);
    let q = h.allocate(l).unwrap();
    h.dealloc(q, l);
    h.heap.collect_retired(true);
    assert!(h.heap.is_slice_free(q / SLICE_SIZE));
}

#[test]
fn the_first_allocation_builds_the_heap() {
    let mut h = sim();
    let end = h.heap.memory().size_slices();
    let p = h.allocate(layout(40, 8)).unwrap();
    let page = header_of(PageKind::Small, p);
    assert_eq!(p - page, block_start(bin_size(bin(40))));
    // The heap base is inside the first of the four slices that memory starts with.
    assert_eq!(page / SLICE_SIZE, end - 3);
    assert_eq!(h.heap.memory().size_slices(), end);
    assert_eq!(h.heap.free_slices(), 2);
    assert_eq!(h.heap.queue(bin(40) as usize).first, page);
    assert_eq!(h.heap.queue(bin(40) as usize).count, 1);
}

#[test]
fn a_free_brings_a_full_page_back() {
    let mut h = sim();
    let l = layout(1024, 8);
    let qi = bin(1024) as usize;
    let mut live = Vec::new();
    while h.heap.queue(FULL_QUEUE).count == 0 {
        live.push(h.allocate(l).unwrap());
    }
    let full = h.heap.queue(FULL_QUEUE).first;
    let p = live[0];
    assert_eq!(header_of(PageKind::Small, p), full);
    h.dealloc(p, l);
    assert_eq!(h.heap.queue(FULL_QUEUE).count, 0);
    assert_eq!(h.heap.queue(qi).last, full);
    assert_eq!(h.heap.validate_queue_links(qi), Ok(()));
    assert_eq!(h.heap.validate_queue_links(FULL_QUEUE), Ok(()));
    assert_eq!(h.heap.validate(), Ok(()));
}

#[test]
fn the_search_parks_full_pages_and_prefers_the_fuller_one() {
    let mut h = sim();
    // Above the direct table, two blocks to an extension.
    let l = layout(4096, 8);
    let kind = kind_of_bin(bin(4096));
    let qi = bin(4096) as usize;
    let mut old = vec![h.allocate(l).unwrap()];
    let first = header_of(kind, old[0]);
    let second = loop {
        let p = h.allocate(l).unwrap();
        if header_of(kind, p) != first {
            break header_of(kind, p);
        }
        old.push(p);
    };
    assert_eq!(h.heap.queue(FULL_QUEUE).first, first);
    assert_eq!(h.heap.queue(qi).first, second);
    // One block free: the old page is too full to be preferred to one that must be extended.
    h.dealloc(old[0], l);
    for _ in 0..3 {
        assert_eq!(header_of(kind, h.allocate(l).unwrap()), second);
    }
    // Half of them free: it is the fuller one of the two and has a block at hand.
    let half = old.len() / 2;
    for &p in &old[1..half] {
        h.dealloc(p, l);
    }
    assert_eq!(h.allocate(l), Some(old[half - 1]));
    assert_eq!(h.heap.queue(qi).first, first);
    assert_eq!(h.allocate(l), Some(old[half - 2]));
    assert_eq!(h.heap.validate(), Ok(()));
}

#[test]
fn resizing_in_place_keeps_the_block() {
    let mut h = sim();
    let l = layout(1000, 8);
    let p = h.allocate(l).unwrap();
    assert_eq!(h.realloc(p, l, 1010), Some(p));
    let l = layout(1010, 8);
    h.write_byte(p, 5, 42);
    let q = h.realloc(p, l, 100_000).unwrap();
    assert_ne!(p, q);
    assert_eq!(h.read_byte(q, 5), 42);
}

#[test]
fn a_block_is_left_in_place_down_to_half_its_size() {
    let mut h = sim();
    let old = bin(1000);
    let bytes = bin_size(old);
    let l = layout(bytes, 8);
    let p = h.allocate(l).unwrap();
    let half = bytes / 2;
    assert!(bin(half) < old && kind_of_bin(bin(half)) == kind_of_bin(old));
    assert_eq!(h.realloc(p, l, half), Some(p));
    let q = h.allocate(l).unwrap();
    assert_ne!(h.realloc(q, l, half - 1), Some(q));
    assert_eq!(bin(bytes + 1), old + 1);
    let r = h.allocate(l).unwrap();
    assert_ne!(h.realloc(r, l, bytes + 1), Some(r));
}

#[test]
fn collecting_before_the_first_allocation_does_nothing() {
    let mut h = sim();
    let before = h.footprint_bytes();
    h.heap.collect_retired(true);
    h.heap.collect_retired(false);
    assert_eq!(h.footprint_bytes(), before);
    assert!(h.allocate(layout(32, 8)).is_some());
}

#[test]
fn a_profile_that_cannot_be_run_is_named() {
    let p = Profile::mixed();
    assert_eq!(p.validate(), Ok(()));
    for (q, what) in [
        (Profile { ops: [0, 0, 1, 1], ..p }, "no allocation weight"),
        (Profile { sizes: [0; 4], ..p }, "no size weight"),
        (Profile { aligns: [0; 7], ..p }, "no alignment weight"),
        (Profile { max_live_bytes: 0, ..p }, "zero live-byte cap"),
        (Profile { sizes: [u32::MAX, 1, 0, 0], ..p }, "weights too large"),
        (Profile { max_live_bytes: 1 << 32, ..p }, "live-byte cap too large"),
        (Profile { batch: u32::MAX as usize, ..p }, "batch too large"),
    ] {
        assert_eq!(q.validate(), Err(what));
    }
}

#[test]
fn freeing_slices_undoes_taking_them() {
    let mut m: SliceMap<4> = SliceMap::new();
    m.init(10);
    m.add_free(10, 20, true);
    let r = m.allocate(5, 4).unwrap();
    assert_eq!(r.start % 4, 0);
    assert_eq!(m.free_count(), 15);
    assert_eq!(m.try_extend(r.start, 5, 2), Some(true));
    m.shrink(r.start, 7, 5);
    assert_eq!(m.free_count(), 15);
    m.free(r.start, 5);
    assert_eq!(m.free_count(), 20);
    assert!(m.run_is_free(10, 20) && m.has_run(20, 1) && !m.has_run(21, 1));
    // What was handed out is no longer known to be zero.
    assert!(!m.is_zero(r.start));
}

#[test]
fn the_mixer_is_injective_on_samples() {
    let mut seen: Vec<u64> = (0..2000u64).map(mix64).collect();
    seen.sort_unstable();
    seen.dedup();
    assert_eq!(seen.len(), 2000);
    assert_eq!(mix64(0), 0);
}

#[test]
fn patterns_are_written_and_found_again() {
    let mut h = sim();
    let l = layout(100, 8);
    let p = h.allocate(l).unwrap();
    fill(&mut h, p, 100, 7);
    assert_eq!(verify(&h, p, 100, 100, Some(7)), Ok(()));
    // A prefix keeps its pattern.
    assert_eq!(verify(&h, p, 100, 40, Some(7)), Ok(()));
    let was = h.read_byte(p, 33);
    h.write_byte(p, 33, !was);
    let m = verify(&h, p, 100, 100, Some(7)).unwrap_err();
    assert_eq!((m.offset, m.found, m.expected), (33, !was, was));
    let z = h.alloc_zeroed(l).unwrap();
    assert_eq!(verify(&h, z, 100, 100, None), Ok(()));
    let mut s = spans(100, 100);
    assert_eq!(s.next(), Some((0, 100)));
    assert_eq!(s.next(), None);
}

#[test]
fn intervals_clash_where_they_overlap() {
    let mut t = Intervals::new();
    t.insert(100, 200);
    t.insert(300, 400);
    assert_eq!(t.clash(200, 300), None);
    assert_eq!(t.clash(199, 300), Some((100, 200)));
    assert_eq!(t.clash(250, 301), Some((300, 400)));
    t.remove(100);
    assert_eq!(t.clash(0, 300), None);
}

#[test]
fn numbers_and_layouts_are_written_out() {
    let mut s = String::new();
    append_decimal(&mut s, 0);
    s.push(' ');
    append_decimal(&mut s, 18_446_744_073_709_551_615);
    s.push(' ');
    append_hex(&mut s, 0xbeef);
    s.push(' ');
    append_hex_byte(&mut s, 7);
    assert_eq!(s, "0 18446744073709551615 0xbeef 0x07");
    let mut s = String::new();
    append_layout(&mut s, &layout(24, 8));
    assert_eq!(s, "Layout { size: 24, align: 8 (1 << 3) }");
}

#[test]
fn a_run_is_determined_by_its_seed() {
    let go = |seed| run(&mut sim(), seed, 3_000, Profile::small_churn()).unwrap();
    let a = go(5);
    assert_eq!(a, go(5));
    assert_ne!(a, go(6));
    assert_eq!(a.ops, 3_000);
    assert_eq!(a.deallocs, a.allocs + a.zeroed_allocs);
}

#[test]
fn a_run_without_memory_reports_the_refusal() {
    let mut small: SimHeap<64> = SimHeap::new(5, 4, 100);
    let f = run(&mut small, 1, 3_000, Profile::mixed()).unwrap_err();
    assert_eq!(f.kind, FailureKind::AllocFailed);
    assert_eq!(f.seed, Some(1));
    assert!(f.detail.contains("returned None"), "{}", f.detail);
}

#[test]
fn a_run_ends_with_its_entropy() {
    let bytes = [0u8; 40];
    let mut source = ByteSource::new(&bytes);
    let stats = run_with(&mut sim(), &mut source, 100, Profile::small_churn()).unwrap();
    assert!(stats.ops < 100 && source.remaining() < 4);
    assert_eq!(stats.deallocs, stats.allocs + stats.zeroed_allocs);
}

#[test]
fn a_fuzzer_picks_its_profile_with_the_first_byte() {
    assert_eq!(pick_profile(0).name, "small_churn");
    assert_eq!(pick_profile(11).name, "fifo_batches");
    assert_eq!(pick_profile(7).max_live_bytes, MAX_LIVE);
    assert!(drive(&mut sim(), &[]).is_none());
    let stats = drive(&mut sim(), &[1, 2, 3, 4, 5, 6, 7, 8, 9, 10, 11, 12, 13]).unwrap().unwrap();
    assert_eq!(stats.deallocs, stats.allocs + stats.zeroed_allocs);
}

#[test]
fn acquired_runs_stay_inside_memory() {
    let mem = SimMemory::from_region(0x40_0000, 16 * SLICE_SIZE, 4, 100);
    let mut h: Heap<SimMemory, 64> = Heap::new(mem);
    let l = layout(2 * SLICE_SIZE, 8);
    let mut n = 0;
    while let Some(p) = Heap::allocate(&mut h, l) {
        assert!(p >= 0x40_0000 && p + l.size() <= 0x40_0000 + 16 * SLICE_SIZE);
        n += 1;
    }
    assert_eq!(n, 7);
}

#[test]
fn blocks_come_back_in_the_reverse_of_the_order_they_were_freed_in() {
    let mut h = sim();
    let l = layout(64, 8);
    let p: Vec<usize> = (0..6).map(|_| h.allocate(l).unwrap()).collect();
    for i in [4, 1, 3] {
        h.dealloc(p[i], l);
    }
    for i in [3, 1, 4] {
        assert_eq!(h.allocate(l), Some(p[i]));
    }
    assert_eq!(h.heap.validate(), Ok(()));
}

#[test]
fn parking_and_finding_a_page_end_its_retirement() {
    let mut h = sim();
    let l = layout(16, 8);
    let n = blocks_per_page(PageKind::Small, 16);
    let first: Vec<usize> = (0..n).map(|_| h.allocate(l).unwrap()).collect();
    let page = header_of(PageKind::Small, first[0]);
    for &p in &first {
        h.dealloc(p, l);
    }
    for _ in 0..n {
        h.allocate(l).unwrap();
    }
    assert_ne!(read(page, h.heap.memory()).retire_expire, 0);
    h.allocate(l).unwrap();
    assert_eq!(h.heap.queue(FULL_QUEUE).first, page);
    assert_eq!(read(page, h.heap.memory()).retire_expire, 0);
    assert_eq!(read(page, h.heap.memory()).flags, 1);
    // Above the direct table every request searches.
    let big = layout(2048, 8);
    let p = h.allocate(big).unwrap();
    let page = header_of(kind_of_bin(bin(2048)), p);
    h.dealloc(p, big);
    assert_ne!(read(page, h.heap.memory()).retire_expire, 0);
    assert_eq!(h.allocate(big), Some(p));
    assert_eq!(read(page, h.heap.memory()).retire_expire, 0);
}

#[test]
fn runs_start_at_slices() {
    let mut h = sim();
    for size in [70_000, 100_000, 3 * SLICE_SIZE] {
        assert_eq!(h.allocate(layout(size, 8)).unwrap() % SLICE_SIZE, 0);
    }
}

#[test]
fn two_runs_from_one_seed_report_the_same() {
    let a = run(&mut sim(), 9, 2_000, Profile::small_churn()).unwrap();
    let b = run_with(&mut sim(), &mut Rng::new(9), 2_000, Profile::small_churn()).unwrap();
    assert_eq!(a, b);
    let small = || -> SimHeap<64> { SimHeap::new(5, 4, 100) };
    let f = run(&mut small(), 3, 3_000, Profile::mixed()).unwrap_err();
    let g = run_with(&mut small(), &mut Rng::new(3), 3_000, Profile::mixed()).unwrap_err();
    assert_eq!((f.kind, f.op_index, f.profile), (g.kind, g.op_index, g.profile));
    assert_eq!(f.detail, g.detail);
    assert_eq!((f.seed, g.seed), (Some(3), None));
}

#[test]
fn a_profile_may_hold_almost_three_gigabytes() {
    let p = Profile { max_live_bytes: 2_800_000_000, ..Profile::small_churn() };
    let stats = run(&mut sim(), 2, 500, p).unwrap();
    assert_eq!(stats.ops, 500);
}

#[test]
fn the_last_interval_that_overlaps_is_reported() {
    let mut v = Intervals::new();
    v.insert(10, 20);
    v.insert(30, 40);
    v.insert(50, 60);
    assert_eq!(v.clash(0, 45), Some((30, 40)));
    assert_eq!(v.clash(15, 25), Some((10, 20)));
    assert_eq!(v.clash(20, 30), None);
}

#[test]
fn a_run_moves_to_the_bottom_of_the_free_tail_once_it_cannot_be_extended() {
    let mut h = sim();
    let l = layout(2 * SLICE_SIZE, 8);
    let run = h.allocate(l).unwrap();
    let wall = h.allocate(layout(2 * SLICE_SIZE, 8)).unwrap();
    assert_eq!(wall, run + 2 * SLICE_SIZE);
    // An empty page behind the wall is released first, and is of no use.
    let p = h.allocate(layout(100, 8)).unwrap();
    h.dealloc(p, layout(100, 8));
    h.write_byte(run, 5, 42);
    let moved = h.realloc(run, l, 3 * SLICE_SIZE).unwrap();
    assert_eq!(moved, wall + 2 * SLICE_SIZE);
    assert_eq!(h.read_byte(moved, 5), 42);
    assert_eq!(h.heap.queue(bin(100) as usize).count, 0);
    assert_eq!(h.heap.validate(), Ok(()));
}
