//! The slice map, growth and the reclaimed gap.
use wasmalloc::backend::{Memory, SimMemory, MAX_SLICE_INDEX};
use wasmalloc::bins::SLICE_SIZE;
use wasmalloc::bitmap::BITS;
use wasmalloc::slices::{
    acquire, extend_with_growth, initial_free_range, GrowPolicy, Run, SliceMap,
};

const W: usize = 4;
const N: usize = W * BITS;

/// A simulated memory over a region of its own.
struct Region {
    mem: SimMemory,
}

/// Address of the regions: the first byte of a word of the bitmap.
const REGION_BASE: usize = 64 * 64 * SLICE_SIZE;

impl Region {
    fn new(total_slices: usize, initial_slices: usize, heap_base_offset: usize) -> Self {
        Region {
            mem: SimMemory::from_region(
                REGION_BASE,
                total_slices * SLICE_SIZE,
                initial_slices,
                heap_base_offset,
            ),
        }
    }
}

/// Tiny deterministic generator so the model test needs no dependencies.
struct XorShift(u64);

impl XorShift {
    fn next(&mut self) -> u64 {
        let mut x = self.0;
        x ^= x << 13;
        x ^= x >> 7;
        x ^= x << 17;
        self.0 = x;
        x
    }

    fn below(&mut self, n: usize) -> usize {
        (self.next() % n as u64) as usize
    }

    fn coin(&mut self) -> bool {
        self.next() & 1 == 1
    }
}

/// The specification, written the slow way: the lowest relative index whose absolute index
/// is a multiple of `align` and that starts `count` free slices.
fn reference_find(free: &[bool], base: usize, count: usize, align: usize) -> Option<usize> {
    (0..free.len().saturating_sub(count - 1))
        .filter(|&s| (base + s) % align == 0)
        .find(|&s| free[s..s + count].iter().all(|&f| f))
}

/// The specification of `alloc_tail`: the lowest aligned index in the maximal run of free
/// slices ending at `below`, provided `count` slices fit between it and `below`.
fn reference_find_tail(
    free: &[bool],
    base: usize,
    count: usize,
    align: usize,
    below: usize,
) -> Option<usize> {
    let end = below.min(free.len());
    let lo = (0..end).rev().take_while(|&i| free[i]).last()?;
    let start = (lo..end).find(|&s| (base + s) % align == 0)?;
    (end - start >= count).then_some(start)
}

/// A map whose bits match the model, built through the public API.
fn map_from(free: &[bool], zero: &[bool], base: usize) -> SliceMap<W> {
    let mut m = SliceMap::<W>::new();
    m.init(base);
    let mut i = 0;
    while i < N {
        if !free[i] {
            i += 1;
            continue;
        }
        let start = i;
        while i < N && free[i] && zero[i] == zero[start] {
            i += 1;
        }
        m.add_free(m.base() + start, i - start, zero[start]);
    }
    m
}

fn check_invariants<const K: usize>(m: &SliceMap<K>) {
    assert!(m.hint() <= K);
    for i in 0..K * BITS {
        let s = m.base() + i;
        assert!(m.is_free(s) || !m.is_zero(s), "zero bit without free bit {i}");
        if i / BITS < m.hint() {
            assert!(!m.is_free(s), "free bit {i} below the hint");
        }
    }
}

fn assert_matches(m: &SliceMap<W>, free: &[bool], zero: &[bool]) {
    for i in 0..N {
        assert_eq!(m.is_free(m.base() + i), free[i], "free bit {i}");
        assert_eq!(m.is_zero(m.base() + i), zero[i], "zero bit {i}");
    }
    assert_eq!(m.free_count(), free.iter().filter(|&&f| f).count());
    check_invariants(m);
}

/// Absolute index of the first slice of a region created with `initial` slices.
fn region_start(mem: &SimMemory, initial: usize) -> usize {
    mem.size_slices() - initial
}

#[test]
fn empty_map_serves_nothing() {
    let mut m = SliceMap::<W>::new();
    // The zero value is the initial state (a static map then needs no data segment), and
    // it already serves nothing: the loose hint makes the search scan every word once.
    assert_eq!((m.base(), m.hint()), (0, 0));
    assert!((0..N).all(|i| !m.is_free(i) && !m.is_zero(i)));
    assert_eq!(m.allocate(1, 1), None);
    assert_eq!(m.hint(), W, "the search moved the hint past the empty words");
    check_invariants(&m);
    m.init(0);
    assert_eq!(m.hint(), W);
    assert_eq!(m.allocate(1, 1), None);
    assert_eq!(m.allocate(8, 8), None);
    assert_eq!(m.allocate(64, 64), None);
    assert_eq!(m.allocate(3, 2), None);
    assert!(!m.has_run(1, 1));
    assert_eq!(m.free_count(), 0);
    assert_eq!((m.base(), m.limit()), (0, N));
    check_invariants(&m);
    assert_eq!(SliceMap::<1024>::capacity(), MAX_SLICE_INDEX + 1);
    assert_eq!(SliceMap::<2>::default().free_count(), 0);
}

#[test]
fn init_rounds_the_base_down_to_a_word() {
    let mut m = SliceMap::<W>::new();
    m.init(100);
    assert_eq!((m.base(), m.limit()), (64, 64 + N));
    m.add_free(64, N, true);
    assert_eq!(
        m.allocate(1, 1),
        Some(Run {
            start: 64,
            zeroed: true
        })
    );
    // Alignment is on the absolute index: 128 is the first multiple of 128 in the map.
    assert_eq!(
        m.allocate(1, 128),
        Some(Run {
            start: 128,
            zeroed: true
        })
    );
    assert_eq!(
        m.allocate(64, 64),
        Some(Run {
            start: 192,
            zeroed: true
        })
    );
    assert_eq!(
        m.allocate(1, 256),
        Some(Run {
            start: 256,
            zeroed: true
        })
    );
    // 0 is below the map and 512 above it.
    assert_eq!(m.allocate(1, 512), None);
    check_invariants(&m);
}

#[test]
fn single_slices_come_out_lowest_first() {
    let mut m = SliceMap::<W>::new();
    m.init(0);
    m.add_free(0, N, true);
    for i in 0..N {
        assert_eq!(
            m.allocate(1, 1),
            Some(Run {
                start: i,
                zeroed: true
            })
        );
        assert_eq!(m.hint(), i / BITS);
    }
    assert_eq!(m.allocate(1, 1), None);
    assert_eq!(m.hint(), W);
    // Frees pull the hint back; the slices come out lowest first and dirty.
    for i in [200, 3, 77, 67] {
        m.free(i, 1);
    }
    assert_eq!(m.hint(), 0);
    for i in [3, 67, 77, 200] {
        assert_eq!(
            m.allocate(1, 1),
            Some(Run {
                start: i,
                zeroed: false
            })
        );
    }
    assert_eq!(m.allocate(1, 1), None);
    check_invariants(&m);
}

/// Every configuration of up to two handed-out slices, against the reference search, for
/// the three page shapes and a few general ones.
#[test]
fn searches_match_the_reference_for_every_pair_of_holes() {
    const SHAPES: [(usize, usize); 8] = [
        (1, 1),
        (8, 8),
        (64, 64),
        (2, 2),
        (3, 1),
        (9, 8),
        (65, 1),
        (128, 128),
    ];
    let mut free = [true; N];
    let mut zero = [true; N];
    for (i, z) in zero.iter_mut().enumerate() {
        *z = i % 5 != 0;
    }
    for a in 0..N {
        for b in a..N {
            free.fill(true);
            free[a] = false;
            free[b] = false;
            let template = map_from(&free, &zero, 0);
            for (count, align) in SHAPES {
                let expect = reference_find(&free, 0, count, align);
                assert_eq!(template.has_run(count, align), expect.is_some());
                let mut m = template.clone();
                let got = m.allocate(count, align);
                assert_eq!(
                    got.map(|r| r.start),
                    expect,
                    "holes {a} {b}, count {count} align {align}"
                );
                if let Some(r) = got {
                    assert_eq!(r.zeroed, zero[r.start..r.start + count].iter().all(|&z| z));
                    assert!((r.start..r.start + count).all(|i| !m.is_free(i)));
                    assert_eq!(m.free_count(), template.free_count() - count);
                }
                check_invariants(&m);
                for below in [N + 9, N, N - 3, 130, 64, 7] {
                    let expect = reference_find_tail(&free, 0, count, align, below);
                    let mut m = template.clone();
                    let got = m.alloc_tail(count, align, below);
                    assert_eq!(
                        got.map(|r| r.start),
                        expect,
                        "holes {a} {b}, count {count} align {align} below {below}"
                    );
                    if let Some(r) = got {
                        assert_eq!(r.zeroed, zero[r.start..r.start + count].iter().all(|&z| z));
                        assert!((r.start..r.start + count).all(|i| !m.is_free(i)));
                        assert_eq!(m.free_count(), template.free_count() - count);
                    }
                    check_invariants(&m);
                }
            }
        }
    }
}

#[test]
fn general_runs_honour_absolute_alignment_and_cross_words() {
    let mut m = SliceMap::<W>::new();
    // Multiples of 128 and 256 fall inside the map but not at its first word.
    m.init(192);
    m.add_free(192, N, true);
    assert_eq!(
        m.allocate(1, 128),
        Some(Run {
            start: 256,
            zeroed: true
        })
    );
    assert_eq!(
        m.allocate(1, 128),
        Some(Run {
            start: 384,
            zeroed: true
        })
    );
    // 256 is taken and 512 lies beyond the map.
    assert_eq!(m.allocate(1, 256), None);
    assert_eq!(
        m.allocate(100, 1),
        Some(Run {
            start: 257,
            zeroed: true
        })
    );
    assert_eq!(
        m.allocate(30, 2),
        Some(Run {
            start: 192,
            zeroed: true
        })
    );
    assert_eq!(
        m.allocate(27, 4),
        Some(Run {
            start: 224,
            zeroed: true
        })
    );
    m.free(256, 1);
    assert_eq!(
        m.allocate(2, 1),
        Some(Run {
            start: 222,
            zeroed: true
        })
    );
    assert_eq!(
        m.allocate(2, 1),
        Some(Run {
            start: 251,
            zeroed: true
        })
    );
    // Mixes fresh slices with the dirty 256.
    assert_eq!(
        m.allocate(4, 1),
        Some(Run {
            start: 253,
            zeroed: false
        })
    );
    // 357..384 and 385..448 are separated by the taken 384.
    assert_eq!(m.allocate(140, 1), None);
    assert!(!m.has_run(91, 1));
    m.free(384, 1);
    assert!(m.has_run(91, 1));
    assert_eq!(
        m.allocate(91, 1),
        Some(Run {
            start: 357,
            zeroed: false
        })
    );
    assert_eq!(m.free_count(), 0);
    check_invariants(&m);
}

#[test]
fn alloc_tail_takes_the_bottom_of_the_free_tail() {
    let mut m = SliceMap::<W>::new();
    m.init(192);
    // Free: [192, 256) and [260, 300); the end of memory is 300.
    m.add_free(192, 64, true);
    m.add_free(260, 40, false);
    // The tail is [260, 300): the run goes to its bottom and leaves the rest above.
    assert_eq!(
        m.alloc_tail(3, 1, 300),
        Some(Run {
            start: 260,
            zeroed: false
        })
    );
    // Alignment moves the start up inside the tail.
    assert_eq!(
        m.alloc_tail(3, 8, 300),
        Some(Run {
            start: 264,
            zeroed: false
        })
    );
    assert!(m.is_free(263));
    // Too long for the 33-slice tail, whatever lies below: nothing.
    assert_eq!(m.alloc_tail(40, 1, 300), None);
    assert_eq!(m.alloc_tail(34, 1, 300), None);
    assert_eq!(
        m.alloc_tail(33, 1, 300),
        Some(Run {
            start: 267,
            zeroed: false
        })
    );
    assert_eq!(m.free_count(), 64 + 1);
    // The slice below `below` must be free for a tail to exist at all.
    assert_eq!(m.alloc_tail(1, 1, 298), None);
    assert_eq!(m.alloc_tail(1, 1, 300), None);
    // A `below` inside a run of free slices: the tail is the part of that run below it.
    assert_eq!(
        m.alloc_tail(10, 8, 250),
        Some(Run {
            start: 192,
            zeroed: true
        })
    );
    assert_eq!(
        m.alloc_tail(10, 128, 250),
        None,
        "256 is the one multiple of 128 in the tail and it lies above `below`"
    );
    assert_eq!(
        m.alloc_tail(1, 8, 250),
        Some(Run {
            start: 208,
            zeroed: true
        })
    );
    // A `below` past the end of the map, or at zero, is harmless: the tail then ends at the
    // map's end, where nothing is free.
    assert_eq!(m.alloc_tail(1, 1, usize::MAX), None);
    assert_eq!(m.alloc_tail(1, 1, 0), None);
    m.free(299, 1);
    assert_eq!(m.alloc_tail(1, 1, usize::MAX), None);
    assert_eq!(
        m.alloc_tail(1, 1, 300),
        Some(Run {
            start: 299,
            zeroed: false
        })
    );
    check_invariants(&m);
}

#[test]
fn zero_bits_follow_fresh_memory_only() {
    let mut m = SliceMap::<W>::new();
    m.init(0);
    m.add_free(0, 16, true);
    m.add_free(16, 16, false);
    assert_eq!(
        m.allocate(8, 8),
        Some(Run {
            start: 0,
            zeroed: true
        })
    );
    assert_eq!(
        m.allocate(8, 8),
        Some(Run {
            start: 8,
            zeroed: true
        })
    );
    assert_eq!(
        m.allocate(8, 8),
        Some(Run {
            start: 16,
            zeroed: false
        })
    );
    m.free(8, 8);
    assert!(m.is_free(8) && !m.is_zero(8));
    assert_eq!(
        m.allocate(8, 8),
        Some(Run {
            start: 8,
            zeroed: false
        })
    );
    m.free(0, 8);
    m.free(16, 8);
    m.add_free(32, 32, true);
    // A run mixing dirty and fresh slices is not zeroed; the next one is all fresh.
    assert_eq!(
        m.allocate(16, 1),
        Some(Run {
            start: 16,
            zeroed: false
        })
    );
    assert_eq!(
        m.allocate(16, 1),
        Some(Run {
            start: 32,
            zeroed: true
        })
    );
    for i in 0..N {
        assert!(!m.is_zero(i) || m.is_free(i));
    }
    check_invariants(&m);
}

#[test]
fn try_extend_and_shrink_move_the_end_of_a_run() {
    let mut m = SliceMap::<W>::new();
    m.init(0);
    m.add_free(0, 128, true);
    assert_eq!(
        m.allocate(10, 1),
        Some(Run {
            start: 0,
            zeroed: true
        })
    );
    assert_eq!(m.try_extend(0, 10, 0), Some(true));
    assert_eq!(m.free_count(), 118);
    // The tail crosses into the second word.
    assert_eq!(m.try_extend(0, 10, 60), Some(true));
    assert_eq!(m.free_count(), 58);
    m.shrink(0, 70, 65);
    assert_eq!(m.free_count(), 63);
    assert!(m.is_free(65) && !m.is_zero(65));
    assert_eq!(m.try_extend(0, 65, 6), Some(false));
    assert_eq!(m.free_count(), 57);
    let other = m.allocate(1, 1).unwrap();
    assert_eq!(other.start, 71);
    assert_eq!(m.try_extend(0, 71, 1), None);
    assert_eq!(m.free_count(), 56);
    m.free(71, 1);
    assert_eq!(m.try_extend(0, 71, 57), Some(false));
    assert_eq!(m.free_count(), 0);
    // Slices that were never added, and slices beyond the map, both refuse.
    assert_eq!(m.try_extend(0, 128, 1), None);
    assert_eq!(m.try_extend(0, 128, 200), None);
    m.add_free(128, 128, true);
    assert_eq!(m.try_extend(0, 128, 128), Some(true));
    assert_eq!(m.try_extend(0, 256, 1), None);
    m.shrink(0, 256, 0);
    assert_eq!(m.free_count(), N);
    assert_eq!(m.hint(), 0);
    assert_eq!(
        m.allocate(64, 64),
        Some(Run {
            start: 0,
            zeroed: false
        })
    );
    check_invariants(&m);
}

#[test]
fn random_operations_match_a_boolean_model() {
    const STEPS: usize = 8000;
    // Multiples of 128 and 256 fall inside the map but not at its first word.
    let base = 192;
    let mut rng = XorShift(0x9E37_79B9_7F4A_7C15);
    let mut free = vec![false; N];
    let mut zero = vec![false; N];
    let mut managed = vec![false; N];
    let mut live: Vec<(usize, usize)> = Vec::new();
    let mut m = SliceMap::<W>::new();
    m.init(base);
    const COUNTS: [usize; 3] = [1, 8, 64];
    const ALIGNS: [usize; 9] = [1, 2, 4, 8, 16, 32, 64, 128, 256];
    let (mut hits, mut misses, mut extended, mut blocked) = (0, 0, 0, 0);

    for step in 0..STEPS {
        match rng.below(100) {
            0..=39 => {
                let count = if rng.coin() {
                    COUNTS[rng.below(3)]
                } else {
                    1 + rng.below(70)
                };
                let align = if rng.coin() {
                    count.min(64)
                } else {
                    ALIGNS[rng.below(9)]
                };
                let align = if align.is_power_of_two() { align } else { 1 };
                // One allocation in four takes the bottom of the free tail below a random end.
                let high = rng.below(4) == 0;
                let below = rng.below(N + 8);
                let expect = if high {
                    reference_find_tail(&free, base, count, align, below)
                } else {
                    reference_find(&free, base, count, align)
                };
                assert_eq!(
                    m.has_run(count, align),
                    reference_find(&free, base, count, align).is_some(),
                    "step {step}"
                );
                let got = if high {
                    m.alloc_tail(count, align, base + below)
                } else {
                    m.allocate(count, align)
                };
                assert_eq!(
                    got.map(|r| r.start - base),
                    expect,
                    "step {step}: alloc({count}, {align}) high {high} below {below}"
                );
                match got {
                    Some(r) => {
                        hits += 1;
                        let rel = r.start - base;
                        assert_eq!(r.zeroed, zero[rel..rel + count].iter().all(|&z| z));
                        for i in rel..rel + count {
                            free[i] = false;
                            zero[i] = false;
                        }
                        live.push((rel, count));
                    }
                    None => misses += 1,
                }
            }
            40..=64 if !live.is_empty() => {
                let (rel, count) = live.swap_remove(rng.below(live.len()));
                m.free(base + rel, count);
                free[rel..rel + count].fill(true);
            }
            65..=76 if !live.is_empty() => {
                let k = rng.below(live.len());
                let (rel, count) = live[k];
                let extra = rng.below(12);
                let tail = rel + count;
                let expect = if tail + extra <= N && free[tail..tail + extra].iter().all(|&f| f)
                {
                    Some(zero[tail..tail + extra].iter().all(|&z| z))
                } else {
                    None
                };
                assert_eq!(
                    m.try_extend(base + rel, count, extra),
                    expect,
                    "step {step}"
                );
                if expect.is_some() {
                    extended += 1;
                    for i in tail..tail + extra {
                        free[i] = false;
                        zero[i] = false;
                    }
                    live[k].1 += extra;
                } else {
                    blocked += 1;
                }
            }
            77..=88 if !live.is_empty() => {
                let k = rng.below(live.len());
                let (rel, count) = live[k];
                let new_count = rng.below(count + 1);
                m.shrink(base + rel, count, new_count);
                free[rel + new_count..rel + count].fill(true);
                if new_count == 0 {
                    live.swap_remove(k);
                } else {
                    live[k].1 = new_count;
                }
            }
            89..=99 => {
                // Hand a stretch of never-managed slices to the map, fresh or dirty.
                let start = rng.below(N);
                if managed[start] {
                    continue;
                }
                let max_len = 1 + rng.below(40);
                let mut end = start;
                while end < N && !managed[end] && end - start < max_len {
                    end += 1;
                }
                let zeroed = rng.coin();
                m.add_free(base + start, end - start, zeroed);
                for i in start..end {
                    managed[i] = true;
                    free[i] = true;
                    zero[i] = zeroed;
                }
            }
            _ => {}
        }
        assert_matches(&m, &free, &zero);
    }
    assert!(hits > 500 && misses > 100, "hits {hits} misses {misses}");
    assert!(
        extended > 50 && blocked > 50,
        "extended {extended} blocked {blocked}"
    );
    assert!(
        managed.iter().all(|&x| x),
        "every slice was eventually managed"
    );
}

#[test]
fn acquire_reclaims_the_linker_gap_before_growing() {
    // The heap base lies inside the second slice, so only the third is a whole free slice.
    let mut r = Region::new(64, 3, SLICE_SIZE + 100);
    let first = region_start(&r.mem, 3);
    let mut m = SliceMap::<W>::new();
    m.init(first);
    let gap = initial_free_range(r.mem.heap_base(), r.mem.size_slices());
    assert_eq!(gap, (first + 2, 1));
    m.add_free(gap.0, gap.1, false);

    let run = acquire(&mut m, &mut r.mem, 1, 1, &GrowPolicy::default()).unwrap();
    assert_eq!(
        run,
        Run {
            start: first + 2,
            zeroed: false
        }
    );
    assert_eq!(
        r.mem.size_slices(),
        first + 3,
        "no growth while the gap serves"
    );

    // The map is empty now: grow by the minimum step and serve from the fresh region.
    let run = acquire(&mut m, &mut r.mem, 1, 1, &GrowPolicy::default()).unwrap();
    assert_eq!(
        run,
        Run {
            start: first + 3,
            zeroed: true
        }
    );
    assert_eq!(r.mem.size_slices(), first + 3 + 16);
    assert_eq!(m.free_count(), 15);
    for i in first + 4..first + 19 {
        assert!(m.is_zero(i));
    }
    check_invariants(&m);
}

#[test]
fn grow_policy_step_is_the_clamped_fraction() {
    let p = GrowPolicy::default();
    assert_eq!((p.min_grow, p.max_grow, p.step_divisor), (16, 1024, 8));
    assert_eq!(p.step(0), 16);
    assert_eq!(p.step(127), 16);
    assert_eq!(p.step(128), 16);
    assert_eq!(p.step(136), 17);
    assert_eq!(p.step(8192), 1024);
    assert_eq!(p.step(usize::MAX), 1024);
    let half = GrowPolicy {
        step_divisor: 2,
        ..p
    };
    assert_eq!(half.step(100), 50);
    assert_eq!(GrowPolicy::default(), p);
}

#[test]
fn acquire_grows_geometrically_within_the_policy() {
    let mut r = Region::new(N, 2, 0);
    let first = region_start(&r.mem, 2);
    let mut m = SliceMap::<W>::new();
    m.init(first);
    // An eighth of the heap reaches the cap of 12 once the heap holds 96 slices.
    let policy = GrowPolicy {
        min_grow: 2,
        max_grow: 12,
        step_divisor: 8,
    };
    let mut heap = 2;
    let mut steps = Vec::new();
    for _ in 0..150 {
        let before = r.mem.size_slices();
        let run = acquire(&mut m, &mut r.mem, 1, 1, &policy).expect("the region has room");
        let after = r.mem.size_slices();
        assert!(run.start < after);
        if after != before {
            let step = after - before;
            assert_eq!(step, (heap / 8).clamp(2, 12), "step at heap size {heap}");
            assert_eq!(
                run,
                Run {
                    start: before,
                    zeroed: true
                }
            );
            heap += step;
            steps.push(step);
        }
    }
    assert_eq!(steps[0], 2);
    assert!(steps.contains(&12), "the step reached the cap");
    assert!(steps.windows(2).all(|w| w[0] <= w[1]), "steps never shrink");
    assert_eq!(r.mem.size_slices(), first + heap);
    check_invariants(&m);
}

#[test]
fn acquire_handles_non_contiguous_growth() {
    let mut r = Region::new(128, 1, 0);
    let first = region_start(&r.mem, 1);
    let mut m = SliceMap::<W>::new();
    m.init(first);
    let policy = GrowPolicy {
        min_grow: 4,
        max_grow: 4,
        step_divisor: 8,
    };
    let a = acquire(&mut m, &mut r.mem, 1, 1, &policy).unwrap();
    assert_eq!(a.start, first + 1);
    assert_eq!(r.mem.size_slices(), first + 5);
    // Someone else takes the next three slices; the map still has three of its own.
    assert!(r.mem.skip_slices(3));
    for i in 0..3 {
        let run = acquire(&mut m, &mut r.mem, 1, 1, &policy).unwrap();
        assert_eq!(run.start, first + 2 + i);
    }
    assert_eq!(r.mem.size_slices(), first + 8);
    let b = acquire(&mut m, &mut r.mem, 1, 1, &policy).unwrap();
    assert_eq!(
        b.start,
        first + 8,
        "the fresh region starts after the skipped slices"
    );
    assert_eq!(r.mem.size_slices(), first + 12);
    for i in first + 5..first + 8 {
        assert!(!m.is_free(i), "skipped slices never enter the map");
    }
    // An aligned request from an unaligned end of memory: the growth covers the slack up to
    // the next aligned slice plus the run, and nothing more.
    assert!(r.mem.skip_slices(1));
    let c = acquire(&mut m, &mut r.mem, 8, 8, &policy).unwrap();
    assert_eq!(
        c,
        Run {
            start: first + 16,
            zeroed: true
        }
    );
    assert_eq!(r.mem.size_slices(), first + 13 + 3 + 8);
    assert_eq!(m.free_count(), 3 + 3);
    check_invariants(&m);
}

#[test]
fn acquire_sizes_growth_from_the_current_end() {
    // Room for exactly one 64-aligned run after the initial four slices.
    let mut r = Region::new(128, 4, 0);
    let first = region_start(&r.mem, 4);
    let mut m = SliceMap::<W>::new();
    m.init(first);
    let run = acquire(&mut m, &mut r.mem, 64, 64, &GrowPolicy::default()).unwrap();
    assert_eq!(
        run,
        Run {
            start: first + 64,
            zeroed: true
        }
    );
    assert_eq!(
        r.mem.size_slices(),
        first + 128,
        "grew by the slack plus the run"
    );
    assert_eq!(r.mem.remaining_slices(), 0);
    assert_eq!(m.free_count(), 60);
    check_invariants(&m);
}

/// A memory where someone else grows by `skip` slices right before each of our grows: the
/// non-contiguity the `Memory` contract allows, at the one moment `acquire` cannot observe.
struct Interposed<'a> {
    mem: &'a mut SimMemory,
    skip: usize,
    grows: usize,
}

impl Memory for Interposed<'_> {
    fn heap_base(&self) -> usize {
        self.mem.heap_base()
    }

    fn size_slices(&self) -> usize {
        self.mem.size_slices()
    }

    fn grow(&mut self, slices: usize) -> Option<usize> {
        self.grows += 1;
        assert!(self.mem.skip_slices(self.skip));
        self.mem.grow(slices)
    }

    fn load(&self, addr: usize) -> u64 {
        self.mem.load(addr)
    }

    fn store(&mut self, addr: usize, value: u64) {
        self.mem.store(addr, value)
    }
}

#[test]
fn acquire_grows_again_when_the_fresh_region_lands_elsewhere() {
    let mut r = Region::new(128, 4, 0);
    let first = region_start(&r.mem, 4);
    let mut m = SliceMap::<W>::new();
    m.init(first);
    let policy = GrowPolicy {
        min_grow: 1,
        max_grow: 1,
        step_divisor: 8,
    };
    // From end first + 4 an 8-aligned run needs 4 + 8 slices, but the region lands at
    // first + 9 and holds no aligned run; the retry asks for 15, lands at first + 26 and does.
    let mut mem = Interposed {
        mem: &mut r.mem,
        skip: 5,
        grows: 0,
    };
    let run = acquire(&mut m, &mut mem, 8, 8, &policy).unwrap();
    assert_eq!(
        run,
        Run {
            start: first + 32,
            zeroed: true
        }
    );
    assert_eq!(mem.grows, 2);
    assert_eq!(mem.size_slices(), first + 41);
    assert_eq!(m.free_count(), 12 + 6 + 1, "both regions stay in the map");
    for i in (first + 4..first + 9).chain(first + 21..first + 26) {
        assert!(!m.is_free(i), "skipped slice {i} never enters the map");
    }
    check_invariants(&m);
}

#[test]
fn acquire_keeps_the_first_region_when_the_retry_is_refused() {
    // The region outgrows the map, so the map limit is what refuses the retry.
    let mut r = Region::new(N + 64, 4, 0);
    let first = region_start(&r.mem, 4);
    let mut m = SliceMap::<W>::new();
    m.init(first);
    // From end first + 4 a 64-aligned run needs 60 + 64 slices; the region lands at
    // first + 65 and its aligned run would end at first + 192, past the region end at 189.
    // The worst-case retry of 127 slices does not fit under the map limit.
    let mut mem = Interposed {
        mem: &mut r.mem,
        skip: 61,
        grows: 0,
    };
    assert_eq!(
        acquire(&mut m, &mut mem, 64, 64, &GrowPolicy::default()),
        None
    );
    assert_eq!(mem.grows, 1);
    assert_eq!(mem.size_slices(), first + 189);
    assert_eq!(m.free_count(), 124, "the first region stays in the map");
    assert!(!m.has_run(64, 64));
    assert!(m.has_run(60, 1));
    check_invariants(&m);
}

#[test]
fn acquire_refuses_what_the_map_cannot_describe() {
    // The region is larger than the map, so growth must stop at the map, not the region.
    let mut r = Region::new(N + 64, 2, 0);
    let first = region_start(&r.mem, 2);
    let mut m = SliceMap::<W>::new();
    m.init(first);
    let policy = GrowPolicy {
        min_grow: 100,
        max_grow: 100,
        step_divisor: 8,
    };
    assert_eq!(acquire(&mut m, &mut r.mem, N + 1, 1, &policy), None);
    assert_eq!(acquire(&mut m, &mut r.mem, N - 1, 1, &policy), None);
    // The next 4-aligned slice is first + 4, leaving room for only N - 4.
    assert_eq!(acquire(&mut m, &mut r.mem, N - 3, 4, &policy), None);
    assert_eq!(
        r.mem.size_slices(),
        first + 2,
        "refused requests do not grow"
    );

    let a = acquire(&mut m, &mut r.mem, 200, 1, &policy).unwrap();
    assert_eq!(
        a,
        Run {
            start: first + 2,
            zeroed: true
        }
    );
    assert_eq!(r.mem.size_slices(), first + 202);
    // The step is capped by the room left in the map.
    let b = acquire(&mut m, &mut r.mem, 1, 1, &policy).unwrap();
    assert_eq!(
        b,
        Run {
            start: first + 202,
            zeroed: true
        }
    );
    assert_eq!(
        r.mem.size_slices(),
        first + N,
        "growth stops at the map limit"
    );
    assert_eq!(m.free_count(), 53);
    assert_eq!(acquire(&mut m, &mut r.mem, 60, 1, &policy), None);
    assert_eq!(r.mem.size_slices(), first + N);
    assert_eq!(r.mem.remaining_slices(), 64);
    let c = acquire(&mut m, &mut r.mem, 53, 1, &policy).unwrap();
    assert_eq!(c.start, first + 203);
    assert_eq!(acquire(&mut m, &mut r.mem, 1, 1, &policy), None);
    check_invariants(&m);
}

#[test]
fn acquire_falls_back_to_the_bare_request_when_the_step_fails() {
    let mut r = Region::new(12, 2, 0);
    let first = region_start(&r.mem, 2);
    let mut m = SliceMap::<W>::new();
    m.init(first);
    let policy = GrowPolicy::default();
    let a = acquire(&mut m, &mut r.mem, 1, 1, &policy).unwrap();
    assert_eq!(
        a,
        Run {
            start: first + 2,
            zeroed: true
        }
    );
    assert_eq!(
        r.mem.size_slices(),
        first + 3,
        "grew by exactly the request"
    );
    // From end first + 3 an 8-aligned run needs 5 + 8 slices; only 9 are left.
    assert_eq!(acquire(&mut m, &mut r.mem, 8, 8, &policy), None);
    assert_eq!(r.mem.size_slices(), first + 3);
    let b = acquire(&mut m, &mut r.mem, 9, 1, &policy).unwrap();
    assert_eq!(
        b,
        Run {
            start: first + 3,
            zeroed: true
        }
    );
    assert_eq!(r.mem.remaining_slices(), 0);
    assert_eq!(acquire(&mut m, &mut r.mem, 1, 1, &policy), None);
    check_invariants(&m);
}

#[test]
fn extend_with_growth_grows_memory_only_for_a_run_at_the_top() {
    let mut r = Region::new(64, 4, 0);
    let first = region_start(&r.mem, 4);
    let mut m = SliceMap::<W>::new();
    m.init(first);
    m.add_free(first, 4, false);
    let policy = GrowPolicy {
        min_grow: 2,
        max_grow: 64,
        step_divisor: 2,
    };
    let run = acquire(&mut m, &mut r.mem, 3, 1, &policy).unwrap();
    assert_eq!(run.start, first);
    // One free slice sits between the run and the end of memory; the extension needs five,
    // so memory grows by the four missing ones (the step, 2, is smaller).
    assert_eq!(
        extend_with_growth(&mut m, &mut r.mem, first, 3, 5, &policy),
        Some(false),
        "the dirty gap slice makes the tail dirty"
    );
    assert_eq!(r.mem.size_slices(), first + 8);
    assert_eq!(m.free_count(), 0);
    for i in 0..8 {
        assert!(!m.is_free(first + i));
    }
    // A pure map extension needs no growth.
    m.add_free(first + 8, 2, true);
    assert_eq!(r.mem.grow(2), Some(first + 8));
    assert_eq!(
        extend_with_growth(&mut m, &mut r.mem, first, 8, 2, &policy),
        Some(true)
    );
    assert_eq!(r.mem.size_slices(), first + 10);
    // With the run at the top and nothing free after it, growth takes the geometric step
    // when that exceeds the need, and the surplus stays in the map.
    assert_eq!(
        extend_with_growth(&mut m, &mut r.mem, first, 10, 1, &policy),
        Some(true)
    );
    assert_eq!(r.mem.size_slices(), first + 15, "step of 5 (half of 10)");
    assert_eq!(m.free_count(), 4);
    // A block after the run blocks it, whatever lies above.
    let other = m.allocate(1, 1).unwrap();
    assert_eq!(other.start, first + 11);
    assert_eq!(
        extend_with_growth(&mut m, &mut r.mem, first, 11, 1, &policy),
        None
    );
    assert_eq!(r.mem.size_slices(), first + 15);
    assert_eq!(m.free_count(), 3);
    m.free(first + 11, 1);
    // Non-contiguous growth (someone else grows right before we do): the region is kept,
    // the run is not extended, and the slices the other party took never enter the map.
    let mut mem = Interposed {
        mem: &mut r.mem,
        skip: 2,
        grows: 0,
    };
    assert_eq!(
        extend_with_growth(&mut m, &mut mem, first, 11, 8, &policy),
        None
    );
    assert_eq!(mem.grows, 1);
    assert_eq!(
        mem.size_slices(),
        first + 17 + 7,
        "grew by half the heap (7) for the missing four"
    );
    assert_eq!(m.free_count(), 4 + 7);
    assert!(!m.is_free(first + 15) && !m.is_free(first + 16));
    for i in first + 17..first + 24 {
        assert!(m.is_free(i) && m.is_zero(i));
    }
    assert!(
        (first..first + 11).all(|i| !m.is_free(i)),
        "the run is untouched"
    );
    // Those taken slices now sit between the run and the end of memory, so the run is no
    // longer at the top and cannot grow through memory at all.
    assert_eq!(
        extend_with_growth(&mut m, &mut mem, first, 11, 8, &policy),
        None
    );
    assert_eq!(mem.grows, 1, "no growth for a run that is not at the top");
    check_invariants(&m);
}

#[test]
fn extend_with_growth_refuses_what_memory_or_the_map_cannot_give() {
    // The region ends 6 slices after the run.
    let mut r = Region::new(10, 4, 0);
    let first = region_start(&r.mem, 4);
    let mut m = SliceMap::<W>::new();
    m.init(first);
    m.add_free(first, 4, true);
    let policy = GrowPolicy::default();
    let run = m.allocate(4, 1).unwrap();
    assert_eq!(run.start, first);
    assert_eq!(
        extend_with_growth(&mut m, &mut r.mem, first, 4, 7, &policy),
        None,
        "the region has 6 slices left"
    );
    assert_eq!(r.mem.size_slices(), first + 4);
    // The step (16) is refused, so the bare need is taken.
    assert_eq!(
        extend_with_growth(&mut m, &mut r.mem, first, 4, 6, &policy),
        Some(true)
    );
    assert_eq!(r.mem.size_slices(), first + 10);
    assert_eq!(m.free_count(), 0);
    check_invariants(&m);

    // Growth stops at the map's usable limit: a run ending at the last usable slice cannot
    // grow, and one two slices below it grows by at most two.
    let mut m = SliceMap::<W>::new();
    m.init(MAX_SLICE_INDEX + 1 - N);
    let mut mem = PaperMemory {
        size: MAX_SLICE_INDEX - 2,
        capacity: MAX_SLICE_INDEX + 1,
    };
    m.add_free(MAX_SLICE_INDEX - 6, 4, true);
    assert_eq!(m.allocate(4, 1).map(|r| r.start), Some(MAX_SLICE_INDEX - 6));
    assert_eq!(
        extend_with_growth(&mut m, &mut mem, MAX_SLICE_INDEX - 6, 4, 3, &policy),
        None
    );
    assert_eq!(mem.size, MAX_SLICE_INDEX - 2);
    assert_eq!(
        extend_with_growth(&mut m, &mut mem, MAX_SLICE_INDEX - 6, 4, 2, &policy),
        Some(true)
    );
    assert_eq!(mem.size, MAX_SLICE_INDEX, "never grows onto the last slice");
    assert_eq!(
        extend_with_growth(&mut m, &mut mem, MAX_SLICE_INDEX - 6, 6, 1, &policy),
        None
    );
    check_invariants(&m);
}

#[test]
fn initial_free_range_starts_at_the_first_whole_slice() {
    assert_eq!(initial_free_range(0, 17), (0, 17));
    assert_eq!(initial_free_range(1, 17), (1, 16));
    assert_eq!(initial_free_range(SLICE_SIZE, 17), (1, 16));
    assert_eq!(initial_free_range(SLICE_SIZE + 1, 17), (2, 15));
    assert_eq!(initial_free_range(16 * SLICE_SIZE + 100, 17), (17, 0));
    assert_eq!(initial_free_range(40 * SLICE_SIZE, 17), (40, 0));
}

/// A memory that grows on paper only, placed anywhere in the slice index space.
struct PaperMemory {
    size: usize,
    capacity: usize,
}

impl Memory for PaperMemory {
    fn heap_base(&self) -> usize {
        0
    }

    fn size_slices(&self) -> usize {
        self.size
    }

    fn grow(&mut self, slices: usize) -> Option<usize> {
        let end = self.size.checked_add(slices)?;
        if end > self.capacity {
            return None;
        }
        self.size = end;
        Some(end - slices)
    }

    fn load(&self, _addr: usize) -> u64 {
        unreachable!("the paper memory has no words")
    }

    fn store(&mut self, _addr: usize, _value: u64) {
        unreachable!("the paper memory has no words")
    }
}

#[test]
fn the_last_slice_of_the_address_space_is_never_usable() {
    // A map whose top word ends exactly at the end of a 4 GiB memory.
    let mut m = SliceMap::<W>::new();
    m.init(MAX_SLICE_INDEX + 1 - N);
    assert_eq!(m.limit(), MAX_SLICE_INDEX + 1);
    assert_eq!(m.usable_limit(), MAX_SLICE_INDEX);
    m.add_free(m.base(), N, true);
    assert_eq!(m.free_count(), N - 1);
    assert!(m.is_free(MAX_SLICE_INDEX - 1) && !m.is_free(MAX_SLICE_INDEX));
    m.add_free(MAX_SLICE_INDEX, 1, false);
    assert_eq!(
        m.free_count(),
        N - 1,
        "adding only the last slice is a no-op"
    );
    for _ in 0..3 {
        assert!(m.allocate(64, 64).is_some());
    }
    assert_eq!(m.allocate(64, 64), None, "the top word is one slice short");
    let tail = m.allocate(63, 1).unwrap();
    assert_eq!(tail.start, MAX_SLICE_INDEX - 63);
    assert_eq!(m.try_extend(tail.start, 63, 1), None);
    assert_eq!(m.free_count(), 0);
    check_invariants(&m);

    // Growth stops at the last usable slice even when memory could reach 4 GiB.
    let mut m = SliceMap::<W>::new();
    m.init(MAX_SLICE_INDEX + 1 - N);
    let mut mem = PaperMemory {
        size: MAX_SLICE_INDEX - 5,
        capacity: MAX_SLICE_INDEX + 1,
    };
    let policy = GrowPolicy::default();
    let run = acquire(&mut m, &mut mem, 1, 1, &policy).unwrap();
    assert_eq!(run.start, MAX_SLICE_INDEX - 5);
    assert_eq!(
        mem.size, MAX_SLICE_INDEX,
        "the step is cut to the usable room"
    );
    assert_eq!(acquire(&mut m, &mut mem, 8, 8, &policy), None);
    for i in 1..5 {
        assert_eq!(
            acquire(&mut m, &mut mem, 1, 1, &policy).map(|r| r.start),
            Some(MAX_SLICE_INDEX - 5 + i)
        );
    }
    assert_eq!(acquire(&mut m, &mut mem, 1, 1, &policy), None);
    assert_eq!(
        mem.size, MAX_SLICE_INDEX,
        "memory never grows onto the last slice"
    );
    check_invariants(&m);

    // A map entirely above the index (a simulated memory at a high host address) has no hole.
    let mut m = SliceMap::<W>::new();
    m.init(MAX_SLICE_INDEX + 1);
    assert_eq!(m.usable_limit(), m.limit());
    m.add_free(m.base(), N, true);
    assert_eq!(m.free_count(), N);
}

/// A paper memory that writes down what it is asked for, and refuses more than `most` at a time.
struct AskedMemory {
    mem: PaperMemory,
    most: usize,
    asked: Vec<usize>,
}

impl Memory for AskedMemory {
    fn heap_base(&self) -> usize {
        self.mem.heap_base()
    }

    fn size_slices(&self) -> usize {
        self.mem.size_slices()
    }

    fn grow(&mut self, slices: usize) -> Option<usize> {
        self.asked.push(slices);
        if slices > self.most {
            return None;
        }
        self.mem.grow(slices)
    }

    fn load(&self, addr: usize) -> u64 {
        self.mem.load(addr)
    }

    fn store(&mut self, addr: usize, value: u64) {
        self.mem.store(addr, value)
    }
}

#[test]
fn memory_is_asked_for_what_is_wanted_and_then_for_what_is_needed() {
    let asked = |most: usize| AskedMemory {
        mem: PaperMemory { size: 4, capacity: N },
        most,
        asked: Vec::new(),
    };
    let policy = GrowPolicy { min_grow: 16, max_grow: 64, step_divisor: 8 };
    let map = || {
        let mut m = SliceMap::<W>::new();
        m.init(0);
        m
    };
    // A fit in the map, or a request that fits nowhere below its end, asks for nothing.
    let (mut m, mut mem) = (map(), asked(100));
    m.add_free(1, 3, true);
    assert_eq!(acquire(&mut m, &mut mem, 3, 1, &policy), Some(Run { start: 1, zeroed: true }));
    assert_eq!(acquire(&mut m, &mut mem, N, 1, &policy), None);
    assert!(mem.asked.is_empty());
    // What is wanted comes.
    assert_eq!(acquire(&mut m, &mut mem, 3, 1, &policy), Some(Run { start: 4, zeroed: true }));
    assert_eq!(mem.asked, [16]);
    // What is wanted is refused, what is needed comes.
    let (mut m, mut mem) = (map(), asked(3));
    assert_eq!(acquire(&mut m, &mut mem, 3, 1, &policy), Some(Run { start: 4, zeroed: true }));
    assert_eq!(mem.asked, [16, 3]);
    // Both are refused, or the one if they are the same.
    let (mut m, mut mem) = (map(), asked(2));
    assert_eq!(acquire(&mut m, &mut mem, 3, 1, &policy), None);
    assert_eq!(acquire(&mut m, &mut mem, 20, 1, &policy), None);
    assert_eq!(mem.asked, [16, 3, 20]);
    // A run at the top asks for what it misses; one with a taken slice above it does not ask.
    let (mut m, mut mem) = (map(), asked(5));
    m.add_free(1, 3, true);
    assert!(m.allocate(1, 1).is_some());
    assert_eq!(extend_with_growth(&mut m, &mut mem, 1, 1, 7, &policy), Some(true));
    assert_eq!(mem.asked, [16, 5]);
    m.free(5, 1);
    assert_eq!(extend_with_growth(&mut m, &mut mem, 1, 4, 6, &policy), None);
    assert_eq!(mem.asked, [16, 5]);
}

#[test]
fn the_hint_is_lowered_for_what_becomes_free_and_moved_up_by_a_search() {
    let mut m = SliceMap::<W>::new();
    m.init(0);
    assert_eq!(m.hint(), W);
    m.add_free(130, 4, false);
    assert_eq!(m.hint(), 2);
    assert_eq!(m.try_extend(129, 1, 4), Some(false));
    assert_eq!(m.hint(), 2, "claiming leaves it");
    m.free(70, 1);
    assert_eq!(m.hint(), 1);
    assert_eq!(m.allocate(1, 1), Some(Run { start: 70, zeroed: false }));
    assert_eq!(m.hint(), 1, "the search found the word it stands at");
    assert_eq!(m.allocate(1, 1), None);
    assert_eq!(m.hint(), W);
    m.shrink(70, 2, 1);
    assert_eq!(m.hint(), 1);
}
