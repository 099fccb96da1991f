//! The requests that the workloads make of their allocator, one by one.
use wasmalloc::backend::{Memory, SimMemory};
use wasmalloc::layout::Layout;
use wasmalloc::roofline::actions::{
    random_actions, random_actions_fini, random_actions_norealloc, RandomActions, RA_FLOOR,
};
use wasmalloc::roofline::churn::{churn, churn_fini, churn_init, Churn};
use wasmalloc::roofline::memory::{
    memory_grow_only, memory_grow_touch, CountingMemory, GROW_PAGES, WASM_PAGE,
};
use wasmalloc::roofline::workloads::{
    alloc_free_fixed, batch_alloc_free, large_alloc_free, realloc_doubling, BATCH, REALLOC_START,
    REALLOC_STEPS, TOUCH_STRIDE, VEC_TARGET,
};
use wasmalloc::testing::model::RawAlloc;
use wasmalloc::testing::sim::SimHeap;

#[derive(Clone, Copy, Debug, PartialEq, Eq)]
enum Made {
    Alloc(usize, Option<usize>),
    Free(usize),
    Resize(usize, usize, Option<usize>),
    Write(usize, usize, u8),
}

/// An allocator that writes down what it is asked for, and refuses all requests for memory after
/// the first few.
struct Recorder {
    heap: SimHeap<64>,
    log: Vec<Made>,
    left: usize,
}

impl Recorder {
    fn new(left: usize) -> Self {
        Recorder {
            heap: SimHeap::new(2048, 4, 100),
            log: Vec::new(),
            left,
        }
    }

    /// One whose blocks are elsewhere.
    fn elsewhere() -> Self {
        Recorder {
            heap: SimHeap::new(2048, 9, 100),
            ..Recorder::new(usize::MAX)
        }
    }

    fn allows(&mut self) -> bool {
        let yes = self.left > 0;
        self.left = self.left.saturating_sub(1);
        yes
    }

    fn count(&self, which: impl Fn(&Made) -> bool) -> usize {
        self.log.iter().filter(|m| which(m)).count()
    }
}

fn is_alloc(m: &Made) -> bool {
    matches!(m, Made::Alloc(..))
}

fn is_free(m: &Made) -> bool {
    matches!(m, Made::Free(..))
}

fn is_resize(m: &Made) -> bool {
    matches!(m, Made::Resize(..))
}

fn is_write(m: &Made) -> bool {
    matches!(m, Made::Write(..))
}

impl RawAlloc for Recorder {
    fn allocate(&mut self, layout: Layout) -> Option<usize> {
        let r = if self.allows() {
            self.heap.allocate(layout)
        } else {
            None
        };
        self.log.push(Made::Alloc(layout.size(), r));
        r
    }

    fn alloc_zeroed(&mut self, layout: Layout) -> Option<usize> {
        let r = if self.allows() {
            self.heap.alloc_zeroed(layout)
        } else {
            None
        };
        self.log.push(Made::Alloc(layout.size(), r));
        r
    }

    fn dealloc(&mut self, block: usize, layout: Layout) {
        self.log.push(Made::Free(block));
        self.heap.dealloc(block, layout);
    }

    fn realloc(&mut self, block: usize, layout: Layout, new_size: usize) -> Option<usize> {
        let r = if self.allows() {
            self.heap.realloc(block, layout, new_size)
        } else {
            None
        };
        self.log.push(Made::Resize(block, new_size, r));
        r
    }

    fn footprint_bytes(&self) -> Option<usize> {
        self.heap.footprint_bytes()
    }

    fn read_word(&self, block: usize, offset: usize) -> u64 {
        self.heap.read_word(block, offset)
    }

    fn write_word(&mut self, block: usize, offset: usize, value: u64) {
        self.heap.write_word(block, offset, value)
    }

    fn read_byte(&self, block: usize, offset: usize) -> u8 {
        self.heap.read_byte(block, offset)
    }

    fn write_byte(&mut self, block: usize, offset: usize, value: u8) {
        self.log.push(Made::Write(block, offset, value));
        self.heap.write_byte(block, offset, value)
    }
}

/// The address of the first allocation.
fn first(log: &[Made]) -> usize {
    match log[0] {
        Made::Alloc(_, Some(p)) => p,
        other => panic!("{other:?}"),
    }
}

#[test]
fn a_fixed_pair_is_an_allocation_a_write_and_a_free() {
    let mut a = Recorder::new(usize::MAX);
    alloc_free_fixed(&mut a, 3, 32, 8).unwrap();
    let p = first(&a.log);
    let expected: Vec<Made> = (0..3u8)
        .flat_map(|i| [Made::Alloc(32, Some(p)), Made::Write(p, 0, i), Made::Free(p)])
        .collect();
    assert_eq!(a.log, expected);
}

#[test]
fn fixed_pairs_end_with_the_first_refusal() {
    let mut a = Recorder::new(2);
    assert_eq!(alloc_free_fixed(&mut a, 5, 32, 8), None);
    assert_eq!(a.log.len(), 7);
    assert_eq!(a.log[6], Made::Alloc(32, None));
    let mut b = Recorder::new(5);
    assert!(alloc_free_fixed(&mut b, 5, 32, 8).is_some());
}

#[test]
fn a_batch_writes_each_block_and_frees_in_its_order() {
    for lifo in [true, false] {
        let mut a = Recorder::new(usize::MAX);
        let mut slots = Vec::new();
        batch_alloc_free(&mut a, &mut slots, 2, 32, lifo).unwrap();
        assert_eq!(a.log.len(), 2 * 3 * BATCH);
        for round in 0..2 {
            let part = &a.log[round * 3 * BATCH..(round + 1) * 3 * BATCH];
            let mut ps = Vec::new();
            for i in 0..BATCH {
                let p = first(&part[2 * i..]);
                assert_eq!(part[2 * i], Made::Alloc(32, Some(p)));
                assert_eq!(part[2 * i + 1], Made::Write(p, 0, (i + round) as u8));
                ps.push(p);
            }
            if lifo {
                ps.reverse();
            }
            let frees: Vec<Made> = ps.iter().map(|&p| Made::Free(p)).collect();
            assert_eq!(part[2 * BATCH..], frees);
        }
    }
}

#[test]
fn a_refused_batch_keeps_what_it_has() {
    let mut a = Recorder::new(BATCH + 7);
    let mut slots = Vec::new();
    assert_eq!(batch_alloc_free(&mut a, &mut slots, 2, 32, true), None);
    assert_eq!(slots.len(), 7);
    assert_eq!(a.log.len(), 3 * BATCH + 2 * 7 + 1);
    assert_eq!(*a.log.last().unwrap(), Made::Alloc(32, None));
}

#[test]
fn doubling_writes_the_last_byte_after_each_step() {
    let mut a = Recorder::new(usize::MAX);
    realloc_doubling(&mut a, 2).unwrap();
    let len = 2 + 2 * REALLOC_STEPS + 1;
    assert_eq!(a.log.len(), 2 * len);
    for round in 0..2 {
        let part = &a.log[round * len..(round + 1) * len];
        let byte = round as u8;
        let mut p = first(part);
        let mut size = REALLOC_START;
        assert_eq!(part[..2], [Made::Alloc(size, Some(p)), Made::Write(p, 0, byte)]);
        for k in 0..REALLOC_STEPS {
            let step = &part[2 + 2 * k..];
            size *= 2;
            match step[0] {
                Made::Resize(from, to, Some(q)) => {
                    assert_eq!((from, to), (p, size));
                    p = q;
                }
                other => panic!("{other:?}"),
            }
            assert_eq!(step[1], Made::Write(p, size - 1, byte));
        }
        assert_eq!(size, VEC_TARGET);
        assert_eq!(part[len - 1], Made::Free(p));
    }
}

#[test]
fn a_refused_doubling_frees_its_block() {
    let mut a = Recorder::new(4);
    assert_eq!(realloc_doubling(&mut a, 1), None);
    assert_eq!(a.log.len(), 2 + 2 * 3 + 2);
    let n = a.log.len();
    match (a.log[n - 2], a.log[n - 1]) {
        (Made::Resize(p, size, None), Made::Free(q)) => {
            assert_eq!((p, size), (q, REALLOC_START * 16));
        }
        other => panic!("{other:?}"),
    }
    let mut b = Recorder::new(0);
    assert_eq!(realloc_doubling(&mut b, 1), None);
    assert_eq!(b.log, [Made::Alloc(REALLOC_START, None)]);
}

#[test]
fn large_blocks_are_touched_once_per_stride() {
    let mut a = Recorder::new(usize::MAX);
    large_alloc_free(&mut a, 6).unwrap();
    let mut at = 0;
    for round in 0..6u8 {
        let p = first(&a.log[at..]);
        let size = match a.log[at] {
            Made::Alloc(size, _) => size,
            other => panic!("{other:?}"),
        };
        let strides = size / TOUCH_STRIDE;
        for k in 0..strides {
            assert_eq!(a.log[at + 1 + k], Made::Write(p, k * TOUCH_STRIDE, round));
        }
        assert_eq!(a.log[at + 1 + strides], Made::Free(p));
        at += strides + 2;
    }
    assert_eq!(at, a.log.len());
    let mut b = Recorder::new(1);
    assert_eq!(large_alloc_free(&mut b, 2), None);
    assert!(matches!(b.log.last(), Some(Made::Alloc(_, None))));
}

#[test]
fn a_hundred_actions_from_nothing_are_a_hundred_allocations() {
    assert_eq!(RA_FLOOR, 100);
    let mut a = Recorder::new(usize::MAX);
    let mut ra = RandomActions::new();
    random_actions(&mut a, &mut ra, RA_FLOOR).unwrap();
    assert_eq!(a.count(is_alloc), 100);
    assert_eq!(a.count(is_free), 0);
    assert_eq!(a.count(is_resize), 0);
    assert_eq!(a.count(is_write), 100);
    random_actions_fini(&mut a, &mut ra);
    assert_eq!(a.count(is_free), 100);
    assert_eq!(a.log.len(), 300);
}

#[test]
fn every_action_is_one_request() {
    for resizing in [true, false] {
        let mut a = Recorder::new(usize::MAX);
        let mut ra = RandomActions::new();
        if resizing {
            random_actions(&mut a, &mut ra, 2_000).unwrap();
        } else {
            random_actions_norealloc(&mut a, &mut ra, 2_000).unwrap();
        }
        let requests = a.count(is_alloc) + a.count(is_free) + a.count(is_resize);
        assert_eq!(requests, 2_000);
        assert_eq!(a.count(is_resize) > 0, resizing);
        // Every new and every resized object is written once.
        assert_eq!(a.count(is_write), a.count(is_alloc) + a.count(is_resize));
    }
}

/// The request without the addresses.
fn shape(m: &Made) -> (u8, usize, u8) {
    match *m {
        Made::Alloc(size, _) => (0, size, 0),
        Made::Free(_) => (1, 0, 0),
        Made::Resize(_, size, _) => (2, size, 0),
        Made::Write(_, offset, byte) => (3, offset, byte),
    }
}

#[test]
fn the_actions_do_not_depend_on_the_addresses() {
    let mut a = Recorder::new(usize::MAX);
    let mut b = Recorder::elsewhere();
    let (mut x, mut y) = (RandomActions::new(), RandomActions::new());
    random_actions(&mut a, &mut x, 3_000).unwrap();
    random_actions(&mut b, &mut y, 3_000).unwrap();
    assert_ne!(a.log, b.log);
    let shapes = |r: &Recorder| r.log.iter().map(shape).collect::<Vec<_>>();
    assert_eq!(shapes(&a), shapes(&b));
    assert_eq!(
        random_actions_fini(&mut a, &mut x),
        random_actions_fini(&mut b, &mut y)
    );
}

/// What every workload returns, and what it was answered.
fn outcomes(mut a: Recorder) -> (Vec<Option<u32>>, Vec<Made>) {
    let mut sums = vec![
        alloc_free_fixed(&mut a, 20, 32, 8),
        batch_alloc_free(&mut a, &mut Vec::new(), 1, 64, false),
        realloc_doubling(&mut a, 1),
        large_alloc_free(&mut a, 3),
    ];
    let mut c = Churn::new();
    sums.push(churn_init(&mut a, &mut c));
    sums.push(churn(&mut a, &mut c, 50));
    churn_fini(&mut a, &mut c);
    sums.push(random_actions(&mut a, &mut RandomActions::new(), 500));
    (sums, a.log)
}

#[test]
fn the_answers_decide_the_checksums() {
    let a = outcomes(Recorder::new(usize::MAX));
    assert_eq!(a, outcomes(Recorder::new(usize::MAX)));
    let b = outcomes(Recorder::elsewhere());
    assert!(a.0.iter().chain(&b.0).all(|sum| sum.is_some()));
    assert_ne!(a.1, b.1);
    assert_ne!(a.0, b.0);
}

#[test]
fn refused_actions_stop_at_the_refusal() {
    let mut a = Recorder::new(10);
    let mut ra = RandomActions::new();
    assert_eq!(random_actions(&mut a, &mut ra, 50), None);
    assert_eq!(a.log.len(), 21);
    assert!(matches!(a.log[20], Made::Alloc(_, None)));
    random_actions_fini(&mut a, &mut ra);
    assert_eq!(a.count(is_free), 10);
}

#[test]
fn churn_allocates_and_frees_one_object_per_step() {
    let mut a = Recorder::new(usize::MAX);
    let mut c = Churn::new();
    churn_init(&mut a, &mut c).unwrap();
    let live = a.count(is_alloc);
    assert_eq!((live, a.log.len()), (10_000, 20_000));
    a.log.clear();
    churn(&mut a, &mut c, 300).unwrap();
    assert_eq!(a.count(is_alloc), 300);
    assert_eq!(a.count(is_free), 300);
    assert_eq!(a.count(is_write), 300);
    assert_eq!(a.log.len(), 900);
    a.log.clear();
    churn_fini(&mut a, &mut c);
    assert_eq!((a.count(is_free), a.log.len()), (live, live));
}

#[test]
fn growing_alone_touches_nothing_and_asks_once_per_round() {
    let base = 0x40_0000;
    let mut mem = CountingMemory::new(SimMemory::from_region(base, 128 * WASM_PAGE, 4, 100));
    memory_grow_only(&mut mem, 3).unwrap();
    assert_eq!(mem.grow_calls(), 3);
    for a in (base + 4 * WASM_PAGE..base + (4 + 3 * GROW_PAGES) * WASM_PAGE).step_by(8) {
        assert_eq!(mem.load(a), 0);
    }
    memory_grow_touch(&mut mem, 3).unwrap();
    assert_eq!(mem.grow_calls(), 6);
    let region = base + (4 + 5 * GROW_PAGES) * WASM_PAGE;
    for a in (region..region + GROW_PAGES * WASM_PAGE).step_by(8) {
        assert_eq!(mem.load(a), if a % 4096 == 0 { 2 } else { 0 });
    }
    assert_eq!(memory_grow_only(&mut mem, 9), None);
    assert_eq!(mem.grow_calls(), 8);
}
