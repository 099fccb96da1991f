//! The workloads against the heap over a simulated memory.
use wasmalloc::backend::{Memory, SimMemory};
use wasmalloc::layout::Layout;
use wasmalloc::roofline::actions::{
    next_action, random_actions, random_actions_fini, random_actions_norealloc, Action,
    RandomActions, RA_CAP, RA_FLOOR,
};
use wasmalloc::roofline::arguments::{
    parse_args, parse_count, parse_only, position, workload, ArgError, Args, DEFAULT_REPS,
    WORKLOADS,
};
use wasmalloc::roofline::churn::{churn, churn_fini, churn_init, Churn};
use wasmalloc::roofline::memory::{
    grow_pages, memory_grow_only, memory_grow_touch, CountingMemory, GROW_PAGES, WASM_PAGE,
};
use wasmalloc::roofline::rng::Rng;
use wasmalloc::roofline::workloads::{
    alloc_free_fixed, batch_alloc_free, large_alloc_free, realloc_doubling, vec_push_growth, BATCH,
    VEC_TARGET,
};
use wasmalloc::testing::model::RawAlloc;
use wasmalloc::testing::sim::SimHeap;

fn heap() -> SimHeap<64> {
    SimHeap::new(2048, 4, 100)
}

fn mix(sum: u32, p: usize) -> u32 {
    ((sum << 5) | (sum >> 27)) ^ p as u32
}

/// The address the heap gives a request, which is the same again once the block is back.
fn address_of(heap: &mut SimHeap<64>, layout: Layout) -> usize {
    let p = heap.allocate(layout).unwrap();
    heap.dealloc(p, layout);
    p
}

#[test]
fn the_generator_puts_out_the_known_sequence() {
    let mut r = Rng::new(1);
    let drawn: Vec<u32> = (0..4).map(|_| r.next_u32()).collect();
    assert_eq!(drawn, [226_735_074, 1_422_150_777, 2_823_156_546, 2_104_363_911]);
    let mut r = Rng::new(1);
    let below: Vec<u32> = (0..4).map(|_| r.below(100)).collect();
    assert_eq!(below, [5, 33, 65, 48]);
    assert_eq!(r.below(0), 0);
}

#[test]
fn fixed_pairs_fold_the_same_address() {
    let mut h = heap();
    let p = address_of(&mut h, Layout::from_size_align(32, 8).unwrap());
    let expected = (0..3u32).fold(0, |sum, i| mix(sum, p) ^ i);
    assert_eq!(alloc_free_fixed(&mut h, 3, 32, 8), Some(expected));
    assert_eq!(alloc_free_fixed(&mut h, 0, 32, 8), Some(0));
}

#[test]
fn batches_leave_nothing_behind() {
    let mut h = heap();
    let mut slots = Vec::new();
    let lifo = batch_alloc_free(&mut h, &mut slots, 2, 32, true).unwrap();
    assert!(slots.is_empty());
    let again = batch_alloc_free(&mut h, &mut slots, 2, 32, true).unwrap();
    // Last in first out hands out the same blocks in the same order in every round.
    assert_eq!(lifo, again);
    assert!(batch_alloc_free(&mut h, &mut slots, 2, 32, false).is_some());
    assert!(slots.is_empty());
    assert_eq!(BATCH, 1000);
}

#[test]
fn a_batch_that_does_not_fit_is_refused() {
    let mut h: SimHeap<64> = SimHeap::new(8, 4, 100);
    let mut slots = Vec::new();
    assert_eq!(batch_alloc_free(&mut h, &mut slots, 1, 4096, true), None);
    assert!(!slots.is_empty() && slots.len() < BATCH);
}

#[test]
fn the_vector_workload_folds_address_last_byte_and_length() {
    let last = ((VEC_TARGET - 1) & 0xff) as u32;
    let sum = mix(0, 0x1234) ^ last ^ VEC_TARGET as u32;
    assert_eq!(vec_push_growth(1, |_v: &Vec<u8>| 0x1234), sum);
    let next = mix(sum, 0x1234) ^ (last ^ 1) ^ VEC_TARGET as u32;
    assert_eq!(vec_push_growth(2, |_v: &Vec<u8>| 0x1234), next);
}

#[test]
fn doubling_and_large_blocks_come_back() {
    let mut h = heap();
    let one = realloc_doubling(&mut h, 1);
    assert!(one.is_some());
    assert_eq!(realloc_doubling(&mut h, 0), Some(0));
    assert!(large_alloc_free(&mut h, 10).is_some());
    // A memory of half a mebibyte cannot hold the end of the chain.
    let mut small: SimHeap<64> = SimHeap::new(8, 4, 100);
    assert_eq!(realloc_doubling(&mut small, 1), None);
    assert_eq!(large_alloc_free(&mut small, 5), None);
}

#[test]
fn churn_replaces_one_object_at_a_time() {
    let mut h = heap();
    let mut c = Churn::new();
    let first = churn_init(&mut h, &mut c).unwrap();
    let steps = churn(&mut h, &mut c, 500).unwrap();
    assert_ne!(first, steps);
    churn_fini(&mut h, &mut c);
    // The live set is gone, so it can be populated again, with the same draws.
    let mut again = Churn::new();
    assert!(churn_init(&mut h, &mut again).is_some());
    churn_fini(&mut h, &mut again);
    let mut small: SimHeap<64> = SimHeap::new(8, 4, 100);
    assert_eq!(churn_init(&mut small, &mut Churn::new()), None);
}

#[test]
fn churn_is_reproducible() {
    let run = || {
        let mut h = heap();
        let mut c = Churn::new();
        let a = churn_init(&mut h, &mut c).unwrap();
        let b = churn(&mut h, &mut c, 200).unwrap();
        (a, b, churn_fini(&mut h, &mut c))
    };
    assert_eq!(run(), run());
}

#[test]
fn the_first_bytes_are_folded_when_the_live_set_is_freed() {
    let mut h = heap();
    let mut c = Churn::new();
    churn_init(&mut h, &mut c).unwrap();
    let expected = (0..10_000u32).fold(0, |sum, i| sum ^ (i & 0xff));
    assert_eq!(churn_fini(&mut h, &mut c), expected);
}

#[test]
fn actions_stay_between_floor_and_capacity() {
    let mut rng = Rng::new(3);
    assert_eq!(next_action(&mut rng, 0, 7), Action::Allocate);
    assert_eq!(next_action(&mut rng, RA_FLOOR - 1, 7), Action::Allocate);
    assert_eq!(next_action(&mut rng, RA_CAP, 7), Action::Free);
    // Without the seventh choice nothing is resized.
    for _ in 0..10_000 {
        assert_ne!(next_action(&mut rng, RA_FLOOR, 6), Action::Resize);
    }
    let mut hits = [0usize; 3];
    for _ in 0..7_000 {
        match next_action(&mut rng, RA_FLOOR, 7) {
            Action::Allocate => hits[0] += 1,
            Action::Free => hits[1] += 1,
            Action::Resize => hits[2] += 1,
        }
    }
    assert!(hits[2] > 700 && hits[2] < 1300, "{hits:?}");
    assert!(hits[0] > 2600 && hits[1] > 2600, "{hits:?}");
}

#[test]
fn random_actions_run_and_free_everything() {
    let run = |resizing: bool| {
        let mut h = heap();
        let mut ra = RandomActions::new();
        let sum = if resizing {
            random_actions(&mut h, &mut ra, 2_000)
        } else {
            random_actions_norealloc(&mut h, &mut ra, 2_000)
        };
        (sum.unwrap(), random_actions_fini(&mut h, &mut ra))
    };
    assert_eq!(run(true), run(true));
    assert_ne!(run(true), run(false));
    let mut small: SimHeap<64> = SimHeap::new(5, 4, 100);
    let mut ra = RandomActions::new();
    assert_eq!(random_actions(&mut small, &mut ra, 2_000), None);
    random_actions_fini(&mut small, &mut ra);
}

#[test]
fn below_the_floor_every_action_allocates() {
    let mut h = heap();
    let mut ra = RandomActions::new();
    random_actions(&mut h, &mut ra, RA_FLOOR).unwrap();
    let expected = (0..RA_FLOOR as u32).fold(0, |sum, i| sum ^ (i & 0xff));
    assert_eq!(random_actions_fini(&mut h, &mut ra), expected);
}

#[test]
fn growth_is_folded_counted_and_refused() {
    let base = 0x40_0000;
    let mut mem = SimMemory::from_region(base, 64 * WASM_PAGE, 4, 100);
    assert_eq!(grow_pages(&mut mem, 2), Some(base + 4 * WASM_PAGE));
    assert_eq!(grow_pages(&mut mem, 100), None);
    let first = base + 6 * WASM_PAGE;
    let second = first + GROW_PAGES * WASM_PAGE;
    assert_eq!(memory_grow_only(&mut mem, 2), Some(mix(mix(0, first), second)));
    let mut counted = CountingMemory::new(mem);
    assert_eq!(counted.grow_calls(), 0);
    let third = second + GROW_PAGES * WASM_PAGE;
    assert_eq!(memory_grow_touch(&mut counted, 1), Some(mix(0, third)));
    assert_eq!(counted.grow_calls(), 1);
    assert_eq!(counted.load(third + 4096), 0);
    assert_eq!(memory_grow_touch(&mut counted, 1), None);
    assert_eq!(counted.grow_calls(), 2);
}

#[test]
fn touched_words_hold_the_round() {
    let base = 0x40_0000;
    let mut mem = SimMemory::from_region(base, 64 * WASM_PAGE, 4, 100);
    memory_grow_touch(&mut mem, 3).unwrap();
    for round in 0..3 {
        let region = base + (4 + round * GROW_PAGES) * WASM_PAGE;
        for k in [0, 1, 255] {
            assert_eq!(mem.load(region + k * 4096), round as u64);
        }
    }
}

fn parse(args: &[&str], positive: &[bool]) -> Result<Args, ArgError> {
    let args: Vec<String> = args.iter().map(|a| a.to_string()).collect();
    parse_args(&args, &positive.to_vec())
}

#[test]
fn the_command_line_is_read() {
    let plain = parse(&[], &[]).unwrap();
    assert_eq!(plain.reps, DEFAULT_REPS);
    assert!(!plain.json && plain.scale.is_none() && plain.only == u32::MAX);
    let all = parse(
        &["--json", "--reps", "64", "--scale", "0.5", "--only", "churn,alloc_free_32"],
        &[false, false, true, false, true, false, false],
    )
    .unwrap();
    assert!(all.json);
    assert_eq!((all.reps, all.scale, all.only), (64, Some(4), 0b1_0001));
}

#[test]
fn a_bad_command_line_is_refused() {
    for (args, positive) in [
        (vec!["--reps"], vec![false]),
        (vec!["--reps", "0"], vec![false, false]),
        (vec!["--reps", "65"], vec![false, true]),
        (vec!["--reps", "x"], vec![false, false]),
        (vec!["--scale"], vec![false]),
        (vec!["--scale", "-1"], vec![false, false]),
        (vec!["--only"], vec![false]),
        (vec!["--what"], vec![false]),
    ] {
        assert!(matches!(parse(&args, &positive), Err(ArgError::Usage)), "{args:?}");
    }
    match parse(&["--only", "churn,nope"], &[false, false]) {
        Err(ArgError::UnknownWorkload(name)) => assert_eq!(name, "nope"),
        other => panic!("{other:?}"),
    }
}

#[test]
fn workloads_are_found_by_their_names() {
    for i in 0..WORKLOADS {
        assert_eq!(position(workload(i).name), Some(i));
    }
    assert_eq!(position("nope"), None);
    assert_eq!(workload(2).ops_per_iter, BATCH);
    assert_eq!(workload(11).unit, "memory.grow 1 MiB + touch");
    assert_eq!(parse_only("memory_grow_touch"), Ok(1 << 11));
    assert_eq!(parse_only(""), Err(String::new()));
    assert_eq!(parse_count("42"), Some(42));
    assert_eq!(parse_count("+7"), Some(7));
    assert_eq!(parse_count(""), None);
    assert_eq!(parse_count("99999999999999999999999"), None);
}
