//! The model tester: its patterns, clean runs against a correct allocator, and deliberately broken
//! allocators, to show that the model catches each kind of bug, and how quickly.
use std::collections::HashMap;

use wasmalloc::layout::Layout;
use wasmalloc::testing::model::{
    run, run_with, Failure, FailureKind, Profile, RawAlloc, Stats, DENSE_PREFIX, STRIDE,
};
use wasmalloc::testing::pattern::{fill, spans, verify, Mismatch};
use wasmalloc::testing::report::{describe, failure_kind, Call, Finding};
use wasmalloc::testing::rng::ByteSource;

/// Bytes of address space of a [`Host`].
const SPACE: usize = 1 << 31;

/// First address of a [`Host`].
const BASE: usize = 1 << 20;

/// A correct allocator: powers of two from a flat memory, recycled last in, first out.
struct Host {
    words: Vec<u64>,
    next: usize,
    free: HashMap<(usize, usize), Vec<usize>>,
}

impl Host {
    fn new() -> Self {
        Host {
            words: vec![0; SPACE / 8],
            next: BASE,
            free: HashMap::new(),
        }
    }

    fn class(layout: Layout) -> (usize, usize) {
        (
            layout.size().next_power_of_two().max(8),
            layout.align().max(8),
        )
    }

    /// A block and whether it was handed out before.
    fn take(&mut self, layout: Layout) -> Option<(usize, bool)> {
        let class = Self::class(layout);
        if let Some(a) = self.free.get_mut(&class).and_then(|l| l.pop()) {
            return Some((a, true));
        }
        let a = self.next.next_multiple_of(class.1);
        if a + class.0 > BASE + SPACE {
            return None;
        }
        self.next = a + class.0;
        Some((a, false))
    }

    fn slot(block: usize, offset: usize) -> usize {
        (block + offset - BASE) / 8
    }
}

impl RawAlloc for Host {
    fn allocate(&mut self, layout: Layout) -> Option<usize> {
        self.take(layout).map(|(a, _)| a)
    }

    fn alloc_zeroed(&mut self, layout: Layout) -> Option<usize> {
        let (a, used) = self.take(layout)?;
        if used {
            self.words[Self::slot(a, 0)..Self::slot(a, layout.size() + 7)].fill(0);
        }
        Some(a)
    }

    fn dealloc(&mut self, block: usize, layout: Layout) {
        self.free.entry(Self::class(layout)).or_default().push(block);
    }

    fn realloc(&mut self, block: usize, layout: Layout, new_size: usize) -> Option<usize> {
        let keep = layout.size().min(new_size);
        realloc_by_copy(self, block, layout, new_size, keep)
    }

    fn footprint_bytes(&self) -> Option<usize> {
        None
    }

    fn read_word(&self, block: usize, offset: usize) -> u64 {
        self.words[Self::slot(block, offset)]
    }

    fn write_word(&mut self, block: usize, offset: usize, value: u64) {
        self.words[Self::slot(block, offset)] = value;
    }

    fn read_byte(&self, block: usize, offset: usize) -> u8 {
        self.words[Self::slot(block, offset)].to_le_bytes()[(block + offset) % 8]
    }

    fn write_byte(&mut self, block: usize, offset: usize, value: u8) {
        let i = Self::slot(block, offset);
        let mut bytes = self.words[i].to_le_bytes();
        bytes[(block + offset) % 8] = value;
        self.words[i] = u64::from_le_bytes(bytes);
    }
}

/// `realloc` as allocate, copy `keep` bytes, free: the mutants that do not touch realloc use it
/// with the full `min(old, new)`, so their realloc inherits their alloc's misbehaviour.
fn realloc_by_copy<A: RawAlloc>(
    a: &mut A,
    block: usize,
    layout: Layout,
    new_size: usize,
    keep: usize,
) -> Option<usize> {
    let new_layout = Layout::from_size_align(new_size, layout.align()).unwrap();
    let new = a.allocate(new_layout)?;
    let mut i = 0;
    while i + 8 <= keep {
        let w = a.read_word(block, i);
        a.write_word(new, i, w);
        i += 8;
    }
    while i < keep {
        let b = a.read_byte(block, i);
        a.write_byte(new, i, b);
        i += 1;
    }
    a.dealloc(block, layout);
    Some(new)
}

/// A run that must be clean.
fn check<A: RawAlloc>(alloc: &mut A, seed: u64, ops: usize, profile: Profile) -> Stats {
    match run(alloc, seed, ops, profile) {
        Ok(stats) => stats,
        Err(failure) => panic!("{}", failure.report()),
    }
}

fn covered(len: usize, limit: usize) -> Vec<bool> {
    let mut c = vec![false; len];
    let mut it = spans(len, limit);
    while let Some((a, b)) = it.next() {
        assert!(
            a % 8 == 0 && a < b && b <= limit,
            "span [{a}, {b}) for len {len}"
        );
        c[a..b].iter_mut().for_each(|x| *x = true);
    }
    c
}

#[test]
fn spans_are_dense_for_small_blocks_and_sampled_for_large_ones() {
    for len in [1, 7, 8, 9, 100, DENSE_PREFIX - 1, DENSE_PREFIX] {
        assert!(covered(len, len).iter().all(|&x| x), "len {len} not dense");
    }
    let len = DENSE_PREFIX + 3 * STRIDE + 29;
    let c = covered(len, len);
    assert!(c[..DENSE_PREFIX].iter().all(|&x| x));
    let tail = (len - 1) & !7;
    for s in (DENSE_PREFIX..len).step_by(STRIDE) {
        assert!(c[s..s + 8].iter().all(|&x| x), "stride word at {s}");
        if s + 8 < tail {
            assert!(!c[s + 8], "byte after the stride word at {s}");
        }
    }
    assert!(c[tail..].iter().all(|&x| x), "tail bytes");
    assert!(!c[tail - 1], "byte before the tail word");
    // A prefix check covers only whole stride words inside the prefix and never the tail, whose
    // position depended on the old length.
    let p = covered(len, DENSE_PREFIX + STRIDE + 12);
    assert!(p[DENSE_PREFIX + STRIDE..DENSE_PREFIX + STRIDE + 8]
        .iter()
        .all(|&x| x));
    assert!(!p[DENSE_PREFIX + STRIDE + 8..].iter().any(|&x| x));
    let q = covered(len, DENSE_PREFIX + STRIDE + 4);
    assert!(!q[DENSE_PREFIX + 8..].iter().any(|&x| x));
}

/// A block holding `bytes`.
fn block_of(h: &mut Host, bytes: &[u8]) -> usize {
    let a = h
        .allocate(Layout::from_size_align(bytes.len(), 8).unwrap())
        .unwrap();
    for (i, &b) in bytes.iter().enumerate() {
        h.write_byte(a, i, b);
    }
    a
}

fn bytes_of(h: &Host, block: usize, len: usize) -> Vec<u8> {
    (0..len).map(|i| h.read_byte(block, i)).collect()
}

#[test]
fn fill_and_verify_agree_and_catch_single_byte_changes() {
    let len = DENSE_PREFIX + 2 * STRIDE + 5;
    let mut h = Host::new();
    let a = block_of(&mut h, &vec![0u8; len]);
    let seed = 0xDEAD_BEEF_CAFE_F00D;
    fill(&mut h, a, len, seed);
    assert_eq!(verify(&h, a, len, len, Some(seed)), Ok(()));
    let buf = bytes_of(&h, a, len);
    assert!(buf[..DENSE_PREFIX].iter().any(|&b| b != 0));
    for (offset, sampled) in [
        (0, true),
        (DENSE_PREFIX - 1, true),
        (DENSE_PREFIX + 3, true),
        (DENSE_PREFIX + STRIDE - 1, false),
        (len - 1, true),
    ] {
        let mut copy = buf.clone();
        copy[offset] ^= 0x5A;
        let c = block_of(&mut h, &copy);
        let r = verify(&h, c, len, len, Some(seed));
        if sampled {
            let m = r.expect_err("change at a sampled offset must be caught");
            assert_eq!(m.offset, offset);
            assert_eq!(m.expected, buf[offset]);
            assert_eq!(m.found, copy[offset]);
        } else {
            assert_eq!(r, Ok(()), "offset {offset} is deliberately unsampled");
        }
    }
    // A different seed or a shifted copy never matches.
    assert!(verify(&h, a, len, len, Some(seed + 1)).is_err());
    let mut shifted = vec![0u8; len];
    shifted[8..].copy_from_slice(&buf[..len - 8]);
    let s = block_of(&mut h, &shifted);
    assert!(verify(&h, s, len, len, Some(seed)).is_err());
}

#[test]
fn prefix_of_a_resized_block_verifies_against_the_old_pattern() {
    let old_len = DENSE_PREFIX + 5 * STRIDE + 100;
    let mut h = Host::new();
    let a = block_of(&mut h, &vec![0xFFu8; old_len]);
    fill(&mut h, a, old_len, 7);
    let buf = bytes_of(&h, a, old_len);
    for keep in [
        1,
        8,
        9,
        1000,
        DENSE_PREFIX,
        DENSE_PREFIX + STRIDE + 8,
        old_len - 1,
        old_len,
    ] {
        let mut shrunk = buf[..keep].to_vec();
        let s = block_of(&mut h, &shrunk);
        assert_eq!(verify(&h, s, old_len, keep, Some(7)), Ok(()));
        shrunk[keep - 1] ^= 1;
        // The last kept byte is checked when it lies in the dense prefix, in a stride word, or in
        // the tail word (only when the whole block is kept).
        let in_stride_word = keep > DENSE_PREFIX && (keep - 1 - DENSE_PREFIX) % STRIDE < 8;
        let caught = keep <= DENSE_PREFIX || in_stride_word || keep == old_len;
        let s = block_of(&mut h, &shrunk);
        let r = verify(&h, s, old_len, keep, Some(7));
        assert_eq!(r.is_err(), caught, "keep {keep}");
    }
}

#[test]
fn zero_check_reads_the_same_positions() {
    let len = DENSE_PREFIX + STRIDE + 8;
    let mut h = Host::new();
    let a = block_of(&mut h, &vec![0u8; len]);
    assert_eq!(verify(&h, a, len, len, None), Ok(()));
    h.write_byte(a, DENSE_PREFIX + STRIDE + 2, 1);
    let m = verify(&h, a, len, len, None).unwrap_err();
    assert_eq!(
        (m.offset, m.expected, m.found),
        (DENSE_PREFIX + STRIDE + 2, 0, 1)
    );
}

#[test]
fn every_profile_runs_clean_against_system() {
    for profile in Profile::all() {
        let stats = check(&mut Host::new(), 0x5EED, 1500, profile);
        assert!(stats.ops == 1500, "{}: {stats:?}", profile.name);
        assert!(stats.allocs + stats.zeroed_allocs > 0);
        assert!(stats.deallocs >= stats.allocs + stats.zeroed_allocs);
        assert_eq!(stats.peak_footprint_bytes, None);
    }
}

#[test]
fn same_seed_same_stats_different_seed_different_stats() {
    let a = check(&mut Host::new(), 1, 3000, Profile::mixed());
    let b = check(&mut Host::new(), 1, 3000, Profile::mixed());
    let c = check(&mut Host::new(), 2, 3000, Profile::mixed());
    assert_eq!(a, b);
    assert_ne!(a, c);
}

#[test]
fn batch_profiles_free_everything_between_batches() {
    for profile in [Profile::lifo_batches(), Profile::fifo_batches()] {
        let stats = check(&mut Host::new(), 9, 5000, profile);
        assert!(stats.peak_live_blocks <= profile.batch, "{stats:?}");
        assert!(stats.deallocs > 0);
    }
}

#[test]
fn a_dry_entropy_source_ends_the_run_cleanly() {
    let bytes: Vec<u8> = (0..300u32)
        .flat_map(|i| (i * 0x9E37).to_le_bytes())
        .collect();
    let mut source = ByteSource::new(&bytes);
    let stats = run_with(&mut Host::new(), &mut source, usize::MAX, Profile::mixed()).unwrap();
    assert!(stats.ops > 0 && stats.ops < 300);
    assert_eq!(source.remaining() / 4, 0, "the source was consumed");
}

#[test]
fn failure_report_names_seed_profile_and_operation() {
    let f = Failure {
        kind: FailureKind::Overlap,
        op_index: 42,
        profile: "mixed",
        seed: Some(7),
        detail: String::from("x"),
    };
    let s = f.report();
    assert!(
        s.contains("Overlap at op 42 of profile mixed (seed 0x7): x"),
        "{s}"
    );
    assert!(s.contains("Profile::MIXED"), "{s}");
}

#[test]
fn a_report_without_a_seed_is_one_sentence() {
    let f = Failure {
        kind: FailureKind::AllocFailed,
        op_index: 0,
        profile: "large_heavy",
        seed: None,
        detail: String::from("nothing left"),
    };
    assert_eq!(
        f.report(),
        "AllocFailed at op 0 of profile large_heavy: nothing left"
    );
    let f = Failure { seed: Some(255), ..f };
    assert_eq!(
        f.report(),
        "AllocFailed at op 0 of profile large_heavy (seed 0xff): nothing left. Reproduce with \
         model::run(alloc, 0xff, ops, Profile::LARGE_HEAVY)"
    );
}

#[test]
fn every_finding_has_a_kind_and_a_description() {
    let layout = Layout::from_size_align(24, 8).unwrap();
    let at = Mismatch {
        offset: 3,
        expected: 0,
        found: 0xA1,
    };
    for (finding, kind) in [
        (
            Finding::Misaligned {
                call: Call::Alloc,
                start: 0x1004,
                layout,
            },
            FailureKind::Misaligned,
        ),
        (
            Finding::Wraps {
                call: Call::Realloc,
                start: usize::MAX - 7,
                layout,
            },
            FailureKind::Overlap,
        ),
        (
            Finding::Overlaps {
                call: Call::AllocZeroed,
                start: 0x1000,
                layout,
                other: 0x1010,
                other_end: 0x1020,
            },
            FailureKind::Overlap,
        ),
        (
            Finding::Refused {
                call: Call::Alloc,
                layout,
                live_bytes: 7,
            },
            FailureKind::AllocFailed,
        ),
        (
            Finding::NotZeroed {
                start: 0x1000,
                layout,
                at,
            },
            FailureKind::NotZeroed,
        ),
        (
            Finding::Corrupted {
                start: 0x1000,
                layout,
                at,
                resizing: true,
            },
            FailureKind::Corrupted,
        ),
        (
            Finding::RefusedResize {
                start: 0x1000,
                layout,
                new_size: 9,
                live_bytes: 7,
            },
            FailureKind::AllocFailed,
        ),
        (
            Finding::LostBytes {
                start: 0x1000,
                layout,
                new_size: 9,
                moved: 0x2000,
                at,
            },
            FailureKind::ReallocLostBytes,
        ),
    ] {
        assert_eq!(failure_kind(&finding), kind);
        assert!(!describe(&finding).is_empty());
    }
    let text = describe(&Finding::NotZeroed {
        start: 0x1000,
        layout,
        at,
    });
    assert!(text.contains("0x1000") && text.contains("0xa1"), "{text}");
}

/// The model must accept a correct allocator on every step, so a failure here is a bug in the
/// tester. The counters are checked too: every block the model created must have been freed
/// exactly once by the end of the run.
fn exercise(profile: Profile, ops: usize) {
    for seed in 1..=2 {
        let stats = check(&mut Host::new(), seed, ops, profile);
        assert_eq!(stats.ops, ops, "{}: {stats:?}", profile.name);
        assert!(
            stats.allocs > 0 && stats.zeroed_allocs > 0,
            "{}: {stats:?}",
            profile.name
        );
        assert_eq!(
            stats.deallocs,
            stats.allocs + stats.zeroed_allocs,
            "{}: every block is freed exactly once: {stats:?}",
            profile.name
        );
        assert!(stats.peak_live_bytes <= profile.max_live_bytes, "{stats:?}");
        assert_eq!(stats.peak_footprint_bytes, None, "no footprint is reported");
    }
}

#[test]
fn model_system_small_churn() {
    exercise(Profile::small_churn(), 50_000);
}

#[test]
fn model_system_mixed() {
    exercise(Profile::mixed(), 30_000);
}

#[test]
fn model_system_large_heavy() {
    exercise(Profile::large_heavy(), 3_000);
}

#[test]
fn model_system_align_heavy() {
    exercise(Profile::align_heavy(), 30_000);
}

#[test]
fn model_system_lifo_batches() {
    exercise(Profile::lifo_batches(), 50_000);
}

#[test]
fn model_system_fifo_batches() {
    exercise(Profile::fifo_batches(), 50_000);
}

/// Off by eight for every alignment above eight.
struct Misaligned(Host);

impl Misaligned {
    fn padded(layout: Layout) -> Layout {
        Layout::from_size_align(layout.size() + 8, layout.align()).unwrap()
    }

    fn shift(layout: Layout) -> usize {
        if layout.align() <= 8 {
            0
        } else {
            8
        }
    }
}

impl RawAlloc for Misaligned {
    fn allocate(&mut self, layout: Layout) -> Option<usize> {
        let p = self.0.allocate(Self::padded(layout))?;
        Some(p + Self::shift(layout))
    }

    fn alloc_zeroed(&mut self, layout: Layout) -> Option<usize> {
        let p = self.0.alloc_zeroed(Self::padded(layout))?;
        Some(p + Self::shift(layout))
    }

    fn dealloc(&mut self, block: usize, layout: Layout) {
        self.0
            .dealloc(block - Self::shift(layout), Self::padded(layout));
    }

    fn realloc(&mut self, block: usize, layout: Layout, new_size: usize) -> Option<usize> {
        let keep = layout.size().min(new_size);
        realloc_by_copy(self, block, layout, new_size, keep)
    }

    fn footprint_bytes(&self) -> Option<usize> {
        None
    }

    fn read_word(&self, block: usize, offset: usize) -> u64 {
        self.0.read_word(block, offset)
    }

    fn write_word(&mut self, block: usize, offset: usize, value: u64) {
        self.0.write_word(block, offset, value)
    }

    fn read_byte(&self, block: usize, offset: usize) -> u8 {
        self.0.read_byte(block, offset)
    }

    fn write_byte(&mut self, block: usize, offset: usize, value: u8) {
        self.0.write_byte(block, offset, value)
    }
}

/// Every `PERIOD`th allocation returns a block that is still live, if one is big enough and
/// suitably aligned. Blocks are reference counted so the mutant itself never double-frees.
struct DoubleHandOut {
    host: Host,
    count: usize,
    /// Live blocks, oldest first.
    live: Vec<usize>,
    /// Address to (layout it was really allocated with, times handed out and not yet freed).
    refs: HashMap<usize, (Layout, usize)>,
}

impl DoubleHandOut {
    const PERIOD: usize = 25;

    fn new() -> Self {
        DoubleHandOut {
            host: Host::new(),
            count: 0,
            live: Vec::new(),
            refs: HashMap::new(),
        }
    }

    fn duplicate(&mut self, layout: Layout) -> Option<usize> {
        self.count += 1;
        if self.count % Self::PERIOD != 0 {
            return None;
        }
        let p = *self.live.iter().rev().find(|&&addr| {
            let (real, _) = self.refs[&addr];
            real.size() >= layout.size() && addr % layout.align() == 0
        })?;
        self.refs.get_mut(&p).unwrap().1 += 1;
        Some(p)
    }

    fn record(&mut self, p: usize, layout: Layout) {
        self.live.push(p);
        self.refs.insert(p, (layout, 1));
    }
}

impl RawAlloc for DoubleHandOut {
    fn allocate(&mut self, layout: Layout) -> Option<usize> {
        if let Some(dup) = self.duplicate(layout) {
            return Some(dup);
        }
        let p = self.host.allocate(layout)?;
        self.record(p, layout);
        Some(p)
    }

    fn alloc_zeroed(&mut self, layout: Layout) -> Option<usize> {
        if let Some(dup) = self.duplicate(layout) {
            return Some(dup);
        }
        let p = self.host.alloc_zeroed(layout)?;
        self.record(p, layout);
        Some(p)
    }

    fn dealloc(&mut self, block: usize, _layout: Layout) {
        let (real, refs) = self
            .refs
            .get_mut(&block)
            .expect("freeing a block we handed out");
        *refs -= 1;
        if *refs == 0 {
            let real = *real;
            self.refs.remove(&block);
            self.live.retain(|&p| p != block);
            self.host.dealloc(block, real);
        }
    }

    fn realloc(&mut self, block: usize, layout: Layout, new_size: usize) -> Option<usize> {
        let keep = layout.size().min(new_size);
        realloc_by_copy(self, block, layout, new_size, keep)
    }

    fn footprint_bytes(&self) -> Option<usize> {
        None
    }

    fn read_word(&self, block: usize, offset: usize) -> u64 {
        self.host.read_word(block, offset)
    }

    fn write_word(&mut self, block: usize, offset: usize, value: u64) {
        self.host.write_word(block, offset, value)
    }

    fn read_byte(&self, block: usize, offset: usize) -> u8 {
        self.host.read_byte(block, offset)
    }

    fn write_byte(&mut self, block: usize, offset: usize, value: u8) {
        self.host.write_byte(block, offset, value)
    }
}

/// `realloc` copies one byte too few.
struct ReallocDropsLastByte(Host);

impl RawAlloc for ReallocDropsLastByte {
    fn allocate(&mut self, layout: Layout) -> Option<usize> {
        self.0.allocate(layout)
    }

    fn alloc_zeroed(&mut self, layout: Layout) -> Option<usize> {
        self.0.alloc_zeroed(layout)
    }

    fn dealloc(&mut self, block: usize, layout: Layout) {
        self.0.dealloc(block, layout)
    }

    fn realloc(&mut self, block: usize, layout: Layout, new_size: usize) -> Option<usize> {
        let keep = layout.size().min(new_size) - 1;
        realloc_by_copy(self, block, layout, new_size, keep)
    }

    fn footprint_bytes(&self) -> Option<usize> {
        None
    }

    fn read_word(&self, block: usize, offset: usize) -> u64 {
        self.0.read_word(block, offset)
    }

    fn write_word(&mut self, block: usize, offset: usize, value: u64) {
        self.0.write_word(block, offset, value)
    }

    fn read_byte(&self, block: usize, offset: usize) -> u8 {
        self.0.read_byte(block, offset)
    }

    fn write_byte(&mut self, block: usize, offset: usize, value: u8) {
        self.0.write_byte(block, offset, value)
    }
}

/// `alloc_zeroed` is plain `allocate`.
struct SkipsZeroing(Host);

impl RawAlloc for SkipsZeroing {
    fn allocate(&mut self, layout: Layout) -> Option<usize> {
        self.0.allocate(layout)
    }

    fn alloc_zeroed(&mut self, layout: Layout) -> Option<usize> {
        self.0.allocate(layout)
    }

    fn dealloc(&mut self, block: usize, layout: Layout) {
        self.0.dealloc(block, layout)
    }

    fn realloc(&mut self, block: usize, layout: Layout, new_size: usize) -> Option<usize> {
        self.0.realloc(block, layout, new_size)
    }

    fn footprint_bytes(&self) -> Option<usize> {
        None
    }

    fn read_word(&self, block: usize, offset: usize) -> u64 {
        self.0.read_word(block, offset)
    }

    fn write_word(&mut self, block: usize, offset: usize, value: u64) {
        self.0.write_word(block, offset, value)
    }

    fn read_byte(&self, block: usize, offset: usize) -> u8 {
        self.0.read_byte(block, offset)
    }

    fn write_byte(&mut self, block: usize, offset: usize, value: u8) {
        self.0.write_byte(block, offset, value)
    }
}

/// Every `PERIOD`th free flips the first byte of some other live block, the way a stray free-list
/// write into a live block would.
struct Scribbler {
    host: Host,
    frees: usize,
    live: Vec<usize>,
}

impl Scribbler {
    const PERIOD: usize = 10;

    fn new() -> Self {
        Scribbler {
            host: Host::new(),
            frees: 0,
            live: Vec::new(),
        }
    }
}

impl RawAlloc for Scribbler {
    fn allocate(&mut self, layout: Layout) -> Option<usize> {
        let p = self.host.allocate(layout)?;
        self.live.push(p);
        Some(p)
    }

    fn alloc_zeroed(&mut self, layout: Layout) -> Option<usize> {
        let p = self.host.alloc_zeroed(layout)?;
        self.live.push(p);
        Some(p)
    }

    fn dealloc(&mut self, block: usize, layout: Layout) {
        self.live.retain(|&p| p != block);
        self.frees += 1;
        if self.frees % Self::PERIOD == 0 {
            if let Some(&victim) = self.live.last() {
                let b = self.host.read_byte(victim, 0);
                self.host.write_byte(victim, 0, b ^ 0x80);
            }
        }
        self.host.dealloc(block, layout)
    }

    fn realloc(&mut self, block: usize, layout: Layout, new_size: usize) -> Option<usize> {
        let keep = layout.size().min(new_size);
        realloc_by_copy(self, block, layout, new_size, keep)
    }

    fn footprint_bytes(&self) -> Option<usize> {
        None
    }

    fn read_word(&self, block: usize, offset: usize) -> u64 {
        self.host.read_word(block, offset)
    }

    fn write_word(&mut self, block: usize, offset: usize, value: u64) {
        self.host.write_word(block, offset, value)
    }

    fn read_byte(&self, block: usize, offset: usize) -> u8 {
        self.host.read_byte(block, offset)
    }

    fn write_byte(&mut self, block: usize, offset: usize, value: u8) {
        self.host.write_byte(block, offset, value)
    }
}

/// Run `make()` against `profile` for several seeds; every run must fail with one of `kinds`
/// within `bound` operations.
fn detect<A: RawAlloc>(
    make: impl Fn() -> A,
    profile: Profile,
    kinds: &[FailureKind],
    bound: usize,
) {
    for seed in 1..=5 {
        let mut mutant = make();
        let f = run(&mut mutant, seed, bound, profile).expect_err("the mutant must be caught");
        assert!(kinds.contains(&f.kind), "{}", f.report());
        assert!(f.op_index < bound, "{}", f.report());
        assert_eq!(f.seed, Some(seed));
    }
}

#[test]
fn misaligned_blocks_are_caught_on_the_first_aligned_request() {
    detect(
        || Misaligned(Host::new()),
        Profile::align_heavy(),
        &[FailureKind::Misaligned],
        20,
    );
    detect(
        || Misaligned(Host::new()),
        Profile::mixed(),
        &[FailureKind::Misaligned],
        200,
    );
}

#[test]
fn a_block_handed_out_twice_is_caught_as_an_overlap() {
    detect(
        DoubleHandOut::new,
        Profile::small_churn(),
        &[FailureKind::Overlap],
        4 * DoubleHandOut::PERIOD,
    );
    detect(
        DoubleHandOut::new,
        Profile::mixed(),
        &[FailureKind::Overlap],
        200,
    );
}

#[test]
fn realloc_losing_its_last_byte_is_caught() {
    detect(
        || ReallocDropsLastByte(Host::new()),
        Profile::mixed(),
        &[FailureKind::ReallocLostBytes],
        200,
    );
    detect(
        || ReallocDropsLastByte(Host::new()),
        Profile::small_churn(),
        &[FailureKind::ReallocLostBytes],
        200,
    );
}

#[test]
fn alloc_zeroed_that_does_not_zero_is_caught_once_memory_is_recycled() {
    detect(
        || SkipsZeroing(Host::new()),
        Profile::small_churn(),
        &[FailureKind::NotZeroed],
        5000,
    );
}

#[test]
fn a_write_into_a_live_block_is_caught_when_the_block_is_next_checked() {
    // The scribble lands on the newest live block, which during a realloc is the block realloc
    // just allocated: the model then sees the damage as lost bytes rather than corruption.
    let kinds = [FailureKind::Corrupted, FailureKind::ReallocLostBytes];
    detect(Scribbler::new, Profile::small_churn(), &kinds, 500);
    detect(Scribbler::new, Profile::lifo_batches(), &kinds, 500);
}
