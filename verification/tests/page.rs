//! Pages: the header, the free list and the invariants.
use wasmalloc::backend::{Memory, SimMemory};
use wasmalloc::bins::{
    bin_size, block_start, blocks_per_page, kind_of_bin, PageKind, MAX_BIN, MAX_NATURAL_ALIGN,
    MEDIUM_MAX_BIN, PAGE_HEADER_RESERVE, SLICE_SIZE, SMALL_MAX_BIN, WORD,
};
use wasmalloc::page::{
    all_free, block_area, check_header, extend, has_free, header_of, in_full_queue,
    init, is_expandable, is_full, kind, kind_from_u8, kind_to_u8, pop, push, read,
    set_in_full_queue, validate, Page, FLAG_IN_FULL_QUEUE, HEADER_BYTES, MAX_EXTEND_SIZE,
};

const KINDS: [PageKind; 3] = [PageKind::Small, PageKind::Medium, PageKind::Large];

/// Bins exercised by the per-page tests: the ends of each kind and a spread in between.
const SAMPLE_BINS: [u8; 18] = [
    1,
    2,
    3,
    7,
    8,
    9,
    16,
    24,
    32,
    36,
    SMALL_MAX_BIN,
    SMALL_MAX_BIN + 1,
    44,
    MEDIUM_MAX_BIN,
    MEDIUM_MAX_BIN + 1,
    53,
    58,
    MAX_BIN,
];

/// Address of the regions, aligned for every page kind.
const REGION_BASE: usize = 64 * SLICE_SIZE;

/// A naturally aligned page of `kind` obtained through `grow`, as the heap would get it, so its
/// memory is zero.
struct Fixture {
    mem: SimMemory,
    kind: PageKind,
    page_addr: usize,
}

impl Fixture {
    fn new(kind: PageKind) -> Fixture {
        let slices = kind.page_size() / SLICE_SIZE;
        // The region is 4 MiB aligned. Skip to the next page-aligned slice and grow the page
        // there.
        let mut mem = SimMemory::from_region(REGION_BASE, 2 * slices * SLICE_SIZE, 1, 0);
        assert!(mem.skip_slices(slices - 1));
        let first = mem.grow(slices).unwrap();
        let page_addr = first * SLICE_SIZE;
        assert_eq!(page_addr % kind.page_size(), 0);
        Fixture {
            mem,
            kind,
            page_addr,
        }
    }

    fn for_bin(bin: u8) -> Fixture {
        Fixture::new(kind_of_bin(bin))
    }

    fn init(&mut self, bin: u8, zeroed: bool) -> usize {
        assert_eq!(kind_of_bin(bin), self.kind);
        init(&mut self.mem, self.page_addr, self.kind, bin, zeroed)
    }

    /// Fill the whole page with a byte pattern, modelling reuse of a dirty run.
    fn dirty(&mut self) {
        for off in (0..self.kind.page_size()).step_by(WORD) {
            self.mem.store(self.page_addr + off, 0xABAB_ABAB_ABAB_ABAB);
        }
    }
}

/// Pop a block, extending the page when the list is empty, as the heap's slow path does.
fn pop_or_extend(page: usize, mem: &mut SimMemory) -> Option<usize> {
    match pop(page, mem) {
        Some(b) => Some(b),
        None => {
            if extend(page, mem) {
                let b = pop(page, mem);
                assert!(b.is_some(), "extend succeeded but the list is still empty");
                b
            } else {
                None
            }
        }
    }
}

fn check(page: usize, mem: &SimMemory) {
    if let Err(e) = validate(page, mem) {
        panic!("page invariant violated: {e}: {:?}", read(page, mem));
    }
}

/// With `free_is_zero`, free blocks are zero beyond their link word and never-linked blocks are
/// entirely zero.
fn check_zero(page: usize, mem: &SimMemory) {
    let h = read(page, mem);
    if !h.free_is_zero {
        return;
    }
    let bs = h.block_size as usize;
    let start = page + h.block_start as usize;
    let mut cur = h.free;
    while cur != 0 {
        for off in (WORD..bs).step_by(WORD) {
            assert_eq!(mem.load(cur + off), 0, "free block dirty");
        }
        cur = mem.load(cur) as usize;
    }
    for i in h.capacity as usize..h.reserved as usize {
        for off in (0..bs).step_by(WORD) {
            assert_eq!(
                mem.load(start + i * bs + off),
                0,
                "never-linked block dirty"
            );
        }
    }
}

fn natural_align(block_size: usize) -> usize {
    (block_size & block_size.wrapping_neg()).min(MAX_NATURAL_ALIGN)
}

/// xorshift64: deterministic randomness with no dependencies.
struct XorShift(u64);

impl XorShift {
    fn next(&mut self) -> u64 {
        let mut x = self.0;
        x ^= x << 13;
        x ^= x >> 7;
        x ^= x << 17;
        self.0 = x;
        x
    }

    fn below(&mut self, n: usize) -> usize {
        (self.next() % n as u64) as usize
    }
}

#[test]
fn header_fits_the_reserve_with_hot_fields_first() {
    assert!(HEADER_BYTES <= PAGE_HEADER_RESERVE);
    assert_eq!(HEADER_BYTES, 32);
    let mut f = Fixture::for_bin(1);
    let page = f.init(1, true);
    // The list head is the first word, and everything a pop or a push touches lies in the header.
    assert!(extend(page, &mut f.mem));
    assert_eq!(f.mem.load(page), read(page, &f.mem).free as u64);
    let before: Vec<u64> = (0..HEADER_BYTES / WORD)
        .map(|i| f.mem.load(page + i * WORD))
        .collect();
    let b = pop(page, &mut f.mem).unwrap();
    assert_ne!(f.mem.load(page), before[0]);
    push(page, &mut f.mem, b);
    assert_eq!(f.mem.load(page), before[0]);
    for bin in 1..=MAX_BIN {
        assert!(block_start(bin_size(bin)) >= HEADER_BYTES);
    }
}

#[test]
fn kind_bytes_round_trip() {
    for k in KINDS {
        assert_eq!(kind_from_u8(kind_to_u8(k)), Some(k));
        let mut f = Fixture::new(k);
        let bin = match k {
            PageKind::Small => 1,
            PageKind::Medium => SMALL_MAX_BIN + 1,
            PageKind::Large => MAX_BIN,
        };
        let page = f.init(bin, true);
        assert_eq!(kind(page, &f.mem), k);
    }
    assert_eq!(kind_from_u8(3), None);
    assert_eq!(kind_from_u8(0xAB), None);
}

#[test]
fn init_writes_every_field_on_zeroed_and_dirty_pages() {
    for bin in SAMPLE_BINS {
        let mut f = Fixture::for_bin(bin);
        for zeroed in [true, false] {
            if !zeroed {
                f.dirty();
            }
            let page = f.init(bin, zeroed);
            assert_eq!(page, f.page_addr);
            let h = read(page, &f.mem);
            let bs = bin_size(bin);
            assert_eq!(h.free, 0);
            assert_eq!(h.used, 0);
            assert_eq!(h.capacity, 0);
            assert_eq!(h.reserved as usize, blocks_per_page(f.kind, bs));
            assert_eq!(h.block_start as usize, block_start(bs));
            assert_eq!(h.block_size as usize, bs);
            assert_eq!(h.free_is_zero, zeroed);
            assert_eq!(h.bin, bin);
            assert_eq!(kind_from_u8(h.kind), Some(f.kind));
            assert_eq!(h.flags, 0);
            assert_eq!(h.retire_expire, 0);
            assert_eq!(h.next, 0);
            assert_eq!(h.prev, 0);
            assert!(!has_free(page, &f.mem));
            assert!(all_free(page, &f.mem));
            assert!(!is_full(page, &f.mem));
            assert!(is_expandable(page, &f.mem));
            assert!(!in_full_queue(page, &f.mem));
            assert_eq!(kind(page, &f.mem), f.kind);
            assert_eq!(pop(page, &mut f.mem), None, "fresh page has no linked blocks");
            check(page, &f.mem);
            check_zero(page, &f.mem);
        }
    }
}

#[test]
fn pop_with_lazy_extension_hands_out_every_block_exactly_once() {
    for bin in 1..=MAX_BIN {
        let mut f = Fixture::for_bin(bin);
        let page = f.init(bin, true);
        let bs = bin_size(bin);
        let reserved = blocks_per_page(f.kind, bs);
        let max_extend = (MAX_EXTEND_SIZE / bs).max(1);
        let (start, end) = block_area(page, &f.mem);
        assert_eq!(start, f.page_addr + block_start(bs));
        assert_eq!(end, start + reserved * bs);
        assert!(end <= f.page_addr + f.kind.page_size());

        let mut seen = vec![false; reserved];
        let mut count = 0;
        let mut capacity_before = 0usize;
        while let Some(block) = pop_or_extend(page, &mut f.mem) {
            let h = read(page, &f.mem);
            if h.capacity as usize != capacity_before {
                // Each extension links min(remaining, MAX_EXTEND_SIZE / bs) blocks, at least 1.
                let step = h.capacity as usize - capacity_before;
                assert_eq!(
                    step,
                    (reserved - capacity_before).min(max_extend),
                    "bin {bin}"
                );
                capacity_before = h.capacity as usize;
            }
            assert!(
                block >= start && block < end,
                "bin {bin}: block outside area"
            );
            assert_eq!((block - start) % bs, 0, "bin {bin}: block misaligned");
            assert_eq!(block % natural_align(bs), 0, "bin {bin}: natural alignment");
            assert_eq!(block % WORD, 0);
            let index = (block - start) / bs;
            assert!(!seen[index], "bin {bin}: block {index} handed out twice");
            seen[index] = true;
            count += 1;
            assert_eq!(h.used as usize, count);
        }
        assert_eq!(count, reserved, "bin {bin}");
        assert!(seen.iter().all(|&s| s));
        let h = read(page, &f.mem);
        assert_eq!(h.capacity as usize, reserved);
        assert_eq!(h.free, 0);
        assert!(is_full(page, &f.mem));
        assert!(!is_expandable(page, &f.mem));
        assert!(!has_free(page, &f.mem));
        assert!(!all_free(page, &f.mem));
        assert!(!extend(page, &mut f.mem));
        assert_eq!(pop(page, &mut f.mem), None);
        check(page, &f.mem);
    }
}

#[test]
fn extend_links_at_most_max_extend_size_and_at_least_one_block() {
    for bin in 1..=MAX_BIN {
        let mut f = Fixture::for_bin(bin);
        let page = f.init(bin, true);
        let bs = bin_size(bin);
        let reserved = blocks_per_page(f.kind, bs);
        assert!(extend(page, &mut f.mem));
        let h = read(page, &f.mem);
        let expect = (MAX_EXTEND_SIZE / bs).max(1).min(reserved);
        assert_eq!(h.capacity as usize, expect, "bin {bin} ({bs} B)");
        assert!(h.capacity as usize * bs <= MAX_EXTEND_SIZE.max(bs));
        assert_eq!(h.free, f.page_addr + block_start(bs));
        assert_eq!(h.used, 0);
        check(page, &f.mem);
        check_zero(page, &f.mem);
    }
}

#[test]
fn push_is_lifo_in_sequential_and_random_order() {
    let bin = 4; // 32-byte blocks
    let mut f = Fixture::for_bin(bin);
    let page = f.init(bin, true);
    let n = 300;
    let blocks: Vec<usize> = (0..n)
        .map(|_| pop_or_extend(page, &mut f.mem).unwrap())
        .collect();
    check(page, &f.mem);

    for &b in &blocks {
        push(page, &mut f.mem, b);
        check(page, &f.mem);
    }
    assert!(all_free(page, &f.mem));
    assert!(!read(page, &f.mem).free_is_zero);
    for &b in blocks.iter().rev() {
        assert_eq!(pop(page, &mut f.mem), Some(b), "LIFO order");
    }
    assert_eq!(read(page, &f.mem).used as usize, n);

    let mut rng = XorShift(0x9E37_79B9_7F4A_7C15);
    let mut order = blocks.clone();
    for i in (1..order.len()).rev() {
        let j = rng.below(i + 1);
        order.swap(i, j);
    }
    for &b in &order {
        push(page, &mut f.mem, b);
    }
    check(page, &f.mem);
    assert!(all_free(page, &f.mem));
    for &b in order.iter().rev() {
        assert_eq!(
            pop(page, &mut f.mem),
            Some(b),
            "LIFO order after random pushes"
        );
    }
    check(page, &f.mem);
    // Pushing everything back leaves the page empty but still fully linked.
    for &b in &order {
        push(page, &mut f.mem, b);
    }
    let h = read(page, &f.mem);
    assert_eq!(h.used, 0);
    assert_eq!(
        h.capacity as usize,
        n.next_multiple_of(MAX_EXTEND_SIZE / bin_size(bin))
    );
    check(page, &f.mem);
}

#[test]
fn random_operation_sequences_preserve_the_invariants() {
    let bins: &[u8] = &[
            1,
            5,
            24,
            36,
            SMALL_MAX_BIN + 1,
            44,
            MEDIUM_MAX_BIN + 1,
            MAX_BIN,
        ];
    let steps = 4000;
    let mut rng = XorShift(0xD1B5_4A32_D192_ED03);
    for &bin in bins {
        let mut f = Fixture::for_bin(bin);
        let page = f.init(bin, true);
        let bs = bin_size(bin);
        let reserved = blocks_per_page(f.kind, bs);
        let (start, end) = block_area(page, &f.mem);
        let mut live: Vec<usize> = Vec::new();
        let mut pushed_once = false;
        for _ in 0..steps {
            let roll = rng.below(100);
            if roll < 45 {
                match pop(page, &mut f.mem) {
                    Some(b) => {
                        assert!(b >= start && b < end && (b - start) % bs == 0);
                        assert!(!live.contains(&b), "popped a live block");
                        live.push(b);
                    }
                    None => {
                        if !extend(page, &mut f.mem) {
                            assert_eq!(live.len(), reserved, "no blocks left but not full");
                            let b = live.swap_remove(rng.below(live.len()));
                            push(page, &mut f.mem, b);
                            pushed_once = true;
                        }
                    }
                }
            } else if roll < 85 {
                if !live.is_empty() {
                    let b = live.swap_remove(rng.below(live.len()));
                    push(page, &mut f.mem, b);
                    pushed_once = true;
                }
            } else {
                let could = is_expandable(page, &f.mem);
                assert_eq!(extend(page, &mut f.mem), could);
            }
            let h = read(page, &f.mem);
            assert_eq!(h.used as usize, live.len());
            assert_eq!(has_free(page, &f.mem), h.free != 0);
            assert_eq!(is_full(page, &f.mem), live.len() == reserved);
            assert_eq!(all_free(page, &f.mem), live.is_empty());
            assert_eq!(is_expandable(page, &f.mem), (h.capacity as usize) < reserved);
            assert_eq!(h.free_is_zero, !pushed_once);
            check(page, &f.mem);
            if bs <= 1024 {
                check_zero(page, &f.mem);
            }
        }
        // Drain and refill once more so the last state is also exercised end to end.
        for b in live.drain(..) {
            push(page, &mut f.mem, b);
        }
        assert!(all_free(page, &f.mem));
        check(page, &f.mem);
        let mut count = 0;
        while pop_or_extend(page, &mut f.mem).is_some() {
            count += 1;
        }
        assert_eq!(count, reserved);
        assert!(is_full(page, &f.mem));
        check(page, &f.mem);
    }
}

#[test]
fn header_of_recovers_the_page_from_every_block_of_every_kind() {
    for bin in 1..=MAX_BIN {
        let mut f = Fixture::for_bin(bin);
        let page = f.init(bin, true);
        let bs = bin_size(bin);
        let k = kind(page, &f.mem);
        assert_eq!(k, f.kind);
        while let Some(block) = pop_or_extend(page, &mut f.mem) {
            for off in [0, 1, WORD, bs / 2, bs - 1].into_iter().filter(|&o| o < bs) {
                assert_eq!(
                    header_of(k, block + off),
                    f.page_addr,
                    "bin {bin} offset {off}"
                );
            }
            assert_eq!(header_of(k, block).cast_signed(), f.page_addr.cast_signed());
        }
        // The mask must not be too coarse: the neighbouring pages map to themselves.
        assert_eq!(header_of(k, f.page_addr - 1), f.page_addr - k.page_size());
        assert_eq!(
            header_of(k, f.page_addr + k.page_size()),
            f.page_addr + k.page_size()
        );
    }
}

#[test]
fn free_is_zero_holds_until_the_first_push() {
    let bin = 12; // 128-byte blocks: several extensions and a cheap zero scan
    let mut f = Fixture::for_bin(bin);
    let page = f.init(bin, true);
    let bs = bin_size(bin);
    let mut blocks = Vec::new();
    while let Some(block) = pop_or_extend(page, &mut f.mem) {
        assert!(read(page, &f.mem).free_is_zero);
        // alloc_zeroed only needs to clear the link word.
        for off in (WORD..bs).step_by(WORD) {
            assert_eq!(f.mem.load(block + off), 0);
        }
        let link = f.mem.load(block) as usize;
        assert!(link == 0 || (link >= f.page_addr && link < f.page_addr + SLICE_SIZE));
        f.mem.store(block, 0);
        for off in (0..bs).step_by(WORD) {
            assert_eq!(f.mem.load(block + off), 0);
        }
        check_zero(page, &f.mem);
        blocks.push(block);
    }
    let b = blocks.pop().unwrap();
    f.mem.store(b + WORD, 0xDEAD_BEEF);
    push(page, &mut f.mem, b);
    assert!(!read(page, &f.mem).free_is_zero, "a pushed block may be dirty");
    for b in blocks {
        push(page, &mut f.mem, b);
    }
    assert!(!read(page, &f.mem).free_is_zero, "the flag never comes back");
    check(page, &f.mem);

    // A dirty page is never zero, and extend writes only the link words.
    let mut g = Fixture::for_bin(bin);
    g.dirty();
    let page = g.init(bin, false);
    assert!(!read(page, &g.mem).free_is_zero);
    assert!(extend(page, &mut g.mem));
    let h = read(page, &g.mem);
    let mut cur = h.free;
    let mut n = 0;
    while cur != 0 {
        for off in (WORD..bs).step_by(WORD) {
            assert_eq!(
                g.mem.load(cur + off),
                0xABAB_ABAB_ABAB_ABAB,
                "extend touched a payload byte"
            );
        }
        cur = g.mem.load(cur) as usize;
        n += 1;
    }
    assert_eq!(n, h.capacity as usize);
    let (start, _) = block_area(page, &g.mem);
    for off in (0..bs).step_by(WORD) {
        assert_eq!(
            g.mem.load(start + h.capacity as usize * bs + off),
            0xABAB_ABAB_ABAB_ABAB
        );
    }
    check(page, &g.mem);
}

#[test]
fn full_queue_flag_toggles_without_touching_other_fields() {
    let mut f = Fixture::for_bin(1);
    let page = f.init(1, true);
    let before = read(page, &f.mem);
    assert!(!in_full_queue(page, &f.mem));
    set_in_full_queue(page, &mut f.mem, true);
    assert!(in_full_queue(page, &f.mem));
    assert_eq!(read(page, &f.mem).flags, FLAG_IN_FULL_QUEUE);
    set_in_full_queue(page, &mut f.mem, true);
    assert!(in_full_queue(page, &f.mem));
    set_in_full_queue(page, &mut f.mem, false);
    assert!(!in_full_queue(page, &f.mem));
    set_in_full_queue(page, &mut f.mem, false);
    assert!(!in_full_queue(page, &f.mem));
    let after = read(page, &f.mem);
    assert_eq!(format!("{before:?}"), format!("{after:?}"));
}

#[test]
fn validate_rejects_corrupt_pages() {
    let bin = 4;
    let mut f = Fixture::for_bin(bin);
    let page = f.init(bin, true);
    let bs = bin_size(bin);
    let a = pop_or_extend(page, &mut f.mem).unwrap();
    let _b = pop_or_extend(page, &mut f.mem).unwrap();
    check(page, &f.mem);
    let good = read(page, &f.mem);
    // What follows from the bin is not stored: the header check sees it on the value.
    for (h, expect) in [
        (
            Page {
                used: good.capacity + 1,
                ..good
            },
            "used exceeds capacity",
        ),
        (
            Page {
                capacity: good.reserved + 1,
                ..good
            },
            "capacity exceeds reserved",
        ),
        (
            Page {
                block_size: good.block_size + 8,
                ..good
            },
            "block_size does not match bin",
        ),
        (
            Page {
                block_start: good.block_start + 8,
                ..good
            },
            "block_start does not match",
        ),
        (
            Page {
                reserved: good.reserved - 1,
                ..good
            },
            "reserved does not match",
        ),
        (
            Page {
                bin: good.bin + 1,
                ..good
            },
            "block_size does not match bin",
        ),
        (
            Page {
                bin: SMALL_MAX_BIN + 1,
                ..good
            },
            "kind does not match bin",
        ),
        (Page { bin: 0, ..good }, "bin out of range"),
        (Page { kind: 7, ..good }, "kind byte"),
    ] {
        let err = check_header(&h, page).expect_err(expect);
        assert!(err.contains(expect), "got {err:?}, expected {expect:?}");
    }
    assert_eq!(check_header(&good, page), Ok(()));
    let corrupt = |mem: &mut SimMemory, h: Page, link: u64, expect: &str| {
        wasmalloc::page::write(page, mem, &h);
        mem.store(good.free, link);
        let err = validate(page, mem).expect_err(expect);
        assert!(err.contains(expect), "got {err:?}, expected {expect:?}");
        wasmalloc::page::write(page, mem, &good);
        mem.store(good.free, (good.free + bs) as u64);
        check(page, mem);
    };
    let mem = &mut f.mem;
    let next = (good.free + bs) as u64;
    let with = |used: u32, free: usize| Page { used, free, ..good };
    corrupt(
        mem,
        with(good.capacity + 1, good.free),
        next,
        "used exceeds capacity",
    );
    corrupt(
        mem,
        Page {
            capacity: good.reserved + 1,
            ..good
        },
        next,
        "capacity exceeds reserved",
    );
    corrupt(mem, Page { bin: 0, ..good }, next, "bin out of range");
    corrupt(
        mem,
        with(good.used - 1, good.free),
        next,
        "used + free list length",
    );
    corrupt(mem, with(good.used + 1, good.free), next, "free list longer");
    corrupt(mem, with(good.used, a), next, "free list longer");
    corrupt(mem, good, good.free as u64, "free list longer");
    corrupt(mem, good, (good.free + 4) as u64, "misaligned");
    corrupt(
        mem,
        good,
        page as u64,
        "outside the initialised block area",
    );
    corrupt(mem, good, a as u64, "free list longer");
    corrupt(
        mem,
        with(good.used, page + SLICE_SIZE),
        next,
        "outside",
    );
}
