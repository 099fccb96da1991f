//! Bins, page kinds and classes.
use wasmalloc::bins::{
    bin, bin_size, block_start, blocks_per_page, classify, direct_index, kind_of_bin, Class, PageKind,
    BIN_COUNT, BIN_HUGE, DIRECT_ENTRIES, DIRECT_MAX_SIZE, LARGE_MAX_OBJ_SIZE, MAX_BIN,
    MAX_NATURAL_ALIGN, MEDIUM_MAX_BIN, MEDIUM_MAX_OBJ_SIZE, PAGE_HEADER_RESERVE, SLICE_SIZE,
    SMALL_MAX_BIN, SMALL_MAX_OBJ_SIZE, SMALL_PAGE_SIZE, WORD,
};
use wasmalloc::layout::Layout;

/// mimalloc's `MI_PAGE_QUEUES_EMPTY` table (init.c) read with an 8-byte word. Index 0 is a
/// placeholder, as in mimalloc.
const REFERENCE_BIN_SIZES: [usize; BIN_COUNT] = [
    8, 8, 16, 24, 32, 40, 48, 56, 64, 80, 96, 112, 128, 160, 192, 224, 256, 320, 384, 448, 512,
    640, 768, 896, 1024, 1280, 1536, 1792, 2048, 2560, 3072, 3584, 4096, 5120, 6144, 7168,
    8192, 10240, 12288, 14336, 16384, 20480, 24576, 28672, 32768, 40960, 49152, 57344, 65536,
    81920, 98304, 114688, 131072, 163840, 196608, 229376, 262144, 327680, 393216, 458752,
    524288,
];

fn largest_pow2_divisor(s: usize) -> usize {
    s & s.wrapping_neg()
}

#[test]
fn bin_sizes_match_mimalloc_table() {
    for b in 1..=MAX_BIN {
        assert_eq!(bin_size(b), REFERENCE_BIN_SIZES[b as usize], "bin {b}");
    }
}

#[test]
fn bins_are_tight_and_monotone() {
    let mut prev = bin(1);
    assert_eq!(prev, 1);
    assert_eq!(bin(0), 1);
    for s in 1..=LARGE_MAX_OBJ_SIZE {
        let b = bin(s);
        assert!((1..=MAX_BIN).contains(&b), "size {s} -> bin {b}");
        assert!(b >= prev, "bin not monotone at {s}");
        assert!(bin_size(b) >= s, "bin {b} too small for {s}");
        let waste_bound = if s <= 64 { 7 } else { s / 4 };
        assert!(
            bin_size(b) <= s + waste_bound,
            "size {s} -> {} wastes too much",
            bin_size(b)
        );
        prev = b;
    }
    assert_eq!(bin(LARGE_MAX_OBJ_SIZE + 1), BIN_HUGE);
    assert_eq!(bin(usize::MAX), BIN_HUGE);
    for b in 1..=MAX_BIN {
        assert_eq!(bin(bin_size(b)), b, "round trip for bin {b}");
        if b < MAX_BIN {
            assert_eq!(bin(bin_size(b) + 1), b + 1, "next size after bin {b}");
        }
    }
}

#[test]
fn bin_size_is_multiple_of_natural_alignment() {
    for s in 1..=LARGE_MAX_OBJ_SIZE {
        let bs = bin_size(bin(s));
        assert_eq!(bs % largest_pow2_divisor(s), 0, "size {s} -> bin size {bs}");
    }
}

#[test]
fn kind_boundaries() {
    assert_eq!(kind_of_bin(1), PageKind::Small);
    assert_eq!(kind_of_bin(SMALL_MAX_BIN), PageKind::Small);
    assert_eq!(kind_of_bin(SMALL_MAX_BIN + 1), PageKind::Medium);
    assert_eq!(kind_of_bin(MEDIUM_MAX_BIN), PageKind::Medium);
    assert_eq!(kind_of_bin(MEDIUM_MAX_BIN + 1), PageKind::Large);
    assert_eq!(kind_of_bin(MAX_BIN), PageKind::Large);
    assert_eq!(bin(SMALL_MAX_OBJ_SIZE), SMALL_MAX_BIN);
    assert_eq!(kind_of_bin(bin(SMALL_MAX_OBJ_SIZE + 1)), PageKind::Medium);
    assert_eq!(kind_of_bin(bin(MEDIUM_MAX_OBJ_SIZE + 1)), PageKind::Large);
    for kind in [PageKind::Small, PageKind::Medium, PageKind::Large] {
        assert!(kind.page_size().is_power_of_two());
        assert_eq!(kind.page_size() % SLICE_SIZE, 0);
        assert_eq!(
            0x1234_5678usize & kind.page_mask(),
            0x1234_5678 / kind.page_size() * kind.page_size()
        );
    }
}

#[test]
fn every_page_holds_at_least_six_blocks_and_first_block_is_aligned() {
    for b in 1..=MAX_BIN {
        let bs = bin_size(b);
        let kind = kind_of_bin(b);
        let start = block_start(bs);
        assert!(start >= PAGE_HEADER_RESERVE);
        let natural = largest_pow2_divisor(bs).min(MAX_NATURAL_ALIGN);
        assert_eq!(start % natural, 0, "bin {b}");
        assert!(start < kind.page_size());
        assert!(
            blocks_per_page(kind, bs) >= 6,
            "bin {b} ({bs} B) in {kind:?}"
        );
        assert!(blocks_per_page(kind, bs) <= u16::MAX as usize);
    }
    assert_eq!(
        blocks_per_page(PageKind::Small, 8),
        (SMALL_PAGE_SIZE - 32) / 8
    );
}

#[test]
fn classify_serves_alignment_by_construction() {
    for shift in 0..=12 {
        let align = 1usize << shift;
        for size in 1..=(LARGE_MAX_OBJ_SIZE / 16) {
            let layout = Layout::from_size_align(size, align).unwrap();
            match classify(layout) {
                Class::Bin(b) => {
                    let bs = bin_size(b);
                    assert!(bs >= size);
                    assert_eq!(bs % align, 0, "size {size} align {align} -> {bs}");
                    assert_eq!(
                        block_start(bs) % align,
                        0,
                        "block_start for {bs} vs align {align}"
                    );
                }
                Class::Huge => panic!("size {size} align {align} should be binned"),
            }
        }
    }
    // Alignment above the natural cap, or size above the large cap, is a singleton run.
    assert_eq!(
        classify(Layout::from_size_align(1, 8192).unwrap()),
        Class::Huge
    );
    assert_eq!(
        classify(Layout::from_size_align(LARGE_MAX_OBJ_SIZE + 1, 1).unwrap()),
        Class::Huge
    );
    assert_eq!(
        classify(Layout::from_size_align(LARGE_MAX_OBJ_SIZE, 1).unwrap()),
        Class::Bin(MAX_BIN)
    );
    // Rounding up to the alignment can push a request over the large cap.
    assert_eq!(
        classify(Layout::from_size_align(LARGE_MAX_OBJ_SIZE - 1, 4096).unwrap()),
        Class::Bin(MAX_BIN)
    );
    assert_eq!(
        classify(Layout::from_size_align(LARGE_MAX_OBJ_SIZE + 1, 4096).unwrap()),
        Class::Huge
    );
    // Small alignments never change the class.
    for size in 1..=DIRECT_MAX_SIZE {
        let a1 = classify(Layout::from_size_align(size, 1).unwrap());
        let a8 = classify(Layout::from_size_align(size, 8).unwrap());
        assert_eq!(a1, a8);
        assert_eq!(a1, Class::Bin(bin(size)));
    }
}

#[test]
fn direct_index_covers_the_small_range() {
    assert_eq!(direct_index(0), 0);
    assert_eq!(direct_index(1), 1);
    assert_eq!(direct_index(8), 1);
    assert_eq!(direct_index(9), 2);
    assert_eq!(direct_index(DIRECT_MAX_SIZE), DIRECT_ENTRIES - 1);
    for size in 0..=DIRECT_MAX_SIZE {
        let idx = direct_index(size);
        assert!(idx < DIRECT_ENTRIES);
        // Every size sharing a direct slot shares a bin, so one page pointer per slot works.
        assert_eq!(bin(size), bin(idx * WORD));
    }
}
