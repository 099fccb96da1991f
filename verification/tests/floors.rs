//! The floors: what they hand out, what comes back, and what a reset rewinds.
use wasmalloc::backend::SimMemory;
use wasmalloc::layout::Layout;
use wasmalloc::roofline::bump::{Bump, CHUNK};
use wasmalloc::roofline::freelist::FreeList;
use wasmalloc::roofline::mimic::Mimic;
use wasmalloc::roofline::pages::Pages;
use wasmalloc::roofline::sizeclass::{class_of, small, SizeClass};

const SLICE: usize = 65536;
const BASE: usize = 0x40_0000;

fn memory() -> SimMemory {
    SimMemory::from_region(BASE, 1024 * SLICE, 4, 100)
}

fn layout(size: usize, align: usize) -> Layout {
    Layout::from_size_align(size, align).unwrap()
}

/// Where the first growth of a floor lands.
const FIRST: usize = BASE + 4 * SLICE;

#[test]
fn the_bump_pointer_moves_forward_and_rewinds_to_its_mark() {
    let mut mem = memory();
    let mut b = Bump::new();
    assert_eq!(b.alloc_inline(&mut mem, layout(10, 8)), Some(FIRST));
    assert_eq!(b.alloc_inline(&mut mem, layout(10, 64)), Some(FIRST + 64));
    b.reset();
    // What was allocated before the first reset is never handed out again.
    assert_eq!(b.alloc_inline(&mut mem, layout(8, 1)), Some(FIRST + 74));
    b.reset();
    assert_eq!(b.alloc_inline(&mut mem, layout(8, 1)), Some(FIRST + 74));
    // A request larger than a chunk grows by what it needs, and the region goes on.
    let p = b.alloc_inline(&mut mem, layout(CHUNK, 16)).unwrap();
    assert_eq!(p, FIRST + 96);
    assert_eq!(b.alloc_inline(&mut mem, layout(1024 * SLICE, 8)), None);
}

#[test]
fn one_list_serves_the_blocks_freed_last_first() {
    let mut mem = memory();
    let mut f = FreeList::new(&mem);
    let l = layout(20, 8);
    let a = f.allocate(&mut mem, l).unwrap();
    let b = f.allocate(&mut mem, l).unwrap();
    assert_eq!((a, b), (FIRST, FIRST + 32));
    f.dealloc(&mut mem, a, l);
    f.dealloc(&mut mem, b, l);
    assert_eq!(f.allocate(&mut mem, layout(32, 16)), Some(b));
    assert_eq!(f.allocate(&mut mem, l), Some(a));
    // Larger blocks are leaked.
    let big = layout(33, 8);
    let c = f.allocate(&mut mem, big).unwrap();
    f.dealloc(&mut mem, c, big);
    assert_eq!(f.allocate(&mut mem, big), Some(FIRST + 104));
}

#[test]
fn size_classes_do_not_share_blocks() {
    assert_eq!((class_of(1), class_of(16), class_of(17), class_of(1024)), (0, 0, 1, 63));
    assert!(small(&layout(1024, 16)));
    assert!(!small(&layout(1025, 8)));
    assert!(!small(&layout(8, 32)));
    let mut mem = memory();
    let mut f = SizeClass::new(&mem);
    let a = f.allocate(&mut mem, layout(16, 8)).unwrap();
    f.dealloc(&mut mem, a, layout(16, 8));
    let b = f.allocate(&mut mem, layout(17, 8)).unwrap();
    assert_ne!(a, b);
    assert_eq!(f.allocate(&mut mem, layout(9, 16)), Some(a));
}

#[test]
fn a_reset_forgets_the_free_blocks() {
    let mut mem = memory();
    let mut f = SizeClass::new(&mem);
    let l = layout(40, 8);
    let a = f.allocate(&mut mem, l).unwrap();
    f.dealloc(&mut mem, a, l);
    f.reset(&mem);
    let b = f.allocate(&mut mem, l).unwrap();
    assert_eq!(b, a + 48);
    f.dealloc(&mut mem, b, l);
    f.reset(&mem);
    assert_eq!(f.allocate(&mut mem, l), Some(b));
}

#[test]
fn pages_hold_one_class_behind_a_header() {
    let mut mem = memory();
    let mut f = Pages::new(&mem);
    let l = layout(100, 16);
    let a = f.allocate(&mut mem, l).unwrap();
    let b = f.allocate(&mut mem, l).unwrap();
    assert_eq!((a, b), (FIRST + 16, FIRST + 16 + 112));
    let other = f.allocate(&mut mem, layout(16, 8)).unwrap();
    assert_eq!(other, FIRST + SLICE + 16);
    f.dealloc(&mut mem, a, l);
    // The class comes from the page, and the block serves any request of it.
    assert_eq!(f.allocate(&mut mem, layout(97, 1)), Some(a));
    // A full page is followed by a fresh one.
    let mut last = 0;
    for _ in 0..(SLICE - 16) / 112 - 2 {
        last = f.allocate(&mut mem, l).unwrap();
    }
    assert!(last + 112 <= FIRST + SLICE);
    assert_eq!(f.allocate(&mut mem, l), Some(FIRST + 2 * SLICE + 16));
}

#[test]
fn pages_rewind_too() {
    let mut mem = memory();
    let mut f = Pages::new(&mem);
    f.reset(&mem);
    let l = layout(64, 8);
    let a = f.allocate(&mut mem, l).unwrap();
    f.dealloc(&mut mem, a, l);
    let big = layout(5000, 8);
    let c = f.allocate(&mut mem, big).unwrap();
    f.dealloc(&mut mem, c, big);
    f.reset(&mem);
    assert_eq!(f.allocate(&mut mem, l), Some(a));
}

fn exercise<const LEAN: bool, const WIDE: bool, const NO_ZERO: bool, const NO_TEST: bool>() -> u32 {
    let mut mem = memory();
    let mut f: Mimic<LEAN, WIDE, NO_ZERO, NO_TEST> = Mimic::new(&mem);
    let l = layout(32, 8);
    let a = f.allocate(&mut mem, l).unwrap();
    let b = f.allocate(&mut mem, l).unwrap();
    assert_eq!((a, b), (FIRST + 64, FIRST + 96));
    f.dealloc(&mut mem, a, l);
    assert_eq!(f.allocate(&mut mem, l), Some(a));
    f.dealloc(&mut mem, a, l);
    f.dealloc(&mut mem, b, l);
    assert_eq!(f.allocate(&mut mem, l), Some(b));
    f.dealloc(&mut mem, b, l);
    let big = layout(2000, 8);
    let c = f.allocate(&mut mem, big).unwrap();
    f.dealloc(&mut mem, c, big);
    f.transitions(&mem)
}

#[test]
fn transitions_are_counted_when_a_page_empties() {
    assert_eq!(exercise::<false, false, false, false>(), 2);
    assert_eq!(exercise::<false, true, false, false>(), 2);
    assert_eq!(exercise::<false, false, true, false>(), 2);
    assert_eq!(exercise::<false, false, false, true>(), 0);
    assert_eq!(exercise::<true, false, false, false>(), 0);
}

#[test]
fn mimicked_pages_are_refilled_and_rewound() {
    let mut mem = memory();
    let mut f: Mimic<false, false, false, false> = Mimic::new(&mem);
    f.reset(&mem);
    let l = layout(1024, 16);
    let mut blocks = Vec::new();
    for _ in 0..64 {
        blocks.push(f.allocate(&mut mem, l).unwrap());
    }
    assert_eq!(blocks[62], FIRST + 64 + 62 * 1024);
    assert_eq!(blocks[63], FIRST + SLICE + 64);
    for p in blocks {
        f.dealloc(&mut mem, p, l);
    }
    assert_eq!(f.transitions(&mem), 2);
    f.reset(&mem);
    assert_eq!(f.allocate(&mut mem, l), Some(FIRST + 64));
}

#[test]
fn a_floor_refuses_when_memory_does() {
    let mut mem = SimMemory::from_region(BASE, 8 * SLICE, 4, 100);
    let l = layout(32, 8);
    assert_eq!(FreeList::new(&mem).allocate(&mut mem, l), None);
    assert_eq!(SizeClass::new(&mem).allocate(&mut mem, l), None);
    assert_eq!(Pages::new(&mem).allocate(&mut mem, l), None);
    let mut m: Mimic<false, false, false, false> = Mimic::new(&mem);
    assert_eq!(m.allocate(&mut mem, l), None);
}
