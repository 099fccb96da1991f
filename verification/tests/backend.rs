//! The simulated linear memory.
use wasmalloc::backend::{Memory, SimMemory};
use wasmalloc::bins::SLICE_SIZE;

/// Address of the regions.
const BASE: usize = 64 * SLICE_SIZE;

#[test]
fn sim_grows_zeroed_and_contiguously_until_skipped() {
    let mut mem = SimMemory::from_region(BASE, 16 * SLICE_SIZE, 2, 100);
    let base_slice = BASE / SLICE_SIZE;
    assert_eq!(mem.size_slices(), base_slice + 2);
    assert_eq!(mem.heap_base(), BASE + 100);

    // Dirty a future slice, then grow into it: grow must return it zeroed.
    mem.poke(BASE + 2 * SLICE_SIZE + 16, 0xAB00);
    let s = mem.grow(3).unwrap();
    assert_eq!(s, base_slice + 2);
    assert_eq!(mem.size_slices(), base_slice + 5);
    assert_eq!(mem.load(s * SLICE_SIZE + 16), 0);

    assert!(mem.skip_slices(1));
    let t = mem.grow(1).unwrap();
    assert_eq!(t, base_slice + 6, "grow after a skip is not contiguous");
    assert_eq!(mem.remaining_slices(), 16 - 7);
    assert_eq!(mem.grow(100), None);
    assert_eq!(mem.grow(9).unwrap(), base_slice + 7);
    assert_eq!(mem.grow(1), None);
}

#[test]
fn sim_pointers_round_trip_addresses() {
    let mut mem = SimMemory::from_region(BASE, 2 * SLICE_SIZE, 2, 0);
    let addr = BASE + SLICE_SIZE + 8;
    mem.store(addr, 0xDEAD_BEEF);
    assert_eq!(mem.load(addr), 0xDEAD_BEEF);
    assert_eq!(mem.load(addr - 8), 0);
    assert_eq!(mem.load(addr + 8), 0);
}

#[test]
fn skipping_past_the_region_is_refused() {
    let mut mem = SimMemory::from_region(BASE, 4 * SLICE_SIZE, 3, 0);
    assert!(!mem.skip_slices(2));
    assert_eq!(mem.remaining_slices(), 1);
    assert!(mem.skip_slices(1));
    assert_eq!(mem.remaining_slices(), 0);
    assert_eq!(mem.grow(0), Some(BASE / SLICE_SIZE + 4));
}
