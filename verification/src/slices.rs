//! The free-slice bitmap and the `memory.grow` policy.
//!
//! The heap gets its memory here, in whole 64 KiB slices: the slices of its pages, and an
//! arbitrary run for a block too large for a page. A [`SliceMap`] records which slices the
//! allocator owns and has not handed out (`free`) and which of those still hold the zeros
//! `memory.grow` gave them (`zero`, always a subset of `free`).
//!
//! Indices are absolute slice numbers (`address / SLICE_SIZE`); the map stores a `base` and
//! converts. Alignment is always on the absolute index, because page headers are found by
//! rounding absolute addresses down. `base` is a multiple of 64, so one word of the bitmap is
//! exactly a 64-slice-aligned stretch of memory, which makes aligned runs of 1, 8 and 64 slices
//! a set bit, an all-ones byte and an all-ones word. Other requests go through a first-fit scan
//! over maximal runs of free slices.
//!
//! Searches return the lowest-addressed fit. Together with the growth policy in [`acquire`] this
//! keeps the heap dense at the bottom of memory so that the top can be grown in large steps.
//!
//! The exception is a run that is being grown by `realloc`. [`extend_with_growth`] extends a
//! run in place through the free slices after it and, when the run reaches the end of memory,
//! through `memory.grow` itself. A run that cannot be extended is moved with
//! [`SliceMap::alloc_tail`] to the bottom of the free tail, the free slices that reach the end of
//! memory, so that it lands at the top with the rest of the tail above it and its next growths
//! are in place.
//!
//! Slice [`MAX_SLICE_INDEX`] (65535, the last 64 KiB of a 4 GiB memory) is never handed out: a
//! run ending there would end at address 2^32, which overflows a wasm32 `usize`.
use vstd::arithmetic::power2::is_pow2;
use vstd::prelude::*;

use crate::arith::{div_ceil_by, lemma_pow2_positive, lemma_round_up, max, min, round_up};
use crate::backend::{
    asked, first_whole_slice, in_order, only_more, slice_of, Growth, Memory, MAX_SLICE_INDEX,
};
use crate::bins::SLICE_SIZE;
use crate::bitmap::{
    all_bits, all_set, bit, bit_at, clear_bits, count_bits, count_ones, full_bytes, lemma_bit_ops,
    lemma_lowest_bit, lemma_word_extremes, next_clear, next_set, no_bits, prev_clear, set_bits,
    BITS,
};

verus! {

/// A run of slices handed out by [`SliceMap::allocate`] or [`acquire`].
#[derive(Clone, Copy, Debug, PartialEq, Eq, Structural)]
pub struct Run {
    /// Absolute index of the first slice.
    pub start: usize,
    /// Whether every slice of the run was still in the known-zero state, so a zeroed allocation
    /// can skip clearing it.
    pub zeroed: bool,
}

/// What a slice map stands for: the absolute indices of the slices that are free, and of those
/// that are free and known to be zero, within `[base, limit)`.
#[verifier::ext_equal]
pub struct SliceModel {
    pub base: int,
    pub limit: int,
    pub free: Set<int>,
    pub zero: Set<int>,
}

/// The slices `[start, start + count)`.
pub open spec fn span(start: int, count: int) -> Set<int> {
    Set::new(|s: int| start <= s < start + count)
}

impl SliceModel {
    /// One past the highest slice that may ever be handed out.
    pub open spec fn usable_limit(self) -> int {
        if self.base <= MAX_SLICE_INDEX {
            min(self.limit, MAX_SLICE_INDEX as int)
        } else {
            self.limit
        }
    }

    /// Every slice of `[start, start + count)` is free.
    pub open spec fn run_free(self, start: int, count: int) -> bool {
        forall|s: int| start <= s < start + count ==> #[trigger] self.free.contains(s)
    }

    /// Every slice of `[start, start + count)` is handed out, or not the allocator's.
    pub open spec fn run_taken(self, start: int, count: int) -> bool {
        forall|s: int| start <= s < start + count ==> !#[trigger] self.free.contains(s)
    }

    /// Every slice of `[start, start + count)` is known to be zero.
    pub open spec fn run_zero(self, start: int, count: int) -> bool {
        forall|s: int| start <= s < start + count ==> #[trigger] self.zero.contains(s)
    }

    /// `[start, start + count)` is free and `start` is a multiple of `align`.
    pub open spec fn fits(self, start: int, count: int, align: int) -> bool {
        &&& self.base <= start
        &&& start + count <= self.limit
        &&& start % align == 0
        &&& self.run_free(start, count)
    }

    /// `start` is the lowest place `count` slices aligned to `align` fit.
    pub open spec fn lowest_fit(self, start: int, count: int, align: int) -> bool {
        &&& self.fits(start, count, align)
        &&& forall|t: int| t < start ==> !#[trigger] self.fits(t, count, align)
    }

    /// `count` slices aligned to `align` fit somewhere.
    pub open spec fn has_fit(self, count: int, align: int) -> bool {
        exists|t: int| #[trigger] self.fits(t, count, align)
    }

    /// `[lo, hi)` is not empty, all free, and no longer run of free slices ends at `hi`.
    pub open spec fn free_tail(self, lo: int, hi: int) -> bool {
        &&& self.base <= lo < hi <= self.limit
        &&& self.run_free(lo, hi - lo)
        &&& (lo == self.base || !self.free.contains(lo - 1))
    }

    /// `count` slices aligned to `align` fit at the bottom of the free slices that end at `below`,
    /// and `start` is where.
    pub open spec fn tail_fit(self, start: int, count: int, align: int, below: int) -> bool {
        exists|lo: int|
            {
                &&& #[trigger] self.free_tail(lo, min(below, self.limit))
                &&& start == round_up(lo, align)
                &&& start + count <= min(below, self.limit)
            }
    }

    /// `count` slices aligned to `align` fit in the free slices that end at `below`.
    pub open spec fn has_tail_fit(self, count: int, align: int, below: int) -> bool {
        exists|start: int| #[trigger] self.tail_fit(start, count, align, below)
    }

    /// Where a growing buffer goes: to the bottom of the free slices that end at `below` if it
    /// fits there, and to the lowest fit otherwise.
    pub open spec fn high_fit(self, start: int, count: int, align: int, below: int) -> bool {
        if self.has_tail_fit(count, align, below) {
            self.tail_fit(start, count, align, below)
        } else {
            self.lowest_fit(start, count, align)
        }
    }

    /// Of the groups of 64 slices that the words of a map stand for, group `w` is the first that
    /// holds a free slice or, if there is none, is just beyond the last.
    pub open spec fn first_group(self, w: int) -> bool {
        &&& forall|s: int| #[trigger] self.free.contains(s) ==> self.base + 64 * w <= s
        &&& self.base + 64 * w == self.limit || exists|s: int| #[trigger]
            self.free.contains(s) && s < self.base + 64 * (w + 1)
    }

    /// A hint that was `h` and may have been lowered for slices that became free is `k` now.
    pub open spec fn hint_lowered(self, h: int, k: int) -> bool {
        &&& k <= h
        &&& forall|s: int| #[trigger] self.free.contains(s) ==> self.base + 64 * k <= s
        &&& k == h || exists|s: int| #[trigger]
            self.free.contains(s) && s < self.base + 64 * (k + 1)
    }

    /// The model without the free slices `[start, start + count)`.
    pub open spec fn taken(self, start: int, count: int) -> SliceModel {
        SliceModel {
            free: self.free.difference(span(start, count)),
            zero: self.zero.difference(span(start, count)),
            ..self
        }
    }

    /// The model with `[start, start + count)` free, and known to be zero if `zeroed`.
    pub open spec fn given(self, start: int, count: int, zeroed: bool) -> SliceModel {
        SliceModel {
            free: self.free.union(span(start, count)),
            zero: if zeroed {
                self.zero.union(span(start, count))
            } else {
                self.zero
            },
            ..self
        }
    }
}

/// Free-slice bitmap over `64 * WORDS` consecutive slices.
#[derive(Clone)]
pub struct SliceMap<const WORDS: usize> {
    /// Bit set: the slice belongs to the allocator and is not handed out.
    free: [u64; WORDS],
    /// Bit set: the slice is free and still all zero (never handed out since `memory.grow`).
    zero: [u64; WORDS],
    /// Absolute index of the slice that bit 0 stands for; a multiple of 64.
    base: usize,
    /// Every word below this index has no free bit, so searches start here. Any value from 0
    /// (claims nothing, always valid) to `WORDS` (nothing is free) is in order.
    hint: usize,
}

impl<const WORDS: usize> View for SliceMap<WORDS> {
    type V = SliceModel;

    closed spec fn view(&self) -> SliceModel {
        SliceModel {
            base: self.base as int,
            limit: self.base + 64 * WORDS,
            free: Set::new(
                |s: int| self.base <= s < self.base + 64 * WORDS && bit_at(self.free@, s - self.base),
            ),
            zero: Set::new(
                |s: int| self.base <= s < self.base + 64 * WORDS && bit_at(self.zero@, s - self.base),
            ),
        }
    }
}

impl<const WORDS: usize> Default for SliceMap<WORDS> {
    fn default() -> (r: Self)
        ensures
            1 <= WORDS <= 1024 ==> r.wf() && r@.free == Set::<int>::empty() && r@.base == 0,
            r.spec_hint() == 0,
    {
        let r = SliceMap { free: [0; WORDS], zero: [0; WORDS], base: 0, hint: 0 };
        proof {
            r.lemma_cleared();
        }
        r
    }
}

impl<const WORDS: usize> SliceMap<WORDS> {
    /// The map's invariant: `zero` implies `free`, every word below the hint is empty, and slice
    /// [`MAX_SLICE_INDEX`] is never free.
    pub closed spec fn wf(&self) -> bool {
        &&& 1 <= WORDS <= 1024
        &&& self.base % 64 == 0
        &&& self.base + 64 * WORDS <= usize::MAX
        &&& self.hint <= WORDS
        &&& no_bits(self.free@, 0, 64 * self.hint)
        &&& forall|i: int|
            0 <= i < 64 * WORDS && #[trigger] bit_at(self.zero@, i) ==> bit_at(self.free@, i)
        &&& self.base <= MAX_SLICE_INDEX < self.base + 64 * WORDS ==> !bit_at(
            self.free@,
            MAX_SLICE_INDEX - self.base,
        )
    }

    /// The hint: no slice is free in the words below this one.
    pub closed spec fn spec_hint(&self) -> int {
        self.hint as int
    }

    proof fn lemma_cleared(&self)
        requires
            forall|w: int| 0 <= w < WORDS ==> self.free@[w] == 0 && self.zero@[w] == 0,
            self.base == 0,
            self.hint == 0,
        ensures
            1 <= WORDS <= 1024 ==> self.wf(),
            self@.free == Set::<int>::empty(),
            self@.zero == Set::<int>::empty(),
    {
        lemma_bit_ops(0, 0);
        assert forall|i: int| 0 <= i < 64 * WORDS implies !#[trigger] bit_at(self.free@, i) by {}
        assert forall|i: int| 0 <= i < 64 * WORDS implies !#[trigger] bit_at(self.zero@, i) by {}
        assert(self@.free =~= Set::<int>::empty());
        assert(self@.zero =~= Set::<int>::empty());
    }

    /// What the invariant says of the model.
    pub proof fn lemma_wf_facts(&self)
        requires
            self.wf(),
        ensures
            0 <= self@.base,
            self@.base % 64 == 0,
            self@.limit == self@.base + 64 * WORDS,
            self@.limit <= usize::MAX,
            1 <= WORDS <= 1024,
            self@.zero.subset_of(self@.free),
            forall|s: int| #[trigger]
                self@.free.contains(s) ==> self@.base <= s < self@.limit && s != MAX_SLICE_INDEX,
            0 <= self.spec_hint() <= WORDS,
            forall|s: int| #[trigger]
                self@.free.contains(s) ==> self@.base + 64 * self.spec_hint() <= s,
    {
    }

    /// An empty map: nothing free, base 0. Call [`init`](Self::init) before anything else.
    pub fn new() -> (r: Self)
        requires
            1 <= WORDS <= 1024,
        ensures
            r.wf(),
            r@.base == 0,
            r@.limit == 64 * WORDS,
            r@.free == Set::<int>::empty(),
            r@.zero == Set::<int>::empty(),
            r.spec_hint() == 0,
    {
        let r = SliceMap { free: [0; WORDS], zero: [0; WORDS], base: 0, hint: 0 };
        proof {
            r.lemma_cleared();
        }
        r
    }

    /// Number of slices the map can describe.
    pub fn capacity() -> (r: usize)
        requires
            1 <= WORDS <= 1024,
        ensures
            r == 64 * WORDS,
    {
        WORDS * BITS
    }

    /// Set the first slice the map describes. Runs once, before any slice is given to the map.
    ///
    /// `base_slice` is rounded down to a multiple of 64 so that word boundaries fall on 64-slice
    /// boundaries of the address space; the map then covers `[base(), limit())`.
    pub fn init(&mut self, base_slice: usize)
        requires
            old(self).wf(),
            old(self)@.free == Set::<int>::empty(),
            base_slice - base_slice % 64 + 64 * WORDS <= usize::MAX,
        ensures
            final(self).wf(),
            final(self)@.base == base_slice - base_slice % 64,
            final(self)@.limit == final(self)@.base + 64 * WORDS,
            final(self)@.free == Set::<int>::empty(),
            final(self)@.zero == Set::<int>::empty(),
            final(self).spec_hint() == WORDS,
    {
        proof {
            assert forall|i: int| 0 <= i < 64 * WORDS implies !#[trigger] bit_at(self.free@, i) by {
                assert(!self@.free.contains(self.base + i));
            }
        }
        let base: usize = base_slice - base_slice % BITS;
        self.base = base;
        self.hint = WORDS;
        proof {
            assert(self@.free =~= Set::<int>::empty());
            assert(self@.zero =~= Set::<int>::empty());
        }
    }

    /// Absolute index of the first slice the map describes.
    #[inline]
    pub fn base(&self) -> (r: usize)
        ensures
            r == self@.base,
    {
        self.base
    }

    /// One past the highest absolute slice index the map describes.
    #[inline]
    pub fn limit(&self) -> (r: usize)
        requires
            self.wf(),
        ensures
            r == self@.limit,
    {
        self.base + WORDS * BITS
    }

    /// Index of the first bitmap word that may hold a free slice.
    pub fn hint(&self) -> (r: usize)
        ensures
            r == self.spec_hint(),
    {
        self.hint
    }

    /// One past the highest slice the map may ever hand out: [`limit`](Self::limit), except that
    /// a map spanning slice [`MAX_SLICE_INDEX`] stops short of it.
    #[inline]
    pub fn usable_limit(&self) -> (r: usize)
        requires
            self.wf(),
        ensures
            r == self@.usable_limit(),
    {
        let limit: usize = self.limit();
        if self.base <= MAX_SLICE_INDEX && limit > MAX_SLICE_INDEX {
            MAX_SLICE_INDEX
        } else {
            limit
        }
    }

    /// Give `[start, start + count)` to the map as free slices. They must not be free already.
    /// `zeroed` says the memory is known to be all zero (fresh from `memory.grow`). Slice
    /// [`MAX_SLICE_INDEX`] is dropped from the range, and an empty range is a no-op.
    pub fn add_free(&mut self, start: usize, count: usize, zeroed: bool)
        requires
            old(self).wf(),
            count > 0 ==> old(self)@.base <= start && start + count <= old(self)@.limit,
            old(self)@.run_taken(start as int, count as int),
        ensures
            final(self).wf(),
            final(self)@ == old(self)@.given(
                start as int,
                if start <= MAX_SLICE_INDEX {
                    min(count as int, MAX_SLICE_INDEX - start)
                } else {
                    count as int
                },
                zeroed,
            ),
            final(self).spec_hint() == if count == 0 || start == MAX_SLICE_INDEX {
                old(self).spec_hint()
            } else {
                min(old(self).spec_hint(), (start - old(self)@.base) / 64)
            },
    {
        let count: usize = if start <= MAX_SLICE_INDEX && count > MAX_SLICE_INDEX - start {
            MAX_SLICE_INDEX - start
        } else {
            count
        };
        if count == 0 {
            proof {
                assert(self@ =~= old(self)@.given(start as int, 0, zeroed));
            }
            return;
        }
        let rel: usize = start - self.base;
        let ghost before = *self;
        self.release(rel, count);
        let ghost mid = *self;
        if zeroed {
            set_bits(&mut self.zero, rel, count);
            proof {
                assert(self@ =~= old(self)@.given(start as int, count as int, true));
            }
        }
    }

    /// Mark `[rel, rel + count)`, which must not be free, as free and dirty.
    fn release(&mut self, rel: usize, count: usize)
        requires
            old(self).wf(),
            count >= 1,
            rel + count <= 64 * WORDS,
            old(self)@.run_taken(old(self)@.base + rel, count as int),
            old(self)@.base + rel <= MAX_SLICE_INDEX ==> old(self)@.base + rel + count
                <= MAX_SLICE_INDEX,
        ensures
            final(self).wf(),
            final(self)@ == old(self)@.given(old(self)@.base + rel, count as int, false),
            final(self).hint == min(old(self).hint as int, rel as int / 64),
            final(self).base == old(self).base,
            final(self).zero == old(self).zero,
            forall|i: int|
                0 <= i < 64 * WORDS ==> (#[trigger] bit_at(final(self).free@, i) <==> bit_at(
                    old(self).free@,
                    i,
                ) || rel <= i < rel + count),
    {
        set_bits(&mut self.free, rel, count);
        if rel / BITS < self.hint {
            self.hint = rel / BITS;
        }
        proof {
            assert(self@ =~= old(self)@.given(old(self)@.base + rel, count as int, false));
        }
    }

    /// Hand out `[rel, rel + count)`, which must be free. Returns whether all of it was zero.
    fn claim(&mut self, rel: usize, count: usize) -> (r: bool)
        requires
            old(self).wf(),
            rel + count <= 64 * WORDS,
            old(self)@.run_free(old(self)@.base + rel, count as int),
        ensures
            final(self).wf(),
            final(self)@ == old(self)@.taken(old(self)@.base + rel, count as int),
            r == old(self)@.run_zero(old(self)@.base + rel, count as int),
            final(self).hint == old(self).hint,
    {
        let _ = clear_bits(&mut self.free, rel, count);
        let zeroed: bool = clear_bits(&mut self.zero, rel, count);
        proof {
            let b: int = self.base as int;
            assert(self@ =~= old(self)@.taken(b + rel, count as int));
            if zeroed {
                assert forall|s: int| b + rel <= s < b + rel + count implies #[trigger] old(
                    self,
                )@.zero.contains(s) by {
                    assert(bit_at(old(self).zero@, s - b));
                }
            } else {
                let i: int = choose|i: int|
                    rel <= i < rel + count && !#[trigger] bit_at(old(self).zero@, i);
                assert(!old(self)@.zero.contains(b + i));
            }
        }
        zeroed
    }

    /// Take the lowest-addressed run of `count` free slices whose absolute start is a multiple
    /// of `align` (a power of two, in slices). Returns `None` when no such run exists; the map
    /// hands out nothing in that case.
    pub fn allocate(&mut self, count: usize, align: usize) -> (r: Option<Run>)
        requires
            old(self).wf(),
            count >= 1,
            is_pow2(align as int),
        ensures
            final(self).wf(),
            r is Some <==> old(self)@.has_fit(count as int, align as int),
            r matches Some(run) ==> {
                &&& old(self)@.lowest_fit(run.start as int, count as int, align as int)
                &&& run.zeroed == old(self)@.run_zero(run.start as int, count as int)
                &&& final(self)@ == old(self)@.taken(run.start as int, count as int)
            },
            r is None ==> final(self)@ == old(self)@,
            old(self)@.first_group(final(self).spec_hint()),
    {
        self.advance_hint();
        proof {
            let h: int = self.hint as int;
            if h < WORDS {
                let w: u64 = self.free@[h];
                lemma_lowest_bit(w);
                let t: int = vstd::std_specs::bits::u64_trailing_zeros(w) as int;
                assert((64 * h + t) / 64 == h && (64 * h + t) % 64 == t);
                assert(bit_at(self.free@, 64 * h + t));
                assert(old(self)@.free.contains(self.base + 64 * h + t));
            }
        }
        match self.find(count, align) {
            Some(rel) => {
                let zeroed: bool = self.claim(rel, count);
                Some(Run { start: self.base + rel, zeroed })
            },
            None => None,
        }
    }

    /// Take `count` free slices from the bottom of the free tail: the maximal run of free slices
    /// that ends at the absolute slice index `below` (callers pass the end of memory). The run
    /// starts at the lowest slice of the tail whose absolute index is a multiple of `align` (a
    /// power of two, in slices), so whatever the tail holds beyond it stays free above the run.
    /// Returns `None` when the tail is empty or too short for that; the map is unchanged then.
    pub fn alloc_tail(&mut self, count: usize, align: usize, below: usize) -> (r: Option<Run>)
        requires
            old(self).wf(),
            count >= 1,
            is_pow2(align as int),
        ensures
            final(self).wf(),
            r is Some <==> old(self)@.has_tail_fit(count as int, align as int, below as int),
            r matches Some(run) ==> {
                &&& old(self)@.tail_fit(run.start as int, count as int, align as int, below as int)
                &&& old(self)@.fits(run.start as int, count as int, align as int)
                &&& run.zeroed == old(self)@.run_zero(run.start as int, count as int)
                &&& final(self)@ == old(self)@.taken(run.start as int, count as int)
            },
            r is None ==> final(self)@ == old(self)@,
            final(self).spec_hint() == old(self).spec_hint(),
    {
        let found = self.find_tail(count, align, below);
        proof {
            match found {
                Some(rel) => {
                    assert(self@.tail_fit(
                        self@.base + rel,
                        count as int,
                        align as int,
                        below as int,
                    ));
                },
                None => {},
            }
        }
        match found {
            Some(rel) => {
                let zeroed: bool = self.claim(rel, count);
                Some(Run { start: self.base + rel, zeroed })
            },
            None => None,
        }
    }

    /// Return `[start, start + count)`, which must be handed out, to the map. The memory is
    /// dirty now, so the slices lose their zero bits for good.
    pub fn free(&mut self, start: usize, count: usize)
        requires
            old(self).wf(),
            count >= 1,
            old(self)@.base <= start,
            start + count <= old(self)@.limit,
            start + count <= MAX_SLICE_INDEX || start > MAX_SLICE_INDEX,
            old(self)@.run_taken(start as int, count as int),
        ensures
            final(self).wf(),
            final(self)@ == old(self)@.given(start as int, count as int, false),
            final(self).spec_hint() == min(
                old(self).spec_hint(),
                (start - old(self)@.base) / 64,
            ),
    {
        let rel: usize = start - self.base;
        self.release(rel, count);
    }

    /// Grow the handed-out run `[start, start + count)` in place by `extra` slices if the
    /// slices right after it are all free. Returns whether the claimed tail was all zero, or
    /// `None` with the map unchanged when the tail is not entirely free or would leave the map.
    pub fn try_extend(&mut self, start: usize, count: usize, extra: usize) -> (r: Option<bool>)
        requires
            old(self).wf(),
            count >= 1,
            old(self)@.base <= start,
            start + count <= old(self)@.limit,
        ensures
            final(self).wf(),
            r is Some <==> start + count + extra <= old(self)@.limit && old(self)@.run_free(
                start + count,
                extra as int,
            ),
            r matches Some(zeroed) ==> {
                &&& zeroed == old(self)@.run_zero(start + count, extra as int)
                &&& final(self)@ == old(self)@.taken(start + count, extra as int)
            },
            r is None ==> final(self)@ == old(self)@,
            final(self).spec_hint() == old(self).spec_hint(),
    {
        let tail: usize = start - self.base + count;
        if extra > WORDS * BITS - tail {
            return None;
        }
        proof {
            self.lemma_run_free(tail as int, extra as int);
        }
        if !all_set(&self.free, tail, extra) {
            return None;
        }
        Some(self.claim(tail, extra))
    }

    /// Free the tail `[start + new_count, start + count)` of the handed-out run
    /// `[start, start + count)`. Zero frees the whole run.
    pub fn shrink(&mut self, start: usize, count: usize, new_count: usize)
        requires
            old(self).wf(),
            new_count <= count,
            old(self)@.base <= start,
            start + count <= old(self)@.limit,
            start + count <= MAX_SLICE_INDEX || start > MAX_SLICE_INDEX,
            old(self)@.run_taken(start as int, count as int),
        ensures
            final(self).wf(),
            final(self)@ == old(self)@.given(start + new_count, count - new_count, false),
            final(self).spec_hint() == if new_count < count {
                min(old(self).spec_hint(), (start + new_count - old(self)@.base) / 64)
            } else {
                old(self).spec_hint()
            },
    {
        if new_count < count {
            let rel: usize = start - self.base;
            self.release(rel + new_count, count - new_count);
        } else {
            proof {
                assert(self@ =~= self@.given(start + new_count, 0, false));
            }
        }
    }

    /// Whether slice `idx` is owned by the allocator and not handed out.
    pub fn is_free(&self, idx: usize) -> (r: bool)
        requires
            self.wf(),
            self@.base <= idx < self@.limit,
        ensures
            r == self@.free.contains(idx as int),
    {
        let rel: usize = idx - self.base;
        (self.free[rel / BITS] >> ((rel % BITS) as u64)) & 1 == 1
    }

    /// Whether slice `idx` is free and known to be all zero.
    pub fn is_zero(&self, idx: usize) -> (r: bool)
        requires
            self.wf(),
            self@.base <= idx < self@.limit,
        ensures
            r == self@.zero.contains(idx as int),
    {
        let rel: usize = idx - self.base;
        (self.zero[rel / BITS] >> ((rel % BITS) as u64)) & 1 == 1
    }

    proof fn lemma_run_free(&self, rel: int, count: int)
        requires
            self.wf(),
            0 <= rel,
            0 <= count,
            rel + count <= 64 * WORDS,
        ensures
            all_bits(self.free@, rel, rel + count) == self@.run_free(self@.base + rel, count),
    {
        let b: int = self.base as int;
        if all_bits(self.free@, rel, rel + count) {
            assert forall|s: int| b + rel <= s < b + rel + count implies #[trigger] self@.free.contains(
            s) by {
                assert(bit_at(self.free@, s - b));
            }
        } else {
            let i: int = choose|i: int| rel <= i < rel + count && !#[trigger] bit_at(self.free@, i);
            assert(!self@.free.contains(b + i));
        }
    }

    /// Whether every slice of `[start, start + count)` is free; vacuously true for `count == 0`.
    pub fn run_is_free(&self, start: usize, count: usize) -> (r: bool)
        requires
            self.wf(),
            self@.base <= start,
            start + count <= self@.limit,
        ensures
            r == self@.run_free(start as int, count as int),
    {
        let rel: usize = start - self.base;
        proof {
            self.lemma_run_free(rel as int, count as int);
        }
        all_set(&self.free, rel, count)
    }

    /// Whether [`allocate`](Self::allocate) with these arguments would succeed.
    pub fn has_run(&self, count: usize, align: usize) -> (r: bool)
        requires
            self.wf(),
            count >= 1,
            is_pow2(align as int),
        ensures
            r == self@.has_fit(count as int, align as int),
    {
        match self.find(count, align) {
            Some(_) => true,
            None => false,
        }
    }

    /// Move `hint` past words with no free bit so that searches start at a candidate word.
    fn advance_hint(&mut self)
        requires
            old(self).wf(),
        ensures
            final(self).wf(),
            final(self)@ == old(self)@,
            final(self).free == old(self).free,
            final(self).zero == old(self).zero,
            final(self).base == old(self).base,
            old(self).hint <= final(self).hint <= WORDS,
            forall|w: int|
                old(self).hint <= w < final(self).hint ==> #[trigger] old(self).free@[w] == 0,
            final(self).hint < WORDS ==> old(self).free@[final(self).hint as int] != 0,
    {
        while self.hint < WORDS && self.free[self.hint] == 0
            invariant
                self.wf(),
                self.free == old(self).free,
                self.zero == old(self).zero,
                self.base == old(self).base,
                old(self).hint <= self.hint <= WORDS,
                forall|w: int|
                    old(self).hint <= w < self.hint ==> #[trigger] old(self).free@[w] == 0,
            decreases WORDS - self.hint,
        {
            proof {
                lemma_word_extremes(self.free@[self.hint as int]);
                assert forall|i: int| 0 <= i < 64 * (self.hint + 1) implies !#[trigger] bit_at(
                    self.free@,
                    i,
                ) by {
                    if i >= 64 * self.hint {
                        assert(i / 64 == self.hint);
                    }
                }
            }
            self.hint = self.hint + 1;
        }
    }

    /// Relative index of the lowest aligned run of `count` free slices.
    fn find(&self, count: usize, align: usize) -> (r: Option<usize>)
        requires
            self.wf(),
            count >= 1,
            is_pow2(align as int),
        ensures
            r matches Some(rel) ==> rel + count <= 64 * WORDS && self@.lowest_fit(
                self@.base + rel,
                count as int,
                align as int,
            ),
            r is None ==> !self@.has_fit(count as int, align as int),
    {
        if count == align {
            if count == 1 {
                return self.find_single();
            }
            if count == 8 {
                return self.find_byte();
            }
            if count == 64 {
                return self.find_word();
            }
        }
        self.find_general(count, align)
    }

    /// A fit in terms of the bitmap.
    proof fn lemma_fits(&self, s: int, count: int, align: int)
        requires
            self.wf(),
            count >= 1,
            align > 0,
        ensures
            self@.fits(s, count, align) <==> {
                &&& self.base <= s
                &&& s - self.base + count <= 64 * WORDS
                &&& s % align == 0
                &&& all_bits(self.free@, s - self.base, s - self.base + count)
            },
    {
        if self.base <= s && s - self.base + count <= 64 * WORDS {
            self.lemma_run_free(s - self.base, count);
        }
    }

    /// Nothing below a bit that is clear up to it fits.
    proof fn lemma_no_fit_below(&self, pos: int, count: int, align: int)
        requires
            self.wf(),
            count >= 1,
            align > 0,
            no_bits(self.free@, 0, pos),
        ensures
            forall|t: int| t < self.base + pos ==> !#[trigger] self@.fits(t, count, align),
    {
        assert forall|t: int| t < self.base + pos implies !#[trigger] self@.fits(
            t,
            count,
            align,
        ) by {
            if self@.fits(t, count, align) {
                assert(self@.free.contains(t));
                assert(bit_at(self.free@, t - self.base));
            }
        }
    }

    /// Lowest free slice.
    fn find_single(&self) -> (r: Option<usize>)
        requires
            self.wf(),
        ensures
            r matches Some(rel) ==> rel + 1 <= 64 * WORDS && self@.lowest_fit(
                self@.base + rel,
                1,
                1,
            ),
            r is None ==> !self@.has_fit(1, 1),
    {
        let mut w: usize = self.hint;
        while w < WORDS
            invariant
                self.wf(),
                w <= WORDS,
                no_bits(self.free@, 0, 64 * w),
            decreases WORDS - w,
        {
            let b: u64 = self.free[w];
            if b != 0 {
                let t: u32 = b.trailing_zeros();
                proof {
                    lemma_lowest_bit(b);
                    let i: int = 64 * w + t;
                    assert(i / 64 == w && i % 64 == t);
                    assert(bit_at(self.free@, i));
                    assert forall|x: int| 0 <= x < i implies !#[trigger] bit_at(self.free@, x) by {
                        if x >= 64 * w {
                            assert(x / 64 == w);
                            assert(!bit(b, x % 64));
                        }
                    }
                    self.lemma_no_fit_below(i, 1, 1);
                    self.lemma_fits(self.base + i, 1, 1);
                }
                return Some(w * BITS + t as usize);
            }
            proof {
                lemma_word_extremes(b);
                assert forall|x: int| 0 <= x < 64 * (w + 1) implies !#[trigger] bit_at(
                    self.free@,
                    x,
                ) by {
                    if x >= 64 * w {
                        assert(x / 64 == w);
                        assert(!bit(b, x % 64));
                    }
                }
            }
            w = w + 1;
        }
        proof {
            self.lemma_no_fit_below(64 * WORDS, 1, 1);
        }
        None
    }

    /// An aligned run of eight slices is a byte of a word.
    #[verifier::spinoff_prover]
    #[verifier::rlimit(40)]
    proof fn lemma_fits_byte(&self, s: int)
        requires
            self.wf(),
            self.base <= s < self.base + 64 * WORDS,
        ensures
            self@.fits(s, 8, 8) <==> {
                &&& ((s - self.base) % 64) % 8 == 0
                &&& forall|k: int|
                    (s - self.base) % 64 <= k < (s - self.base) % 64 + 8 ==> #[trigger] bit(
                        self.free@[(s - self.base) / 64],
                        k,
                    )
            },
    {
        let i: int = s - self.base;
        let w: int = i / 64;
        let j: int = i % 64;
        self.lemma_fits(s, 8, 8);
        assert(s % 8 == 0 <==> j % 8 == 0);
        if j % 8 == 0 {
            assert(j + 8 <= 64);
            if all_bits(self.free@, i, i + 8) {
                assert forall|k: int| j <= k < j + 8 implies #[trigger] bit(self.free@[w], k) by {
                    let x: int = 64 * w + k;
                    assert(x / 64 == w && x % 64 == k);
                    assert(bit_at(self.free@, x));
                }
            }
            if forall|k: int| j <= k < j + 8 ==> #[trigger] bit(self.free@[w], k) {
                assert forall|x: int| i <= x < i + 8 implies #[trigger] bit_at(self.free@, x) by {
                    assert(x / 64 == w && x % 64 == j + (x - i));
                    assert(bit(self.free@[w], x % 64));
                }
            }
        }
    }

    /// Lowest 8-aligned run of 8 free slices. `base` is a multiple of 64, so such a run is
    /// exactly an all-ones byte of a word.
    fn find_byte(&self) -> (r: Option<usize>)
        requires
            self.wf(),
        ensures
            r matches Some(rel) ==> rel + 8 <= 64 * WORDS && self@.lowest_fit(
                self@.base + rel,
                8,
                8,
            ),
            r is None ==> !self@.has_fit(8, 8),
    {
        let mut w: usize = self.hint;
        proof {
            self.lemma_no_fit_below(64 * self.hint, 8, 8);
        }
        while w < WORDS
            invariant
                self.wf(),
                w <= WORDS,
                forall|t: int| t < self.base + 64 * w ==> !#[trigger] self@.fits(t, 8, 8),
            decreases WORDS - w,
        {
            let b: u64 = self.free[w];
            let x: u64 = full_bytes(b);
            if x != 0 {
                let t: u32 = x.trailing_zeros();
                proof {
                    lemma_lowest_bit(x);
                    let i: int = 64 * w + t;
                    assert(i / 64 == w && i % 64 == t);
                    assert(bit(x, t as int));
                    self.lemma_fits_byte(self.base + i);
                    assert(self@.fits(self.base + i, 8, 8));
                    assert forall|y: int| y < self.base + i implies !#[trigger] self@.fits(
                        y,
                        8,
                        8,
                    ) by {
                        if y >= self.base + 64 * w {
                            let j: int = y - self.base - 64 * w;
                            assert((y - self.base) / 64 == w && (y - self.base) % 64 == j);
                            self.lemma_fits_byte(y);
                            assert(!bit(x, j));
                        }
                    }
                }
                return Some(w * BITS + t as usize);
            }
            proof {
                lemma_word_extremes(x);
                assert forall|y: int| y < self.base + 64 * (w + 1) implies !#[trigger] self@.fits(
                    y,
                    8,
                    8,
                ) by {
                    if y >= self.base + 64 * w {
                        let j: int = y - self.base - 64 * w;
                        assert((y - self.base) / 64 == w && (y - self.base) % 64 == j);
                        self.lemma_fits_byte(y);
                        assert(!bit(x, j));
                    }
                }
            }
            w = w + 1;
        }
        None
    }

    /// Lowest 64-aligned run of 64 free slices: an all-ones word.
    fn find_word(&self) -> (r: Option<usize>)
        requires
            self.wf(),
        ensures
            r matches Some(rel) ==> rel + 64 <= 64 * WORDS && self@.lowest_fit(
                self@.base + rel,
                64,
                64,
            ),
            r is None ==> !self@.has_fit(64, 64),
    {
        let mut w: usize = self.hint;
        proof {
            self.lemma_no_fit_below(64 * self.hint, 64, 64);
        }
        while w < WORDS
            invariant
                self.wf(),
                w <= WORDS,
                forall|t: int| t < self.base + 64 * w ==> !#[trigger] self@.fits(t, 64, 64),
            decreases WORDS - w,
        {
            proof {
                lemma_word_extremes(self.free@[w as int]);
                self.lemma_fits(self.base + 64 * w, 64, 64);
            }
            if self.free[w] == u64::MAX {
                proof {
                    assert forall|x: int| 64 * w <= x < 64 * w + 64 implies #[trigger] bit_at(
                        self.free@,
                        x,
                    ) by {
                        assert(x / 64 == w);
                    }
                }
                return Some(w * BITS);
            }
            proof {
                assert forall|y: int| y < self.base + 64 * (w + 1) implies !#[trigger] self@.fits(
                    y,
                    64,
                    64,
                ) by {
                    if y >= self.base + 64 * w && self@.fits(y, 64, 64) {
                        assert(y == self.base + 64 * w);
                        assert forall|k: int| 0 <= k < 64 implies #[trigger] bit(
                            self.free@[w as int],
                            k,
                        ) by {
                            let x: int = 64 * w + k;
                            assert(x / 64 == w && x % 64 == k);
                            assert(bit_at(self.free@, x));
                        }
                    }
                }
            }
            w = w + 1;
        }
        None
    }

    /// First fit over maximal runs of free slices, lowest address first.
    fn find_general(&self, count: usize, align: usize) -> (r: Option<usize>)
        requires
            self.wf(),
            count >= 1,
            is_pow2(align as int),
        ensures
            r matches Some(rel) ==> rel + count <= 64 * WORDS && self@.lowest_fit(
                self@.base + rel,
                count as int,
                align as int,
            ),
            r is None ==> !self@.has_fit(count as int, align as int),
    {
        let ghost c: int = count as int;
        let ghost a: int = align as int;
        if count > WORDS * BITS {
            return None;
        }
        let mut pos: usize = self.hint * BITS;
        proof {
            lemma_pow2_positive(a);
            self.lemma_no_fit_below(pos as int, c, a);
        }
        loop
            invariant
                self.wf(),
                pos <= 64 * WORDS,
                c == count >= 1,
                a == align,
                is_pow2(a),
                a >= 1,
                forall|t: int| t < self.base + pos ==> !#[trigger] self@.fits(t, c, a),
            decreases 64 * WORDS - pos,
        {
            let lo: usize = match next_set(&self.free, pos) {
                Some(lo) => lo,
                None => {
                    proof {
                        assert forall|t: int| !#[trigger] self@.fits(t, c, a) by {
                            if self@.fits(t, c, a) {
                                assert(self@.free.contains(t));
                                assert(bit_at(self.free@, t - self.base));
                            }
                        }
                    }
                    return None;
                },
            };
            let hi: usize = next_clear(&self.free, lo);
            proof {
                assert(hi > lo) by {
                    if hi == lo {
                        assert(!bit_at(self.free@, hi as int));
                    }
                }
                lemma_round_up(self.base + lo, a);
                // Below `lo` nothing fits, and inside the run a fit starts at an aligned slice
                // and ends inside the run.
                assert forall|t: int| t < self.base + hi && #[trigger] self@.fits(t, c, a) implies t
                    >= round_up(self.base + lo, a) && t + c <= self.base + hi by {
                    self.lemma_fits(t, c, a);
                    if t < self.base + lo {
                        assert(bit_at(self.free@, t - self.base));
                    }
                    if t + c > self.base + hi {
                        assert(bit_at(self.free@, hi as int));
                    }
                    assert(t % a == 0);
                }
            }
            // A later aligned start would leave even less room before `hi`, so if this one does
            // not fit nothing in the run does.
            match self.align_up(lo, align) {
                Some(start) => {
                    if start <= hi && hi - start >= count {
                        proof {
                            let s: int = self.base + start;
                            self.lemma_fits(s, c, a);
                            assert forall|x: int| start <= x < start + c implies #[trigger] bit_at(
                                self.free@,
                                x,
                            ) by {}
                            assert(self@.fits(s, c, a));
                            assert forall|t: int| t < s implies !#[trigger] self@.fits(t, c, a) by {
                                if self@.fits(t, c, a) {
                                    assert(t >= round_up(self.base + lo, a));
                                }
                            }
                        }
                        return Some(start);
                    }
                    proof {
                        assert forall|t: int| t < self.base + hi implies !#[trigger] self@.fits(
                            t,
                            c,
                            a,
                        ) by {
                            if self@.fits(t, c, a) {
                                assert(t >= round_up(self.base + lo, a));
                            }
                        }
                    }
                },
                None => {
                    proof {
                        assert forall|t: int| !#[trigger] self@.fits(t, c, a) by {
                            self.lemma_fits(t, c, a);
                            if self@.fits(t, c, a) {
                                assert(t >= self.base + lo);
                                assert(t % a == 0);
                                assert(t >= round_up(self.base + lo, a));
                            }
                        }
                    }
                    return None;
                },
            }
            pos = hi;
        }
    }

    /// Lowest relative index at or above `rel` whose absolute index is a multiple of `align`, if
    /// a `usize` can express it.
    fn align_up(&self, rel: usize, align: usize) -> (r: Option<usize>)
        requires
            self.wf(),
            rel <= 64 * WORDS,
            is_pow2(align as int),
        ensures
            r matches Some(s) ==> self.base + s == round_up(self.base + rel, align as int),
            r is None ==> round_up(self.base + rel, align as int) > usize::MAX,
    {
        proof {
            lemma_pow2_positive(align as int);
        }
        let over: usize = (self.base + rel) % align;
        if over == 0 {
            Some(rel)
        } else {
            rel.checked_add(align - over)
        }
    }

    /// Relative index of the lowest aligned start of `count` slices inside the free tail ending
    /// at the absolute index `below`, if the tail is that long.
    fn find_tail(&self, count: usize, align: usize, below: usize) -> (r: Option<usize>)
        requires
            self.wf(),
            count >= 1,
            is_pow2(align as int),
        ensures
            r is Some <==> exists|lo: int|
                {
                    &&& #[trigger] self@.free_tail(lo, min(below as int, self@.limit))
                    &&& round_up(lo, align as int) + count <= min(below as int, self@.limit)
                },
            r matches Some(rel) ==> {
                &&& exists|lo: int|
                    {
                        &&& #[trigger] self@.free_tail(lo, min(below as int, self@.limit))
                        &&& self@.base + rel == round_up(lo, align as int)
                    }
                &&& self@.base + rel + count <= min(below as int, self@.limit)
                &&& self@.fits(self@.base + rel, count as int, align as int)
            },
    {
        let ghost a: int = align as int;
        let ghost hi: int = min(below as int, self@.limit);
        proof {
            lemma_pow2_positive(a);
        }
        let mut end: usize = below.saturating_sub(self.base);
        if end > WORDS * BITS {
            end = WORDS * BITS;
        }
        if end == 0 {
            return None;
        }
        let last: usize = end - 1;
        if (self.free[last / BITS] >> ((last % BITS) as u64)) & 1 != 1 {
            proof {
                assert(!bit_at(self.free@, last as int));
                assert forall|lo: int| !#[trigger] self@.free_tail(lo, hi) by {
                    if self@.free_tail(lo, hi) {
                        assert(self@.free.contains(self.base + last));
                    }
                }
            }
            return None;
        }
        let lo: usize = match prev_clear(&self.free, last) {
            Some(c) => c + 1,
            None => 0,
        };
        proof {
            let b: int = self.base as int;
            assert(all_bits(self.free@, lo as int, end as int)) by {
                assert forall|i: int| lo <= i < end implies #[trigger] bit_at(self.free@, i) by {
                    if i == last {
                    }
                }
            }
            self.lemma_run_free(lo as int, end - lo);
            if lo > 0 {
                assert(!bit_at(self.free@, lo - 1));
                assert(!self@.free.contains(b + lo - 1));
            }
            assert(self@.free_tail(b + lo, hi));
            assert forall|x: int| #[trigger] self@.free_tail(x, hi) implies x == b + lo by {
                if x < b + lo {
                    assert(self@.free.contains(b + lo - 1));
                }
                if x > b + lo {
                    assert(self@.free.contains(x - 1));
                }
            }
            lemma_round_up(b + lo, a);
        }
        match self.align_up(lo, align) {
            Some(start) => {
                if start <= end && end - start >= count {
                    proof {
                        let s: int = self.base + start;
                        self.lemma_fits(s, count as int, a);
                        assert(all_bits(self.free@, start as int, start + count)) by {
                            assert forall|i: int| start <= i < start + count implies #[trigger] bit_at(
                                self.free@,
                                i,
                            ) by {
                                assert(self@.free.contains(self.base + i));
                            }
                        }
                    }
                    Some(start)
                } else {
                    None
                }
            },
            None => None,
        }
    }
}

/// The set bits of a stretch of the bitmap, counted.
proof fn lemma_count_bits(words: Seq<u64>, base: int, n: int)
    requires
        n >= 0,
    ensures
        count_bits(words, n) == Set::new(|s: int| base <= s < base + n && bit_at(words, s - base)).len(),
        Set::new(|s: int| base <= s < base + n && bit_at(words, s - base)).finite(),
    decreases n,
{
    let all = Set::new(|s: int| base <= s < base + n && bit_at(words, s - base));
    if n == 0 {
        assert(all =~= Set::<int>::empty());
    } else {
        let below = Set::new(|s: int| base <= s < base + (n - 1) && bit_at(words, s - base));
        lemma_count_bits(words, base, n - 1);
        if bit_at(words, n - 1) {
            assert(all =~= below.insert(base + n - 1));
        } else {
            assert(all =~= below);
        }
    }
}

impl<const WORDS: usize> SliceMap<WORDS> {
    /// Number of free slices.
    pub fn free_count(&self) -> (r: usize)
        requires
            self.wf(),
        ensures
            self@.free.finite(),
            r == self@.free.len(),
    {
        proof {
            lemma_count_bits(self.free@, self.base as int, 64 * WORDS);
            assert(self@.free =~= Set::new(
                |s: int|
                    self.base <= s < self.base + 64 * WORDS && bit_at(
                        self.free@,
                        s - self.base as int,
                    ),
            ));
        }
        count_ones(&self.free)
    }
}

/// How much to grow linear memory when the map runs dry, in slices.
///
/// The step is a fraction of the current heap, clamped to a range; a request larger than the
/// step is always granted in full.
#[derive(Clone, Copy, Debug, PartialEq, Eq, Structural)]
pub struct GrowPolicy {
    /// Smallest step.
    pub min_grow: usize,
    /// Largest step (a single request may still exceed it).
    pub max_grow: usize,
    /// The step is the heap size divided by this (an eighth for 8), before clamping. Non-zero.
    pub step_divisor: usize,
}

impl GrowPolicy {
    /// The growth step for a heap of `heap` slices.
    pub open spec fn spec_step(&self, heap: int) -> int {
        min(max(heap / self.step_divisor as int, self.min_grow as int), self.max_grow as int)
    }

    /// The growth step for a heap of `heap` slices: the policy's fraction of it, clamped to the
    /// policy's range.
    #[inline]
    pub fn step(&self, heap: usize) -> (r: usize)
        requires
            self.step_divisor > 0,
        ensures
            r == self.spec_step(heap as int),
    {
        let part: usize = heap / self.step_divisor;
        let raised: usize = if part >= self.min_grow {
            part
        } else {
            self.min_grow
        };
        if raised <= self.max_grow {
            raised
        } else {
            self.max_grow
        }
    }
}

impl Default for GrowPolicy {
    /// An eighth of the heap, between 1 MiB and 64 MiB per step.
    fn default() -> (r: Self)
        ensures
            r == (GrowPolicy { min_grow: 16, max_grow: 1024, step_divisor: 8 }),
    {
        GrowPolicy { min_grow: 16, max_grow: 1024, step_divisor: 8 }
    }
}

/// Every free slice of the map is the allocator's memory, and what the map calls zero is zero.
pub open spec fn backed<M: Memory>(m: SliceModel, mem: &M) -> bool {
    &&& in_order(mem)
    &&& m.base <= mem.end()
    &&& forall|s: int| #[trigger] m.free.contains(s) ==> mem.owns(s)
    &&& forall|a: int|
        #![trigger mem.words()[a]]
        a % 8 == 0 && m.zero.contains(slice_of(a)) ==> mem.words()[a] == 0
}

/// Every word of the slices `[start, start + count)` is zero.
pub open spec fn slices_zero<M: Memory>(mem: &M, start: int, count: int) -> bool {
    forall|a: int|
        #![trigger mem.words()[a]]
        a % 8 == 0 && start <= slice_of(a) < start + count ==> mem.words()[a] == 0
}

/// `new` is `old` after some growth: nothing the allocator owned has changed or gone, and what came
/// is beyond the old end.
pub open spec fn grown_from<M: Memory>(old: &M, new: &M) -> bool {
    &&& in_order(new)
    &&& new.base_addr() == old.base_addr()
    &&& new.end() >= old.end()
    &&& only_more(old.growths(), new.growths())
    &&& forall|s: int| old.owns(s) ==> #[trigger] new.owns(s)
    &&& forall|s: int| s < old.end() ==> #[trigger] new.owns(s) == old.owns(s)
    &&& forall|a: int|
        #![trigger new.words()[a]]
        a % 8 == 0 && old.owns(slice_of(a)) ==> new.words()[a] == old.words()[a]
}

/// The memory is the same in every respect the allocator can see.
pub open spec fn same_memory<M: Memory>(old: &M, new: &M) -> bool {
    &&& in_order(new)
    &&& new.base_addr() == old.base_addr()
    &&& new.end() >= old.end()
    &&& new.words() == old.words()
    &&& forall|s: int| #[trigger] new.owns(s) == old.owns(s)
}

/// The model after every slice that `new` owns beyond `old` has been added as fresh memory, as
/// far as the map can hand it out.
pub open spec fn with_fresh<M: Memory>(m: SliceModel, old: &M, new: &M) -> SliceModel {
    let fresh = Set::new(
        |s: int| new.owns(s) && !old.owns(s) && m.base <= s < m.usable_limit(),
    );
    SliceModel { free: m.free.union(fresh), zero: m.zero.union(fresh), ..m }
}

/// Memory was asked to grow since `old`, and refused the last request, which was for `n` slices.
pub open spec fn refused<M: Memory>(old: &M, new: &M, n: int) -> bool {
    new.growths().len() > old.growths().len() && new.growths().last() == asked(n, None)
}

/// Memory was asked to grow since `old`, and refused the first request, which was for `n` slices.
pub open spec fn first_refused<M: Memory>(old: &M, new: &M, n: int) -> bool {
    new.growths().len() > old.growths().len() && new.growths()[old.growths().len() as int] == asked(
        n,
        None,
    )
}

/// Why [`acquire`] finds nothing: the request does not fit below the end of the map, memory
/// refused to grow by what it needs, or memory grew elsewhere than at its end and, after that,
/// what the request needs at worst does not fit below the end of the map or was refused.
pub open spec fn acquire_refused<M: Memory>(
    limit: int,
    old: &M,
    new: &M,
    count: int,
    align: int,
) -> bool {
    let needed = slices_needed(old.end() as int, count, align);
    let worst = count + align - 1;
    ||| old.end() + needed > limit
    ||| refused(old, new, needed)
    ||| {
        &&& new.end() > old.end()
        &&& !new.owns(old.end() as int)
        &&& new.end() + worst > limit || refused(old, new, worst)
    }
}

/// The slices `new` owns beyond `old` are the two given runs.
pub open spec fn grew_by<M: Memory>(old: &M, new: &M, s1: int, n1: int, s2: int, n2: int) -> bool {
    forall|s: int| #[trigger]
        new.owns(s) <==> old.owns(s) || s1 <= s < s1 + n1 || s2 <= s < s2 + n2
}

/// The requests of a round of growth that brings the `n` slices from `first`, or none: memory is
/// asked for `wanted` slices and, if those are refused and more than the `needed` ones, for the
/// latter.
pub open spec fn round_of(wanted: int, needed: int, first: int, n: int) -> Seq<Growth> {
    let came = Growth { slices: n, first: Some(first) };
    if n == wanted {
        seq![came]
    } else if n == needed {
        seq![asked(wanted, None), came]
    } else if wanted == needed {
        seq![asked(wanted, None)]
    } else {
        seq![asked(wanted, None), asked(needed, None)]
    }
}

/// One round of growth: memory grows by the `n` slices from `first`, which are as many as were
/// wanted or as are needed, or by none, with the requests that this takes and no others.
pub open spec fn grew_once<M: Memory>(
    old: &M,
    new: &M,
    first: int,
    n: int,
    wanted: int,
    needed: int,
) -> bool {
    &&& forall|s: int| #[trigger] new.owns(s) <==> old.owns(s) || first <= s < first + n
    &&& new.end() >= old.end()
    &&& n == 0 || {
        &&& n == wanted || n == needed
        &&& old.end() <= first
        &&& first + n <= new.end()
    }
    &&& new.growths() == old.growths() + round_of(wanted, needed, first, n)
}

/// The slack from the end of memory to the next slice whose index is a multiple of `align`, plus
/// `count`: what a request needs when fresh memory starts at the end.
pub open spec fn slices_needed(end: int, count: int, align: int) -> int {
    round_up(end, align) - end + count
}

/// What memory is asked to grow by for a request that needs `needed` slices: that, or the step
/// of the policy if that is larger, within the map.
pub open spec fn slices_wanted(m: SliceModel, end: int, needed: int, policy: GrowPolicy) -> int {
    min(
        max(needed, policy.spec_step(max(end - m.base, 0))),
        max(m.usable_limit() - end, 0),
    )
}

/// What to grow memory by, and what to settle for, given the end of memory: `None` when the
/// request does not fit below the end of the map.
pub fn plan_growth<const WORDS: usize>(
    map: &SliceMap<WORDS>,
    end: usize,
    needed: usize,
    policy: &GrowPolicy,
) -> (r: Option<usize>)
    requires
        map.wf(),
        policy.step_divisor > 0,
    ensures
        r is Some <==> end + needed <= map@.usable_limit() || needed == 0,
        r matches Some(want) ==> {
            &&& want == slices_wanted(map@, end as int, needed as int, *policy)
            &&& want >= needed
            &&& want > 0 ==> end + want <= map@.usable_limit()
        },
{
    let limit: usize = map.usable_limit();
    let room: usize = limit.saturating_sub(end);
    if needed > room {
        return None;
    }
    let step: usize = growth_step(map, end, policy);
    let want: usize = if needed >= step {
        needed
    } else {
        step
    };
    if want <= room {
        Some(want)
    } else {
        Some(room)
    }
}

/// The geometric step for growing memory whose end is at absolute slice `end`. The heap size it
/// is taken from runs from the map's base, not from slice 0.
fn growth_step<const WORDS: usize>(map: &SliceMap<WORDS>, end: usize, policy: &GrowPolicy) -> (r:
    usize)
    requires
        map.wf(),
        policy.step_divisor > 0,
    ensures
        r == policy.spec_step(max(end - map@.base, 0)),
{
    policy.step(end.saturating_sub(map.base()))
}

/// Record a grown region as free, zeroed slices. The part the map cannot hand out, if any, is
/// lost.
fn add_region<const WORDS: usize>(map: &mut SliceMap<WORDS>, start: usize, count: usize)
    requires
        old(map).wf(),
        old(map)@.base <= start,
        old(map)@.run_taken(start as int, count as int),
    ensures
        final(map).wf(),
        final(map)@.hint_lowered(old(map).spec_hint(), final(map).spec_hint()),
        final(map)@ == (SliceModel {
            free: old(map)@.free.union(
                Set::new(
                    |s: int| start <= s < start + count && s < old(map)@.usable_limit(),
                ),
            ),
            zero: old(map)@.zero.union(
                Set::new(
                    |s: int| start <= s < start + count && s < old(map)@.usable_limit(),
                ),
            ),
            ..old(map)@
        }),
{
    let limit: usize = map.usable_limit();
    let end: usize = start.saturating_add(count);
    let stop: usize = if end <= limit {
        end
    } else {
        limit
    };
    if start < stop {
        map.add_free(start, stop - start, true);
    }
    proof {
        map.lemma_wf_facts();
        if start < stop {
            assert(map@.free.contains(start as int));
        }
        assert(map@ =~= (SliceModel {
            free: old(map)@.free.union(
                Set::new(|s: int| start <= s < start + count && s < old(map)@.usable_limit()),
            ),
            zero: old(map)@.zero.union(
                Set::new(|s: int| start <= s < start + count && s < old(map)@.usable_limit()),
            ),
            ..old(map)@
        }));
    }
}

/// Grow memory by `want` slices, or by `need` if that is refused, and give the region to the map.
/// Returns where the region starts.
fn grow_into<const WORDS: usize, M: Memory>(
    map: &mut SliceMap<WORDS>,
    mem: &mut M,
    want: usize,
    need: usize,
) -> (r: Option<(usize, usize)>)
    requires
        old(map).wf(),
        backed(old(map)@, old(mem)),
        want >= need >= 1,
    ensures
        final(map).wf(),
        backed(final(map)@, final(mem)),
        grown_from(old(mem), final(mem)),
        final(map)@ == with_fresh(old(map)@, old(mem), final(mem)),
        final(map)@.hint_lowered(old(map).spec_hint(), final(map).spec_hint()),
        r is None ==> final(map).spec_hint() == old(map).spec_hint(),
        ({
            let (first, n): (int, int) = match r {
                Some((start, got)) => (start as int, got as int),
                None => (0, 0),
            };
            grew_once(old(mem), final(mem), first, n, want as int, need as int)
        }),
        r is None ==> final(map)@ == old(map)@ && same_memory(old(mem), final(mem)) && refused(
            old(mem),
            final(mem),
            need as int,
        ),
        r matches Some((start, got)) ==> {
            &&& got == want || (got == need && first_refused(old(mem), final(mem), want as int))
            &&& start >= old(mem).end()
            &&& start + got <= final(mem).end()
            &&& forall|s: int| #[trigger]
                final(mem).owns(s) <==> old(mem).owns(s) || start <= s < start + got
        },
{
    proof {
        map.lemma_wf_facts();
    }
    let grown: Option<(usize, usize)> = match mem.grow(want) {
        Some(start) => Some((start, want)),
        None => {
            if want > need {
                match mem.grow(need) {
                    Some(start) => Some((start, need)),
                    None => None,
                }
            } else {
                None
            }
        },
    };
    proof {
        let (first, n): (int, int) = match grown {
            Some((start, got)) => (start as int, got as int),
            None => (0, 0),
        };
        assert(mem.growths() =~= old(mem).growths() + round_of(
            want as int,
            need as int,
            first,
            n,
        ));
    }
    match grown {
        Some((start, got)) => {
            proof {
                assert forall|s: int| start <= s < start + got implies !#[trigger] map@.free.contains(
                    s,
                ) by {
                    if map@.free.contains(s) {
                        assert(old(mem).owns(s));
                    }
                }
                assert forall|s: int| #[trigger] old(mem).owns(s) implies !(start <= s < start
                    + got) by {
                }
            }
            add_region(map, start, got);
            proof {
                assert(map@ =~= with_fresh(old(map)@, old(mem), mem));
                assert forall|a: int|
                    #![trigger mem.words()[a]]
                    a % 8 == 0 && map@.zero.contains(slice_of(a)) implies mem.words()[a] == 0 by {
                    if !(start <= slice_of(a) < start + got) {
                        assert(old(map)@.zero.contains(slice_of(a)));
                        assert(old(map)@.free.contains(slice_of(a)));
                        assert(old(mem).words()[a] == 0);
                    }
                }
            }
        },
        None => {
            proof {
                assert(map@ =~= with_fresh(old(map)@, old(mem), mem));
            }
        },
    }
    grown
}

/// [`SliceMap::allocate`], growing linear memory when the map has no fitting run.
///
/// The request is sized from the current end of memory: the slack up to the next aligned slice
/// plus `count`, or the geometric step of `policy` if that is larger. Should the fresh region
/// start elsewhere (something else grew memory in between) that slack is wrong, so memory is
/// grown once more by `count + align - 1`, which fits an aligned run wherever it lands. Whatever
/// was grown is in the map afterwards, and the run is the lowest that fits there; `None` means
/// that none does.
pub fn acquire<const WORDS: usize, M: Memory>(
    map: &mut SliceMap<WORDS>,
    mem: &mut M,
    count: usize,
    align: usize,
    policy: &GrowPolicy,
) -> (r: Option<Run>)
    requires
        old(map).wf(),
        backed(old(map)@, old(mem)),
        count >= 1,
        is_pow2(align as int),
        policy.step_divisor > 0,
    ensures
        final(map).wf(),
        backed(final(map)@, final(mem)),
        grown_from(old(mem), final(mem)),
        old(map)@.has_fit(count as int, align as int) ==> *final(mem) == *old(mem),
        acquired(old(map)@, final(map)@, old(mem), final(mem), count as int, align as int, r),
        r matches Some(run) ==> (run.zeroed ==> slices_zero(
            final(mem),
            run.start as int,
            count as int,
        )),
        acquire_growth(old(map)@, old(mem), final(mem), count as int, align as int, *policy),
        growth_requested(old(map)@, old(mem), final(mem), count as int, align as int, *policy),
        old(mem).end() + slices_needed(old(mem).end() as int, count as int, align as int)
            > old(map)@.usable_limit() ==> *final(mem) == *old(mem),
        with_fresh(old(map)@, old(mem), final(mem)).first_group(final(map).spec_hint()),
        r is None ==> acquire_refused(
            old(map)@.usable_limit(),
            old(mem),
            final(mem),
            count as int,
            align as int,
        ),
{
    match map.allocate(count, align) {
        Some(run) => {
            proof {
                lemma_acquired_from_map(old(map)@, mem, count as int, align as int, run);
                assert(with_fresh(old(map)@, old(mem), mem) =~= old(map)@);
                if run.zeroed {
                    assert forall|a: int|
                        #![trigger mem.words()[a]]
                        a % 8 == 0 && run.start <= slice_of(a) < run.start + count implies mem.words()[a]
                        == 0 by {
                        assert(old(map)@.zero.contains(slice_of(a)));
                    }
                }
                assert(grew_by(old(mem), mem, 0, 0, 0, 0));
            }
            Some(run)
        },
        None => grow_and_alloc(map, mem, count, align, policy),
    }
}

/// What [`acquire`] hands out: the lowest run that fits in the map together with the memory that
/// was grown, or nothing if none fits there.
pub open spec fn acquired<M: Memory>(
    before: SliceModel,
    after: SliceModel,
    old: &M,
    new: &M,
    count: int,
    align: int,
    r: Option<Run>,
) -> bool {
    let grown = with_fresh(before, old, new);
    &&& r is Some <==> grown.has_fit(count, align)
    &&& r matches Some(run) ==> {
        &&& grown.lowest_fit(run.start as int, count, align)
        &&& run.zeroed == grown.run_zero(run.start as int, count)
        &&& after == grown.taken(run.start as int, count)
    }
    &&& r is None ==> after == grown
}

/// Memory grew by the `n` slices that were wanted or, since those were refused, by the `needed`
/// ones.
pub open spec fn grown_as_wanted<M: Memory>(
    old: &M,
    new: &M,
    n: int,
    wanted: int,
    needed: int,
) -> bool {
    n == wanted || (n == needed && first_refused(old, new, wanted))
}

/// How much [`acquire`] grows memory by: nothing while the map has a fit or the request does not
/// fit below the end of the map, otherwise what is wanted or, if that is refused, what is needed,
/// and once more `count + align - 1` if the first region was of no use.
pub open spec fn acquire_growth<M: Memory>(
    m: SliceModel,
    old: &M,
    new: &M,
    count: int,
    align: int,
    policy: GrowPolicy,
) -> bool {
    let end = old.end() as int;
    let needed = slices_needed(end, count, align);
    exists|s1: int, n1: int, s2: int, n2: int|
        {
            &&& #[trigger] grew_by(old, new, s1, n1, s2, n2)
            &&& n1 == 0 || {
                &&& !m.has_fit(count, align)
                &&& end + needed <= m.usable_limit()
                &&& grown_as_wanted(old, new, n1, slices_wanted(m, end, needed, policy), needed)
            }
            &&& n2 == 0 || (n1 > 0 && s1 != end && n2 == count + align - 1)
        }
}

/// What [`acquire`] asks memory for: nothing while the map has a fit or the request does not fit
/// below the end of the map; otherwise what is wanted, then what is needed if that is refused and
/// less, and once more `count + align - 1` if slices came but hold no fit and those may fit below
/// the end of the map.
pub open spec fn growth_requested<M: Memory>(
    m: SliceModel,
    old: &M,
    new: &M,
    count: int,
    align: int,
    policy: GrowPolicy,
) -> bool {
    let end = old.end() as int;
    let needed = slices_needed(end, count, align);
    let wanted = slices_wanted(m, end, needed, policy);
    if m.has_fit(count, align) || end + needed > m.usable_limit() {
        same_extent(old, new)
    } else {
        exists|mid: M, first: int, n: int|
            {
                &&& #[trigger] grew_once(old, &mid, first, n, wanted, needed)
                &&& requested_again(m, old, &mid, new, count, align, n)
            }
    }
}

/// The second round of what [`acquire`] asks for, after a first one that brought `n` slices and
/// left memory as `mid`.
pub open spec fn requested_again<M: Memory>(
    m: SliceModel,
    old: &M,
    mid: &M,
    new: &M,
    count: int,
    align: int,
    n: int,
) -> bool {
    let worst = count + align - 1;
    if n == 0 || with_fresh(m, old, mid).has_fit(count, align) || mid.end() + worst
        > m.usable_limit() {
        same_extent(mid, new)
    } else {
        exists|first: int, k: int| #[trigger] grew_once(mid, new, first, k, worst, worst)
    }
}

/// What is asked for between `b` and `c` is asked for between `a` and `d` if nothing grows before
/// and after.
pub proof fn lemma_requests_between<M: Memory>(
    m: SliceModel,
    a: &M,
    b: &M,
    c: &M,
    d: &M,
    count: int,
    align: int,
    policy: GrowPolicy,
)
    requires
        same_extent(a, b),
        growth_requested(m, b, c, count, align, policy),
        same_extent(c, d),
    ensures
        growth_requested(m, a, d, count, align, policy),
{
    let end = b.end() as int;
    let needed = slices_needed(end, count, align);
    let wanted = slices_wanted(m, end, needed, policy);
    assert forall|s: int| #[trigger] a.owns(s) == b.owns(s) by {}
    assert forall|s: int| #[trigger] d.owns(s) == c.owns(s) by {
        assert(c.owns(s) == d.owns(s));
    }
    if !m.has_fit(count, align) && end + needed <= m.usable_limit() {
        let (mid, first, n): (M, int, int) = choose|mid: M, first: int, n: int|
            {
                &&& #[trigger] grew_once(b, &mid, first, n, wanted, needed)
                &&& requested_again(m, b, &mid, c, count, align, n)
            };
        assert forall|s: int| #[trigger] mid.owns(s) <==> a.owns(s) || first <= s < first + n by {
            assert(a.owns(s) == b.owns(s));
        }
        assert(grew_once(a, &mid, first, n, wanted, needed));
        assert(with_fresh(m, a, &mid) =~= with_fresh(m, b, &mid)) by {
            assert forall|s: int| #[trigger] b.owns(s) == a.owns(s) by {
                assert(a.owns(s) == b.owns(s));
            }
        }
        let worst = count + align - 1;
        if n == 0 || with_fresh(m, b, &mid).has_fit(count, align) || mid.end() + worst
            > m.usable_limit() {
            assert(same_extent(&mid, d));
        } else {
            let (f, k): (int, int) = choose|f: int, k: int| #[trigger]
                grew_once(&mid, c, f, k, worst, worst);
            assert(grew_once(&mid, d, f, k, worst, worst));
        }
        assert(requested_again(m, a, &mid, d, count, align, n));
    }
}

/// What memory owned before it was asked to grow is what it owns of that part afterwards, and no
/// request is forgotten.
pub proof fn lemma_requests_only_add<M: Memory>(
    m: SliceModel,
    old: &M,
    new: &M,
    count: int,
    align: int,
    policy: GrowPolicy,
)
    requires
        growth_requested(m, old, new, count, align, policy),
    ensures
        new.end() >= old.end(),
        only_more(old.growths(), new.growths()),
        forall|s: int| s < old.end() ==> #[trigger] new.owns(s) == old.owns(s),
{
    let end = old.end() as int;
    let needed = slices_needed(end, count, align);
    let wanted = slices_wanted(m, end, needed, policy);
    assert forall|s: int| s < old.end() implies #[trigger] new.owns(s) == old.owns(s) by {
        if m.has_fit(count, align) || end + needed > m.usable_limit() {
            assert(old.owns(s) == new.owns(s));
        } else {
            let (mid, first, n): (M, int, int) = choose|mid: M, first: int, n: int|
                {
                    &&& #[trigger] grew_once(old, &mid, first, n, wanted, needed)
                    &&& requested_again(m, old, &mid, new, count, align, n)
                };
            assert(mid.owns(s) == old.owns(s));
        }
    }
}

/// The two memories have the same extent and were asked for the same.
pub open spec fn same_extent<M: Memory>(a: &M, b: &M) -> bool {
    &&& a.end() == b.end()
    &&& a.growths() == b.growths()
    &&& forall|s: int| #[trigger] a.owns(s) == b.owns(s)
}

/// Memory that does not grow has grown as it should.
pub proof fn lemma_no_growth<M: Memory>(
    m: SliceModel,
    old: &M,
    new: &M,
    count: int,
    align: int,
    policy: GrowPolicy,
)
    requires
        forall|s: int| #[trigger] new.owns(s) == old.owns(s),
    ensures
        acquire_growth(m, old, new, count, align, policy),
{
    assert(grew_by(old, new, 0, 0, 0, 0));
}

/// Growth from `b` to `c` is growth from `a` to `d` if nothing grows before and after.
pub proof fn lemma_growth_between<M: Memory>(
    m: SliceModel,
    k: SliceModel,
    a: &M,
    b: &M,
    c: &M,
    d: &M,
    count: int,
    align: int,
    policy: GrowPolicy,
)
    requires
        same_extent(a, b),
        acquire_growth(k, b, c, count, align, policy),
        same_extent(c, d),
        m.base == k.base,
        m.limit == k.limit,
        m.has_fit(count, align) ==> k.has_fit(count, align),
    ensures
        acquire_growth(m, a, d, count, align, policy),
{
    let end = b.end() as int;
    let needed = slices_needed(end, count, align);
    let (s1, n1, s2, n2): (int, int, int, int) = choose|s1: int, n1: int, s2: int, n2: int|
        {
            &&& #[trigger] grew_by(b, c, s1, n1, s2, n2)
            &&& n1 == 0 || {
                &&& !k.has_fit(count, align)
                &&& end + needed <= k.usable_limit()
                &&& grown_as_wanted(b, c, n1, slices_wanted(k, end, needed, policy), needed)
            }
            &&& n2 == 0 || (n1 > 0 && s1 != end && n2 == count + align - 1)
        };
    assert(grew_by(a, d, s1, n1, s2, n2)) by {
        assert forall|s: int| #[trigger] d.owns(s) <==> a.owns(s) || s1 <= s < s1 + n1 || s2 <= s < s2
            + n2 by {
            assert(c.owns(s) == d.owns(s));
            assert(b.owns(s) == a.owns(s));
        }
    }
}

proof fn lemma_acquired_from_map<M: Memory>(
    m: SliceModel,
    mem: &M,
    count: int,
    align: int,
    run: Run,
)
    requires
        m.lowest_fit(run.start as int, count, align),
        run.zeroed == m.run_zero(run.start as int, count),
    ensures
        acquired(m, m.taken(run.start as int, count), mem, mem, count, align, Some(run)),
{
    assert(with_fresh(m, mem, mem) =~= m);
}

#[verifier::spinoff_prover]
#[verifier::rlimit(40)]
fn grow_and_alloc<const WORDS: usize, M: Memory>(
    map: &mut SliceMap<WORDS>,
    mem: &mut M,
    count: usize,
    align: usize,
    policy: &GrowPolicy,
) -> (r: Option<Run>)
    requires
        old(map).wf(),
        backed(old(map)@, old(mem)),
        count >= 1,
        is_pow2(align as int),
        policy.step_divisor > 0,
        !old(map)@.has_fit(count as int, align as int),
        old(map)@.first_group(old(map).spec_hint()),
    ensures
        final(map).wf(),
        backed(final(map)@, final(mem)),
        grown_from(old(mem), final(mem)),
        acquired(old(map)@, final(map)@, old(mem), final(mem), count as int, align as int, r),
        r matches Some(run) ==> (run.zeroed ==> slices_zero(
            final(mem),
            run.start as int,
            count as int,
        )),
        acquire_growth(old(map)@, old(mem), final(mem), count as int, align as int, *policy),
        growth_requested(old(map)@, old(mem), final(mem), count as int, align as int, *policy),
        old(mem).end() + slices_needed(old(mem).end() as int, count as int, align as int)
            > old(map)@.usable_limit() ==> *final(mem) == *old(mem),
        with_fresh(old(map)@, old(mem), final(mem)).first_group(final(map).spec_hint()),
        r is None ==> acquire_refused(
            old(map)@.usable_limit(),
            old(mem),
            final(mem),
            count as int,
            align as int,
        ),
{
    let ghost m0 = map@;
    let ghost mem0 = *mem;
    let ghost c: int = count as int;
    let ghost a: int = align as int;
    let end: usize = mem.size_slices();
    proof {
        lemma_pow2_positive(a);
        lemma_round_up(end as int, a);
        map.lemma_wf_facts();
        assert(with_fresh(m0, &mem0, &mem0) =~= m0);
        assert(grew_by(&mem0, &mem0, 0, 0, 0, 0));
    }
    // Fresh memory normally starts at the current end, so the request only needs the slack from
    // there to the next slice whose absolute index is aligned.
    let over: usize = end % align;
    let pad: usize = if over == 0 {
        0
    } else {
        align - over
    };
    let needed: usize = match pad.checked_add(count) {
        Some(n) => n,
        None => {
            return None;
        },
    };
    let want: usize = match plan_growth(map, end, needed, policy) {
        Some(w) => w,
        None => {
            return None;
        },
    };
    let (start, got) = match grow_into(map, mem, want, needed) {
        Some(g) => g,
        None => {
            proof {
                assert(with_fresh(m0, &mem0, mem) =~= m0);
                assert(grew_by(&mem0, mem, 0, 0, 0, 0));
                assert(grew_once(&mem0, mem, 0, 0, want as int, needed as int));
                assert(requested_again(m0, &mem0, mem, mem, c, a, 0));
            }
            return None;
        },
    };
    let ghost m1 = map@;
    let ghost mem1 = *mem;
    proof {
        assert(grew_by(&mem0, mem, start as int, got as int, 0, 0));
        assert(grew_once(&mem0, &mem1, start as int, got as int, want as int, needed as int));
    }
    match map.allocate(count, align) {
        Some(run) => {
            proof {
                assert forall|a: int|
                    #![trigger mem.words()[a]]
                    a % 8 == 0 && map@.zero.contains(slice_of(a)) implies mem.words()[a]
                    == 0 by {
                    assert(m1.zero.contains(slice_of(a)));
                }
                if run.zeroed {
                    assert forall|a: int|
                        #![trigger mem.words()[a]]
                        a % 8 == 0 && run.start <= slice_of(a) < run.start + count implies mem.words()[a]
                        == 0 by {
                        assert(m1.zero.contains(slice_of(a)));
                    }
                }
            }
            proof {
                assert(requested_again(m0, &mem0, &mem1, mem, c, a, got as int));
            }
            return Some(run);
        },
        None => {},
    }
    proof {
        // A region at the end of memory would have held the request.
        if start == end {
            let t: int = round_up(end as int, a);
            assert forall|s: int| t <= s < t + c implies #[trigger] m1.free.contains(s) by {
                assert(mem1.owns(s));
                if mem0.owns(s) {
                }
            }
            assert(m1.fits(t, c, a));
        }
        assert(!mem1.owns(end as int)) by {
            if mem0.owns(end as int) {
            }
        }
    }
    // The region did not start at `end`, so the slack was computed for the wrong place. The worst
    // case over every possible start is `count + align - 1`.
    let worst: usize = match count.checked_add(align - 1) {
        Some(n) => n,
        None => {
            assert(requested_again(m0, &mem0, &mem1, mem, c, a, got as int));
            return None;
        },
    };
    let limit: usize = map.usable_limit();
    if worst > limit.saturating_sub(mem.size_slices()) {
        assert(requested_again(m0, &mem0, &mem1, mem, c, a, got as int));
        return None;
    }
    let second = grow_into(map, mem, worst, worst);
    let ghost m2 = map@;
    proof {
        assert(m2 =~= with_fresh(m0, &mem0, mem));
        match second {
            Some((start2, got2)) => {
                assert(grew_by(&mem0, mem, start as int, got as int, start2 as int, got2 as int));
                assert(grew_once(
                    &mem1,
                    mem,
                    start2 as int,
                    got2 as int,
                    worst as int,
                    worst as int,
                ));
            },
            None => {
                assert(grew_by(&mem0, mem, start as int, got as int, 0, 0));
                assert(grew_once(&mem1, mem, 0, 0, worst as int, worst as int));
            },
        }
        assert(requested_again(m0, &mem0, &mem1, mem, c, a, got as int));
    }
    if second.is_none() {
        return None;
    }
    proof {
        // A region of `worst` slices holds the request wherever it starts.
        let start2: int = match second {
            Some((at, _)) => at as int,
            None => 0,
        };
        let t: int = round_up(start2, a);
        lemma_round_up(start2, a);
        if start2 + worst <= m2.usable_limit() {
            assert forall|s: int| t <= s < t + c implies #[trigger] m2.free.contains(s) by {
                assert(mem.owns(s));
                if mem1.owns(s) {
                }
            }
            assert(m2.fits(t, c, a));
        }
    }
    let run = map.allocate(count, align);
    proof {
        assert forall|a: int|
            #![trigger mem.words()[a]]
            a % 8 == 0 && map@.zero.contains(slice_of(a)) implies mem.words()[a]
            == 0 by {
            assert(m2.zero.contains(slice_of(a)));
        }
        if run is Some && run->0.zeroed {
            assert forall|a: int|
                #![trigger mem.words()[a]]
                a % 8 == 0 && run->0.start <= slice_of(a) < run->0.start + count implies mem.words()[a]
                == 0 by {
                assert(m2.zero.contains(slice_of(a)));
            }
        }
    }
    run
}

/// What [`extend_with_growth`] does: it takes the slices after the run if they are all free in
/// the map together with the memory that was grown, and takes nothing otherwise.
pub open spec fn extended<M: Memory>(
    before: SliceModel,
    after: SliceModel,
    old: &M,
    new: &M,
    tail: int,
    extra: int,
    r: Option<bool>,
) -> bool {
    let grown = with_fresh(before, old, new);
    &&& r is Some <==> tail + extra <= grown.limit && grown.run_free(tail, extra)
    &&& r matches Some(zeroed) ==> {
        &&& zeroed == grown.run_zero(tail, extra)
        &&& after == grown.taken(tail, extra)
    }
    &&& r is None ==> after == grown
}

/// A run is at the top of the heap and may be extended through growth: the slices from its end to
/// the end of memory are all free and too few, and what is missing fits below the end of the map.
pub open spec fn extends_by_growth(m: SliceModel, end: int, tail: int, extra: int) -> bool {
    &&& tail <= end < tail + extra <= m.usable_limit()
    &&& m.run_free(tail, end - tail)
}

/// How [`extend_with_growth`] grows memory: not at all unless the run is at the top, and then once,
/// by what the policy wants, within the map, or what is missing if that is refused.
pub open spec fn extend_growth<M: Memory>(
    m: SliceModel,
    old: &M,
    new: &M,
    tail: int,
    extra: int,
    policy: GrowPolicy,
) -> bool {
    let end = old.end() as int;
    let need = tail + extra - end;
    if extends_by_growth(m, end, tail, extra) {
        exists|first: int, n: int| #[trigger]
            grew_once(old, new, first, n, slices_wanted(m, end, need, policy), need)
    } else {
        same_extent(old, new)
    }
}

/// Why [`extend_with_growth`] takes nothing: the end of memory is not within reach of the map, a
/// taken slice lies between the run and that end, what is missing does not fit below the end of
/// the map, memory refused to grow by it, or memory grew elsewhere than at its end.
pub open spec fn extend_refused<M: Memory>(
    m: SliceModel,
    old: &M,
    new: &M,
    tail: int,
    extra: int,
) -> bool {
    let end = old.end() as int;
    let need = tail + extra - end;
    ||| end < tail
    ||| end > m.usable_limit()
    ||| need <= 0
    ||| !m.run_free(tail, end - tail)
    ||| end + need > m.usable_limit()
    ||| refused(old, new, need)
    ||| new.end() > end && !new.owns(end)
}

/// What was grown since `b` was grown since `a` if nothing grew before.
pub proof fn lemma_extension_since<M: Memory>(
    m: SliceModel,
    a: &M,
    b: &M,
    c: &M,
    tail: int,
    extra: int,
    policy: GrowPolicy,
)
    requires
        same_extent(a, b),
        extend_growth(m, b, c, tail, extra, policy),
    ensures
        with_fresh(m, a, c) == with_fresh(m, b, c),
        extend_growth(m, a, c, tail, extra, policy),
{
    assert forall|s: int| #[trigger] b.owns(s) == a.owns(s) by {
        assert(a.owns(s) == b.owns(s));
    }
    assert(with_fresh(m, a, c) =~= with_fresh(m, b, c));
    let end = b.end() as int;
    let need = tail + extra - end;
    if extends_by_growth(m, end, tail, extra) {
        let wanted = slices_wanted(m, end, need, policy);
        let (first, n): (int, int) = choose|first: int, n: int| #[trigger]
            grew_once(b, c, first, n, wanted, need);
        assert(grew_once(a, c, first, n, wanted, need));
    }
}

/// [`SliceMap::try_extend`], growing linear memory when the run is at the top of the heap.
///
/// Grows the handed-out run `[start, start + count)` by `extra` slices in place. When the
/// slices right after it are free the map alone serves the request. Otherwise, if every slice
/// from the run's end to the current end of memory is free (there may be none), memory is grown
/// by what is missing or by the geometric step of `policy`, whichever is larger, the fresh
/// region is added to the map and the tail is claimed, so a buffer at the top of the heap grows
/// without a copy however often it is resized.
pub fn extend_with_growth<const WORDS: usize, M: Memory>(
    map: &mut SliceMap<WORDS>,
    mem: &mut M,
    start: usize,
    count: usize,
    extra: usize,
    policy: &GrowPolicy,
) -> (r: Option<bool>)
    requires
        old(map).wf(),
        backed(old(map)@, old(mem)),
        count >= 1,
        extra >= 1,
        old(map)@.base <= start,
        start + count <= old(map)@.limit,
        policy.step_divisor > 0,
    ensures
        final(map).wf(),
        backed(final(map)@, final(mem)),
        grown_from(old(mem), final(mem)),
        old(map)@.run_free(start + count, extra as int) && start + count + extra <= old(map)@.limit
            ==> *final(mem) == *old(mem),
        extended(old(map)@, final(map)@, old(mem), final(mem), start + count, extra as int, r),
        extend_growth(old(map)@, old(mem), final(mem), start + count, extra as int, *policy),
        !extends_by_growth(old(map)@, old(mem).end() as int, start + count, extra as int)
            ==> *final(mem) == *old(mem),
        with_fresh(old(map)@, old(mem), final(mem)).hint_lowered(
            old(map).spec_hint(),
            final(map).spec_hint(),
        ),
        r is None ==> extend_refused(old(map)@, old(mem), final(mem), start + count, extra as int),
{
    proof {
        map.lemma_wf_facts();
    }
    match map.try_extend(start, count, extra) {
        Some(zeroed) => {
            proof {
                assert(with_fresh(old(map)@, old(mem), old(mem)) =~= old(map)@);
                assert(old(map)@.free.contains(start + count + extra - 1));
                assert(old(mem).owns(start + count + extra - 1));
            }
            Some(zeroed)
        },
        None => grow_and_extend(map, mem, start, count, extra, policy),
    }
}

fn grow_and_extend<const WORDS: usize, M: Memory>(
    map: &mut SliceMap<WORDS>,
    mem: &mut M,
    start: usize,
    count: usize,
    extra: usize,
    policy: &GrowPolicy,
) -> (r: Option<bool>)
    requires
        old(map).wf(),
        backed(old(map)@, old(mem)),
        count >= 1,
        extra >= 1,
        old(map)@.base <= start,
        start + count <= old(map)@.limit,
        policy.step_divisor > 0,
        !(old(map)@.run_free(start + count, extra as int) && start + count + extra <= old(
            map,
        )@.limit),
    ensures
        final(map).wf(),
        backed(final(map)@, final(mem)),
        grown_from(old(mem), final(mem)),
        extended(old(map)@, final(map)@, old(mem), final(mem), start + count, extra as int, r),
        extend_growth(old(map)@, old(mem), final(mem), start + count, extra as int, *policy),
        !extends_by_growth(old(map)@, old(mem).end() as int, start + count, extra as int)
            ==> *final(mem) == *old(mem),
        with_fresh(old(map)@, old(mem), final(mem)).hint_lowered(
            old(map).spec_hint(),
            final(map).spec_hint(),
        ),
        r is None ==> extend_refused(old(map)@, old(mem), final(mem), start + count, extra as int),
{
    let ghost m0 = map@;
    let ghost mem0 = *mem;
    let tail: usize = start + count;
    let end: usize = mem.size_slices();
    let limit: usize = map.usable_limit();
    proof {
        map.lemma_wf_facts();
        assert(with_fresh(m0, &mem0, &mem0) =~= m0);
    }
    if end < tail || end > limit {
        return None;
    }
    let have: usize = end - tail;
    // If the whole extension fits below the end of memory a taken slice is in the way; and only
    // a run with nothing but free slices above it is at the top.
    if have >= extra || !map.run_is_free(tail, have) {
        return None;
    }
    let need: usize = extra - have;
    assert(need == tail + extra - end);
    let want: usize = match plan_growth(map, end, need, policy) {
        Some(w) => w,
        None => {
            return None;
        },
    };
    let (region, got) = match grow_into(map, mem, want, need) {
        Some(g) => g,
        None => {
            proof {
                assert(with_fresh(m0, &mem0, mem) =~= m0);
                assert(grew_once(
                    &mem0,
                    mem,
                    0,
                    0,
                    slices_wanted(m0, end as int, tail + extra - end, *policy),
                    tail + extra - end,
                ));
            }
            return None;
        },
    };
    let ghost m1 = map@;
    proof {
        assert(grew_once(
            &mem0,
            mem,
            region as int,
            got as int,
            slices_wanted(m0, end as int, tail + extra - end, *policy),
            tail + extra - end,
        ));
    }
    if region != end {
        proof {
            // Slice `end` is still not the allocator's.
            assert(!m1.free.contains(end as int)) by {
                if mem0.owns(end as int) {
                }
            }
        }
        return None;
    }
    proof {
        assert forall|s: int| tail <= s < tail + extra implies #[trigger] m1.free.contains(s) by {
            if s < end {
                assert(m0.free.contains(s));
            } else {
                assert(mem.owns(s));
                if mem0.owns(s) {
                }
            }
        }
    }
    let extended = map.try_extend(start, count, extra);
    proof {
        assert forall|a: int|
            #![trigger mem.words()[a]]
            a % 8 == 0 && map@.zero.contains(slice_of(a)) implies mem.words()[a]
            == 0 by {
            assert(m1.zero.contains(slice_of(a)));
        }
    }
    extended
}

/// The linker gap: slices between `heap_base` and the initial end of memory, which the heap
/// reclaims at startup instead of paying a `memory.grow` for its first page.
///
/// Returns the first wholly usable slice and how many slices follow it up to `size_slices` (zero
/// when the heap base sits in the last slice).
pub fn initial_free_range(heap_base: usize, size_slices: usize) -> (r: (usize, usize))
    ensures
        r.0 == first_whole_slice(heap_base as int),
        r.1 == max(size_slices - r.0, 0),
{
    let first: usize = div_ceil_by(heap_base, SLICE_SIZE);
    (first, size_slices.saturating_sub(first))
}

/// Returning a run that was allocated gives back the free slices from before, of which those of
/// the run count as zero no more, and the same request gets the same run again.
pub proof fn law_free_undoes_allocate(m: SliceModel, start: int, count: int, align: int)
    requires
        m.lowest_fit(start, count, align),
    ensures
        ({
            let t = m.taken(start, count).given(start, count, false);
            &&& t.free == m.free
            &&& t.zero == m.zero.difference(span(start, count))
            &&& t.lowest_fit(start, count, align)
        }),
{
    let t = m.taken(start, count).given(start, count, false);
    assert(t.free =~= m.free) by {
        assert forall|s: int| t.free.contains(s) == m.free.contains(s) by {}
    }
    assert forall|u: int| u < start implies !#[trigger] t.fits(u, count, align) by {
        assert(!m.fits(u, count, align));
    }
}

/// Shrinking a run that was extended gives back the free slices from before.
pub proof fn law_shrink_undoes_extend(m: SliceModel, tail: int, extra: int)
    requires
        m.run_free(tail, extra),
    ensures
        m.taken(tail, extra).given(tail, extra, false).free == m.free,
{
    let t = m.taken(tail, extra).given(tail, extra, false);
    assert(t.free =~= m.free) by {
        assert forall|s: int| t.free.contains(s) == m.free.contains(s) by {}
    }
}

/// A run that was acquired is aligned, lies inside memory and inside the map, and none of its
/// slices is free afterwards.
pub proof fn law_acquired_runs_stay_inside_memory<M: Memory>(
    before: SliceModel,
    after: SliceModel,
    old: &M,
    new: &M,
    count: int,
    align: int,
    run: Run,
)
    requires
        count >= 1,
        backed(before, old),
        grown_from(old, new),
        acquired(before, after, old, new, count, align, Some(run)),
    ensures
        run.start as int % align == 0,
        before.base <= run.start,
        run.start + count <= new.end(),
        run.start + count <= before.limit,
        after.run_taken(run.start as int, count),
{
    let grown = with_fresh(before, old, new);
    let last: int = run.start + count - 1;
    assert(grown.free.contains(last));
    assert(new.owns(last));
}

/// Extending a run claims exactly the slices after it. Memory grows only for a run at the top, one
/// with nothing but free slices between it and the end of memory, that the map alone cannot serve.
/// The run itself is never touched, no other slice changes hands below the old end of memory, and
/// what memory grew by is in the map.
pub proof fn law_only_a_run_at_the_top_extends_through_growth<M: Memory>(
    before: SliceModel,
    after: SliceModel,
    old: &M,
    new: &M,
    start: int,
    count: int,
    extra: int,
    policy: GrowPolicy,
    r: Option<bool>,
)
    requires
        count >= 1,
        extra >= 1,
        backed(before, old),
        grown_from(old, new),
        forall|s: int| start <= s < start + count ==> #[trigger] old.owns(s),
        before.run_taken(start, count),
        extended(before, after, old, new, start + count, extra, r),
        extend_growth(before, old, new, start + count, extra, policy),
    ensures
        ({
            let tail = start + count;
            let end = old.end() as int;
            let served = before.run_free(tail, extra) && tail + extra <= before.limit;
            let grown = exists|s: int| #[trigger] new.owns(s) && !old.owns(s);
            &&& served ==> r is Some && !grown
            &&& grown ==> tail <= end < tail + extra && before.run_free(tail, end - tail)
            &&& r is Some && !served ==> grown
            &&& r is Some ==> after.run_taken(tail, extra)
            &&& after.run_taken(start, count)
            &&& forall|s: int|
                #![trigger after.free.contains(s)]
                s < end && !(r is Some && tail <= s < tail + extra) ==> after.free.contains(s)
                    == before.free.contains(s)
            &&& forall|s: int| #[trigger]
                new.owns(s) && !old.owns(s) && before.base <= s < before.usable_limit() && !(
                r is Some && tail <= s < tail + extra) ==> after.free.contains(s)
                    && after.zero.contains(s)
        }),
{
    let tail = start + count;
    let end = old.end() as int;
    let fresh = with_fresh(before, old, new);
    let need = tail + extra - end;
    if !extends_by_growth(before, end, tail, extra) {
        assert forall|s: int| #[trigger] new.owns(s) implies old.owns(s) by {
            assert(old.owns(s) == new.owns(s));
        }
    }
    if before.run_free(tail, extra) && tail + extra <= before.limit {
        assert(before.free.contains(tail + extra - 1));
        assert(old.owns(tail + extra - 1));
        assert forall|s: int| tail <= s < tail + extra implies #[trigger] fresh.free.contains(
            s,
        ) by {
            assert(before.free.contains(s));
        }
    }
    if r is Some && !(before.run_free(tail, extra) && tail + extra <= before.limit) {
        let s: int = choose|s: int|
            tail <= s < tail + extra && !#[trigger] before.free.contains(s);
        assert(fresh.free.contains(s));
        assert(new.owns(s) && !old.owns(s));
    }
    assert forall|s: int| start <= s < tail implies !#[trigger] after.free.contains(s) by {
        assert(old.owns(s));
        assert(!before.free.contains(s));
    }
    assert forall|s: int|
        #![trigger after.free.contains(s)]
        s < end && !(r is Some && tail <= s < tail + extra) implies after.free.contains(s)
        == before.free.contains(s) by {
        assert(new.owns(s) == old.owns(s));
    }
}

/// The step is the policy's fraction of the heap, unless that is less than the least step or more
/// than the largest.
pub proof fn law_the_step_is_a_fraction_of_the_heap(policy: GrowPolicy, heap: int)
    requires
        heap >= 0,
        policy.step_divisor > 0,
        policy.min_grow <= policy.max_grow,
    ensures
        ({
            let step = policy.spec_step(heap);
            let d = policy.step_divisor as int;
            &&& policy.min_grow <= step <= policy.max_grow
            &&& step > policy.min_grow ==> step * d <= heap
            &&& step < policy.max_grow ==> heap < (step + 1) * d
        }),
{
    let d: int = policy.step_divisor as int;
    let q: int = heap / d;
    let step: int = policy.spec_step(heap);
    vstd::arithmetic::div_mod::lemma_fundamental_div_mod(heap, d);
    vstd::arithmetic::div_mod::lemma_mod_bound(heap, d);
    assert(q * d <= heap < (q + 1) * d) by (nonlinear_arith)
        requires
            heap == d * q + heap % d,
            0 <= heap % d < d,
    ;
    if step > policy.min_grow {
        assert(step * d <= q * d) by (nonlinear_arith)
            requires
                step <= q,
                d > 0,
        ;
    }
    if step < policy.max_grow {
        assert((step + 1) * d >= (q + 1) * d) by (nonlinear_arith)
            requires
                step >= q,
                d > 0,
        ;
    }
}

/// What a request needs of fresh memory at the end is the least that holds an aligned run there.
pub proof fn law_a_request_needs_an_aligned_run_at_the_end(end: int, count: int, align: int, n: int)
    requires
        end >= 0,
        count >= 1,
        align >= 1,
    ensures
        slices_needed(end, count, align) >= count,
        (end + slices_needed(end, count, align) - count) % align == 0,
        slices_needed(end, count, align) < count + align,
        (exists|t: int| end <= t && #[trigger] (t % align) == 0 && t + count <= end + n) <==> n
            >= slices_needed(end, count, align),
{
    lemma_round_up(end, align);
    let r: int = round_up(end, align);
    if n >= slices_needed(end, count, align) {
        assert(end <= r && r % align == 0 && r + count <= end + n);
    }
    if exists|t: int| end <= t && #[trigger] (t % align) == 0 && t + count <= end + n {
        let t: int = choose|t: int|
            end <= t && #[trigger] (t % align) == 0 && t + count <= end + n;
        if t < r {
            vstd::arithmetic::div_mod::lemma_fundamental_div_mod(t, align);
            vstd::arithmetic::div_mod::lemma_fundamental_div_mod(r, align);
            assert(false) by (nonlinear_arith)
                requires
                    t == align * (t / align),
                    r == align * (r / align),
                    end <= t < r,
                    r < end + align,
                    align > 0,
            ;
        }
    }
}

/// Memory is asked for what the request needs or for the step, whichever is more, but for no more
/// than fits below the end of the map.
pub proof fn law_growth_is_the_step_within_the_map(
    m: SliceModel,
    end: int,
    needed: int,
    policy: GrowPolicy,
)
    requires
        needed >= 1,
        m.base <= end,
        end + needed <= m.usable_limit(),
    ensures
        ({
            let want = slices_wanted(m, end, needed, policy);
            let step = policy.spec_step(end - m.base);
            &&& needed <= want
            &&& end + want <= m.usable_limit()
            &&& step <= needed ==> want == needed
            &&& step > needed && end + step <= m.usable_limit() ==> want == step
            &&& step > needed && end + step > m.usable_limit() ==> end + want == m.usable_limit()
        }),
{
}

/// A request that does not fit into the free slices, but would into the map, makes memory grow: the
/// first request is for as many slices as are wanted. If it is refused and more was asked than is
/// needed, the second is for what is needed. If what came does not hold the request, because it is not
/// where memory ended, what holds it anywhere is asked for, if the map has the room.
pub proof fn law_growth_is_asked_for_in_turn<M: Memory>(
    m: SliceModel,
    old: &M,
    new: &M,
    count: int,
    align: int,
    policy: GrowPolicy,
)
    requires
        count >= 1,
        align >= 1,
        m.base <= old.end(),
        growth_requested(m, old, new, count, align, policy),
    ensures
        ({
            let end = old.end() as int;
            let needed = slices_needed(end, count, align);
            let wanted = slices_wanted(m, end, needed, policy);
            let before = old.growths();
            let log = new.growths();
            let k = before.len() as int;
            let asks = !m.has_fit(count, align) && end + needed <= m.usable_limit();
            &&& !asks ==> log == before
            &&& asks ==> {
                &&& log.len() > k
                &&& log.take(k) == before
                &&& log[k].slices == wanted
                &&& log[k].first is None && wanted != needed ==> log.len() > k + 1 && log[k
                    + 1].slices == needed
                &&& log[k].first is None && wanted == needed ==> log.len() == k + 1
                &&& log[k].first is None && wanted != needed && log[k + 1].first is None
                    ==> log.len() == k + 2
                &&& log[k].first is Some ==> log.len() <= k + 2
                &&& log[k].first is Some && log.len() == k + 2 ==> log[k + 1].slices == count + align
                    - 1
                &&& log[k].first is Some && log.len() == k + 1 ==> with_fresh(m, old, new).has_fit(
                    count,
                    align,
                ) || new.end() + count + align - 1 > m.usable_limit()
                &&& log[k].first is None && wanted != needed && log[k + 1].first is Some
                    ==> log.len() <= k + 3 && (log.len() == k + 3 ==> log[k + 2].slices == count
                    + align - 1)
            }
        }),
{
    let end: int = old.end() as int;
    let needed: int = slices_needed(end, count, align);
    let wanted: int = slices_wanted(m, end, needed, policy);
    lemma_round_up(end, align);
    let before = old.growths();
    let k: int = before.len() as int;
    if !m.has_fit(count, align) && end + needed <= m.usable_limit() {
        let (mid, first, n): (M, int, int) = choose|mid: M, first: int, n: int|
            {
                &&& #[trigger] grew_once(old, &mid, first, n, wanted, needed)
                &&& requested_again(m, old, &mid, new, count, align, n)
            };
        let worst: int = count + align - 1;
        let round = round_of(wanted, needed, first, n);
        assert(mid.growths() == before + round);
        law_growth_is_the_step_within_the_map(m, end, needed, policy);
        if n == 0 || with_fresh(m, old, &mid).has_fit(count, align) || mid.end() + worst
            > m.usable_limit() {
            assert(new.growths() == mid.growths());
            assert(with_fresh(m, old, &mid).free =~= with_fresh(m, old, new).free);
            assert(with_fresh(m, old, &mid).zero =~= with_fresh(m, old, new).zero);
        } else {
            let (f, j): (int, int) = choose|f: int, j: int| #[trigger]
                grew_once(&mid, new, f, j, worst, worst);
            assert(new.growths() == mid.growths() + round_of(worst, worst, f, j));
        }
        assert(new.growths().take(k) =~= before);
        assert(new.growths()[k] == round[0]);
        if round.len() > 1 {
            assert(new.growths()[k + 1] == round[1]);
        }
    }
}

/// A run that is extended makes memory grow only if all slices from its end to the end of memory are
/// free and too few, and what is missing fits below the end of the map. Memory is asked for what is
/// wanted and, if it refuses that and less would do, for what is missing.
pub proof fn law_extensions_grow_memory_at_the_top<M: Memory>(
    m: SliceModel,
    old: &M,
    new: &M,
    tail: int,
    extra: int,
    policy: GrowPolicy,
)
    requires
        extra >= 1,
        m.base <= tail,
        extend_growth(m, old, new, tail, extra, policy),
    ensures
        ({
            let end = old.end() as int;
            let missing = tail + extra - end;
            let wanted = slices_wanted(m, end, missing, policy);
            let before = old.growths();
            let log = new.growths();
            let k = before.len() as int;
            let top = tail <= end && missing > 0 && forall|s: int|
                tail <= s < end ==> #[trigger] m.free.contains(s);
            let asks = top && tail + extra <= m.usable_limit();
            &&& !asks ==> log == before
            &&& asks ==> {
                &&& log.len() > k
                &&& log.take(k) == before
                &&& log[k].slices == wanted
                &&& log[k].first is Some ==> log.len() == k + 1
                &&& log[k].first is None && wanted == missing ==> log.len() == k + 1
                &&& log[k].first is None && wanted != missing ==> log.len() == k + 2 && log[k
                    + 1].slices == missing
            }
        }),
{
    let end: int = old.end() as int;
    let missing: int = tail + extra - end;
    let wanted: int = slices_wanted(m, end, missing, policy);
    let k: int = old.growths().len() as int;
    let top = tail <= end && missing > 0 && forall|s: int|
        tail <= s < end ==> #[trigger] m.free.contains(s);
    assert(m.run_free(tail, end - tail) <==> forall|s: int|
        tail <= s < end ==> #[trigger] m.free.contains(s));
    if top && tail + extra <= m.usable_limit() {
        let (first, n): (int, int) = choose|first: int, n: int| #[trigger]
            grew_once(old, new, first, n, wanted, missing);
        law_growth_is_the_step_within_the_map(m, end, missing, policy);
        let round = round_of(wanted, missing, first, n);
        assert(new.growths().take(k) =~= old.growths());
        assert(new.growths()[k] == round[0]);
        if round.len() > 1 {
            assert(new.growths()[k + 1] == round[1]);
        }
    }
}

/// A growing run goes to the first multiple of its alignment in the free slices at the end of memory
/// if it fits there, and otherwise to the lowest place where it fits.
pub proof fn law_growing_runs_go_to_the_end(
    m: SliceModel,
    start: int,
    count: int,
    align: int,
    below: int,
    lo: int,
    x: int,
)
    requires
        align >= 1,
        count >= 1,
        m.base <= lo < below <= m.limit,
        forall|s: int| lo <= s < below ==> #[trigger] m.free.contains(s),
        lo == m.base || !m.free.contains(lo - 1),
        m.high_fit(start, count, align, below),
    ensures
        lo <= x && x % align == 0 && x + count <= below ==> {
            &&& lo <= start <= x
            &&& start % align == 0
        },
        (forall|y: int| lo <= y && #[trigger] (y % align) == 0 ==> y + count > below) && m.fits(
            x,
            count,
            align,
        ) ==> start <= x && m.fits(start, count, align),
{
    lemma_round_up(lo, align);
    assert(m.free_tail(lo, min(below, m.limit)));
    assert forall|other: int| #[trigger] m.free_tail(other, min(below, m.limit)) implies other
        == lo by {
        if other < lo {
            assert(m.free.contains(lo - 1));
        } else if other > lo {
            assert(m.free.contains(other - 1));
        }
    }
    if lo <= x && x % align == 0 && x + count <= below {
        assert(m.tail_fit(round_up(lo, align), count, align, below));
    }
}

} // verus!
