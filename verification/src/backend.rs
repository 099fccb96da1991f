//! How the allocator sees linear memory.
//!
//! The heap is generic over a [`Memory`], so the same code runs against wasm linear memory and
//! against the simulated linear memory of this module. Everything works in *slices* (64 KiB, one
//! wasm page) and in addresses; memory is read and written one 8-byte word at a time.
//!
//! Sizes are expressed in slices rather than bytes because a full 4 GiB linear memory has an end
//! address of `2^32`, which does not fit in a wasm32 `usize`.
use vstd::prelude::*;

use crate::bins::{SLICE_SIZE, WORD};

verus! {

/// Highest slice index that can exist in a 32-bit linear memory.
pub const MAX_SLICE_INDEX: usize = 65535;

/// One past the highest slice that can exist: all of a 32-bit address space, all but the last
/// slice of a larger one.
pub open spec fn max_slices() -> int {
    crate::arith::max(MAX_SLICE_INDEX + 1, usize::MAX as int / SLICE_SIZE as int)
}

/// The slice an address lies in.
pub open spec fn slice_of(addr: int) -> int {
    addr / SLICE_SIZE as int
}

/// The first slice that lies wholly at or above `heap_base`.
pub open spec fn first_whole_slice(heap_base: int) -> int {
    crate::arith::div_ceil(heap_base, SLICE_SIZE as int)
}

/// A request to grow, in slices, and the first of the new slices, if it was granted.
pub struct Growth {
    pub slices: int,
    pub first: Option<int>,
}

/// A request to grow and what came back for it.
pub open spec fn asked(slices: int, r: Option<usize>) -> Growth {
    Growth {
        slices,
        first: match r {
            Some(first) => Some(first as int),
            None => None,
        },
    }
}

/// There were more requests, and none is forgotten.
pub open spec fn only_more(old: Seq<Growth>, new: Seq<Growth>) -> bool {
    &&& old.len() <= new.len()
    &&& forall|i: int| 0 <= i < old.len() ==> #[trigger] new[i] == old[i]
}

/// A linear memory that only grows.
///
/// What the heap relies on:
/// - `grow(n)` returns the index of the first of `n` fresh, zero-filled, contiguous slices that
///   no one else will touch, or `None`. The new slices need not be contiguous with the previous
///   end (someone else may grow the same memory between calls).
/// - `size_slices()` is the current end of memory in slices and never decreases.
/// - the slices the allocator owns are those handed out by `grow` and, from the start, those
///   above `heap_base()`; words in them keep their value until they are stored to.
///
/// An implementation that leaves the spec functions as they are here claims nothing.
pub trait Memory: Sized {
    /// The memory's own invariant.
    open spec fn valid(&self) -> bool {
        false
    }

    /// See [`Memory::heap_base`].
    open spec fn base_addr(&self) -> usize {
        0
    }

    /// See [`Memory::size_slices`].
    open spec fn end(&self) -> usize {
        0
    }

    /// Whether slice `s` belongs to the allocator.
    open spec fn owns(&self, s: int) -> bool {
        false
    }

    /// The words of memory by address; only addresses that are multiples of the word and lie in
    /// an owned slice mean anything.
    open spec fn words(&self) -> Map<int, u64> {
        Map::empty()
    }

    /// The requests to grow so far, with their answers.
    open spec fn growths(&self) -> Seq<Growth> {
        Seq::empty()
    }

    /// First address the allocator may use (the linker's `__heap_base` on wasm), not beyond the
    /// end of memory.
    fn heap_base(&self) -> (r: usize)
        requires
            self.valid(),
        ensures
            r == self.base_addr(),
            r > 0,
            first_whole_slice(r as int) <= self.end(),
    ;

    /// Current size of linear memory in slices.
    fn size_slices(&self) -> (r: usize)
        requires
            self.valid(),
        ensures
            r == self.end(),
            r <= max_slices(),
    ;

    /// Grow by `slices` and return the index of the first new slice, or `None` on failure. The
    /// new slices are zero-filled.
    fn grow(&mut self, slices: usize) -> (r: Option<usize>)
        requires
            old(self).valid(),
        ensures
            final(self).valid(),
            final(self).base_addr() == old(self).base_addr(),
            old(self).end() <= final(self).end() <= max_slices(),
            r is None ==> final(self).words() == old(self).words(),
            r is None ==> forall|s: int| #[trigger] final(self).owns(s) == old(self).owns(s),
            final(self).growths() == old(self).growths().push(asked(slices as int, r)),
            r matches Some(first) ==> {
                &&& old(self).end() <= first
                &&& first + slices <= final(self).end()
                &&& forall|s: int| #[trigger]
                    final(self).owns(s) <==> old(self).owns(s) || first <= s < first + slices
                &&& forall|a: int|
                    #![trigger final(self).words()[a]]
                    a % 8 == 0 ==> if first <= slice_of(a) < first + slices {
                        final(self).words()[a] == 0
                    } else {
                        old(self).owns(slice_of(a)) ==> final(self).words()[a]
                            == old(self).words()[a]
                    }
            },
    ;

    /// The word at `addr`.
    fn load(&self, addr: usize) -> (r: u64)
        requires
            self.valid(),
            addr % WORD == 0,
            self.owns(slice_of(addr as int)),
        ensures
            r == self.words()[addr as int],
    ;

    /// Replace the word at `addr`.
    fn store(&mut self, addr: usize, value: u64)
        requires
            old(self).valid(),
            addr % WORD == 0,
            old(self).owns(slice_of(addr as int)),
        ensures
            final(self).valid(),
            final(self).base_addr() == old(self).base_addr(),
            final(self).end() == old(self).end(),
            forall|s: int| #[trigger] final(self).owns(s) == old(self).owns(s),
            final(self).words() == old(self).words().insert(addr as int, value),
            final(self).growths() == old(self).growths(),
    ;
}

/// The memory is in order: it is valid, it begins before it ends, and the slices the allocator owns
/// are real slices, below the end of memory and not below the heap base. The slice at address 0 is
/// never among them.
pub open spec fn in_order<M: Memory>(m: &M) -> bool {
    &&& m.valid()
    &&& m.base_addr() > 0
    &&& first_whole_slice(m.base_addr() as int) <= m.end() <= max_slices()
    &&& forall|s: int| #[trigger]
        m.owns(s) ==> first_whole_slice(m.base_addr() as int) <= s < m.end()
}

/// Everything between the heap base and the end of memory is the allocator's, as it is when the
/// program starts.
pub open spec fn is_pristine<M: Memory>(m: &M) -> bool {
    forall|s: int|
        first_whole_slice(m.base_addr() as int) <= s < m.end() ==> #[trigger] m.owns(s)
}

/// Words per slice.
pub const SLICE_WORDS: usize = 8192;

/// A simulated linear memory over a range of addresses.
///
/// `grow` zero-fills the new slices to match wasm semantics, and `skip_slices` models another
/// party growing memory so the allocator sees a non-contiguous region.
pub struct SimMemory {
    /// The words of the region.
    cells: Vec<u64>,
    /// Slice index of the region start.
    first_slice: usize,
    /// Total slices the region can provide.
    capacity_slices: usize,
    /// Current simulated `memory.size`, as an absolute slice index of the end.
    end_slice: usize,
    heap_base: usize,
    /// No slice from here on has ever been stored to, so all of it is still zero.
    touched_slice: usize,
    /// The slices that belong to the allocator.
    owned: Ghost<Set<int>>,
    /// The requests to grow so far.
    asked: Ghost<Seq<Growth>>,
}

impl SimMemory {
    /// Slice index of the region start.
    pub closed spec fn spec_first(&self) -> int {
        self.first_slice as int
    }

    /// Slices in the region.
    pub closed spec fn spec_capacity(&self) -> int {
        self.capacity_slices as int
    }

    /// The region holds the address.
    pub open spec fn in_region(&self, addr: int) -> bool {
        self.spec_first() <= slice_of(addr) < self.spec_first() + self.spec_capacity()
    }

    spec fn index_of(&self, addr: int) -> int {
        (addr - self.first_slice * SLICE_SIZE) / 8
    }

    spec fn inv(&self) -> bool {
        &&& self.first_slice + self.capacity_slices <= max_slices()
        &&& self.first_slice <= self.end_slice <= self.first_slice + self.capacity_slices
        &&& self.heap_base > 0
        &&& first_whole_slice(self.heap_base as int) <= self.end_slice
        &&& self.first_slice <= self.touched_slice <= self.first_slice + self.capacity_slices
        &&& self.cells@.len() == self.capacity_slices * SLICE_WORDS
        &&& forall|s: int|
            #[trigger] self.owned@.contains(s) ==> self.first_slice <= s < self.end_slice
                && first_whole_slice(self.heap_base as int) <= s
        &&& forall|i: int|
            (self.touched_slice - self.first_slice) * SLICE_WORDS <= i < self.cells@.len()
                ==> #[trigger] self.cells@[i] == 0
    }

    /// A linear memory of `len` bytes at address `base` whose initial size covers
    /// `initial_slices` slices and whose heap starts `heap_base_offset` bytes into it.
    pub fn from_region(
        base: usize,
        len: usize,
        initial_slices: usize,
        heap_base_offset: usize,
    ) -> (r: Self)
        requires
            base % SLICE_SIZE == 0,
            len % SLICE_SIZE == 0,
            initial_slices * SLICE_SIZE <= len,
            heap_base_offset < initial_slices * SLICE_SIZE,
            base + heap_base_offset > 0,
            base as int / SLICE_SIZE as int + len as int / SLICE_SIZE as int <= max_slices(),
        ensures
            in_order(&r),
            r.spec_first() == base as int / SLICE_SIZE as int,
            r.spec_capacity() == len as int / SLICE_SIZE as int,
            r.end() == r.spec_first() + initial_slices,
            r.base_addr() == base + heap_base_offset,
            is_pristine(&r),
            forall|s: int|
                #[trigger] r.owns(s) <==> first_whole_slice(r.base_addr() as int) <= s < r.end(),
            forall|a: int| r.in_region(a) && a % 8 == 0 ==> #[trigger] r.words()[a] == 0,
    {
        let first_slice: usize = base / SLICE_SIZE;
        let capacity_slices: usize = len / SLICE_SIZE;
        let n: usize = len / WORD;
        let cells: Vec<u64> = vec![0u64; n];
        let r = SimMemory {
            cells,
            first_slice,
            capacity_slices,
            end_slice: first_slice + initial_slices,
            heap_base: base + heap_base_offset,
            touched_slice: first_slice,
            owned: Ghost(
                Set::new(
                    |s: int|
                        first_whole_slice(base + heap_base_offset) <= s < first_slice
                            + initial_slices,
                ),
            ),
            asked: Ghost(Seq::empty()),
        };
        proof {
            assert forall|a: int| r.in_region(a) && a % 8 == 0 implies #[trigger] r.words()[a]
                == 0 by {
                let i: int = r.index_of(a);
                assert(0 <= i < n);
            }
        }
        r
    }

    /// Model someone else growing memory: the next `slices` slices are consumed and never
    /// handed to the allocator, so its next `grow` is not contiguous with the previous one.
    pub fn skip_slices(&mut self, slices: usize) -> (r: bool)
        requires
            in_order(old(self)),
        ensures
            in_order(final(self)),
            r == (old(self).end() + slices <= old(self).spec_first() + old(self).spec_capacity()),
            final(self).end() == old(self).end() + if r {
                slices as int
            } else {
                0
            },
            final(self).spec_first() == old(self).spec_first(),
            final(self).spec_capacity() == old(self).spec_capacity(),
            final(self).base_addr() == old(self).base_addr(),
            final(self).words() == old(self).words(),
            final(self).growths() == old(self).growths(),
            forall|s: int| #[trigger] final(self).owns(s) == old(self).owns(s),
    {
        if slices > self.first_slice + self.capacity_slices - self.end_slice {
            return false;
        }
        self.end_slice = self.end_slice + slices;
        true
    }

    /// Slices still available to `grow`.
    pub fn remaining_slices(&self) -> (r: usize)
        requires
            self.valid(),
        ensures
            r == self.spec_first() + self.spec_capacity() - self.end(),
    {
        self.first_slice + self.capacity_slices - self.end_slice
    }

    /// Write a word anywhere in the region.
    pub fn poke(&mut self, addr: usize, value: u64)
        requires
            old(self).valid(),
            addr % WORD == 0,
            old(self).in_region(addr as int),
        ensures
            final(self).valid(),
            final(self).spec_first() == old(self).spec_first(),
            final(self).spec_capacity() == old(self).spec_capacity(),
            final(self).base_addr() == old(self).base_addr(),
            final(self).end() == old(self).end(),
            forall|s: int| #[trigger] final(self).owns(s) == old(self).owns(s),
            final(self).words() == old(self).words().insert(addr as int, value),
            final(self).growths() == old(self).growths(),
    {
        let i: usize = (addr - self.first_slice * SLICE_SIZE) / WORD;
        let s: usize = addr / SLICE_SIZE;
        self.cells.set(i, value);
        if s >= self.touched_slice {
            self.touched_slice = s + 1;
        }
        proof {
            assert(self.words() =~= old(self).words().insert(addr as int, value));
        }
    }
}

impl Memory for SimMemory {
    closed spec fn valid(&self) -> bool {
        self.inv()
    }

    closed spec fn base_addr(&self) -> usize {
        self.heap_base
    }

    closed spec fn end(&self) -> usize {
        self.end_slice
    }

    closed spec fn owns(&self, s: int) -> bool {
        self.owned@.contains(s)
    }

    closed spec fn words(&self) -> Map<int, u64> {
        Map::new(
            |a: int| a % 8 == 0 && self.in_region(a),
            |a: int| self.cells@[self.index_of(a)],
        )
    }

    closed spec fn growths(&self) -> Seq<Growth> {
        self.asked@
    }

    fn heap_base(&self) -> usize {
        self.heap_base
    }

    fn size_slices(&self) -> usize {
        self.end_slice
    }

    fn grow(&mut self, slices: usize) -> (r: Option<usize>)
        ensures
            final(self).spec_first() == old(self).spec_first(),
            final(self).spec_capacity() == old(self).spec_capacity(),
            r == if old(self).end() + slices <= old(self).spec_first() + old(
                self,
            ).spec_capacity() {
                Some(old(self).end())
            } else {
                None
            },
            r is Some ==> final(self).end() == old(self).end() + slices,
            r is None ==> final(self).end() == old(self).end(),
    {
        let first_new: usize = self.end_slice;
        if slices > self.first_slice + self.capacity_slices - first_new {
            self.asked = Ghost(self.asked@.push(asked(slices as int, None)));
            return None;
        }
        let end: usize = first_new + slices;
        // Slices that were never stored to are zero already.
        let dirty_end: usize = if end < self.touched_slice {
            end
        } else {
            self.touched_slice
        };
        if first_new < dirty_end {
            let lo: usize = (first_new - self.first_slice) * SLICE_WORDS;
            let hi: usize = (dirty_end - self.first_slice) * SLICE_WORDS;
            let mut i: usize = lo;
            while i < hi
                invariant
                    lo <= i <= hi <= self.cells@.len(),
                    self.cells@.len() == old(self).cells@.len(),
                    self.first_slice == old(self).first_slice,
                    self.capacity_slices == old(self).capacity_slices,
                    self.end_slice == old(self).end_slice,
                    self.heap_base == old(self).heap_base,
                    self.touched_slice == old(self).touched_slice,
                    self.owned == old(self).owned,
                    self.asked == old(self).asked,
                    forall|k: int|
                        0 <= k < self.cells@.len() ==> #[trigger] self.cells@[k] == if lo <= k < i {
                            0
                        } else {
                            old(self).cells@[k]
                        },
                decreases hi - i,
            {
                self.cells.set(i, 0);
                i = i + 1;
            }
        }
        self.end_slice = end;
        self.asked = Ghost(self.asked@.push(asked(slices as int, Some(first_new))));
        self.owned = Ghost(
            self.owned@.union(Set::new(|s: int| first_new <= s < first_new + slices)),
        );
        proof {
            assert forall|a: int|
                #![trigger self.words()[a]]
                a % 8 == 0 && first_new <= slice_of(a) < first_new + slices implies self.words()[a]
                == 0 by {
                let i: int = self.index_of(a);
                assert((first_new - self.first_slice) * SLICE_WORDS <= i);
                assert(i < (end - self.first_slice) * SLICE_WORDS);
            }
            assert forall|a: int|
                #![trigger self.words()[a]]
                a % 8 == 0 && old(self).owns(slice_of(a)) implies self.words()[a] == old(
                self,
            ).words()[a] by {
                let i: int = self.index_of(a);
                assert(0 <= i < (first_new - self.first_slice) * SLICE_WORDS);
            }
        }
        Some(first_new)
    }

    fn load(&self, addr: usize) -> u64 {
        let i: usize = (addr - self.first_slice * SLICE_SIZE) / WORD;
        self.cells[i]
    }

    fn store(&mut self, addr: usize, value: u64) {
        self.poke(addr, value);
    }
}

} // verus!
