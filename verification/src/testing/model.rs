//! The model-based tester: what an allocator promises, checked one operation at a time.
//!
//! The model keeps a table of the blocks it believes are live: address, layout, and a seed from
//! which every byte it wrote into the block can be recomputed. A weighted random stream of
//! operations drives the allocator under test through [`RawAlloc`], and after each operation the
//! model checks what an allocator promises:
//!
//! - `alloc` and `alloc_zeroed` return a block aligned to the layout that overlaps no live block
//!   (a sorted list of live intervals makes this one logarithmic lookup, not a scan);
//! - `alloc_zeroed` returns zeros;
//! - a block holds exactly what the model wrote until it is freed, checked when the block is
//!   freed or resized and at periodic sweeps that free everything;
//! - `realloc` preserves the first `min(old, new)` bytes and returns an aligned block that
//!   overlaps no live block.
//!
//! A run is reproducible from the seed, the number of operations and the profile. The [`Failure`]
//! it returns names the operation that detected the problem and carries the seed. Allocation
//! failure is a failure of the run as well: every profile bounds live bytes so that an allocator
//! with enough backing memory never has a legitimate reason to refuse.
use vstd::prelude::*;

pub use super::choice::{Block, Op, Order, Profile};
pub use super::pattern::{DENSE_PREFIX, STRIDE};
pub use super::report::{Failure, FailureKind};

use super::choice::{next_op, MAX_ALIGN};
use super::intervals::{overlap, Intervals};
use super::pattern::{covered, fill, holds_pattern, law_a_prefix_keeps_its_pattern, verify};
use super::report::{describe, failure_kind, finding_text, kind_of, Call, Finding};
use super::rng::{mix64, mixed, Entropy, Rng};
use super::trace::{
    alloc_done, alloc_failed, alloc_fault, block_resized, block_taken, comes_to, completes,
    corrupted, counted, drain_failed, drain_index, drained, fails, fits_in, found_at,
    last_overlapped, misfit, performed, released, resize_done, resize_failed, resize_fault, start,
    stepped, victim, Outcome, Run,
};
use crate::arith::min;
use crate::bytes::byte_of;
use crate::layout::{valid_layout, Layout};

verus! {

/// `size` bytes at `a` and `other` bytes at `b` do not overlap.
pub open spec fn apart(a: int, size: int, b: int, other: int) -> bool {
    a + size <= b || b + other <= a
}

/// Every block of `held` but the one at `except` reads the same in both.
pub open spec fn bytes_kept(
    old: Map<int, Seq<u8>>,
    new: Map<int, Seq<u8>>,
    held: Map<int, Layout>,
    except: int,
) -> bool {
    forall|b: int, k: int|
        held.dom().contains(b) && b != except && 0 <= k < held[b].size() ==> #[trigger] new[b][k]
            == old[b][k]
}

/// What callers hold after a request: the block that came back, and what they held before.
pub open spec fn with_block(
    held: Map<int, Layout>,
    layout: Layout,
    r: Option<usize>,
) -> Map<int, Layout> {
    match r {
        Some(a) => held.insert(a as int, layout),
        None => held,
    }
}

/// A block at `a` for `layout` is aligned, ends inside the address space, and overlaps no block of
/// `held`.
pub open spec fn proper_block(held: Map<int, Layout>, a: int, layout: Layout) -> bool {
    &&& a % layout.align() as int == 0
    &&& a + layout.size() <= usize::MAX
    &&& !held.dom().contains(a)
    &&& forall|b: int| #[trigger]
        held.dom().contains(b) ==> apart(
            a,
            layout.size() as int,
            b,
            held[b].size() as int,
        )
}

/// A request made of an allocator.
pub enum Request {
    Alloc { layout: Layout, zeroed: bool },
    Dealloc { block: usize, layout: Layout },
    Realloc { block: usize, layout: Layout, new_size: usize },
    WriteWord { block: usize, offset: usize, word: u64 },
    WriteByte { block: usize, offset: usize, byte: u8 },
}

/// The four operations of an allocator, a footprint probe, and access to the blocks handed out.
///
/// The model drives anything implementing this: the heap over a simulated memory, or a
/// deliberately broken allocator. What callers hold is only a matter of which blocks came back and
/// which were returned; that the blocks are any good is promised by an honest allocator alone. An
/// implementation that leaves the spec functions as they are here claims nothing.
pub trait RawAlloc: Sized {
    /// The allocator's own invariant.
    open spec fn valid(&self) -> bool {
        false
    }

    /// The blocks callers hold, with the layout each was asked for.
    open spec fn held(&self) -> Map<int, Layout> {
        Map::empty()
    }

    /// The bytes of the blocks held.
    open spec fn contents(&self) -> Map<int, Seq<u8>> {
        Map::empty()
    }

    /// Whether the allocator keeps what an allocator promises.
    open spec fn honest(&self) -> bool {
        false
    }

    /// The request took the allocator from `old` to `new`, and this is the block that came back.
    open spec fn gave(old: &Self, new: &Self, request: Request, r: Option<usize>) -> bool {
        true
    }

    /// Bytes of backing memory, if the allocator can tell.
    open spec fn footprint(&self) -> Option<usize> {
        None
    }

    /// Allocate a block for `layout`, or `None` if memory cannot be obtained.
    fn allocate(&mut self, layout: Layout) -> (r: Option<usize>)
        requires
            old(self).valid(),
            layout.wf(),
            layout.size() > 0,
        ensures
            final(self).valid(),
            Self::gave(old(self), final(self), Request::Alloc { layout, zeroed: false }, r),
            final(self).held() == with_block(old(self).held(), layout, r),
            old(self).honest() ==> {
                &&& final(self).honest()
                &&& bytes_kept(
                    old(self).contents(),
                    final(self).contents(),
                    old(self).held(),
                    -1,
                )
                &&& r matches Some(a) ==> proper_block(old(self).held(), a as int, layout)
            },
    ;

    /// Allocate a zero-filled block for `layout`.
    fn alloc_zeroed(&mut self, layout: Layout) -> (r: Option<usize>)
        requires
            old(self).valid(),
            layout.wf(),
            layout.size() > 0,
        ensures
            final(self).valid(),
            Self::gave(old(self), final(self), Request::Alloc { layout, zeroed: true }, r),
            final(self).held() == with_block(old(self).held(), layout, r),
            old(self).honest() ==> {
                &&& final(self).honest()
                &&& bytes_kept(
                    old(self).contents(),
                    final(self).contents(),
                    old(self).held(),
                    -1,
                )
                &&& r matches Some(a) ==> {
                    &&& proper_block(old(self).held(), a as int, layout)
                    &&& forall|k: int|
                        0 <= k < layout.size() ==> #[trigger] final(self).contents()[a as int][k]
                            == 0
                }
            },
    ;

    /// Free a block.
    fn dealloc(&mut self, block: usize, layout: Layout)
        requires
            old(self).valid(),
            old(self).held().dom().contains(block as int),
            old(self).held()[block as int] == layout,
        ensures
            final(self).valid(),
            Self::gave(old(self), final(self), Request::Dealloc { block, layout }, None),
            final(self).held() == old(self).held().remove(block as int),
            old(self).honest() ==> final(self).honest() && bytes_kept(
                old(self).contents(),
                final(self).contents(),
                old(self).held(),
                block as int,
            ),
    ;

    /// Resize a block, preserving `min(layout.size(), new_size)` bytes. Returns the possibly
    /// moved block, or `None` if memory cannot be obtained, in which case the old block is left
    /// untouched and still live.
    fn realloc(&mut self, block: usize, layout: Layout, new_size: usize) -> (r: Option<usize>)
        requires
            old(self).valid(),
            old(self).held().dom().contains(block as int),
            old(self).held()[block as int] == layout,
            new_size > 0,
            valid_layout(new_size as int, layout.align() as int),
        ensures
            final(self).valid(),
            Self::gave(old(self), final(self), Request::Realloc { block, layout, new_size }, r),
            r is None ==> final(self).held() == old(self).held(),
            r matches Some(a) ==> final(self).held() == old(self).held().remove(
                block as int,
            ).insert(a as int, Layout::of(new_size, layout.align())),
            old(self).honest() ==> {
                &&& final(self).honest()
                &&& r is None ==> bytes_kept(
                    old(self).contents(),
                    final(self).contents(),
                    old(self).held(),
                    -1,
                )
                &&& r matches Some(a) ==> {
                    &&& bytes_kept(
                        old(self).contents(),
                        final(self).contents(),
                        old(self).held(),
                        block as int,
                    )
                    &&& proper_block(
                        old(self).held().remove(block as int),
                        a as int,
                        Layout::of(new_size, layout.align()),
                    )
                    &&& forall|k: int|
                        0 <= k < min(layout.size() as int, new_size as int)
                            ==> #[trigger] final(self).contents()[a as int][k]
                            == old(self).contents()[block as int][k]
                }
            },
    ;

    /// Bytes of backing memory the allocator currently holds, if it can tell.
    fn footprint_bytes(&self) -> (r: Option<usize>)
        requires
            self.valid(),
        ensures
            r == self.footprint(),
    ;

    /// The eight bytes at `offset` into a block, least significant first.
    fn read_word(&self, block: usize, offset: usize) -> (r: u64)
        requires
            self.valid(),
            self.held().dom().contains(block as int),
            offset + 8 <= self.held()[block as int].size(),
            offset % 8 == 0,
        ensures
            forall|j: u64|
                j < 8 ==> #[trigger] byte_of(r, j) == self.contents()[block as int][offset + j],
    ;

    /// Replace the eight bytes at `offset` into a block, least significant first.
    fn write_word(&mut self, block: usize, offset: usize, value: u64)
        requires
            old(self).valid(),
            old(self).held().dom().contains(block as int),
            offset + 8 <= old(self).held()[block as int].size(),
            offset % 8 == 0,
        ensures
            final(self).valid(),
            final(self).held() == old(self).held(),
            Self::gave(
                old(self),
                final(self),
                Request::WriteWord { block, offset, word: value },
                None,
            ),
            forall|k: int|
                0 <= k < old(self).held()[block as int].size() ==> #[trigger] final(self).contents()[block as int][k]
                    == if offset <= k < offset + 8 {
                    byte_of(value, (k - offset) as u64)
                } else {
                    old(self).contents()[block as int][k]
                },
            old(self).honest() ==> final(self).honest() && bytes_kept(
                old(self).contents(),
                final(self).contents(),
                old(self).held(),
                block as int,
            ),
    ;

    /// The byte at `offset` into a block.
    fn read_byte(&self, block: usize, offset: usize) -> (r: u8)
        requires
            self.valid(),
            self.held().dom().contains(block as int),
            offset < self.held()[block as int].size(),
        ensures
            r == self.contents()[block as int][offset as int],
    ;

    /// Replace the byte at `offset` into a block.
    fn write_byte(&mut self, block: usize, offset: usize, value: u8)
        requires
            old(self).valid(),
            old(self).held().dom().contains(block as int),
            offset < old(self).held()[block as int].size(),
        ensures
            final(self).valid(),
            final(self).held() == old(self).held(),
            Self::gave(
                old(self),
                final(self),
                Request::WriteByte { block, offset, byte: value },
                None,
            ),
            forall|k: int|
                0 <= k < old(self).held()[block as int].size() ==> #[trigger] final(self).contents()[block as int][k]
                    == if k == offset {
                    value
                } else {
                    old(self).contents()[block as int][k]
                },
            old(self).honest() ==> final(self).honest() && bytes_kept(
                old(self).contents(),
                final(self).contents(),
                old(self).held(),
                block as int,
            ),
    ;
}

/// Counters from a completed run.
#[derive(Clone, Copy, Debug, PartialEq, Eq, Structural)]
pub struct Stats {
    /// Operations executed (fewer than requested only when the entropy source ran dry).
    pub ops: usize,
    /// Calls to `alloc`.
    pub allocs: usize,
    /// Calls to `alloc_zeroed`.
    pub zeroed_allocs: usize,
    /// Calls to `dealloc`, including sweeps and the final drain.
    pub deallocs: usize,
    /// Calls to `realloc`.
    pub reallocs: usize,
    /// High-water mark of bytes requested and live at once.
    pub peak_live_bytes: usize,
    /// High-water mark of blocks live at once.
    pub peak_live_blocks: usize,
    /// High-water mark of [`RawAlloc::footprint_bytes`], if the allocator reports one.
    pub peak_footprint_bytes: Option<usize>,
}

impl Default for Stats {
    fn default() -> (r: Self)
        ensures
            r.ops == 0,
            r.allocs == 0,
            r.zeroed_allocs == 0,
            r.deallocs == 0,
            r.reallocs == 0,
            r.peak_live_bytes == 0,
            r.peak_live_blocks == 0,
            r.peak_footprint_bytes is None,
    {
        Stats {
            ops: 0,
            allocs: 0,
            zeroed_allocs: 0,
            deallocs: 0,
            reallocs: 0,
            peak_live_bytes: 0,
            peak_live_blocks: 0,
            peak_footprint_bytes: None,
        }
    }
}

/// The sum of the sizes.
pub open spec fn sum_sizes(live: Seq<Block>) -> int
    decreases live.len(),
{
    if live.len() == 0 {
        0
    } else {
        sum_sizes(live.drop_last()) + live.last().layout.size()
    }
}

/// A list without its `i`th member, in whose place the last one goes unless order matters.
pub open spec fn without(live: Seq<Block>, i: int, ordered: bool) -> Seq<Block> {
    if ordered {
        live.remove(i)
    } else {
        live.update(i, live.last()).drop_last()
    }
}

/// Where the `k`th member of [`without`] was.
spec fn was_at(n: int, i: int, ordered: bool, k: int) -> int {
    if ordered {
        if k < i {
            k
        } else {
            k + 1
        }
    } else if k == i {
        n - 1
    } else {
        k
    }
}

/// Where the `j`th of `n` blocks stands after the `i`th is gone.
spec fn now_at(n: int, i: int, ordered: bool, j: int) -> int {
    if ordered {
        if j < i {
            j
        } else {
            j - 1
        }
    } else if j == n - 1 {
        i
    } else {
        j
    }
}

#[verifier::spinoff_prover]
proof fn lemma_without(live: Seq<Block>, i: int, ordered: bool)
    requires
        0 <= i < live.len(),
    ensures
        without(live, i, ordered).len() == live.len() - 1,
        forall|k: int|
            0 <= k < live.len() - 1 ==> #[trigger] without(live, i, ordered)[k] == live[was_at(
                live.len() as int,
                i,
                ordered,
                k,
            )],
        forall|k: int|
            0 <= k < live.len() - 1 ==> 0 <= #[trigger] was_at(live.len() as int, i, ordered, k)
                < live.len() && was_at(live.len() as int, i, ordered, k) != i,
        forall|j: int|
            0 <= j < live.len() && j != i ==> {
                let k = #[trigger] now_at(live.len() as int, i, ordered, j);
                0 <= k < live.len() - 1 && without(live, i, ordered)[k] == live[j]
            },
        sum_sizes(without(live, i, ordered)) == sum_sizes(live) - live[i].layout.size(),
{
    if ordered {
        lemma_sum_removed(live, i);
    } else {
        lemma_sum_replaced(live, i, live.last());
    }
}

proof fn lemma_sum_removed(live: Seq<Block>, i: int)
    requires
        0 <= i < live.len(),
    ensures
        sum_sizes(live.remove(i)) == sum_sizes(live) - live[i].layout.size(),
    decreases live.len(),
{
    if i == live.len() - 1 {
        assert(live.remove(i) =~= live.drop_last());
    } else {
        let t = live.drop_last();
        lemma_sum_removed(t, i);
        assert(live.remove(i).drop_last() =~= t.remove(i));
        assert(live.remove(i).last() == live.last());
    }
}

proof fn lemma_sum_replaced(live: Seq<Block>, i: int, b: Block)
    requires
        0 <= i < live.len(),
    ensures
        sum_sizes(live.update(i, b)) == sum_sizes(live) - live[i].layout.size() + b.layout.size(),
    decreases live.len(),
{
    if i == live.len() - 1 {
        assert(live.update(i, b).drop_last() =~= live.drop_last());
    } else {
        lemma_sum_replaced(live.drop_last(), i, b);
        assert(live.update(i, b).drop_last() =~= live.drop_last().update(i, b));
    }
}

/// Every size is part of the sum, and so is every block.
proof fn lemma_sum_bounds(live: Seq<Block>)
    requires
        forall|i: int| 0 <= i < live.len() ==> (#[trigger] live[i]).layout.size() >= 1,
    ensures
        live.len() <= sum_sizes(live),
        forall|i: int| 0 <= i < live.len() ==> (#[trigger] live[i]).layout.size() <= sum_sizes(live),
    decreases live.len(),
{
    if live.len() > 0 {
        let t = live.drop_last();
        assert forall|i: int| 0 <= i < t.len() implies (#[trigger] t[i]).layout.size() >= 1 by {
            assert(t[i] == live[i]);
        }
        lemma_sum_bounds(t);
        assert forall|i: int| 0 <= i < live.len() implies (#[trigger] live[i]).layout.size()
            <= sum_sizes(live) by {
            if i < t.len() {
                assert(t[i] == live[i]);
            }
        }
    }
}

/// The tester's state.
struct Model {
    profile: Profile,
    /// Live blocks in allocation order; a resize moves its block to the back.
    live: Vec<Block>,
    /// Live intervals, for the overlap check.
    by_addr: Intervals,
    live_bytes: usize,
    stats: Stats,
    op_index: usize,
    /// Block seeds come from a counter rather than the entropy source so that a fuzzer's bytes
    /// all go into decisions.
    next_seed: u64,
    /// Batch mode: allocations left in the current allocation phase.
    batch_left: usize,
    /// Batch mode: frees left in the current free phase.
    free_left: usize,
}

/// Some block of the list is at `b`.
spec fn has_addr(live: Seq<Block>, b: int) -> bool {
    exists|i: int| 0 <= i < live.len() && (#[trigger] live[i]).addr == b
}

/// The blocks are different, and are those of the intervals.
spec fn tabled(live: Seq<Block>, by_addr: Map<int, int>) -> bool {
    &&& forall|i: int, j: int|
        0 <= i < j < live.len() ==> (#[trigger] live[i]).addr != (#[trigger] live[j]).addr
    &&& forall|i: int|
        0 <= i < live.len() ==> {
            let b = #[trigger] live[i];
            &&& by_addr.dom().contains(b.addr as int)
            &&& by_addr[b.addr as int] == b.addr + b.layout.size()
        }
    &&& forall|s: int| #[trigger] by_addr.dom().contains(s) ==> has_addr(live, s)
}

/// Every block has a layout that may have been asked for.
spec fn blocks_sized(live: Seq<Block>) -> bool {
    forall|i: int|
        0 <= i < live.len() ==> {
            let b = #[trigger] live[i];
            &&& b.layout.wf()
            &&& b.layout.size() >= 1
            &&& b.layout.align() <= MAX_ALIGN
        }
}

/// Every block is held under its layout.
spec fn all_held(live: Seq<Block>, held: Map<int, Layout>) -> bool {
    forall|i: int|
        0 <= i < live.len() ==> {
            let b = #[trigger] live[i];
            held.dom().contains(b.addr as int) && held[b.addr as int] == b.layout
        }
}

/// What is held is what was held at the start and the blocks of the table.
spec fn held_exactly(live: Seq<Block>, held: Map<int, Layout>, base: Map<int, Layout>) -> bool {
    &&& forall|b: int| #[trigger]
        held.dom().contains(b) <==> base.dom().contains(b) || has_addr(live, b)
    &&& forall|b: int| #[trigger]
        base.dom().contains(b) ==> held[b] == base[b] && !has_addr(live, b)
}

/// Every block holds what was written into it.
spec fn all_intact(live: Seq<Block>, contents: Map<int, Seq<u8>>) -> bool {
    forall|i: int|
        0 <= i < live.len() ==> {
            let b = #[trigger] live[i];
            holds_pattern(
                contents[b.addr as int],
                Some(b.seed),
                b.layout.size() as int,
                b.layout.size() as int,
            )
        }
}

impl Model {
    spec fn inv(&self) -> bool {
        &&& self.profile.usable()
        &&& self.by_addr.wf()
        &&& self.live_bytes == sum_sizes(self.live@)
        &&& self.live_bytes <= self.profile.max_live_bytes
        &&& blocks_sized(self.live@)
        &&& tabled(self.live@, self.by_addr@)
        &&& self.live@.len() + self.stats.deallocs == self.stats.allocs + self.stats.zeroed_allocs
        &&& self.live_bytes <= self.stats.peak_live_bytes <= self.profile.max_live_bytes
        &&& self.live@.len() <= self.stats.peak_live_blocks
    }

    /// The table agrees with what the allocator has handed out.
    spec fn tied<A: RawAlloc>(&self, alloc: &A) -> bool {
        alloc.valid() && all_held(self.live@, alloc.held())
    }

    /// The allocator is honest, and so far all is well.
    spec fn sound<A: RawAlloc>(&self, alloc: &A, base: Map<int, Layout>) -> bool {
        &&& alloc.honest()
        &&& all_intact(self.live@, alloc.contents())
        &&& held_exactly(self.live@, alloc.held(), base)
    }

    /// The run this is the state of.
    spec fn run<A: RawAlloc>(&self, alloc: A) -> Run<A> {
        Run {
            alloc,
            live: self.live@,
            next_seed: self.next_seed,
            batch_left: self.batch_left,
            free_left: self.free_left,
            stats: self.stats,
        }
    }

    /// Blocks asked for and resizes.
    spec fn requests(&self) -> int {
        self.stats.allocs + self.stats.zeroed_allocs + self.stats.reallocs
    }

    fn new(profile: Profile) -> (r: Self)
        requires
            profile.usable(),
        ensures
            r.inv(),
            r.profile == profile,
            r.live@.len() == 0,
            r.requests() == 0,
            r.stats.ops == 0,
            r.stats.deallocs == 0,
            r.stats.peak_live_blocks == 0,
            r.op_index == 0,
            r.live@ == Seq::<Block>::empty(),
            r.next_seed == 0,
            r.batch_left == 0,
            r.free_left == 0,
            r.stats.allocs == 0,
            r.stats.zeroed_allocs == 0,
            r.stats.reallocs == 0,
            r.stats.peak_live_bytes == 0,
            r.stats.peak_footprint_bytes is None,
    {
        Model {
            profile,
            live: Vec::new(),
            by_addr: Intervals::new(),
            live_bytes: 0,
            stats: Stats::default(),
            op_index: 0,
            next_seed: 0,
            batch_left: 0,
            free_left: 0,
        }
    }

    fn fresh_seed(&mut self) -> (r: u64)
        ensures
            *final(self) == (Model {
                next_seed: old(self).next_seed.wrapping_add(1),
                ..*old(self)
            }),
            r == mixed(final(self).next_seed),
    {
        self.next_seed = self.next_seed.wrapping_add(1);
        mix64(self.next_seed)
    }

    /// Check a freshly returned block for alignment and overlap, and record its interval.
    fn check_in(&mut self, call: Call, start: usize, layout: Layout) -> (r: Result<(), Finding>)
        requires
            old(self).by_addr.wf(),
            layout.wf(),
            layout.size() >= 1,
        ensures
            ({
                let size = layout.size() as int;
                let clash = exists|s: int| #[trigger]
                    old(self).by_addr@.dom().contains(s) && overlap(
                        start as int,
                        start + size,
                        s,
                        old(self).by_addr@[s],
                    );
                if start as int % layout.align() as int != 0 {
                    r == Err::<(), Finding>(Finding::Misaligned { call, start, layout })
                } else if start + size > usize::MAX {
                    r == Err::<(), Finding>(Finding::Wraps { call, start, layout })
                } else if clash {
                    r matches Err(Finding::Overlaps {
                        call: c,
                        start: a,
                        layout: l,
                        other,
                        other_end,
                    }) && c == call && a == start && l == layout && old(
                        self,
                    ).by_addr@.dom().contains(other as int) && old(self).by_addr@[other as int]
                        == other_end && overlap(
                        start as int,
                        start + size,
                        other as int,
                        other_end as int,
                    ) && forall|s: int| #[trigger]
                        old(self).by_addr@.dom().contains(s) && overlap(
                            start as int,
                            start + size,
                            s,
                            old(self).by_addr@[s],
                        ) ==> s <= other
                } else {
                    r is Ok
                }
            }),
            r is Err ==> *final(self) == *old(self),
            r is Ok ==> {
                &&& *final(self) == (Model { by_addr: final(self).by_addr, ..*old(self) })
                &&& final(self).by_addr.wf()
                &&& final(self).by_addr@ == old(self).by_addr@.insert(
                    start as int,
                    start + layout.size(),
                )
            },
    {
        proof {
            crate::arith::lemma_pow2_positive(layout.align() as int);
        }
        if start % layout.align() != 0 {
            return Err(Finding::Misaligned { call, start, layout });
        }
        let end: usize = match start.checked_add(layout.size()) {
            Some(e) => e,
            None => {
                return Err(Finding::Wraps { call, start, layout });
            },
        };
        match self.by_addr.clash(start, end) {
            Some(t) => {
                return Err(
                    Finding::Overlaps { call, start, layout, other: t.0, other_end: t.1 },
                );
            },
            None => {},
        }
        self.by_addr.insert(start, end);
        Ok(())
    }

    /// Put a block into the table.
    fn record_live(&mut self, block: Block, footprint: Option<usize>)
        requires
            old(self).live_bytes + block.layout.size() <= usize::MAX,
        ensures
            final(self).live@ == old(self).live@.push(block),
            final(self).live_bytes == old(self).live_bytes + block.layout.size(),
            ({
                let s = old(self).stats;
                let bytes = final(self).live_bytes;
                let blocks = old(self).live@.len() + 1;
                final(self).stats == (Stats {
                    peak_live_bytes: if bytes > s.peak_live_bytes {
                        bytes
                    } else {
                        s.peak_live_bytes
                    },
                    peak_live_blocks: if blocks > s.peak_live_blocks {
                        blocks as usize
                    } else {
                        s.peak_live_blocks
                    },
                    peak_footprint_bytes: match (footprint, s.peak_footprint_bytes) {
                        (Some(f), Some(p)) => if f > p {
                            Some(f)
                        } else {
                            Some(p)
                        },
                        (Some(f), None) => Some(f),
                        (None, p) => p,
                    },
                    ..s
                })
            }),
            *final(self) == (Model {
                live: final(self).live,
                live_bytes: final(self).live_bytes,
                stats: final(self).stats,
                ..*old(self)
            }),
            final(self).live@.len() <= usize::MAX,
    {
        self.live_bytes = self.live_bytes + block.layout.size();
        self.live.push(block);
        if self.live_bytes > self.stats.peak_live_bytes {
            self.stats.peak_live_bytes = self.live_bytes;
        }
        let blocks: usize = self.live.len();
        if blocks > self.stats.peak_live_blocks {
            self.stats.peak_live_blocks = blocks;
        }
        match footprint {
            Some(f) => match self.stats.peak_footprint_bytes {
                Some(p) => {
                    if f > p {
                        self.stats.peak_footprint_bytes = Some(f);
                    }
                },
                None => {
                    self.stats.peak_footprint_bytes = Some(f);
                },
            },
            None => {},
        }
    }
}

/// A block was added to the table.
proof fn lemma_pushed(live: Seq<Block>, by_addr: Map<int, int>, b: Block)
    requires
        tabled(live, by_addr),
        blocks_sized(live),
        b.layout.wf(),
        b.layout.size() >= 1,
        b.layout.align() <= MAX_ALIGN,
        forall|s: int| #[trigger]
            by_addr.dom().contains(s) ==> !overlap(
                b.addr as int,
                b.addr + b.layout.size(),
                s,
                by_addr[s],
            ),
    ensures
        tabled(live.push(b), by_addr.insert(b.addr as int, b.addr + b.layout.size())),
        blocks_sized(live.push(b)),
        sum_sizes(live.push(b)) == sum_sizes(live) + b.layout.size(),
        !has_addr(live, b.addr as int),
        forall|a: int| #[trigger] has_addr(live.push(b), a) <==> has_addr(live, a) || a == b.addr,
{
    let t = live.push(b);
    let m = by_addr.insert(b.addr as int, b.addr + b.layout.size());
    assert(t.drop_last() =~= live);
    assert(!has_addr(live, b.addr as int)) by {
        if has_addr(live, b.addr as int) {
            let i: int = choose|i: int| 0 <= i < live.len() && (#[trigger] live[i]).addr == b.addr;
            assert(by_addr.dom().contains(live[i].addr as int));
        }
    }
    assert forall|i: int, j: int| 0 <= i < j < t.len() implies (#[trigger] t[i]).addr != (
    #[trigger] t[j]).addr by {
        assert(t[i] == live[i]);
        if j < live.len() {
            assert(t[j] == live[j]);
        }
    }
    assert forall|i: int| 0 <= i < t.len() implies {
        let c = #[trigger] t[i];
        m.dom().contains(c.addr as int) && m[c.addr as int] == c.addr + c.layout.size()
    } by {
        if i < live.len() {
            assert(t[i] == live[i]);
        }
    }
    assert forall|a: int| #[trigger] has_addr(t, a) <==> has_addr(live, a) || a == b.addr by {
        if has_addr(t, a) {
            let i: int = choose|i: int| 0 <= i < t.len() && (#[trigger] t[i]).addr == a;
            if i < live.len() {
                assert(t[i] == live[i]);
            }
        }
        if has_addr(live, a) {
            let i: int = choose|i: int| 0 <= i < live.len() && (#[trigger] live[i]).addr == a;
            assert(t[i] == live[i]);
        }
        if a == b.addr {
            assert(t[live.len() as int] == b);
        }
    }
    assert forall|i: int| 0 <= i < t.len() implies {
        let c = #[trigger] t[i];
        c.layout.wf() && c.layout.size() >= 1 && c.layout.align() <= MAX_ALIGN
    } by {
        if i < live.len() {
            assert(t[i] == live[i]);
        }
    }
}

/// A block was taken out of the table.
proof fn lemma_taken_out(live: Seq<Block>, by_addr: Map<int, int>, i: int, ordered: bool)
    requires
        0 <= i < live.len(),
        tabled(live, by_addr),
        blocks_sized(live),
    ensures
        tabled(without(live, i, ordered), by_addr.remove(live[i].addr as int)),
        blocks_sized(without(live, i, ordered)),
        sum_sizes(without(live, i, ordered)) == sum_sizes(live) - live[i].layout.size(),
        !has_addr(without(live, i, ordered), live[i].addr as int),
        forall|a: int| #[trigger]
            has_addr(live, a) <==> has_addr(without(live, i, ordered), a) || a == live[i].addr,
{
    let t = without(live, i, ordered);
    let n: int = live.len() as int;
    let m = by_addr.remove(live[i].addr as int);
    lemma_without(live, i, ordered);
    assert forall|k: int| 0 <= k < t.len() implies (#[trigger] t[k]).addr != live[i].addr
        && m.dom().contains(t[k].addr as int) && m[t[k].addr as int] == t[k].addr
        + t[k].layout.size() by {
        let j: int = was_at(n, i, ordered, k);
        assert(t[k] == live[j]);
        if j < i {
            assert(live[j].addr != live[i].addr);
        } else {
            assert(live[i].addr != live[j].addr);
        }
    }
    assert forall|k: int, l: int| 0 <= k < l < t.len() implies (#[trigger] t[k]).addr != (
    #[trigger] t[l]).addr by {
        let x: int = was_at(n, i, ordered, k);
        let y: int = was_at(n, i, ordered, l);
        assert(t[k] == live[x]);
        assert(t[l] == live[y]);
        if x < y {
            assert(live[x].addr != live[y].addr);
        } else {
            assert(live[y].addr != live[x].addr);
        }
    }
    assert forall|a: int| #[trigger] has_addr(live, a) <==> has_addr(t, a) || a
        == live[i].addr by {
        if has_addr(live, a) && a != live[i].addr {
            let j: int = choose|j: int| 0 <= j < n && (#[trigger] live[j]).addr == a;
            let k: int = now_at(n, i, ordered, j);
            assert(0 <= k < n - 1 && t[k] == live[j]);
        }
        if has_addr(t, a) {
            let k: int = choose|k: int| 0 <= k < t.len() && (#[trigger] t[k]).addr == a;
            assert(live[was_at(n, i, ordered, k)].addr == a);
        }
        if a == live[i].addr {
            assert(live[i].addr == a);
        }
    }
    assert(!has_addr(t, live[i].addr as int));
    assert forall|s: int| #[trigger] m.dom().contains(s) implies has_addr(t, s) by {
        assert(by_addr.dom().contains(s));
        assert(has_addr(live, s));
    }
    assert forall|k: int| 0 <= k < t.len() implies {
        let c = #[trigger] t[k];
        c.layout.wf() && c.layout.size() >= 1 && c.layout.align() <= MAX_ALIGN
    } by {
        assert(t[k] == live[was_at(n, i, ordered, k)]);
    }
}

/// What holds of every member of a list holds of every member of a part of it.
proof fn lemma_rest_held(live: Seq<Block>, i: int, ordered: bool, held: Map<int, Layout>)
    requires
        0 <= i < live.len(),
        all_held(live, held),
        forall|k: int, l: int|
            0 <= k < l < live.len() ==> (#[trigger] live[k]).addr != (#[trigger] live[l]).addr,
    ensures
        all_held(without(live, i, ordered), held.remove(live[i].addr as int)),
{
    let t = without(live, i, ordered);
    lemma_without(live, i, ordered);
    assert forall|k: int| 0 <= k < t.len() implies {
        let b = #[trigger] t[k];
        held.remove(live[i].addr as int).dom().contains(b.addr as int) && held.remove(
            live[i].addr as int,
        )[b.addr as int] == b.layout
    } by {
        let j: int = was_at(live.len() as int, i, ordered, k);
        assert(t[k] == live[j]);
        if j < i {
            assert(live[j].addr != live[i].addr);
        } else {
            assert(live[i].addr != live[j].addr);
        }
    }
}

proof fn lemma_rest_intact(
    live: Seq<Block>,
    i: int,
    ordered: bool,
    held: Map<int, Layout>,
    before: Map<int, Seq<u8>>,
    after: Map<int, Seq<u8>>,
)
    requires
        0 <= i < live.len(),
        all_held(live, held),
        all_intact(live, before),
        bytes_kept(before, after, held, live[i].addr as int),
        forall|k: int, l: int|
            0 <= k < l < live.len() ==> (#[trigger] live[k]).addr != (#[trigger] live[l]).addr,
    ensures
        all_intact(without(live, i, ordered), after),
{
    let t = without(live, i, ordered);
    lemma_without(live, i, ordered);
    assert forall|k: int| 0 <= k < t.len() implies {
        let b = #[trigger] t[k];
        holds_pattern(
            after[b.addr as int],
            Some(b.seed),
            b.layout.size() as int,
            b.layout.size() as int,
        )
    } by {
        let j: int = was_at(live.len() as int, i, ordered, k);
        let b = live[j];
        assert(t[k] == b);
        if j < i {
            assert(live[j].addr != live[i].addr);
        } else {
            assert(live[i].addr != live[j].addr);
        }
        lemma_intact(b, held, before, after);
    }
}

/// A block whose bytes are kept keeps its pattern.
proof fn lemma_intact(
    b: Block,
    held: Map<int, Layout>,
    before: Map<int, Seq<u8>>,
    after: Map<int, Seq<u8>>,
)
    requires
        held.dom().contains(b.addr as int),
        held[b.addr as int] == b.layout,
        forall|k: int|
            0 <= k < b.layout.size() ==> #[trigger] after[b.addr as int][k]
                == before[b.addr as int][k],
        holds_pattern(
            before[b.addr as int],
            Some(b.seed),
            b.layout.size() as int,
            b.layout.size() as int,
        ),
    ensures
        holds_pattern(
            after[b.addr as int],
            Some(b.seed),
            b.layout.size() as int,
            b.layout.size() as int,
        ),
{
    let n: int = b.layout.size() as int;
    let a: int = b.addr as int;
    assert forall|k: int| covered(n, n, k) implies #[trigger] after[a][k]
        == super::pattern::pattern_byte(Some(b.seed), k) by {
        assert(before[a][k] == super::pattern::pattern_byte(Some(b.seed), k));
    }
}

/// The blocks of the table keep their patterns when another block is handed out or written to.
proof fn lemma_all_intact(
    live: Seq<Block>,
    held: Map<int, Layout>,
    before: Map<int, Seq<u8>>,
    after: Map<int, Seq<u8>>,
    except: int,
)
    requires
        all_held(live, held),
        all_intact(live, before),
        bytes_kept(before, after, held, except),
        !has_addr(live, except),
    ensures
        all_intact(live, after),
{
    assert forall|i: int| 0 <= i < live.len() implies {
        let b = #[trigger] live[i];
        holds_pattern(
            after[b.addr as int],
            Some(b.seed),
            b.layout.size() as int,
            b.layout.size() as int,
        )
    } by {
        let b = live[i];
        assert(b.addr != except);
        lemma_intact(b, held, before, after);
    }
}

/// A proper block overlaps none of the table.
proof fn lemma_proper(
    live: Seq<Block>,
    by_addr: Map<int, int>,
    held: Map<int, Layout>,
    a: int,
    layout: Layout,
)
    requires
        tabled(live, by_addr),
        all_held(live, held),
        proper_block(held, a, layout),
    ensures
        forall|s: int| #[trigger]
            by_addr.dom().contains(s) ==> !overlap(a, a + layout.size(), s, by_addr[s]),
{
    assert forall|s: int| #[trigger] by_addr.dom().contains(s) implies !overlap(
        a,
        a + layout.size(),
        s,
        by_addr[s],
    ) by {
        assert(has_addr(live, s));
        let i: int = choose|i: int| 0 <= i < live.len() && (#[trigger] live[i]).addr == s;
        assert(held.dom().contains(live[i].addr as int));
    }
}

impl Model {
    /// Allocate a block, check it, and fill it.
    #[verifier::rlimit(30)]
    fn do_alloc<A: RawAlloc>(
        &mut self,
        alloc: &mut A,
        layout: Layout,
        zeroed: bool,
        Ghost(base): Ghost<Map<int, Layout>>,
    ) -> (r: Result<(), Finding>)
        requires
            old(self).inv(),
            old(self).tied(old(alloc)),
            old(self).requests() < usize::MAX,
            layout.wf(),
            1 <= layout.size() <= old(self).profile.max_live_bytes - old(self).live_bytes,
            layout.align() <= MAX_ALIGN,
        ensures
            final(alloc).valid(),
            final(self).profile == old(self).profile,
            final(self).op_index == old(self).op_index,
            r is Ok ==> {
                &&& final(self).inv()
                &&& final(self).tied(final(alloc))
                &&& final(self).requests() == old(self).requests() + 1
                &&& final(self).stats.ops == old(self).stats.ops
                &&& final(self).stats.deallocs == old(self).stats.deallocs
                &&& final(self).stats.zeroed_allocs == old(self).stats.zeroed_allocs + if zeroed {
                    1int
                } else {
                    0
                }
                &&& final(self).live@.len() == old(self).live@.len() + 1
                &&& final(self).live@.last().layout == layout
                &&& final(self).live@.drop_last() == old(self).live@
            },
            r is Ok ==> alloc_done(
                old(self).run(*old(alloc)),
                final(self).run(*final(alloc)),
                layout,
                zeroed,
            ),
            r matches Err(f) ==> finding_fits(f) && alloc_failed(
                old(self).run(*old(alloc)),
                layout,
                zeroed,
                f,
            ),
            old(self).sound(old(alloc), base) ==> {
                &&& r is Ok ==> final(self).sound(final(alloc), base)
                &&& r matches Err(f) ==> kind_of(f) == FailureKind::AllocFailed
            },
    {
        let ghost s0 = self.run(*alloc);
        let call = if zeroed {
            Call::AllocZeroed
        } else {
            Call::Alloc
        };
        let ghost held0 = alloc.held();
        let ghost live0 = self.live@;
        let ghost table0 = self.by_addr@;
        let ghost c0 = alloc.contents();
        let got = if zeroed {
            alloc.alloc_zeroed(layout)
        } else {
            alloc.allocate(layout)
        };
        let addr: usize = match got {
            Some(a) => a,
            None => {
                let f = Finding::Refused { call, layout, live_bytes: self.live_bytes };
                assert(alloc_fault(s0, layout, zeroed, *alloc, None, f));
                return Err(f);
            },
        };
        let ghost a: int = addr as int;
        let ghost mid = *alloc;
        let ghost gotten = Some(addr);
        proof {
            assert(gotten->0 == addr);
            if self.sound(old(alloc), base) {
                lemma_proper(live0, table0, held0, a, layout);
            }
            if addr as int % layout.align() as int == 0 && addr + layout.size() <= usize::MAX {
                lemma_fits_in(live0, table0, addr, layout);
            }
        }
        match self.check_in(call, addr, layout) {
            Ok(_) => {},
            Err(f) => {
                proof {
                    if f is Overlaps {
                        lemma_misfit(live0, table0, call, addr, layout, f);
                    }
                    assert(alloc_fault(s0, layout, zeroed, mid, gotten, f));
                }
                return Err(f);
            },
        }
        let len: usize = layout.size();
        let ghost c1 = alloc.contents();
        if zeroed {
            match verify(alloc, addr, len, len, None) {
                Ok(_) => {},
                Err(m) => {
                    let f = Finding::NotZeroed { start: addr, layout, at: m };
                    assert(alloc_fault(s0, layout, zeroed, mid, gotten, f));
                    return Err(f);
                },
            }
            self.stats.zeroed_allocs = self.stats.zeroed_allocs + 1;
        } else {
            self.stats.allocs = self.stats.allocs + 1;
        }
        let seed: u64 = self.fresh_seed();
        fill(alloc, addr, len, seed);
        let block = Block { addr, layout, seed };
        let footprint = alloc.footprint_bytes();
        self.record_live(block, footprint);
        proof {
            lemma_pushed(live0, table0, block);
            let held1 = alloc.held();
            assert forall|i: int| 0 <= i < self.live@.len() implies {
                let b = #[trigger] self.live@[i];
                held1.dom().contains(b.addr as int) && held1[b.addr as int] == b.layout
            } by {
                if i < live0.len() {
                    assert(self.live@[i] == live0[i]);
                    assert(has_addr(live0, live0[i].addr as int));
                }
            }
            lemma_sum_bounds(self.live@);
            if old(self).sound(old(alloc), base) {
                lemma_all_intact(live0, held0, c0, c1, -1);
                lemma_filled(live0, held0, c1, alloc.contents(), block);
                lemma_held_more(live0, held0, base, block);
            }
        }
        if self.batch_left > 0 {
            self.batch_left = self.batch_left - 1;
            if self.batch_left == 0 {
                self.free_left = self.live.len();
            }
        }
        proof {
            assert(self.live@.drop_last() =~= live0);
            assert(block_taken(s0, self.run(*alloc), layout, zeroed, mid, addr));
        }
        Ok(())
    }
}

/// The check against the intervals is the check against the blocks.
proof fn lemma_fits_in(live: Seq<Block>, by_addr: Map<int, int>, start: usize, layout: Layout)
    requires
        tabled(live, by_addr),
        start as int % layout.align() as int == 0,
        start + layout.size() <= usize::MAX,
    ensures
        fits_in(live, start, layout) <==> !(exists|s: int| #[trigger]
            by_addr.dom().contains(s) && overlap(
                start as int,
                start + layout.size(),
                s,
                by_addr[s],
            )),
{
    let end: int = start + layout.size();
    assert forall|i: int| 0 <= i < live.len() && overlap(
        start as int,
        end,
        (#[trigger] live[i]).addr as int,
        live[i].addr + live[i].layout.size(),
    ) implies (exists|s: int| #[trigger]
        by_addr.dom().contains(s) && overlap(start as int, end, s, by_addr[s])) by {
        assert(by_addr.dom().contains(live[i].addr as int));
    }
    assert forall|s: int| #[trigger]
        by_addr.dom().contains(s) && overlap(
            start as int,
            end,
            s,
            by_addr[s],
        ) implies !fits_in(live, start, layout) by {
        assert(has_addr(live, s));
        let i: int = choose|i: int| 0 <= i < live.len() && (#[trigger] live[i]).addr == s;
        assert(by_addr[live[i].addr as int] == live[i].addr + live[i].layout.size());
    }
}

/// A block that overlaps one of the intervals is a misfit among the blocks.
proof fn lemma_misfit(
    live: Seq<Block>,
    by_addr: Map<int, int>,
    call: Call,
    start: usize,
    layout: Layout,
    f: Finding,
)
    requires
        tabled(live, by_addr),
        start as int % layout.align() as int == 0,
        start + layout.size() <= usize::MAX,
        f matches Finding::Overlaps { call: c, start: a, layout: l, other, other_end } && c == call
            && a == start && l == layout && by_addr.dom().contains(other as int)
            && by_addr[other as int] == other_end && overlap(
            start as int,
            start + layout.size(),
            other as int,
            other_end as int,
        ) && forall|s: int| #[trigger]
            by_addr.dom().contains(s) && overlap(
                start as int,
                start + layout.size(),
                s,
                by_addr[s],
            ) ==> s <= other,
    ensures
        misfit(live, call, start, layout, f),
{
    let other: usize = f->Overlaps_other;
    assert(has_addr(live, other as int));
    let i: int = choose|i: int| 0 <= i < live.len() && (#[trigger] live[i]).addr == other;
    assert(by_addr[live[i].addr as int] == live[i].addr + live[i].layout.size());
    assert forall|j: int| 0 <= j < live.len() && j != i && overlap(
        start as int,
        start + layout.size(),
        (#[trigger] live[j]).addr as int,
        live[j].addr + live[j].layout.size(),
    ) implies live[j].addr < live[i].addr by {
        assert(by_addr.dom().contains(live[j].addr as int));
        assert(by_addr[live[j].addr as int] == live[j].addr + live[j].layout.size());
    }
    assert(last_overlapped(live, start, layout, i));
}

/// What a finding's text needs to be well defined.
pub open spec fn finding_fits(f: Finding) -> bool {
    f matches Finding::Overlaps { start, layout, .. } ==> start + layout.size() <= usize::MAX
}

/// The table with a block that was handed out and filled: all of it is intact.
proof fn lemma_filled(
    live: Seq<Block>,
    held: Map<int, Layout>,
    before: Map<int, Seq<u8>>,
    after: Map<int, Seq<u8>>,
    b: Block,
)
    requires
        all_held(live, held),
        all_intact(live, before),
        !has_addr(live, b.addr as int),
        bytes_kept(before, after, held.insert(b.addr as int, b.layout), b.addr as int),
        holds_pattern(
            after[b.addr as int],
            Some(b.seed),
            b.layout.size() as int,
            b.layout.size() as int,
        ),
    ensures
        all_intact(live.push(b), after),
{
    let t = live.push(b);
    assert forall|i: int| 0 <= i < t.len() implies {
        let c = #[trigger] t[i];
        holds_pattern(
            after[c.addr as int],
            Some(c.seed),
            c.layout.size() as int,
            c.layout.size() as int,
        )
    } by {
        if i < live.len() {
            let c = live[i];
            assert(t[i] == c);
            assert(c.addr != b.addr);
            lemma_intact(c, held.insert(b.addr as int, b.layout), before, after);
        }
    }
}

/// What is held, with one block more.
proof fn lemma_held_more(live: Seq<Block>, held: Map<int, Layout>, base: Map<int, Layout>, b: Block)
    requires
        held_exactly(live, held, base),
        !held.dom().contains(b.addr as int),
        forall|a: int| #[trigger]
            has_addr(live.push(b), a) <==> has_addr(live, a) || a == b.addr,
    ensures
        held_exactly(live.push(b), held.insert(b.addr as int, b.layout), base),
{
    let h = held.insert(b.addr as int, b.layout);
    assert forall|c: int| #[trigger] h.dom().contains(c) <==> base.dom().contains(c) || has_addr(
        live.push(b),
        c,
    ) by {
        assert(held.dom().contains(c) <==> base.dom().contains(c) || has_addr(live, c));
    }
    assert forall|c: int| #[trigger] base.dom().contains(c) implies h[c] == base[c] && !has_addr(
        live.push(b),
        c,
    ) by {
        assert(held.dom().contains(c));
    }
}

/// What is held, with one block less.
proof fn lemma_held_less(
    live: Seq<Block>,
    held: Map<int, Layout>,
    base: Map<int, Layout>,
    i: int,
    ordered: bool,
)
    requires
        0 <= i < live.len(),
        held_exactly(live, held, base),
        !has_addr(without(live, i, ordered), live[i].addr as int),
        forall|a: int| #[trigger]
            has_addr(live, a) <==> has_addr(without(live, i, ordered), a) || a == live[i].addr,
    ensures
        held_exactly(without(live, i, ordered), held.remove(live[i].addr as int), base),
{
    let t = without(live, i, ordered);
    let a: int = live[i].addr as int;
    let h = held.remove(a);
    assert(has_addr(live, a));
    assert forall|c: int| #[trigger] h.dom().contains(c) <==> base.dom().contains(c) || has_addr(
        t,
        c,
    ) by {
        assert(held.dom().contains(c) <==> base.dom().contains(c) || has_addr(live, c));
        assert(has_addr(live, c) <==> has_addr(t, c) || c == a);
        if c == a && base.dom().contains(c) {
            assert(!has_addr(live, c));
        }
    }
    assert forall|c: int| #[trigger] base.dom().contains(c) implies h[c] == base[c] && !has_addr(
        t,
        c,
    ) by {
        assert(!has_addr(live, c));
        assert(has_addr(live, c) <==> has_addr(t, c) || c == a);
    }
}

/// The `i`th block was taken out of the list of live ones, and nothing else was done.
spec fn taken_out(o: Model, n: Model, i: int, ordered: bool) -> bool {
    &&& n.live@ == without(o.live@, i, ordered)
    &&& n == Model { live: n.live, ..o }
}

/// The `i`th block went to the back of the list of live ones, and nothing else changed.
spec fn put_back(o: Model, n: Model, i: int) -> bool {
    &&& n.live@ == without(o.live@, i, false).push(o.live@[i])
    &&& n.by_addr@ == o.by_addr@
    &&& n == Model { live: n.live, by_addr: n.by_addr, ..o }
}

impl Model {
    /// Verify the contents of the `index`th block, then free it.
    #[verifier::rlimit(30)]
    fn release<A: RawAlloc>(
        &mut self,
        alloc: &mut A,
        index: usize,
        ordered: bool,
        Ghost(base): Ghost<Map<int, Layout>>,
    ) -> (r: Result<(), Finding>)
        requires
            old(self).inv(),
            old(self).tied(old(alloc)),
            old(self).requests() <= usize::MAX,
            index < old(self).live@.len(),
        ensures
            final(alloc).valid(),
            final(self).profile == old(self).profile,
            final(self).op_index == old(self).op_index,
            r is Ok ==> {
                &&& final(self).inv()
                &&& final(self).tied(final(alloc))
                &&& final(self).requests() == old(self).requests()
                &&& final(self).stats == (Stats {
                    deallocs: (old(self).stats.deallocs + 1) as usize,
                    ..old(self).stats
                })
                &&& final(self).live@ == without(old(self).live@, index as int, ordered)
            },
            r is Ok ==> released(
                old(self).run(*old(alloc)),
                final(self).run(*final(alloc)),
                index as int,
                ordered,
            ),
            r matches Err(f) ==> finding_fits(f) && corrupted(
                old(self).run(*old(alloc)),
                index as int,
                false,
                f,
            ) && taken_out(*old(self), *final(self), index as int, ordered),
            old(self).sound(old(alloc), base) ==> r is Ok && final(self).sound(final(alloc), base),
    {
        let ghost live0 = self.live@;
        let ghost table0 = self.by_addr@;
        let ghost held0 = alloc.held();
        let ghost c0 = alloc.contents();
        let ghost i: int = index as int;
        let block: Block = if ordered {
            self.live.remove(index)
        } else {
            self.live.swap_remove(index)
        };
        let len: usize = block.layout.size();
        proof {
            lemma_sum_bounds(live0);
            lemma_taken_out(live0, table0, i, ordered);
            lemma_without(live0, i, ordered);
            lemma_rest_held(live0, i, ordered, held0);
        }
        match verify(alloc, block.addr, len, len, Some(block.seed)) {
            Ok(_) => {},
            Err(m) => {
                return Err(
                    Finding::Corrupted {
                        start: block.addr,
                        layout: block.layout,
                        at: m,
                        resizing: false,
                    },
                );
            },
        }
        self.by_addr.remove(block.addr);
        self.live_bytes = self.live_bytes - len;
        alloc.dealloc(block.addr, block.layout);
        self.stats.deallocs = self.stats.deallocs + 1;
        self.free_left = self.free_left.saturating_sub(1);
        proof {
            if old(self).sound(old(alloc), base) {
                lemma_rest_intact(live0, i, ordered, held0, c0, alloc.contents());
                lemma_held_less(live0, held0, base, i, ordered);
            }
        }
        Ok(())
    }

    /// Free one block, which one depends on the profile. `false` if the entropy source ran dry.
    fn do_dealloc<A: RawAlloc, E: Entropy>(
        &mut self,
        alloc: &mut A,
        e: &mut E,
        Ghost(base): Ghost<Map<int, Layout>>,
    ) -> (r: Result<bool, Finding>)
        requires
            old(self).inv(),
            old(self).tied(old(alloc)),
            old(self).requests() <= usize::MAX,
            old(self).live@.len() > 0,
        ensures
            final(alloc).valid(),
            final(self).profile == old(self).profile,
            final(self).op_index == old(self).op_index,
            r is Ok ==> {
                &&& final(self).inv()
                &&& final(self).tied(final(alloc))
                &&& final(self).requests() == old(self).requests()
                &&& final(self).stats.ops == old(self).stats.ops
            },
            r == Ok::<bool, Finding>(false) ==> {
                &&& *final(self) == *old(self)
                &&& *final(alloc) == *old(alloc)
                &&& old(e).upcoming() is None
                &&& *final(e) == old(e).drawn()
            },
            r matches Err(f) ==> finding_fits(f) && kind_of(f) == FailureKind::Corrupted,
            ({
                let (pick, g) = victim(old(self).profile.order, *old(e), old(self).live@.len() as int);
                let o = old(self).run(*old(alloc));
                let n = final(self).run(*final(alloc));
                &&& *final(e) == g
                &&& match pick {
                    None => r == Ok::<bool, Finding>(false) && n == o,
                    Some((i, ordered)) => {
                        &&& r is Ok ==> r == Ok::<bool, Finding>(true) && released(o, n, i, ordered)
                        &&& r is Err ==> corrupted(o, i, false, r->Err_0)
                    },
                }
            }),
            old(self).sound(old(alloc), base) ==> r is Ok && final(self).sound(final(alloc), base),
    {
        let n: usize = self.live.len();
        proof {
            lemma_sum_bounds(self.live@);
        }
        let (index, ordered): (usize, bool) = match self.profile.order {
            Order::Random => match e.below(n as u32) {
                Some(i) => (i as usize, false),
                None => {
                    return Ok(false);
                },
            },
            Order::Lifo => (n - 1, false),
            Order::Fifo => (0, true),
        };
        match self.release(alloc, index, ordered, Ghost(base)) {
            Ok(_) => Ok(true),
            Err(f) => Err(f),
        }
    }

    /// Free every live block, verifying each, in the profile's order (newest first for
    /// `Random`, which needs no entropy).
    fn drain<A: RawAlloc>(&mut self, alloc: &mut A, Ghost(base): Ghost<Map<int, Layout>>) -> (r:
        Result<(), Finding>)
        requires
            old(self).inv(),
            old(self).tied(old(alloc)),
            old(self).requests() <= usize::MAX,
        ensures
            final(alloc).valid(),
            final(self).profile == old(self).profile,
            final(self).op_index == old(self).op_index,
            r is Ok ==> {
                &&& final(self).inv()
                &&& final(self).tied(final(alloc))
                &&& final(self).live@.len() == 0
                &&& final(self).stats == (Stats {
                    deallocs: (old(self).stats.deallocs + old(self).live@.len()) as usize,
                    ..old(self).stats
                })
            },
            r matches Err(f) ==> finding_fits(f) && kind_of(f) == FailureKind::Corrupted
                && drain_failed(old(self).profile, old(self).run(*old(alloc)), f),
            r is Ok ==> drained(
                old(self).profile,
                old(self).run(*old(alloc)),
                final(self).run(*final(alloc)),
            ),
            old(self).live@.len() == 0 ==> r is Ok && *final(alloc) == *old(alloc),
            old(self).sound(old(alloc), base) ==> r is Ok && final(self).sound(final(alloc), base),
    {
        let ghost p = self.profile;
        let ghost s0 = self.run(*alloc);
        while self.live.len() > 0
            invariant
                self.inv(),
                self.tied(alloc),
                self.profile == old(self).profile,
                p == old(self).profile,
                s0 == old(self).run(*old(alloc)),
                forall|t: Run<A>| #[trigger]
                    drained(p, self.run(*alloc), t) ==> drained(p, s0, t),
                forall|f: Finding| #[trigger]
                    drain_failed(p, self.run(*alloc), f) ==> drain_failed(p, s0, f),
                self.op_index == old(self).op_index,
                self.requests() == old(self).requests(),
                old(self).requests() <= usize::MAX,
                self.stats == (Stats { deallocs: self.stats.deallocs, ..old(self).stats }),
                self.stats.deallocs + self.live@.len() == old(self).stats.deallocs + old(
                    self,
                ).live@.len(),
                old(self).live@.len() == 0 ==> self.live@.len() == 0 && *alloc == *old(alloc),
                old(self).sound(old(alloc), base) ==> self.sound(alloc, base),
            decreases self.live@.len(),
        {
            let n: usize = self.live.len();
            let (index, ordered): (usize, bool) = match self.profile.order {
                Order::Fifo => (0, true),
                Order::Lifo => (n - 1, false),
                Order::Random => (n - 1, false),
            };
            proof {
                lemma_without(self.live@, index as int, ordered);
            }
            let ghost s1 = self.run(*alloc);
            match self.release(alloc, index, ordered, Ghost(base)) {
                Ok(_) => {},
                Err(f) => {
                    assert(drain_failed(p, s1, f));
                    return Err(f);
                },
            }
            proof {
                let s2 = self.run(*alloc);
                assert(released(s1, s2, drain_index(p.order, n as int), p.order is Fifo));
                assert forall|t: Run<A>| #[trigger] drained(p, s2, t) implies drained(p, s0, t) by {
                    assert(drained(p, s1, t));
                }
                assert forall|f: Finding| #[trigger] drain_failed(p, s2, f) implies drain_failed(
                    p,
                    s0,
                    f,
                ) by {
                    assert(drain_failed(p, s1, f));
                }
            }
        }
        proof {
            assert(drained(p, self.run(*alloc), self.run(*alloc)));
        }
        Ok(())
    }
}

impl Model {
    /// The interval of a block that was taken out can be put back.
    proof fn lemma_back_in(&self, o: Model, i: int)
        requires
            o.inv(),
            0 <= i < o.live@.len(),
            self.by_addr@ == o.by_addr@.remove(o.live@[i].addr as int),
        ensures
            ({
                let b = o.live@[i];
                let end = b.addr + b.layout.size();
                &&& b.addr < end <= usize::MAX
                &&& forall|s: int| #[trigger]
                    self.by_addr@.dom().contains(s) ==> !overlap(
                        b.addr as int,
                        end,
                        s,
                        self.by_addr@[s],
                    )
            }),
    {
        let b = o.live@[i];
        o.by_addr.lemma_disjoint(b.addr as int, b.addr as int);
        assert forall|s: int| #[trigger] self.by_addr@.dom().contains(s) implies !overlap(
            b.addr as int,
            b.addr + b.layout.size(),
            s,
            self.by_addr@[s],
        ) by {
            o.by_addr.lemma_disjoint(b.addr as int, s);
        }
    }
}

impl Model {
    /// Resize the `index`th block, checking it before and after, and fill it anew.
    #[verifier::rlimit(60)]
    fn do_realloc<A: RawAlloc>(
        &mut self,
        alloc: &mut A,
        index: usize,
        new_size: usize,
        Ghost(base): Ghost<Map<int, Layout>>,
    ) -> (r: Result<(), Finding>)
        requires
            old(self).inv(),
            old(self).tied(old(alloc)),
            old(self).requests() < usize::MAX,
            index < old(self).live@.len(),
            1 <= new_size <= old(self).profile.max_live_bytes - old(self).live_bytes + old(
                self,
            ).live@[index as int].layout.size(),
        ensures
            final(alloc).valid(),
            final(self).profile == old(self).profile,
            final(self).op_index == old(self).op_index,
            r is Ok ==> {
                &&& final(self).inv()
                &&& final(self).tied(final(alloc))
                &&& final(self).requests() == old(self).requests() + 1
                &&& final(self).stats.ops == old(self).stats.ops
                &&& final(self).stats.reallocs == old(self).stats.reallocs + 1
                &&& final(self).stats.deallocs == old(self).stats.deallocs
                &&& final(self).live@.len() == old(self).live@.len()
                &&& final(self).live@.drop_last() == without(old(self).live@, index as int, false)
                &&& final(self).live@.last().layout == Layout::of(
                    new_size,
                    old(self).live@[index as int].layout.align(),
                )
            },
            r is Ok ==> resize_done(
                old(self).run(*old(alloc)),
                final(self).run(*final(alloc)),
                index as int,
                new_size,
            ),
            r matches Err(f) ==> finding_fits(f) && resize_failed(
                old(self).run(*old(alloc)),
                index as int,
                new_size,
                f,
            ),
            r matches Err(Finding::Corrupted { .. }) ==> taken_out(
                *old(self),
                *final(self),
                index as int,
                false,
            ),
            r matches Err(Finding::RefusedResize { .. }) ==> put_back(
                *old(self),
                *final(self),
                index as int,
            ) && final(self).inv(),
            old(self).sound(old(alloc), base) ==> {
                &&& r is Ok ==> final(self).sound(final(alloc), base)
                &&& r matches Err(f) ==> kind_of(f) == FailureKind::AllocFailed
            },
    {
        let ghost s0 = self.run(*alloc);
        let ghost live0 = self.live@;
        let ghost table0 = self.by_addr@;
        let ghost held0 = alloc.held();
        let ghost c0 = alloc.contents();
        let ghost i: int = index as int;
        let ghost rest = without(live0, i, false);
        let block: Block = self.live.swap_remove(index);
        let start: usize = block.addr;
        let layout = block.layout;
        let old_len: usize = layout.size();
        proof {
            lemma_sum_bounds(live0);
            lemma_taken_out(live0, table0, i, false);
            lemma_without(live0, i, false);
            lemma_rest_held(live0, i, false, held0);
        }
        match verify(alloc, start, old_len, old_len, Some(block.seed)) {
            Ok(_) => {},
            Err(m) => {
                let f = Finding::Corrupted { start, layout, at: m, resizing: true };
                assert(corrupted(s0, i, true, f));
                return Err(f);
            },
        }
        self.by_addr.remove(start);
        let new_layout = match Layout::from_size_align(new_size, layout.align()) {
            Ok(l) => l,
            Err(_) => {
                return Ok(());
            },
        };
        let moved: usize = match alloc.realloc(start, layout, new_size) {
            Some(a) => a,
            None => {
                // The old block is still live and untouched.
                proof {
                    self.lemma_back_in(*old(self), i);
                }
                self.by_addr.insert(start, start + old_len);
                self.live.push(block);
                let f = Finding::RefusedResize {
                    start,
                    layout,
                    new_size,
                    live_bytes: self.live_bytes,
                };
                proof {
                    assert(resize_fault(s0, i, new_size, *alloc, None, f));
                    lemma_pushed(rest, table0.remove(start as int), block);
                    assert(self.by_addr@ =~= table0);
                }
                return Err(f);
            },
        };
        let ghost mid = *alloc;
        let ghost gotten = Some(moved);
        let ghost c1 = alloc.contents();
        let ghost held1 = held0.remove(start as int);
        self.live_bytes = self.live_bytes - old_len;
        proof {
            if old(self).sound(old(alloc), base) {
                lemma_proper(rest, self.by_addr@, held1, moved as int, new_layout);
            }
            assert(gotten->0 == moved);
            if moved as int % new_layout.align() as int == 0 && moved + new_layout.size()
                <= usize::MAX {
                lemma_fits_in(rest, self.by_addr@, moved, new_layout);
            }
        }
        let ghost table1 = self.by_addr@;
        match self.check_in(Call::Realloc, moved, new_layout) {
            Ok(_) => {},
            Err(f) => {
                proof {
                    if f is Overlaps {
                        lemma_misfit(rest, table1, Call::Realloc, moved, new_layout, f);
                    }
                    assert(resize_fault(s0, i, new_size, mid, gotten, f));
                }
                return Err(f);
            },
        }
        let keep: usize = if old_len < new_size {
            old_len
        } else {
            new_size
        };
        proof {
            if old(self).sound(old(alloc), base) {
                law_a_prefix_keeps_its_pattern(
                    c0[start as int],
                    c1[moved as int],
                    Some(block.seed),
                    old_len as int,
                    keep as int,
                );
            }
        }
        match verify(alloc, moved, old_len, keep, Some(block.seed)) {
            Ok(_) => {},
            Err(m) => {
                let f = Finding::LostBytes { start, layout, new_size, moved, at: m };
                assert(resize_fault(s0, i, new_size, mid, gotten, f));
                return Err(f);
            },
        }
        let seed: u64 = self.fresh_seed();
        fill(alloc, moved, new_size, seed);
        let fresh = Block { addr: moved, layout: new_layout, seed };
        let footprint = alloc.footprint_bytes();
        self.record_live(fresh, footprint);
        self.stats.reallocs = self.stats.reallocs + 1;
        proof {
            lemma_pushed(rest, table0.remove(start as int), fresh);
            let held2 = alloc.held();
            assert forall|j: int| 0 <= j < self.live@.len() implies {
                let b = #[trigger] self.live@[j];
                held2.dom().contains(b.addr as int) && held2[b.addr as int] == b.layout
            } by {
                if j < rest.len() {
                    assert(self.live@[j] == rest[j]);
                    assert(has_addr(rest, rest[j].addr as int));
                }
            }
            lemma_sum_bounds(self.live@);
            assert(self.live@.drop_last() =~= rest);
            if old(self).sound(old(alloc), base) {
                lemma_rest_intact(live0, i, false, held0, c0, c1);
                lemma_filled(rest, held1, c1, alloc.contents(), fresh);
                lemma_held_less(live0, held0, base, i, false);
                lemma_held_more(rest, held1, base, fresh);
            }
            assert(block_resized(s0, self.run(*alloc), i, new_size, mid, moved));
        }
        Ok(())
    }
}

/// The entropy source ran dry: its last value had been drawn when another was asked for.
pub open spec fn ran_dry<E: Entropy>(e: E) -> bool {
    exists|f: E| #[trigger] f.drawn() == e && f.upcoming() is None
}

/// A failure found by a run: the kind and the words of a finding, and when it was found.
pub open spec fn failure_of(f: Failure, found: Finding, profile: Profile) -> bool {
    &&& f.kind == kind_of(found)
    &&& f.detail@ == finding_text(found)
    &&& f.profile == profile.name
    &&& f.seed is None
}

/// A report of what the run over `alloc` with the entropy `e` comes to, but for the seed.
pub open spec fn reports<A: RawAlloc, E: Entropy>(
    r: Result<Stats, Failure>,
    profile: Profile,
    alloc: A,
    e: E,
    ops: int,
) -> bool {
    match r {
        Ok(stats) => comes_to(profile, alloc, e, ops, Outcome::Well { stats }),
        Err(f) => exists|finding: Finding|
            {
                &&& #[trigger] comes_to(
                    profile,
                    alloc,
                    e,
                    ops,
                    Outcome::Found { op: f.op_index as int, finding },
                )
                &&& failure_of(Failure { seed: None, ..f }, finding, profile)
            },
    }
}

impl Model {
    /// The failure report of a finding.
    fn fail(&self, found: Finding) -> (r: Failure)
        requires
            finding_fits(found),
        ensures
            failure_of(r, found, self.profile),
            r.op_index == self.op_index,
    {
        Failure {
            kind: failure_kind(&found),
            op_index: self.op_index,
            profile: self.profile.name,
            seed: None,
            detail: describe(&found),
        }
    }

    /// One operation of the stream. `Ok(false)` if the entropy source ran dry.
    fn step<A: RawAlloc, E: Entropy>(
        &mut self,
        alloc: &mut A,
        e: &mut E,
        Ghost(base): Ghost<Map<int, Layout>>,
    ) -> (r: Result<bool, Finding>)
        requires
            old(self).inv(),
            old(self).tied(old(alloc)),
            old(self).requests() < usize::MAX,
        ensures
            final(alloc).valid(),
            final(self).profile == old(self).profile,
            final(self).op_index == old(self).op_index,
            r is Ok ==> {
                &&& final(self).inv()
                &&& final(self).tied(final(alloc))
                &&& final(self).requests() <= old(self).requests() + 1
                &&& final(self).stats.ops == old(self).stats.ops
            },
            r == Ok::<bool, Finding>(false) ==> {
                &&& ran_dry(*final(e))
                &&& *final(alloc) == *old(alloc)
                &&& final(self).live@ == old(self).live@
                &&& final(self).stats == old(self).stats
            },
            r matches Err(f) ==> finding_fits(f),
            stepped(
                old(self).profile,
                old(self).run(*old(alloc)),
                *old(e),
                final(self).run(*final(alloc)),
                *final(e),
                r,
            ),
            old(self).sound(old(alloc), base) ==> {
                &&& r is Ok ==> final(self).sound(final(alloc), base)
                &&& r matches Err(f) ==> kind_of(f) == FailureKind::AllocFailed
            },
    {
        proof {
            lemma_sum_bounds(self.live@);
            super::choice::lemma_no_op_means_dry(
                *e,
                self.profile,
                self.live@,
                self.live_bytes as int,
                self.batch_left as int,
                self.free_left as int,
            );
        }
        let op = next_op(
            &self.profile,
            e,
            &self.live,
            self.live_bytes,
            &mut self.batch_left,
            self.free_left,
        );
        match op {
            None => Ok(false),
            Some(Op::Alloc { layout, zeroed }) => {
                match self.do_alloc(alloc, layout, zeroed, Ghost(base)) {
                    Ok(_) => Ok(true),
                    Err(f) => Err(f),
                }
            },
            Some(Op::Dealloc) => {
                proof {
                    assert(e.drawn() == e.drawn());
                }
                self.do_dealloc(alloc, e, Ghost(base))
            },
            Some(Op::Realloc { index, new_size }) => {
                match self.do_realloc(alloc, index, new_size, Ghost(base)) {
                    Ok(_) => Ok(true),
                    Err(f) => Err(f),
                }
            },
        }
    }
}

impl Model {
    /// Operation `i` of the stream, and freeing everything after it if it is time for that.
    /// `Ok(false)` if the entropy source ran dry.
    #[verifier::spinoff_prover]
    #[verifier::rlimit(40)]
    fn operation<A: RawAlloc, E: Entropy>(
        &mut self,
        alloc: &mut A,
        e: &mut E,
        i: usize,
        Ghost(base): Ghost<Map<int, Layout>>,
    ) -> (r: Result<bool, Finding>)
        requires
            old(self).inv(),
            old(self).tied(old(alloc)),
            old(self).requests() < usize::MAX,
            i < usize::MAX,
        ensures
            final(alloc).valid(),
            final(self).profile == old(self).profile,
            final(self).op_index == i,
            r is Ok ==> {
                &&& final(self).inv()
                &&& final(self).tied(final(alloc))
                &&& final(self).requests() <= old(self).requests() + 1
            },
            r == Ok::<bool, Finding>(true) ==> {
                &&& final(self).stats.ops == i + 1
                &&& exists|m: Run<A>| #[trigger]
                    performed(
                        old(self).profile,
                        i as int,
                        old(self).run(*old(alloc)),
                        *old(e),
                        m,
                        final(self).run(*final(alloc)),
                        *final(e),
                    )
            },
            r == Ok::<bool, Finding>(false) ==> {
                &&& ran_dry(*final(e))
                &&& *final(alloc) == *old(alloc)
                &&& final(self).live@ == old(self).live@
                &&& final(self).stats == old(self).stats
                &&& stepped(
                    old(self).profile,
                    old(self).run(*old(alloc)),
                    *old(e),
                    final(self).run(*final(alloc)),
                    *final(e),
                    r,
                )
            },
            r matches Err(f) ==> finding_fits(f) && found_at(
                old(self).profile,
                i as int,
                old(self).run(*old(alloc)),
                *old(e),
                f,
            ),
            old(self).sound(old(alloc), base) ==> {
                &&& r is Ok ==> final(self).sound(final(alloc), base)
                &&& r matches Err(f) ==> kind_of(f) == FailureKind::AllocFailed
            },
    {
        let ghost p = self.profile;
        let ghost s1 = self.run(*alloc);
        let ghost e1 = *e;
        self.op_index = i;
        let went: bool = match self.step(alloc, e, Ghost(base)) {
            Ok(went) => went,
            Err(found) => {
                assert(stepped(p, s1, e1, self.run(*alloc), *e, Err(found)));
                return Err(found);
            },
        };
        if !went {
            return Ok(false);
        }
        let ghost s2 = self.run(*alloc);
        self.stats.ops = i + 1;
        assert(self.run(*alloc) == counted(s2, i as int));
        if self.profile.sweep_every > 0 && (i + 1) % self.profile.sweep_every == 0 {
            match self.drain(alloc, Ghost(base)) {
                Ok(_) => {},
                Err(found) => {
                    assert(stepped(p, s1, e1, s2, *e, Ok(true)));
                    return Err(found);
                },
            }
        }
        assert(performed(p, i as int, s1, e1, s2, self.run(*alloc), *e));
        Ok(true)
    }
}

/// With no block left everything has been given back.
proof fn lemma_given_back(live: Seq<Block>, held: Map<int, Layout>, base: Map<int, Layout>)
    requires
        live.len() == 0,
        held_exactly(live, held, base),
    ensures
        held == base,
{
    assert forall|b: int| held.dom().contains(b) == base.dom().contains(b) by {
        assert(!has_addr(live, b));
    }
    assert(held =~= base);
}

/// Drive `alloc` with `ops` operations drawn from `entropy` in the shape of `profile`, then free
/// everything. Stops early, without failure, when the entropy source runs dry, which is how a
/// fuzzer's input ends a run.
///
/// Every block the run created has been freed exactly once when it ends well. A run over an
/// honest allocator fails only because a request was refused, and gives back all it took.
pub fn run_with<A: RawAlloc, E: Entropy>(
    alloc: &mut A,
    entropy: &mut E,
    ops: usize,
    profile: Profile,
) -> (r: Result<Stats, Failure>)
    requires
        old(alloc).valid(),
        profile.usable(),
    ensures
        final(alloc).valid(),
        r matches Ok(stats) ==> {
            &&& stats.ops <= ops
            &&& stats.ops < ops ==> ran_dry(*final(entropy))
            &&& stats.deallocs == stats.allocs + stats.zeroed_allocs
            &&& stats.allocs + stats.zeroed_allocs + stats.reallocs <= stats.ops
            &&& stats.peak_live_bytes <= profile.max_live_bytes
            &&& ops == 0 ==> *final(alloc) == *old(alloc) && stats.peak_live_blocks == 0
            &&& exists|end: Run<A>|
                {
                    &&& #[trigger] completes(
                        profile,
                        start(*old(alloc)),
                        *old(entropy),
                        0,
                        ops as int,
                        end,
                        *final(entropy),
                    )
                    &&& end.alloc == *final(alloc)
                    &&& end.stats == stats
                }
        },
        r matches Err(f) ==> f.op_index < ops && f.seed is None,
        reports(r, profile, *old(alloc), *old(entropy), ops as int),
        old(alloc).honest() ==> {
            &&& r is Ok ==> final(alloc).honest() && final(alloc).held() == old(alloc).held()
            &&& r matches Err(f) ==> f.kind == FailureKind::AllocFailed
        },
{
    let ghost base = alloc.held();
    let mut m = Model::new(profile);
    let ghost p = profile;
    let ghost s0 = start(*alloc);
    let ghost e0 = *entropy;
    let ghost n: int = ops as int;
    proof {
        assert(held_exactly(m.live@, alloc.held(), base));
        assert(m.run(*alloc) == s0);
    }
    let mut i: usize = 0;
    while i < ops
        invariant
            p == profile,
            s0 == start(*old(alloc)),
            e0 == *old(entropy),
            n == ops,
            m.inv(),
            m.tied(alloc),
            m.profile == profile,
            profile.usable(),
            i <= ops,
            m.stats.ops == i,
            m.requests() <= i,
            i == 0 ==> m.live@.len() == 0 && *alloc == *old(alloc) && m.stats.peak_live_blocks == 0,
            i > 0 ==> m.op_index == i - 1,
            old(alloc).honest() ==> m.sound(alloc, base),
            base == old(alloc).held(),
            forall|end: Run<A>, d: E| #[trigger]
                completes(p, m.run(*alloc), *entropy, i as int, n, end, d) ==> completes(
                    p,
                    s0,
                    e0,
                    0,
                    n,
                    end,
                    d,
                ),
            forall|k: int, f: Finding| #[trigger]
                fails(p, m.run(*alloc), *entropy, i as int, n, k, f) ==> fails(
                    p,
                    s0,
                    e0,
                    0,
                    n,
                    k,
                    f,
                ),
        decreases ops - i,
    {
        let ghost s1 = m.run(*alloc);
        let ghost e1 = *entropy;
        let went: bool = match m.operation(alloc, entropy, i, Ghost(base)) {
            Ok(went) => went,
            Err(found) => {
                assert(fails(p, s1, e1, i as int, n, i as int, found));
                let f = m.fail(found);
                assert(comes_to(
                    p,
                    *old(alloc),
                    e0,
                    n,
                    Outcome::Found { op: f.op_index as int, finding: found },
                ));
                return Err(f);
            },
        };
        if !went {
            let ghost s2 = m.run(*alloc);
            match m.drain(alloc, Ghost(base)) {
                Ok(_) => {},
                Err(found) => {
                    assert(stepped(p, s1, e1, s2, *entropy, Ok(false)));
                    assert(fails(p, s1, e1, i as int, n, i as int, found));
                    let f = m.fail(found);
                    assert(comes_to(
                        p,
                        *old(alloc),
                        e0,
                        n,
                        Outcome::Found { op: f.op_index as int, finding: found },
                    ));
                    return Err(f);
                },
            }
            proof {
                assert(stepped(p, s1, e1, s2, *entropy, Ok(false)));
                assert(completes(p, s1, e1, i as int, n, m.run(*alloc), *entropy));
                if old(alloc).honest() {
                    lemma_given_back(m.live@, alloc.held(), base);
                }
            }
            return Ok(m.stats);
        }
        proof {
            let s4 = m.run(*alloc);
            let e4 = *entropy;
            assert forall|end: Run<A>, d: E| #[trigger]
                completes(p, s4, e4, i + 1, n, end, d) implies completes(
                p,
                s0,
                e0,
                0,
                n,
                end,
                d,
            ) by {
                assert(completes(p, s1, e1, i as int, n, end, d));
            }
            assert forall|k: int, f: Finding| #[trigger]
                fails(p, s4, e4, i + 1, n, k, f) implies fails(p, s0, e0, 0, n, k, f) by {
                assert(fails(p, s1, e1, i as int, n, k, f));
            }
        }
        i = i + 1;
    }
    let ghost s1 = m.run(*alloc);
    match m.drain(alloc, Ghost(base)) {
        Ok(_) => {},
        Err(found) => {
            assert(fails(p, s1, *entropy, n, n, n - 1, found));
            let f = m.fail(found);
            assert(comes_to(
                p,
                *old(alloc),
                e0,
                n,
                Outcome::Found { op: f.op_index as int, finding: found },
            ));
            return Err(f);
        },
    }
    proof {
        assert(completes(p, s1, *entropy, n, n, m.run(*alloc), *entropy));
        if old(alloc).honest() {
            lemma_given_back(m.live@, alloc.held(), base);
        }
    }
    Ok(m.stats)
}

/// [`run_with`] over the generator seeded with `seed`; the failure, if any, carries the seed.
pub fn run<A: RawAlloc>(alloc: &mut A, seed: u64, ops: usize, profile: Profile) -> (r: Result<
    Stats,
    Failure,
>)
    requires
        old(alloc).valid(),
        profile.usable(),
    ensures
        final(alloc).valid(),
        r matches Ok(stats) ==> {
            &&& stats.ops == ops
            &&& stats.deallocs == stats.allocs + stats.zeroed_allocs
            &&& stats.allocs + stats.zeroed_allocs + stats.reallocs <= stats.ops
            &&& stats.peak_live_bytes <= profile.max_live_bytes
            &&& exists|end: Run<A>, d: Rng|
                {
                    &&& #[trigger] completes(
                        profile,
                        start(*old(alloc)),
                        Rng::seeded(seed),
                        0,
                        ops as int,
                        end,
                        d,
                    )
                    &&& end.alloc == *final(alloc)
                    &&& end.stats == stats
                }
        },
        r matches Err(f) ==> f.op_index < ops && f.seed == Some(seed),
        reports(r, profile, *old(alloc), Rng::seeded(seed), ops as int),
        old(alloc).honest() ==> {
            &&& r is Ok ==> final(alloc).honest() && final(alloc).held() == old(alloc).held()
            &&& r matches Err(f) ==> f.kind == FailureKind::AllocFailed
        },
{
    let mut rng = Rng::new(seed);
    let ghost rng0 = rng;
    match run_with(alloc, &mut rng, ops, profile) {
        Ok(stats) => {
            proof {
                if ran_dry(rng) {
                    let f: Rng = choose|f: Rng| #[trigger] f.drawn() == rng && f.upcoming() is None;
                    super::rng::lemma_rng_draws(&f);
                }
            }
            Ok(stats)
        },
        Err(f) => {
            let ghost found = choose|found: Finding|
                {
                    &&& #[trigger] comes_to(
                        profile,
                        *old(alloc),
                        rng0,
                        ops as int,
                        Outcome::Found { op: f.op_index as int, finding: found },
                    )
                    &&& failure_of(Failure { seed: None, ..f }, found, profile)
                };
            let g = Failure { seed: Some(seed), ..f };
            proof {
                assert(comes_to(
                    profile,
                    *old(alloc),
                    rng0,
                    ops as int,
                    Outcome::Found { op: g.op_index as int, finding: found },
                ));
            }
            Err(g)
        },
    }
}

} // verus!
