//! The heap: bin queues, the direct table, page lifecycle, and the allocation algorithms.
//!
//! The page kind and the page header address are derived from the layout, so `dealloc` rounds an
//! address down instead of consulting a page map (see [`page::header_of`]). Blocks above
//! [`MAX_BINNED_OBJ_SIZE`](crate::bins::MAX_BINNED_OBJ_SIZE), and blocks with alignment above
//! [`MAX_NATURAL_ALIGN`], are header-less runs of slices whose length is recomputed from the
//! layout on free.
//!
//! # Structure
//!
//! `queues[bin]` is a doubly linked list of the pages serving `bin`, threaded through the
//! `next`/`prev` fields of the page headers, with the page most likely to have free blocks at the
//! front. `queues[FULL_QUEUE]` holds pages with no free and no unextended blocks, so the search
//! never rescans them; a free into such a page moves it back. `direct[direct_index(size)]` is the
//! first page of the queue for every size up to [`DIRECT_MAX_SIZE`], or 0 when the queue is
//! empty, so the allocation fast path is one table load and a pop.
//!
//! # Page release
//!
//! An empty page is retired rather than freed (see [`RETIRE_CYCLES`]) so that a size class that
//! oscillates between empty and one block keeps its page; retired pages age at each collection
//! (every [`GENERIC_COLLECT_PERIOD`] slow-path allocations and before a fresh page is taken) and
//! are released when their count runs out. Every empty page is released before linear memory is
//! grown, whatever its count: growth is permanent footprint on wasm, a released page is only a
//! page initialisation away.
//!
//! # Invariants
//!
//! [`Heap::wf`], over the predicates of [`model`](crate::model):
//!
//! 1. Every page in `queues[b]` for a bin `b` has `bin == b` and is not flagged full; every page
//!    in the full queue is flagged full and has neither free nor unextended blocks.
//! 2. Every page's invariants hold, and its address is a multiple of its kind's page size.
//! 3. `direct[i]` is the first page of the queue for `bin(i * WORD)`, or 0 when it is empty.
//! 4. A page's slices and a run's slices are its own and not free in the slice map; every other
//!    slice of the heap is free.
//! 5. Every live block is where its layout says, and every block a page has handed out is live.
use vstd::arithmetic::power2::is_pow2;
use vstd::prelude::*;

use self::placement::{
    all_parked, found_after_turns, found_by_search, fresh_after_turns, fresh_or_parked,
    fresh_page_from, grew, is_first_block, no_empty_page_but, placed, run_found, slices_for,
    slices_found, started,
};
use self::search::{
    at_hand, fronted, has_room, lemma_met, lemma_relabelled_further, next_block, pages_after,
    parked_or_kept, queues_after, readied, search, search_on, Search,
};
use self::turns::{
    after_turn, among_first, empties_released, expires, in_use, left_free, left_in,
    lemma_after_turn_same, lemma_all_in_use, lemma_all_stay, lemma_among_first,
    lemma_free_as_before, lemma_in_use_same, lemma_nothing_returned, lemma_returned_trans,
    lemma_some_left, only_pages_freed, outlasts, retire_cycles, slices_returned, some_left, staying,
    swept, turned, turns_taken, worth_retiring,
};
use crate::arith::{div_ceil, div_ceil_by, max, min, round_up};
use crate::backend::{
    first_whole_slice, in_order, is_pristine, only_more, slice_of, Memory, MAX_SLICE_INDEX,
};
use crate::bins::{
    bin, bin_bytes, bin_kind, bin_of, bin_size, first_block, kind_of_bin, kind_page_size,
    lemma_bin_bytes_increasing, lemma_bin_bytes_word, lemma_bin_of, lemma_bin_of_unique,
    lemma_bin_table, serving_class, Class, DIRECT_ENTRIES, DIRECT_MAX_SIZE, MAX_BIN, MAX_BINNED_BIN,
    SLICE_SIZE, SMALL_MAX_OBJ_SIZE, WORD,
};
use crate::layout::Layout;
use crate::model::{
    block_end, block_ok, blocks_ok, contents_kept, direct_ok, full_ok, held, holder_ok, holders_ok,
    home, in_header, is_run, lemma_block_not_header, lemma_block_words, lemma_blocks_disjoint,
    lemma_flag_bit, lemma_header_write, lemma_home_range, lemma_link_back, lemma_link_front,
    lemma_other_page, lemma_page_queued, lemma_page_step, lemma_pages_apart, lemma_queue,
    lemma_queue_member, lemma_queues_inserted, lemma_queues_removed, lemma_queues_same,
    lemma_relabelled, lemma_relabelled_page, lemma_relabelled_trans, lemma_relinked_trans,
    lemma_serving_bin, lemma_step_backed, lemma_unlink, linked, links_only, list_fields_only,
    member_ok, next_in, no_lost_block, no_lost_slice, only_range_changed, page_kept, page_of,
    page_ok, pages_ok, prev_in, queue_ok, queues_ok, relabelled, relinked, run_align, run_pending,
    run_slices, serving, HeapModel, PageQueue, FULL_QUEUE, QUEUE_COUNT,
};
use crate::page::{
    self, block_addr, block_batch, extension, flagged_full, free_list, fresh_header, header,
    header_ok, is_block, is_live, owns_bytes, page_addr_ok, page_bytes, page_inv, page_ready,
    page_wf, same_but_heap_fields, stored, Page, HEADER_BYTES,
};
use crate::slices::{
    acquire, acquire_growth, acquire_refused, backed, grown_from, initial_free_range,
    lemma_growth_between, lemma_no_growth, lemma_requests_between, same_extent, slices_zero,
    with_fresh, GrowPolicy, Run, SliceMap, SliceModel,
};

pub mod check;
pub mod entry;
pub mod faults;
pub mod laws;
pub mod outcomes;
pub mod placement;
pub mod resize;
pub mod search;
pub mod supply;
pub mod turns;

verus! {

/// Retirement: how many collection rounds an empty page survives before its slices are freed,
/// so a page that oscillates between empty and one block is not freed and re-acquired. Pages of
/// blocks above [`SMALL_MAX_OBJ_SIZE`] use a quarter of it.
pub const RETIRE_CYCLES: u8 = 16;

/// Only retire when the queue holds at most this many pages.
pub const RETIRE_MAX_PAGES: usize = 3;

/// Candidate pages inspected after the first usable one when searching a queue.
pub const MAX_CANDIDATES: usize = 4;

/// Retired pages are collected every this many slow-path allocations.
pub const GENERIC_COLLECT_PERIOD: u32 = 1000;

/// The allocator state.
///
/// `WORDS` sizes the slice bitmap (see [`SliceMap`]); 1024 covers all of wasm32.
pub struct Heap<M: Memory, const WORDS: usize> {
    mem: M,
    slices: SliceMap<WORDS>,
    policy: GrowPolicy,
    /// First page of the queue of each small size, 0 for none.
    direct: [usize; 129],
    queues: [PageQueue; 64],
    /// Bins that may hold retired pages, inclusive; `retired_min > retired_max` means none.
    retired_min: usize,
    retired_max: usize,
    generic_count: u32,
    initialized: bool,
    model: Ghost<HeapModel>,
}

/// The memory there is at the start lies inside a slice map of `words` words.
pub open spec fn fits_map<M: Memory>(mem: &M, words: int) -> bool {
    let first = slice_of(mem.base_addr() as int);
    mem.end() <= first - first % 64 + 64 * words
}

/// The free slices of a heap with a map of `words` words that is about to start.
pub open spec fn initial_slices<M: Memory>(mem: &M, words: int) -> SliceModel {
    let first = first_whole_slice(mem.base_addr() as int);
    let base = slice_of(mem.base_addr() as int) - slice_of(mem.base_addr() as int) % 64;
    SliceModel {
        base,
        limit: base + 64 * words,
        free: Set::new(
            |s: int|
                first <= s < mem.end() && s != MAX_SLICE_INDEX && !(first <= MAX_SLICE_INDEX < s),
        ),
        zero: Set::empty(),
    }
}

/// The model of a heap that has handed out nothing.
pub open spec fn empty_model() -> HeapModel {
    HeapModel {
        pages: Set::empty(),
        qs: Seq::new(64, |i: int| Seq::empty()),
        holder: Map::empty(),
        blocks: Map::empty(),
    }
}

/// What the contracts speak of: the model, the words of memory, the free slices and the range of
/// queues that collections go through. The links of the queues follow from the model.
impl<M: Memory, const WORDS: usize> Heap<M, WORDS> {
    /// What the heap stands for.
    pub closed spec fn view(&self) -> HeapModel {
        self.model@
    }

    /// The words of memory.
    pub closed spec fn words(&self) -> Map<int, u64> {
        self.mem.words()
    }

    /// The free slices.
    pub closed spec fn slice_view(&self) -> SliceModel {
        self.slices@
    }

    /// The memory the heap allocates from.
    pub closed spec fn memory_view(&self) -> M {
        self.mem
    }

    pub closed spec fn is_initialized(&self) -> bool {
        self.initialized
    }

    /// The free slices an allocation starts from: those of the map or, for the first allocation,
    /// those between the heap base and the end of memory.
    pub open spec fn starting_slices(&self) -> SliceModel {
        if self.is_initialized() {
            self.slice_view()
        } else {
            initial_slices(&self.memory_view(), WORDS as int)
        }
    }

    /// Slow-path allocations from bins since the last collection they led to.
    pub closed spec fn slow_calls(&self) -> int {
        self.generic_count as int
    }

    /// The first and the last queue that may hold a retired page.
    pub closed spec fn retired(&self) -> (int, int) {
        (self.retired_min as int, self.retired_max as int)
    }

    pub closed spec fn spec_policy(&self) -> GrowPolicy {
        self.policy
    }

    /// The live blocks, with the layout each is held under.
    pub open spec fn blocks(&self) -> Map<int, Layout> {
        self@.blocks
    }

    /// The heap's invariant between operations.
    pub closed spec fn wf(&self) -> bool {
        self.inv(0, 0)
    }

    /// The heap's invariant while page `out` (0 for none) is in no queue and page `room` (0 for
    /// none) may have room although it sits in the full queue.
    spec fn inv(&self, out: int, room: int) -> bool {
        self.inv_run(out, room, 0, 0)
    }

    /// The heap's invariant while, besides, the slices `[start, start + count)` have been taken
    /// from the map and given to no one yet.
    spec fn inv_run(&self, out: int, room: int, start: int, count: int) -> bool {
        let w = self.mem.words();
        let g = self.model@;
        &&& in_order(&self.mem)
        &&& self.slices.wf()
        &&& self.policy.step_divisor > 0
        &&& out == 0 || g.pages.contains(out)
        &&& pages_ok(w, g)
        &&& queues_ok(w, self.queues@, g, out)
        &&& full_ok(w, g, room)
        &&& direct_ok(self.direct@, self.queues@)
        &&& blocks_ok(w, g)
        &&& no_lost_block(w, g)
        &&& holders_ok(w, g, self.slices@, &self.mem)
        &&& self.generic_count < GENERIC_COLLECT_PERIOD
        &&& if self.initialized {
            &&& backed(self.slices@, &self.mem)
            &&& no_lost_slice(g, self.slices@, &self.mem, start, count)
            &&& run_pending(g, self.slices@, &self.mem, start, count)
        } else {
            &&& count == 0
            &&& is_pristine(&self.mem)
            &&& g == empty_model()
            &&& self.generic_count == 0
            &&& self.slices@.free == Set::<int>::empty()
            &&& self.slices@.base == 0
            &&& fits_map(&self.mem, WORDS as int)
        }
    }

    /// Nothing but the memory, the queues, the direct table and the model may differ.
    spec fn settings_of(&self, o: &Self) -> bool {
        &&& self.slices == o.slices
        &&& self.policy == o.policy
        &&& self.retired_min == o.retired_min
        &&& self.retired_max == o.retired_max
        &&& self.generic_count == o.generic_count
        &&& self.initialized == o.initialized
    }
}

/// Direct-table indices served by `bin`: the multiples of the word, up to the limit of the
/// table, whose bin it is. Empty (`lo > hi`) when the bin is above the direct limit.
pub fn direct_range(bin: u8) -> (r: (usize, usize))
    requires
        1 <= bin <= MAX_BIN,
    ensures
        forall|i: int|
            0 <= i < DIRECT_ENTRIES ==> (#[trigger] bin_of(8 * i) == bin <==> r.0 <= i <= r.1),
        r.1 < DIRECT_ENTRIES,
{
    proof {
        lemma_bin_bytes_word(bin as int);
        if bin > 1 {
            lemma_bin_bytes_word(bin - 1);
            lemma_bin_bytes_increasing(bin - 1, bin as int);
        }
        lemma_bin_table();
        assert forall|i: int| 0 <= i < DIRECT_ENTRIES implies (#[trigger] bin_of(8 * i) == bin <==> (
        8 * i <= bin_bytes(bin as int) && (bin > 1 ==> bin_bytes(bin - 1) < 8 * i))) by {
            lemma_bin_of(8 * i);
            if 8 * i <= bin_bytes(bin as int) && (bin > 1 ==> bin_bytes(bin - 1) < 8 * i) {
                lemma_bin_of_unique(8 * i, bin as int);
            }
            if bin_of(8 * i) == bin && bin > 1 {
                assert(bin_bytes(bin - 1) < 8 * i);
            }
        }
    }
    let lo: usize = if bin == 1 {
        0
    } else {
        bin_size(bin - 1) / WORD + 1
    };
    let hi: usize = bin_size(bin) / WORD;
    if hi >= DIRECT_ENTRIES {
        (lo, DIRECT_ENTRIES - 1)
    } else {
        (lo, hi)
    }
}

/// The direct table serves the smallest bins.
proof fn lemma_direct_bins()
    ensures
        forall|i: int| 0 <= i < DIRECT_ENTRIES ==> 1 <= #[trigger] bin_of(8 * i) <= 24,
{
    assert forall|i: int| 0 <= i < DIRECT_ENTRIES implies 1 <= #[trigger] bin_of(8 * i) <= 24 by {
        lemma_bin_of(8 * i);
        crate::bins::law_direct_slot_shares_a_bin(8 * i);
    }
}

/// Point a header's next link elsewhere.
fn set_next<M: Memory>(page: usize, mem: &mut M, next: usize)
    requires
        in_order(old(mem)),
        page % SLICE_SIZE == 0,
        old(mem).owns(slice_of(page as int)),
        header_ok(header(old(mem).words(), page as int)),
    ensures
        stored(old(mem), final(mem)),
        header(final(mem).words(), page as int) == (Page {
            next,
            ..header(old(mem).words(), page as int)
        }),
        page::only_header_changed(old(mem).words(), final(mem).words(), page as int),
{
    let h = page::read(page, mem);
    let k = Page { next, ..h };
    page::write(page, mem, &k);
}

/// Point a header's previous link elsewhere.
fn set_prev<M: Memory>(page: usize, mem: &mut M, prev: usize)
    requires
        in_order(old(mem)),
        page % SLICE_SIZE == 0,
        old(mem).owns(slice_of(page as int)),
        header_ok(header(old(mem).words(), page as int)),
    ensures
        stored(old(mem), final(mem)),
        header(final(mem).words(), page as int) == (Page {
            prev,
            ..header(old(mem).words(), page as int)
        }),
        page::only_header_changed(old(mem).words(), final(mem).words(), page as int),
{
    let h = page::read(page, mem);
    let k = Page { prev, ..h };
    page::write(page, mem, &k);
}

impl<M: Memory, const WORDS: usize> Heap<M, WORDS> {
    /// A page's header can be accessed.
    proof fn lemma_page_access(&self, out: int, room: int, p: int)
        requires
            self.inv(out, room),
            self.model@.pages.contains(p),
        ensures
            0 < p <= usize::MAX,
            p % SLICE_SIZE as int == 0,
            self.mem.owns(slice_of(p)),
            header_ok(header(self.mem.words(), p)),
            page_addr_ok(p, header(self.mem.words(), p)),
            page_ready(p, &self.mem),
            1 <= header(self.mem.words(), p).bin <= MAX_BINNED_BIN,
            1 <= home(header(self.mem.words(), p)) < QUEUE_COUNT,
            header(self.mem.words(), p).flags <= 1,
    {
        let w = self.mem.words();
        let g = self.model@;
        lemma_home_range(w, g, p);
        reveal(pages_ok);
        reveal(holders_ok);
        assert(page_ok(w, g, p));
        let h = header(w, p);
        page::lemma_page_shape(p, h);
        assert forall|s: int|
            slice_of(p) <= s < slice_of(p + page_bytes(h)) implies #[trigger] self.mem.owns(s) by {
            assert(held(g, s, p));
            assert(holder_ok(w, g, self.slices@, &self.mem, s));
        }
    }

    /// After links have changed everything but the queues is in order.
    proof fn lemma_relink_rest(
        before: &Self,
        after: &Self,
        out: int,
        room: int,
    )
        requires
            before.inv(out, room),
            after.settings_of(before),
            stored(&before.mem, &after.mem),
            relinked(before.mem.words(), after.mem.words(), before.model@),
            after.model@.pages == before.model@.pages,
            after.model@.holder == before.model@.holder,
            after.model@.blocks == before.model@.blocks,
        ensures
            ({
                let w = after.mem.words();
                let g = after.model@;
                &&& pages_ok(w, g)
                &&& blocks_ok(w, g)
                &&& no_lost_block(w, g)
                &&& holders_ok(w, g, after.slices@, &after.mem)
                &&& after.initialized ==> backed(after.slices@, &after.mem) && no_lost_slice(
                    g,
                    after.slices@,
                    &after.mem,
                    0,
                    0,
                )
                &&& contents_kept(before.mem.words(), w, before.model@, 0)
            }),
    {
        let w = before.mem.words();
        let v = after.mem.words();
        let g = before.model@;
        let k = after.model@;
        assert(relabelled(w, v, g)) by {
            assert forall|p: int| #[trigger] g.pages.contains(p) implies same_but_heap_fields(
                header(w, p),
                header(v, p),
            ) by {
                assert(links_only(header(w, p), header(v, p)));
            }
        }
        assert forall|p: int| #[trigger] g.pages.contains(p) implies header(v, p).flags <= 1 by {
            assert(links_only(header(w, p), header(v, p)));
            reveal(pages_ok);
            assert(page_ok(w, g, p));
        }
        lemma_relabelled(w, v, g, before.slices@, &before.mem, &after.mem);
        lemma_model_parts(v, g, k, after.slices@, &after.mem);
        if after.initialized {
            reveal(no_lost_slice);
            before.slices.lemma_wf_facts();
            lemma_backed_kept(w, v, g, before.slices@, &before.mem, &after.mem);
        }
    }
}

/// The invariants of pages, blocks and slices do not depend on the queues.
proof fn lemma_model_parts<M: Memory>(
    w: Map<int, u64>,
    g: HeapModel,
    k: HeapModel,
    sm: SliceModel,
    mem: &M,
)
    requires
        pages_ok(w, g),
        blocks_ok(w, g),
        no_lost_block(w, g),
        holders_ok(w, g, sm, mem),
        k.pages == g.pages,
        k.holder == g.holder,
        k.blocks == g.blocks,
    ensures
        pages_ok(w, k),
        blocks_ok(w, k),
        no_lost_block(w, k),
        holders_ok(w, k, sm, mem),
{
    reveal(pages_ok);
    reveal(blocks_ok);
    reveal(no_lost_block);
    reveal(holders_ok);
    assert forall|p: int| #[trigger] k.pages.contains(p) implies page_ok(w, k, p) by {
        assert(page_ok(w, g, p));
        assert forall|s: int|
            slice_of(p) <= s < slice_of(p + page_bytes(header(w, p))) implies #[trigger] held(
            k,
            s,
            p,
        ) by {
            assert(held(g, s, p));
        }
    }
    assert forall|a: int| #[trigger] k.blocks.dom().contains(a) implies block_ok(w, k, a) by {
        assert(block_ok(w, g, a));
        if serving(g.blocks[a]) is Huge {
            assert forall|s: int|
                slice_of(a) <= s < slice_of(a) + run_slices(
                    k.blocks[a].size() as int,
                ) implies #[trigger] held(k, s, a) by {
                assert(held(g, s, a));
            }
        }
    }
    assert forall|s: int| #[trigger] k.holder.dom().contains(s) implies holder_ok(
        w,
        k,
        sm,
        mem,
        s,
    ) by {
        assert(holder_ok(w, g, sm, mem, s));
    }
}

/// Headers do not lie in free slices, so the map's zeros stay zeros when headers change.
proof fn lemma_backed_kept<M: Memory>(
    w: Map<int, u64>,
    v: Map<int, u64>,
    g: HeapModel,
    sm: SliceModel,
    old: &M,
    new: &M,
)
    requires
        w == old.words(),
        v == new.words(),
        pages_ok(w, g),
        holders_ok(w, g, sm, old),
        backed(sm, old),
        stored(old, new),
        sm.zero.subset_of(sm.free),
        forall|x: int| !in_header(g, x) ==> #[trigger] v[x] == w[x],
    ensures
        backed(sm, new),
{
    reveal(pages_ok);
    reveal(holders_ok);
    assert forall|a: int|
        #![trigger new.words()[a]]
        a % 8 == 0 && sm.zero.contains(slice_of(a)) implies new.words()[a] == 0 by {
        if in_header(g, a) {
            let q: int = choose|q: int| #[trigger] g.pages.contains(q) && q <= a < q + HEADER_BYTES;
            assert(page_ok(w, g, q));
            page::lemma_page_shape(q, header(w, q));
            assert(slice_of(a) == slice_of(q));
            assert(held(g, slice_of(q), q));
            assert(holder_ok(w, g, sm, old, slice_of(q)));
            assert(sm.free.contains(slice_of(a)));
        }
        assert(old.words()[a] == 0);
    }
}

impl<M: Memory, const WORDS: usize> Heap<M, WORDS> {
    /// Point the direct-table entries of `bin` at the queue's first page.
    fn update_direct(&mut self, bin: usize)
        requires
            bin < QUEUE_COUNT,
            forall|i: int|
                0 <= i < DIRECT_ENTRIES && bin_of(8 * i) != bin ==> #[trigger] old(self).direct@[i]
                    == old(self).queues@[bin_of(8 * i)].first,
        ensures
            direct_ok(final(self).direct@, final(self).queues@),
            *final(self) == (Heap { direct: final(self).direct, ..*old(self) }),
    {
        proof {
            lemma_direct_bins();
        }
        if bin == 0 || bin > MAX_BIN as usize {
            return;
        }
        let (lo, hi) = direct_range(bin as u8);
        if lo > hi {
            return;
        }
        let target: usize = self.queues[bin].first;
        let mut i: usize = lo;
        while i <= hi
            invariant
                lo <= i <= hi + 1,
                hi < DIRECT_ENTRIES,
                bin < QUEUE_COUNT,
                target == old(self).queues@[bin as int].first,
                *self == (Heap { direct: self.direct, ..*old(self) }),
                forall|k: int|
                    0 <= k < DIRECT_ENTRIES ==> #[trigger] self.direct@[k] == if lo <= k < i {
                        target
                    } else {
                        old(self).direct@[k]
                    },
            decreases hi + 1 - i,
        {
            self.direct[i] = target;
            i = i + 1;
        }
        proof {
            assert forall|k: int| 0 <= k < DIRECT_ENTRIES implies #[trigger] self.direct@[k]
                == self.queues@[bin_of(8 * k)].first by {
                if bin_of(8 * k) == bin {
                    assert(lo <= k <= hi);
                } else {
                    assert(!(lo <= k <= hi));
                    assert(old(self).direct@[k] == old(self).queues@[bin_of(8 * k)].first);
                }
            }
        }
    }
}

/// The headers of the pages of `g` can be accessed.
spec fn reachable<M: Memory>(mem: &M, g: HeapModel) -> bool {
    &&& in_order(mem)
    &&& pages_ok(mem.words(), g)
    &&& forall|p: int| #[trigger] g.pages.contains(p) ==> mem.owns(slice_of(p))
}

/// Pages survive a change of links.
proof fn lemma_links_pages_ok(w: Map<int, u64>, v: Map<int, u64>, g: HeapModel)
    requires
        pages_ok(w, g),
        relinked(w, v, g),
    ensures
        pages_ok(v, g),
{
    assert(relabelled(w, v, g)) by {
        assert forall|p: int| #[trigger] g.pages.contains(p) implies same_but_heap_fields(
            header(w, p),
            header(v, p),
        ) by {
            assert(links_only(header(w, p), header(v, p)));
        }
    }
    assert forall|p: int| #[trigger] g.pages.contains(p) implies page_ok(v, g, p) by {
        lemma_relabelled_page(w, v, g, p);
        reveal(pages_ok);
        assert(page_ok(w, g, p));
        assert(links_only(header(w, p), header(v, p)));
    }
    reveal(pages_ok);
}

/// Take the page out of the list of headers `l` by joining its neighbours. Returns them.
fn unlink<M: Memory>(mem: &mut M, page: usize, Ghost(g): Ghost<HeapModel>, Ghost(l): Ghost<Seq<int>>)
    -> (r: (usize, usize))
    requires
        reachable(old(mem), g),
        linked(old(mem).words(), l),
        l.contains(page as int),
        forall|i: int| 0 <= i < l.len() ==> g.pages.contains(#[trigger] l[i]),
    ensures
        stored(old(mem), final(mem)),
        relinked(old(mem).words(), final(mem).words(), g),
        linked(final(mem).words(), l.remove(l.index_of(page as int))),
        r.0 == prev_in(l, l.index_of(page as int)),
        r.1 == next_in(l, l.index_of(page as int)),
        forall|q: int|
            g.pages.contains(q) && !l.contains(q) ==> #[trigger] header(final(mem).words(), q)
                == header(old(mem).words(), q),
{
    let ghost w0 = mem.words();
    let ghost p: int = page as int;
    let ghost k: int = l.index_of(p);
    proof {
        assert(l[k] == p);
        assert forall|j: int| 0 <= j < l.len() implies 0 < #[trigger] l[j] <= usize::MAX by {
            lemma_home_range(w0, g, l[j]);
        }
        lemma_home_range(w0, g, p);
        assert(header(w0, l[k]).next == next_in(l, k));
        if k > 0 {
            lemma_home_range(w0, g, l[k - 1]);
        }
        if k + 1 < l.len() {
            lemma_home_range(w0, g, l[k + 1]);
        }
    }
    let h = page::read(page, mem);
    let prev: usize = h.prev;
    let next: usize = h.next;
    if prev != 0 {
        set_next(prev, mem, next);
        proof {
            lemma_header_write(w0, mem.words(), g, prev as int);
        }
    }
    let ghost w1 = mem.words();
    proof {
        assert(relinked(w0, w1, g));
        lemma_links_pages_ok(w0, w1, g);
        if k + 1 < l.len() {
            lemma_home_range(w1, g, l[k + 1]);
        }
    }
    if next != 0 {
        set_prev(next, mem, prev);
        proof {
            lemma_header_write(w1, mem.words(), g, next as int);
        }
    }
    let ghost w2 = mem.words();
    proof {
        assert(relinked(w1, w2, g));
        lemma_relinked_trans(w0, w1, w2, g);
        lemma_links_pages_ok(w0, w2, g);
        lemma_home_range(w2, g, p);
    }
    let h2 = page::read(page, mem);
    let cleared = Page { next: 0, prev: 0, ..h2 };
    page::write(page, mem, &cleared);
    proof {
        let w3 = mem.words();
        lemma_header_write(w2, w3, g, p);
        assert(relinked(w2, w3, g));
        lemma_relinked_trans(w0, w2, w3, g);
        assert forall|j: int| 0 <= j < l.len() && j != k implies {
            let h = header(w0, l[j]);
            #[trigger] header(w3, l[j]) == (Page {
                next: if j == k - 1 {
                    next_in(l, k) as usize
                } else {
                    h.next
                },
                prev: if j == k + 1 {
                    prev_in(l, k) as usize
                } else {
                    h.prev
                },
                ..h
            })
        } by {
            assert(l[j] != l[k]);
            assert(g.pages.contains(l[j]));
        }
        lemma_unlink(w0, w3, l, k);
        assert forall|q: int| g.pages.contains(q) && !l.contains(q) implies #[trigger] header(w3, q)
            == header(w0, q) by {
            assert(l.contains(p));
            if k > 0 {
                assert(l.contains(l[k - 1]));
            }
            if k + 1 < l.len() {
                assert(l.contains(l[k + 1]));
            }
        }
    }
    (prev, next)
}

/// Put the page in front of the list of headers `l`, whose first member is `first`.
fn link_front<M: Memory>(
    mem: &mut M,
    page: usize,
    first: usize,
    Ghost(g): Ghost<HeapModel>,
    Ghost(l): Ghost<Seq<int>>,
)
    requires
        reachable(old(mem), g),
        linked(old(mem).words(), l),
        !l.contains(page as int),
        g.pages.contains(page as int),
        forall|i: int| 0 <= i < l.len() ==> g.pages.contains(#[trigger] l[i]),
        first == if l.len() > 0 {
            l[0]
        } else {
            0
        },
    ensures
        stored(old(mem), final(mem)),
        relinked(old(mem).words(), final(mem).words(), g),
        linked(final(mem).words(), seq![page as int] + l),
        forall|q: int|
            g.pages.contains(q) && !l.contains(q) && q != page ==> #[trigger] header(
                final(mem).words(),
                q,
            ) == header(old(mem).words(), q),
{
    let ghost w0 = mem.words();
    let ghost p: int = page as int;
    proof {
        lemma_home_range(w0, g, p);
    }
    let h = page::read(page, mem);
    let k = Page { next: first, prev: 0, ..h };
    page::write(page, mem, &k);
    let ghost w1 = mem.words();
    proof {
        lemma_header_write(w0, w1, g, p);
        assert(relinked(w0, w1, g));
        lemma_links_pages_ok(w0, w1, g);
        if l.len() > 0 {
            assert(g.pages.contains(l[0]));
            assert(l.contains(l[0]));
            lemma_home_range(w1, g, l[0]);
        }
    }
    if first != 0 {
        set_prev(first, mem, page);
        proof {
            lemma_header_write(w1, mem.words(), g, first as int);
        }
    }
    proof {
        let w2 = mem.words();
        if l.len() > 0 {
            lemma_home_range(w0, g, l[0]);
        }
        assert(relinked(w1, w2, g));
        lemma_relinked_trans(w0, w1, w2, g);
        assert forall|j: int| 0 <= j < l.len() implies {
            let h = header(w0, l[j]);
            #[trigger] header(w2, l[j]) == (Page {
                prev: if j == 0 {
                    p as usize
                } else {
                    h.prev
                },
                ..h
            })
        } by {
            assert(l.contains(l[j]));
            assert(g.pages.contains(l[j]));
            if j > 0 {
                assert(l[j] != l[0]);
            }
        }
        if l.len() > 0 {
            assert((seq![p] + l)[1] == l[0]);
        }
        lemma_link_front(w0, w2, l, p);
    }
}

/// Put the page behind the list of headers `l`, whose last member is `last`.
fn link_back<M: Memory>(
    mem: &mut M,
    page: usize,
    last: usize,
    Ghost(g): Ghost<HeapModel>,
    Ghost(l): Ghost<Seq<int>>,
)
    requires
        reachable(old(mem), g),
        linked(old(mem).words(), l),
        !l.contains(page as int),
        g.pages.contains(page as int),
        forall|i: int| 0 <= i < l.len() ==> g.pages.contains(#[trigger] l[i]),
        last == if l.len() > 0 {
            l.last()
        } else {
            0
        },
    ensures
        stored(old(mem), final(mem)),
        relinked(old(mem).words(), final(mem).words(), g),
        linked(final(mem).words(), l.push(page as int)),
        forall|q: int|
            g.pages.contains(q) && !l.contains(q) && q != page ==> #[trigger] header(
                final(mem).words(),
                q,
            ) == header(old(mem).words(), q),
{
    let ghost w0 = mem.words();
    let ghost p: int = page as int;
    proof {
        lemma_home_range(w0, g, p);
    }
    let h = page::read(page, mem);
    let k = Page { next: 0, prev: last, ..h };
    page::write(page, mem, &k);
    let ghost w1 = mem.words();
    proof {
        lemma_header_write(w0, w1, g, p);
        assert(relinked(w0, w1, g));
        lemma_links_pages_ok(w0, w1, g);
        if l.len() > 0 {
            assert(g.pages.contains(l.last()));
            assert(l.contains(l.last()));
            lemma_home_range(w1, g, l.last());
        }
    }
    if last != 0 {
        set_next(last, mem, page);
        proof {
            lemma_header_write(w1, mem.words(), g, last as int);
        }
    }
    proof {
        let w2 = mem.words();
        if l.len() > 0 {
            lemma_home_range(w0, g, l.last());
        }
        assert(relinked(w1, w2, g));
        lemma_relinked_trans(w0, w1, w2, g);
        assert forall|j: int| 0 <= j < l.len() implies {
            let h = header(w0, l[j]);
            #[trigger] header(w2, l[j]) == (Page {
                next: if j == l.len() - 1 {
                    p as usize
                } else {
                    h.next
                },
                ..h
            })
        } by {
            assert(l.contains(l[j]));
            assert(g.pages.contains(l[j]));
            if j < l.len() - 1 {
                assert(l[j] != l.last());
            }
        }
        lemma_link_back(w0, w2, l, p);
    }
}

impl<M: Memory, const WORDS: usize> Heap<M, WORDS> {
    /// Every page of a heap in order is reachable.
    proof fn lemma_reachable(&self, out: int, room: int)
        requires
            self.inv(out, room),
        ensures
            reachable(&self.mem, self.model@),
    {
        assert forall|p: int| #[trigger] self.model@.pages.contains(p) implies self.mem.owns(
            slice_of(p),
        ) by {
            self.lemma_page_access(out, room, p);
        }
    }

    /// Take a page out of queue `qi`.
    #[verifier::spinoff_prover]
    #[verifier::rlimit(40)]
    fn remove(&mut self, qi: usize, page: usize, Ghost(room): Ghost<int>)
        requires
            old(self).inv(0, room),
            qi < QUEUE_COUNT,
            old(self).model@.qs[qi as int].contains(page as int),
        ensures
            final(self).inv(page as int, room),
            final(self).settings_of(old(self)),
            final(self).model@ == (HeapModel {
                qs: old(self).model@.qs.update(
                    qi as int,
                    old(self).model@.qs[qi as int].remove(
                        old(self).model@.qs[qi as int].index_of(page as int),
                    ),
                ),
                ..old(self).model@
            }),
            stored(&old(self).mem, &final(self).mem),
            relinked(old(self).mem.words(), final(self).mem.words(), old(self).model@),
            contents_kept(old(self).mem.words(), final(self).mem.words(), old(self).model@, 0),
    {
        let ghost w0 = self.mem.words();
        let ghost g = self.model@;
        let ghost l = g.qs[qi as int];
        let ghost p: int = page as int;
        let ghost k: int = l.index_of(p);
        proof {
            lemma_queue(w0, self.queues@, g, 0, qi as int);
            assert(l[k] == p);
            assert forall|i: int| 0 <= i < l.len() implies g.pages.contains(#[trigger] l[i])
                && l[i] > 0 by {
                lemma_queue_member(w0, self.queues@, g, 0, qi as int, i);
            }
            self.lemma_reachable(0, room);
        }
        let (prev, next) = unlink(&mut self.mem, page, Ghost(g), Ghost(l));
        let q: PageQueue = self.queues[qi];
        let was_first: bool = q.first == page;
        let updated = PageQueue {
            first: if was_first {
                next
            } else {
                q.first
            },
            last: if q.last == page {
                prev
            } else {
                q.last
            },
            count: q.count - 1,
        };
        self.queues[qi] = updated;
        let ghost m = l.remove(k);
        self.model = Ghost(HeapModel { qs: g.qs.update(qi as int, m), ..g });
        proof {
            let v = self.mem.words();
            Self::lemma_relink_rest(old(self), self, 0, room);
            assert(queue_ok(v, updated, m)) by {
                if k > 0 && k == l.len() - 1 {
                    assert(m.last() == l[k - 1]);
                }
                if k == 0 && l.len() > 1 {
                    assert(m[0] == l[1]);
                }
                if was_first {
                    assert(l[0] == l[k]);
                }
                if q.last == page {
                    assert(l[l.len() - 1] == l[k]);
                }
            }
            lemma_queues_removed(w0, v, old(self).queues@, self.queues@, g, room, qi as int, p);
            lemma_direct_bins();
        }
        if was_first {
            self.update_direct(qi);
        }
    }
}

impl<M: Memory, const WORDS: usize> Heap<M, WORDS> {
    /// Put a page, which is in no queue, in front of queue `qi`.
    #[verifier::spinoff_prover]
    #[verifier::rlimit(40)]
    fn push_front(&mut self, qi: usize, page: usize, Ghost(room): Ghost<int>)
        requires
            old(self).inv(page as int, room),
            page > 0,
            qi < QUEUE_COUNT,
            qi != FULL_QUEUE,
            home(header(old(self).mem.words(), page as int)) == qi,
        ensures
            final(self).inv(0, room),
            final(self).settings_of(old(self)),
            final(self).model@ == (HeapModel {
                qs: old(self).model@.qs.update(
                    qi as int,
                    seq![page as int] + old(self).model@.qs[qi as int],
                ),
                ..old(self).model@
            }),
            stored(&old(self).mem, &final(self).mem),
            relinked(old(self).mem.words(), final(self).mem.words(), old(self).model@),
            contents_kept(old(self).mem.words(), final(self).mem.words(), old(self).model@, 0),
    {
        let ghost w0 = self.mem.words();
        let ghost g = self.model@;
        let ghost l = g.qs[qi as int];
        let ghost p: int = page as int;
        let ghost m = seq![p] + l;
        let q: PageQueue = self.queues[qi];
        proof {
            lemma_queue(w0, self.queues@, g, p, qi as int);
            assert forall|i: int| 0 <= i < l.len() implies g.pages.contains(#[trigger] l[i])
                && l[i] > 0 && l[i] != p by {
                lemma_queue_member(w0, self.queues@, g, p, qi as int, i);
            }
            self.lemma_reachable(p, room);
            self.lemma_queue_short(p, room, qi as int);
        }
        link_front(&mut self.mem, page, q.first, Ghost(g), Ghost(l));
        let updated = PageQueue {
            first: page,
            last: if q.first == 0 {
                page
            } else {
                q.last
            },
            count: q.count + 1,
        };
        self.queues[qi] = updated;
        self.model = Ghost(HeapModel { qs: g.qs.update(qi as int, m), ..g });
        proof {
            let v = self.mem.words();
            Self::lemma_relink_rest(old(self), self, p, room);
            assert(queue_ok(v, updated, m)) by {
                if l.len() > 0 {
                    assert(m.last() == l.last());
                    assert(l[0] > 0);
                }
            }
            lemma_queues_inserted(
                w0,
                v,
                old(self).queues@,
                self.queues@,
                g,
                room,
                qi as int,
                p,
                m,
            );
            lemma_direct_bins();
        }
        self.update_direct(qi);
    }

    /// Put a page, which is in no queue, behind queue `qi`.
    #[verifier::spinoff_prover]
    #[verifier::rlimit(40)]
    fn push_back(&mut self, qi: usize, page: usize, Ghost(room): Ghost<int>)
        requires
            old(self).inv(page as int, room),
            page > 0,
            qi < QUEUE_COUNT,
            home(header(old(self).mem.words(), page as int)) == qi,
            qi == FULL_QUEUE && page != room ==> header(
                old(self).mem.words(),
                page as int,
            ).used == header(old(self).mem.words(), page as int).reserved,
        ensures
            final(self).inv(0, room),
            final(self).settings_of(old(self)),
            final(self).model@ == (HeapModel {
                qs: old(self).model@.qs.update(
                    qi as int,
                    old(self).model@.qs[qi as int].push(page as int),
                ),
                ..old(self).model@
            }),
            stored(&old(self).mem, &final(self).mem),
            relinked(old(self).mem.words(), final(self).mem.words(), old(self).model@),
            contents_kept(old(self).mem.words(), final(self).mem.words(), old(self).model@, 0),
    {
        let ghost w0 = self.mem.words();
        let ghost g = self.model@;
        let ghost l = g.qs[qi as int];
        let ghost p: int = page as int;
        let ghost m = l.push(p);
        let q: PageQueue = self.queues[qi];
        proof {
            lemma_queue(w0, self.queues@, g, p, qi as int);
            assert forall|i: int| 0 <= i < l.len() implies g.pages.contains(#[trigger] l[i])
                && l[i] > 0 && l[i] != p by {
                lemma_queue_member(w0, self.queues@, g, p, qi as int, i);
            }
            self.lemma_reachable(p, room);
            self.lemma_queue_short(p, room, qi as int);
        }
        link_back(&mut self.mem, page, q.last, Ghost(g), Ghost(l));
        let was_empty: bool = q.first == 0;
        let updated = PageQueue {
            first: if was_empty {
                page
            } else {
                q.first
            },
            last: page,
            count: q.count + 1,
        };
        self.queues[qi] = updated;
        self.model = Ghost(HeapModel { qs: g.qs.update(qi as int, m), ..g });
        proof {
            let v = self.mem.words();
            Self::lemma_relink_rest(old(self), self, p, room);
            assert(queue_ok(v, updated, m)) by {
                if l.len() > 0 {
                    assert(m[0] == l[0]);
                    assert(l[0] > 0);
                }
            }
            lemma_queues_inserted(
                w0,
                v,
                old(self).queues@,
                self.queues@,
                g,
                room,
                qi as int,
                p,
                m,
            );
            lemma_direct_bins();
        }
        if was_empty {
            self.update_direct(qi);
        }
    }

    /// A queue has fewer members than there are addresses.
    proof fn lemma_queue_short(&self, out: int, room: int, qi: int)
        requires
            self.inv(out, room),
            0 <= qi < QUEUE_COUNT,
        ensures
            self.model@.qs[qi].len() < usize::MAX,
    {
        let w = self.mem.words();
        let g = self.model@;
        let l = g.qs[qi];
        lemma_queue(w, self.queues@, g, out, qi);
        let all = vstd::set_lib::set_int_range(0, usize::MAX as int / SLICE_SIZE as int + 1);
        let idx = l.map_values(|p: int| slice_of(p));
        assert forall|i: int| 0 <= i < l.len() implies #[trigger] l[i] % SLICE_SIZE as int == 0 && 0
            < l[i] <= usize::MAX by {
            lemma_queue_member(w, self.queues@, g, out, qi, i);
            lemma_home_range(w, g, l[i]);
        }
        assert(idx.no_duplicates()) by {
            assert forall|i: int, j: int| 0 <= i < idx.len() && 0 <= j < idx.len() && i
                != j implies idx[i] != idx[j] by {
                assert(l[i] != l[j]);
            }
        }
        assert(idx.to_set().subset_of(all)) by {
            assert forall|x: int| idx.to_set().contains(x) implies all.contains(x) by {
                let i: int = choose|i: int| 0 <= i < idx.len() && idx[i] == x;
                assert(l[i] % SLICE_SIZE as int == 0);
            }
        }
        vstd::set_lib::lemma_int_range(0, usize::MAX as int / SLICE_SIZE as int + 1);
        idx.unique_seq_to_set();
        vstd::set_lib::lemma_len_subset(idx.to_set(), all);
    }

    /// After labels have changed on pages, and links and flags on no page that is in a queue,
    /// the heap is in order.
    proof fn lemma_relabel_rest(before: &Self, after: &Self, out: int, room: int)
        requires
            before.inv(out, room),
            after.settings_of(before),
            after.queues == before.queues,
            after.direct == before.direct,
            after.model == before.model,
            stored(&before.mem, &after.mem),
            relabelled(before.mem.words(), after.mem.words(), before.model@),
            forall|p: int| #[trigger]
                before.model@.pages.contains(p) ==> header(after.mem.words(), p).flags <= 1 && (p
                    != out ==> {
                    let h = header(before.mem.words(), p);
                    let k = header(after.mem.words(), p);
                    &&& k.next == h.next
                    &&& k.prev == h.prev
                    &&& k.flags == h.flags
                }),
        ensures
            after.inv(out, room),
            contents_kept(before.mem.words(), after.mem.words(), before.model@, 0),
            forall|p: int| #[trigger]
                before.model@.pages.contains(p) ==> free_list(after.mem.words(), p) == free_list(
                    before.mem.words(),
                    p,
                ),
    {
        let w = before.mem.words();
        let v = after.mem.words();
        let g = before.model@;
        lemma_relabelled(w, v, g, before.slices@, &before.mem, &after.mem);
        assert forall|p: int| #[trigger] g.pages.contains(p) && p != out implies {
            &&& header(v, p).next == header(w, p).next
            &&& header(v, p).prev == header(w, p).prev
            &&& header(v, p).flags == header(w, p).flags
            &&& header(v, p).bin == header(w, p).bin
            &&& p != room ==> header(v, p).used == header(w, p).used
            &&& header(v, p).reserved == header(w, p).reserved
        } by {
            assert(same_but_heap_fields(header(w, p), header(v, p)));
        }
        lemma_queues_same(w, v, before.queues@, g, out, room);
        if after.initialized {
            reveal(no_lost_slice);
            before.slices.lemma_wf_facts();
            lemma_backed_kept(w, v, g, before.slices@, &before.mem, &after.mem);
        }
    }

    /// Set the retirement countdown of a page.
    fn set_retire(
        &mut self,
        page: usize,
        expire: u8,
        Ghost(out): Ghost<int>,
        Ghost(room): Ghost<int>,
    )
        requires
            old(self).inv(out, room),
            old(self).model@.pages.contains(page as int),
        ensures
            final(self).inv(out, room),
            final(self).settings_of(old(self)),
            final(self).model@ == old(self).model@,
            stored(&old(self).mem, &final(self).mem),
            relabelled(old(self).mem.words(), final(self).mem.words(), old(self).model@),
            contents_kept(old(self).mem.words(), final(self).mem.words(), old(self).model@, 0),
            header(final(self).mem.words(), page as int) == (Page {
                retire_expire: expire,
                ..header(old(self).mem.words(), page as int)
            }),
            forall|q: int|
                old(self).model@.pages.contains(q) && q != page ==> #[trigger] header(
                    final(self).mem.words(),
                    q,
                ) == header(old(self).mem.words(), q),
            forall|q: int| #[trigger]
                old(self).model@.pages.contains(q) ==> free_list(final(self).mem.words(), q)
                    == free_list(old(self).mem.words(), q),
    {
        let ghost w = self.mem.words();
        proof {
            self.lemma_page_access(out, room, page as int);
        }
        let h = page::read(page, &self.mem);
        let k = Page { retire_expire: expire, ..h };
        page::write(page, &mut self.mem, &k);
        proof {
            let g = self.model@;
            let v = self.mem.words();
            lemma_header_write(w, v, g, page as int);
            assert forall|p: int| #[trigger] g.pages.contains(p) implies header(v, p).flags <= 1
                && same_but_heap_fields(header(w, p), header(v, p)) by {
                old(self).lemma_page_access(out, room, p);
            }
            Self::lemma_relabel_rest(old(self), self, out, room);
        }
    }

    /// Flag a page that is in no queue as full, or not; a page so flagged is not retired.
    fn set_full(&mut self, page: usize, in_full: bool, Ghost(room): Ghost<int>)
        requires
            old(self).inv(page as int, room),
            page > 0,
        ensures
            final(self).inv(page as int, room),
            final(self).settings_of(old(self)),
            final(self).model@ == old(self).model@,
            stored(&old(self).mem, &final(self).mem),
            relabelled(old(self).mem.words(), final(self).mem.words(), old(self).model@),
            contents_kept(old(self).mem.words(), final(self).mem.words(), old(self).model@, 0),
            ({
                let h = header(old(self).mem.words(), page as int);
                header(final(self).mem.words(), page as int) == (Page {
                    flags: if in_full {
                        1
                    } else {
                        0
                    },
                    retire_expire: if in_full {
                        0
                    } else {
                        h.retire_expire
                    },
                    ..h
                })
            }),
            forall|q: int|
                old(self).model@.pages.contains(q) && q != page ==> #[trigger] header(
                    final(self).mem.words(),
                    q,
                ) == header(old(self).mem.words(), q),
            forall|q: int| #[trigger]
                old(self).model@.pages.contains(q) ==> free_list(final(self).mem.words(), q)
                    == free_list(old(self).mem.words(), q),
    {
        let ghost w = self.mem.words();
        proof {
            self.lemma_page_access(page as int, room, page as int);
            lemma_flag_bit();
            assert(0u8 | 1u8 == 1u8 && 1u8 | 1u8 == 1u8 && 0u8 & !1u8 == 0 && 1u8 & !1u8 == 0)
                by (bit_vector);
        }
        let h = page::read(page, &self.mem);
        let k = Page {
            flags: page::full_flag(h.flags, in_full),
            retire_expire: if in_full {
                0
            } else {
                h.retire_expire
            },
            ..h
        };
        page::write(page, &mut self.mem, &k);
        proof {
            let g = self.model@;
            let v = self.mem.words();
            lemma_header_write(w, v, g, page as int);
            assert forall|p: int| #[trigger] g.pages.contains(p) implies header(v, p).flags <= 1
                && same_but_heap_fields(header(w, p), header(v, p)) by {
                old(self).lemma_page_access(page as int, room, p);
            }
            Self::lemma_relabel_rest(old(self), self, page as int, room);
        }
    }
}

impl<M: Memory, const WORDS: usize> Heap<M, WORDS> {
    /// Unlink an empty page from queue `qi` and return its slices to the map.
    fn free_page(&mut self, page: usize, qi: usize)
        requires
            old(self).inv(0, 0),
            old(self).initialized,
            qi < QUEUE_COUNT,
            old(self).model@.qs[qi as int].contains(page as int),
            header(old(self).mem.words(), page as int).used == 0,
        ensures
            final(self).inv(0, 0),
            final(self).initialized,
            final(self).kept(old(self)),
            final(self).model@.pages == old(self).model@.pages.remove(page as int),
            final(self).model@.qs == old(self).model@.qs.update(
                qi as int,
                old(self).model@.qs[qi as int].remove(
                    old(self).model@.qs[qi as int].index_of(page as int),
                ),
            ),
            relinked(old(self).mem.words(), final(self).mem.words(), old(self).model@),
            ({
                let h = header(old(self).mem.words(), page as int);
                final(self).slices@ == old(self).slices@.given(
                    slice_of(page as int),
                    page_bytes(h) / SLICE_SIZE as int,
                    false,
                )
            }),
            slices_returned(old(self), final(self)),
            final(self).retired_min == old(self).retired_min,
            final(self).retired_max == old(self).retired_max,
    {
        let ghost p: int = page as int;
        let ghost g0 = self.model@;
        let ghost w0 = self.mem.words();
        let ghost sm = self.slices@;
        proof {
            let l = g0.qs[qi as int];
            lemma_queue_member(w0, self.queues@, g0, 0, qi as int, l.index_of(p));
            self.lemma_page_access(0, 0, p);
        }
        self.remove(qi, page, Ghost(0));
        let ghost g1 = self.model@;
        let ghost w1 = self.mem.words();
        let ghost h = header(w1, p);
        proof {
            self.lemma_page_access(p, 0, p);
            assert(links_only(header(w0, p), h));
        }
        let kind = page::kind(page, &self.mem);
        let start: usize = page / SLICE_SIZE;
        let n: usize = kind.page_size() / SLICE_SIZE;
        proof {
            page::lemma_page_shape(p, h);
            reveal(pages_ok);
            reveal(holders_ok);
            self.slices.lemma_wf_facts();
            assert(page_ok(w1, g1, p));
            assert(page_bytes(h) == n * SLICE_SIZE);
            assert(p == start * SLICE_SIZE);
            assert(slice_of(p + page_bytes(h)) == start + n);
            assert forall|s: int| start <= s < start + n implies #[trigger] held(g1, s, p)
                && holder_ok(w1, g1, sm, &self.mem, s) by {
                assert(slice_of(p) <= s < slice_of(p + page_bytes(h)));
                assert(held(g1, s, p));
                assert(g1.holder.dom().contains(s));
            }
            assert(held(g1, start as int, p));
            assert(held(g1, start + n - 1, p));
            assert(start + n <= MAX_SLICE_INDEX || start > MAX_SLICE_INDEX) by {
                if start <= MAX_SLICE_INDEX < start + n {
                    assert(held(g1, MAX_SLICE_INDEX as int, p));
                }
            }
            assert forall|s: int| start <= s < start + n implies !#[trigger] sm.free.contains(
                s,
            ) by {
                assert(held(g1, s, p));
            }
        }
        self.slices.free(start, n);
        let ghost span = Set::new(|s: int| start <= s < start + n);
        let ghost g2 = HeapModel {
            pages: g1.pages.remove(p),
            holder: g1.holder.remove_keys(span),
            ..g1
        };
        self.model = Ghost(g2);
        proof {
            lemma_page_dropped(w1, g1, g2, sm, self.slices@, &self.mem, self.queues@, p);
            assert(contents_kept(w0, w1, g0, 0));
            lemma_links_labels(w0, w1, g0);
            assert forall|q: int| #[trigger] g2.pages.contains(q) implies header(w1, q).bin
                == header(w0, q).bin && free_list(w1, q) == free_list(w0, q) by {
                assert(g0.pages.contains(q));
                assert(links_only(header(w0, q), header(w1, q)));
                lemma_relabelled_page(w0, w1, g0, q);
            }
            assert forall|s: int| #[trigger]
                self.slices@.free.contains(s) <==> sm.free.contains(s) || left_free(
                    w0,
                    g0.pages,
                    g2.pages,
                    s,
                ) by {
                assert(g0.pages.contains(p) && !g2.pages.contains(p));
            }
        }
    }

    /// Nothing a caller can see has changed: the live blocks and what they hold, the policy, and
    /// the extent of memory.
    spec fn kept(&self, o: &Self) -> bool {
        &&& self.model@.blocks == o.model@.blocks
        &&& contents_kept(o.mem.words(), self.mem.words(), o.model@, 0)
        &&& self.policy == o.policy
        &&& self.initialized == o.initialized
        &&& self.mem.end() == o.mem.end()
        &&& self.mem.base_addr() == o.mem.base_addr()
        &&& self.mem.growths() == o.mem.growths()
        &&& forall|s: int| #[trigger] self.mem.owns(s) == o.mem.owns(s)
        &&& o.slices@.free.subset_of(self.slices@.free)
        &&& self.slices@.base == o.slices@.base
        &&& self.slices@.limit == o.slices@.limit
        &&& self.generic_count == o.generic_count
    }
}

/// The model without an empty page, whose slices are free again.
proof fn lemma_page_dropped<M: Memory>(
    w: Map<int, u64>,
    g: HeapModel,
    k: HeapModel,
    sm: SliceModel,
    sn: SliceModel,
    mem: &M,
    queues: Seq<PageQueue>,
    p: int,
)
    requires
        w == mem.words(),
        pages_ok(w, g),
        queues_ok(w, queues, g, p),
        full_ok(w, g, 0),
        blocks_ok(w, g),
        no_lost_block(w, g),
        holders_ok(w, g, sm, mem),
        backed(sm, mem),
        no_lost_slice(g, sm, mem, 0, 0),
        g.pages.contains(p),
        header(w, p).used == 0,
        k == (HeapModel {
            pages: g.pages.remove(p),
            holder: g.holder.remove_keys(
                Set::new(
                    |s: int|
                        slice_of(p) <= s < slice_of(p) + page_bytes(header(w, p))
                            / SLICE_SIZE as int,
                ),
            ),
            ..g
        }),
        sn == sm.given(slice_of(p), page_bytes(header(w, p)) / SLICE_SIZE as int, false),
    ensures
        pages_ok(w, k),
        queues_ok(w, queues, k, 0),
        full_ok(w, k, 0),
        blocks_ok(w, k),
        no_lost_block(w, k),
        holders_ok(w, k, sn, mem),
        backed(sn, mem),
        no_lost_slice(k, sn, mem, 0, 0),
{
    reveal(pages_ok);
    reveal(blocks_ok);
    reveal(no_lost_block);
    reveal(holders_ok);
    reveal(no_lost_slice);
    reveal(full_ok);
    let h = header(w, p);
    lemma_home_range(w, g, p);
    page::lemma_page_shape(p, h);
    assert(page_ok(w, g, p));
    assert forall|q: int| #[trigger] k.pages.contains(q) implies page_ok(w, k, q) by {
        assert(page_ok(w, g, q));
        assert forall|s: int|
            slice_of(q) <= s < slice_of(q + page_bytes(header(w, q))) implies #[trigger] held(
            k,
            s,
            q,
        ) by {
            assert(held(g, s, q));
            if slice_of(p) <= s < slice_of(p + page_bytes(h)) {
                assert(held(g, s, p));
            }
        }
    }
    assert(queues_ok(w, queues, k, 0)) by {
        lemma_queue(w, queues, g, p, 0);
        assert forall|j: int| 0 <= j < QUEUE_COUNT implies queue_ok(
            w,
            queues[j],
            #[trigger] k.qs[j],
        ) by {
            lemma_queue(w, queues, g, p, j);
        }
        assert forall|j: int, i: int|
            0 <= j < QUEUE_COUNT && 0 <= i < k.qs[j].len() implies member_ok(
            w,
            k,
            j,
            0,
            #[trigger] k.qs[j][i],
        ) by {
            lemma_queue_member(w, queues, g, p, j, i);
        }
        assert forall|q: int| #[trigger] k.pages.contains(q) && q != 0 implies k.qs[home(
            header(w, q),
        )].contains(q) by {
            lemma_page_queued(w, queues, g, p, q);
        }
        reveal(queues_ok);
    }
    assert forall|a: int| #[trigger] k.blocks.dom().contains(a) implies block_ok(w, k, a) by {
        assert(block_ok(w, g, a));
        match serving(g.blocks[a]) {
            Class::Bin(b) => {
                let q: int = page_of(bin_kind(b as int), a);
                if q == p {
                    page::lemma_live_block_counts(w, p, a);
                }
            },
            Class::Huge => {
                assert forall|s: int|
                    slice_of(a) <= s < slice_of(a) + run_slices(
                        k.blocks[a].size() as int,
                    ) implies #[trigger] held(k, s, a) by {
                    assert(held(g, s, a));
                    if slice_of(p) <= s < slice_of(p + page_bytes(h)) {
                        assert(held(g, s, p));
                    }
                }
            },
        }
    }
    assert forall|s: int| #[trigger] k.holder.dom().contains(s) implies holder_ok(
        w,
        k,
        sn,
        mem,
        s,
    ) by {
        assert(g.holder.dom().contains(s));
        assert(holder_ok(w, g, sm, mem, s));
        assert(k.holder[s] == g.holder[s]);
    }
    assert forall|s: int| #[trigger] sn.free.contains(s) implies mem.owns(s) by {
        if slice_of(p) <= s < slice_of(p + page_bytes(h)) {
            assert(held(g, s, p));
            assert(holder_ok(w, g, sm, mem, s));
        } else {
            assert(sm.free.contains(s));
        }
    }
    assert forall|s: int|
        #[trigger] mem.owns(s) && sn.base <= s < sn.usable_limit() implies sn.free.contains(s)
        || k.holder.dom().contains(s) by {
        assert(sm.usable_limit() == sn.usable_limit());
    }
}

impl<M: Memory, const WORDS: usize> Heap<M, WORDS> {
    /// What holds after two steps that keep what callers see.
    proof fn lemma_kept_trans(a: &Self, b: &Self, c: &Self)
        requires
            b.kept(a),
            c.kept(b),
        ensures
            c.kept(a),
    {
        let w = a.mem.words();
        let v = b.mem.words();
        let u = c.mem.words();
        let g = a.model@;
        assert forall|p: int, x: int|
            #![trigger g.blocks.dom().contains(p), u[x]]
            g.blocks.dom().contains(p) && p != 0 && p <= x < block_end(g, p) && x % 8
                == 0 implies u[x] == w[x] by {
            assert(b.model@.blocks.dom().contains(p));
            assert(block_end(b.model@, p) == block_end(g, p));
            assert(v[x] == w[x]);
        }
    }

    /// Everything is kept when only links or labels have changed.
    proof fn lemma_kept_labels(a: &Self, b: &Self)
        requires
            b.settings_of(a),
            b.model@.blocks == a.model@.blocks,
            stored(&a.mem, &b.mem),
            contents_kept(a.mem.words(), b.mem.words(), a.model@, 0),
        ensures
            b.kept(a),
    {
    }

    /// The page just became empty. Keep it for a while in case the size class is still active,
    /// or release its slices.
    fn retire(&mut self, page: usize)
        requires
            old(self).inv(0, 0),
            old(self).initialized,
            old(self).model@.pages.contains(page as int),
            header(old(self).mem.words(), page as int).used == 0,
            header(old(self).mem.words(), page as int).flags == 0,
        ensures
            final(self).inv(0, 0),
            final(self).kept(old(self)),
            ({
                let w = old(self).mem.words();
                let g = old(self).model@;
                let h = header(w, page as int);
                let count = g.qs[h.bin as int].len() as int;
                if h.retire_expire != 0 {
                    *final(self) == *old(self)
                } else if worth_retiring(count, h.block_size as int) {
                    &&& final(self).model@ == g
                    &&& header(final(self).mem.words(), page as int) == (Page {
                        retire_expire: retire_cycles(h.block_size as int) as u8,
                        ..h
                    })
                    &&& final(self).retired() == widened(old(self).retired(), h.bin as int)
                    &&& final(self).slices == old(self).slices
                    &&& free_list(final(self).mem.words(), page as int) == free_list(
                        w,
                        page as int,
                    )
                } else {
                    &&& final(self).model@.pages == g.pages.remove(page as int)
                    &&& final(self).model@.qs == taken_off(g, page as int, h.bin as int)
                    &&& final(self).slices@ == old(self).slices@.given(
                        slice_of(page as int),
                        page_bytes(h) / SLICE_SIZE as int,
                        false,
                    )
                    &&& final(self).retired() == old(self).retired()
                }
            }),
            others_kept(old(self), final(self), page as int),
    {
        let ghost p: int = page as int;
        let ghost w = self.mem.words();
        let ghost g = self.model@;
        proof {
            self.lemma_page_access(0, 0, p);
            lemma_flag_bit();
            lemma_page_queued(w, self.queues@, g, 0, p);
        }
        let h = page::read(page, &self.mem);
        if h.retire_expire != 0 {
            proof {
                Self::lemma_kept_labels(old(self), self);
            }
            return;
        }
        let qi: usize = h.bin as usize;
        proof {
            lemma_queue(w, self.queues@, g, 0, qi as int);
        }
        let count: usize = self.queues[qi].count;
        let small: bool = (h.block_size as usize) < DIRECT_MAX_SIZE;
        if count <= RETIRE_MAX_PAGES && (count == 1 || small) {
            let expire: u8 = if h.block_size as usize <= SMALL_MAX_OBJ_SIZE {
                RETIRE_CYCLES
            } else {
                RETIRE_CYCLES / 4
            };
            self.set_retire(page, expire, Ghost(0), Ghost(0));
            if qi < self.retired_min {
                self.retired_min = qi;
            }
            if qi > self.retired_max {
                self.retired_max = qi;
            }
            return;
        }
        self.free_page(page, qi);
    }

    /// A page of the full queue has a live block.
    proof fn lemma_full_in_use(&self, p: int)
        requires
            self.inv(0, 0),
            self.model@.pages.contains(p),
            home(header(self.mem.words(), p)) == FULL_QUEUE,
        ensures
            header(self.mem.words(), p).used > 0,
    {
        let w = self.mem.words();
        let g = self.model@;
        lemma_home_range(w, g, p);
        lemma_page_queued(w, self.queues@, g, 0, p);
        lemma_full_all(w, self.queues@, g, 0);
        let i: int = g.qs[FULL_QUEUE as int].index_of(p);
        assert(g.qs[FULL_QUEUE as int][i] == p);
        assert(header(w, g.qs[FULL_QUEUE as int][i]).used == header(w, p).reserved);
        crate::bins::law_page_geometry(header(w, p).bin as int);
    }

    /// Release the empty pages of queue `qi`, whatever their countdowns, and forget the countdowns
    /// of the others.
    #[verifier::spinoff_prover]
    #[verifier::rlimit(40)]
    fn release_queue(&mut self, qi: usize)
        requires
            old(self).inv(0, 0),
            old(self).initialized,
            1 <= qi <= MAX_BIN,
        ensures
            final(self).inv(0, 0),
            final(self).kept(old(self)),
            slices_returned(old(self), final(self)),
            ({
                let w = old(self).mem.words();
                let g = old(self).model@;
                let l = g.qs[qi as int];
                &&& final(self).model@.qs == g.qs.update(qi as int, in_use(w, l, l.len() as int))
                &&& forall|p: int| #[trigger]
                    g.pages.contains(p) ==> swept(
                        header(w, p),
                        header(final(self).mem.words(), p),
                        final(self).model@.pages.contains(p),
                        among_first(l, l.len() as int, p),
                    )
            }),
    {
        let ghost w0 = self.mem.words();
        let ghost g0 = self.model@;
        let ghost l0 = g0.qs[qi as int];
        proof {
            lemma_queue(w0, self.queues@, g0, 0, qi as int);
            assert(in_use(w0, l0, 0) + l0.skip(0) =~= l0);
            assert(g0.qs.update(qi as int, l0) =~= g0.qs);
            assert forall|i: int| 0 <= i < l0.len() implies g0.pages.contains(#[trigger] l0[i])
                && l0[i] > 0 by {
                lemma_queue_member(w0, self.queues@, g0, 0, qi as int, i);
            }
            lemma_nothing_returned(old(self), self);
        }
        let ghost mut n: int = 0;
        let mut cur: usize = self.queues[qi].first;
        while cur != 0
            invariant
                self.inv(0, 0),
                self.initialized,
                self.kept(old(self)),
                slices_returned(old(self), self),
                1 <= qi <= MAX_BIN,
                w0 == old(self).mem.words(),
                g0 == old(self).model@,
                l0 == g0.qs[qi as int],
                g0.qs.len() == QUEUE_COUNT,
                l0.no_duplicates(),
                forall|i: int| 0 <= i < l0.len() ==> g0.pages.contains(#[trigger] l0[i]) && l0[i] > 0,
                0 <= n <= l0.len(),
                self.model@.qs == g0.qs.update(qi as int, in_use(w0, l0, n) + l0.skip(n)),
                cur == if n < l0.len() {
                    l0[n]
                } else {
                    0
                },
                forall|p: int| #[trigger]
                    g0.pages.contains(p) ==> swept(
                        header(w0, p),
                        header(self.mem.words(), p),
                        self.model@.pages.contains(p),
                        among_first(l0, n, p),
                    ),
            decreases l0.len() - n,
        {
            let ghost before = *self;
            let ghost w = self.mem.words();
            let ghost g = self.model@;
            let ghost l = g.qs[qi as int];
            let ghost k: int = in_use(w0, l0, n).len() as int;
            proof {
                assert(n < l0.len());
                assert(l == in_use(w0, l0, n) + l0.skip(n));
                assert(l[k] == l0.skip(n)[0] == l0[n]);
                if k + 1 < l.len() {
                    assert(l[k + 1] == l0.skip(n)[1] == l0[n + 1]);
                }
                assert(!among_first(l0, n, l0[n]));
                assert(swept(
                    header(w0, l0[n]),
                    header(w, l0[n]),
                    g.pages.contains(l0[n]),
                    among_first(l0, n, l0[n]),
                )) by {
                    assert(g0.pages.contains(l0[n]));
                }
                lemma_queue(w, self.queues@, g, 0, qi as int);
                lemma_queue_member(w, self.queues@, g, 0, qi as int, k);
                self.lemma_page_access(0, 0, cur as int);
                assert(header(w, l[k]).next == next_in(l, k));
                assert(l.contains(cur as int));
                assert(l.index_of(cur as int) == k);
                assert(in_use(w0, l0, n + 1) == if header(w0, l0[n]).used == 0 {
                    in_use(w0, l0, n)
                } else {
                    in_use(w0, l0, n).push(l0[n])
                });
            }
            let h = page::read(cur, &self.mem);
            if h.used == 0 {
                self.free_page(cur, qi);
                proof {
                    Self::lemma_kept_trans(old(self), &before, self);
                    lemma_returned_trans(old(self), &before, self);
                    assert(l.remove(k) =~= in_use(w0, l0, n + 1) + l0.skip(n + 1));
                }
            } else {
                if h.retire_expire != 0 {
                    self.set_retire(cur, 0, Ghost(0), Ghost(0));
                    proof {
                        Self::lemma_kept_labels(&before, self);
                        Self::lemma_kept_trans(old(self), &before, self);
                        lemma_nothing_returned(&before, self);
                        lemma_returned_trans(old(self), &before, self);
                    }
                }
                proof {
                    assert(l =~= in_use(w0, l0, n + 1) + l0.skip(n + 1));
                }
            }
            proof {
                let v = self.mem.words();
                assert(self.model@.qs =~= g0.qs.update(
                    qi as int,
                    in_use(w0, l0, n + 1) + l0.skip(n + 1),
                ));
                assert forall|p: int| #[trigger] g0.pages.contains(p) implies swept(
                    header(w0, p),
                    header(v, p),
                    self.model@.pages.contains(p),
                    among_first(l0, n + 1, p),
                ) by {
                    assert(swept(
                        header(w0, p),
                        header(w, p),
                        g.pages.contains(p),
                        among_first(l0, n, p),
                    ));
                    lemma_among_first(l0, n, p);
                    if g.pages.contains(p) && p != cur {
                        assert(links_only(header(w, p), header(v, p)));
                    }
                }
                n = n + 1;
            }
            cur = h.next;
        }
        proof {
            assert(in_use(w0, l0, n) + l0.skip(n) =~= in_use(w0, l0, n));
        }
    }

    /// Release every empty page.
    #[verifier::spinoff_prover]
    #[verifier::rlimit(40)]
    fn release_empty(&mut self)
        requires
            old(self).inv(0, 0),
            old(self).initialized,
        ensures
            final(self).inv(0, 0),
            final(self).kept(old(self)),
            slices_returned(old(self), final(self)),
            empties_released(old(self), final(self)),
    {
        let ghost w0 = self.mem.words();
        let ghost g0 = self.model@;
        proof {
            lemma_queue(w0, self.queues@, g0, 0, 1);
            lemma_nothing_returned(old(self), self);
            assert forall|p: int| #[trigger] g0.pages.contains(p) implies home(header(w0, p))
                >= 1 by {
                lemma_home_range(w0, g0, p);
            }
        }
        let mut qi: usize = 1;
        while qi <= MAX_BIN as usize
            invariant
                self.inv(0, 0),
                self.initialized,
                self.kept(old(self)),
                slices_returned(old(self), self),
                1 <= qi <= MAX_BIN + 1,
                old(self).inv(0, 0),
                w0 == old(self).mem.words(),
                g0 == old(self).model@,
                g0.qs.len() == QUEUE_COUNT,
                self.model@.qs.len() == QUEUE_COUNT,
                forall|j: int|
                    0 <= j < QUEUE_COUNT ==> #[trigger] self.model@.qs[j] == if 1 <= j < qi {
                        in_use(w0, g0.qs[j], g0.qs[j].len() as int)
                    } else {
                        g0.qs[j]
                    },
                forall|p: int| #[trigger]
                    g0.pages.contains(p) ==> swept(
                        header(w0, p),
                        header(self.mem.words(), p),
                        self.model@.pages.contains(p),
                        home(header(w0, p)) < qi,
                    ),
            decreases MAX_BIN + 1 - qi,
        {
            let ghost before = *self;
            let ghost w = self.mem.words();
            let ghost g = self.model@;
            let ghost l = g0.qs[qi as int];
            proof {
                assert(g.qs[qi as int] == l);
            }
            self.release_queue(qi);
            proof {
                Self::lemma_kept_trans(old(self), &before, self);
                lemma_returned_trans(old(self), &before, self);
                let v = self.mem.words();
                assert forall|i: int| 0 <= i < l.len() implies header(w, #[trigger] l[i]).used
                    == header(w0, l[i]).used by {
                    lemma_queue_member(w0, old(self).queues@, g0, 0, qi as int, i);
                    assert(g0.pages.contains(l[i]));
                }
                lemma_in_use_same(w0, w, l, l.len() as int);
                assert forall|p: int| #[trigger] g0.pages.contains(p) implies swept(
                    header(w0, p),
                    header(v, p),
                    self.model@.pages.contains(p),
                    home(header(w0, p)) < qi + 1,
                ) by {
                    let h = header(w0, p);
                    assert(swept(h, header(w, p), g.pages.contains(p), home(h) < qi));
                    lemma_home_range(w0, g0, p);
                    lemma_page_queued(w0, old(self).queues@, g0, 0, p);
                    if home(h) == qi {
                        let i: int = l.index_of(p);
                        assert(l[i] == p);
                    } else if among_first(l, l.len() as int, p) {
                        let i: int = choose|i: int|
                            0 <= i < l.len() && i < l.len() && #[trigger] l[i] == p;
                        lemma_queue_member(w0, old(self).queues@, g0, 0, qi as int, i);
                    }
                    if g.pages.contains(p) {
                        assert(swept(
                            header(w, p),
                            header(v, p),
                            self.model@.pages.contains(p),
                            among_first(l, l.len() as int, p),
                        ));
                    }
                }
            }
            qi = qi + 1;
        }
        let ghost last = *self;
        self.retired_min = QUEUE_COUNT;
        self.retired_max = 0;
        proof {
            lemma_nothing_returned(&last, self);
            lemma_returned_trans(old(self), &last, self);
            let l = g0.qs[FULL_QUEUE as int];
            assert forall|i: int| 0 <= i < l.len() implies header(w0, #[trigger] l[i]).used > 0 by {
                lemma_queue_member(w0, old(self).queues@, g0, 0, FULL_QUEUE as int, i);
                old(self).lemma_full_in_use(l[i]);
            }
            lemma_all_in_use(w0, l, l.len() as int);
            assert(l.take(l.len() as int) =~= l);
            assert forall|p: int| #[trigger] g0.pages.contains(p) implies swept(
                header(w0, p),
                header(self.mem.words(), p),
                self.model@.pages.contains(p),
                home(header(w0, p)) != FULL_QUEUE,
            ) by {
                lemma_home_range(w0, g0, p);
            }
            assert forall|j: int| 0 <= j < QUEUE_COUNT implies #[trigger] self.model@.qs[j]
                == in_use(w0, g0.qs[j], g0.qs[j].len() as int) by {
                assert(last.model@.qs[j] == self.model@.qs[j]);
                if !(1 <= j <= FULL_QUEUE) {
                    if g0.qs[j].len() > 0 {
                        lemma_queue_member(w0, old(self).queues@, g0, 0, j, 0);
                        lemma_home_range(w0, g0, g0.qs[j][0]);
                    }
                    assert(in_use(w0, g0.qs[j], 0) =~= g0.qs[j]);
                }
            }
        }
    }

    /// Age the retired pages among the first [`RETIRE_MAX_PAGES`] of queue `qi` and release the
    /// expired ones. A page that was reused and is no longer empty is simply un-retired. Returns
    /// whether a retired page is left.
    #[verifier::spinoff_prover]
    #[verifier::rlimit(40)]
    fn age_queue(&mut self, qi: usize) -> (r: bool)
        requires
            old(self).inv(0, 0),
            old(self).initialized,
            1 <= qi <= MAX_BIN,
        ensures
            final(self).inv(0, 0),
            final(self).kept(old(self)),
            slices_returned(old(self), final(self)),
            ({
                let w = old(self).mem.words();
                let g = old(self).model@;
                let l = g.qs[qi as int];
                &&& final(self).model@.qs == g.qs.update(qi as int, after_turn(w, l))
                &&& forall|p: int| #[trigger]
                    g.pages.contains(p) ==> turned(
                        header(w, p),
                        header(final(self).mem.words(), p),
                        final(self).model@.pages.contains(p),
                        among_first(l, RETIRE_MAX_PAGES as int, p),
                    )
                &&& final(self).model@.pages.subset_of(g.pages)
                &&& r == some_left(w, l, RETIRE_MAX_PAGES as int)
            }),
    {
        let ghost w0 = self.mem.words();
        let ghost g0 = self.model@;
        let ghost l0 = g0.qs[qi as int];
        proof {
            lemma_queue(w0, self.queues@, g0, 0, qi as int);
            assert(l0.skip(0) =~= l0);
            assert(staying(w0, l0, 0) + l0.skip(0) =~= l0);
            assert(g0.qs.update(qi as int, l0) =~= g0.qs);
            assert forall|i: int| 0 <= i < l0.len() implies g0.pages.contains(#[trigger] l0[i])
                && l0[i] > 0 by {
                lemma_queue_member(w0, self.queues@, g0, 0, qi as int, i);
            }
            lemma_nothing_returned(old(self), self);
        }
        let mut cur: usize = self.queues[qi].first;
        let mut seen: usize = 0;
        let mut left: bool = false;
        while cur != 0 && seen < RETIRE_MAX_PAGES
            invariant
                self.inv(0, 0),
                self.initialized,
                self.kept(old(self)),
                slices_returned(old(self), self),
                1 <= qi <= MAX_BIN,
                w0 == old(self).mem.words(),
                g0 == old(self).model@,
                l0 == g0.qs[qi as int],
                g0.qs.len() == QUEUE_COUNT,
                l0.no_duplicates(),
                forall|i: int| 0 <= i < l0.len() ==> g0.pages.contains(#[trigger] l0[i]) && l0[i] > 0,
                seen <= RETIRE_MAX_PAGES,
                seen <= l0.len(),
                self.model@.qs == g0.qs.update(
                    qi as int,
                    staying(w0, l0, seen as int) + l0.skip(seen as int),
                ),
                cur == if seen < l0.len() {
                    l0[seen as int]
                } else {
                    0
                },
                forall|p: int| #[trigger]
                    g0.pages.contains(p) ==> turned(
                        header(w0, p),
                        header(self.mem.words(), p),
                        self.model@.pages.contains(p),
                        among_first(l0, seen as int, p),
                    ),
                self.model@.pages.subset_of(g0.pages),
                left == some_left(w0, l0, seen as int),
            decreases RETIRE_MAX_PAGES - seen,
        {
            let ghost before = *self;
            let ghost w = self.mem.words();
            let ghost g = self.model@;
            let ghost l = g.qs[qi as int];
            let ghost n: int = seen as int;
            let ghost k: int = staying(w0, l0, n).len() as int;
            proof {
                assert(seen < l0.len());
                assert(l == staying(w0, l0, n) + l0.skip(n));
                assert(l[k] == l0.skip(n)[0] == l0[n]);
                if k + 1 < l.len() {
                    assert(l[k + 1] == l0.skip(n)[1] == l0[n + 1]);
                }
                assert(!among_first(l0, n, l0[n]));
                assert(turned(
                    header(w0, l0[n]),
                    header(w, l0[n]),
                    g.pages.contains(l0[n]),
                    among_first(l0, n, l0[n]),
                )) by {
                    assert(g0.pages.contains(l0[n]));
                }
                lemma_queue(w, self.queues@, g, 0, qi as int);
                lemma_queue_member(w, self.queues@, g, 0, qi as int, k);
                self.lemma_page_access(0, 0, cur as int);
                assert(header(w, l[k]).next == next_in(l, k));
                assert(l.contains(cur as int));
                assert(l.index_of(cur as int) == k);
                lemma_some_left(w0, l0, n);
                assert(staying(w0, l0, n + 1) == if expires(header(w0, l0[n])) {
                    staying(w0, l0, n)
                } else {
                    staying(w0, l0, n).push(l0[n])
                });
            }
            let h = page::read(cur, &self.mem);
            if h.retire_expire == 1 && h.used == 0 {
                self.free_page(cur, qi);
                proof {
                    Self::lemma_kept_trans(old(self), &before, self);
                    lemma_returned_trans(old(self), &before, self);
                    assert(expires(header(w0, l0[n])));
                    assert(l.remove(k) =~= staying(w0, l0, n + 1) + l0.skip(n + 1));
                }
            } else {
                if h.retire_expire != 0 {
                    let expire: u8 = if h.used == 0 {
                        h.retire_expire - 1
                    } else {
                        0
                    };
                    self.set_retire(cur, expire, Ghost(0), Ghost(0));
                    proof {
                        Self::lemma_kept_labels(&before, self);
                        Self::lemma_kept_trans(old(self), &before, self);
                        lemma_nothing_returned(&before, self);
                        lemma_returned_trans(old(self), &before, self);
                    }
                    if h.used == 0 {
                        left = true;
                    }
                }
                proof {
                    assert(l =~= staying(w0, l0, n + 1) + l0.skip(n + 1));
                }
            }
            proof {
                let v = self.mem.words();
                assert(self.model@.qs =~= g0.qs.update(
                    qi as int,
                    staying(w0, l0, n + 1) + l0.skip(n + 1),
                ));
                assert forall|p: int| #[trigger] g0.pages.contains(p) implies turned(
                    header(w0, p),
                    header(v, p),
                    self.model@.pages.contains(p),
                    among_first(l0, n + 1, p),
                ) by {
                    assert(turned(
                        header(w0, p),
                        header(w, p),
                        g.pages.contains(p),
                        among_first(l0, n, p),
                    ));
                    lemma_among_first(l0, n, p);
                    if g.pages.contains(p) && p != cur {
                        assert(links_only(header(w, p), header(v, p)));
                    }
                }
            }
            cur = h.next;
            seen = seen + 1;
        }
        proof {
            let n: int = seen as int;
            if seen == l0.len() {
                assert(after_turn(w0, l0) =~= staying(w0, l0, n) + l0.skip(n));
            }
            assert forall|p: int| among_first(l0, n, p) == #[trigger] among_first(
                l0,
                RETIRE_MAX_PAGES as int,
                p,
            ) by {
                if among_first(l0, RETIRE_MAX_PAGES as int, p) {
                    let i: int = choose|i: int|
                        0 <= i < RETIRE_MAX_PAGES && i < l0.len() && #[trigger] l0[i] == p;
                    assert(i < n && l0[i] == p);
                }
            }
            if some_left(w0, l0, RETIRE_MAX_PAGES as int) {
                let i: int = choose|i: int|
                    0 <= i < RETIRE_MAX_PAGES && i < l0.len() && outlasts(
                        header(w0, #[trigger] l0[i]),
                    );
                assert(i < n && outlasts(header(w0, l0[i])));
            }
        }
        left
    }

    /// The queue is in the range whose retired pages get their turns.
    pub open spec fn ages(&self, qi: int) -> bool {
        1 <= qi <= MAX_BIN && self.retired().0 <= qi <= self.retired().1
    }

    /// Age the retired pages of the queues in the retired range, or with `force` release every
    /// empty page.
    #[verifier::spinoff_prover]
    #[verifier::rlimit(40)]
    fn collect(&mut self, force: bool)
        requires
            old(self).inv(0, 0),
            old(self).initialized,
        ensures
            final(self).inv(0, 0),
            final(self).kept(old(self)),
            slices_returned(old(self), final(self)),
            force ==> no_empty_page_but(final(self).mem.words(), final(self).model@, 0),
            force ==> empties_released(old(self), final(self)),
            !force ==> turns_taken(old(self), final(self)),
    {
        if force {
            self.release_empty();
            proof {
                let w = old(self).mem.words();
                let g = old(self).model@;
                assert forall|p: int| #[trigger] self.model@.pages.contains(p) implies header(
                    self.mem.words(),
                    p,
                ).used > 0 by {
                    assert(g.pages.contains(p));
                    if home(header(w, p)) == FULL_QUEUE {
                        old(self).lemma_full_in_use(p);
                    }
                }
            }
            return;
        }
        let ghost w0 = self.mem.words();
        let ghost g0 = self.model@;
        proof {
            lemma_queue(w0, self.queues@, g0, 0, 1);
            lemma_nothing_returned(old(self), self);
        }
        let hi: usize = if self.retired_max <= MAX_BIN as usize {
            self.retired_max
        } else {
            MAX_BIN as usize
        };
        let mut min: usize = QUEUE_COUNT;
        let mut max: usize = 0;
        let lo: usize = if self.retired_min >= 1 {
            self.retired_min
        } else {
            1
        };
        let mut qi: usize = lo;
        while qi <= hi
            invariant
                self.inv(0, 0),
                self.initialized,
                self.kept(old(self)),
                slices_returned(old(self), self),
                1 <= lo <= qi,
                lo > hi ==> qi == lo,
                lo <= hi ==> qi <= hi + 1,
                hi <= MAX_BIN,
                old(self).inv(0, 0),
                w0 == old(self).mem.words(),
                g0 == old(self).model@,
                g0.qs.len() == QUEUE_COUNT,
                self.model@.qs.len() == QUEUE_COUNT,
                forall|j: int|
                    0 <= j < QUEUE_COUNT ==> #[trigger] self.model@.qs[j] == if lo <= j < qi {
                        after_turn(w0, g0.qs[j])
                    } else {
                        g0.qs[j]
                    },
                forall|p: int| #[trigger]
                    g0.pages.contains(p) ==> turned(
                        header(w0, p),
                        header(self.mem.words(), p),
                        self.model@.pages.contains(p),
                        lo <= home(header(w0, p)) < qi && among_first(
                            g0.qs[home(header(w0, p))],
                            RETIRE_MAX_PAGES as int,
                            p,
                        ),
                    ),
                self.model@.pages.subset_of(g0.pages),
                forall|j: int|
                    lo <= j < qi && some_left(w0, #[trigger] g0.qs[j], RETIRE_MAX_PAGES as int)
                        ==> min <= j <= max,
                lo == if old(self).retired_min >= 1 {
                    old(self).retired_min
                } else {
                    1
                },
                hi == if old(self).retired_max <= MAX_BIN {
                    old(self).retired_max
                } else {
                    MAX_BIN as usize
                },
                (min == QUEUE_COUNT && max == 0) || (left_in(old(self), min as int) && left_in(
                    old(self),
                    max as int,
                ) && min <= max < qi),
            decreases hi + 1 - qi,
        {
            let ghost before = *self;
            let ghost w = self.mem.words();
            let ghost g = self.model@;
            let ghost l = g0.qs[qi as int];
            proof {
                assert(g.qs[qi as int] == l);
            }
            let left: bool = self.age_queue(qi);
            proof {
                assert(old(self).ages(qi as int));
            }
            if left {
                if qi < min {
                    min = qi;
                }
                if qi > max {
                    max = qi;
                }
            }
            proof {
                Self::lemma_kept_trans(old(self), &before, self);
                lemma_returned_trans(old(self), &before, self);
                let v = self.mem.words();
                assert forall|i: int| 0 <= i < l.len() implies expires(
                    header(w, #[trigger] l[i]),
                ) == expires(header(w0, l[i])) && outlasts(header(w, l[i])) == outlasts(
                    header(w0, l[i]),
                ) by {
                    lemma_queue_member(w0, old(self).queues@, g0, 0, qi as int, i);
                    assert(g0.pages.contains(l[i]));
                }
                lemma_after_turn_same(w0, w, l);
                assert forall|p: int| #[trigger] g0.pages.contains(p) implies turned(
                    header(w0, p),
                    header(v, p),
                    self.model@.pages.contains(p),
                    lo <= home(header(w0, p)) < qi + 1 && among_first(
                        g0.qs[home(header(w0, p))],
                        RETIRE_MAX_PAGES as int,
                        p,
                    ),
                ) by {
                    let h = header(w0, p);
                    assert(turned(
                        h,
                        header(w, p),
                        g.pages.contains(p),
                        lo <= home(h) < qi && among_first(
                            g0.qs[home(h)],
                            RETIRE_MAX_PAGES as int,
                            p,
                        ),
                    ));
                    if home(h) != qi && among_first(l, RETIRE_MAX_PAGES as int, p) {
                        let i: int = choose|i: int|
                            0 <= i < RETIRE_MAX_PAGES && i < l.len() && #[trigger] l[i] == p;
                        lemma_queue_member(w0, old(self).queues@, g0, 0, qi as int, i);
                    }
                    if g.pages.contains(p) {
                        assert(turned(
                            header(w, p),
                            header(v, p),
                            self.model@.pages.contains(p),
                            among_first(l, RETIRE_MAX_PAGES as int, p),
                        ));
                    } else {
                        assert(!self.model@.pages.contains(p));
                    }
                }
            }
            qi = qi + 1;
        }
        let ghost last = *self;
        self.retired_min = min;
        self.retired_max = max;
        proof {
            lemma_nothing_returned(&last, self);
            lemma_returned_trans(old(self), &last, self);
            assert forall|j: int| #[trigger] left_in(old(self), j) implies min <= j <= max by {
                assert(lo <= j < qi);
                assert(some_left(w0, g0.qs[j], RETIRE_MAX_PAGES as int));
            }
            assert forall|p: int| #[trigger] g0.pages.contains(p) implies turned(
                header(w0, p),
                header(self.mem.words(), p),
                self.model@.pages.contains(p),
                old(self).ages(home(header(w0, p))) && among_first(
                    g0.qs[home(header(w0, p))],
                    RETIRE_MAX_PAGES as int,
                    p,
                ),
            ) by {
                assert(old(self).ages(home(header(w0, p))) == (lo <= home(header(w0, p)) < qi));
            }
        }
    }
}

impl<M: Memory, const WORDS: usize> Heap<M, WORDS> {
    /// Set up the slice map at the first allocation: whatever lies between the heap base and the
    /// end of the initial memory is the heap's; use it before paying for a `memory.grow`. Its
    /// contents are not guaranteed zero.
    fn ensure_init(&mut self)
        requires
            old(self).inv(0, 0),
        ensures
            final(self).inv(0, 0),
            final(self).initialized,
            final(self).model == old(self).model,
            final(self).mem == old(self).mem,
            final(self).policy == old(self).policy,
            final(self).generic_count == old(self).generic_count,
            final(self).retired() == old(self).retired(),
            old(self).initialized ==> *final(self) == *old(self),
            final(self).slices@ == old(self).starting_slices(),
    {
        if self.initialized {
            return;
        }
        let heap_base: usize = self.mem.heap_base();
        let base_slice: usize = heap_base / SLICE_SIZE;
        proof {
            self.slices.lemma_wf_facts();
            assert(base_slice <= usize::MAX as int / 65536);
        }
        self.slices.init(base_slice);
        let (first, count) = initial_free_range(heap_base, self.mem.size_slices());
        if count > 0 {
            self.slices.add_free(first, count, false);
        }
        self.initialized = true;
        proof {
            let sm = self.slices@;
            assert forall|s: int| #[trigger] sm.free.contains(s) implies self.mem.owns(s) by {}
            assert(no_lost_slice(self.model@, sm, &self.mem, 0, 0)) by {
                reveal(no_lost_slice);
                assert forall|s: int|
                    #[trigger] self.mem.owns(s) && sm.base <= s < sm.usable_limit() implies
                    sm.free.contains(s) by {
                }
            }
            assert(holders_ok(self.mem.words(), self.model@, sm, &self.mem)) by {
                reveal(holders_ok);
            }
            self.slices.lemma_wf_facts();
            let t = initial_slices(&self.mem, WORDS as int);
            assert(sm.free =~= t.free);
            assert(sm.zero =~= t.zero);
        }
    }

    /// After memory has grown, or slices have been taken from the map for a run that is pending,
    /// the rest of the heap is in order.
    proof fn lemma_grown(before: &Self, after: &Self, start: int, count: int)
        requires
            before.inv(0, 0),
            before.initialized,
            after.initialized,
            after.model == before.model,
            after.queues == before.queues,
            after.direct == before.direct,
            after.policy == before.policy,
            after.generic_count == before.generic_count,
            after.slices.wf(),
            backed(after.slices@, &after.mem),
            grown_from(&before.mem, &after.mem),
            start >= 0,
            count >= 0,
            after.slices@.base == before.slices@.base,
            after.slices@.limit == before.slices@.limit,
            count > 0 ==> with_fresh(before.slices@, &before.mem, &after.mem).fits(start, count, 1),
            after.slices@ == with_fresh(before.slices@, &before.mem, &after.mem).taken(start, count),
        ensures
            after.inv_run(0, 0, start, count),
            contents_kept(before.mem.words(), after.mem.words(), before.model@, 0),
            forall|p: int| #[trigger]
                before.model@.pages.contains(p) ==> header(after.mem.words(), p) == header(
                    before.mem.words(),
                    p,
                ) && free_list(after.mem.words(), p) == free_list(before.mem.words(), p),
    {
        let w = before.mem.words();
        let v = after.mem.words();
        let g = before.model@;
        let sm = before.slices@;
        let sn = after.slices@;
        let grown = with_fresh(sm, &before.mem, &after.mem);
        before.slices.lemma_wf_facts();
        assert forall|p: int| #[trigger] g.pages.contains(p) implies header(v, p) == header(w, p)
            && page_inv(v, p, free_list(w, p)) && page_wf(v, p) && free_list(v, p) == free_list(
            w,
            p,
        ) by {
            before.lemma_page_access(0, 0, p);
            let h = header(w, p);
            page::lemma_page_shape(p, h);
            assert forall|x: int| p <= x < p + page_bytes(h) && x % 8 == 0 implies #[trigger] v[x]
                == w[x] by {
                assert(slice_of(p) <= slice_of(x) < slice_of(p + page_bytes(h)));
                assert(before.mem.owns(slice_of(x)));
            }
            lemma_home_range(w, g, p);
            page::lemma_page_frame(w, v, p, free_list(w, p));
            page::lemma_free_list(v, p, free_list(w, p));
        }
        assert(pages_ok(v, g)) by {
            reveal(pages_ok);
            assert forall|p: int| #[trigger] g.pages.contains(p) implies page_ok(v, g, p) by {
                assert(page_ok(w, g, p));
            }
        }
        lemma_queues_same(w, v, before.queues@, g, 0, 0);
        assert(blocks_ok(v, g)) by {
            reveal(blocks_ok);
            assert forall|a: int| #[trigger] g.blocks.dom().contains(a) implies block_ok(v, g, a) by {
                assert(block_ok(w, g, a));
            }
        }
        assert(no_lost_block(v, g)) by {
            reveal(no_lost_block);
            assert forall|p: int, a: int|
                g.pages.contains(p) && #[trigger] is_live(v, p, a) implies g.blocks.dom().contains(
                a,
            ) by {
                assert(is_live(w, p, a));
            }
        }
        assert forall|s: int| #[trigger] g.holder.dom().contains(s) implies holder_ok(
            v,
            g,
            sn,
            &after.mem,
            s,
        ) by {
            reveal(holders_ok);
            assert(holder_ok(w, g, sm, &before.mem, s));
            assert(before.mem.owns(s));
            assert(!grown.free.contains(s));
        }
        assert(holders_ok(v, g, sn, &after.mem)) by {
            reveal(holders_ok);
        }
        assert(no_lost_slice(g, sn, &after.mem, start, count)) by {
            reveal(no_lost_slice);
            assert forall|s: int|
                #[trigger] after.mem.owns(s) && sn.base <= s < sn.usable_limit() implies
                sn.free.contains(s) || g.holder.dom().contains(s) || start <= s < start
                + count by {
                assert(sm.usable_limit() == sn.usable_limit());
                if before.mem.owns(s) {
                    assert(sm.free.contains(s) || g.holder.dom().contains(s));
                }
            }
        }
        assert(run_pending(g, sn, &after.mem, start, count)) by {
            assert forall|s: int|
                start <= s < start + count implies #[trigger] after.mem.owns(s)
                && !sn.free.contains(s) && !g.holder.dom().contains(s) && s
                != MAX_SLICE_INDEX by {
                assert(grown.free.contains(s));
                if g.holder.dom().contains(s) {
                    assert(holder_ok(v, g, sn, &after.mem, s));
                    reveal(holders_ok);
                    assert(holder_ok(w, g, sm, &before.mem, s));
                }
            }
        }
        assert forall|a: int, x: int|
            #![trigger g.blocks.dom().contains(a), v[x]]
            g.blocks.dom().contains(a) && a != 0 && a <= x < block_end(g, a) && x % 8
                == 0 implies v[x] == w[x] by {
            lemma_block_words(w, g, a, x);
            reveal(holders_ok);
            assert(g.holder.dom().contains(slice_of(x)));
            assert(holder_ok(w, g, sm, &before.mem, slice_of(x)));
        }
    }
}

/// The addresses of an owned slice that may be handed out fit a `usize`.
proof fn lemma_slice_addr<M: Memory>(mem: &M, s: int)
    requires
        in_order(mem),
        mem.owns(s),
        s != MAX_SLICE_INDEX,
    ensures
        1 <= s,
        (s + 1) * SLICE_SIZE <= usize::MAX,
{
    assert(usize::MAX as int / 65536 >= 65535);
    assert(s + 1 <= usize::MAX as int / 65536);
}

/// Where something fits depends on the free slices alone.
proof fn lemma_same_fit(m: SliceModel, n: SliceModel, start: int, count: int, align: int)
    requires
        m.free == n.free,
        m.base == n.base,
        m.limit == n.limit,
    ensures
        m.lowest_fit(start, count, align) == n.lowest_fit(start, count, align),
{
    assert forall|t: int| m.fits(t, count, align) == #[trigger] n.fits(t, count, align) by {}
    assert forall|t: int| #[trigger] m.fits(t, count, align) == n.fits(t, count, align) by {}
}

/// What fits still fits when more slices are free.
proof fn lemma_more_free(m: SliceModel, n: SliceModel, count: int, align: int)
    requires
        m.free.subset_of(n.free),
        m.base == n.base,
        m.limit == n.limit,
    ensures
        m.has_fit(count, align) ==> n.has_fit(count, align),
{
    if m.has_fit(count, align) {
        let s: int = choose|s: int| m.fits(s, count, align);
        assert(n.fits(s, count, align));
    }
}

impl<M: Memory, const WORDS: usize> Heap<M, WORDS> {
    /// Nothing a caller can see has changed but that there may be more memory.
    spec fn kept_but_grown(&self, o: &Self) -> bool {
        &&& self.model@.blocks == o.model@.blocks
        &&& contents_kept(o.mem.words(), self.mem.words(), o.model@, 0)
        &&& self.policy == o.policy
        &&& self.initialized == o.initialized
        &&& self.mem.end() >= o.mem.end()
        &&& only_more(o.mem.growths(), self.mem.growths())
        &&& forall|s: int| s < o.mem.end() ==> #[trigger] self.mem.owns(s) == o.mem.owns(s)
        &&& self.slices@.base == o.slices@.base
        &&& self.slices@.limit == o.slices@.limit
        &&& self.generic_count == o.generic_count
    }

    proof fn lemma_kept_grown_trans(a: &Self, b: &Self, c: &Self)
        requires
            b.kept_but_grown(a) || b.kept(a),
            c.kept_but_grown(b) || c.kept(b),
        ensures
            c.kept_but_grown(a),
    {
        let w = a.mem.words();
        let v = b.mem.words();
        let u = c.mem.words();
        let g = a.model@;
        assert forall|p: int, x: int|
            #![trigger g.blocks.dom().contains(p), u[x]]
            g.blocks.dom().contains(p) && p != 0 && p <= x < block_end(g, p) && x % 8
                == 0 implies u[x] == w[x] by {
            assert(b.model@.blocks.dom().contains(p));
            assert(block_end(b.model@, p) == block_end(g, p));
            assert(v[x] == w[x]);
        }
    }

    /// Without empty pages nothing is there to release.
    proof fn lemma_idle_release(a: &Self, b: &Self)
        requires
            a.inv(0, 0),
            slices_returned(a, b),
            empties_released(a, b),
            no_empty_page_but(a.mem.words(), a.model@, 0),
        ensures
            b.model@.pages == a.model@.pages,
            b.model@.qs == a.model@.qs,
    {
        let w = a.mem.words();
        let g = a.model@;
        lemma_queue(w, a.queues@, g, 0, 1);
        assert forall|p: int| #[trigger] g.pages.contains(p) implies b.model@.pages.contains(
            p,
        ) by {
            lemma_home_range(w, g, p);
        }
        assert(b.model@.pages =~= g.pages);
        assert forall|j: int| 0 <= j < QUEUE_COUNT implies b.model@.qs[j] == g.qs[j] by {
            let l = g.qs[j];
            assert forall|i: int| 0 <= i < l.len() implies header(w, #[trigger] l[i]).used > 0 by {
                lemma_queue_member(w, a.queues@, g, 0, j, i);
            }
            lemma_all_in_use(w, l, l.len() as int);
            assert(l.take(l.len() as int) =~= l);
        }
        assert(b.model@.qs =~= g.qs);
    }

    /// Slices for a page or a run: the lowest fit, or with `top` the bottom of the free tail
    /// first when it is long enough, so no memory is grown for a run a hole could hold. When
    /// nothing fits, every empty page is released and the map searched again before memory
    /// is grown: linear memory never shrinks, so a grow is footprint for good, while a released
    /// page costs one page initialisation if its bin comes back.
    #[verifier::spinoff_prover]
    #[verifier::rlimit(40)]
    fn acquire_run(&mut self, count: usize, align: usize, top: bool) -> (r: Option<Run>)
        requires
            old(self).inv(0, 0),
            old(self).initialized,
            count >= 1,
            is_pow2(align as int),
        ensures
            final(self).kept_but_grown(old(self)),
            final(self).initialized,
            r is None ==> final(self).inv(0, 0) && !final(self).slices@.has_fit(
                count as int,
                align as int,
            ) && acquire_refused(
                old(self).slices@.usable_limit(),
                &old(self).mem,
                &final(self).mem,
                count as int,
                align as int,
            ),
            r matches Some(run) ==> {
                &&& final(self).inv_run(0, 0, run.start as int, count as int)
                &&& run.start as int % align as int == 0
                &&& run.zeroed ==> page::words_zero(
                    final(self).mem.words(),
                    run.start * SLICE_SIZE,
                    (run.start + count) * SLICE_SIZE,
                )
            },
            old(self).slices@.has_fit(count as int, align as int) ==> r is Some && final(self).mem
                == old(self).mem && final(self).model == old(self).model && if top {
                old(self).slices@.high_fit(
                    r->0.start as int,
                    count as int,
                    align as int,
                    old(self).mem.end() as int,
                )
            } else {
                old(self).slices@.lowest_fit(r->0.start as int, count as int, align as int)
            },
            acquire_growth(
                old(self).slices@,
                &old(self).mem,
                &final(self).mem,
                count as int,
                align as int,
                old(self).policy,
            ),
            exists|mid: Heap<M, WORDS>| #[trigger]
                slices_found(
                    old(self),
                    &mid,
                    final(self),
                    count as int,
                    align as int,
                    top,
                    r,
                ),
            no_empty_page_but(old(self).mem.words(), old(self).model@, 0) ==> {
                &&& final(self).model@.qs == old(self).model@.qs
                &&& final(self).model@.pages == old(self).model@.pages
                &&& r is Some && !top ==> with_fresh(
                    old(self).slices@,
                    &old(self).mem,
                    &final(self).mem,
                ).lowest_fit(r->0.start as int, count as int, align as int)
            },
            grew(&old(self).mem, &final(self).mem) || no_empty_page_but(
                old(self).mem.words(),
                old(self).model@,
                0,
            ) ==> no_empty_page_but(final(self).mem.words(), final(self).model@, 0),
    {
        let ghost sm = self.slices@;
        proof {
            assert(with_fresh(sm, &self.mem, &self.mem) =~= sm);
            self.slices.lemma_wf_facts();
            lemma_no_growth(sm, &self.mem, &self.mem, count as int, align as int, self.policy);
        }
        if top {
            let end: usize = self.mem.size_slices();
            match self.slices.alloc_tail(count, align, end) {
                Some(run) => {
                    proof {
                        Self::lemma_taken(old(self), self, run, count as int);
                        assert(sm.has_fit(count as int, align as int));
                        assert(slices_found(
                            old(self),
                            old(self),
                            self,
                            count as int,
                            align as int,
                            top,
                            Some(run),
                        ));
                    }
                    return Some(run);
                },
                None => {},
            }
        }
        match self.slices.allocate(count, align) {
            Some(run) => {
                proof {
                    Self::lemma_taken(old(self), self, run, count as int);
                    assert(sm.has_fit(count as int, align as int));
                    assert(slices_found(
                        old(self),
                        old(self),
                        self,
                        count as int,
                        align as int,
                        top,
                        Some(run),
                    ));
                }
                return Some(run);
            },
            None => {},
        }
        let ghost mid = *self;
        proof {
            assert(self.slices@ == sm);
            assert(self.inv(0, 0));
        }
        self.collect(true);
        let ghost before = *self;
        let run = acquire(&mut self.slices, &mut self.mem, count, align, &self.policy);
        proof {
            let grown = with_fresh(before.slices@, &before.mem, &self.mem);
            Self::lemma_kept_grown_trans(old(self), &mid, &before);
            match run {
                Some(t) => {
                    assert(grown.fits(t.start as int, count as int, 1)) by {
                        assert(grown.fits(t.start as int, count as int, align as int));
                    }
                    Self::lemma_grown(&before, self, t.start as int, count as int);
                    if t.zeroed {
                        Self::lemma_run_words(&self.mem, t.start as int, count as int);
                    }
                },
                None => {
                    assert(grown.taken(0, 0) =~= grown);
                    Self::lemma_grown(&before, self, 0, 0);
                },
            }
            Self::lemma_kept_grown_trans(old(self), &before, self);
            assert(no_empty_page_but(self.mem.words(), self.model@, 0));
            lemma_more_free(sm, before.slices@, count as int, align as int);
            assert(with_fresh(before.slices@, &old(self).mem, &self.mem) =~= grown);
            lemma_requests_between(
                before.slices@,
                &old(self).mem,
                &before.mem,
                &self.mem,
                &self.mem,
                count as int,
                align as int,
                self.policy,
            );
            assert(slices_found(
                old(self),
                &before,
                self,
                count as int,
                align as int,
                top,
                run,
            ));
            if no_empty_page_but(old(self).mem.words(), old(self).model@, 0) {
                Self::lemma_idle_release(old(self), &before);
                lemma_free_as_before(old(self), &before);
                if run is Some {
                    lemma_same_fit(
                        with_fresh(sm, &old(self).mem, &self.mem),
                        grown,
                        run->0.start as int,
                        count as int,
                        align as int,
                    );
                }
            }
            lemma_growth_between(
                sm,
                before.slices@,
                &old(self).mem,
                &before.mem,
                &self.mem,
                &self.mem,
                count as int,
                align as int,
                self.policy,
            );
        }
        run
    }

    /// Slices of zeros, word by word.
    proof fn lemma_run_words(mem: &M, start: int, count: int)
        requires
            slices_zero(mem, start, count),
        ensures
            page::words_zero(mem.words(), start * SLICE_SIZE, (start + count) * SLICE_SIZE),
    {
        assert forall|x: int|
            start * SLICE_SIZE <= x < (start + count) * SLICE_SIZE && x % 8 == 0 implies
            #[trigger] mem.words()[x] == 0 by {
            assert(start <= slice_of(x) < start + count);
        }
    }

    /// A run has been taken from the map and nothing else has happened.
    proof fn lemma_taken(before: &Self, after: &Self, run: Run, count: int)
        requires
            before.inv(0, 0),
            before.initialized,
            *after == (Heap { slices: after.slices, ..*before }),
            after.slices.wf(),
            count >= 1,
            before.slices@.fits(run.start as int, count, 1),
            run.zeroed == before.slices@.run_zero(run.start as int, count),
            after.slices@ == before.slices@.taken(run.start as int, count),
        ensures
            after.inv_run(0, 0, run.start as int, count),
            after.kept_but_grown(before),
            run.zeroed ==> page::words_zero(
                after.mem.words(),
                run.start * SLICE_SIZE,
                (run.start + count) * SLICE_SIZE,
            ),
    {
        let sm = before.slices@;
        assert(with_fresh(sm, &before.mem, &after.mem) =~= sm);
        before.slices.lemma_wf_facts();
        assert(backed(after.slices@, &after.mem)) by {
            assert forall|a: int|
                #![trigger after.mem.words()[a]]
                a % 8 == 0 && after.slices@.zero.contains(slice_of(a)) implies after.mem.words()[a]
                == 0 by {
                assert(sm.zero.contains(slice_of(a)));
            }
        }
        Self::lemma_grown(before, after, run.start as int, count);
        if run.zeroed {
            assert forall|a: int|
                #![trigger after.mem.words()[a]]
                a % 8 == 0 && run.start <= slice_of(a) < run.start + count implies after.mem.words()[a]
                == 0 by {
                assert(sm.zero.contains(slice_of(a)));
            }
            Self::lemma_run_words(&after.mem, run.start as int, count);
        }
    }
}

impl<M: Memory, const WORDS: usize> Heap<M, WORDS> {
    /// After a step of page `p`, in which at most the block `b` starts or ends its life, the heap
    /// is in order; a page that is in the full queue may have room now.
    proof fn lemma_after_step(before: &Self, after: &Self, p: int, b: int, room: int)
        requires
            before.inv(0, 0),
            before.initialized,
            *after == (Heap { mem: after.mem, model: after.model, ..*before }),
            stored(&before.mem, &after.mem),
            before.model@.pages.contains(p),
            only_range_changed(
                before.mem.words(),
                after.mem.words(),
                p,
                page_bytes(header(before.mem.words(), p)),
            ),
            page_wf(after.mem.words(), p),
            list_fields_only(header(before.mem.words(), p), header(after.mem.words(), p)),
            after.model@.pages == before.model@.pages,
            after.model@.qs == before.model@.qs,
            after.model@.holder == before.model@.holder,
            forall|a: int|
                a != b ==> is_live(after.mem.words(), p, a) == #[trigger] is_live(
                    before.mem.words(),
                    p,
                    a,
                ),
            forall|a: int|
                a != b ==> (#[trigger] after.model@.blocks.dom().contains(a)
                    <==> before.model@.blocks.dom().contains(a)),
            forall|a: int|
                a != b && #[trigger] before.model@.blocks.dom().contains(a)
                    ==> after.model@.blocks[a] == before.model@.blocks[a],
            !is_run(before.model@, b),
            after.model@.blocks.dom().contains(b) ==> block_ok(
                after.mem.words(),
                after.model@,
                b,
            ) && !is_run(after.model@, b),
            is_live(after.mem.words(), p, b) ==> after.model@.blocks.dom().contains(b),
            forall|q: int|
                before.model@.pages.contains(q) && q != p ==> !#[trigger] is_live(
                    before.mem.words(),
                    q,
                    b,
                ),
            room == p || (room == 0 && !flagged_full(header(before.mem.words(), p))),
        ensures
            after.inv(0, room),
    {
        let w = before.mem.words();
        let v = after.mem.words();
        let g = before.model@;
        let k = after.model@;
        let sm = before.slices@;
        before.lemma_page_access(0, 0, p);
        let h = header(w, p);
        page::lemma_page_shape(p, h);
        lemma_page_step(w, v, g, k, sm, &before.mem, &after.mem, p, b);
        assert forall|x: int| p <= x < p + page_bytes(h) && x % 8 == 0 implies
            #[trigger] g.holder.dom().contains(slice_of(x)) by {
            reveal(pages_ok);
            assert(page_ok(w, g, p));
            assert(held(g, slice_of(x), p));
        }
        before.slices.lemma_wf_facts();
        lemma_step_backed(w, v, g, sm, &before.mem, &after.mem, p, page_bytes(h));
        lemma_full_all(w, before.queues@, g, room);
        assert(queues_ok(v, after.queues@, k, 0) && full_ok(v, k, room)) by {
            if room == p {
                lemma_queues_same(w, v, before.queues@, g, 0, p);
            } else {
                lemma_queues_step(w, v, before.queues@, g, p);
            }
            lemma_queues_model(v, after.queues@, g, k, 0, room);
        }
        assert(no_lost_slice(k, sm, &after.mem, 0, 0)) by {
            reveal(no_lost_slice);
        }
    }

    /// Link more blocks of a page that is not full.
    fn extend_page(&mut self, page: usize) -> (r: bool)
        requires
            old(self).inv(0, 0),
            old(self).initialized,
            old(self).model@.pages.contains(page as int),
            !flagged_full(header(old(self).mem.words(), page as int)),
        ensures
            final(self).inv(0, 0),
            final(self).kept(old(self)),
            *final(self) == (Heap { mem: final(self).mem, ..*old(self) }),
            r == (header(old(self).mem.words(), page as int).capacity < header(
                old(self).mem.words(),
                page as int,
            ).reserved),
            r ==> free_list(final(self).mem.words(), page as int).len() > 0,
            r ==> page::extended_page(old(self).mem.words(), final(self).mem.words(), page as int),
            !r ==> final(self).mem.words() == old(self).mem.words(),
            forall|q: int|
                #[trigger] old(self).model@.pages.contains(q) && q != page ==> header(
                    final(self).mem.words(),
                    q,
                ) == header(old(self).mem.words(), q) && free_list(final(self).mem.words(), q)
                    == free_list(old(self).mem.words(), q),
    {
        let ghost p: int = page as int;
        let ghost w = self.mem.words();
        let ghost g = self.model@;
        proof {
            self.lemma_page_access(0, 0, p);
        }
        let r = page::extend(page, &mut self.mem);
        proof {
            let v = self.mem.words();
            let h = header(w, p);
            if r {
                page::lemma_extend_live(w, v, p);
                old(self).lemma_no_block_zero();
                Self::lemma_after_step(old(self), self, p, 0, 0);
                lemma_page_step(
                    w,
                    v,
                    g,
                    g,
                    self.slices@,
                    &old(self).mem,
                    &self.mem,
                    p,
                    0,
                );
                assert forall|a: int, x: int|
                    #![trigger g.blocks.dom().contains(a), v[x]]
                    g.blocks.dom().contains(a) && a != 0 && a <= x < block_end(g, a) && x % 8
                        == 0 implies v[x] == w[x] by {
                    Self::lemma_page_words_kept(w, v, g, p, a, x);
                }
            } else {
                Self::lemma_after_same_words(old(self), self);
            }
        }
        r
    }

    /// Address 0 is no block.
    proof fn lemma_no_block_zero(&self)
        requires
            self.inv(0, 0),
        ensures
            !self.model@.blocks.dom().contains(0),
            forall|q: int| self.model@.pages.contains(q) ==> !#[trigger] is_live(
                self.mem.words(),
                q,
                0,
            ),
    {
        let w = self.mem.words();
        let g = self.model@;
        reveal(blocks_ok);
        if g.blocks.dom().contains(0) {
            assert(block_ok(w, g, 0));
        }
        assert forall|q: int| g.pages.contains(q) implies !#[trigger] is_live(w, q, 0) by {
            if is_live(w, q, 0) {
                reveal(no_lost_block);
                assert(g.blocks.dom().contains(0));
            }
        }
    }

    /// A block of another page, or a run, is out of reach of a step inside page `p`; a live block
    /// of page `p` is untouched if its words are.
    proof fn lemma_page_words_kept(
        w: Map<int, u64>,
        v: Map<int, u64>,
        g: HeapModel,
        p: int,
        a: int,
        x: int,
    )
        requires
            pages_ok(w, g),
            blocks_ok(w, g),
            g.pages.contains(p),
            g.blocks.dom().contains(a),
            a <= x < block_end(g, a),
            x % 8 == 0,
            only_range_changed(w, v, p, page_bytes(header(w, p))),
            is_live(w, p, a) ==> (a <= x < a + header(w, p).block_size ==> v[x] == w[x]),
        ensures
            v[x] == w[x],
    {
        lemma_block_words(w, g, a, x);
        reveal(blocks_ok);
        reveal(pages_ok);
        assert(block_ok(w, g, a));
        lemma_home_range(w, g, p);
        page::lemma_page_shape(p, header(w, p));
        if p <= x < p + page_bytes(header(w, p)) {
            assert(slice_of(p) <= slice_of(x) < slice_of(p + page_bytes(header(w, p))));
            assert(page_ok(w, g, p));
            assert(held(g, slice_of(x), p));
        }
    }

    /// Equal words, equal heap.
    proof fn lemma_after_same_words(before: &Self, after: &Self)
        requires
            before.inv(0, 0),
            before.initialized,
            *after == (Heap { mem: after.mem, ..*before }),
            stored(&before.mem, &after.mem),
            after.mem.words() == before.mem.words(),
        ensures
            after.inv(0, 0),
            after.kept(before),
    {
        let w = before.mem.words();
        let g = before.model@;
        assert(holders_ok(w, g, after.slices@, &after.mem)) by {
            reveal(holders_ok);
            assert forall|s: int| #[trigger] g.holder.dom().contains(s) implies holder_ok(
                w,
                g,
                after.slices@,
                &after.mem,
                s,
            ) by {
                assert(holder_ok(w, g, before.slices@, &before.mem, s));
            }
        }
        assert(no_lost_slice(g, after.slices@, &after.mem, 0, 0)) by {
            reveal(no_lost_slice);
        }
        assert(backed(after.slices@, &after.mem)) by {
            assert forall|a: int|
                #![trigger after.mem.words()[a]]
                a % 8 == 0 && after.slices@.zero.contains(slice_of(a)) implies after.mem.words()[a]
                == 0 by {
                assert(before.mem.words()[a] == 0);
            }
        }
    }
}

/// Without an exception every member of the full queue is full.
proof fn lemma_full_all(w: Map<int, u64>, queues: Seq<PageQueue>, g: HeapModel, room: int)
    requires
        queues_ok(w, queues, g, 0),
        full_ok(w, g, 0),
    ensures
        full_ok(w, g, room),
        forall|i: int|
            0 <= i < g.qs[FULL_QUEUE as int].len() ==> (#[trigger] header(
                w,
                g.qs[FULL_QUEUE as int][i],
            )).used == header(w, g.qs[FULL_QUEUE as int][i]).reserved,
{
    reveal(full_ok);
    assert forall|i: int| 0 <= i < g.qs[FULL_QUEUE as int].len() implies (#[trigger] header(
        w,
        g.qs[FULL_QUEUE as int][i],
    )).used == header(w, g.qs[FULL_QUEUE as int][i]).reserved by {
        lemma_queue_member(w, queues, g, 0, FULL_QUEUE as int, i);
    }
}

/// A step of a page that is not in the full queue is no matter to the queues.
proof fn lemma_queues_step(
    w: Map<int, u64>,
    v: Map<int, u64>,
    queues: Seq<PageQueue>,
    g: HeapModel,
    p: int,
)
    requires
        queues_ok(w, queues, g, 0),
        full_ok(w, g, 0),
        !flagged_full(header(w, p)),
        header(w, p).bin <= MAX_BINNED_BIN,
        list_fields_only(header(w, p), header(v, p)),
        forall|q: int|
            #[trigger] g.pages.contains(q) && q != p ==> header(v, q) == header(w, q),
    ensures
        queues_ok(v, queues, g, 0),
        full_ok(v, g, 0),
{
    lemma_full_all(w, queues, g, p);
    lemma_queues_same(w, v, queues, g, 0, p);
    assert(full_ok(v, g, 0)) by {
        reveal(full_ok);
        assert forall|i: int|
            0 <= i < g.qs[FULL_QUEUE as int].len() && g.qs[FULL_QUEUE as int][i] != 0 implies (
        #[trigger] header(v, g.qs[FULL_QUEUE as int][i])).used == header(
            v,
            g.qs[FULL_QUEUE as int][i],
        ).reserved by {
            lemma_queue(w, queues, g, 0, FULL_QUEUE as int);
            lemma_queue_member(w, queues, g, 0, FULL_QUEUE as int, i);
            assert(header(w, g.qs[FULL_QUEUE as int][i]).used == header(
                w,
                g.qs[FULL_QUEUE as int][i],
            ).reserved);
        }
    }
}

/// The queues do not depend on the blocks or the holders.
proof fn lemma_queues_model(
    w: Map<int, u64>,
    queues: Seq<PageQueue>,
    g: HeapModel,
    k: HeapModel,
    out: int,
    room: int,
)
    requires
        queues_ok(w, queues, g, out),
        full_ok(w, g, room),
        k.pages == g.pages,
        k.qs == g.qs,
    ensures
        queues_ok(w, queues, k, out),
        full_ok(w, k, room),
{
    assert(queues_ok(w, queues, k, out)) by {
        lemma_queue(w, queues, g, out, 0);
        assert forall|j: int| 0 <= j < QUEUE_COUNT implies queue_ok(
            w,
            queues[j],
            #[trigger] k.qs[j],
        ) by {
            lemma_queue(w, queues, g, out, j);
        }
        assert forall|j: int, i: int|
            0 <= j < QUEUE_COUNT && 0 <= i < k.qs[j].len() implies member_ok(
            w,
            k,
            j,
            out,
            #[trigger] k.qs[j][i],
        ) by {
            lemma_queue_member(w, queues, g, out, j, i);
        }
        assert forall|q: int| #[trigger] k.pages.contains(q) && q != out implies k.qs[home(
            header(w, q),
        )].contains(q) by {
            lemma_page_queued(w, queues, g, out, q);
        }
        reveal(queues_ok);
    }
    reveal(full_ok);
}

/// The model with one more page.
pub open spec fn with_page(g: HeapModel, p: int, n: int) -> HeapModel {
    HeapModel {
        pages: g.pages.insert(p),
        holder: g.holder.union_prefer_right(
            Map::new(|s: int| slice_of(p) <= s < slice_of(p) + n, |s: int| p),
        ),
        ..g
    }
}

impl<M: Memory, const WORDS: usize> Heap<M, WORDS> {
    /// A fresh page over slices that were pending is in no queue yet, and otherwise the heap is
    /// in order.
    proof fn lemma_page_added(before: &Self, after: &Self, p: int, bin: u8, zeroed: bool)
        requires
            1 <= bin <= MAX_BINNED_BIN,
            p > 0,
            p % kind_page_size(bin_kind(bin as int)) == 0,
            p + kind_page_size(bin_kind(bin as int)) <= usize::MAX,
            before.inv_run(
                0,
                0,
                slice_of(p),
                kind_page_size(bin_kind(bin as int)) / SLICE_SIZE as int,
            ),
            before.initialized,
            *after == (Heap { mem: after.mem, model: after.model, ..*before }),
            stored(&before.mem, &after.mem),
            page::only_header_changed(before.mem.words(), after.mem.words(), p),
            header(after.mem.words(), p) == page::fresh_header(bin, zeroed),
            page_wf(after.mem.words(), p),
            free_list(after.mem.words(), p) == Seq::<int>::empty(),
            after.model@ == with_page(
                before.model@,
                p,
                kind_page_size(bin_kind(bin as int)) / SLICE_SIZE as int,
            ),
        ensures
            after.inv(p, 0),
            contents_kept(before.mem.words(), after.mem.words(), before.model@, 0),
            !before.model@.pages.contains(p),
            forall|q: int| #[trigger]
                before.model@.pages.contains(q) ==> header(after.mem.words(), q) == header(
                    before.mem.words(),
                    q,
                ) && free_list(after.mem.words(), q) == free_list(before.mem.words(), q),
    {
        let w = before.mem.words();
        let v = after.mem.words();
        let g = before.model@;
        let k = after.model@;
        let sm = before.slices@;
        let n: int = kind_page_size(bin_kind(bin as int)) / SLICE_SIZE as int;
        let first: int = slice_of(p);
        let h = header(v, p);
        page::lemma_page_shape(p, h);
        before.slices.lemma_wf_facts();
        lemma_flag_bit();
        reveal(pages_ok);
        reveal(holders_ok);
        assert(before.mem.owns(first));
        assert(!g.pages.contains(p)) by {
            if g.pages.contains(p) {
                assert(page_ok(w, g, p));
                page::lemma_page_shape(p, header(w, p));
                assert(held(g, first, p));
            }
        }
        // No word of the new header lies in a slice that is in use.
        assert forall|x: int| p <= x < p + HEADER_BYTES implies slice_of(x) == first by {}
        assert forall|s: int| #[trigger] g.holder.dom().contains(s) implies !(first <= s < first
            + n) by {
            if first <= s < first + n {
                assert(before.mem.owns(s));
            }
        }
        assert forall|q: int| #[trigger] g.pages.contains(q) implies header(v, q) == header(w, q)
            && page_wf(v, q) && free_list(v, q) == free_list(w, q) && page_ok(v, k, q) by {
            assert(page_ok(w, g, q));
            lemma_home_range(w, g, q);
            let hq = header(w, q);
            page::lemma_page_shape(q, hq);
            assert forall|x: int| q <= x < q + page_bytes(hq) && x % 8 == 0 implies #[trigger] v[x]
                == w[x] by {
                assert(slice_of(q) <= slice_of(x) < slice_of(q + page_bytes(hq)));
                assert(held(g, slice_of(x), q));
            }
            page::lemma_page_frame(w, v, q, free_list(w, q));
            page::lemma_free_list(v, q, free_list(w, q));
            assert forall|s: int|
                slice_of(q) <= s < slice_of(q + page_bytes(header(v, q))) implies #[trigger] held(
                k,
                s,
                q,
            ) by {
                assert(held(g, s, q));
            }
        }
        assert forall|q: int| #[trigger] k.pages.contains(q) implies page_ok(v, k, q) by {
            if q == p {
                assert forall|s: int|
                    slice_of(p) <= s < slice_of(p + page_bytes(h)) implies #[trigger] held(
                    k,
                    s,
                    p,
                ) by {}
            }
        }
        assert(queues_ok(v, before.queues@, k, p) && full_ok(v, k, 0)) by {
            lemma_queues_same(w, v, before.queues@, g, 0, 0);
            lemma_queue(v, before.queues@, g, 0, 0);
            assert forall|j: int| 0 <= j < QUEUE_COUNT implies queue_ok(
                v,
                before.queues@[j],
                #[trigger] k.qs[j],
            ) by {
                lemma_queue(v, before.queues@, g, 0, j);
            }
            assert forall|j: int, i: int|
                0 <= j < QUEUE_COUNT && 0 <= i < k.qs[j].len() implies member_ok(
                v,
                k,
                j,
                p,
                #[trigger] k.qs[j][i],
            ) by {
                lemma_queue_member(v, before.queues@, g, 0, j, i);
            }
            assert forall|q: int| #[trigger] k.pages.contains(q) && q != p implies k.qs[home(
                header(v, q),
            )].contains(q) by {
                assert(g.pages.contains(q));
                lemma_home_range(w, g, q);
                lemma_page_queued(v, before.queues@, g, 0, q);
            }
            reveal(queues_ok);
            reveal(full_ok);
        }
        assert(blocks_ok(v, k)) by {
            reveal(blocks_ok);
            assert forall|a: int| #[trigger] k.blocks.dom().contains(a) implies block_ok(v, k, a) by {
                assert(block_ok(w, g, a));
                match serving(g.blocks[a]) {
                    Class::Bin(c) => {
                        let q: int = page_of(bin_kind(c as int), a);
                        assert(g.pages.contains(q));
                    },
                    Class::Huge => {
                        assert(held(g, slice_of(a), a));
                        assert forall|s: int|
                            slice_of(a) <= s < slice_of(a) + run_slices(
                                k.blocks[a].size() as int,
                            ) implies #[trigger] held(k, s, a) by {
                            assert(held(g, s, a));
                        }
                    },
                }
            }
        }
        assert(no_lost_block(v, k)) by {
            reveal(no_lost_block);
            assert forall|q: int, a: int|
                k.pages.contains(q) && #[trigger] is_live(v, q, a) implies k.blocks.dom().contains(
                a,
            ) by {
                if q != p {
                    assert(g.pages.contains(q));
                    assert(is_live(w, q, a));
                }
            }
        }
        assert forall|s: int| #[trigger] k.holder.dom().contains(s) implies holder_ok(
            v,
            k,
            sm,
            &after.mem,
            s,
        ) by {
            if first <= s < first + n {
                assert(before.mem.owns(s));
            } else {
                assert(g.holder.dom().contains(s));
                assert(holder_ok(w, g, sm, &before.mem, s));
                let q: int = g.holder[s];
                if g.pages.contains(q) {
                    assert(header(v, q) == header(w, q));
                } else {
                    assert(is_run(g, q));
                    if q == p {
                        reveal(blocks_ok);
                        assert(block_ok(w, g, p));
                        assert(held(g, slice_of(p), p));
                    }
                }
            }
        }
        assert(backed(sm, &after.mem)) by {
            assert forall|a: int|
                #![trigger after.mem.words()[a]]
                a % 8 == 0 && sm.zero.contains(slice_of(a)) implies after.mem.words()[a] == 0 by {
                if p <= a < p + HEADER_BYTES {
                    assert(before.mem.owns(slice_of(a)));
                    assert(sm.free.contains(slice_of(a)));
                }
                assert(before.mem.words()[a] == 0);
            }
        }
        assert(no_lost_slice(k, sm, &after.mem, 0, 0)) by {
            reveal(no_lost_slice);
            assert forall|s: int|
                #[trigger] after.mem.owns(s) && sm.base <= s < sm.usable_limit() implies
                sm.free.contains(s) || k.holder.dom().contains(s) by {
                assert(before.mem.owns(s));
            }
        }
        assert forall|a: int, x: int|
            #![trigger g.blocks.dom().contains(a), v[x]]
            g.blocks.dom().contains(a) && a != 0 && a <= x < block_end(g, a) && x % 8
                == 0 implies v[x] == w[x] by {
            lemma_block_words(w, g, a, x);
            assert(g.holder.dom().contains(slice_of(x)));
        }
    }

    /// Acquire slices for a new page of `bin`, initialise it, and put it at the front of its
    /// queue with an initial free list.
    #[verifier::spinoff_prover]
    #[verifier::rlimit(40)]
    fn fresh_page(&mut self, bin: u8) -> (r: Option<usize>)
        requires
            old(self).inv(0, 0),
            old(self).initialized,
            1 <= bin <= MAX_BINNED_BIN,
        ensures
            final(self).inv(0, 0),
            final(self).kept_but_grown(old(self)),
            ({
                let n = kind_page_size(bin_kind(bin as int)) / SLICE_SIZE as int;
                &&& r is None ==> !final(self).slices@.has_fit(n, n) && acquire_refused(
                    old(self).slices@.usable_limit(),
                    &old(self).mem,
                    &final(self).mem,
                    n,
                    n,
                )
                &&& old(self).slices@.has_fit(n, n) ==> r is Some && !grew(
                    &old(self).mem,
                    &final(self).mem,
                )
                &&& no_empty_page_but(old(self).mem.words(), old(self).model@, 0) ==> match r {
                    Some(page) => {
                        &&& with_fresh(
                            old(self).slices@,
                            &old(self).mem,
                            &final(self).mem,
                        ).lowest_fit(slice_of(page as int), n, n)
                        &&& final(self).model@.qs == old(self).model@.qs.update(
                            bin as int,
                            seq![page as int] + old(self).model@.qs[bin as int],
                        )
                        &&& final(self).model@.pages == old(self).model@.pages.insert(page as int)
                    },
                    None => {
                        &&& final(self).model@.qs == old(self).model@.qs
                        &&& final(self).model@.pages == old(self).model@.pages
                    },
                }
                &&& exists|mid: Heap<M, WORDS>| #[trigger]
                    fresh_page_from(old(self), &mid, final(self), bin as int, r, 0)
                &&& r is Some ==> free_list(final(self).mem.words(), r->0 as int)[0] == r->0
                    + first_block(bin_bytes(bin as int))
            }),
            acquire_growth(
                old(self).slices@,
                &old(self).mem,
                &final(self).mem,
                kind_page_size(bin_kind(bin as int)) / SLICE_SIZE as int,
                kind_page_size(bin_kind(bin as int)) / SLICE_SIZE as int,
                old(self).policy,
            ),
            r matches Some(page) ==> {
                let v = final(self).mem.words();
                &&& final(self).model@.pages.contains(page as int)
                &&& header(v, page as int).bin == bin
                &&& !flagged_full(header(v, page as int))
                &&& free_list(v, page as int).len() > 0
            },
            grew(&old(self).mem, &final(self).mem) ==> no_empty_page_but(
                final(self).mem.words(),
                final(self).model@,
                if r is Some {
                    r->0 as int
                } else {
                    0
                },
            ),
    {
        let kind = kind_of_bin(bin);
        let n: usize = kind.page_size() / SLICE_SIZE;
        proof {
            assert(is_pow2(1) && is_pow2(4) && is_pow2(64)) by {
                reveal_with_fuel(is_pow2, 7);
            }
            lemma_bin_table();
            if bin < 45 {
                lemma_bin_bytes_increasing(bin as int, 45);
            }
        }
        let acquired = self.acquire_run(n, n, false);
        let ghost mid: Heap<M, WORDS> = choose|mid: Heap<M, WORDS>| #[trigger]
            slices_found(old(self), &mid, self, n as int, n as int, false, acquired);
        let run = match acquired {
            Some(run) => run,
            None => {
                proof {
                    assert(fresh_page_from(old(self), &mid, self, bin as int, None, 0));
                }
                return None;
            },
        };
        let ghost before = *self;
        let ghost start: int = run.start as int;
        proof {
            assert(self.mem.owns(start));
            assert(self.mem.owns(start + n - 1));
            lemma_slice_addr(&self.mem, start);
            lemma_slice_addr(&self.mem, start + n - 1);
        }
        let addr: usize = run.start * SLICE_SIZE;
        let ghost p: int = addr as int;
        proof {
            assert(slice_of(p) == start);
            assert(p % kind_page_size(kind) == 0) by {
                assert(start % n as int == 0);
                vstd::arithmetic::div_mod::lemma_fundamental_div_mod(start, n as int);
                let q: int = start / n as int;
                assert(p == q * (n * SLICE_SIZE)) by (nonlinear_arith)
                    requires
                        p == start * SLICE_SIZE,
                        start == n as int * q,
                ;
                vstd::arithmetic::div_mod::lemma_mod_multiples_basic(q, n * SLICE_SIZE);
            }
            assert(owns_bytes(&self.mem, p, kind_page_size(kind))) by {
                assert(slice_of(p + kind_page_size(kind)) == start + n);
            }
            assert((start + n) * SLICE_SIZE == p + kind_page_size(kind));
        }
        let page = page::init(&mut self.mem, addr, kind, bin, run.zeroed);
        self.model = Ghost(with_page(self.model@, p, n as int));
        proof {
            Self::lemma_page_added(&before, self, p, bin, run.zeroed);
            lemma_flag_bit();
        }
        let ghost added = *self;
        self.push_front(bin as usize, page, Ghost(0));
        proof {
            let v = self.mem.words();
            assert(links_only(header(added.mem.words(), p), header(v, p)));
            self.lemma_page_access(0, 0, p);
            crate::bins::law_page_geometry(bin as int);
            Self::lemma_kept_page(old(self), &before, &added, self);
        }
        let ghost pushed = *self;
        let _ = self.extend_page(page);
        proof {
            lemma_growth_between(
                old(self).slices@,
                old(self).slices@,
                &old(self).mem,
                &old(self).mem,
                &before.mem,
                &self.mem,
                n as int,
                n as int,
                self.policy,
            );
            let v = self.mem.words();
            let h = header(pushed.mem.words(), p);
            assert(header_ok(h) && h.capacity == 0);
            assert(free_list(v, p)[0] == block_addr(p, h, 0));
            assert(with_fresh(old(self).slices@, &old(self).mem, &self.mem) =~= with_fresh(
                old(self).slices@,
                &old(self).mem,
                &before.mem,
            ));
            assert(with_fresh(mid.slice_view(), &old(self).mem, &self.mem) =~= with_fresh(
                mid.slice_view(),
                &old(self).mem,
                &before.mem,
            ));
            assert forall|q: int| #[trigger] mid@.pages.contains(q) implies page_kept(
                mid.words(),
                v,
                q,
            ) by {
                assert(before.model@.pages.contains(q));
                assert(added.model@.pages.contains(q));
                assert(pushed.model@.pages.contains(q));
                lemma_links_labels(added.mem.words(), pushed.mem.words(), added.model@);
                lemma_relabelled_page(added.mem.words(), pushed.mem.words(), added.model@, q);
                assert(links_only(header(added.mem.words(), q), header(pushed.mem.words(), q)));
            }
            lemma_requests_between(
                mid.slice_view(),
                &old(self).mem,
                &old(self).mem,
                &before.mem,
                &self.mem,
                n as int,
                n as int,
                old(self).policy,
            );
            let m = with_fresh(mid.slice_view(), &old(self).mem, &self.mem);
            let z = fresh_header(bin, m.run_zero(start, n as int));
            assert(h == (Page { next: h.next, prev: h.prev, ..z }));
            assert(extension(h) == extension(z));
            assert(block_batch(p, h, 0, extension(h)) =~= block_batch(p, z, 0, extension(z)));
            assert(free_list(v, p) =~= block_batch(p, z, 0, extension(z)).skip(0));
            assert(fresh_page_from(old(self), &mid, self, bin as int, Some(page), 0));
            Self::lemma_kept_grown_trans(old(self), &pushed, self);
            if grew(&old(self).mem, &self.mem) {
                let s: int = choose|s: int| #[trigger] self.mem.owns(s) && !old(self).mem.owns(s);
                assert(before.mem.owns(s));
                assert(grew(&old(self).mem, &before.mem));
                assert forall|q: int| #[trigger] self.model@.pages.contains(q) && q
                    != p implies header(self.mem.words(), q).used > 0 by {
                    assert(before.model@.pages.contains(q));
                    lemma_home_range(before.mem.words(), before.model@, q);
                    assert(added.model@.pages.contains(q));
                    assert(pushed.model@.pages.contains(q));
                    assert(links_only(
                        header(added.mem.words(), q),
                        header(pushed.mem.words(), q),
                    ));
                }
            }
        }
        Some(page)
    }

    /// Adding a page and linking it are no matter to callers.
    proof fn lemma_kept_page(a: &Self, b: &Self, c: &Self, d: &Self)
        requires
            b.kept_but_grown(a),
            *c == (Heap { mem: c.mem, model: c.model, ..*b }),
            stored(&b.mem, &c.mem),
            c.model@.blocks == b.model@.blocks,
            contents_kept(b.mem.words(), c.mem.words(), b.model@, 0),
            d.settings_of(c),
            stored(&c.mem, &d.mem),
            d.model@.blocks == c.model@.blocks,
            contents_kept(c.mem.words(), d.mem.words(), c.model@, 0),
        ensures
            d.kept_but_grown(a),
    {
        assert(c.kept(b));
        Self::lemma_kept_grown_trans(a, b, c);
        Self::lemma_kept_labels(c, d);
        Self::lemma_kept_grown_trans(a, c, d);
    }

    /// Make a page the first of its queue.
    fn move_to_front(&mut self, qi: usize, page: usize)
        requires
            old(self).inv(0, 0),
            qi < QUEUE_COUNT,
            qi != FULL_QUEUE,
            old(self).model@.qs[qi as int].contains(page as int),
        ensures
            final(self).inv(0, 0),
            final(self).kept(old(self)),
            final(self).settings_of(old(self)),
            final(self).model@.pages == old(self).model@.pages,
            final(self).model@.qs == old(self).model@.qs.update(
                qi as int,
                fronted(old(self).model@.qs[qi as int], page as int),
            ),
            relinked(old(self).mem.words(), final(self).mem.words(), old(self).model@),
    {
        let ghost w = self.mem.words();
        let ghost g = self.model@;
        let ghost l = g.qs[qi as int];
        proof {
            lemma_queue(w, self.queues@, g, 0, qi as int);
            lemma_queue_member(w, self.queues@, g, 0, qi as int, l.index_of(page as int));
        }
        if self.queues[qi].first == page {
            proof {
                lemma_index_of(l, 0);
                assert(fronted(l, page as int) =~= l);
                assert(g.qs.update(qi as int, l) =~= g.qs);
            }
            return;
        }
        self.remove(qi, page, Ghost(0));
        let ghost mid = *self;
        proof {
            assert(links_only(header(w, page as int), header(self.mem.words(), page as int)));
        }
        self.push_front(qi, page, Ghost(0));
        proof {
            lemma_relinked_trans(w, mid.mem.words(), self.mem.words(), g);
            Self::lemma_kept_labels(old(self), &mid);
            Self::lemma_kept_labels(&mid, self);
            Self::lemma_kept_trans(old(self), &mid, self);
        }
    }

    /// Park a page without room in the full queue. A parked page is not retired.
    fn move_to_full(&mut self, qi: usize, page: usize)
        requires
            old(self).inv(0, 0),
            qi < QUEUE_COUNT,
            old(self).model@.qs[qi as int].contains(page as int),
            header(old(self).mem.words(), page as int).used == header(
                old(self).mem.words(),
                page as int,
            ).reserved,
            qi != FULL_QUEUE,
        ensures
            final(self).inv(0, 0),
            final(self).kept(old(self)),
            final(self).settings_of(old(self)),
            final(self).model@.pages == old(self).model@.pages,
            final(self).model@.qs == old(self).model@.qs.update(
                qi as int,
                old(self).model@.qs[qi as int].remove(
                    old(self).model@.qs[qi as int].index_of(page as int),
                ),
            ).update(
                FULL_QUEUE as int,
                old(self).model@.qs[FULL_QUEUE as int].push(page as int),
            ),
            relabelled(old(self).mem.words(), final(self).mem.words(), old(self).model@),
            forall|q: int| #[trigger]
                old(self).model@.pages.contains(q) ==> free_list(final(self).mem.words(), q)
                    == free_list(old(self).mem.words(), q),
            header(final(self).mem.words(), page as int).flags == 1,
            header(final(self).mem.words(), page as int).retire_expire == 0,
            forall|q: int| #[trigger]
                old(self).model@.pages.contains(q) && q != page ==> links_only(
                    header(old(self).mem.words(), q),
                    header(final(self).mem.words(), q),
                ),
    {
        let ghost w = self.mem.words();
        let ghost g = self.model@;
        let ghost l = g.qs[qi as int];
        let ghost p: int = page as int;
        proof {
            lemma_queue(w, self.queues@, g, 0, qi as int);
            lemma_queue_member(w, self.queues@, g, 0, qi as int, l.index_of(p));
            self.lemma_page_access(0, 0, p);
        }
        self.remove(qi, page, Ghost(0));
        let ghost mid = *self;
        proof {
            assert(links_only(header(w, p), header(self.mem.words(), p)));
        }
        self.set_full(page, true, Ghost(0));
        let ghost flagged = *self;
        proof {
            lemma_flag_bit();
        }
        self.push_back(FULL_QUEUE, page, Ghost(0));
        proof {
            let v = self.mem.words();
            assert(links_only(header(flagged.mem.words(), p), header(v, p)));
            lemma_links_labels(w, mid.mem.words(), g);
            lemma_links_labels(flagged.mem.words(), v, g);
            lemma_relabelled_trans(w, mid.mem.words(), flagged.mem.words(), g);
            lemma_relabelled_trans(w, flagged.mem.words(), v, g);
            Self::lemma_kept_labels(old(self), &mid);
            Self::lemma_kept_labels(&mid, &flagged);
            Self::lemma_kept_labels(&flagged, self);
            Self::lemma_kept_trans(old(self), &mid, &flagged);
            Self::lemma_kept_trans(old(self), &flagged, self);
            assert forall|q: int| #[trigger] g.pages.contains(q) implies free_list(v, q)
                == free_list(w, q) by {
                lemma_relabelled_page(w, v, g, q);
            }
            assert forall|q: int| #[trigger] g.pages.contains(q) && q != p implies links_only(
                header(w, q),
                header(v, q),
            ) by {
                assert(links_only(header(w, q), header(mid.mem.words(), q)));
                assert(links_only(header(flagged.mem.words(), q), header(v, q)));
            }
        }
    }
}

/// A change of links is a change of labels.
proof fn lemma_links_labels(w: Map<int, u64>, v: Map<int, u64>, g: HeapModel)
    requires
        relinked(w, v, g),
    ensures
        relabelled(w, v, g),
{
    assert forall|p: int| #[trigger] g.pages.contains(p) implies same_but_heap_fields(
        header(w, p),
        header(v, p),
    ) by {
        assert(links_only(header(w, p), header(v, p)));
    }
}

impl<M: Memory, const WORDS: usize> Heap<M, WORDS> {
    /// Search queue `qi` for the page to allocate from (see [`search`]): its address, or 0 if no
    /// page of the queue has room.
    #[verifier::spinoff_prover]
    #[verifier::rlimit(40)]
    fn choose_page(&mut self, qi: usize) -> (candidate: usize)
        requires
            old(self).inv(0, 0),
            old(self).initialized,
            qi < FULL_QUEUE,
        ensures
            final(self).inv(0, 0),
            final(self).kept(old(self)),
            slices_returned(old(self), final(self)),
            relabelled(old(self).mem.words(), final(self).mem.words(), old(self).model@),
            final(self).retired_min == old(self).retired_min,
            final(self).retired_max == old(self).retired_max,
            forall|p: int| #[trigger]
                final(self).model@.pages.contains(p) ==> parked_or_kept(
                    header(old(self).mem.words(), p),
                    header(final(self).mem.words(), p),
                    search(
                        old(self).mem.words(),
                        old(self).model@.qs[qi as int],
                    ).parked.contains(p),
                ),
            ({
                let s = search(old(self).mem.words(), old(self).model@.qs[qi as int]);
                &&& candidate == s.candidate
                &&& candidate == 0 ==> s.queue == Seq::<int>::empty() && s.released
                    == Set::<int>::empty()
                &&& candidate != 0 ==> s.queue.contains(candidate as int) && has_room(
                    header(old(self).mem.words(), candidate as int),
                )
                &&& final(self).model@.qs == old(self).model@.qs.update(
                    qi as int,
                    s.queue,
                ).update(FULL_QUEUE as int, old(self).model@.qs[FULL_QUEUE as int] + s.parked)
                &&& final(self).model@.pages == old(self).model@.pages.difference(s.released)
            }),
    {
        let ghost w0 = self.mem.words();
        let ghost g0 = self.model@;
        let ghost l0 = g0.qs[qi as int];
        let ghost full0 = g0.qs[FULL_QUEUE as int];
        // Where the search has come to, the number of pages met, and how many more may be.
        let ghost mut s = Search::start();
        let ghost mut at: int = 0;
        let ghost mut left: int = MAX_CANDIDATES as int;
        proof {
            lemma_queue(w0, self.queues@, g0, 0, qi as int);
            assert(relabelled(w0, w0, g0));
            lemma_nothing_returned(old(self), self);
            assert(s.queue + l0.skip(0) =~= l0);
            assert(full0 + s.parked =~= full0);
            assert(g0.qs.update(qi as int, l0).update(FULL_QUEUE as int, full0) =~= g0.qs);
            assert(g0.pages.difference(s.released) =~= g0.pages);
        }
        let mut candidate: usize = 0;
        let mut limit: usize = MAX_CANDIDATES;
        let mut done: bool = false;
        let mut cur: usize = self.queues[qi].first;
        while cur != 0 && !done
            invariant
                self.inv(0, 0),
                self.initialized,
                self.kept(old(self)),
                slices_returned(old(self), self),
                qi < FULL_QUEUE,
                w0 == old(self).mem.words(),
                g0 == old(self).model@,
                old(self).inv(0, 0),
                l0 == g0.qs[qi as int],
                full0 == g0.qs[FULL_QUEUE as int],
                relabelled(w0, self.mem.words(), g0),
                self.retired_min == old(self).retired_min,
                self.retired_max == old(self).retired_max,
                forall|p: int| #[trigger]
                    self.model@.pages.contains(p) ==> parked_or_kept(
                        header(w0, p),
                        header(self.mem.words(), p),
                        s.parked.contains(p),
                    ),
                0 <= at <= l0.len(),
                limit == max(left, 0),
                left <= MAX_CANDIDATES,
                candidate == s.candidate,
                self.model@.qs == g0.qs.update(qi as int, s.queue + l0.skip(at)).update(
                    FULL_QUEUE as int,
                    full0 + s.parked,
                ),
                self.model@.pages == g0.pages.difference(s.released),
                !done ==> cur == if at < l0.len() {
                    l0[at]
                } else {
                    0
                },
                !done ==> search(w0, l0) == search_on(w0, l0, at, s, left),
                done ==> search(w0, l0) == s.stop(l0.skip(at)),
                candidate == 0 ==> s.queue == Seq::<int>::empty() && s.released
                    == Set::<int>::empty() && !done,
                candidate != 0 ==> s.queue.contains(candidate as int) && has_room(
                    header(w0, candidate as int),
                ),
            decreases
                    l0.len() - at + if done {
                        0int
                    } else {
                        1int
                    },
        {
            let ghost before = *self;
            let ghost w = self.mem.words();
            let ghost g = self.model@;
            let ghost l = g.qs[qi as int];
            let ghost k: int = s.queue.len() as int;
            proof {
                lemma_queue(w, self.queues@, g, 0, qi as int);
                lemma_queue(w0, old(self).queues@, g0, 0, qi as int);
                assert(at < l0.len());
                assert(l[k] == l0[at]);
                lemma_queue_member(w0, old(self).queues@, g0, 0, qi as int, at);
                lemma_queue_member(w, self.queues@, g, 0, qi as int, k);
                self.lemma_page_access(0, 0, cur as int);
                assert(header(w, l[k]).next == next_in(l, k));
                assert(k + 1 < l.len() ==> l[k + 1] == l0[at + 1]);
                lemma_index_of(l, k);
                assert(same_but_heap_fields(header(w0, cur as int), header(w, cur as int)));
                lemma_relabelled_page(w0, w, g0, cur as int);
                lemma_home_range(w, g, cur as int);
                assert(l0.skip(at).skip(1) =~= l0.skip(at + 1));
            }
            let h = page::read(cur, &self.mem);
            let next: usize = h.next;
            let available: bool = page::has_free(cur, &self.mem);
            let expandable: bool = page::is_expandable(cur, &self.mem);
            proof {
                assert((available || expandable) == has_room(h));
                assert(has_room(h) == has_room(header(w0, cur as int)));
            }
            if !available && !expandable {
                self.move_to_full(qi, cur);
                proof {
                    Self::lemma_kept_trans(old(self), &before, self);
                    lemma_relabelled_further(w0, w, self.mem.words(), g0, g);
                    assert forall|p: int| #[trigger] g.pages.contains(p) implies header(
                        self.mem.words(),
                        p,
                    ).bin == header(w, p).bin by {
                        assert(same_but_heap_fields(header(w, p), header(self.mem.words(), p)));
                    }
                    lemma_nothing_returned(&before, self);
                    lemma_returned_trans(old(self), &before, self);
                    assert(l.remove(k) =~= s.queue + l0.skip(at + 1));
                    assert((full0 + s.parked).push(cur as int) =~= full0 + s.park(cur as int).parked);
                    assert forall|p: int| #[trigger]
                        self.model@.pages.contains(p) implies parked_or_kept(
                        header(w0, p),
                        header(self.mem.words(), p),
                        s.park(cur as int).parked.contains(p),
                    ) by {
                        assert(parked_or_kept(header(w0, p), header(w, p), s.parked.contains(p)));
                        let t = s.park(cur as int).parked;
                        assert(t[s.parked.len() as int] == cur);
                        if t.contains(p) && p != cur {
                            assert(s.parked[t.index_of(p)] == p);
                        }
                        if s.parked.contains(p) {
                            assert(t[s.parked.index_of(p)] == p);
                        }
                    }
                    s = s.park(cur as int);
                    at = at + 1;
                    left = left - 1;
                    assert(self.model@.qs =~= g0.qs.update(
                        qi as int,
                        s.queue + l0.skip(at),
                    ).update(FULL_QUEUE as int, full0 + s.parked));
                }
                if limit > 0 {
                    limit = limit - 1;
                }
            } else {
                if candidate == 0 {
                    candidate = cur;
                    limit = MAX_CANDIDATES;
                    proof {
                        left = MAX_CANDIDATES as int;
                    }
                } else {
                    let ghost j: int = s.queue.index_of(candidate as int);
                    proof {
                        assert(l[j] == candidate);
                        lemma_index_of(l, j);
                        lemma_queue_member(w, self.queues@, g, 0, qi as int, j);
                        self.lemma_page_access(0, 0, candidate as int);
                        assert(g0.pages.contains(candidate as int));
                        assert(same_but_heap_fields(
                            header(w0, candidate as int),
                            header(w, candidate as int),
                        ));
                    }
                    let c = page::read(candidate, &self.mem);
                    if c.used == 0 {
                        self.free_page(candidate, qi);
                        candidate = cur;
                        proof {
                            Self::lemma_kept_trans(old(self), &before, self);
                            lemma_returned_trans(old(self), &before, self);
                            lemma_links_labels(w, self.mem.words(), g);
                            lemma_relabelled_further(w0, w, self.mem.words(), g0, g);
                        }
                    } else {
                        proof {
                            crate::bins::law_page_geometry(h.bin as int);
                        }
                        if h.used >= c.used && !(h.used * 8 >= h.reserved * 7) {
                            candidate = cur;
                        }
                    }
                }
                proof {
                    let t = s.meet(w0, cur as int);
                    lemma_met(w0, l0, at, s);
                    assert forall|p: int| #[trigger]
                        self.model@.pages.contains(p) implies parked_or_kept(
                        header(w0, p),
                        header(self.mem.words(), p),
                        t.parked.contains(p),
                    ) by {
                        assert(g.pages.contains(p));
                        assert(parked_or_kept(header(w0, p), header(w, p), s.parked.contains(p)));
                    }
                    s = t;
                    at = at + 1;
                    assert(self.model@.qs =~= g0.qs.update(
                        qi as int,
                        s.queue + l0.skip(at),
                    ).update(FULL_QUEUE as int, full0 + s.parked));
                    assert(self.model@.pages =~= g0.pages.difference(s.released));
                }
                if available || limit == 0 {
                    done = true;
                } else {
                    limit = limit - 1;
                    proof {
                        left = left - 1;
                    }
                }
            }
            if !done {
                cur = next;
            }
        }
        proof {
            lemma_queue(w0, old(self).queues@, g0, 0, qi as int);
            if !done {
                if at < l0.len() {
                    lemma_queue_member(w0, old(self).queues@, g0, 0, qi as int, at);
                }
                assert(s.queue + l0.skip(at) =~= s.queue);
            } else {
                let j: int = s.queue.index_of(candidate as int);
                assert((s.queue + l0.skip(at))[j] == candidate);
            }
        }
        candidate
    }

    /// Without empty pages a collection leaves the queues and the pages as they are.
    proof fn lemma_idle_turns(a: &Self, b: &Self)
        requires
            a.inv(0, 0),
            turns_taken(a, b),
            no_empty_page_but(a.mem.words(), a.model@, 0),
        ensures
            b.model@.pages == a.model@.pages,
            b.model@.qs == a.model@.qs,
    {
        let w = a.mem.words();
        let g = a.model@;
        lemma_queue(w, a.queues@, g, 0, 1);
        assert forall|p: int| #[trigger] g.pages.contains(p) implies b.model@.pages.contains(
            p,
        ) by {
            lemma_home_range(w, g, p);
        }
        assert(b.model@.pages =~= g.pages);
        assert forall|j: int| 0 <= j < QUEUE_COUNT implies b.model@.qs[j] == g.qs[j] by {
            let l = g.qs[j];
            let n: int = min(RETIRE_MAX_PAGES as int, l.len() as int);
            assert forall|i: int| 0 <= i < l.len() implies !expires(header(w, #[trigger] l[i])) by {
                lemma_queue_member(w, a.queues@, g, 0, j, i);
            }
            lemma_all_stay(w, l, n);
            assert(l.take(n) + l.skip(n) =~= l);
        }
        assert(b.model@.qs =~= g.qs);
    }

    /// Find a page of `bin` with a non-empty free list, extending or allocating one if needed.
    ///
    /// Walk the queue, park full pages in the full queue, and among pages with room prefer the
    /// fuller one (so emptier pages get a chance to drain and be freed), stopping at the first
    /// page with an immediately available block or after [`MAX_CANDIDATES`] extra pages.
    #[verifier::spinoff_prover]
    #[verifier::rlimit(40)]
    fn find_page(&mut self, bin: u8) -> (r: Option<usize>)
        requires
            old(self).inv(0, 0),
            old(self).initialized,
            1 <= bin <= MAX_BINNED_BIN,
        ensures
            final(self).inv(0, 0),
            final(self).kept_but_grown(old(self)),
            r matches Some(page) ==> {
                let v = final(self).mem.words();
                &&& final(self).model@.pages.contains(page as int)
                &&& header(v, page as int).bin == bin
                &&& !flagged_full(header(v, page as int))
                &&& free_list(v, page as int).len() > 0
            },
            acquire_growth(
                old(self).slices@,
                &old(self).mem,
                &final(self).mem,
                kind_page_size(bin_kind(bin as int)) / SLICE_SIZE as int,
                kind_page_size(bin_kind(bin as int)) / SLICE_SIZE as int,
                old(self).policy,
            ),
            r is None ==> {
                let n = kind_page_size(bin_kind(bin as int)) / SLICE_SIZE as int;
                &&& !old(self).slices@.has_fit(n, n)
                &&& !final(self).slices@.has_fit(n, n)
                &&& acquire_refused(
                    old(self).slices@.usable_limit(),
                    &old(self).mem,
                    &final(self).mem,
                    n,
                    n,
                )
                &&& forall|p: int| #[trigger]
                    old(self).model@.pages.contains(p) && header(old(self).mem.words(), p).bin
                        == bin ==> !has_room(header(old(self).mem.words(), p))
            },
            forall|p: int| #[trigger]
                old(self).model@.pages.contains(p) && header(old(self).mem.words(), p).bin == bin
                    && has_room(header(old(self).mem.words(), p)) ==> r is Some && !grew(
                    &old(self).mem,
                    &final(self).mem,
                ),
            ({
                let n = kind_page_size(bin_kind(bin as int)) / SLICE_SIZE as int;
                grew(&old(self).mem, &final(self).mem) ==> {
                    &&& !old(self).slices@.has_fit(n, n)
                    &&& no_empty_page_but(
                        final(self).mem.words(),
                        final(self).model@,
                        if r is Some {
                            r->0 as int
                        } else {
                            0
                        },
                    )
                }
            }),
            ({
                let w = old(self).mem.words();
                let s = search(w, old(self).model@.qs[bin as int]);
                s.candidate != 0 ==> {
                    &&& r is Some
                    &&& r->0 == s.candidate
                    &&& final(self).model@.qs == queues_after(old(self).model@.qs, bin as int, s)
                    &&& final(self).model@.pages == old(self).model@.pages.difference(s.released)
                    &&& pages_after(
                        w,
                        final(self).mem.words(),
                        final(self).model@.pages,
                        s,
                        0,
                    )
                    &&& only_pages_freed(old(self), final(self))
                    &&& final(self).retired() == old(self).retired()
                    &&& same_extent(&old(self).mem, &final(self).mem)
                    &&& free_list(final(self).mem.words(), s.candidate)[0] == next_block(
                        w,
                        s.candidate,
                    )
                }
            }),
            ({
                let w = old(self).mem.words();
                let s = search(w, old(self).model@.qs[bin as int]);
                &&& s.candidate == 0 ==> exists|
                    parked: Heap<M, WORDS>,
                    aged: Heap<M, WORDS>,
                    mid: Heap<M, WORDS>,
                | #[trigger]
                    fresh_after_turns(
                        old(self),
                        &parked,
                        &aged,
                        &mid,
                        final(self),
                        bin as int,
                        r,
                        0,
                    )
                &&& s.candidate == 0 && no_empty_page_but(
                    w,
                    old(self).model@,
                    0,
                ) ==> fresh_or_parked(
                    old(self),
                    final(self),
                    bin as int,
                    r,
                )
            }),
            r is Some && search(
                old(self).mem.words(),
                old(self).model@.qs[bin as int],
            ).candidate == 0 ==> free_list(final(self).mem.words(), r->0 as int)[0] == r->0
                + first_block(bin_bytes(bin as int)),
    {
        let qi: usize = bin as usize;
        let ghost w0 = self.mem.words();
        let ghost g0 = self.model@;
        let ghost s = search(w0, g0.qs[qi as int]);
        proof {
            lemma_queue(w0, self.queues@, g0, 0, qi as int);
        }
        let candidate: usize = self.choose_page(qi);
        proof {
            assert(self.model@.qs[qi as int] == s.queue);
        }
        if candidate == 0 {
            let ghost before = *self;
            proof {
                let w = self.mem.words();
                let g = self.model@;
                if g.qs[qi as int].len() > 0 {
                    lemma_queue_member(w, self.queues@, g, 0, qi as int, 0);
                }
                assert forall|p: int| #[trigger] g0.pages.contains(p) && header(w0, p).bin
                    == bin implies !has_room(header(w0, p)) by {
                    assert(same_but_heap_fields(header(w0, p), header(w, p)));
                    self.lemma_page_access(0, 0, p);
                    lemma_page_queued(w, self.queues@, g, 0, p);
                    lemma_full_all(w, self.queues@, g, 0);
                    let i: int = g.qs[home(header(w, p))].index_of(p);
                    assert(g.qs[home(header(w, p))][i] == p);
                    assert(home(header(w, p)) == FULL_QUEUE);
                    assert(header(w, g.qs[FULL_QUEUE as int][i]).used == header(
                        w,
                        g.qs[FULL_QUEUE as int][i],
                    ).reserved);
                }
            }
            self.collect(false);
            let ghost collected = *self;
            let r = self.fresh_page(bin);
            proof {
                assert(before.model@.pages =~= g0.pages);
                lemma_free_as_before(old(self), &before);
                assert(all_parked(old(self), &before, bin as int));
                let mid: Heap<M, WORDS> = choose|mid: Heap<M, WORDS>| #[trigger]
                    fresh_page_from(&collected, &mid, self, bin as int, r, 0);
                assert(fresh_after_turns(
                    old(self),
                    &before,
                    &collected,
                    &mid,
                    self,
                    bin as int,
                    r,
                    0,
                ));
                if no_empty_page_but(w0, g0, 0) {
                    assert(no_empty_page_but(before.mem.words(), before.model@, 0)) by {
                        assert forall|q: int| #[trigger]
                            before.model@.pages.contains(q) implies header(
                            before.mem.words(),
                            q,
                        ).used > 0 by {
                            assert(g0.pages.contains(q));
                            lemma_home_range(w0, g0, q);
                            assert(same_but_heap_fields(
                                header(w0, q),
                                header(before.mem.words(), q),
                            ));
                        }
                    }
                    Self::lemma_idle_turns(&before, &collected);
                    assert(before.model@.pages =~= g0.pages);
                    lemma_free_as_before(old(self), &before);
                    lemma_free_as_before(&before, &collected);
                    Self::lemma_kept_trans(old(self), &before, &collected);
                    assert(no_empty_page_but(collected.mem.words(), collected.model@, 0)) by {
                        assert forall|q: int| #[trigger]
                            collected.model@.pages.contains(q) implies header(
                            collected.mem.words(),
                            q,
                        ).used > 0 by {
                            assert(before.model@.pages.contains(q));
                            lemma_home_range(w0, g0, q);
                        }
                    }
                    let n = kind_page_size(bin_kind(bin as int)) / SLICE_SIZE as int;
                    assert(with_fresh(old(self).slices@, &old(self).mem, &self.mem).free
                        =~= with_fresh(collected.slices@, &collected.mem, &self.mem).free);
                    match r {
                        Some(page) => {
                            let p: int = page as int;
                            lemma_same_fit(
                                with_fresh(old(self).slices@, &old(self).mem, &self.mem),
                                with_fresh(collected.slices@, &collected.mem, &self.mem),
                                slice_of(p),
                                n,
                                n,
                            );
                            let t = Search { candidate: p, queue: seq![p], ..s };
                            assert(fronted(t.queue, p) =~= seq![p]) by {
                                lemma_index_of(t.queue, 0);
                            }
                            assert(seq![p] + s.queue =~= seq![p]);
                            assert(self.model@.qs =~= queues_after(g0.qs, bin as int, t));
                        },
                        None => {
                            assert(self.model@.qs =~= g0.qs.update(bin as int, Seq::empty()).update(
                                FULL_QUEUE as int,
                                g0.qs[FULL_QUEUE as int] + s.parked,
                            ));
                        },
                    }
                }
                Self::lemma_kept_grown_trans(old(self), &before, &collected);
                Self::lemma_kept_grown_trans(old(self), &collected, self);
                Self::lemma_kept_trans(old(self), &before, &collected);
                let n = kind_page_size(bin_kind(bin as int)) / SLICE_SIZE as int;
                lemma_more_free(old(self).slices@, collected.slices@, n, n);
                lemma_growth_between(
                    old(self).slices@,
                    collected.slices@,
                    &old(self).mem,
                    &collected.mem,
                    &self.mem,
                    &self.mem,
                    n,
                    n,
                    self.policy,
                );
            }
            return r;
        }
        let ghost before = *self;
        let ghost p: int = candidate as int;
        proof {
            let w = self.mem.words();
            let l = self.model@.qs[qi as int];
            lemma_queue_member(w, self.queues@, self.model@, 0, qi as int, l.index_of(p));
            self.lemma_page_access(0, 0, p);
            lemma_home_range(w, self.model@, p);
            lemma_flag_bit();
        }
        if !page::has_free(candidate, &self.mem) {
            let _ = self.extend_page(candidate);
        }
        let ghost ready = *self;
        proof {
            assert(free_list(ready.mem.words(), p).len() > 0);
            assert(ready.kept(&before));
        }
        self.move_to_front(qi, candidate);
        let ghost moved = *self;
        proof {
            lemma_links_labels(ready.mem.words(), moved.mem.words(), ready.model@);
            lemma_relabelled_page(ready.mem.words(), moved.mem.words(), ready.model@, p);
            assert(links_only(header(ready.mem.words(), p), header(moved.mem.words(), p)));
        }
        self.set_retire(candidate, 0, Ghost(0), Ghost(0));
        proof {
            Self::lemma_kept_trans(old(self), &before, &ready);
            Self::lemma_kept_trans(old(self), &ready, &moved);
            Self::lemma_kept_labels(&moved, self);
            Self::lemma_kept_trans(old(self), &moved, self);
            Self::lemma_kept_grown_trans(old(self), &moved, self);
            let n = kind_page_size(bin_kind(bin as int)) / SLICE_SIZE as int;
            lemma_no_growth(old(self).slices@, &old(self).mem, &self.mem, n, n, self.policy);
            let b = before.mem.words();
            assert(g0.pages.contains(p));
            lemma_relabelled_page(w0, b, g0, p);
            assert(same_but_heap_fields(header(w0, p), header(b, p)));
            if free_list(w0, p).len() == 0 {
                let h = header(b, p);
                assert(free_list(ready.mem.words(), p)[0] == block_addr(p, h, h.capacity as int));
                assert(block_addr(p, h, h.capacity as int) == next_block(w0, p));
            }
            assert(self.model@.qs =~= queues_after(g0.qs, qi as int, s));
            assert(self@.pages == before@.pages);
            assert(self.slice_view() == before.slice_view());
            assert(only_pages_freed(old(self), &before));
            let v = self.mem.words();
            let r = ready.mem.words();
            let m = moved.mem.words();
            assert(free_list(v, p) =~= at_hand(w0, p).skip(0)) by {
                if free_list(w0, p).len() == 0 {
                    let h = header(b, p);
                    let h0 = header(w0, p);
                    assert(extension(h) == extension(h0));
                    assert(block_batch(p, h, h.capacity as int, extension(h)) =~= block_batch(
                        p,
                        h0,
                        h0.capacity as int,
                        extension(h0),
                    ));
                }
            }
            assert(parked_or_kept(header(w0, p), header(b, p), s.parked.contains(p)));
            assert forall|q: int| #[trigger] self.model@.pages.contains(q) && q != p implies
                parked_or_kept(header(w0, q), header(v, q), s.parked.contains(q)) && free_list(v, q)
                == free_list(w0, q) by {
                assert(before.model@.pages.contains(q));
                assert(g0.pages.contains(q));
                lemma_relabelled_page(w0, b, g0, q);
                lemma_relabelled_page(r, m, ready.model@, q);
                assert(links_only(header(r, q), header(m, q)));
            }
        }
        Some(candidate)
    }
}

/// The position of the member at `i` of a list without duplicates.
proof fn lemma_index_of(l: Seq<int>, i: int)
    requires
        l.no_duplicates(),
        0 <= i < l.len(),
    ensures
        l.contains(l[i]),
        l.index_of(l[i]) == i,
{
}

impl<M: Memory, const WORDS: usize> Heap<M, WORDS> {
    /// A block has the address of its page, the page its bin says.
    proof fn lemma_block_page(w: Map<int, u64>, p: int, i: int)
        requires
            page_wf(w, p),
            0 <= i < header(w, p).reserved,
        ensures
            page_of(
                bin_kind(header(w, p).bin as int),
                block_addr(p, header(w, p), i),
            ) == p,
    {
        let h = header(w, p);
        page::lemma_block_in_page(p, h, i);
        let a: int = block_addr(p, h, i);
        let size: int = page_bytes(h);
        vstd::arithmetic::div_mod::lemma_fundamental_div_mod(p, size);
        vstd::arithmetic::div_mod::lemma_fundamental_div_mod_converse(a, size, p / size, a - p);
    }

    /// A block of the bin that serves a layout is aligned for it.
    proof fn lemma_block_aligned(w: Map<int, u64>, p: int, i: int, layout: Layout)
        requires
            page_wf(w, p),
            0 <= i < header(w, p).reserved,
            layout.wf(),
            layout.size() > 0,
            serving(layout) == Class::Bin(header(w, p).bin),
        ensures
            block_addr(p, header(w, p), i) % layout.align() as int == 0,
    {
        let h = header(w, p);
        let align: int = layout.align() as int;
        lemma_serving_bin(layout);
        crate::arith::lemma_pow2_positive(align);
        page::lemma_page_shape(p, h);
        assert(is_pow2(65536)) by {
            reveal_with_fuel(is_pow2, 17);
        }
        crate::arith::lemma_pow2_divides(align, 65536);
        crate::arith::lemma_divides_trans(p, 65536, align);
        crate::arith::lemma_multiple_of_multiple(i, h.block_size as int, align);
        crate::arith::lemma_sum_of_multiples(p, h.block_start as int, align);
        crate::arith::lemma_sum_of_multiples(p + h.block_start, i * h.block_size, align);
    }

    /// Take the first free block of a page for a request of its bin.
    fn take_block(&mut self, page: usize, layout: Layout) -> (r: usize)
        requires
            old(self).inv(0, 0),
            old(self).initialized,
            old(self).model@.pages.contains(page as int),
            !flagged_full(header(old(self).mem.words(), page as int)),
            free_list(old(self).mem.words(), page as int).len() > 0,
            layout.wf(),
            layout.size() > 0,
            serving(layout) == Class::Bin(header(old(self).mem.words(), page as int).bin),
        ensures
            final(self).inv(0, 0),
            *final(self) == (Heap {
                mem: final(self).mem,
                model: final(self).model,
                ..*old(self)
            }),
            stored(&old(self).mem, &final(self).mem),
            r == free_list(old(self).mem.words(), page as int)[0],
            !old(self).model@.blocks.dom().contains(r as int),
            final(self).model@ == (HeapModel {
                blocks: old(self).model@.blocks.insert(r as int, layout),
                ..old(self).model@
            }),
            contents_kept(old(self).mem.words(), final(self).mem.words(), old(self).model@, 0),
            header(old(self).mem.words(), page as int).free_is_zero ==> forall|x: int|
                r + 8 <= x < r + round_up(layout.size() as int, 8) && x % 8 == 0
                    ==> #[trigger] final(self).mem.words()[x] == 0,
            page::popped(
                old(self).mem.words(),
                final(self).mem.words(),
                page as int,
                r as int,
            ),
            forall|q: int| #[trigger]
                old(self).model@.pages.contains(q) && q != page ==> header(
                    final(self).mem.words(),
                    q,
                ) == header(old(self).mem.words(), q) && free_list(final(self).mem.words(), q)
                    == free_list(old(self).mem.words(), q),
    {
        let ghost p: int = page as int;
        let ghost w = self.mem.words();
        let ghost g = self.model@;
        let ghost h = header(w, p);
        let ghost l = free_list(w, p);
        proof {
            self.lemma_page_access(0, 0, p);
            lemma_home_range(w, g, p);
            page::lemma_page_shape(p, h);
            assert(is_block(p, h, h.capacity as int, l[0]));
        }
        let block = match page::pop(page, &mut self.mem) {
            Some(block) => block,
            None => 0,
        };
        let ghost a: int = block as int;
        let ghost i: int = choose|i: int|
            0 <= i < h.capacity && l[0] == #[trigger] block_addr(p, h, i);
        self.model = Ghost(HeapModel { blocks: g.blocks.insert(a, layout), ..g });
        proof {
            let v = self.mem.words();
            let k = self.model@;
            assert(a == block_addr(p, h, i));
            page::lemma_pop_live(w, v, p, a);
            page::lemma_block_in_page(p, h, i);
            Self::lemma_block_page(w, p, i);
            Self::lemma_block_aligned(w, p, i, layout);
            lemma_serving_bin(layout);
            // The block was free, so it is no block of the heap yet.
            assert(l.contains(l[0]));
            Self::lemma_free_is_no_block(w, g, p, a);
            assert(block_ok(v, k, a));
            assert forall|q: int| g.pages.contains(q) && q != p implies !#[trigger] is_live(
                w,
                q,
                a,
            ) by {
                if is_live(w, q, a) {
                    reveal(no_lost_block);
                }
            }
            Self::lemma_after_step(old(self), self, p, a, 0);
            assert forall|q: int| #[trigger] g.pages.contains(q) && q != p implies header(v, q)
                == header(w, q) && free_list(v, q) == free_list(w, q) by {
                lemma_other_page(w, v, g, p, q);
            }
            assert forall|b: int, x: int|
                #![trigger g.blocks.dom().contains(b), v[x]]
                g.blocks.dom().contains(b) && b != 0 && b <= x < block_end(g, b) && x % 8
                    == 0 implies v[x] == w[x] by {
                lemma_block_not_header(w, g, b, x, p);
            }
            if h.free_is_zero {
                crate::arith::lemma_round_up(layout.size() as int, 8);
                assert forall|x: int|
                    a + 8 <= x < a + round_up(layout.size() as int, 8) && x % 8 == 0 implies
                    #[trigger] v[x] == 0 by {
                    assert(page::block_zero(w, h, l[0], 8));
                    assert(w[x] == 0);
                }
            }
        }
        block
    }

    /// A block on a free list is no live block.
    proof fn lemma_free_is_no_block(w: Map<int, u64>, g: HeapModel, p: int, a: int)
        requires
            pages_ok(w, g),
            blocks_ok(w, g),
            g.pages.contains(p),
            free_list(w, p).contains(a),
        ensures
            !g.blocks.dom().contains(a),
    {
        reveal(blocks_ok);
        reveal(pages_ok);
        assert(page_ok(w, g, p));
        lemma_home_range(w, g, p);
        let h = header(w, p);
        let l = free_list(w, p);
        let n: int = l.index_of(a);
        assert(is_block(p, h, h.capacity as int, l[n]));
        let i: int = choose|i: int| 0 <= i < h.capacity && a == #[trigger] block_addr(p, h, i);
        page::lemma_page_shape(p, h);
        page::lemma_block_in_page(p, h, i);
        if g.blocks.dom().contains(a) {
            assert(block_ok(w, g, a));
            crate::arith::lemma_round_up(g.blocks[a].size() as int, 8);
            lemma_block_words(w, g, a, a);
            assert(held(g, slice_of(a), p));
        }
    }

    /// Store a word in a live block.
    fn store_word(&mut self, addr: usize, value: u64, Ghost(a): Ghost<int>)
        requires
            old(self).inv(0, 0),
            old(self).initialized,
            old(self).model@.blocks.dom().contains(a),
            a <= addr < block_end(old(self).model@, a),
            addr % 8 == 0,
        ensures
            final(self).inv(0, 0),
            *final(self) == (Heap { mem: final(self).mem, ..*old(self) }),
            stored(&old(self).mem, &final(self).mem),
            final(self).mem.words() == old(self).mem.words().insert(addr as int, value),
    {
        let ghost w = self.mem.words();
        let ghost g = self.model@;
        proof {
            lemma_block_words(w, g, a, addr as int);
            reveal(holders_ok);
            assert(g.holder.dom().contains(slice_of(addr as int)));
            assert(holder_ok(w, g, self.slices@, &self.mem, slice_of(addr as int)));
        }
        self.mem.store(addr, value);
        proof {
            Self::lemma_block_write(old(self), self, a, addr as int);
        }
    }

    /// A word of a live block has changed and nothing else.
    proof fn lemma_block_write(before: &Self, after: &Self, a: int, x: int)
        requires
            before.inv(0, 0),
            before.initialized,
            *after == (Heap { mem: after.mem, ..*before }),
            stored(&before.mem, &after.mem),
            before.model@.blocks.dom().contains(a),
            a <= x < block_end(before.model@, a),
            x % 8 == 0,
            forall|y: int|
                y != x ==> #[trigger] after.mem.words()[y] == before.mem.words()[y],
        ensures
            after.inv(0, 0),
    {
        let w = before.mem.words();
        let v = after.mem.words();
        let g = before.model@;
        let sm = before.slices@;
        lemma_block_words(w, g, a, x);
        before.lemma_no_block_zero();
        assert(block_ok(w, g, a)) by {
            reveal(blocks_ok);
        }
        match serving(g.blocks[a]) {
            Class::Bin(b) => {
                let p: int = page_of(bin_kind(b as int), a);
                before.lemma_page_access(0, 0, p);
                page::lemma_live_write(w, v, p, a);
                assert forall|c: int| is_live(v, p, c) == #[trigger] is_live(w, p, c) by {}
                if flagged_full(header(w, p)) {
                    Self::lemma_after_step(before, after, p, 0, p);
                    lemma_full_all(w, before.queues@, g, 0);
                    assert(full_ok(v, g, 0)) by {
                        assert forall|q: int| #[trigger] g.pages.contains(q) implies header(v, q)
                            == header(w, q) by {
                            if q != p {
                                lemma_other_page(w, v, g, p, q);
                            }
                        }
                        lemma_queues_same(w, v, before.queues@, g, 0, 0);
                    }
                } else {
                    Self::lemma_after_step(before, after, p, 0, 0);
                }
            },
            Class::Huge => {
                // No page has a word in the slices of a run.
                assert forall|q: int| #[trigger] g.pages.contains(q) implies header(v, q) == header(
                    w,
                    q,
                ) && page_wf(v, q) && free_list(v, q) == free_list(w, q) && page_ok(v, g, q) by {
                    reveal(pages_ok);
                    assert(page_ok(w, g, q));
                    lemma_home_range(w, g, q);
                    let h = header(w, q);
                    page::lemma_page_shape(q, h);
                    assert forall|y: int|
                        q <= y < q + page_bytes(h) && y % 8 == 0 implies #[trigger] v[y]
                        == w[y] by {
                        if y == x {
                            assert(slice_of(q) <= slice_of(y) < slice_of(q + page_bytes(h)));
                            assert(held(g, slice_of(y), q));
                        }
                    }
                    page::lemma_page_frame(w, v, q, free_list(w, q));
                    page::lemma_free_list(v, q, free_list(w, q));
                }
                assert(pages_ok(v, g)) by {
                    reveal(pages_ok);
                }
                lemma_queues_same(w, v, before.queues@, g, 0, 0);
                assert(blocks_ok(v, g)) by {
                    reveal(blocks_ok);
                    assert forall|c: int| #[trigger] g.blocks.dom().contains(c) implies block_ok(
                        v,
                        g,
                        c,
                    ) by {
                        assert(block_ok(w, g, c));
                    }
                }
                assert(no_lost_block(v, g)) by {
                    reveal(no_lost_block);
                    assert forall|p: int, c: int|
                        g.pages.contains(p) && #[trigger] is_live(
                            v,
                            p,
                            c,
                        ) implies g.blocks.dom().contains(c) by {
                        assert(is_live(w, p, c));
                    }
                }
                assert(holders_ok(v, g, sm, &after.mem)) by {
                    reveal(holders_ok);
                    assert forall|s: int| #[trigger] g.holder.dom().contains(s) implies holder_ok(
                        v,
                        g,
                        sm,
                        &after.mem,
                        s,
                    ) by {
                        assert(holder_ok(w, g, sm, &before.mem, s));
                    }
                }
                before.slices.lemma_wf_facts();
                assert(backed(sm, &after.mem)) by {
                    assert forall|y: int|
                        #![trigger after.mem.words()[y]]
                        y % 8 == 0 && sm.zero.contains(slice_of(y)) implies after.mem.words()[y]
                        == 0 by {
                        if y == x {
                            reveal(holders_ok);
                            assert(g.holder.dom().contains(slice_of(x)));
                            assert(holder_ok(w, g, sm, &before.mem, slice_of(x)));
                            assert(sm.free.contains(slice_of(x)));
                        }
                        assert(before.mem.words()[y] == 0);
                    }
                }
                assert(no_lost_slice(g, sm, &after.mem, 0, 0)) by {
                    reveal(no_lost_slice);
                }
            },
        }
    }

    /// Zero the words of a live block from `from` bytes on.
    #[verifier::spinoff_prover]
    #[verifier::rlimit(40)]
    fn zero_block(&mut self, block: usize, size: usize, from: usize)
        requires
            old(self).inv(0, 0),
            old(self).initialized,
            old(self).model@.blocks.dom().contains(block as int),
            size == old(self).model@.blocks[block as int].size(),
            size > 0,
            from == 0 || from == 8,
        ensures
            final(self).inv(0, 0),
            *final(self) == (Heap { mem: final(self).mem, ..*old(self) }),
            stored(&old(self).mem, &final(self).mem),
            forall|x: int|
                block + from <= x < block + round_up(size as int, 8) && x % 8 == 0
                    ==> #[trigger] final(self).mem.words()[x] == 0,
            forall|x: int|
                !(block + from <= x < block + round_up(size as int, 8)) ==> #[trigger] final(self).mem.words()[x]
                    == old(self).mem.words()[x],
    {
        let ghost a: int = block as int;
        let ghost g = self.model@;
        let ghost end: int = block_end(g, a);
        proof {
            crate::arith::lemma_round_up(size as int, 8);
            Self::lemma_block_extent(self, a);
        }
        let mut off: usize = from;
        while off < size
            invariant
                self.inv(0, 0),
                self.initialized,
                *self == (Heap { mem: self.mem, ..*old(self) }),
                stored(&old(self).mem, &self.mem),
                a == block,
                g == self.model@,
                g.blocks.dom().contains(a),
                size == g.blocks[a].size(),
                size > 0,
                end == block_end(g, a),
                end == a + round_up(size as int, 8),
                size <= round_up(size as int, 8) < size + 8,
                round_up(size as int, 8) % 8 == 0,
                end <= usize::MAX,
                a % 8 == 0,
                off % 8 == 0,
                from <= off,
                off <= round_up(size as int, 8) || off == from,
                from == 0 || from == 8,
                forall|x: int|
                    block + from <= x < block + off && x % 8 == 0
                        ==> #[trigger] self.mem.words()[x] == 0,
                forall|x: int|
                    !(block + from <= x < block + off) ==> #[trigger] self.mem.words()[x] == old(
                        self,
                    ).mem.words()[x],
            decreases round_up(size as int, 8) - off,
        {
            self.store_word(block + off, 0, Ghost(a));
            off = off + 8;
        }
    }

    /// A live block ends inside the address space.
    proof fn lemma_block_extent(&self, a: int)
        requires
            self.inv(0, 0),
            self.initialized,
            self.model@.blocks.dom().contains(a),
        ensures
            0 < a,
            a % 8 == 0,
            block_end(self.model@, a) <= usize::MAX,
            self.model@.blocks[a].wf(),
            self.model@.blocks[a].size() > 0,
    {
        let w = self.mem.words();
        let g = self.model@;
        reveal(blocks_ok);
        reveal(holders_ok);
        assert(block_ok(w, g, a));
        crate::arith::lemma_round_up(g.blocks[a].size() as int, 8);
        let last: int = block_end(g, a) - 1;
        lemma_block_words(w, g, a, last);
        assert(g.holder.dom().contains(slice_of(last)));
        assert(holder_ok(w, g, self.slices@, &self.mem, slice_of(last)));
        lemma_slice_addr(&self.mem, slice_of(last));
    }
}

/// Writes to a live block leave the headers of all pages alone.
proof fn lemma_headers_kept(w: Map<int, u64>, v: Map<int, u64>, g: HeapModel, a: int)
    requires
        pages_ok(w, g),
        blocks_ok(w, g),
        g.blocks.dom().contains(a),
        forall|x: int| !(a <= x < block_end(g, a)) ==> #[trigger] v[x] == w[x],
    ensures
        forall|q: int| #[trigger]
            g.pages.contains(q) ==> header(v, q) == header(w, q) && free_list(v, q) == free_list(
                w,
                q,
            ),
{
    assert forall|q: int| #[trigger] g.pages.contains(q) implies header(v, q) == header(w, q)
        && free_list(v, q) == free_list(w, q) by {
        let h = header(w, q);
        let l = free_list(w, q);
        lemma_home_range(w, g, q);
        page::lemma_page_shape(q, h);
        reveal(pages_ok);
        reveal(blocks_ok);
        assert(page_ok(w, g, q));
        assert(block_ok(w, g, a));
        let own = match serving(g.blocks[a]) {
            Class::Bin(b) => page_of(bin_kind(b as int), a),
            Class::Huge => a,
        };
        if q == own && serving(g.blocks[a]) is Bin {
            assert forall|x: int| !(a <= x < a + h.block_size) implies #[trigger] v[x] == w[x] by {
                if a <= x < block_end(g, a) {
                    lemma_block_words(w, g, a, x);
                }
            }
            page::lemma_live_write(w, v, q, a);
        } else {
            assert forall|x: int| q <= x < q + page_bytes(h) && x % 8 == 0 implies #[trigger] v[x]
                == w[x] by {
                if a <= x < block_end(g, a) {
                    lemma_block_words(w, g, a, x);
                    assert(slice_of(q) <= slice_of(x) < slice_of(q + page_bytes(h)));
                    assert(held(g, slice_of(x), q));
                }
            }
            page::lemma_page_frame(w, v, q, l);
            page::lemma_free_list(v, q, l);
        }
    }
}

/// The model with one more run.
pub open spec fn with_run(g: HeapModel, a: int, layout: Layout) -> HeapModel {
    HeapModel {
        holder: g.holder.union_prefer_right(
            Map::new(
                |s: int|
                    slice_of(a) <= s < slice_of(a) + run_slices(layout.size() as int),
                |s: int| a,
            ),
        ),
        blocks: g.blocks.insert(a, layout),
        ..g
    }
}

/// Every word of the block of `size` bytes at `a` is zero.
pub open spec fn block_is_zero(w: Map<int, u64>, a: int, size: int) -> bool {
    forall|x: int| a <= x < a + round_up(size, 8) && x % 8 == 0 ==> #[trigger] w[x] == 0
}

/// Number of slices a header-less run for `layout` occupies.
pub fn huge_slices(layout: &Layout) -> (r: usize)
    ensures
        r == run_slices(layout.size() as int),
        r >= 1,
{
    let n: usize = div_ceil_by(layout.size(), SLICE_SIZE);
    if n >= 1 {
        n
    } else {
        1
    }
}

/// Alignments up to a slice are satisfied by slice alignment; larger ones align the run.
fn huge_align(layout: &Layout) -> (r: usize)
    requires
        layout.wf(),
    ensures
        r == run_align(layout.align() as int),
        is_pow2(r as int),
{
    proof {
        lemma_run_align(layout.align() as int);
    }
    let n: usize = div_ceil_by(layout.align(), SLICE_SIZE);
    if n >= 1 {
        n
    } else {
        1
    }
}

/// The alignment of a run in slices is a power of two, and aligns its address.
proof fn lemma_run_align(align: int)
    requires
        is_pow2(align),
    ensures
        is_pow2(run_align(align)),
        run_align(align) >= 1,
        forall|s: int| #[trigger] (s % run_align(align)) == 0 ==> (s * SLICE_SIZE) % align == 0,
{
    crate::arith::lemma_pow2_positive(align);
    assert(is_pow2(65536) && is_pow2(1)) by {
        reveal_with_fuel(is_pow2, 17);
    }
    if align <= 65536 {
        crate::arith::lemma_pow2_divides(align, 65536);
        assert(div_ceil(align, 65536) == 1);
        assert forall|s: int| #[trigger] (s % run_align(align)) == 0 implies (s * SLICE_SIZE)
            % align == 0 by {
            crate::arith::lemma_multiple_of_multiple(s, 65536, align);
        }
    } else {
        crate::arith::lemma_pow2_divides(65536, align);
        let n: int = align / 65536;
        assert(align == n * 65536);
        assert(div_ceil(align, 65536) == n);
        lemma_pow2_quotient(align, 65536);
        assert forall|s: int| #[trigger] (s % run_align(align)) == 0 implies (s * SLICE_SIZE)
            % align == 0 by {
            vstd::arithmetic::div_mod::lemma_fundamental_div_mod(s, n);
            let q: int = s / n;
            assert(s * 65536 == q * align) by (nonlinear_arith)
                requires
                    s == n * q,
                    align == n * 65536,
            ;
            vstd::arithmetic::div_mod::lemma_mod_multiples_basic(q, align);
        }
    }
}

/// The quotient of two powers of two is one.
proof fn lemma_pow2_quotient(a: int, b: int)
    requires
        is_pow2(a),
        is_pow2(b),
        a >= b,
    ensures
        is_pow2(a / b),
    decreases b,
{
    reveal(is_pow2);
    if b == 1 {
        assert(a / 1 == a);
    } else {
        lemma_pow2_quotient(a / 2, b / 2);
        let c: int = a / 2;
        let d: int = b / 2;
        vstd::arithmetic::div_mod::lemma_truncate_middle(c, d, 2);
        vstd::arithmetic::div_mod::lemma_div_denominator(a, 2, d);
        assert(a / (2 * d) == (a / 2) / d);
    }
}

impl<M: Memory, const WORDS: usize> Heap<M, WORDS> {
    /// A run over slices that were pending is a live block.
    proof fn lemma_run_added(before: &Self, after: &Self, a: int, layout: Layout)
        requires
            layout.wf(),
            layout.size() > 0,
            serving(layout) is Huge,
            a > 0,
            a % SLICE_SIZE as int == 0,
            a % layout.align() as int == 0,
            before.inv_run(0, 0, slice_of(a), run_slices(layout.size() as int)),
            before.initialized,
            *after == (Heap { model: after.model, ..*before }),
            after.model@ == with_run(before.model@, a, layout),
        ensures
            after.inv(0, 0),
            !before.model@.blocks.dom().contains(a),
    {
        let w = before.mem.words();
        let g = before.model@;
        let k = after.model@;
        let sm = before.slices@;
        let n: int = run_slices(layout.size() as int);
        let first: int = slice_of(a);
        reveal(pages_ok);
        reveal(holders_ok);
        before.slices.lemma_wf_facts();
        assert(before.mem.owns(first));
        assert forall|s: int| #[trigger] g.holder.dom().contains(s) implies !(first <= s < first
            + n) by {
            if first <= s < first + n {
                assert(before.mem.owns(s));
            }
        }
        assert(!g.pages.contains(a)) by {
            if g.pages.contains(a) {
                assert(page_ok(w, g, a));
                lemma_home_range(w, g, a);
                page::lemma_page_shape(a, header(w, a));
                assert(held(g, first, a));
            }
        }
        assert(!g.blocks.dom().contains(a)) by {
            if g.blocks.dom().contains(a) {
                crate::arith::lemma_round_up(g.blocks[a].size() as int, 8);
                assert(block_ok(w, g, a)) by {
                    reveal(blocks_ok);
                }
                lemma_block_words(w, g, a, a);
                assert(g.holder.dom().contains(slice_of(a)));
            }
        }
        assert forall|q: int| #[trigger] k.pages.contains(q) implies page_ok(w, k, q) by {
            assert(page_ok(w, g, q));
            assert forall|s: int|
                slice_of(q) <= s < slice_of(q + page_bytes(header(w, q))) implies #[trigger] held(
                k,
                s,
                q,
            ) by {
                assert(held(g, s, q));
            }
        }
        lemma_queues_model(w, before.queues@, g, k, 0, 0);
        assert(blocks_ok(w, k)) by {
            reveal(blocks_ok);
            assert forall|b: int| #[trigger] k.blocks.dom().contains(b) implies block_ok(w, k, b) by {
                if b == a {
                    assert forall|s: int|
                        slice_of(a) <= s < slice_of(a) + run_slices(
                            k.blocks[a].size() as int,
                        ) implies #[trigger] held(k, s, a) by {}
                } else {
                    assert(g.blocks.dom().contains(b));
                    assert(block_ok(w, g, b));
                    if serving(g.blocks[b]) is Huge {
                        assert forall|s: int|
                            slice_of(b) <= s < slice_of(b) + run_slices(
                                k.blocks[b].size() as int,
                            ) implies #[trigger] held(k, s, b) by {
                            assert(held(g, s, b));
                        }
                    }
                }
            }
        }
        assert(no_lost_block(w, k)) by {
            reveal(no_lost_block);
        }
        assert forall|s: int| #[trigger] k.holder.dom().contains(s) implies holder_ok(
            w,
            k,
            sm,
            &after.mem,
            s,
        ) by {
            if first <= s < first + n {
                assert(before.mem.owns(s));
            } else {
                assert(g.holder.dom().contains(s));
                assert(holder_ok(w, g, sm, &before.mem, s));
            }
        }
        assert(no_lost_slice(k, sm, &after.mem, 0, 0)) by {
            reveal(no_lost_slice);
        }
    }

    /// A header-less run for `layout`: the lowest fit, or with `top` the bottom of the free
    /// tail when that is long enough (a growing buffer wants the top).
    fn alloc_huge(&mut self, layout: Layout, zero: bool, top: bool) -> (r: Option<usize>)
        requires
            old(self).inv(0, 0),
            old(self).initialized,
            layout.wf(),
            layout.size() > 0,
            serving(layout) is Huge,
        ensures
            final(self).inv(0, 0),
            final(self).initialized,
            final(self).policy == old(self).policy,
            final(self).generic_count == old(self).generic_count,
            final(self).mem.end() >= old(self).mem.end(),
            only_more(old(self).mem.growths(), final(self).mem.growths()),
            forall|s: int|
                s < old(self).mem.end() ==> #[trigger] final(self).mem.owns(s) == old(
                    self,
                ).mem.owns(s),
            final(self).slices@.base == old(self).slices@.base,
            final(self).slices@.limit == old(self).slices@.limit,
            contents_kept(old(self).mem.words(), final(self).mem.words(), old(self).model@, 0),
            acquire_growth(
                old(self).slices@,
                &old(self).mem,
                &final(self).mem,
                run_slices(layout.size() as int),
                run_align(layout.align() as int),
                old(self).policy,
            ),
            r is None ==> {
                &&& final(self).model@.blocks == old(self).model@.blocks
                &&& !final(self).slices@.has_fit(
                    run_slices(layout.size() as int),
                    run_align(layout.align() as int),
                )
                &&& acquire_refused(
                    old(self).slices@.usable_limit(),
                    &old(self).mem,
                    &final(self).mem,
                    run_slices(layout.size() as int),
                    run_align(layout.align() as int),
                )
            },
            old(self).slices@.has_fit(
                run_slices(layout.size() as int),
                run_align(layout.align() as int),
            ) ==> r is Some,
            exists|mid: Heap<M, WORDS>| #[trigger]
                run_found(old(self), &mid, final(self), layout, top, r),
            r matches Some(a) ==> {
                &&& final(self).model@.blocks == old(self).model@.blocks.insert(a as int, layout)
                &&& !old(self).model@.blocks.dom().contains(a as int)
                &&& zero ==> block_is_zero(
                    final(self).mem.words(),
                    a as int,
                    layout.size() as int,
                )
                &&& old(self).slices@.has_fit(
                    run_slices(layout.size() as int),
                    run_align(layout.align() as int),
                ) ==> placed(
                    old(self).slices@,
                    slice_of(a as int),
                    layout,
                    top,
                    old(self).mem.end() as int,
                )
            },
            grew(&old(self).mem, &final(self).mem) ==> {
                &&& !old(self).slices@.has_fit(
                    run_slices(layout.size() as int),
                    run_align(layout.align() as int),
                )
                &&& no_empty_page_but(final(self).mem.words(), final(self).model@, 0)
            },
            no_empty_page_but(old(self).mem.words(), old(self).model@, 0) ==> no_empty_page_but(
                final(self).mem.words(),
                final(self).model@,
                0,
            ),
    {
        let count: usize = huge_slices(&layout);
        let align: usize = huge_align(&layout);
        let acquired = self.acquire_run(count, align, top);
        let ghost mid: Heap<M, WORDS> = choose|mid: Heap<M, WORDS>| #[trigger]
            slices_found(old(self), &mid, self, count as int, align as int, top, acquired);
        let run = match acquired {
            Some(run) => run,
            None => {
                proof {
                    assert(slices_found(
                        old(self),
                        &mid,
                        self,
                        run_slices(layout.size() as int),
                        run_align(layout.align() as int),
                        top,
                        None,
                    ));
                    assert(run_found(old(self), &mid, self, layout, top, None));
                }
                return None;
            },
        };
        let ghost before = *self;
        let ghost start: int = run.start as int;
        proof {
            assert(self.mem.owns(start));
            assert(self.mem.owns(start + count - 1));
            lemma_slice_addr(&self.mem, start);
            lemma_slice_addr(&self.mem, start + count - 1);
        }
        let addr: usize = run.start * SLICE_SIZE;
        let ghost a: int = addr as int;
        self.model = Ghost(with_run(self.model@, a, layout));
        proof {
            assert(slice_of(a) == start);
            lemma_run_align(layout.align() as int);
            assert(start % run_align(layout.align() as int) == 0);
            Self::lemma_run_added(&before, self, a, layout);
            crate::arith::lemma_round_up(layout.size() as int, 8);
            let n: int = count as int;
            assert(layout.size() <= n * SLICE_SIZE);
            assert((n * SLICE_SIZE) % 8 == 0);
            assert(round_up(layout.size() as int, 8) <= n * SLICE_SIZE);
            if run.zeroed {
                let w = self.mem.words();
                assert forall|x: int|
                    a <= x < a + round_up(layout.size() as int, 8) && x % 8 == 0 implies
                    #[trigger] w[x] == 0 by {
                    assert((start + n) * SLICE_SIZE == a + n * SLICE_SIZE);
                }
            }
        }
        let ghost added = *self;
        if zero && !run.zeroed {
            self.zero_block(addr, layout.size(), 0);
            proof {
                let w = old(self).mem.words();
                let u = added.mem.words();
                let v = self.mem.words();
                let g = old(self).model@;
                assert forall|b: int, x: int|
                    #![trigger g.blocks.dom().contains(b), v[x]]
                    g.blocks.dom().contains(b) && b != 0 && b <= x < block_end(g, b) && x % 8
                        == 0 implies v[x] == w[x] by {
                    assert(added.model@.blocks.dom().contains(b));
                    assert(added.model@.blocks.dom().contains(a));
                    assert(block_end(added.model@, b) == block_end(g, b));
                    lemma_blocks_disjoint(u, added.model@, b, a, x);
                    assert(u[x] == w[x]);
                }
                lemma_headers_kept(u, v, added.model@, a);
            }
        }
        proof {
            assert(with_fresh(mid.slice_view(), &old(self).mem, &self.mem) =~= with_fresh(
                mid.slice_view(),
                &old(self).mem,
                &before.mem,
            ));
            assert forall|q: int| #[trigger] mid@.pages.contains(q) implies page_kept(
                mid.words(),
                self.words(),
                q,
            ) by {
                assert(before.model@.pages.contains(q));
                assert(added.model@.pages.contains(q));
            }
            lemma_requests_between(
                mid.slice_view(),
                &old(self).mem,
                &old(self).mem,
                &before.mem,
                &self.mem,
                count as int,
                align as int,
                old(self).policy,
            );
            assert(slices_found(
                old(self),
                &mid,
                self,
                run_slices(layout.size() as int),
                run_align(layout.align() as int),
                top,
                Some(run),
            ));
            assert(run_found(old(self), &mid, self, layout, top, Some(addr)));
            lemma_growth_between(
                old(self).slices@,
                old(self).slices@,
                &old(self).mem,
                &old(self).mem,
                &before.mem,
                &self.mem,
                count as int,
                align as int,
                self.policy,
            );
            if grew(&old(self).mem, &self.mem) {
                let s: int = choose|s: int| #[trigger] self.mem.owns(s) && !old(self).mem.owns(s);
                assert(before.mem.owns(s));
                assert(grew(&old(self).mem, &before.mem));
            }
            if no_empty_page_but(before.mem.words(), before.model@, 0) {
                assert forall|q: int| #[trigger] self.model@.pages.contains(q) implies header(
                    self.mem.words(),
                    q,
                ).used > 0 by {
                    assert(before.model@.pages.contains(q));
                    lemma_home_range(before.mem.words(), before.model@, q);
                }
            }
        }
        Some(addr)
    }

    /// A block was added and, if asked for, zeroed: every other block reads as before.
    proof fn lemma_contents_after_zero(
        w: Map<int, u64>,
        u: Map<int, u64>,
        v: Map<int, u64>,
        g: HeapModel,
        k: HeapModel,
        a: int,
    )
        requires
            pages_ok(u, k),
            blocks_ok(u, k),
            contents_kept(w, u, g, 0),
            !g.blocks.dom().contains(a),
            k.blocks == g.blocks.insert(a, k.blocks[a]),
            forall|x: int| !(a <= x < block_end(k, a)) ==> #[trigger] v[x] == u[x],
        ensures
            contents_kept(w, v, g, 0),
    {
        assert forall|b: int, x: int|
            #![trigger g.blocks.dom().contains(b), v[x]]
            g.blocks.dom().contains(b) && b != 0 && b <= x < block_end(g, b) && x % 8
                == 0 implies v[x] == w[x] by {
            assert(k.blocks.dom().contains(b));
            assert(k.blocks.dom().contains(a));
            assert(block_end(k, b) == block_end(g, b));
            lemma_blocks_disjoint(u, k, b, a, x);
            assert(u[x] == w[x]);
        }
    }

    /// Serve a request from the first free block of a page of its bin.
    #[verifier::spinoff_prover]
    #[verifier::rlimit(40)]
    fn alloc_from(&mut self, page: usize, layout: Layout, zero: bool) -> (r: usize)
        requires
            old(self).inv(0, 0),
            old(self).initialized,
            old(self).model@.pages.contains(page as int),
            !flagged_full(header(old(self).mem.words(), page as int)),
            free_list(old(self).mem.words(), page as int).len() > 0,
            layout.wf(),
            layout.size() > 0,
            serving(layout) == Class::Bin(header(old(self).mem.words(), page as int).bin),
        ensures
            final(self).inv(0, 0),
            final(self).initialized,
            final(self).policy == old(self).policy,
            final(self).slices == old(self).slices,
            r == free_list(old(self).mem.words(), page as int)[0],
            !old(self).model@.blocks.dom().contains(r as int),
            final(self).model@.blocks == old(self).model@.blocks.insert(r as int, layout),
            contents_kept(old(self).mem.words(), final(self).mem.words(), old(self).model@, 0),
            zero ==> block_is_zero(final(self).mem.words(), r as int, layout.size() as int),
            stored(&old(self).mem, &final(self).mem),
            final(self).model@.pages == old(self).model@.pages,
            final(self).model@.qs == old(self).model@.qs,
            final(self).generic_count == old(self).generic_count,
            page::popped(
                old(self).mem.words(),
                final(self).mem.words(),
                page as int,
                r as int,
            ),
            forall|q: int| #[trigger]
                old(self).model@.pages.contains(q) && q != page ==> header(
                    final(self).mem.words(),
                    q,
                ) == header(old(self).mem.words(), q) && free_list(final(self).mem.words(), q)
                    == free_list(old(self).mem.words(), q),
            final(self).retired() == old(self).retired(),
    {
        let ghost w = self.mem.words();
        let ghost g = self.model@;
        proof {
            self.lemma_page_access(0, 0, page as int);
            crate::arith::lemma_round_up(layout.size() as int, 8);
        }
        let h = page::read(page, &self.mem);
        let block = self.take_block(page, layout);
        let ghost mid = *self;
        if zero {
            proof {
                assert(self.model@.blocks.dom().contains(block as int));
                Self::lemma_block_extent(self, block as int);
            }
            if h.free_is_zero {
                // Only the free-list link word is dirty.
                self.store_word(block, 0, Ghost(block as int));
            } else {
                self.zero_block(block, layout.size(), 0);
            }
            proof {
                Self::lemma_contents_after_zero(
                    w,
                    mid.mem.words(),
                    self.mem.words(),
                    g,
                    mid.model@,
                    block as int,
                );
                lemma_headers_kept(mid.mem.words(), self.mem.words(), mid.model@, block as int);
                let v = self.mem.words();
                let a: int = block as int;
                assert forall|x: int|
                    a <= x < a + round_up(layout.size() as int, 8) && x % 8 == 0 implies #[trigger] v[x]
                    == 0 by {
                    if h.free_is_zero && x != a {
                        assert(x >= a + 8) by {
                            assert(a % 8 == 0);
                        }
                        assert(mid.mem.words()[x] == 0);
                    }
                }
            }
        }
        block
    }

    /// What the search found is what the allocation did, once the block is taken from the page.
    proof fn lemma_found(
        c: &Self,
        f: &Self,
        d: &Self,
        b: int,
        page: Option<usize>,
        r: Option<usize>,
    )
        requires
            ({
                let s = search(c.mem.words(), c.model@.qs[b]);
                &&& s.candidate != 0 ==> {
                    &&& page is Some
                    &&& page->0 == s.candidate
                    &&& f.model@.qs == queues_after(c.model@.qs, b, s)
                    &&& f.model@.pages == c.model@.pages.difference(s.released)
                    &&& r is Some && r->0 == next_block(c.mem.words(), s.candidate)
                    &&& pages_after(c.mem.words(), f.mem.words(), f.model@.pages, s, 0)
                    &&& only_pages_freed(c, f)
                    &&& f.retired() == c.retired()
                    &&& same_extent(&c.mem, &f.mem)
                    &&& c.model@.pages.contains(s.candidate)
                }
                &&& s.candidate == 0 ==> {
                    &&& is_first_block(r, page, b)
                    &&& exists|p: Heap<M, WORDS>, a: Heap<M, WORDS>, m: Heap<M, WORDS>| #[trigger]
                        fresh_after_turns(c, &p, &a, &m, f, b, page, 0)
                    &&& no_empty_page_but(c.mem.words(), c.model@, 0) ==> fresh_or_parked(
                        c,
                        f,
                        b,
                        page,
                    )
                }
            }),
            d.model@.qs == f.model@.qs,
            d.model@.pages == f.model@.pages,
            same_extent(&f.mem, &d.mem),
            d.slices == f.slices,
            d.retired() == f.retired(),
            f.inv(0, 0),
            page matches Some(q) ==> {
                &&& f.model@.pages.contains(q as int)
                &&& r is Some
                &&& page::popped(f.mem.words(), d.mem.words(), q as int, r->0 as int)
                &&& forall|p: int| #[trigger]
                    f.model@.pages.contains(p) && p != q ==> header(d.mem.words(), p) == header(
                        f.mem.words(),
                        p,
                    ) && free_list(d.mem.words(), p) == free_list(f.mem.words(), p)
            },
            page is None ==> d.mem == f.mem,
        ensures
            found_by_search(c, d, b, r),
    {
        let s = search(c.mem.words(), c.model@.qs[b]);
        if s.candidate == 0 {
            let (p, a, m): (Heap<M, WORDS>, Heap<M, WORDS>, Heap<M, WORDS>) = choose|
                p: Heap<M, WORDS>,
                a: Heap<M, WORDS>,
                m: Heap<M, WORDS>,
            | #[trigger]
                fresh_after_turns(c, &p, &a, &m, f, b, page, 0);
            assert(with_fresh(m.slice_view(), &a.memory_view(), &f.memory_view()) =~= with_fresh(
                m.slice_view(),
                &a.memory_view(),
                &d.memory_view(),
            ));
            if let Some(q) = page {
                lemma_home_range(f.mem.words(), f.model@, q as int);
                let z = m.slice_view();
                let h = fresh_header(
                    b as u8,
                    with_fresh(z, &a.memory_view(), &f.memory_view()).run_zero(
                        slice_of(q as int),
                        kind_page_size(bin_kind(b)) / SLICE_SIZE as int,
                    ),
                );
                let batch = block_batch(q as int, h, 0, extension(h));
                assert(batch.skip(0).drop_first() =~= batch.skip(1));
            }
            assert forall|q: int| #[trigger] m@.pages.contains(q) implies page_kept(
                m.words(),
                d.words(),
                q,
            ) by {
                assert(f.model@.pages.contains(q));
            }
            let count = kind_page_size(bin_kind(b)) / SLICE_SIZE as int;
            lemma_requests_between(
                m.slice_view(),
                &a.memory_view(),
                &a.memory_view(),
                &f.memory_view(),
                &d.memory_view(),
                count,
                count,
                a.spec_policy(),
            );
            assert(fresh_page_from(&a, &m, d, b, page, 1));
            assert(fresh_after_turns(c, &p, &a, &m, d, b, page, 1));
            if no_empty_page_but(c.mem.words(), c.model@, 0) {
                assert(with_fresh(c.starting_slices(), &c.memory_view(), &f.memory_view())
                    =~= with_fresh(c.starting_slices(), &c.memory_view(), &d.memory_view()));
                assert(fresh_or_parked(c, d, b, page));
            }
        } else {
            let q: int = s.candidate;
            lemma_home_range(f.mem.words(), f.model@, q);
            let l = at_hand(c.mem.words(), q);
            assert(l.skip(0).drop_first() =~= l.skip(1));
            assert(readied(c.mem.words(), d.mem.words(), q, 1));
            assert(d@.pages == f@.pages);
            assert(d.slice_view() == f.slice_view());
            assert forall|p: int| #[trigger] d@.pages.contains(p) && p != q implies parked_or_kept(
                header(c.mem.words(), p),
                header(d.mem.words(), p),
                s.parked.contains(p),
            ) && free_list(d.mem.words(), p) == free_list(c.mem.words(), p) by {
                assert(f.model@.pages.contains(p));
            }
        }
    }

    /// A collection does the same to two heaps that differ in their counts of calls alone.
    proof fn lemma_turns_alike(o: &Self, c: &Self, n: &Self)
        requires
            *c == (Heap { generic_count: c.generic_count, ..*o }),
            turns_taken(c, n),
            slices_returned(c, n),
        ensures
            turns_taken(o, n),
            slices_returned(o, n),
    {
        assert forall|j: int| left_in(c, j) == #[trigger] left_in(o, j) by {}
        assert forall|p: int| #[trigger] o@.pages.contains(p) implies turned(
            header(o.words(), p),
            header(n.words(), p),
            n@.pages.contains(p),
            o.ages(home(header(o.words(), p))) && among_first(
                o@.qs[home(header(o.words(), p))],
                RETIRE_MAX_PAGES as int,
                p,
            ),
        ) by {
            assert(c@.pages.contains(p));
        }
    }

    /// Two heaps that agree in what a search reads find the same.
    proof fn lemma_found_alike(o: &Self, c: &Self, n: &Self, b: int, r: Option<usize>)
        requires
            found_by_search(c, n, b, r),
            c.model == o.model,
            c.mem == o.mem,
            c.starting_slices() == o.starting_slices(),
            c.retired() == o.retired(),
            o.is_initialized() ==> c.slices == o.slices,
            !o.is_initialized() ==> o.model@.qs[b].len() == 0,
            o.is_initialized() ==> c.is_initialized(),
        ensures
            found_by_search(o, n, b, r),
    {
        let s = search(c.mem.words(), c.model@.qs[b]);
        if s.candidate == 0 {
            let (page, p, a, m): (
                Option<usize>,
                Heap<M, WORDS>,
                Heap<M, WORDS>,
                Heap<M, WORDS>,
            ) = choose|
                page: Option<usize>,
                p: Heap<M, WORDS>,
                a: Heap<M, WORDS>,
                m: Heap<M, WORDS>,
            |
                {
                    &&& #[trigger] fresh_after_turns(c, &p, &a, &m, n, b, page, 1)
                    &&& is_first_block(r, page, b)
                };
            assert(all_parked(o, &p, b));
            assert(fresh_after_turns(o, &p, &a, &m, n, b, page, 1));
            if no_empty_page_but(o.mem.words(), o.model@, 0) {
                let q: Option<usize> = choose|q: Option<usize>| #[trigger]
                    fresh_or_parked(c, n, b, q) && is_first_block(r, q, b);
                assert(fresh_or_parked(o, n, b, q));
            }
        }
    }

    /// The slow path: a run, or a block of the page that a search of its bin's queue finds, after
    /// a collection every [`GENERIC_COLLECT_PERIOD`] times.
    #[verifier::spinoff_prover]
    #[verifier::rlimit(40)]
    fn alloc_generic(&mut self, layout: Layout, zero: bool) -> (r: Option<usize>)
        requires
            old(self).inv(0, 0),
            layout.wf(),
            layout.size() > 0,
        ensures
            final(self).inv(0, 0),
            final(self).initialized,
            final(self).policy == old(self).policy,
            contents_kept(old(self).mem.words(), final(self).mem.words(), old(self).model@, 0),
            r is None ==> {
                &&& final(self).model@.blocks == old(self).model@.blocks
                &&& !final(self).slices@.has_fit(slices_for(layout).0, slices_for(layout).1)
                &&& acquire_refused(
                    final(self).slices@.usable_limit(),
                    &old(self).mem,
                    &final(self).mem,
                    slices_for(layout).0,
                    slices_for(layout).1,
                )
            },
            old(self).starting_slices().has_fit(slices_for(layout).0, slices_for(layout).1) ==> r is Some,
            serving(layout) matches Class::Bin(b) ==> forall|p: int| #[trigger]
                old(self).model@.pages.contains(p) && header(old(self).mem.words(), p).bin == b
                    && has_room(header(old(self).mem.words(), p)) && header(
                    old(self).mem.words(),
                    p,
                ).used > 0 ==> r is Some,
            serving(layout) is Huge && old(self).starting_slices().has_fit(
                slices_for(layout).0,
                slices_for(layout).1,
            ) ==> r is Some && old(self).starting_slices().lowest_fit(
                slice_of(r->0 as int),
                slices_for(layout).0,
                slices_for(layout).1,
            ),
            serving(layout) is Huge ==> exists|first: Heap<M, WORDS>, mid: Heap<M, WORDS>|
                started(old(self), &first) && #[trigger] run_found(
                    &first,
                    &mid,
                    final(self),
                    layout,
                    false,
                    r,
                ),
            r matches Some(a) ==> {
                &&& final(self).model@.blocks == old(self).model@.blocks.insert(a as int, layout)
                &&& !old(self).model@.blocks.dom().contains(a as int)
                &&& zero ==> block_is_zero(
                    final(self).mem.words(),
                    a as int,
                    layout.size() as int,
                )
            },
            serving(layout) matches Class::Bin(b) ==> {
                &&& final(self).generic_count == if old(self).generic_count + 1
                    >= GENERIC_COLLECT_PERIOD {
                    0
                } else {
                    old(self).generic_count + 1
                }
                &&& old(self).generic_count + 1 < GENERIC_COLLECT_PERIOD ==> found_by_search(
                    old(self),
                    final(self),
                    b as int,
                    r,
                )
                &&& old(self).generic_count + 1 >= GENERIC_COLLECT_PERIOD ==> exists|
                    mid: Heap<M, WORDS>,
                | #[trigger]
                    found_after_turns(old(self), &mid, final(self), b as int, r)
            },
            serving(layout) is Huge ==> final(self).generic_count == old(self).generic_count,
            acquire_growth(
                old(self).starting_slices(),
                &old(self).mem,
                &final(self).mem,
                slices_for(layout).0,
                slices_for(layout).1,
                old(self).policy,
            ),
            grew(&old(self).mem, &final(self).mem) ==> {
                &&& !old(self).starting_slices().has_fit(slices_for(layout).0, slices_for(layout).1)
                &&& no_empty_page_but(final(self).mem.words(), final(self).model@, 0)
                &&& serving(layout) matches Class::Bin(b) ==> forall|p: int| #[trigger]
                    old(self).model@.pages.contains(p) && header(old(self).mem.words(), p).bin == b
                        && header(old(self).mem.words(), p).used > 0 ==> !has_room(
                        header(old(self).mem.words(), p),
                    )
            },
    {
        self.ensure_init();
        let ghost start = *self;
        proof {
            let (n, align) = slices_for(layout);
            if !old(self).initialized && old(self).slices@.has_fit(n, align) {
                let t: int = choose|t: int| old(self).slices@.fits(t, n, align);
                assert(n >= 1);
                assert(old(self).slices@.free.contains(t));
            }
        }
        match serving_class(layout) {
            Class::Huge => {
                let r = self.alloc_huge(layout, zero, false);
                proof {
                    let mid: Heap<M, WORDS> = choose|mid: Heap<M, WORDS>| #[trigger]
                        run_found(&start, &mid, self, layout, false, r);
                    assert(started(old(self), &start) && run_found(
                        &start,
                        &mid,
                        self,
                        layout,
                        false,
                        r,
                    ));
                }
                r
            },
            Class::Bin(bin) => {
                proof {
                    lemma_serving_bin(layout);
                }
                self.generic_count = self.generic_count + 1;
                if self.generic_count >= GENERIC_COLLECT_PERIOD {
                    self.generic_count = 0;
                    let ghost counted = *self;
                    self.collect(false);
                    proof {
                        Self::lemma_turns_alike(&start, &counted, self);
                    }
                }
                let ghost collected = *self;
                proof {
                    assert(collected.kept_but_grown(&(Heap {
                        generic_count: collected.generic_count,
                        ..start
                    })));
                }
                match self.find_page(bin) {
                    Some(page) => {
                        let ghost found = *self;
                        let block = self.alloc_from(page, layout, zero);
                        proof {
                            lemma_more_free(
                                start.slices@,
                                collected.slices@,
                                slices_for(layout).0,
                                slices_for(layout).1,
                            );
                            lemma_growth_between(
                                start.slices@,
                                collected.slices@,
                                &start.mem,
                                &collected.mem,
                                &found.mem,
                                &self.mem,
                                slices_for(layout).0,
                                slices_for(layout).1,
                                self.policy,
                            );
                            Self::lemma_chain(&start, &collected, &found, self);
                            Self::lemma_found(
                                &collected,
                                &found,
                                self,
                                bin as int,
                                Some(page),
                                Some(block),
                            );
                            if old(self).generic_count + 1 >= GENERIC_COLLECT_PERIOD {
                                assert(found_after_turns(
                                    old(self),
                                    &collected,
                                    self,
                                    bin as int,
                                    Some(block),
                                ));
                            } else {
                                Self::lemma_found_alike(
                                    old(self),
                                    &collected,
                                    self,
                                    bin as int,
                                    Some(block),
                                );
                            }
                            assert forall|q: int| #[trigger]
                                found.model@.pages.contains(q) implies header(
                                self.mem.words(),
                                q,
                            ).used == header(found.mem.words(), q).used + if q == page {
                                1int
                            } else {
                                0
                            } by {
                                lemma_home_range(found.mem.words(), found.model@, q);
                            }
                            if grew(&old(self).mem, &self.mem) {
                                Self::lemma_grew_chain(
                                    &start,
                                    &collected,
                                    &found,
                                    self,
                                    page as int,
                                    bin,
                                    layout,
                                );
                            }
                        }
                        Some(block)
                    },
                    None => {
                        proof {
                            Self::lemma_contents_trans(&start, &collected, self);
                            Self::lemma_found(
                                &collected,
                                self,
                                self,
                                bin as int,
                                None,
                                None,
                            );
                            if old(self).generic_count + 1 >= GENERIC_COLLECT_PERIOD {
                                assert(found_after_turns(
                                    old(self),
                                    &collected,
                                    self,
                                    bin as int,
                                    None,
                                ));
                            } else {
                                Self::lemma_found_alike(
                                    old(self),
                                    &collected,
                                    self,
                                    bin as int,
                                    None,
                                );
                            }
                            assert forall|p: int| #[trigger]
                                old(self).model@.pages.contains(p) && header(
                                    old(self).mem.words(),
                                    p,
                                ).bin == bin && header(old(self).mem.words(), p).used
                                    > 0 implies !has_room(header(old(self).mem.words(), p)) by {
                                assert(collected.model@.pages.contains(p));
                            }
                            lemma_more_free(
                                start.slices@,
                                collected.slices@,
                                slices_for(layout).0,
                                slices_for(layout).1,
                            );
                            lemma_growth_between(
                                start.slices@,
                                collected.slices@,
                                &start.mem,
                                &collected.mem,
                                &self.mem,
                                &self.mem,
                                slices_for(layout).0,
                                slices_for(layout).1,
                                self.policy,
                            );
                        }
                        None
                    },
                }
            },
        }
    }

    /// Contents kept twice over.
    proof fn lemma_contents_trans(a: &Self, b: &Self, c: &Self)
        requires
            b.model@.blocks == a.model@.blocks,
            contents_kept(a.mem.words(), b.mem.words(), a.model@, 0),
            contents_kept(b.mem.words(), c.mem.words(), b.model@, 0),
        ensures
            contents_kept(a.mem.words(), c.mem.words(), a.model@, 0),
    {
        let g = a.model@;
        assert forall|p: int, x: int|
            #![trigger g.blocks.dom().contains(p), c.mem.words()[x]]
            g.blocks.dom().contains(p) && p != 0 && p <= x < block_end(g, p) && x % 8
                == 0 implies c.mem.words()[x] == a.mem.words()[x] by {
            assert(b.model@.blocks.dom().contains(p));
            assert(block_end(b.model@, p) == block_end(g, p));
            assert(b.mem.words()[x] == a.mem.words()[x]);
        }
    }

    /// Memory grew on the way from `a` to `d`, which it did between `b` and `c`.
    proof fn lemma_grew_chain(
        a: &Self,
        b: &Self,
        c: &Self,
        d: &Self,
        page: int,
        bin: u8,
        layout: Layout,
    )
        requires
            grew(&a.mem, &d.mem),
            serving(layout) == Class::Bin(bin),
            forall|s: int| #[trigger] b.mem.owns(s) == a.mem.owns(s),
            a.slices@.free.subset_of(b.slices@.free),
            a.slices@.base == b.slices@.base,
            a.slices@.limit == b.slices@.limit,
            forall|p: int|
                a.model@.pages.contains(p) && header(a.mem.words(), p).used > 0
                    ==> #[trigger] b.model@.pages.contains(p) && same_but_heap_fields(
                    header(a.mem.words(), p),
                    header(b.mem.words(), p),
                ),
            grew(&b.mem, &c.mem) ==> {
                let n = kind_page_size(bin_kind(bin as int)) / SLICE_SIZE as int;
                &&& !b.slices@.has_fit(n, n)
                &&& no_empty_page_but(c.mem.words(), c.model@, page)
            },
            forall|p: int| #[trigger]
                b.model@.pages.contains(p) && header(b.mem.words(), p).bin == bin && has_room(
                    header(b.mem.words(), p),
                ) ==> !grew(&b.mem, &c.mem),
            stored(&c.mem, &d.mem),
            d.model@.pages == c.model@.pages,
            forall|q: int| #[trigger]
                c.model@.pages.contains(q) ==> header(d.mem.words(), q).used == header(
                    c.mem.words(),
                    q,
                ).used + if q == page {
                    1int
                } else {
                    0
                },
        ensures
            !a.slices@.has_fit(slices_for(layout).0, slices_for(layout).1),
            no_empty_page_but(d.mem.words(), d.model@, 0),
            forall|p: int| #[trigger]
                a.model@.pages.contains(p) && header(a.mem.words(), p).bin == bin && header(
                    a.mem.words(),
                    p,
                ).used > 0 ==> !has_room(header(a.mem.words(), p)),
    {
        let s: int = choose|s: int| #[trigger] d.mem.owns(s) && !a.mem.owns(s);
        assert(c.mem.owns(s));
        assert(!b.mem.owns(s));
        assert(grew(&b.mem, &c.mem));
        lemma_more_free(a.slices@, b.slices@, slices_for(layout).0, slices_for(layout).1);
        assert forall|q: int| #[trigger] d.model@.pages.contains(q) implies header(
            d.mem.words(),
            q,
        ).used > 0 by {
            assert(c.model@.pages.contains(q));
        }
        assert forall|p: int| #[trigger]
            a.model@.pages.contains(p) && header(a.mem.words(), p).bin == bin && header(
                a.mem.words(),
                p,
            ).used > 0 implies !has_room(header(a.mem.words(), p)) by {
            assert(b.model@.pages.contains(p));
        }
    }

    proof fn lemma_chain(a: &Self, b: &Self, c: &Self, d: &Self)
        requires
            b.model@.blocks == a.model@.blocks,
            contents_kept(a.mem.words(), b.mem.words(), a.model@, 0),
            c.kept_but_grown(b),
            contents_kept(c.mem.words(), d.mem.words(), c.model@, 0),
        ensures
            contents_kept(a.mem.words(), d.mem.words(), a.model@, 0),
    {
        Self::lemma_contents_trans(a, b, c);
        Self::lemma_contents_trans(a, c, d);
    }
}

/// Whether a free that left a page with header `h` has queue work to do: the page sits in the
/// full queue, or it just became empty and is not retired yet. (For an empty page that is retired
/// already there is nothing to do, and a page whose only live block comes and goes meets that
/// case on every free.)
fn needs_transition(h: &Page) -> (r: bool)
    ensures
        r == (h.flags != 0 || (h.used == 0 && h.retire_expire == 0)),
{
    (h.used == 0 && h.retire_expire == 0) || h.flags != 0
}

/// Whether a page with header `h` stays where it is when one of its blocks is freed: it is not in
/// the full queue, and other blocks are live, or it is retired already, or is now.
pub open spec fn page_stays(g: HeapModel, h: Page) -> bool {
    &&& !flagged_full(h)
    &&& h.used > 1 || h.retire_expire != 0 || worth_retiring(
        g.qs[h.bin as int].len() as int,
        h.block_size as int,
    )
}

/// There are no new pages, and every page but `p` has at most moved in its queue.
pub open spec fn others_kept<M: Memory, const WORDS: usize>(
    o: &Heap<M, WORDS>,
    n: &Heap<M, WORDS>,
    p: int,
) -> bool {
    forall|q: int| #[trigger]
        n@.pages.contains(q) ==> o@.pages.contains(q) && (q != p ==> page_kept(
            o.words(),
            n.words(),
            q,
        ))
}

/// The range of queues with queue `b` in it.
pub open spec fn widened(range: (int, int), b: int) -> (int, int) {
    (min(range.0, b), max(range.1, b))
}

/// The header of a page with header `h` after one of its blocks, `a`, came back, with the flags and
/// the countdown given and links that its queue decides.
pub open spec fn header_after_free(h: Page, k: Page, a: int, flags: int, expire: int) -> bool {
    k == (Page {
        free: a as usize,
        used: (h.used - 1) as u32,
        free_is_zero: false,
        flags: flags as u8,
        retire_expire: expire as u8,
        next: k.next,
        prev: k.prev,
        ..h
    })
}

/// The queues without the page at `p` of the given bin.
pub open spec fn taken_off(g: HeapModel, p: int, bin: int) -> Seq<Seq<int>> {
    g.qs.update(bin, g.qs[bin].remove(g.qs[bin].index_of(p)))
}

/// The queues after the page at `p` came back from the full queue to the end of the queue of its
/// bin.
pub open spec fn brought_back(g: HeapModel, p: int, bin: int) -> Seq<Seq<int>> {
    let full = g.qs[FULL_QUEUE as int];
    let qs = g.qs.update(FULL_QUEUE as int, full.remove(full.index_of(p)));
    qs.update(bin, qs[bin].push(p))
}

/// What freeing the block at `a` of page `p` does to its page.
pub open spec fn page_freed<M: Memory, const WORDS: usize>(
    o: &Heap<M, WORDS>,
    n: &Heap<M, WORDS>,
    p: int,
    a: int,
) -> bool {
    let h = header(o.words(), p);
    let k = header(n.words(), p);
    let back = free_list(n.words(), p) == seq![a] + free_list(o.words(), p);
    if flagged_full(h) {
        &&& n@.pages == o@.pages
        &&& n@.qs == brought_back(o@, p, h.bin as int)
        &&& n.slice_view() == o.slice_view()
        &&& back
        &&& header_after_free(h, k, a, 0, h.retire_expire as int)
        &&& n.retired() == o.retired()
    } else if page_stays(o@, h) {
        &&& n@.pages == o@.pages
        &&& n@.qs == o@.qs
        &&& n.slice_view() == o.slice_view()
        &&& back
        &&& if h.used == 1 && h.retire_expire == 0 {
            &&& header_after_free(h, k, a, h.flags as int, retire_cycles(h.block_size as int))
            &&& n.retired() == widened(o.retired(), h.bin as int)
        } else {
            &&& header_after_free(h, k, a, h.flags as int, h.retire_expire as int)
            &&& n.retired() == o.retired()
        }
    } else {
        &&& n@.pages == o@.pages.remove(p)
        &&& n@.qs == taken_off(o@, p, h.bin as int)
        &&& n.slice_view() == o.slice_view().given(
            slice_of(p),
            page_bytes(h) / SLICE_SIZE as int,
            false,
        )
        &&& n.retired() == o.retired()
    }
}

/// The model without a block; the slices of a run are in use no more.
pub open spec fn without_block(g: HeapModel, a: int) -> HeapModel {
    HeapModel {
        holder: match serving(g.blocks[a]) {
            Class::Bin(_) => g.holder,
            Class::Huge => g.holder.remove_keys(
                Set::new(
                    |s: int|
                        slice_of(a) <= s < slice_of(a) + run_slices(g.blocks[a].size() as int),
                ),
            ),
        },
        blocks: g.blocks.remove(a),
        ..g
    }
}

impl<M: Memory, const WORDS: usize> Heap<M, WORDS> {
    /// Return a block to its page and fix the queues where that calls for it: the page sits in
    /// the full queue, or it just became empty and is not retired yet.
    fn push_block(&mut self, page: usize, addr: usize)
        requires
            old(self).inv(0, 0),
            old(self).initialized,
            old(self).model@.blocks.dom().contains(addr as int),
            serving(old(self).model@.blocks[addr as int]) is Bin,
            page == page_of(
                bin_kind(serving(old(self).model@.blocks[addr as int])->0 as int),
                addr as int,
            ),
        ensures
            final(self).inv(0, 0),
            final(self).initialized,
            final(self).generic_count == old(self).generic_count,
            final(self).policy == old(self).policy,
            final(self).model@.blocks == old(self).model@.blocks.remove(addr as int),
            contents_kept(
                old(self).mem.words(),
                final(self).mem.words(),
                old(self).model@,
                addr as int,
            ),
            final(self).mem.end() == old(self).mem.end(),
            final(self).mem.growths() == old(self).mem.growths(),
            forall|s: int| #[trigger] final(self).mem.owns(s) == old(self).mem.owns(s),
            page_freed(old(self), final(self), page as int, addr as int),
            others_kept(old(self), final(self), page as int),
    {
        let ghost p: int = page as int;
        let ghost a: int = addr as int;
        let ghost w = self.mem.words();
        let ghost g = self.model@;
        proof {
            reveal(blocks_ok);
            assert(block_ok(w, g, a));
            self.lemma_page_access(0, 0, p);
            page::lemma_page_shape(p, header(w, p));
        }
        page::push(page, &mut self.mem, addr);
        self.model = Ghost(HeapModel { blocks: g.blocks.remove(a), ..g });
        let ghost pushed = *self;
        proof {
            let v = self.mem.words();
            let h = header(w, p);
            let n: int = choose|n: int| 0 <= n < h.capacity && a == #[trigger] block_addr(p, h, n);
            page::lemma_block_in_page(p, h, n);
            page::lemma_push_live(w, v, p, a);
            assert forall|q: int| g.pages.contains(q) && q != p implies !#[trigger] is_live(
                w,
                q,
                a,
            ) by {
                if is_live(w, q, a) {
                    Self::lemma_one_page(w, g, p, q, a);
                }
            }
            Self::lemma_after_step(
                old(self),
                self,
                p,
                a,
                if flagged_full(h) {
                    p
                } else {
                    0
                },
            );
            assert forall|b: int, x: int|
                #![trigger g.blocks.dom().contains(b), v[x]]
                g.blocks.dom().contains(b) && b != a && b <= x < block_end(g, b) && x % 8
                    == 0 implies v[x] == w[x] by {
                lemma_block_not_header(w, g, b, x, p);
                crate::arith::lemma_round_up(g.blocks[a].size() as int, 8);
                assert(block_ok(w, g, a));
                if x == a {
                    lemma_blocks_disjoint(w, g, b, a, x);
                }
            }
            assert forall|q: int| #[trigger] g.pages.contains(q) && q != p implies header(v, q)
                == header(w, q) && free_list(v, q) == free_list(w, q) by {
                lemma_other_page(w, v, g, p, q);
            }
        }
        proof {
            lemma_flag_bit();
            self.lemma_page_access(
                0,
                if flagged_full(header(w, p)) {
                    p
                } else {
                    0
                },
                p,
            );
        }
        let h = page::read(page, &self.mem);
        let needs: bool = needs_transition(&h);
        if needs {
            self.dealloc_transition(page);
        }
        proof {
            Self::lemma_freed_trans(old(self), &pushed, self, a);
            let u = header(pushed.mem.words(), p);
            assert(u.used == header(w, p).used - 1);
            assert(u.retire_expire == header(w, p).retire_expire);
            assert(u.flags == header(w, p).flags && u.bin == header(w, p).bin);
            assert forall|q: int| #[trigger] self@.pages.contains(q) implies old(self)@.pages.contains(
                q,
            ) && (q != p ==> page_kept(w, self.mem.words(), q)) by {
                if needs {
                    assert(pushed@.pages.contains(q));
                }
            }
            if flagged_full(header(w, p)) {
                Self::lemma_full_used(old(self), p);
            }
        }
    }

    /// A page in the full queue has several blocks, all of them live.
    proof fn lemma_full_used(heap: &Self, p: int)
        requires
            heap.inv(0, 0),
            heap.model@.pages.contains(p),
            flagged_full(header(heap.mem.words(), p)),
        ensures
            header(heap.mem.words(), p).used > 1,
    {
        let w = heap.mem.words();
        let g = heap.model@;
        let l = g.qs[FULL_QUEUE as int];
        lemma_home_range(w, g, p);
        lemma_page_queued(w, heap.queues@, g, 0, p);
        reveal(full_ok);
        let i: int = l.index_of(p);
        assert(header(w, l[i]).used == header(w, l[i]).reserved);
        crate::bins::law_page_geometry(header(w, p).bin as int);
    }

    /// A free made the page empty (and it is not retired yet), or the page sits in the full
    /// queue: fix the queues.
    fn dealloc_transition(&mut self, page: usize)
        requires
            old(self).initialized,
            page > 0,
            old(self).model@.pages.contains(page as int),
            old(self).inv(
                0,
                if header(old(self).mem.words(), page as int).flags != 0 {
                    page as int
                } else {
                    0
                },
            ),
        ensures
            final(self).inv(0, 0),
            final(self).kept(old(self)),
            ({
                let p = page as int;
                let h = header(old(self).mem.words(), p);
                let g = old(self).model@;
                let same = free_list(final(self).mem.words(), p) == free_list(
                    old(self).mem.words(),
                    p,
                );
                if h.flags == 0 && (h.used > 0 || h.retire_expire != 0 || worth_retiring(
                    g.qs[h.bin as int].len() as int,
                    h.block_size as int,
                )) {
                    &&& final(self).model@ == g
                    &&& final(self).slices == old(self).slices
                    &&& same
                    &&& if h.used == 0 && h.retire_expire == 0 {
                        &&& header(final(self).mem.words(), p) == (Page {
                            retire_expire: retire_cycles(h.block_size as int) as u8,
                            ..h
                        })
                        &&& final(self).retired() == widened(old(self).retired(), h.bin as int)
                    } else {
                        &&& header(final(self).mem.words(), p) == h
                        &&& final(self).retired() == old(self).retired()
                    }
                } else if h.flags == 0 {
                    &&& final(self).model@.pages == g.pages.remove(p)
                    &&& final(self).model@.qs == taken_off(g, p, h.bin as int)
                    &&& final(self).slices@ == old(self).slices@.given(
                        slice_of(p),
                        page_bytes(h) / SLICE_SIZE as int,
                        false,
                    )
                    &&& final(self).retired() == old(self).retired()
                } else {
                    h.used > 0 ==> {
                        &&& final(self).model@ == (HeapModel {
                            qs: brought_back(g, p, h.bin as int),
                            ..g
                        })
                        &&& final(self).slices == old(self).slices
                        &&& same
                        &&& header(final(self).mem.words(), p) == (Page {
                            flags: 0,
                            next: header(final(self).mem.words(), p).next,
                            prev: header(final(self).mem.words(), p).prev,
                            ..h
                        })
                        &&& final(self).retired() == old(self).retired()
                    }
                }
            }),
            others_kept(old(self), final(self), page as int),
    {
        let ghost p: int = page as int;
        let ghost room: int = if header(self.mem.words(), p).flags != 0 {
            p
        } else {
            0
        };
        proof {
            self.lemma_page_access(0, room, p);
            lemma_flag_bit();
        }
        let h = page::read(page, &self.mem);
        if h.flags != 0 {
            self.unfull(page);
        } else {
            proof {
                Self::lemma_kept_labels(old(self), self);
            }
        }
        if h.used == 0 {
            let ghost unfulled = *self;
            proof {
                self.lemma_page_access(0, 0, p);
            }
            self.retire(page);
            proof {
                Self::lemma_kept_trans(old(self), &unfulled, self);
            }
        }
    }

    /// A block lies in one page.
    proof fn lemma_one_page(w: Map<int, u64>, g: HeapModel, p: int, q: int, a: int)
        requires
            pages_ok(w, g),
            g.pages.contains(p),
            g.pages.contains(q),
            is_live(w, p, a),
            is_live(w, q, a),
        ensures
            p == q,
    {
        if p != q {
            lemma_pages_apart(w, g, p, q);
            lemma_home_range(w, g, p);
            lemma_home_range(w, g, q);
            let h = header(w, p);
            let k = header(w, q);
            let i: int = choose|i: int| 0 <= i < h.capacity && a == #[trigger] block_addr(p, h, i);
            let j: int = choose|j: int| 0 <= j < k.capacity && a == #[trigger] block_addr(q, k, j);
            page::lemma_page_shape(p, h);
            page::lemma_page_shape(q, k);
            page::lemma_block_in_page(p, h, i);
            page::lemma_block_in_page(q, k, j);
        }
    }

    /// Contents kept but for a block that is no more, and then kept.
    proof fn lemma_freed_trans(a: &Self, b: &Self, c: &Self, block: int)
        requires
            b.model@.blocks == a.model@.blocks.remove(block),
            contents_kept(a.mem.words(), b.mem.words(), a.model@, block),
            c.model@.blocks == b.model@.blocks,
            contents_kept(b.mem.words(), c.mem.words(), b.model@, 0),
            !a.model@.blocks.dom().contains(0),
        ensures
            c.model@.blocks == a.model@.blocks.remove(block),
            contents_kept(a.mem.words(), c.mem.words(), a.model@, block),
    {
        let g = a.model@;
        assert forall|p: int, x: int|
            #![trigger g.blocks.dom().contains(p), c.mem.words()[x]]
            g.blocks.dom().contains(p) && p != block && p <= x < block_end(g, p) && x % 8
                == 0 implies c.mem.words()[x] == a.mem.words()[x] by {
            assert(b.model@.blocks.dom().contains(p));
            assert(block_end(b.model@, p) == block_end(g, p));
            assert(b.mem.words()[x] == a.mem.words()[x]);
        }
    }

    /// A free made room in a full page: move it back to its bin queue (at the end: putting it in
    /// front slows workloads that free one block of many full pages).
    fn unfull(&mut self, page: usize)
        requires
            old(self).inv(0, page as int),
            page > 0,
            old(self).initialized,
            old(self).model@.pages.contains(page as int),
            header(old(self).mem.words(), page as int).flags != 0,
        ensures
            final(self).inv(0, 0),
            final(self).kept(old(self)),
            final(self).settings_of(old(self)),
            final(self).model@ == (HeapModel {
                qs: brought_back(
                    old(self).model@,
                    page as int,
                    header(old(self).mem.words(), page as int).bin as int,
                ),
                ..old(self).model@
            }),
            ({
                let h = header(old(self).mem.words(), page as int);
                let k = header(final(self).mem.words(), page as int);
                same_but_heap_fields(h, k) && k.flags == 0 && k.retire_expire == h.retire_expire
            }),
            free_list(final(self).mem.words(), page as int) == free_list(
                old(self).mem.words(),
                page as int,
            ),
            others_kept(old(self), final(self), page as int),
    {
        let ghost p: int = page as int;
        let ghost w = self.mem.words();
        let ghost g = self.model@;
        proof {
            self.lemma_page_access(0, p, p);
            lemma_flag_bit();
            lemma_page_queued(w, self.queues@, g, 0, p);
        }
        self.remove(FULL_QUEUE, page, Ghost(p));
        let ghost removed = *self;
        proof {
            assert(links_only(header(w, p), header(self.mem.words(), p)));
        }
        self.set_full(page, false, Ghost(p));
        let ghost cleared = *self;
        proof {
            self.lemma_page_access(p, p, p);
        }
        let h = page::read(page, &self.mem);
        self.push_back(h.bin as usize, page, Ghost(p));
        proof {
            let v = self.mem.words();
            let k = self.model@;
            assert(links_only(header(cleared.mem.words(), p), header(v, p)));
            lemma_links_labels(w, removed.mem.words(), g);
            lemma_relabelled_page(w, removed.mem.words(), g, p);
            lemma_links_labels(cleared.mem.words(), v, cleared.model@);
            lemma_relabelled_page(cleared.mem.words(), v, cleared.model@, p);
            Self::lemma_kept_labels(old(self), &removed);
            Self::lemma_kept_labels(&removed, &cleared);
            Self::lemma_kept_labels(&cleared, self);
            Self::lemma_kept_trans(old(self), &removed, &cleared);
            Self::lemma_kept_trans(old(self), &cleared, self);
            assert forall|q: int| #[trigger] k.pages.contains(q) && q != p implies page_kept(
                w,
                v,
                q,
            ) by {
                assert(g.pages.contains(q));
                assert(links_only(header(w, q), header(removed.mem.words(), q)));
                lemma_relabelled_page(w, removed.mem.words(), g, q);
                assert(removed.model@.pages.contains(q));
                assert(links_only(header(cleared.mem.words(), q), header(v, q)));
                lemma_relabelled_page(cleared.mem.words(), v, cleared.model@, q);
            }
            assert(full_ok(v, k, 0)) by {
                reveal(full_ok);
                assert forall|i: int|
                    0 <= i < k.qs[FULL_QUEUE as int].len() && k.qs[FULL_QUEUE as int][i]
                        != 0 implies (#[trigger] header(v, k.qs[FULL_QUEUE as int][i])).used
                    == header(v, k.qs[FULL_QUEUE as int][i]).reserved by {
                    lemma_queue_member(v, self.queues@, k, 0, FULL_QUEUE as int, i);
                    self.lemma_page_access(0, p, p);
                }
            }
        }
    }

    /// Return the slices of a run to the map.
    fn free_run(&mut self, addr: usize, layout: Layout)
        requires
            old(self).inv(0, 0),
            old(self).initialized,
            old(self).model@.blocks.dom().contains(addr as int),
            old(self).model@.blocks[addr as int] == layout,
            serving(layout) is Huge,
        ensures
            final(self).inv(0, 0),
            final(self).model@ == without_block(old(self).model@, addr as int),
            *final(self) == (Heap {
                slices: final(self).slices,
                model: final(self).model,
                ..*old(self)
            }),
            final(self).slices@ == old(self).slices@.given(
                slice_of(addr as int),
                run_slices(layout.size() as int),
                false,
            ),
    {
        let ghost a: int = addr as int;
        let ghost g = self.model@;
        let ghost w = self.mem.words();
        let n: usize = huge_slices(&layout);
        let start: usize = addr / SLICE_SIZE;
        proof {
            self.lemma_run_slices(a, 0, n as int);
        }
        self.slices.free(start, n);
        self.model = Ghost(without_block(g, a));
        proof {
            Self::lemma_run_trimmed(old(self), self, a, layout.size() as int, 0, None);
        }
    }

    /// Slices `[from, to)` of a live run are handed out and lie inside the map.
    proof fn lemma_run_slices(&self, a: int, from: int, to: int)
        requires
            self.inv(0, 0),
            self.initialized,
            is_run(self.model@, a),
            0 <= from < to <= run_slices(self.model@.blocks[a].size() as int),
        ensures
            self.slices@.run_taken(slice_of(a) + from, to - from),
            self.slices@.base <= slice_of(a) + from,
            slice_of(a) + to <= self.slices@.limit,
            slice_of(a) + to <= MAX_SLICE_INDEX || slice_of(a) + from > MAX_SLICE_INDEX,
            a % SLICE_SIZE as int == 0,
            a > 0,
    {
        let w = self.mem.words();
        let g = self.model@;
        let sm = self.slices@;
        reveal(blocks_ok);
        reveal(holders_ok);
        assert(block_ok(w, g, a));
        let first: int = slice_of(a);
        assert forall|s: int| first + from <= s < first + to implies !#[trigger] sm.free.contains(
            s,
        ) by {
            assert(held(g, s, a));
            assert(holder_ok(w, g, sm, &self.mem, s));
        }
        assert(held(g, first + from, a));
        assert(holder_ok(w, g, sm, &self.mem, first + from));
        assert(held(g, first + to - 1, a));
        assert(holder_ok(w, g, sm, &self.mem, first + to - 1));
        if first + from <= MAX_SLICE_INDEX < first + to {
            assert(held(g, MAX_SLICE_INDEX as int, a));
            assert(holder_ok(w, g, sm, &self.mem, MAX_SLICE_INDEX as int));
        }
    }

    /// A run that gives back its slices from the `keep`th on, all of them when it is freed.
    proof fn lemma_run_trimmed(
        before: &Self,
        after: &Self,
        a: int,
        size: int,
        keep: int,
        layout: Option<Layout>,
    )
        requires
            before.inv(0, 0),
            before.initialized,
            *after == (Heap { slices: after.slices, model: after.model, ..*before }),
            after.slices.wf(),
            is_run(before.model@, a),
            size == before.model@.blocks[a].size(),
            0 <= keep <= run_slices(size),
            layout is None ==> keep == 0,
            layout matches Some(l) ==> {
                &&& l.wf()
                &&& l.size() > 0
                &&& serving(l) is Huge
                &&& run_slices(l.size() as int) == keep
                &&& l.align() == before.model@.blocks[a].align()
            },
            after.slices@ == before.slices@.given(slice_of(a) + keep, run_slices(size) - keep, false),
            after.model@ == (HeapModel {
                holder: before.model@.holder.remove_keys(
                    Set::new(
                        |s: int| slice_of(a) + keep <= s < slice_of(a) + run_slices(size),
                    ),
                ),
                blocks: match layout {
                    None => before.model@.blocks.remove(a),
                    Some(l) => before.model@.blocks.insert(a, l),
                },
                ..before.model@
            }),
        ensures
            after.inv(0, 0),
    {
        let w = before.mem.words();
        let g = before.model@;
        let k = after.model@;
        let sm = before.slices@;
        let sn = after.slices@;
        let first: int = slice_of(a);
        let n: int = run_slices(size);
        reveal(pages_ok);
        reveal(holders_ok);
        reveal(blocks_ok);
        before.slices.lemma_wf_facts();
        assert(block_ok(w, g, a));
        assert forall|q: int| #[trigger] k.pages.contains(q) implies page_ok(w, k, q) by {
            assert(page_ok(w, g, q));
            assert forall|s: int|
                slice_of(q) <= s < slice_of(q + page_bytes(header(w, q))) implies #[trigger] held(
                k,
                s,
                q,
            ) by {
                assert(held(g, s, q));
                if first <= s < first + n {
                    assert(held(g, s, a));
                }
            }
        }
        lemma_queues_model(w, before.queues@, g, k, 0, 0);
        assert forall|b: int| #[trigger] k.blocks.dom().contains(b) implies block_ok(w, k, b) by {
            assert(g.blocks.dom().contains(b));
            assert(block_ok(w, g, b));
            if b == a {
                assert forall|s: int|
                    slice_of(a) <= s < slice_of(a) + run_slices(
                        k.blocks[a].size() as int,
                    ) implies #[trigger] held(k, s, a) by {
                    assert(held(g, s, a));
                }
            } else if serving(g.blocks[b]) is Huge {
                assert forall|s: int|
                    slice_of(b) <= s < slice_of(b) + run_slices(
                        k.blocks[b].size() as int,
                    ) implies #[trigger] held(k, s, b) by {
                    assert(held(g, s, b));
                    if first <= s < first + n {
                        assert(held(g, s, a));
                    }
                }
            }
        }
        assert(no_lost_block(w, k)) by {
            reveal(no_lost_block);
            assert forall|q: int, b: int|
                k.pages.contains(q) && #[trigger] is_live(w, q, b) implies k.blocks.dom().contains(
                b,
            ) by {
                assert(g.blocks.dom().contains(b));
                if b == a {
                    Self::lemma_run_not_live(w, g, q, a);
                }
            }
        }
        assert forall|s: int| #[trigger] k.holder.dom().contains(s) implies holder_ok(
            w,
            k,
            sn,
            &after.mem,
            s,
        ) by {
            assert(g.holder.dom().contains(s));
            assert(holder_ok(w, g, sm, &before.mem, s));
            assert(k.holder[s] == g.holder[s]);
        }
        assert forall|s: int| #[trigger] sn.free.contains(s) implies after.mem.owns(s) by {
            if first + keep <= s < first + n {
                assert(held(g, s, a));
                assert(holder_ok(w, g, sm, &before.mem, s));
            } else {
                assert(sm.free.contains(s));
            }
        }
        assert(no_lost_slice(k, sn, &after.mem, 0, 0)) by {
            reveal(no_lost_slice);
            assert forall|s: int|
                #[trigger] after.mem.owns(s) && sn.base <= s < sn.usable_limit() implies
                sn.free.contains(s) || k.holder.dom().contains(s) by {
                assert(sm.usable_limit() == sn.usable_limit());
                assert(before.mem.owns(s));
            }
        }
    }

    /// A run is no block of a page.
    proof fn lemma_run_not_live(w: Map<int, u64>, g: HeapModel, q: int, a: int)
        requires
            pages_ok(w, g),
            blocks_ok(w, g),
            g.pages.contains(q),
            is_run(g, a),
        ensures
            !is_live(w, q, a),
    {
        if is_live(w, q, a) {
            reveal(pages_ok);
            reveal(blocks_ok);
            assert(page_ok(w, g, q));
            assert(block_ok(w, g, a));
            lemma_home_range(w, g, q);
            let h = header(w, q);
            let i: int = choose|i: int| 0 <= i < h.capacity && a == #[trigger] block_addr(q, h, i);
            page::lemma_page_shape(q, h);
            page::lemma_block_in_page(q, h, i);
            assert(held(g, slice_of(a), q));
            assert(held(g, slice_of(a), a));
        }
    }
}

} // verus!
