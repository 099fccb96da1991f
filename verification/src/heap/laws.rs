//! What the operations of the heap promise together.
use vstd::arithmetic::power2::is_pow2;
use vstd::prelude::*;

use super::{empty_model, initial_slices, page_stays, Heap, MAX_CANDIDATES, RETIRE_MAX_PAGES};
use super::entry::{allocated, allocated_at, collected, freed, served_directly};
use super::placement::{
    found_by_search, fresh_after_turns, fresh_or_parked, is_first_block, no_empty_page_but,
    run_found, slices_for,
};
use super::resize::{
    in_place, later, made_for_move, moved, moved_if_possible, resized, resizes_in_place, run_grown,
};
use super::search::{fronted, has_room, law_the_search_finds_room, search, search_on, Search};
use super::turns::{
    after_turn, among_first, expires, in_use, left_free, left_in, outlasts, retire_cycles,
    some_left, staying, turned,
};
use crate::arith::{div_ceil, lemma_round_up, round_up};
use crate::backend::{slice_of, Memory};
use crate::bins::{
    bin_bytes, bin_kind, bin_of, first_block, kind_page_size, law_direct_slot_shares_a_bin,
    law_page_geometry, lemma_bin_of, Class, DIRECT_ENTRIES, DIRECT_MAX_SIZE, LARGE_MAX_OBJ_SIZE,
    MAX_BIN, MAX_BINNED_BIN, MAX_NATURAL_ALIGN, SLICE_SIZE, SMALL_MAX_OBJ_SIZE, WORD,
};
use crate::layout::Layout;
use crate::model::{
    block_end, block_ok, blocks_ok, contents_kept, full_ok, holder_ok, holders_ok, home, is_run,
    lemma_block_not_header, lemma_block_words, lemma_blocks_disjoint, lemma_flag_bit,
    lemma_home_range, lemma_page_queued, lemma_queue, lemma_queue_member, lemma_serving_bin,
    no_lost_slice, page_kept, page_of, run_align, run_slices, serving, FULL_QUEUE, QUEUE_COUNT,
};
use crate::page::{
    flagged_full, free_list, header, law_blocks_add_up, lemma_live_block_counts, page_bytes,
    HEADER_BYTES,
};
use crate::slices::{lemma_requests_only_add, refused, with_fresh};

verus! {

/// A live block is aligned as asked, lies in memory that is the allocator's and in no free slice,
/// and does not reach into the header of a page. A run starts at a slice.
pub proof fn law_live_blocks_are_usable<M: Memory, const WORDS: usize>(
    heap: &Heap<M, WORDS>,
    a: int,
    x: int,
)
    requires
        heap.wf(),
        heap.blocks().dom().contains(a),
        a <= x < a + heap.blocks()[a].size(),
    ensures
        a > 0,
        a % heap.blocks()[a].align() as int == 0,
        serving(heap.blocks()[a]) is Huge ==> a % SLICE_SIZE as int == 0,
        a + heap.blocks()[a].size() <= usize::MAX,
        heap.memory_view().owns(slice_of(x)),
        !heap.slice_view().free.contains(slice_of(x)),
        forall|p: int| #[trigger] heap@.pages.contains(p) ==> !(p <= x < p + HEADER_BYTES),
{
    let w = heap.mem.words();
    let g = heap.model@;
    heap.lemma_live(a);
    lemma_round_up(g.blocks[a].size() as int, 8);
    assert(block_ok(w, g, a)) by {
        reveal(blocks_ok);
    }
    lemma_block_words(w, g, a, x);
    reveal(holders_ok);
    assert(g.holder.dom().contains(slice_of(x)));
    assert(holder_ok(w, g, heap.slices@, &heap.mem, slice_of(x)));
    assert forall|p: int| #[trigger] heap@.pages.contains(p) implies !(p <= x < p
        + HEADER_BYTES) by {
        lemma_block_not_header(w, g, a, x, p);
    }
}

/// Live blocks do not overlap.
pub proof fn law_live_blocks_are_apart<M: Memory, const WORDS: usize>(
    heap: &Heap<M, WORDS>,
    a: int,
    b: int,
    x: int,
)
    requires
        heap.wf(),
        heap.blocks().dom().contains(a),
        heap.blocks().dom().contains(b),
        a != b,
        a <= x < a + heap.blocks()[a].size(),
    ensures
        !(b <= x < b + heap.blocks()[b].size()),
{
    let g = heap.model@;
    lemma_round_up(g.blocks[a].size() as int, 8);
    lemma_round_up(g.blocks[b].size() as int, 8);
    heap.lemma_live(a);
    heap.lemma_live(b);
    lemma_blocks_disjoint(heap.mem.words(), g, a, b, x);
}

/// Once the heap has started, every slice it may use is free or belongs to one page or one run,
/// and never both: nothing is lost and nothing is handed out twice.
pub proof fn law_every_slice_is_free_or_held<M: Memory, const WORDS: usize>(
    heap: &Heap<M, WORDS>,
    s: int,
)
    requires
        heap.wf(),
        heap.is_initialized(),
        heap.memory_view().owns(s),
        heap.slice_view().base <= s < heap.slice_view().usable_limit(),
    ensures
        heap.slice_view().free.contains(s) <==> !heap@.holder.dom().contains(s),
        heap@.holder.dom().contains(s) ==> {
            let p = heap@.holder[s];
            if heap@.pages.contains(p) {
                slice_of(p) <= s < slice_of(p + page_bytes(header(heap.words(), p)))
            } else {
                is_run(heap@, p) && slice_of(p) <= s < slice_of(p) + run_slices(
                    heap.blocks()[p].size() as int,
                )
            }
        },
{
    reveal(no_lost_slice);
    reveal(holders_ok);
    if heap@.holder.dom().contains(s) {
        assert(holder_ok(heap.mem.words(), heap.model@, heap.slices@, &heap.mem, s));
    }
}

/// Freeing a block that was just allocated leaves the live blocks and all they hold as they were.
pub proof fn law_freeing_undoes_allocating<M: Memory, const WORDS: usize>(
    before: &Heap<M, WORDS>,
    between: &Heap<M, WORDS>,
    after: &Heap<M, WORDS>,
    layout: Layout,
    zero: bool,
    a: usize,
)
    requires
        before.wf(),
        allocated(before, between, layout, zero, Some(a)),
        freed(between, after, a as int),
    ensures
        after.blocks() == before.blocks(),
        contents_kept(before.words(), after.words(), before@, 0),
{
    let g = before@;
    assert(after.blocks() =~= before.blocks());
    assert forall|b: int, x: int|
        #![trigger g.blocks.dom().contains(b), after.words()[x]]
        g.blocks.dom().contains(b) && b != 0 && b <= x < block_end(g, b) && x % 8
            == 0 implies after.words()[x] == before.words()[x] by {
        assert(between@.blocks.dom().contains(b));
        assert(block_end(between@, b) == block_end(g, b));
        assert(between.words()[x] == before.words()[x]);
    }
}

/// The block freed last is handed out first: a block of the first page of its bin's queue, in the
/// sizes of the direct table, comes back for the next request of its bin, and the blocks that were
/// freed before it are next as they were.
pub proof fn law_the_last_block_freed_is_the_next_allocated<M: Memory, const WORDS: usize>(
    before: &Heap<M, WORDS>,
    between: &Heap<M, WORDS>,
    after: &Heap<M, WORDS>,
    a: int,
    layout: Layout,
    r: Option<usize>,
)
    requires
        before.wf(),
        before.blocks().dom().contains(a),
        serving(before.blocks()[a]) is Bin,
        ({
            let p = page_of(bin_kind(serving(before.blocks()[a])->0 as int), a);
            let h = header(before.words(), p);
            &&& page_stays(before@, h)
            &&& before@.qs[h.bin as int].len() > 0
            &&& before@.qs[h.bin as int][0] == p
            &&& serving(layout) == Class::Bin(h.bin)
        }),
        round_up(layout.size() as int, layout.align() as int) <= DIRECT_MAX_SIZE,
        freed(before, between, a),
        allocated_at(between, after, layout, r),
    ensures
        r is Some && r->0 == a,
        ({
            let p = page_of(bin_kind(serving(before.blocks()[a])->0 as int), a);
            &&& free_list(after.words(), p) == free_list(before.words(), p)
            &&& header(after.words(), p).used == header(before.words(), p).used
            &&& after@.qs == before@.qs
        }),
{
    let p = page_of(bin_kind(serving(before.blocks()[a])->0 as int), a);
    before.lemma_live(a);
    assert(block_ok(before.mem.words(), before.model@, a)) by {
        reveal(blocks_ok);
    }
    lemma_home_range(before.mem.words(), before.model@, p);
    lemma_live_block_counts(before.mem.words(), p, a);
    assert(free_list(between.words(), p)[0] == a);
    assert(free_list(between.words(), p).drop_first() =~= free_list(before.words(), p));
}

/// A run at the top of the heap, with nothing but free slices between it and the end of memory,
/// grows where it is, provided that what is missing fits in the map and memory neither refuses to
/// grow nor grows elsewhere than at its end.
pub proof fn law_a_run_at_the_top_grows_in_place<M: Memory, const WORDS: usize>(
    before: &Heap<M, WORDS>,
    after: &Heap<M, WORDS>,
    a: usize,
    layout: Layout,
    r: Option<usize>,
)
    requires
        before.blocks().dom().contains(a as int),
        serving(before.blocks()[a as int]) is Huge,
        serving(layout) is Huge,
        resized(before, after, a as int, layout, r),
        ({
            let tail = slice_of(a as int) + run_slices(before.blocks()[a as int].size() as int);
            let end = before.memory_view().end() as int;
            &&& tail <= end < slice_of(a as int) + run_slices(layout.size() as int)
            &&& before.slice_view().run_free(tail, end - tail)
            &&& slice_of(a as int) + run_slices(layout.size() as int)
                <= before.slice_view().usable_limit()
            &&& forall|i: int|
                before.memory_view().growths().len() <= i < after.memory_view().growths().len()
                    ==> (#[trigger] after.memory_view().growths()[i]).first is Some
            &&& after.memory_view().end() > end ==> after.memory_view().owns(end)
        }),
    ensures
        r == Some(a),
{
    let old = before.blocks()[a as int];
    let m0 = before.slice_view();
    let start = slice_of(a as int);
    let have = run_slices(old.size() as int);
    let tail = start + have;
    let extra = run_slices(layout.size() as int) - have;
    let end = before.memory_view().end() as int;
    if !resizes_in_place(m0, a as int, old, layout) {
        let (rel, mid): (Heap<M, WORDS>, Heap<M, WORDS>) = choose|
            rel: Heap<M, WORDS>,
            mid: Heap<M, WORDS>,
        | #[trigger]
            run_grown(before, &rel, &mid, after, a as int, layout, r);
        let m = rel.slice_view();
        if r != Some(a) {
            assert(m.run_free(tail, end - tail)) by {
                assert forall|s: int| tail <= s < end implies #[trigger] m.free.contains(s) by {
                    assert(m0.free.contains(s));
                }
            }
            let at = mid.memory_view();
            lemma_moves_add(&mid, after, a as int, layout, r);
            if refused(&before.memory_view(), &at, tail + extra - end) {
                let k: int = at.growths().len() - 1;
                assert(after.memory_view().growths()[k] == at.growths()[k]);
            }
            assert(at.end() > end && !at.owns(end));
            assert(after.memory_view().owns(end) == at.owns(end));
        }
    }
}

/// What memory owned before a run was asked for is what it owns of that part afterwards, and no
/// request to grow is forgotten.
proof fn lemma_run_adds<M: Memory, const WORDS: usize>(
    before: &Heap<M, WORDS>,
    after: &Heap<M, WORDS>,
    layout: Layout,
    r: Option<usize>,
)
    requires
        serving(layout) is Huge,
        made_for_move(before, after, layout, r),
    ensures
        later(&before.memory_view(), &after.memory_view()),
{
    let mid: Heap<M, WORDS> = choose|mid: Heap<M, WORDS>| #[trigger]
        run_found(before, &mid, after, layout, true, r);
    lemma_requests_only_add(
        mid.slice_view(),
        &before.memory_view(),
        &after.memory_view(),
        run_slices(layout.size() as int),
        run_align(layout.align() as int),
        before.spec_policy(),
    );
}

/// The same of a move.
proof fn lemma_moves_add<M: Memory, const WORDS: usize>(
    before: &Heap<M, WORDS>,
    after: &Heap<M, WORDS>,
    a: int,
    layout: Layout,
    r: Option<usize>,
)
    requires
        serving(layout) is Huge,
        moved_if_possible(before, after, a, layout, r),
    ensures
        later(&before.memory_view(), &after.memory_view()),
{
    match r {
        Some(b) => {
            let (fresh, filled): (Heap<M, WORDS>, Heap<M, WORDS>) = choose|
                fresh: Heap<M, WORDS>,
                filled: Heap<M, WORDS>,
            | #[trigger]
                moved(before, &fresh, &filled, after, a, layout, b);
            lemma_run_adds(before, &fresh, layout, Some(b));
            assert forall|s: int| s < before.memory_view().end() implies #[trigger]
                after.memory_view().owns(s) == before.memory_view().owns(s) by {
                assert(filled.memory_view().owns(s) == fresh.memory_view().owns(s));
                assert(fresh.memory_view().owns(s) == before.memory_view().owns(s));
            }
        },
        None => {
            lemma_run_adds(before, after, layout, None);
        },
    }
}

/// A run that was freed can be had again: the same request finds a fit without growing memory.
pub proof fn law_a_freed_run_can_be_had_again<M: Memory, const WORDS: usize>(
    before: &Heap<M, WORDS>,
    after: &Heap<M, WORDS>,
    a: int,
)
    requires
        before.wf(),
        is_run(before@, a),
        freed(before, after, a),
    ensures
        after.slice_view().has_fit(
            slices_for(before.blocks()[a]).0,
            slices_for(before.blocks()[a]).1,
        ),
{
    let g = before.model@;
    let n: int = run_slices(g.blocks[a].size() as int);
    let m = after.slice_view();
    before.lemma_live(a);
    before.lemma_run_slices(a, 0, n);
    assert(m.run_free(slice_of(a), n));
    assert(block_ok(before.mem.words(), g, a)) by {
        reveal(blocks_ok);
    }
    lemma_run_start(a, g.blocks[a].align() as int);
    assert(m.fits(slice_of(a), n, run_align(g.blocks[a].align() as int)));
}

/// The first slice of a run that is aligned to `align` bytes.
proof fn lemma_run_start(a: int, align: int)
    requires
        is_pow2(align),
        a % SLICE_SIZE as int == 0,
        a % align == 0,
    ensures
        slice_of(a) % run_align(align) == 0,
{
    crate::arith::lemma_pow2_positive(align);
    if align > SLICE_SIZE {
        assert(is_pow2(65536)) by {
            reveal_with_fuel(is_pow2, 17);
        }
        crate::arith::lemma_pow2_divides(65536, align);
        let r: int = align / 65536;
        let k: int = a / align;
        vstd::arithmetic::div_mod::lemma_fundamental_div_mod(align, 65536);
        vstd::arithmetic::div_mod::lemma_fundamental_div_mod(a, align);
        assert(run_align(align) == r);
        assert(a == 65536 * (k * r)) by (nonlinear_arith)
            requires
                a == align * k,
                align == 65536 * r,
        ;
        assert(slice_of(a) == k * r);
        vstd::arithmetic::div_mod::lemma_mod_multiples_basic(k, r);
    }
}

/// A block of bin `old` serves a request of `new_size` bytes, `rounded` up to its alignment and of
/// bin `new`, in place only when both bins are of one kind of page, the block holds the rounded size,
/// and it stays at least half used unless the bin stays the same. A larger bin never fits, the same
/// bin always does.
pub proof fn law_in_place_keeps_the_kind_and_fits(old: int, new: int, new_size: int, rounded: int)
    requires
        1 <= old <= MAX_BIN,
        1 <= new_size <= rounded <= LARGE_MAX_OBJ_SIZE,
        new == bin_of(rounded),
    ensures
        1 <= new <= MAX_BIN,
        in_place(old, new, new_size) ==> {
            &&& bin_kind(old) == bin_kind(new)
            &&& bin_bytes(old) >= rounded
            &&& new == old || new_size >= bin_bytes(old) / 2
        },
        new > old ==> !in_place(old, new, new_size) && rounded > bin_bytes(old),
        new == old ==> in_place(old, new, new_size),
{
    lemma_bin_of(rounded);
    if new < old {
        crate::bins::lemma_bin_bytes_increasing(new, old);
    }
}

/// The in-place decision for two layouts that are served from bins: the block is left in place only
/// when the new layout leads to the same kind of page and the block holds the new size, rounded up
/// to the alignment.
pub proof fn law_a_resize_in_place_keeps_the_kind_and_fits(old: Layout, new: Layout)
    requires
        old.wf(),
        new.wf(),
        old.size() > 0,
        new.size() > 0,
        old.align() == new.align(),
        serving(old) is Bin,
        serving(new) is Bin,
    ensures
        ({
            let o = serving(old)->0 as int;
            let n = serving(new)->0 as int;
            let rounded = round_up(new.size() as int, new.align() as int);
            &&& in_place(o, n, new.size() as int) ==> {
                &&& bin_kind(o) == bin_kind(n)
                &&& bin_bytes(o) >= new.size()
                &&& bin_bytes(o) >= rounded
                &&& rounded <= SMALL_MAX_OBJ_SIZE <==> bin_kind(o) is Small
            }
            &&& !in_place(o, n, new.size() as int) ==> n != o
            &&& n > o ==> rounded > bin_bytes(o)
        }),
{
    lemma_serving_bin(old);
    lemma_serving_bin(new);
    let o: int = serving(old)->0 as int;
    let n: int = serving(new)->0 as int;
    let rounded: int = round_up(new.size() as int, new.align() as int);
    lemma_bin_of(rounded);
    if n < o {
        crate::bins::lemma_bin_bytes_increasing(n, o);
    }
    law_small_frees_mask_to_small_pages(new);
}

/// A header-less run covers its layout, with less than a slice to spare, and is aligned for it
/// whenever its first slice is a multiple of the run's alignment.
pub proof fn law_runs_cover_the_layout_and_its_alignment(layout: Layout, start: int)
    requires
        layout.wf(),
        layout.size() > 0,
        start % run_align(layout.align() as int) == 0,
    ensures
        run_slices(layout.size() as int) >= 1,
        layout.size() <= run_slices(layout.size() as int) * SLICE_SIZE < layout.size() + SLICE_SIZE,
        (start * SLICE_SIZE) % layout.align() as int == 0,
{
    super::lemma_run_align(layout.align() as int);
}

/// A free takes the short way, masking the address as one of a small page, exactly when the
/// request is served from a small page.
pub proof fn law_small_frees_mask_to_small_pages(layout: Layout)
    requires
        layout.wf(),
        layout.size() > 0,
    ensures
        ({
            let size = if layout.align() > WORD {
                round_up(layout.size() as int, layout.align() as int)
            } else {
                layout.size() as int
            };
            layout.align() <= MAX_NATURAL_ALIGN && size <= SMALL_MAX_OBJ_SIZE <==> serving(
                layout,
            ) is Bin && bin_kind(serving(layout)->0 as int) is Small
        }),
{
    let size: int = layout.size() as int;
    let align: int = layout.align() as int;
    crate::arith::lemma_pow2_positive(align);
    lemma_round_up(size, align);
    crate::bins::lemma_bin_table();
    if align <= 8 {
        crate::bins::lemma_small_align_keeps_bin(size, align);
    }
    let s: int = if align <= 8 {
        size
    } else {
        round_up(size, align)
    };
    crate::bins::lemma_bin_of(s);
    crate::bins::law_bins_are_tight(37);
    if s <= SMALL_MAX_OBJ_SIZE {
        crate::bins::law_bin_is_monotone(s, SMALL_MAX_OBJ_SIZE as int);
    } else {
        crate::bins::law_bin_is_monotone(SMALL_MAX_OBJ_SIZE + 1, s);
    }
}

/// Every entry of the direct table belongs to one bin, and the entry of a size to the bin of the
/// size.
pub proof fn law_direct_entries_match_their_bins(size: int)
    requires
        0 <= size <= DIRECT_MAX_SIZE,
    ensures
        0 <= div_ceil(size, 8) < DIRECT_ENTRIES,
        1 <= bin_of(8 * div_ceil(size, 8)) <= bin_of(DIRECT_MAX_SIZE as int),
        bin_of(8 * div_ceil(size, 8)) == bin_of(size),
{
    law_direct_slot_shares_a_bin(size);
    lemma_bin_of(size);
    crate::bins::law_bin_is_monotone(size, DIRECT_MAX_SIZE as int);
}

/// The first member stays first unless it expires.
proof fn lemma_first_stays(w: Map<int, u64>, l: Seq<int>, n: int)
    requires
        1 <= n <= l.len(),
        !expires(header(w, l[0])),
    ensures
        staying(w, l, n).len() > 0,
        staying(w, l, n)[0] == l[0],
    decreases n,
{
    if n > 1 {
        lemma_first_stays(w, l, n - 1);
    } else {
        assert(staying(w, l, 0) == Seq::<int>::empty());
        assert(staying(w, l, 1) == Seq::<int>::empty().push(l[0]));
    }
}

/// One collection, seen from an empty page at the head of its queue.
proof fn lemma_retired_turn<M: Memory, const WORDS: usize>(
    o: &Heap<M, WORDS>,
    n: &Heap<M, WORDS>,
    p: int,
)
    requires
        o.wf(),
        collected(o, n, false),
        o@.pages.contains(p),
        retired_first(o, p),
    ensures
        n@.pages.contains(p) == (header(o.words(), p).retire_expire > 1),
        n@.pages.contains(p) ==> {
            &&& retired_first(n, p)
            &&& header(n.words(), p).retire_expire == header(o.words(), p).retire_expire - 1
        },
{
    let w = o.words();
    let h = header(w, p);
    let b: int = h.bin as int;
    let l = o@.qs[b];
    crate::model::lemma_flag_bit();
    o.lemma_page_access(0, 0, p);
    assert(home(h) == b);
    assert(l[0] == p);
    assert(among_first(l, RETIRE_MAX_PAGES as int, p));
    assert(turned(h, header(n.words(), p), n@.pages.contains(p), true));
    if h.retire_expire > 1 {
        assert(outlasts(header(w, l[0])));
        assert(some_left(w, l, RETIRE_MAX_PAGES as int));
        assert(left_in(o, b));
        lemma_first_stays(
            w,
            l,
            crate::arith::min(RETIRE_MAX_PAGES as int, l.len() as int),
        );
        assert(n@.qs[b] == after_turn(w, l));
        assert(n@.qs[b][0] == p);
    }
}

/// The page is empty, retired, and the first of its queue, which is in the retired range.
pub open spec fn retired_first<M: Memory, const WORDS: usize>(h: &Heap<M, WORDS>, p: int) -> bool {
    let head = header(h.words(), p);
    &&& head.used == 0
    &&& head.retire_expire > 0
    &&& head.flags == 0
    &&& h@.qs[head.bin as int].len() > 0
    &&& h@.qs[head.bin as int][0] == p
    &&& h.ages(head.bin as int)
}

/// An emptied page at the head of its queue is kept through as many collections as its countdown
/// says, less one, and released by the last.
pub proof fn law_a_retired_page_is_released_by_its_last_turn<M: Memory, const WORDS: usize>(
    hs: Seq<Heap<M, WORDS>>,
    p: int,
)
    requires
        hs.len() > 0,
        hs[0]@.pages.contains(p),
        retired_first(&hs[0], p),
        hs.len() == header(hs[0].words(), p).retire_expire + 1,
        forall|i: int| 0 <= i < hs.len() ==> (#[trigger] hs[i]).wf(),
        forall|i: int, j: int|
            #![trigger hs[i], hs[j]]
            0 <= i && j == i + 1 && j < hs.len() ==> collected(&hs[i], &hs[j], false),
    ensures
        forall|i: int| 0 <= i < hs.len() - 1 ==> (#[trigger] hs[i])@.pages.contains(p),
        !hs.last()@.pages.contains(p),
{
    let c: int = header(hs[0].words(), p).retire_expire as int;
    lemma_turns_until(hs, p, c, c - 1);
    assert forall|i: int| 0 <= i < hs.len() - 1 implies (#[trigger] hs[i])@.pages.contains(p) by {
        lemma_turns_until(hs, p, c, i);
    }
    assert(collected(&hs[c - 1], &hs[c], false));
    lemma_retired_turn(&hs[c - 1], &hs[c], p);
}

proof fn lemma_turns_until<M: Memory, const WORDS: usize>(
    hs: Seq<Heap<M, WORDS>>,
    p: int,
    c: int,
    i: int,
)
    requires
        0 <= i < c,
        hs.len() == c + 1,
        hs[0]@.pages.contains(p),
        retired_first(&hs[0], p),
        c == header(hs[0].words(), p).retire_expire,
        forall|i: int| 0 <= i < hs.len() ==> (#[trigger] hs[i]).wf(),
        forall|i: int, j: int|
            #![trigger hs[i], hs[j]]
            0 <= i && j == i + 1 && j < hs.len() ==> collected(&hs[i], &hs[j], false),
    ensures
        hs[i]@.pages.contains(p),
        retired_first(&hs[i], p),
        header(hs[i].words(), p).retire_expire == c - i,
    decreases i,
{
    if i > 0 {
        lemma_turns_until(hs, p, c, i - 1);
        assert(collected(&hs[i - 1], &hs[i], false));
        lemma_retired_turn(&hs[i - 1], &hs[i], p);
    }
}

/// A forced collection releases an empty page wherever it is in its queue: it is a page no more, in
/// no queue, and its slices are free. Pages in use stay.
pub proof fn law_a_forced_collection_releases_empty_pages<M: Memory, const WORDS: usize>(
    before: &Heap<M, WORDS>,
    after: &Heap<M, WORDS>,
    p: int,
)
    requires
        before.wf(),
        before@.pages.contains(p),
        collected(before, after, true),
    ensures
        after@.pages.contains(p) <==> header(before.words(), p).used > 0,
        header(before.words(), p).used == 0 ==> {
            &&& forall|j: int| 0 <= j < QUEUE_COUNT ==> !(#[trigger] after@.qs[j]).contains(p)
            &&& forall|s: int|
                slice_of(p) <= s < slice_of(p + page_bytes(header(before.words(), p)))
                    ==> #[trigger] after.slice_view().free.contains(s)
        },
{
    let w = before.words();
    if home(header(w, p)) == FULL_QUEUE {
        before.lemma_full_in_use(p);
    }
    if header(w, p).used == 0 {
        assert forall|j: int| 0 <= j < QUEUE_COUNT implies !(#[trigger] after@.qs[j]).contains(
            p,
        ) by {
            let l = before@.qs[j];
            lemma_in_use_counts(w, l, l.len() as int);
        }
        assert forall|s: int|
            slice_of(p) <= s < slice_of(p + page_bytes(header(w, p))) implies #[trigger] after.slice_view().free.contains(
            s,
        ) by {
            assert(left_free(w, before@.pages, after@.pages, s));
        }
    }
}

/// Members that are in use have a live block.
proof fn lemma_in_use_counts(w: Map<int, u64>, l: Seq<int>, n: int)
    requires
        0 <= n <= l.len(),
    ensures
        forall|p: int| #[trigger] in_use(w, l, n).contains(p) ==> header(w, p).used != 0,
    decreases n,
{
    if n > 0 {
        lemma_in_use_counts(w, l, n - 1);
        let k = in_use(w, l, n - 1);
        assert forall|p: int| #[trigger] in_use(w, l, n).contains(p) implies header(w, p).used
            != 0 by {
            let m = in_use(w, l, n);
            let i: int = m.index_of(p);
            if i < k.len() {
                assert(k[i] == p);
                assert(k.contains(p));
            }
        }
    }
}

/// A request that searches the queue of its bin parks every full page it meets at the end of the
/// full queue, and leaves none of them in the queue of the bin.
pub proof fn law_the_search_parks_full_pages<M: Memory, const WORDS: usize>(
    before: &Heap<M, WORDS>,
    after: &Heap<M, WORDS>,
    b: int,
    r: Option<usize>,
)
    requires
        before.wf(),
        1 <= b <= MAX_BINNED_BIN,
        forall|p: int| #[trigger]
            before@.qs[b].contains(p) ==> !has_room(header(before.words(), p)),
        no_empty_page_but(before.words(), before@, 0),
        found_by_search(before, after, b, r),
    ensures
        after@.qs[FULL_QUEUE as int] == before@.qs[FULL_QUEUE as int] + before@.qs[b],
        r is None ==> after@.qs[b] == Seq::<int>::empty() && after@.pages == before@.pages,
        r is Some ==> {
            let p = r->0 - first_block(bin_bytes(b));
            &&& after@.qs[b] == seq![p]
            &&& after@.pages == before@.pages.insert(p)
        },
{
    let w = before.words();
    let l = before@.qs[b];
    lemma_queue(w, before.queues@, before.model@, 0, b);
    lemma_search_of_full(w, l, 0, Search::start(), MAX_CANDIDATES as int);
    let s = search(w, l);
    assert(Seq::<int>::empty() + l.skip(0) =~= l);
    let page: Option<usize> = choose|page: Option<usize>| #[trigger]
        fresh_or_parked(before, after, b, page) && is_first_block(r, page, b);
    if r is Some {
        let p: int = page->0 as int;
        assert(seq![p].index_of(p) == 0) by {
            assert(seq![p][0] == p);
        }
        assert(fronted(seq![p], p) =~= seq![p]);
    }
}

/// A page that a search parks is in the full queue afterwards, flagged so, and not retired, whatever
/// it was before: the free that empties it one day will retire or release it.
pub proof fn law_parked_pages_are_not_retired<M: Memory, const WORDS: usize>(
    before: &Heap<M, WORDS>,
    after: &Heap<M, WORDS>,
    b: int,
    r: Option<usize>,
    p: int,
)
    requires
        before.wf(),
        after.wf(),
        1 <= b <= MAX_BINNED_BIN,
        found_by_search(before, after, b, r),
        search(before.words(), before@.qs[b]).parked.contains(p),
    ensures
        after@.pages.contains(p),
        after@.qs[FULL_QUEUE as int].contains(p),
        flagged_full(header(after.words(), p)),
        header(after.words(), p).retire_expire == 0,
{
    let w = before.words();
    let l = before@.qs[b];
    let s = search(w, l);
    lemma_queue(w, before.queues@, before.model@, 0, b);
    if l.contains(0) {
        lemma_queue_member(w, before.queues@, before.model@, 0, b, l.index_of(0));
    }
    law_the_search_finds_room(w, l);
    lemma_queue_member(w, before.queues@, before.model@, 0, b, l.index_of(p));
    assert(before@.pages.contains(p));
    lemma_home_range(w, before.model@, p);
    law_page_geometry(header(w, p).bin as int);
    lemma_flag_bit();
    if s.candidate != 0 {
        assert(after@.pages.contains(p));
    } else {
        let (page, parked, aged, mid): (
            Option<usize>,
            Heap<M, WORDS>,
            Heap<M, WORDS>,
            Heap<M, WORDS>,
        ) = choose|
            page: Option<usize>,
            parked: Heap<M, WORDS>,
            aged: Heap<M, WORDS>,
            mid: Heap<M, WORDS>,
        |
            {
                &&& #[trigger] fresh_after_turns(before, &parked, &aged, &mid, after, b, page, 1)
                &&& is_first_block(r, page, b)
            };
        assert(parked@.pages.contains(p));
        assert(aged@.pages.contains(p));
        assert(mid@.pages.contains(p));
        assert(page_kept(mid.words(), after.words(), p));
    }
    lemma_page_queued(after.words(), after.queues@, after.model@, 0, p);
}

/// The page that a search finds is not retired afterwards.
pub proof fn law_a_page_that_serves_is_not_retired<M: Memory, const WORDS: usize>(
    before: &Heap<M, WORDS>,
    after: &Heap<M, WORDS>,
    b: int,
    r: Option<usize>,
)
    requires
        found_by_search(before, after, b, r),
        search(before.words(), before@.qs[b]).candidate != 0,
    ensures
        header(
            after.words(),
            search(before.words(), before@.qs[b]).candidate,
        ).retire_expire == 0,
{
}

/// A search through full pages parks all of them.
proof fn lemma_search_of_full(w: Map<int, u64>, l: Seq<int>, k: int, s: Search, limit: int)
    requires
        0 <= k <= l.len(),
        forall|p: int| #[trigger] l.contains(p) ==> !has_room(header(w, p)),
    ensures
        search_on(w, l, k, s, limit) == (Search { parked: s.parked + l.skip(k), ..s }),
    decreases l.len() - k,
{
    if k < l.len() {
        assert(l.contains(l[k]));
        lemma_search_of_full(w, l, k + 1, s.park(l[k]), limit - 1);
        assert(s.parked.push(l[k]) + l.skip(k + 1) =~= s.parked + l.skip(k));
    } else {
        assert(s.parked + l.skip(k) =~= s.parked);
    }
}

/// The first allocation of a bin builds the heap: the block is the first of a page at the lowest
/// fit between the heap base and the end of memory, or in what memory grew by, and the page is the
/// only one.
pub proof fn law_the_first_allocation_builds_the_heap<M: Memory, const WORDS: usize>(
    before: &Heap<M, WORDS>,
    after: &Heap<M, WORDS>,
    layout: Layout,
    zero: bool,
    r: Option<usize>,
)
    requires
        before.wf(),
        !before.is_initialized(),
        layout.wf(),
        layout.size() > 0,
        serving(layout) is Bin,
        allocated(before, after, layout, zero, r),
        allocated_at(before, after, layout, r),
    ensures
        after.is_initialized(),
        r is Some ==> {
            let b = serving(layout)->0 as int;
            let p = r->0 - first_block(bin_bytes(b));
            let n = kind_page_size(bin_kind(b)) / SLICE_SIZE as int;
            &&& after@.pages == Set::empty().insert(p)
            &&& after@.qs[b] == seq![p]
            &&& after.blocks() == Map::empty().insert(r->0 as int, layout)
            &&& with_fresh(
                initial_slices(&before.memory_view(), WORDS as int),
                &before.memory_view(),
                &after.memory_view(),
            ).lowest_fit(slice_of(p), n, n)
        },
        r is None ==> {
            &&& after@.pages == Set::<int>::empty()
            &&& after.blocks() == Map::<int, Layout>::empty()
        },
{
    let b = serving(layout)->0 as int;
    lemma_serving_bin(layout);
    let w = before.words();
    assert(before@ == empty_model());
    assert(before@.qs[b] =~= Seq::<int>::empty());
    assert(!served_directly(before, layout, b));
    let s = search(w, before@.qs[b]);
    assert(s == Search::start());
    let page: Option<usize> = choose|page: Option<usize>| #[trigger]
        fresh_or_parked(before, after, b, page) && is_first_block(r, page, b);
    if r is Some {
        let p: int = page->0 as int;
        assert(seq![p].index_of(p) == 0) by {
            assert(seq![p][0] == p);
        }
        assert(fronted(seq![p], p) =~= seq![p]);
    }
}

/// Freeing the last block of the only page of a queue retires the page: it keeps its slices and its
/// place, its list starts with the block, and its countdown begins.
pub proof fn law_the_last_block_retires_the_only_page<M: Memory, const WORDS: usize>(
    before: &Heap<M, WORDS>,
    after: &Heap<M, WORDS>,
    a: int,
)
    requires
        before.wf(),
        before.blocks().dom().contains(a),
        serving(before.blocks()[a]) is Bin,
        ({
            let h = header(before.words(), page_of_block(before, a));
            &&& h.used == 1
            &&& h.retire_expire == 0
            &&& !flagged_full(h)
            &&& before@.qs[h.bin as int].len() == 1
        }),
        freed(before, after, a),
    ensures
        ({
            let p = page_of_block(before, a);
            let h = header(before.words(), p);
            &&& after@.pages == before@.pages
            &&& after@.qs == before@.qs
            &&& after.slice_view() == before.slice_view()
            &&& header(after.words(), p).used == 0
            &&& header(after.words(), p).retire_expire == retire_cycles(h.block_size as int)
            &&& free_list(after.words(), p)[0] == a
            &&& after.ages(h.bin as int)
        }),
{
    let p: int = page_of_block(before, a);
    reveal(blocks_ok);
    assert(block_ok(before.mem.words(), before.model@, a));
    before.lemma_page_access(0, 0, p);
    lemma_home_range(before.mem.words(), before.model@, p);
    assert(free_list(after.words(), p)[0] == a);
}

/// Freeing a block of a page in the full queue brings the page back to the end of the queue of its
/// bin, with that block as its only free one.
pub proof fn law_a_free_brings_a_full_page_back<M: Memory, const WORDS: usize>(
    before: &Heap<M, WORDS>,
    after: &Heap<M, WORDS>,
    a: int,
)
    requires
        before.wf(),
        before.blocks().dom().contains(a),
        serving(before.blocks()[a]) is Bin,
        flagged_full(header(before.words(), page_of_block(before, a))),
        freed(before, after, a),
    ensures
        ({
            let p = page_of_block(before, a);
            let h = header(before.words(), p);
            let k = header(after.words(), p);
            &&& !flagged_full(k)
            &&& k.used == h.reserved - 1
            &&& free_list(after.words(), p) == seq![a]
            &&& before@.qs[FULL_QUEUE as int].contains(p)
            &&& !after@.qs[FULL_QUEUE as int].contains(p)
            &&& after@.qs[h.bin as int] == before@.qs[h.bin as int].push(p)
            &&& after@.qs[FULL_QUEUE as int] == before@.qs[FULL_QUEUE as int].remove(
                before@.qs[FULL_QUEUE as int].index_of(p),
            )
            &&& after@.pages == before@.pages
            &&& after.slice_view() == before.slice_view()
            &&& k.retire_expire == h.retire_expire
            &&& after.retired() == before.retired()
        }),
{
    let p: int = page_of_block(before, a);
    let w = before.mem.words();
    let g = before.model@;
    let h = header(w, p);
    let full = g.qs[FULL_QUEUE as int];
    crate::model::lemma_flag_bit();
    reveal(blocks_ok);
    reveal(full_ok);
    assert(block_ok(w, g, a));
    before.lemma_page_access(0, 0, p);
    lemma_page_queued(w, before.queues@, g, 0, p);
    lemma_queue(w, before.queues@, g, 0, FULL_QUEUE as int);
    let i: int = full.index_of(p);
    assert(header(w, full[i]).used == header(w, full[i]).reserved);
    law_blocks_add_up(w, p);
    assert(free_list(w, p) =~= Seq::<int>::empty());
    assert(free_list(after.words(), p) =~= seq![a]);
}

/// A page in the full queue has handed out all its blocks, and a page in the queue of a bin serves
/// that bin and is not flagged as full.
pub proof fn law_queues_hold_what_they_should<M: Memory, const WORDS: usize>(
    heap: &Heap<M, WORDS>,
    qi: int,
    i: int,
)
    requires
        heap.wf(),
        0 <= qi < QUEUE_COUNT,
        0 <= i < heap@.qs[qi].len(),
    ensures
        ({
            let p = heap@.qs[qi][i];
            let h = header(heap.words(), p);
            &&& heap@.pages.contains(p)
            &&& flagged_full(h) <==> qi == FULL_QUEUE
            &&& qi == FULL_QUEUE ==> h.used == h.reserved && free_list(heap.words(), p).len() == 0
            &&& qi != FULL_QUEUE ==> h.bin == qi
        }),
{
    let w = heap.mem.words();
    let g = heap.model@;
    let p: int = g.qs[qi][i];
    lemma_queue_member(w, heap.queues@, g, 0, qi, i);
    heap.lemma_page_access(0, 0, p);
    lemma_flag_bit();
    reveal(full_ok);
    if qi == FULL_QUEUE {
        assert(header(w, g.qs[FULL_QUEUE as int][i]).used == header(
            w,
            g.qs[FULL_QUEUE as int][i],
        ).reserved);
        law_blocks_add_up(w, p);
    }
}

/// The page of a block that is no run.
pub open spec fn page_of_block<M: Memory, const WORDS: usize>(heap: &Heap<M, WORDS>, a: int) -> int {
    page_of(bin_kind(serving(heap.blocks()[a])->0 as int), a)
}

} // verus!
