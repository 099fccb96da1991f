//! Which block an allocation hands out, and where new pages and runs go.
use vstd::prelude::*;

use super::{initial_slices, Heap};
use super::entry::allocated_at;
use super::outcomes::{lemma_paged, lemma_run_slices, paged, slices_of};
use super::placement::{found_by_search, fresh_after_turns, is_first_block, run_found};
use super::resize::made_for_move;
use super::search::{in_order_of, law_the_search_prefers_the_fuller_page, search};
use crate::arith::{lemma_pow2_positive, round_up};
use crate::backend::{slice_of, Memory};
use crate::bins::{bin_bytes, bin_of, first_block};
use crate::layout::Layout;
use crate::model::{lemma_queue, lemma_queue_member, run_align};
use crate::page::{free_list, header, page_bytes};
use crate::slices::{law_growing_runs_go_to_the_end, with_fresh};

verus! {

/// Which bin a request is served from.
pub open spec fn bin_for(layout: Layout) -> int {
    bin_of(round_up(layout.size() as int, layout.align() as int))
}

/// Up to a kilobyte, a request gets the block that was freed last to the first page of its bin's
/// queue, if that page has one at hand. Nothing but that page changes, and no search is counted.
pub proof fn law_small_requests_are_served_from_the_first_page<M: Memory, const WORDS: usize>(
    before: &Heap<M, WORDS>,
    after: &Heap<M, WORDS>,
    layout: Layout,
    r: Option<usize>,
)
    requires
        before.wf(),
        layout.wf(),
        layout.size() > 0,
        layout.align() <= 4096,
        round_up(layout.size() as int, layout.align() as int) <= 1024,
        before@.qs[bin_for(layout)].len() > 0,
        free_list(before.words(), before@.qs[bin_for(layout)][0]).len() > 0,
        allocated_at(before, after, layout, r),
    ensures
        ({
            let p = before@.qs[bin_for(layout)][0];
            let l = free_list(before.words(), p);
            &&& r is Some
            &&& r->0 == l[0]
            &&& free_list(after.words(), p) == l.skip(1)
            &&& header(after.words(), p).used == header(before.words(), p).used + 1
            &&& after@.qs == before@.qs
            &&& after@.pages == before@.pages
            &&& after.slice_view() == before.slice_view()
            &&& after.memory_view().growths() == before.memory_view().growths()
            &&& after.slow_calls() == before.slow_calls()
        }),
{
    lemma_paged(layout);
    let b: int = bin_for(layout);
    let p: int = before@.qs[b][0];
    let w = before.mem.words();
    lemma_queue_member(w, before.queues@, before.model@, 0, b, 0);
    before.lemma_page_access(0, 0, p);
    crate::page::law_blocks_add_up(w, p);
    assert(free_list(w, p).drop_first() =~= free_list(w, p).skip(1));
}

/// Every other request served from a page searches the queue of its bin. Such searches are counted,
/// and every thousandth is preceded by a turn for the retired pages.
pub proof fn law_every_thousandth_search_follows_a_collection<M: Memory, const WORDS: usize>(
    before: &Heap<M, WORDS>,
    after: &Heap<M, WORDS>,
    layout: Layout,
    r: Option<usize>,
)
    requires
        before.wf(),
        layout.wf(),
        layout.size() > 0,
        paged(layout.size() as int, layout.align() as int),
        round_up(layout.size() as int, layout.align() as int) > 1024
            || before@.qs[bin_for(layout)].len() == 0
            || free_list(before.words(), before@.qs[bin_for(layout)][0]).len() == 0,
        allocated_at(before, after, layout, r),
    ensures
        before.slow_calls() < 999 ==> {
            &&& after.slow_calls() == before.slow_calls() + 1
            &&& found_by_search(before, after, bin_for(layout), r)
        },
        before.slow_calls() >= 999 ==> {
            &&& after.slow_calls() == 0
            &&& exists|mid: Heap<M, WORDS>|
                {
                    &&& #[trigger] super::turns::turns_taken(before, &mid)
                    &&& found_by_search(&mid, after, bin_for(layout), r)
                }
        },
{
    lemma_paged(layout);
    let b: int = bin_for(layout);
    if before.slow_calls() >= 999 {
        let mid: Heap<M, WORDS> = choose|mid: Heap<M, WORDS>| #[trigger]
            super::placement::found_after_turns(before, &mid, after, b, r);
        assert(super::turns::turns_taken(before, &mid));
    }
}

/// A search that finds a page with room takes the block freed last to it or, if its list is empty,
/// the first that was never handed out. The page goes to the front of the queue, is in use once
/// more and is not retired; the others keep their order behind it. Pages that were parked go to the
/// end of the full queue, and the slices of those that were released are free.
pub proof fn law_a_search_takes_the_next_block_of_the_page<M: Memory, const WORDS: usize>(
    before: &Heap<M, WORDS>,
    after: &Heap<M, WORDS>,
    b: int,
    r: Option<usize>,
)
    requires
        before.wf(),
        1 <= b <= 45,
        search(before.words(), before@.qs[b]).candidate != 0,
        found_by_search(before, after, b, r),
    ensures
        ({
            let s = search(before.words(), before@.qs[b]);
            let p = s.candidate;
            let h = header(before.words(), p);
            let k = header(after.words(), p);
            let l = free_list(before.words(), p);
            let full = crate::model::FULL_QUEUE as int;
            &&& before@.qs[b].contains(p)
            &&& r is Some
            &&& r->0 == if l.len() > 0 {
                l[0]
            } else {
                p + h.block_start + h.capacity * h.block_size
            }
            &&& k.used == h.used + 1
            &&& k.retire_expire == 0
            &&& after@.qs[b].len() > 0
            &&& after@.qs[b][0] == p
            &&& in_order_of(before@.qs[b], after@.qs[b].skip(1))
            &&& after@.qs[full] == before@.qs[full] + s.parked
            &&& forall|j: int|
                0 <= j < before@.qs.len() && j != b && j != full ==> #[trigger] after@.qs[j]
                    == before@.qs[j]
            &&& forall|q: int| #[trigger]
                after@.pages.contains(q) <==> before@.pages.contains(q) && !s.released.contains(q)
            &&& forall|q: int, x: int|
                #![trigger s.released.contains(q), after.slice_view().free.contains(x)]
                s.released.contains(q) && slice_of(q) <= x < slice_of(
                    q + page_bytes(header(before.words(), q)),
                ) ==> after.slice_view().free.contains(x)
            &&& after.memory_view().growths() == before.memory_view().growths()
        }),
{
    let w = before.mem.words();
    let g = before.model@;
    let l = g.qs[b];
    let s = search(w, l);
    lemma_queue(w, before.queues@, g, 0, b);
    if l.contains(0) {
        lemma_queue_member(w, before.queues@, g, 0, b, l.index_of(0));
    }
    let (m, f, e, c) = law_the_search_prefers_the_fuller_page(w, l);
    super::search::law_the_search_finds_room(w, l);
    let p: int = s.candidate;
    lemma_queue_member(w, before.queues@, g, 0, b, l.index_of(p));
    before.lemma_page_access(0, 0, p);
    super::search::lemma_in_order_remove(l, s.queue, p);
    let q = after@.qs[b];
    assert(q =~= seq![p] + s.queue.remove(s.queue.index_of(p)));
    assert(q.skip(1) =~= s.queue.remove(s.queue.index_of(p)));
    assert forall|y: int, x: int|
        #![trigger s.released.contains(y), after.slice_view().free.contains(x)]
        s.released.contains(y) && slice_of(y) <= x < slice_of(
            y + page_bytes(header(before.words(), y)),
        ) implies after.slice_view().free.contains(x) by {
        lemma_queue_member(w, before.queues@, g, 0, b, l.index_of(y));
        assert(before@.pages.contains(y) && !after@.pages.contains(y));
        assert(super::turns::left_free(w, before@.pages, after@.pages, x));
    }
}

/// A search that finds no room takes a fresh page, if slices for one can be had: the block is the
/// first of the page, which lies at a multiple of its size, was no page before, is at the front of
/// the queue, and has that block in use.
pub proof fn law_a_search_without_room_takes_a_fresh_page<M: Memory, const WORDS: usize>(
    before: &Heap<M, WORDS>,
    after: &Heap<M, WORDS>,
    b: int,
    a: usize,
)
    requires
        before.wf(),
        after.wf(),
        1 <= b <= 45,
        search(before.words(), before@.qs[b]).candidate == 0,
        found_by_search(before, after, b, Some(a)),
    ensures
        ({
            let p = a - first_block(bin_bytes(b));
            let h = header(after.words(), p);
            &&& p % if b <= 37 {
                65536int
            } else {
                262144
            } == 0
            &&& after@.pages.contains(p)
            &&& after@.qs[b].len() > 0
            &&& after@.qs[b][0] == p
            &&& h.used == 1
            &&& h.bin == b
            &&& h.retire_expire == 0
            &&& h.block_size == bin_bytes(b)
        }),
{
    let (page, parked, aged, mid): (
        Option<usize>,
        Heap<M, WORDS>,
        Heap<M, WORDS>,
        Heap<M, WORDS>,
    ) = choose|
        page: Option<usize>,
        parked: Heap<M, WORDS>,
        aged: Heap<M, WORDS>,
        mid: Heap<M, WORDS>,
    |
        {
            &&& #[trigger] fresh_after_turns(before, &parked, &aged, &mid, after, b, page, 1)
            &&& is_first_block(Some(a), page, b)
        };
    let p: int = page->0 as int;
    after.lemma_page_access(0, 0, p);
    lemma_queue(before.mem.words(), before.queues@, before.model@, 0, b);
    assert(parked@.qs.len() == before@.qs.len());
    assert(mid@.qs.len() == aged@.qs.len());
    assert(after@.qs == mid@.qs.update(b, seq![p] + mid@.qs[b]));
    crate::bins::lemma_bin_table();
    if b < 37 {
        crate::bins::lemma_bin_bytes_increasing(b, 37);
    } else if b > 37 {
        crate::bins::lemma_bin_bytes_increasing(37, b);
        if b < 45 {
            crate::bins::lemma_bin_bytes_increasing(b, 45);
        }
    }
}

/// A request that is served from no page gets the lowest slices that are free, if there are enough
/// side by side from a multiple of its alignment on. They are free no more, and nothing else
/// happens to slices, pages or memory.
pub proof fn law_a_run_takes_the_lowest_free_slices<M: Memory, const WORDS: usize>(
    before: &Heap<M, WORDS>,
    after: &Heap<M, WORDS>,
    layout: Layout,
    r: Option<usize>,
    t: int,
)
    requires
        before.wf(),
        before.is_initialized(),
        layout.wf(),
        layout.size() > 0,
        !paged(layout.size() as int, layout.align() as int),
        before.slice_view().base <= t,
        t + slices_of(layout.size() as int) <= before.slice_view().limit,
        t % slices_of(layout.align() as int) == 0,
        forall|s: int|
            t <= s < t + slices_of(layout.size() as int)
                ==> #[trigger] before.slice_view().free.contains(s),
        allocated_at(before, after, layout, r),
    ensures
        ({
            let n = slices_of(layout.size() as int);
            let free = before.slice_view().free;
            let first = slice_of(r->0 as int);
            &&& r is Some
            &&& first <= t
            &&& first % slices_of(layout.align() as int) == 0
            &&& forall|s: int| first <= s < first + n ==> #[trigger] free.contains(s)
            &&& forall|s: int| #[trigger]
                after.slice_view().free.contains(s) <==> free.contains(s) && !(first <= s < first
                    + n)
            &&& after@.pages == before@.pages
            &&& after@.qs == before@.qs
            &&& after.memory_view().growths() == before.memory_view().growths()
        }),
{
    lemma_paged(layout);
    lemma_pow2_positive(layout.align() as int);
    lemma_run_slices(layout.size() as int);
    lemma_run_slices(layout.align() as int);
    assert(run_align(layout.align() as int) == slices_of(layout.align() as int));
    let m = before.starting_slices();
    assert(m.fits(
        t,
        slices_of(layout.size() as int),
        slices_of(layout.align() as int),
    ));
    let (first, mid): (Heap<M, WORDS>, Heap<M, WORDS>) = choose|
        first: Heap<M, WORDS>,
        mid: Heap<M, WORDS>,
    |
        super::placement::started(before, &first) && #[trigger] run_found(
            &first,
            &mid,
            after,
            layout,
            false,
            r,
        );
    assert(first.slice_view().has_fit(
        slices_of(layout.size() as int),
        slices_of(layout.align() as int),
    ));
    assert(with_fresh(mid.slice_view(), &first.memory_view(), &after.memory_view()).free
        =~= before.slice_view().free);
}

/// A run that moves to grow goes to the first multiple of its alignment in the free slices at the
/// end of memory, if it fits there.
pub proof fn law_a_run_that_moves_goes_to_the_end_of_memory<M: Memory, const WORDS: usize>(
    before: &Heap<M, WORDS>,
    after: &Heap<M, WORDS>,
    layout: Layout,
    r: Option<usize>,
    lo: int,
    x: int,
)
    requires
        layout.wf(),
        layout.size() > 0,
        !paged(layout.size() as int, layout.align() as int),
        made_for_move(before, after, layout, r),
        before.slice_view().base <= lo < before.memory_view().end() <= before.slice_view().limit,
        forall|s: int|
            lo <= s < before.memory_view().end() ==> #[trigger] before.slice_view().free.contains(s),
        lo == before.slice_view().base || !before.slice_view().free.contains(lo - 1),
        lo <= x,
        x % slices_of(layout.align() as int) == 0,
        x + slices_of(layout.size() as int) <= before.memory_view().end(),
        r is Some,
    ensures
        r->0 % 65536 == 0,
        lo <= slice_of(r->0 as int) <= x,
        slice_of(r->0 as int) % slices_of(layout.align() as int) == 0,
{
    lemma_paged(layout);
    lemma_pow2_positive(layout.align() as int);
    lemma_run_slices(layout.size() as int);
    lemma_run_slices(layout.align() as int);
    let count: int = slices_of(layout.size() as int);
    let align: int = slices_of(layout.align() as int);
    let m = before.slice_view();
    let end: int = before.memory_view().end() as int;
    let mid = choose|mid: Heap<M, WORDS>| #[trigger]
        run_found(before, &mid, after, layout, true, r);
    let run = choose|run: Option<crate::slices::Run>|
        {
            &&& #[trigger] super::placement::slices_found(
                before,
                &mid,
                after,
                crate::model::run_slices(layout.size() as int),
                run_align(layout.align() as int),
                true,
                run,
            )
            &&& match run {
                Some(at) => r is Some && r->0 == at.start * 65536,
                None => r is None,
            }
        };
    assert(m.fits(x, count, align));
    assert(m.has_fit(count, align));
    let start: int = run->0.start as int;
    law_growing_runs_go_to_the_end(m, start, count, align, end, lo, x);
    assert(slice_of(r->0 as int) == start);
}

/// A heap starts with the slices that lie wholly between the heap base and the end of memory, but
/// for the last one of a 32-bit memory and what is beyond it. Its map begins at the multiple of 64
/// below them. None of them is known to be zero.
pub proof fn law_a_heap_starts_with_the_whole_slices<M: Memory>(mem: &M, words: int, s: int)
    requires
        words >= 1,
        mem.base_addr() as int <= 65535 * 65536,
    ensures
        ({
            let m = initial_slices(mem, words);
            let base = mem.base_addr() as int;
            &&& m.free.contains(s) <==> base <= 65536 * s && s < mem.end() && s < 65535
            &&& !m.zero.contains(s)
            &&& m.base % 64 == 0
            &&& m.base * 65536 <= base < (m.base + 64) * 65536
            &&& m.limit == m.base + 64 * words
        }),
{
}

} // verus!
