//! Where the blocks and the pages of a heap go.
use vstd::prelude::*;

use super::Heap;
use super::search::{next_block, pages_after, parked_or_kept, queues_after, search, Search};
use super::turns::{empties_released, only_pages_freed, slices_returned, turns_taken};
use crate::backend::{slice_of, Memory};
use crate::bins::{bin_bytes, bin_kind, first_block, kind_page_size, Class, SLICE_SIZE};
use crate::layout::Layout;
use crate::model::{page_kept, run_align, run_slices, serving, HeapModel, FULL_QUEUE};
use crate::page::{block_batch, extension, free_list, fresh_header, header, Page};
use crate::slices::{growth_requested, same_extent, with_fresh, Run, SliceModel};

verus! {

/// Memory has slices that it had not.
pub open spec fn grew<M: Memory>(old: &M, new: &M) -> bool {
    exists|s: int| #[trigger] new.owns(s) && !old.owns(s)
}

/// Every page but `p` has a live block.
pub open spec fn no_empty_page_but(w: Map<int, u64>, g: HeapModel, p: int) -> bool {
    forall|q: int| #[trigger] g.pages.contains(q) && q != p ==> header(w, q).used > 0
}

/// Slices and alignment, in slices, that a request for `layout` takes when it needs new ones: a
/// page of its kind, or its run.
pub open spec fn slices_for(layout: Layout) -> (int, int) {
    match serving(layout) {
        Class::Bin(b) => {
            let n = kind_page_size(bin_kind(b as int)) / SLICE_SIZE as int;
            (n, n)
        },
        Class::Huge => (run_slices(layout.size() as int), run_align(layout.align() as int)),
    }
}

/// Where a run for `layout` goes when there are free slices for it: to the lowest fit or, with
/// `top`, to the bottom of the free slices that end at `end` if it fits there.
pub open spec fn placed(m: SliceModel, start: int, layout: Layout, top: bool, end: int) -> bool {
    let count = run_slices(layout.size() as int);
    let align = run_align(layout.align() as int);
    if top {
        m.high_fit(start, count, align, end)
    } else {
        m.lowest_fit(start, count, align)
    }
}

/// How room is made for a request: `mid` is the heap as it is if there is a fit, and with every
/// empty page released otherwise.
pub open spec fn room_made<M: Memory, const WORDS: usize>(
    o: &Heap<M, WORDS>,
    mid: &Heap<M, WORDS>,
    count: int,
    align: int,
) -> bool {
    if o.slice_view().has_fit(count, align) {
        mid == o
    } else {
        &&& empties_released(o, mid)
        &&& slices_returned(o, mid)
        &&& mid.slice_view().base == o.slice_view().base
        &&& mid.slice_view().limit == o.slice_view().limit
    }
}

/// How `count` slices are found: once room is made, which leaves the heap as `mid`, they are at the
/// lowest fit in the free slices together with the memory that was grown or, with `top`, at the
/// bottom of the free slices at the end of memory while there is a fit without growing. The pages
/// stay as they are.
pub open spec fn slices_found<M: Memory, const WORDS: usize>(
    o: &Heap<M, WORDS>,
    mid: &Heap<M, WORDS>,
    n: &Heap<M, WORDS>,
    count: int,
    align: int,
    top: bool,
    r: Option<Run>,
) -> bool {
    let m = with_fresh(mid.slice_view(), &o.memory_view(), &n.memory_view());
    &&& room_made(o, mid, count, align)
    &&& growth_requested(
        mid.slice_view(),
        &o.memory_view(),
        &n.memory_view(),
        count,
        align,
        o.spec_policy(),
    )
    &&& n@.qs == mid@.qs
    &&& n@.pages == mid@.pages
    &&& n.retired() == mid.retired()
    &&& forall|q: int| #[trigger] mid@.pages.contains(q) ==> page_kept(mid.words(), n.words(), q)
    &&& match r {
        Some(run) => {
            &&& if top && o.slice_view().has_fit(count, align) {
                o.slice_view().high_fit(
                    run.start as int,
                    count,
                    align,
                    o.memory_view().end() as int,
                )
            } else {
                m.lowest_fit(run.start as int, count, align)
            }
            &&& run.zeroed == m.run_zero(run.start as int, count)
            &&& n.slice_view() == m.taken(run.start as int, count)
        },
        None => n.slice_view() == m,
    }
}

/// A fresh page of bin `b` at `p`, extended once, with the first `taken` of its blocks handed out.
pub open spec fn opened(v: Map<int, u64>, p: int, b: int, zeroed: bool, taken: int) -> bool {
    let h = fresh_header(b as u8, zeroed);
    let k = header(v, p);
    &&& free_list(v, p) == block_batch(p, h, 0, extension(h)).skip(taken)
    &&& k == (Page {
        free: k.free,
        used: taken as u32,
        capacity: extension(h) as u32,
        next: k.next,
        prev: k.prev,
        ..h
    })
}

/// A fresh page for bin `b`, at the slices found for it and at the front of its queue, with the
/// first `taken` of its blocks handed out.
pub open spec fn fresh_page_from<M: Memory, const WORDS: usize>(
    o: &Heap<M, WORDS>,
    mid: &Heap<M, WORDS>,
    n: &Heap<M, WORDS>,
    b: int,
    page: Option<usize>,
    taken: int,
) -> bool {
    let count = kind_page_size(bin_kind(b)) / SLICE_SIZE as int;
    let m = with_fresh(mid.slice_view(), &o.memory_view(), &n.memory_view());
    &&& room_made(o, mid, count, count)
    &&& growth_requested(
        mid.slice_view(),
        &o.memory_view(),
        &n.memory_view(),
        count,
        count,
        o.spec_policy(),
    )
    &&& n.retired() == mid.retired()
    &&& forall|q: int| #[trigger] mid@.pages.contains(q) ==> page_kept(mid.words(), n.words(), q)
    &&& match page {
        Some(p) => {
            let start = slice_of(p as int);
            &&& m.lowest_fit(start, count, count)
            &&& n.slice_view() == m.taken(start, count)
            &&& opened(n.words(), p as int, b, m.run_zero(start, count), taken)
            &&& n@.qs == mid@.qs.update(b, seq![p as int] + mid@.qs[b])
            &&& n@.pages == mid@.pages.insert(p as int)
            &&& !mid@.pages.contains(p as int)
        },
        None => {
            &&& n.slice_view() == m
            &&& n@.qs == mid@.qs
            &&& n@.pages == mid@.pages
        },
    }
}

/// A run for `layout`, at the slices found for it.
pub open spec fn run_found<M: Memory, const WORDS: usize>(
    o: &Heap<M, WORDS>,
    mid: &Heap<M, WORDS>,
    n: &Heap<M, WORDS>,
    layout: Layout,
    top: bool,
    r: Option<usize>,
) -> bool {
    exists|run: Option<Run>|
        {
            &&& #[trigger] slices_found(
                o,
                mid,
                n,
                run_slices(layout.size() as int),
                run_align(layout.align() as int),
                top,
                run,
            )
            &&& match run {
                Some(at) => r is Some && r->0 == at.start * SLICE_SIZE,
                None => r is None,
            }
        }
}

/// The heap once it has started: what lies between the heap base and the end of memory is in the
/// map.
pub open spec fn started<M: Memory, const WORDS: usize>(
    o: &Heap<M, WORDS>,
    n: &Heap<M, WORDS>,
) -> bool {
    &&& n.is_initialized()
    &&& n@ == o@
    &&& n.memory_view() == o.memory_view()
    &&& n.words() == o.words()
    &&& n.slice_view() == o.starting_slices()
    &&& n.retired() == o.retired()
    &&& n.slow_calls() == o.slow_calls()
    &&& n.spec_policy() == o.spec_policy()
}

/// The heap after a search of the queue of bin `b` that parked all of its pages.
pub open spec fn all_parked<M: Memory, const WORDS: usize>(
    o: &Heap<M, WORDS>,
    n: &Heap<M, WORDS>,
    b: int,
) -> bool {
    let s = search(o.words(), o@.qs[b]);
    &&& n@.qs == o@.qs.update(b, Seq::empty()).update(
        FULL_QUEUE as int,
        o@.qs[FULL_QUEUE as int] + s.parked,
    )
    &&& n@.pages == o@.pages
    &&& forall|p: int| #[trigger]
        o@.pages.contains(p) ==> parked_or_kept(
            header(o.words(), p),
            header(n.words(), p),
            s.parked.contains(p),
        )
    &&& n.slice_view().free == o.starting_slices().free
    &&& n.slice_view().base == o.starting_slices().base
    &&& n.slice_view().limit == o.starting_slices().limit
    &&& same_extent(&o.memory_view(), &n.memory_view())
    &&& forall|p: int| #[trigger]
        o@.pages.contains(p) ==> free_list(n.words(), p) == free_list(o.words(), p)
    &&& n.retired() == o.retired()
}

/// How a search that finds no room goes on: the pages are parked, the retired pages of the heap
/// get their turns, and a fresh page is taken.
pub open spec fn fresh_after_turns<M: Memory, const WORDS: usize>(
    o: &Heap<M, WORDS>,
    parked: &Heap<M, WORDS>,
    aged: &Heap<M, WORDS>,
    mid: &Heap<M, WORDS>,
    n: &Heap<M, WORDS>,
    b: int,
    page: Option<usize>,
    taken: int,
) -> bool {
    &&& all_parked(o, parked, b)
    &&& turns_taken(parked, aged)
    &&& slices_returned(parked, aged)
    &&& aged.slice_view().base == parked.slice_view().base
    &&& aged.slice_view().limit == parked.slice_view().limit
    &&& same_extent(&parked.memory_view(), &aged.memory_view())
    &&& fresh_page_from(aged, mid, n, b, page, taken)
}

/// What an allocation from bin `b` does, after a search that parked every page of the queue and
/// with no empty page to collect: it takes a fresh page, at the lowest fit in the free slices
/// together with the memory that was grown, or fails.
pub open spec fn fresh_or_parked<M: Memory, const WORDS: usize>(
    o: &Heap<M, WORDS>,
    n: &Heap<M, WORDS>,
    b: int,
    page: Option<usize>,
) -> bool {
    let s = search(o.words(), o@.qs[b]);
    let count = kind_page_size(bin_kind(b)) / SLICE_SIZE as int;
    match page {
        Some(p) => {
            &&& with_fresh(
                o.starting_slices(),
                &o.memory_view(),
                &n.memory_view(),
            ).lowest_fit(slice_of(p as int), count, count)
            &&& n@.qs == queues_after(
                o@.qs,
                b,
                Search { candidate: p as int, queue: seq![p as int], ..s },
            )
            &&& n@.pages == o@.pages.insert(p as int)
        },
        None => {
            &&& n@.qs == o@.qs.update(b, Seq::empty()).update(
                FULL_QUEUE as int,
                o@.qs[FULL_QUEUE as int] + s.parked,
            )
            &&& n@.pages == o@.pages
        },
    }
}

/// `r` is the first block of the fresh page of bin `b`, if there is one.
pub open spec fn is_first_block(r: Option<usize>, page: Option<usize>, b: int) -> bool {
    match page {
        Some(p) => r is Some && r->0 == p + first_block(bin_bytes(b)),
        None => r is None,
    }
}

/// What an allocation from bin `b` that searches its queue does. If a page of the queue has room,
/// it takes the next block of the page found, which moves to the front of the queue. If none has,
/// it takes the first block of a fresh page.
pub open spec fn found_by_search<M: Memory, const WORDS: usize>(
    o: &Heap<M, WORDS>,
    n: &Heap<M, WORDS>,
    b: int,
    r: Option<usize>,
) -> bool {
    let s = search(o.words(), o@.qs[b]);
    if s.candidate != 0 {
        &&& r is Some
        &&& r->0 == next_block(o.words(), s.candidate)
        &&& n@.qs == queues_after(o@.qs, b, s)
        &&& n@.pages == o@.pages.difference(s.released)
        &&& pages_after(o.words(), n.words(), n@.pages, s, 1)
        &&& only_pages_freed(o, n)
        &&& n.retired() == o.retired()
        &&& same_extent(&o.memory_view(), &n.memory_view())
    } else {
        &&& exists|
            page: Option<usize>,
            parked: Heap<M, WORDS>,
            aged: Heap<M, WORDS>,
            mid: Heap<M, WORDS>,
        |
            {
                &&& #[trigger] fresh_after_turns(o, &parked, &aged, &mid, n, b, page, 1)
                &&& is_first_block(r, page, b)
            }
        &&& no_empty_page_but(o.words(), o@, 0) ==> exists|page: Option<usize>| #[trigger]
            fresh_or_parked(o, n, b, page) && is_first_block(r, page, b)
    }
}

/// The same after a collection that leaves the heap as `mid`.
pub open spec fn found_after_turns<M: Memory, const WORDS: usize>(
    o: &Heap<M, WORDS>,
    mid: &Heap<M, WORDS>,
    n: &Heap<M, WORDS>,
    b: int,
    r: Option<usize>,
) -> bool {
    &&& turns_taken(o, mid)
    &&& slices_returned(o, mid)
    &&& same_extent(&o.memory_view(), &mid.memory_view())
    &&& mid.is_initialized()
    &&& found_by_search(mid, n, b, r)
}

} // verus!
