//! Retirement: what a collection does to the pages and queues of a heap.
//!
//! An empty page that is retired has a countdown. Every collection gives the retired pages among
//! the first of each queue a turn, and a page whose countdown ends is released. A forced collection
//! releases every empty page at once.
use vstd::prelude::*;

use super::{Heap, RETIRE_CYCLES, RETIRE_MAX_PAGES};
use crate::backend::{slice_of, Memory};
use crate::bins::{DIRECT_MAX_SIZE, SMALL_MAX_OBJ_SIZE};
use crate::model::{home, FULL_QUEUE, QUEUE_COUNT};
use crate::page::{free_list, header, page_bytes, same_but_heap_fields, Page};

verus! {

/// The countdown a page of blocks of `block_size` bytes starts with when it is retired.
pub open spec fn retire_cycles(block_size: int) -> int {
    if block_size <= SMALL_MAX_OBJ_SIZE {
        RETIRE_CYCLES as int
    } else {
        RETIRE_CYCLES as int / 4
    }
}

/// An empty page is kept for a while when its queue is short, and either it is the only page of
/// its queue or its blocks are small.
pub open spec fn worth_retiring(count: int, block_size: int) -> bool {
    count <= RETIRE_MAX_PAGES && (count == 1 || block_size < DIRECT_MAX_SIZE)
}

/// The countdown of a retired page after its turn: one less if it is empty, none if it is in use
/// again.
pub open spec fn aged(h: Page) -> int {
    if h.used == 0 && h.retire_expire > 0 {
        h.retire_expire - 1
    } else {
        0
    }
}

/// The page's next turn is its last.
pub open spec fn expires(h: Page) -> bool {
    h.used == 0 && h.retire_expire == 1
}

/// The page's next turn leaves it retired.
pub open spec fn outlasts(h: Page) -> bool {
    h.used == 0 && h.retire_expire > 1
}

/// `p` is among the first `n` members of a queue.
pub open spec fn among_first(l: Seq<int>, n: int, p: int) -> bool {
    exists|i: int| 0 <= i < n && i < l.len() && #[trigger] l[i] == p
}

/// One of the first `n` members of a queue stays retired.
pub open spec fn some_left(w: Map<int, u64>, l: Seq<int>, n: int) -> bool {
    exists|i: int| 0 <= i < n && i < l.len() && outlasts(header(w, #[trigger] l[i]))
}

/// Those of the first `n` members of a queue that do not expire.
pub open spec fn staying(w: Map<int, u64>, l: Seq<int>, n: int) -> Seq<int>
    decreases n,
{
    if n <= 0 {
        Seq::empty()
    } else if expires(header(w, l[n - 1])) {
        staying(w, l, n - 1)
    } else {
        staying(w, l, n - 1).push(l[n - 1])
    }
}

/// If none of the first `n` members expires, all of them stay.
pub(super) proof fn lemma_all_stay(w: Map<int, u64>, l: Seq<int>, n: int)
    requires
        0 <= n <= l.len(),
        forall|i: int| 0 <= i < l.len() ==> !expires(header(w, #[trigger] l[i])),
    ensures
        staying(w, l, n) == l.take(n),
    decreases n,
{
    if n > 0 {
        lemma_all_stay(w, l, n - 1);
        assert(l.take(n - 1).push(l[n - 1]) =~= l.take(n));
    } else {
        assert(l.take(0) =~= Seq::<int>::empty());
    }
}

/// A queue after the turns of its first members.
pub open spec fn after_turn(w: Map<int, u64>, l: Seq<int>) -> Seq<int> {
    let n = crate::arith::min(RETIRE_MAX_PAGES as int, l.len() as int);
    staying(w, l, n) + l.skip(n)
}

/// Those of the first `n` members of a queue that have a live block.
pub open spec fn in_use(w: Map<int, u64>, l: Seq<int>, n: int) -> Seq<int>
    decreases n,
{
    if n <= 0 {
        Seq::empty()
    } else if header(w, l[n - 1]).used == 0 {
        in_use(w, l, n - 1)
    } else {
        in_use(w, l, n - 1).push(l[n - 1])
    }
}

/// Which members are in use depends on their counts alone.
pub(super) proof fn lemma_in_use_same(w: Map<int, u64>, v: Map<int, u64>, l: Seq<int>, n: int)
    requires
        0 <= n <= l.len(),
        forall|i: int|
            0 <= i < l.len() ==> header(v, #[trigger] l[i]).used == header(w, l[i]).used,
    ensures
        in_use(v, l, n) == in_use(w, l, n),
    decreases n,
{
    if n > 0 {
        assert(header(v, l[n - 1]).used == header(w, l[n - 1]).used);
        lemma_in_use_same(w, v, l, n - 1);
    }
}

/// If every member has a live block, all of them are in use.
pub(super) proof fn lemma_all_in_use(w: Map<int, u64>, l: Seq<int>, n: int)
    requires
        0 <= n <= l.len(),
        forall|i: int| 0 <= i < l.len() ==> header(w, #[trigger] l[i]).used > 0,
    ensures
        in_use(w, l, n) == l.take(n),
    decreases n,
{
    if n > 0 {
        lemma_all_in_use(w, l, n - 1);
        assert(l.take(n - 1).push(l[n - 1]) =~= l.take(n));
    } else {
        assert(l.take(0) =~= Seq::<int>::empty());
    }
}

/// What becomes of a page with header `h` when the empty pages go: `k` is its header afterwards,
/// `stays` whether it is a page still, and `turn` whether its queue was gone through.
pub open spec fn swept(h: Page, k: Page, stays: bool, turn: bool) -> bool {
    &&& stays == !(turn && h.used == 0)
    &&& stays ==> {
        &&& same_but_heap_fields(h, k)
        &&& k.flags == h.flags
        &&& k.retire_expire == if turn {
            0
        } else {
            h.retire_expire
        }
    }
}

/// Every empty page is gone, and nothing else happened to pages and queues but that the pages
/// outside the full queue are not retired any more.
pub open spec fn empties_released<M: Memory, const WORDS: usize>(
    o: &Heap<M, WORDS>,
    n: &Heap<M, WORDS>,
) -> bool {
    let w = o.words();
    &&& n@.qs.len() == o@.qs.len()
    &&& forall|j: int|
        0 <= j < QUEUE_COUNT ==> #[trigger] n@.qs[j] == in_use(w, o@.qs[j], o@.qs[j].len() as int)
    &&& forall|p: int| #[trigger]
        o@.pages.contains(p) ==> swept(
            header(w, p),
            header(n.words(), p),
            n@.pages.contains(p),
            home(header(w, p)) != FULL_QUEUE,
        )
    &&& n.retired() == (QUEUE_COUNT as int, 0int)
}

/// Slice `s` belongs to a page of `before` that is not one of `after`.
pub open spec fn left_free(w: Map<int, u64>, before: Set<int>, after: Set<int>, s: int) -> bool {
    exists|p: int| #[trigger]
        before.contains(p) && !after.contains(p) && slice_of(p) <= s < slice_of(
            p + page_bytes(header(w, p)),
        )
}

/// Pages may have gone, none has come, those that stay have their free lists, and the slices of
/// those that went are all that became free.
pub open spec fn slices_returned<M: Memory, const WORDS: usize>(
    o: &Heap<M, WORDS>,
    n: &Heap<M, WORDS>,
) -> bool {
    &&& n@.pages.subset_of(o@.pages)
    &&& forall|p: int| #[trigger]
        n@.pages.contains(p) ==> header(n.words(), p).bin == header(o.words(), p).bin && free_list(
            n.words(),
            p,
        ) == free_list(o.words(), p)
    &&& only_pages_freed(o, n)
}

/// The slices of the pages that went are all that became free.
pub open spec fn only_pages_freed<M: Memory, const WORDS: usize>(
    o: &Heap<M, WORDS>,
    n: &Heap<M, WORDS>,
) -> bool {
    forall|s: int| #[trigger]
        n.slice_view().free.contains(s) <==> o.slice_view().free.contains(s) || left_free(
            o.words(),
            o@.pages,
            n@.pages,
            s,
        )
}

/// What keeps the pages and the slices returns nothing.
pub(super) proof fn lemma_nothing_returned<M: Memory, const WORDS: usize>(
    o: &Heap<M, WORDS>,
    n: &Heap<M, WORDS>,
)
    requires
        n@.pages == o@.pages,
        n.slice_view().free == o.slice_view().free,
        forall|p: int| #[trigger]
            o@.pages.contains(p) ==> header(n.words(), p).bin == header(o.words(), p).bin
                && free_list(n.words(), p) == free_list(o.words(), p),
    ensures
        slices_returned(o, n),
{
}

/// As long as no page goes, no slice becomes free.
pub(super) proof fn lemma_free_as_before<M: Memory, const WORDS: usize>(
    o: &Heap<M, WORDS>,
    n: &Heap<M, WORDS>,
)
    requires
        slices_returned(o, n),
        n@.pages == o@.pages,
    ensures
        n.slice_view().free == o.slice_view().free,
{
    assert(n.slice_view().free =~= o.slice_view().free);
}

/// What was returned twice over.
pub(super) proof fn lemma_returned_trans<M: Memory, const WORDS: usize>(
    a: &Heap<M, WORDS>,
    b: &Heap<M, WORDS>,
    c: &Heap<M, WORDS>,
)
    requires
        slices_returned(a, b),
        slices_returned(b, c),
    ensures
        slices_returned(a, c),
{
    assert forall|p: int| #[trigger] c@.pages.contains(p) implies header(c.words(), p).bin
        == header(a.words(), p).bin && free_list(c.words(), p) == free_list(a.words(), p) by {
        assert(b@.pages.contains(p));
    }
    assert forall|s: int| #[trigger]
        c.slice_view().free.contains(s) <==> a.slice_view().free.contains(s) || left_free(
            a.words(),
            a@.pages,
            c@.pages,
            s,
        ) by {
        assert(b.slice_view().free.contains(s) <==> a.slice_view().free.contains(s) || left_free(
            a.words(),
            a@.pages,
            b@.pages,
            s,
        ));
        if left_free(a.words(), a@.pages, b@.pages, s) {
            let p: int = choose|p: int| #[trigger]
                a@.pages.contains(p) && !b@.pages.contains(p) && slice_of(p) <= s < slice_of(
                    p + page_bytes(header(a.words(), p)),
                );
            assert(a@.pages.contains(p) && !c@.pages.contains(p));
        }
        if left_free(b.words(), b@.pages, c@.pages, s) {
            let p: int = choose|p: int| #[trigger]
                b@.pages.contains(p) && !c@.pages.contains(p) && slice_of(p) <= s < slice_of(
                    p + page_bytes(header(b.words(), p)),
                );
            assert(a@.pages.contains(p) && !c@.pages.contains(p));
        }
        if left_free(a.words(), a@.pages, c@.pages, s) {
            let p: int = choose|p: int| #[trigger]
                a@.pages.contains(p) && !c@.pages.contains(p) && slice_of(p) <= s < slice_of(
                    p + page_bytes(header(a.words(), p)),
                );
            if b@.pages.contains(p) {
                assert(left_free(b.words(), b@.pages, c@.pages, s));
            } else {
                assert(left_free(a.words(), a@.pages, b@.pages, s));
            }
        }
    }
}

/// What becomes of a page with header `h`: `k` is its header afterwards, `stays` whether it is a
/// page still, and `turn` whether it had its turn.
pub open spec fn turned(h: Page, k: Page, stays: bool, turn: bool) -> bool {
    &&& stays == !(turn && expires(h))
    &&& stays ==> {
        &&& same_but_heap_fields(h, k)
        &&& k.flags == h.flags
        &&& k.retire_expire == if turn {
            aged(h)
        } else {
            h.retire_expire as int
        }
    }
}

/// A retired page is left in queue `j` after the turns.
pub open spec fn left_in<M: Memory, const WORDS: usize>(o: &Heap<M, WORDS>, j: int) -> bool {
    o.ages(j) && some_left(o.words(), o@.qs[j], RETIRE_MAX_PAGES as int)
}

/// The range reaches from the first to the last queue in which a retired page is left; it is empty
/// if there is none.
pub open spec fn spans_left<M: Memory, const WORDS: usize>(
    o: &Heap<M, WORDS>,
    range: (int, int),
) -> bool {
    &&& forall|j: int| #[trigger] left_in(o, j) ==> range.0 <= j <= range.1
    &&& range == (QUEUE_COUNT as int, 0int) || (left_in(o, range.0) && left_in(o, range.1))
}

/// The retired pages among the first of each queue in the retired range had their turns, and
/// nothing else happened to pages and queues. The range shrinks to the queues in which a retired
/// page is left.
pub open spec fn turns_taken<M: Memory, const WORDS: usize>(
    o: &Heap<M, WORDS>,
    n: &Heap<M, WORDS>,
) -> bool {
    let w = o.words();
    &&& n@.qs.len() == o@.qs.len()
    &&& forall|j: int|
        0 <= j < QUEUE_COUNT ==> #[trigger] n@.qs[j] == if o.ages(j) {
            after_turn(w, o@.qs[j])
        } else {
            o@.qs[j]
        }
    &&& forall|p: int| #[trigger]
        o@.pages.contains(p) ==> turned(
            header(w, p),
            header(n.words(), p),
            n@.pages.contains(p),
            o.ages(home(header(w, p))) && among_first(
                o@.qs[home(header(w, p))],
                RETIRE_MAX_PAGES as int,
                p,
            ),
        )
    &&& n@.pages.subset_of(o@.pages)
    &&& spans_left(o, n.retired())
}

pub(super) proof fn lemma_among_first(l: Seq<int>, n: int, p: int)
    requires
        0 <= n < l.len(),
    ensures
        among_first(l, n + 1, p) == (among_first(l, n, p) || p == l[n]),
{
    if among_first(l, n + 1, p) {
        let i: int = choose|i: int| 0 <= i < n + 1 && i < l.len() && #[trigger] l[i] == p;
        assert(i < n ==> 0 <= i < n && l[i] == p);
    }
    if among_first(l, n, p) {
        let i: int = choose|i: int| 0 <= i < n && i < l.len() && #[trigger] l[i] == p;
        assert(0 <= i < n + 1 && l[i] == p);
    }
    if p == l[n] {
        assert(0 <= n < n + 1 && l[n] == p);
    }
}

pub(super) proof fn lemma_some_left(w: Map<int, u64>, l: Seq<int>, n: int)
    requires
        0 <= n < l.len(),
    ensures
        some_left(w, l, n + 1) == (some_left(w, l, n) || outlasts(header(w, l[n]))),
{
    if some_left(w, l, n + 1) {
        let i: int = choose|i: int|
            0 <= i < n + 1 && i < l.len() && outlasts(header(w, #[trigger] l[i]));
        assert(i < n ==> 0 <= i < n && outlasts(header(w, l[i])));
    }
    if some_left(w, l, n) {
        let i: int = choose|i: int|
            0 <= i < n && i < l.len() && outlasts(header(w, #[trigger] l[i]));
        assert(0 <= i < n + 1 && outlasts(header(w, l[i])));
    }
    if outlasts(header(w, l[n])) {
        assert(0 <= n < n + 1 && outlasts(header(w, l[n])));
    }
}

pub(super) proof fn lemma_staying_same(w: Map<int, u64>, v: Map<int, u64>, l: Seq<int>, n: int)
    requires
        0 <= n <= l.len(),
        forall|i: int|
            0 <= i < l.len() ==> expires(header(v, #[trigger] l[i])) == expires(header(w, l[i])),
    ensures
        staying(v, l, n) == staying(w, l, n),
    decreases n,
{
    if n > 0 {
        lemma_staying_same(w, v, l, n - 1);
        assert(expires(header(v, l[n - 1])) == expires(header(w, l[n - 1])));
    }
}

/// The turns of a queue depend on nothing but its members' countdowns and live blocks.
pub(super) proof fn lemma_after_turn_same(w: Map<int, u64>, v: Map<int, u64>, l: Seq<int>)
    requires
        forall|i: int|
            0 <= i < l.len() ==> expires(header(v, #[trigger] l[i])) == expires(header(w, l[i]))
                && outlasts(header(v, l[i])) == outlasts(header(w, l[i])),
    ensures
        after_turn(v, l) == after_turn(w, l),
        some_left(v, l, RETIRE_MAX_PAGES as int) == some_left(w, l, RETIRE_MAX_PAGES as int),
{
    lemma_staying_same(w, v, l, crate::arith::min(RETIRE_MAX_PAGES as int, l.len() as int));
    let n: int = RETIRE_MAX_PAGES as int;
    if some_left(v, l, n) {
        let i: int = choose|i: int|
            0 <= i < n && i < l.len() && outlasts(header(v, #[trigger] l[i]));
        assert(outlasts(header(w, l[i])));
    }
    if some_left(w, l, n) {
        let i: int = choose|i: int|
            0 <= i < n && i < l.len() && outlasts(header(w, #[trigger] l[i]));
        assert(outlasts(header(v, l[i])));
    }
}

} // verus!
