//! The heap invariants, as checks that return an error naming the first violation.
//!
//! Every page in the queue of a bin has that bin and is not flagged full; every page in the full
//! queue is flagged full and has neither free nor unextended blocks. Every page passes
//! [`page::validate`] and lies at a multiple of its kind's page size. Every entry of the direct
//! table is the first page of the queue of its sizes, or none. No slice of a page is free.
use vstd::prelude::*;

use super::Heap;
use crate::backend::{in_order, slice_of, Memory};
use crate::bins::{bin, bin_of, kind_page_size, PageKind, DIRECT_ENTRIES, SLICE_SIZE, WORD};
use crate::model::{
    full_ok, held, holder_ok, holders_ok, lemma_home_range, lemma_queue, lemma_queue_member,
    next_in, page_ok, pages_ok, prev_in, queue_ok, PageQueue, FULL_QUEUE, QUEUE_COUNT,
};
use crate::page::{self, flagged_full, header, header_fault, owns_bytes, page_bytes, page_fault};
use crate::slices::SliceModel;

verus! {

/// The kind a header's kind byte stands for.
pub open spec fn byte_kind(byte: u8) -> PageKind {
    if byte == 0 {
        PageKind::Small
    } else if byte == 1 {
        PageKind::Medium
    } else {
        PageKind::Large
    }
}

/// Some slice of a page at `p` of `bytes` bytes is free.
pub open spec fn some_slice_free(sm: SliceModel, p: int, bytes: int) -> bool {
    exists|s: int|
        slice_of(p) <= s < slice_of(p) + bytes / SLICE_SIZE as int && #[trigger] sm.free.contains(s)
}

/// The first violation of member `p` of queue `qi` whose predecessor is `prev`; `slices` says
/// whether to look at the slice map.
pub open spec fn member_fault(
    w: Map<int, u64>,
    sm: SliceModel,
    qi: int,
    slices: bool,
    p: int,
    prev: int,
) -> Option<Seq<char>> {
    let h = header(w, p);
    let size = kind_page_size(byte_kind(h.kind));
    if h.prev != prev {
        Some("prev link does not point at the previous member"@)
    } else if p % size != 0 {
        Some("page address is not aligned to its kind"@)
    } else if page_fault(w, p) is Some {
        page_fault(w, p)
    } else if qi == FULL_QUEUE && !flagged_full(h) {
        Some("full-queue member is not flagged full"@)
    } else if qi == FULL_QUEUE && (h.free != 0 || h.capacity < h.reserved) {
        Some("full-queue member still has room"@)
    } else if qi != FULL_QUEUE && h.bin != qi {
        Some("page sits in the queue of another bin"@)
    } else if qi != FULL_QUEUE && flagged_full(h) {
        Some("bin-queue member is flagged full"@)
    } else if slices && some_slice_free(sm, p, size) {
        Some("a slice of a live page is free in the map"@)
    } else {
        None
    }
}

/// The first violation on a walk along queue `qi` that has come to `cur` from `prev` after `n`
/// members.
pub open spec fn walk_fault(
    w: Map<int, u64>,
    sm: SliceModel,
    q: PageQueue,
    qi: int,
    slices: bool,
    cur: int,
    prev: int,
    n: int,
) -> Option<Seq<char>>
    decreases q.count + 1 - n,
{
    if cur == 0 {
        if q.last != prev {
            Some("last does not point at the final member"@)
        } else if q.count != n {
            Some("count does not match the members"@)
        } else {
            None
        }
    } else if n > q.count {
        Some("queue longer than its count (cycle or lost page)"@)
    } else if member_fault(w, sm, qi, slices, cur, prev) is Some {
        member_fault(w, sm, qi, slices, cur, prev)
    } else {
        walk_fault(w, sm, q, qi, slices, header(w, cur).next as int, cur, n + 1)
    }
}

/// The header at `p` can be read, and so can the page if the header is in order.
pub open spec fn member_readable<M: Memory>(mem: &M, sm: SliceModel, p: int) -> bool {
    let h = header(mem.words(), p);
    &&& 0 < p <= usize::MAX
    &&& p % SLICE_SIZE as int == 0
    &&& mem.owns(slice_of(p))
    &&& header_fault(h, p) is None ==> {
        &&& p + page_bytes(h) <= usize::MAX
        &&& owns_bytes(mem, p, page_bytes(h))
        &&& sm.base <= slice_of(p)
        &&& slice_of(p + page_bytes(h)) <= sm.limit
    }
}

/// Everything a walk of at most `n` members from `cur` looks at can be read.
pub open spec fn walkable<M: Memory>(mem: &M, sm: SliceModel, cur: int, n: int) -> bool
    decreases n,
{
    cur != 0 && n > 0 ==> member_readable(mem, sm, cur) && walkable(
        mem,
        sm,
        header(mem.words(), cur).next as int,
        n - 1,
    )
}

impl<M: Memory, const WORDS: usize> Heap<M, WORDS> {
    /// The head of queue `qi`.
    pub closed spec fn queue_head(&self, qi: int) -> PageQueue {
        self.queues@[qi]
    }

    /// Entry `i` of the direct table.
    pub closed spec fn spec_direct_entry(&self, i: int) -> int {
        self.direct@[i] as int
    }

    /// Queue `qi` can be checked.
    pub closed spec fn checkable(&self, qi: int) -> bool {
        &&& in_order(&self.mem)
        &&& self.slices.wf()
        &&& self.queues@[qi].count < usize::MAX
        &&& walkable(
            &self.mem,
            self.slices@,
            self.queues@[qi].first as int,
            self.queues@[qi].count + 1,
        )
    }

    /// The first violation in queue `qi`.
    pub open spec fn queue_fault(&self, qi: int, slices: bool) -> Option<Seq<char>> {
        let q = self.queue_head(qi);
        walk_fault(self.words(), self.slice_view(), q, qi, slices, q.first as int, 0, 0)
    }

    /// Entry `i` of the direct table is the first page of the queue of its sizes, or none.
    pub open spec fn direct_entry_ok(&self, i: int) -> bool {
        self.spec_direct_entry(i) == self.queue_head(bin_of(8 * i)).first
    }

    /// Check queue `qi`: every member is a valid page of the right bin (or a flagged, roomless
    /// page in the full queue), the links and the count agree, and the page's slices are not free
    /// in the map.
    pub fn validate_queue(&self, qi: usize) -> (r: Result<(), &'static str>)
        requires
            qi < QUEUE_COUNT,
            self.checkable(qi as int),
        ensures
            r is Ok <==> self.queue_fault(qi as int, true) is None,
            r matches Err(e) ==> self.queue_fault(qi as int, true) == Some(e@),
    {
        self.validate_queue_inner(qi, true)
    }

    /// [`validate_queue`](Self::validate_queue) without the slice-map check.
    pub fn validate_queue_links(&self, qi: usize) -> (r: Result<(), &'static str>)
        requires
            qi < QUEUE_COUNT,
            self.checkable(qi as int),
        ensures
            r is Ok <==> self.queue_fault(qi as int, false) is None,
            r matches Err(e) ==> self.queue_fault(qi as int, false) == Some(e@),
    {
        self.validate_queue_inner(qi, false)
    }

    fn validate_queue_inner(&self, qi: usize, slices: bool) -> (r: Result<(), &'static str>)
        requires
            qi < QUEUE_COUNT,
            self.checkable(qi as int),
        ensures
            r is Ok <==> self.queue_fault(qi as int, slices) is None,
            r matches Err(e) ==> self.queue_fault(qi as int, slices) == Some(e@),
    {
        let q: PageQueue = self.queues[qi];
        let ghost w = self.mem.words();
        let ghost sm = self.slices@;
        let mut cur: usize = q.first;
        let mut prev: usize = 0;
        let mut n: usize = 0;
        while cur != 0
            invariant
                qi < QUEUE_COUNT,
                self.checkable(qi as int),
                q == self.queues@[qi as int],
                w == self.mem.words(),
                sm == self.slices@,
                n <= q.count + 1,
                q.count < usize::MAX,
                walkable(&self.mem, sm, cur as int, q.count + 1 - n),
                self.queue_fault(qi as int, slices) == walk_fault(
                    w,
                    sm,
                    q,
                    qi as int,
                    slices,
                    cur as int,
                    prev as int,
                    n as int,
                ),
            decreases q.count + 1 - n,
        {
            if n > q.count {
                return Err("queue longer than its count (cycle or lost page)");
            }
            match self.check_member(qi, slices, cur, prev) {
                Ok(_) => {},
                Err(e) => {
                    return Err(e);
                },
            }
            let h = page::read(cur, &self.mem);
            prev = cur;
            cur = h.next;
            n = n + 1;
        }
        if q.last != prev {
            return Err("last does not point at the final member");
        }
        if q.count != n {
            return Err("count does not match the members");
        }
        Ok(())
    }

    /// Check one member of a queue.
    fn check_member(&self, qi: usize, slices: bool, cur: usize, prev: usize) -> (r: Result<
        (),
        &'static str,
    >)
        requires
            in_order(&self.mem),
            self.slices.wf(),
            member_readable(&self.mem, self.slices@, cur as int),
        ensures
            r is Ok <==> member_fault(
                self.mem.words(),
                self.slices@,
                qi as int,
                slices,
                cur as int,
                prev as int,
            ) is None,
            r matches Err(e) ==> member_fault(
                self.mem.words(),
                self.slices@,
                qi as int,
                slices,
                cur as int,
                prev as int,
            ) == Some(e@),
    {
        let h = page::read(cur, &self.mem);
        let ghost w = self.mem.words();
        let ghost sm = self.slices@;
        let ghost p: int = cur as int;
        if h.prev != prev {
            return Err("prev link does not point at the previous member");
        }
        let kind = match h.kind {
            0 => PageKind::Small,
            1 => PageKind::Medium,
            _ => PageKind::Large,
        };
        let size: usize = kind.page_size();
        if cur % size != 0 {
            return Err("page address is not aligned to its kind");
        }
        match page::validate(cur, &self.mem) {
            Ok(_) => {},
            Err(e) => {
                return Err(e);
            },
        }
        let full: bool = h.flags & page::FLAG_IN_FULL_QUEUE != 0;
        if qi == FULL_QUEUE {
            if !full {
                return Err("full-queue member is not flagged full");
            }
            if h.free != 0 || h.capacity < h.reserved {
                return Err("full-queue member still has room");
            }
        } else {
            if h.bin as usize != qi {
                return Err("page sits in the queue of another bin");
            }
            if full {
                return Err("bin-queue member is flagged full");
            }
        }
        if slices {
            proof {
                assert(size == page_bytes(h));
                assert(slice_of(p + page_bytes(h)) == slice_of(p) + size as int / SLICE_SIZE as int);
            }
            if self.any_slice_free(cur, size) {
                return Err("a slice of a live page is free in the map");
            }
        }
        Ok(())
    }

    /// Whether some slice of a page is free in the map.
    fn any_slice_free(&self, page: usize, size: usize) -> (r: bool)
        requires
            self.slices.wf(),
            self.slices@.base <= slice_of(page as int),
            slice_of(page as int) + size as int / SLICE_SIZE as int <= self.slices@.limit,
        ensures
            r == some_slice_free(self.slices@, page as int, size as int),
    {
        let first_slice: usize = page / SLICE_SIZE;
        let count: usize = size / SLICE_SIZE;
        let ghost sm = self.slices@;
        let mut s: usize = 0;
        proof {
            self.slices.lemma_wf_facts();
        }
        while s < count
            invariant
                self.slices.wf(),
                sm == self.slices@,
                s <= count,
                first_slice == slice_of(page as int),
                count == size as int / SLICE_SIZE as int,
                sm.base <= first_slice,
                first_slice + count <= sm.limit,
                sm.limit <= usize::MAX,
                forall|t: int| first_slice <= t < first_slice + s ==> !#[trigger] sm.free.contains(t),
            decreases count - s,
        {
            if self.slices.is_free(first_slice + s) {
                proof {
                    assert(sm.free.contains(first_slice + s));
                }
                return true;
            }
            s = s + 1;
        }
        false
    }

    /// Check entry `i` of the direct table.
    pub fn validate_direct_entry(&self, i: usize) -> (r: Result<(), &'static str>)
        requires
            i < DIRECT_ENTRIES,
        ensures
            r is Ok <==> self.direct_entry_ok(i as int),
            r matches Err(e) ==> e@ == "direct entry does not point at its queue's first page"@,
    {
        let b: u8 = bin(i * WORD);
        proof {
            crate::bins::lemma_bin_of(8 * i);
        }
        if self.direct[i] != self.queues[b as usize].first {
            return Err("direct entry does not point at its queue's first page");
        }
        Ok(())
    }
}

impl<M: Memory, const WORDS: usize> Heap<M, WORDS> {
    /// The ends and the length of queue `qi`.
    pub fn queue(&self, qi: usize) -> (r: PageQueue)
        requires
            self.wf(),
            qi < QUEUE_COUNT,
        ensures
            queue_ok(self.words(), r, self@.qs[qi as int]),
    {
        proof {
            lemma_queue(self.mem.words(), self.queues@, self.model@, 0, qi as int);
        }
        self.queues[qi]
    }

    /// Entry `i` of the direct table: the first page of the queue of its sizes, 0 for none.
    pub fn direct_entry(&self, i: usize) -> (r: usize)
        requires
            self.wf(),
            i < DIRECT_ENTRIES,
        ensures
            ({
                let q = self@.qs[bin_of(8 * i)];
                r == if q.len() > 0 {
                    q[0]
                } else {
                    0
                }
            }),
    {
        proof {
            crate::bins::lemma_bin_of(8 * i);
            lemma_queue(self.mem.words(), self.queues@, self.model@, 0, bin_of(8 * i));
        }
        self.direct[i]
    }

    /// Whether slice `s` is free: in the map and handed to no page or run.
    pub fn is_slice_free(&self, s: usize) -> (r: bool)
        requires
            self.wf(),
        ensures
            r == self.slice_view().free.contains(s as int),
    {
        proof {
            self.slices.lemma_wf_facts();
        }
        self.slices.base() <= s && s < self.slices.limit() && self.slices.is_free(s)
    }

    /// Check every queue and every entry of the direct table.
    pub fn validate(&self) -> (r: Result<(), &'static str>)
        requires
            forall|qi: int| 0 <= qi < QUEUE_COUNT ==> #[trigger] self.checkable(qi),
        ensures
            r is Ok <==> {
                &&& forall|qi: int|
                    0 <= qi < QUEUE_COUNT ==> #[trigger] self.queue_fault(qi, true) is None
                &&& forall|i: int| 0 <= i < DIRECT_ENTRIES ==> #[trigger] self.direct_entry_ok(i)
            },
            r matches Err(e) ==> {
                ||| exists|qi: int|
                    {
                        &&& 0 <= qi < QUEUE_COUNT
                        &&& #[trigger] self.queue_fault(qi, true) == Some(e@)
                        &&& forall|k: int| 0 <= k < qi ==> #[trigger] self.queue_fault(k, true) is None
                    }
                ||| {
                    &&& e@ == "direct entry does not point at its queue's first page"@
                    &&& forall|qi: int|
                        0 <= qi < QUEUE_COUNT ==> #[trigger] self.queue_fault(qi, true) is None
                }
            },
    {
        let mut qi: usize = 0;
        while qi < QUEUE_COUNT
            invariant
                qi <= QUEUE_COUNT,
                forall|k: int| 0 <= k < QUEUE_COUNT ==> #[trigger] self.checkable(k),
                forall|k: int| 0 <= k < qi ==> #[trigger] self.queue_fault(k, true) is None,
            decreases QUEUE_COUNT - qi,
        {
            assert(self.checkable(qi as int));
            match self.validate_queue(qi) {
                Ok(_) => {},
                Err(e) => {
                    return Err(e);
                },
            }
            qi = qi + 1;
        }
        let mut i: usize = 0;
        while i < DIRECT_ENTRIES
            invariant
                i <= DIRECT_ENTRIES,
                forall|k: int|
                    0 <= k < QUEUE_COUNT ==> #[trigger] self.queue_fault(k, true) is None,
                forall|k: int| 0 <= k < i ==> #[trigger] self.direct_entry_ok(k),
            decreases DIRECT_ENTRIES - i,
        {
            match self.validate_direct_entry(i) {
                Ok(_) => {},
                Err(e) => {
                    return Err(e);
                },
            }
            i = i + 1;
        }
        Ok(())
    }
}

/// A walk along the rest of a well-formed queue finds no fault, and can be made.
proof fn lemma_walk_ok<M: Memory, const WORDS: usize>(
    heap: &Heap<M, WORDS>,
    qi: int,
    slices: bool,
    i: int,
)
    requires
        heap.wf(),
        0 <= qi < QUEUE_COUNT,
        0 <= i <= heap@.qs[qi].len(),
    ensures
        ({
            let l = heap@.qs[qi];
            let cur = if i < l.len() {
                l[i]
            } else {
                0
            };
            &&& walk_fault(
                heap.words(),
                heap.slice_view(),
                heap.queue_head(qi),
                qi,
                slices,
                cur,
                prev_in(l, i),
                i,
            ) is None
            &&& walkable(
                &heap.memory_view(),
                heap.slice_view(),
                cur,
                heap.queue_head(qi).count + 1 - i,
            )
        }),
    decreases heap@.qs[qi].len() - i,
{
    let w = heap.words();
    let g = heap@;
    let sm = heap.slice_view();
    let l = g.qs[qi];
    let q = heap.queue_head(qi);
    lemma_queue(w, heap.queues@, g, 0, qi);
    if i < l.len() {
        lemma_walk_ok(heap, qi, slices, i + 1);
        lemma_queue_member(w, heap.queues@, g, 0, qi, i);
        let p: int = l[i];
        let h = header(w, p);
        assert(h.next == next_in(l, i) && h.prev == prev_in(l, i));
        heap.lemma_page_access(0, 0, p);
        page::lemma_page_shape(p, h);
        lemma_home_range(w, g, p);
        page::lemma_valid_page(w, p);
        reveal(pages_ok);
        reveal(holders_ok);
        assert(page_ok(w, g, p));
        assert forall|s: int|
            slice_of(p) <= s < slice_of(p + page_bytes(h)) implies !#[trigger] sm.free.contains(s)
            && sm.base <= s < sm.limit by {
            assert(held(g, s, p));
            assert(holder_ok(w, g, sm, &heap.mem, s));
        }
        assert(held(g, slice_of(p), p));
        assert(held(g, slice_of(p + page_bytes(h)) - 1, p));
        assert(p + page_bytes(h) <= usize::MAX) by {
            super::lemma_slice_addr(&heap.mem, slice_of(p + page_bytes(h)) - 1);
        }
        if qi == FULL_QUEUE {
            reveal(full_ok);
            assert(header(w, g.qs[FULL_QUEUE as int][i]).used == h.reserved);
            page::lemma_full_header(w, p);
        }
        assert(member_fault(w, sm, qi, slices, p, prev_in(l, i)) is None);
    }
}

/// Between operations every check passes.
pub proof fn law_operations_keep_the_checked_invariants<M: Memory, const WORDS: usize>(
    heap: &Heap<M, WORDS>,
)
    requires
        heap.wf(),
    ensures
        forall|qi: int| 0 <= qi < QUEUE_COUNT ==> #[trigger] heap.checkable(qi),
        forall|qi: int| 0 <= qi < QUEUE_COUNT ==> #[trigger] heap.queue_fault(qi, true) is None,
        forall|i: int| 0 <= i < DIRECT_ENTRIES ==> #[trigger] heap.direct_entry_ok(i),
{
    assert forall|qi: int| 0 <= qi < QUEUE_COUNT implies #[trigger] heap.checkable(qi)
        && heap.queue_fault(qi, true) is None by {
        lemma_queue(heap.words(), heap.queues@, heap@, 0, qi);
        lemma_walk_ok(heap, qi, true, 0);
        heap.lemma_queue_short(0, 0, qi);
    }
    assert forall|qi: int| 0 <= qi < QUEUE_COUNT implies #[trigger] heap.queue_fault(qi, true)
        is None by {
        assert(heap.checkable(qi));
    }
}

/// `l` is what a walk that finds no fault meets from `cur` on, having come from `prev`.
spec fn walked(
    w: Map<int, u64>,
    sm: SliceModel,
    q: PageQueue,
    qi: int,
    slices: bool,
    cur: int,
    prev: int,
    l: Seq<int>,
) -> bool {
    &&& cur == if l.len() > 0 {
        l[0]
    } else {
        0
    }
    &&& q.last == if l.len() > 0 {
        l.last()
    } else {
        prev
    }
    &&& forall|i: int|
        0 <= i < l.len() ==> {
            let before = if i == 0 {
                prev
            } else {
                prev_in(l, i)
            };
            &&& (#[trigger] header(w, l[i])).next == next_in(l, i)
            &&& l[i] != 0
            &&& member_fault(w, sm, qi, slices, l[i], before) is None
        }
}

proof fn lemma_walked(
    w: Map<int, u64>,
    sm: SliceModel,
    q: PageQueue,
    qi: int,
    slices: bool,
    cur: int,
    prev: int,
    n: int,
) -> (l: Seq<int>)
    requires
        walk_fault(w, sm, q, qi, slices, cur, prev, n) is None,
    ensures
        l.len() == q.count - n,
        walked(w, sm, q, qi, slices, cur, prev, l),
    decreases q.count + 1 - n,
{
    if cur == 0 {
        Seq::empty()
    } else {
        let next: int = header(w, cur).next as int;
        let t = lemma_walked(w, sm, q, qi, slices, next, cur, n + 1);
        let l = seq![cur] + t;
        assert forall|i: int| 0 <= i < l.len() implies {
            let before = if i == 0 {
                prev
            } else {
                prev_in(l, i)
            };
            &&& (#[trigger] header(w, l[i])).next == next_in(l, i)
            &&& l[i] != 0
            &&& member_fault(w, sm, qi, slices, l[i], before) is None
        } by {
            if i > 0 {
                assert(t[i - 1] == l[i]);
                assert(header(w, t[i - 1]).next == next_in(t, i - 1));
            }
        }
        if t.len() > 0 {
            assert(l.last() == t.last());
        }
        l
    }
}

/// Every member points back at its predecessor.
spec fn back_linked(w: Map<int, u64>, l: Seq<int>) -> bool {
    forall|k: int|
        0 <= k < l.len() ==> (#[trigger] header(w, l[k])).prev == prev_in(l, k) && l[k] != 0
}

/// Members that point back at their predecessors are all different.
proof fn lemma_walked_distinct(w: Map<int, u64>, l: Seq<int>, i: int, j: int)
    requires
        0 <= i < j < l.len(),
        back_linked(w, l),
    ensures
        l[i] != l[j],
    decreases i,
{
    if l[i] == l[j] {
        assert(header(w, l[j]).prev == prev_in(l, j));
        assert(header(w, l[i]).prev == prev_in(l, i));
        assert(header(w, l[j - 1]).prev == prev_in(l, j - 1));
        if i > 0 {
            lemma_walked_distinct(w, l, i - 1, j - 1);
        }
    }
}

/// What holds of a member in which the check finds no fault.
pub open spec fn member_in_order(w: Map<int, u64>, sm: SliceModel, qi: int, p: int) -> bool {
    let h = header(w, p);
    &&& page_fault(w, p) is None
    &&& qi != FULL_QUEUE ==> h.bin == qi && !flagged_full(h)
    &&& qi == FULL_QUEUE ==> flagged_full(h) && h.used == h.reserved
    &&& !some_slice_free(sm, p, page_bytes(h))
}

proof fn lemma_member_in_order(w: Map<int, u64>, sm: SliceModel, qi: int, p: int, prev: int)
    requires
        member_fault(w, sm, qi, true, p, prev) is None,
    ensures
        member_in_order(w, sm, qi, p),
        header(w, p).prev == prev,
{
    let h = header(w, p);
    assert(page_bytes(h) == kind_page_size(byte_kind(h.kind)));
    if qi == FULL_QUEUE {
        assert(page::list_fault(w, p, h, 0, 0) is None);
    }
}

/// A queue in which the check finds no fault is a doubly linked list of as many pages as its count
/// says, all different, each of them valid, at home in that queue, and with none of its slices
/// free.
pub proof fn law_a_checked_queue_is_a_list<M: Memory, const WORDS: usize>(
    heap: &Heap<M, WORDS>,
    qi: int,
) -> (l: Seq<int>)
    requires
        0 <= qi < QUEUE_COUNT,
        heap.queue_fault(qi, true) is None,
    ensures
        queue_ok(heap.words(), heap.queue_head(qi), l),
        forall|i: int|
            0 <= i < l.len() ==> member_in_order(
                heap.words(),
                heap.slice_view(),
                qi,
                #[trigger] l[i],
            ),
{
    let w = heap.words();
    let sm = heap.slice_view();
    let q = heap.queue_head(qi);
    let l = lemma_walked(w, sm, q, qi, true, q.first as int, 0, 0);
    assert forall|k: int| 0 <= k < l.len() implies (#[trigger] header(w, l[k])).prev == prev_in(
        l,
        k,
    ) && header(w, l[k]).next == next_in(l, k) && l[k] != 0 && member_in_order(w, sm, qi, l[k]) by {
        lemma_member_in_order(w, sm, qi, l[k], prev_in(l, k));
    }
    assert(back_linked(w, l));
    assert forall|i: int, j: int| 0 <= i < l.len() && 0 <= j < l.len() && i != j implies l[i]
        != l[j] by {
        if i < j {
            lemma_walked_distinct(w, l, i, j);
        } else {
            lemma_walked_distinct(w, l, j, i);
        }
    }
    assert forall|i: int| 0 <= i < l.len() implies member_in_order(w, sm, qi, #[trigger] l[i]) by {
        assert(header(w, l[i]).prev == prev_in(l, i));
    }
    l
}

} // verus!
