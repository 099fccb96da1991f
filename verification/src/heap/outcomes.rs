//! What frees, collections and resizes come to, in sizes, counts and addresses.
use vstd::prelude::*;

use super::Heap;
use super::entry::{allocated, collected, freed};
use super::laws::page_of_block;
use super::resize::resized;
use super::turns::{among_first, expires, left_free, left_in, outlasts, staying};
use crate::arith::{lemma_pow2_positive, lemma_round_up, round_up};
use crate::backend::{slice_of, Memory};
use crate::bins::{bin_bytes, bin_of, lemma_bin_bytes_increasing, lemma_bin_of, lemma_bin_table};
use crate::layout::Layout;
use crate::model::{
    block_ok, blocks_ok, lemma_flag_bit, lemma_home_range, lemma_page_queued, lemma_queue,
    lemma_queue_member, lemma_serving_bin, run_slices, serving,
};
use crate::page::{flagged_full, free_list, header, page_bytes};

verus! {

/// A request of so many bytes at this alignment is served from a page.
pub open spec fn paged(size: int, align: int) -> bool {
    align <= 4096 && round_up(size, align) <= 40960
}

/// Requests that are served from pages are those up to forty kilobytes and a page's alignment, and
/// their pages are small up to ten kilobytes.
pub(super) proof fn lemma_paged(l: Layout)
    requires
        l.wf(),
        l.size() > 0,
    ensures
        serving(l) is Bin <==> paged(l.size() as int, l.align() as int),
        serving(l) is Bin ==> {
            let b = serving(l)->0 as int;
            let s = round_up(l.size() as int, l.align() as int);
            &&& b == bin_of(s)
            &&& 1 <= b <= 45
            &&& s >= l.size()
            &&& bin_bytes(b) <= 10240 <==> s <= 10240
            &&& s <= bin_bytes(b) <= 40960
            &&& bin_bytes(b) % 2 == 0
        },
{
    let s: int = round_up(l.size() as int, l.align() as int);
    lemma_pow2_positive(l.align() as int);
    lemma_round_up(l.size() as int, l.align() as int);
    lemma_bin_table();
    if serving(l) is Bin {
        lemma_serving_bin(l);
        lemma_bin_of(s);
        let b: int = bin_of(s);
        if s <= 10240 && b > 37 {
            assert(bin_bytes(37) < s);
        }
        if b < 37 {
            lemma_bin_bytes_increasing(b, 37);
        } else if b > 37 {
            lemma_bin_bytes_increasing(37, b);
        }
        if b < 45 {
            lemma_bin_bytes_increasing(b, 45);
        }
        crate::bins::lemma_bin_bytes_word(b);
    }
}

/// A block in a page stays where it is, with nothing else changed, exactly if it holds the new
/// request, which belongs on a page of the same size, and either no smaller block would do or at
/// least half of it stays in use. Otherwise the block that comes back, if one does, is another one.
pub proof fn law_a_block_stays_while_half_of_it_is_used<M: Memory, const WORDS: usize>(
    before: &Heap<M, WORDS>,
    after: &Heap<M, WORDS>,
    a: usize,
    layout: Layout,
    r: Option<usize>,
)
    requires
        before.wf(),
        before.blocks().dom().contains(a as int),
        layout.wf(),
        layout.size() > 0,
        layout.align() == before.blocks()[a as int].align(),
        paged(before.blocks()[a as int].size() as int, layout.align() as int),
        paged(layout.size() as int, layout.align() as int),
        resized(before, after, a as int, layout, r),
    ensures
        ({
            let was = round_up(before.blocks()[a as int].size() as int, layout.align() as int);
            let now = round_up(layout.size() as int, layout.align() as int);
            let block = bin_bytes(bin_of(was));
            let suits = now <= block && (was <= 10240 <==> now <= 10240) && (bin_bytes(bin_of(now))
                == block || 2 * layout.size() >= block);
            &&& suits <==> r == Some(a)
            &&& suits ==> {
                &&& after.blocks() == before.blocks().insert(a as int, layout)
                &&& after.memory_view() == before.memory_view()
                &&& after.slice_view() == before.slice_view()
                &&& after@.pages == before@.pages
                &&& after@.qs == before@.qs
            }
        }),
{
    let old = before.blocks()[a as int];
    before.lemma_live(a as int);
    lemma_paged(old);
    lemma_paged(layout);
    let o: int = serving(old)->0 as int;
    let n: int = serving(layout)->0 as int;
    let now: int = round_up(layout.size() as int, layout.align() as int);
    lemma_bin_of(now);
    if n < o {
        lemma_bin_bytes_increasing(n, o);
    } else if o < n {
        lemma_bin_bytes_increasing(o, n);
        assert(bin_bytes(o) < now);
    }
    assert(before.blocks().remove(a as int).insert(a as int, layout) =~= before.blocks().insert(
        a as int,
        layout,
    ));
}

/// What a free does to a page that is not in the full queue is decided by what is left in it, by
/// how many pages its queue has, and by the size of its blocks. A page with other live blocks stays
/// as it is, as does one that was retired before. One that was emptied stays, with a countdown, if
/// it is the only page of its queue, or one of at most three with blocks below a kilobyte; it is
/// released otherwise: it leaves its queue and its slices are free.
pub proof fn law_a_free_keeps_retires_or_releases_the_page<M: Memory, const WORDS: usize>(
    before: &Heap<M, WORDS>,
    after: &Heap<M, WORDS>,
    a: int,
)
    requires
        before.wf(),
        before.blocks().dom().contains(a),
        serving(before.blocks()[a]) is Bin,
        !flagged_full(header(before.words(), page_of_block(before, a))),
        freed(before, after, a),
    ensures
        ({
            let p = page_of_block(before, a);
            let h = header(before.words(), p);
            let k = header(after.words(), p);
            let q = before@.qs[h.bin as int];
            let keeps = h.used > 1 || h.retire_expire != 0;
            let retires = q.len() == 1 || (q.len() <= 3 && h.block_size < 1024);
            &&& before@.pages.contains(p)
            &&& q.contains(p)
            &&& keeps || retires ==> {
                &&& after@.pages == before@.pages
                &&& after@.qs == before@.qs
                &&& after.slice_view() == before.slice_view()
                &&& k.used == h.used - 1
                &&& free_list(after.words(), p) == seq![a] + free_list(before.words(), p)
            }
            &&& keeps ==> k.retire_expire == h.retire_expire && after.retired() == before.retired()
            &&& !keeps && retires ==> {
                &&& k.retire_expire == if h.block_size <= 10240 {
                    16int
                } else {
                    4
                }
                &&& after.retired().0 <= h.bin <= after.retired().1
                &&& after.retired().0 <= before.retired().0
                &&& after.retired().1 >= before.retired().1
                &&& after.retired().0 == before.retired().0 || after.retired().0 == h.bin
                &&& after.retired().1 == before.retired().1 || after.retired().1 == h.bin
            }
            &&& !keeps && !retires ==> {
                &&& after@.pages == before@.pages.remove(p)
                &&& after@.qs == before@.qs.update(h.bin as int, q.remove(q.index_of(p)))
                &&& forall|s: int| #[trigger]
                    after.slice_view().free.contains(s) <==> before.slice_view().free.contains(s)
                        || slice_of(p) <= s < slice_of(p + page_bytes(h))
                &&& after.retired() == before.retired()
            }
        }),
{
    let p: int = page_of_block(before, a);
    let w = before.mem.words();
    let g = before.model@;
    let h = header(w, p);
    reveal(blocks_ok);
    assert(block_ok(w, g, a));
    before.lemma_page_access(0, 0, p);
    lemma_home_range(w, g, p);
    lemma_page_queued(w, before.queues@, g, 0, p);
    lemma_flag_bit();
    crate::page::lemma_page_shape(p, h);
    crate::page::lemma_live_block_counts(w, p, a);
}

/// The first `n` members of a queue that stay are those that do not expire.
proof fn lemma_staying_filter(w: Map<int, u64>, l: Seq<int>, n: int, stays: spec_fn(int) -> bool)
    requires
        0 <= n <= l.len(),
        forall|i: int| 0 <= i < n ==> stays(#[trigger] l[i]) == !expires(header(w, l[i])),
    ensures
        staying(w, l, n) == l.take(n).filter(stays),
    decreases n,
{
    reveal(Seq::filter);
    if n > 0 {
        lemma_staying_filter(w, l, n - 1, stays);
        assert(l.take(n).drop_last() =~= l.take(n - 1));
        assert(l.take(n).last() == l[n - 1]);
    } else {
        assert(l.take(0) =~= Seq::<int>::empty());
    }
}

/// A list all of whose members pass stays as it is.
proof fn lemma_all_pass(l: Seq<int>, stays: spec_fn(int) -> bool)
    requires
        forall|i: int| 0 <= i < l.len() ==> stays(#[trigger] l[i]),
    ensures
        l.filter(stays) == l,
    decreases l.len(),
{
    reveal(Seq::filter);
    if l.len() > 0 {
        let t = l.drop_last();
        assert forall|i: int| 0 <= i < t.len() implies stays(#[trigger] t[i]) by {
            assert(t[i] == l[i]);
        }
        lemma_all_pass(t, stays);
        assert(stays(l.last()));
        assert(l =~= t.push(l.last()));
    } else {
        assert(l.filter(stays) =~= l);
    }
}

/// A collection gives a turn to the first three pages of every queue in the retired range, and to
/// no others. The turn of an empty page takes one from its countdown, and the last releases it, with
/// its slices; a page that is in use again is not retired any more. The pages that stay keep their
/// order.
pub proof fn law_a_collection_gives_the_first_three_a_turn<M: Memory, const WORDS: usize>(
    before: &Heap<M, WORDS>,
    after: &Heap<M, WORDS>,
    p: int,
)
    requires
        before.wf(),
        before@.pages.contains(p),
        collected(before, after, false),
    ensures
        ({
            let h = header(before.words(), p);
            let k = header(after.words(), p);
            let b = h.bin as int;
            let q = before@.qs[b];
            let turn = !flagged_full(h) && before.retired().0 <= b <= before.retired().1
                && q.index_of(p) < 3;
            &&& !flagged_full(h) ==> q.contains(p)
            &&& after@.pages.contains(p) <==> !(turn && h.used == 0 && h.retire_expire == 1)
            &&& after@.pages.contains(p) ==> {
                &&& k.used == h.used
                &&& free_list(after.words(), p) == free_list(before.words(), p)
                &&& !turn ==> k.retire_expire == h.retire_expire
                &&& turn && h.used > 0 ==> k.retire_expire == 0
                &&& turn && h.used == 0 && h.retire_expire > 0 ==> k.retire_expire
                    == h.retire_expire - 1
                &&& turn && k.used == 0 && k.retire_expire > 0 ==> after.retired().0 <= b
                    <= after.retired().1
            }
            &&& !after@.pages.contains(p) ==> forall|s: int|
                slice_of(p) <= s < slice_of(p + page_bytes(h))
                    ==> #[trigger] after.slice_view().free.contains(s)
            &&& !flagged_full(h) ==> after@.qs[b] == q.filter(|x: int| after@.pages.contains(x))
        }),
{
    let w = before.mem.words();
    let g = before.model@;
    let h = header(w, p);
    let b: int = h.bin as int;
    let q = g.qs[b];
    before.lemma_page_access(0, 0, p);
    lemma_home_range(w, g, p);
    lemma_flag_bit();
    lemma_page_queued(w, before.queues@, g, 0, p);
    lemma_queue(w, before.queues@, g, 0, b);
    let n: int = crate::arith::min(3, q.len() as int);
    if !flagged_full(h) {
        let at: int = q.index_of(p);
        if at < 3 {
            assert(among_first(q, 3, p));
        } else if among_first(q, 3, p) {
            let i: int = choose|i: int| 0 <= i < 3 && i < q.len() && #[trigger] q[i] == p;
            assert(q[i] == q[at]);
        }
        let stays = |x: int| after@.pages.contains(x);
        assert forall|i: int| 0 <= i < q.len() implies stays(#[trigger] q[i]) == !(before.ages(b)
            && i < 3 && expires(header(w, q[i]))) by {
            lemma_queue_member(w, before.queues@, g, 0, b, i);
            let x: int = q[i];
            if i < 3 {
                assert(among_first(q, 3, x));
            } else if among_first(q, 3, x) {
                let j: int = choose|j: int| 0 <= j < 3 && j < q.len() && #[trigger] q[j] == x;
                assert(q[j] == q[i]);
            }
        }
        if before.ages(b) {
            lemma_staying_filter(w, q, n, stays);
            let rest = q.skip(n);
            assert forall|i: int| 0 <= i < rest.len() implies stays(#[trigger] rest[i]) by {
                assert(rest[i] == q[n + i]);
            }
            lemma_all_pass(rest, stays);
            Seq::filter_distributes_over_add(q.take(n), rest, stays);
            assert(q =~= q.take(n) + rest);
            if at < 3 && h.used == 0 && h.retire_expire > 1 {
                assert(outlasts(header(w, q[at])));
                assert(left_in(before, b));
            }
        } else {
            lemma_all_pass(q, stays);
        }
    }
    if !after@.pages.contains(p) {
        assert forall|s: int| slice_of(p) <= s < slice_of(p + page_bytes(h)) implies
            #[trigger] after.slice_view().free.contains(s) by {
            assert(left_free(w, g.pages, after@.pages, s));
        }
    }
}

/// How many slices so many bytes take.
pub open spec fn slices_of(bytes: int) -> int {
    (bytes + 65535) / 65536
}

pub(super) proof fn lemma_run_slices(bytes: int)
    requires
        bytes > 0,
    ensures
        run_slices(bytes) == slices_of(bytes),
        slices_of(bytes) >= 1,
{
}

/// Freeing a block that is served from no page gives back all its slices, and no others. Pages and
/// memory stay as they are.
pub proof fn law_a_freed_run_gives_back_its_slices<M: Memory, const WORDS: usize>(
    before: &Heap<M, WORDS>,
    after: &Heap<M, WORDS>,
    a: int,
)
    requires
        before.wf(),
        before.blocks().dom().contains(a),
        !paged(before.blocks()[a].size() as int, before.blocks()[a].align() as int),
        freed(before, after, a),
    ensures
        forall|s: int| #[trigger]
            after.slice_view().free.contains(s) <==> before.slice_view().free.contains(s)
                || slice_of(a) <= s < slice_of(a) + slices_of(before.blocks()[a].size() as int),
        after@.pages == before@.pages,
        after@.qs == before@.qs,
        after.memory_view() == before.memory_view(),
        after.blocks() == before.blocks().remove(a),
{
    before.lemma_live(a);
    lemma_paged(before.blocks()[a]);
    lemma_run_slices(before.blocks()[a].size() as int);
}

/// A run that is resized to no more slices, or to more of which those after it are all free, stays
/// where it is. It gives back the slices it does not need any more, or takes over those it needs,
/// and nothing else happens. Between a run and a page a block always moves.
pub proof fn law_a_run_is_resized_where_it_is_if_it_fits<M: Memory, const WORDS: usize>(
    before: &Heap<M, WORDS>,
    after: &Heap<M, WORDS>,
    a: usize,
    layout: Layout,
    r: Option<usize>,
)
    requires
        before.wf(),
        before.blocks().dom().contains(a as int),
        layout.wf(),
        layout.size() > 0,
        layout.align() == before.blocks()[a as int].align(),
        resized(before, after, a as int, layout, r),
    ensures
        ({
            let old = before.blocks()[a as int];
            let was_paged = paged(old.size() as int, old.align() as int);
            let is_paged = paged(layout.size() as int, layout.align() as int);
            let have = slices_of(old.size() as int);
            let want = slices_of(layout.size() as int);
            let first = slice_of(a as int);
            let free = before.slice_view().free;
            let room = want <= have || (first + want <= before.slice_view().limit && forall|s: int|
                first + have <= s < first + want ==> #[trigger] free.contains(s));
            &&& was_paged != is_paged ==> r != Some(a)
            &&& !was_paged && !is_paged && room ==> {
                &&& r == Some(a)
                &&& after.blocks() == before.blocks().insert(a as int, layout)
                &&& after.memory_view() == before.memory_view()
                &&& after@.pages == before@.pages
                &&& after@.qs == before@.qs
                &&& forall|s: int| #[trigger]
                    after.slice_view().free.contains(s) <==> if want <= have {
                        free.contains(s) || first + want <= s < first + have
                    } else {
                        free.contains(s) && !(first + have <= s < first + want)
                    }
            }
        }),
{
    let old = before.blocks()[a as int];
    before.lemma_live(a as int);
    lemma_paged(old);
    lemma_paged(layout);
    lemma_run_slices(old.size() as int);
    lemma_run_slices(layout.size() as int);
    assert(before.blocks().remove(a as int).insert(a as int, layout) =~= before.blocks().insert(
        a as int,
        layout,
    ));
}

/// The block that comes back from a resize begins with the words of the old one, as far as both
/// reach. If none comes back, the old one holds what it held.
pub proof fn law_a_resize_keeps_what_the_block_held<M: Memory, const WORDS: usize>(
    before: &Heap<M, WORDS>,
    after: &Heap<M, WORDS>,
    a: int,
    layout: Layout,
    r: Option<usize>,
    k: int,
)
    requires
        before.wf(),
        before.blocks().dom().contains(a),
        resized(before, after, a, layout, r),
        0 <= k,
        k % 8 == 0,
        k < before.blocks()[a].size(),
    ensures
        r matches Some(b) ==> {
            &&& k < layout.size() ==> after.words()[b + k] == before.words()[a + k]
            &&& after.blocks().dom().contains(b as int)
            &&& after.blocks()[b as int] == layout
            &&& b != a ==> !after.blocks().dom().contains(a)
        },
        r is None ==> after.blocks() == before.blocks() && after.words()[a + k]
            == before.words()[a + k],
{
    before.lemma_live(a);
    crate::arith::lemma_round_up(before.blocks()[a].size() as int, 8);
}

/// A resize and a free leave every other block under its layout, with the words it held.
pub proof fn law_other_blocks_are_left_alone<M: Memory, const WORDS: usize>(
    before: &Heap<M, WORDS>,
    after: &Heap<M, WORDS>,
    a: int,
    layout: Layout,
    r: Option<usize>,
    c: int,
    k: int,
)
    requires
        before.wf(),
        before.blocks().dom().contains(a),
        before.blocks().dom().contains(c),
        c != a,
        0 <= k < before.blocks()[c].size(),
        k % 8 == 0,
        resized(before, after, a, layout, r) || freed(before, after, a),
    ensures
        after.blocks().dom().contains(c),
        after.blocks()[c] == before.blocks()[c],
        after.words()[c + k] == before.words()[c + k],
{
    before.lemma_live(a);
    before.lemma_live(c);
    crate::arith::lemma_round_up(before.blocks()[c].size() as int, 8);
}

/// An allocation hands out a block that was not live. It is zero throughout if that was asked for,
/// and every other block is left alone.
pub proof fn law_an_allocation_hands_out_a_block<M: Memory, const WORDS: usize>(
    before: &Heap<M, WORDS>,
    after: &Heap<M, WORDS>,
    layout: Layout,
    zero: bool,
    a: usize,
    c: int,
    k: int,
)
    requires
        before.wf(),
        after.wf(),
        allocated(before, after, layout, zero, Some(a)),
        k % 8 == 0,
        0 <= k,
    ensures
        !before.blocks().dom().contains(a as int),
        after.blocks() == before.blocks().insert(a as int, layout),
        zero && k < layout.size() ==> after.words()[a + k] == 0,
        before.blocks().dom().contains(c) && k < before.blocks()[c].size() ==> after.words()[c + k]
            == before.words()[c + k],
{
    if before.blocks().dom().contains(c) {
        before.lemma_live(c);
        crate::arith::lemma_round_up(before.blocks()[c].size() as int, 8);
    }
    after.lemma_live(a as int);
}

/// Slices, and their alignment in slices, of what a request takes when it needs new ones: a page of
/// 64 KiB, one of 256 KiB, or a run.
pub open spec fn fresh_slices(layout: Layout) -> (int, int) {
    let size = round_up(layout.size() as int, layout.align() as int);
    if !paged(layout.size() as int, layout.align() as int) {
        (slices_of(layout.size() as int), slices_of(layout.align() as int))
    } else if size <= 10240 {
        (1, 1)
    } else {
        (4, 4)
    }
}

/// An allocation fails only if there are no free slices side by side for what it needs, no page that
/// is in use for its bin has a block left, and memory has no room below the end of the map, refused
/// to grow, or grew for someone else. It leaves the live blocks as they are.
pub proof fn law_an_allocation_fails_for_want_of_room_only<M: Memory, const WORDS: usize>(
    before: &Heap<M, WORDS>,
    after: &Heap<M, WORDS>,
    layout: Layout,
    zero: bool,
    t: int,
    p: int,
)
    requires
        before.wf(),
        before.is_initialized(),
        layout.wf(),
        layout.size() > 0,
        allocated(before, after, layout, zero, None),
    ensures
        ({
            let (n, a) = fresh_slices(layout);
            let m = before.slice_view();
            let h = header(before.words(), p);
            let size = round_up(layout.size() as int, layout.align() as int);
            let end = before.memory_view().end() as int;
            let log = after.memory_view().growths();
            &&& after.blocks() == before.blocks()
            &&& m.base <= t && t + n <= m.limit && t % a == 0 ==> exists|s: int|
                t <= s < t + n && !#[trigger] m.free.contains(s)
            &&& paged(layout.size() as int, layout.align() as int) && before@.pages.contains(p)
                && h.bin == bin_of(size) && h.used > 0 ==> h.used >= h.reserved
            &&& {
                ||| round_up(end, a) + n > after.slice_view().usable_limit()
                ||| log.len() > before.memory_view().growths().len() && log.last().first is None
                ||| after.memory_view().end() > end && !after.memory_view().owns(end)
            }
        }),
{
    lemma_paged(layout);
    lemma_pow2_positive(layout.align() as int);
    lemma_run_slices(layout.size() as int);
    lemma_run_slices(layout.align() as int);
    lemma_fresh_slices(layout);
    let (n, a) = fresh_slices(layout);
    let m = before.slice_view();
    if m.base <= t && t + n <= m.limit && t % a == 0 {
        assert(!m.fits(t, n, a));
    }
}

/// The slices are those that the placement asks for.
proof fn lemma_fresh_slices(layout: Layout)
    requires
        layout.wf(),
        layout.size() > 0,
    ensures
        super::placement::slices_for(layout) == fresh_slices(layout),
{
    lemma_paged(layout);
    lemma_pow2_positive(layout.align() as int);
    lemma_run_slices(layout.size() as int);
    lemma_run_slices(layout.align() as int);
    lemma_bin_table();
    if serving(layout) is Bin {
        let b: int = serving(layout)->0 as int;
        if b < 37 {
            lemma_bin_bytes_increasing(b, 37);
        } else if b > 37 {
            lemma_bin_bytes_increasing(37, b);
        }
    }
}

/// Memory grows for an allocation only if there is no fit in the free slices, no page in use for the
/// bin has a block left, and every page without a live block has been released.
pub proof fn law_memory_grows_as_a_last_resort<M: Memory, const WORDS: usize>(
    before: &Heap<M, WORDS>,
    after: &Heap<M, WORDS>,
    layout: Layout,
    zero: bool,
    r: Option<usize>,
    fresh: int,
    t: int,
    p: int,
    q: int,
)
    requires
        before.wf(),
        before.is_initialized(),
        layout.wf(),
        layout.size() > 0,
        allocated(before, after, layout, zero, r),
        after.memory_view().owns(fresh),
        !before.memory_view().owns(fresh),
    ensures
        ({
            let (n, a) = fresh_slices(layout);
            let m = before.slice_view();
            let h = header(before.words(), p);
            let size = round_up(layout.size() as int, layout.align() as int);
            &&& m.base <= t && t + n <= m.limit && t % a == 0 ==> exists|s: int|
                t <= s < t + n && !#[trigger] m.free.contains(s)
            &&& paged(layout.size() as int, layout.align() as int) && before@.pages.contains(p)
                && h.bin == bin_of(size) && h.used > 0 ==> h.used >= h.reserved
            &&& q != 0 && after@.pages.contains(q) ==> header(after.words(), q).used > 0
        }),
{
    lemma_paged(layout);
    lemma_fresh_slices(layout);
    let (n, a) = fresh_slices(layout);
    let m = before.slice_view();
    if m.base <= t && t + n <= m.limit && t % a == 0 {
        assert(!m.fits(t, n, a));
    }
}

} // verus!
