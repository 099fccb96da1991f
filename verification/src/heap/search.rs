//! The search of a bin's queue for a page to allocate from.
//!
//! Full pages are parked as they are met. Among pages with room the fuller one is preferred, so
//! that emptier pages get a chance to drain, and an empty one that was preferred so far is
//! released. The search ends at the first page with a block at hand, or after [`MAX_CANDIDATES`]
//! pages beyond the first with room.
use vstd::prelude::*;

use super::MAX_CANDIDATES;
use crate::model::{
    in_header, lemma_home_range, lemma_pages_apart, pages_ok, relabelled, HeapModel, FULL_QUEUE,
};
use crate::page::{
    block_addr, block_batch, extension, free_list, header, lemma_header_words, lemma_page_shape,
    same_but_heap_fields, Page, HEADER_BYTES,
};

verus! {

/// At least 7/8 of the blocks of the page are live.
pub open spec fn mostly_used(h: Page) -> bool {
    h.used * 8 >= h.reserved * 7
}

/// Some block of the page can be had: the free list is not empty, or it can be extended.
pub open spec fn has_room(h: Page) -> bool {
    h.used < h.reserved
}

/// Where a search has come to.
#[verifier::ext_equal]
pub struct Search {
    /// The page preferred so far, 0 for none.
    pub candidate: int,
    /// The pages that stay in the queue, first to last.
    pub queue: Seq<int>,
    /// The pages parked in the full queue, in the order in which they were met.
    pub parked: Seq<int>,
    /// The pages released.
    pub released: Set<int>,
}

impl Search {
    /// The search before it meets any page.
    pub open spec fn start() -> Search {
        Search {
            candidate: 0,
            queue: Seq::empty(),
            parked: Seq::empty(),
            released: Set::empty(),
        }
    }

    /// The search once it has met `p`, a page without room.
    pub open spec fn park(self, p: int) -> Search {
        Search { parked: self.parked.push(p), ..self }
    }

    /// The search once it has met `p`, a page with room.
    pub open spec fn meet(self, w: Map<int, u64>, p: int) -> Search {
        let c = header(w, self.candidate);
        let h = header(w, p);
        if self.candidate == 0 {
            Search { candidate: p, queue: self.queue.push(p), ..self }
        } else if c.used == 0 {
            Search {
                candidate: p,
                queue: self.queue.remove(self.queue.index_of(self.candidate)).push(p),
                released: self.released.insert(self.candidate),
                ..self
            }
        } else if h.used >= c.used && !mostly_used(h) {
            Search { candidate: p, queue: self.queue.push(p), ..self }
        } else {
            Search { queue: self.queue.push(p), ..self }
        }
    }

    /// The search once it leaves the pages `rest` of the queue unmet.
    pub open spec fn stop(self, rest: Seq<int>) -> Search {
        Search { queue: self.queue + rest, ..self }
    }
}

/// The end of a search that has come to `s` and has the pages of `l` from `k` on before it, with
/// `limit` more pages to meet.
pub open spec fn search_on(w: Map<int, u64>, l: Seq<int>, k: int, s: Search, limit: int) -> Search
    decreases l.len() - k,
{
    if 0 <= k < l.len() {
        let p = l[k];
        if has_room(header(w, p)) {
            let bound = if s.candidate == 0 {
                MAX_CANDIDATES as int
            } else {
                limit
            };
            if free_list(w, p).len() > 0 || bound <= 0 {
                s.meet(w, p).stop(l.skip(k + 1))
            } else {
                search_on(w, l, k + 1, s.meet(w, p), bound - 1)
            }
        } else {
            search_on(w, l, k + 1, s.park(p), limit - 1)
        }
    } else {
        s
    }
}

/// The end of a search through the queue `l`.
pub open spec fn search(w: Map<int, u64>, l: Seq<int>) -> Search {
    search_on(w, l, 0, Search::start(), MAX_CANDIDATES as int)
}

/// What holds of a search that has met the first `k` pages of `l`.
spec fn sound(w: Map<int, u64>, l: Seq<int>, k: int, s: Search) -> bool {
    &&& s.candidate == 0 ==> forall|i: int| 0 <= i < k ==> !has_room(header(w, #[trigger] l[i]))
    &&& s.candidate != 0 ==> {
        &&& has_room(header(w, s.candidate))
        &&& l.contains(s.candidate)
        &&& s.queue.contains(s.candidate)
    }
    &&& forall|p: int| #[trigger] s.parked.contains(p) ==> l.contains(p) && !has_room(header(w, p))
    &&& forall|p: int| #[trigger]
        s.released.contains(p) ==> l.contains(p) && header(w, p).used == 0
    &&& forall|i: int| 0 <= i < k ==> placed_by(s, #[trigger] l[i])
}

/// The search has kept the page in the queue, parked it, or released it.
pub open spec fn placed_by(s: Search, p: int) -> bool {
    s.queue.contains(p) || s.parked.contains(p) || s.released.contains(p)
}

/// Meeting one more page.
proof fn lemma_meet_sound(w: Map<int, u64>, l: Seq<int>, k: int, s: Search)
    requires
        0 <= k < l.len(),
        l[k] != 0,
        sound(w, l, k, s),
    ensures
        sound(
            w,
            l,
            k + 1,
            if has_room(header(w, l[k])) {
                s.meet(w, l[k])
            } else {
                s.park(l[k])
            },
        ),
{
    let p = l[k];
    if has_room(header(w, p)) {
        let t = s.meet(w, p);
        assert(t.queue.last() == p);
        if s.candidate != 0 {
            lemma_met(w, l, k, s);
        }
        assert forall|i: int| 0 <= i < k + 1 implies placed_by(t, #[trigger] l[i]) by {
            if i < k && s.queue.contains(l[i]) {
                let j: int = s.queue.index_of(l[i]);
                if s.candidate != 0 && header(w, s.candidate).used == 0 {
                    let c: int = s.queue.index_of(s.candidate);
                    assert(s.queue[c] == s.candidate);
                    if j < c {
                        assert(t.queue[j] == l[i]);
                    } else if j > c {
                        assert(t.queue[j - 1] == l[i]);
                    }
                } else {
                    assert(t.queue[j] == l[i]);
                }
            }
        }
    } else {
        let t = s.park(p);
        assert(t.parked.last() == p);
        assert forall|q: int| #[trigger] t.parked.contains(q) implies l.contains(q) && !has_room(
            header(w, q),
        ) by {
            let j: int = t.parked.index_of(q);
            if j < s.parked.len() {
                assert(s.parked[j] == q);
                assert(s.parked.contains(q));
            }
        }
        assert forall|i: int| 0 <= i < k + 1 implies placed_by(t, #[trigger] l[i]) by {
            if i < k && s.parked.contains(l[i]) {
                let j: int = s.parked.index_of(l[i]);
                assert(t.parked[j] == l[i]);
            }
        }
    }
}

/// Going on to the end.
proof fn lemma_search_on_sound(w: Map<int, u64>, l: Seq<int>, k: int, s: Search, limit: int)
    requires
        0 <= k <= l.len(),
        !l.contains(0),
        sound(w, l, k, s),
    ensures
        sound(w, l, l.len() as int, search_on(w, l, k, s, limit)),
    decreases l.len() - k,
{
    if k < l.len() {
        assert(l.contains(l[k]));
        lemma_meet_sound(w, l, k, s);
        if has_room(header(w, l[k])) {
            let bound = if s.candidate == 0 {
                MAX_CANDIDATES as int
            } else {
                limit
            };
            let t = s.meet(w, l[k]);
            if free_list(w, l[k]).len() > 0 || bound <= 0 {
                let rest = l.skip(k + 1);
                let e = t.stop(rest);
                assert(e.queue[t.queue.index_of(t.candidate)] == t.candidate);
                assert forall|i: int| 0 <= i < l.len() implies placed_by(e, #[trigger] l[i]) by {
                    if i > k {
                        assert(e.queue[t.queue.len() + i - k - 1] == l[i]);
                    } else if t.queue.contains(l[i]) {
                        assert(e.queue[t.queue.index_of(l[i])] == l[i]);
                    }
                }
            } else {
                lemma_search_on_sound(w, l, k + 1, t, bound - 1);
            }
        } else {
            lemma_search_on_sound(w, l, k + 1, s.park(l[k]), limit - 1);
        }
    }
}

/// A search of a queue of pages finds a page with room exactly if the queue has one, and the page
/// is still in the queue. Only pages without room are parked, only empty ones are released, and no
/// page is lost.
pub proof fn law_the_search_finds_room(w: Map<int, u64>, l: Seq<int>)
    requires
        !l.contains(0),
    ensures
        ({
            let s = search(w, l);
            &&& s.candidate != 0 <==> exists|p: int| #[trigger]
                l.contains(p) && has_room(header(w, p))
            &&& s.candidate != 0 ==> l.contains(s.candidate) && s.queue.contains(s.candidate)
                && has_room(header(w, s.candidate))
            &&& forall|p: int| #[trigger]
                s.parked.contains(p) ==> l.contains(p) && !has_room(header(w, p))
            &&& forall|p: int| #[trigger]
                s.released.contains(p) ==> l.contains(p) && header(w, p).used == 0
            &&& forall|p: int| #[trigger] l.contains(p) ==> placed_by(s, p)
        }),
{
    let s = search(w, l);
    lemma_search_on_sound(w, l, 0, Search::start(), MAX_CANDIDATES as int);
    assert forall|p: int| #[trigger] l.contains(p) implies placed_by(s, p) && (s.candidate == 0
        ==> !has_room(header(w, p))) by {
        assert(l[l.index_of(p)] == p);
    }
}

/// The `i`th page of a queue has a block that can be had.
pub open spec fn room_at(w: Map<int, u64>, l: Seq<int>, i: int) -> bool {
    header(w, l[i]).used < header(w, l[i]).reserved
}

/// Live blocks of the `i`th page of a queue.
pub open spec fn used_at(w: Map<int, u64>, l: Seq<int>, i: int) -> int {
    header(w, l[i]).used as int
}

/// An eighth of the `i`th page of a queue, or more, is left.
pub open spec fn eighth_left(w: Map<int, u64>, l: Seq<int>, i: int) -> bool {
    8 * (header(w, l[i]).reserved - header(w, l[i]).used) > header(w, l[i]).reserved
}

/// The members of `q` are in the order they have in `l`.
pub open spec fn in_order_of(l: Seq<int>, q: Seq<int>) -> bool {
    forall|a: int, b: int|
        0 <= a < b < q.len() ==> l.index_of(#[trigger] q[a]) < l.index_of(#[trigger] q[b])
}

/// Where a search stands that has met the first `m` pages of `l` and has the first `n` in its queue
/// or elsewhere. `f` is the first page with room, `e` the first in use with room or, if there is
/// none, the last with room, and `c` the page preferred.
pub open spec fn search_stands(
    w: Map<int, u64>,
    l: Seq<int>,
    m: int,
    n: int,
    s: Search,
    f: int,
    e: int,
    c: int,
) -> bool {
    &&& 0 <= m <= n <= l.len()
    &&& s.candidate == 0 ==> forall|i: int| 0 <= i < m ==> !#[trigger] room_at(w, l, i)
    &&& s.candidate != 0 ==> {
        &&& 0 <= f <= e <= c < m
        &&& s.candidate == l[c]
        &&& room_at(w, l, f) && room_at(w, l, e) && room_at(w, l, c)
        &&& forall|i: int| 0 <= i < f ==> !#[trigger] room_at(w, l, i)
        &&& forall|i: int|
            0 <= i < e && #[trigger] room_at(w, l, i) ==> used_at(w, l, i) == 0
        &&& used_at(w, l, e) > 0 || forall|i: int|
            e < i < m ==> !#[trigger] room_at(w, l, i)
        &&& c != e ==> eighth_left(w, l, c) && used_at(w, l, c) >= used_at(w, l, e)
        &&& forall|i: int|
            e < i < m && #[trigger] room_at(w, l, i) && eighth_left(w, l, i) ==> used_at(w, l, i)
                <= used_at(w, l, c) && (i > c ==> used_at(w, l, i) < used_at(w, l, c))
    }
    &&& forall|p: int| #[trigger]
        s.parked.contains(p) <==> l.contains(p) && l.index_of(p) < m && !room_at(
            w,
            l,
            l.index_of(p),
        )
    &&& forall|p: int| #[trigger]
        s.released.contains(p) <==> s.candidate != 0 && l.contains(p) && l.index_of(p) < e
            && room_at(w, l, l.index_of(p))
    &&& forall|p: int| #[trigger]
        s.queue.contains(p) <==> l.contains(p) && l.index_of(p) < n && !s.parked.contains(p)
            && !s.released.contains(p)
    &&& in_order_of(l, s.queue)
    &&& in_order_of(l, s.parked)
}

/// A member that comes after all of a list goes to its end.
proof fn lemma_in_order_push(l: Seq<int>, q: Seq<int>, k: int)
    requires
        l.no_duplicates(),
        0 <= k < l.len(),
        in_order_of(l, q),
        forall|p: int| #[trigger] q.contains(p) ==> l.contains(p) && l.index_of(p) < k,
    ensures
        in_order_of(l, q.push(l[k])),
        l.index_of(l[k]) == k,
        forall|p: int| #[trigger] q.push(l[k]).contains(p) <==> q.contains(p) || p == l[k],
{
    let t = q.push(l[k]);
    assert(l.contains(l[k]));
    assert forall|a: int, b: int| 0 <= a < b < t.len() implies l.index_of(#[trigger] t[a])
        < l.index_of(#[trigger] t[b]) by {
        if b == q.len() {
            assert(q.contains(q[a]));
        }
    }
    assert forall|p: int| #[trigger] t.contains(p) <==> q.contains(p) || p == l[k] by {
        if q.contains(p) {
            assert(t[q.index_of(p)] == p);
        }
        assert(t[q.len() as int] == l[k]);
        if t.contains(p) {
            let j: int = t.index_of(p);
            if j < q.len() {
                assert(q[j] == p);
            }
        }
    }
}

/// A list without one of its members.
pub(super) proof fn lemma_in_order_remove(l: Seq<int>, q: Seq<int>, x: int)
    requires
        in_order_of(l, q),
        q.contains(x),
    ensures
        in_order_of(l, q.remove(q.index_of(x))),
        forall|p: int| #[trigger]
            q.remove(q.index_of(x)).contains(p) <==> q.contains(p) && p != x,
{
    let j: int = q.index_of(x);
    let t = q.remove(j);
    assert(q[j] == x);
    assert forall|a: int, b: int| 0 <= a < b < t.len() implies l.index_of(#[trigger] t[a])
        < l.index_of(#[trigger] t[b]) by {
        let y: int = if a < j {
            a
        } else {
            a + 1
        };
        let z: int = if b < j {
            b
        } else {
            b + 1
        };
        assert(t[a] == q[y] && t[b] == q[z]);
    }
    assert forall|p: int| #[trigger] t.contains(p) <==> q.contains(p) && p != x by {
        if t.contains(p) {
            let a: int = t.index_of(p);
            let y: int = if a < j {
                a
            } else {
                a + 1
            };
            assert(t[a] == q[y]);
            assert(q[y] == p);
            if p == x {
                if y < j {
                    assert(l.index_of(q[y]) < l.index_of(q[j]));
                } else {
                    assert(l.index_of(q[j]) < l.index_of(q[y]));
                }
            }
        }
        if q.contains(p) && p != x {
            let y: int = q.index_of(p);
            if y < j {
                assert(t[y] == p);
            } else {
                assert(t[y - 1] == p);
            }
        }
    }
}

/// The search meets one more page, without room.
proof fn lemma_stands_park(
    w: Map<int, u64>,
    l: Seq<int>,
    k: int,
    s: Search,
    f: int,
    e: int,
    c: int,
)
    requires
        l.no_duplicates(),
        0 <= k < l.len(),
        !room_at(w, l, k),
        search_stands(w, l, k, k, s, f, e, c),
    ensures
        search_stands(w, l, k + 1, k + 1, s.park(l[k]), f, e, c),
{
    lemma_in_order_push(l, s.parked, k);
}

/// The search meets one more page, with room. The first in use with room and the page preferred may
/// be others afterwards.
proof fn lemma_stands_meet(
    w: Map<int, u64>,
    l: Seq<int>,
    k: int,
    s: Search,
    f: int,
    e: int,
    c: int,
) -> (r: (int, int, int))
    requires
        l.no_duplicates(),
        !l.contains(0),
        0 <= k < l.len(),
        room_at(w, l, k),
        search_stands(w, l, k, k, s, f, e, c),
    ensures
        search_stands(w, l, k + 1, k + 1, s.meet(w, l[k]), r.0, r.1, r.2),
        s.meet(w, l[k]).candidate != 0,
        s.candidate != 0 ==> r.0 == f,
        s.candidate == 0 ==> r.0 == k,
{
    let p: int = l[k];
    let t = s.meet(w, p);
    assert(l.contains(p));
    if s.candidate == 0 {
        lemma_in_order_push(l, s.queue, k);
        assert(search_stands(w, l, k + 1, k + 1, t, k, k, k));
        (k, k, k)
    } else if header(w, s.candidate).used == 0 {
        assert(used_at(w, l, c) == 0);
        assert(c == e);
        let x: int = s.candidate;
        assert(l.contains(x) && l.index_of(x) == c);
        assert(s.queue.contains(x));
        lemma_in_order_remove(l, s.queue, x);
        let q = s.queue.remove(s.queue.index_of(x));
        lemma_in_order_push(l, q, k);
        assert forall|y: int| #[trigger] t.released.contains(y) <==> l.contains(y) && l.index_of(y)
            < k && room_at(w, l, l.index_of(y)) by {
            if l.contains(y) {
                let i: int = l.index_of(y);
                assert(l[i] == y);
                if e < i < k {
                    assert(!room_at(w, l, i));
                }
            }
        }
        assert(search_stands(w, l, k + 1, k + 1, t, f, k, k));
        (f, k, k)
    } else {
        lemma_in_order_push(l, s.queue, k);
        assert(used_at(w, l, e) > 0);
        if t.candidate == p {
            assert(search_stands(w, l, k + 1, k + 1, t, f, e, k));
            (f, e, k)
        } else {
            assert(search_stands(w, l, k + 1, k + 1, t, f, e, c));
            (f, e, c)
        }
    }
}

/// The search stops, and leaves the rest of the pages at the end of its queue.
proof fn lemma_stands_stop(
    w: Map<int, u64>,
    l: Seq<int>,
    m: int,
    s: Search,
    f: int,
    e: int,
    c: int,
)
    requires
        l.no_duplicates(),
        search_stands(w, l, m, m, s, f, e, c),
    ensures
        search_stands(w, l, m, l.len() as int, s.stop(l.skip(m)), f, e, c),
{
    let t = s.stop(l.skip(m));
    let n: int = s.queue.len() as int;
    assert forall|a: int, b: int| 0 <= a < b < t.queue.len() implies l.index_of(
        #[trigger] t.queue[a],
    ) < l.index_of(#[trigger] t.queue[b]) by {
        if b >= n {
            assert(t.queue[b] == l[m + b - n]);
            assert(l.index_of(l[m + b - n]) == m + b - n);
            if a >= n {
                assert(t.queue[a] == l[m + a - n]);
                assert(l.index_of(l[m + a - n]) == m + a - n);
            } else {
                assert(s.queue.contains(s.queue[a]));
            }
        }
    }
    assert forall|p: int| #[trigger] t.queue.contains(p) <==> l.contains(p) && !t.parked.contains(
        p,
    ) && !t.released.contains(p) by {
        if t.queue.contains(p) {
            let j: int = t.queue.index_of(p);
            if j < n {
                assert(s.queue[j] == p);
                assert(s.queue.contains(p));
            } else {
                assert(t.queue[j] == l[m + j - n]);
                assert(l.index_of(p) == m + j - n);
            }
        }
        if l.contains(p) && !t.parked.contains(p) && !t.released.contains(p) {
            let i: int = l.index_of(p);
            if i < m {
                assert(s.queue.contains(p));
                assert(t.queue[s.queue.index_of(p)] == p);
            } else {
                assert(t.queue[n + i - m] == p);
            }
        }
    }
}

/// The search goes on to its end.
proof fn lemma_search_ends(
    w: Map<int, u64>,
    l: Seq<int>,
    k: int,
    s: Search,
    limit: int,
    f: int,
    e: int,
    c: int,
) -> (r: (int, int, int, int))
    requires
        l.no_duplicates(),
        !l.contains(0),
        0 <= k <= l.len(),
        search_stands(w, l, k, k, s, f, e, c),
        s.candidate != 0 ==> limit == 4 - (k - f),
        forall|i: int|
            0 <= i < k && #[trigger] room_at(w, l, i) ==> free_list(w, l[i]).len() == 0 && i < f + 4,
    ensures
        ({
            let t = search_on(w, l, k, s, limit);
            let (m, f, e, c) = r;
            &&& search_stands(w, l, m, l.len() as int, t, f, e, c)
            &&& forall|i: int|
                0 <= i < m - 1 && #[trigger] room_at(w, l, i) ==> free_list(w, l[i]).len() == 0
                    && i < f + 4
            &&& m < l.len() ==> m > 0 && t.candidate != 0 && room_at(w, l, m - 1) && (free_list(
                w,
                l[m - 1],
            ).len() > 0 || m - 1 >= f + 4)
        }),
    decreases l.len() - k,
{
    if k < l.len() {
        let p: int = l[k];
        assert(l.contains(p));
        if has_room(header(w, p)) {
            assert(room_at(w, l, k));
            let bound: int = if s.candidate == 0 {
                MAX_CANDIDATES as int
            } else {
                limit
            };
            let (g, h, d) = lemma_stands_meet(w, l, k, s, f, e, c);
            if free_list(w, p).len() > 0 || bound <= 0 {
                lemma_stands_stop(w, l, k + 1, s.meet(w, p), g, h, d);
                (k + 1, g, h, d)
            } else {
                lemma_search_ends(w, l, k + 1, s.meet(w, p), bound - 1, g, h, d)
            }
        } else {
            assert(!room_at(w, l, k));
            lemma_stands_park(w, l, k, s, f, e, c);
            lemma_search_ends(w, l, k + 1, s.park(p), limit - 1, f, e, c)
        }
    } else {
        (k, f, e, c)
    }
}

/// What a search meets, prefers, parks and releases. It meets the pages of the queue one by one and
/// ends with the first that has room and a block at hand, or with one that has room and is at
/// least four places after the first that had. The empty pages with room before the first in use
/// are released, as long as another page with room is met after them. Of that one and those after
/// it that are less than seven eighths in use, the page with the most live blocks is preferred, the
/// last of equals. Full pages that are met are parked, the others stay in the queue, and all keep
/// their order.
pub proof fn law_the_search_prefers_the_fuller_page(w: Map<int, u64>, l: Seq<int>) -> (r: (
    int,
    int,
    int,
    int,
))
    requires
        l.no_duplicates(),
        !l.contains(0),
    ensures
        ({
            let s = search(w, l);
            let (m, f, e, c) = r;
            &&& search_stands(w, l, m, l.len() as int, s, f, e, c)
            &&& forall|i: int|
                0 <= i < m - 1 && #[trigger] room_at(w, l, i) ==> free_list(w, l[i]).len() == 0
                    && i < f + 4
            &&& m < l.len() ==> m > 0 && s.candidate != 0 && room_at(w, l, m - 1) && (free_list(
                w,
                l[m - 1],
            ).len() > 0 || m - 1 >= f + 4)
        }),
{
    let s = Search::start();
    assert(search_stands(w, l, 0, 0, s, 0, 0, 0));
    lemma_search_ends(w, l, 0, s, MAX_CANDIDATES as int, 0, 0, 0)
}

/// What a search does to the header of a page: parking it flags it full and ends its retirement.
pub open spec fn parked_or_kept(h: Page, k: Page, parked: bool) -> bool {
    &&& same_but_heap_fields(h, k)
    &&& if parked {
        k.flags == 1 && k.retire_expire == 0
    } else {
        k.flags == h.flags && k.retire_expire == h.retire_expire
    }
}

/// The block that page `p` hands out next: the last one freed to it, or else the first of those
/// never handed out.
pub open spec fn next_block(w: Map<int, u64>, p: int) -> int {
    if free_list(w, p).len() > 0 {
        free_list(w, p)[0]
    } else {
        block_addr(p, header(w, p), header(w, p).capacity as int)
    }
}

/// The blocks that page `p` has to hand out without another extension after this one: its free
/// list or, if that is empty, the next batch of those never handed out.
pub open spec fn at_hand(w: Map<int, u64>, p: int) -> Seq<int> {
    let h = header(w, p);
    if free_list(w, p).len() > 0 {
        free_list(w, p)
    } else {
        block_batch(p, h, h.capacity as int, extension(h))
    }
}

/// The page that a search found, made ready and with the first `taken` of its blocks at hand
/// handed out: it was extended if its list was empty, and it is not retired any more.
pub open spec fn readied(w: Map<int, u64>, v: Map<int, u64>, p: int, taken: int) -> bool {
    let h = header(w, p);
    let k = header(v, p);
    &&& free_list(v, p) == at_hand(w, p).skip(taken)
    &&& k == (Page {
        free: k.free,
        used: (h.used + taken) as u32,
        capacity: if free_list(w, p).len() > 0 {
            h.capacity
        } else {
            (h.capacity + extension(h)) as u32
        },
        retire_expire: 0,
        next: k.next,
        prev: k.prev,
        ..h
    })
}

/// The pages that are left after a search that came to `s`: the one it found is ready, and the
/// others are as they were but for those it parked.
pub open spec fn pages_after(
    w: Map<int, u64>,
    v: Map<int, u64>,
    pages: Set<int>,
    s: Search,
    taken: int,
) -> bool {
    &&& readied(w, v, s.candidate, taken)
    &&& forall|p: int| #[trigger]
        pages.contains(p) && p != s.candidate ==> parked_or_kept(
            header(w, p),
            header(v, p),
            s.parked.contains(p),
        ) && free_list(v, p) == free_list(w, p)
}

/// A list with its member `p` moved to the front.
pub open spec fn fronted(l: Seq<int>, p: int) -> Seq<int> {
    seq![p] + l.remove(l.index_of(p))
}

/// The queues after a search of queue `b` that came to `s`, with the page it found in front.
pub open spec fn queues_after(qs: Seq<Seq<int>>, b: int, s: Search) -> Seq<Seq<int>> {
    qs.update(b, fronted(s.queue, s.candidate)).update(
        FULL_QUEUE as int,
        qs[FULL_QUEUE as int] + s.parked,
    )
}

/// The queue once the search has met the page at `k`, which has room: as it was, but for the
/// candidate if that is released.
pub(super) proof fn lemma_met(w: Map<int, u64>, l: Seq<int>, k: int, s: Search)
    requires
        0 <= k < l.len(),
        s.candidate != 0 ==> s.queue.contains(s.candidate),
    ensures
        ({
            let t = s.meet(w, l[k]);
            let q = s.queue + l.skip(k);
            &&& t.queue.contains(t.candidate)
            &&& t.queue + l.skip(k + 1) == if s.candidate != 0 && header(w, s.candidate).used == 0 {
                q.remove(s.queue.index_of(s.candidate))
            } else {
                q
            }
        }),
{
    let t = s.meet(w, l[k]);
    let q = s.queue + l.skip(k);
    assert(t.queue.last() == l[k]);
    if s.candidate != 0 {
        let j: int = s.queue.index_of(s.candidate);
        assert(s.queue[j] == s.candidate);
        if header(w, s.candidate).used == 0 {
            assert(t.queue + l.skip(k + 1) =~= q.remove(j));
        } else {
            assert(t.queue[j] == s.candidate);
            assert(t.queue + l.skip(k + 1) =~= q);
        }
    } else {
        assert(t.queue + l.skip(k + 1) =~= q);
    }
}

/// Relabelling the pages `g` that are left of `g0`, after a relabelling of all of them.
pub(super) proof fn lemma_relabelled_further(
    w0: Map<int, u64>,
    w: Map<int, u64>,
    v: Map<int, u64>,
    g0: HeapModel,
    g: HeapModel,
)
    requires
        pages_ok(w0, g0),
        relabelled(w0, w, g0),
        relabelled(w, v, g),
        g.pages.subset_of(g0.pages),
    ensures
        relabelled(w0, v, g0),
{
    assert forall|x: int| !in_header(g0, x) implies #[trigger] v[x] == w0[x] by {
        assert(w[x] == w0[x]);
        if in_header(g, x) {
            let p: int = choose|p: int| #[trigger] g.pages.contains(p) && p <= x < p + HEADER_BYTES;
            assert(g0.pages.contains(p));
        }
    }
    assert forall|p: int| #[trigger] g0.pages.contains(p) implies same_but_heap_fields(
        header(w0, p),
        header(v, p),
    ) by {
        assert(same_but_heap_fields(header(w0, p), header(w, p)));
        if g.pages.contains(p) {
            assert(same_but_heap_fields(header(w, p), header(v, p)));
        } else {
            assert forall|x: int| p <= x < p + HEADER_BYTES implies !in_header(g, x) by {
                if in_header(g, x) {
                    let q: int = choose|q: int|
                        #[trigger] g.pages.contains(q) && q <= x < q + HEADER_BYTES;
                    assert(g0.pages.contains(q));
                    lemma_pages_apart(w0, g0, p, q);
                    lemma_home_range(w0, g0, p);
                    lemma_home_range(w0, g0, q);
                    lemma_page_shape(p, header(w0, p));
                    lemma_page_shape(q, header(w0, q));
                }
            }
            assert(!in_header(g, p) && !in_header(g, p + 8) && !in_header(g, p + 16) && !in_header(
                g,
                p + 24,
            ));
            lemma_header_words(w, v, p);
        }
    }
}

} // verus!
