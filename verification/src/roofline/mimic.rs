//! Floor that does the memory traffic of the heap's fast paths and nothing else, to price the
//! bookkeeping in the page headers.
//!
//! Like the heap: a direct table indexed by class points at the current 64 KiB page of the class,
//! the page header holds the head of the free list, a count of used blocks, a byte that says
//! whether the free blocks are zero and a byte of flags. Allocation pops the list and counts the
//! block as used. A free masks the address to the header, pushes the block, counts it as unused,
//! clears the zero byte, and counts a transition when the page empties or is flagged. Unlike the
//! heap there are no queues, no retirement, no extension in batches, and no medium or large pages:
//! anything above 1024 bytes goes to the bump pointer and is leaked.
//!
//! Four knobs split the cost of that bookkeeping. With `LEAN` the header holds the head of the free
//! list only. With `WIDE_USED` the count of used blocks is read and written as 32 bits instead of
//! 16. With `NO_ZERO` the zero byte is not cleared on free. With `NO_TEST` the test for a
//! transition is dropped.
use vstd::arithmetic::div_mod::lemma_fundamental_div_mod_converse;
use vstd::prelude::*;

use super::bump::{bump_allocated, bump_rewound, Bump, BumpModel};
use super::cells::{
    cells_ok, clear_of, kept_cells, lemma_carved, lemma_cells_kept, lemma_chain_other,
    lemma_chain_pop, lemma_chain_push, lemma_region_kept, lemma_reset, owned_bytes, region_ok,
};
use super::memory::still_owned;
use super::paged::{
    block_of, is_slot, is_small, lemma_next_slot, lemma_page_layout, lemma_slot_aligned,
    lemma_slot_page, lemma_slot_serves, lemma_slots_apart, lemma_small, page_base, small_class,
    PAGE,
};
use super::segregated::{lemma_cells_owned, lemma_region_owned, rewind_to, GRANULE};
use super::sizeclass::{class_of, small, NCLASS};
use crate::backend::{in_order, slice_of, Memory};
use crate::layout::Layout;
use crate::page::{chain, link};

verus! {

/// Bytes at the start of each page that are kept for its header.
pub const HEADER: usize = 64;

/// A page header. Only the head of the list, the count, the zero byte and the flags are ever read
/// again.
#[derive(Clone, Copy)]
pub struct Hdr {
    pub free: usize,
    pub used: u16,
    pub capacity: u16,
    pub reserved: u16,
    pub block_start: u16,
    pub block_size: u32,
    pub free_is_zero: bool,
    pub bin: u8,
    pub kind: u8,
    pub flags: u8,
    pub retire_expire: u8,
    pub next: usize,
    pub prev: usize,
}

/// The word of the counts: `used`, `capacity`, `reserved` and `block_start`, the first lowest.
pub open spec fn counts_word(h: Hdr) -> int {
    h.used + 0x1_0000 * h.capacity + 0x1_0000_0000 * h.reserved + 0x1_0000_0000_0000
        * h.block_start
}

/// The zero byte.
pub open spec fn zero_byte(h: Hdr) -> int {
    if h.free_is_zero {
        1
    } else {
        0
    }
}

/// The word of `block_size`, `free_is_zero`, `bin`, `kind` and `flags`, the first lowest.
pub open spec fn traits_word(h: Hdr) -> int {
    h.block_size + 0x1_0000_0000 * zero_byte(h) + 0x100_0000_0000 * h.bin + 0x1_0000_0000_0000
        * h.kind + 0x100_0000_0000_0000 * h.flags
}

/// The header `h` stands at `p`.
pub open spec fn holds(w: Map<int, u64>, p: int, h: Hdr) -> bool {
    &&& w[p] == h.free
    &&& w[p + 8] == counts_word(h)
    &&& w[p + 16] == traits_word(h)
    &&& w[p + 24] == h.retire_expire
    &&& w[p + 32] == h.next
    &&& w[p + 40] == h.prev
}

/// The header of a fresh page of class `c`.
pub open spec fn fresh(c: int) -> Hdr {
    Hdr {
        free: 0,
        used: 0,
        capacity: 0,
        reserved: ((PAGE - HEADER) / block_of(c)) as u16,
        block_start: HEADER as u16,
        block_size: block_of(c) as u32,
        free_is_zero: true,
        bin: c as u8,
        kind: 0,
        flags: 0,
        retire_expire: 0,
        next: 0,
        prev: 0,
    }
}

/// A header of class `c`: as it was written but for the list, the count and the zero byte.
pub open spec fn hdr_ok(h: Hdr, c: int) -> bool {
    &&& 0 <= c < NCLASS
    &&& h == (Hdr { free: h.free, used: h.used, free_is_zero: h.free_is_zero, ..fresh(c) })
}

/// One more block is used.
pub open spec fn one_more(lean: bool, h: Hdr) -> Hdr {
    if lean {
        h
    } else {
        Hdr { used: (h.used + 1) as u16, ..h }
    }
}

/// What the floor stands for.
#[verifier::ext_equal]
pub struct MimicModel {
    /// What has been carved out of the bump region: pages and large blocks.
    pub cells: Map<int, int>,
    /// The header of every page.
    pub hdrs: Map<int, Hdr>,
    /// The free blocks of every page, the last one freed first.
    pub lists: Map<int, Seq<int>>,
    /// The live blocks.
    pub live: Map<int, Layout>,
    /// For every class, the next block of its current page and the end of that page.
    pub cur: Seq<int>,
    pub end: Seq<int>,
    /// Transitions counted.
    pub transitions: u32,
}

/// The blocks of the page at `p` end here: the next block to hand out if the page is current.
pub open spec fn limit(g: MimicModel, p: int) -> int {
    let c = g.hdrs[p].bin as int;
    if g.end[c] == p + PAGE {
        g.cur[c]
    } else {
        p + PAGE
    }
}

/// A page: its header and its list.
pub open spec fn page_inv(w: Map<int, u64>, p: int, h: Hdr, l: Seq<int>, to: int) -> bool {
    &&& p > 0
    &&& p % PAGE as int == 0
    &&& hdr_ok(h, h.bin as int)
    &&& holds(w, p, h)
    &&& chain(w, h.free as int, l)
    &&& l.no_duplicates()
    &&& forall|i: int|
        0 <= i < l.len() ==> is_slot(p, HEADER as int, h.bin as int, #[trigger] l[i]) && l[i] < to
}

/// The live blocks of a page.
pub open spec fn live_in(g: MimicModel, p: int) -> Set<int> {
    g.live.dom().filter(|a: int| is_small(g.live[a]) && page_base(a) == p)
}

/// The page at `p` as part of the floor.
pub open spec fn page_ok(lean: bool, g: MimicModel, w: Map<int, u64>, p: int) -> bool {
    &&& g.cells.dom().contains(p)
    &&& g.cells[p] == PAGE
    &&& g.lists.dom().contains(p)
    &&& page_inv(w, p, g.hdrs[p], g.lists[p], limit(g, p))
    &&& forall|i: int|
        0 <= i < g.lists[p].len() ==> !g.live.dom().contains(#[trigger] g.lists[p][i])
    &&& g.hdrs[p].used == if lean {
        0
    } else {
        live_in(g, p).len()
    }
}

/// A live block: in a page of its class, or a cell of its own.
pub open spec fn live_ok(g: MimicModel, a: int) -> bool {
    let layout = g.live[a];
    let p = page_base(a);
    &&& layout.wf()
    &&& layout.size() > 0
    &&& if is_small(layout) {
        &&& g.hdrs.dom().contains(p)
        &&& g.hdrs[p].bin == small_class(layout)
        &&& is_slot(p, HEADER as int, small_class(layout), a)
        &&& a < limit(g, p)
    } else {
        &&& g.cells.dom().contains(a)
        &&& g.cells[a] == layout.size()
        &&& !g.hdrs.dom().contains(a)
        &&& a % layout.align() as int == 0
    }
}

/// The current page of class `c`, if there is one, and what is left of it.
pub open spec fn current_ok(g: MimicModel, c: int) -> bool {
    let p = g.end[c] - PAGE;
    if g.end[c] == 0 {
        g.cur[c] == 0
    } else {
        &&& g.hdrs.dom().contains(p)
        &&& g.hdrs[p].bin == c
        &&& p + HEADER <= g.cur[c] <= g.end[c]
        &&& (g.cur[c] - p - HEADER) % block_of(c) == 0
    }
}

/// The floor's memory is as it was but for the header at `p` and the word at `a`.
pub open spec fn header_touched<M: Memory>(o: &M, n: &M, p: int, a: int) -> bool {
    &&& n.base_addr() == o.base_addr()
    &&& n.end() == o.end()
    &&& n.growths() == o.growths()
    &&& forall|s: int| #[trigger] n.owns(s) == o.owns(s)
    &&& forall|x: int| !(p <= x < p + HEADER) && x != a ==> #[trigger] n.words()[x] == o.words()[x]
}

/// A page keeps its state if its words do.
proof fn lemma_page_kept(
    w: Map<int, u64>,
    v: Map<int, u64>,
    p: int,
    h: Hdr,
    l: Seq<int>,
    to: int,
)
    requires
        page_inv(w, p, h, l, to),
        forall|x: int| p <= x < p + PAGE && x % 8 == 0 ==> #[trigger] v[x] == w[x],
    ensures
        page_inv(v, p, h, l, to),
{
    assert forall|i: int| 0 <= i < l.len() implies v[#[trigger] l[i]] == w[l[i]] by {
        lemma_slot_aligned(p, HEADER as int, h.bin as int, l[i]);
    }
    lemma_chain_other(w, v, h.free as int, l);
}

/// The words of a header are aligned and lie in one slice.
proof fn lemma_header_words(p: int)
    requires
        p % PAGE as int == 0,
    ensures
        p % 8 == 0,
        slice_of(p + 8) == slice_of(p),
        slice_of(p + 16) == slice_of(p),
        slice_of(p + 24) == slice_of(p),
        slice_of(p + 32) == slice_of(p),
        slice_of(p + 40) == slice_of(p),
{
}

/// The count of used blocks in its word.
proof fn lemma_counts(h: Hdr)
    requires
        h.capacity == 0,
    ensures
        0 <= counts_word(h) <= u64::MAX,
        counts_word(h) % 0x1_0000 == h.used,
        counts_word(h) % 0x1_0000_0000 == h.used,
{
    let x: int = counts_word(h);
    let rest: int = h.reserved + 0x1_0000 * h.block_start;
    let used: int = h.used as int;
    lemma_fundamental_div_mod_converse(x, 0x1_0000_0000, rest, used);
    lemma_fundamental_div_mod_converse(x, 0x1_0000, 0x1_0000 * rest, used);
}

/// The zero byte and the flags in their word.
proof fn lemma_traits(h: Hdr)
    ensures
        0 <= traits_word(h) <= u64::MAX,
        traits_word(h) / 0x1_0000_0000 % 0x100 == zero_byte(h),
        traits_word(h) / 0x100_0000_0000_0000 == h.flags,
{
    let x: int = traits_word(h);
    let rest: int = h.bin + 0x100 * h.kind + 0x1_0000 * h.flags;
    let zero: int = zero_byte(h);
    let size: int = h.block_size as int;
    lemma_fundamental_div_mod_converse(x, 0x1_0000_0000, zero + 0x100 * rest, size);
    lemma_fundamental_div_mod_converse(zero + 0x100 * rest, 0x100, rest, zero);
    let low: int = size + 0x1_0000_0000 * zero + 0x100_0000_0000 * h.bin + 0x1_0000_0000_0000
        * h.kind;
    lemma_fundamental_div_mod_converse(x, 0x100_0000_0000_0000, h.flags as int, low);
}

/// A page after its list lost its first block.
proof fn lemma_page_popped(
    w: Map<int, u64>,
    v: Map<int, u64>,
    p: int,
    h: Hdr,
    k: Hdr,
    l: Seq<int>,
    to: int,
)
    requires
        page_inv(w, p, h, l, to),
        l.len() > 0,
        k == (Hdr { free: link(l, 0) as usize, used: k.used, ..h }),
        link(l, 0) <= usize::MAX,
        holds(v, p, k),
        forall|x: int| p + HEADER <= x < p + PAGE ==> #[trigger] v[x] == w[x],
    ensures
        page_inv(v, p, k, l.drop_first(), to),
{
    let t = l.drop_first();
    assert(w[l[0]] == link(l, 0));
    lemma_chain_pop(w, h.free as int, l);
    assert forall|i: int| 0 <= i < t.len() implies is_slot(
        p,
        HEADER as int,
        h.bin as int,
        #[trigger] t[i],
    ) && t[i] < to && v[t[i]] == w[t[i]] by {
        assert(t[i] == l[i + 1]);
    }
    lemma_chain_other(w, v, k.free as int, t);
    assert forall|i: int, j: int|
        0 <= i < t.len() && 0 <= j < t.len() && i != j implies t[i] != t[j] by {
        assert(t[i] == l[i + 1] && t[j] == l[j + 1]);
    }
}

/// A page after a block was put in front of its list.
proof fn lemma_page_pushed(
    w: Map<int, u64>,
    v: Map<int, u64>,
    p: int,
    h: Hdr,
    k: Hdr,
    l: Seq<int>,
    to: int,
    a: int,
)
    requires
        page_inv(w, p, h, l, to),
        !l.contains(a),
        is_slot(p, HEADER as int, h.bin as int, a),
        a < to,
        0 < a <= usize::MAX,
        k == (Hdr { free: a as usize, used: k.used, free_is_zero: k.free_is_zero, ..h }),
        holds(v, p, k),
        v[a] == h.free,
        forall|x: int| p + HEADER <= x < p + PAGE && x != a ==> #[trigger] v[x] == w[x],
    ensures
        page_inv(v, p, k, seq![a] + l, to),
{
    let t = seq![a] + l;
    let u = w.insert(a, h.free as u64);
    lemma_chain_push(w, h.free as int, l, a);
    assert forall|i: int| 0 <= i < t.len() implies is_slot(
        p,
        HEADER as int,
        h.bin as int,
        #[trigger] t[i],
    ) && t[i] < to && v[t[i]] == u[t[i]] by {
        if i > 0 {
            assert(t[i] == l[i - 1]);
            assert(l.contains(l[i - 1]));
        }
    }
    lemma_chain_other(u, v, k.free as int, t);
    assert forall|i: int, j: int|
        0 <= i < t.len() && 0 <= j < t.len() && i != j implies t[i] != t[j] by {
        if i > 0 {
            assert(t[i] == l[i - 1]);
            assert(l.contains(l[i - 1]));
        }
        if j > 0 {
            assert(t[j] == l[j - 1]);
            assert(l.contains(l[j - 1]));
        }
    }
}

/// A page has room for fewer blocks than its count can hold.
proof fn lemma_few_live(g: MimicModel, p: int)
    requires
        g.live.dom().finite(),
        forall|a: int| #[trigger] g.live.dom().contains(a) ==> live_ok(g, a),
    ensures
        live_in(g, p).finite(),
        live_in(g, p).len() <= PAGE - HEADER,
{
    let s = live_in(g, p);
    let all = vstd::set_lib::set_int_range(p + HEADER, p + PAGE);
    vstd::set_lib::lemma_int_range(p + HEADER, p + PAGE);
    assert(s.subset_of(all)) by {
        assert forall|a: int| #[trigger] s.contains(a) implies all.contains(a) by {
            assert(live_ok(g, a));
            lemma_small(g.live[a]);
        }
    }
    vstd::set_lib::lemma_len_subset(s, all);
}

/// What the model of the floor after a step has in common with the one before: the pages other
/// than the one at `p` and the live blocks other than the one at `a`, which lies in that page.
spec fn step_at(g: MimicModel, k: MimicModel, p: int, a: int) -> bool {
    &&& p % PAGE as int == 0
    &&& page_base(a) == p
    &&& g.hdrs.dom().contains(p)
    &&& k.cells == g.cells
    &&& k.hdrs.dom() == g.hdrs.dom()
    &&& k.lists.dom() == g.lists.dom()
    &&& forall|q: int| q != p ==> #[trigger] k.hdrs[q] == g.hdrs[q]
    &&& forall|q: int| q != p ==> #[trigger] k.lists[q] == g.lists[q]
    &&& k.hdrs[p].bin == g.hdrs[p].bin
    &&& k.end == g.end
    &&& k.cur.len() == g.cur.len()
    &&& forall|c: int| 0 <= c < NCLASS ==> g.cur[c] <= #[trigger] k.cur[c]
    &&& forall|x: int|
        x != a ==> (#[trigger] k.live.dom().contains(x) <==> g.live.dom().contains(x))
    &&& forall|x: int| x != a ==> #[trigger] k.live[x] == g.live[x]
}

/// Other pages are left alone by a step.
proof fn lemma_step_page(
    lean: bool,
    g: MimicModel,
    k: MimicModel,
    w: Map<int, u64>,
    v: Map<int, u64>,
    p: int,
    a: int,
    q: int,
)
    requires
        step_at(g, k, p, a),
        page_ok(lean, g, w, q),
        g.hdrs.dom().contains(q),
        q != p,
        forall|x: int| !(p <= x < p + PAGE) ==> #[trigger] v[x] == w[x],
    ensures
        page_ok(lean, k, v, q),
{
    let h = g.hdrs[q];
    let l = g.lists[q];
    assert(k.hdrs[q] == h);
    assert(k.lists[q] == l);
    assert forall|x: int| q <= x < q + PAGE && x % 8 == 0 implies #[trigger] v[x] == w[x] by {
        assert(p + PAGE <= q || q + PAGE <= p);
    }
    lemma_page_kept(w, v, q, h, l, limit(g, q));
    assert(limit(g, q) <= limit(k, q)) by {
        assert(g.cur[h.bin as int] <= k.cur[h.bin as int]);
    }
    assert forall|i: int| 0 <= i < l.len() implies !k.live.dom().contains(#[trigger] l[i]) by {
        assert(is_slot(q, HEADER as int, h.bin as int, l[i]));
        lemma_slot_page(q, HEADER as int, h.bin as int, l[i]);
        assert(l[i] != a);
    }
    assert(live_in(k, q) =~= live_in(g, q)) by {
        assert forall|x: int| live_in(k, q).contains(x) == live_in(g, q).contains(x) by {
            if x != a {
                assert(k.live.dom().contains(x) == g.live.dom().contains(x));
                assert(k.live[x] == g.live[x]);
            }
        }
    }
}

/// Other blocks stay live in a step.
proof fn lemma_step_live(g: MimicModel, k: MimicModel, p: int, a: int, x: int)
    requires
        step_at(g, k, p, a),
        live_ok(g, x),
        x != a,
        forall|c: int| 0 <= c < NCLASS ==> #[trigger] current_ok(g, c),
        forall|q: int| #[trigger]
            g.hdrs.dom().contains(q) ==> hdr_ok(g.hdrs[q], g.hdrs[q].bin as int),
    ensures
        live_ok(k, x),
{
    assert(k.live[x] == g.live[x]);
    if is_small(g.live[x]) {
        let q: int = page_base(x);
        if q != p {
            assert(k.hdrs[q] == g.hdrs[q]);
        }
        let c: int = g.hdrs[q].bin as int;
        assert(hdr_ok(g.hdrs[q], c));
        assert(g.cur[c] <= k.cur[c]);
    }
}

/// The counts of blocks of a page with one more live block.
proof fn lemma_one_more_live(g: MimicModel, k: MimicModel, p: int, a: int)
    requires
        step_at(g, k, p, a),
        g.live.dom().finite(),
        !g.live.dom().contains(a),
        k.live.dom().contains(a),
        is_small(k.live[a]),
    ensures
        k.live.dom().finite(),
        live_in(g, p).finite(),
        live_in(k, p).len() == live_in(g, p).len() + 1,
{
    assert(k.live.dom() =~= g.live.dom().insert(a)) by {
        assert forall|x: int| k.live.dom().contains(x) == g.live.dom().insert(a).contains(x) by {
            if x != a {
                assert(k.live.dom().contains(x) == g.live.dom().contains(x));
            }
        }
    }
    assert(live_in(k, p) =~= live_in(g, p).insert(a)) by {
        assert forall|x: int| live_in(k, p).contains(x) == live_in(g, p).insert(a).contains(x) by {
            if x != a {
                assert(k.live.dom().contains(x) == g.live.dom().contains(x));
                assert(k.live[x] == g.live[x]);
            }
        }
    }
}

/// The free list of the page at `p` loses its first block, which becomes live.
pub open spec fn popped(lean: bool, o: MimicModel, k: MimicModel, p: int, layout: Layout) -> bool {
    let l = o.lists[p];
    k == (MimicModel {
        hdrs: o.hdrs.insert(p, one_more(lean, Hdr { free: link(l, 0) as usize, ..o.hdrs[p] })),
        lists: o.lists.insert(p, l.drop_first()),
        live: o.live.insert(l[0], layout),
        ..o
    })
}

/// The next block of the current page of class `c` becomes live.
pub open spec fn next_taken(
    lean: bool,
    o: MimicModel,
    k: MimicModel,
    c: int,
    layout: Layout,
) -> bool {
    let p = o.end[c] - PAGE;
    k == (MimicModel {
        hdrs: o.hdrs.insert(p, one_more(lean, o.hdrs[p])),
        live: o.live.insert(o.cur[c], layout),
        cur: o.cur.update(c, o.cur[c] + block_of(c)),
        ..o
    })
}

/// The page at `p` becomes the current page of class `c`.
pub open spec fn with_page(o: MimicModel, c: int, p: int) -> MimicModel {
    MimicModel {
        cells: o.cells.insert(p, PAGE as int),
        hdrs: o.hdrs.insert(p, fresh(c)),
        lists: o.lists.insert(p, Seq::empty()),
        cur: o.cur.update(c, p + HEADER),
        end: o.end.update(c, p + PAGE),
        ..o
    }
}

/// The bump pointer was asked for a page.
pub open spec fn bump_page<M: Memory>(
    b: BumpModel,
    d: BumpModel,
    old: &M,
    new: &M,
    r: Option<usize>,
) -> bool {
    bump_allocated(b, d, old, new, Layout::of(PAGE, PAGE), r)
}

/// A page was taken from the bump pointer for class `c`, if it had one.
pub open spec fn page_started<M: Memory>(
    o: MimicModel,
    k: MimicModel,
    b: BumpModel,
    d: BumpModel,
    old: &M,
    new: &M,
    c: int,
    r: Option<usize>,
) -> bool {
    match r {
        None => k == o && still_owned(old, new) && bump_page(b, d, old, new, None),
        Some(p) => {
            &&& k == with_page(o, c, p as int)
            &&& exists|mid: M| #[trigger] bump_page(b, d, old, &mid, Some(p)) && still_owned(
                old,
                &mid,
            ) && header_touched(&mid, new, p as int, p as int)
        },
    }
}

/// What an allocation of class `c` does when the current page has no free block.
pub open spec fn refilled<M: Memory>(
    lean: bool,
    o: MimicModel,
    k: MimicModel,
    b: BumpModel,
    d: BumpModel,
    old: &M,
    new: &M,
    c: int,
    layout: Layout,
    r: Option<usize>,
) -> bool {
    if o.cur[c] + block_of(c) <= o.end[c] {
        let p = o.end[c] - PAGE;
        &&& r == Some(o.cur[c] as usize)
        &&& next_taken(lean, o, k, c, layout)
        &&& d == b
        &&& header_touched(old, new, p, p)
    } else {
        &&& r is None ==> page_started(o, k, b, d, old, new, c, None)
        &&& r is Some ==> exists|mid: M| #[trigger]
            begun(lean, o, k, b, d, old, &mid, new, c, layout, r->0 as int)
    }
}

/// A page was started, with memory `mid` in between, and its first block at `a` became live.
pub open spec fn begun<M: Memory>(
    lean: bool,
    o: MimicModel,
    k: MimicModel,
    b: BumpModel,
    d: BumpModel,
    old: &M,
    mid: &M,
    new: &M,
    c: int,
    layout: Layout,
    a: int,
) -> bool {
    let p = a - HEADER;
    &&& page_started(o, with_page(o, c, p), b, d, old, mid, c, Some(p as usize))
    &&& next_taken(lean, with_page(o, c, p), k, c, layout)
    &&& header_touched(mid, new, p, p)
}

/// A block from a page that was just started.
proof fn lemma_begun<M: Memory>(
    lean: bool,
    o: MimicModel,
    k: MimicModel,
    b: BumpModel,
    d: BumpModel,
    old: &M,
    mid: &M,
    new: &M,
    c: int,
    layout: Layout,
    a: usize,
)
    requires
        o.cur[c] + block_of(c) > o.end[c],
        begun(lean, o, k, b, d, old, mid, new, c, layout, a as int),
    ensures
        refilled(lean, o, k, b, d, old, new, c, layout, Some(a)),
{
    let r = Some(a);
    assert(r->0 == a);
    assert(begun(lean, o, k, b, d, old, mid, new, c, layout, r->0 as int));
    assert(refilled(lean, o, k, b, d, old, new, c, layout, r));
}

/// What an allocation does that belongs to no class.
pub open spec fn carved<M: Memory>(
    o: MimicModel,
    k: MimicModel,
    b: BumpModel,
    d: BumpModel,
    old: &M,
    new: &M,
    layout: Layout,
    r: Option<usize>,
) -> bool {
    &&& still_owned(old, new)
    &&& bump_allocated(b, d, old, new, layout, r)
    &&& match r {
        Some(a) => k == (MimicModel {
            cells: o.cells.insert(a as int, layout.size() as int),
            live: o.live.insert(a as int, layout),
            ..o
        }),
        None => k == o,
    }
}

/// What an allocation does.
pub open spec fn mimic_allocated<M: Memory>(
    lean: bool,
    o: MimicModel,
    k: MimicModel,
    b: BumpModel,
    d: BumpModel,
    old: &M,
    new: &M,
    layout: Layout,
    r: Option<usize>,
) -> bool {
    let c = small_class(layout);
    let p = o.end[c] - PAGE;
    if !is_small(layout) {
        carved(o, k, b, d, old, new, layout, r)
    } else if o.end[c] != 0 && o.lists[p].len() > 0 {
        &&& r == Some(o.lists[p][0] as usize)
        &&& popped(lean, o, k, p, layout)
        &&& d == b
        &&& header_touched(old, new, p, p)
    } else {
        refilled(lean, o, k, b, d, old, new, c, layout, r)
    }
}

/// The header of a page after the block at `a` was freed to it.
pub open spec fn freed_header(lean: bool, no_zero: bool, h: Hdr, a: int) -> Hdr {
    Hdr {
        free: a as usize,
        used: if lean {
            h.used
        } else {
            (h.used - 1) as u16
        },
        free_is_zero: h.free_is_zero && (lean || no_zero),
        ..h
    }
}

/// What freeing the block at `a` does.
pub open spec fn mimic_freed<M: Memory>(
    lean: bool,
    no_zero: bool,
    no_test: bool,
    o: MimicModel,
    k: MimicModel,
    old: &M,
    new: &M,
    a: int,
) -> bool {
    if !is_small(o.live[a]) {
        &&& k == (MimicModel { live: o.live.remove(a), ..o })
        &&& *new == *old
    } else {
        let p = page_base(a);
        let h = freed_header(lean, no_zero, o.hdrs[p], a);
        &&& k == (MimicModel {
            hdrs: o.hdrs.insert(p, h),
            lists: o.lists.insert(p, seq![a] + o.lists[p]),
            live: o.live.remove(a),
            transitions: if !lean && !no_test && (h.used == 0 || h.flags != 0) {
                o.transitions.wrapping_add(1)
            } else {
                o.transitions
            },
            ..o
        })
        &&& header_touched(old, new, p, a)
    }
}

/// The entries of a map that do not lie in `[lo, hi)`.
pub open spec fn outside<V>(m: Map<int, V>, lo: int, hi: int) -> Map<int, V> {
    m.restrict(Set::new(|a: int| m.dom().contains(a) && !(lo <= a < hi)))
}

/// What a reset does: the pointer goes back, what was carved since is forgotten, and so are all
/// current pages.
pub open spec fn mimic_rewound(o: MimicModel, n: MimicModel, b: BumpModel, d: BumpModel) -> bool {
    &&& bump_rewound(b, d)
    &&& n.live == o.live
    &&& n.transitions == o.transitions
    &&& n.cells == kept_cells(o.cells, d.cur, b.cur)
    &&& n.hdrs == outside(o.hdrs, d.cur, b.cur)
    &&& n.lists == outside(o.lists, d.cur, b.cur)
    &&& n.cur == Seq::new(NCLASS as nat, |c: int| 0int)
    &&& n.end == Seq::new(NCLASS as nat, |c: int| 0int)
}

/// A floor that keeps the books of the heap.
pub struct Mimic<
    const LEAN: bool,
    const WIDE_USED: bool,
    const NO_ZERO: bool,
    const NO_TEST: bool,
> {
    direct: [usize; 64],
    transitions: u32,
    cur: [usize; 64],
    end: [usize; 64],
    bump: Bump,
    model: Ghost<MimicModel>,
}

impl<
    const LEAN: bool,
    const WIDE_USED: bool,
    const NO_ZERO: bool,
    const NO_TEST: bool,
> Mimic<LEAN, WIDE_USED, NO_ZERO, NO_TEST> {
    pub closed spec fn view(&self) -> MimicModel {
        self.model@
    }

    pub closed spec fn pointer(&self) -> BumpModel {
        self.bump@
    }

    /// The tables hold the current page of class `c`.
    closed spec fn stands(&self, c: int) -> bool {
        &&& self.model@.cur[c] == self.cur@[c]
        &&& self.model@.end[c] == self.end@[c]
        &&& self.direct@[c] == if self.model@.end[c] == 0 {
            0
        } else {
            self.model@.end[c] - PAGE
        }
    }

    /// The floor's invariant over its memory.
    pub closed spec fn wf<M: Memory>(&self, mem: &M) -> bool {
        let g = self.model@;
        let w = mem.words();
        &&& in_order(mem)
        &&& self.bump.wf()
        &&& cells_ok(g.cells, mem)
        &&& region_ok(self.bump@, g.cells, mem)
        &&& g.cur.len() == NCLASS
        &&& g.end.len() == NCLASS
        &&& g.live.dom().finite()
        &&& g.transitions == self.transitions
        &&& g.lists.dom() == g.hdrs.dom()
        &&& forall|c: int| 0 <= c < NCLASS ==> #[trigger] self.stands(c)
        &&& forall|c: int| 0 <= c < NCLASS ==> #[trigger] current_ok(g, c)
        &&& forall|p: int| #[trigger] g.hdrs.dom().contains(p) ==> page_ok(LEAN, g, w, p)
        &&& forall|a: int| #[trigger] g.live.dom().contains(a) ==> live_ok(g, a)
    }

    /// Nothing carved yet.
    pub fn new<M: Memory>(mem: &M) -> (r: Self)
        requires
            in_order(mem),
        ensures
            r.wf(mem),
            r@ == (MimicModel {
                cells: Map::empty(),
                hdrs: Map::empty(),
                lists: Map::empty(),
                live: Map::empty(),
                cur: Seq::new(NCLASS as nat, |c: int| 0),
                end: Seq::new(NCLASS as nat, |c: int| 0),
                transitions: 0,
            }),
            r.pointer() == (BumpModel { cur: 0, end: 0, mark: None }),
    {
        Mimic {
            direct: [0; 64],
            transitions: 0,
            cur: [0; 64],
            end: [0; 64],
            bump: Bump::new(),
            model: Ghost(
                MimicModel {
                    cells: Map::empty(),
                    hdrs: Map::empty(),
                    lists: Map::empty(),
                    live: Map::empty(),
                    cur: Seq::new(NCLASS as nat, |c: int| 0),
                    end: Seq::new(NCLASS as nat, |c: int| 0),
                    transitions: 0,
                },
            ),
        }
    }

    /// The count of used blocks in the header at `page`: 16 bits, or 32 that cover the unused
    /// `capacity` too.
    fn used<M: Memory>(mem: &M, page: usize) -> (r: u32)
        requires
            in_order(mem),
            page % PAGE == 0,
            page < usize::MAX - 8,
            mem.owns(slice_of(page as int)),
        ensures
            r == mem.words()[page + 8] % if WIDE_USED {
                0x1_0000_0000
            } else {
                0x1_0000
            },
    {
        let word: u64 = mem.load(page + 8);
        if WIDE_USED {
            (word % 0x1_0000_0000) as u32
        } else {
            (word % 0x1_0000) as u32
        }
    }

    /// Replace the count of used blocks in the header at `page`.
    fn set_used<M: Memory>(mem: &mut M, page: usize, v: u32)
        requires
            in_order(old(mem)),
            page % PAGE == 0,
            page < usize::MAX - 8,
            old(mem).owns(slice_of(page as int)),
            v < 0x1_0000,
        ensures
            in_order(final(mem)),
            final(mem).base_addr() == old(mem).base_addr(),
            final(mem).end() == old(mem).end(),
            final(mem).growths() == old(mem).growths(),
            forall|s: int| #[trigger] final(mem).owns(s) == old(mem).owns(s),
            ({
                let word = old(mem).words()[page + 8];
                let span = if WIDE_USED {
                    0x1_0000_0000u64
                } else {
                    0x1_0000u64
                };
                final(mem).words() == old(mem).words().insert(
                    page + 8,
                    (word - word % span + v) as u64,
                )
            }),
    {
        let word: u64 = mem.load(page + 8);
        if WIDE_USED {
            mem.store(page + 8, word - word % 0x1_0000_0000 + v as u64);
        } else {
            mem.store(page + 8, word - word % 0x1_0000 + v as u64);
        }
    }

    /// The header's words are the allocator's.
    proof fn lemma_header_owned<M: Memory>(&self, mem: &M, p: int)
        requires
            self.wf(mem),
            self.model@.hdrs.dom().contains(p),
        ensures
            page_ok(LEAN, self.model@, mem.words(), p),
            p > 0,
            p % PAGE as int == 0,
            p + PAGE <= usize::MAX,
            mem.owns(slice_of(p)),
            hdr_ok(self.model@.hdrs[p], self.model@.hdrs[p].bin as int),
    {
        let g = self.model@;
        assert(page_ok(LEAN, g, mem.words(), p));
        assert(owned_bytes(mem, p, p + g.cells[p]));
    }

    /// A block's word is the allocator's.
    proof fn lemma_block_owned<M: Memory>(&self, mem: &M, p: int, a: int)
        requires
            self.wf(mem),
            self.model@.hdrs.dom().contains(p),
            is_slot(p, HEADER as int, self.model@.hdrs[p].bin as int, a),
        ensures
            a % 16 == 0,
            page_base(a) == p,
            mem.owns(slice_of(a)),
    {
        self.lemma_header_owned(mem, p);
        lemma_slot_aligned(p, HEADER as int, self.model@.hdrs[p].bin as int, a);
        lemma_slot_page(p, HEADER as int, self.model@.hdrs[p].bin as int, a);
        assert(owned_bytes(mem, p, p + self.model@.cells[p]));
    }

    /// Everything but the page of a step is as it was.
    proof fn lemma_step<M: Memory>(&self, k: MimicModel, o: &M, n: &M, p: int, a: int)
        requires
            self.wf(o),
            step_at(self.model@, k, p, a),
            forall|x: int| !(p <= x < p + PAGE) ==> #[trigger] n.words()[x] == o.words()[x],
        ensures
            forall|q: int|
                q != p && #[trigger] k.hdrs.dom().contains(q) ==> page_ok(LEAN, k, n.words(), q),
            forall|x: int| x != a && #[trigger] k.live.dom().contains(x) ==> live_ok(k, x),
    {
        let g = self.model@;
        assert forall|q: int| q != p && #[trigger] k.hdrs.dom().contains(q) implies page_ok(
            LEAN,
            k,
            n.words(),
            q,
        ) by {
            assert(g.hdrs.dom().contains(q));
            lemma_step_page(LEAN, g, k, o.words(), n.words(), p, a, q);
        }
        assert forall|q: int| #[trigger] g.hdrs.dom().contains(q) implies hdr_ok(
            g.hdrs[q],
            g.hdrs[q].bin as int,
        ) by {
            self.lemma_header_owned(o, q);
        }
        assert forall|x: int| x != a && #[trigger] k.live.dom().contains(x) implies live_ok(
            k,
            x,
        ) by {
            assert(g.live.dom().contains(x));
            lemma_step_live(g, k, p, a, x);
        }
    }

    /// Take the block freed last to the page at `page`, the current one of class `c`.
    #[verifier::spinoff_prover]
    #[verifier::rlimit(60)]
    fn pop<M: Memory>(&mut self, mem: &mut M, page: usize, layout: Layout) -> (r: usize)
        requires
            old(self).wf(old(mem)),
            layout.wf(),
            layout.size() > 0,
            is_small(layout),
            old(self)@.hdrs.dom().contains(page as int),
            old(self)@.hdrs[page as int].bin == small_class(layout),
            old(self)@.lists[page as int].len() > 0,
        ensures
            final(self).wf(final(mem)),
            final(self).pointer() == old(self).pointer(),
            r == old(self)@.lists[page as int][0],
            popped(LEAN, old(self)@, final(self)@, page as int, layout),
            header_touched(old(mem), final(mem), page as int, page as int),
    {
        let ghost g = self.model@;
        let ghost w = mem.words();
        let ghost p: int = page as int;
        let ghost h = g.hdrs[p];
        let ghost l = g.lists[p];
        let ghost a: int = l[0];
        proof {
            self.lemma_header_owned(mem, p);
            assert(is_slot(p, HEADER as int, h.bin as int, l[0]));
            self.lemma_block_owned(mem, p, a);
            assert(w[l[0]] == link(l, 0));
            if l.len() > 1 {
                assert(is_slot(p, HEADER as int, h.bin as int, l[1]));
                self.lemma_block_owned(mem, p, l[1]);
            }
            lemma_few_live(g, p);
            lemma_counts(h);
        }
        let block: usize = mem.load(page) as usize;
        let next: u64 = mem.load(block);
        mem.store(page, next);
        if !LEAN {
            let n: u32 = Self::used(mem, page);
            assert(n == h.used);
            Self::set_used(mem, page, n + 1);
        }
        let ghost h1 = one_more(LEAN, Hdr { free: link(l, 0) as usize, ..h });
        let ghost t = l.drop_first();
        self.model = Ghost(
            MimicModel {
                hdrs: g.hdrs.insert(p, h1),
                lists: g.lists.insert(p, t),
                live: g.live.insert(a, layout),
                ..g
            },
        );
        proof {
            let k = self.model@;
            let v = mem.words();
            lemma_cells_owned(g.cells, old(mem), mem);
            lemma_region_owned(self.bump@, g.cells, old(mem), mem);
            assert(step_at(g, k, p, a)) by {
                assert(k.hdrs.dom() =~= g.hdrs.dom());
                assert(k.lists.dom() =~= g.lists.dom());
            }
            old(self).lemma_step(k, old(mem), mem, p, a);
            lemma_one_more_live(g, k, p, a);
            lemma_small(layout);
            lemma_page_popped(w, v, p, h, h1, l, limit(g, p));
            assert forall|i: int| 0 <= i < t.len() implies !k.live.dom().contains(
                #[trigger] t[i],
            ) by {
                assert(t[i] == l[i + 1]);
                assert(l[0] != l[i + 1]);
            }
            assert(limit(k, p) == limit(g, p));
            assert(page_inv(v, p, h1, t, limit(k, p)));
            assert(page_ok(LEAN, k, v, p));
            assert forall|c: int| 0 <= c < NCLASS implies #[trigger] current_ok(k, c) by {
                assert(current_ok(g, c));
            }
            assert forall|c: int| 0 <= c < NCLASS implies #[trigger] self.stands(c) by {
                assert(old(self).stands(c));
            }
            assert(live_ok(k, a));
        }
        block
    }

    /// Hand out the next block of the current page of class `c`.
    #[verifier::spinoff_prover]
    #[verifier::rlimit(60)]
    fn take_next<M: Memory>(&mut self, mem: &mut M, c: usize, layout: Layout) -> (r: usize)
        requires
            old(self).wf(old(mem)),
            layout.wf(),
            layout.size() > 0,
            is_small(layout),
            c == small_class(layout),
            c < NCLASS,
            old(self)@.cur[c as int] + block_of(c as int) <= old(self)@.end[c as int],
        ensures
            final(self).wf(final(mem)),
            final(self).pointer() == old(self).pointer(),
            r == old(self)@.cur[c as int],
            next_taken(LEAN, old(self)@, final(self)@, c as int, layout),
            ({
                let p = old(self)@.end[c as int] - PAGE;
                header_touched(old(mem), final(mem), p, p)
            }),
    {
        let ghost g = self.model@;
        let ghost w = mem.words();
        let ghost p: int = g.end[c as int] - PAGE;
        let ghost h = g.hdrs[p];
        let ghost l = g.lists[p];
        let a: usize = self.cur[c];
        let page: usize = self.direct[c];
        proof {
            assert(self.stands(c as int));
            assert(current_ok(g, c as int));
            self.lemma_header_owned(mem, p);
            lemma_next_slot(p, HEADER as int, c as int, a as int);
            lemma_slot_page(p, HEADER as int, c as int, a as int);
            lemma_few_live(g, p);
            lemma_counts(h);
            if g.live.dom().contains(a as int) {
                assert(live_ok(g, a as int));
            }
        }
        self.cur[c] = a + (c + 1) * GRANULE;
        if !LEAN {
            let n: u32 = Self::used(mem, page);
            assert(n == h.used);
            Self::set_used(mem, page, n + 1);
        }
        let ghost h1 = one_more(LEAN, h);
        self.model = Ghost(
            MimicModel {
                hdrs: g.hdrs.insert(p, h1),
                live: g.live.insert(a as int, layout),
                cur: g.cur.update(c as int, a + block_of(c as int)),
                ..g
            },
        );
        proof {
            let k = self.model@;
            let v = mem.words();
            lemma_cells_owned(g.cells, old(mem), mem);
            lemma_region_owned(self.bump@, g.cells, old(mem), mem);
            assert(step_at(g, k, p, a as int)) by {
                assert(k.hdrs.dom() =~= g.hdrs.dom());
            }
            old(self).lemma_step(k, old(mem), mem, p, a as int);
            lemma_one_more_live(g, k, p, a as int);
            assert(holds(v, p, h1));
            assert forall|i: int| 0 <= i < l.len() implies v[#[trigger] l[i]] == w[l[i]] && l[i]
                < limit(k, p) && !k.live.dom().contains(l[i]) by {
                assert(is_slot(p, HEADER as int, h.bin as int, l[i]));
            }
            lemma_chain_other(w, v, h1.free as int, l);
            assert(page_inv(v, p, h1, l, limit(k, p)));
            assert(page_ok(LEAN, k, v, p));
            assert forall|d: int| 0 <= d < NCLASS implies #[trigger] current_ok(k, d) by {
                assert(current_ok(g, d));
            }
            assert forall|d: int| 0 <= d < NCLASS implies #[trigger] self.stands(d) by {
                assert(old(self).stands(d));
            }
            assert(live_ok(k, a as int));
        }
        a
    }

    /// Words outside `[p, p + PAGE)`, where nothing has been carved, decide about the floor.
    proof fn lemma_words_kept<M: Memory>(&self, k: MimicModel, o: &M, n: &M, p: int)
        requires
            self.wf(o),
            forall|x: int|
                !(p <= x < p + PAGE) && x % 8 == 0 && o.owns(slice_of(x)) ==> #[trigger] n.words()[x]
                    == o.words()[x],
            clear_of(self.model@.cells, p, p + PAGE),
            forall|q: int| #[trigger]
                self.model@.hdrs.dom().contains(q) ==> k.cells.dom().contains(q) && k.cells[q]
                    == self.model@.cells[q] && k.hdrs[q] == self.model@.hdrs[q]
                    && k.lists.dom().contains(q) && k.lists[q] == self.model@.lists[q]
                    && limit(self.model@, q) <= limit(k, q),
            forall|x: int|
                !(p <= x < p + PAGE) ==> (#[trigger] k.live.dom().contains(x)
                    <==> self.model@.live.dom().contains(x)),
            forall|x: int|
                !(p <= x < p + PAGE) ==> #[trigger] k.live[x] == self.model@.live[x],
            forall|x: int| #[trigger]
                k.live.dom().contains(x) && p <= x < p + PAGE ==> !is_small(k.live[x]),
        ensures
            forall|q: int| #[trigger]
                self.model@.hdrs.dom().contains(q) ==> page_ok(LEAN, k, n.words(), q),
    {
        let g = self.model@;
        assert forall|q: int| #[trigger] g.hdrs.dom().contains(q) implies page_ok(
            LEAN,
            k,
            n.words(),
            q,
        ) by {
            let h = g.hdrs[q];
            let l = g.lists[q];
            self.lemma_header_owned(o, q);
            assert(g.cells.dom().contains(q));
            assert forall|x: int| q <= x < q + PAGE && x % 8 == 0 implies #[trigger] n.words()[x]
                == o.words()[x] by {
                assert(owned_bytes(o, q, q + g.cells[q]));
                assert(o.owns(slice_of(x)));
            }
            lemma_page_kept(o.words(), n.words(), q, h, l, limit(g, q));
            assert forall|i: int| 0 <= i < l.len() implies !k.live.dom().contains(
                #[trigger] l[i],
            ) by {
                assert(is_slot(q, HEADER as int, h.bin as int, l[i]));
                assert(!(p <= l[i] < p + PAGE));
            }
            assert(live_in(k, q) =~= live_in(g, q)) by {
                assert forall|x: int| live_in(k, q).contains(x) == live_in(g, q).contains(x) by {
                    if !(p <= x < p + PAGE) {
                        assert(k.live.dom().contains(x) == g.live.dom().contains(x));
                        assert(k.live[x] == g.live[x]);
                    } else if page_base(x) == q {
                        assert(q <= x < q + PAGE);
                    }
                }
            }
        }
    }

    /// Write the header `h` at `page`.
    #[verifier::spinoff_prover]
    #[verifier::rlimit(40)]
    fn write_header<M: Memory>(mem: &mut M, page: usize, h: Hdr)
        requires
            in_order(old(mem)),
            page % PAGE == 0,
            page < usize::MAX - HEADER,
            old(mem).owns(slice_of(page as int)),
        ensures
            in_order(final(mem)),
            header_touched(old(mem), final(mem), page as int, page as int),
            holds(final(mem).words(), page as int, h),
    {
        let zero: u64 = if h.free_is_zero {
            1
        } else {
            0
        };
        let counts: u64 = h.used as u64 + 0x1_0000 * h.capacity as u64 + 0x1_0000_0000
            * h.reserved as u64 + 0x1_0000_0000_0000 * h.block_start as u64;
        let traits: u64 = h.block_size as u64 + 0x1_0000_0000 * zero + 0x100_0000_0000
            * h.bin as u64 + 0x1_0000_0000_0000 * h.kind as u64 + 0x100_0000_0000_0000
            * h.flags as u64;
        proof {
            lemma_header_words(page as int);
        }
        mem.store(page, h.free as u64);
        mem.store(page + 8, counts);
        mem.store(page + 16, traits);
        mem.store(page + 24, h.retire_expire as u64);
        mem.store(page + 32, h.next as u64);
        mem.store(page + 40, h.prev as u64);
    }

    /// Start a fresh page for class `c`.
    #[verifier::spinoff_prover]
    #[verifier::rlimit(60)]
    fn start_page<M: Memory>(&mut self, mem: &mut M, c: usize) -> (r: Option<usize>)
        requires
            old(self).wf(old(mem)),
            c < NCLASS,
        ensures
            final(self).wf(final(mem)),
            page_started(
                old(self)@,
                final(self)@,
                old(self).pointer(),
                final(self).pointer(),
                old(mem),
                final(mem),
                c as int,
                r,
            ),
    {
        let ghost g = self.model@;
        let ghost b = self.bump@;
        let block: usize = (c + 1) * GRANULE;
        proof {
            lemma_page_layout();
        }
        let whole = Layout::from_size_align(PAGE, PAGE).unwrap();
        let page: usize = match self.bump.alloc_inline(mem, whole) {
            Some(page) => page,
            None => {
                proof {
                    lemma_cells_kept(g.cells, old(mem), mem);
                    lemma_region_kept(b, g.cells, old(mem), mem);
                    old(self).lemma_words_kept(g, old(mem), mem, -PAGE);
                    assert forall|d: int| 0 <= d < NCLASS implies #[trigger] self.stands(d) by {
                        assert(old(self).stands(d));
                    }
                }
                return None;
            },
        };
        let ghost p: int = page as int;
        let ghost mid = *mem;
        proof {
            lemma_carved(b, self.bump@, g.cells, old(mem), mem, whole, p);
            assert(mem.owns(slice_of(p)));
            assert((PAGE - HEADER) / block_of(c as int) <= PAGE - HEADER) by {
                vstd::arithmetic::div_mod::lemma_div_is_ordered_by_denominator(
                    PAGE - HEADER,
                    1,
                    block_of(c as int),
                );
            }
            vstd::arithmetic::div_mod::lemma_div_pos_is_pos(PAGE - HEADER, block_of(c as int));
        }
        let h = Hdr {
            free: 0,
            used: 0,
            capacity: 0,
            reserved: ((PAGE - HEADER) / block) as u16,
            block_start: HEADER as u16,
            block_size: block as u32,
            free_is_zero: true,
            bin: c as u8,
            kind: 0,
            flags: 0,
            retire_expire: 0,
            next: 0,
            prev: 0,
        };
        Self::write_header(mem, page, h);
        self.direct[c] = page;
        self.cur[c] = page + HEADER;
        self.end[c] = page + PAGE;
        self.model = Ghost(with_page(g, c as int, p));
        proof {
            let k = self.model@;
            let w = mem.words();
            assert(h == fresh(c as int));
            lemma_cells_owned(k.cells, &mid, mem);
            lemma_region_owned(self.bump@, k.cells, &mid, mem);
            assert(!g.hdrs.dom().contains(p)) by {
                if g.hdrs.dom().contains(p) {
                    old(self).lemma_header_owned(old(mem), p);
                }
            }
            assert forall|q: int| #[trigger] g.hdrs.dom().contains(q) implies limit(g, q) <= limit(
                k,
                q,
            ) by {
                old(self).lemma_header_owned(old(mem), q);
                let d: int = g.hdrs[q].bin as int;
                assert(current_ok(g, d));
            }
            assert forall|x: int| #[trigger] g.live.dom().contains(x) implies !(p <= x < p
                + PAGE) by {
                assert(live_ok(g, x));
                let q: int = if is_small(g.live[x]) {
                    page_base(x)
                } else {
                    x
                };
                if is_small(g.live[x]) {
                    lemma_small(g.live[x]);
                    old(self).lemma_header_owned(old(mem), q);
                }
                assert(g.cells.dom().contains(q));
            }
            old(self).lemma_words_kept(k, old(mem), mem, p);
            assert(live_in(k, p) =~= Set::empty()) by {
                assert forall|x: int| !live_in(k, p).contains(x) by {
                    if g.live.dom().contains(x) && page_base(x) == p {
                        assert(p <= x < p + PAGE);
                    }
                }
            }
            assert(page_ok(LEAN, k, w, p));
            assert(k.lists.dom() =~= k.hdrs.dom());
            vstd::arithmetic::div_mod::lemma_small_mod(0, block_of(c as int) as nat);
            assert forall|d: int| 0 <= d < NCLASS implies #[trigger] current_ok(k, d) by {
                assert(current_ok(g, d));
            }
            assert forall|d: int| 0 <= d < NCLASS implies #[trigger] self.stands(d) by {
                assert(old(self).stands(d));
            }
            assert forall|x: int| #[trigger] k.live.dom().contains(x) implies live_ok(k, x) by {
                assert(live_ok(g, x));
                if is_small(g.live[x]) {
                    assert(g.hdrs.dom().contains(page_base(x)));
                }
            }
            assert(bump_page(b, self.bump@, old(mem), &mid, Some(page)));
        }
        Some(page)
    }

    /// No block of class `c` is free: take the next one of the current page, or start a page.
    fn refill<M: Memory>(&mut self, mem: &mut M, c: usize, layout: Layout) -> (r: Option<usize>)
        requires
            old(self).wf(old(mem)),
            layout.wf(),
            layout.size() > 0,
            is_small(layout),
            c == small_class(layout),
            c < NCLASS,
        ensures
            final(self).wf(final(mem)),
            refilled(
                LEAN,
                old(self)@,
                final(self)@,
                old(self).pointer(),
                final(self).pointer(),
                old(mem),
                final(mem),
                c as int,
                layout,
                r,
            ),
    {
        let block: usize = (c + 1) * GRANULE;
        proof {
            assert(self.stands(c as int));
            assert(current_ok(self.model@, c as int));
        }
        if self.end[c] - self.cur[c] < block {
            match self.start_page(mem, c) {
                None => {
                    return None;
                },
                Some(page) => {
                    let ghost mid = *mem;
                    let ghost m = self.model@;
                    let ghost d = self.bump@;
                    let a: usize = self.take_next(mem, c, layout);
                    proof {
                        let p: int = a - HEADER;
                        assert(p == page);
                        assert(m == with_page(old(self)@, c as int, p));
                        lemma_begun(
                            LEAN,
                            old(self)@,
                            self@,
                            old(self).pointer(),
                            self.pointer(),
                            old(mem),
                            &mid,
                            mem,
                            c as int,
                            layout,
                            a,
                        );
                    }
                    return Some(a);
                },
            }
        }
        Some(self.take_next(mem, c, layout))
    }

    /// Carve a block for a request that belongs to no class.
    #[verifier::spinoff_prover]
    #[verifier::rlimit(40)]
    fn carve<M: Memory>(&mut self, mem: &mut M, layout: Layout) -> (r: Option<usize>)
        requires
            old(self).wf(old(mem)),
            layout.wf(),
            layout.size() > 0,
            !is_small(layout),
        ensures
            final(self).wf(final(mem)),
            carved(
                old(self)@,
                final(self)@,
                old(self).pointer(),
                final(self).pointer(),
                old(mem),
                final(mem),
                layout,
                r,
            ),
    {
        let ghost g = self.model@;
        let ghost b = self.bump@;
        let r: Option<usize> = self.bump.alloc_inline(mem, layout);
        proof {
            old(self).lemma_words_kept(g, old(mem), mem, -PAGE);
            lemma_cells_kept(g.cells, old(mem), mem);
            assert forall|d: int| 0 <= d < NCLASS implies #[trigger] self.stands(d) by {
                assert(old(self).stands(d));
            }
        }
        match r {
            None => {
                proof {
                    lemma_region_kept(b, g.cells, old(mem), mem);
                }
                None
            },
            Some(a) => {
                proof {
                    lemma_carved(b, self.bump@, g.cells, old(mem), mem, layout, a as int);
                }
                self.model = Ghost(
                    MimicModel {
                        cells: g.cells.insert(a as int, layout.size() as int),
                        live: g.live.insert(a as int, layout),
                        ..g
                    },
                );
                proof {
                    let k = self.model@;
                    let w = mem.words();
                    assert forall|q: int| #[trigger] k.hdrs.dom().contains(q) implies page_ok(
                        LEAN,
                        k,
                        w,
                        q,
                    ) by {
                        assert(page_ok(LEAN, g, w, q));
                        assert(g.cells.dom().contains(q));
                        let l = g.lists[q];
                        assert forall|i: int| 0 <= i < l.len() implies !k.live.dom().contains(
                            #[trigger] l[i],
                        ) by {
                            assert(is_slot(q, HEADER as int, g.hdrs[q].bin as int, l[i]));
                        }
                        assert(live_in(k, q) =~= live_in(g, q)) by {
                            assert forall|x: int|
                                live_in(k, q).contains(x) == live_in(g, q).contains(x) by {
                                if x == a && page_base(x) == q {
                                    assert(q <= x < q + PAGE);
                                }
                            }
                        }
                        assert(limit(k, q) == limit(g, q));
                    }
                    assert forall|d: int| 0 <= d < NCLASS implies #[trigger] current_ok(k, d) by {
                        assert(current_ok(g, d));
                    }
                    assert forall|d: int| 0 <= d < NCLASS implies #[trigger] self.stands(d) by {
                        assert(old(self).stands(d));
                    }
                    assert forall|x: int| #[trigger] k.live.dom().contains(x) implies live_ok(
                        k,
                        x,
                    ) by {
                        if x != a {
                            assert(live_ok(g, x));
                        } else if g.hdrs.dom().contains(x) {
                            assert(page_ok(LEAN, g, w, x));
                        }
                    }
                }
                Some(a)
            },
        }
    }

    /// Allocate a block for `layout`.
    pub fn allocate<M: Memory>(&mut self, mem: &mut M, layout: Layout) -> (r: Option<usize>)
        requires
            old(self).wf(old(mem)),
            layout.wf(),
            layout.size() > 0,
        ensures
            final(self).wf(final(mem)),
            mimic_allocated(
                LEAN,
                old(self)@,
                final(self)@,
                old(self).pointer(),
                final(self).pointer(),
                old(mem),
                final(mem),
                layout,
                r,
            ),
    {
        if small(&layout) {
            let c: usize = class_of(layout.size());
            let ghost g = self.model@;
            proof {
                lemma_small(layout);
                assert(self.stands(c as int));
                assert(current_ok(g, c as int));
            }
            let page: usize = self.direct[c];
            if page != 0 {
                proof {
                    self.lemma_header_owned(mem, page as int);
                    let l = g.lists[page as int];
                    if l.len() > 0 {
                        assert(is_slot(page as int, HEADER as int, c as int, l[0]));
                    }
                }
                if mem.load(page) != 0 {
                    return Some(self.pop(mem, page, layout));
                }
            }
            return self.refill(mem, c, layout);
        }
        self.carve(mem, layout)
    }

    /// The page became empty or is flagged: the heap would retire it or move it between queues.
    /// The floor only counts that.
    fn transition(&mut self)
        ensures
            *final(self) == (Mimic::<LEAN, WIDE_USED, NO_ZERO, NO_TEST> {
                transitions: final(self).transitions,
                ..*old(self)
            }),
            final(self).transitions == old(self).transitions.wrapping_add(1),
    {
        self.transitions = self.transitions.wrapping_add(1);
    }

    /// Transitions counted so far, modulo the range of the count.
    pub fn transitions<M: Memory>(&self, mem: &M) -> (r: u32)
        requires
            self.wf(mem),
        ensures
            r == self@.transitions,
    {
        self.transitions
    }

    /// Put `block` in front of the list of the page at `page`, whose header is `h`, and count it as
    /// unused. Says whether the page became empty or is flagged, which a lean page never tells.
    #[verifier::spinoff_prover]
    #[verifier::rlimit(40)]
    fn push<M: Memory>(mem: &mut M, page: usize, block: usize, Ghost(h): Ghost<Hdr>) -> (r: bool)
        requires
            in_order(old(mem)),
            page % PAGE == 0,
            page + PAGE <= usize::MAX,
            block % 8 == 0,
            page + HEADER <= block < page + PAGE,
            old(mem).owns(slice_of(page as int)),
            holds(old(mem).words(), page as int, h),
            hdr_ok(h, h.bin as int),
            LEAN || h.used > 0,
        ensures
            in_order(final(mem)),
            header_touched(old(mem), final(mem), page as int, block as int),
            holds(
                final(mem).words(),
                page as int,
                freed_header(LEAN, NO_ZERO, h, block as int),
            ),
            final(mem).words()[block as int] == h.free,
            r == (!LEAN && (h.used == 1 || h.flags != 0)),
    {
        proof {
            lemma_header_words(page as int);
            lemma_counts(h);
            lemma_traits(h);
            assert(slice_of(block as int) == slice_of(page as int));
        }
        let head: u64 = mem.load(page);
        if LEAN {
            mem.store(block, head);
            mem.store(page, block as u64);
            return false;
        }
        let n: u32 = Self::used(mem, page) - 1;
        assert(n == h.used - 1);
        mem.store(block, head);
        mem.store(page, block as u64);
        Self::set_used(mem, page, n);
        let traits: u64 = mem.load(page + 16);
        assert(traits == traits_word(h));
        if !NO_ZERO && traits / 0x1_0000_0000 % 0x100 == 1 {
            mem.store(page + 16, traits - 0x1_0000_0000);
        }
        n == 0 || traits / 0x100_0000_0000_0000 != 0
    }

    /// Free a block to its page, or leak it if it belongs to no class.
    #[verifier::spinoff_prover]
    #[verifier::rlimit(80)]
    pub fn dealloc<M: Memory>(&mut self, mem: &mut M, block: usize, layout: Layout)
        requires
            old(self).wf(old(mem)),
            old(self)@.live.dom().contains(block as int),
            old(self)@.live[block as int] == layout,
        ensures
            final(self).wf(final(mem)),
            final(self).pointer() == old(self).pointer(),
            mimic_freed(
                LEAN,
                NO_ZERO,
                NO_TEST,
                old(self)@,
                final(self)@,
                old(mem),
                final(mem),
                block as int,
            ),
    {
        let ghost g = self.model@;
        let ghost a: int = block as int;
        proof {
            assert(live_ok(g, a));
        }
        if !small(&layout) {
            self.forget(mem, block);
            return ;
        }
        let ghost w = mem.words();
        let page: usize = block - block % PAGE;
        let ghost p: int = page as int;
        let ghost h = g.hdrs[p];
        let ghost l = g.lists[p];
        proof {
            assert(p == page_base(a));
            self.lemma_header_owned(mem, p);
            self.lemma_block_owned(mem, p, a);
            lemma_header_words(p);
            lemma_few_live(g, p);
            assert(live_in(g, p).contains(a));
            assert(live_in(g, p).len() >= 1) by {
                assert(live_in(g, p).remove(a).len() == live_in(g, p).len() - 1);
            }
            assert(!l.contains(a));
        }
        let ghost h1 = freed_header(LEAN, NO_ZERO, h, a);
        let empties: bool = Self::push(mem, page, block, Ghost(h));
        let counted: bool = !NO_TEST && empties;
        if counted {
            self.transition();
        }
        let ghost t = seq![a] + l;
        self.model = Ghost(
            MimicModel {
                hdrs: g.hdrs.insert(p, h1),
                lists: g.lists.insert(p, t),
                live: g.live.remove(a),
                transitions: self.transitions,
                ..g
            },
        );
        proof {
            let k = self.model@;
            let v = mem.words();
            lemma_cells_owned(g.cells, old(mem), mem);
            lemma_region_owned(self.bump@, g.cells, old(mem), mem);
            assert(step_at(g, k, p, a)) by {
                assert(k.hdrs.dom() =~= g.hdrs.dom());
                assert(k.lists.dom() =~= g.lists.dom());
            }
            old(self).lemma_step(k, old(mem), mem, p, a);
            lemma_page_pushed(w, v, p, h, h1, l, limit(g, p), a);
            assert(live_in(k, p) =~= live_in(g, p).remove(a));
            assert(limit(k, p) == limit(g, p));
            assert forall|i: int| 0 <= i < t.len() implies !k.live.dom().contains(
                #[trigger] t[i],
            ) by {
                if i > 0 {
                    assert(t[i] == l[i - 1]);
                }
            }
            assert(page_ok(LEAN, k, v, p));
            assert forall|d: int| 0 <= d < NCLASS implies #[trigger] current_ok(k, d) by {
                assert(current_ok(g, d));
            }
            assert forall|d: int| 0 <= d < NCLASS implies #[trigger] self.stands(d) by {
                assert(old(self).stands(d));
            }
        }
    }

    /// A block that belongs to no class is no longer live.
    fn forget<M: Memory>(&mut self, mem: &M, block: usize)
        requires
            old(self).wf(mem),
            old(self)@.live.dom().contains(block as int),
            !is_small(old(self)@.live[block as int]),
        ensures
            final(self).wf(mem),
            final(self).pointer() == old(self).pointer(),
            final(self)@ == (MimicModel {
                live: old(self)@.live.remove(block as int),
                ..old(self)@
            }),
    {
        let ghost g = self.model@;
        let ghost a: int = block as int;
        self.model = Ghost(MimicModel { live: g.live.remove(a), ..g });
        proof {
            let k = self.model@;
            let w = mem.words();
            assert forall|q: int| #[trigger] k.hdrs.dom().contains(q) implies page_ok(
                LEAN,
                k,
                w,
                q,
            ) by {
                assert(page_ok(LEAN, g, w, q));
                assert(limit(k, q) == limit(g, q));
                assert(live_in(k, q) =~= live_in(g, q));
            }
            assert forall|d: int| 0 <= d < NCLASS implies #[trigger] current_ok(k, d) by {
                assert(current_ok(g, d));
            }
            assert forall|d: int| 0 <= d < NCLASS implies #[trigger] self.stands(d) by {
                assert(old(self).stands(d));
            }
            assert forall|x: int| #[trigger] k.live.dom().contains(x) implies live_ok(k, x) by {
                assert(live_ok(g, x));
            }
        }
    }

    /// Forget the current pages and rewind. Everything allocated since the last reset must be dead.
    #[verifier::spinoff_prover]
    #[verifier::rlimit(40)]
    pub fn reset<M: Memory>(&mut self, mem: &M)
        requires
            old(self).wf(mem),
            forall|a: int| #[trigger]
                old(self)@.live.dom().contains(a) ==> !(rewind_to(old(self).pointer()) <= a < old(
                    self,
                ).pointer().cur),
        ensures
            final(self).wf(mem),
            mimic_rewound(old(self)@, final(self)@, old(self).pointer(), final(self).pointer()),
            ({
                let b = old(self).pointer();
                let m = rewind_to(b);
                &&& final(self).pointer() == (BumpModel { cur: m, mark: Some(m), ..b })
                &&& final(self)@ == (MimicModel {
                    cells: kept_cells(old(self)@.cells, m, b.cur),
                    hdrs: outside(old(self)@.hdrs, m, b.cur),
                    lists: outside(old(self)@.lists, m, b.cur),
                    cur: Seq::new(NCLASS as nat, |c: int| 0),
                    end: Seq::new(NCLASS as nat, |c: int| 0),
                    ..old(self)@
                })
            }),
    {
        let ghost g = self.model@;
        let ghost b = self.bump@;
        let ghost m: int = rewind_to(b);
        proof {
            lemma_reset(b, g.cells, mem);
        }
        self.direct = [0; 64];
        self.cur = [0; 64];
        self.end = [0; 64];
        self.bump.reset();
        self.model = Ghost(
            MimicModel {
                cells: kept_cells(g.cells, m, b.cur),
                hdrs: outside(g.hdrs, m, b.cur),
                lists: outside(g.lists, m, b.cur),
                cur: Seq::new(NCLASS as nat, |c: int| 0),
                end: Seq::new(NCLASS as nat, |c: int| 0),
                ..g
            },
        );
        proof {
            let k = self.model@;
            let w = mem.words();
            assert(k.lists.dom() =~= k.hdrs.dom());
            assert forall|q: int| #[trigger] k.hdrs.dom().contains(q) implies page_ok(
                LEAN,
                k,
                w,
                q,
            ) by {
                assert(g.hdrs.dom().contains(q));
                old(self).lemma_header_owned(mem, q);
                assert(current_ok(g, g.hdrs[q].bin as int));
                assert(limit(g, q) <= limit(k, q));
                assert(live_in(k, q) =~= live_in(g, q));
            }
            assert forall|x: int| #[trigger] k.live.dom().contains(x) implies live_ok(k, x) by {
                assert(live_ok(g, x));
                assert(old(self)@.live.dom().contains(x));
                if is_small(g.live[x]) {
                    let q: int = page_base(x);
                    old(self).lemma_header_owned(mem, q);
                    assert(g.cells.dom().contains(q));
                    lemma_small(g.live[x]);
                    assert(q <= x < q + PAGE);
                    assert(current_ok(g, g.hdrs[q].bin as int));
                }
            }
        }
    }

    /// Blocks in pages are where their headers say.
    proof fn lemma_live_page<M: Memory>(&self, mem: &M, a: int)
        requires
            self.wf(mem),
            self.model@.live.dom().contains(a),
            is_small(self.model@.live[a]),
        ensures
            page_ok(LEAN, self.model@, mem.words(), page_base(a)),
            self.model@.hdrs.dom().contains(page_base(a)),
            self.model@.hdrs[page_base(a)].bin == small_class(self.model@.live[a]),
            live_in(self.model@, page_base(a)).contains(a),
    {
        assert(live_ok(self.model@, a));
    }

    /// Live blocks are aligned, lie in memory that is the allocator's, and do not overlap.
    pub proof fn law_live_blocks_are_apart<M: Memory>(&self, mem: &M, a: int, b: int)
        requires
            self.wf(mem),
            self@.live.dom().contains(a),
            self@.live.dom().contains(b),
            a < b,
        ensures
            a % self@.live[a].align() as int == 0,
            a + self@.live[a].size() <= b,
            owned_bytes(mem, a, a + self@.live[a].size()),
    {
        let g = self@;
        assert(live_ok(g, a));
        assert(live_ok(g, b));
        let p: int = if is_small(g.live[a]) {
            page_base(a)
        } else {
            a
        };
        let q: int = if is_small(g.live[b]) {
            page_base(b)
        } else {
            b
        };
        if is_small(g.live[a]) {
            lemma_small(g.live[a]);
            self.lemma_live_page(mem, a);
            self.lemma_block_owned(mem, p, a);
            lemma_slot_serves(g.live[a], a);
        }
        if is_small(g.live[b]) {
            lemma_small(g.live[b]);
            self.lemma_live_page(mem, b);
        }
        assert(g.cells.dom().contains(p) && g.cells.dom().contains(q));
        assert(owned_bytes(mem, p, p + g.cells[p]));
        if p == q {
            lemma_slots_apart(p, HEADER as int, g.hdrs[p].bin as int, a, b);
        }
    }

    /// Unless the floor is lean, the header of a page counts its live blocks, so the count falls to
    /// zero, and a transition is counted, exactly when the last live block of the page is freed.
    pub proof fn law_headers_count_the_live_blocks<M: Memory>(&self, mem: &M, a: int)
        requires
            self.wf(mem),
            self@.live.dom().contains(a),
            is_small(self@.live[a]),
            !LEAN,
        ensures
            self@.hdrs[page_base(a)].used == live_in(self@, page_base(a)).len(),
            freed_header(LEAN, NO_ZERO, self@.hdrs[page_base(a)], a).used == 0 <==> live_in(
                self@,
                page_base(a),
            ) == set![a],
            self@.hdrs[page_base(a)].flags == 0,
    {
        let g = self@;
        let p: int = page_base(a);
        let s = live_in(g, p);
        self.lemma_live_page(mem, a);
        self.lemma_header_owned(mem, p);
        lemma_few_live(g, p);
        assert(s.remove(a).len() == s.len() - 1);
        if s.len() == 1 {
            assert(s.remove(a) =~= Set::empty());
            assert(s =~= set![a]);
        } else if s == set![a] {
            assert(s.remove(a) =~= Set::empty());
        }
    }
}

/// The block freed last to the current page of its class is the block that the next request of the
/// class gets, and that brings back the blocks, the list and the count there were.
pub proof fn law_freed_blocks_come_back_first<M: Memory>(
    lean: bool,
    no_zero: bool,
    no_test: bool,
    o: MimicModel,
    k: MimicModel,
    m: MimicModel,
    b: BumpModel,
    d: BumpModel,
    old: &M,
    mid: &M,
    new: &M,
    a: usize,
    layout: Layout,
    r: Option<usize>,
)
    requires
        layout.size() >= 1,
        is_small(layout),
        o.live.dom().contains(a as int),
        o.live[a as int] == layout,
        o.hdrs.dom().contains(page_base(a as int)),
        o.lists.dom().contains(page_base(a as int)),
        o.end[small_class(layout)] == page_base(a as int) + PAGE,
        o.hdrs[page_base(a as int)].free == link(
            seq![a as int] + o.lists[page_base(a as int)],
            0,
        ),
        lean || o.hdrs[page_base(a as int)].used > 0,
        mimic_freed(lean, no_zero, no_test, o, k, old, mid, a as int),
        mimic_allocated(lean, k, m, b, d, mid, new, layout, r),
    ensures
        r == Some(a),
        m.live == o.live,
        m.lists == o.lists,
        m.cells == o.cells,
        m.hdrs[page_base(a as int)] == (Hdr {
            free_is_zero: m.hdrs[page_base(a as int)].free_is_zero,
            ..o.hdrs[page_base(a as int)]
        }),
        d == b,
{
    let p: int = page_base(a as int);
    let t = seq![a as int] + o.lists[p];
    assert(k.lists[p] == t);
    assert(t[0] == a);
    assert(t.drop_first() =~= o.lists[p]);
    assert(m.lists =~= o.lists);
    assert(m.live =~= o.live);
}

} // verus!
