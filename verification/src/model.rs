//! What a heap stands for, and the invariants that tie it to memory.
//!
//! A [`HeapModel`] holds the pages of the heap, the order of every queue, which page or run each
//! slice in use belongs to, and the live blocks with the layout each is held under. The
//! invariants below relate it to the words of memory, to the queue heads and the direct table,
//! and to the slice map; the heap's operations are proved to keep all of them.
use vstd::prelude::*;

use crate::arith::{div_ceil, lemma_pow2_positive, max, round_up};
use crate::backend::{slice_of, Memory, MAX_SLICE_INDEX};
use crate::bins::{
    bin_bytes, bin_kind, bin_of, class_of, first_block, kind_page_size,
    law_classify_aligns_by_construction, lemma_bin_of, Class, PageKind, DIRECT_ENTRIES,
    MAX_BINNED_BIN, MAX_BINNED_OBJ_SIZE, SLICE_SIZE,
};
use crate::layout::Layout;
use crate::page::{
    block_addr, flagged_full, free_list, header, header_ok, is_block, is_live, lemma_block_in_page,
    lemma_blocks_apart_addr, lemma_free_list, lemma_header_words, lemma_page_frame,
    lemma_page_relabel, lemma_page_shape, only_header_changed, page_addr_ok, page_bytes, page_inv,
    page_wf, same_but_heap_fields, Page, HEADER_BYTES,
};
use crate::slices::SliceModel;

verus! {

/// Queue index for pages that are full.
pub const FULL_QUEUE: usize = 61;

/// Queues: one per bin, the full queue, and padding to a power of two.
pub const QUEUE_COUNT: usize = 64;

/// A doubly linked list of pages, by address (0 = none), plus its length.
#[derive(Clone, Copy, Debug, PartialEq, Eq, Structural)]
pub struct PageQueue {
    pub first: usize,
    pub last: usize,
    pub count: usize,
}

/// What a heap stands for.
#[verifier::ext_equal]
pub struct HeapModel {
    /// Addresses of the heap's pages.
    pub pages: Set<int>,
    /// The members of every queue, first to last.
    pub qs: Seq<Seq<int>>,
    /// For every slice in use, the address of the page or run it belongs to.
    pub holder: Map<int, int>,
    /// The live blocks, with the layout each is held under.
    pub blocks: Map<int, Layout>,
}

/// How a layout is served.
pub open spec fn serving(l: Layout) -> Class {
    class_of(l.size() as int, l.align() as int, MAX_BINNED_OBJ_SIZE as int)
}

/// Slices of the header-less run that serves `size` bytes.
pub open spec fn run_slices(size: int) -> int {
    max(div_ceil(size, SLICE_SIZE as int), 1)
}

/// Alignment, in slices, of the run that serves a request aligned to `align` bytes.
pub open spec fn run_align(align: int) -> int {
    max(div_ceil(align, SLICE_SIZE as int), 1)
}

/// The page that a block of a page of `kind` at `a` belongs to.
pub open spec fn page_of(kind: PageKind, a: int) -> int {
    a - a % kind_page_size(kind)
}

/// The queue a page belongs to: the full queue if it is flagged, its bin's queue otherwise.
pub open spec fn home(h: Page) -> int {
    if flagged_full(h) {
        FULL_QUEUE as int
    } else {
        h.bin as int
    }
}

/// The member after the `i`th.
pub open spec fn next_in(l: Seq<int>, i: int) -> int {
    if i + 1 < l.len() {
        l[i + 1]
    } else {
        0
    }
}

/// The member before the `i`th.
pub open spec fn prev_in(l: Seq<int>, i: int) -> int {
    if 0 < i {
        l[i - 1]
    } else {
        0
    }
}

/// The links in the headers of the members are those of the list.
pub open spec fn linked(w: Map<int, u64>, l: Seq<int>) -> bool {
    &&& l.no_duplicates()
    &&& forall|i: int|
        0 <= i < l.len() ==> (#[trigger] header(w, l[i])).next == next_in(l, i) && header(
            w,
            l[i],
        ).prev == prev_in(l, i)
}

/// A queue head and the list it heads.
pub open spec fn queue_ok(w: Map<int, u64>, q: PageQueue, l: Seq<int>) -> bool {
    &&& q.count == l.len()
    &&& q.first == if l.len() > 0 {
        l[0]
    } else {
        0
    }
    &&& q.last == if l.len() > 0 {
        l.last()
    } else {
        0
    }
    &&& linked(w, l)
}

/// Slice `s` belongs to the page or run at `p`.
pub open spec fn held(g: HeapModel, s: int, p: int) -> bool {
    g.holder.dom().contains(s) && g.holder[s] == p
}

/// Page `p`: the page invariants hold, it serves a bin that is served from pages, it carries no
/// flag but the full-queue one, and its slices are its own.
pub open spec fn page_ok(w: Map<int, u64>, g: HeapModel, p: int) -> bool {
    let h = header(w, p);
    &&& page_wf(w, p)
    &&& h.bin <= MAX_BINNED_BIN
    &&& h.flags <= 1
    &&& forall|s: int|
        slice_of(p) <= s < slice_of(p + page_bytes(h)) ==> #[trigger] held(g, s, p)
}

#[verifier::opaque]
pub open spec fn pages_ok(w: Map<int, u64>, g: HeapModel) -> bool {
    forall|p: int| #[trigger] g.pages.contains(p) ==> page_ok(w, g, p)
}

/// Every page but `out` is in the queue it belongs to, and queues hold nothing else.
#[verifier::opaque]
pub open spec fn queues_ok(
    w: Map<int, u64>,
    queues: Seq<PageQueue>,
    g: HeapModel,
    out: int,
) -> bool {
    &&& g.qs.len() == QUEUE_COUNT
    &&& queues.len() == QUEUE_COUNT
    &&& forall|qi: int| 0 <= qi < QUEUE_COUNT ==> queue_ok(w, queues[qi], #[trigger] g.qs[qi])
    &&& forall|qi: int, i: int|
        0 <= qi < QUEUE_COUNT && 0 <= i < g.qs[qi].len() ==> member_ok(
            w,
            g,
            qi,
            out,
            #[trigger] g.qs[qi][i],
        )
    &&& forall|p: int|
        #[trigger] g.pages.contains(p) && p != out ==> g.qs[home(header(w, p))].contains(p)
}

/// Member `p` of queue `qi` is a page that belongs there.
pub open spec fn member_ok(w: Map<int, u64>, g: HeapModel, qi: int, out: int, p: int) -> bool {
    &&& g.pages.contains(p)
    &&& p > 0
    &&& p != out
    &&& home(header(w, p)) == qi
}

/// Every page in the full queue but `room` has all its blocks handed out.
#[verifier::opaque]
pub open spec fn full_ok(w: Map<int, u64>, g: HeapModel, room: int) -> bool {
    forall|i: int|
        0 <= i < g.qs[FULL_QUEUE as int].len() && g.qs[FULL_QUEUE as int][i] != room ==> (
        #[trigger] header(w, g.qs[FULL_QUEUE as int][i])).used == header(
            w,
            g.qs[FULL_QUEUE as int][i],
        ).reserved
}

/// Every entry of the direct table is the first page of the queue of its sizes, or none.
pub open spec fn direct_ok(direct: Seq<usize>, queues: Seq<PageQueue>) -> bool {
    &&& direct.len() == DIRECT_ENTRIES
    &&& forall|i: int|
        0 <= i < DIRECT_ENTRIES ==> #[trigger] direct[i] == queues[bin_of(8 * i)].first
}

/// `a` is the address of a live header-less run.
pub open spec fn is_run(g: HeapModel, a: int) -> bool {
    g.blocks.dom().contains(a) && serving(g.blocks[a]) is Huge
}

/// The live block at `a` is where its layout says: in a page of the kind that serves it, in a
/// block large enough; or at the start of a run of its own.
pub open spec fn block_ok(w: Map<int, u64>, g: HeapModel, a: int) -> bool {
    let l = g.blocks[a];
    &&& l.wf()
    &&& l.size() > 0
    &&& a > 0
    &&& a % l.align() as int == 0
    &&& match serving(l) {
        Class::Bin(b) => {
            let p = page_of(bin_kind(b as int), a);
            &&& g.pages.contains(p)
            &&& bin_kind(header(w, p).bin as int) == bin_kind(b as int)
            &&& is_live(w, p, a)
            &&& header(w, p).block_size >= round_up(l.size() as int, l.align() as int)
        },
        Class::Huge => {
            &&& a % SLICE_SIZE as int == 0
            &&& !g.pages.contains(a)
            &&& forall|s: int|
                slice_of(a) <= s < slice_of(a) + run_slices(l.size() as int)
                    ==> #[trigger] held(g, s, a)
        },
    }
}

#[verifier::opaque]
pub open spec fn blocks_ok(w: Map<int, u64>, g: HeapModel) -> bool {
    forall|a: int| #[trigger] g.blocks.dom().contains(a) ==> block_ok(w, g, a)
}

/// A block that a page has handed out is a live block of the heap.
#[verifier::opaque]
pub open spec fn no_lost_block(w: Map<int, u64>, g: HeapModel) -> bool {
    forall|p: int, a: int|
        g.pages.contains(p) && #[trigger] is_live(w, p, a) ==> g.blocks.dom().contains(a)
}

/// Slice `s` belongs to page or run `g.holder[s]`, is the allocator's, and is not free.
pub open spec fn holder_ok<M: Memory>(
    w: Map<int, u64>,
    g: HeapModel,
    sm: SliceModel,
    mem: &M,
    s: int,
) -> bool {
    let p = g.holder[s];
    &&& mem.owns(s)
    &&& sm.base <= s < sm.limit
    &&& s != MAX_SLICE_INDEX
    &&& !sm.free.contains(s)
    &&& if g.pages.contains(p) {
        slice_of(p) <= s < slice_of(p + page_bytes(header(w, p)))
    } else {
        is_run(g, p) && slice_of(p) <= s < slice_of(p) + run_slices(g.blocks[p].size() as int)
    }
}

#[verifier::opaque]
pub open spec fn holders_ok<M: Memory>(
    w: Map<int, u64>,
    g: HeapModel,
    sm: SliceModel,
    mem: &M,
) -> bool {
    forall|s: int| #[trigger] g.holder.dom().contains(s) ==> holder_ok(w, g, sm, mem, s)
}

/// Every slice the heap owns is free or in use, but for `[start, start + count)`.
#[verifier::opaque]
pub open spec fn no_lost_slice<M: Memory>(
    g: HeapModel,
    sm: SliceModel,
    mem: &M,
    start: int,
    count: int,
) -> bool {
    forall|s: int|
        #[trigger] mem.owns(s) && sm.base <= s < sm.usable_limit() ==> sm.free.contains(s)
            || g.holder.dom().contains(s) || start <= s < start + count
}

/// `[start, start + count)` is memory of the heap that is neither free nor in use yet.
pub open spec fn run_pending<M: Memory>(
    g: HeapModel,
    sm: SliceModel,
    mem: &M,
    start: int,
    count: int,
) -> bool {
    &&& count > 0 ==> sm.base <= start && start + count <= sm.limit
    &&& forall|s: int|
        start <= s < start + count ==> #[trigger] mem.owns(s) && !sm.free.contains(s)
            && !g.holder.dom().contains(s) && s != MAX_SLICE_INDEX
}

/// One past the last word of the block at `a`.
pub open spec fn block_end(g: HeapModel, a: int) -> int {
    a + round_up(g.blocks[a].size() as int, 8)
}

/// Every live block of `g` but `except` reads the same in both memories.
pub open spec fn contents_kept(
    w: Map<int, u64>,
    v: Map<int, u64>,
    g: HeapModel,
    except: int,
) -> bool {
    forall|a: int, x: int|
        #![trigger g.blocks.dom().contains(a), v[x]]
        g.blocks.dom().contains(a) && a != except && a <= x < block_end(g, a) && x % 8 == 0 ==> v[x]
            == w[x]
}

/// The two memories agree everywhere but inside `[p, p + bytes)`.
pub open spec fn only_range_changed(w: Map<int, u64>, v: Map<int, u64>, p: int, bytes: int) -> bool {
    forall|x: int| !(p <= x < p + bytes) ==> #[trigger] v[x] == w[x]
}

/// A flag byte with no flag but the full-queue one.
pub proof fn lemma_flag_bit()
    ensures
        0u8 & 1u8 == 0,
        1u8 & 1u8 == 1,
{
    assert(0u8 & 1u8 == 0 && 1u8 & 1u8 == 1) by (bit_vector);
}

/// How requests for bins are served.
pub proof fn lemma_serving_bin(l: Layout)
    requires
        l.wf(),
        l.size() > 0,
        serving(l) is Bin,
    ensures
        ({
            let b = serving(l)->0 as int;
            &&& 1 <= b <= MAX_BINNED_BIN
            &&& b == bin_of(round_up(l.size() as int, l.align() as int))
            &&& bin_bytes(b) >= round_up(l.size() as int, l.align() as int)
            &&& round_up(l.size() as int, l.align() as int) >= l.size()
            &&& bin_bytes(b) % l.align() as int == 0
            &&& first_block(bin_bytes(b)) % l.align() as int == 0
            &&& l.align() <= 4096
            &&& bin_kind(b) is Small || bin_kind(b) is Medium
        }),
{
    let size: int = l.size() as int;
    let align: int = l.align() as int;
    law_classify_aligns_by_construction(size, align, MAX_BINNED_OBJ_SIZE as int);
    lemma_pow2_positive(align);
    crate::arith::lemma_round_up(size, align);
    let s: int = round_up(size, align);
    lemma_bin_of(s);
    crate::bins::lemma_bin_table();
    let b: int = bin_of(s);
    if b > 45 {
        assert(bin_bytes(45) < s);
    }
    if b < 45 {
        crate::bins::lemma_bin_bytes_increasing(b, 45);
    }
}

/// The bins of the page queues and of the direct table.
pub proof fn lemma_home_range(w: Map<int, u64>, g: HeapModel, p: int)
    requires
        pages_ok(w, g),
        g.pages.contains(p),
    ensures
        1 <= home(header(w, p)) < QUEUE_COUNT,
        1 <= header(w, p).bin <= MAX_BINNED_BIN,
        header_ok(header(w, p)),
        page_addr_ok(p, header(w, p)),
        p % SLICE_SIZE as int == 0,
        p > 0,
        page_inv(w, p, free_list(w, p)),
{
    reveal(pages_ok);
    assert(page_ok(w, g, p));
    lemma_page_shape(p, header(w, p));
}

/// Different pages lie in different slices.
pub proof fn lemma_pages_apart(w: Map<int, u64>, g: HeapModel, p: int, q: int)
    requires
        pages_ok(w, g),
        g.pages.contains(p),
        g.pages.contains(q),
        p != q,
    ensures
        p + page_bytes(header(w, p)) <= q || q + page_bytes(header(w, q)) <= p,
{
    reveal(pages_ok);
    lemma_home_range(w, g, p);
    lemma_home_range(w, g, q);
    lemma_page_shape(p, header(w, p));
    lemma_page_shape(q, header(w, q));
    if p < q {
        if p + page_bytes(header(w, p)) > q {
            assert(slice_of(p) <= slice_of(q) < slice_of(p + page_bytes(header(w, p))));
            assert(held(g, slice_of(q), p));
            assert(held(g, slice_of(q), q));
        }
    } else {
        if q + page_bytes(header(w, q)) > p {
            assert(slice_of(q) <= slice_of(p) < slice_of(q + page_bytes(header(w, q))));
            assert(held(g, slice_of(p), q));
            assert(held(g, slice_of(p), p));
        }
    }
}

/// A change inside page `p` leaves page `q` as it was.
pub proof fn lemma_other_page(w: Map<int, u64>, v: Map<int, u64>, g: HeapModel, p: int, q: int)
    requires
        pages_ok(w, g),
        g.pages.contains(p),
        g.pages.contains(q),
        p != q,
        only_range_changed(w, v, p, page_bytes(header(w, p))),
    ensures
        header(v, q) == header(w, q),
        page_wf(v, q),
        free_list(v, q) == free_list(w, q),
        page_ok(v, g, q),
{
    reveal(pages_ok);
    lemma_pages_apart(w, g, p, q);
    assert(page_ok(w, g, q));
    let l = free_list(w, q);
    assert(page_inv(w, q, l));
    lemma_page_frame(w, v, q, l);
    lemma_free_list(v, q, l);
}

/// The words of a live block: they lie in its page behind the header, or in its run.
pub proof fn lemma_block_words(w: Map<int, u64>, g: HeapModel, a: int, x: int)
    requires
        pages_ok(w, g),
        blocks_ok(w, g),
        g.blocks.dom().contains(a),
        a <= x < block_end(g, a),
    ensures
        a % 8 == 0 || serving(g.blocks[a]) is Huge,
        a % 8 == 0,
        serving(g.blocks[a]) matches Class::Bin(b) ==> {
            let p = page_of(bin_kind(b as int), a);
            let h = header(w, p);
            &&& p + HEADER_BYTES <= a
            &&& x < a + h.block_size
            &&& block_end(g, a) <= a + h.block_size
            &&& a + h.block_size <= p + page_bytes(h)
            &&& slice_of(p) <= slice_of(x) < slice_of(p + page_bytes(h))
            &&& held(g, slice_of(x), p)
        },
        serving(g.blocks[a]) is Huge ==> {
            &&& slice_of(a) <= slice_of(x) < slice_of(a) + run_slices(g.blocks[a].size() as int)
            &&& block_end(g, a) <= a + run_slices(g.blocks[a].size() as int) * SLICE_SIZE
            &&& held(g, slice_of(x), a)
        },
{
    reveal(pages_ok);
    reveal(blocks_ok);
    assert(block_ok(w, g, a));
    let l = g.blocks[a];
    let size: int = l.size() as int;
    crate::arith::lemma_round_up(size, 8);
    match serving(l) {
        Class::Bin(b) => {
            let p: int = page_of(bin_kind(b as int), a);
            let h = header(w, p);
            assert(page_ok(w, g, p));
            lemma_page_shape(p, h);
            let i: int = choose|i: int|
                0 <= i < h.capacity && a == #[trigger] block_addr(p, h, i);
            lemma_block_in_page(p, h, i);
            lemma_pow2_positive(l.align() as int);
            crate::arith::lemma_round_up(size, l.align() as int);
            // The block size is a multiple of the word that holds the request, so it holds the
            // request rounded up to words.
            assert(h.block_size as int % 8 == 0);
            assert(round_up(size, 8) <= h.block_size);
            assert(slice_of(p) <= slice_of(x) < slice_of(p + page_bytes(h)));
            assert(held(g, slice_of(x), p));
        },
        Class::Huge => {
            let n: int = run_slices(size);
            assert(size <= n * SLICE_SIZE);
            assert((n * SLICE_SIZE) % 8 == 0);
            assert(round_up(size, 8) <= n * SLICE_SIZE);
            assert(slice_of(a) <= slice_of(x) < slice_of(a) + n);
            assert(held(g, slice_of(x), a));
        },
    }
}

/// The words of a live block are not those of a header.
pub proof fn lemma_block_not_header(w: Map<int, u64>, g: HeapModel, a: int, x: int, p: int)
    requires
        pages_ok(w, g),
        blocks_ok(w, g),
        g.blocks.dom().contains(a),
        a <= x < block_end(g, a),
        g.pages.contains(p),
    ensures
        !(p <= x < p + HEADER_BYTES),
{
    reveal(pages_ok);
    reveal(blocks_ok);
    lemma_block_words(w, g, a, x);
    assert(block_ok(w, g, a));
    assert(page_ok(w, g, p));
    lemma_page_shape(p, header(w, p));
    if p <= x < p + HEADER_BYTES {
        assert(slice_of(x) == slice_of(p));
        assert(held(g, slice_of(p), p));
    }
}

/// Different live blocks do not overlap.
pub proof fn lemma_blocks_disjoint(w: Map<int, u64>, g: HeapModel, a: int, b: int, x: int)
    requires
        pages_ok(w, g),
        blocks_ok(w, g),
        g.blocks.dom().contains(a),
        g.blocks.dom().contains(b),
        a != b,
        a <= x < block_end(g, a),
    ensures
        !(b <= x < block_end(g, b)),
{
    reveal(pages_ok);
    reveal(blocks_ok);
    lemma_block_words(w, g, a, x);
    assert(block_ok(w, g, a));
    assert(block_ok(w, g, b));
    if b <= x < block_end(g, b) {
        lemma_block_words(w, g, b, x);
        match (serving(g.blocks[a]), serving(g.blocks[b])) {
            (Class::Bin(c), Class::Bin(d)) => {
                let p: int = page_of(bin_kind(c as int), a);
                let h = header(w, p);
                lemma_page_shape(p, h);
                lemma_blocks_apart_addr(p, h, h.capacity as int, a, b);
            },
            _ => {},
        }
    }
}

/// `x` is a word of some page's header.
pub open spec fn in_header(g: HeapModel, x: int) -> bool {
    exists|p: int| #[trigger] g.pages.contains(p) && p <= x < p + HEADER_BYTES
}

/// Nothing has changed but the links, flags and countdowns in the headers of pages.
pub open spec fn relabelled(w: Map<int, u64>, v: Map<int, u64>, g: HeapModel) -> bool {
    &&& forall|p: int| #[trigger]
        g.pages.contains(p) ==> same_but_heap_fields(header(w, p), header(v, p))
    &&& forall|x: int| !in_header(g, x) ==> #[trigger] v[x] == w[x]
}

/// Nothing has changed but the links in the headers of pages.
pub open spec fn relinked(w: Map<int, u64>, v: Map<int, u64>, g: HeapModel) -> bool {
    &&& forall|p: int| #[trigger]
        g.pages.contains(p) ==> links_only(header(w, p), header(v, p))
    &&& forall|x: int| !in_header(g, x) ==> #[trigger] v[x] == w[x]
}

/// The headers differ in nothing but their links.
pub open spec fn links_only(h: Page, k: Page) -> bool {
    k == (Page { next: k.next, prev: k.prev, ..h })
}

/// The page at `p` has at most moved in its queue: its header is the same but for the links, and
/// so is its free list.
pub open spec fn page_kept(w: Map<int, u64>, v: Map<int, u64>, p: int) -> bool {
    links_only(header(w, p), header(v, p)) && free_list(v, p) == free_list(w, p)
}

/// Writing the header of page `p` leaves every other header and every other word alone.
pub proof fn lemma_header_write(w: Map<int, u64>, v: Map<int, u64>, g: HeapModel, p: int)
    requires
        pages_ok(w, g),
        g.pages.contains(p),
        only_header_changed(w, v, p),
    ensures
        forall|q: int|
            g.pages.contains(q) && q != p ==> #[trigger] header(v, q) == header(w, q),
        forall|x: int| !in_header(g, x) ==> #[trigger] v[x] == w[x],
{
    reveal(pages_ok);
    lemma_home_range(w, g, p);
    assert forall|q: int| g.pages.contains(q) && q != p implies #[trigger] header(v, q) == header(
        w,
        q,
    ) by {
        lemma_home_range(w, g, q);
        lemma_header_words(w, v, q);
    }
    assert forall|x: int| !in_header(g, x) implies #[trigger] v[x] == w[x] by {
        if p <= x < p + HEADER_BYTES {
            assert(g.pages.contains(p));
        }
    }
}

/// A page survives a relabelling with its free list.
pub proof fn lemma_relabelled_page(w: Map<int, u64>, v: Map<int, u64>, g: HeapModel, p: int)
    requires
        pages_ok(w, g),
        relabelled(w, v, g),
        g.pages.contains(p),
    ensures
        page_wf(v, p),
        free_list(v, p) == free_list(w, p),
        forall|a: int| is_live(v, p, a) == #[trigger] is_live(w, p, a),
{
    reveal(pages_ok);
    let h = header(w, p);
    let k = header(v, p);
    assert(page_ok(w, g, p));
    lemma_page_shape(p, h);
    assert(same_but_heap_fields(h, k));
    assert forall|x: int| p + HEADER_BYTES <= x < p + page_bytes(h) && x % 8 == 0 implies
        #[trigger] v[x] == w[x] by {
        if in_header(g, x) {
            let q: int = choose|q: int| #[trigger] g.pages.contains(q) && q <= x < q + HEADER_BYTES;
            if q != p {
                lemma_pages_apart(w, g, p, q);
                lemma_home_range(w, g, q);
                lemma_page_shape(q, header(w, q));
            }
        }
    }
    let l = free_list(w, p);
    assert(page_inv(w, p, l));
    lemma_page_relabel(w, v, p, l);
    lemma_free_list(v, p, l);
    assert forall|a: int| is_live(v, p, a) == #[trigger] is_live(w, p, a) by {
        assert forall|i: int| #[trigger] block_addr(p, k, i) == block_addr(p, h, i) by {}
        if is_block(p, h, h.capacity as int, a) {
            let i: int = choose|i: int|
                0 <= i < h.capacity && a == #[trigger] block_addr(p, h, i);
            assert(a == block_addr(p, k, i));
        }
        if is_block(p, k, k.capacity as int, a) {
            let i: int = choose|i: int|
                0 <= i < k.capacity && a == #[trigger] block_addr(p, k, i);
            assert(a == block_addr(p, h, i));
        }
    }
}

/// A relabelling keeps the pages, the blocks and the slices in order, and what blocks hold.
pub proof fn lemma_relabelled<M: Memory>(
    w: Map<int, u64>,
    v: Map<int, u64>,
    g: HeapModel,
    sm: SliceModel,
    old: &M,
    new: &M,
)
    requires
        pages_ok(w, g),
        blocks_ok(w, g),
        no_lost_block(w, g),
        holders_ok(w, g, sm, old),
        relabelled(w, v, g),
        forall|p: int| #[trigger] g.pages.contains(p) ==> header(v, p).flags <= 1,
        forall|s: int| #[trigger] old.owns(s) ==> new.owns(s),
    ensures
        pages_ok(v, g),
        blocks_ok(v, g),
        no_lost_block(v, g),
        holders_ok(v, g, sm, new),
        contents_kept(w, v, g, 0),
        forall|p: int|
            #[trigger] g.pages.contains(p) ==> page_wf(v, p) && free_list(v, p) == free_list(w, p),
{
    reveal(pages_ok);
    reveal(blocks_ok);
    reveal(no_lost_block);
    reveal(holders_ok);
    assert forall|p: int| #[trigger] g.pages.contains(p) implies page_ok(v, g, p) && free_list(v, p)
        == free_list(w, p) by {
        lemma_relabelled_page(w, v, g, p);
        assert(page_ok(w, g, p));
    }
    assert forall|a: int| #[trigger] g.blocks.dom().contains(a) implies block_ok(v, g, a) by {
        assert(block_ok(w, g, a));
        match serving(g.blocks[a]) {
            Class::Bin(b) => {
                let p: int = page_of(bin_kind(b as int), a);
                lemma_relabelled_page(w, v, g, p);
                assert(is_live(w, p, a));
            },
            Class::Huge => {},
        }
    }
    assert forall|p: int, a: int|
        g.pages.contains(p) && #[trigger] is_live(v, p, a) implies g.blocks.dom().contains(a) by {
        lemma_relabelled_page(w, v, g, p);
        assert(is_live(w, p, a));
    }
    assert forall|s: int| #[trigger] g.holder.dom().contains(s) implies holder_ok(
        v,
        g,
        sm,
        new,
        s,
    ) by {
        assert(holder_ok(w, g, sm, old, s));
    }
    assert forall|a: int, x: int|
        #![trigger g.blocks.dom().contains(a), v[x]]
        g.blocks.dom().contains(a) && a != 0 && a <= x < block_end(g, a) && x % 8 == 0 implies v[x]
        == w[x] by {
        if in_header(g, x) {
            let q: int = choose|q: int| #[trigger] g.pages.contains(q) && q <= x < q + HEADER_BYTES;
            lemma_block_not_header(w, g, a, x, q);
        }
    }
}

/// Links change step by step.
pub proof fn lemma_relinked_trans(
    w: Map<int, u64>,
    v: Map<int, u64>,
    u: Map<int, u64>,
    g: HeapModel,
)
    requires
        relinked(w, v, g),
        relinked(v, u, g),
    ensures
        relinked(w, u, g),
{
    assert forall|p: int| #[trigger] g.pages.contains(p) implies links_only(
        header(w, p),
        header(u, p),
    ) by {
        assert(links_only(header(w, p), header(v, p)));
        assert(links_only(header(v, p), header(u, p)));
    }
    assert forall|x: int| !in_header(g, x) implies #[trigger] u[x] == w[x] by {
        assert(v[x] == w[x]);
    }
}

/// Labels change step by step.
pub proof fn lemma_relabelled_trans(
    w: Map<int, u64>,
    v: Map<int, u64>,
    u: Map<int, u64>,
    g: HeapModel,
)
    requires
        relabelled(w, v, g),
        relabelled(v, u, g),
    ensures
        relabelled(w, u, g),
{
    assert forall|p: int| #[trigger] g.pages.contains(p) implies same_but_heap_fields(
        header(w, p),
        header(u, p),
    ) by {
        assert(same_but_heap_fields(header(w, p), header(v, p)));
        assert(same_but_heap_fields(header(v, p), header(u, p)));
    }
    assert forall|x: int| !in_header(g, x) implies #[trigger] u[x] == w[x] by {
        assert(v[x] == w[x]);
    }
}

/// Taking the member at `k` out of a list.
pub proof fn lemma_unlink(w: Map<int, u64>, v: Map<int, u64>, l: Seq<int>, k: int)
    requires
        linked(w, l),
        0 <= k < l.len(),
        forall|j: int|
            0 <= j < l.len() && j != k ==> {
                let h = header(w, l[j]);
                #[trigger] header(v, l[j]) == (Page {
                    next: if j == k - 1 {
                        next_in(l, k) as usize
                    } else {
                        h.next
                    },
                    prev: if j == k + 1 {
                        prev_in(l, k) as usize
                    } else {
                        h.prev
                    },
                    ..h
                })
            },
        forall|j: int| 0 <= j < l.len() ==> 0 < #[trigger] l[j] <= usize::MAX,
    ensures
        linked(v, l.remove(k)),
{
    let m = l.remove(k);
    assert forall|i: int| 0 <= i < m.len() implies (#[trigger] header(v, m[i])).next == next_in(m, i)
        && header(v, m[i]).prev == prev_in(m, i) by {
        let j: int = if i < k {
            i
        } else {
            i + 1
        };
        assert(m[i] == l[j]);
        assert(header(w, l[j]).next == next_in(l, j));
        assert(header(v, l[j]) == header(v, m[i]));
        if j == k - 1 && k + 1 < l.len() {
            assert(m[i + 1] == l[k + 1]);
        }
    }
}

/// Putting a page in front of a list.
pub proof fn lemma_link_front(w: Map<int, u64>, v: Map<int, u64>, l: Seq<int>, p: int)
    requires
        linked(w, l),
        !l.contains(p),
        header(v, p).next == next_in(seq![p] + l, 0),
        header(v, p).prev == 0,
        forall|j: int|
            0 <= j < l.len() ==> {
                let h = header(w, l[j]);
                #[trigger] header(v, l[j]) == (Page {
                    prev: if j == 0 {
                        p as usize
                    } else {
                        h.prev
                    },
                    ..h
                })
            },
        0 < p <= usize::MAX,
    ensures
        linked(v, seq![p] + l),
{
    let m = seq![p] + l;
    assert forall|i: int| 0 <= i < m.len() implies (#[trigger] header(v, m[i])).next == next_in(m, i)
        && header(v, m[i]).prev == prev_in(m, i) by {
        if i > 0 {
            assert(m[i] == l[i - 1]);
            assert(header(w, l[i - 1]).next == next_in(l, i - 1));
            assert(header(v, l[i - 1]) == header(v, m[i]));
        }
    }
    assert(m.no_duplicates()) by {
        assert forall|i: int, j: int| 0 <= i < m.len() && 0 <= j < m.len() && i != j implies m[i]
            != m[j] by {
            if i == 0 {
                assert(l.contains(l[j - 1]));
            } else if j == 0 {
                assert(l.contains(l[i - 1]));
            }
        }
    }
}

/// Putting a page behind a list.
pub proof fn lemma_link_back(w: Map<int, u64>, v: Map<int, u64>, l: Seq<int>, p: int)
    requires
        linked(w, l),
        !l.contains(p),
        header(v, p).prev == prev_in(l.push(p), l.len() as int),
        header(v, p).next == 0,
        forall|j: int|
            0 <= j < l.len() ==> {
                let h = header(w, l[j]);
                #[trigger] header(v, l[j]) == (Page {
                    next: if j == l.len() - 1 {
                        p as usize
                    } else {
                        h.next
                    },
                    ..h
                })
            },
        0 < p <= usize::MAX,
    ensures
        linked(v, l.push(p)),
{
    let m = l.push(p);
    assert forall|i: int| 0 <= i < m.len() implies (#[trigger] header(v, m[i])).next == next_in(m, i)
        && header(v, m[i]).prev == prev_in(m, i) by {
        if i < l.len() {
            assert(m[i] == l[i]);
            assert(header(w, l[i]).next == next_in(l, i));
            assert(header(v, l[i]) == header(v, m[i]));
        }
    }
    assert(m.no_duplicates()) by {
        assert forall|i: int, j: int| 0 <= i < m.len() && 0 <= j < m.len() && i != j implies m[i]
            != m[j] by {
            if i == l.len() {
                assert(l.contains(l[j]));
            } else if j == l.len() {
                assert(l.contains(l[i]));
            }
        }
    }
}

/// The member at position `i` of queue `qi`.
pub proof fn lemma_queue_member(
    w: Map<int, u64>,
    queues: Seq<PageQueue>,
    g: HeapModel,
    out: int,
    qi: int,
    i: int,
)
    requires
        queues_ok(w, queues, g, out),
        0 <= qi < QUEUE_COUNT,
        0 <= i < g.qs[qi].len(),
    ensures
        member_ok(w, g, qi, out, g.qs[qi][i]),
        g.pages.contains(g.qs[qi][i]),
        home(header(w, g.qs[qi][i])) == qi,
        g.qs[qi][i] > 0,
        g.qs[qi][i] != out,
{
    reveal(queues_ok);
    assert(member_ok(w, g, qi, out, g.qs[qi][i]));
}

/// Queue `qi` and its head.
pub proof fn lemma_queue(
    w: Map<int, u64>,
    queues: Seq<PageQueue>,
    g: HeapModel,
    out: int,
    qi: int,
)
    requires
        queues_ok(w, queues, g, out),
        0 <= qi < QUEUE_COUNT,
    ensures
        queue_ok(w, queues[qi], g.qs[qi]),
        g.qs.len() == QUEUE_COUNT,
        queues.len() == QUEUE_COUNT,
{
    reveal(queues_ok);
    assert(queue_ok(w, queues[qi], g.qs[qi]));
}

/// A page other than `out` is in the queue it belongs to.
pub proof fn lemma_page_queued(
    w: Map<int, u64>,
    queues: Seq<PageQueue>,
    g: HeapModel,
    out: int,
    p: int,
)
    requires
        queues_ok(w, queues, g, out),
        g.pages.contains(p),
        p != out,
    ensures
        g.qs[home(header(w, p))].contains(p),
{
    reveal(queues_ok);
}

/// The queues after page `p` has left queue `qi` and nothing else has moved.
pub proof fn lemma_queues_removed(
    w: Map<int, u64>,
    v: Map<int, u64>,
    queues: Seq<PageQueue>,
    after: Seq<PageQueue>,
    g: HeapModel,
    room: int,
    qi: int,
    p: int,
)
    requires
        pages_ok(w, g),
        queues_ok(w, queues, g, 0),
        full_ok(w, g, room),
        0 <= qi < QUEUE_COUNT,
        g.qs[qi].contains(p),
        relinked(w, v, g),
        forall|q: int|
            g.pages.contains(q) && !g.qs[qi].contains(q) ==> #[trigger] header(v, q) == header(w, q),
        after.len() == QUEUE_COUNT,
        forall|j: int| 0 <= j < QUEUE_COUNT && j != qi ==> #[trigger] after[j] == queues[j],
        queue_ok(v, after[qi], g.qs[qi].remove(g.qs[qi].index_of(p))),
    ensures
        ({
            let k = HeapModel {
                qs: g.qs.update(qi, g.qs[qi].remove(g.qs[qi].index_of(p))),
                ..g
            };
            &&& queues_ok(v, after, k, p)
            &&& full_ok(v, k, room)
            &&& g.pages.contains(p)
        }),
{
    let l = g.qs[qi];
    let idx: int = l.index_of(p);
    let m = l.remove(idx);
    let k = HeapModel { qs: g.qs.update(qi, m), ..g };
    lemma_queue(w, queues, g, 0, qi);
    assert(l[idx] == p);
    lemma_queue_member(w, queues, g, 0, qi, idx);
    assert forall|j: int| 0 <= j < QUEUE_COUNT implies queue_ok(v, after[j], #[trigger] k.qs[j]) by {
        if j != qi {
            let t = g.qs[j];
            assert(k.qs[j] == t);
            lemma_queue(w, queues, g, 0, j);
            assert forall|i: int| 0 <= i < t.len() implies (#[trigger] header(v, t[i])).next
                == next_in(t, i) && header(v, t[i]).prev == prev_in(t, i) by {
                lemma_queue_member(w, queues, g, 0, j, i);
                if l.contains(t[i]) {
                    lemma_queue_member(w, queues, g, 0, qi, l.index_of(t[i]));
                }
                assert(header(w, t[i]).next == next_in(t, i));
                assert(header(v, t[i]) == header(w, t[i]));
            }
            assert(after[j] == queues[j]);
        }
    }
    assert forall|j: int, i: int|
        0 <= j < QUEUE_COUNT && 0 <= i < k.qs[j].len() implies member_ok(
        v,
        k,
        j,
        p,
        #[trigger] k.qs[j][i],
    ) by {
        if j == qi {
            let n: int = if i < idx {
                i
            } else {
                i + 1
            };
            assert(m[i] == l[n]);
            lemma_queue_member(w, queues, g, 0, qi, n);
            assert(links_only(header(w, l[n]), header(v, l[n])));
        } else {
            lemma_queue_member(w, queues, g, 0, j, i);
            assert(links_only(header(w, g.qs[j][i]), header(v, g.qs[j][i])));
        }
    }
    assert forall|q: int| #[trigger] k.pages.contains(q) && q != p implies k.qs[home(
        header(v, q),
    )].contains(q) by {
        assert(links_only(header(w, q), header(v, q)));
        lemma_home_range(w, g, q);
        lemma_page_queued(w, queues, g, 0, q);
        if home(header(w, q)) == qi {
            let n: int = l.index_of(q);
            let i: int = if n < idx {
                n
            } else {
                n - 1
            };
            assert(m[i] == q);
        }
    }
    assert(queues_ok(v, after, k, p)) by {
        reveal(queues_ok);
    }
    assert forall|i: int|
        0 <= i < k.qs[FULL_QUEUE as int].len() && k.qs[FULL_QUEUE as int][i] != room implies (
    #[trigger] header(v, k.qs[FULL_QUEUE as int][i])).used == header(
        v,
        k.qs[FULL_QUEUE as int][i],
    ).reserved by {
        reveal(full_ok);
        let q: int = k.qs[FULL_QUEUE as int][i];
        assert(member_ok(v, k, FULL_QUEUE as int, p, q));
        assert(links_only(header(w, q), header(v, q)));
        if qi == FULL_QUEUE {
            let n: int = if i < idx {
                i
            } else {
                i + 1
            };
            assert(m[i] == l[n]);
            assert(header(w, l[n]).used == header(w, l[n]).reserved);
        } else {
            assert(header(w, g.qs[FULL_QUEUE as int][i]).used == header(
                w,
                g.qs[FULL_QUEUE as int][i],
            ).reserved);
        }
    }
    reveal(full_ok);
}

/// The queues after page `p`, which was in none, has been put into queue `qi`.
pub proof fn lemma_queues_inserted(
    w: Map<int, u64>,
    v: Map<int, u64>,
    queues: Seq<PageQueue>,
    after: Seq<PageQueue>,
    g: HeapModel,
    room: int,
    qi: int,
    p: int,
    m: Seq<int>,
)
    requires
        pages_ok(w, g),
        queues_ok(w, queues, g, p),
        full_ok(w, g, room),
        0 <= qi < QUEUE_COUNT,
        g.pages.contains(p),
        p > 0,
        home(header(w, p)) == qi,
        relinked(w, v, g),
        forall|q: int|
            g.pages.contains(q) && !g.qs[qi].contains(q) && q != p ==> #[trigger] header(v, q)
                == header(w, q),
        after.len() == QUEUE_COUNT,
        forall|j: int| 0 <= j < QUEUE_COUNT && j != qi ==> #[trigger] after[j] == queues[j],
        queue_ok(v, after[qi], m),
        m == seq![p] + g.qs[qi] || m == g.qs[qi].push(p),
        qi == FULL_QUEUE && p != room ==> header(w, p).used == header(w, p).reserved,
    ensures
        ({
            let k = HeapModel { qs: g.qs.update(qi, m), ..g };
            &&& queues_ok(v, after, k, 0)
            &&& full_ok(v, k, room)
        }),
{
    let l = g.qs[qi];
    let k = HeapModel { qs: g.qs.update(qi, m), ..g };
    lemma_queue(w, queues, g, p, qi);
    assert(m.contains(p)) by {
        if m == seq![p] + l {
            assert(m[0] == p);
        } else {
            assert(m[l.len() as int] == p);
        }
    }
    assert forall|i: int| 0 <= i < m.len() && m[i] != p implies #[trigger] l.contains(m[i]) by {
        if m == seq![p] + l {
            assert(m[i] == l[i - 1]);
        } else {
            assert(m[i] == l[i]);
        }
    }
    assert forall|q: int| #[trigger] l.contains(q) implies m.contains(q) by {
        let n: int = l.index_of(q);
        if m == seq![p] + l {
            assert(m[n + 1] == q);
        } else {
            assert(m[n] == q);
        }
    }
    assert forall|j: int| 0 <= j < QUEUE_COUNT implies queue_ok(v, after[j], #[trigger] k.qs[j]) by {
        if j != qi {
            let t = g.qs[j];
            assert(k.qs[j] == t);
            lemma_queue(w, queues, g, p, j);
            assert forall|i: int| 0 <= i < t.len() implies (#[trigger] header(v, t[i])).next
                == next_in(t, i) && header(v, t[i]).prev == prev_in(t, i) by {
                lemma_queue_member(w, queues, g, p, j, i);
                if l.contains(t[i]) {
                    lemma_queue_member(w, queues, g, p, qi, l.index_of(t[i]));
                }
                assert(header(w, t[i]).next == next_in(t, i));
                assert(header(v, t[i]) == header(w, t[i]));
            }
            assert(after[j] == queues[j]);
        }
    }
    assert forall|j: int, i: int|
        0 <= j < QUEUE_COUNT && 0 <= i < k.qs[j].len() implies member_ok(
        v,
        k,
        j,
        0,
        #[trigger] k.qs[j][i],
    ) by {
        let q: int = k.qs[j][i];
        if j == qi {
            if q == p {
                assert(links_only(header(w, p), header(v, p)));
            } else {
                assert(l.contains(m[i]));
                lemma_queue_member(w, queues, g, p, qi, l.index_of(q));
                assert(links_only(header(w, q), header(v, q)));
            }
        } else {
            lemma_queue_member(w, queues, g, p, j, i);
            assert(links_only(header(w, g.qs[j][i]), header(v, g.qs[j][i])));
        }
    }
    assert forall|q: int| #[trigger] k.pages.contains(q) && q != 0 implies k.qs[home(
        header(v, q),
    )].contains(q) by {
        assert(links_only(header(w, q), header(v, q)));
        lemma_home_range(w, g, q);
        if q != p {
            lemma_page_queued(w, queues, g, p, q);
        }
    }
    assert(queues_ok(v, after, k, 0)) by {
        reveal(queues_ok);
    }
    assert forall|i: int|
        0 <= i < k.qs[FULL_QUEUE as int].len() && k.qs[FULL_QUEUE as int][i] != room implies (
    #[trigger] header(v, k.qs[FULL_QUEUE as int][i])).used == header(
        v,
        k.qs[FULL_QUEUE as int][i],
    ).reserved by {
        reveal(full_ok);
        let q: int = k.qs[FULL_QUEUE as int][i];
        assert(member_ok(v, k, FULL_QUEUE as int, 0, q));
        assert(links_only(header(w, q), header(v, q)));
        if qi == FULL_QUEUE {
            if q != p {
                assert(l.contains(m[i]));
                let n: int = l.index_of(q);
                assert(header(w, l[n]).used == header(w, l[n]).reserved);
            }
        } else {
            assert(header(w, g.qs[FULL_QUEUE as int][i]).used == header(
                w,
                g.qs[FULL_QUEUE as int][i],
            ).reserved);
        }
    }
    reveal(full_ok);
}

/// Queues depend on nothing but the links, the bins and the flags of their members.
pub proof fn lemma_queues_same(
    w: Map<int, u64>,
    v: Map<int, u64>,
    queues: Seq<PageQueue>,
    g: HeapModel,
    out: int,
    room: int,
)
    requires
        queues_ok(w, queues, g, out),
        full_ok(w, g, room),
        forall|p: int| #[trigger]
            g.pages.contains(p) && p != out ==> {
                &&& header(v, p).next == header(w, p).next
                &&& header(v, p).prev == header(w, p).prev
                &&& header(v, p).flags == header(w, p).flags
                &&& header(v, p).bin == header(w, p).bin
                &&& p != room ==> header(v, p).used == header(w, p).used
                &&& header(v, p).reserved == header(w, p).reserved
            },
    ensures
        queues_ok(v, queues, g, out),
        full_ok(v, g, room),
{
    assert forall|j: int| 0 <= j < QUEUE_COUNT implies queue_ok(v, queues[j], #[trigger] g.qs[j]) by {
        let t = g.qs[j];
        lemma_queue(w, queues, g, out, j);
        assert forall|i: int| 0 <= i < t.len() implies (#[trigger] header(v, t[i])).next == next_in(
            t,
            i,
        ) && header(v, t[i]).prev == prev_in(t, i) by {
            lemma_queue_member(w, queues, g, out, j, i);
            assert(header(w, t[i]).next == next_in(t, i));
        }
    }
    assert forall|j: int, i: int|
        0 <= j < QUEUE_COUNT && 0 <= i < g.qs[j].len() implies member_ok(
        v,
        g,
        j,
        out,
        #[trigger] g.qs[j][i],
    ) by {
        lemma_queue_member(w, queues, g, out, j, i);
    }
    assert forall|i: int|
        0 <= i < g.qs[FULL_QUEUE as int].len() && g.qs[FULL_QUEUE as int][i] != room implies (
    #[trigger] header(v, g.qs[FULL_QUEUE as int][i])).used == header(
        v,
        g.qs[FULL_QUEUE as int][i],
    ).reserved by {
        reveal(full_ok);
        lemma_queue_member(w, queues, g, out, FULL_QUEUE as int, i);
        assert(header(w, g.qs[FULL_QUEUE as int][i]).used == header(
            w,
            g.qs[FULL_QUEUE as int][i],
        ).reserved);
    }
    assert forall|q: int| #[trigger] g.pages.contains(q) && q != out implies g.qs[home(
        header(v, q),
    )].contains(q) by {
        lemma_page_queued(w, queues, g, out, q);
    }
    assert(queues_ok(v, queues, g, out)) by {
        lemma_queue(w, queues, g, out, 0);
        reveal(queues_ok);
    }
    reveal(full_ok);
}

/// The headers agree on everything but what the free list changes.
pub open spec fn list_fields_only(h: Page, k: Page) -> bool {
    k == (Page {
        free: k.free,
        used: k.used,
        capacity: k.capacity,
        free_is_zero: k.free_is_zero,
        ..h
    })
}

/// A step of one page, in which at most the block `b` starts or ends its life, keeps the
/// invariants of pages, blocks and slices.
pub proof fn lemma_page_step<M: Memory>(
    w: Map<int, u64>,
    v: Map<int, u64>,
    g: HeapModel,
    k: HeapModel,
    sm: SliceModel,
    old: &M,
    new: &M,
    p: int,
    b: int,
)
    requires
        pages_ok(w, g),
        blocks_ok(w, g),
        no_lost_block(w, g),
        holders_ok(w, g, sm, old),
        g.pages.contains(p),
        only_range_changed(w, v, p, page_bytes(header(w, p))),
        page_wf(v, p),
        list_fields_only(header(w, p), header(v, p)),
        k.pages == g.pages,
        k.qs == g.qs,
        k.holder == g.holder,
        forall|a: int| a != b ==> is_live(v, p, a) == #[trigger] is_live(w, p, a),
        forall|a: int|
            a != b ==> (#[trigger] k.blocks.dom().contains(a) <==> g.blocks.dom().contains(a)),
        forall|a: int| a != b && #[trigger] g.blocks.dom().contains(a) ==> k.blocks[a] == g.blocks[a],
        !is_run(g, b),
        k.blocks.dom().contains(b) ==> block_ok(v, k, b) && !is_run(k, b),
        is_live(v, p, b) ==> k.blocks.dom().contains(b),
        forall|q: int| g.pages.contains(q) && q != p ==> !#[trigger] is_live(w, q, b),
        forall|s: int| #[trigger] old.owns(s) ==> new.owns(s),
    ensures
        pages_ok(v, k),
        blocks_ok(v, k),
        no_lost_block(v, k),
        holders_ok(v, k, sm, new),
        forall|q: int|
            #[trigger] g.pages.contains(q) && q != p ==> header(v, q) == header(w, q) && free_list(
                v,
                q,
            ) == free_list(w, q),
{
    reveal(pages_ok);
    reveal(blocks_ok);
    reveal(no_lost_block);
    reveal(holders_ok);
    assert forall|q: int| #[trigger] g.pages.contains(q) && q != p implies header(v, q) == header(
        w,
        q,
    ) && free_list(v, q) == free_list(w, q) && page_wf(v, q) by {
        lemma_other_page(w, v, g, p, q);
    }
    assert forall|q: int| #[trigger] k.pages.contains(q) implies page_ok(v, k, q) by {
        assert(page_ok(w, g, q));
        assert forall|s: int|
            slice_of(q) <= s < slice_of(q + page_bytes(header(v, q))) implies #[trigger] held(
            k,
            s,
            q,
        ) by {
            assert(held(g, s, q));
        }
    }
    assert forall|a: int| #[trigger] k.blocks.dom().contains(a) implies block_ok(v, k, a) by {
        if a != b {
            assert(g.blocks.dom().contains(a));
            assert(block_ok(w, g, a));
            match serving(g.blocks[a]) {
                Class::Bin(c) => {
                    let q: int = page_of(bin_kind(c as int), a);
                    assert(is_live(w, q, a));
                    if q != p {
                        assert(header(v, q) == header(w, q));
                    }
                },
                Class::Huge => {
                    assert forall|s: int|
                        slice_of(a) <= s < slice_of(a) + run_slices(
                            k.blocks[a].size() as int,
                        ) implies #[trigger] held(k, s, a) by {
                        assert(held(g, s, a));
                    }
                },
            }
        }
    }
    assert forall|q: int, a: int|
        k.pages.contains(q) && #[trigger] is_live(v, q, a) implies k.blocks.dom().contains(a) by {
        if q == p {
            if a != b {
                assert(is_live(w, p, a));
            }
        } else {
            assert(header(v, q) == header(w, q));
            assert(is_live(w, q, a));
        }
    }
    assert forall|s: int| #[trigger] k.holder.dom().contains(s) implies holder_ok(
        v,
        k,
        sm,
        new,
        s,
    ) by {
        assert(holder_ok(w, g, sm, old, s));
        let q: int = g.holder[s];
        if g.pages.contains(q) {
            assert(page_bytes(header(v, q)) == page_bytes(header(w, q)));
        } else {
            assert(is_run(g, q));
            assert(q != b);
            assert(g.blocks.dom().contains(q));
        }
    }
}

/// A step inside a page leaves the map's zeros alone.
pub proof fn lemma_step_backed<M: Memory>(
    w: Map<int, u64>,
    v: Map<int, u64>,
    g: HeapModel,
    sm: SliceModel,
    old: &M,
    new: &M,
    p: int,
    bytes: int,
)
    requires
        w == old.words(),
        v == new.words(),
        holders_ok(w, g, sm, old),
        crate::slices::backed(sm, old),
        sm.zero.subset_of(sm.free),
        crate::page::stored(old, new),
        only_range_changed(w, v, p, bytes),
        forall|x: int|
            p <= x < p + bytes && x % 8 == 0 ==> #[trigger] g.holder.dom().contains(slice_of(x)),
    ensures
        crate::slices::backed(sm, new),
{
    reveal(holders_ok);
    assert forall|a: int|
        #![trigger new.words()[a]]
        a % 8 == 0 && sm.zero.contains(slice_of(a)) implies new.words()[a] == 0 by {
        if p <= a < p + bytes {
            assert(g.holder.dom().contains(slice_of(a)));
            assert(holder_ok(w, g, sm, old, slice_of(a)));
            assert(sm.free.contains(slice_of(a)));
        }
        assert(old.words()[a] == 0);
    }
}

} // verus!
