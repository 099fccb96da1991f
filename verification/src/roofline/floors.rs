//! What the floors do with a request, by its size and by what they hold.
use vstd::arithmetic::div_mod::{
    lemma_fundamental_div_mod, lemma_fundamental_div_mod_converse, lemma_mod_bound,
};
use vstd::prelude::*;

use super::bump::{
    bump_allocated, bump_rewound, has_space, law_blocks_are_handed_out_in_order, moved_to,
    pages_for, BumpModel,
};
use super::memory::WASM_PAGE;
use super::mimic::{fresh, mimic_allocated, mimic_freed, mimic_rewound, Hdr, MimicModel};
use super::paged::{is_small, lemma_page_layout, small_class, PAGE};
use super::pages::{pages_allocated, pages_freed, pages_rewound, PagesModel};
use super::segregated::{
    cell_layout, class_for, floor_allocated, floor_freed, in_class, rewound, FloorModel,
};
use crate::arith::{lemma_pow2_positive, lemma_round_up};
use crate::backend::{slice_of, Memory};
use crate::layout::Layout;

verus! {

/// `p` is the first multiple of `align` from `from` on.
pub open spec fn first_multiple(p: int, from: int, align: int) -> bool {
    from <= p < from + align && p % align == 0
}

/// A bump pointer hands out the first place in its region that serves. Memory stays as it is, and
/// the pointer moves just past the block.
pub proof fn law_a_region_is_used_before_memory_grows<M: Memory>(
    o: BumpModel,
    n: BumpModel,
    old: &M,
    new: &M,
    layout: Layout,
    r: Option<usize>,
    x: int,
)
    requires
        layout.wf(),
        0 <= o.cur <= o.end <= usize::MAX,
        bump_allocated(o, n, old, new, layout, r),
        o.cur <= x,
        x % layout.align() as int == 0,
        x + layout.size() <= o.end,
    ensures
        r is Some,
        first_multiple(r->0 as int, o.cur, layout.align() as int),
        r->0 <= x,
        *new == *old,
        n == (BumpModel { cur: r->0 + layout.size(), ..o }),
{
    lemma_pow2_positive(layout.align() as int);
    lemma_round_up(o.cur, layout.align() as int);
}

/// A bump pointer whose region has no place for a block asks memory to grow, once, by the least
/// number of pages that make 16 MiB and hold the block wherever it starts. If what comes follows
/// the region, the region goes on; else the pointer goes to what came, and so does the mark, if
/// there is one.
pub proof fn law_memory_grows_by_a_chunk_or_by_the_block<M: Memory>(
    o: BumpModel,
    n: BumpModel,
    old: &M,
    new: &M,
    layout: Layout,
    r: Option<usize>,
)
    requires
        layout.wf(),
        0 <= o.cur <= o.end <= usize::MAX,
        bump_allocated(o, n, old, new, layout, r),
        forall|x: int|
            o.cur <= x && #[trigger] (x % layout.align() as int) == 0 ==> x + layout.size() > o.end,
    ensures
        ({
            let k = old.growths().len() as int;
            let g = new.growths()[k];
            let wanted = layout.size() + layout.align();
            &&& new.growths() == old.growths().push(g)
            &&& g.slices * 65536 >= 16777216 && g.slices * 65536 >= wanted
            &&& (g.slices - 1) * 65536 < 16777216 || (g.slices - 1) * 65536 < wanted
            &&& r is None ==> n == o
            &&& r is Some ==> {
                let p = r->0 as int;
                let base = g.first->0 * 65536;
                let follows = base == o.end && o.end != 0;
                &&& g.first is Some
                &&& first_multiple(
                    p,
                    if follows {
                        o.cur
                    } else {
                        base
                    },
                    layout.align() as int,
                )
                &&& n.cur == p + layout.size()
                &&& n.end == base + g.slices * 65536
                &&& n.cur <= n.end
                &&& n.mark is Some <==> o.mark is Some
                &&& n.mark is Some ==> n.mark->0 == if follows {
                    o.mark->0
                } else {
                    base
                }
            }
        }),
{
    let a: int = layout.align() as int;
    lemma_pow2_positive(a);
    lemma_round_up(o.cur, a);
    assert(!has_space(o, layout));
    let pages: int = pages_for(layout);
    match r {
        Some(p) => {
            let base: int = n.end - pages * WASM_PAGE;
            let b = moved_to(o, base, pages);
            lemma_round_up(b.cur, a);
            assert(new.growths().last().first == Some(slice_of(base)));
        },
        None => {
            assert(new.growths().last().slices == pages);
        },
    }
    assert(new.growths() =~= old.growths().push(new.growths()[old.growths().len() as int]));
}

/// The first reset of a floor sets the mark to where its pointer is, and every later one takes the
/// pointer back there. The lists are forgotten and so is what was carved since; live blocks stay.
pub proof fn law_a_reset_goes_back_to_the_first_one(
    o: FloorModel,
    n: FloorModel,
    b: BumpModel,
    d: BumpModel,
    a: int,
    c: int,
)
    requires
        rewound(o, n, b, d),
        0 <= c < o.free.len(),
    ensures
        b.mark is None ==> d.cur == b.cur,
        b.mark is Some ==> d.cur == b.mark->0,
        d.mark == Some(d.cur),
        d.end == b.end,
        n.live == o.live,
        n.free.len() == o.free.len(),
        n.free[c].len() == 0,
        n.cells.dom().contains(a) <==> o.cells.dom().contains(a) && (a < d.cur || a >= b.cur),
        n.cells.dom().contains(a) ==> n.cells[a] == o.cells[a],
{
}

/// The class of a request is given by the multiples of the unit that its size lies between.
proof fn lemma_class_between(unit: int, layout: Layout, c: int)
    requires
        unit >= 1,
        c >= 0,
        c * unit < layout.size() <= (c + 1) * unit,
    ensures
        class_for(unit, layout) == c,
        forall|n: int| #[trigger] (n * unit) >= layout.size() <==> c < n,
{
    let s: int = layout.size() as int;
    assert(0 <= s - 1 - c * unit < unit) by (nonlinear_arith)
        requires
            c * unit < s <= (c + 1) * unit,
    ;
    assert(s - 1 == c * unit + (s - 1 - c * unit));
    lemma_fundamental_div_mod_converse(s - 1, unit, c, s - 1 - c * unit);
    assert forall|n: int| #[trigger] (n * unit) >= s <==> c < n by {
        if c < n {
            assert(n * unit >= (c + 1) * unit) by (nonlinear_arith)
                requires
                    n >= c + 1,
                    unit >= 1,
            ;
        } else {
            assert(n * unit <= c * unit) by (nonlinear_arith)
                requires
                    n <= c,
                    unit >= 1,
            ;
        }
    }
}

/// A floor of `n` classes serves a request of more than `c` and no more than `c + 1` units from the
/// blocks of `c + 1` units if there are any, the last freed first; else it carves such a block at a
/// multiple of 16. What is larger than the largest class, or aligned to more than 16, is carved as
/// it is.
pub proof fn law_lists_serve_the_requests_that_fit_their_blocks<M: Memory>(
    n: int,
    unit: int,
    o: FloorModel,
    k: FloorModel,
    b: BumpModel,
    d: BumpModel,
    old: &M,
    new: &M,
    layout: Layout,
    r: Option<usize>,
    c: int,
)
    requires
        n >= 1,
        1 <= unit,
        n * unit <= 65536,
        o.free.len() == n,
        c < n && o.free[c].len() > 0 ==> 0 <= o.free[c][0] <= usize::MAX,
        layout.wf(),
        0 <= b.cur <= b.end <= usize::MAX,
        c >= 0,
        c * unit < layout.size() <= (c + 1) * unit,
        floor_allocated(n, unit, o, k, b, d, old, new, layout, r),
    ensures
        r is Some ==> k.live == o.live.insert(r->0 as int, layout),
        r is None ==> k == o,
        c < n && layout.align() <= 16 && o.free[c].len() > 0 ==> {
            &&& r == Some(o.free[c][0] as usize)
            &&& k.cells == o.cells
            &&& k.free == o.free.update(c, o.free[c].skip(1))
            &&& *new == *old
            &&& d == b
        },
        c < n && layout.align() <= 16 && o.free[c].len() == 0 && r is Some ==> {
            &&& k.cells == o.cells.insert(r->0 as int, (c + 1) * unit)
            &&& r->0 % 16 == 0
            &&& d.cur == r->0 + (c + 1) * unit
            &&& k.free == o.free
        },
        (c >= n || layout.align() > 16) && r is Some ==> {
            &&& k.cells == o.cells.insert(r->0 as int, layout.size() as int)
            &&& r->0 as int % layout.align() as int == 0
            &&& d.cur == r->0 + layout.size()
            &&& k.free == o.free
        },
{
    lemma_class_between(unit, layout, c);
    assert(n * unit >= layout.size() <==> c < n);
    let cell = cell_layout(n, unit, layout);
    if in_class(n, unit, layout) {
        assert((c + 1) * unit <= n * unit) by (nonlinear_arith)
            requires
                c + 1 <= n,
                unit >= 1,
        ;
        Layout::lemma_of(((c + 1) * unit) as usize, 16);
        assert(vstd::arithmetic::power2::is_pow2(16)) by {
            reveal_with_fuel(vstd::arithmetic::power2::is_pow2, 8);
        }
        assert(o.free[c].len() > 0 ==> o.free[c].drop_first() =~= o.free[c].skip(1));
    }
    if !(in_class(n, unit, layout) && o.free[c].len() > 0) && r is Some {
        law_blocks_are_handed_out_in_order(b, d, old, new, cell, r->0);
    }
}

/// Blocks of up to 1024 bytes, aligned to no more than 16, are served from the pages of their class:
/// the block freed last, else the next of the current page, else the first of a fresh page, which
/// is 16 bytes behind its start. What is larger is carved as it is.
pub proof fn law_pages_serve_freed_blocks_then_the_next_one<M: Memory>(
    o: PagesModel,
    k: PagesModel,
    b: BumpModel,
    d: BumpModel,
    old: &M,
    new: &M,
    layout: Layout,
    r: Option<usize>,
    c: int,
)
    requires
        o.free.len() == 64,
        o.cur.len() == 64,
        o.end.len() == 64,
        c < 64 ==> 0 <= o.cur[c] <= usize::MAX,
        c < 64 && o.free[c].len() > 0 ==> 0 <= o.free[c][0] <= usize::MAX,
        layout.wf(),
        0 <= b.cur <= b.end <= usize::MAX,
        c >= 0,
        c * 16 < layout.size() <= (c + 1) * 16,
        r is Some ==> r->0 >= 16,
        pages_allocated(o, k, b, d, old, new, layout, r),
    ensures
        ({
            let a = r->0 as int;
            let small = layout.size() <= 1024 && layout.align() <= 16;
            let bytes = (c + 1) * 16;
            &&& r is Some ==> k.live == o.live.insert(a, layout)
            &&& r is None ==> k == o
            &&& small && o.free[c].len() > 0 ==> {
                &&& r == Some(o.free[c][0] as usize)
                &&& k.free == o.free.update(c, o.free[c].skip(1))
                &&& k.cells == o.cells && k.pages == o.pages && k.cur == o.cur && k.end == o.end
                &&& *new == *old && d == b
            }
            &&& small && o.free[c].len() == 0 && o.cur[c] + bytes <= o.end[c] ==> {
                &&& r == Some(o.cur[c] as usize)
                &&& k.cur == o.cur.update(c, o.cur[c] + bytes)
                &&& k.cells == o.cells && k.pages == o.pages && k.end == o.end && k.free == o.free
                &&& *new == *old && d == b
            }
            &&& small && o.free[c].len() == 0 && o.cur[c] + bytes > o.end[c] && r is Some ==> {
                let p = a - 16;
                &&& p % 65536 == 0
                &&& k.cells == o.cells.insert(p, 65536)
                &&& k.pages == o.pages.insert(p, c)
                &&& k.cur == o.cur.update(c, a + bytes)
                &&& k.end == o.end.update(c, p + 65536)
                &&& k.free == o.free
            }
            &&& !small && r is Some ==> {
                &&& k.cells == o.cells.insert(a, layout.size() as int)
                &&& a % layout.align() as int == 0
                &&& k.pages == o.pages && k.cur == o.cur && k.end == o.end && k.free == o.free
            }
        }),
{
    lemma_class_between(16, layout, c);
    assert(64 * 16int >= layout.size() <==> c < 64);
    assert(small_class(layout) == c);
    if !is_small(layout) {
        if r is Some {
            law_blocks_are_handed_out_in_order(b, d, old, new, layout, r->0);
        }
    } else if o.free[c].len() > 0 {
        assert(o.free[c].drop_first() =~= o.free[c].skip(1));
    } else if o.cur[c] + (c + 1) * 16 > o.end[c] && r is Some {
        let p: int = r->0 - 16;
        let mid = choose|mid: M| #[trigger]
            super::pages::bump_page(b, d, old, &mid, Some(p as usize));
        lemma_page_layout();
        Layout::lemma_of(PAGE, PAGE);
        law_blocks_are_handed_out_in_order(b, d, old, &mid, Layout::of(PAGE, PAGE), p as usize);
    }
}

/// Like the pages, with a list and a header per page, whose first block is 64 bytes behind its
/// start. The header counts the blocks in use unless it is lean, and is otherwise as it was when
/// the page was fresh.
pub proof fn law_mimics_serve_the_current_page<M: Memory>(
    lean: bool,
    o: MimicModel,
    k: MimicModel,
    b: BumpModel,
    d: BumpModel,
    old: &M,
    new: &M,
    layout: Layout,
    r: Option<usize>,
    c: int,
)
    requires
        o.cur.len() == 64,
        o.end.len() == 64,
        c < 64 ==> 0 <= o.cur[c] <= usize::MAX,
        c < 64 && o.lists[o.end[c] - 65536].len() > 0 ==> 0 <= o.lists[o.end[c] - 65536][0]
            <= usize::MAX,
        layout.wf(),
        0 <= b.cur <= b.end <= usize::MAX,
        c >= 0,
        c * 16 < layout.size() <= (c + 1) * 16,
        r is Some ==> r->0 >= 64,
        forall|p: int| #[trigger] o.hdrs.dom().contains(p) ==> o.hdrs[p].used < 65535,
        layout.size() <= 1024 && layout.align() <= 16 && o.end[c] != 0 ==> o.hdrs.dom().contains(
            o.end[c] - 65536,
        ),
        mimic_allocated(lean, o, k, b, d, old, new, layout, r),
    ensures
        ({
            let a = r->0 as int;
            let small = layout.size() <= 1024 && layout.align() <= 16;
            let bytes = (c + 1) * 16;
            let p = o.end[c] - 65536;
            let l = o.lists[p];
            let one = if lean {
                0int
            } else {
                1
            };
            let freed = small && o.end[c] != 0 && l.len() > 0;
            let room = o.cur[c] + bytes <= o.end[c];
            &&& r is Some ==> k.live == o.live.insert(a, layout)
            &&& r is None ==> k == o
            &&& k.transitions == o.transitions
            &&& freed ==> {
                &&& r == Some(l[0] as usize)
                &&& k.lists == o.lists.insert(p, l.skip(1))
                &&& k.hdrs[p].used == o.hdrs[p].used + one
                &&& l.len() == 1 ==> k.hdrs[p].free == 0
                &&& l.len() > 1 ==> k.hdrs[p].free == l[1] as usize
                &&& k.cur == o.cur && k.end == o.end && k.cells == o.cells
            }
            &&& small && !freed && room && o.end[c] != 0 ==> {
                &&& r == Some(o.cur[c] as usize)
                &&& k.cur == o.cur.update(c, o.cur[c] + bytes)
                &&& k.hdrs[p].used == o.hdrs[p].used + one
                &&& k.hdrs[p].free == o.hdrs[p].free
                &&& k.lists == o.lists && k.end == o.end && k.cells == o.cells
            }
            &&& small && !freed && !room && r is Some ==> {
                let q = a - 64;
                &&& q % 65536 == 0
                &&& k.cells == o.cells.insert(q, 65536)
                &&& k.lists == o.lists.insert(q, Seq::empty())
                &&& k.cur == o.cur.update(c, a + bytes)
                &&& k.end == o.end.update(c, q + 65536)
                &&& k.hdrs[q].used == one
                &&& k.hdrs[q].free == 0
                &&& k.hdrs[q].free_is_zero
                &&& k.hdrs[q].bin == c
                &&& k.hdrs[q].block_size == bytes
                &&& k.hdrs[q].block_start == 64
                &&& 64 + k.hdrs[q].reserved * bytes <= 65536
                &&& 64 + (k.hdrs[q].reserved + 1) * bytes > 65536
            }
            &&& !small && r is Some ==> {
                &&& k.cells == o.cells.insert(a, layout.size() as int)
                &&& a % layout.align() as int == 0
                &&& k.hdrs == o.hdrs && k.lists == o.lists && k.cur == o.cur && k.end == o.end
            }
        }),
{
    lemma_class_between(16, layout, c);
    assert(64 * 16int >= layout.size() <==> c < 64);
    assert(small_class(layout) == c);
    let p: int = o.end[c] - 65536;
    let bytes: int = (c + 1) * 16;
    if !is_small(layout) {
        if r is Some {
            law_blocks_are_handed_out_in_order(b, d, old, new, layout, r->0);
        }
    } else if o.end[c] != 0 && o.lists[p].len() > 0 {
        assert(o.lists[p].drop_first() =~= o.lists[p].skip(1));
    } else if o.cur[c] + bytes > o.end[c] && r is Some {
        let a: int = r->0 as int;
        let q: int = a - 64;
        let mid = choose|mid: M| #[trigger]
            super::mimic::begun(lean, o, k, b, d, old, &mid, new, c, layout, a);
        let low = choose|low: M| #[trigger]
            super::mimic::bump_page(b, d, old, &low, Some(q as usize));
        lemma_page_layout();
        Layout::lemma_of(PAGE, PAGE);
        law_blocks_are_handed_out_in_order(b, d, old, &low, Layout::of(PAGE, PAGE), q as usize);
        lemma_fresh_header(c);
        assert(k.cur =~= o.cur.update(c, a + bytes));
        assert(k.cells =~= o.cells.insert(q, 65536));
    }
}

/// The header of a fresh page counts the blocks that fit behind it.
proof fn lemma_fresh_header(c: int)
    requires
        0 <= c < 64,
    ensures
        fresh(c).block_size == (c + 1) * 16,
        fresh(c).block_start == 64,
        fresh(c).bin == c,
        64 + fresh(c).reserved * ((c + 1) * 16) <= 65536,
        64 + (fresh(c).reserved + 1) * ((c + 1) * 16) > 65536,
{
    let bytes: int = (c + 1) * 16;
    let k: int = 65472int / bytes;
    lemma_fundamental_div_mod(65472, bytes);
    lemma_mod_bound(65472, bytes);
    assert(0 <= k <= 65472 && k * bytes <= 65472 && (k + 1) * bytes > 65472) by (nonlinear_arith)
        requires
            65472 == bytes * k + 65472int % bytes,
            0 <= 65472int % bytes < bytes,
            bytes >= 16,
    ;
}

/// A free to a page puts the block first in its list. Unless the header is lean, the count goes down
/// by one; the blocks are no longer known to be zero unless that is left out; and unless the test
/// is left out, a page that empties or is flagged is counted. What was carved as it is, is leaked.
pub proof fn law_mimics_count_what_is_freed<M: Memory>(
    lean: bool,
    no_zero: bool,
    no_test: bool,
    o: MimicModel,
    k: MimicModel,
    old: &M,
    new: &M,
    a: int,
)
    requires
        0 < a <= usize::MAX,
        !lean ==> o.hdrs[a - a % 65536].used > 0,
        o.transitions < u32::MAX,
        mimic_freed(lean, no_zero, no_test, o, k, old, new, a),
    ensures
        ({
            let p = a - a % 65536;
            let h = o.hdrs[p];
            let small = o.live[a].size() <= 1024 && o.live[a].align() <= 16;
            let empties = h.used == 1 || h.flags != 0;
            &&& k.live == o.live.remove(a)
            &&& k.cells == o.cells && k.cur == o.cur && k.end == o.end
            &&& !small ==> {
                &&& k.hdrs == o.hdrs && k.lists == o.lists && k.transitions == o.transitions
                &&& *new == *old
            }
            &&& small ==> {
                &&& k.lists == o.lists.insert(p, seq![a] + o.lists[p])
                &&& k.hdrs == o.hdrs.insert(
                    p,
                    Hdr {
                        free: a as usize,
                        used: k.hdrs[p].used,
                        free_is_zero: k.hdrs[p].free_is_zero,
                        ..h
                    },
                )
                &&& lean ==> k.hdrs[p].used == h.used && k.hdrs[p].free_is_zero == h.free_is_zero
                &&& !lean ==> k.hdrs[p].used == h.used - 1
                &&& !lean && no_zero ==> k.hdrs[p].free_is_zero == h.free_is_zero
                &&& !lean && !no_zero ==> !k.hdrs[p].free_is_zero
                &&& !lean && !no_test && empties ==> k.transitions == o.transitions + 1
                &&& lean || no_test || !empties ==> k.transitions == o.transitions
            }
        }),
{
}

/// A freed block is the first that the next request of its class gets, before those that were free
/// already; the other classes keep theirs. What belongs to no class is leaked.
pub proof fn law_lists_take_back_their_blocks(
    n: int,
    unit: int,
    o: FloorModel,
    k: FloorModel,
    a: int,
    layout: Layout,
    c: int,
    other: int,
)
    requires
        unit >= 1,
        o.free.len() == n,
        c >= 0,
        c * unit < layout.size() <= (c + 1) * unit,
        0 <= other < n,
        floor_freed(n, unit, o, k, a, layout),
    ensures
        k.live == o.live.remove(a),
        k.cells == o.cells,
        k.free.len() == n,
        c < n && layout.align() <= 16 ==> k.free[c].len() == o.free[c].len() + 1 && k.free[c][0]
            == a && k.free[c].skip(1) == o.free[c],
        other != c || layout.align() > 16 ==> k.free[other] == o.free[other],
{
    lemma_class_between(unit, layout, c);
    assert(n * unit >= layout.size() <==> c < n);
    if c < n && layout.align() <= 16 {
        assert(k.free[c].skip(1) =~= o.free[c]);
    }
}

/// The same of the pages, whose blocks are those of up to 1024 bytes.
pub proof fn law_pages_take_back_their_blocks(
    o: PagesModel,
    k: PagesModel,
    a: int,
    layout: Layout,
    c: int,
    other: int,
)
    requires
        o.free.len() == 64,
        c >= 0,
        c * 16 < layout.size() <= (c + 1) * 16,
        0 <= other < 64,
        pages_freed(o, k, a, layout),
    ensures
        k.live == o.live.remove(a),
        k.cells == o.cells && k.pages == o.pages && k.cur == o.cur && k.end == o.end,
        k.free.len() == 64,
        layout.size() <= 1024 && layout.align() <= 16 ==> k.free[c].len() == o.free[c].len() + 1
            && k.free[c][0] == a && k.free[c].skip(1) == o.free[c],
        other != c || layout.align() > 16 ==> k.free[other] == o.free[other],
{
    lemma_class_between(16, layout, c);
    assert(64 * 16int >= layout.size() <==> c < 64);
    if layout.size() <= 1024 && layout.align() <= 16 {
        assert(k.free[c].skip(1) =~= o.free[c]);
    }
}

/// The first reset of a bump pointer leaves it where it is and sets the mark there; every later one
/// takes it back to the mark.
pub proof fn law_resets_go_back_to_the_first(o: BumpModel, n: BumpModel, m: BumpModel, l: BumpModel)
    requires
        bump_rewound(o, n),
        m.mark == n.mark,
        bump_rewound(m, l),
    ensures
        o.mark is None ==> n.cur == o.cur,
        o.mark is Some ==> n.cur == o.mark->0,
        n.end == o.end,
        l.cur == n.cur,
        l.mark == n.mark,
        l.end == m.end,
{
}

/// After a reset the pages floor has no free block and no current page, and knows of the pages and
/// cells that were carved before the mark, or elsewhere, only.
pub proof fn law_a_reset_forgets_the_pages(
    o: PagesModel,
    n: PagesModel,
    b: BumpModel,
    d: BumpModel,
    a: int,
    c: int,
)
    requires
        pages_rewound(o, n, b, d),
        0 <= c < 64,
    ensures
        n.live == o.live,
        n.free.len() == 64 && n.free[c].len() == 0,
        n.cur.len() == 64 && n.cur[c] == 0,
        n.end.len() == 64 && n.end[c] == 0,
        n.pages.dom().contains(a) <==> o.pages.dom().contains(a) && (a < d.cur || a >= b.cur),
        n.pages.dom().contains(a) ==> n.pages[a] == o.pages[a],
        n.cells.dom().contains(a) <==> o.cells.dom().contains(a) && (a < d.cur || a >= b.cur),
        n.cells.dom().contains(a) ==> n.cells[a] == o.cells[a],
{
}

/// The same of the floor that keeps the heap's books, which goes on counting transitions.
pub proof fn law_a_reset_forgets_the_headers(
    o: MimicModel,
    n: MimicModel,
    b: BumpModel,
    d: BumpModel,
    a: int,
    c: int,
)
    requires
        mimic_rewound(o, n, b, d),
        0 <= c < 64,
    ensures
        n.live == o.live,
        n.transitions == o.transitions,
        n.cur.len() == 64 && n.cur[c] == 0,
        n.end.len() == 64 && n.end[c] == 0,
        n.hdrs.dom().contains(a) <==> o.hdrs.dom().contains(a) && (a < d.cur || a >= b.cur),
        n.hdrs.dom().contains(a) ==> n.hdrs[a] == o.hdrs[a],
        n.lists.dom().contains(a) <==> o.lists.dom().contains(a) && (a < d.cur || a >= b.cur),
        n.lists.dom().contains(a) ==> n.lists[a] == o.lists[a],
        n.cells.dom().contains(a) <==> o.cells.dom().contains(a) && (a < d.cur || a >= b.cur),
{
}

} // verus!
