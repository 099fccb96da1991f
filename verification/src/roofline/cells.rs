//! What the floors have carved out of their memory.
use vstd::prelude::*;

use super::bump::{bump_allocated, bumped, has_space, moved_to, pages_for, BumpModel};
use super::memory::{fresh_region, still_owned, WASM_PAGE};
use crate::arith::{lemma_pow2_positive, lemma_round_up, round_up};
use crate::backend::{in_order, slice_of, Memory};
use crate::layout::Layout;
use crate::page::{chain, link};

verus! {

/// The bytes of `[lo, hi)` belong to the allocator.
pub open spec fn owned_bytes<M: Memory>(m: &M, lo: int, hi: int) -> bool {
    forall|x: int| lo <= x < hi ==> m.owns(#[trigger] slice_of(x))
}

/// The cells, by address and in bytes, lie in memory that is the allocator's and do not overlap.
pub open spec fn cells_ok<M: Memory>(cells: Map<int, int>, m: &M) -> bool {
    &&& forall|a: int| #[trigger]
        cells.dom().contains(a) ==> a > 0 && cells[a] > 0 && a + cells[a] <= usize::MAX
            && owned_bytes(m, a, a + cells[a])
    &&& forall|a: int, b: int| #[trigger]
        cells.dom().contains(a) && #[trigger] cells.dom().contains(b) && a < b ==> a + cells[a] <= b
}

/// No cell reaches into `[lo, hi)`.
pub open spec fn clear_of(cells: Map<int, int>, lo: int, hi: int) -> bool {
    forall|a: int| #[trigger] cells.dom().contains(a) ==> a + cells[a] <= lo || hi <= a
}

/// The region of a bump pointer: what is left of it is the allocator's and no cell reaches into
/// it, and no cell straddles the mark.
pub open spec fn region_ok<M: Memory>(b: BumpModel, cells: Map<int, int>, m: &M) -> bool {
    &&& 0 <= b.cur <= b.end <= usize::MAX
    &&& clear_of(cells, b.cur, b.end)
    &&& owned_bytes(m, b.cur, b.end)
    &&& b.mark matches Some(mk) ==> {
        &&& 0 <= mk <= b.cur
        &&& owned_bytes(m, mk, b.end)
        &&& forall|a: int| #[trigger]
            cells.dom().contains(a) ==> a + cells[a] <= mk || mk <= a
    }
}

/// Cells stay in order while memory grows.
pub proof fn lemma_cells_kept<M: Memory>(cells: Map<int, int>, o: &M, n: &M)
    requires
        cells_ok(cells, o),
        still_owned(o, n),
    ensures
        cells_ok(cells, n),
{
    assert forall|a: int| #[trigger] cells.dom().contains(a) implies owned_bytes(
        n,
        a,
        a + cells[a],
    ) by {
        assert(owned_bytes(o, a, a + cells[a]));
    }
}

/// A new cell where there is none.
pub proof fn lemma_add_cell<M: Memory>(cells: Map<int, int>, m: &M, a: int, n: int)
    requires
        cells_ok(cells, m),
        clear_of(cells, a, a + n),
        a > 0,
        n > 0,
        a + n <= usize::MAX,
        owned_bytes(m, a, a + n),
    ensures
        cells_ok(cells.insert(a, n), m),
        !cells.dom().contains(a),
{
    let d = cells.insert(a, n);
    assert(!cells.dom().contains(a));
    assert forall|x: int, y: int| #[trigger]
        d.dom().contains(x) && #[trigger] d.dom().contains(y) && x < y implies x + d[x] <= y by {
        if x == a {
            assert(cells.dom().contains(y));
        } else if y == a {
            assert(cells.dom().contains(x));
        } else {
            assert(cells.dom().contains(x) && cells.dom().contains(y));
        }
    }
    assert forall|x: int| #[trigger] d.dom().contains(x) implies x > 0 && d[x] > 0 && x + d[x]
        <= usize::MAX && owned_bytes(m, x, x + d[x]) by {
        if x != a {
            assert(cells.dom().contains(x));
        }
    }
}

/// Fresh pages hold no cell.
pub proof fn lemma_fresh_clear<M: Memory>(
    cells: Map<int, int>,
    o: &M,
    n: &M,
    base: int,
    pages: int,
)
    requires
        in_order(o),
        cells_ok(cells, o),
        fresh_region(o, n, base, pages),
        pages > 0,
    ensures
        clear_of(cells, base, base + pages * WASM_PAGE),
        owned_bytes(n, base, base + pages * WASM_PAGE),
        base > 0,
{
    assert forall|a: int| #[trigger] cells.dom().contains(a) implies a + cells[a] <= base by {
        let x: int = a + cells[a] - 1;
        assert(o.owns(slice_of(x)));
        assert(slice_of(x) < o.end());
    }
    assert forall|x: int| base <= x < base + pages * WASM_PAGE implies n.owns(
        #[trigger] slice_of(x),
    ) by {
        assert(slice_of(base) <= slice_of(x) < slice_of(base) + pages);
    }
    assert(n.owns(slice_of(base)));
}

/// A block handed out by the bump pointer is a cell of its own.
pub proof fn lemma_carved<M: Memory>(
    o: BumpModel,
    n: BumpModel,
    cells: Map<int, int>,
    old: &M,
    new: &M,
    layout: Layout,
    p: int,
)
    requires
        in_order(old),
        in_order(new),
        still_owned(old, new),
        cells_ok(cells, old),
        region_ok(o, cells, old),
        layout.wf(),
        layout.size() > 0,
        0 <= p <= usize::MAX,
        0 <= n.cur <= n.end <= usize::MAX,
        bump_allocated(o, n, old, new, layout, Some(p as usize)),
    ensures
        p > 0,
        p % layout.align() as int == 0,
        !cells.dom().contains(p),
        clear_of(cells, p, p + layout.size()),
        cells_ok(cells.insert(p, layout.size() as int), new),
        region_ok(n, cells.insert(p, layout.size() as int), new),
        n.cur == p + layout.size(),
        owned_bytes(new, p, n.end),
        clear_of(cells, p, n.end),
{
    let size: int = layout.size() as int;
    let align: int = layout.align() as int;
    lemma_pow2_positive(align);
    lemma_cells_kept(cells, old, new);
    let b = if has_space(o, layout) {
        o
    } else {
        let pages = pages_for(layout);
        moved_to(o, n.end - pages * WASM_PAGE, pages)
    };
    if !has_space(o, layout) {
        let pages: int = pages_for(layout);
        let base: int = n.end - pages * WASM_PAGE;
        assert(pages > 0);
        lemma_fresh_clear(cells, old, new, base, pages);
        assert(clear_of(cells, b.cur, b.end)) by {
            assert forall|a: int| #[trigger] cells.dom().contains(a) implies a + cells[a] <= b.cur
                || b.end <= a by {
                assert(a + cells[a] <= o.cur || o.end <= a);
                assert(a + cells[a] <= base || base + pages * WASM_PAGE <= a);
            }
        }
        assert(owned_bytes(new, b.cur, b.end)) by {
            assert forall|x: int| b.cur <= x < b.end implies new.owns(#[trigger] slice_of(x)) by {
                if x < base {
                    assert(old.owns(slice_of(x)));
                }
            }
        }
    }
    lemma_round_up(b.cur, align);
    assert(p == round_up(b.cur, align));
    assert(n == bumped(b.cur, b.end, b.mark, layout));
    assert(p + size <= n.end);
    assert(owned_bytes(new, p, n.end));
    assert(new.owns(slice_of(p)));
    assert(p > 0) by {
        assert(slice_of(p) > 0);
    }
    lemma_add_cell(cells, new, p, size);
    let d = cells.insert(p, size);
    assert forall|a: int| #[trigger] d.dom().contains(a) implies a + d[a] <= n.cur || n.end <= a by {
        if a != p {
            assert(cells.dom().contains(a));
        }
    }
    match n.mark {
        Some(mk) => {
            assert forall|a: int| #[trigger] d.dom().contains(a) implies a + d[a] <= mk || mk
                <= a by {
                if a != p {
                    assert(cells.dom().contains(a));
                }
            }
            assert forall|x: int| mk <= x < n.end implies new.owns(#[trigger] slice_of(x)) by {
                if x < b.cur {
                    assert(old.owns(slice_of(x)));
                }
            }
        },
        None => {},
    }
}

/// After a refused growth nothing has changed but the memory's extent.
pub proof fn lemma_region_kept<M: Memory>(b: BumpModel, cells: Map<int, int>, o: &M, n: &M)
    requires
        region_ok(b, cells, o),
        still_owned(o, n),
    ensures
        region_ok(b, cells, n),
{
    assert forall|x: int| b.cur <= x < b.end implies n.owns(#[trigger] slice_of(x)) by {
        assert(o.owns(slice_of(x)));
    }
    match b.mark {
        Some(mk) => {
            assert forall|x: int| mk <= x < b.end implies n.owns(#[trigger] slice_of(x)) by {
                assert(o.owns(slice_of(x)));
            }
        },
        None => {},
    }
}

/// The cells that a reset leaves: those that do not lie between the mark and the pointer.
pub open spec fn kept_cells(cells: Map<int, int>, mark: int, cur: int) -> Map<int, int> {
    cells.restrict(Set::new(|a: int| cells.dom().contains(a) && !(mark <= a < cur)))
}

/// A reset leaves the region in order.
pub proof fn lemma_reset<M: Memory>(b: BumpModel, cells: Map<int, int>, m: &M)
    requires
        region_ok(b, cells, m),
        cells_ok(cells, m),
    ensures
        ({
            let mk = match b.mark {
                Some(mk) => mk,
                None => b.cur,
            };
            let d = kept_cells(cells, mk, b.cur);
            &&& cells_ok(d, m)
            &&& region_ok(BumpModel { cur: mk, mark: Some(mk), ..b }, d, m)
        }),
{
    let mk: int = match b.mark {
        Some(mk) => mk,
        None => b.cur,
    };
    let d = kept_cells(cells, mk, b.cur);
    assert forall|a: int| #[trigger] d.dom().contains(a) implies (a + d[a] <= mk || b.end <= a)
        && cells.dom().contains(a) && d[a] == cells[a] by {
        assert(cells.dom().contains(a));
    }
    assert forall|a: int, c: int| #[trigger]
        d.dom().contains(a) && #[trigger] d.dom().contains(c) && a < c implies a + d[a] <= c by {
        assert(cells.dom().contains(a) && cells.dom().contains(c));
    }
}

/// The list without its first node.
pub proof fn lemma_chain_pop(w: Map<int, u64>, head: int, l: Seq<int>)
    requires
        chain(w, head, l),
        l.len() > 0,
    ensures
        chain(w, w[head] as int, l.drop_first()),
{
    let t = l.drop_first();
    assert(w[l[0]] == link(l, 0));
    assert forall|i: int| 0 <= i < t.len() implies #[trigger] w[t[i]] == link(t, i) by {
        assert(t[i] == l[i + 1]);
        assert(w[l[i + 1]] == link(l, i + 1));
    }
}

/// The list with a node in front of it.
pub proof fn lemma_chain_push(w: Map<int, u64>, head: int, l: Seq<int>, a: int)
    requires
        chain(w, head, l),
        0 <= head <= u64::MAX,
        a > 0,
        !l.contains(a),
    ensures
        chain(w.insert(a, head as u64), a, seq![a] + l),
{
    let v = w.insert(a, head as u64);
    let t = seq![a] + l;
    assert forall|i: int| 0 <= i < t.len() implies #[trigger] v[t[i]] == link(t, i) by {
        if i > 0 {
            assert(t[i] == l[i - 1]);
            assert(l.contains(l[i - 1]));
            assert(w[l[i - 1]] == link(l, i - 1));
        }
    }
}

/// A list that does not pass through `a` does not change with the word there.
pub proof fn lemma_chain_other(w: Map<int, u64>, v: Map<int, u64>, head: int, l: Seq<int>)
    requires
        chain(w, head, l),
        forall|i: int| 0 <= i < l.len() ==> v[#[trigger] l[i]] == w[l[i]],
    ensures
        chain(v, head, l),
{
    assert forall|i: int| 0 <= i < l.len() implies #[trigger] v[l[i]] == link(l, i) by {
        assert(w[l[i]] == link(l, i));
    }
}

} // verus!
