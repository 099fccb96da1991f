//! Growing a linear memory, on its own and counted.
use vstd::prelude::*;

use super::workloads::{addr_sum, mix, TOUCH_STRIDE};
use crate::backend::{asked, in_order, slice_of, Growth, Memory};

verus! {

/// Bytes of a page of linear memory.
pub const WASM_PAGE: usize = 65536;

/// `n` is `o` after one request to grow, which brought `pages` zero-filled pages at `base` that end
/// inside the address space.
pub open spec fn fresh_region<M: Memory>(o: &M, n: &M, base: int, pages: int) -> bool {
    let first = slice_of(base);
    &&& base == first * WASM_PAGE
    &&& base + pages * WASM_PAGE <= usize::MAX
    &&& o.end() <= first
    &&& first + pages <= n.end()
    &&& n.growths() == o.growths().push(Growth { slices: pages, first: Some(first) })
    &&& forall|s: int| #[trigger] n.owns(s) <==> o.owns(s) || first <= s < first + pages
    &&& forall|a: int|
        #![trigger n.words()[a]]
        a % 8 == 0 ==> if first <= slice_of(a) < first + pages {
            n.words()[a] == 0
        } else {
            o.owns(slice_of(a)) ==> n.words()[a] == o.words()[a]
        }
}

/// Nothing was gained by the one request to grow: it was refused, or the pages that came end
/// beyond the address space.
pub open spec fn nothing_gained<M: Memory>(o: &M, n: &M, pages: int) -> bool {
    ||| {
        &&& n.growths() == o.growths().push(asked(pages, None))
        &&& n.words() == o.words()
        &&& forall|s: int| #[trigger] n.owns(s) == o.owns(s)
    }
    ||| exists|first: int| #[trigger] out_of_reach(o, n, first, pages)
}

/// Memory grew by `pages` pages from `first` on, which end beyond the address space.
pub open spec fn out_of_reach<M: Memory>(o: &M, n: &M, first: int, pages: int) -> bool {
    &&& n.growths() == o.growths().push(Growth { slices: pages, first: Some(first) })
    &&& (first + pages) * WASM_PAGE > usize::MAX
    &&& forall|s: int| #[trigger] n.owns(s) <==> o.owns(s) || first <= s < first + pages
}

/// What the allocator owned is still its own, with the same words.
pub open spec fn still_owned<M: Memory>(o: &M, n: &M) -> bool {
    &&& n.base_addr() == o.base_addr()
    &&& o.end() <= n.end()
    &&& forall|s: int| #[trigger] o.owns(s) ==> n.owns(s)
    &&& forall|a: int|
        #![trigger n.words()[a]]
        a % 8 == 0 && o.owns(slice_of(a)) ==> n.words()[a] == o.words()[a]
}

/// Grow by `pages` and return the address of the new region, or `None` if the memory refused.
pub fn grow_pages<M: Memory>(mem: &mut M, pages: usize) -> (r: Option<usize>)
    requires
        in_order(old(mem)),
    ensures
        in_order(final(mem)),
        still_owned(old(mem), final(mem)),
        match r {
            Some(base) => fresh_region(old(mem), final(mem), base as int, pages as int),
            None => nothing_gained(old(mem), final(mem), pages as int),
        },
{
    match mem.grow(pages) {
        None => None,
        Some(first) => {
            if first > usize::MAX / WASM_PAGE || pages > usize::MAX / WASM_PAGE - first {
                assert(out_of_reach(old(mem), mem, first as int, pages as int));
                return None;
            }
            Some(first * WASM_PAGE)
        },
    }
}

/// Pages a growth workload asks for at a time.
pub const GROW_PAGES: usize = 16;

/// Slice `s` is one of the pages of a growth at `base`.
pub open spec fn in_region(base: int, s: int) -> bool {
    slice_of(base) <= s < slice_of(base) + GROW_PAGES
}

/// Slice `s` is one of the pages of the growths at these addresses.
pub open spec fn in_regions(ps: Seq<usize>, s: int) -> bool {
    exists|i: int| 0 <= i < ps.len() && in_region(#[trigger] ps[i] as int, s)
}

/// The requests to grow at these addresses.
pub open spec fn growth_log(ps: Seq<usize>) -> Seq<Growth> {
    Seq::new(
        ps.len(),
        |i: int| Growth { slices: GROW_PAGES as int, first: Some(slice_of(ps[i] as int)) },
    )
}

/// The pages of a growth at `base` lie in memory, beyond its old end.
pub open spec fn region_at<M: Memory>(o: &M, n: &M, base: int) -> bool {
    let first = slice_of(base);
    &&& base == first * WASM_PAGE
    &&& base + GROW_PAGES * WASM_PAGE <= usize::MAX
    &&& o.end() <= first
    &&& first + GROW_PAGES <= n.end()
}

/// The memory was asked to grow once at every one of these addresses and not otherwise, one growth
/// lies above the other, and what it owns beyond what it owned is their pages.
pub open spec fn grown_at<M: Memory>(o: &M, n: &M, ps: Seq<usize>) -> bool {
    &&& n.growths() == o.growths() + growth_log(ps)
    &&& forall|i: int| 0 <= i < ps.len() ==> region_at(o, n, #[trigger] ps[i] as int)
    &&& forall|i: int, j: int|
        0 <= i < j < ps.len() ==> slice_of(#[trigger] ps[i] as int) + GROW_PAGES <= slice_of(
            #[trigger] ps[j] as int,
        )
    &&& forall|s: int| #[trigger] n.owns(s) <==> o.owns(s) || in_regions(ps, s)
}

/// One growth more.
proof fn lemma_grown_at<M: Memory>(o: &M, m: &M, n: &M, ps: Seq<usize>, base: usize)
    requires
        grown_at(o, m, ps),
        o.end() <= m.end() <= n.end(),
        fresh_region(m, n, base as int, GROW_PAGES as int),
    ensures
        grown_at(o, n, ps.push(base)),
        forall|i: int| 0 <= i < ps.len() ==> slice_of(#[trigger] ps[i] as int) + GROW_PAGES
            <= slice_of(base as int),
{
    let qs = ps.push(base);
    assert(n.growths() =~= o.growths() + growth_log(qs));
    assert forall|i: int| 0 <= i < ps.len() implies slice_of(#[trigger] ps[i] as int) + GROW_PAGES
        <= slice_of(base as int) by {
        assert(region_at(o, m, ps[i] as int));
    }
    assert forall|i: int| 0 <= i < qs.len() implies region_at(o, n, #[trigger] qs[i] as int) by {
        if i < ps.len() {
            assert(qs[i] == ps[i]);
            assert(region_at(o, m, ps[i] as int));
        }
    }
    assert forall|i: int, j: int| 0 <= i < j < qs.len() implies slice_of(#[trigger] qs[i] as int)
        + GROW_PAGES <= slice_of(#[trigger] qs[j] as int) by {
        assert(qs[i] == ps[i]);
        if j < ps.len() {
            assert(qs[j] == ps[j]);
        }
    }
    assert forall|s: int| #[trigger] n.owns(s) <==> o.owns(s) || in_regions(qs, s) by {
        assert(m.owns(s) <==> o.owns(s) || in_regions(ps, s));
        if in_regions(ps, s) {
            let i: int = choose|i: int| 0 <= i < ps.len() && in_region(#[trigger] ps[i] as int, s);
            assert(in_region(qs[i] as int, s));
        }
        if in_region(base as int, s) {
            assert(in_region(qs[ps.len() as int] as int, s));
        }
        if in_regions(qs, s) {
            let i: int = choose|i: int| 0 <= i < qs.len() && in_region(#[trigger] qs[i] as int, s);
            if i < ps.len() {
                assert(in_region(ps[i] as int, s));
            }
        }
    }
}

/// The word at `a` of the pages of a growth at `base`, with `byte` in the words at the multiples of
/// [`TOUCH_STRIDE`] below `to`.
pub open spec fn touched_word(base: int, byte: u8, to: int, a: int) -> u64 {
    if (a - base) % TOUCH_STRIDE as int == 0 && a - base < to {
        byte as u64
    } else {
        0
    }
}

/// The pages of a growth at `base` hold nothing but what was touched.
pub open spec fn touched<M: Memory>(m: &M, base: int, byte: u8, to: int) -> bool {
    forall|a: int|
        #![trigger m.words()[a]]
        a % 8 == 0 && in_region(base, slice_of(a)) ==> m.words()[a] == touched_word(
            base,
            byte,
            to,
            a,
        )
}

/// The pages of all growths, of which the `i`th was touched with `i` up to `to` bytes.
pub open spec fn all_touched<M: Memory>(m: &M, ps: Seq<usize>, to: int) -> bool {
    forall|i: int| 0 <= i < ps.len() ==> touched(m, #[trigger] ps[i] as int, i as u8, to)
}

/// What happens elsewhere leaves the pages of the growths as they are.
proof fn lemma_touched_kept<M: Memory>(o: &M, m: &M, n: &M, ps: Seq<usize>, base: usize, to: int)
    requires
        all_touched(m, ps, to),
        grown_at(o, m, ps),
        forall|i: int| 0 <= i < ps.len() ==> slice_of(#[trigger] ps[i] as int) + GROW_PAGES
            <= slice_of(base as int),
        forall|a: int|
            #![trigger n.words()[a]]
            a % 8 == 0 && m.owns(slice_of(a)) && slice_of(a) < slice_of(base as int)
                ==> n.words()[a] == m.words()[a],
        touched(n, base as int, ps.len() as u8, to),
    ensures
        all_touched(n, ps.push(base), to),
{
    let qs = ps.push(base);
    assert forall|i: int| 0 <= i < qs.len() implies touched(
        n,
        #[trigger] qs[i] as int,
        i as u8,
        to,
    ) by {
        if i < ps.len() {
            assert(qs[i] == ps[i]);
            assert(touched(m, ps[i] as int, i as u8, to));
            assert forall|a: int|
                #![trigger n.words()[a]]
                a % 8 == 0 && in_region(qs[i] as int, slice_of(a)) implies n.words()[a]
                == touched_word(qs[i] as int, i as u8, to, a) by {
                assert(in_region(ps[i] as int, slice_of(a)));
                assert(in_regions(ps, slice_of(a)));
                assert(m.owns(slice_of(a)));
                assert(m.words()[a] == touched_word(qs[i] as int, i as u8, to, a));
            }
        }
    }
}

/// Growing came to an end after the growths at `ps`: the next one gained nothing.
pub open spec fn grown_until<M: Memory>(o: &M, mid: &M, n: &M, ps: Seq<usize>, to: int) -> bool {
    &&& grown_at(o, mid, ps)
    &&& all_touched(mid, ps, to)
    &&& nothing_gained(mid, n, GROW_PAGES as int)
}

/// Grow by [`GROW_PAGES`] without touching the new pages, to separate the cost of growing from
/// first-touch page faults.
pub fn memory_grow_only<M: Memory>(mem: &mut M, iters: usize) -> (r: Option<u32>)
    requires
        in_order(old(mem)),
    ensures
        in_order(final(mem)),
        still_owned(old(mem), final(mem)),
        r matches Some(sum) ==> exists|ps: Seq<usize>|
            {
                &&& ps.len() == iters
                &&& sum == #[trigger] addr_sum(ps)
                &&& grown_at(old(mem), final(mem), ps)
                &&& all_touched(final(mem), ps, 0)
            },
        r is None ==> exists|ps: Seq<usize>, mid: M|
            ps.len() < iters && #[trigger] grown_until(old(mem), &mid, final(mem), ps, 0),
{
    let ghost mut ps: Seq<usize> = Seq::empty();
    let mut sum: u32 = 0;
    let mut i: usize = 0;
    proof {
        assert(mem.growths() =~= old(mem).growths() + growth_log(ps));
    }
    while i < iters
        invariant
            i <= iters,
            in_order(mem),
            still_owned(old(mem), mem),
            ps.len() == i,
            sum == addr_sum(ps),
            grown_at(old(mem), mem, ps),
            all_touched(mem, ps, 0),
        decreases iters - i,
    {
        let ghost before = *mem;
        let base: usize = match grow_pages(mem, GROW_PAGES) {
            Some(base) => base,
            None => {
                assert(grown_until(old(mem), &before, mem, ps, 0));
                return None;
            },
        };
        sum = mix(sum, base);
        proof {
            lemma_grown_at(old(mem), &before, mem, ps, base);
            assert(touched(mem, base as int, ps.len() as u8, 0)) by {
                assert forall|a: int|
                    #![trigger mem.words()[a]]
                    a % 8 == 0 && in_region(base as int, slice_of(a)) implies mem.words()[a]
                    == touched_word(base as int, ps.len() as u8, 0, a) by {
                    lemma_at_or_above(base as int, a);
                }
            }
            lemma_touched_kept(old(mem), &before, mem, ps, base, 0);
            assert(ps.push(base).drop_last() =~= ps);
            ps = ps.push(base);
        }
        i = i + 1;
    }
    proof {
        assert(ps.len() == iters && sum == addr_sum(ps));
    }
    Some(sum)
}

/// An address in the pages of a growth is not below it.
proof fn lemma_at_or_above(base: int, a: int)
    requires
        base == slice_of(base) * WASM_PAGE,
        in_region(base, slice_of(a)),
    ensures
        base <= a < base + GROW_PAGES * WASM_PAGE,
{
}

/// Grow by [`GROW_PAGES`] and touch one byte per [`TOUCH_STRIDE`] of the new region. Memory is
/// never returned.
pub fn memory_grow_touch<M: Memory>(mem: &mut M, iters: usize) -> (r: Option<u32>)
    requires
        in_order(old(mem)),
    ensures
        in_order(final(mem)),
        still_owned(old(mem), final(mem)),
        r matches Some(sum) ==> exists|ps: Seq<usize>|
            {
                &&& ps.len() == iters
                &&& sum == #[trigger] addr_sum(ps)
                &&& grown_at(old(mem), final(mem), ps)
                &&& all_touched(final(mem), ps, GROW_PAGES * WASM_PAGE)
            },
        r is None ==> exists|ps: Seq<usize>, mid: M|
            ps.len() < iters && #[trigger] grown_until(
                old(mem),
                &mid,
                final(mem),
                ps,
                GROW_PAGES * WASM_PAGE,
            ),
{
    let ghost mut ps: Seq<usize> = Seq::empty();
    let mut sum: u32 = 0;
    let mut i: usize = 0;
    proof {
        assert(mem.growths() =~= old(mem).growths() + growth_log(ps));
    }
    while i < iters
        invariant
            i <= iters,
            in_order(mem),
            still_owned(old(mem), mem),
            ps.len() == i,
            sum == addr_sum(ps),
            grown_at(old(mem), mem, ps),
            all_touched(mem, ps, GROW_PAGES * WASM_PAGE),
        decreases iters - i,
    {
        let ghost before = *mem;
        let base: usize = match grow_pages(mem, GROW_PAGES) {
            Some(base) => base,
            None => {
                assert(grown_until(old(mem), &before, mem, ps, GROW_PAGES * WASM_PAGE));
                return None;
            },
        };
        let ghost grown = *mem;
        proof {
            lemma_grown_at(old(mem), &before, mem, ps, base);
            assert forall|s: int| in_region(base as int, s) implies #[trigger] mem.owns(s) by {}
        }
        touch_region(mem, base, i as u8);
        proof {
            assert forall|s: int| #[trigger] mem.owns(s) <==> old(mem).owns(s) || in_regions(
                ps.push(base),
                s,
            ) by {
                assert(grown.owns(s) <==> old(mem).owns(s) || in_regions(ps.push(base), s));
            }
            let qs = ps.push(base);
            assert forall|j: int| 0 <= j < qs.len() implies region_at(
                old(mem),
                mem,
                #[trigger] qs[j] as int,
            ) by {
                assert(region_at(old(mem), &grown, qs[j] as int));
            }
            assert(grown_at(old(mem), mem, qs));
            lemma_touched_kept(old(mem), &before, mem, ps, base, GROW_PAGES * WASM_PAGE);
            assert forall|a: int|
                #![trigger mem.words()[a]]
                a % 8 == 0 && old(mem).owns(slice_of(a)) implies mem.words()[a] == old(
                mem,
            ).words()[a] by {
                assert(before.owns(slice_of(a)));
                assert(grown.words()[a] == before.words()[a]);
            }
        }
        sum = mix(sum, base);
        proof {
            assert(ps.push(base).drop_last() =~= ps);
            ps = ps.push(base);
        }
        i = i + 1;
    }
    proof {
        assert(ps.len() == iters && sum == addr_sum(ps));
    }
    Some(sum)
}

/// Touch the fresh pages of a growth at `base`.
fn touch_region<M: Memory>(mem: &mut M, base: usize, byte: u8)
    requires
        in_order(old(mem)),
        base == slice_of(base as int) * WASM_PAGE,
        base + GROW_PAGES * WASM_PAGE <= usize::MAX,
        forall|s: int| in_region(base as int, s) ==> #[trigger] old(mem).owns(s),
        forall|a: int|
            #![trigger old(mem).words()[a]]
            a % 8 == 0 && in_region(base as int, slice_of(a)) ==> old(mem).words()[a] == 0,
    ensures
        in_order(final(mem)),
        final(mem).base_addr() == old(mem).base_addr(),
        final(mem).end() == old(mem).end(),
        final(mem).growths() == old(mem).growths(),
        forall|s: int| #[trigger] final(mem).owns(s) == old(mem).owns(s),
        forall|a: int|
            !in_region(base as int, slice_of(a)) ==> #[trigger] final(mem).words()[a] == old(
                mem,
            ).words()[a],
        touched(final(mem), base as int, byte, GROW_PAGES * WASM_PAGE),
{
    let bytes: usize = GROW_PAGES * WASM_PAGE;
    let mut off: usize = 0;
    proof {
        assert forall|a: int|
            #![trigger mem.words()[a]]
            a % 8 == 0 && in_region(base as int, slice_of(a)) implies mem.words()[a]
            == touched_word(base as int, byte, 0, a) by {
            lemma_at_or_above(base as int, a);
        }
    }
    while off < bytes
        invariant
            bytes == GROW_PAGES * WASM_PAGE,
            mem.growths() == old(mem).growths(),
            off <= bytes,
            off % TOUCH_STRIDE == 0,
            base == slice_of(base as int) * WASM_PAGE,
            base + GROW_PAGES * WASM_PAGE <= usize::MAX,
            in_order(mem),
            mem.base_addr() == old(mem).base_addr(),
            mem.end() == old(mem).end(),
            forall|s: int| #[trigger] mem.owns(s) == old(mem).owns(s),
            forall|s: int| in_region(base as int, s) ==> #[trigger] old(mem).owns(s),
            forall|a: int|
                !in_region(base as int, slice_of(a)) ==> #[trigger] mem.words()[a] == old(
                    mem,
                ).words()[a],
            touched(mem, base as int, byte, off as int),
        decreases bytes - off,
    {
        let ghost before = *mem;
        proof {
            assert(in_region(base as int, slice_of(base + off)));
            assert(old(mem).owns(slice_of(base + off)));
        }
        mem.store(base + off, byte as u64);
        proof {
            assert forall|a: int|
                #![trigger mem.words()[a]]
                a % 8 == 0 && in_region(base as int, slice_of(a)) implies mem.words()[a]
                == touched_word(base as int, byte, off + TOUCH_STRIDE, a) by {
                if a != base + off {
                    assert(before.words()[a] == touched_word(base as int, byte, off as int, a));
                    lemma_stride(a - base, off as int);
                }
            }
        }
        off = off + TOUCH_STRIDE;
    }
}

/// Between two multiples of the stride there is none.
proof fn lemma_stride(x: int, off: int)
    requires
        off % TOUCH_STRIDE as int == 0,
        x != off,
    ensures
        x % TOUCH_STRIDE as int == 0 ==> (x < off + TOUCH_STRIDE <==> x < off),
{
}

/// A memory that counts the calls to grow it, refused ones included.
pub struct CountingMemory<M: Memory> {
    inner: M,
    grows: usize,
}

impl<M: Memory> CountingMemory<M> {
    /// The memory underneath.
    pub closed spec fn inner(&self) -> M {
        self.inner
    }

    /// The calls counted.
    pub closed spec fn calls(&self) -> usize {
        self.grows
    }

    /// Nothing counted yet.
    pub fn new(inner: M) -> (r: Self)
        ensures
            r.inner() == inner,
            r.calls() == 0,
            in_order(&inner) ==> in_order(&r),
    {
        let r = CountingMemory { inner, grows: 0 };
        proof {
            assert forall|s: int| #[trigger] r.owns(s) implies inner.owns(s) by {}
        }
        r
    }

    /// Calls to grow the memory so far, refused ones included; starts over when the counter is
    /// exhausted.
    pub fn grow_calls(&self) -> (r: usize)
        ensures
            r == self.calls(),
    {
        self.grows
    }
}

impl<M: Memory> Memory for CountingMemory<M> {
    closed spec fn valid(&self) -> bool {
        self.inner.valid()
    }

    closed spec fn base_addr(&self) -> usize {
        self.inner.base_addr()
    }

    closed spec fn end(&self) -> usize {
        self.inner.end()
    }

    closed spec fn owns(&self, s: int) -> bool {
        self.inner.owns(s)
    }

    closed spec fn words(&self) -> Map<int, u64> {
        self.inner.words()
    }

    closed spec fn growths(&self) -> Seq<Growth> {
        self.inner.growths()
    }

    fn heap_base(&self) -> usize {
        self.inner.heap_base()
    }

    fn size_slices(&self) -> usize {
        self.inner.size_slices()
    }

    fn grow(&mut self, slices: usize) -> (r: Option<usize>)
        ensures
            final(self).calls() == old(self).calls().wrapping_add(1),
    {
        self.grows = self.grows.wrapping_add(1);
        self.inner.grow(slices)
    }

    fn load(&self, addr: usize) -> u64 {
        self.inner.load(addr)
    }

    fn store(&mut self, addr: usize, value: u64)
        ensures
            final(self).calls() == old(self).calls(),
    {
        self.inner.store(addr, value)
    }
}

} // verus!
