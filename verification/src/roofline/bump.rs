//! The absolute floor: a bump pointer over a region obtained by growing memory. Freeing does
//! nothing; resetting rewinds the pointer so that memory can be reused between repetitions once
//! everything allocated is dead.
//!
//! The region grows in large chunks so that growing is rare enough not to show up in the cost of
//! an operation.
use vstd::prelude::*;

use super::memory::{fresh_region, grow_pages, nothing_gained, still_owned, WASM_PAGE};
use crate::arith::{div_ceil, div_ceil_by, lemma_pow2_positive, lemma_round_up, max, round_up};
use crate::backend::{in_order, Memory};
use crate::layout::Layout;

verus! {

/// Memory grows by at least this much each time the region is exhausted.
pub const CHUNK: usize = 16_777_216;

/// A bump pointer.
pub struct Bump {
    cur: usize,
    end: usize,
    mark: usize,
    marked: bool,
}

/// A bump pointer in the abstract.
pub struct BumpModel {
    /// The next address to hand out.
    pub cur: int,
    /// The end of the region.
    pub end: int,
    /// Where a reset goes back to. It is set by the first reset, so that whatever was allocated
    /// before is never handed out again.
    pub mark: Option<int>,
}

/// Pages to grow by for a request that the region cannot hold.
pub open spec fn pages_for(layout: Layout) -> int {
    div_ceil(max(layout.size() + layout.align(), CHUNK as int), WASM_PAGE as int)
}

/// The bump pointer after it handed out a block for `layout` from `from` on, with the region
/// ending at `end`.
pub open spec fn bumped(from: int, end: int, mark: Option<int>, layout: Layout) -> BumpModel {
    BumpModel {
        cur: round_up(from, layout.align() as int) + layout.size(),
        end,
        mark,
    }
}

/// The region holds a block for `layout`.
pub open spec fn has_space(b: BumpModel, layout: Layout) -> bool {
    round_up(b.cur, layout.align() as int) + layout.size() <= b.end
}

/// The bump pointer after memory grew at `base`. If that is not where the region ended, because it
/// is the first or because someone else grew memory in between, the old region is abandoned.
/// Nothing allocated before the mark can live in the new region, so the mark moves with it.
pub open spec fn moved_to(b: BumpModel, base: int, pages: int) -> BumpModel {
    if base != b.end || b.end == 0 {
        BumpModel {
            cur: base,
            end: base + pages * WASM_PAGE,
            mark: if b.mark is Some {
                Some(base)
            } else {
                None
            },
        }
    } else {
        BumpModel { end: base + pages * WASM_PAGE, ..b }
    }
}

/// What an allocation does.
pub open spec fn bump_allocated<M: Memory>(
    o: BumpModel,
    n: BumpModel,
    old: &M,
    new: &M,
    layout: Layout,
    r: Option<usize>,
) -> bool {
    if has_space(o, layout) {
        &&& *new == *old
        &&& r == Some(round_up(o.cur, layout.align() as int) as usize)
        &&& n == bumped(o.cur, o.end, o.mark, layout)
    } else {
        let pages = pages_for(layout);
        match r {
            None => n == o && nothing_gained(old, new, pages),
            Some(p) => {
                let base = n.end - pages * WASM_PAGE;
                let b = moved_to(o, base, pages);
                &&& fresh_region(old, new, base, pages)
                &&& p == round_up(b.cur, layout.align() as int)
                &&& n == bumped(b.cur, b.end, b.mark, layout)
                &&& has_space(b, layout)
            },
        }
    }
}

/// What a reset does: the first sets the mark, and all go back to it.
pub open spec fn bump_rewound(o: BumpModel, n: BumpModel) -> bool {
    &&& n.end == o.end
    &&& n.mark == Some(n.cur)
    &&& n.cur == match o.mark {
        Some(m) => m,
        None => o.cur,
    }
}

impl Bump {
    pub closed spec fn view(&self) -> BumpModel {
        BumpModel {
            cur: self.cur as int,
            end: self.end as int,
            mark: if self.marked {
                Some(self.mark as int)
            } else {
                None
            },
        }
    }

    /// The pointer lies inside its region, and the mark below it.
    pub open spec fn wf(&self) -> bool {
        &&& 0 <= self@.cur <= self@.end <= usize::MAX
        &&& self@.mark matches Some(m) ==> 0 <= m <= self@.cur
    }

    /// No region yet.
    pub fn new() -> (r: Self)
        ensures
            r.wf(),
            r@ == (BumpModel { cur: 0, end: 0, mark: None }),
    {
        Bump { cur: 0, end: 0, mark: 0, marked: false }
    }

    /// Rewind to the mark, which the first reset sets.
    pub fn reset(&mut self)
        requires
            old(self).wf(),
        ensures
            final(self).wf(),
            bump_rewound(old(self)@, final(self)@),
            ({
                let m = match old(self)@.mark {
                    Some(m) => m,
                    None => old(self)@.cur,
                };
                final(self)@ == (BumpModel { cur: m, mark: Some(m), ..old(self)@ })
            }),
    {
        if !self.marked {
            self.mark = self.cur;
            self.marked = true;
        }
        self.cur = self.mark;
    }

    /// Hand out a block for `layout`, growing memory if the region cannot hold it.
    pub fn alloc_inline<M: Memory>(&mut self, mem: &mut M, layout: Layout) -> (r: Option<usize>)
        requires
            old(self).wf(),
            in_order(old(mem)),
            layout.wf(),
            layout.size() > 0,
        ensures
            final(self).wf(),
            in_order(final(mem)),
            still_owned(old(mem), final(mem)),
            bump_allocated(old(self)@, final(self)@, old(mem), final(mem), layout, r),
    {
        let size: usize = layout.size();
        proof {
            lemma_pow2_positive(layout.align() as int);
            lemma_round_up(self.cur as int, layout.align() as int);
        }
        match align_up(self.cur, layout.align()) {
            Some(aligned) => {
                if aligned <= self.end && size <= self.end - aligned {
                    self.cur = aligned + size;
                    return Some(aligned);
                }
            },
            None => {},
        }
        self.alloc_slow(mem, layout)
    }

    fn alloc_slow<M: Memory>(&mut self, mem: &mut M, layout: Layout) -> (r: Option<usize>)
        requires
            old(self).wf(),
            in_order(old(mem)),
            layout.wf(),
            layout.size() > 0,
            !has_space(old(self)@, layout),
        ensures
            final(self).wf(),
            in_order(final(mem)),
            still_owned(old(mem), final(mem)),
            bump_allocated(old(self)@, final(self)@, old(mem), final(mem), layout, r),
    {
        let size: usize = layout.size();
        let align: usize = layout.align();
        proof {
            lemma_pow2_positive(align as int);
        }
        let need: usize = size + align;
        let bytes: usize = if need > CHUNK {
            need
        } else {
            CHUNK
        };
        let pages: usize = div_ceil_by(bytes, WASM_PAGE);
        let base: usize = match grow_pages(mem, pages) {
            Some(base) => base,
            None => {
                return None;
            },
        };
        proof {
            assert(pages * WASM_PAGE >= bytes);
        }
        if base != self.end || self.end == 0 {
            self.cur = base;
            if self.marked {
                self.mark = base;
            }
        }
        self.end = base + pages * WASM_PAGE;
        let ghost from: int = self.cur as int;
        proof {
            lemma_round_up(from, align as int);
            assert(round_up(from, align as int) + size <= self.end);
        }
        match align_up(self.cur, align) {
            Some(aligned) => {
                self.cur = aligned + size;
                Some(aligned)
            },
            None => None,
        }
    }
}

/// The first multiple of `align` from `addr` on, if there is one.
fn align_up(addr: usize, align: usize) -> (r: Option<usize>)
    requires
        align > 0,
    ensures
        match r {
            Some(a) => a == round_up(addr as int, align as int),
            None => round_up(addr as int, align as int) > usize::MAX,
        },
{
    proof {
        lemma_round_up(addr as int, align as int);
    }
    let over: usize = addr % align;
    if over == 0 {
        Some(addr)
    } else {
        addr.checked_add(align - over)
    }
}

/// A block lies inside the region, aligned, above everything handed out from it before, and the
/// pointer moves past it.
pub proof fn law_blocks_are_handed_out_in_order<M: Memory>(
    o: BumpModel,
    n: BumpModel,
    old: &M,
    new: &M,
    layout: Layout,
    p: usize,
)
    requires
        layout.wf(),
        0 <= o.cur <= o.end <= usize::MAX,
        bump_allocated(o, n, old, new, layout, Some(p)),
    ensures
        p as int % layout.align() as int == 0,
        p + layout.size() == n.cur,
        n.cur <= n.end,
        has_space(o, layout) || n.end == o.end + pages_for(layout) * WASM_PAGE ==> o.cur <= p,
{
    lemma_pow2_positive(layout.align() as int);
    if has_space(o, layout) {
        lemma_round_up(o.cur, layout.align() as int);
    } else {
        let pages: int = pages_for(layout);
        let b = moved_to(o, n.end - pages * WASM_PAGE, pages);
        lemma_round_up(b.cur, layout.align() as int);
    }
}

} // verus!
