//! Floor for the fast path of a single size class: one list of free blocks of 32 bytes. Anything
//! larger falls through to the bump pointer and is leaked on free.
use vstd::prelude::*;

use super::bump::BumpModel;
use super::memory::still_owned;
use super::segregated::{
    class_for, floor_allocated, floor_freed, in_class, rewindable, rewound, still_owned_but,
    FloorModel, Segregated,
};
use crate::backend::{in_order, Memory};
use crate::layout::Layout;

verus! {

/// Bytes of a block.
pub const BLOCK: usize = 32;

/// One list of free blocks.
pub struct FreeList {
    lists: Segregated<1, 32>,
}

impl FreeList {
    pub closed spec fn view(&self) -> FloorModel {
        self.lists@
    }

    pub closed spec fn pointer(&self) -> BumpModel {
        self.lists.pointer()
    }

    pub closed spec fn wf<M: Memory>(&self, mem: &M) -> bool {
        self.lists.wf(mem)
    }

    /// Nothing carved yet.
    pub fn new<M: Memory>(mem: &M) -> (r: Self)
        requires
            in_order(mem),
        ensures
            r.wf(mem),
            r@.cells == Map::<int, int>::empty(),
            r@.live == Map::<int, Layout>::empty(),
            r@.free == seq![Seq::<int>::empty()],
            r.pointer() == (BumpModel { cur: 0, end: 0, mark: None }),
    {
        let r = FreeList { lists: Segregated::new(mem) };
        proof {
            assert(r@.free =~= seq![Seq::<int>::empty()]);
        }
        r
    }

    /// Allocate a block for `layout`: the last one freed, if it fits a block.
    pub fn allocate<M: Memory>(&mut self, mem: &mut M, layout: Layout) -> (r: Option<usize>)
        requires
            old(self).wf(old(mem)),
            layout.wf(),
            layout.size() > 0,
        ensures
            final(self).wf(final(mem)),
            still_owned(old(mem), final(mem)),
            floor_allocated(
                1,
                BLOCK as int,
                old(self)@,
                final(self)@,
                old(self).pointer(),
                final(self).pointer(),
                old(mem),
                final(mem),
                layout,
                r,
            ),
    {
        self.lists.allocate(mem, layout)
    }

    /// Free a block, which is leaked if it does not fit the list.
    pub fn dealloc<M: Memory>(&mut self, mem: &mut M, block: usize, layout: Layout)
        requires
            old(self).wf(old(mem)),
            old(self)@.live.dom().contains(block as int),
            old(self)@.live[block as int] == layout,
        ensures
            final(self).wf(final(mem)),
            final(self).pointer() == old(self).pointer(),
            final(mem).end() == old(mem).end(),
            still_owned_but(old(mem), final(mem), block as int),
            !in_class(1, BLOCK as int, layout) ==> *final(mem) == *old(mem),
            floor_freed(
                1,
                BLOCK as int,
                old(self)@,
                final(self)@,
                block as int,
                layout,
            ),
            ({
                let o = old(self)@;
                let c = class_for(BLOCK as int, layout);
                final(self)@ == (FloorModel {
                    live: o.live.remove(block as int),
                    free: if in_class(1, BLOCK as int, layout) {
                        o.free.update(c, seq![block as int] + o.free[c])
                    } else {
                        o.free
                    },
                    ..o
                })
            }),
    {
        self.lists.dealloc(mem, block, layout)
    }

    /// Forget the free blocks and rewind. Everything allocated since the last reset must be dead.
    pub fn reset<M: Memory>(&mut self, mem: &M)
        requires
            old(self).wf(mem),
            rewindable(old(self)@, old(self).pointer()),
        ensures
            final(self).wf(mem),
            rewound(old(self)@, final(self)@, old(self).pointer(), final(self).pointer()),
    {
        self.lists.reset(mem)
    }
}

} // verus!
