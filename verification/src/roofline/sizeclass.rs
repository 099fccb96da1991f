//! Floor for segregated free lists where the size class is known at the free site: 64 classes of
//! 16-byte granularity covering 1 to 1024 bytes. A free gets the layout of the block, so the class
//! is computed from its size rather than looked up. Larger or over-aligned requests go to the bump
//! pointer and are leaked on free.
use vstd::prelude::*;

use super::bump::BumpModel;
use super::memory::still_owned;
use super::segregated::{
    class_for, floor_allocated, floor_freed, in_class, rewindable, rewound, still_owned_but,
    FloorModel, Segregated, GRANULE,
};
use crate::backend::{in_order, Memory};
use crate::layout::Layout;

verus! {

/// Largest request of a class.
pub const MAX_SMALL: usize = 1024;

/// Classes there are.
pub const NCLASS: usize = 64;

/// The class of a request of `size` bytes.
pub fn class_of(size: usize) -> (r: usize)
    requires
        size >= 1,
    ensures
        r == (size - 1) / 16,
        r * GRANULE < size <= (r + 1) * GRANULE,
{
    (size - 1) / GRANULE
}

/// Whether a request belongs to a class.
pub fn small(layout: &Layout) -> (r: bool)
    ensures
        r == in_class(NCLASS as int, GRANULE as int, *layout),
{
    layout.size() <= MAX_SMALL && layout.align() <= GRANULE
}

/// A list of free blocks for every class.
pub struct SizeClass {
    lists: Segregated<64, 16>,
}

impl SizeClass {
    pub closed spec fn view(&self) -> FloorModel {
        self.lists@
    }

    pub closed spec fn pointer(&self) -> BumpModel {
        self.lists.pointer()
    }

    pub closed spec fn wf<M: Memory>(&self, mem: &M) -> bool {
        self.lists.wf(mem)
    }

    /// Nothing carved yet.
    pub fn new<M: Memory>(mem: &M) -> (r: Self)
        requires
            in_order(mem),
        ensures
            r.wf(mem),
            r@.cells == Map::<int, int>::empty(),
            r@.live == Map::<int, Layout>::empty(),
            r@.free == Seq::new(NCLASS as nat, |c: int| Seq::<int>::empty()),
            r.pointer() == (BumpModel { cur: 0, end: 0, mark: None }),
    {
        let r = SizeClass { lists: Segregated::new(mem) };
        proof {
            assert(r@.free =~= Seq::new(NCLASS as nat, |c: int| Seq::<int>::empty()));
        }
        r
    }

    /// Allocate a block for `layout`: the last one freed to its class, if it belongs to one.
    pub fn allocate<M: Memory>(&mut self, mem: &mut M, layout: Layout) -> (r: Option<usize>)
        requires
            old(self).wf(old(mem)),
            layout.wf(),
            layout.size() > 0,
        ensures
            final(self).wf(final(mem)),
            still_owned(old(mem), final(mem)),
            floor_allocated(
                NCLASS as int,
                GRANULE as int,
                old(self)@,
                final(self)@,
                old(self).pointer(),
                final(self).pointer(),
                old(mem),
                final(mem),
                layout,
                r,
            ),
    {
        self.lists.allocate(mem, layout)
    }

    /// Free a block to its class, or leak it if it belongs to none.
    pub fn dealloc<M: Memory>(&mut self, mem: &mut M, block: usize, layout: Layout)
        requires
            old(self).wf(old(mem)),
            old(self)@.live.dom().contains(block as int),
            old(self)@.live[block as int] == layout,
        ensures
            final(self).wf(final(mem)),
            final(self).pointer() == old(self).pointer(),
            final(mem).end() == old(mem).end(),
            still_owned_but(old(mem), final(mem), block as int),
            !in_class(NCLASS as int, GRANULE as int, layout) ==> *final(mem) == *old(mem),
            floor_freed(
                NCLASS as int,
                GRANULE as int,
                old(self)@,
                final(self)@,
                block as int,
                layout,
            ),
            ({
                let o = old(self)@;
                let c = class_for(GRANULE as int, layout);
                final(self)@ == (FloorModel {
                    live: o.live.remove(block as int),
                    free: if in_class(NCLASS as int, GRANULE as int, layout) {
                        o.free.update(c, seq![block as int] + o.free[c])
                    } else {
                        o.free
                    },
                    ..o
                })
            }),
    {
        self.lists.dealloc(mem, block, layout)
    }

    /// Forget the free blocks and rewind. Everything allocated since the last reset must be dead.
    pub fn reset<M: Memory>(&mut self, mem: &M)
        requires
            old(self).wf(mem),
            rewindable(old(self)@, old(self).pointer()),
        ensures
            final(self).wf(mem),
            rewound(old(self)@, final(self)@, old(self).pointer(), final(self).pointer()),
    {
        self.lists.reset(mem)
    }
}

} // verus!
