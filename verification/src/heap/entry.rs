//! The operations callers use.
use vstd::prelude::*;

use super::{
    block_is_zero, empty_model, fits_map, others_kept, page_freed, Heap, GENERIC_COLLECT_PERIOD,
};
use super::laws::law_small_frees_mask_to_small_pages;
use super::placement::{
    found_after_turns, found_by_search, grew, no_empty_page_but, placed, run_found, slices_for,
    started,
};
use super::search::has_room;
use super::turns::{empties_released, slices_returned, turns_taken};
use crate::arith::{lemma_round_up, round_up, round_up_pow2};
use crate::backend::{in_order, is_pristine, slice_of, Memory};
use crate::bins::{
    bin_kind, bin_of, direct_index, kind_of_bin, law_direct_slot_shares_a_bin, serving_class, Class,
    PageKind, DIRECT_MAX_SIZE, MAX_NATURAL_ALIGN, SMALL_MAX_OBJ_SIZE, WORD,
};
use crate::bytes::{byte_at, get_byte, put_byte};
use crate::layout::Layout;
use crate::model::{
    block_end, block_ok, blocks_ok, contents_kept, full_ok, holder_ok, holders_ok,
    lemma_block_words, lemma_queue, lemma_queue_member, lemma_serving_bin, no_lost_block, page_kept,
    page_of, pages_ok, queues_ok, run_slices, serving, PageQueue, QUEUE_COUNT,
};
use crate::page::{self, free_list, header, header_of, popped};
use crate::slices::{
    acquire_growth, acquire_refused, lemma_no_growth, same_extent, GrowPolicy, SliceMap,
};

verus! {

impl<M: Memory, const WORDS: usize> Heap<M, WORDS> {
    /// A heap over `mem`. Touches no memory until the first allocation.
    pub fn new(mem: M) -> (r: Self)
        requires
            in_order(&mem),
            is_pristine(&mem),
            1 <= WORDS <= 1024,
            fits_map(&mem, WORDS as int),
        ensures
            r.wf(),
            r@ == empty_model(),
            r.memory_view() == mem,
            r.slice_view().free == Set::<int>::empty(),
            !r.is_initialized(),
            r.slow_calls() == 0,
            r.retired() == (QUEUE_COUNT as int, 0int),
            r.spec_policy() == (GrowPolicy { min_grow: 16, max_grow: 1024, step_divisor: 8 }),
    {
        let empty = PageQueue { first: 0, last: 0, count: 0 };
        let r = Heap {
            mem,
            slices: SliceMap::new(),
            policy: GrowPolicy::default(),
            direct: [0; 129],
            queues: [empty; 64],
            retired_min: QUEUE_COUNT,
            retired_max: 0,
            generic_count: 0,
            initialized: false,
            model: Ghost(empty_model()),
        };
        proof {
            let w = r.mem.words();
            let g = r.model@;
            reveal(pages_ok);
            reveal(queues_ok);
            reveal(full_ok);
            reveal(blocks_ok);
            reveal(no_lost_block);
            reveal(holders_ok);
            assert forall|i: int| 0 <= i < 129 implies #[trigger] r.direct@[i] == r.queues@[bin_of(
                8 * i,
            )].first by {
                crate::bins::lemma_bin_of(8 * i);
            }
        }
        r
    }

    /// Override the growth policy.
    pub fn set_grow_policy(&mut self, policy: GrowPolicy)
        requires
            old(self).wf(),
            policy.step_divisor > 0,
        ensures
            final(self).wf(),
            final(self).spec_policy() == policy,
            final(self)@ == old(self)@,
            final(self).memory_view() == old(self).memory_view(),
            final(self).slice_view() == old(self).slice_view(),
            final(self).is_initialized() == old(self).is_initialized(),
            final(self).slow_calls() == old(self).slow_calls(),
            final(self).retired() == old(self).retired(),
    {
        self.policy = policy;
    }

    /// The memory this heap allocates from.
    pub fn memory(&self) -> (r: &M)
        ensures
            *r == self.memory_view(),
    {
        &self.mem
    }

    /// Slices currently free in the map (not handed to any page or run).
    pub fn free_slices(&self) -> (r: usize)
        requires
            self.wf(),
        ensures
            self.slice_view().free.finite(),
            r == self.slice_view().free.len(),
    {
        self.slices.free_count()
    }
}

/// What a collection does: the retired pages get their turns or, if it is forced, every empty page
/// is released. Blocks and memory stay as they are, and the slices of the pages that go become free.
pub open spec fn collected<M: Memory, const WORDS: usize>(
    o: &Heap<M, WORDS>,
    n: &Heap<M, WORDS>,
    force: bool,
) -> bool {
    &&& n.blocks() == o.blocks()
    &&& contents_kept(o.words(), n.words(), o@, 0)
    &&& n.spec_policy() == o.spec_policy()
    &&& n.is_initialized() == o.is_initialized()
    &&& n.slow_calls() == o.slow_calls()
    &&& n.memory_view().end() == o.memory_view().end()
    &&& n.memory_view().growths() == o.memory_view().growths()
    &&& forall|s: int| #[trigger] n.memory_view().owns(s) == o.memory_view().owns(s)
    &&& o.slice_view().free.subset_of(n.slice_view().free)
    &&& slices_returned(o, n)
    &&& if force {
        empties_released(o, n) && no_empty_page_but(n.words(), n@, 0)
    } else {
        turns_taken(o, n)
    }
}

impl<M: Memory, const WORDS: usize> Heap<M, WORDS> {
    /// Give the retired pages a turn, releasing those whose countdown ends, or with `force`
    /// release every empty page. Before the first allocation there is nothing to do.
    pub fn collect_retired(&mut self, force: bool)
        requires
            old(self).wf(),
        ensures
            final(self).wf(),
            old(self).is_initialized() ==> collected(old(self), final(self), force),
            !old(self).is_initialized() ==> *final(self) == *old(self),
    {
        if self.initialized {
            self.collect(force)
        }
    }
}

/// Every page of the bin of `layout` that has a live block has no block left.
pub open spec fn no_room<M: Memory, const WORDS: usize>(h: &Heap<M, WORDS>, layout: Layout) -> bool {
    serving(layout) matches Class::Bin(b) ==> forall|p: int| #[trigger]
        h@.pages.contains(p) && header(h.words(), p).bin == b && header(h.words(), p).used > 0
            ==> !has_room(header(h.words(), p))
}

/// What an allocation does. It hands out a block that was not live, with the words of every other
/// block as they were; if asked to, it zeroes it. It fails only if no page that is in use for the
/// bin has room, nothing fits in the free slices, and memory cannot grow by what is needed. Memory
/// grows only under the same conditions, only after every empty page has been released, and by
/// what the policy wants or the request needs.
pub open spec fn allocated<M: Memory, const WORDS: usize>(
    o: &Heap<M, WORDS>,
    n: &Heap<M, WORDS>,
    layout: Layout,
    zero: bool,
    r: Option<usize>,
) -> bool {
    let (count, align) = slices_for(layout);
    &&& contents_kept(o.words(), n.words(), o@, 0)
    &&& n.spec_policy() == o.spec_policy()
    &&& n.is_initialized()
    &&& match r {
        Some(a) => {
            &&& n.blocks() == o.blocks().insert(a as int, layout)
            &&& !o.blocks().dom().contains(a as int)
            &&& zero ==> block_is_zero(n.words(), a as int, layout.size() as int)
        },
        None => {
            &&& n.blocks() == o.blocks()
            &&& !o.starting_slices().has_fit(count, align)
            &&& !n.slice_view().has_fit(count, align)
            &&& acquire_refused(
                n.slice_view().usable_limit(),
                &o.memory_view(),
                &n.memory_view(),
                count,
                align,
            )
            &&& no_room(o, layout)
        },
    }
    &&& acquire_growth(
        o.starting_slices(),
        &o.memory_view(),
        &n.memory_view(),
        count,
        align,
        o.spec_policy(),
    )
    &&& grew(&o.memory_view(), &n.memory_view()) ==> {
        &&& !o.starting_slices().has_fit(count, align)
        &&& no_room(o, layout)
        &&& no_empty_page_but(n.words(), n@, 0)
    }
}

/// A request of bin `b` is served by the direct table: its size is small enough and the first page
/// of the queue has a block at hand.
pub open spec fn served_directly<M: Memory, const WORDS: usize>(
    h: &Heap<M, WORDS>,
    layout: Layout,
    b: int,
) -> bool {
    let q = h@.qs[b];
    round_up(layout.size() as int, layout.align() as int) <= DIRECT_MAX_SIZE && q.len() > 0
        && free_list(h.words(), q[0]).len() > 0
}

/// Where an allocation puts its block. For sizes of the direct table it is the last block freed to
/// the first page of the bin's queue, if there is one; otherwise the queue is searched, after a
/// collection at every [`GENERIC_COLLECT_PERIOD`]th such search. A run goes to the lowest fit.
pub open spec fn allocated_at<M: Memory, const WORDS: usize>(
    o: &Heap<M, WORDS>,
    n: &Heap<M, WORDS>,
    layout: Layout,
    r: Option<usize>,
) -> bool {
    match serving(layout) {
        Class::Bin(b) => if served_directly(o, layout, b as int) {
            &&& r is Some
            &&& r->0 == free_list(o.words(), o@.qs[b as int][0])[0]
            &&& n@.qs == o@.qs
            &&& n@.pages == o@.pages
            &&& popped(o.words(), n.words(), o@.qs[b as int][0], r->0 as int)
            &&& forall|p: int| #[trigger]
                o@.pages.contains(p) && p != o@.qs[b as int][0] ==> page_kept(
                    o.words(),
                    n.words(),
                    p,
                )
            &&& n.slice_view() == o.slice_view()
            &&& n.retired() == o.retired()
            &&& same_extent(&o.memory_view(), &n.memory_view())
            &&& n.slow_calls() == o.slow_calls()
        } else if o.slow_calls() + 1 >= GENERIC_COLLECT_PERIOD {
            &&& n.slow_calls() == 0
            &&& exists|mid: Heap<M, WORDS>| #[trigger] found_after_turns(o, &mid, n, b as int, r)
        } else {
            &&& n.slow_calls() == o.slow_calls() + 1
            &&& found_by_search(o, n, b as int, r)
        },
        Class::Huge => {
            &&& n.slow_calls() == o.slow_calls()
            &&& o.starting_slices().has_fit(slices_for(layout).0, slices_for(layout).1) ==> r is Some
                && placed(o.starting_slices(), slice_of(r->0 as int), layout, false, 0)
            &&& exists|first: Heap<M, WORDS>, mid: Heap<M, WORDS>|
                started(o, &first) && #[trigger] run_found(&first, &mid, n, layout, false, r)
        },
    }
}

impl<M: Memory, const WORDS: usize> Heap<M, WORDS> {
    /// Allocate a block for `layout`, or `None` if memory cannot be grown.
    pub fn allocate(&mut self, layout: Layout) -> (r: Option<usize>)
        requires
            old(self).wf(),
            layout.wf(),
            layout.size() > 0,
        ensures
            final(self).wf(),
            allocated(old(self), final(self), layout, false, r),
            allocated_at(old(self), final(self), layout, r),
    {
        self.alloc_either(layout, false)
    }

    /// Allocate a zero-filled block for `layout`.
    pub fn alloc_zeroed(&mut self, layout: Layout) -> (r: Option<usize>)
        requires
            old(self).wf(),
            layout.wf(),
            layout.size() > 0,
        ensures
            final(self).wf(),
            allocated(old(self), final(self), layout, true, r),
            allocated_at(old(self), final(self), layout, r),
    {
        self.alloc_either(layout, true)
    }

    /// The direct table first, the slow path otherwise.
    fn alloc_either(&mut self, layout: Layout, zero: bool) -> (r: Option<usize>)
        requires
            old(self).wf(),
            layout.wf(),
            layout.size() > 0,
        ensures
            final(self).wf(),
            allocated(old(self), final(self), layout, zero, r),
            allocated_at(old(self), final(self), layout, r),
    {
        let mut size: usize = layout.size();
        let align: usize = layout.align();
        proof {
            crate::arith::lemma_pow2_positive(align as int);
            lemma_round_up(size as int, align as int);
        }
        if align > WORD {
            if align > MAX_NATURAL_ALIGN {
                return self.alloc_generic(layout, zero);
            }
            // The same rounding as in the classes: the bin of the rounded size is aligned.
            size = round_up_pow2(size, align);
        }
        if size <= DIRECT_MAX_SIZE {
            let i: usize = direct_index(size);
            let page: usize = self.direct[i];
            let ghost b: int = bin_of(size as int);
            proof {
                self.lemma_direct(layout, size as int, i as int);
            }
            if page != 0 {
                proof {
                    self.lemma_page_access(0, 0, page as int);
                }
                if page::has_free(page, &self.mem) {
                    let block = self.alloc_from(page, layout, zero);
                    proof {
                        let (count, align) = slices_for(layout);
                        lemma_no_growth(
                            old(self).slice_view(),
                            &old(self).memory_view(),
                            &self.memory_view(),
                            count,
                            align,
                            self.policy,
                        );
                    }
                    return Some(block);
                }
            }
        }
        self.alloc_generic(layout, zero)
    }

    /// The entry of the direct table for a request is the first page of its bin's queue.
    proof fn lemma_direct(&self, layout: Layout, size: int, i: int)
        requires
            self.inv(0, 0),
            layout.wf(),
            layout.size() > 0,
            layout.align() <= MAX_NATURAL_ALIGN,
            size == if layout.align() > WORD {
                round_up(layout.size() as int, layout.align() as int)
            } else {
                layout.size() as int
            },
            size <= DIRECT_MAX_SIZE,
            i == crate::arith::div_ceil(size, 8),
        ensures
            0 <= i < 129,
            round_up(layout.size() as int, layout.align() as int) <= DIRECT_MAX_SIZE,
            serving(layout) is Bin,
            ({
                let b = serving(layout)->0 as int;
                let q = self.model@.qs[b];
                &&& self.direct@[i] == if q.len() > 0 {
                    q[0]
                } else {
                    0
                }
                &&& q.len() > 0 ==> {
                    &&& self.initialized
                    &&& self.model@.pages.contains(q[0])
                    &&& q[0] > 0
                    &&& header(self.mem.words(), q[0]).bin == b
                    &&& !page::flagged_full(header(self.mem.words(), q[0]))
                }
            }),
    {
        let w = self.mem.words();
        let g = self.model@;
        let l: int = layout.size() as int;
        let a: int = layout.align() as int;
        crate::arith::lemma_pow2_positive(a);
        lemma_round_up(l, a);
        if a <= WORD {
            assert(vstd::arithmetic::power2::is_pow2(DIRECT_MAX_SIZE as int)) by {
                reveal_with_fuel(vstd::arithmetic::power2::is_pow2, 11);
            }
            crate::arith::lemma_pow2_divides(a, DIRECT_MAX_SIZE as int);
        }
        law_direct_slot_shares_a_bin(size);
        let b: int = bin_of(size);
        crate::bins::lemma_bin_of(size);
        if a <= 8 {
            crate::bins::lemma_small_align_keeps_bin(l, a);
            lemma_round_up(l, 8);
        }
        assert(self.direct@[i] == self.queues@[bin_of(8 * i)].first);
        lemma_serving_bin(layout);
        lemma_queue(w, self.queues@, g, 0, b);
        if g.qs[b].len() > 0 {
            lemma_queue_member(w, self.queues@, g, 0, b, 0);
        }
    }
}

/// What freeing the block at `a` does: the block is live no more, every other block keeps its
/// words, memory keeps its extent, and the block goes back to its page or, if it is a run, its
/// slices go back to the map.
pub open spec fn freed<M: Memory, const WORDS: usize>(
    o: &Heap<M, WORDS>,
    n: &Heap<M, WORDS>,
    a: int,
) -> bool {
    let layout = o.blocks()[a];
    &&& n.blocks() == o.blocks().remove(a)
    &&& contents_kept(o.words(), n.words(), o@, a)
    &&& n.spec_policy() == o.spec_policy()
    &&& n.is_initialized()
    &&& n.slow_calls() == o.slow_calls()
    &&& n.memory_view().end() == o.memory_view().end()
    &&& n.memory_view().growths() == o.memory_view().growths()
    &&& forall|s: int| #[trigger] n.memory_view().owns(s) == o.memory_view().owns(s)
    &&& match serving(layout) {
        Class::Bin(b) => {
            let p = page_of(bin_kind(b as int), a);
            page_freed(o, n, p, a) && others_kept(o, n, p)
        },
        Class::Huge => {
            &&& n.memory_view() == o.memory_view()
            &&& n.retired() == o.retired()
            &&& n@.pages == o@.pages
            &&& n@.qs == o@.qs
            &&& n.slice_view() == o.slice_view().given(
                slice_of(a),
                run_slices(layout.size() as int),
                false,
            )
        },
    }
}

impl<M: Memory, const WORDS: usize> Heap<M, WORDS> {
    /// Free the block at `addr`, which must be live under exactly `layout`.
    pub fn dealloc(&mut self, addr: usize, layout: Layout)
        requires
            old(self).wf(),
            old(self).blocks().dom().contains(addr as int),
            old(self).blocks()[addr as int] == layout,
        ensures
            final(self).wf(),
            freed(old(self), final(self), addr as int),
    {
        let mut size: usize = layout.size();
        let align: usize = layout.align();
        proof {
            self.lemma_live(addr as int);
            crate::arith::lemma_pow2_positive(align as int);
            lemma_round_up(size as int, align as int);
        }
        if align <= MAX_NATURAL_ALIGN {
            if align > WORD {
                // The same rounding as in the classes: the page kind is a function of the
                // rounded size, and every block of a small page masks to its header whatever
                // its alignment.
                size = round_up_pow2(size, align);
            }
            if size <= SMALL_MAX_OBJ_SIZE {
                proof {
                    law_small_frees_mask_to_small_pages(layout);
                }
                let page: usize = header_of(PageKind::Small, addr);
                self.push_block(page, addr);
                return;
            }
        }
        self.dealloc_generic(addr, layout)
    }

    fn dealloc_generic(&mut self, addr: usize, layout: Layout)
        requires
            old(self).inv(0, 0),
            old(self).initialized,
            old(self).model@.blocks.dom().contains(addr as int),
            old(self).model@.blocks[addr as int] == layout,
            layout.wf(),
            layout.size() > 0,
        ensures
            final(self).inv(0, 0),
            freed(old(self), final(self), addr as int),
    {
        match serving_class(layout) {
            Class::Huge => self.free_run(addr, layout),
            Class::Bin(bin) => {
                proof {
                    lemma_serving_bin(layout);
                }
                let kind = kind_of_bin(bin);
                let page: usize = header_of(kind, addr);
                self.push_block(page, addr);
            },
        }
    }

    /// A live block has a layout, and there is none before the first allocation.
    pub(super) proof fn lemma_live(&self, a: int)
        requires
            self.inv(0, 0),
            self.model@.blocks.dom().contains(a),
        ensures
            self.initialized,
            self.model@.blocks[a].wf(),
            self.model@.blocks[a].size() > 0,
            a > 0,
            a % 8 == 0,
            block_end(self.model@, a) <= usize::MAX,
    {
        reveal(blocks_ok);
        assert(block_ok(self.mem.words(), self.model@, a));
        self.lemma_block_extent(a);
    }

    /// A live block has a layout, is aligned to a word, and ends inside the address space.
    pub proof fn lemma_block_shape(&self, a: int)
        requires
            self.wf(),
            self.blocks().dom().contains(a),
        ensures
            a > 0,
            a % 8 == 0,
            self.blocks()[a].wf(),
            self.blocks()[a].size() > 0,
            block_end(self@, a) <= usize::MAX,
    {
        self.lemma_live(a);
    }

    /// The heap's memory is in order.
    pub proof fn lemma_memory_valid(&self)
        requires
            self.wf(),
        ensures
            in_order(&self.memory_view()),
    {
    }

    /// The word at `offset` bytes into the live block at `block`.
    pub fn load(&self, block: usize, offset: usize) -> (r: u64)
        requires
            self.wf(),
            self.blocks().dom().contains(block as int),
            offset < self.blocks()[block as int].size(),
            offset % 8 == 0,
        ensures
            r == self.words()[block + offset],
    {
        proof {
            self.lemma_live(block as int);
            self.lemma_word(block as int, block + offset);
        }
        self.mem.load(block + offset)
    }

    /// Replace the word at `offset` bytes into the live block at `block`. The word may reach
    /// beyond the size asked for: the bytes up to the next multiple of a word are the block's.
    pub fn store(&mut self, block: usize, offset: usize, value: u64)
        requires
            old(self).wf(),
            old(self).blocks().dom().contains(block as int),
            offset < old(self).blocks()[block as int].size(),
            offset % 8 == 0,
        ensures
            final(self).wf(),
            final(self).words() == old(self).words().insert(block + offset, value),
            same_but_words(old(self), final(self)),
    {
        proof {
            self.lemma_live(block as int);
            self.lemma_word(block as int, block + offset);
        }
        self.store_word(block + offset, value, Ghost(block as int));
    }

    /// The byte at `offset` into the live block at `block`.
    #[verifier::spinoff_prover]
    #[verifier::rlimit(30)]
    pub fn read_byte(&self, block: usize, offset: usize) -> (r: u8)
        requires
            self.wf(),
            self.blocks().dom().contains(block as int),
            offset < self.blocks()[block as int].size(),
        ensures
            r == byte_at(self.words(), block + offset),
    {
        let at: usize = offset % 8;
        proof {
            self.lemma_live(block as int);
        }
        let w: u64 = self.load(block, offset - at);
        proof {
            lemma_byte_place(block as int, offset as int);
        }
        get_byte(w, at as u64)
    }

    /// Replace the byte at `offset` into the live block at `block`.
    #[verifier::spinoff_prover]
    #[verifier::rlimit(30)]
    pub fn write_byte(&mut self, block: usize, offset: usize, value: u8)
        requires
            old(self).wf(),
            old(self).blocks().dom().contains(block as int),
            offset < old(self).blocks()[block as int].size(),
        ensures
            final(self).wf(),
            byte_at(final(self).words(), block + offset) == value,
            forall|x: int|
                x != block + offset ==> #[trigger] byte_at(final(self).words(), x) == byte_at(
                    old(self).words(),
                    x,
                ),
            same_but_words(old(self), final(self)),
    {
        let at: usize = offset % 8;
        proof {
            self.lemma_live(block as int);
        }
        let w: u64 = self.load(block, offset - at);
        let v: u64 = put_byte(w, at as u64, value);
        self.store(block, offset - at, v);
        proof {
            let base: int = block + offset - at;
            lemma_byte_place(block as int, offset as int);
            assert forall|x: int| x != block + offset implies #[trigger] byte_at(
                self.words(),
                x,
            ) == byte_at(old(self).words(), x) by {
                if x - x % 8 == base {
                    let j: u64 = (x % 8) as u64;
                    assert(j != at);
                    assert(crate::bytes::byte_of(v, j) == crate::bytes::byte_of(w, j));
                }
            }
        }
    }

    /// The words of a live block are the allocator's memory.
    proof fn lemma_word(&self, a: int, x: int)
        requires
            self.inv(0, 0),
            self.model@.blocks.dom().contains(a),
            a <= x < a + self.model@.blocks[a].size(),
            x % 8 == 0,
        ensures
            self.mem.owns(slice_of(x)),
            x < block_end(self.model@, a),
    {
        let w = self.mem.words();
        let g = self.model@;
        lemma_round_up(g.blocks[a].size() as int, 8);
        lemma_block_words(w, g, a, x);
        reveal(holders_ok);
        assert(g.holder.dom().contains(slice_of(x)));
        assert(holder_ok(w, g, self.slices@, &self.mem, slice_of(x)));
    }
}

/// The word and the place in it of a byte of a block, whose address is a multiple of a word.
proof fn lemma_byte_place(block: int, offset: int)
    requires
        block % 8 == 0,
    ensures
        (block + offset) % 8 == offset % 8,
{
}

/// Nothing but words of memory may differ.
pub open spec fn same_but_words<M: Memory, const WORDS: usize>(
    o: &Heap<M, WORDS>,
    n: &Heap<M, WORDS>,
) -> bool {
    &&& n@ == o@
    &&& n.slice_view() == o.slice_view()
    &&& n.spec_policy() == o.spec_policy()
    &&& n.is_initialized() == o.is_initialized()
    &&& n.slow_calls() == o.slow_calls()
    &&& n.retired() == o.retired()
    &&& n.memory_view().end() == o.memory_view().end()
    &&& n.memory_view().growths() == o.memory_view().growths()
    &&& n.memory_view().base_addr() == o.memory_view().base_addr()
    &&& forall|s: int| #[trigger] n.memory_view().owns(s) == o.memory_view().owns(s)
}

} // verus!
