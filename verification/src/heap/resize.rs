//! Resizing a block in place, or by moving it.
use vstd::prelude::*;

use super::{huge_slices, lemma_more_free, lemma_queues_model, Heap};
use super::entry::{allocated, allocated_at, freed, same_but_words};
use super::placement::{grew, no_empty_page_but, run_found, slices_for};
use super::turns::{empties_released, slices_returned};
use crate::arith::{lemma_round_up, min, round_up};
use crate::backend::{only_more, slice_of, Memory};
use crate::bins::{
    bin_bytes, bin_kind, bin_size, kind_of_bin, lemma_bin_of, serving_class, Class, MAX_BIN,
    SLICE_SIZE,
};
use crate::layout::{valid_layout, Layout};
use crate::model::{
    block_end, block_ok, blocks_ok, contents_kept, held, holder_ok, holders_ok, is_run,
    lemma_blocks_disjoint, lemma_home_range, lemma_serving_bin, no_lost_block, no_lost_slice,
    page_kept, page_of, page_ok, pages_ok, run_slices, serving, HeapModel,
};
use crate::page::{free_list, header, page_bytes};
use crate::slices::{
    acquire_growth, acquire_refused, extend_growth, extend_refused, extend_with_growth,
    lemma_extension_since, lemma_growth_between, lemma_no_growth, with_fresh, Run, SliceModel,
};

verus! {

/// Whether a block of bin `old` keeps serving a request of `new_size` bytes that classifies as
/// bin `new`. Growing never fits: bins are tight, so a larger bin means the request exceeds the
/// block. Shrinking stays in place only within the page kind, because the next free recomputes
/// the kind from the new layout and masks the address with it, and only while the block stays at
/// least half used.
pub open spec fn in_place(old: int, new: int, new_size: int) -> bool {
    new == old || (new < old && bin_kind(new) == bin_kind(old) && new_size >= bin_bytes(old) / 2)
}

/// The in-place decision of [`Heap::realloc`] for binned blocks.
fn fits_in_place(old: u8, new: u8, new_size: usize) -> (r: bool)
    requires
        1 <= old <= MAX_BIN,
        1 <= new <= MAX_BIN,
    ensures
        r == in_place(old as int, new as int, new_size as int),
{
    new == old || (new < old && kind_of_bin(new) == kind_of_bin(old) && new_size >= bin_size(old)
        / 2)
}

/// The model with the block at `a` held under another layout, and with `extra` more slices after
/// its run in use by it.
pub open spec fn relaid(g: HeapModel, a: int, layout: Layout, extra: int) -> HeapModel {
    let tail = slice_of(a) + run_slices(g.blocks[a].size() as int);
    HeapModel {
        holder: if extra > 0 {
            g.holder.union_prefer_right(
                Map::new(|s: int| tail <= s < tail + extra, |s: int| a),
            )
        } else {
            g.holder
        },
        blocks: g.blocks.insert(a, layout),
        ..g
    }
}

impl<M: Memory, const WORDS: usize> Heap<M, WORDS> {
    /// A binned block may be held under another layout that it is large enough for and that
    /// leads to the same page.
    proof fn lemma_relaid_bin(before: &Self, after: &Self, a: int, layout: Layout)
        requires
            before.inv(0, 0),
            before.initialized,
            before.model@.blocks.dom().contains(a),
            serving(before.model@.blocks[a]) is Bin,
            serving(layout) is Bin,
            layout.wf(),
            layout.size() > 0,
            layout.align() == before.model@.blocks[a].align(),
            in_place(
                serving(before.model@.blocks[a])->0 as int,
                serving(layout)->0 as int,
                layout.size() as int,
            ),
            *after == (Heap { model: after.model, ..*before }),
            after.model@ == (HeapModel {
                blocks: before.model@.blocks.insert(a, layout),
                ..before.model@
            }),
        ensures
            after.inv(0, 0),
    {
        let w = before.mem.words();
        let g = before.model@;
        let k = after.model@;
        reveal(pages_ok);
        reveal(blocks_ok);
        reveal(holders_ok);
        assert(block_ok(w, g, a));
        lemma_serving_bin(g.blocks[a]);
        lemma_serving_bin(layout);
        let o: int = serving(g.blocks[a])->0 as int;
        let n: int = serving(layout)->0 as int;
        let p: int = page_of(bin_kind(o), a);
        let h = header(w, p);
        lemma_home_range(w, g, p);
        assert(h.block_size >= bin_bytes(n)) by {
            let padded: int = round_up(g.blocks[a].size() as int, g.blocks[a].align() as int);
            lemma_bin_of(padded);
            if h.bin < o {
                assert(bin_bytes(h.bin as int) < padded);
            } else if h.bin > o {
                crate::bins::lemma_bin_bytes_increasing(o, h.bin as int);
            }
            if n < o {
                crate::bins::lemma_bin_bytes_increasing(n, o);
            }
        }
        assert forall|q: int| #[trigger] k.pages.contains(q) implies page_ok(w, k, q) by {
            assert(page_ok(w, g, q));
            assert forall|s: int|
                slice_of(q) <= s < slice_of(q + page_bytes(header(w, q))) implies #[trigger] held(
                k,
                s,
                q,
            ) by {
                assert(held(g, s, q));
            }
        }
        lemma_queues_model(w, before.queues@, g, k, 0, 0);
        assert forall|b: int| #[trigger] k.blocks.dom().contains(b) implies block_ok(w, k, b) by {
            assert(g.blocks.dom().contains(b));
            assert(block_ok(w, g, b));
            if b != a && serving(g.blocks[b]) is Huge {
                assert forall|s: int|
                    slice_of(b) <= s < slice_of(b) + run_slices(
                        k.blocks[b].size() as int,
                    ) implies #[trigger] held(k, s, b) by {
                    assert(held(g, s, b));
                }
            }
        }
        assert(no_lost_block(w, k)) by {
            reveal(no_lost_block);
        }
        assert forall|s: int| #[trigger] k.holder.dom().contains(s) implies holder_ok(
            w,
            k,
            before.slices@,
            &after.mem,
            s,
        ) by {
            assert(holder_ok(w, g, before.slices@, &before.mem, s));
        }
        assert(no_lost_slice(k, before.slices@, &after.mem, 0, 0)) by {
            reveal(no_lost_slice);
        }
    }

    /// A run takes over the pending slices after it.
    proof fn lemma_run_extended(before: &Self, after: &Self, a: int, layout: Layout, extra: int)
        requires
            before.initialized,
            is_run(before.model@, a),
            before.inv_run(
                0,
                0,
                slice_of(a) + run_slices(before.model@.blocks[a].size() as int),
                extra,
            ),
            extra > 0,
            layout.wf(),
            layout.size() > 0,
            serving(layout) is Huge,
            run_slices(layout.size() as int) == run_slices(before.model@.blocks[a].size() as int)
                + extra,
            layout.align() == before.model@.blocks[a].align(),
            *after == (Heap { model: after.model, ..*before }),
            after.model@ == relaid(before.model@, a, layout, extra),
        ensures
            after.inv(0, 0),
    {
        let w = before.mem.words();
        let g = before.model@;
        let k = after.model@;
        let sm = before.slices@;
        let n: int = run_slices(g.blocks[a].size() as int);
        let tail: int = slice_of(a) + n;
        reveal(pages_ok);
        reveal(blocks_ok);
        reveal(holders_ok);
        before.slices.lemma_wf_facts();
        assert(block_ok(w, g, a));
        assert forall|s: int| #[trigger] g.holder.dom().contains(s) implies !(tail <= s < tail
            + extra) && k.holder.dom().contains(s) && k.holder[s] == g.holder[s] by {
            if tail <= s < tail + extra {
                assert(before.mem.owns(s));
            }
        }
        assert forall|q: int| #[trigger] k.pages.contains(q) implies page_ok(w, k, q) by {
            assert(page_ok(w, g, q));
            assert forall|s: int|
                slice_of(q) <= s < slice_of(q + page_bytes(header(w, q))) implies #[trigger] held(
                k,
                s,
                q,
            ) by {
                assert(held(g, s, q));
            }
        }
        lemma_queues_model(w, before.queues@, g, k, 0, 0);
        assert forall|b: int| #[trigger] k.blocks.dom().contains(b) implies block_ok(w, k, b) by {
            assert(g.blocks.dom().contains(b));
            assert(block_ok(w, g, b));
            if serving(g.blocks[b]) is Huge {
                assert forall|s: int|
                    slice_of(b) <= s < slice_of(b) + run_slices(
                        k.blocks[b].size() as int,
                    ) implies #[trigger] held(k, s, b) by {
                    if b != a || s < tail {
                        assert(held(g, s, b));
                    }
                }
            }
        }
        assert(no_lost_block(w, k)) by {
            reveal(no_lost_block);
        }
        assert forall|s: int| #[trigger] k.holder.dom().contains(s) implies holder_ok(
            w,
            k,
            sm,
            &after.mem,
            s,
        ) by {
            if tail <= s < tail + extra {
                assert(before.mem.owns(s));
            } else {
                assert(g.holder.dom().contains(s));
                assert(holder_ok(w, g, sm, &before.mem, s));
            }
        }
        assert(no_lost_slice(k, sm, &after.mem, 0, 0)) by {
            reveal(no_lost_slice);
        }
    }
}

/// Memory `mid` is memory `old` some time later.
pub open spec fn later<M: Memory>(old: &M, mid: &M) -> bool {
    &&& mid.end() >= old.end()
    &&& only_more(old.growths(), mid.growths())
    &&& forall|s: int| s < old.end() ==> #[trigger] mid.owns(s) == old.owns(s)
}

/// The first `bytes` bytes of the block at `a` in `w` are those of the block at `b` in `v`.
pub open spec fn copied(w: Map<int, u64>, v: Map<int, u64>, a: int, b: int, bytes: int) -> bool {
    forall|k: int| 0 <= k < bytes && k % 8 == 0 ==> #[trigger] v[b + k] == w[a + k]
}

/// Whether and how a block can be resized where it is without growing memory or releasing pages:
/// a binned block by the in-place decision, a run that gives slices back or takes over free slices
/// after it.
pub open spec fn resizes_in_place(m: SliceModel, a: int, old: Layout, new: Layout) -> bool {
    match (serving(old), serving(new)) {
        (Class::Bin(o), Class::Bin(n)) => in_place(o as int, n as int, new.size() as int),
        (Class::Huge, Class::Huge) => {
            let have = run_slices(old.size() as int);
            let want = run_slices(new.size() as int);
            want <= have || (slice_of(a) + want <= m.limit && m.run_free(
                slice_of(a) + have,
                want - have,
            ))
        },
        _ => false,
    }
}

/// The free slices after resizing the block in place.
pub open spec fn resized_slices(m: SliceModel, a: int, old: Layout, new: Layout) -> SliceModel {
    let have = run_slices(old.size() as int);
    let want = run_slices(new.size() as int);
    if serving(old) is Bin || want == have {
        m
    } else if want < have {
        m.given(slice_of(a) + want, have - want, false)
    } else {
        m.taken(slice_of(a) + have, want - have)
    }
}

/// Where the block that a moved one goes to comes from: it is allocated as any other, except that
/// a run goes to the bottom of the free slices at the end of memory.
pub open spec fn made_for_move<M: Memory, const WORDS: usize>(
    o: &Heap<M, WORDS>,
    n: &Heap<M, WORDS>,
    layout: Layout,
    r: Option<usize>,
) -> bool {
    &&& allocated(o, n, layout, false, r)
    &&& match serving(layout) {
        Class::Bin(_) => allocated_at(o, n, layout, r),
        Class::Huge => {
            &&& n.slow_calls() == o.slow_calls()
            &&& exists|mid: Heap<M, WORDS>| #[trigger] run_found(o, &mid, n, layout, true, r)
        },
    }
}

/// The block at `a` moves to `b`: a block is allocated, which leaves the heap as `fresh`, what both
/// hold is copied, which leaves it as `filled`, and the old block is freed.
pub open spec fn moved<M: Memory, const WORDS: usize>(
    o: &Heap<M, WORDS>,
    fresh: &Heap<M, WORDS>,
    filled: &Heap<M, WORDS>,
    n: &Heap<M, WORDS>,
    a: int,
    layout: Layout,
    b: usize,
) -> bool {
    let bytes = min(o.blocks()[a].size() as int, layout.size() as int);
    &&& made_for_move(o, fresh, layout, Some(b))
    &&& same_but_words(fresh, filled)
    &&& copied(fresh.words(), filled.words(), a, b as int, bytes)
    &&& forall|x: int|
        !(b <= x < b + bytes) ==> #[trigger] filled.words()[x] == fresh.words()[x]
    &&& freed(filled, n, a)
}

/// The block at `a` moves, unless no block can be had for it.
pub open spec fn moved_if_possible<M: Memory, const WORDS: usize>(
    o: &Heap<M, WORDS>,
    n: &Heap<M, WORDS>,
    a: int,
    layout: Layout,
    r: Option<usize>,
) -> bool {
    match r {
        Some(b) => exists|fresh: Heap<M, WORDS>, filled: Heap<M, WORDS>| #[trigger]
            moved(o, &fresh, &filled, n, a, layout, b),
        None => made_for_move(o, n, layout, None),
    }
}

/// How the run at `a` is extended where it is to hold `layout`. Every empty page is released, which
/// leaves the heap as `rel`, and memory grows if the run is at the top of the heap. The run then
/// takes over the slices after it if, and only if, they are free below the end of the map.
pub open spec fn extension_tried<M: Memory, const WORDS: usize>(
    o: &Heap<M, WORDS>,
    rel: &Heap<M, WORDS>,
    n: &Heap<M, WORDS>,
    a: int,
    layout: Layout,
    done: bool,
) -> bool {
    let have = run_slices(o.blocks()[a].size() as int);
    let tail = slice_of(a) + have;
    let extra = run_slices(layout.size() as int) - have;
    let old = &o.memory_view();
    let new = &n.memory_view();
    let m = rel.slice_view();
    let grown = with_fresh(m, old, new);
    &&& empties_released(o, rel)
    &&& slices_returned(o, rel)
    &&& m.base == o.slice_view().base
    &&& m.limit == o.slice_view().limit
    &&& later(old, new)
    &&& extend_growth(m, old, new, tail, extra, o.spec_policy())
    &&& done == (tail + extra <= grown.limit && grown.run_free(tail, extra))
    &&& !done ==> extend_refused(m, old, new, tail, extra)
    &&& n.slice_view() == if done {
        grown.taken(tail, extra)
    } else {
        grown
    }
    &&& n@.qs == rel@.qs
    &&& n@.pages == rel@.pages
    &&& n.retired() == rel.retired()
    &&& forall|p: int| #[trigger] rel@.pages.contains(p) ==> page_kept(rel.words(), n.words(), p)
    &&& n.slow_calls() == o.slow_calls()
    &&& n.spec_policy() == o.spec_policy()
    &&& n.is_initialized()
    &&& contents_kept(o.words(), n.words(), o@, 0)
}

/// What becomes of a run at `a` that needs more slices than are free after it: it is extended where
/// it is or, if that cannot be done, which leaves the heap as `mid`, it moves.
pub open spec fn run_grown<M: Memory, const WORDS: usize>(
    o: &Heap<M, WORDS>,
    rel: &Heap<M, WORDS>,
    mid: &Heap<M, WORDS>,
    n: &Heap<M, WORDS>,
    a: int,
    layout: Layout,
    r: Option<usize>,
) -> bool {
    if r == Some(a as usize) {
        extension_tried(o, rel, n, a, layout, true)
    } else {
        &&& extension_tried(o, rel, mid, a, layout, false)
        &&& mid.blocks() == o.blocks()
        &&& moved_if_possible(mid, n, a, layout, r)
    }
}

/// What resizing the block at `a` to `layout` does. The block that comes back, at `a` or at an
/// address where no block was live, is live under the new layout, begins with the bytes of the
/// old one, and every other block keeps its words. It stays in place whenever it can without
/// growing memory or releasing pages. A run then tries to grow where it is; a binned block, or one
/// that becomes binned or ceases to be, moves. On failure everything is as it was.
pub open spec fn resized<M: Memory, const WORDS: usize>(
    o: &Heap<M, WORDS>,
    n: &Heap<M, WORDS>,
    a: int,
    layout: Layout,
    r: Option<usize>,
) -> bool {
    let old = o.blocks()[a];
    &&& replaced(o, n, a, layout, r)
    &&& !resizes_in_place(o.slice_view(), a, old, layout) ==> if serving(old) is Huge && serving(
        layout,
    ) is Huge {
        exists|rel: Heap<M, WORDS>, mid: Heap<M, WORDS>| #[trigger]
            run_grown(o, &rel, &mid, n, a, layout, r)
    } else {
        moved_if_possible(o, n, a, layout, r)
    }
}

/// What resizing the block at `a` to `layout` does, but for how a block moves or a run is extended.
/// Memory grows only after every empty page has been released, so that only the page that a moved
/// block leaves may be empty then. Failure means that nothing fits in the free slices and memory
/// cannot grow by what is needed.
pub open spec fn replaced<M: Memory, const WORDS: usize>(
    o: &Heap<M, WORDS>,
    n: &Heap<M, WORDS>,
    a: int,
    layout: Layout,
    r: Option<usize>,
) -> bool {
    let old = o.blocks()[a];
    let (count, align) = slices_for(layout);
    &&& n.spec_policy() == o.spec_policy()
    &&& n.is_initialized()
    &&& resizes_in_place(o.slice_view(), a, old, layout) ==> {
        &&& r is Some && r->0 == a
        &&& n.memory_view() == o.memory_view()
        &&& n.slice_view() == resized_slices(o.slice_view(), a, old, layout)
        &&& n@.pages == o@.pages
        &&& n@.qs == o@.qs
        &&& n.retired() == o.retired()
        &&& n.slow_calls() == o.slow_calls()
    }
    &&& serving(old) is Bin ==> acquire_growth(
        o.slice_view(),
        &o.memory_view(),
        &n.memory_view(),
        count,
        align,
        o.spec_policy(),
    )
    &&& grew(&o.memory_view(), &n.memory_view()) ==> {
        &&& serving(old) is Bin ==> !o.slice_view().has_fit(count, align)
        &&& no_empty_page_but(
            n.words(),
            n@,
            match serving(old) {
                Class::Bin(b) => page_of(bin_kind(b as int), a),
                Class::Huge => 0,
            },
        )
    }
    &&& match r {
        Some(b) => {
            &&& n.blocks() == o.blocks().remove(a).insert(b as int, layout)
            &&& b == a || !o.blocks().dom().contains(b as int)
            &&& b == a ==> resizes_in_place(o.slice_view(), a, old, layout) || (
            serving(old) is Huge && serving(layout) is Huge)
            &&& contents_kept(o.words(), n.words(), o@, a)
            &&& copied(
                o.words(),
                n.words(),
                a,
                b as int,
                min(old.size() as int, layout.size() as int),
            )
        },
        None => {
            &&& n.blocks() == o.blocks()
            &&& contents_kept(o.words(), n.words(), o@, 0)
            &&& !o.slice_view().has_fit(count, align)
            &&& !n.slice_view().has_fit(count, align)
            &&& exists|mid: M|
                later(&o.memory_view(), &mid) && #[trigger] acquire_refused(
                    n.slice_view().usable_limit(),
                    &mid,
                    &n.memory_view(),
                    count,
                    align,
                )
        },
    }
}

impl<M: Memory, const WORDS: usize> Heap<M, WORDS> {
    /// Resize the block at `addr`, which must be live under `layout`. Returns the (possibly
    /// moved) block, or `None` if memory cannot be grown, in which case the old block is
    /// untouched.
    pub fn realloc(&mut self, addr: usize, layout: Layout, new_size: usize) -> (r: Option<usize>)
        requires
            old(self).wf(),
            old(self).blocks().dom().contains(addr as int),
            old(self).blocks()[addr as int] == layout,
            new_size > 0,
            valid_layout(new_size as int, layout.align() as int),
        ensures
            final(self).wf(),
            resized(old(self), final(self), addr as int, Layout::of(new_size, layout.align()), r),
    {
        let ghost a: int = addr as int;
        proof {
            self.lemma_live(a);
        }
        let new_layout = match Layout::from_size_align(new_size, layout.align()) {
            Ok(l) => l,
            Err(_) => {
                return None;
            },
        };
        proof {
            if serving(layout) is Bin {
                lemma_serving_bin(layout);
            }
            if serving(new_layout) is Bin {
                lemma_serving_bin(new_layout);
            }
        }
        match (serving_class(layout), serving_class(new_layout)) {
            (Class::Bin(o), Class::Bin(n)) => {
                if fits_in_place(o, n, new_size) {
                    self.model = Ghost(
                        HeapModel { blocks: self.model@.blocks.insert(a, new_layout), ..self.model@ },
                    );
                    proof {
                        Self::lemma_relaid_bin(old(self), self, a, new_layout);
                        let (count, align) = slices_for(new_layout);
                        lemma_no_growth(
                            self.slices@,
                            &self.mem,
                            &self.mem,
                            count,
                            align,
                            self.policy,
                        );
                        assert(self.blocks() =~= old(self).blocks().remove(a).insert(
                            a,
                            new_layout,
                        ));
                    }
                    Some(addr)
                } else {
                    self.move_block(addr, layout, new_layout)
                }
            },
            (Class::Huge, Class::Huge) => self.realloc_run(addr, layout, new_layout),
            _ => self.move_block(addr, layout, new_layout),
        }
    }

    /// Resize a run: in place when it does not grow in slices or grows into free slices, after
    /// the release of every empty page and through memory growth when it is at the top of the
    /// heap, and by moving it otherwise.
    fn realloc_run(&mut self, addr: usize, layout: Layout, new_layout: Layout) -> (r: Option<usize>)
        requires
            old(self).inv(0, 0),
            old(self).initialized,
            old(self).model@.blocks.dom().contains(addr as int),
            old(self).model@.blocks[addr as int] == layout,
            serving(layout) is Huge,
            serving(new_layout) is Huge,
            new_layout.wf(),
            new_layout.size() > 0,
            new_layout.align() == layout.align(),
        ensures
            final(self).inv(0, 0),
            resized(old(self), final(self), addr as int, new_layout, r),
    {
        let ghost a: int = addr as int;
        let ghost g = self.model@;
        let start: usize = addr / SLICE_SIZE;
        proof {
            self.lemma_live(a);
        }
        let old_n: usize = huge_slices(&layout);
        let new_n: usize = huge_slices(&new_layout);
        proof {
            self.lemma_run_slices(a, 0, old_n as int);
            assert(slice_of(a) == start);
        }
        if new_n <= old_n {
            if new_n < old_n {
                self.slices.shrink(start, old_n, new_n);
            }
            let ghost gone = Set::new(|s: int| start + new_n <= s < start + old_n);
            self.model = Ghost(
                HeapModel {
                    holder: g.holder.remove_keys(gone),
                    blocks: g.blocks.insert(a, new_layout),
                    ..g
                },
            );
            proof {
                assert(new_n == old_n ==> old(self).slices@ =~= old(self).slices@.given(
                    start + new_n,
                    0,
                    false,
                ));
                Self::lemma_run_trimmed(
                    old(self),
                    self,
                    a,
                    layout.size() as int,
                    new_n as int,
                    Some(new_layout),
                );
                assert(self.blocks() =~= old(self).blocks().remove(a).insert(a, new_layout));
            }
            return Some(addr);
        }
        let extra: usize = new_n - old_n;
        match self.slices.try_extend(start, old_n, extra) {
            Some(_) => {
                let ghost taken = *self;
                proof {
                    old(self).slices.lemma_wf_facts();
                    let tail = Run {
                        start: (start + old_n) as usize,
                        zeroed: old(self).slices@.run_zero(start + old_n, extra as int),
                    };
                    Self::lemma_taken(old(self), self, tail, extra as int);
                }
                self.model = Ghost(relaid(g, a, new_layout, extra as int));
                proof {
                    Self::lemma_run_extended(&taken, self, a, new_layout, extra as int);
                    assert(self.blocks() =~= old(self).blocks().remove(a).insert(a, new_layout));
                }
                return Some(addr);
            },
            None => {},
        }
        let ghost mid = *self;
        proof {
            assert(self.slices@ == old(self).slices@);
            assert(self.inv(0, 0));
        }
        // Every empty page goes before memory grows: one of them may be what is in the way.
        self.collect(true);
        let ghost before = *self;
        let ghost tail: int = start + old_n;
        let extended = extend_with_growth(
            &mut self.slices,
            &mut self.mem,
            start,
            old_n,
            extra,
            &self.policy,
        );
        let ghost taken = *self;
        proof {
            let grown = with_fresh(before.slices@, &before.mem, &self.mem);
            before.slices.lemma_wf_facts();
            Self::lemma_kept_grown_trans(old(self), &mid, &before);
            match extended {
                Some(_) => {
                    assert(grown.fits(tail, extra as int, 1));
                    Self::lemma_grown(&before, self, tail, extra as int);
                },
                None => {
                    assert(grown.taken(0, 0) =~= grown);
                    Self::lemma_grown(&before, self, 0, 0);
                },
            }
            Self::lemma_kept_grown_trans(old(self), &before, self);
            assert(no_empty_page_but(self.mem.words(), self.model@, 0));
        }
        if extended.is_some() {
            self.model = Ghost(relaid(self.model@, a, new_layout, extra as int));
            proof {
                Self::lemma_run_extended(&taken, self, a, new_layout, extra as int);
                assert(self.blocks() =~= old(self).blocks().remove(a).insert(a, new_layout));
                Self::lemma_words_kept(old(self), &taken, a, layout.size() as int);
                lemma_extension_since(
                    before.slices@,
                    &old(self).mem,
                    &before.mem,
                    &self.mem,
                    tail,
                    extra as int,
                    self.policy,
                );
                Self::lemma_extension_tried(old(self), &before, &taken, self, a, new_layout, true);
                assert(run_grown(
                    old(self),
                    &before,
                    &taken,
                    self,
                    a,
                    new_layout,
                    Some(addr),
                ));
            }
            return Some(addr);
        }
        let r = self.move_block(addr, layout, new_layout);
        proof {
            let (count, align) = slices_for(new_layout);
            lemma_more_free(old(self).slices@, taken.slices@, count, align);
            Self::lemma_resized_later(old(self), &taken, self, a, new_layout, r);
            lemma_extension_since(
                before.slices@,
                &old(self).mem,
                &before.mem,
                &taken.mem,
                tail,
                extra as int,
                self.policy,
            );
            Self::lemma_extension_tried(old(self), &before, &taken, &taken, a, new_layout, false);
            assert(run_grown(old(self), &before, &taken, self, a, new_layout, r));
        }
        r
    }
}

impl<M: Memory, const WORDS: usize> Heap<M, WORDS> {
    /// Contents that are kept are kept where they are.
    proof fn lemma_words_kept(o: &Self, n: &Self, a: int, size: int)
        requires
            o.inv(0, 0),
            o.model@.blocks.dom().contains(a),
            size == o.model@.blocks[a].size(),
            contents_kept(o.mem.words(), n.mem.words(), o.model@, 0),
        ensures
            contents_kept(o.mem.words(), n.mem.words(), o.model@, a),
            copied(o.mem.words(), n.mem.words(), a, a, size),
    {
        let w = o.mem.words();
        let v = n.mem.words();
        let g = o.model@;
        o.lemma_live(a);
        lemma_round_up(size, 8);
        assert forall|k: int| 0 <= k < size && k % 8 == 0 implies #[trigger] v[a + k] == w[a
            + k] by {
            assert(g.blocks.dom().contains(a));
        }
        assert forall|b: int, x: int|
            #![trigger g.blocks.dom().contains(b), v[x]]
            g.blocks.dom().contains(b) && b != a && b <= x < block_end(g, b) && x % 8
                == 0 implies v[x] == w[x] by {
            o.lemma_live(b);
        }
    }

    /// What an attempt to extend a run came to, from the pieces of it: `taken` is the heap before
    /// the run holds the slices it took.
    proof fn lemma_extension_tried(
        o: &Self,
        rel: &Self,
        taken: &Self,
        n: &Self,
        a: int,
        layout: Layout,
        done: bool,
    )
        requires
            empties_released(o, rel),
            slices_returned(o, rel),
            rel.kept_but_grown(o) || rel.kept(o),
            taken.kept_but_grown(o),
            taken.initialized,
            taken.retired() == rel.retired(),
            taken.model@.qs == rel.model@.qs,
            taken.model@.pages == rel.model@.pages,
            *n == (Heap { model: n.model, ..*taken }),
            n.model@.qs == taken.model@.qs,
            n.model@.pages == taken.model@.pages,
            forall|p: int| #[trigger]
                rel.model@.pages.contains(p) ==> header(taken.mem.words(), p) == header(
                    rel.mem.words(),
                    p,
                ) && free_list(taken.mem.words(), p) == free_list(rel.mem.words(), p),
            ({
                let have = run_slices(o.model@.blocks[a].size() as int);
                let tail = slice_of(a) + have;
                let extra = run_slices(layout.size() as int) - have;
                let grown = with_fresh(rel.slices@, &o.mem, &taken.mem);
                &&& extend_growth(rel.slices@, &o.mem, &taken.mem, tail, extra, o.policy)
                &&& done == (tail + extra <= grown.limit && grown.run_free(tail, extra))
                &&& !done ==> extend_refused(rel.slices@, &o.mem, &taken.mem, tail, extra)
                &&& taken.slices@ == if done {
                    grown.taken(tail, extra)
                } else {
                    grown
                }
            }),
        ensures
            extension_tried(o, rel, n, a, layout, done),
    {
        assert forall|p: int| #[trigger] rel@.pages.contains(p) implies page_kept(
            rel.words(),
            n.words(),
            p,
        ) by {
            assert(rel.model@.pages.contains(p));
        }
    }

    /// A block that could not be resized where it was is resized some time later.
    proof fn lemma_resized_later(
        o: &Self,
        mid: &Self,
        n: &Self,
        a: int,
        layout: Layout,
        r: Option<usize>,
    )
        requires
            o.inv(0, 0),
            mid.kept_but_grown(o),
            o.slices@.free.subset_of(mid.slices@.free),
            serving(o.model@.blocks[a]) is Huge,
            no_empty_page_but(n.mem.words(), n.model@, 0),
            replaced(mid, n, a, layout, r),
            serving(layout) is Huge,
            o.model@.blocks.dom().contains(a),
            !resizes_in_place(o.slices@, a, o.model@.blocks[a], layout),
            o.slices@.has_fit(slices_for(layout).0, slices_for(layout).1) ==> mid.slices@.has_fit(
                slices_for(layout).0,
                slices_for(layout).1,
            ),
        ensures
            replaced(o, n, a, layout, r),
    {
        let w = o.mem.words();
        let u = mid.mem.words();
        let v = n.mem.words();
        let g = o.model@;
        let size: int = g.blocks[a].size() as int;
        Self::lemma_words_kept(o, mid, a, size);
        let (count, align) = slices_for(layout);
        match r {
            Some(b) => {
                assert forall|c: int, x: int|
                    #![trigger g.blocks.dom().contains(c), v[x]]
                    g.blocks.dom().contains(c) && c != a && c <= x < block_end(g, c) && x % 8
                        == 0 implies v[x] == w[x] by {
                    assert(mid.model@.blocks.dom().contains(c));
                    assert(block_end(mid.model@, c) == block_end(g, c));
                    assert(u[x] == w[x]);
                }
                let bytes: int = min(size, layout.size() as int);
                assert forall|k: int| 0 <= k < bytes && k % 8 == 0 implies #[trigger] v[b + k]
                    == w[a + k] by {
                    assert(u[a + k] == w[a + k]);
                }
            },
            None => {
                assert forall|c: int, x: int|
                    #![trigger g.blocks.dom().contains(c), v[x]]
                    g.blocks.dom().contains(c) && c != 0 && c <= x < block_end(g, c) && x % 8
                        == 0 implies v[x] == w[x] by {
                    assert(mid.model@.blocks.dom().contains(c));
                    assert(block_end(mid.model@, c) == block_end(g, c));
                    assert(u[x] == w[x]);
                }
                let m: M = choose|m: M|
                    later(&mid.memory_view(), &m) && #[trigger] acquire_refused(
                        n.slice_view().usable_limit(),
                        &m,
                        &n.memory_view(),
                        count,
                        align,
                    );
                assert(later(&o.memory_view(), &m));
            },
        }
    }

    /// There is no page at address 0.
    proof fn lemma_no_page_at_zero(&self)
        requires
            self.inv(0, 0),
        ensures
            !self.model@.pages.contains(0),
    {
        if self.model@.pages.contains(0) {
            lemma_home_range(self.mem.words(), self.model@, 0);
        }
    }

    /// After a block has been allocated, filled and the old one freed, no page is empty but the
    /// one of the old block if none was empty before the old one was freed.
    proof fn lemma_moved_pages(
        fresh: &Self,
        filled: &Self,
        n: &Self,
        a: int,
        b: int,
        layout: Layout,
    )
        requires
            fresh.inv(0, 0),
            n.inv(0, 0),
            fresh.model@.blocks.dom().contains(b),
            same_but_words(fresh, filled),
            forall|x: int|
                !(b <= x < block_end(fresh.model@, b)) ==> #[trigger] filled.mem.words()[x]
                    == fresh.mem.words()[x],
            freed(filled, n, a),
            filled.model@.blocks[a] == layout,
        ensures
            ({
                let p = match serving(layout) {
                    Class::Bin(c) => page_of(bin_kind(c as int), a),
                    Class::Huge => 0,
                };
                no_empty_page_but(fresh.mem.words(), fresh.model@, 0) ==> no_empty_page_but(
                    n.mem.words(),
                    n.model@,
                    p,
                )
            }),
    {
        super::lemma_headers_kept(fresh.mem.words(), filled.mem.words(), fresh.model@, b);
        fresh.lemma_no_page_at_zero();
        let p: int = match serving(layout) {
            Class::Bin(c) => page_of(bin_kind(c as int), a),
            Class::Huge => 0,
        };
        if no_empty_page_but(fresh.mem.words(), fresh.model@, 0) {
            assert forall|q: int| #[trigger] n.model@.pages.contains(q) && q != p implies header(
                n.mem.words(),
                q,
            ).used > 0 by {
                assert(filled.model@.pages.contains(q));
                assert(fresh.model@.pages.contains(q));
            }
        }
    }

    /// Copy the first `bytes` bytes of one live block to another, word by word.
    #[verifier::spinoff_prover]
    #[verifier::rlimit(40)]
    fn copy_block(&mut self, from: usize, to: usize, bytes: usize)
        requires
            old(self).wf(),
            old(self).blocks().dom().contains(from as int),
            old(self).blocks().dom().contains(to as int),
            from != to,
            bytes <= old(self).blocks()[from as int].size(),
            bytes <= old(self).blocks()[to as int].size(),
        ensures
            final(self).wf(),
            same_but_words(old(self), final(self)),
            copied(old(self).words(), final(self).words(), from as int, to as int, bytes as int),
            forall|x: int|
                !(to <= x < to + bytes) ==> #[trigger] final(self).words()[x]
                    == old(self).words()[x],
    {
        let ghost g = self@;
        let ghost w = self.words();
        proof {
            self.lemma_live(from as int);
            self.lemma_live(to as int);
            lemma_round_up(g.blocks[to as int].size() as int, 8);
            lemma_round_up(g.blocks[from as int].size() as int, 8);
        }
        let mut off: usize = 0;
        while off < bytes
            invariant
                self.wf(),
                same_but_words(old(self), self),
                old(self).wf(),
                g == old(self)@,
                w == old(self).words(),
                g.blocks.dom().contains(from as int),
                g.blocks.dom().contains(to as int),
                from != to,
                from as int % 8 == 0,
                to as int % 8 == 0,
                from + g.blocks[from as int].size() <= block_end(g, from as int) <= usize::MAX,
                to + g.blocks[to as int].size() <= block_end(g, to as int) <= usize::MAX,
                bytes <= g.blocks[from as int].size(),
                bytes <= g.blocks[to as int].size(),
                off % 8 == 0,
                off < bytes + 8,
                forall|k: int| 0 <= k < off && k % 8 == 0 ==> #[trigger] self.words()[to + k] == w[from
                    + k],
                forall|x: int|
                    !(to <= x < to + bytes) ==> #[trigger] self.words()[x] == w[x],
            decreases bytes + 8 - off,
        {
            proof {
                old(self).lemma_parts();
                lemma_blocks_disjoint(w, g, from as int, to as int, from + off);
            }
            let ghost v = self.words();
            let value: u64 = self.load(from, off);
            self.store(to, off, value);
            proof {
                assert forall|k: int| 0 <= k < off + 8 && k % 8 == 0 implies #[trigger] self.words()[to
                    + k] == w[from + k] by {
                    if k == off {
                        assert(v[from + off] == w[from + off]);
                    } else {
                        assert(v[to + k] == w[from + k]);
                    }
                }
            }
            off = off + 8;
        }
    }

    proof fn lemma_parts(&self)
        requires
            self.wf(),
        ensures
            pages_ok(self.words(), self@),
            blocks_ok(self.words(), self@),
    {
    }

    /// Allocate a block for the new layout, copy what both hold, and free the old block.
    ///
    /// Every move into a run is a growth (a run only ever shrinks in place), that is, a buffer the
    /// program is growing, so the new run goes to the bottom of the free tail at the top of the
    /// heap, where the next growth extends it instead of copying it again.
    fn move_block(&mut self, addr: usize, layout: Layout, new_layout: Layout) -> (r: Option<usize>)
        requires
            old(self).inv(0, 0),
            old(self).initialized,
            old(self).model@.blocks.dom().contains(addr as int),
            old(self).model@.blocks[addr as int] == layout,
            new_layout.wf(),
            new_layout.size() > 0,
            !resizes_in_place(old(self).slices@, addr as int, layout, new_layout),
        ensures
            final(self).inv(0, 0),
            replaced(old(self), final(self), addr as int, new_layout, r),
            moved_if_possible(old(self), final(self), addr as int, new_layout, r),
            serving(new_layout) is Huge ==> later(&old(self).mem, &final(self).mem),
            r != Some(addr),
            serving(layout) is Huge && serving(new_layout) is Huge && no_empty_page_but(
                old(self).mem.words(),
                old(self).model@,
                0,
            ) ==> no_empty_page_but(final(self).mem.words(), final(self).model@, 0),
    {
        let ghost a: int = addr as int;
        let ghost g = self.model@;
        let ghost w = self.mem.words();
        let found = match serving_class(new_layout) {
            Class::Huge => self.alloc_huge(new_layout, false, true),
            Class::Bin(_) => self.allocate(new_layout),
        };
        assert(made_for_move(old(self), self, new_layout, found));
        let new: usize = match found {
            Some(b) => b,
            None => {
                proof {
                    let (count, align) = slices_for(new_layout);
                    assert(later(&old(self).memory_view(), &old(self).memory_view()));
                    assert(acquire_refused(
                        self.slice_view().usable_limit(),
                        &old(self).memory_view(),
                        &self.memory_view(),
                        count,
                        align,
                    ));
                    self.lemma_no_page_at_zero();
                }
                return None;
            },
        };
        let ghost fresh = *self;
        let size: usize = layout.size();
        let bytes: usize = if size < new_layout.size() {
            size
        } else {
            new_layout.size()
        };
        self.copy_block(addr, new, bytes);
        let ghost filled = *self;
        self.dealloc(addr, layout);
        proof {
            if grew(&old(self).mem, &self.mem) {
                let s: int = choose|s: int| #[trigger] self.mem.owns(s) && !old(self).mem.owns(s);
                assert(filled.mem.owns(s));
                assert(fresh.mem.owns(s));
                assert(grew(&old(self).mem, &fresh.mem));
            }
            Self::lemma_moved_pages(&fresh, &filled, self, a, new as int, layout);
            let (count, align) = slices_for(new_layout);
            lemma_growth_between(
                old(self).slices@,
                old(self).slices@,
                &old(self).mem,
                &old(self).mem,
                &fresh.mem,
                &self.mem,
                count,
                align,
                self.policy,
            );
            assert(moved(old(self), &fresh, &filled, self, a, new_layout, new));
            let b: int = new as int;
            let v = self.mem.words();
            let u = filled.mem.words();
            let t = fresh.mem.words();
            let k = fresh.model@;
            assert(self.blocks() =~= g.blocks.remove(a).insert(b, new_layout));
            Self::lemma_words_kept(old(self), &fresh, a, size as int);
            fresh.lemma_parts();
            fresh.lemma_live(b);
            lemma_round_up(new_layout.size() as int, 8);
            assert forall|c: int, x: int|
                #![trigger g.blocks.dom().contains(c), v[x]]
                g.blocks.dom().contains(c) && c != a && c <= x < block_end(g, c) && x % 8
                    == 0 implies v[x] == w[x] by {
                assert(k.blocks.dom().contains(c));
                assert(block_end(k, c) == block_end(g, c));
                lemma_blocks_disjoint(t, k, c, b, x);
                assert(filled.model@.blocks.dom().contains(c));
                assert(u[x] == t[x]);
                assert(v[x] == u[x]);
            }
            assert forall|i: int| 0 <= i < bytes && i % 8 == 0 implies #[trigger] v[b + i] == w[a
                + i] by {
                assert(t[a + i] == w[a + i]);
                assert(u[b + i] == t[a + i]);
                assert(filled.model@.blocks.dom().contains(b));
                assert(v[b + i] == u[b + i]);
            }
        }
        Some(new)
    }
}

} // verus!
