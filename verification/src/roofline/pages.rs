//! Floor for small blocks in 64 KiB pages that each hold a single size class: a free recovers the
//! class from the page header instead of trusting the layout. Allocation takes the block freed
//! last to the class, else the next block of the class's current page, else a fresh page from the
//! bump region. Larger or over-aligned requests go to the bump pointer and are leaked on free.
use vstd::prelude::*;

use super::bump::{bump_allocated, bump_rewound, Bump, BumpModel};
use super::cells::{
    cells_ok, clear_of, kept_cells, lemma_carved, lemma_cells_kept, lemma_chain_other,
    lemma_chain_pop, lemma_chain_push, lemma_region_kept, lemma_reset, owned_bytes, region_ok,
};
use super::memory::still_owned;
use super::paged::{
    block_of, is_slot, is_small, lemma_next_slot, lemma_page_layout, lemma_slot_aligned,
    lemma_slot_page, lemma_slot_serves, lemma_slots_apart, lemma_small, page_base, small_class,
    PAGE,
};
use super::segregated::{lemma_cells_owned, lemma_region_owned, rewind_to, still_owned_but, GRANULE};
use super::sizeclass::{class_of, small, NCLASS};
use crate::backend::{in_order, slice_of, Memory};
use crate::layout::Layout;
use crate::page::chain;

verus! {

/// Bytes at the start of each page for its header, which holds the class.
pub const HEADER: usize = 16;

/// What the floor stands for.
#[verifier::ext_equal]
pub struct PagesModel {
    /// What has been carved out of the bump region: pages and large blocks.
    pub cells: Map<int, int>,
    /// The class of every page.
    pub pages: Map<int, int>,
    /// The live blocks.
    pub live: Map<int, Layout>,
    /// The free blocks of every class, the last one freed first.
    pub free: Seq<Seq<int>>,
    /// For every class, the next block of its current page and the end of that page.
    pub cur: Seq<int>,
    pub end: Seq<int>,
}

/// Pages of blocks.
pub struct Pages {
    heads: [usize; 64],
    cur: [usize; 64],
    end: [usize; 64],
    bump: Bump,
    model: Ghost<PagesModel>,
}

/// The page at `p` is carved, and its header holds its class.
pub open spec fn page_ok(g: PagesModel, w: Map<int, u64>, p: int) -> bool {
    &&& g.cells.dom().contains(p)
    &&& g.cells[p] == PAGE
    &&& p % PAGE as int == 0
    &&& 0 <= g.pages[p] < NCLASS
    &&& w[p] == g.pages[p]
}

/// `a` is a block of class `c` that has been handed out before.
pub open spec fn block_ok(g: PagesModel, c: int, a: int) -> bool {
    let p = page_base(a);
    &&& g.pages.dom().contains(p)
    &&& g.pages[p] == c
    &&& is_slot(p, HEADER as int, c, a)
    &&& g.end[c] == p + PAGE ==> a < g.cur[c]
}

/// A live block: in a page of its class, or a cell of its own.
pub open spec fn live_ok(g: PagesModel, a: int) -> bool {
    let layout = g.live[a];
    &&& layout.wf()
    &&& layout.size() > 0
    &&& if is_small(layout) {
        block_ok(g, small_class(layout), a)
    } else {
        &&& g.cells.dom().contains(a)
        &&& g.cells[a] == layout.size()
        &&& !g.pages.dom().contains(a)
        &&& a % layout.align() as int == 0
    }
}

/// The current page of class `c`, if there is one, and what is left of it.
pub open spec fn current_ok(g: PagesModel, c: int) -> bool {
    let p = g.end[c] - PAGE;
    if g.end[c] == 0 {
        g.cur[c] == 0
    } else {
        &&& g.pages.dom().contains(p)
        &&& g.pages[p] == c
        &&& p + HEADER <= g.cur[c] <= g.end[c]
        &&& (g.cur[c] - p - HEADER) % block_of(c) == 0
    }
}

/// What an allocation of class `c` does when no block of the class is free.
pub open spec fn refilled<M: Memory>(
    o: PagesModel,
    k: PagesModel,
    b: BumpModel,
    d: BumpModel,
    old: &M,
    new: &M,
    c: int,
    layout: Layout,
    r: Option<usize>,
) -> bool {
    if o.cur[c] + block_of(c) <= o.end[c] {
        &&& r == Some(o.cur[c] as usize)
        &&& k == (PagesModel {
            live: o.live.insert(o.cur[c], layout),
            cur: o.cur.update(c, o.cur[c] + block_of(c)),
            ..o
        })
        &&& d == b
        &&& *new == *old
    } else {
        match r {
            None => k == o && still_owned(old, new) && bump_page(b, d, old, new, None),
            Some(a) => {
                let p = a - HEADER;
                &&& exists|mid: M| #[trigger] bump_page(b, d, old, &mid, Some(p as usize))
                    && still_owned(old, &mid) && still_owned_but(&mid, new, p) && new.end()
                    == mid.end()
                &&& k == (PagesModel {
                    cells: o.cells.insert(p, PAGE as int),
                    pages: o.pages.insert(p, c),
                    live: o.live.insert(a as int, layout),
                    cur: o.cur.update(c, a + block_of(c)),
                    end: o.end.update(c, p + PAGE),
                    ..o
                })
            },
        }
    }
}

/// The bump pointer was asked for a page.
pub open spec fn bump_page<M: Memory>(
    b: BumpModel,
    d: BumpModel,
    old: &M,
    new: &M,
    r: Option<usize>,
) -> bool {
    bump_allocated(b, d, old, new, Layout::of(PAGE, PAGE), r)
}

/// What an allocation does that belongs to no class.
pub open spec fn carved<M: Memory>(
    o: PagesModel,
    k: PagesModel,
    b: BumpModel,
    d: BumpModel,
    old: &M,
    new: &M,
    layout: Layout,
    r: Option<usize>,
) -> bool {
    &&& still_owned(old, new)
    &&& bump_allocated(b, d, old, new, layout, r)
    &&& match r {
        Some(a) => k == (PagesModel {
            cells: o.cells.insert(a as int, layout.size() as int),
            live: o.live.insert(a as int, layout),
            ..o
        }),
        None => k == o,
    }
}

/// What an allocation does.
pub open spec fn pages_allocated<M: Memory>(
    o: PagesModel,
    k: PagesModel,
    b: BumpModel,
    d: BumpModel,
    old: &M,
    new: &M,
    layout: Layout,
    r: Option<usize>,
) -> bool {
    let c = small_class(layout);
    if !is_small(layout) {
        carved(o, k, b, d, old, new, layout, r)
    } else if o.free[c].len() > 0 {
        let a = o.free[c][0];
        &&& r == Some(a as usize)
        &&& k == (PagesModel {
            live: o.live.insert(a, layout),
            free: o.free.update(c, o.free[c].drop_first()),
            ..o
        })
        &&& d == b
        &&& *new == *old
    } else {
        refilled(o, k, b, d, old, new, c, layout, r)
    }
}

/// What a free does: a small block becomes the first of the free blocks of its class, and any other
/// is leaked.
pub open spec fn pages_freed(o: PagesModel, k: PagesModel, a: int, layout: Layout) -> bool {
    let c = small_class(layout);
    &&& k.live == o.live.remove(a)
    &&& k.cells == o.cells && k.pages == o.pages && k.cur == o.cur && k.end == o.end
    &&& is_small(layout) ==> k.free == o.free.update(c, seq![a] + o.free[c])
    &&& !is_small(layout) ==> k.free == o.free
}

/// What a reset does: the pointer goes back, what was carved since is forgotten, and so are all free
/// blocks and current pages.
pub open spec fn pages_rewound(o: PagesModel, n: PagesModel, b: BumpModel, d: BumpModel) -> bool {
    &&& bump_rewound(b, d)
    &&& n.live == o.live
    &&& n.cells == kept_cells(o.cells, d.cur, b.cur)
    &&& n.pages == kept_cells(o.pages, d.cur, b.cur)
    &&& n.free == Seq::new(NCLASS as nat, |c: int| Seq::<int>::empty())
    &&& n.cur == Seq::new(NCLASS as nat, |c: int| 0int)
    &&& n.end == Seq::new(NCLASS as nat, |c: int| 0int)
}

impl Pages {
    pub closed spec fn view(&self) -> PagesModel {
        self.model@
    }

    pub closed spec fn pointer(&self) -> BumpModel {
        self.bump@
    }

    /// The arrays hold the current page of class `c`.
    closed spec fn stands(&self, c: int) -> bool {
        self.model@.cur[c] == self.cur@[c] && self.model@.end[c] == self.end@[c]
    }

    /// The floor's invariant over its memory.
    pub closed spec fn wf<M: Memory>(&self, mem: &M) -> bool {
        let g = self.model@;
        let w = mem.words();
        &&& in_order(mem)
        &&& self.bump.wf()
        &&& cells_ok(g.cells, mem)
        &&& region_ok(self.bump@, g.cells, mem)
        &&& g.free.len() == NCLASS
        &&& g.cur.len() == NCLASS
        &&& g.end.len() == NCLASS
        &&& forall|c: int| 0 <= c < NCLASS ==> #[trigger] self.stands(c)
        &&& forall|c: int| 0 <= c < NCLASS ==> #[trigger] current_ok(g, c)
        &&& forall|p: int| #[trigger] g.pages.dom().contains(p) ==> page_ok(g, w, p)
        &&& forall|a: int| #[trigger] g.live.dom().contains(a) ==> live_ok(g, a)
        &&& forall|c: int, i: int|
            0 <= c < NCLASS && 0 <= i < g.free[c].len() ==> block_ok(g, c, #[trigger] g.free[c][i])
                && !g.live.dom().contains(g.free[c][i])
        &&& forall|c: int| 0 <= c < NCLASS ==> (#[trigger] g.free[c]).no_duplicates()
        &&& forall|c: int| 0 <= c < NCLASS ==> chain(w, self.heads@[c] as int, #[trigger] g.free[c])
    }

    /// Nothing carved yet.
    pub fn new<M: Memory>(mem: &M) -> (r: Self)
        requires
            in_order(mem),
        ensures
            r.wf(mem),
            r@ == (PagesModel {
                cells: Map::empty(),
                pages: Map::empty(),
                live: Map::empty(),
                free: Seq::new(NCLASS as nat, |c: int| Seq::empty()),
                cur: Seq::new(NCLASS as nat, |c: int| 0),
                end: Seq::new(NCLASS as nat, |c: int| 0),
            }),
            r.pointer() == (BumpModel { cur: 0, end: 0, mark: None }),
    {
        Pages {
            heads: [0; 64],
            cur: [0; 64],
            end: [0; 64],
            bump: Bump::new(),
            model: Ghost(
                PagesModel {
                    cells: Map::empty(),
                    pages: Map::empty(),
                    live: Map::empty(),
                    free: Seq::new(NCLASS as nat, |c: int| Seq::empty()),
                    cur: Seq::new(NCLASS as nat, |c: int| 0),
                    end: Seq::new(NCLASS as nat, |c: int| 0),
                },
            ),
        }
    }

    /// A block's word is the allocator's.
    proof fn lemma_block_owned<M: Memory>(&self, mem: &M, c: int, a: int)
        requires
            self.wf(mem),
            0 <= c < NCLASS,
            block_ok(self.model@, c, a),
        ensures
            a > 0,
            a % 16 == 0,
            a + block_of(c) <= usize::MAX,
            mem.owns(slice_of(a)),
            page_ok(self.model@, mem.words(), page_base(a)),
            a != page_base(a),
    {
        let g = self.model@;
        let p: int = page_base(a);
        assert(page_ok(g, mem.words(), p));
        assert(owned_bytes(mem, p, p + g.cells[p]));
        lemma_slot_aligned(p, HEADER as int, c, a);
    }

    /// Take the block freed last to class `c`.
    #[verifier::spinoff_prover]
    #[verifier::rlimit(40)]
    fn pop<M: Memory>(&mut self, mem: &M, c: usize, layout: Layout) -> (r: usize)
        requires
            old(self).wf(mem),
            layout.wf(),
            layout.size() > 0,
            is_small(layout),
            c == small_class(layout),
            c < NCLASS,
            old(self)@.free[c as int].len() > 0,
        ensures
            final(self).wf(mem),
            final(self).pointer() == old(self).pointer(),
            r == old(self)@.free[c as int][0],
            final(self)@ == (PagesModel {
                live: old(self)@.live.insert(r as int, layout),
                free: old(self)@.free.update(c as int, old(self)@.free[c as int].drop_first()),
                ..old(self)@
            }),
    {
        let ghost g = self.model@;
        let ghost w = mem.words();
        let ghost l = g.free[c as int];
        let head: usize = self.heads[c];
        proof {
            assert(chain(w, head as int, l));
            assert(block_ok(g, c as int, g.free[c as int][0]));
            self.lemma_block_owned(mem, c as int, head as int);
            lemma_chain_pop(w, head as int, l);
        }
        let next: u64 = mem.load(head);
        self.heads[c] = next as usize;
        self.model = Ghost(
            PagesModel {
                live: g.live.insert(head as int, layout),
                free: g.free.update(c as int, l.drop_first()),
                ..g
            },
        );
        proof {
            let k = self.model@;
            let t = l.drop_first();
            assert(next as int <= usize::MAX) by {
                if t.len() > 0 {
                    assert(t[0] == l[1]);
                    assert(block_ok(g, c as int, g.free[c as int][1]));
                    old(self).lemma_block_owned(mem, c as int, l[1]);
                }
            }
            assert(l[0] == head);
            assert forall|d: int, i: int|
                0 <= d < NCLASS && 0 <= i < k.free[d].len() implies block_ok(
                k,
                d,
                #[trigger] k.free[d][i],
            ) && !k.live.dom().contains(k.free[d][i]) by {
                if d == c {
                    assert(k.free[d][i] == l[i + 1]);
                    assert(block_ok(g, d, g.free[d][i + 1]));
                } else {
                    assert(k.free[d] == g.free[d]);
                    assert(block_ok(g, d, g.free[d][i]));
                    assert(block_ok(g, c as int, head as int));
                }
            }
            assert forall|d: int| 0 <= d < NCLASS implies (#[trigger] k.free[d]).no_duplicates() by {
                if d == c {
                    assert forall|i: int, j: int|
                        0 <= i < t.len() && 0 <= j < t.len() && i != j implies t[i] != t[j] by {
                        assert(t[i] == l[i + 1] && t[j] == l[j + 1]);
                    }
                } else {
                    assert(k.free[d] == g.free[d]);
                }
            }
            assert forall|d: int| 0 <= d < NCLASS implies chain(
                w,
                self.heads@[d] as int,
                #[trigger] k.free[d],
            ) by {
                if d != c {
                    assert(k.free[d] == g.free[d]);
                }
            }
            assert forall|d: int| 0 <= d < NCLASS implies #[trigger] current_ok(k, d) by {
                assert(current_ok(g, d));
            }
            assert forall|d: int| 0 <= d < NCLASS implies #[trigger] self.stands(d) by {
                assert(old(self).stands(d));
            }
            assert forall|p: int| #[trigger] k.pages.dom().contains(p) implies page_ok(k, w, p) by {
                assert(page_ok(g, w, p));
            }
            assert forall|a: int| #[trigger] k.live.dom().contains(a) implies live_ok(k, a) by {
                if a != head {
                    assert(live_ok(g, a));
                } else {
                    assert(block_ok(g, c as int, a));
                }
            }
        }
        head
    }

    /// Hand out the next block of the current page of class `c`.
    #[verifier::spinoff_prover]
    #[verifier::rlimit(40)]
    fn take_next<M: Memory>(&mut self, mem: &M, c: usize, layout: Layout) -> (r: usize)
        requires
            old(self).wf(mem),
            layout.wf(),
            layout.size() > 0,
            is_small(layout),
            c == small_class(layout),
            c < NCLASS,
            old(self)@.cur[c as int] + block_of(c as int) <= old(self)@.end[c as int],
        ensures
            final(self).wf(mem),
            final(self).pointer() == old(self).pointer(),
            r == old(self)@.cur[c as int],
            final(self)@ == (PagesModel {
                live: old(self)@.live.insert(r as int, layout),
                cur: old(self)@.cur.update(c as int, r + block_of(c as int)),
                ..old(self)@
            }),
    {
        let ghost g = self.model@;
        let ghost w = mem.words();
        let a: usize = self.cur[c];
        proof {
            assert(self.stands(c as int));
            assert(current_ok(g, c as int));
            lemma_next_slot(
                g.end[c as int] - PAGE,
                HEADER as int,
                c as int,
                a as int,
            );
            let p: int = g.end[c as int] - PAGE;
            assert(page_ok(g, w, p));
            lemma_slot_page(p, HEADER as int, c as int, a as int);
        }
        self.cur[c] = a + (c + 1) * GRANULE;
        self.model = Ghost(
            PagesModel {
                live: g.live.insert(a as int, layout),
                cur: g.cur.update(c as int, a + block_of(c as int)),
                ..g
            },
        );
        proof {
            let k = self.model@;
            let p: int = g.end[c as int] - PAGE;
            assert forall|d: int, i: int|
                0 <= d < NCLASS && 0 <= i < k.free[d].len() implies block_ok(
                k,
                d,
                #[trigger] k.free[d][i],
            ) && !k.live.dom().contains(k.free[d][i]) by {
                let x: int = g.free[d][i];
                assert(block_ok(g, d, g.free[d][i]));
                if x == a {
                    assert(page_base(x) == p);
                }
            }
            assert forall|d: int| 0 <= d < NCLASS implies #[trigger] current_ok(k, d) by {
                assert(current_ok(g, d));
            }
            assert forall|d: int| 0 <= d < NCLASS implies #[trigger] self.stands(d) by {
                assert(old(self).stands(d));
            }
            assert forall|q: int| #[trigger] k.pages.dom().contains(q) implies page_ok(k, w, q) by {
                assert(page_ok(g, w, q));
            }
            assert forall|x: int| #[trigger] k.live.dom().contains(x) implies live_ok(k, x) by {
                if x != a {
                    assert(live_ok(g, x));
                }
            }
        }
        a
    }

    /// Growing memory, and storing at `p` where no block and no header is, keeps what the floor
    /// relies on.
    proof fn lemma_words_kept<M: Memory>(&self, o: &M, n: &M, p: int)
        requires
            self.wf(o),
            forall|s: int| #[trigger] o.owns(s) ==> n.owns(s),
            forall|x: int|
                x != p && x % 8 == 0 && o.owns(slice_of(x)) ==> #[trigger] n.words()[x]
                    == o.words()[x],
            clear_of(self.model@.cells, p, p + 1),
        ensures
            forall|q: int| #[trigger]
                self.model@.pages.dom().contains(q) ==> page_ok(self.model@, n.words(), q),
            forall|c: int|
                0 <= c < NCLASS ==> chain(
                    n.words(),
                    self.heads@[c] as int,
                    #[trigger] self.model@.free[c],
                ),
    {
        let g = self.model@;
        assert forall|q: int| #[trigger] g.pages.dom().contains(q) implies page_ok(
            g,
            n.words(),
            q,
        ) by {
            assert(page_ok(g, o.words(), q));
            assert(owned_bytes(o, q, q + g.cells[q]));
            assert(o.owns(slice_of(q)));
            assert(q != p);
        }
        assert forall|c: int| 0 <= c < NCLASS implies chain(
            n.words(),
            self.heads@[c] as int,
            #[trigger] g.free[c],
        ) by {
            let l = g.free[c];
            assert(chain(o.words(), self.heads@[c] as int, l));
            assert forall|i: int| 0 <= i < l.len() implies n.words()[#[trigger] l[i]]
                == o.words()[l[i]] by {
                assert(block_ok(g, c, g.free[c][i]));
                self.lemma_block_owned(o, c, l[i]);
                let q: int = page_base(l[i]);
                assert(g.cells.dom().contains(q));
                assert(l[i] != p);
            }
            lemma_chain_other(o.words(), n.words(), self.heads@[c] as int, l);
        }
    }

    /// Start a fresh page for class `c` and hand out its first block.
    #[verifier::spinoff_prover]
    #[verifier::rlimit(60)]
    fn refill<M: Memory>(&mut self, mem: &mut M, c: usize, layout: Layout) -> (r: Option<usize>)
        requires
            old(self).wf(old(mem)),
            layout.wf(),
            layout.size() > 0,
            is_small(layout),
            c == small_class(layout),
            c < NCLASS,
            old(self)@.cur[c as int] + block_of(c as int) > old(self)@.end[c as int],
        ensures
            final(self).wf(final(mem)),
            refilled(
                old(self)@,
                final(self)@,
                old(self).pointer(),
                final(self).pointer(),
                old(mem),
                final(mem),
                c as int,
                layout,
                r,
            ),
    {
        let ghost g = self.model@;
        let ghost b = self.bump@;
        proof {
            lemma_page_layout();
        }
        let fresh = Layout::from_size_align(PAGE, PAGE).unwrap();
        let page: usize = match self.bump.alloc_inline(mem, fresh) {
            Some(page) => page,
            None => {
                proof {
                    lemma_cells_kept(g.cells, old(mem), mem);
                    lemma_region_kept(b, g.cells, old(mem), mem);
                    old(self).lemma_words_kept(old(mem), mem, 0);
                    assert forall|d: int| 0 <= d < NCLASS implies #[trigger] self.stands(d) by {
                        assert(old(self).stands(d));
                    }
                }
                return None;
            },
        };
        let ghost p: int = page as int;
        let ghost mid = *mem;
        proof {
            lemma_carved(b, self.bump@, g.cells, old(mem), mem, fresh, p);
            assert(mem.owns(slice_of(p)));
        }
        mem.store(page, c as u64);
        let first: usize = page + HEADER;
        self.cur[c] = first + (c + 1) * GRANULE;
        self.end[c] = page + PAGE;
        self.model = Ghost(
            PagesModel {
                cells: g.cells.insert(p, PAGE as int),
                pages: g.pages.insert(p, c as int),
                live: g.live.insert(p + HEADER, layout),
                cur: g.cur.update(c as int, p + HEADER + block_of(c as int)),
                end: g.end.update(c as int, p + PAGE),
                ..g
            },
        );
        proof {
            let k = self.model@;
            let w = mem.words();
            lemma_cells_owned(k.cells, &mid, mem);
            lemma_region_owned(self.bump@, k.cells, &mid, mem);
            old(self).lemma_words_kept(old(mem), mem, p);
            vstd::arithmetic::div_mod::lemma_small_mod(0, block_of(c as int) as nat);
            lemma_next_slot(p, HEADER as int, c as int, p + HEADER);
            lemma_slot_page(p, HEADER as int, c as int, p + HEADER);
            assert forall|d: int, x: int| #[trigger] block_ok(g, d, x) implies block_ok(k, d, x)
                && x != p + HEADER by {
                assert(page_ok(g, old(mem).words(), page_base(x)));
            }
            assert forall|d: int, i: int|
                0 <= d < NCLASS && 0 <= i < k.free[d].len() implies block_ok(
                k,
                d,
                #[trigger] k.free[d][i],
            ) && !k.live.dom().contains(k.free[d][i]) by {
                assert(block_ok(g, d, g.free[d][i]));
            }
            assert forall|d: int| 0 <= d < NCLASS implies #[trigger] current_ok(k, d) by {
                assert(current_ok(g, d));
            }
            assert forall|d: int| 0 <= d < NCLASS implies #[trigger] self.stands(d) by {
                assert(old(self).stands(d));
            }
            assert forall|q: int| #[trigger] k.pages.dom().contains(q) implies page_ok(k, w, q) by {
                if q != p {
                    assert(page_ok(g, w, q));
                }
            }
            assert forall|x: int| #[trigger] k.live.dom().contains(x) implies live_ok(k, x) by {
                if x != p + HEADER {
                    assert(live_ok(g, x));
                }
            }
            assert(bump_page(b, self.bump@, old(mem), &mid, Some(page)));
        }
        Some(first)
    }

    /// Carve a block for a request that belongs to no class.
    #[verifier::spinoff_prover]
    #[verifier::rlimit(40)]
    fn carve<M: Memory>(&mut self, mem: &mut M, layout: Layout) -> (r: Option<usize>)
        requires
            old(self).wf(old(mem)),
            layout.wf(),
            layout.size() > 0,
            !is_small(layout),
        ensures
            final(self).wf(final(mem)),
            carved(
                old(self)@,
                final(self)@,
                old(self).pointer(),
                final(self).pointer(),
                old(mem),
                final(mem),
                layout,
                r,
            ),
    {
        let ghost g = self.model@;
        let ghost b = self.bump@;
        let r: Option<usize> = self.bump.alloc_inline(mem, layout);
        proof {
            old(self).lemma_words_kept(old(mem), mem, 0);
            lemma_cells_kept(g.cells, old(mem), mem);
            assert forall|d: int| 0 <= d < NCLASS implies #[trigger] self.stands(d) by {
                assert(old(self).stands(d));
            }
        }
        match r {
            None => {
                proof {
                    lemma_region_kept(b, g.cells, old(mem), mem);
                }
                None
            },
            Some(a) => {
                proof {
                    lemma_carved(b, self.bump@, g.cells, old(mem), mem, layout, a as int);
                }
                self.model = Ghost(
                    PagesModel {
                        cells: g.cells.insert(a as int, layout.size() as int),
                        live: g.live.insert(a as int, layout),
                        ..g
                    },
                );
                proof {
                    let k = self.model@;
                    let w = mem.words();
                    assert forall|q: int| #[trigger] k.pages.dom().contains(q) implies page_ok(
                        k,
                        w,
                        q,
                    ) by {
                        assert(page_ok(g, w, q));
                    }
                    assert forall|d: int, i: int|
                        0 <= d < NCLASS && 0 <= i < k.free[d].len() implies block_ok(
                        k,
                        d,
                        #[trigger] k.free[d][i],
                    ) && !k.live.dom().contains(k.free[d][i]) by {
                        assert(block_ok(g, d, g.free[d][i]));
                        let q: int = page_base(g.free[d][i]);
                        assert(page_ok(g, w, q));
                        assert(g.cells.dom().contains(q));
                    }
                    assert forall|d: int| 0 <= d < NCLASS implies #[trigger] current_ok(k, d) by {
                        assert(current_ok(g, d));
                    }
                    assert forall|d: int| 0 <= d < NCLASS implies #[trigger] self.stands(d) by {
                        assert(old(self).stands(d));
                    }
                    assert forall|x: int| #[trigger] k.live.dom().contains(x) implies live_ok(
                        k,
                        x,
                    ) by {
                        if x != a {
                            assert(live_ok(g, x));
                        } else if g.pages.dom().contains(x) {
                            assert(page_ok(g, w, x));
                        }
                    }
                }
                Some(a)
            },
        }
    }

    /// Allocate a block for `layout`.
    pub fn allocate<M: Memory>(&mut self, mem: &mut M, layout: Layout) -> (r: Option<usize>)
        requires
            old(self).wf(old(mem)),
            layout.wf(),
            layout.size() > 0,
        ensures
            final(self).wf(final(mem)),
            pages_allocated(
                old(self)@,
                final(self)@,
                old(self).pointer(),
                final(self).pointer(),
                old(mem),
                final(mem),
                layout,
                r,
            ),
    {
        if small(&layout) {
            let c: usize = class_of(layout.size());
            proof {
                lemma_small(layout);
                assert(chain(
                    mem.words(),
                    self.heads@[c as int] as int,
                    self.model@.free[c as int],
                ));
                self.lemma_first_free(mem, c as int);
                assert(self.stands(c as int));
                assert(current_ok(self.model@, c as int));
            }
            if self.heads[c] != 0 {
                return Some(self.pop(mem, c, layout));
            }
            let block: usize = (c + 1) * GRANULE;
            let left: usize = self.end[c] - self.cur[c];
            if block <= left {
                return Some(self.take_next(mem, c, layout));
            }
            return self.refill(mem, c, layout);
        }
        self.carve(mem, layout)
    }

    /// The head of a list is null exactly if the list is empty.
    proof fn lemma_first_free<M: Memory>(&self, mem: &M, c: int)
        requires
            self.wf(mem),
            0 <= c < NCLASS,
        ensures
            self.heads@[c] == 0 <==> self.model@.free[c].len() == 0,
    {
        let l = self.model@.free[c];
        assert(chain(mem.words(), self.heads@[c] as int, l));
        if l.len() > 0 {
            assert(block_ok(self.model@, c, self.model@.free[c][0]));
            self.lemma_block_owned(mem, c, l[0]);
        }
    }

    /// Free a block to the class that the header of its page holds, or leak it if it belongs to
    /// none.
    #[verifier::spinoff_prover]
    #[verifier::rlimit(60)]
    pub fn dealloc<M: Memory>(&mut self, mem: &mut M, block: usize, layout: Layout)
        requires
            old(self).wf(old(mem)),
            old(self)@.live.dom().contains(block as int),
            old(self)@.live[block as int] == layout,
        ensures
            final(self).wf(final(mem)),
            final(self).pointer() == old(self).pointer(),
            final(mem).end() == old(mem).end(),
            still_owned_but(old(mem), final(mem), block as int),
            !is_small(layout) ==> *final(mem) == *old(mem),
            pages_freed(old(self)@, final(self)@, block as int, layout),
            ({
                let o = old(self)@;
                let c = small_class(layout);
                final(self)@ == (PagesModel {
                    live: o.live.remove(block as int),
                    free: if is_small(layout) {
                        o.free.update(c, seq![block as int] + o.free[c])
                    } else {
                        o.free
                    },
                    ..o
                })
            }),
    {
        let ghost g = self.model@;
        let ghost a: int = block as int;
        let ghost w = mem.words();
        proof {
            assert(live_ok(g, a));
        }
        if !small(&layout) {
            self.model = Ghost(PagesModel { live: g.live.remove(a), ..g });
            proof {
                let k = self.model@;
                assert forall|d: int, i: int|
                    0 <= d < NCLASS && 0 <= i < k.free[d].len() implies block_ok(
                    k,
                    d,
                    #[trigger] k.free[d][i],
                ) && !k.live.dom().contains(k.free[d][i]) by {
                    assert(block_ok(g, d, g.free[d][i]));
                }
                assert forall|d: int| 0 <= d < NCLASS implies #[trigger] current_ok(k, d) by {
                    assert(current_ok(g, d));
                }
                assert forall|d: int| 0 <= d < NCLASS implies #[trigger] self.stands(d) by {
                    assert(old(self).stands(d));
                }
                assert forall|q: int| #[trigger] k.pages.dom().contains(q) implies page_ok(
                    k,
                    w,
                    q,
                ) by {
                    assert(page_ok(g, w, q));
                }
                assert forall|x: int| #[trigger] k.live.dom().contains(x) implies live_ok(k, x) by {
                    assert(live_ok(g, x));
                }
            }
            return ;
        }
        let page: usize = block - block % PAGE;
        let ghost own: int = small_class(layout);
        proof {
            lemma_small(layout);
            self.lemma_block_owned(mem, own, a);
            assert(page == page_base(a));
            assert(g.cells.dom().contains(page as int));
            assert(owned_bytes(mem, page as int, page + g.cells[page as int]));
            assert(mem.owns(slice_of(page as int)));
        }
        let c: usize = mem.load(page) as usize;
        assert(c == own);
        let ghost l = g.free[c as int];
        let head: usize = self.heads[c];
        proof {
            assert(chain(w, head as int, l));
            assert forall|d: int, i: int|
                0 <= d < NCLASS && 0 <= i < g.free[d].len() implies #[trigger] g.free[d][i] != a by {
                assert(block_ok(g, d, g.free[d][i]));
            }
            assert(!l.contains(a));
            lemma_chain_push(w, head as int, l, a);
        }
        mem.store(block, head as u64);
        self.heads[c] = block;
        self.model = Ghost(
            PagesModel {
                live: g.live.remove(a),
                free: g.free.update(c as int, seq![a] + l),
                ..g
            },
        );
        proof {
            let k = self.model@;
            let v = mem.words();
            lemma_cells_owned(g.cells, old(mem), mem);
            lemma_region_owned(self.bump@, g.cells, old(mem), mem);
            assert forall|d: int, i: int|
                0 <= d < NCLASS && 0 <= i < k.free[d].len() implies block_ok(
                k,
                d,
                #[trigger] k.free[d][i],
            ) && !k.live.dom().contains(k.free[d][i]) by {
                if d == c && i > 0 {
                    assert(k.free[d][i] == g.free[d][i - 1]);
                    assert(block_ok(g, d, g.free[d][i - 1]));
                } else if d != c {
                    assert(k.free[d] == g.free[d]);
                    assert(block_ok(g, d, g.free[d][i]));
                }
            }
            assert forall|d: int| 0 <= d < NCLASS implies (#[trigger] k.free[d]).no_duplicates() by {
                if d == c {
                    let t = seq![a] + l;
                    assert forall|i: int, j: int|
                        0 <= i < t.len() && 0 <= j < t.len() && i != j implies t[i] != t[j] by {
                        if i > 0 {
                            assert(t[i] == l[i - 1]);
                            assert(l.contains(l[i - 1]));
                        }
                        if j > 0 {
                            assert(t[j] == l[j - 1]);
                            assert(l.contains(l[j - 1]));
                        }
                    }
                } else {
                    assert(k.free[d] == g.free[d]);
                }
            }
            assert forall|d: int| 0 <= d < NCLASS implies chain(
                v,
                self.heads@[d] as int,
                #[trigger] k.free[d],
            ) by {
                if d != c {
                    assert(k.free[d] == g.free[d]);
                    let m = g.free[d];
                    assert forall|i: int| 0 <= i < m.len() implies v[#[trigger] m[i]]
                        == w[m[i]] by {
                        assert(g.free[d][i] != a);
                    }
                    lemma_chain_other(w, v, self.heads@[d] as int, m);
                }
            }
            assert forall|q: int| #[trigger] k.pages.dom().contains(q) implies page_ok(k, v, q) by {
                assert(page_ok(g, w, q));
                if q == a {
                    assert(g.cells.dom().contains(q));
                    assert(page as int % PAGE as int == 0);
                }
            }
            assert forall|d: int| 0 <= d < NCLASS implies #[trigger] current_ok(k, d) by {
                assert(current_ok(g, d));
            }
            assert forall|d: int| 0 <= d < NCLASS implies #[trigger] self.stands(d) by {
                assert(old(self).stands(d));
            }
            assert forall|x: int| #[trigger] k.live.dom().contains(x) implies live_ok(k, x) by {
                assert(live_ok(g, x));
            }
        }
    }

    /// Forget the free blocks and the current pages and rewind. Everything allocated since the
    /// last reset must be dead.
    #[verifier::spinoff_prover]
    #[verifier::rlimit(40)]
    pub fn reset<M: Memory>(&mut self, mem: &M)
        requires
            old(self).wf(mem),
            forall|a: int| #[trigger]
                old(self)@.live.dom().contains(a) ==> !(rewind_to(old(self).pointer()) <= a < old(
                    self,
                ).pointer().cur),
        ensures
            final(self).wf(mem),
            pages_rewound(old(self)@, final(self)@, old(self).pointer(), final(self).pointer()),
            ({
                let b = old(self).pointer();
                let m = rewind_to(b);
                &&& final(self).pointer() == (BumpModel { cur: m, mark: Some(m), ..b })
                &&& final(self)@.live == old(self)@.live
                &&& final(self)@.cells == kept_cells(old(self)@.cells, m, b.cur)
                &&& final(self)@.pages == kept_cells(old(self)@.pages, m, b.cur)
                &&& final(self)@.free == Seq::new(NCLASS as nat, |c: int| Seq::<int>::empty())
                &&& final(self)@.cur == Seq::new(NCLASS as nat, |c: int| 0int)
                &&& final(self)@.end == Seq::new(NCLASS as nat, |c: int| 0int)
            }),
    {
        let ghost g = self.model@;
        let ghost b = self.bump@;
        proof {
            lemma_reset(b, g.cells, mem);
        }
        self.heads = [0; 64];
        self.cur = [0; 64];
        self.end = [0; 64];
        self.bump.reset();
        self.model = Ghost(
            PagesModel {
                cells: kept_cells(g.cells, rewind_to(b), b.cur),
                pages: kept_cells(g.pages, rewind_to(b), b.cur),
                live: g.live,
                free: Seq::new(NCLASS as nat, |c: int| Seq::empty()),
                cur: Seq::new(NCLASS as nat, |c: int| 0),
                end: Seq::new(NCLASS as nat, |c: int| 0),
            },
        );
        proof {
            let k = self.model@;
            let w = mem.words();
            assert forall|q: int| #[trigger] k.pages.dom().contains(q) implies page_ok(k, w, q) by {
                assert(g.pages.dom().contains(q));
                assert(page_ok(g, w, q));
            }
            assert forall|x: int| #[trigger] k.live.dom().contains(x) implies live_ok(k, x) by {
                assert(live_ok(g, x));
                assert(old(self)@.live.dom().contains(x));
                if is_small(g.live[x]) {
                    let q: int = page_base(x);
                    assert(page_ok(g, w, q));
                    assert(g.cells.dom().contains(q));
                    lemma_small(g.live[x]);
                    assert(q <= x < q + PAGE);
                }
            }
        }
    }
}

/// Live blocks are aligned, lie in memory that is the allocator's, and do not overlap.
pub proof fn law_live_blocks_are_apart<M: Memory>(floor: &Pages, mem: &M, a: int, b: int)
    requires
        floor.wf(mem),
        floor@.live.dom().contains(a),
        floor@.live.dom().contains(b),
        a < b,
    ensures
        a % floor@.live[a].align() as int == 0,
        a + floor@.live[a].size() <= b,
        owned_bytes(mem, a, a + floor@.live[a].size()),
{
    let g = floor@;
    let w = mem.words();
    assert(live_ok(g, a));
    assert(live_ok(g, b));
    let p: int = if is_small(g.live[a]) {
        page_base(a)
    } else {
        a
    };
    let q: int = if is_small(g.live[b]) {
        page_base(b)
    } else {
        b
    };
    if is_small(g.live[a]) {
        lemma_small(g.live[a]);
        floor.lemma_block_owned(mem, small_class(g.live[a]), a);
        lemma_slot_serves(g.live[a], a);
        assert(page_ok(g, w, p));
    }
    if is_small(g.live[b]) {
        lemma_small(g.live[b]);
        assert(page_ok(g, w, q));
    }
    assert(g.cells.dom().contains(p) && g.cells.dom().contains(q));
    assert(owned_bytes(mem, p, p + g.cells[p]));
    if p == q {
        lemma_slots_apart(p, HEADER as int, g.pages[p], a, b);
    }
}

/// A free finds the class of a block in the header of its page, and it is the class of the request
/// that the block serves.
pub proof fn law_headers_hold_the_class<M: Memory>(floor: &Pages, mem: &M, a: int)
    requires
        floor.wf(mem),
        floor@.live.dom().contains(a),
        is_small(floor@.live[a]),
    ensures
        mem.words()[page_base(a)] == small_class(floor@.live[a]),
{
    assert(live_ok(floor@, a));
    assert(page_ok(floor@, mem.words(), page_base(a)));
}

/// The block freed last is the block that the next request of its class gets, and that brings
/// back the blocks and the lists there were.
pub proof fn law_freed_blocks_come_back_first<M: Memory>(
    o: PagesModel,
    k: PagesModel,
    m: PagesModel,
    b: BumpModel,
    d: BumpModel,
    old: &M,
    new: &M,
    a: usize,
    layout: Layout,
    r: Option<usize>,
)
    requires
        o.free.len() == NCLASS,
        layout.size() >= 1,
        is_small(layout),
        o.live.dom().contains(a as int),
        o.live[a as int] == layout,
        k == (PagesModel {
            live: o.live.remove(a as int),
            free: o.free.update(
                small_class(layout),
                seq![a as int] + o.free[small_class(layout)],
            ),
            ..o
        }),
        pages_allocated(k, m, b, d, old, new, layout, r),
    ensures
        r == Some(a),
        m == o,
        d == b,
{
    lemma_small(layout);
    let c: int = small_class(layout);
    assert(k.free[c][0] == a);
    assert(k.free[c].drop_first() =~= o.free[c]);
    assert(m.free =~= o.free);
    assert(m.live =~= o.live);
}

} // verus!
