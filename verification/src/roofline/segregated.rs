//! Intrusive free lists over a bump pointer, one per size class: each free block holds the address
//! of the next one in its first word. Blocks come from the bump region when a list is empty, and
//! requests that belong to no class go there too and are leaked on free.
use vstd::arithmetic::power2::is_pow2;
use vstd::prelude::*;

use super::bump::{bump_allocated, Bump, BumpModel};
use super::cells::{
    cells_ok, kept_cells, lemma_carved, lemma_cells_kept, lemma_chain_other, lemma_chain_pop,
    lemma_chain_push, lemma_region_kept, lemma_reset, owned_bytes, region_ok,
};
use super::memory::still_owned;
use crate::backend::{in_order, slice_of, Memory};
use crate::layout::{valid_layout, Layout};
use crate::page::chain;

verus! {

/// Alignment of the blocks of a class.
pub const GRANULE: usize = 16;

/// What a floor stands for.
#[verifier::ext_equal]
pub struct FloorModel {
    /// What has been carved, by address and in bytes.
    pub cells: Map<int, int>,
    /// The live blocks.
    pub live: Map<int, Layout>,
    /// The free blocks of every class, the last one freed first.
    pub free: Seq<Seq<int>>,
}

/// `N` classes, each `UNIT` bytes larger than the one before.
pub struct Segregated<const N: usize, const UNIT: usize> {
    heads: [usize; N],
    bump: Bump,
    model: Ghost<FloorModel>,
}

/// Whether a request belongs to a class.
pub open spec fn in_class(n: int, unit: int, layout: Layout) -> bool {
    layout.size() <= n * unit && layout.align() <= GRANULE
}

/// The class of a request.
pub open spec fn class_for(unit: int, layout: Layout) -> int {
    (layout.size() - 1) / unit
}

/// Bytes of the blocks of class `c`.
pub open spec fn class_bytes(unit: int, c: int) -> int {
    (c + 1) * unit
}

/// Bytes that are carved for a request.
pub open spec fn cell_bytes(n: int, unit: int, layout: Layout) -> int {
    if in_class(n, unit, layout) {
        class_bytes(unit, class_for(unit, layout))
    } else {
        layout.size() as int
    }
}

/// The layout of what is carved for a request.
pub open spec fn cell_layout(n: int, unit: int, layout: Layout) -> Layout {
    if in_class(n, unit, layout) {
        Layout::of(class_bytes(unit, class_for(unit, layout)) as usize, GRANULE)
    } else {
        layout
    }
}

/// A free block of class `c`.
pub open spec fn free_ok(g: FloorModel, unit: int, c: int, a: int) -> bool {
    &&& g.cells.dom().contains(a)
    &&& g.cells[a] == class_bytes(unit, c)
    &&& a % 16 == 0
    &&& !g.live.dom().contains(a)
}

/// A live block.
pub open spec fn live_ok(g: FloorModel, n: int, unit: int, a: int) -> bool {
    let layout = g.live[a];
    &&& g.cells.dom().contains(a)
    &&& layout.wf()
    &&& layout.size() > 0
    &&& a % layout.align() as int == 0
    &&& g.cells[a] == cell_bytes(n, unit, layout)
    &&& in_class(n, unit, layout) ==> a % 16 == 0
}

/// What an allocation does: it takes the last block freed to the class of the request, or carves
/// a new one.
pub open spec fn floor_allocated<M: Memory>(
    n: int,
    unit: int,
    o: FloorModel,
    k: FloorModel,
    b: BumpModel,
    d: BumpModel,
    old: &M,
    new: &M,
    layout: Layout,
    r: Option<usize>,
) -> bool {
    let c = class_for(unit, layout);
    if in_class(n, unit, layout) && o.free[c].len() > 0 {
        let a = o.free[c][0];
        &&& r == Some(a as usize)
        &&& k == (FloorModel {
            live: o.live.insert(a, layout),
            free: o.free.update(c, o.free[c].drop_first()),
            ..o
        })
        &&& d == b
        &&& *new == *old
    } else {
        &&& bump_allocated(b, d, old, new, cell_layout(n, unit, layout), r)
        &&& match r {
            Some(a) => k == (FloorModel {
                cells: o.cells.insert(a as int, cell_bytes(n, unit, layout)),
                live: o.live.insert(a as int, layout),
                ..o
            }),
            None => k == o,
        }
    }
}

/// What a free does: a block of a class becomes the first of the free blocks of its class, and any
/// other is leaked.
pub open spec fn floor_freed(
    n: int,
    unit: int,
    o: FloorModel,
    k: FloorModel,
    a: int,
    layout: Layout,
) -> bool {
    let c = class_for(unit, layout);
    &&& k.live == o.live.remove(a)
    &&& k.cells == o.cells
    &&& in_class(n, unit, layout) ==> k.free == o.free.update(c, seq![a] + o.free[c])
    &&& !in_class(n, unit, layout) ==> k.free == o.free
}

proof fn lemma_class(n: int, unit: int, layout: Layout)
    requires
        n >= 1,
        unit >= 1,
        layout.size() >= 1,
        in_class(n, unit, layout),
    ensures
        0 <= class_for(unit, layout) < n,
        layout.size() <= class_bytes(unit, class_for(unit, layout)) <= n * unit,
{
    let s: int = layout.size() as int;
    let c: int = (s - 1) / unit;
    vstd::arithmetic::div_mod::lemma_fundamental_div_mod(s - 1, unit);
    vstd::arithmetic::div_mod::lemma_mod_bound(s - 1, unit);
    assert(0 <= c) by (nonlinear_arith)
        requires
            s - 1 == unit * c + (s - 1) % unit,
            (s - 1) % unit < unit,
            s >= 1,
            unit >= 1,
    ;
    assert(c < n) by (nonlinear_arith)
        requires
            s - 1 == unit * c + (s - 1) % unit,
            0 <= (s - 1) % unit,
            s <= n * unit,
            unit >= 1,
    ;
    assert(s <= (c + 1) * unit) by (nonlinear_arith)
        requires
            s - 1 == unit * c + (s - 1) % unit,
            (s - 1) % unit < unit,
    ;
    assert((c + 1) * unit <= n * unit) by (nonlinear_arith)
        requires
            c + 1 <= n,
            unit >= 1,
    ;
}

/// Classes differ in their bytes.
proof fn lemma_class_bytes(unit: int, c: int, d: int)
    requires
        unit >= 1,
        c != d,
    ensures
        class_bytes(unit, c) != class_bytes(unit, d),
{
    assert((c + 1) * unit != (d + 1) * unit) by (nonlinear_arith)
        requires
            unit >= 1,
            c != d,
    ;
}

impl<const N: usize, const UNIT: usize> Segregated<N, UNIT> {
    pub closed spec fn view(&self) -> FloorModel {
        self.model@
    }

    pub closed spec fn pointer(&self) -> BumpModel {
        self.bump@
    }

    /// The classes are usable.
    pub open spec fn sized() -> bool {
        1 <= N && 1 <= UNIT && UNIT % 16 == 0 && N * UNIT <= 65536
    }

    /// The floor's invariant over its memory.
    pub closed spec fn wf<M: Memory>(&self, mem: &M) -> bool {
        let g = self.model@;
        &&& Self::sized()
        &&& in_order(mem)
        &&& self.bump.wf()
        &&& cells_ok(g.cells, mem)
        &&& region_ok(self.bump@, g.cells, mem)
        &&& g.free.len() == N
        &&& forall|c: int, i: int|
            0 <= c < N && 0 <= i < g.free[c].len() ==> free_ok(
                g,
                UNIT as int,
                c,
                #[trigger] g.free[c][i],
            )
        &&& forall|c: int| 0 <= c < N ==> (#[trigger] g.free[c]).no_duplicates()
        &&& forall|c: int|
            0 <= c < N ==> chain(mem.words(), self.heads@[c] as int, #[trigger] g.free[c])
        &&& forall|a: int| #[trigger]
            g.live.dom().contains(a) ==> live_ok(g, N as int, UNIT as int, a)
    }

    /// Nothing carved yet.
    pub fn new<M: Memory>(mem: &M) -> (r: Self)
        requires
            Self::sized(),
            in_order(mem),
        ensures
            r.wf(mem),
            r@ == (FloorModel {
                cells: Map::empty(),
                live: Map::empty(),
                free: Seq::new(N as nat, |c: int| Seq::empty()),
            }),
            r.pointer() == (BumpModel { cur: 0, end: 0, mark: None }),
    {
        Segregated {
            heads: [0; N],
            bump: Bump::new(),
            model: Ghost(
                FloorModel {
                    cells: Map::empty(),
                    live: Map::empty(),
                    free: Seq::new(N as nat, |c: int| Seq::empty()),
                },
            ),
        }
    }

    /// The class of a request, if it belongs to one.
    fn class(layout: &Layout) -> (r: Option<usize>)
        requires
            Self::sized(),
            layout.size() > 0,
        ensures
            match r {
                Some(c) => in_class(N as int, UNIT as int, *layout) && c == class_for(
                    UNIT as int,
                    *layout,
                ) && c < N,
                None => !in_class(N as int, UNIT as int, *layout),
            },
    {
        if layout.size() <= N * UNIT && layout.align() <= GRANULE {
            proof {
                lemma_class(N as int, UNIT as int, *layout);
            }
            Some((layout.size() - 1) / UNIT)
        } else {
            None
        }
    }

    /// Allocate a block for `layout`.
    #[verifier::spinoff_prover]
    #[verifier::rlimit(40)]
    pub fn allocate<M: Memory>(&mut self, mem: &mut M, layout: Layout) -> (r: Option<usize>)
        requires
            old(self).wf(old(mem)),
            layout.wf(),
            layout.size() > 0,
        ensures
            final(self).wf(final(mem)),
            still_owned(old(mem), final(mem)),
            floor_allocated(
                N as int,
                UNIT as int,
                old(self)@,
                final(self)@,
                old(self).pointer(),
                final(self).pointer(),
                old(mem),
                final(mem),
                layout,
                r,
            ),
    {
        match Self::class(&layout) {
            Some(c) => {
                proof {
                    lemma_class(N as int, UNIT as int, layout);
                    assert(chain(
                        mem.words(),
                        self.heads@[c as int] as int,
                        self.model@.free[c as int],
                    ));
                }
                if self.heads[c] != 0 {
                    return Some(self.pop(mem, c, layout));
                }
                let bytes: usize = (c + 1) * UNIT;
                proof {
                    lemma_block_layout(bytes as int);
                }
                let block = Layout::from_size_align(bytes, GRANULE).unwrap();
                self.carve(mem, block, layout)
            },
            None => self.carve(mem, layout, layout),
        }
    }

    /// Take the first free block of class `c`.
    fn pop<M: Memory>(&mut self, mem: &M, c: usize, layout: Layout) -> (r: usize)
        requires
            old(self).wf(mem),
            c < N,
            layout.wf(),
            layout.size() > 0,
            in_class(N as int, UNIT as int, layout),
            c == class_for(UNIT as int, layout),
            old(self)@.free[c as int].len() > 0,
        ensures
            final(self).wf(mem),
            r == old(self)@.free[c as int][0],
            final(self).pointer() == old(self).pointer(),
            final(self)@ == (FloorModel {
                live: old(self)@.live.insert(r as int, layout),
                free: old(self)@.free.update(
                    c as int,
                    old(self)@.free[c as int].drop_first(),
                ),
                ..old(self)@
            }),
    {
        let ghost g = self.model@;
        let ghost w = mem.words();
        let ghost l = g.free[c as int];
        let head: usize = self.heads[c];
        proof {
            assert(chain(w, head as int, l));
            assert(free_ok(g, UNIT as int, c as int, g.free[c as int][0]));
            assert(owned_bytes(mem, head as int, head + g.cells[head as int]));
            assert(mem.owns(slice_of(head as int)));
            lemma_chain_pop(w, head as int, l);
        }
        let next: u64 = mem.load(head);
        self.heads[c] = next as usize;
        self.model = Ghost(
            FloorModel {
                live: g.live.insert(head as int, layout),
                free: g.free.update(c as int, l.drop_first()),
                ..g
            },
        );
        proof {
            let k = self.model@;
            let t = l.drop_first();
            assert(next as int <= usize::MAX) by {
                if t.len() > 0 {
                    assert(t[0] == l[1]);
                    assert(free_ok(g, UNIT as int, c as int, g.free[c as int][1]));
                }
            }
            assert(l[0] == head);
            assert forall|d: int, i: int|
                0 <= d < N && 0 <= i < k.free[d].len() implies free_ok(
                k,
                UNIT as int,
                d,
                #[trigger] k.free[d][i],
            ) by {
                if d == c {
                    assert(k.free[d][i] == l[i + 1]);
                    assert(free_ok(g, UNIT as int, d, g.free[d][i + 1]));
                } else {
                    assert(k.free[d] == g.free[d]);
                    assert(free_ok(g, UNIT as int, d, g.free[d][i]));
                    lemma_class_bytes(UNIT as int, c as int, d);
                }
            }
            assert forall|d: int| 0 <= d < N implies (#[trigger] k.free[d]).no_duplicates() by {
                if d == c {
                    assert forall|i: int, j: int|
                        0 <= i < t.len() && 0 <= j < t.len() && i != j implies t[i] != t[j] by {
                        assert(t[i] == l[i + 1] && t[j] == l[j + 1]);
                    }
                } else {
                    assert(k.free[d] == g.free[d]);
                }
            }
            assert forall|d: int| 0 <= d < N implies chain(
                w,
                self.heads@[d] as int,
                #[trigger] k.free[d],
            ) by {
                if d != c {
                    assert(k.free[d] == g.free[d]);
                }
            }
            lemma_class(N as int, UNIT as int, layout);
            lemma_granule_aligned(layout.align() as int, head as int);
            assert forall|a: int| #[trigger] k.live.dom().contains(a) implies live_ok(
                k,
                N as int,
                UNIT as int,
                a,
            ) by {
                if a != head {
                    assert(g.live.dom().contains(a));
                    assert(live_ok(g, N as int, UNIT as int, a));
                }
            }
        }
        head
    }

    /// Carve a cell for `layout`, which takes a block of layout `block`.
    #[verifier::spinoff_prover]
    #[verifier::rlimit(40)]
    fn carve<M: Memory>(&mut self, mem: &mut M, block: Layout, layout: Layout) -> (r: Option<usize>)
        requires
            old(self).wf(old(mem)),
            layout.wf(),
            layout.size() > 0,
            block == cell_layout(N as int, UNIT as int, layout),
            block.wf(),
            block.size() == cell_bytes(N as int, UNIT as int, layout),
            block.size() > 0,
            block.align() == if in_class(N as int, UNIT as int, layout) {
                GRANULE
            } else {
                layout.align()
            },
        ensures
            final(self).wf(final(mem)),
            still_owned(old(mem), final(mem)),
            bump_allocated(
                old(self).pointer(),
                final(self).pointer(),
                old(mem),
                final(mem),
                block,
                r,
            ),
            match r {
                Some(a) => final(self)@ == (FloorModel {
                    cells: old(self)@.cells.insert(
                        a as int,
                        cell_bytes(N as int, UNIT as int, layout),
                    ),
                    live: old(self)@.live.insert(a as int, layout),
                    ..old(self)@
                }),
                None => final(self)@ == old(self)@,
            },
    {
        let ghost g = self.model@;
        let ghost b = self.bump@;
        let r: Option<usize> = self.bump.alloc_inline(mem, block);
        proof {
            lemma_cells_kept(g.cells, old(mem), mem);
            assert forall|c: int| 0 <= c < N implies chain(
                mem.words(),
                self.heads@[c] as int,
                #[trigger] g.free[c],
            ) by {
                let l = g.free[c];
                assert(chain(old(mem).words(), self.heads@[c] as int, l));
                assert forall|i: int| 0 <= i < l.len() implies mem.words()[#[trigger] l[i]]
                    == old(mem).words()[l[i]] by {
                    assert(free_ok(g, UNIT as int, c, g.free[c][i]));
                    assert(owned_bytes(old(mem), l[i], l[i] + g.cells[l[i]]));
                    assert(old(mem).owns(slice_of(l[i])));
                }
                lemma_chain_other(old(mem).words(), mem.words(), self.heads@[c] as int, l);
            }
        }
        match r {
            None => {
                proof {
                    lemma_region_kept(b, g.cells, old(mem), mem);
                }
                None
            },
            Some(a) => {
                proof {
                    lemma_carved(b, self.bump@, g.cells, old(mem), mem, block, a as int);
                }
                self.model = Ghost(
                    FloorModel {
                        cells: g.cells.insert(a as int, block.size() as int),
                        live: g.live.insert(a as int, layout),
                        ..g
                    },
                );
                proof {
                    let k = self.model@;
                    if in_class(N as int, UNIT as int, layout) {
                        lemma_granule_aligned(layout.align() as int, a as int);
                    }
                    assert forall|c: int, i: int|
                        0 <= c < N && 0 <= i < k.free[c].len() implies free_ok(
                        k,
                        UNIT as int,
                        c,
                        #[trigger] k.free[c][i],
                    ) by {
                        assert(free_ok(g, UNIT as int, c, g.free[c][i]));
                    }
                    assert forall|x: int| #[trigger] k.live.dom().contains(x) implies live_ok(
                        k,
                        N as int,
                        UNIT as int,
                        x,
                    ) by {
                        if x != a {
                            assert(g.live.dom().contains(x));
                            assert(live_ok(g, N as int, UNIT as int, x));
                        }
                    }
                }
                Some(a)
            },
        }
    }

    /// Free a block: to the list of its class, or not at all.
    #[verifier::spinoff_prover]
    #[verifier::rlimit(40)]
    pub fn dealloc<M: Memory>(&mut self, mem: &mut M, block: usize, layout: Layout)
        requires
            old(self).wf(old(mem)),
            old(self)@.live.dom().contains(block as int),
            old(self)@.live[block as int] == layout,
        ensures
            final(self).wf(final(mem)),
            final(self).pointer() == old(self).pointer(),
            final(mem).end() == old(mem).end(),
            still_owned_but(old(mem), final(mem), block as int),
            !in_class(N as int, UNIT as int, layout) ==> *final(mem) == *old(mem),
            floor_freed(
                N as int,
                UNIT as int,
                old(self)@,
                final(self)@,
                block as int,
                layout,
            ),
            ({
                let o = old(self)@;
                let c = class_for(UNIT as int, layout);
                final(self)@ == (FloorModel {
                    live: o.live.remove(block as int),
                    free: if in_class(N as int, UNIT as int, layout) {
                        o.free.update(c, seq![block as int] + o.free[c])
                    } else {
                        o.free
                    },
                    ..o
                })
            }),
    {
        let ghost g = self.model@;
        let ghost a: int = block as int;
        proof {
            assert(live_ok(g, N as int, UNIT as int, a));
        }
        match Self::class(&layout) {
            None => {
                self.model = Ghost(FloorModel { live: g.live.remove(a), ..g });
                proof {
                    let k = self.model@;
                    assert forall|c: int, i: int|
                        0 <= c < N && 0 <= i < k.free[c].len() implies free_ok(
                        k,
                        UNIT as int,
                        c,
                        #[trigger] k.free[c][i],
                    ) by {
                        assert(free_ok(g, UNIT as int, c, g.free[c][i]));
                    }
                    assert forall|x: int| #[trigger] k.live.dom().contains(x) implies live_ok(
                        k,
                        N as int,
                        UNIT as int,
                        x,
                    ) by {
                        assert(live_ok(g, N as int, UNIT as int, x));
                    }
                }
            },
            Some(c) => {
                let ghost w = mem.words();
                let ghost l = g.free[c as int];
                let head: usize = self.heads[c];
                proof {
                    assert(owned_bytes(mem, a, a + g.cells[a]));
                    assert(mem.owns(slice_of(a)));
                    assert(chain(w, head as int, l));
                    assert forall|d: int, i: int|
                        0 <= d < N && 0 <= i < g.free[d].len() implies #[trigger] g.free[d][i]
                        != a by {
                        assert(free_ok(g, UNIT as int, d, g.free[d][i]));
                    }
                    assert(!l.contains(a));
                    lemma_chain_push(w, head as int, l, a);
                }
                mem.store(block, head as u64);
                self.heads[c] = block;
                self.model = Ghost(
                    FloorModel {
                        live: g.live.remove(a),
                        free: g.free.update(c as int, seq![a] + l),
                        ..g
                    },
                );
                proof {
                    let k = self.model@;
                    let v = mem.words();
                    lemma_cells_owned(g.cells, old(mem), mem);
                    lemma_region_owned(self.bump@, g.cells, old(mem), mem);
                    assert forall|d: int, i: int|
                        0 <= d < N && 0 <= i < k.free[d].len() implies free_ok(
                        k,
                        UNIT as int,
                        d,
                        #[trigger] k.free[d][i],
                    ) by {
                        if d == c && i > 0 {
                            assert(k.free[d][i] == g.free[d][i - 1]);
                            assert(free_ok(g, UNIT as int, d, g.free[d][i - 1]));
                        } else if d != c {
                            assert(k.free[d] == g.free[d]);
                            assert(free_ok(g, UNIT as int, d, g.free[d][i]));
                        }
                    }
                    assert forall|d: int| 0 <= d < N implies (
                    #[trigger] k.free[d]).no_duplicates() by {
                        if d == c {
                            let t = seq![a] + l;
                            assert forall|i: int, j: int|
                                0 <= i < t.len() && 0 <= j < t.len() && i != j implies t[i]
                                != t[j] by {
                                if i > 0 {
                                    assert(t[i] == l[i - 1]);
                                    assert(l.contains(l[i - 1]));
                                }
                                if j > 0 {
                                    assert(t[j] == l[j - 1]);
                                    assert(l.contains(l[j - 1]));
                                }
                            }
                        } else {
                            assert(k.free[d] == g.free[d]);
                        }
                    }
                    assert forall|d: int| 0 <= d < N implies chain(
                        v,
                        self.heads@[d] as int,
                        #[trigger] k.free[d],
                    ) by {
                        if d != c {
                            assert(k.free[d] == g.free[d]);
                            let m = g.free[d];
                            assert forall|i: int| 0 <= i < m.len() implies v[#[trigger] m[i]]
                                == w[m[i]] by {
                                assert(g.free[d][i] != a);
                            }
                            lemma_chain_other(w, v, self.heads@[d] as int, m);
                        }
                    }
                    assert forall|x: int| #[trigger] k.live.dom().contains(x) implies live_ok(
                        k,
                        N as int,
                        UNIT as int,
                        x,
                    ) by {
                        assert(live_ok(g, N as int, UNIT as int, x));
                    }
                }
            },
        }
    }

    /// Forget the free blocks and rewind the bump pointer. Everything allocated since the last
    /// reset must be dead.
    pub fn reset<M: Memory>(&mut self, mem: &M)
        requires
            old(self).wf(mem),
            rewindable(old(self)@, old(self).pointer()),
        ensures
            final(self).wf(mem),
            rewound(old(self)@, final(self)@, old(self).pointer(), final(self).pointer()),
    {
        let ghost g = self.model@;
        let ghost b = self.bump@;
        proof {
            lemma_reset(b, g.cells, mem);
        }
        self.heads = [0; N];
        self.bump.reset();
        self.model = Ghost(
            FloorModel {
                cells: kept_cells(g.cells, rewind_to(b), b.cur),
                free: Seq::new(N as nat, |c: int| Seq::empty()),
                ..g
            },
        );
        proof {
            let k = self.model@;
            assert forall|x: int| #[trigger] k.live.dom().contains(x) implies live_ok(
                k,
                N as int,
                UNIT as int,
                x,
            ) by {
                assert(live_ok(g, N as int, UNIT as int, x));
                assert(!(rewind_to(b) <= x < b.cur));
            }
            assert(k.free =~= g.free.map_values(|l: Seq<int>| Seq::<int>::empty()));
        }
    }
}

/// Where a reset goes back to.
pub open spec fn rewind_to(b: BumpModel) -> int {
    match b.mark {
        Some(m) => m,
        None => b.cur,
    }
}

/// No block that a reset would hand out again is live.
pub open spec fn rewindable(g: FloorModel, b: BumpModel) -> bool {
    forall|a: int| #[trigger] g.live.dom().contains(a) ==> !(rewind_to(b) <= a < b.cur)
}

/// What a reset does.
pub open spec fn rewound(o: FloorModel, n: FloorModel, b: BumpModel, d: BumpModel) -> bool {
    let m = rewind_to(b);
    &&& d == (BumpModel { cur: m, mark: Some(m), ..b })
    &&& n.live == o.live
    &&& n.cells == kept_cells(o.cells, m, b.cur)
    &&& n.free == o.free.map_values(|l: Seq<int>| Seq::<int>::empty())
}

/// What the allocator owned is still its own, with the same words but for the one at `a`.
pub open spec fn still_owned_but<M: Memory>(o: &M, n: &M, a: int) -> bool {
    &&& n.base_addr() == o.base_addr()
    &&& n.growths() == o.growths()
    &&& forall|s: int| #[trigger] n.owns(s) == o.owns(s)
    &&& forall|x: int| x != a ==> #[trigger] n.words()[x] == o.words()[x]
}

pub proof fn lemma_cells_owned<M: Memory>(cells: Map<int, int>, o: &M, n: &M)
    requires
        cells_ok(cells, o),
        forall|s: int| #[trigger] n.owns(s) == o.owns(s),
    ensures
        cells_ok(cells, n),
{
    assert forall|a: int| #[trigger] cells.dom().contains(a) implies owned_bytes(
        n,
        a,
        a + cells[a],
    ) by {
        assert(owned_bytes(o, a, a + cells[a]));
    }
}

pub proof fn lemma_region_owned<M: Memory>(b: BumpModel, cells: Map<int, int>, o: &M, n: &M)
    requires
        region_ok(b, cells, o),
        forall|s: int| #[trigger] n.owns(s) == o.owns(s),
    ensures
        region_ok(b, cells, n),
{
    assert forall|x: int| b.cur <= x < b.end implies n.owns(#[trigger] slice_of(x)) by {
        assert(o.owns(slice_of(x)));
    }
    match b.mark {
        Some(mk) => {
            assert forall|x: int| mk <= x < b.end implies n.owns(#[trigger] slice_of(x)) by {
                assert(o.owns(slice_of(x)));
            }
        },
        None => {},
    }
}

/// A block of a class is aligned for every request of the class.
proof fn lemma_granule_aligned(align: int, a: int)
    requires
        is_pow2(align),
        align <= GRANULE,
        a % 16 == 0,
    ensures
        a % align == 0,
{
    assert(is_pow2(16)) by {
        reveal_with_fuel(is_pow2, 8);
    }
    crate::arith::lemma_pow2_positive(align);
    crate::arith::lemma_pow2_divides(align, 16);
    crate::arith::lemma_divides_trans(a, 16, align);
}

/// The layout of a block of a class.
proof fn lemma_block_layout(bytes: int)
    requires
        0 <= bytes <= 65536,
    ensures
        valid_layout(bytes, GRANULE as int),
{
    assert(is_pow2(16)) by {
        reveal_with_fuel(is_pow2, 8);
    }
}

/// Live blocks are aligned, lie in memory that is the allocator's, and do not overlap.
pub proof fn law_live_blocks_are_apart<M: Memory, const N: usize, const UNIT: usize>(
    floor: &Segregated<N, UNIT>,
    mem: &M,
    a: int,
    b: int,
)
    requires
        floor.wf(mem),
        floor@.live.dom().contains(a),
        floor@.live.dom().contains(b),
        a < b,
    ensures
        a % floor@.live[a].align() as int == 0,
        a + floor@.live[a].size() <= b,
        owned_bytes(mem, a, a + floor@.live[a].size()),
{
    let g = floor@;
    assert(live_ok(g, N as int, UNIT as int, a));
    assert(live_ok(g, N as int, UNIT as int, b));
    if in_class(N as int, UNIT as int, g.live[a]) {
        lemma_class(N as int, UNIT as int, g.live[a]);
    }
    assert(g.cells.dom().contains(a) && g.cells.dom().contains(b));
}

/// The block freed last is the block that the next request of its class gets, and that brings
/// back the blocks and the lists there were.
pub proof fn law_freed_blocks_come_back_first<M: Memory>(
    n: int,
    unit: int,
    o: FloorModel,
    k: FloorModel,
    m: FloorModel,
    b: BumpModel,
    d: BumpModel,
    old: &M,
    new: &M,
    a: usize,
    layout: Layout,
    r: Option<usize>,
)
    requires
        n >= 1,
        unit >= 1,
        o.free.len() == n,
        layout.size() >= 1,
        in_class(n, unit, layout),
        o.live.dom().contains(a as int),
        o.live[a as int] == layout,
        k == (FloorModel {
            live: o.live.remove(a as int),
            free: o.free.update(
                class_for(unit, layout),
                seq![a as int] + o.free[class_for(unit, layout)],
            ),
            ..o
        }),
        floor_allocated(n, unit, k, m, b, d, old, new, layout, r),
    ensures
        r == Some(a),
        m == o,
        d == b,
{
    lemma_class(n, unit, layout);
    let c: int = class_for(unit, layout);
    assert(k.free[c][0] == a);
    assert(k.free[c].drop_first() =~= o.free[c]);
    assert(m.free =~= o.free);
    assert(m.live =~= o.live);
}

} // verus!
