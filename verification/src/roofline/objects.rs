//! The objects a workload has live, and what their allocator knows of them.
use vstd::prelude::*;

use super::calls::{
    denied, given, goes_on, held_back, lemma_goes_on, lemma_goes_on_two, made, moved, remade,
    returned, wrote,
};
use crate::layout::{valid_layout, Layout};
use crate::testing::model::{bytes_kept, RawAlloc};

verus! {

/// A live object: where it is, what it was asked for as, and what its first byte holds.
#[derive(Clone, Copy, Debug, PartialEq, Eq, Structural)]
pub struct Object {
    pub addr: usize,
    pub layout: Layout,
    pub first: u8,
}

/// One of the objects is at `a`.
pub open spec fn has_addr(t: Seq<Object>, a: int) -> bool {
    exists|i: int| 0 <= i < t.len() && (#[trigger] t[i]).addr == a
}

/// The object is a block of the allocator that was not in `base`, and its first byte is what it
/// should be.
pub open spec fn is_object<A: RawAlloc>(alloc: &A, base: Map<int, Layout>, o: Object) -> bool {
    &&& alloc.held().dom().contains(o.addr as int)
    &&& alloc.held()[o.addr as int] == o.layout
    &&& !base.dom().contains(o.addr as int)
    &&& o.layout.wf()
    &&& o.layout.size() > 0
    &&& alloc.contents()[o.addr as int][0] == o.first
}

/// What the allocator's callers hold is the blocks of `base`, with their bytes as they were in
/// `bytes`, and the objects of `t`.
pub open spec fn tracks<A: RawAlloc>(
    alloc: &A,
    base: Map<int, Layout>,
    bytes: Map<int, Seq<u8>>,
    t: Seq<Object>,
) -> bool {
    &&& alloc.valid()
    &&& alloc.honest()
    &&& forall|i: int| 0 <= i < t.len() ==> is_object(alloc, base, #[trigger] t[i])
    &&& forall|i: int, j: int|
        0 <= i < j < t.len() ==> (#[trigger] t[i]).addr != (#[trigger] t[j]).addr
    &&& forall|b: int| #[trigger]
        base.dom().contains(b) ==> alloc.held().dom().contains(b) && alloc.held()[b] == base[b]
    &&& forall|b: int| #[trigger]
        alloc.held().dom().contains(b) ==> base.dom().contains(b) || has_addr(t, b)
    &&& bytes_kept(bytes, alloc.contents(), base, -1)
}

/// Before a workload starts, it tracks nothing.
pub proof fn lemma_tracks_nothing<A: RawAlloc>(alloc: &A)
    requires
        alloc.valid(),
        alloc.honest(),
    ensures
        tracks(alloc, alloc.held(), alloc.contents(), Seq::<Object>::empty()),
{
}

/// When a workload tracks nothing any more, all is as it was.
pub proof fn lemma_tracked_nothing<A: RawAlloc>(
    alloc: &A,
    base: Map<int, Layout>,
    bytes: Map<int, Seq<u8>>,
)
    requires
        tracks(alloc, base, bytes, Seq::<Object>::empty()),
    ensures
        alloc.held() == base,
        bytes_kept(bytes, alloc.contents(), base, -1),
{
    assert(alloc.held() =~= base);
}

/// The objects without the `i`th: the others in order, or the last in its place.
pub open spec fn without(t: Seq<Object>, i: int, swap: bool) -> Seq<Object> {
    if swap {
        t.update(i, t.last()).drop_last()
    } else {
        t.remove(i)
    }
}

/// Which of the objects is the `k`th without the `i`th.
spec fn was_at(n: int, i: int, swap: bool, k: int) -> int {
    if swap {
        if k == i {
            n - 1
        } else {
            k
        }
    } else if k < i {
        k
    } else {
        k + 1
    }
}

/// Where the `j`th object is without the `i`th.
spec fn now_at(n: int, i: int, swap: bool, j: int) -> int {
    if swap {
        if j == n - 1 {
            i
        } else {
            j
        }
    } else if j < i {
        j
    } else {
        j - 1
    }
}

proof fn lemma_without(t: Seq<Object>, i: int, swap: bool)
    requires
        0 <= i < t.len(),
    ensures
        without(t, i, swap).len() == t.len() - 1,
        forall|k: int|
            0 <= k < t.len() - 1 ==> {
                let j = was_at(t.len() as int, i, swap, k);
                0 <= j < t.len() && j != i && #[trigger] without(t, i, swap)[k] == t[j]
            },
        forall|j: int|
            0 <= j < t.len() && j != i ==> {
                let k = #[trigger] now_at(t.len() as int, i, swap, j);
                0 <= k < t.len() - 1 && without(t, i, swap)[k] == t[j]
            },
{
}

/// A new object takes the place of one that is gone.
pub proof fn lemma_put_back<A: RawAlloc>(
    alloc: &A,
    base: Map<int, Layout>,
    bytes: Map<int, Seq<u8>>,
    t: Seq<Object>,
    i: int,
    o: Object,
)
    requires
        0 <= i < t.len(),
        tracks(alloc, base, bytes, without(t, i, false).push(o)),
    ensures
        tracks(alloc, base, bytes, t.update(i, o)),
{
    let n: int = t.len() as int;
    let u = without(t, i, false);
    let v = u.push(o);
    let w = t.update(i, o);
    lemma_without(t, i, false);
    assert(v[n - 1] == o);
    assert forall|j: int| 0 <= j < n implies {
        let k = if j == i {
            n - 1
        } else {
            now_at(n, i, false, j)
        };
        0 <= k < n && #[trigger] w[j] == v[k]
    } by {
        if j != i {
            let k: int = now_at(n, i, false, j);
            assert(u[k] == t[j]);
        }
    }
    assert forall|j: int| 0 <= j < w.len() implies is_object(alloc, base, #[trigger] w[j]) by {
        let k: int = if j == i {
            n - 1
        } else {
            now_at(n, i, false, j)
        };
        assert(w[j] == v[k]);
    }
    assert forall|j: int, l: int| 0 <= j < l < w.len() implies (#[trigger] w[j]).addr != (
    #[trigger] w[l]).addr by {
        let a: int = if j == i {
            n - 1
        } else {
            now_at(n, i, false, j)
        };
        let b: int = if l == i {
            n - 1
        } else {
            now_at(n, i, false, l)
        };
        assert(w[j] == v[a] && w[l] == v[b]);
        if a < b {
            assert(v[a].addr != v[b].addr);
        } else {
            assert(v[b].addr != v[a].addr);
        }
    }
    assert forall|d: int| #[trigger] alloc.held().dom().contains(d) implies base.dom().contains(d)
        || has_addr(w, d) by {
        if !base.dom().contains(d) {
            let k: int = choose|k: int| 0 <= k < v.len() && (#[trigger] v[k]).addr == d;
            if k == n - 1 {
                assert(w[i].addr == d);
            } else {
                let j: int = was_at(n, i, false, k);
                assert(u[k] == t[j]);
                assert(w[j].addr == d);
            }
        }
    }
}

/// Allocate an object and write its first byte.
pub(super) fn obtain<A: RawAlloc>(
    alloc: &mut A,
    layout: Layout,
    byte: u8,
    Ghost(base): Ghost<Map<int, Layout>>,
    Ghost(bytes): Ghost<Map<int, Seq<u8>>>,
    Ghost(t): Ghost<Seq<Object>>,
) -> (r: Option<Object>)
    requires
        tracks(old(alloc), base, bytes, t),
        layout.wf(),
        layout.size() > 0,
    ensures
        r is None ==> tracks(final(alloc), base, bytes, t),
        r matches Some(o) ==> {
            &&& o.layout == layout
            &&& o.first == byte
            &&& tracks(final(alloc), base, bytes, t.push(o))
            &&& tracks(final(alloc), base, bytes, seq![o] + t)
        },
        goes_on(
            *old(alloc),
            *final(alloc),
            match r {
                Some(o) => made(layout, o.addr, byte),
                None => seq![denied(layout)],
            },
        ),
{
    let r: Option<usize> = alloc.allocate(layout);
    let ghost mid = *alloc;
    proof {
        assert forall|i: int| 0 <= i < t.len() implies mid.contents()[(
        #[trigger] t[i]).addr as int][0] == t[i].first by {
            assert(is_object(old(alloc), base, t[i]));
        }
        assert forall|b: int, k: int|
            base.dom().contains(b) && b != -1 && 0 <= k < base[b].size() implies
            #[trigger] mid.contents()[b][k] == bytes[b][k] by {
            assert(old(alloc).contents()[b][k] == bytes[b][k]);
        }
    }
    match r {
        None => {
            proof {
                assert forall|i: int| 0 <= i < t.len() implies is_object(
                    &mid,
                    base,
                    #[trigger] t[i],
                ) by {
                    assert(is_object(old(alloc), base, t[i]));
                }
                lemma_goes_on(*old(alloc), mid, denied(layout));
            }
            None
        },
        Some(addr) => {
            alloc.write_byte(addr, 0, byte);
            let o = Object { addr, layout, first: byte };
            proof {
                lemma_goes_on_two(
                    *old(alloc),
                    mid,
                    *alloc,
                    given(layout, addr),
                    wrote(addr, 0, byte),
                );
                lemma_added(old(alloc), &mid, alloc, base, bytes, t, o);
            }
            Some(o)
        },
    }
}

/// A block came back, and a byte was written into it.
proof fn lemma_added<A: RawAlloc>(
    a: &A,
    b: &A,
    c: &A,
    base: Map<int, Layout>,
    bytes: Map<int, Seq<u8>>,
    t: Seq<Object>,
    o: Object,
)
    requires
        tracks(a, base, bytes, t),
        c.valid(),
        c.honest(),
        o.layout.wf(),
        o.layout.size() > 0,
        b.held() == a.held().insert(o.addr as int, o.layout),
        !a.held().dom().contains(o.addr as int),
        bytes_kept(a.contents(), b.contents(), a.held(), -1),
        c.held() == b.held(),
        bytes_kept(b.contents(), c.contents(), b.held(), o.addr as int),
        c.contents()[o.addr as int][0] == o.first,
    ensures
        tracks(c, base, bytes, t.push(o)),
        tracks(c, base, bytes, seq![o] + t),
{
    let x: int = o.addr as int;
    assert forall|i: int| 0 <= i < t.len() implies is_object(c, base, #[trigger] t[i]) && t[i].addr
        != o.addr by {
        assert(is_object(a, base, t[i]));
        let y: int = t[i].addr as int;
        assert(b.contents()[y][0] == a.contents()[y][0]);
        assert(c.contents()[y][0] == b.contents()[y][0]);
    }
    assert(!base.dom().contains(x));
    assert(is_object(c, base, o));
    assert forall|d: int, k: int|
        base.dom().contains(d) && d != -1 && 0 <= k < base[d].size() implies
        #[trigger] c.contents()[d][k] == bytes[d][k] by {
        assert(a.held().dom().contains(d));
        assert(a.contents()[d][k] == bytes[d][k]);
        assert(b.contents()[d][k] == a.contents()[d][k]);
    }
    let u = t.push(o);
    let v = seq![o] + t;
    assert forall|d: int| #[trigger] c.held().dom().contains(d) implies base.dom().contains(d) || (
    has_addr(u, d) && has_addr(v, d)) by {
        if d == x {
            assert(u[t.len() as int].addr == d);
            assert(v[0].addr == d);
        } else if !base.dom().contains(d) {
            assert(a.held().dom().contains(d));
            let i: int = choose|i: int| 0 <= i < t.len() && (#[trigger] t[i]).addr == d;
            assert(u[i].addr == d);
            assert(v[i + 1].addr == d);
        }
    }
    assert forall|i: int| 0 <= i < v.len() implies is_object(c, base, #[trigger] v[i]) by {
        if i > 0 {
            assert(v[i] == t[i - 1]);
        }
    }
    assert forall|i: int, j: int| 0 <= i < j < v.len() implies (#[trigger] v[i]).addr != (
    #[trigger] v[j]).addr by {
        assert(v[j] == t[j - 1]);
        if i > 0 {
            assert(v[i] == t[i - 1]);
        }
    }
}

/// Free the `i`th object.
pub(super) fn release<A: RawAlloc>(
    alloc: &mut A,
    o: Object,
    Ghost(base): Ghost<Map<int, Layout>>,
    Ghost(bytes): Ghost<Map<int, Seq<u8>>>,
    Ghost(t): Ghost<Seq<Object>>,
    Ghost(i): Ghost<int>,
)
    requires
        tracks(old(alloc), base, bytes, t),
        0 <= i < t.len(),
        o == t[i],
    ensures
        forall|swap: bool|
            tracks(final(alloc), base, bytes, #[trigger] without(t, i, swap)),
        goes_on(*old(alloc), *final(alloc), seq![returned(o.layout, o.addr)]),
{
    proof {
        assert(is_object(old(alloc), base, t[i]));
    }
    alloc.dealloc(o.addr, o.layout);
    proof {
        lemma_goes_on(*old(alloc), *alloc, returned(o.layout, o.addr));
        assert forall|swap: bool|
            tracks(alloc, base, bytes, #[trigger] without(t, i, swap)) by {
            lemma_removed(old(alloc), alloc, base, bytes, t, i, swap);
        }
    }
}

/// A block was given back.
proof fn lemma_removed<A: RawAlloc>(
    a: &A,
    b: &A,
    base: Map<int, Layout>,
    bytes: Map<int, Seq<u8>>,
    t: Seq<Object>,
    i: int,
    swap: bool,
)
    requires
        tracks(a, base, bytes, t),
        0 <= i < t.len(),
        b.valid(),
        b.honest(),
        b.held() == a.held().remove(t[i].addr as int),
        bytes_kept(a.contents(), b.contents(), a.held(), t[i].addr as int),
    ensures
        tracks(b, base, bytes, without(t, i, swap)),
{
    let u = without(t, i, swap);
    let n: int = t.len() as int;
    lemma_without(t, i, swap);
    assert(is_object(a, base, t[i]));
    assert forall|k: int| 0 <= k < u.len() implies is_object(b, base, #[trigger] u[k]) by {
        let j: int = was_at(n, i, swap, k);
        assert(u[k] == t[j]);
        assert(is_object(a, base, t[j]));
        assert(t[j].addr != t[i].addr) by {
            if j < i {
                assert(t[j].addr != t[i].addr);
            } else {
                assert(t[i].addr != t[j].addr);
            }
        }
        assert(b.contents()[t[j].addr as int][0] == a.contents()[t[j].addr as int][0]);
    }
    assert forall|k: int, l: int| 0 <= k < l < u.len() implies (#[trigger] u[k]).addr != (
    #[trigger] u[l]).addr by {
        let x: int = was_at(n, i, swap, k);
        let y: int = was_at(n, i, swap, l);
        assert(u[k] == t[x] && u[l] == t[y]);
        if x < y {
            assert(t[x].addr != t[y].addr);
        } else {
            assert(t[y].addr != t[x].addr);
        }
    }
    assert forall|d: int| #[trigger] b.held().dom().contains(d) implies base.dom().contains(d)
        || has_addr(u, d) by {
        assert(a.held().dom().contains(d));
        if !base.dom().contains(d) {
            let j: int = choose|j: int| 0 <= j < t.len() && (#[trigger] t[j]).addr == d;
            let k: int = now_at(n, i, swap, j);
            assert(u[k] == t[j]);
        }
    }
    assert forall|d: int, k: int|
        base.dom().contains(d) && d != -1 && 0 <= k < base[d].size() implies
        #[trigger] b.contents()[d][k] == bytes[d][k] by {
        assert(a.held().dom().contains(d));
        assert(a.contents()[d][k] == bytes[d][k]);
    }
}

/// Resize the `i`th object and write its last byte.
pub(super) fn resize<A: RawAlloc>(
    alloc: &mut A,
    o: Object,
    new_size: usize,
    byte: u8,
    Ghost(base): Ghost<Map<int, Layout>>,
    Ghost(bytes): Ghost<Map<int, Seq<u8>>>,
    Ghost(t): Ghost<Seq<Object>>,
    Ghost(i): Ghost<int>,
) -> (r: Option<Object>)
    requires
        tracks(old(alloc), base, bytes, t),
        0 <= i < t.len(),
        o == t[i],
        new_size > 0,
        valid_layout(new_size as int, o.layout.align() as int),
    ensures
        r is None ==> tracks(final(alloc), base, bytes, t),
        r matches Some(p) ==> {
            &&& p == resized(o, p.addr, new_size, byte)
            &&& tracks(final(alloc), base, bytes, t.update(i, p))
        },
        goes_on(
            *old(alloc),
            *final(alloc),
            match r {
                Some(p) => remade(o.layout, o.addr, new_size, p.addr, byte),
                None => seq![held_back(o.layout, o.addr, new_size)],
            },
        ),
{
    proof {
        assert(is_object(old(alloc), base, t[i]));
        Layout::lemma_of(new_size, o.layout.align());
    }
    let layout = match Layout::from_size_align(new_size, o.layout.align()) {
        Ok(layout) => layout,
        Err(_) => {
            return None;
        },
    };
    let r: Option<usize> = alloc.realloc(o.addr, o.layout, new_size);
    let ghost mid = *alloc;
    match r {
        None => {
            proof {
                assert forall|j: int| 0 <= j < t.len() implies is_object(
                    &mid,
                    base,
                    #[trigger] t[j],
                ) by {
                    assert(is_object(old(alloc), base, t[j]));
                    assert(mid.contents()[t[j].addr as int][0] == old(
                        alloc,
                    ).contents()[t[j].addr as int][0]);
                }
                assert forall|b: int, k: int|
                    base.dom().contains(b) && b != -1 && 0 <= k < base[b].size() implies
                    #[trigger] mid.contents()[b][k] == bytes[b][k] by {
                    assert(old(alloc).contents()[b][k] == bytes[b][k]);
                }
                lemma_goes_on(*old(alloc), mid, held_back(o.layout, o.addr, new_size));
            }
            None
        },
        Some(addr) => {
            alloc.write_byte(addr, new_size - 1, byte);
            let first: u8 = if new_size == 1 {
                byte
            } else {
                o.first
            };
            let p = Object { addr, layout, first };
            proof {
                assert(mid.contents()[addr as int][0] == old(alloc).contents()[o.addr as int][0]);
                lemma_resized(old(alloc), &mid, alloc, base, bytes, t, i, p);
                lemma_goes_on_two(
                    *old(alloc),
                    mid,
                    *alloc,
                    moved(o.layout, o.addr, new_size, addr),
                    wrote(addr, new_size - 1, byte),
                );
            }
            Some(p)
        },
    }
}

/// An object after it was resized to `size` bytes and its last byte was written.
pub open spec fn resized(o: Object, addr: usize, size: usize, byte: u8) -> Object {
    Object {
        addr,
        layout: Layout::of(size, o.layout.align()),
        first: if size == 1 {
            byte
        } else {
            o.first
        },
    }
}

/// A block was resized, and a byte was written into it.
proof fn lemma_resized<A: RawAlloc>(
    a: &A,
    b: &A,
    c: &A,
    base: Map<int, Layout>,
    bytes: Map<int, Seq<u8>>,
    t: Seq<Object>,
    i: int,
    p: Object,
)
    requires
        tracks(a, base, bytes, t),
        0 <= i < t.len(),
        c.valid(),
        c.honest(),
        p.layout.wf(),
        p.layout.size() > 0,
        b.held() == a.held().remove(t[i].addr as int).insert(p.addr as int, p.layout),
        !a.held().remove(t[i].addr as int).dom().contains(p.addr as int),
        bytes_kept(a.contents(), b.contents(), a.held(), t[i].addr as int),
        c.held() == b.held(),
        bytes_kept(b.contents(), c.contents(), b.held(), p.addr as int),
        c.contents()[p.addr as int][0] == p.first,
    ensures
        tracks(c, base, bytes, t.update(i, p)),
{
    let u = t.update(i, p);
    let x: int = p.addr as int;
    assert(is_object(a, base, t[i]));
    assert forall|j: int| 0 <= j < t.len() && j != i implies is_object(c, base, #[trigger] t[j])
        && t[j].addr != p.addr by {
        assert(is_object(a, base, t[j]));
        let y: int = t[j].addr as int;
        assert(t[j].addr != t[i].addr) by {
            if j < i {
                assert(t[j].addr != t[i].addr);
            } else {
                assert(t[i].addr != t[j].addr);
            }
        }
        assert(b.contents()[y][0] == a.contents()[y][0]);
        assert(c.contents()[y][0] == b.contents()[y][0]);
    }
    assert(!base.dom().contains(x)) by {
        if base.dom().contains(x) {
            assert(a.held().dom().contains(x));
            assert(x == t[i].addr);
        }
    }
    assert(is_object(c, base, p));
    assert forall|j: int| 0 <= j < u.len() implies is_object(c, base, #[trigger] u[j]) by {
        if j != i {
            assert(u[j] == t[j]);
        }
    }
    assert forall|j: int, k: int| 0 <= j < k < u.len() implies (#[trigger] u[j]).addr != (
    #[trigger] u[k]).addr by {
        if j != i {
            assert(u[j] == t[j]);
        }
        if k != i {
            assert(u[k] == t[k]);
        }
    }
    assert forall|d: int, k: int|
        base.dom().contains(d) && d != -1 && 0 <= k < base[d].size() implies
        #[trigger] c.contents()[d][k] == bytes[d][k] by {
        assert(a.held().dom().contains(d));
        assert(a.contents()[d][k] == bytes[d][k]);
        assert(b.contents()[d][k] == a.contents()[d][k]);
    }
    assert forall|d: int| #[trigger] base.dom().contains(d) implies c.held().dom().contains(d)
        && c.held()[d] == base[d] by {
        assert(a.held().dom().contains(d));
        assert(d != t[i].addr);
    }
    assert forall|d: int| #[trigger] c.held().dom().contains(d) implies base.dom().contains(d)
        || has_addr(u, d) by {
        if d == x {
            assert(u[i].addr == d);
        } else if !base.dom().contains(d) {
            assert(a.held().dom().contains(d));
            let j: int = choose|j: int| 0 <= j < t.len() && (#[trigger] t[j]).addr == d;
            assert(j != i);
            assert(u[j].addr == d);
        }
    }
}

/// Write a byte of the `i`th object other than its first.
pub(super) fn touch<A: RawAlloc>(
    alloc: &mut A,
    o: Object,
    offset: usize,
    byte: u8,
    Ghost(base): Ghost<Map<int, Layout>>,
    Ghost(bytes): Ghost<Map<int, Seq<u8>>>,
    Ghost(t): Ghost<Seq<Object>>,
    Ghost(i): Ghost<int>,
)
    requires
        tracks(old(alloc), base, bytes, t),
        0 <= i < t.len(),
        o == t[i],
        0 < offset < o.layout.size(),
    ensures
        tracks(final(alloc), base, bytes, t),
        final(alloc).contents()[o.addr as int][offset as int] == byte,
        goes_on(*old(alloc), *final(alloc), seq![wrote(o.addr, offset as int, byte)]),
{
    proof {
        assert(is_object(old(alloc), base, t[i]));
    }
    alloc.write_byte(o.addr, offset, byte);
    proof {
        lemma_goes_on(*old(alloc), *alloc, wrote(o.addr, offset as int, byte));
        let a = old(alloc);
        assert forall|j: int| 0 <= j < t.len() implies is_object(alloc, base, #[trigger] t[j]) by {
            assert(is_object(a, base, t[j]));
            let y: int = t[j].addr as int;
            assert(alloc.contents()[y][0] == a.contents()[y][0]);
        }
        assert forall|d: int, k: int|
            base.dom().contains(d) && d != -1 && 0 <= k < base[d].size() implies
            #[trigger] alloc.contents()[d][k] == bytes[d][k] by {
            assert(a.held().dom().contains(d));
            assert(a.contents()[d][k] == bytes[d][k]);
        }
    }
}

} // verus!
