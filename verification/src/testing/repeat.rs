//! Runs of the tester can be repeated: over allocators that answer alike, the same profile, entropy
//! and number of operations come to the same.
use vstd::prelude::*;

use super::choice::{op_choice, Block, Op, Profile};
use super::model::{failure_of, reports, sum_sizes, RawAlloc, Request, Stats};
use super::pattern::{all_spans, covered, fill_writes, first_mismatch_of, wrote_all, Mismatch};
use super::report::{Call, Failure, Finding};
use super::rng::Entropy;
use super::trace::{
    alloc_done, alloc_failed, alloc_fault, block_resized, block_taken, comes_to, completes,
    corrupted, counted, drain_failed, drain_index, drained, fails, fits_in, found_at,
    last_overlapped, lemma_no_mismatch, misfit, performed, released, resize_done, resize_failed,
    resize_fault, start, stepped, sweeps, victim, Outcome, Run,
};
use crate::arith::min;
use crate::layout::Layout;

verus! {

/// Allocators that are related by `alike` answer alike: the bytes of their blocks and their
/// footprints are the same, the same request brings the same block, and they are alike again.
pub open spec fn answer_alike<A: RawAlloc, B: RawAlloc>(alike: spec_fn(A, B) -> bool) -> bool {
    &&& forall|a: A, b: B| #[trigger]
        alike(a, b) ==> a.footprint() == b.footprint() && a.contents() == b.contents()
    &&& forall|a: A, b: B, c: A, d: B, q: Request, r: Option<usize>, s: Option<usize>|
        alike(a, b) && #[trigger] A::gave(&a, &c, q, r) && #[trigger] B::gave(&b, &d, q, s) ==> r
            == s && alike(c, d)
}

/// The runs differ in nothing but their allocators, and these are alike.
spec fn same_run<A, B>(alike: spec_fn(A, B) -> bool, s: Run<A>, t: Run<B>) -> bool {
    &&& alike(s.alloc, t.alloc)
    &&& s.live == t.live
    &&& s.next_seed == t.next_seed
    &&& s.batch_left == t.batch_left
    &&& s.free_left == t.free_left
    &&& s.stats == t.stats
}

/// There is one first byte that differs.
proof fn lemma_one_mismatch(
    c: Seq<u8>,
    seed: Option<u64>,
    len: int,
    limit: int,
    m: Mismatch,
    k: Mismatch,
)
    requires
        first_mismatch_of(c, seed, len, limit, m),
        first_mismatch_of(c, seed, len, limit, k),
    ensures
        m == k,
{
    if m.offset < k.offset {
        assert(covered(len, limit, m.offset as int));
        assert(c[m.offset as int] == m.expected);
    } else if k.offset < m.offset {
        assert(covered(len, limit, k.offset as int));
        assert(c[k.offset as int] == k.expected);
    }
}

/// There is one thing wrong with a block that does not fit in.
proof fn lemma_one_misfit(
    live: Seq<Block>,
    call: Call,
    start: usize,
    layout: Layout,
    f: Finding,
    g: Finding,
)
    requires
        misfit(live, call, start, layout, f),
        misfit(live, call, start, layout, g),
    ensures
        f == g,
{
    if start as int % layout.align() as int == 0 && start + layout.size() <= usize::MAX {
        let i: int = choose|i: int| #[trigger]
            last_overlapped(live, start, layout, i) && f == (Finding::Overlaps {
                call,
                start,
                layout,
                other: live[i].addr,
                other_end: (live[i].addr + live[i].layout.size()) as usize,
            });
        let j: int = choose|j: int| #[trigger]
            last_overlapped(live, start, layout, j) && g == (Finding::Overlaps {
                call,
                start,
                layout,
                other: live[j].addr,
                other_end: (live[j].addr + live[j].layout.size()) as usize,
            });
        if i != j {
            assert(live[j].addr < live[i].addr);
            assert(live[i].addr < live[j].addr);
        }
    }
}

/// The same writes leave alike allocators alike.
proof fn lemma_wrote_alike<A: RawAlloc, B: RawAlloc>(
    alike: spec_fn(A, B) -> bool,
    a: A,
    b: B,
    c: A,
    d: B,
    writes: Seq<Request>,
)
    requires
        answer_alike(alike),
        alike(a, b),
        wrote_all(a, c, writes),
        wrote_all(b, d, writes),
    ensures
        alike(c, d),
    decreases writes.len(),
{
    if writes.len() > 0 {
        let x: A = choose|x: A| #[trigger]
            A::gave(&a, &x, writes[0], None) && wrote_all(x, c, writes.drop_first());
        let y: B = choose|y: B| #[trigger]
            B::gave(&b, &y, writes[0], None) && wrote_all(y, d, writes.drop_first());
        lemma_wrote_alike(alike, x, y, c, d, writes.drop_first());
    }
}

/// Two allocations of the same block: both are well and the runs stay the same, or both find the
/// same.
proof fn lemma_alloc_alike<A: RawAlloc, B: RawAlloc>(
    alike: spec_fn(A, B) -> bool,
    s: Run<A>,
    t: Run<B>,
    layout: Layout,
    zeroed: bool,
)
    requires
        answer_alike(alike),
        same_run(alike, s, t),
    ensures
        forall|u: Run<A>, v: Run<B>| #[trigger]
            alloc_done(s, u, layout, zeroed) && #[trigger] alloc_done(t, v, layout, zeroed)
                ==> same_run(alike, u, v),
        forall|u: Run<A>, g: Finding|
            !(#[trigger] alloc_done(s, u, layout, zeroed) && #[trigger] alloc_failed(
                t,
                layout,
                zeroed,
                g,
            )),
        forall|f: Finding, v: Run<B>|
            !(#[trigger] alloc_failed(s, layout, zeroed, f) && #[trigger] alloc_done(
                t,
                v,
                layout,
                zeroed,
            )),
        forall|f: Finding, g: Finding| #[trigger]
            alloc_failed(s, layout, zeroed, f) && #[trigger] alloc_failed(t, layout, zeroed, g)
                ==> f == g,
{
    assert forall|u: Run<A>, v: Run<B>| #[trigger]
        alloc_done(s, u, layout, zeroed) && #[trigger] alloc_done(
            t,
            v,
            layout,
            zeroed,
        ) implies same_run(alike, u, v) by {
        let (x, a): (A, usize) = choose|x: A, a: usize| #[trigger]
            block_taken(s, u, layout, zeroed, x, a);
        let (y, b): (B, usize) = choose|y: B, b: usize| #[trigger]
            block_taken(t, v, layout, zeroed, y, b);
        assert(a == b) by {
            assert(Some(a)->0 == a && Some(b)->0 == b);
        }
        let n: int = layout.size() as int;
        let seed = super::rng::mixed(u.next_seed);
        lemma_wrote_alike(
            alike,
            x,
            y,
            u.alloc,
            v.alloc,
            fill_writes(a, all_spans(n, n), seed),
        );
    }
    assert forall|u: Run<A>, g: Finding|
        !(#[trigger] alloc_done(s, u, layout, zeroed) && #[trigger] alloc_failed(
            t,
            layout,
            zeroed,
            g,
        )) by {
        if alloc_done(s, u, layout, zeroed) && alloc_failed(t, layout, zeroed, g) {
            let (x, a): (A, usize) = choose|x: A, a: usize| #[trigger]
                block_taken(s, u, layout, zeroed, x, a);
            let (y, got): (B, Option<usize>) = choose|y: B, got: Option<usize>| #[trigger]
                alloc_fault(t, layout, zeroed, y, got, g);
            assert(got == Some(a));
            lemma_no_mismatch(
                x.contents()[a as int],
                None,
                layout.size() as int,
                layout.size() as int,
                g->NotZeroed_at,
            );
        }
    }
    assert forall|f: Finding, v: Run<B>|
        !(#[trigger] alloc_failed(s, layout, zeroed, f) && #[trigger] alloc_done(
            t,
            v,
            layout,
            zeroed,
        )) by {
        if alloc_failed(s, layout, zeroed, f) && alloc_done(t, v, layout, zeroed) {
            let (x, got): (A, Option<usize>) = choose|x: A, got: Option<usize>| #[trigger]
                alloc_fault(s, layout, zeroed, x, got, f);
            let (y, b): (B, usize) = choose|y: B, b: usize| #[trigger]
                block_taken(t, v, layout, zeroed, y, b);
            assert(got == Some(b));
            lemma_no_mismatch(
                x.contents()[b as int],
                None,
                layout.size() as int,
                layout.size() as int,
                f->NotZeroed_at,
            );
        }
    }
    assert forall|f: Finding, g: Finding| #[trigger]
        alloc_failed(s, layout, zeroed, f) && #[trigger] alloc_failed(
            t,
            layout,
            zeroed,
            g,
        ) implies f == g by {
        let (x, got): (A, Option<usize>) = choose|x: A, got: Option<usize>| #[trigger]
            alloc_fault(s, layout, zeroed, x, got, f);
        let (y, had): (B, Option<usize>) = choose|y: B, had: Option<usize>| #[trigger]
            alloc_fault(t, layout, zeroed, y, had, g);
        assert(got == had);
        if got is Some {
            if fits_in(s.live, got->0, layout) {
                lemma_one_mismatch(
                    x.contents()[got->0 as int],
                    None,
                    layout.size() as int,
                    layout.size() as int,
                    f->NotZeroed_at,
                    g->NotZeroed_at,
                );
            } else {
                lemma_one_misfit(
                    s.live,
                    super::trace::alloc_call(zeroed),
                    got->0,
                    layout,
                    f,
                    g,
                );
            }
        }
    }
}

/// Two frees of the same block: both find it intact, or both find the same byte.
proof fn lemma_release_alike<A: RawAlloc, B: RawAlloc>(
    alike: spec_fn(A, B) -> bool,
    s: Run<A>,
    t: Run<B>,
    i: int,
    ordered: bool,
    resizing: bool,
)
    requires
        answer_alike(alike),
        same_run(alike, s, t),
    ensures
        forall|u: Run<A>, v: Run<B>| #[trigger]
            released(s, u, i, ordered) && #[trigger] released(t, v, i, ordered) ==> same_run(
                alike,
                u,
                v,
            ),
        forall|u: Run<A>, g: Finding|
            !(#[trigger] released(s, u, i, ordered) && #[trigger] corrupted(t, i, resizing, g)),
        forall|f: Finding, v: Run<B>|
            !(#[trigger] corrupted(s, i, resizing, f) && #[trigger] released(t, v, i, ordered)),
        forall|f: Finding, g: Finding| #[trigger]
            corrupted(s, i, resizing, f) && #[trigger] corrupted(t, i, resizing, g) ==> f == g,
{
    let b = s.live[i];
    let n: int = b.layout.size() as int;
    let c = s.alloc.contents()[b.addr as int];
    assert forall|u: Run<A>, g: Finding|
        !(#[trigger] released(s, u, i, ordered) && #[trigger] corrupted(t, i, resizing, g)) by {
        if released(s, u, i, ordered) && corrupted(t, i, resizing, g) {
            lemma_no_mismatch(c, Some(b.seed), n, n, g->Corrupted_at);
        }
    }
    assert forall|f: Finding, v: Run<B>|
        !(#[trigger] corrupted(s, i, resizing, f) && #[trigger] released(t, v, i, ordered)) by {
        if corrupted(s, i, resizing, f) && released(t, v, i, ordered) {
            lemma_no_mismatch(c, Some(b.seed), n, n, f->Corrupted_at);
        }
    }
    assert forall|f: Finding, g: Finding| #[trigger]
        corrupted(s, i, resizing, f) && #[trigger] corrupted(t, i, resizing, g) implies f == g by {
        lemma_one_mismatch(c, Some(b.seed), n, n, f->Corrupted_at, g->Corrupted_at);
    }
}

/// Two resizes of the same block: both are well and the runs stay the same, or both find the same.
proof fn lemma_resize_alike<A: RawAlloc, B: RawAlloc>(
    alike: spec_fn(A, B) -> bool,
    s: Run<A>,
    t: Run<B>,
    i: int,
    new_size: usize,
)
    requires
        answer_alike(alike),
        same_run(alike, s, t),
    ensures
        forall|u: Run<A>, v: Run<B>| #[trigger]
            resize_done(s, u, i, new_size) && #[trigger] resize_done(t, v, i, new_size) ==> same_run(
                alike,
                u,
                v,
            ),
        forall|u: Run<A>, g: Finding|
            !(#[trigger] resize_done(s, u, i, new_size) && #[trigger] resize_failed(
                t,
                i,
                new_size,
                g,
            )),
        forall|f: Finding, v: Run<B>|
            !(#[trigger] resize_failed(s, i, new_size, f) && #[trigger] resize_done(
                t,
                v,
                i,
                new_size,
            )),
        forall|f: Finding, g: Finding| #[trigger]
            resize_failed(s, i, new_size, f) && #[trigger] resize_failed(t, i, new_size, g) ==> f
                == g,
{
    let b = s.live[i];
    let n: int = b.layout.size() as int;
    let k: int = min(n, new_size as int);
    let c = s.alloc.contents()[b.addr as int];
    assert forall|u: Run<A>, v: Run<B>| #[trigger]
        resize_done(s, u, i, new_size) && #[trigger] resize_done(
            t,
            v,
            i,
            new_size,
        ) implies same_run(alike, u, v) by {
        let (x, p): (A, usize) = choose|x: A, p: usize| #[trigger]
            block_resized(s, u, i, new_size, x, p);
        let (y, q): (B, usize) = choose|y: B, q: usize| #[trigger]
            block_resized(t, v, i, new_size, y, q);
        assert(p == q) by {
            assert(Some(p)->0 == p && Some(q)->0 == q);
        }
        let m: int = new_size as int;
        let seed = super::rng::mixed(u.next_seed);
        lemma_wrote_alike(
            alike,
            x,
            y,
            u.alloc,
            v.alloc,
            fill_writes(p, all_spans(m, m), seed),
        );
    }
    assert forall|u: Run<A>, g: Finding|
        !(#[trigger] resize_done(s, u, i, new_size) && #[trigger] resize_failed(
            t,
            i,
            new_size,
            g,
        )) by {
        if resize_done(s, u, i, new_size) && resize_failed(t, i, new_size, g) {
            let (x, p): (A, usize) = choose|x: A, p: usize| #[trigger]
                block_resized(s, u, i, new_size, x, p);
            if corrupted(t, i, true, g) {
                lemma_no_mismatch(c, Some(b.seed), n, n, g->Corrupted_at);
            } else {
                let (y, got): (B, Option<usize>) = choose|y: B, got: Option<usize>| #[trigger]
                    resize_fault(t, i, new_size, y, got, g);
                assert(got == Some(p));
                lemma_no_mismatch(x.contents()[p as int], Some(b.seed), n, k, g->LostBytes_at);
            }
        }
    }
    assert forall|f: Finding, v: Run<B>|
        !(#[trigger] resize_failed(s, i, new_size, f) && #[trigger] resize_done(
            t,
            v,
            i,
            new_size,
        )) by {
        if resize_failed(s, i, new_size, f) && resize_done(t, v, i, new_size) {
            let (y, q): (B, usize) = choose|y: B, q: usize| #[trigger]
                block_resized(t, v, i, new_size, y, q);
            if corrupted(s, i, true, f) {
                lemma_no_mismatch(c, Some(b.seed), n, n, f->Corrupted_at);
            } else {
                let (x, got): (A, Option<usize>) = choose|x: A, got: Option<usize>| #[trigger]
                    resize_fault(s, i, new_size, x, got, f);
                assert(got == Some(q));
                lemma_no_mismatch(x.contents()[q as int], Some(b.seed), n, k, f->LostBytes_at);
            }
        }
    }
    assert forall|f: Finding, g: Finding| #[trigger]
        resize_failed(s, i, new_size, f) && #[trigger] resize_failed(
            t,
            i,
            new_size,
            g,
        ) implies f == g by {
        if corrupted(s, i, true, f) {
            if corrupted(t, i, true, g) {
                lemma_one_mismatch(c, Some(b.seed), n, n, f->Corrupted_at, g->Corrupted_at);
            } else {
                lemma_no_mismatch(c, Some(b.seed), n, n, f->Corrupted_at);
            }
        } else if corrupted(t, i, true, g) {
            lemma_no_mismatch(c, Some(b.seed), n, n, g->Corrupted_at);
        } else {
            let (x, got): (A, Option<usize>) = choose|x: A, got: Option<usize>| #[trigger]
                resize_fault(s, i, new_size, x, got, f);
            let (y, had): (B, Option<usize>) = choose|y: B, had: Option<usize>| #[trigger]
                resize_fault(t, i, new_size, y, had, g);
            assert(got == had);
            let layout = Layout::of(new_size, b.layout.align());
            let rest = super::model::without(s.live, i, false);
            if got is Some {
                if fits_in(rest, got->0, layout) {
                    lemma_one_mismatch(
                        x.contents()[got->0 as int],
                        Some(b.seed),
                        n,
                        k,
                        f->LostBytes_at,
                        g->LostBytes_at,
                    );
                } else {
                    lemma_one_misfit(rest, Call::Realloc, got->0, layout, f, g);
                }
            }
        }
    }
}

/// Two operations of the same runs come to the same.
proof fn lemma_step_alike<A: RawAlloc, B: RawAlloc, E: Entropy>(
    alike: spec_fn(A, B) -> bool,
    p: Profile,
    s: Run<A>,
    t: Run<B>,
    e: E,
    u: Run<A>,
    v: Run<B>,
    c: E,
    d: E,
    q: Result<bool, Finding>,
    r: Result<bool, Finding>,
)
    requires
        answer_alike(alike),
        same_run(alike, s, t),
        stepped(p, s, e, u, c, q),
        stepped(p, t, e, v, d, r),
    ensures
        q == r,
        c == d,
        q is Ok ==> same_run(alike, u, v),
{
    let (op, f, left) = op_choice(
        e,
        p,
        s.live,
        sum_sizes(s.live),
        s.batch_left as int,
        s.free_left as int,
    );
    let m = Run { batch_left: left as usize, ..s };
    let n = Run { batch_left: left as usize, ..t };
    match op {
        None => {},
        Some(Op::Alloc { layout, zeroed }) => {
            lemma_alloc_alike(alike, m, n, layout, zeroed);
            lemma_same_result(q, r);
        },
        Some(Op::Dealloc) => {
            let (pick, g) = victim(p.order, f, s.live.len() as int);
            match pick {
                None => {},
                Some((i, ordered)) => {
                    lemma_release_alike(alike, m, n, i, ordered, false);
                    lemma_same_result(q, r);
                },
            }
        },
        Some(Op::Realloc { index, new_size }) => {
            lemma_resize_alike(alike, m, n, index as int, new_size);
            lemma_same_result(q, r);
        },
    }
}

/// Results are the same if they are of one sort and hold the same.
proof fn lemma_same_result(q: Result<bool, Finding>, r: Result<bool, Finding>)
    ensures
        q is Ok && r is Ok && q->Ok_0 == r->Ok_0 ==> q == r,
        q is Err && r is Err && q->Err_0 == r->Err_0 ==> q == r,
{
}

/// What freeing everything comes to: the run after it, or what is found.
spec fn drain_comes_to<A: RawAlloc>(p: Profile, s: Run<A>, q: Result<Run<A>, Finding>) -> bool {
    match q {
        Ok(u) => drained(p, s, u),
        Err(f) => drain_failed(p, s, f),
    }
}

/// Freeing everything comes to the same in the same runs.
proof fn lemma_drain_alike<A: RawAlloc, B: RawAlloc>(
    alike: spec_fn(A, B) -> bool,
    p: Profile,
    s: Run<A>,
    t: Run<B>,
    q: Result<Run<A>, Finding>,
    r: Result<Run<B>, Finding>,
)
    requires
        answer_alike(alike),
        same_run(alike, s, t),
        drain_comes_to(p, s, q),
        drain_comes_to(p, t, r),
    ensures
        match (q, r) {
            (Ok(u), Ok(v)) => same_run(alike, u, v),
            (Err(f), Err(g)) => f == g,
            _ => false,
        },
    decreases s.live.len(),
{
    if s.live.len() > 0 {
        let i: int = drain_index(p.order, s.live.len() as int);
        let fifo = p.order is Fifo;
        lemma_release_alike(alike, s, t, i, fifo, false);
        if q is Err && corrupted(s, i, false, q->Err_0) {
            if r is Ok || !corrupted(t, i, false, r->Err_0) {
                let n = lemma_drained_one(p, t, r);
            }
        } else {
            let m = lemma_drained_one(p, s, q);
            if !(r is Err && corrupted(t, i, false, r->Err_0)) {
                let n = lemma_drained_one(p, t, r);
                lemma_drain_alike(alike, p, m, n, q, r);
            }
        }
    }
}

/// Unless the first block is found corrupted it is freed, and then the others.
proof fn lemma_drained_one<A: RawAlloc>(p: Profile, s: Run<A>, q: Result<Run<A>, Finding>) -> (m:
    Run<A>)
    requires
        drain_comes_to(p, s, q),
        s.live.len() > 0,
        q is Err ==> !corrupted(
            s,
            drain_index(p.order, s.live.len() as int),
            false,
            q->Err_0,
        ),
    ensures
        released(s, m, drain_index(p.order, s.live.len() as int), p.order is Fifo),
        m.live.len() < s.live.len(),
        drain_comes_to(p, m, q),
{
    let i: int = drain_index(p.order, s.live.len() as int);
    let fifo = p.order is Fifo;
    match q {
        Ok(u) => choose|m: Run<A>| #[trigger]
            released(s, m, i, fifo) && m.live.len() < s.live.len() && drained(p, m, u),
        Err(f) => choose|m: Run<A>| #[trigger]
            released(s, m, i, fifo) && m.live.len() < s.live.len() && drain_failed(p, m, f),
    }
}

/// What the run from operation `i` on comes to: its end, or the operation at which something is
/// found, and what.
spec fn rest_comes_to<A: RawAlloc, E: Entropy>(
    p: Profile,
    s: Run<A>,
    e: E,
    i: int,
    ops: int,
    q: Result<(Run<A>, E), (int, Finding)>,
) -> bool {
    match q {
        Ok((u, c)) => completes(p, s, e, i, ops, u, c),
        Err((k, f)) => fails(p, s, e, i, ops, k, f),
    }
}

/// What becomes of a run once operation `i` has come to `r` and left it as `m`, with the entropy
/// `g`.
spec fn goes_on<A: RawAlloc, E: Entropy>(
    p: Profile,
    i: int,
    ops: int,
    m: Run<A>,
    g: E,
    r: Result<bool, Finding>,
    q: Result<(Run<A>, E), (int, Finding)>,
) -> bool {
    match r {
        Err(f) => q == Err::<(Run<A>, E), (int, Finding)>((i, f)),
        Ok(false) => match q {
            Ok((u, c)) => c == g && drained(p, m, u),
            Err((k, f)) => k == i && drain_failed(p, m, f),
        },
        Ok(true) => {
            ||| sweeps(p, i) && q is Err && q->Err_0.0 == i && drain_failed(
                p,
                counted(m, i),
                q->Err_0.1,
            )
            ||| exists|n: Run<A>|
                {
                    &&& #[trigger] rest_comes_to(p, n, g, i + 1, ops, q)
                    &&& if sweeps(p, i) {
                        drained(p, counted(m, i), n)
                    } else {
                        n == counted(m, i)
                    }
                }
        },
    }
}

/// A run goes on from one operation.
proof fn lemma_goes_on<A: RawAlloc, E: Entropy>(
    p: Profile,
    s: Run<A>,
    e: E,
    i: int,
    ops: int,
    q: Result<(Run<A>, E), (int, Finding)>,
) -> (r: (Run<A>, E, Result<bool, Finding>))
    requires
        i < ops,
        rest_comes_to(p, s, e, i, ops, q),
    ensures
        stepped(p, s, e, r.0, r.1, r.2),
        goes_on(p, i, ops, r.0, r.1, r.2, q),
{
    match q {
        Ok((u, c)) => {
            if exists|m: Run<A>| #[trigger] stepped(p, s, e, m, c, Ok(false)) && drained(p, m, u) {
                let m: Run<A> = choose|m: Run<A>| #[trigger]
                    stepped(p, s, e, m, c, Ok(false)) && drained(p, m, u);
                (m, c, Ok(false))
            } else {
                let (m, n, g): (Run<A>, Run<A>, E) = choose|m: Run<A>, n: Run<A>, g: E| #[trigger]
                    performed(p, i, s, e, m, n, g) && completes(p, n, g, i + 1, ops, u, c);
                assert(rest_comes_to(p, n, g, i + 1, ops, q));
                (m, g, Ok(true))
            }
        },
        Err((k, f)) => {
            if k == i && exists|m: Run<A>, g: E| #[trigger] stepped(p, s, e, m, g, Err(f)) {
                let (m, g): (Run<A>, E) = choose|m: Run<A>, g: E| #[trigger]
                    stepped(p, s, e, m, g, Err(f));
                (m, g, Err(f))
            } else if k == i && found_at(p, i, s, e, f) {
                let (m, g): (Run<A>, E) = choose|m: Run<A>, g: E| #[trigger]
                    stepped(p, s, e, m, g, Ok(true)) && drain_failed(p, counted(m, i), f);
                (m, g, Ok(true))
            } else if k == i && exists|m: Run<A>, g: E| #[trigger]
                stepped(p, s, e, m, g, Ok(false)) && drain_failed(p, m, f) {
                let (m, g): (Run<A>, E) = choose|m: Run<A>, g: E| #[trigger]
                    stepped(p, s, e, m, g, Ok(false)) && drain_failed(p, m, f);
                (m, g, Ok(false))
            } else {
                let (m, n, g): (Run<A>, Run<A>, E) = choose|m: Run<A>, n: Run<A>, g: E| #[trigger]
                    performed(p, i, s, e, m, n, g) && fails(p, n, g, i + 1, ops, k, f);
                assert(rest_comes_to(p, n, g, i + 1, ops, q));
                (m, g, Ok(true))
            }
        },
    }
}

/// The runs from operation `i` on come to the same.
proof fn lemma_rest_alike<A: RawAlloc, B: RawAlloc, E: Entropy>(
    alike: spec_fn(A, B) -> bool,
    p: Profile,
    s: Run<A>,
    t: Run<B>,
    e: E,
    i: int,
    ops: int,
    q: Result<(Run<A>, E), (int, Finding)>,
    r: Result<(Run<B>, E), (int, Finding)>,
)
    requires
        answer_alike(alike),
        same_run(alike, s, t),
        rest_comes_to(p, s, e, i, ops, q),
        rest_comes_to(p, t, e, i, ops, r),
    ensures
        match (q, r) {
            (Ok((u, c)), Ok((v, d))) => u.stats == v.stats,
            (Err(f), Err(g)) => f == g,
            _ => false,
        },
    decreases ops - i,
{
    if i >= ops {
        lemma_drain_alike(alike, p, s, t, drain_part(q), drain_part(r));
    } else {
        let (m, g, x) = lemma_goes_on(p, s, e, i, ops, q);
        let (n, h, y) = lemma_goes_on(p, t, e, i, ops, r);
        lemma_step_alike(alike, p, s, t, e, m, n, g, h, x, y);
        match x {
            Err(_) => {},
            Ok(false) => {
                lemma_drain_alike(alike, p, m, n, drain_part(q), drain_part(r));
            },
            Ok(true) => {
                let a = counted(m, i);
                let b = counted(n, i);
                assert(same_run(alike, a, b));
                let caught = sweeps(p, i) && q is Err && q->Err_0.0 == i && drain_failed(
                    p,
                    a,
                    q->Err_0.1,
                );
                let found = sweeps(p, i) && r is Err && r->Err_0.0 == i && drain_failed(
                    p,
                    b,
                    r->Err_0.1,
                );
                let u: Run<A> = choose|u: Run<A>|
                    {
                        &&& #[trigger] rest_comes_to(p, u, g, i + 1, ops, q)
                        &&& if sweeps(p, i) {
                            drained(p, a, u)
                        } else {
                            u == a
                        }
                    };
                let v: Run<B> = choose|v: Run<B>|
                    {
                        &&& #[trigger] rest_comes_to(p, v, h, i + 1, ops, r)
                        &&& if sweeps(p, i) {
                            drained(p, b, v)
                        } else {
                            v == b
                        }
                    };
                if sweeps(p, i) {
                    let left: Result<Run<A>, Finding> = if caught {
                        Err(q->Err_0.1)
                    } else {
                        Ok(u)
                    };
                    let right: Result<Run<B>, Finding> = if found {
                        Err(r->Err_0.1)
                    } else {
                        Ok(v)
                    };
                    lemma_drain_alike(alike, p, a, b, left, right);
                }
                if !caught {
                    lemma_rest_alike(alike, p, u, v, g, i + 1, ops, q, r);
                }
            },
        }
    }
}

/// Of what a run comes to, what freeing everything at its end comes to.
spec fn drain_part<A, E>(q: Result<(Run<A>, E), (int, Finding)>) -> Result<Run<A>, Finding> {
    match q {
        Ok((u, _)) => Ok(u),
        Err((_, f)) => Err(f),
    }
}

/// Two reports that say the same, but for the seed.
pub open spec fn same_report(r: Result<Stats, Failure>, s: Result<Stats, Failure>) -> bool {
    match (r, s) {
        (Ok(x), Ok(y)) => x == y,
        (Err(f), Err(g)) => {
            &&& f.kind == g.kind
            &&& f.op_index == g.op_index
            &&& f.profile == g.profile
            &&& f.detail@ == g.detail@
        },
        _ => false,
    }
}

/// What a run comes to, with its end.
proof fn lemma_outcome<A: RawAlloc, E: Entropy>(p: Profile, a: A, e: E, ops: int, x: Outcome) -> (q:
    Result<(Run<A>, E), (int, Finding)>)
    requires
        comes_to(p, a, e, ops, x),
    ensures
        rest_comes_to(p, start(a), e, 0, ops, q),
        match (q, x) {
            (Ok((u, _)), Outcome::Well { stats }) => u.stats == stats,
            (Err((k, f)), Outcome::Found { op, finding }) => k == op && f == finding,
            _ => false,
        },
{
    match x {
        Outcome::Well { stats } => {
            let (end, d): (Run<A>, E) = choose|end: Run<A>, d: E| #[trigger]
                completes(p, start(a), e, 0, ops, end, d) && end.stats == stats;
            Ok((end, d))
        },
        Outcome::Found { op, finding } => Err((op, finding)),
    }
}

/// A run can be repeated: two runs with the same profile, entropy and number of operations, over
/// allocators that answer alike, come to the same.
pub proof fn law_runs_repeat<A: RawAlloc, B: RawAlloc, E: Entropy>(
    alike: spec_fn(A, B) -> bool,
    p: Profile,
    a: A,
    b: B,
    e: E,
    ops: int,
    x: Outcome,
    y: Outcome,
)
    requires
        answer_alike(alike),
        alike(a, b),
        comes_to(p, a, e, ops, x),
        comes_to(p, b, e, ops, y),
    ensures
        x == y,
{
    let q = lemma_outcome(p, a, e, ops, x);
    let r = lemma_outcome(p, b, e, ops, y);
    lemma_rest_alike(alike, p, start(a), start(b), e, 0, ops, q, r);
}

/// Two runs from the same seed report the same, whether they are made by
/// [`run`](super::model::run) or by [`run_with`](super::model::run_with).
pub proof fn law_reports_repeat<A: RawAlloc, B: RawAlloc, E: Entropy>(
    alike: spec_fn(A, B) -> bool,
    p: Profile,
    a: A,
    b: B,
    e: E,
    ops: int,
    r: Result<Stats, Failure>,
    s: Result<Stats, Failure>,
)
    requires
        answer_alike(alike),
        alike(a, b),
        reports(r, p, a, e, ops),
        reports(s, p, b, e, ops),
    ensures
        same_report(r, s),
{
    let x: Outcome = match r {
        Ok(stats) => Outcome::Well { stats },
        Err(f) => Outcome::Found {
            op: f.op_index as int,
            finding: choose|finding: Finding|
                {
                    &&& #[trigger] comes_to(
                        p,
                        a,
                        e,
                        ops,
                        Outcome::Found { op: f.op_index as int, finding },
                    )
                    &&& failure_of(Failure { seed: None, ..f }, finding, p)
                },
        },
    };
    let y: Outcome = match s {
        Ok(stats) => Outcome::Well { stats },
        Err(f) => Outcome::Found {
            op: f.op_index as int,
            finding: choose|finding: Finding|
                {
                    &&& #[trigger] comes_to(
                        p,
                        b,
                        e,
                        ops,
                        Outcome::Found { op: f.op_index as int, finding },
                    )
                    &&& failure_of(Failure { seed: None, ..f }, finding, p)
                },
        },
    };
    law_runs_repeat(alike, p, a, b, e, ops, x, y);
}

} // verus!
