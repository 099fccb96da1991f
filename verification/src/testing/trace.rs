//! What a run of the tester is: the calls it makes, what it checks, and when it stops.
//!
//! A run is determined by its profile, its entropy and what the allocator gives back. The
//! relations below say which states follow each other, with the calls in between.
use vstd::prelude::*;

use super::choice::{op_choice, Block, Op, Order, Profile};
use super::intervals::overlap;
use super::model::{sum_sizes, without, RawAlloc, Request, Stats};
use super::pattern::{filled, first_mismatch_of, holds_pattern, Mismatch};
use super::report::{Call, Finding};
use super::rng::{mixed, scaled, Entropy};
use crate::arith::min;
use crate::layout::Layout;

verus! {

/// A run between two operations.
pub struct Run<A> {
    pub alloc: A,
    /// The blocks the tester holds.
    pub live: Seq<Block>,
    /// The seeds of blocks are numbered.
    pub next_seed: u64,
    /// Allocations left in the batch.
    pub batch_left: usize,
    /// Frees left after the batch.
    pub free_left: usize,
    pub stats: Stats,
}

/// A run that has not begun.
pub open spec fn start<A>(alloc: A) -> Run<A> {
    Run {
        alloc,
        live: Seq::empty(),
        next_seed: 0,
        batch_left: 0,
        free_left: 0,
        stats: Stats {
            ops: 0,
            allocs: 0,
            zeroed_allocs: 0,
            deallocs: 0,
            reallocs: 0,
            peak_live_bytes: 0,
            peak_live_blocks: 0,
            peak_footprint_bytes: None,
        },
    }
}

/// The larger of two counts.
pub open spec fn larger(a: int, b: usize) -> usize {
    if a > b {
        a as usize
    } else {
        b
    }
}

/// The high-water marks with these blocks live.
pub open spec fn marked(s: Stats, live: Seq<Block>, footprint: Option<usize>) -> Stats {
    Stats {
        peak_live_bytes: larger(sum_sizes(live), s.peak_live_bytes),
        peak_live_blocks: larger(live.len() as int, s.peak_live_blocks),
        peak_footprint_bytes: match (footprint, s.peak_footprint_bytes) {
            (Some(f), Some(p)) => Some(larger(f as int, p)),
            (Some(f), None) => Some(f),
            (None, p) => p,
        },
        ..s
    }
}

/// A block that came back is aligned, ends inside the address space and overlaps no live block.
pub open spec fn fits_in(live: Seq<Block>, start: usize, layout: Layout) -> bool {
    &&& start as int % layout.align() as int == 0
    &&& start + layout.size() <= usize::MAX
    &&& forall|i: int|
        0 <= i < live.len() ==> !overlap(
            start as int,
            start + layout.size(),
            (#[trigger] live[i]).addr as int,
            live[i].addr + live[i].layout.size(),
        )
}

/// Of the live blocks that a block at `start` overlaps, the `i`th has the highest address.
pub open spec fn last_overlapped(live: Seq<Block>, start: usize, layout: Layout, i: int) -> bool {
    &&& 0 <= i < live.len()
    &&& overlap(
        start as int,
        start + layout.size(),
        live[i].addr as int,
        live[i].addr + live[i].layout.size(),
    )
    &&& forall|j: int|
        0 <= j < live.len() && j != i && overlap(
            start as int,
            start + layout.size(),
            (#[trigger] live[j]).addr as int,
            live[j].addr + live[j].layout.size(),
        ) ==> live[j].addr < live[i].addr
}

/// What is wrong with a block that does not fit in: its alignment, its end, or the last live block
/// that it overlaps.
pub open spec fn misfit(
    live: Seq<Block>,
    call: Call,
    start: usize,
    layout: Layout,
    f: Finding,
) -> bool {
    if start as int % layout.align() as int != 0 {
        f == (Finding::Misaligned { call, start, layout })
    } else if start + layout.size() > usize::MAX {
        f == (Finding::Wraps { call, start, layout })
    } else {
        exists|i: int| #[trigger]
            last_overlapped(live, start, layout, i) && f == (Finding::Overlaps {
                call,
                start,
                layout,
                other: live[i].addr,
                other_end: (live[i].addr + live[i].layout.size()) as usize,
            })
    }
}

/// The call for a new block.
pub open spec fn alloc_call(zeroed: bool) -> Call {
    if zeroed {
        Call::AllocZeroed
    } else {
        Call::Alloc
    }
}

/// The allocations left in the batch after one.
pub open spec fn batch_after(batch_left: usize) -> usize {
    if batch_left > 0 {
        (batch_left - 1) as usize
    } else {
        0
    }
}

/// The run after a block at `a` came back for a new request and was filled.
pub open spec fn with_new<A: RawAlloc>(
    s: Run<A>,
    alloc: A,
    a: usize,
    layout: Layout,
    zeroed: bool,
) -> Run<A> {
    let next_seed = s.next_seed.wrapping_add(1);
    let live = s.live.push(Block { addr: a, layout, seed: mixed(next_seed) });
    let counted = if zeroed {
        Stats { zeroed_allocs: (s.stats.zeroed_allocs + 1) as usize, ..s.stats }
    } else {
        Stats { allocs: (s.stats.allocs + 1) as usize, ..s.stats }
    };
    Run {
        alloc,
        live,
        next_seed,
        batch_left: batch_after(s.batch_left),
        free_left: if s.batch_left == 1 {
            live.len() as usize
        } else {
            s.free_left
        },
        stats: marked(counted, live, alloc.footprint()),
    }
}

/// A new block was asked for, came back at `a` with the allocator as in `mid`, was found in order
/// and filled.
pub open spec fn block_taken<A: RawAlloc>(
    s: Run<A>,
    t: Run<A>,
    layout: Layout,
    zeroed: bool,
    mid: A,
    a: usize,
) -> bool {
    &&& A::gave(&s.alloc, &mid, Request::Alloc { layout, zeroed }, Some(a))
    &&& fits_in(s.live, a, layout)
    &&& zeroed ==> holds_pattern(
        mid.contents()[a as int],
        None,
        layout.size() as int,
        layout.size() as int,
    )
    &&& filled(&mid, &t.alloc, a as int, layout.size() as int, mixed(t.next_seed))
    &&& t == with_new(s, t.alloc, a, layout, zeroed)
}

/// An allocation after which all is well.
pub open spec fn alloc_done<A: RawAlloc>(
    s: Run<A>,
    t: Run<A>,
    layout: Layout,
    zeroed: bool,
) -> bool {
    exists|mid: A, a: usize| #[trigger] block_taken(s, t, layout, zeroed, mid, a)
}

/// What is found when the allocator is as in `mid` after it gave back `got` for a new block.
pub open spec fn alloc_fault<A: RawAlloc>(
    s: Run<A>,
    layout: Layout,
    zeroed: bool,
    mid: A,
    got: Option<usize>,
    f: Finding,
) -> bool {
    let call = alloc_call(zeroed);
    &&& A::gave(&s.alloc, &mid, Request::Alloc { layout, zeroed }, got)
    &&& got is None ==> f == (Finding::Refused {
        call,
        layout,
        live_bytes: sum_sizes(s.live) as usize,
    })
    &&& got is Some && !fits_in(s.live, got->0, layout) ==> misfit(
        s.live,
        call,
        got->0,
        layout,
        f,
    )
    &&& got is Some && fits_in(s.live, got->0, layout) ==> {
        &&& zeroed
        &&& f matches Finding::NotZeroed { start, layout: l, at } && start == got->0 && l == layout
            && first_mismatch_of(
            mid.contents()[start as int],
            None,
            layout.size() as int,
            layout.size() as int,
            at,
        )
    }
}

/// An allocation that finds something.
pub open spec fn alloc_failed<A: RawAlloc>(
    s: Run<A>,
    layout: Layout,
    zeroed: bool,
    f: Finding,
) -> bool {
    exists|mid: A, got: Option<usize>| #[trigger] alloc_fault(s, layout, zeroed, mid, got, f)
}

/// The `i`th live block still holds what was written into it.
pub open spec fn intact<A: RawAlloc>(s: Run<A>, i: int) -> bool {
    let b = s.live[i];
    holds_pattern(
        s.alloc.contents()[b.addr as int],
        Some(b.seed),
        b.layout.size() as int,
        b.layout.size() as int,
    )
}

/// The `i`th live block does not hold what was written into it.
pub open spec fn corrupted<A: RawAlloc>(s: Run<A>, i: int, resizing: bool, f: Finding) -> bool {
    let b = s.live[i];
    f matches Finding::Corrupted { start, layout, at, resizing: r } && start == b.addr && layout
        == b.layout && r == resizing && first_mismatch_of(
        s.alloc.contents()[b.addr as int],
        Some(b.seed),
        b.layout.size() as int,
        b.layout.size() as int,
        at,
    )
}

/// The `i`th live block was found intact and freed.
pub open spec fn released<A: RawAlloc>(s: Run<A>, t: Run<A>, i: int, ordered: bool) -> bool {
    let b = s.live[i];
    &&& intact(s, i)
    &&& A::gave(
        &s.alloc,
        &t.alloc,
        Request::Dealloc { block: b.addr, layout: b.layout },
        None,
    )
    &&& t == (Run {
        alloc: t.alloc,
        live: without(s.live, i, ordered),
        free_left: if s.free_left > 0 {
            (s.free_left - 1) as usize
        } else {
            0
        },
        stats: Stats { deallocs: (s.stats.deallocs + 1) as usize, ..s.stats },
        ..s
    })
}

/// The `i`th live block was found intact and resized, came back at `a` with the allocator as in
/// `mid`, was found in order with the bytes it had, and filled again.
pub open spec fn block_resized<A: RawAlloc>(
    s: Run<A>,
    t: Run<A>,
    i: int,
    new_size: usize,
    mid: A,
    a: usize,
) -> bool {
    let b = s.live[i];
    let layout = Layout::of(new_size, b.layout.align());
    let rest = without(s.live, i, false);
    let next_seed = s.next_seed.wrapping_add(1);
    let live = rest.push(Block { addr: a, layout, seed: mixed(next_seed) });
    &&& intact(s, i)
    &&& A::gave(
        &s.alloc,
        &mid,
        Request::Realloc { block: b.addr, layout: b.layout, new_size },
        Some(a),
    )
    &&& fits_in(rest, a, layout)
    &&& holds_pattern(
        mid.contents()[a as int],
        Some(b.seed),
        b.layout.size() as int,
        min(b.layout.size() as int, new_size as int),
    )
    &&& filled(&mid, &t.alloc, a as int, new_size as int, mixed(next_seed))
    &&& t == (Run {
        alloc: t.alloc,
        live,
        next_seed,
        stats: Stats {
            reallocs: (s.stats.reallocs + 1) as usize,
            ..marked(s.stats, live, t.alloc.footprint())
        },
        ..s
    })
}

/// A resize after which all is well.
pub open spec fn resize_done<A: RawAlloc>(s: Run<A>, t: Run<A>, i: int, new_size: usize) -> bool {
    exists|mid: A, a: usize| #[trigger] block_resized(s, t, i, new_size, mid, a)
}

/// What is found when the allocator is as in `mid` after it gave back `got` for a resize.
pub open spec fn resize_fault<A: RawAlloc>(
    s: Run<A>,
    i: int,
    new_size: usize,
    mid: A,
    got: Option<usize>,
    f: Finding,
) -> bool {
    let b = s.live[i];
    let layout = Layout::of(new_size, b.layout.align());
    let rest = without(s.live, i, false);
    &&& intact(s, i)
    &&& A::gave(
        &s.alloc,
        &mid,
        Request::Realloc { block: b.addr, layout: b.layout, new_size },
        got,
    )
    &&& got is None ==> f == (Finding::RefusedResize {
        start: b.addr,
        layout: b.layout,
        new_size,
        live_bytes: sum_sizes(s.live) as usize,
    })
    &&& got is Some && !fits_in(rest, got->0, layout) ==> misfit(
        rest,
        Call::Realloc,
        got->0,
        layout,
        f,
    )
    &&& got is Some && fits_in(rest, got->0, layout) ==> {
        f matches Finding::LostBytes { start, layout: l, new_size: n, moved, at } && start == b.addr
            && l == b.layout && n == new_size && moved == got->0 && first_mismatch_of(
            mid.contents()[moved as int],
            Some(b.seed),
            b.layout.size() as int,
            min(b.layout.size() as int, new_size as int),
            at,
        )
    }
}

/// A resize that finds something.
pub open spec fn resize_failed<A: RawAlloc>(s: Run<A>, i: int, new_size: usize, f: Finding) -> bool {
    ||| corrupted(s, i, true, f)
    ||| exists|mid: A, got: Option<usize>| #[trigger] resize_fault(s, i, new_size, mid, got, f)
}

/// Which of `n` blocks a free takes, and whether the order of the others matters.
pub open spec fn victim<E: Entropy>(order: Order, e: E, n: int) -> (Option<(int, bool)>, E) {
    match order {
        Order::Random => match e.upcoming() {
            Some(x) => (Some((scaled(x as int, n), false)), e.drawn()),
            None => (None, e.drawn()),
        },
        Order::Lifo => (Some((n - 1, false)), e),
        Order::Fifo => (Some((0, true)), e),
    }
}

/// One operation, drawn from `e`. The run goes on with `t` and the entropy `d` if all is well, and
/// ends if there is no operation.
pub open spec fn stepped<A: RawAlloc, E: Entropy>(
    p: Profile,
    s: Run<A>,
    e: E,
    t: Run<A>,
    d: E,
    r: Result<bool, Finding>,
) -> bool {
    let (op, f, left) = op_choice(
        e,
        p,
        s.live,
        sum_sizes(s.live),
        s.batch_left as int,
        s.free_left as int,
    );
    let m = Run { batch_left: left as usize, ..s };
    match op {
        None => r == Ok::<bool, Finding>(false) && t == m && d == f,
        Some(Op::Alloc { layout, zeroed }) => {
            &&& d == f
            &&& r is Ok ==> r == Ok::<bool, Finding>(true) && alloc_done(m, t, layout, zeroed)
            &&& r is Err ==> alloc_failed(m, layout, zeroed, r->Err_0)
        },
        Some(Op::Dealloc) => {
            let (pick, g) = victim(p.order, f, s.live.len() as int);
            &&& d == g
            &&& match pick {
                None => r == Ok::<bool, Finding>(false) && t == m,
                Some((i, ordered)) => {
                    &&& r is Ok ==> r == Ok::<bool, Finding>(true) && released(m, t, i, ordered)
                    &&& r is Err ==> corrupted(m, i, false, r->Err_0)
                },
            }
        },
        Some(Op::Realloc { index, new_size }) => {
            &&& d == f
            &&& r is Ok ==> r == Ok::<bool, Finding>(true) && resize_done(
                m,
                t,
                index as int,
                new_size,
            )
            &&& r is Err ==> resize_failed(m, index as int, new_size, r->Err_0)
        },
    }
}

/// The block that freeing everything takes next.
pub open spec fn drain_index(order: Order, n: int) -> int {
    match order {
        Order::Fifo => 0,
        _ => n - 1,
    }
}

/// Every live block is freed, in the profile's order.
pub open spec fn drained<A: RawAlloc>(p: Profile, s: Run<A>, t: Run<A>) -> bool
    decreases s.live.len(),
{
    if s.live.len() == 0 {
        t == s
    } else {
        let i = drain_index(p.order, s.live.len() as int);
        exists|m: Run<A>| #[trigger]
            released(s, m, i, p.order is Fifo) && m.live.len() < s.live.len() && drained(p, m, t)
    }
}

/// One of the live blocks is found corrupted when all are freed.
pub open spec fn drain_failed<A: RawAlloc>(p: Profile, s: Run<A>, f: Finding) -> bool
    decreases s.live.len(),
{
    if s.live.len() == 0 {
        false
    } else {
        let i = drain_index(p.order, s.live.len() as int);
        ||| corrupted(s, i, false, f)
        ||| exists|m: Run<A>| #[trigger]
            released(s, m, i, p.order is Fifo) && m.live.len() < s.live.len() && drain_failed(
                p,
                m,
                f,
            )
    }
}

/// The run after operation `i` has been counted.
pub open spec fn counted<A>(s: Run<A>, i: int) -> Run<A> {
    Run { stats: Stats { ops: (i + 1) as usize, ..s.stats }, ..s }
}

/// Everything is freed after operation `i`.
pub open spec fn sweeps(p: Profile, i: int) -> bool {
    p.sweep_every > 0 && (i + 1) % p.sweep_every as int == 0
}

/// Operation `i` was performed, and everything freed if it is time for that.
pub open spec fn performed<A: RawAlloc, E: Entropy>(
    p: Profile,
    i: int,
    s: Run<A>,
    e: E,
    m: Run<A>,
    t: Run<A>,
    d: E,
) -> bool {
    &&& stepped(p, s, e, m, d, Ok(true))
    &&& if sweeps(p, i) {
        drained(p, counted(m, i), t)
    } else {
        t == counted(m, i)
    }
}

/// Something is found in operation `i`, or when everything is freed after it.
pub open spec fn found_at<A: RawAlloc, E: Entropy>(
    p: Profile,
    i: int,
    s: Run<A>,
    e: E,
    f: Finding,
) -> bool {
    ||| exists|m: Run<A>, g: E| #[trigger] stepped(p, s, e, m, g, Err(f))
    ||| sweeps(p, i) && exists|m: Run<A>, g: E| #[trigger]
        stepped(p, s, e, m, g, Ok(true)) && drain_failed(p, counted(m, i), f)
}

/// From operation `i` on all goes well: the operations are performed until there are `ops` of
/// them or the entropy runs dry, and then everything is freed.
pub open spec fn completes<A: RawAlloc, E: Entropy>(
    p: Profile,
    s: Run<A>,
    e: E,
    i: int,
    ops: int,
    t: Run<A>,
    d: E,
) -> bool
    decreases ops - i,
{
    if i >= ops {
        drained(p, s, t) && d == e
    } else {
        ||| exists|m: Run<A>| #[trigger]
            stepped(p, s, e, m, d, Ok(false)) && drained(p, m, t)
        ||| exists|m: Run<A>, n: Run<A>, g: E| #[trigger]
            performed(p, i, s, e, m, n, g) && completes(p, n, g, i + 1, ops, t, d)
    }
}

/// From operation `i` on all goes well until something is found at operation `k`.
pub open spec fn fails<A: RawAlloc, E: Entropy>(
    p: Profile,
    s: Run<A>,
    e: E,
    i: int,
    ops: int,
    k: int,
    f: Finding,
) -> bool
    decreases ops - i,
{
    if i >= ops {
        k == ops - 1 && drain_failed(p, s, f)
    } else {
        ||| k == i && found_at(p, i, s, e, f)
        ||| k == i && exists|m: Run<A>, g: E| #[trigger]
            stepped(p, s, e, m, g, Ok(false)) && drain_failed(p, m, f)
        ||| exists|m: Run<A>, n: Run<A>, g: E| #[trigger]
            performed(p, i, s, e, m, n, g) && fails(p, n, g, i + 1, ops, k, f)
    }
}

/// What a run comes to: its counters, or the operation at which something is found, and what.
pub enum Outcome {
    Well { stats: Stats },
    Found { op: int, finding: Finding },
}

/// What the run over `alloc` with the entropy `e` comes to.
pub open spec fn comes_to<A: RawAlloc, E: Entropy>(
    p: Profile,
    alloc: A,
    e: E,
    ops: int,
    o: Outcome,
) -> bool {
    match o {
        Outcome::Well { stats } => exists|end: Run<A>, d: E| #[trigger]
            completes(p, start(alloc), e, 0, ops, end, d) && end.stats == stats,
        Outcome::Found { op, finding } => fails(p, start(alloc), e, 0, ops, op, finding),
    }
}

/// Bytes that hold a pattern have no first byte that differs from it.
pub proof fn lemma_no_mismatch(c: Seq<u8>, seed: Option<u64>, len: int, limit: int, m: Mismatch)
    requires
        first_mismatch_of(c, seed, len, limit, m),
    ensures
        !holds_pattern(c, seed, len, limit),
{
}

/// What the allocator gave back decides whether an operation is well: no answer is both accepted
/// and reported, and no block is both freed as intact and reported as corrupted.
pub proof fn law_answers_decide<A: RawAlloc>(
    s: Run<A>,
    t: Run<A>,
    layout: Layout,
    zeroed: bool,
    mid: A,
    a: usize,
    i: int,
    new_size: usize,
    ordered: bool,
    f: Finding,
)
    ensures
        !(block_taken(s, t, layout, zeroed, mid, a) && alloc_fault(
            s,
            layout,
            zeroed,
            mid,
            Some(a),
            f,
        )),
        !(block_resized(s, t, i, new_size, mid, a) && resize_fault(
            s,
            i,
            new_size,
            mid,
            Some(a),
            f,
        )),
        !(block_resized(s, t, i, new_size, mid, a) && corrupted(s, i, true, f)),
        !(released(s, t, i, ordered) && corrupted(s, i, false, f)),
{
    let got = Some(a);
    assert(got->0 == a);
    if block_taken(s, t, layout, zeroed, mid, a) && alloc_fault(s, layout, zeroed, mid, got, f) {
        lemma_no_mismatch(
            mid.contents()[a as int],
            None,
            layout.size() as int,
            layout.size() as int,
            f->NotZeroed_at,
        );
    }
    if block_resized(s, t, i, new_size, mid, a) && resize_fault(s, i, new_size, mid, got, f) {
        let b = s.live[i];
        lemma_no_mismatch(
            mid.contents()[a as int],
            Some(b.seed),
            b.layout.size() as int,
            min(b.layout.size() as int, new_size as int),
            f->LostBytes_at,
        );
    }
}

} // verus!
