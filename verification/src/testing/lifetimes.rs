//! In which order the blocks of a run come and go, what is checked of them, and what is counted.
use vstd::prelude::*;

use super::choice::{class_choice, op_choice, Block, Order, Profile};
use super::intervals::overlap;
use super::draws::{in_part, law_draws_are_uniform};
use super::model::{sum_sizes, FailureKind, RawAlloc, Request};
use super::pattern::{covered, holds_pattern, pattern_byte};
use super::report::{kind_of, Call, Finding};
use super::rng::{mixed, scaled, Entropy};
use super::trace::{
    alloc_fault, block_resized, block_taken, completes, corrupted, drained, fails, performed,
    released, resize_fault, stepped, Run,
};
use crate::arith::max;
use crate::layout::Layout;

verus! {

/// The block was handed back to the allocator, which went from `old` to `new`.
pub open spec fn handed_back<A: RawAlloc>(old: A, new: A, b: Block) -> bool {
    A::gave(&old, &new, Request::Dealloc { block: b.addr, layout: b.layout }, None)
}

/// A free takes the oldest of the live blocks, the youngest, or any of them alike, as the profile
/// says, and hands it back. The blocks that are left keep their order, but for the last one in the
/// place of a random one. One free is counted, and nothing else.
pub proof fn law_a_free_takes_the_block_of_the_order<A: RawAlloc, E: Entropy>(
    p: Profile,
    s: Run<A>,
    e: E,
    t: Run<A>,
    d: E,
) -> (i: int)
    requires
        stepped(p, s, e, t, d, Ok(true)),
        t.stats.deallocs != s.stats.deallocs,
    ensures
        0 <= i < s.live.len(),
        handed_back(s.alloc, t.alloc, s.live[i]),
        t.live.len() == s.live.len() - 1,
        p.order is Fifo ==> i == 0 && forall|k: int|
            0 <= k < t.live.len() ==> #[trigger] t.live[k] == s.live[k + 1],
        p.order is Lifo ==> i == s.live.len() - 1 && forall|k: int|
            0 <= k < t.live.len() ==> #[trigger] t.live[k] == s.live[k],
        p.order is Random ==> {
            let f = op_choice(
                e,
                p,
                s.live,
                sum_sizes(s.live),
                s.batch_left as int,
                s.free_left as int,
            ).1;
            &&& f.upcoming() matches Some(x) && in_part(x, s.live.len() as int, i)
            &&& forall|k: int|
                0 <= k < t.live.len() ==> #[trigger] t.live[k] == if k == i {
                    s.live.last()
                } else {
                    s.live[k]
                }
        },
        t.stats.deallocs == (s.stats.deallocs + 1) as usize,
        t.stats == (super::model::Stats { deallocs: t.stats.deallocs, ..s.stats }),
        t.next_seed == s.next_seed,
        t.free_left == if s.free_left > 0 {
            s.free_left - 1
        } else {
            0
        },
{
    let (op, f, left) = op_choice(
        e,
        p,
        s.live,
        sum_sizes(s.live),
        s.batch_left as int,
        s.free_left as int,
    );
    let n: int = s.live.len() as int;
    assert(op == Some(super::choice::Op::Dealloc));
    assert(n > 0);
    match p.order {
        Order::Fifo => {
            assert(s.live.remove(0) =~= t.live);
            0
        },
        Order::Lifo => {
            n - 1
        },
        Order::Random => {
            let x: u32 = f.upcoming()->0;
            let i: int = scaled(x as int, n);
            law_draws_are_uniform(x, n, i);
            i
        },
    }
}

/// Every operation between these states is a free.
pub open spec fn only_frees<A: RawAlloc, E: Entropy>(
    p: Profile,
    ss: Seq<Run<A>>,
    es: Seq<E>,
) -> bool {
    forall|j: int, k: int|
        #![trigger ss[j], ss[k]]
        0 <= j && k == j + 1 && k < ss.len() ==> stepped(p, ss[j], es[j], ss[k], es[k], Ok(true))
            && ss[k].stats.deallocs != ss[j].stats.deallocs
}

/// The blocks of a queue are freed first in, first out: while every operation is a free, each
/// takes the block that has been live longest.
pub proof fn law_a_queue_is_freed_from_the_front<A: RawAlloc, E: Entropy>(
    p: Profile,
    ss: Seq<Run<A>>,
    es: Seq<E>,
    k: int,
)
    requires
        p.order is Fifo,
        ss.len() == es.len(),
        0 <= k < ss.len() - 1,
        only_frees(p, ss, es),
    ensures
        k < ss[0].live.len(),
        handed_back(ss[k].alloc, ss[k + 1].alloc, ss[0].live[k]),
        ss[k + 1].live =~= ss[0].live.skip(k + 1),
    decreases k,
{
    if k > 0 {
        law_a_queue_is_freed_from_the_front(p, ss, es, k - 1);
    } else {
        assert(ss[0].live.skip(0) =~= ss[0].live);
    }
    assert(ss[k].live =~= ss[0].live.skip(k));
    let i = law_a_free_takes_the_block_of_the_order(p, ss[k], es[k], ss[k + 1], es[k + 1]);
}

/// The blocks of a stack are freed last in, first out.
pub proof fn law_a_stack_is_freed_from_the_top<A: RawAlloc, E: Entropy>(
    p: Profile,
    ss: Seq<Run<A>>,
    es: Seq<E>,
    k: int,
)
    requires
        p.order is Lifo,
        ss.len() == es.len(),
        0 <= k < ss.len() - 1,
        only_frees(p, ss, es),
    ensures
        k < ss[0].live.len(),
        handed_back(ss[k].alloc, ss[k + 1].alloc, ss[0].live[ss[0].live.len() - 1 - k]),
        ss[k + 1].live =~= ss[0].live.take(ss[0].live.len() - 1 - k),
    decreases k,
{
    let n: int = ss[0].live.len() as int;
    if k > 0 {
        law_a_stack_is_freed_from_the_top(p, ss, es, k - 1);
    } else {
        assert(ss[0].live.take(n) =~= ss[0].live);
    }
    assert(ss[k].live =~= ss[0].live.take(n - k));
    let i = law_a_free_takes_the_block_of_the_order(p, ss[k], es[k], ss[k + 1], es[k + 1]);
}

/// The allocations that are left of the batch when the next operation is performed.
pub open spec fn batch_of<A: RawAlloc, E: Entropy>(p: Profile, s: Run<A>, e: E) -> usize {
    op_choice(
        e,
        p,
        s.live,
        sum_sizes(s.live),
        s.batch_left as int,
        s.free_left as int,
    ).2 as usize
}

/// The high-water mark of the footprint takes in what the allocator says of itself, if it does.
pub open spec fn higher_footprint<A: RawAlloc>(s: Run<A>, t: Run<A>) -> bool {
    match (t.alloc.footprint(), s.stats.peak_footprint_bytes) {
        (None, before) => t.stats.peak_footprint_bytes == before,
        (Some(now), None) => t.stats.peak_footprint_bytes == Some(now),
        (Some(now), Some(before)) => {
            &&& t.stats.peak_footprint_bytes is Some
            &&& t.stats.peak_footprint_bytes->0 == max(now as int, before as int)
        },
    }
}

/// A new block is the youngest. It is the answer to the one request for memory of the operation, is
/// aligned and apart from every live block, and is counted as plain or as zeroed, as it was asked
/// for; a zeroed one was found to be zero wherever it is looked at.
pub proof fn law_a_new_block_is_the_youngest<A: RawAlloc, E: Entropy>(
    p: Profile,
    s: Run<A>,
    e: E,
    t: Run<A>,
    d: E,
) -> (mid: A)
    requires
        stepped(p, s, e, t, d, Ok(true)),
        t.stats.allocs != s.stats.allocs || t.stats.zeroed_allocs != s.stats.zeroed_allocs,
    ensures
        ({
            let b = t.live.last();
            let zeroed = t.stats.zeroed_allocs != s.stats.zeroed_allocs;
            let size = b.layout.size() as int;
            &&& t.live == s.live.push(b)
            &&& A::gave(
                &s.alloc,
                &mid,
                Request::Alloc { layout: b.layout, zeroed },
                Some(b.addr),
            )
            &&& b.addr as int % b.layout.align() as int == 0
            &&& b.addr + size <= usize::MAX
            &&& forall|i: int|
                0 <= i < s.live.len() ==> b.addr + size <= (#[trigger] s.live[i]).addr
                    || s.live[i].addr + s.live[i].layout.size() <= b.addr
            &&& zeroed ==> holds_pattern(mid.contents()[b.addr as int], None, size, size)
            &&& holds_pattern(t.alloc.contents()[b.addr as int], Some(b.seed), size, size)
            &&& t.next_seed == s.next_seed.wrapping_add(1)
            &&& t.stats.deallocs == s.stats.deallocs
            &&& t.stats.reallocs == s.stats.reallocs
            &&& zeroed ==> t.stats.allocs == s.stats.allocs && t.stats.zeroed_allocs == (
            s.stats.zeroed_allocs + 1) as usize
            &&& !zeroed ==> t.stats.allocs == (s.stats.allocs + 1) as usize
            &&& sum_sizes(t.live) <= usize::MAX ==> t.stats.peak_live_bytes == max(
                s.stats.peak_live_bytes as int,
                sum_sizes(t.live),
            )
            &&& t.live.len() <= usize::MAX ==> t.stats.peak_live_blocks == max(
                s.stats.peak_live_blocks as int,
                t.live.len() as int,
            )
            &&& higher_footprint(s, t)
            &&& b.seed == mixed(t.next_seed)
            &&& batch_of(p, s, e) > 0 ==> t.batch_left == batch_of(p, s, e) - 1
            &&& batch_of(p, s, e) == 0 ==> t.batch_left == 0
            &&& batch_of(p, s, e) == 1 && t.live.len() <= usize::MAX ==> t.free_left
                == t.live.len()
            &&& batch_of(p, s, e) != 1 ==> t.free_left == s.free_left
        }),
{
    let (op, f, left) = op_choice(
        e,
        p,
        s.live,
        sum_sizes(s.live),
        s.batch_left as int,
        s.free_left as int,
    );
    let m = Run { batch_left: left as usize, ..s };
    let (mid, a): (A, usize) = choose|mid: A, a: usize| #[trigger]
        block_taken(m, t, op->0->layout, op->0->zeroed, mid, a);
    mid
}

/// A resized block is the youngest: it is taken out, with the last block in its place, and comes
/// back at the end with its new size and its old alignment. Its bytes were found to be kept as far
/// as both sizes go, and it is apart from the other live blocks. One resize is counted.
pub proof fn law_a_resized_block_is_the_youngest<A: RawAlloc, E: Entropy>(
    p: Profile,
    s: Run<A>,
    e: E,
    t: Run<A>,
    d: E,
) -> (r: (int, A))
    requires
        stepped(p, s, e, t, d, Ok(true)),
        t.stats.reallocs != s.stats.reallocs,
        s.live.len() <= usize::MAX,
    ensures
        0 <= r.0 < s.live.len(),
        ({
            let (i, mid) = r;
            let old = s.live[i];
            let b = t.live.last();
            let n = s.live.len();
            let both = if old.layout.size() < b.layout.size() {
                old.layout.size()
            } else {
                b.layout.size()
            };
            &&& t.live.len() == n
            &&& forall|k: int|
                0 <= k < n - 1 ==> #[trigger] t.live[k] == if k == i {
                    s.live.last()
                } else {
                    s.live[k]
                }
            &&& b.layout == Layout::of(b.layout.size(), old.layout.align())
            &&& A::gave(
                &s.alloc,
                &mid,
                Request::Realloc {
                    block: old.addr,
                    layout: old.layout,
                    new_size: b.layout.size(),
                },
                Some(b.addr),
            )
            &&& holds_pattern(
                s.alloc.contents()[old.addr as int],
                Some(old.seed),
                old.layout.size() as int,
                old.layout.size() as int,
            )
            &&& holds_pattern(
                mid.contents()[b.addr as int],
                Some(old.seed),
                old.layout.size() as int,
                both as int,
            )
            &&& b.addr as int % b.layout.align() as int == 0
            &&& forall|k: int|
                0 <= k < n - 1 ==> b.addr + b.layout.size() <= (#[trigger] t.live[k]).addr
                    || t.live[k].addr + t.live[k].layout.size() <= b.addr
            &&& t.stats.reallocs == (s.stats.reallocs + 1) as usize
            &&& t.stats.allocs == s.stats.allocs
            &&& t.stats.zeroed_allocs == s.stats.zeroed_allocs
            &&& t.stats.deallocs == s.stats.deallocs
            &&& sum_sizes(t.live) <= usize::MAX ==> t.stats.peak_live_bytes == max(
                s.stats.peak_live_bytes as int,
                sum_sizes(t.live),
            )
            &&& t.stats.peak_live_blocks == max(s.stats.peak_live_blocks as int, n as int)
            &&& higher_footprint(s, t)
            &&& t.next_seed == s.next_seed.wrapping_add(1)
            &&& b.seed == mixed(t.next_seed)
            &&& holds_pattern(
                t.alloc.contents()[b.addr as int],
                Some(b.seed),
                b.layout.size() as int,
                b.layout.size() as int,
            )
            &&& t.batch_left == batch_of(p, s, e)
            &&& t.free_left == s.free_left
        }),
{
    let (op, f, left) = op_choice(
        e,
        p,
        s.live,
        sum_sizes(s.live),
        s.batch_left as int,
        s.free_left as int,
    );
    let m = Run { batch_left: left as usize, ..s };
    let i: int = op->0->index as int;
    let g = class_choice(e, p, s.batch_left as int, s.free_left as int).1;
    let n: int = s.live.len() as int;
    assert(n > 0);
    law_draws_are_uniform(g.upcoming()->0, n, scaled(g.upcoming()->0 as int, n));
    let (mid, a): (A, usize) = choose|mid: A, a: usize| #[trigger]
        block_resized(m, t, op->0->index as int, op->0->new_size, mid, a);
    Layout::lemma_of(op->0->new_size, s.live[i].layout.align());
    (i, mid)
}

/// Freeing everything hands back every live block once: the oldest first if the profile says so,
/// the youngest first otherwise. As many frees are counted, and no block is left.
pub proof fn law_all_blocks_are_freed_in_order<A: RawAlloc>(p: Profile, s: Run<A>, t: Run<A>) -> (ms:
    Seq<A>)
    requires
        drained(p, s, t),
    ensures
        ({
            let n = s.live.len() as int;
            &&& ms.len() == n + 1
            &&& ms[0] == s.alloc
            &&& ms[n] == t.alloc
            &&& forall|k: int|
                #![trigger s.live[k]]
                0 <= k < n ==> if p.order is Fifo {
                    handed_back(ms[k], ms[k + 1], s.live[k])
                } else {
                    handed_back(ms[n - 1 - k], ms[n - k], s.live[k])
                }
            &&& t.live.len() == 0
            &&& s.stats.deallocs + n <= usize::MAX ==> t.stats.deallocs == s.stats.deallocs + n
            &&& t.stats == (super::model::Stats { deallocs: t.stats.deallocs, ..s.stats })
        }),
    decreases s.live.len(),
{
    let n: int = s.live.len() as int;
    if n == 0 {
        seq![s.alloc]
    } else {
        let i: int = if p.order is Fifo {
            0
        } else {
            n - 1
        };
        let m: Run<A> = choose|m: Run<A>| #[trigger]
            released(s, m, i, p.order is Fifo) && m.live.len() < s.live.len() && drained(p, m, t);
        let rest = law_all_blocks_are_freed_in_order(p, m, t);
        let ms = seq![s.alloc] + rest;
        assert forall|k: int|
            #![trigger s.live[k]]
            0 <= k < n implies if p.order is Fifo {
            handed_back(ms[k], ms[k + 1], s.live[k])
        } else {
            handed_back(ms[n - 1 - k], ms[n - k], s.live[k])
        } by {
            if p.order is Fifo {
                if k > 0 {
                    assert(m.live[k - 1] == s.live[k]);
                    assert(ms[k] == rest[k - 1] && ms[k + 1] == rest[k]);
                }
            } else if k < n - 1 {
                assert(m.live[k] == s.live[k]);
                assert(ms[n - 1 - k] == rest[n - 2 - k] && ms[n - k] == rest[n - 1 - k]);
            }
        }
        ms
    }
}

/// After an operation that ends a stretch of as many as the profile says, no block is live; after
/// any other, and if the profile says none, the blocks are those the operation left.
pub proof fn law_everything_is_freed_at_the_end_of_a_stretch<A: RawAlloc, E: Entropy>(
    p: Profile,
    i: int,
    s: Run<A>,
    e: E,
    m: Run<A>,
    t: Run<A>,
    d: E,
)
    requires
        0 <= i < usize::MAX,
        performed(p, i, s, e, m, t, d),
    ensures
        t.stats.ops == i + 1,
        p.sweep_every == 0 ==> t.live == m.live && t.alloc == m.alloc,
        p.sweep_every > 0 ==> {
            if (i + 1) % p.sweep_every as int == 0 {
                t.live.len() == 0
            } else {
                t.live == m.live && t.alloc == m.alloc
            }
        },
{
    if p.sweep_every > 0 && (i + 1) % p.sweep_every as int == 0 {
        let c = super::trace::counted(m, i);
        let ms = law_all_blocks_are_freed_in_order(p, c, t);
    }
}

/// A run that ends well leaves no block live, and counts no more operations than it was to perform.
pub proof fn law_a_run_that_ends_well_leaves_nothing<A: RawAlloc, E: Entropy>(
    p: Profile,
    s: Run<A>,
    e: E,
    i: int,
    ops: int,
    t: Run<A>,
    d: E,
)
    requires
        0 <= i <= ops <= usize::MAX,
        s.stats.ops == i,
        completes(p, s, e, i, ops, t, d),
    ensures
        t.live.len() == 0,
        i <= t.stats.ops <= ops,
        t.stats.ops < ops ==> exists|m: Run<A>, n: Run<A>, f: E| #[trigger]
            stepped(p, m, f, n, d, Ok(false)),
    decreases ops - i,
{
    if i >= ops {
        let ms = law_all_blocks_are_freed_in_order(p, s, t);
    } else if exists|m: Run<A>| #[trigger] stepped(p, s, e, m, d, Ok(false)) && drained(p, m, t) {
        let m: Run<A> = choose|m: Run<A>| #[trigger]
            stepped(p, s, e, m, d, Ok(false)) && drained(p, m, t);
        let ms = law_all_blocks_are_freed_in_order(p, m, t);
    } else {
        let (m, n, g): (Run<A>, Run<A>, E) = choose|m: Run<A>, n: Run<A>, g: E| #[trigger]
            performed(p, i, s, e, m, n, g) && completes(p, n, g, i + 1, ops, t, d);
        law_everything_is_freed_at_the_end_of_a_stretch(p, i, s, e, m, n, g);
        law_a_run_that_ends_well_leaves_nothing(p, n, g, i + 1, ops, t, d);
    }
}

/// Of the live blocks that share a byte with the `size` bytes at `a`, the one at `b` is the highest.
pub open spec fn highest_overlapped(live: Seq<Block>, a: usize, size: int, b: int) -> bool {
    &&& exists|i: int|
        0 <= i < live.len() && (#[trigger] live[i]).addr == b && live[i].addr < a + size && a
            < live[i].addr + live[i].layout.size()
    &&& forall|i: int|
        0 <= i < live.len() && (#[trigger] live[i]).addr < a + size && a < live[i].addr
            + live[i].layout.size() ==> live[i].addr <= b
}

/// What is reported of an allocation tells what was wrong with the answer: none came, it was not
/// aligned, it ends beyond the address space or overlaps a live block, or a byte of it that was to
/// be zero is not. Nothing else is reported.
pub proof fn law_allocations_are_reported_for_what_is_wrong<A: RawAlloc>(
    s: Run<A>,
    layout: Layout,
    zeroed: bool,
    mid: A,
    got: Option<usize>,
    f: Finding,
)
    requires
        alloc_fault(s, layout, zeroed, mid, got, f),
    ensures
        got is None ==> kind_of(f) == FailureKind::AllocFailed && f == (Finding::Refused {
            call: if zeroed {
                Call::AllocZeroed
            } else {
                Call::Alloc
            },
            layout,
            live_bytes: sum_sizes(s.live) as usize,
        }),
        f is Overlaps ==> highest_overlapped(s.live, got->0, layout.size() as int, f->other as int),
        got matches Some(a) ==> {
            let apart = forall|i: int|
                0 <= i < s.live.len() ==> a + layout.size() <= (#[trigger] s.live[i]).addr
                    || s.live[i].addr + s.live[i].layout.size() <= a;
            if a as int % layout.align() as int != 0 {
                kind_of(f) == FailureKind::Misaligned
            } else if a + layout.size() > usize::MAX || !apart {
                kind_of(f) == FailureKind::Overlap
            } else {
                &&& zeroed
                &&& kind_of(f) == FailureKind::NotZeroed
                &&& exists|k: int|
                    0 <= k < layout.size() && #[trigger] mid.contents()[a as int][k] != 0
            }
        },
{
    if got is Some {
        let a: usize = got->0;
        if super::trace::fits_in(s.live, a, layout) {
            let k: int = f->NotZeroed_at.offset as int;
            assert(pattern_byte(None, k) == 0);
            assert(mid.contents()[a as int][k] != 0);
        }
    }
}

/// The same of a resize, after which a byte that both sizes have may be another one.
pub proof fn law_resizes_are_reported_for_what_is_wrong<A: RawAlloc>(
    s: Run<A>,
    i: int,
    new_size: usize,
    mid: A,
    got: Option<usize>,
    f: Finding,
)
    requires
        resize_fault(s, i, new_size, mid, got, f),
        0 <= i < s.live.len(),
    ensures
        got is None ==> kind_of(f) == FailureKind::AllocFailed,
        got matches Some(a) ==> {
            let b = s.live[i];
            let apart = forall|j: int|
                0 <= j < s.live.len() && j != i ==> a + new_size <= (#[trigger] s.live[j]).addr
                    || s.live[j].addr + s.live[j].layout.size() <= a;
            if a as int % b.layout.align() as int != 0 {
                kind_of(f) == FailureKind::Misaligned
            } else if a + new_size > usize::MAX || !apart {
                kind_of(f) == FailureKind::Overlap
            } else {
                &&& kind_of(f) == FailureKind::ReallocLostBytes
                &&& exists|k: int|
                    0 <= k < new_size && k < b.layout.size()
                        && #[trigger] mid.contents()[a as int][k] != pattern_byte(Some(b.seed), k)
            }
        },
{
    let b = s.live[i];
    let layout = Layout::of(new_size, b.layout.align());
    let n: int = s.live.len() as int;
    let rest = super::model::without(s.live, i, false);
    Layout::lemma_of(new_size, b.layout.align());
    if got is Some {
        let a: usize = got->0;
        if super::trace::fits_in(rest, a, layout) {
            assert forall|j: int| 0 <= j < n && j != i implies a + new_size <= (
            #[trigger] s.live[j]).addr || s.live[j].addr + s.live[j].layout.size() <= a by {
                let k: int = if j == n - 1 {
                    i
                } else {
                    j
                };
                assert(rest[k] == s.live[j]);
            }
        } else if a as int % b.layout.align() as int == 0 && a + new_size <= usize::MAX {
            let k: int = choose|k: int|
                0 <= k < rest.len() && overlap(
                    a as int,
                    a + new_size,
                    (#[trigger] rest[k]).addr as int,
                    rest[k].addr + rest[k].layout.size(),
                );
            let j: int = if k == i {
                n - 1
            } else {
                k
            };
            assert(s.live[j] == rest[k]);
        }
        if super::trace::fits_in(rest, a, layout) {
            let k: int = f->LostBytes_at.offset as int;
            assert(mid.contents()[a as int][k] != pattern_byte(Some(b.seed), k));
        }
    }
}

/// A block that is found corrupted is reported with the first of its bytes that is another one than
/// was written. It is one of the bytes that are looked at, and they all were right before it.
pub proof fn law_corruption_is_reported_at_the_first_wrong_byte<A: RawAlloc>(
    s: Run<A>,
    i: int,
    resizing: bool,
    f: Finding,
    k: int,
)
    requires
        corrupted(s, i, resizing, f),
    ensures
        ({
            let b = s.live[i];
            let c = s.alloc.contents()[b.addr as int];
            let size = b.layout.size() as int;
            let at = f->Corrupted_at;
            &&& kind_of(f) == FailureKind::Corrupted
            &&& f->Corrupted_start == b.addr
            &&& f->Corrupted_layout == b.layout
            &&& f->resizing == resizing
            &&& 0 <= at.offset < size
            &&& at.found == c[at.offset as int]
            &&& at.expected == pattern_byte(Some(b.seed), at.offset as int)
            &&& at.found != at.expected
            &&& 0 <= k < at.offset && covered(size, size, k) ==> c[k] == pattern_byte(
                Some(b.seed),
                k,
            )
        }),
{
}

/// A run that fails does so at one of the operations that were left, or at the last one if there
/// were none, when everything is freed.
pub proof fn law_a_failure_is_dated<A: RawAlloc, E: Entropy>(
    p: Profile,
    s: Run<A>,
    e: E,
    i: int,
    ops: int,
    k: int,
    f: Finding,
)
    requires
        fails(p, s, e, i, ops, k, f),
    ensures
        i < ops ==> i <= k < ops,
        i >= ops ==> k == ops - 1 && s.live.len() > 0,
    decreases ops - i,
{
    if i < ops && k != i {
        let (m, n, g): (Run<A>, Run<A>, E) = choose|m: Run<A>, n: Run<A>, g: E| #[trigger]
            performed(p, i, s, e, m, n, g) && fails(p, n, g, i + 1, ops, k, f);
        law_a_failure_is_dated(p, n, g, i + 1, ops, k, f);
    }
}

} // verus!
