//! Allocation workloads.
//!
//! Every workload goes through the operations of an allocator, writes at least one byte into
//! every object, and folds addresses and bytes into a checksum that is returned, so that none of
//! the work can be dropped. `None` says that the allocator refused. The tables of live objects
//! are the caller's, so that no workload allocates anything but what it measures.
use vstd::prelude::*;

use super::calls::{denied, given, held_back, made, remade, returned, served, wrote, Answer};
use super::objects::{
    is_object, lemma_tracked_nothing, lemma_tracks_nothing, obtain, release, resize, touch, tracks,
    without, Object,
};
use crate::layout::{valid_layout, Layout};
use crate::testing::model::{bytes_kept, RawAlloc};

verus! {

/// A checksum with an address mixed in.
pub open spec fn mixed_in(sum: u32, p: usize) -> u32 {
    ((sum << 5) | (sum >> 27)) ^ (p as u32)
}

/// The checksum of a list of addresses.
pub open spec fn addr_sum(ps: Seq<usize>) -> u32
    decreases ps.len(),
{
    if ps.len() == 0 {
        0
    } else {
        mixed_in(addr_sum(ps.drop_last()), ps.last())
    }
}

/// The checksum of a list of addresses and of a byte per object that counts them.
pub open spec fn counted_sum(ps: Seq<usize>) -> u32
    decreases ps.len(),
{
    if ps.len() == 0 {
        0
    } else {
        mixed_in(counted_sum(ps.drop_last()), ps.last()) ^ (((ps.len() - 1) as u8) as u32)
    }
}

pub(super) fn mix(sum: u32, p: usize) -> (r: u32)
    ensures
        r == mixed_in(sum, p),
{
    ((sum << 5) | (sum >> 27)) ^ (p as u32)
}

/// A layout of `size` bytes aligned to `align`.
fn layout_of(size: usize, align: usize) -> (r: Layout)
    requires
        valid_layout(size as int, align as int),
    ensures
        r == Layout::of(size, align),
        r.size() == size,
        r.align() == align,
        r.wf(),
{
    Layout::from_size_align(size, align).unwrap()
}

/// The allocator's callers hold what they held before, with the bytes as they were.
pub open spec fn left_alone<A: RawAlloc>(old: &A, new: &A) -> bool {
    &&& new.valid()
    &&& new.honest()
    &&& new.held() == old.held()
    &&& bytes_kept(old.contents(), new.contents(), old.held(), -1)
}

/// One object after the other is allocated, written to and freed.
pub open spec fn fixed_log(layout: Layout, ps: Seq<usize>) -> Seq<Answer>
    decreases ps.len(),
{
    if ps.len() == 0 {
        Seq::empty()
    } else {
        fixed_log(layout, ps.drop_last()) + made(layout, ps.last(), (ps.len() - 1) as u8) + seq![
            returned(layout, ps.last()),
        ]
    }
}

/// Allocate and free one object per round, the cache-hot fast path.
pub fn alloc_free_fixed<A: RawAlloc>(alloc: &mut A, iters: usize, size: usize, align: usize) -> (r:
    Option<u32>)
    requires
        old(alloc).valid(),
        old(alloc).honest(),
        size > 0,
        valid_layout(size as int, align as int),
    ensures
        left_alone(old(alloc), final(alloc)),
        r matches Some(sum) ==> exists|ps: Seq<usize>|
            {
                &&& ps.len() == iters
                &&& sum == #[trigger] counted_sum(ps)
                &&& served(*old(alloc), fixed_log(Layout::of(size, align), ps), *final(alloc))
            },
        r is None ==> exists|ps: Seq<usize>|
            {
                &&& ps.len() < iters
                &&& served(
                    *old(alloc),
                    #[trigger] fixed_log(Layout::of(size, align), ps) + seq![
                        denied(Layout::of(size, align)),
                    ],
                    *final(alloc),
                )
            },
{
    let layout = layout_of(size, align);
    let ghost base = alloc.held();
    let ghost bytes = alloc.contents();
    let ghost none = Seq::<Object>::empty();
    let ghost start = *alloc;
    let ghost mut log: Seq<Answer> = Seq::empty();
    let ghost mut ps: Seq<usize> = Seq::empty();
    let mut sum: u32 = 0;
    let mut i: usize = 0;
    proof {
        lemma_tracks_nothing(alloc);
    }
    while i < iters
        invariant
            i <= iters,
            layout.wf(),
            layout.size() > 0,
            tracks(alloc, base, bytes, none),
            none == Seq::<Object>::empty(),
            base == old(alloc).held(),
            bytes == old(alloc).contents(),
            ps.len() == i,
            sum == counted_sum(ps),
            start == *old(alloc),
            layout == Layout::of(size, align),
            log == fixed_log(layout, ps),
            served(start, log, *alloc),
        decreases iters - i,
    {
        let o = match obtain(alloc, layout, i as u8, Ghost(base), Ghost(bytes), Ghost(none)) {
            None => {
                proof {
                    lemma_tracked_nothing(alloc, base, bytes);
                    assert(served(
                        start,
                        fixed_log(layout, ps) + seq![denied(layout)],
                        *alloc,
                    ));
                }
                return None;
            },
            Some(o) => o,
        };
        proof {
            log = log + made(layout, o.addr, i as u8);
        }
        let ghost t = none.push(o);
        proof {
            assert(t[0] == o);
            assert(is_object(alloc, base, t[0]));
        }
        let b: u8 = alloc.read_byte(o.addr, 0);
        sum = mix(sum, o.addr) ^ (b as u32);
        release(alloc, o, Ghost(base), Ghost(bytes), Ghost(t), Ghost(0));
        proof {
            assert(tracks(alloc, base, bytes, without(t, 0, false)));
            assert(without(t, 0, false) =~= none);
            assert(ps.push(o.addr).drop_last() =~= ps);
            ps = ps.push(o.addr);
            log = log + seq![returned(layout, o.addr)];
        }
        i = i + 1;
    }
    proof {
        lemma_tracked_nothing(alloc, base, bytes);
        assert(ps.len() == iters && sum == counted_sum(ps));
    }
    Some(sum)
}

/// Objects of a batch.
pub const BATCH: usize = 1000;

/// The byte that is written into the `i`th object of the batch of round `r`.
pub open spec fn batch_byte(i: int, r: int) -> u8 {
    (i as usize).wrapping_add(r as usize) as u8
}

/// The objects of the batch of round `r` are allocated and written to.
pub open spec fn alloc_log(layout: Layout, ps: Seq<usize>, r: int) -> Seq<Answer>
    decreases ps.len(),
{
    if ps.len() == 0 {
        Seq::empty()
    } else {
        alloc_log(layout, ps.drop_last(), r) + made(
            layout,
            ps.last(),
            batch_byte(ps.len() - 1, r),
        )
    }
}

/// The objects of the batch of round `r`, at the given addresses.
pub open spec fn batch_objects(layout: Layout, ps: Seq<usize>, r: int) -> Seq<Object> {
    Seq::new(ps.len(), |i: int| Object { addr: ps[i], layout, first: batch_byte(i, r) })
}

/// Objects of one layout are freed.
pub open spec fn free_log(layout: Layout, ps: Seq<usize>) -> Seq<Answer> {
    Seq::new(ps.len(), |i: int| returned(layout, ps[i]))
}

/// The order in which a batch is freed.
pub open spec fn freeing_order(ps: Seq<usize>, lifo: bool) -> Seq<usize> {
    if lifo {
        ps.reverse()
    } else {
        ps
    }
}

/// Batches are allocated and freed, the objects of the `r`th at the `r`th [`BATCH`] addresses.
pub open spec fn batch_log(layout: Layout, ps: Seq<usize>, lifo: bool, rounds: nat) -> Seq<Answer>
    decreases rounds,
{
    if rounds == 0 {
        Seq::empty()
    } else {
        let qs = ps.subrange((rounds - 1) * BATCH, rounds * BATCH);
        batch_log(layout, ps, lifo, (rounds - 1) as nat) + alloc_log(layout, qs, rounds - 1)
            + free_log(layout, freeing_order(qs, lifo))
    }
}

/// The log of the batches done does not depend on the addresses that follow.
pub(super) proof fn lemma_batch_log(layout: Layout, ps: Seq<usize>, qs: Seq<usize>, lifo: bool, rounds: nat)
    requires
        ps.len() == rounds * BATCH,
    ensures
        batch_log(layout, ps + qs, lifo, rounds) == batch_log(layout, ps, lifo, rounds),
    decreases rounds,
{
    if rounds > 0 {
        let k: int = (rounds - 1) * BATCH;
        let a = ps.subrange(0, k);
        let b = ps.subrange(k, ps.len() as int);
        assert(ps =~= a + b);
        assert(ps + qs =~= a + (b + qs));
        lemma_batch_log(layout, a, b, lifo, (rounds - 1) as nat);
        lemma_batch_log(layout, a, b + qs, lifo, (rounds - 1) as nat);
        assert((ps + qs).subrange(k, rounds * BATCH) =~= ps.subrange(k, rounds * BATCH));
    }
}

/// Allocate [`BATCH`] objects into `slots`, then free them all, last in first out or first in
/// first out, in every round.
pub fn batch_alloc_free<A: RawAlloc>(
    alloc: &mut A,
    slots: &mut Vec<Object>,
    rounds: usize,
    size: usize,
    lifo: bool,
) -> (r: Option<u32>)
    requires
        old(alloc).valid(),
        old(alloc).honest(),
        old(slots)@.len() == 0,
        size > 0,
        valid_layout(size as int, 8),
    ensures
        tracks(final(alloc), old(alloc).held(), old(alloc).contents(), final(slots)@),
        r matches Some(sum) ==> {
            &&& left_alone(old(alloc), final(alloc))
            &&& final(slots)@.len() == 0
            &&& exists|ps: Seq<usize>|
                {
                    &&& ps.len() == rounds * BATCH
                    &&& sum == #[trigger] addr_sum(ps)
                    &&& served(
                        *old(alloc),
                        batch_log(Layout::of(size, 8), ps, lifo, rounds as nat),
                        *final(alloc),
                    )
                }
        },
        r is None ==> exists|ps: Seq<usize>, qs: Seq<usize>, k: nat|
            {
                &&& k < rounds
                &&& ps.len() == k * BATCH
                &&& qs.len() < BATCH
                &&& final(slots)@ == batch_objects(Layout::of(size, 8), qs, k as int)
                &&& served(
                    *old(alloc),
                    #[trigger] batch_log(Layout::of(size, 8), ps, lifo, k) + #[trigger] alloc_log(
                        Layout::of(size, 8),
                        qs,
                        k as int,
                    ) + seq![denied(Layout::of(size, 8))],
                    *final(alloc),
                )
            },
{
    let layout = layout_of(size, 8);
    let ghost start = *alloc;
    let ghost base = alloc.held();
    let ghost bytes = alloc.contents();
    let ghost mut ps: Seq<usize> = Seq::empty();
    let mut sum: u32 = 0;
    let mut r: usize = 0;
    proof {
        lemma_tracks_nothing(alloc);
        assert(slots@ =~= Seq::<Object>::empty());
    }
    while r < rounds
        invariant
            r <= rounds,
            layout.wf(),
            layout.size() > 0,
            slots@.len() == 0,
            tracks(alloc, base, bytes, slots@),
            base == old(alloc).held(),
            bytes == old(alloc).contents(),
            ps.len() == r * BATCH,
            sum == addr_sum(ps),
            start == *old(alloc),
            layout == Layout::of(size, 8),
            served(start, batch_log(layout, ps, lifo, r as nat), *alloc),
        decreases rounds - r,
    {
        let ghost done = ps;
        let ghost before = batch_log(layout, ps, lifo, r as nat);
        let ghost mut qs: Seq<usize> = Seq::empty();
        proof {
            assert(before + alloc_log(layout, qs, r as int) =~= before);
            assert(slots@ =~= batch_objects(layout, qs, r as int));
        }
        let mut i: usize = 0;
        while i < BATCH
            invariant
                i <= BATCH,
                layout.wf(),
                layout.size() > 0,
                slots@.len() == i,
                tracks(alloc, base, bytes, slots@),
                base == old(alloc).held(),
                bytes == old(alloc).contents(),
                ps.len() == done.len() + i,
                sum == addr_sum(ps),
                start == *old(alloc),
                ps == done + qs,
                qs.len() == i,
                r < rounds,
                layout == Layout::of(size, 8),
                done.len() == r * BATCH,
                before == batch_log(layout, done, lifo, r as nat),
                slots@ == batch_objects(layout, qs, r as int),
                served(start, before + alloc_log(layout, qs, r as int), *alloc),
            decreases BATCH - i,
        {
            let o = match obtain(
                alloc,
                layout,
                i.wrapping_add(r) as u8,
                Ghost(base),
                Ghost(bytes),
                Ghost(slots@),
            ) {
                None => {
                    proof {
                        assert(served(
                            start,
                            batch_log(layout, done, lifo, r as nat) + alloc_log(
                                layout,
                                qs,
                                r as int,
                            ) + seq![denied(layout)],
                            *alloc,
                        ));
                    }
                    return None;
                },
                Some(o) => o,
            };
            slots.push(o);
            sum = mix(sum, o.addr);
            proof {
                assert(ps.push(o.addr).drop_last() =~= ps);
                ps = ps.push(o.addr);
                let byte: u8 = batch_byte(i as int, r as int);
                assert(qs.push(o.addr).drop_last() =~= qs);
                assert(before + alloc_log(layout, qs, r as int) + made(layout, o.addr, byte)
                    =~= before + alloc_log(layout, qs.push(o.addr), r as int));
                qs = qs.push(o.addr);
                assert(ps =~= done + qs);
                assert(slots@ =~= batch_objects(layout, qs, r as int));
            }
            i = i + 1;
        }
        let ghost filled = before + alloc_log(layout, qs, r as int);
        if lifo {
            free_newest_first(
                alloc,
                slots,
                Ghost(base),
                Ghost(bytes),
                Ghost(start),
                Ghost(filled),
                Ghost(layout),
                Ghost(qs),
            );
        } else {
            free_oldest_first(
                alloc,
                slots,
                Ghost(base),
                Ghost(bytes),
                Ghost(start),
                Ghost(filled),
                Ghost(layout),
                Ghost(qs),
            );
        }
        proof {
            lemma_batch_log(layout, done, qs, lifo, r as nat);
            assert(ps.subrange(r * BATCH, (r + 1) * BATCH) =~= qs);
            assert(batch_log(layout, ps, lifo, (r + 1) as nat) == filled + free_log(
                layout,
                freeing_order(qs, lifo),
            ));
        }
        r = r + 1;
    }
    proof {
        assert(slots@ =~= Seq::<Object>::empty());
        lemma_tracked_nothing(alloc, base, bytes);
        assert(ps.len() == rounds * BATCH && sum == addr_sum(ps));
    }
    Some(sum)
}

/// Free all objects, the newest first.
fn free_newest_first<A: RawAlloc>(
    alloc: &mut A,
    slots: &mut Vec<Object>,
    Ghost(base): Ghost<Map<int, Layout>>,
    Ghost(bytes): Ghost<Map<int, Seq<u8>>>,
    Ghost(start): Ghost<A>,
    Ghost(log): Ghost<Seq<Answer>>,
    Ghost(layout): Ghost<Layout>,
    Ghost(qs): Ghost<Seq<usize>>,
)
    requires
        tracks(old(alloc), base, bytes, old(slots)@),
        served(start, log, *old(alloc)),
        qs.len() == old(slots)@.len(),
        forall|j: int|
            0 <= j < qs.len() ==> (#[trigger] old(slots)@[j]).addr == qs[j] && old(slots)@[j].layout
                == layout,
    ensures
        final(slots)@.len() == 0,
        tracks(final(alloc), base, bytes, final(slots)@),
        served(start, log + free_log(layout, freeing_order(qs, true)), *final(alloc)),
{
    let ghost n: int = qs.len() as int;
    let ghost all = free_log(layout, freeing_order(qs, true));
    proof {
        assert(log + all.take(0) =~= log);
    }
    while slots.len() > 0
        invariant
            tracks(alloc, base, bytes, slots@),
            n == qs.len(),
            slots@.len() <= n,
            all == free_log(layout, freeing_order(qs, true)),
            forall|j: int|
                0 <= j < slots@.len() ==> (#[trigger] slots@[j]).addr == qs[j] && slots@[j].layout
                    == layout,
            served(start, log + all.take(n - slots@.len()), *alloc),
        decreases slots@.len(),
    {
        let last: usize = slots.len() - 1;
        let o = slots[last];
        let ghost t = slots@;
        release(alloc, o, Ghost(base), Ghost(bytes), Ghost(t), Ghost(last as int));
        slots.truncate(last);
        proof {
            assert(tracks(alloc, base, bytes, without(t, last as int, false)));
            assert(without(t, last as int, false) =~= slots@);
            let k: int = n - t.len();
            assert(all[k] == returned(layout, o.addr));
            assert(log + all.take(k) + seq![all[k]] =~= log + all.take(k + 1));
        }
    }
    proof {
        assert(all.take(n) =~= all);
    }
}

/// Free all objects, the oldest first.
fn free_oldest_first<A: RawAlloc>(
    alloc: &mut A,
    slots: &mut Vec<Object>,
    Ghost(base): Ghost<Map<int, Layout>>,
    Ghost(bytes): Ghost<Map<int, Seq<u8>>>,
    Ghost(start): Ghost<A>,
    Ghost(log): Ghost<Seq<Answer>>,
    Ghost(layout): Ghost<Layout>,
    Ghost(qs): Ghost<Seq<usize>>,
)
    requires
        tracks(old(alloc), base, bytes, old(slots)@),
        served(start, log, *old(alloc)),
        qs.len() == old(slots)@.len(),
        forall|j: int|
            0 <= j < qs.len() ==> (#[trigger] old(slots)@[j]).addr == qs[j] && old(slots)@[j].layout
                == layout,
    ensures
        final(slots)@.len() == 0,
        tracks(final(alloc), base, bytes, final(slots)@),
        served(start, log + free_log(layout, freeing_order(qs, false)), *final(alloc)),
{
    let n: usize = slots.len();
    let mut k: usize = 0;
    let ghost all = free_log(layout, freeing_order(qs, false));
    proof {
        assert(slots@.skip(0) =~= slots@);
        assert(log + all.take(0) =~= log);
    }
    while k < n
        invariant
            k <= n,
            n == slots@.len(),
            n == qs.len(),
            tracks(alloc, base, bytes, slots@.skip(k as int)),
            all == free_log(layout, freeing_order(qs, false)),
            forall|j: int|
                0 <= j < slots@.len() ==> (#[trigger] slots@[j]).addr == qs[j] && slots@[j].layout
                    == layout,
            served(start, log + all.take(k as int), *alloc),
        decreases n - k,
    {
        let o = slots[k];
        let ghost t = slots@.skip(k as int);
        proof {
            assert(t[0] == o);
        }
        release(alloc, o, Ghost(base), Ghost(bytes), Ghost(t), Ghost(0));
        proof {
            assert(tracks(alloc, base, bytes, without(t, 0, false)));
            assert(without(t, 0, false) =~= slots@.skip(k + 1));
            assert(all[k as int] == returned(layout, o.addr));
            assert(log + all.take(k as int) + seq![all[k as int]] =~= log + all.take(k + 1));
        }
        k = k + 1;
    }
    slots.clear();
    proof {
        assert(all.take(n as int) =~= all);
        assert(slots@ =~= old(slots)@.skip(n as int));
    }
}

/// Bytes a growing buffer ends with.
pub const VEC_TARGET: usize = 1_048_576;

/// The vector of a round, fully grown.
pub open spec fn round_vec(round: usize, v: &Vec<u8>) -> bool {
    &&& v@.len() == VEC_TARGET
    &&& forall|i: int| 0 <= i < VEC_TARGET ==> #[trigger] v@[i] == ((i as usize) ^ round) as u8
}

/// The vector of a round is at `p`.
pub open spec fn grown_to<F: Fn(&Vec<u8>) -> usize>(address: F, round: usize, p: usize) -> bool {
    exists|v: &Vec<u8>| #[trigger] round_vec(round, v) && call_ensures(address, (v,), p)
}

/// Grow a vector from empty to [`VEC_TARGET`] bytes one push at a time.
fn push_growth(round: usize) -> (r: Vec<u8>)
    ensures
        round_vec(round, &r),
{
    let mut v: Vec<u8> = Vec::new();
    let mut i: usize = 0;
    while i < VEC_TARGET
        invariant
            i <= VEC_TARGET,
            v@.len() == i,
            forall|k: int| 0 <= k < i ==> #[trigger] v@[k] == ((k as usize) ^ round) as u8,
        decreases VEC_TARGET - i,
    {
        v.push((i ^ round) as u8);
        i = i + 1;
    }
    v
}

/// The checksum of the vectors of all rounds, at the given addresses.
pub open spec fn growth_sum(ps: Seq<usize>) -> u32
    decreases ps.len(),
{
    if ps.len() == 0 {
        0
    } else {
        let last = ((VEC_TARGET - 1) as usize ^ (ps.len() - 1) as usize) as u8;
        mixed_in(growth_sum(ps.drop_last()), ps.last()) ^ (last as u32) ^ (VEC_TARGET as u32)
    }
}

/// Grow a vector in every round, and fold where it is, its last byte and its length. `address`
/// says where a vector keeps its bytes.
pub fn vec_push_growth<F: Fn(&Vec<u8>) -> usize>(rounds: usize, address: F) -> (r: u32)
    requires
        forall|v: &Vec<u8>| #[trigger] call_requires(address, (v,)),
    ensures
        exists|ps: Seq<usize>|
            {
                &&& ps.len() == rounds
                &&& r == #[trigger] growth_sum(ps)
                &&& forall|i: int|
                    0 <= i < rounds ==> #[trigger] grown_to(address, i as usize, ps[i])
            },
{
    let ghost mut ps: Seq<usize> = Seq::empty();
    let mut sum: u32 = 0;
    let mut r: usize = 0;
    while r < rounds
        invariant
            r <= rounds,
            ps.len() == r,
            sum == growth_sum(ps),
            forall|v: &Vec<u8>| #[trigger] call_requires(address, (v,)),
            forall|i: int| 0 <= i < r ==> #[trigger] grown_to(address, i as usize, ps[i]),
        decreases rounds - r,
    {
        let v: Vec<u8> = push_growth(r);
        let addr: usize = address(&v);
        assert(round_vec(r, &v) && call_ensures(address, (&v,), addr));
        assert(grown_to(address, r, addr));
        sum = mix(sum, addr) ^ (v[VEC_TARGET - 1] as u32) ^ (v.len() as u32);
        proof {
            assert(v@[VEC_TARGET - 1] == (((VEC_TARGET - 1) as usize) ^ r) as u8);
            assert(ps.push(addr).drop_last() =~= ps);
            ps = ps.push(addr);
        }
        r = r + 1;
    }
    proof {
        assert(ps.len() == rounds && sum == growth_sum(ps));
    }
    sum
}

/// Bytes a block that is doubled starts with.
pub const REALLOC_START: usize = 16;

/// Resizes it takes to double a block from its start to its end.
pub const REALLOC_STEPS: usize = 16;

/// The size of a block after `k` doublings.
pub open spec fn doubled(k: nat) -> int {
    REALLOC_START * vstd::arithmetic::power2::pow2(k)
}

/// Where the block of a round is before its `k`th resize: at `q` before the first.
pub open spec fn before_step(q: usize, ps: Seq<usize>, k: int) -> usize {
    if k == 0 {
        q
    } else {
        ps[k - 1]
    }
}

/// A block is allocated at `q`, its first byte written, and then `k` times resized and its last
/// byte written.
pub open spec fn steps_log(q: usize, ps: Seq<usize>, k: nat, byte: u8) -> Seq<Answer>
    decreases k,
{
    if k == 0 {
        made(Layout::of(REALLOC_START, 8), q, byte)
    } else {
        let j = (k - 1) as nat;
        steps_log(q, ps, j, byte) + remade(
            Layout::of(doubled(j) as usize, 8),
            before_step(q, ps, j as int),
            doubled(k) as usize,
            ps[j as int],
            byte,
        )
    }
}

/// The rounds of a block that is doubled: the block of the `r`th round is allocated at `qs[r]`,
/// goes through the `r`th [`REALLOC_STEPS`] addresses of `ps`, and is freed.
pub open spec fn doubling_log(qs: Seq<usize>, ps: Seq<usize>, rounds: nat) -> Seq<Answer>
    decreases rounds,
{
    if rounds == 0 {
        Seq::empty()
    } else {
        let r = rounds - 1;
        let part = ps.subrange(r * REALLOC_STEPS, rounds * REALLOC_STEPS);
        doubling_log(qs, ps, r as nat) + steps_log(qs[r], part, REALLOC_STEPS as nat, r as u8)
            + seq![returned(Layout::of(VEC_TARGET, 8), part.last())]
    }
}

/// The steps of a round do not depend on the addresses that follow.
proof fn lemma_steps_log(q: usize, ps: Seq<usize>, p: usize, k: nat, byte: u8)
    requires
        k <= ps.len(),
    ensures
        steps_log(q, ps.push(p), k, byte) == steps_log(q, ps, k, byte),
    decreases k,
{
    if k > 0 {
        lemma_steps_log(q, ps, p, (k - 1) as nat, byte);
    }
}

/// The log of the rounds done does not depend on the addresses that follow.
pub(super) proof fn lemma_doubling_log(
    qs: Seq<usize>,
    q: usize,
    ps: Seq<usize>,
    more: Seq<usize>,
    rounds: nat,
)
    requires
        rounds <= qs.len(),
        rounds * REALLOC_STEPS <= ps.len(),
    ensures
        doubling_log(qs.push(q), ps + more, rounds) == doubling_log(qs, ps, rounds),
    decreases rounds,
{
    if rounds > 0 {
        lemma_doubling_log(qs, q, ps, more, (rounds - 1) as nat);
        assert((ps + more).subrange((rounds - 1) * REALLOC_STEPS, rounds * REALLOC_STEPS)
            =~= ps.subrange((rounds - 1) * REALLOC_STEPS, rounds * REALLOC_STEPS));
    }
}

/// What is left to be served once no memory came in a round of a block that is doubled: the block
/// itself was refused, or one of its resizes, after which it was freed.
pub open spec fn doubling_end(q: usize, part: Seq<usize>, byte: u8, started: bool) -> Seq<Answer> {
    if started {
        let j = part.len();
        let layout = Layout::of(doubled(j) as usize, 8);
        let at = before_step(q, part, j as int);
        steps_log(q, part, j, byte) + seq![
            held_back(layout, at, doubled(j + 1) as usize),
            returned(layout, at),
        ]
    } else {
        seq![denied(Layout::of(REALLOC_START, 8))]
    }
}

/// Resize a block by doubling from [`REALLOC_START`] bytes to [`VEC_TARGET`], writing the last
/// byte after each step.
pub fn realloc_doubling<A: RawAlloc>(alloc: &mut A, rounds: usize) -> (r: Option<u32>)
    requires
        old(alloc).valid(),
        old(alloc).honest(),
    ensures
        left_alone(old(alloc), final(alloc)),
        r matches Some(sum) ==> exists|qs: Seq<usize>, ps: Seq<usize>|
            {
                &&& qs.len() == rounds
                &&& ps.len() == rounds * REALLOC_STEPS
                &&& sum == addr_sum(ps)
                &&& served(
                    *old(alloc),
                    #[trigger] doubling_log(qs, ps, rounds as nat),
                    *final(alloc),
                )
            },
        r is None ==> exists|
            qs: Seq<usize>,
            ps: Seq<usize>,
            q: usize,
            part: Seq<usize>,
            started: bool,
        |
            {
                &&& qs.len() < rounds
                &&& ps.len() == qs.len() * REALLOC_STEPS
                &&& part.len() < REALLOC_STEPS
                &&& served(
                    *old(alloc),
                    #[trigger] doubling_log(qs, ps, qs.len()) + #[trigger] doubling_end(
                        q,
                        part,
                        qs.len() as u8,
                        started,
                    ),
                    *final(alloc),
                )
            },
{
    let ghost start = *alloc;
    let ghost mut qs: Seq<usize> = Seq::empty();
    let ghost base = alloc.held();
    let ghost bytes = alloc.contents();
    let ghost none = Seq::<Object>::empty();
    let ghost mut ps: Seq<usize> = Seq::empty();
    proof {
        lemma_tracks_nothing(alloc);
        lemma_word_layouts();
    }
    let layout = layout_of(REALLOC_START, 8);
    let mut sum: u32 = 0;
    let mut r: usize = 0;
    while r < rounds
        invariant
            r <= rounds,
            layout.wf(),
            layout.size() == REALLOC_START,
            layout.align() == 8,
            tracks(alloc, base, bytes, none),
            none == Seq::<Object>::empty(),
            base == old(alloc).held(),
            bytes == old(alloc).contents(),
            ps.len() == r * REALLOC_STEPS,
            sum == addr_sum(ps),
            qs.len() == r,
            start == *old(alloc),
            layout == Layout::of(REALLOC_START, 8),
            served(start, doubling_log(qs, ps, r as nat), *alloc),
            forall|size: int| 1 <= size <= VEC_TARGET ==> #[trigger] valid_layout(size, 8),
        decreases rounds - r,
    {
        let ghost done = ps;
        let ghost before = doubling_log(qs, ps, r as nat);
        let ghost mut part: Seq<usize> = Seq::empty();
        let mut o = match obtain(alloc, layout, r as u8, Ghost(base), Ghost(bytes), Ghost(none)) {
            None => {
                proof {
                    lemma_tracked_nothing(alloc, base, bytes);
                    assert(served(
                        start,
                        doubling_log(qs, ps, qs.len()) + doubling_end(0, part, r as u8, false),
                        *alloc,
                    ));
                }
                return None;
            },
            Some(o) => o,
        };
        let ghost q = o.addr;
        proof {
            assert(steps_log(q, part, 0, r as u8) == made(layout, q, r as u8));
            assert(ps =~= done + part);
        }
        let ghost mut t = none.push(o);
        let mut k: usize = 0;
        let mut size: usize = REALLOC_START;
        proof {
            assert(vstd::arithmetic::power2::pow2(0) == 1) by {
                vstd::arithmetic::power2::lemma2_to64();
            }
        }
        while size < VEC_TARGET
            invariant
                k <= REALLOC_STEPS,
                size == REALLOC_START * vstd::arithmetic::power2::pow2(k as nat),
                o.layout.size() == size,
                o.layout.align() == 8,
                t == seq![o],
                tracks(alloc, base, bytes, t),
                base == old(alloc).held(),
                bytes == old(alloc).contents(),
                none == Seq::<Object>::empty(),
                ps.len() == done.len() + k,
                sum == addr_sum(ps),
                start == *old(alloc),
                ps == done + part,
                part.len() == k,
                size == doubled(k as nat),
                o.layout == Layout::of(size, 8),
                o.addr == before_step(q, part, k as int),
                served(start, before + steps_log(q, part, k as nat, r as u8), *alloc),
                r < rounds,
                qs.len() == r,
                done.len() == r * REALLOC_STEPS,
                before == doubling_log(qs, done, r as nat),
                size <= VEC_TARGET,
                forall|size: int| 1 <= size <= VEC_TARGET ==> #[trigger] valid_layout(size, 8),
            decreases VEC_TARGET - size,
        {
            proof {
                vstd::arithmetic::power2::lemma2_to64();
                lemma_doubled(k as nat);
                assert(k < REALLOC_STEPS) by {
                    if k == REALLOC_STEPS {
                        assert(size == VEC_TARGET);
                    }
                }
                assert(valid_layout(2 * size, 8));
            }
            let new_size: usize = size * 2;
            let ghost log = before + steps_log(q, part, k as nat, r as u8);
            match resize(
                alloc,
                o,
                new_size,
                r as u8,
                Ghost(base),
                Ghost(bytes),
                Ghost(t),
                Ghost(0),
            ) {
                None => {
                    release(alloc, o, Ghost(base), Ghost(bytes), Ghost(t), Ghost(0));
                    proof {
                        let x = held_back(o.layout, o.addr, new_size);
                        let y = returned(o.layout, o.addr);
                        assert(log + seq![x] + seq![y] =~= before + doubling_end(
                            q,
                            part,
                            r as u8,
                            true,
                        ));
                        assert(served(
                            start,
                            doubling_log(qs, done, qs.len()) + doubling_end(
                                q,
                                part,
                                qs.len() as u8,
                                true,
                            ),
                            *alloc,
                        ));
                        assert(tracks(alloc, base, bytes, without(t, 0, false)));
                        assert(without(t, 0, false) =~= none);
                        lemma_tracked_nothing(alloc, base, bytes);
                    }
                    return None;
                },
                Some(p) => {
                    proof {
                        Layout::lemma_of(new_size, o.layout.align());
                        assert(t.update(0, p) =~= seq![p]);
                        t = seq![p];
                        assert(ps.push(p.addr).drop_last() =~= ps);
                        ps = ps.push(p.addr);
                        lemma_steps_log(q, part, p.addr, k as nat, r as u8);
                        assert(log + remade(o.layout, o.addr, new_size, p.addr, r as u8) =~= before
                            + steps_log(q, part.push(p.addr), (k + 1) as nat, r as u8));
                        part = part.push(p.addr);
                        assert(ps =~= done + part);
                    }
                    o = p;
                },
            }
            sum = mix(sum, o.addr);
            size = new_size;
            k = k + 1;
        }
        proof {
            vstd::arithmetic::power2::lemma2_to64();
            assert(k == REALLOC_STEPS) by {
                if k < REALLOC_STEPS {
                    lemma_below_target(k as nat);
                }
            }
        }
        release(alloc, o, Ghost(base), Ghost(bytes), Ghost(t), Ghost(0));
        proof {
            assert(tracks(alloc, base, bytes, without(t, 0, false)));
            assert(without(t, 0, false) =~= none);
            lemma_doubling_log(qs, q, done, part, r as nat);
            assert(ps.subrange(r * REALLOC_STEPS, (r + 1) * REALLOC_STEPS) =~= part);
            qs = qs.push(q);
            assert(qs[r as int] == q);
        }
        r = r + 1;
    }
    proof {
        lemma_tracked_nothing(alloc, base, bytes);
        assert(served(start, doubling_log(qs, ps, rounds as nat), *alloc));
    }
    Some(sum)
}

/// Blocks aligned to a word.
proof fn lemma_word_layouts()
    ensures
        forall|size: int| 1 <= size <= VEC_TARGET ==> #[trigger] valid_layout(size, 8),
{
    assert(vstd::arithmetic::power2::is_pow2(8)) by {
        reveal_with_fuel(vstd::arithmetic::power2::is_pow2, 8);
    }
}

proof fn lemma_doubled(k: nat)
    ensures
        REALLOC_START * vstd::arithmetic::power2::pow2(k + 1) == 2 * (REALLOC_START
            * vstd::arithmetic::power2::pow2(k)),
{
    vstd::arithmetic::power2::lemma_pow2_unfold(k + 1);
}

/// Fewer doublings do not reach the end.
proof fn lemma_below_target(k: nat)
    requires
        k < REALLOC_STEPS,
    ensures
        REALLOC_START * vstd::arithmetic::power2::pow2(k) < VEC_TARGET,
{
    vstd::arithmetic::power2::lemma2_to64();
    vstd::arithmetic::power2::lemma_pow2_strictly_increases(k, REALLOC_STEPS as nat);
}

/// Distance between the bytes that are touched in a large block.
pub const TOUCH_STRIDE: usize = 4096;

/// The size of the large block of round `i`: 256 KiB to 4 MiB in turn.
pub open spec fn large_size(i: int) -> int {
    if i % 5 == 0 {
        262_144
    } else if i % 5 == 1 {
        524_288
    } else if i % 5 == 2 {
        1_048_576
    } else if i % 5 == 3 {
        2_097_152
    } else {
        4_194_304
    }
}

fn size_of_round(i: usize) -> (r: usize)
    ensures
        r == large_size(i as int),
        262_144 <= r <= 4_194_304,
        r % TOUCH_STRIDE == 0,
        valid_layout(r as int, 16),
{
    proof {
        assert(vstd::arithmetic::power2::is_pow2(16)) by {
            reveal_with_fuel(vstd::arithmetic::power2::is_pow2, 8);
        }
    }
    let k: usize = i % 5;
    if k == 0 {
        262_144
    } else if k == 1 {
        524_288
    } else if k == 2 {
        1_048_576
    } else if k == 3 {
        2_097_152
    } else {
        4_194_304
    }
}

/// The layout of the large object of round `i`.
pub open spec fn large_layout(i: int) -> Layout {
    Layout::of(large_size(i) as usize, 16)
}

/// The first `n` bytes that are touched in the block at `a`.
pub open spec fn touch_log(a: usize, byte: u8, n: int) -> Seq<Answer> {
    Seq::new(n as nat, |k: int| wrote(a, k * TOUCH_STRIDE, byte))
}

/// One large object after the other is allocated, touched and freed.
pub open spec fn large_log(ps: Seq<usize>) -> Seq<Answer>
    decreases ps.len(),
{
    if ps.len() == 0 {
        Seq::empty()
    } else {
        let i = ps.len() - 1;
        let p = ps.last();
        large_log(ps.drop_last()) + seq![given(large_layout(i), p)] + touch_log(
            p,
            i as u8,
            large_size(i) / TOUCH_STRIDE as int,
        ) + seq![returned(large_layout(i), p)]
    }
}

/// Allocate, touch one byte per [`TOUCH_STRIDE`], and free; the sizes go through 256 KiB to 4 MiB
/// in turn.
pub fn large_alloc_free<A: RawAlloc>(alloc: &mut A, iters: usize) -> (r: Option<u32>)
    requires
        old(alloc).valid(),
        old(alloc).honest(),
    ensures
        left_alone(old(alloc), final(alloc)),
        r matches Some(sum) ==> exists|ps: Seq<usize>|
            {
                &&& ps.len() == iters
                &&& sum == #[trigger] counted_sum(ps)
                &&& served(*old(alloc), large_log(ps), *final(alloc))
            },
        r is None ==> exists|ps: Seq<usize>|
            {
                &&& ps.len() < iters
                &&& served(
                    *old(alloc),
                    #[trigger] large_log(ps) + seq![denied(large_layout(ps.len() as int))],
                    *final(alloc),
                )
            },
{
    let ghost start = *alloc;
    let ghost mut log: Seq<Answer> = Seq::empty();
    let ghost base = alloc.held();
    let ghost bytes = alloc.contents();
    let ghost none = Seq::<Object>::empty();
    let ghost mut ps: Seq<usize> = Seq::empty();
    let mut sum: u32 = 0;
    let mut i: usize = 0;
    proof {
        lemma_tracks_nothing(alloc);
    }
    while i < iters
        invariant
            i <= iters,
            tracks(alloc, base, bytes, none),
            none == Seq::<Object>::empty(),
            base == old(alloc).held(),
            bytes == old(alloc).contents(),
            ps.len() == i,
            sum == counted_sum(ps),
            start == *old(alloc),
            log == large_log(ps),
            served(start, log, *alloc),
        decreases iters - i,
    {
        let size: usize = size_of_round(i);
        let layout = layout_of(size, 16);
        let o = match obtain(alloc, layout, i as u8, Ghost(base), Ghost(bytes), Ghost(none)) {
            None => {
                proof {
                    lemma_tracked_nothing(alloc, base, bytes);
                    assert(served(
                        start,
                        large_log(ps) + seq![denied(large_layout(ps.len() as int))],
                        *alloc,
                    ));
                }
                return None;
            },
            Some(o) => o,
        };
        proof {
            log = log + seq![given(layout, o.addr)];
            assert(large_log(ps) + made(layout, o.addr, i as u8) =~= log + touch_log(
                o.addr,
                i as u8,
                1,
            ));
        }
        let ghost mut n: int = 1;
        let ghost t = none.push(o);
        let mut off: usize = TOUCH_STRIDE;
        proof {
            assert(t[0] == o);
            assert(is_object(alloc, base, t[0]));
        }
        while off < size
            invariant
                TOUCH_STRIDE <= off <= size,
                size <= 4_194_304,
                size % TOUCH_STRIDE == 0,
                off % TOUCH_STRIDE == 0,
                o.layout.size() == size,
                t.len() == 1,
                t[0] == o,
                tracks(alloc, base, bytes, t),
                off == n * TOUCH_STRIDE,
                served(start, log + touch_log(o.addr, i as u8, n), *alloc),
                alloc.contents()[o.addr as int][off - TOUCH_STRIDE] == i as u8,
            decreases size - off,
        {
            touch(
                alloc,
                o,
                off,
                i as u8,
                Ghost(base),
                Ghost(bytes),
                Ghost(t),
                Ghost(0),
            );
            proof {
                assert(log + touch_log(o.addr, i as u8, n) + seq![
                    wrote(o.addr, off as int, i as u8),
                ] =~= log + touch_log(o.addr, i as u8, n + 1));
                n = n + 1;
            }
            off = off + TOUCH_STRIDE;
        }
        proof {
            assert(is_object(alloc, base, t[0]));
        }
        let b: u8 = alloc.read_byte(o.addr, size - TOUCH_STRIDE);
        sum = mix(sum, o.addr) ^ (b as u32);
        release(alloc, o, Ghost(base), Ghost(bytes), Ghost(t), Ghost(0));
        proof {
            assert(tracks(alloc, base, bytes, without(t, 0, false)));
            assert(without(t, 0, false) =~= none);
            assert(ps.push(o.addr).drop_last() =~= ps);
            ps = ps.push(o.addr);
            log = log + touch_log(o.addr, i as u8, n) + seq![returned(layout, o.addr)];
        }
        i = i + 1;
    }
    proof {
        lemma_tracked_nothing(alloc, base, bytes);
        assert(ps.len() == iters && sum == counted_sum(ps));
    }
    Some(sum)
}

} // verus!
