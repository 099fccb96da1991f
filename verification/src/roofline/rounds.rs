//! What one more round of a workload asks for.
use vstd::arithmetic::power2::pow2;
use vstd::prelude::*;

use super::calls::{given, moved, returned, wrote};
use super::memory::{growth_log, touched_word};
use super::workloads::{
    alloc_log, batch_log, counted_sum, doubled, doubling_log, fixed_log, free_log, freeing_order,
    growth_sum, lemma_batch_log, lemma_doubling_log, mixed_in, round_vec, steps_log, BATCH,
    REALLOC_STEPS,
};
use crate::layout::Layout;

verus! {

/// A round of fixed-size pairs allocates an object, writes the number of the round into its first
/// byte and frees it. The checksum takes in where it was and the byte.
pub proof fn law_a_pair_is_allocated_written_and_freed(layout: Layout, ps: Seq<usize>, p: usize)
    ensures
        fixed_log(layout, ps.push(p)) == fixed_log(layout, ps) + seq![
            given(layout, p),
            wrote(p, 0, ps.len() as u8),
            returned(layout, p),
        ],
        counted_sum(ps.push(p)) == mixed_in(counted_sum(ps), p) ^ ((ps.len() as u8) as u32),
{
    assert(ps.push(p).drop_last() =~= ps);
}

/// Where the answers for the first objects of a batch are.
proof fn lemma_alloc_log(layout: Layout, qs: Seq<usize>, r: int, i: int)
    requires
        0 <= i < qs.len(),
    ensures
        alloc_log(layout, qs, r).len() == 2 * qs.len(),
        alloc_log(layout, qs, r)[2 * i] == given(layout, qs[i]),
        alloc_log(layout, qs, r)[2 * i + 1] == wrote(
            qs[i],
            0,
            (i as usize).wrapping_add(r as usize) as u8,
        ),
    decreases qs.len(),
{
    lemma_alloc_log_len(layout, qs.drop_last(), r);
    if i < qs.len() - 1 {
        lemma_alloc_log(layout, qs.drop_last(), r, i);
    }
}

proof fn lemma_alloc_log_len(layout: Layout, qs: Seq<usize>, r: int)
    ensures
        alloc_log(layout, qs, r).len() == 2 * qs.len(),
    decreases qs.len(),
{
    if qs.len() > 0 {
        lemma_alloc_log_len(layout, qs.drop_last(), r);
    }
}

/// A round of a batch allocates its thousand objects one after the other, each with a byte that
/// counts it from the number of the round on, and then frees them all: the last first, or the first
/// first.
pub proof fn law_a_batch_is_allocated_and_then_freed(
    layout: Layout,
    ps: Seq<usize>,
    qs: Seq<usize>,
    lifo: bool,
    rounds: nat,
    i: int,
)
    requires
        ps.len() == rounds * 1000,
        qs.len() == 1000,
        0 <= i < 1000,
    ensures
        ({
            let before = batch_log(layout, ps, lifo, rounds);
            let log = batch_log(layout, ps + qs, lifo, rounds + 1);
            let n = before.len() as int;
            &&& log.len() == n + 3000
            &&& log.take(n) == before
            &&& log[n + 2 * i] == given(layout, qs[i])
            &&& log[n + 2 * i + 1] == wrote(
                qs[i],
                0,
                (i as usize).wrapping_add(rounds as usize) as u8,
            )
            &&& lifo ==> log[n + 2000 + i] == returned(layout, qs[999 - i])
            &&& !lifo ==> log[n + 2000 + i] == returned(layout, qs[i])
        }),
{
    let all = ps + qs;
    let before = batch_log(layout, ps, lifo, rounds);
    let log = batch_log(layout, all, lifo, rounds + 1);
    let n: int = before.len() as int;
    assert(rounds * BATCH == ps.len());
    assert((rounds + 1) * BATCH == all.len());
    lemma_batch_log(layout, ps, qs, lifo, rounds);
    assert(all.subrange(rounds * BATCH, (rounds + 1) * BATCH) =~= qs);
    let made = alloc_log(layout, qs, rounds as int);
    let back = free_log(layout, freeing_order(qs, lifo));
    lemma_alloc_log(layout, qs, rounds as int, i);
    assert(log == before + made + back);
    assert(log.take(n) =~= before);
    assert(log[n + 2 * i] == made[2 * i]);
    assert(log[n + 2 * i + 1] == made[2 * i + 1]);
    assert(log[n + 2000 + i] == back[i]);
}

/// A block of 16 bytes doubles with every step.
proof fn lemma_doubled(k: nat)
    ensures
        doubled(0) == 16,
        doubled(k + 1) == 2 * doubled(k),
        doubled(k) >= 16,
{
    vstd::arithmetic::power2::lemma_pow2_unfold(k + 1);
    vstd::arithmetic::power2::lemma_pow2_pos(k);
    vstd::arithmetic::power2::lemma2_to64();
    assert(pow2(k + 1) == 2 * pow2(k));
}

/// Where the answers for the steps of a round are.
proof fn lemma_steps(q: usize, part: Seq<usize>, n: nat, byte: u8, k: int)
    requires
        0 <= k < n <= part.len(),
    ensures
        ({
            let log = steps_log(q, part, n, byte);
            let old = Layout::of(doubled(k as nat) as usize, 8);
            let new = doubled((k + 1) as nat) as usize;
            let from = if k == 0 {
                q
            } else {
                part[k - 1]
            };
            &&& log.len() == 2 * n + 2
            &&& log[0] == given(Layout::of(16, 8), q)
            &&& log[1] == wrote(q, 0, byte)
            &&& log[2 * k + 2] == moved(old, from, new, part[k])
            &&& log[2 * k + 3] == wrote(part[k], new - 1, byte)
        }),
    decreases n,
{
    let m: nat = (n - 1) as nat;
    if m > 0 {
        if k < m {
            lemma_steps(q, part, m, byte, k);
        } else {
            lemma_steps(q, part, m, byte, 0);
        }
    } else {
        assert(steps_log(q, part, 0, byte).len() == 2);
    }
}

/// A round of doublings allocates 16 bytes, writes the number of the round into the first byte, and
/// then resizes the block sixteen times to twice its size, up to 1 MiB, writing the last byte every
/// time. In the end it is freed.
pub proof fn law_a_block_is_doubled_up_to_a_mebibyte(
    qs: Seq<usize>,
    q: usize,
    ps: Seq<usize>,
    part: Seq<usize>,
    rounds: nat,
    k: int,
    size: int,
)
    requires
        qs.len() == rounds,
        ps.len() == rounds * 16,
        part.len() == 16,
        0 <= k < 16,
        size == 16 * pow2(k as nat),
    ensures
        ({
            let before = doubling_log(qs, ps, rounds);
            let log = doubling_log(qs.push(q), ps + part, rounds + 1);
            let n = before.len() as int;
            let byte = rounds as int as u8;
            let from = if k == 0 {
                q
            } else {
                part[k - 1]
            };
            &&& log.len() == n + 35
            &&& log.take(n) == before
            &&& log[n] == given(Layout::of(16, 8), q)
            &&& log[n + 1] == wrote(q, 0, byte)
            &&& log[n + 2 + 2 * k] == moved(
                Layout::of(size as usize, 8),
                from,
                (2 * size) as usize,
                part[k],
            )
            &&& log[n + 3 + 2 * k] == wrote(part[k], (2 * size) as usize - 1, byte)
            &&& log[n + 34] == returned(Layout::of(1048576, 8), part[15])
        }),
{
    let before = doubling_log(qs, ps, rounds);
    let all = ps + part;
    let log = doubling_log(qs.push(q), all, rounds + 1);
    let n: int = before.len() as int;
    assert(rounds * REALLOC_STEPS == ps.len());
    assert((rounds + 1) * REALLOC_STEPS == all.len());
    lemma_doubling_log(qs, q, ps, part, rounds);
    assert(all.subrange(rounds * REALLOC_STEPS, (rounds + 1) * REALLOC_STEPS) =~= part);
    let byte: u8 = rounds as int as u8;
    let steps = steps_log(q, part, 16, byte);
    lemma_steps(q, part, 16, byte, k);
    lemma_doubled(k as nat);
    assert(log == before + steps + seq![returned(Layout::of(1048576, 8), part[15])]);
    assert(log.take(n) =~= before);
    assert(log[n] == steps[0] && log[n + 1] == steps[1]);
    assert(log[n + 2 + 2 * k] == steps[2 * k + 2]);
    assert(log[n + 3 + 2 * k] == steps[2 * k + 3]);
}

/// The vector of a round holds 1 MiB, each byte the last of its place and the number of the round,
/// one exclusive or the other. The checksum takes in where it is, its last byte and its length.
pub proof fn law_a_vector_is_folded_with_its_end_and_its_length(
    ps: Seq<usize>,
    p: usize,
    v: &Vec<u8>,
    i: int,
)
    requires
        round_vec(ps.len() as usize, v),
        ps.len() <= usize::MAX,
        0 <= i < 1048576,
    ensures
        v@.len() == 1048576,
        v@[i] == ((i as usize) ^ (ps.len() as usize)) as u8,
        growth_sum(ps.push(p)) == mixed_in(growth_sum(ps), p) ^ (v@.last() as u32) ^ 1048576,
{
    assert(ps.push(p).drop_last() =~= ps);
    assert(v@.last() == v@[1048575]);
}

/// Memory is asked for 16 pages at a time, and of the words of what comes, the first of every 4 KiB
/// below a bound holds a byte and all others are zero.
pub proof fn law_growths_are_touched_every_four_kibibytes(
    ps: Seq<usize>,
    i: int,
    base: int,
    byte: u8,
    to: int,
    k: int,
    d: int,
)
    requires
        0 <= i < ps.len(),
        0 <= d < 4096,
    ensures
        growth_log(ps).len() == ps.len(),
        growth_log(ps)[i].slices == 16,
        growth_log(ps)[i].first == Some(ps[i] as int / 65536),
        touched_word(base, byte, to, base + 4096 * k + d) == if d == 0 && 4096 * k < to {
            byte as u64
        } else {
            0
        },
{
    assert((4096 * k + d) % 4096 == d);
}

} // verus!
