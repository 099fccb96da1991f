//! What holds of the workloads as wholes: the answers of the allocator decide what comes out, and
//! the draws of the random ones do not depend on them.
use vstd::prelude::*;

use super::actions::{
    act, act_answers, acted, action_of, actions_log, after_action, victim_of, Acted, Action,
};
use super::calls::{given, made, remade, returned, Answer};
use super::churn::{churned, populated};
use super::objects::Object;
use super::rng::{output, stepped};
use super::workloads::{
    addr_sum, alloc_log, batch_byte, batch_log, before_step, counted_sum, doubled, doubling_log,
    fixed_log, free_log, freeing_order, large_layout, large_log, large_size, steps_log, touch_log,
    BATCH, REALLOC_STEPS, TOUCH_STRIDE, VEC_TARGET,
};
use crate::layout::Layout;
use crate::testing::model::Request;

verus! {

/// Equal sequences that are put together from parts of the same lengths have the same parts.
proof fn lemma_parts<T>(a: Seq<T>, b: Seq<T>, x: Seq<T>, y: Seq<T>)
    requires
        a + x == b + y,
        a.len() == b.len(),
    ensures
        a == b,
        x == y,
{
    let l = a + x;
    assert(l.len() == a.len() + x.len());
    assert((b + y).len() == b.len() + y.len());
    assert(a =~= l.take(a.len() as int));
    assert(b =~= (b + y).take(a.len() as int));
    assert(x =~= l.skip(a.len() as int));
    assert(y =~= (b + y).skip(a.len() as int));
}

/// A list is its beginning and its last member.
proof fn lemma_last(ps: Seq<usize>, qs: Seq<usize>)
    requires
        ps.len() > 0,
        qs.len() > 0,
        ps.drop_last() == qs.drop_last(),
        ps.last() == qs.last(),
    ensures
        ps == qs,
{
    assert(ps =~= ps.drop_last().push(ps.last()));
    assert(qs =~= qs.drop_last().push(qs.last()));
}

proof fn lemma_fixed_len(layout: Layout, ps: Seq<usize>)
    ensures
        fixed_log(layout, ps).len() == 3 * ps.len(),
    decreases ps.len(),
{
    if ps.len() > 0 {
        lemma_fixed_len(layout, ps.drop_last());
    }
}

/// The answers to the requests of [`alloc_free_fixed`](super::workloads::alloc_free_fixed) decide
/// its checksum.
pub proof fn law_answers_decide_fixed_pairs(layout: Layout, ps: Seq<usize>, qs: Seq<usize>)
    requires
        fixed_log(layout, ps) == fixed_log(layout, qs),
    ensures
        ps == qs,
        counted_sum(ps) == counted_sum(qs),
    decreases ps.len(),
{
    lemma_fixed_len(layout, ps);
    lemma_fixed_len(layout, qs);
    if ps.len() == 0 {
        assert(ps =~= qs);
    } else {
        let a = fixed_log(layout, ps.drop_last());
        let b = fixed_log(layout, qs.drop_last());
        let x = made(layout, ps.last(), (ps.len() - 1) as u8);
        let y = made(layout, qs.last(), (qs.len() - 1) as u8);
        lemma_fixed_len(layout, ps.drop_last());
        lemma_fixed_len(layout, qs.drop_last());
        lemma_parts(
            a + x,
            b + y,
            seq![returned(layout, ps.last())],
            seq![returned(layout, qs.last())],
        );
        lemma_parts(a, b, x, y);
        assert(x[0] == y[0]);
        law_answers_decide_fixed_pairs(layout, ps.drop_last(), qs.drop_last());
        lemma_last(ps, qs);
    }
}

proof fn lemma_large_len(ps: Seq<usize>, qs: Seq<usize>)
    requires
        ps.len() == qs.len(),
    ensures
        large_log(ps).len() == large_log(qs).len(),
    decreases ps.len(),
{
    if ps.len() > 0 {
        lemma_large_len(ps.drop_last(), qs.drop_last());
    }
}

/// The answers to the requests of [`large_alloc_free`](super::workloads::large_alloc_free) decide
/// its checksum.
pub proof fn law_answers_decide_large_blocks(ps: Seq<usize>, qs: Seq<usize>)
    requires
        ps.len() == qs.len(),
        large_log(ps) == large_log(qs),
    ensures
        ps == qs,
        counted_sum(ps) == counted_sum(qs),
    decreases ps.len(),
{
    if ps.len() == 0 {
        assert(ps =~= qs);
    } else {
        let i = ps.len() - 1;
        let n = large_size(i) / TOUCH_STRIDE as int;
        let a = large_log(ps.drop_last());
        let b = large_log(qs.drop_last());
        let x = seq![given(large_layout(i), ps.last())];
        let y = seq![given(large_layout(i), qs.last())];
        let v = touch_log(ps.last(), i as u8, n);
        let w = touch_log(qs.last(), i as u8, n);
        lemma_large_len(ps.drop_last(), qs.drop_last());
        lemma_parts(
            a + x + v,
            b + y + w,
            seq![returned(large_layout(i), ps.last())],
            seq![returned(large_layout(i), qs.last())],
        );
        lemma_parts(a + x, b + y, v, w);
        lemma_parts(a, b, x, y);
        assert(x[0] == y[0]);
        law_answers_decide_large_blocks(ps.drop_last(), qs.drop_last());
        lemma_last(ps, qs);
    }
}

proof fn lemma_alloc_len(layout: Layout, ps: Seq<usize>, r: int)
    ensures
        alloc_log(layout, ps, r).len() == 2 * ps.len(),
    decreases ps.len(),
{
    if ps.len() > 0 {
        lemma_alloc_len(layout, ps.drop_last(), r);
    }
}

/// The answers to the allocations of a batch are its addresses.
proof fn lemma_alloc_log(layout: Layout, ps: Seq<usize>, qs: Seq<usize>, r: int)
    requires
        alloc_log(layout, ps, r) == alloc_log(layout, qs, r),
    ensures
        ps == qs,
    decreases ps.len(),
{
    lemma_alloc_len(layout, ps, r);
    lemma_alloc_len(layout, qs, r);
    if ps.len() == 0 {
        assert(ps =~= qs);
    } else {
        let x = made(layout, ps.last(), batch_byte(ps.len() - 1, r));
        let y = made(layout, qs.last(), batch_byte(qs.len() - 1, r));
        lemma_alloc_len(layout, ps.drop_last(), r);
        lemma_alloc_len(layout, qs.drop_last(), r);
        lemma_parts(
            alloc_log(layout, ps.drop_last(), r),
            alloc_log(layout, qs.drop_last(), r),
            x,
            y,
        );
        assert(x[0] == y[0]);
        lemma_alloc_log(layout, ps.drop_last(), qs.drop_last(), r);
        lemma_last(ps, qs);
    }
}

proof fn lemma_batch_len(layout: Layout, ps: Seq<usize>, lifo: bool, rounds: nat)
    requires
        ps.len() >= rounds * BATCH,
    ensures
        batch_log(layout, ps, lifo, rounds).len() == 3 * BATCH * rounds,
    decreases rounds,
{
    if rounds > 0 {
        let qs = ps.subrange((rounds - 1) * BATCH, rounds * BATCH);
        lemma_batch_len(layout, ps, lifo, (rounds - 1) as nat);
        lemma_alloc_len(layout, qs, rounds - 1);
    }
}

/// The answers to the requests of [`batch_alloc_free`](super::workloads::batch_alloc_free) decide
/// its checksum.
pub proof fn law_answers_decide_batches(
    layout: Layout,
    ps: Seq<usize>,
    qs: Seq<usize>,
    lifo: bool,
    rounds: nat,
)
    requires
        ps.len() == rounds * BATCH,
        qs.len() == rounds * BATCH,
        batch_log(layout, ps, lifo, rounds) == batch_log(layout, qs, lifo, rounds),
    ensures
        ps == qs,
        addr_sum(ps) == addr_sum(qs),
{
    lemma_batches(layout, ps, qs, lifo, rounds);
    assert(ps.subrange(0, rounds * BATCH) =~= ps);
    assert(qs.subrange(0, rounds * BATCH) =~= qs);
}

/// The answers to the first batches are their addresses.
proof fn lemma_batches(
    layout: Layout,
    ps: Seq<usize>,
    qs: Seq<usize>,
    lifo: bool,
    rounds: nat,
)
    requires
        ps.len() >= rounds * BATCH,
        qs.len() >= rounds * BATCH,
        batch_log(layout, ps, lifo, rounds) == batch_log(layout, qs, lifo, rounds),
    ensures
        ps.subrange(0, rounds * BATCH) == qs.subrange(0, rounds * BATCH),
    decreases rounds,
{
    if rounds == 0 {
        assert(ps.subrange(0, 0) =~= qs.subrange(0, 0));
    } else {
        let n = (rounds - 1) as nat;
        let u = ps.subrange(n * BATCH, rounds * BATCH);
        let v = qs.subrange(n * BATCH, rounds * BATCH);
        let a = batch_log(layout, ps, lifo, n);
        let b = batch_log(layout, qs, lifo, n);
        let x = alloc_log(layout, u, n as int);
        let y = alloc_log(layout, v, n as int);
        lemma_batch_len(layout, ps, lifo, n);
        lemma_batch_len(layout, qs, lifo, n);
        lemma_alloc_len(layout, u, n as int);
        lemma_alloc_len(layout, v, n as int);
        lemma_parts(
            a + x,
            b + y,
            free_log(layout, freeing_order(u, lifo)),
            free_log(layout, freeing_order(v, lifo)),
        );
        lemma_parts(a, b, x, y);
        lemma_alloc_log(layout, u, v, n as int);
        lemma_batches(layout, ps, qs, lifo, n);
        assert(ps.subrange(0, rounds * BATCH) =~= ps.subrange(0, n * BATCH) + u);
        assert(qs.subrange(0, rounds * BATCH) =~= qs.subrange(0, n * BATCH) + v);
    }
}

proof fn lemma_steps_len(q: usize, ps: Seq<usize>, k: nat, byte: u8)
    ensures
        steps_log(q, ps, k, byte).len() == 2 * k + 2,
    decreases k,
{
    if k > 0 {
        lemma_steps_len(q, ps, (k - 1) as nat, byte);
    }
}

/// The answers to the resizes of a block are its addresses.
proof fn lemma_steps(q: usize, s: usize, ps: Seq<usize>, qs: Seq<usize>, k: nat, byte: u8)
    requires
        k <= ps.len(),
        k <= qs.len(),
        steps_log(q, ps, k, byte) == steps_log(s, qs, k, byte),
    ensures
        ps.subrange(0, k as int) == qs.subrange(0, k as int),
        q == s,
    decreases k,
{
    if k == 0 {
        assert(ps.subrange(0, 0) =~= qs.subrange(0, 0));
        assert(steps_log(q, ps, 0, byte)[0] == steps_log(s, qs, 0, byte)[0]);
    } else {
        let j = (k - 1) as nat;
        let a = steps_log(q, ps, j, byte);
        let b = steps_log(s, qs, j, byte);
        let layout = Layout::of(doubled(j) as usize, 8);
        let x = remade(
            layout,
            before_step(q, ps, j as int),
            doubled(k) as usize,
            ps[j as int],
            byte,
        );
        let y = remade(
            layout,
            before_step(s, qs, j as int),
            doubled(k) as usize,
            qs[j as int],
            byte,
        );
        lemma_steps_len(q, ps, j, byte);
        lemma_steps_len(s, qs, j, byte);
        lemma_parts(a, b, x, y);
        assert(x[0] == y[0]);
        lemma_steps(q, s, ps, qs, j, byte);
        assert(ps.subrange(0, k as int) =~= ps.subrange(0, j as int).push(ps[j as int]));
        assert(qs.subrange(0, k as int) =~= qs.subrange(0, j as int).push(qs[j as int]));
    }
}

proof fn lemma_doubling_len(qs: Seq<usize>, ps: Seq<usize>, rounds: nat)
    ensures
        doubling_log(qs, ps, rounds).len() == 3 * rounds + 2 * (REALLOC_STEPS * rounds),
    decreases rounds,
{
    if rounds > 0 {
        let r = (rounds - 1) as nat;
        let part = ps.subrange(r * REALLOC_STEPS, rounds * REALLOC_STEPS);
        lemma_doubling_len(qs, ps, r);
        lemma_steps_len(qs[r as int], part, REALLOC_STEPS as nat, r as u8);
    }
}

/// The answers to the first rounds of resizes are their addresses.
proof fn lemma_doublings(
    qs: Seq<usize>,
    ps: Seq<usize>,
    us: Seq<usize>,
    vs: Seq<usize>,
    rounds: nat,
)
    requires
        ps.len() >= rounds * REALLOC_STEPS,
        vs.len() >= rounds * REALLOC_STEPS,
        doubling_log(qs, ps, rounds) == doubling_log(us, vs, rounds),
    ensures
        ps.subrange(0, rounds * REALLOC_STEPS) == vs.subrange(0, rounds * REALLOC_STEPS),
    decreases rounds,
{
    if rounds == 0 {
        assert(ps.subrange(0, 0) =~= vs.subrange(0, 0));
    } else {
        let r = (rounds - 1) as nat;
        let byte = r as u8;
        let n = REALLOC_STEPS as nat;
        let part = ps.subrange(r * REALLOC_STEPS, rounds * REALLOC_STEPS);
        let bit = vs.subrange(r * REALLOC_STEPS, rounds * REALLOC_STEPS);
        let a = doubling_log(qs, ps, r);
        let b = doubling_log(us, vs, r);
        let x = steps_log(qs[r as int], part, n, byte);
        let y = steps_log(us[r as int], bit, n, byte);
        let layout = Layout::of(VEC_TARGET, 8);
        lemma_doubling_len(qs, ps, r);
        lemma_doubling_len(us, vs, r);
        lemma_steps_len(qs[r as int], part, n, byte);
        lemma_steps_len(us[r as int], bit, n, byte);
        lemma_parts(
            a + x,
            b + y,
            seq![returned(layout, part.last())],
            seq![returned(layout, bit.last())],
        );
        lemma_parts(a, b, x, y);
        lemma_steps(qs[r as int], us[r as int], part, bit, n, byte);
        assert(part.subrange(0, n as int) =~= part);
        assert(bit.subrange(0, n as int) =~= bit);
        lemma_doublings(qs, ps, us, vs, r);
        assert(ps.subrange(0, rounds * REALLOC_STEPS) =~= ps.subrange(0, r * REALLOC_STEPS) + part);
        assert(vs.subrange(0, rounds * REALLOC_STEPS) =~= vs.subrange(0, r * REALLOC_STEPS) + bit);
    }
}

/// The answers to the requests of [`realloc_doubling`](super::workloads::realloc_doubling) decide
/// its checksum.
pub proof fn law_answers_decide_doublings(
    qs: Seq<usize>,
    ps: Seq<usize>,
    us: Seq<usize>,
    vs: Seq<usize>,
    rounds: nat,
)
    requires
        ps.len() == rounds * REALLOC_STEPS,
        vs.len() == rounds * REALLOC_STEPS,
        doubling_log(qs, ps, rounds) == doubling_log(us, vs, rounds),
    ensures
        ps == vs,
        addr_sum(ps) == addr_sum(vs),
{
    lemma_doublings(qs, ps, us, vs, rounds);
    assert(ps.subrange(0, rounds * REALLOC_STEPS) =~= ps);
    assert(vs.subrange(0, rounds * REALLOC_STEPS) =~= vs);
}

proof fn lemma_populated_len(ps: Seq<usize>)
    ensures
        populated(ps).log.len() == 2 * ps.len(),
    decreases ps.len(),
{
    if ps.len() > 0 {
        lemma_populated_len(ps.drop_last());
    }
}

/// The answers to the requests of [`churn_init`](super::churn::churn_init) decide the live set and
/// the checksum.
pub proof fn law_answers_decide_the_live_set(ps: Seq<usize>, qs: Seq<usize>)
    requires
        populated(ps).log == populated(qs).log,
    ensures
        ps == qs,
        populated(ps) == populated(qs),
    decreases ps.len(),
{
    lemma_populated_len(ps);
    lemma_populated_len(qs);
    if ps.len() == 0 {
        assert(ps =~= qs);
    } else {
        let a = populated(ps.drop_last());
        let b = populated(qs.drop_last());
        lemma_populated_len(ps.drop_last());
        lemma_populated_len(qs.drop_last());
        let x = populated(ps).log.skip(a.log.len() as int);
        let y = populated(qs).log.skip(b.log.len() as int);
        assert(populated(ps).log =~= a.log + x);
        assert(populated(qs).log =~= b.log + y);
        lemma_parts(a.log, b.log, x, y);
        assert(x[0] == y[0]);
        law_answers_decide_the_live_set(ps.drop_last(), qs.drop_last());
        lemma_last(ps, qs);
    }
}

proof fn lemma_churned_len(table: Seq<Object>, state: u64, ps: Seq<usize>)
    ensures
        churned(table, state, ps).log.len() == 3 * ps.len(),
    decreases ps.len(),
{
    if ps.len() > 0 {
        lemma_churned_len(table, state, ps.drop_last());
    }
}

/// The answers to the requests of [`churn`](super::churn::churn) decide the live set and the
/// checksum.
pub proof fn law_answers_decide_the_churn(
    table: Seq<Object>,
    state: u64,
    ps: Seq<usize>,
    qs: Seq<usize>,
)
    requires
        churned(table, state, ps).log == churned(table, state, qs).log,
    ensures
        ps == qs,
        churned(table, state, ps) == churned(table, state, qs),
    decreases ps.len(),
{
    lemma_churned_len(table, state, ps);
    lemma_churned_len(table, state, qs);
    if ps.len() == 0 {
        assert(ps =~= qs);
    } else {
        let a = churned(table, state, ps.drop_last());
        let b = churned(table, state, qs.drop_last());
        lemma_churned_len(table, state, ps.drop_last());
        lemma_churned_len(table, state, qs.drop_last());
        let x = churned(table, state, ps).log.skip(a.log.len() as int);
        let y = churned(table, state, qs).log.skip(b.log.len() as int);
        assert(churned(table, state, ps).log =~= a.log + x);
        assert(churned(table, state, qs).log =~= b.log + y);
        lemma_parts(a.log, b.log, x, y);
        assert(x[1] == y[1]);
        law_answers_decide_the_churn(table, state, ps.drop_last(), qs.drop_last());
        lemma_last(ps, qs);
    }
}

/// The objects were asked for alike, and their first bytes are the same.
pub open spec fn same_objects(s: Seq<Object>, t: Seq<Object>) -> bool {
    &&& s.len() == t.len()
    &&& forall|i: int|
        0 <= i < s.len() ==> (#[trigger] s[i]).layout == t[i].layout && s[i].first == t[i].first
}

/// The requests are the same but for the addresses of the blocks.
pub open spec fn same_request(x: Request, y: Request) -> bool {
    match (x, y) {
        (Request::Alloc { layout: a, zeroed: c }, Request::Alloc { layout: b, zeroed: d }) => a == b
            && c == d,
        (Request::Dealloc { layout: a, .. }, Request::Dealloc { layout: b, .. }) => a == b,
        (
            Request::Realloc { layout: a, new_size: c, .. },
            Request::Realloc { layout: b, new_size: d, .. },
        ) => a == b && c == d,
        (
            Request::WriteByte { offset: a, byte: c, .. },
            Request::WriteByte { offset: b, byte: d, .. },
        ) => a == b && c == d,
        _ => false,
    }
}

/// A victim is one of the live objects.
proof fn lemma_victim(x: u64, len: int)
    requires
        len > 0,
    ensures
        0 <= victim_of(x, len) < len,
{
    let v: u32 = output(stepped(x));
    assert(0 <= v * len / 0x1_0000_0000 < len) by (nonlinear_arith)
        requires
            0 <= v < 0x1_0000_0000,
            len > 0,
    ;
}

/// The runs are in the same state but for where the objects are.
pub open spec fn same_state(s: Acted, t: Acted) -> bool {
    &&& s.state == t.state
    &&& s.forced == t.forced
    &&& same_objects(s.table, t.table)
}

/// The requests of two runs are the same but for the addresses of the blocks.
pub open spec fn same_requests(x: Seq<Answer>, y: Seq<Answer>) -> bool {
    &&& x.len() == y.len()
    &&& forall|i: int| 0 <= i < x.len() ==> same_request((#[trigger] x[i]).request, y[i].request)
}

/// From such states an action leads to such states.
proof fn lemma_same_act(s: Acted, t: Acted, step: int, p: usize, q: usize, choices: int)
    requires
        same_state(s, t),
    ensures
        same_state(act(s, step, p, choices), act(t, step, q, choices)),
        same_requests(act_answers(s, step, p, choices), act_answers(t, step, q, choices)),
{
    let len: int = s.table.len() as int;
    let x: u64 = after_action(s.state, len);
    let i: int = victim_of(x, len);
    match action_of(s.state, len, choices) {
        Action::Allocate => {},
        Action::Free => {
            lemma_victim(x, len);
            assert(s.table[i].layout == t.table[i].layout);
        },
        Action::Resize => {
            lemma_victim(x, len);
            assert(s.table[i].layout == t.table[i].layout);
        },
    }
}

/// What comes back for an action decides it.
proof fn lemma_act_decided(s: Acted, step: int, p: usize, q: usize, choices: int)
    requires
        act_answers(s, step, p, choices) == act_answers(s, step, q, choices),
    ensures
        act(s, step, p, choices) == act(s, step, q, choices),
{
    let x = act_answers(s, step, p, choices);
    assert(x[0] == act_answers(s, step, q, choices)[0]);
}

/// Every run performs the same actions, whatever addresses come back: the requests, the draws, the
/// forced frees and the objects are the same but for where the objects are.
pub proof fn law_every_run_performs_the_same_actions(
    ps: Seq<usize>,
    qs: Seq<usize>,
    choices: int,
)
    requires
        ps.len() == qs.len(),
    ensures
        same_state(acted(ps, choices), acted(qs, choices)),
        same_requests(actions_log(ps, choices), actions_log(qs, choices)),
    decreases ps.len(),
{
    if ps.len() > 0 {
        let u = ps.drop_last();
        let v = qs.drop_last();
        let step: int = ps.len() - 1;
        law_every_run_performs_the_same_actions(u, v, choices);
        let s = acted(u, choices);
        let t = acted(v, choices);
        lemma_same_act(s, t, step, ps.last(), qs.last(), choices);
        let a = actions_log(u, choices);
        let b = actions_log(v, choices);
        let x = act_answers(s, step, ps.last(), choices);
        let y = act_answers(t, step, qs.last(), choices);
        assert forall|i: int| 0 <= i < (a + x).len() implies same_request(
            (#[trigger] (a + x)[i]).request,
            (b + y)[i].request,
        ) by {
            if i < a.len() {
                assert((a + x)[i] == a[i]);
            } else {
                assert((a + x)[i] == x[i - a.len()]);
            }
        }
    }
}

/// The answers to the requests of [`random_actions`](super::actions::random_actions) decide the
/// live set and the checksum.
pub proof fn law_answers_decide_the_actions(ps: Seq<usize>, qs: Seq<usize>, choices: int)
    requires
        ps.len() == qs.len(),
        actions_log(ps, choices) == actions_log(qs, choices),
    ensures
        acted(ps, choices) == acted(qs, choices),
    decreases ps.len(),
{
    if ps.len() > 0 {
        let u = ps.drop_last();
        let v = qs.drop_last();
        let step: int = ps.len() - 1;
        law_every_run_performs_the_same_actions(u, v, choices);
        let x = act_answers(acted(u, choices), step, ps.last(), choices);
        let y = act_answers(acted(v, choices), step, qs.last(), choices);
        lemma_parts(actions_log(u, choices), actions_log(v, choices), x, y);
        law_answers_decide_the_actions(u, v, choices);
        lemma_act_decided(acted(u, choices), step, ps.last(), qs.last(), choices);
    }
}

} // verus!
