//! The churn workload: many live objects, one of which is replaced at every step.
use vstd::arithmetic::power2::is_pow2;
use vstd::prelude::*;

use super::calls::{denied, made, returned, served, Answer};
use super::objects::{
    is_object, lemma_tracked_nothing, lemma_tracks_nothing, obtain, release, tracks, without,
    Object,
};
use super::rng::{output, stepped, Rng};
use super::workloads::{mix, mixed_in};
use crate::layout::{valid_layout, Layout};
use crate::testing::model::{bytes_kept, RawAlloc};
use crate::testing::rng::scaled;

verus! {

/// Objects live at once.
pub const CHURN_LIVE: usize = 10_000;

/// Smallest object.
pub const CHURN_MIN: usize = 16;

/// Largest object.
pub const CHURN_MAX: usize = 1024;

pub const CHURN_ALIGN: usize = 8;

pub const CHURN_SEED: u64 = 0x5eed_1234_abcd_0001;

/// Sizes to draw from: the multiples of 8 from the smallest to the largest.
pub const CHURN_SIZES: u32 = 127;

/// The live objects and the generator.
pub struct Churn {
    table: Vec<Object>,
    rng: Rng,
    base: Ghost<Map<int, Layout>>,
    bytes: Ghost<Map<int, Seq<u8>>>,
}

/// The size that is drawn when the generator steps to `x`: uniform over the multiples of 8 from
/// the smallest to the largest, the layouts an 8-aligned struct of that size range would request.
pub open spec fn drawn_size(x: u64) -> usize {
    (CHURN_MIN + 8 * scaled(output(x) as int, CHURN_SIZES as int)) as usize
}

/// The layout of that size.
pub open spec fn drawn_layout(x: u64) -> Layout {
    Layout::of(drawn_size(x), CHURN_ALIGN)
}

/// The object that is made when the generator steps to `x`.
pub open spec fn drawn_object(x: u64, addr: usize, first: u8) -> Object {
    Object { addr, layout: drawn_layout(x), first }
}

/// The objects of a table are freed in order.
pub open spec fn table_log(t: Seq<Object>) -> Seq<Answer> {
    Seq::new(t.len(), |i: int| returned(t[i].layout, t[i].addr))
}

/// The live objects, the generator and the checksum at some point.
pub struct Churned {
    pub table: Seq<Object>,
    pub state: u64,
    pub sum: u32,
    /// The requests made so far.
    pub log: Seq<Answer>,
}

/// The live set being built, with the objects at the given addresses.
pub open spec fn populated(ps: Seq<usize>) -> Churned
    decreases ps.len(),
{
    if ps.len() == 0 {
        Churned {
            table: Seq::empty(),
            state: CHURN_SEED | 0x9E37_79B9_7F4A_7C15,
            sum: 0,
            log: Seq::empty(),
        }
    } else {
        let d = populated(ps.drop_last());
        let x = stepped(d.state);
        Churned {
            table: d.table.push(drawn_object(x, ps.last(), (ps.len() - 1) as u8)),
            state: x,
            sum: mixed_in(d.sum, ps.last()),
            log: d.log + made(drawn_layout(x), ps.last(), (ps.len() - 1) as u8),
        }
    }
}

/// The steps of the workload, with the replacements at the given addresses.
pub open spec fn churned(table: Seq<Object>, state: u64, ps: Seq<usize>) -> Churned
    decreases ps.len(),
{
    if ps.len() == 0 {
        Churned { table, state, sum: 0, log: Seq::empty() }
    } else {
        let d = churned(table, state, ps.drop_last());
        let x = stepped(d.state);
        let y = stepped(x);
        let i = scaled(output(x) as int, CHURN_LIVE as int);
        let o = d.table[i];
        Churned {
            table: d.table.update(i, drawn_object(y, ps.last(), (ps.len() - 1) as u8)),
            state: y,
            sum: mixed_in(d.sum, ps.last()),
            log: d.log + seq![returned(o.layout, o.addr)] + made(
                drawn_layout(y),
                ps.last(),
                (ps.len() - 1) as u8,
            ),
        }
    }
}

/// The live set could not be built further: the next object was refused.
pub open spec fn populated_until<A: RawAlloc>(
    old: A,
    new: A,
    table: Seq<Object>,
    state: u64,
    ps: Seq<usize>,
) -> bool {
    let d = populated(ps);
    let x = stepped(d.state);
    &&& ps.len() < CHURN_LIVE
    &&& table == d.table
    &&& state == x
    &&& served(old, d.log + seq![denied(drawn_layout(x))], new)
}

/// The steps could not go on: an object was freed, and its replacement refused.
pub open spec fn churned_until<A: RawAlloc>(
    old: A,
    new: A,
    c: &Churn,
    steps: int,
    table: Seq<Object>,
    state: u64,
    ps: Seq<usize>,
) -> bool {
    let d = churned(c.table(), c.state(), ps);
    let x = stepped(d.state);
    let y = stepped(x);
    let i = scaled(output(x) as int, CHURN_LIVE as int);
    let o = d.table[i];
    &&& ps.len() < steps
    &&& table == d.table.remove(i)
    &&& state == y
    &&& served(
        old,
        d.log + seq![returned(o.layout, o.addr)] + seq![denied(drawn_layout(y))],
        new,
    )
}

/// The exclusive or of the first bytes of the objects.
pub open spec fn firsts(t: Seq<Object>) -> u32
    decreases t.len(),
{
    if t.len() == 0 {
        0
    } else {
        firsts(t.drop_last()) ^ (t.last().first as u32)
    }
}

fn churn_size(rng: &mut Rng) -> (r: usize)
    ensures
        final(rng)@ == stepped(old(rng)@),
        r == drawn_size(final(rng)@),
        CHURN_MIN <= r <= CHURN_MAX,
        valid_layout(r as int, CHURN_ALIGN as int),
{
    let k: u32 = rng.below(CHURN_SIZES);
    proof {
        assert(is_pow2(8)) by {
            reveal_with_fuel(is_pow2, 8);
        }
    }
    CHURN_MIN + 8 * k as usize
}

impl Churn {
    /// The live objects.
    pub closed spec fn table(&self) -> Seq<Object> {
        self.table@
    }

    /// The state of the generator.
    pub closed spec fn state(&self) -> u64 {
        self.rng@
    }

    /// What the allocator's callers held before the live set was populated.
    pub closed spec fn base(&self) -> Map<int, Layout> {
        self.base@
    }

    /// The bytes of those blocks.
    pub closed spec fn bytes(&self) -> Map<int, Seq<u8>> {
        self.bytes@
    }

    /// The live objects are the allocator's, besides what its callers held before.
    pub open spec fn live_in<A: RawAlloc>(&self, alloc: &A) -> bool {
        tracks(alloc, self.base(), self.bytes(), self.table())
    }

    /// No live objects, and room for all there will be.
    pub fn new() -> (r: Self)
        ensures
            r.table() == Seq::<Object>::empty(),
            r.state() == CHURN_SEED | 0x9E37_79B9_7F4A_7C15,
            r.base() == Map::<int, Layout>::empty(),
            r.bytes() == Map::<int, Seq<u8>>::empty(),
    {
        Churn {
            table: Vec::with_capacity(CHURN_LIVE),
            rng: Rng::new(CHURN_SEED),
            base: Ghost(Map::empty()),
            bytes: Ghost(Map::empty()),
        }
    }
}

/// Populate the live set.
pub fn churn_init<A: RawAlloc>(alloc: &mut A, c: &mut Churn) -> (r: Option<u32>)
    requires
        old(alloc).valid(),
        old(alloc).honest(),
        old(c).table().len() == 0,
    ensures
        final(c).base() == old(alloc).held(),
        final(c).bytes() == old(alloc).contents(),
        final(c).live_in(final(alloc)),
        r matches Some(sum) ==> exists|ps: Seq<usize>|
            {
                &&& ps.len() == CHURN_LIVE
                &&& #[trigger] populated(ps) == (Churned {
                    table: final(c).table(),
                    state: final(c).state(),
                    sum,
                    log: populated(ps).log,
                })
                &&& served(*old(alloc), populated(ps).log, *final(alloc))
            },
        r is None ==> exists|ps: Seq<usize>| #[trigger]
            populated_until(
                *old(alloc),
                *final(alloc),
                final(c).table(),
                final(c).state(),
                ps,
            ),
        r is Some ==> final(c).table().len() == CHURN_LIVE,
{
    let ghost base = alloc.held();
    let ghost bytes = alloc.contents();
    let ghost start = *alloc;
    let ghost mut log: Seq<Answer> = Seq::empty();
    let ghost mut ps: Seq<usize> = Seq::empty();
    c.rng = Rng::new(CHURN_SEED);
    c.base = Ghost(base);
    c.bytes = Ghost(bytes);
    let mut sum: u32 = 0;
    let mut i: usize = 0;
    proof {
        lemma_tracks_nothing(alloc);
        assert(c.table@ =~= Seq::<Object>::empty());
    }
    while i < CHURN_LIVE
        invariant
            i <= CHURN_LIVE,
            base == old(alloc).held(),
            bytes == old(alloc).contents(),
            c.base@ == base,
            c.bytes@ == bytes,
            tracks(alloc, base, bytes, c.table@),
            c.table@.len() == i,
            ps.len() == i,
            start == *old(alloc),
            populated(ps) == (Churned { table: c.table@, state: c.rng@, sum, log }),
            served(start, log, *alloc),
        decreases CHURN_LIVE - i,
    {
        let size: usize = churn_size(&mut c.rng);
        let layout = Layout::from_size_align(size, CHURN_ALIGN).unwrap();
        let o = match obtain(
            alloc,
            layout,
            i as u8,
            Ghost(base),
            Ghost(bytes),
            Ghost(c.table@),
        ) {
            None => {
                proof {
                    assert(populated_until(*old(alloc), *alloc, c.table(), c.state(), ps));
                }
                return None;
            },
            Some(o) => o,
        };
        c.table.push(o);
        sum = mix(sum, o.addr);
        proof {
            let qs = ps.push(o.addr);
            assert(qs.drop_last() =~= ps);
            assert(populated(qs).table =~= c.table@);
            log = log + made(layout, o.addr, i as u8);
            ps = qs;
        }
        i = i + 1;
    }
    proof {
        assert(ps.len() == CHURN_LIVE && populated(ps) == (Churned {
            table: c.table@,
            state: c.rng@,
            sum,
            log,
        }));
    }
    Some(sum)
}

/// Free one random live object and allocate a replacement of a fresh random size, at every step.
#[verifier::spinoff_prover]
#[verifier::rlimit(40)]
pub fn churn<A: RawAlloc>(
    alloc: &mut A,
    c: &mut Churn,
    steps: usize,
) -> (r: Option<u32>)
    requires
        old(c).live_in(old(alloc)),
        old(c).table().len() == CHURN_LIVE,
    ensures
        final(c).base() == old(c).base(),
        final(c).bytes() == old(c).bytes(),
        final(c).live_in(final(alloc)),
        r matches Some(sum) ==> exists|ps: Seq<usize>|
            {
                &&& ps.len() == steps
                &&& #[trigger] churned(old(c).table(), old(c).state(), ps) == (Churned {
                    table: final(c).table(),
                    state: final(c).state(),
                    sum,
                    log: churned(old(c).table(), old(c).state(), ps).log,
                })
                &&& served(
                    *old(alloc),
                    churned(old(c).table(), old(c).state(), ps).log,
                    *final(alloc),
                )
            },
        r is None ==> exists|ps: Seq<usize>| #[trigger]
            churned_until(
                *old(alloc),
                *final(alloc),
                old(c),
                steps as int,
                final(c).table(),
                final(c).state(),
                ps,
            ),
        r is Some ==> final(c).table().len() == CHURN_LIVE,
{
    let ghost base = c.base@;
    let ghost bytes = c.bytes@;
    let ghost t0 = c.table@;
    let ghost x0 = c.rng@;
    let ghost start = *alloc;
    let ghost mut log: Seq<Answer> = Seq::empty();
    let ghost mut ps: Seq<usize> = Seq::empty();
    let mut sum: u32 = 0;
    let mut step: usize = 0;
    while step < steps
        invariant
            step <= steps,
            c.base@ == base,
            c.bytes@ == bytes,
            base == old(c).base(),
            bytes == old(c).bytes(),
            tracks(alloc, base, bytes, c.table@),
            c.table@.len() == CHURN_LIVE,
            ps.len() == step,
            t0 == old(c).table(),
            x0 == old(c).state(),
            start == *old(alloc),
            churned(t0, x0, ps) == (Churned { table: c.table@, state: c.rng@, sum, log }),
            served(start, log, *alloc),
        decreases steps - step,
    {
        let ghost t = c.table@;
        let idx: usize = c.rng.below(CHURN_LIVE as u32) as usize;
        let gone = c.table[idx];
        release(alloc, gone, Ghost(base), Ghost(bytes), Ghost(t), Ghost(idx as int));
        let ghost u = without(t, idx as int, false);
        proof {
            log = log + seq![returned(gone.layout, gone.addr)];
            assert(tracks(alloc, base, bytes, u));
        }
        let size: usize = churn_size(&mut c.rng);
        let layout = Layout::from_size_align(size, CHURN_ALIGN).unwrap();
        let o = match obtain(alloc, layout, step as u8, Ghost(base), Ghost(bytes), Ghost(u)) {
            None => {
                c.table.remove(idx);
                proof {
                    assert(c.table@ =~= t.remove(idx as int));
                    assert(churned_until(
                        *old(alloc),
                        *alloc,
                        old(c),
                        steps as int,
                        c.table(),
                        c.state(),
                        ps,
                    ));
                }
                return None;
            },
            Some(o) => o,
        };
        c.table.set(idx, o);
        sum = mix(sum, o.addr);
        proof {
            super::objects::lemma_put_back(alloc, base, bytes, t, idx as int, o);
            let qs = ps.push(o.addr);
            assert(qs.drop_last() =~= ps);
            assert(churned(t0, x0, qs).table =~= c.table@);
            log = log + made(layout, o.addr, step as u8);
            ps = qs;
        }
        step = step + 1;
    }
    proof {
        assert(ps.len() == steps && churned(t0, x0, ps) == (Churned {
            table: c.table@,
            state: c.rng@,
            sum,
            log,
        }));
    }
    Some(sum)
}

/// Release the live set.
pub fn churn_fini<A: RawAlloc>(alloc: &mut A, c: &mut Churn) -> (r: u32)
    requires
        old(c).live_in(old(alloc)),
    ensures
        final(c).table().len() == 0,
        final(c).state() == old(c).state(),
        final(alloc).valid(),
        final(alloc).honest(),
        final(alloc).held() == old(c).base(),
        bytes_kept(old(c).bytes(), final(alloc).contents(), old(c).base(), -1),
        r == firsts(old(c).table()),
        served(*old(alloc), table_log(old(c).table()), *final(alloc)),
{
    let r: u32 = free_table(
        alloc,
        &mut c.table,
        Ghost(c.base@),
        Ghost(c.bytes@),
    );
    proof {
        assert(c.table@ =~= Seq::<Object>::empty());
        lemma_tracked_nothing(alloc, c.base@, c.bytes@);
    }
    r
}

/// Free the objects of a table in order, folding their first bytes.
pub(super) fn free_table<A: RawAlloc>(
    alloc: &mut A,
    table: &mut Vec<Object>,
    Ghost(base): Ghost<Map<int, Layout>>,
    Ghost(bytes): Ghost<Map<int, Seq<u8>>>,
) -> (r: u32)
    requires
        tracks(old(alloc), base, bytes, old(table)@),
    ensures
        final(table)@.len() == 0,
        tracks(final(alloc), base, bytes, final(table)@),
        r == firsts(old(table)@),
        served(*old(alloc), table_log(old(table)@), *final(alloc)),
{
    let ghost start = *alloc;
    let n: usize = table.len();
    let ghost all = table@;
    let mut sum: u32 = 0;
    let mut k: usize = 0;
    proof {
        assert(all.skip(0) =~= all);
        assert(all.take(0) =~= Seq::<Object>::empty());
        assert(table_log(all.take(0)) =~= Seq::<Answer>::empty());
    }
    while k < n
        invariant
            k <= n,
            n == table@.len(),
            table@ == all,
            tracks(alloc, base, bytes, all.skip(k as int)),
            sum == firsts(all.take(k as int)),
            start == *old(alloc),
            served(start, table_log(all.take(k as int)), *alloc),
        decreases n - k,
    {
        let o = table[k];
        let ghost t = all.skip(k as int);
        proof {
            assert(t[0] == o);
            assert(is_object(alloc, base, t[0]));
        }
        let b: u8 = alloc.read_byte(o.addr, 0);
        sum = sum ^ (b as u32);
        release(alloc, o, Ghost(base), Ghost(bytes), Ghost(t), Ghost(0));
        proof {
            assert(tracks(alloc, base, bytes, without(t, 0, false)));
            assert(without(t, 0, false) =~= all.skip(k + 1));
            assert(all.take(k + 1).drop_last() =~= all.take(k as int));
            assert(table_log(all.take(k as int)) + seq![returned(o.layout, o.addr)] =~= table_log(
                all.take(k + 1),
            ));
        }
        k = k + 1;
    }
    table.clear();
    proof {
        assert(all.take(n as int) =~= all);
        assert(table@ =~= all.skip(n as int));
    }
    sum
}

} // verus!
