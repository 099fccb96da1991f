//! The random-actions workload: from an empty live set, each action allocates, frees or resizes.
//!
//! An action is an allocation (3 of 7) of a size biased small with an alignment that is mostly 8,
//! a free of a random live object (3 of 7), or a resize of a random live object to a fresh random
//! size (1 of 7). Below a floor of live objects every action allocates. Which actions there are
//! does not depend on the allocator, so every run performs the same sequence.
use vstd::arithmetic::power2::is_pow2;
use vstd::prelude::*;

use super::calls::{
    denied, given, goes_on, held_back, made, remade, returned, served, wrote, Answer,
};
use super::churn::{firsts, free_table, table_log};
use super::objects::{
    is_object, lemma_tracked_nothing, lemma_tracks_nothing, obtain, release, resize, resized,
    tracks, without, Object,
};
use super::rng::{output, stepped, Rng};
use super::workloads::{mix, mixed_in};
use crate::layout::{valid_layout, Layout};
use crate::testing::model::{bytes_kept, RawAlloc};
use crate::testing::rng::scaled;

verus! {

/// Largest request.
pub const RA_MAX_SIZE: usize = 10_000;

/// Below this many live objects every action is an allocation, so the live set never collapses to
/// nothing.
pub const RA_FLOOR: usize = 100;

/// Most live objects. The live count is a random walk from the floor with steps of +1, -1 and 0
/// that stays within a few hundred of it; reaching the capacity forces frees, which are counted.
pub const RA_CAP: usize = 16384;

pub const RA_SEED: u64 = 0x7a1c_0000_5eed_0002;

/// The live objects, how many frees were forced so far, and the run in progress.
pub struct RandomActions {
    table: Vec<Object>,
    forced: u32,
    rng: Rng,
    run_forced: u32,
    sum: u32,
    base: Ghost<Map<int, Layout>>,
    bytes: Ghost<Map<int, Seq<u8>>>,
}

/// The state of the generator after a size is drawn.
pub open spec fn after_size(x: u64) -> u64 {
    stepped(stepped(x))
}

/// The size that is drawn from state `x`: an upper bound first and then a size up to it, so that
/// small requests dominate the way they do in real programs while the tail still reaches the
/// largest.
pub open spec fn ra_size_of(x: u64) -> usize {
    let bound = 1 + scaled(output(stepped(x)) as int, RA_MAX_SIZE as int);
    (1 + scaled(output(after_size(x)) as int, bound)) as usize
}

/// The alignment that is drawn from state `x`: 8 three quarters of the time, then 16, 32 and 64.
pub open spec fn ra_align_of(x: u64) -> usize {
    let zeros = (output(stepped(x)) as u16).trailing_zeros();
    if zeros < 2 {
        8
    } else if zeros < 4 {
        16
    } else if zeros < 6 {
        32
    } else {
        64
    }
}

/// What an action does.
#[derive(Clone, Copy, Debug, PartialEq, Eq, Structural)]
pub enum Action {
    /// Allocate an object.
    Allocate,
    /// Free a random live object.
    Free,
    /// Resize a random live object.
    Resize,
}

/// The action for a draw.
pub open spec fn action_for(draw: int) -> Action {
    if draw < 3 {
        Action::Allocate
    } else if draw < 6 {
        Action::Free
    } else {
        Action::Resize
    }
}

/// The action with `len` objects live and the generator in state `x`; resizing is the seventh of
/// `choices`, if there are so many.
pub open spec fn action_of(x: u64, len: int, choices: int) -> Action {
    if len < RA_FLOOR {
        Action::Allocate
    } else if len >= RA_CAP {
        Action::Free
    } else {
        action_for(scaled(output(stepped(x)) as int, choices))
    }
}

/// The state of the generator after the action is chosen.
pub open spec fn after_action(x: u64, len: int) -> u64 {
    if RA_FLOOR <= len < RA_CAP {
        stepped(x)
    } else {
        x
    }
}

/// The live objects, the generator, the frees that were forced, and the checksum at some point.
pub struct Acted {
    pub table: Seq<Object>,
    pub state: u64,
    pub forced: u32,
    pub sum: u32,
}

/// The victim of a free or a resize, drawn from state `x`.
pub open spec fn victim_of(x: u64, len: int) -> int {
    scaled(output(stepped(x)) as int, len)
}

/// One action. `p` is the address that the allocator returned, if it was asked for one.
pub open spec fn act(s: Acted, step: int, p: usize, choices: int) -> Acted {
    let len = s.table.len() as int;
    let x = after_action(s.state, len);
    match action_of(s.state, len, choices) {
        Action::Allocate => {
            let y = after_size(x);
            Acted {
                table: s.table.push(
                    Object {
                        addr: p,
                        layout: Layout::of(ra_size_of(x), ra_align_of(y)),
                        first: step as u8,
                    },
                ),
                state: stepped(y),
                sum: mixed_in(s.sum, p),
                ..s
            }
        },
        Action::Free => {
            let i = victim_of(x, len);
            Acted {
                table: without(s.table, i, true),
                state: stepped(x),
                forced: if len >= RA_CAP {
                    s.forced.wrapping_add(1)
                } else {
                    s.forced
                },
                sum: s.sum ^ (s.table[i].first as u32),
            }
        },
        Action::Resize => {
            let i = victim_of(x, len);
            let y = stepped(x);
            Acted {
                table: s.table.update(
                    i,
                    resized(s.table[i], p, ra_size_of(y), step as u8),
                ),
                state: after_size(y),
                sum: mixed_in(s.sum, p),
                ..s
            }
        },
    }
}

/// All actions, from an empty live set.
pub open spec fn acted(ps: Seq<usize>, choices: int) -> Acted
    decreases ps.len(),
{
    if ps.len() == 0 {
        Acted {
            table: Seq::empty(),
            state: RA_SEED | 0x9E37_79B9_7F4A_7C15,
            forced: 0,
            sum: 0,
        }
    } else {
        act(acted(ps.drop_last(), choices), ps.len() - 1, ps.last(), choices)
    }
}

/// The requests of one action, with the byte that is written. `p` is the address that came back, if
/// it was for memory.
pub open spec fn act_answers(s: Acted, step: int, p: usize, choices: int) -> Seq<Answer> {
    let len = s.table.len() as int;
    let x = after_action(s.state, len);
    let o = s.table[victim_of(x, len)];
    match action_of(s.state, len, choices) {
        Action::Allocate => made(
            Layout::of(ra_size_of(x), ra_align_of(after_size(x))),
            p,
            step as u8,
        ),
        Action::Free => seq![returned(o.layout, o.addr)],
        Action::Resize => remade(o.layout, o.addr, ra_size_of(stepped(x)), p, step as u8),
    }
}

/// The requests of all actions.
pub open spec fn actions_log(ps: Seq<usize>, choices: int) -> Seq<Answer>
    decreases ps.len(),
{
    if ps.len() == 0 {
        Seq::empty()
    } else {
        actions_log(ps.drop_last(), choices) + act_answers(
            acted(ps.drop_last(), choices),
            ps.len() - 1,
            ps.last(),
            choices,
        )
    }
}

/// The request of an action for which no memory came; a free asks for none.
pub open spec fn act_refused(s: Acted, choices: int) -> Answer {
    let len = s.table.len() as int;
    let x = after_action(s.state, len);
    let o = s.table[victim_of(x, len)];
    match action_of(s.state, len, choices) {
        Action::Resize => held_back(o.layout, o.addr, ra_size_of(stepped(x))),
        _ => denied(Layout::of(ra_size_of(x), ra_align_of(after_size(x)))),
    }
}

/// The actions could not go on: the next one asked for memory, and was refused.
pub open spec fn performed_until<A: RawAlloc>(
    old: A,
    new: A,
    actions: int,
    choices: int,
    table: Seq<Object>,
) -> bool {
    exists|ps: Seq<usize>|
        {
            let s = #[trigger] acted(ps, choices);
            &&& ps.len() < actions
            &&& table == s.table
            &&& action_of(s.state, s.table.len() as int, choices) != Action::Free
            &&& served(old, actions_log(ps, choices) + seq![act_refused(s, choices)], new)
        }
}

fn ra_size(rng: &mut Rng) -> (r: usize)
    ensures
        final(rng)@ == after_size(old(rng)@),
        r == ra_size_of(old(rng)@),
        1 <= r <= RA_MAX_SIZE,
{
    let bound: u32 = 1 + rng.below(RA_MAX_SIZE as u32);
    1 + rng.below(bound) as usize
}

fn ra_align(rng: &mut Rng) -> (r: usize)
    ensures
        final(rng)@ == stepped(old(rng)@),
        r == ra_align_of(old(rng)@),
        r == 8 || r == 16 || r == 32 || r == 64,
{
    let zeros: u32 = (rng.next_u32() as u16).trailing_zeros();
    if zeros < 2 {
        8
    } else if zeros < 4 {
        16
    } else if zeros < 6 {
        32
    } else {
        64
    }
}

/// The layouts of the workload.
proof fn lemma_layouts()
    ensures
        forall|size: int, align: int|
            1 <= size <= RA_MAX_SIZE && (align == 8 || align == 16 || align == 32 || align == 64)
                ==> #[trigger] valid_layout(size, align),
{
    assert(is_pow2(8) && is_pow2(16) && is_pow2(32) && is_pow2(64)) by {
        reveal_with_fuel(is_pow2, 8);
    }
}

/// The next action, with `len` objects live.
pub fn next_action(rng: &mut Rng, len: usize, choices: u32) -> (r: Action)
    ensures
        r == action_of(old(rng)@, len as int, choices as int),
        final(rng)@ == after_action(old(rng)@, len as int),
{
    if len < RA_FLOOR {
        return Action::Allocate;
    }
    if len >= RA_CAP {
        return Action::Free;
    }
    let draw: u32 = rng.below(choices);
    if draw < 3 {
        Action::Allocate
    } else if draw < 6 {
        Action::Free
    } else {
        Action::Resize
    }
}

/// The alignments of the live objects are those of the workload.
pub open spec fn plain(t: Seq<Object>) -> bool {
    forall|i: int|
        0 <= i < t.len() ==> {
            let align = (#[trigger] t[i]).layout.align();
            align == 8 || align == 16 || align == 32 || align == 64
        }
}

impl RandomActions {
    /// The live objects.
    pub closed spec fn table(&self) -> Seq<Object> {
        self.table@
    }

    /// How many frees were forced so far.
    pub closed spec fn forced(&self) -> u32 {
        self.forced
    }

    /// What the allocator's callers held before the workload.
    pub closed spec fn base(&self) -> Map<int, Layout> {
        self.base@
    }

    /// The bytes of those blocks.
    pub closed spec fn bytes(&self) -> Map<int, Seq<u8>> {
        self.bytes@
    }

    /// The live objects are the allocator's, besides what its callers held before.
    pub open spec fn live_in<A: RawAlloc>(&self, alloc: &A) -> bool {
        tracks(alloc, self.base(), self.bytes(), self.table())
    }

    /// No live objects, and room for all there may be.
    pub fn new() -> (r: Self)
        ensures
            r.table() == Seq::<Object>::empty(),
            r.forced() == 0,
            r.base() == Map::<int, Layout>::empty(),
            r.bytes() == Map::<int, Seq<u8>>::empty(),
    {
        RandomActions {
            table: Vec::with_capacity(RA_CAP),
            forced: 0,
            rng: Rng::new(RA_SEED),
            run_forced: 0,
            sum: 0,
            base: Ghost(Map::empty()),
            bytes: Ghost(Map::empty()),
        }
    }
}

impl RandomActions {
    /// The run in progress.
    spec fn run(&self) -> Acted {
        Acted { table: self.table@, state: self.rng@, forced: self.run_forced, sum: self.sum }
    }

    /// The objects are the allocator's and there is room for another.
    spec fn ready<A: RawAlloc>(&self, alloc: &A) -> bool {
        &&& tracks(alloc, self.base@, self.bytes@, self.table@)
        &&& plain(self.table@)
        &&& self.table@.len() <= RA_CAP
    }

    /// Everything but the run is as it was.
    spec fn same_run_of(&self, o: &Self) -> bool {
        &&& self.forced == o.forced
        &&& self.base == o.base
        &&& self.bytes == o.bytes
    }

    /// A random one of the live objects.
    fn pick(&mut self) -> (r: usize)
        requires
            0 < old(self).table@.len() <= RA_CAP,
        ensures
            *final(self) == (RandomActions { rng: final(self).rng, ..*old(self) }),
            final(self).rng@ == stepped(old(self).rng@),
            r == victim_of(old(self).rng@, old(self).table@.len() as int),
            r < old(self).table@.len(),
    {
        let len: usize = self.table.len();
        self.rng.below(len as u32) as usize
    }

    fn allocate_one<A: RawAlloc>(&mut self, alloc: &mut A, step: usize) -> (r: Option<usize>)
        requires
            old(self).ready(old(alloc)),
            old(self).table@.len() < RA_CAP,
        ensures
            final(self).same_run_of(old(self)),
            final(self).ready(final(alloc)),
            r matches Some(p) ==> {
                let x = old(self).rng@;
                let y = after_size(x);
                final(self).run() == (Acted {
                    table: old(self).table@.push(
                        Object {
                            addr: p,
                            layout: Layout::of(ra_size_of(x), ra_align_of(y)),
                            first: step as u8,
                        },
                    ),
                    state: stepped(y),
                    sum: mixed_in(old(self).sum, p),
                    ..old(self).run()
                })
            },
            ({
                let x = old(self).rng@;
                let layout = Layout::of(ra_size_of(x), ra_align_of(after_size(x)));
                goes_on(
                    *old(alloc),
                    *final(alloc),
                    match r {
                        Some(p) => made(layout, p, step as u8),
                        None => seq![denied(layout)],
                    },
                )
            }),
            r is None ==> final(self).table@ == old(self).table@,
    {
        let size: usize = ra_size(&mut self.rng);
        let align: usize = ra_align(&mut self.rng);
        proof {
            lemma_layouts();
            assert(valid_layout(size as int, align as int));
        }
        let layout = Layout::from_size_align(size, align).unwrap();
        match obtain(
            alloc,
            layout,
            step as u8,
            Ghost(self.base@),
            Ghost(self.bytes@),
            Ghost(self.table@),
        ) {
            None => None,
            Some(o) => {
                self.table.push(o);
                self.sum = mix(self.sum, o.addr);
                Some(o.addr)
            },
        }
    }

    fn free_one<A: RawAlloc>(&mut self, alloc: &mut A)
        requires
            old(self).ready(old(alloc)),
            old(self).table@.len() > 0,
        ensures
            final(self).same_run_of(old(self)),
            final(self).ready(final(alloc)),
            ({
                let t = old(self).table@;
                let i = victim_of(old(self).rng@, t.len() as int);
                final(self).run() == (Acted {
                    table: without(t, i, true),
                    state: stepped(old(self).rng@),
                    forced: if t.len() >= RA_CAP {
                        old(self).run_forced.wrapping_add(1)
                    } else {
                        old(self).run_forced
                    },
                    sum: old(self).sum ^ (t[i].first as u32),
                })
                    && goes_on(*old(alloc), *final(alloc), seq![returned(t[i].layout, t[i].addr)])
            }),
    {
        let ghost t = self.table@;
        if self.table.len() >= RA_CAP {
            self.run_forced = self.run_forced.wrapping_add(1);
        }
        let i: usize = self.pick();
        let o = self.table[i];
        proof {
            assert(is_object(alloc, self.base@, t[i as int]));
        }
        let b: u8 = alloc.read_byte(o.addr, 0);
        self.sum = self.sum ^ (b as u32);
        release(
            alloc,
            o,
            Ghost(self.base@),
            Ghost(self.bytes@),
            Ghost(t),
            Ghost(i as int),
        );
        self.table.swap_remove(i);
        proof {
            assert(tracks(alloc, self.base@, self.bytes@, without(t, i as int, true)));
            assert(self.table@ =~= without(t, i as int, true));
            assert forall|k: int| 0 <= k < self.table@.len() implies {
                let align = (#[trigger] self.table@[k]).layout.align();
                align == 8 || align == 16 || align == 32 || align == 64
            } by {
                let j: int = if k == i {
                    t.len() - 1
                } else {
                    k
                };
                assert(self.table@[k] == t[j]);
            }
        }
    }

    fn resize_one<A: RawAlloc>(&mut self, alloc: &mut A, step: usize) -> (r: Option<usize>)
        requires
            old(self).ready(old(alloc)),
            old(self).table@.len() > 0,
        ensures
            final(self).same_run_of(old(self)),
            final(self).ready(final(alloc)),
            r matches Some(p) ==> {
                let t = old(self).table@;
                let i = victim_of(old(self).rng@, t.len() as int);
                let y = stepped(old(self).rng@);
                final(self).run() == (Acted {
                    table: t.update(i, resized(t[i], p, ra_size_of(y), step as u8)),
                    state: after_size(y),
                    sum: mixed_in(old(self).sum, p),
                    ..old(self).run()
                })
            },
            ({
                let t = old(self).table@;
                let o = t[victim_of(old(self).rng@, t.len() as int)];
                let new_size = ra_size_of(stepped(old(self).rng@));
                goes_on(
                    *old(alloc),
                    *final(alloc),
                    match r {
                        Some(p) => remade(o.layout, o.addr, new_size, p, step as u8),
                        None => seq![held_back(o.layout, o.addr, new_size)],
                    },
                )
            }),
            r is None ==> final(self).table@ == old(self).table@,
    {
        let ghost t = self.table@;
        let i: usize = self.pick();
        let o = self.table[i];
        let size: usize = ra_size(&mut self.rng);
        proof {
            lemma_layouts();
            assert(t[i as int] == o);
            assert(valid_layout(size as int, o.layout.align() as int));
            Layout::lemma_of(size, o.layout.align());
        }
        match resize(
            alloc,
            o,
            size,
            step as u8,
            Ghost(self.base@),
            Ghost(self.bytes@),
            Ghost(t),
            Ghost(i as int),
        ) {
            None => None,
            Some(p) => {
                self.table.set(i, p);
                self.sum = mix(self.sum, p.addr);
                Some(p.addr)
            },
        }
    }
}

fn random_actions_impl<A: RawAlloc>(
    alloc: &mut A,
    ra: &mut RandomActions,
    actions: usize,
    choices: u32,
) -> (r: Option<u32>)
    requires
        old(alloc).valid(),
        old(alloc).honest(),
        old(ra).table().len() == 0,
        choices > 0,
    ensures
        final(ra).base() == old(alloc).held(),
        final(ra).bytes() == old(alloc).contents(),
        final(ra).live_in(final(alloc)),
        r matches Some(sum) ==> performed(
            *old(alloc),
            *final(alloc),
            actions as int,
            choices as int,
            final(ra).table(),
            old(ra).forced(),
            final(ra).forced(),
            sum,
        ),
        r is None ==> final(ra).forced() == old(ra).forced() && performed_until(
            *old(alloc),
            *final(alloc),
            actions as int,
            choices as int,
            final(ra).table(),
        ),
{
    let ghost start = *alloc;
    let ghost mut ps: Seq<usize> = Seq::empty();
    ra.base = Ghost(alloc.held());
    ra.bytes = Ghost(alloc.contents());
    ra.rng = Rng::new(RA_SEED);
    ra.run_forced = 0;
    ra.sum = 0;
    let mut step: usize = 0;
    proof {
        lemma_tracks_nothing(alloc);
        assert(ra.table@ =~= Seq::<Object>::empty());
    }
    while step < actions
        invariant
            step <= actions,
            choices > 0,
            ra.base@ == old(alloc).held(),
            ra.bytes@ == old(alloc).contents(),
            ra.forced == old(ra).forced,
            ra.ready(alloc),
            ps.len() == step,
            acted(ps, choices as int) == ra.run(),
            start == *old(alloc),
            served(start, actions_log(ps, choices as int), *alloc),
        decreases actions - step,
    {
        let ghost s = ra.run();
        let ghost log = actions_log(ps, choices as int);
        let len: usize = ra.table.len();
        let mut addr: usize = 0;
        match next_action(&mut ra.rng, len, choices) {
            Action::Allocate => match ra.allocate_one(alloc, step) {
                None => {
                    proof {
                        assert(acted(ps, choices as int) == s);
                        assert(served(
                            start,
                            log + seq![act_refused(s, choices as int)],
                            *alloc,
                        ));
                    }
                    return None;
                },
                Some(p) => {
                    addr = p;
                },
            },
            Action::Free => {
                ra.free_one(alloc);
            },
            Action::Resize => match ra.resize_one(alloc, step) {
                None => {
                    proof {
                        assert(acted(ps, choices as int) == s);
                        assert(served(
                            start,
                            log + seq![act_refused(s, choices as int)],
                            *alloc,
                        ));
                    }
                    return None;
                },
                Some(p) => {
                    addr = p;
                },
            },
        }
        proof {
            let qs = ps.push(addr);
            assert(qs.drop_last() =~= ps);
            assert(ra.run() == act(s, step as int, addr, choices as int));
            assert(actions_log(qs, choices as int) == log + act_answers(
                s,
                step as int,
                addr,
                choices as int,
            ));
            ps = qs;
        }
        step = step + 1;
    }
    ra.forced = ra.forced.wrapping_add(ra.run_forced);
    proof {
        assert(ps.len() == actions && acted(ps, choices as int) == ra.run());
    }
    Some(ra.sum)
}

/// The actions were performed, with the objects wherever the allocator put them.
pub open spec fn performed<A: RawAlloc>(
    old: A,
    new: A,
    actions: int,
    choices: int,
    table: Seq<Object>,
    forced: u32,
    forced_after: u32,
    sum: u32,
) -> bool {
    exists|ps: Seq<usize>|
        {
            let s = #[trigger] acted(ps, choices);
            &&& ps.len() == actions
            &&& table == s.table
            &&& forced_after == forced.wrapping_add(s.forced)
            &&& sum == s.sum
            &&& served(old, actions_log(ps, choices), new)
        }
}

/// Perform random actions from an empty live set, which is left in `ra`.
pub fn random_actions<A: RawAlloc>(alloc: &mut A, ra: &mut RandomActions, actions: usize) -> (r:
    Option<u32>)
    requires
        old(alloc).valid(),
        old(alloc).honest(),
        old(ra).table().len() == 0,
    ensures
        final(ra).base() == old(alloc).held(),
        final(ra).bytes() == old(alloc).contents(),
        final(ra).live_in(final(alloc)),
        r matches Some(sum) ==> performed(
            *old(alloc),
            *final(alloc),
            actions as int,
            7,
            final(ra).table(),
            old(ra).forced(),
            final(ra).forced(),
            sum,
        ),
        r is None ==> final(ra).forced() == old(ra).forced() && performed_until(
            *old(alloc),
            *final(alloc),
            actions as int,
            7,
            final(ra).table(),
        ),
{
    random_actions_impl(alloc, ra, actions, 7)
}

/// The same without resizing (one half allocates, one half frees), to separate its cost from that
/// of allocating and freeing.
pub fn random_actions_norealloc<A: RawAlloc>(
    alloc: &mut A,
    ra: &mut RandomActions,
    actions: usize,
) -> (r: Option<u32>)
    requires
        old(alloc).valid(),
        old(alloc).honest(),
        old(ra).table().len() == 0,
    ensures
        final(ra).base() == old(alloc).held(),
        final(ra).bytes() == old(alloc).contents(),
        final(ra).live_in(final(alloc)),
        r matches Some(sum) ==> performed(
            *old(alloc),
            *final(alloc),
            actions as int,
            6,
            final(ra).table(),
            old(ra).forced(),
            final(ra).forced(),
            sum,
        ),
        r is None ==> final(ra).forced() == old(ra).forced() && performed_until(
            *old(alloc),
            *final(alloc),
            actions as int,
            6,
            final(ra).table(),
        ),
{
    random_actions_impl(alloc, ra, actions, 6)
}

/// Free the live set.
pub fn random_actions_fini<A: RawAlloc>(alloc: &mut A, ra: &mut RandomActions) -> (r: u32)
    requires
        old(ra).live_in(old(alloc)),
    ensures
        final(ra).table().len() == 0,
        final(ra).forced() == old(ra).forced(),
        final(alloc).valid(),
        final(alloc).honest(),
        final(alloc).held() == old(ra).base(),
        bytes_kept(old(ra).bytes(), final(alloc).contents(), old(ra).base(), -1),
        r == firsts(old(ra).table()) ^ ((old(ra).forced() << 16) | (old(ra).forced() >> 16)),
        served(*old(alloc), table_log(old(ra).table()), *final(alloc)),
{
    let sum: u32 = free_table(alloc, &mut ra.table, Ghost(ra.base@), Ghost(ra.bytes@));
    proof {
        assert(ra.table@ =~= Seq::<Object>::empty());
        lemma_tracked_nothing(alloc, ra.base@, ra.bytes@);
    }
    sum ^ ((ra.forced << 16) | (ra.forced >> 16))
}

/// Without the seventh choice nothing is resized.
pub proof fn law_six_choices_never_resize(x: u64, len: int)
    ensures
        action_of(x, len, 6) != Action::Resize,
{
    let v: u32 = output(stepped(x));
    assert(v * 6 / 0x1_0000_0000 < 6);
}

/// Without the seventh choice no request is for a resize.
pub proof fn law_six_choices_make_no_resize(ps: Seq<usize>, i: int)
    requires
        0 <= i < actions_log(ps, 6).len(),
    ensures
        !(actions_log(ps, 6)[i].request is Realloc),
    decreases ps.len(),
{
    if ps.len() > 0 {
        let before = actions_log(ps.drop_last(), 6);
        let s = acted(ps.drop_last(), 6);
        law_six_choices_never_resize(s.state, s.table.len() as int);
        if i < before.len() {
            law_six_choices_make_no_resize(ps.drop_last(), i);
        }
    }
}

/// Below the floor every action is an allocation and the write of its first byte: as many actions
/// make as many allocations, nothing is freed or resized, and no free is forced.
pub proof fn law_below_the_floor_every_action_allocates(ps: Seq<usize>, choices: int)
    requires
        ps.len() <= RA_FLOOR,
        choices > 0,
    ensures
        ({
            let s = acted(ps, choices);
            let log = actions_log(ps, choices);
            &&& s.table.len() == ps.len()
            &&& s.forced == 0
            &&& log.len() == 2 * ps.len()
            &&& forall|i: int|
                #![trigger ps[i]]
                0 <= i < ps.len() ==> {
                    &&& s.table[i].addr == ps[i]
                    &&& log[2 * i] == given(s.table[i].layout, ps[i])
                    &&& log[2 * i + 1] == wrote(ps[i], 0, i as u8)
                }
        }),
    decreases ps.len(),
{
    if ps.len() > 0 {
        let qs = ps.drop_last();
        law_below_the_floor_every_action_allocates(qs, choices);
        let s = acted(qs, choices);
        let t = acted(ps, choices);
        let before = actions_log(qs, choices);
        let log = actions_log(ps, choices);
        assert forall|i: int|
            #![trigger ps[i]]
            0 <= i < ps.len() implies {
            &&& t.table[i].addr == ps[i]
            &&& log[2 * i] == given(t.table[i].layout, ps[i])
            &&& log[2 * i + 1] == wrote(ps[i], 0, i as u8)
        } by {
            if i < qs.len() {
                assert(qs[i] == ps[i]);
                assert(t.table[i] == s.table[i]);
                assert(log[2 * i] == before[2 * i]);
                assert(log[2 * i + 1] == before[2 * i + 1]);
            }
        }
    }
}

/// A run of no more actions than the floor makes as many allocations, each with the write of its
/// first byte, and no other request: its objects are the live set, and no free was forced.
pub proof fn law_a_run_up_to_the_floor_only_allocates<A: RawAlloc>(
    old: A,
    new: A,
    actions: int,
    choices: int,
    table: Seq<Object>,
    forced: u32,
    forced_after: u32,
    sum: u32,
)
    requires
        0 <= actions <= RA_FLOOR,
        choices > 0,
        performed(old, new, actions, choices, table, forced, forced_after, sum),
    ensures
        table.len() == actions,
        forced_after == forced,
        served(
            old,
            Seq::new(
                (2 * actions) as nat,
                |i: int|
                    if i % 2 == 0 {
                        given(table[i / 2].layout, table[i / 2].addr)
                    } else {
                        wrote(table[i / 2].addr, 0, (i / 2) as u8)
                    },
            ),
            new,
        ),
{
    let ps: Seq<usize> = choose|ps: Seq<usize>|
        ps.len() == actions && table == (#[trigger] acted(ps, choices)).table && served(
            old,
            actions_log(ps, choices),
            new,
        ) && forced_after == forced.wrapping_add(acted(ps, choices).forced);
    law_below_the_floor_every_action_allocates(ps, choices);
    let log = Seq::new(
        (2 * actions) as nat,
        |i: int|
            if i % 2 == 0 {
                given(table[i / 2].layout, table[i / 2].addr)
            } else {
                wrote(table[i / 2].addr, 0, (i / 2) as u8)
            },
    );
    assert(actions_log(ps, choices) =~= log) by {
        assert forall|i: int| 0 <= i < 2 * actions implies actions_log(ps, choices)[i]
            == log[i] by {
            assert(ps[i / 2] == table[i / 2].addr);
        }
    }
}

/// The live set never outgrows its capacity, and below the floor it only grows, by one object at
/// every action.
pub proof fn law_the_live_set_stays_in_bounds(ps: Seq<usize>, choices: int)
    requires
        choices > 0,
    ensures
        acted(ps, choices).table.len() <= RA_CAP,
        ps.len() <= RA_FLOOR ==> acted(ps, choices).table.len() == ps.len(),
        ps.len() >= RA_FLOOR - 1 ==> acted(ps, choices).table.len() >= RA_FLOOR - 1,
    decreases ps.len(),
{
    if ps.len() > 0 {
        law_the_live_set_stays_in_bounds(ps.drop_last(), choices);
        let s = acted(ps.drop_last(), choices);
        let len: int = s.table.len() as int;
        let x: u64 = after_action(s.state, len);
        if len >= RA_FLOOR {
            let v: u32 = output(stepped(x));
            assert(0 <= v * len / 0x1_0000_0000 < len) by (nonlinear_arith)
                requires
                    0 <= v < 0x1_0000_0000,
                    len > 0,
            ;
        }
    }
}

} // verus!
