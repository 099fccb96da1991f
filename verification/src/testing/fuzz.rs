//! The model tester driven by a fuzzer's bytes.
//!
//! The first byte picks a profile, the rest is the operation stream.
use vstd::prelude::*;

use super::choice::Profile;
use super::model::{failure_of, run_with, Failure, FailureKind, RawAlloc, Stats};
use super::report::Finding;
use super::rng::ByteSource;
use super::trace::{completes, fails, start, Run};
use crate::layout::valid_layout;

verus! {

/// Live bytes per run. Keeps each run fast and the process small.
pub const MAX_LIVE: usize = 16_777_216;

/// The preset with this number.
pub open spec fn is_preset(p: Profile, i: int) -> bool {
    if i == 0 {
        p.is_small_churn()
    } else if i == 1 {
        p.is_mixed()
    } else if i == 2 {
        p.is_large_heavy()
    } else if i == 3 {
        p.is_align_heavy()
    } else if i == 4 {
        p.is_lifo_batches()
    } else {
        p.is_fifo_batches()
    }
}

/// The profile that a byte picks: one of the presets, with less live at once.
pub open spec fn is_picked(p: Profile, which: u8) -> bool {
    &&& p.max_live_bytes == MAX_LIVE
    &&& exists|q: Profile| #[trigger]
        is_preset(q, which as int % 6) && p == (Profile { max_live_bytes: MAX_LIVE, ..q })
}

/// The profile that a byte picks.
pub fn pick_profile(which: u8) -> (r: Profile)
    ensures
        is_picked(r, which),
        r.usable(),
{
    let profiles = Profile::all();
    let i: usize = which as usize % 6;
    let q: Profile = profiles[i];
    proof {
        assert(is_preset(q, which as int % 6));
        assert(q.usable());
        assert(vstd::arithmetic::power2::is_pow2(65536)) by {
            reveal_with_fuel(vstd::arithmetic::power2::is_pow2, 20);
        }
        assert(valid_layout(MAX_LIVE as int, 65536));
    }
    Profile { max_live_bytes: MAX_LIVE, ..q }
}

/// Drive `alloc` with a fuzzer's bytes until they run out. There is no run without a byte.
pub fn drive<A: RawAlloc>(alloc: &mut A, data: &[u8]) -> (r: Option<Result<Stats, Failure>>)
    requires
        old(alloc).valid(),
    ensures
        r is None <==> data@.len() == 0,
        r is None ==> *final(alloc) == *old(alloc),
        final(alloc).valid(),
        old(alloc).honest() && r is Some && r->0 is Ok ==> final(alloc).honest(),
        old(alloc).honest() && r is Some && r->0 is Ok ==> final(alloc).held() == old(
            alloc,
        ).held(),
        old(alloc).honest() ==> (r matches Some(Err(f)) ==> f.kind == FailureKind::AllocFailed),
        r matches Some(Ok(stats)) ==> exists|p: Profile, e: ByteSource, end: Run<A>, d: ByteSource|
            {
                &&& #[trigger] completes(p, start(*old(alloc)), e, 0, usize::MAX as int, end, d)
                &&& is_picked(p, data@[0])
                &&& e@ == data@.skip(1)
                &&& end.alloc == *final(alloc)
                &&& end.stats == stats
            },
        r matches Some(Err(f)) ==> exists|p: Profile, e: ByteSource, found: Finding|
            {
                &&& #[trigger] fails(
                    p,
                    start(*old(alloc)),
                    e,
                    0,
                    usize::MAX as int,
                    f.op_index as int,
                    found,
                )
                &&& is_picked(p, data@[0])
                &&& e@ == data@.skip(1)
                &&& failure_of(f, found, p)
            },
{
    if data.len() == 0 {
        return None;
    }
    let profile = pick_profile(data[0]);
    let rest = vstd::slice::slice_subrange(data, 1, data.len());
    let mut source = ByteSource::new(rest);
    let ghost e = source;
    proof {
        assert(rest@ =~= data@.skip(1));
    }
    Some(run_with(alloc, &mut source, usize::MAX, profile))
}

} // verus!
