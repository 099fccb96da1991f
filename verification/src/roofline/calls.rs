//! The requests that a workload makes of an allocator, and what comes back.
use vstd::prelude::*;

use crate::layout::Layout;
use crate::testing::model::{RawAlloc, Request};

verus! {

/// A request and the block that came back for it.
pub struct Answer {
    pub request: Request,
    pub got: Option<usize>,
}

/// The requests of `log`, in order and with these answers, took the allocator from `old` to `new`,
/// and nothing else did.
pub open spec fn served<A: RawAlloc>(old: A, log: Seq<Answer>, new: A) -> bool
    decreases log.len(),
{
    if log.len() == 0 {
        new == old
    } else {
        exists|m: A| #[trigger]
            A::gave(&m, &new, log.last().request, log.last().got) && served(
                old,
                log.drop_last(),
                m,
            )
    }
}

/// A request for a block that was given, at `a`.
pub open spec fn given(layout: Layout, a: usize) -> Answer {
    Answer { request: Request::Alloc { layout, zeroed: false }, got: Some(a) }
}

/// A request for a block that was refused.
pub open spec fn denied(layout: Layout) -> Answer {
    Answer { request: Request::Alloc { layout, zeroed: false }, got: None }
}

/// The block at `a` was given back.
pub open spec fn returned(layout: Layout, a: usize) -> Answer {
    Answer { request: Request::Dealloc { block: a, layout }, got: None }
}

/// The block at `a` was resized and came back at `b`.
pub open spec fn moved(layout: Layout, a: usize, new_size: usize, b: usize) -> Answer {
    Answer { request: Request::Realloc { block: a, layout, new_size }, got: Some(b) }
}

/// The block at `a` was to be resized, which was refused.
pub open spec fn held_back(layout: Layout, a: usize, new_size: usize) -> Answer {
    Answer { request: Request::Realloc { block: a, layout, new_size }, got: None }
}

/// A byte of the block at `a` was written.
pub open spec fn wrote(a: usize, offset: int, byte: u8) -> Answer {
    Answer { request: Request::WriteByte { block: a, offset: offset as usize, byte }, got: None }
}

/// A block was given at `a` and its first byte written.
pub open spec fn made(layout: Layout, a: usize, byte: u8) -> Seq<Answer> {
    seq![given(layout, a), wrote(a, 0, byte)]
}

/// The block at `a` was resized, came back at `b`, and its last byte was written.
pub open spec fn remade(layout: Layout, a: usize, new_size: usize, b: usize, byte: u8) -> Seq<
    Answer,
> {
    seq![moved(layout, a, new_size, b), wrote(b, new_size - 1, byte)]
}

/// A request is served after those before it.
pub proof fn lemma_served_call<A: RawAlloc>(old: A, log: Seq<Answer>, m: A, k: A, x: Answer)
    requires
        served(old, log, m),
        A::gave(&m, &k, x.request, x.got),
    ensures
        served(old, log.push(x), k),
{
    let l = log.push(x);
    assert(l.drop_last() =~= log);
    assert(l.last() == x);
    assert(A::gave(&m, &k, l.last().request, l.last().got));
}

/// Whatever was served before, these requests have been served after it.
pub open spec fn goes_on<A: RawAlloc>(m: A, k: A, xs: Seq<Answer>) -> bool {
    forall|old: A, log: Seq<Answer>| #[trigger] served(old, log, m) ==> served(old, log + xs, k)
}

/// One request more.
pub proof fn lemma_goes_on<A: RawAlloc>(m: A, k: A, x: Answer)
    requires
        A::gave(&m, &k, x.request, x.got),
    ensures
        goes_on(m, k, seq![x]),
{
    assert forall|old: A, log: Seq<Answer>| #[trigger] served(old, log, m) implies served(
        old,
        log + seq![x],
        k,
    ) by {
        lemma_served_call(old, log, m, k, x);
        assert(log + seq![x] =~= log.push(x));
    }
}

/// Two requests more.
pub proof fn lemma_goes_on_two<A: RawAlloc>(m: A, mid: A, k: A, x: Answer, y: Answer)
    requires
        A::gave(&m, &mid, x.request, x.got),
        A::gave(&mid, &k, y.request, y.got),
    ensures
        goes_on(m, k, seq![x, y]),
{
    assert forall|old: A, log: Seq<Answer>| #[trigger] served(old, log, m) implies served(
        old,
        log + seq![x, y],
        k,
    ) by {
        lemma_served_call(old, log, m, mid, x);
        lemma_served_call(old, log.push(x), mid, k, y);
        assert(log + seq![x, y] =~= log.push(x).push(y));
    }
}

} // verus!
