//! What the tester writes into blocks and how it checks it.
//!
//! Contents are a position-dependent pattern derived from the block's seed. So that large blocks
//! stay cheap the pattern is dense over the first [`DENSE_PREFIX`] bytes and sampled beyond that:
//! one word every [`STRIDE`] bytes, plus the last word of the block. The sampled positions depend
//! only on the offset, never on the block length, so a prefix of a block can still be verified
//! after a resize has changed its length.
use vstd::prelude::*;

use super::model::{bytes_kept, RawAlloc, Request};
use crate::arith::min;
use crate::bytes::{byte_of, get_byte};

verus! {

/// Bytes at the start of every block whose pattern is written and checked densely.
pub const DENSE_PREFIX: usize = 65536;

/// Beyond the dense prefix one 8-byte word is written and checked every this many bytes.
pub const STRIDE: usize = 4096;

const GOLDEN: u64 = 0x9E37_79B9_7F4A_7C15;

/// The pattern word covering bytes `8 * chunk..8 * chunk + 8` of a block with the given seed.
pub open spec fn pattern_word(seed: u64, chunk: int) -> u64 {
    seed ^ (chunk as u64).wrapping_mul(0x9E37_79B9_7F4A_7C15)
}

/// The pattern byte at offset `k` of a block with the given seed; zero for none.
pub open spec fn pattern_byte(seed: Option<u64>, k: int) -> u8 {
    match seed {
        Some(s) => byte_of(pattern_word(s, k / 8), (k % 8) as u64),
        None => 0,
    }
}

/// How far offset `k` is past the last sampled position at or before it.
pub open spec fn past_stride(k: int) -> int {
    (k - DENSE_PREFIX) % (STRIDE as int)
}

/// The offsets of a `len`-byte block that carry the pattern, among its first `limit` bytes. The
/// tail word is among them only when the whole block is covered: it is the one range whose
/// position depends on the block length.
pub open spec fn covered(len: int, limit: int, k: int) -> bool {
    &&& 0 <= k < limit
    &&& {
        ||| k < DENSE_PREFIX
        ||| past_stride(k) < 8 && k - past_stride(k) + 8
            <= limit
        ||| limit == len && k >= (len - 1) / 8 * 8
    }
}

/// The sampled words from offset `s` on.
pub open spec fn strides(s: int, limit: int) -> Seq<(int, int)>
    decreases limit + STRIDE - s,
{
    if s + 8 <= limit {
        seq![(s, s + 8)] + strides(s + STRIDE, limit)
    } else {
        Seq::empty()
    }
}

/// Offset `k` lies in one of the ranges.
pub open spec fn in_spans(ss: Seq<(int, int)>, k: int) -> bool {
    exists|i: int| 0 <= i < ss.len() && (#[trigger] ss[i]).0 <= k < ss[i].1
}

#[derive(Clone, Copy, Debug, PartialEq, Eq, Structural)]
enum SpanState {
    Dense,
    Stride(usize),
    Tail,
    Done,
}

/// The byte ranges of a block that carry the pattern, clipped to its first bytes, in increasing
/// order. Every range starts at a multiple of 8.
pub struct Spans {
    len: usize,
    limit: usize,
    state: SpanState,
}

/// The last range of a block that is covered whole: the word holding the last byte, clipped to the
/// block. It may coincide with a sampled word, which is harmless: same bytes, same expectation.
pub open spec fn tail_span(len: int, limit: int) -> Seq<(int, int)> {
    if limit == len && len > DENSE_PREFIX {
        seq![((len - 1) / 8 * 8, len)]
    } else {
        Seq::empty()
    }
}

/// All ranges.
pub open spec fn all_spans(len: int, limit: int) -> Seq<(int, int)> {
    let dense = if limit > 0 {
        seq![(0int, min(limit, DENSE_PREFIX as int))]
    } else {
        Seq::empty()
    };
    dense + strides(DENSE_PREFIX as int, limit) + tail_span(len, limit)
}

/// The ranges of a `len`-byte block among its first `limit` bytes.
pub fn spans(len: usize, limit: usize) -> (r: Spans)
    requires
        limit <= len <= isize::MAX,
    ensures
        r.wf(),
        r.rest() == all_spans(len as int, limit as int),
{
    Spans { len, limit, state: SpanState::Dense }
}

impl Spans {
    /// The ranges still to come.
    pub closed spec fn rest(&self) -> Seq<(int, int)> {
        let len = self.len as int;
        let limit = self.limit as int;
        match self.state {
            SpanState::Dense => all_spans(len, limit),
            SpanState::Stride(s) => strides(s as int, limit) + tail_span(len, limit),
            SpanState::Tail => tail_span(len, limit),
            SpanState::Done => Seq::empty(),
        }
    }

    pub closed spec fn wf(&self) -> bool {
        &&& self.limit <= self.len <= isize::MAX
        &&& self.state matches SpanState::Stride(s) ==> s <= self.limit + STRIDE || s
            <= DENSE_PREFIX
    }

    /// The next range.
    pub fn next(&mut self) -> (r: Option<(usize, usize)>)
        requires
            old(self).wf(),
        ensures
            final(self).wf(),
            r is None ==> old(self).rest().len() == 0 && final(self).rest().len() == 0,
            r matches Some(span) ==> old(self).rest() == seq![(span.0 as int, span.1 as int)]
                + final(self).rest(),
    {
        let ghost all = self.rest();
        if self.state == SpanState::Dense {
            self.state = SpanState::Stride(DENSE_PREFIX);
            let end: usize = if self.limit < DENSE_PREFIX {
                self.limit
            } else {
                DENSE_PREFIX
            };
            if end > 0 {
                proof {
                    assert(all =~= seq![(0int, end as int)] + self.rest());
                }
                return Some((0, end));
            }
            proof {
                assert(all =~= self.rest());
            }
        }
        match self.state {
            SpanState::Stride(start) => {
                if start + 8 <= self.limit {
                    self.state = SpanState::Stride(start + STRIDE);
                    proof {
                        assert(all =~= seq![(start as int, start + 8)] + self.rest());
                    }
                    return Some((start, start + 8));
                }
                self.state = SpanState::Tail;
                proof {
                    assert(all =~= self.rest());
                }
            },
            _ => {},
        }
        if self.state == SpanState::Tail {
            self.state = SpanState::Done;
            if self.limit == self.len && self.len > DENSE_PREFIX {
                let start: usize = (self.len - 1) / 8 * 8;
                proof {
                    assert(all =~= seq![(start as int, self.len as int)] + self.rest());
                }
                return Some((start, self.len));
            }
        }
        None
    }
}

/// The ranges are those of the covered offsets, each starts at a multiple of 8, is not empty and
/// ends within the limit, and none starts before the one in front of it.
pub proof fn law_spans_are_the_covered_offsets(len: int, limit: int)
    requires
        0 <= limit <= len,
    ensures
        forall|k: int| #[trigger] in_spans(all_spans(len, limit), k) <==> covered(len, limit, k),
        forall|i: int|
            0 <= i < all_spans(len, limit).len() ==> {
                let s = #[trigger] all_spans(len, limit)[i];
                0 <= s.0 < s.1 <= limit && s.0 % 8 == 0
            },
        forall|i: int, j: int|
            0 <= i <= j < all_spans(len, limit).len() ==> (#[trigger] all_spans(len, limit)[i]).0
                <= (#[trigger] all_spans(len, limit)[j]).0,
{
    let all = all_spans(len, limit);
    let dense = if limit > 0 {
        seq![(0int, min(limit, DENSE_PREFIX as int))]
    } else {
        Seq::empty()
    };
    let mid = strides(DENSE_PREFIX as int, limit);
    let tail = tail_span(len, limit);
    lemma_strides(DENSE_PREFIX as int, limit);
    let d: int = dense.len() as int;
    let m: int = mid.len() as int;
    assert forall|i: int| 0 <= i < all.len() implies {
        let s = #[trigger] all[i];
        0 <= s.0 < s.1 <= limit && s.0 % 8 == 0
    } by {
        if d <= i < d + m {
            assert(all[i] == mid[i - d]);
        }
    }
    assert forall|i: int, j: int| 0 <= i <= j < all.len() implies (#[trigger] all[i]).0 <= (
    #[trigger] all[j]).0 by {
        if d <= i < d + m {
            assert(all[i] == mid[i - d]);
        }
        if d <= j < d + m {
            assert(all[j] == mid[j - d]);
        }
    }
    assert forall|k: int| #[trigger] in_spans(all, k) <==> covered(len, limit, k) by {
        if in_spans(all, k) {
            let i: int = choose|i: int| 0 <= i < all.len() && (#[trigger] all[i]).0 <= k < all[i].1;
            if d <= i < d + m {
                assert(all[i] == mid[i - d]);
                assert(in_spans(mid, k));
            }
        }
        if covered(len, limit, k) {
            if k < DENSE_PREFIX {
                assert(all[0].0 <= k < all[0].1);
            } else if past_stride(k) < 8 && k - past_stride(k) + 8 <= limit {
                assert(in_spans(mid, k));
                let i: int = choose|i: int|
                    0 <= i < mid.len() && (#[trigger] mid[i]).0 <= k < mid[i].1;
                assert(all[d + i] == mid[i]);
            } else {
                assert(all[d + m] == tail[0]);
            }
        }
    }
}

proof fn lemma_strides(s: int, limit: int)
    requires
        s >= DENSE_PREFIX,
        (s - DENSE_PREFIX) % STRIDE as int == 0,
    ensures
        forall|k: int| #[trigger]
            in_spans(strides(s, limit), k) <==> {
                &&& k >= s
                &&& past_stride(k) < 8
                &&& k - past_stride(k) + 8 <= limit
            },
        forall|i: int|
            0 <= i < strides(s, limit).len() ==> {
                let t = #[trigger] strides(s, limit)[i];
                s <= t.0 && t.1 == t.0 + 8 && t.1 <= limit && t.0 % 8 == 0
            },
        forall|i: int, j: int|
            0 <= i <= j < strides(s, limit).len() ==> (#[trigger] strides(s, limit)[i]).0 <= (
            #[trigger] strides(s, limit)[j]).0,
    decreases limit + STRIDE - s,
{
    let ss = strides(s, limit);
    if s + 8 <= limit {
        let t = strides(s + STRIDE, limit);
        lemma_strides(s + STRIDE, limit);
        assert forall|i: int| 0 <= i < ss.len() implies {
            let u = #[trigger] ss[i];
            s <= u.0 && u.1 == u.0 + 8 && u.1 <= limit && u.0 % 8 == 0
        } by {
            if i > 0 {
                assert(ss[i] == t[i - 1]);
            }
        }
        assert forall|i: int, j: int| 0 <= i <= j < ss.len() implies (#[trigger] ss[i]).0 <= (
        #[trigger] ss[j]).0 by {
            if i > 0 {
                assert(ss[i] == t[i - 1]);
            }
            if j > 0 {
                assert(ss[j] == t[j - 1]);
            }
        }
        assert forall|k: int| #[trigger] in_spans(ss, k) <==> {
            &&& k >= s
            &&& past_stride(k) < 8
            &&& k - past_stride(k) + 8 <= limit
        } by {
            if in_spans(ss, k) {
                let i: int = choose|i: int| 0 <= i < ss.len() && (#[trigger] ss[i]).0 <= k < ss[i].1;
                if i > 0 {
                    assert(ss[i] == t[i - 1]);
                    assert(in_spans(t, k));
                }
            }
            if k >= s && past_stride(k) < 8 && k - past_stride(k) + 8 <= limit {
                if k < s + STRIDE {
                    assert(ss[0].0 <= k < ss[0].1);
                } else {
                    assert(in_spans(t, k));
                    let i: int = choose|i: int|
                        0 <= i < t.len() && (#[trigger] t[i]).0 <= k < t[i].1;
                    assert(ss[i + 1] == t[i]);
                }
            }
        }
    }
}

/// The first byte that did not hold the expected value.
#[derive(Clone, Copy, Debug, PartialEq, Eq, Structural)]
pub struct Mismatch {
    pub offset: usize,
    pub expected: u8,
    pub found: u8,
}

/// The pattern word of a chunk.
fn word(seed: u64, chunk: usize) -> (r: u64)
    ensures
        r == pattern_word(seed, chunk as int),
{
    seed ^ (chunk as u64).wrapping_mul(GOLDEN)
}

/// The word that a chunk is expected to hold: the pattern of the seed, or zero for none.
pub open spec fn expected_word(seed: Option<u64>, chunk: int) -> u64 {
    match seed {
        Some(s) => pattern_word(s, chunk),
        None => 0,
    }
}

fn expected(seed: Option<u64>, chunk: usize) -> (r: u64)
    ensures
        r == expected_word(seed, chunk as int),
        forall|j: int|
            0 <= j < 8 ==> #[trigger] byte_of(r, j as u64) == pattern_byte(seed, 8 * chunk + j),
{
    match seed {
        Some(s) => {
            let r = word(s, chunk);
            proof {
                assert forall|j: int| 0 <= j < 8 implies #[trigger] byte_of(r, j as u64)
                    == pattern_byte(seed, 8 * chunk + j) by {
                    assert((8 * chunk + j) / 8 == chunk);
                    assert((8 * chunk + j) % 8 == j);
                }
            }
            r
        },
        None => {
            proof {
                assert forall|j: int| 0 <= j < 8 implies #[trigger] byte_of(0, j as u64) == 0 by {
                    crate::bytes::lemma_byte_of_zero(j as u64);
                }
            }
            0
        },
    }
}

/// The bytes of `c` at offsets `[lo, hi)` are those of the pattern.
pub open spec fn matches_pattern(c: Seq<u8>, seed: Option<u64>, lo: int, hi: int) -> bool {
    forall|k: int| lo <= k < hi ==> #[trigger] c[k] == pattern_byte(seed, k)
}

/// The first `limit` bytes of a `len`-byte block hold the pattern wherever they carry it.
pub open spec fn holds_pattern(c: Seq<u8>, seed: Option<u64>, len: int, limit: int) -> bool {
    forall|k: int| covered(len, limit, k) ==> #[trigger] c[k] == pattern_byte(seed, k)
}

/// The writes took the allocator from `old` to `new`, one after the other.
pub open spec fn wrote_all<A: RawAlloc>(old: A, new: A, writes: Seq<Request>) -> bool
    decreases writes.len(),
{
    if writes.len() == 0 {
        new == old
    } else {
        exists|mid: A| #[trigger]
            A::gave(&old, &mid, writes[0], None) && wrote_all(mid, new, writes.drop_first())
    }
}

/// Writes and then more writes are the writes of both.
proof fn lemma_wrote_both<A: RawAlloc>(a: A, b: A, c: A, x: Seq<Request>, y: Seq<Request>)
    requires
        wrote_all(a, b, x),
        wrote_all(b, c, y),
    ensures
        wrote_all(a, c, x + y),
    decreases x.len(),
{
    if x.len() == 0 {
        assert(x + y =~= y);
    } else {
        let mid: A = choose|mid: A| #[trigger]
            A::gave(&a, &mid, x[0], None) && wrote_all(mid, b, x.drop_first());
        lemma_wrote_both(mid, b, c, x.drop_first(), y);
        assert((x + y)[0] == x[0]);
        assert((x + y).drop_first() =~= x.drop_first() + y);
    }
}

/// The writes that put the pattern of `seed` at the offsets `[start, end)` of a block: a word at a
/// time while there is one, and then the bytes that are left.
pub open spec fn span_writes(block: usize, start: int, end: int, seed: u64) -> Seq<Request>
    decreases end - start,
{
    if start >= end {
        Seq::empty()
    } else if end - start >= 8 {
        seq![
            Request::WriteWord {
                block,
                offset: start as usize,
                word: pattern_word(seed, start / 8),
            },
        ] + span_writes(block, start + 8, end, seed)
    } else {
        seq![
            Request::WriteByte {
                block,
                offset: start as usize,
                byte: pattern_byte(Some(seed), start),
            },
        ] + span_writes(block, start + 1, end, seed)
    }
}

/// The writes that put the pattern of `seed` into these ranges of a block.
pub open spec fn fill_writes(block: usize, ss: Seq<(int, int)>, seed: u64) -> Seq<Request>
    decreases ss.len(),
{
    if ss.len() == 0 {
        Seq::empty()
    } else {
        span_writes(block, ss[0].0, ss[0].1, seed) + fill_writes(block, ss.drop_first(), seed)
    }
}

/// One write more and the rest are the rest before it.
proof fn lemma_wrote_first<A: RawAlloc>(a: A, b: A, c: A, first: Request, rest: Seq<Request>)
    requires
        A::gave(&a, &b, first, None),
        wrote_all(b, c, rest),
    ensures
        wrote_all(a, c, seq![first] + rest),
{
    assert((seq![first] + rest)[0] == first);
    assert((seq![first] + rest).drop_first() =~= rest);
}

/// Write the pattern over one range of a block.
fn fill_span<A: RawAlloc>(alloc: &mut A, block: usize, start: usize, end: usize, seed: u64)
    requires
        old(alloc).valid(),
        old(alloc).held().dom().contains(block as int),
        start % 8 == 0,
        start <= end <= old(alloc).held()[block as int].size(),
    ensures
        final(alloc).valid(),
        final(alloc).held() == old(alloc).held(),
        wrote_all(
            *old(alloc),
            *final(alloc),
            span_writes(block, start as int, end as int, seed),
        ),
        matches_pattern(final(alloc).contents()[block as int], Some(seed), start as int, end as int),
        forall|k: int|
            0 <= k < old(alloc).held()[block as int].size() && !(start <= k < end)
                ==> #[trigger] final(alloc).contents()[block as int][k] == old(
                alloc,
            ).contents()[block as int][k],
        old(alloc).honest() ==> final(alloc).honest() && bytes_kept(
            old(alloc).contents(),
            final(alloc).contents(),
            old(alloc).held(),
            block as int,
        ),
{
    let ghost b: int = block as int;
    let ghost size: int = alloc.held()[b].size() as int;
    let mut off: usize = start;
    let ghost all = span_writes(block, start as int, end as int, seed);
    while end - off >= 8
        invariant
            alloc.valid(),
            all == span_writes(block, start as int, end as int, seed),
            forall|z: A| #[trigger]
                wrote_all(*alloc, z, span_writes(block, off as int, end as int, seed)) ==> wrote_all(
                    *old(alloc),
                    z,
                    all,
                ),
            alloc.held() == old(alloc).held(),
            b == block,
            alloc.held().dom().contains(b),
            size == alloc.held()[b].size(),
            off % 8 == 0,
            start <= off <= end <= size,
            matches_pattern(alloc.contents()[b], Some(seed), start as int, off as int),
            forall|k: int|
                0 <= k < size && !(start <= k < end) ==> #[trigger] alloc.contents()[b][k] == old(
                    alloc,
                ).contents()[b][k],
            old(alloc).honest() ==> alloc.honest() && bytes_kept(
                old(alloc).contents(),
                alloc.contents(),
                old(alloc).held(),
                b,
            ),
        decreases end - off,
    {
        let w: u64 = expected(Some(seed), off / 8);
        let ghost before = alloc.contents();
        let ghost prior = *alloc;
        alloc.write_word(block, off, w);
        proof {
            let rest = span_writes(block, off + 8, end as int, seed);
            assert forall|z: A| #[trigger] wrote_all(*alloc, z, rest) implies wrote_all(
                *old(alloc),
                z,
                all,
            ) by {
                let first = Request::WriteWord { block, offset: off, word: w };
                lemma_wrote_first(prior, *alloc, z, first, rest);
                assert(seq![first] + rest == span_writes(block, off as int, end as int, seed));
            }
            let after = alloc.contents();
            assert forall|k: int| start <= k < off + 8 implies #[trigger] after[b][k]
                == pattern_byte(Some(seed), k) by {
                if k >= off {
                    let j: int = k - off;
                    assert(byte_of(w, j as u64) == pattern_byte(Some(seed), 8 * (off as int / 8) + j));
                } else {
                    assert(before[b][k] == pattern_byte(Some(seed), k));
                }
            }
            if old(alloc).honest() {
                let held = old(alloc).held();
                assert forall|c: int, k: int|
                    held.dom().contains(c) && c != b && 0 <= k < held[c].size() implies
                    #[trigger] after[c][k] == old(alloc).contents()[c][k] by {
                    assert(before[c][k] == old(alloc).contents()[c][k]);
                }
            }
        }
        off = off + 8;
    }
    if off < end {
        let w: u64 = expected(Some(seed), off / 8);
        let base: usize = off;
        while off < end
            invariant
                alloc.valid(),
                all == span_writes(block, start as int, end as int, seed),
                forall|z: A| #[trigger]
                    wrote_all(*alloc, z, span_writes(block, off as int, end as int, seed)) ==> wrote_all(
                        *old(alloc),
                        z,
                        all,
                    ),
                alloc.held() == old(alloc).held(),
                b == block,
                alloc.held().dom().contains(b),
                size == alloc.held()[b].size(),
                base % 8 == 0,
                start <= base <= off <= end <= size,
                end - base < 8,
                forall|j: int|
                    0 <= j < 8 ==> #[trigger] byte_of(w, j as u64) == pattern_byte(
                        Some(seed),
                        8 * (base as int / 8) + j,
                    ),
                matches_pattern(alloc.contents()[b], Some(seed), start as int, off as int),
                forall|k: int|
                    0 <= k < size && !(start <= k < end) ==> #[trigger] alloc.contents()[b][k]
                        == old(alloc).contents()[b][k],
                old(alloc).honest() ==> alloc.honest() && bytes_kept(
                    old(alloc).contents(),
                    alloc.contents(),
                    old(alloc).held(),
                    b,
                ),
            decreases end - off,
        {
            let ghost before = alloc.contents();
            let v: u8 = get_byte(w, (off - base) as u64);
            let ghost prior = *alloc;
            alloc.write_byte(block, off, v);
            proof {
                let rest = span_writes(block, off + 1, end as int, seed);
                assert forall|z: A| #[trigger] wrote_all(*alloc, z, rest) implies wrote_all(
                    *old(alloc),
                    z,
                    all,
                ) by {
                    let first = Request::WriteByte { block, offset: off, byte: v };
                    lemma_wrote_first(prior, *alloc, z, first, rest);
                    assert(byte_of(w, (off - base) as u64) == pattern_byte(
                        Some(seed),
                        8 * (base as int / 8) + (off - base),
                    ));
                    assert(seq![first] + rest == span_writes(block, off as int, end as int, seed));
                }
                let after = alloc.contents();
                let j: int = off - base;
                assert(byte_of(w, j as u64) == pattern_byte(Some(seed), 8 * (base as int / 8) + j));
                assert forall|k: int| start <= k < off + 1 implies #[trigger] after[b][k]
                    == pattern_byte(Some(seed), k) by {
                    if k < off {
                        assert(before[b][k] == pattern_byte(Some(seed), k));
                    }
                }
                if old(alloc).honest() {
                    let held = old(alloc).held();
                    assert forall|c: int, k: int|
                        held.dom().contains(c) && c != b && 0 <= k < held[c].size() implies
                        #[trigger] after[c][k] == old(alloc).contents()[c][k] by {
                        assert(before[c][k] == old(alloc).contents()[c][k]);
                    }
                }
            }
            off = off + 1;
        }
    }
    proof {
        assert(span_writes(block, off as int, end as int, seed) == Seq::<Request>::empty());
        assert(wrote_all(*alloc, *alloc, span_writes(block, off as int, end as int, seed)));
    }
}

/// The ranges seen so far and those still to come are all of them.
spec fn split(
    all: Seq<(int, int)>,
    done: Seq<(int, int)>,
    next: Option<(usize, usize)>,
    rest: Seq<(int, int)>,
) -> bool {
    match next {
        Some(s) => all == done + (seq![(s.0 as int, s.1 as int)] + rest),
        None => all == done && rest.len() == 0,
    }
}

/// The ranges still to come.
spec fn to_come(next: Option<(usize, usize)>, rest: Seq<(int, int)>) -> Seq<(int, int)> {
    match next {
        Some(s) => seq![(s.0 as int, s.1 as int)] + rest,
        None => rest,
    }
}

/// The pattern of `seed` was written over the `len`-byte block at `b`, and nothing else.
pub open spec fn filled<A: RawAlloc>(old: &A, new: &A, b: int, len: int, seed: u64) -> bool {
    &&& new.held() == old.held()
    &&& holds_pattern(new.contents()[b], Some(seed), len, len)
    &&& forall|k: int|
        0 <= k < old.held()[b].size() && !covered(len, len, k) ==> #[trigger] new.contents()[b][k]
            == old.contents()[b][k]
    &&& wrote_all(*old, *new, fill_writes(b as usize, all_spans(len, len), seed))
    &&& old.honest() ==> new.honest() && bytes_kept(old.contents(), new.contents(), old.held(), b)
}

/// Write the pattern of `seed` over the `len`-byte block at `block`.
pub fn fill<A: RawAlloc>(alloc: &mut A, block: usize, len: usize, seed: u64)
    requires
        old(alloc).valid(),
        old(alloc).held().dom().contains(block as int),
        len <= old(alloc).held()[block as int].size(),
        len <= isize::MAX,
    ensures
        final(alloc).valid(),
        filled(old(alloc), final(alloc), block as int, len as int, seed),
{
    let ghost b: int = block as int;
    let ghost n: int = len as int;
    let ghost all = all_spans(n, n);
    let ghost size: int = alloc.held()[b].size() as int;
    let mut it = spans(len, len);
    let mut next = it.next();
    let ghost mut done: Seq<(int, int)> = Seq::empty();
    proof {
        law_spans_are_the_covered_offsets(n, n);
        match next {
            Some(s) => {
                assert(all =~= done + (seq![(s.0 as int, s.1 as int)] + it.rest()));
                assert(all =~= to_come(next, it.rest()));
            },
            None => {
                assert(all =~= done);
                assert(all =~= to_come(next, it.rest()));
            },
        }
    }
    while next.is_some()
        invariant
            it.wf(),
            split(all, done, next, it.rest()),
            n == len,
            all == all_spans(n, n),
            alloc.valid(),
            forall|z: A| #[trigger]
                wrote_all(*alloc, z, fill_writes(block, to_come(next, it.rest()), seed))
                    ==> wrote_all(*old(alloc), z, fill_writes(block, all, seed)),
            alloc.held() == old(alloc).held(),
            b == block,
            alloc.held().dom().contains(b),
            size == alloc.held()[b].size(),
            n <= size,
            forall|i: int|
                0 <= i < all.len() ==> {
                    let s = #[trigger] all[i];
                    0 <= s.0 < s.1 <= n && s.0 % 8 == 0
                },
            forall|k: int| #[trigger] in_spans(all, k) <==> covered(n, n, k),
            forall|k: int| #[trigger]
                in_spans(done, k) ==> alloc.contents()[b][k] == pattern_byte(Some(seed), k),
            forall|k: int|
                0 <= k < size && !covered(n, n, k) ==> #[trigger] alloc.contents()[b][k] == old(
                    alloc,
                ).contents()[b][k],
            old(alloc).honest() ==> alloc.honest() && bytes_kept(
                old(alloc).contents(),
                alloc.contents(),
                old(alloc).held(),
                b,
            ),
        decreases it.rest().len() + if next is Some {
            1int
        } else {
            0
        },
    {
        let (start, end) = match next {
            Some(s) => s,
            None => (0, 0),
        };
        let ghost before = alloc.contents();
        let ghost old_done = done;
        let ghost span: (int, int) = (start as int, end as int);
        proof {
            assert(all[done.len() as int] == span);
        }
        let ghost prior = *alloc;
        let ghost coming = to_come(next, it.rest());
        fill_span(alloc, block, start, end, seed);
        next = it.next();
        proof {
            let rest = to_come(next, it.rest());
            assert(coming[0] == span);
            assert(coming.drop_first() =~= rest);
            assert forall|z: A| #[trigger]
                wrote_all(*alloc, z, fill_writes(block, rest, seed)) implies wrote_all(
                *old(alloc),
                z,
                fill_writes(block, all, seed),
            ) by {
                lemma_wrote_both(
                    prior,
                    *alloc,
                    z,
                    span_writes(block, span.0, span.1, seed),
                    fill_writes(block, rest, seed),
                );
                assert(wrote_all(prior, z, fill_writes(block, coming, seed)));
            }
            done = done.push(span);
            let after = alloc.contents();
            match next {
                Some(s) => {
                    assert(all =~= done + (seq![(s.0 as int, s.1 as int)] + it.rest()));
                },
                None => {
                    assert(all =~= done);
                },
            }
            assert forall|k: int| #[trigger] in_spans(done, k) implies after[b][k]
                == pattern_byte(Some(seed), k) by {
                let i: int = choose|i: int|
                    0 <= i < done.len() && (#[trigger] done[i]).0 <= k < done[i].1;
                assert(all[i] == done[i]);
                if !(start <= k < end) {
                    assert(old_done[i] == done[i]);
                    assert(in_spans(old_done, k));
                    assert(before[b][k] == pattern_byte(Some(seed), k));
                }
            }
            assert forall|k: int| 0 <= k < size && !covered(n, n, k) implies #[trigger] after[b][k]
                == old(alloc).contents()[b][k] by {
                if start <= k < end {
                    assert(all[old_done.len() as int].0 <= k < all[old_done.len() as int].1);
                    assert(in_spans(all, k));
                }
                assert(before[b][k] == old(alloc).contents()[b][k]);
            }
            if old(alloc).honest() {
                let held = old(alloc).held();
                assert forall|c: int, k: int|
                    held.dom().contains(c) && c != b && 0 <= k < held[c].size() implies
                    #[trigger] after[c][k] == old(alloc).contents()[c][k] by {
                    assert(before[c][k] == old(alloc).contents()[c][k]);
                }
            }
        }
    }
    proof {
        assert(to_come(next, it.rest()) =~= Seq::<(int, int)>::empty());
        assert(wrote_all(*alloc, *alloc, fill_writes(block, to_come(next, it.rest()), seed)));
        let c = alloc.contents()[b];
        assert forall|k: int| covered(n, n, k) implies #[trigger] c[k] == pattern_byte(
            Some(seed),
            k,
        ) by {
            assert(in_spans(done, k));
        }
    }
}

/// `m` is the first of the bytes at offsets `[lo, hi)` that differs from the pattern.
pub open spec fn first_difference(
    c: Seq<u8>,
    seed: Option<u64>,
    lo: int,
    hi: int,
    m: Mismatch,
) -> bool {
    &&& lo <= m.offset < hi
    &&& m.found == c[m.offset as int]
    &&& m.expected == pattern_byte(seed, m.offset as int)
    &&& m.found != m.expected
    &&& matches_pattern(c, seed, lo, m.offset as int)
}

/// The first byte in which two words, which are known to differ, do.
fn first_mismatch(base: usize, expected: u64, found: u64) -> (r: Mismatch)
    requires
        expected != found,
        base + 8 <= usize::MAX,
    ensures
        base <= r.offset < base + 8,
        r.expected == byte_of(expected, (r.offset - base) as u64),
        r.found == byte_of(found, (r.offset - base) as u64),
        r.expected != r.found,
        forall|j: int|
            0 <= j < r.offset - base ==> #[trigger] byte_of(found, j as u64) == byte_of(
                expected,
                j as u64,
            ),
{
    let mut i: u64 = 0;
    while i < 7 && get_byte(expected, i) == get_byte(found, i)
        invariant
            i <= 7,
            forall|j: int|
                0 <= j < i ==> #[trigger] byte_of(found, j as u64) == byte_of(expected, j as u64),
        decreases 7 - i,
    {
        i = i + 1;
    }
    proof {
        if byte_of(expected, i) == byte_of(found, i) {
            assert forall|j: int| 0 <= j < 8 implies #[trigger] byte_of(found, j as u64) == byte_of(
                expected,
                j as u64,
            ) by {}
            assert(byte_of(found, 0int as u64) == byte_of(expected, 0int as u64));
            assert(byte_of(found, 1int as u64) == byte_of(expected, 1int as u64));
            assert(byte_of(found, 2int as u64) == byte_of(expected, 2int as u64));
            assert(byte_of(found, 3int as u64) == byte_of(expected, 3int as u64));
            assert(byte_of(found, 4int as u64) == byte_of(expected, 4int as u64));
            assert(byte_of(found, 5int as u64) == byte_of(expected, 5int as u64));
            assert(byte_of(found, 6int as u64) == byte_of(expected, 6int as u64));
            assert(byte_of(found, 7int as u64) == byte_of(expected, 7int as u64));
            lemma_same_bytes(expected, found);
        }
    }
    Mismatch {
        offset: base + i as usize,
        expected: get_byte(expected, i),
        found: get_byte(found, i),
    }
}

/// A word is its bytes.
proof fn lemma_same_bytes(a: u64, b: u64)
    requires
        byte_of(a, 0) == byte_of(b, 0),
        byte_of(a, 1) == byte_of(b, 1),
        byte_of(a, 2) == byte_of(b, 2),
        byte_of(a, 3) == byte_of(b, 3),
        byte_of(a, 4) == byte_of(b, 4),
        byte_of(a, 5) == byte_of(b, 5),
        byte_of(a, 6) == byte_of(b, 6),
        byte_of(a, 7) == byte_of(b, 7),
    ensures
        a == b,
{
    assert(a == b) by (bit_vector)
        requires
            ((a >> 0u64) & 0xff) as u8 == ((b >> 0u64) & 0xff) as u8,
            ((a >> 8u64) & 0xff) as u8 == ((b >> 8u64) & 0xff) as u8,
            ((a >> 16u64) & 0xff) as u8 == ((b >> 16u64) & 0xff) as u8,
            ((a >> 24u64) & 0xff) as u8 == ((b >> 24u64) & 0xff) as u8,
            ((a >> 32u64) & 0xff) as u8 == ((b >> 32u64) & 0xff) as u8,
            ((a >> 40u64) & 0xff) as u8 == ((b >> 40u64) & 0xff) as u8,
            ((a >> 48u64) & 0xff) as u8 == ((b >> 48u64) & 0xff) as u8,
            ((a >> 56u64) & 0xff) as u8 == ((b >> 56u64) & 0xff) as u8,
    ;
}

/// Check one range of a block.
#[verifier::spinoff_prover]
#[verifier::rlimit(40)]
fn verify_span<A: RawAlloc>(
    alloc: &A,
    block: usize,
    start: usize,
    end: usize,
    seed: Option<u64>,
) -> (r: Result<(), Mismatch>)
    requires
        alloc.valid(),
        alloc.held().dom().contains(block as int),
        start % 8 == 0,
        start <= end <= alloc.held()[block as int].size(),
    ensures
        r is Ok ==> matches_pattern(
            alloc.contents()[block as int],
            seed,
            start as int,
            end as int,
        ),
        r matches Err(m) ==> first_difference(
            alloc.contents()[block as int],
            seed,
            start as int,
            end as int,
            m,
        ),
{
    let ghost c = alloc.contents()[block as int];
    let mut off: usize = start;
    while end - off >= 8
        invariant
            alloc.valid(),
            alloc.held().dom().contains(block as int),
            c == alloc.contents()[block as int],
            off % 8 == 0,
            start <= off <= end <= alloc.held()[block as int].size(),
            matches_pattern(c, seed, start as int, off as int),
        decreases end - off,
    {
        let want: u64 = expected(seed, off / 8);
        let found: u64 = alloc.read_word(block, off);
        proof {
            assert forall|j: int| 0 <= j < 8 implies c[off + j] == #[trigger] byte_of(
                found,
                j as u64,
            ) && byte_of(want, j as u64) == pattern_byte(seed, off + j) by {
                assert(byte_of(want, j as u64) == pattern_byte(seed, 8 * (off as int / 8) + j));
            }
        }
        if found != want {
            let m = first_mismatch(off, want, found);
            proof {
                let i: int = m.offset - off;
                assert(c[off + i] == byte_of(found, i as u64));
                assert forall|k: int| start <= k < m.offset implies #[trigger] c[k] == pattern_byte(
                    seed,
                    k,
                ) by {
                    if k >= off {
                        let j: int = k - off;
                        assert(byte_of(found, j as u64) == byte_of(want, j as u64));
                    }
                }
            }
            return Err(m);
        }
        proof {
            assert forall|k: int| start <= k < off + 8 implies #[trigger] c[k] == pattern_byte(
                seed,
                k,
            ) by {
                if k >= off {
                    let j: int = k - off;
                    assert(c[off + j] == byte_of(found, j as u64));
                }
            }
        }
        off = off + 8;
    }
    if off < end {
        let want: u64 = expected(seed, off / 8);
        let base: usize = off;
        while off < end
            invariant
                alloc.valid(),
                alloc.held().dom().contains(block as int),
                c == alloc.contents()[block as int],
                base % 8 == 0,
                start <= base <= off <= end <= alloc.held()[block as int].size(),
                end - base < 8,
                forall|j: int|
                    0 <= j < 8 ==> #[trigger] byte_of(want, j as u64) == pattern_byte(
                        seed,
                        8 * (base as int / 8) + j,
                    ),
                matches_pattern(c, seed, start as int, off as int),
            decreases end - off,
        {
            let v: u8 = get_byte(want, (off - base) as u64);
            let found: u8 = alloc.read_byte(block, off);
            proof {
                let j: int = off - base;
                assert(byte_of(want, j as u64) == pattern_byte(seed, 8 * (base as int / 8) + j));
            }
            if found != v {
                return Err(Mismatch { offset: off, expected: v, found });
            }
            off = off + 1;
        }
    }
    Ok(())
}

/// `m` is the first covered offset of a block that differs from the pattern.
pub open spec fn first_mismatch_of(
    c: Seq<u8>,
    seed: Option<u64>,
    len: int,
    limit: int,
    m: Mismatch,
) -> bool {
    &&& covered(len, limit, m.offset as int)
    &&& m.found == c[m.offset as int]
    &&& m.expected == pattern_byte(seed, m.offset as int)
    &&& m.found != m.expected
    &&& forall|k: int|
        covered(len, limit, k) && k < m.offset ==> #[trigger] c[k] == pattern_byte(seed, k)
}

/// Check the first `limit` bytes of a block of `len` bytes, or one that was `len` bytes long,
/// against the pattern of `seed` or against zero.
pub fn verify<A: RawAlloc>(
    alloc: &A,
    block: usize,
    len: usize,
    limit: usize,
    seed: Option<u64>,
) -> (r: Result<(), Mismatch>)
    requires
        alloc.valid(),
        alloc.held().dom().contains(block as int),
        limit <= alloc.held()[block as int].size(),
        limit <= len <= isize::MAX,
    ensures
        r is Ok <==> holds_pattern(
            alloc.contents()[block as int],
            seed,
            len as int,
            limit as int,
        ),
        r matches Err(m) ==> first_mismatch_of(
            alloc.contents()[block as int],
            seed,
            len as int,
            limit as int,
            m,
        ),
{
    let ghost c = alloc.contents()[block as int];
    let ghost n: int = limit as int;
    let ghost all = all_spans(len as int, n);
    let mut it = spans(len, limit);
    let mut next = it.next();
    let ghost mut done: Seq<(int, int)> = Seq::empty();
    proof {
        law_spans_are_the_covered_offsets(len as int, n);
        match next {
            Some(s) => {
                assert(all =~= done + (seq![(s.0 as int, s.1 as int)] + it.rest()));
            },
            None => {
                assert(all =~= done);
            },
        }
    }
    while next.is_some()
        invariant
            it.wf(),
            split(all, done, next, it.rest()),
            n == limit,
            all == all_spans(len as int, n),
            alloc.valid(),
            alloc.held().dom().contains(block as int),
            c == alloc.contents()[block as int],
            n <= alloc.held()[block as int].size(),
            forall|i: int|
                0 <= i < all.len() ==> {
                    let s = #[trigger] all[i];
                    0 <= s.0 < s.1 <= n && s.0 % 8 == 0
                },
            forall|i: int, j: int|
                0 <= i <= j < all.len() ==> (#[trigger] all[i]).0 <= (#[trigger] all[j]).0,
            forall|k: int| #[trigger] in_spans(all, k) <==> covered(len as int, n, k),
            forall|k: int| #[trigger] in_spans(done, k) ==> c[k] == pattern_byte(seed, k),
        decreases it.rest().len() + if next is Some {
            1int
        } else {
            0
        },
    {
        let (start, end) = match next {
            Some(s) => s,
            None => (0, 0),
        };
        let ghost at: int = done.len() as int;
        let ghost span: (int, int) = (start as int, end as int);
        proof {
            assert(all[at] == span);
        }
        match verify_span(alloc, block, start, end, seed) {
            Ok(_) => {},
            Err(m) => {
                proof {
                    assert(all[at].0 <= m.offset < all[at].1);
                    assert(in_spans(all, m.offset as int));
                    assert forall|k: int|
                        covered(len as int, n, k) && k < m.offset implies #[trigger] c[k]
                        == pattern_byte(seed, k) by {
                        assert(in_spans(all, k));
                        let i: int = choose|i: int|
                            0 <= i < all.len() && (#[trigger] all[i]).0 <= k < all[i].1;
                        if i < at {
                            assert(done[i] == all[i]);
                            assert(in_spans(done, k));
                        } else {
                            assert(all[at].0 <= all[i].0);
                        }
                    }
                }
                return Err(m);
            },
        }
        next = it.next();
        proof {
            let old_done = done;
            done = done.push(span);
            match next {
                Some(s) => {
                    assert(all =~= done + (seq![(s.0 as int, s.1 as int)] + it.rest()));
                },
                None => {
                    assert(all =~= done);
                },
            }
            assert forall|k: int| #[trigger] in_spans(done, k) implies c[k] == pattern_byte(
                seed,
                k,
            ) by {
                let i: int = choose|i: int|
                    0 <= i < done.len() && (#[trigger] done[i]).0 <= k < done[i].1;
                if !(start <= k < end) {
                    assert(old_done[i] == done[i]);
                    assert(in_spans(old_done, k));
                }
            }
        }
    }
    proof {
        assert forall|k: int| covered(len as int, n, k) implies #[trigger] c[k] == pattern_byte(
            seed,
            k,
        ) by {
            assert(in_spans(done, k));
        }
    }
    Ok(())
}

/// What is covered of a prefix of a block is covered of the block, so a block that was filled and
/// then resized without loss still verifies as far as it goes.
pub proof fn law_a_prefix_keeps_its_pattern(
    c: Seq<u8>,
    d: Seq<u8>,
    seed: Option<u64>,
    len: int,
    keep: int,
)
    requires
        0 <= keep <= len,
        holds_pattern(c, seed, len, len),
        forall|k: int| 0 <= k < keep ==> #[trigger] d[k] == c[k],
    ensures
        holds_pattern(d, seed, len, keep),
{
    assert forall|k: int| covered(len, keep, k) implies #[trigger] d[k] == pattern_byte(seed, k) by {
        assert(covered(len, len, k));
        assert(c[k] == pattern_byte(seed, k));
    }
}

/// Different chunks of a block hold different words, so a copy shifted by whole words never
/// matches; and a different seed changes every word.
pub proof fn law_pattern_words_differ(seed: u64, other: u64, i: u64, j: u64)
    ensures
        i != j ==> pattern_word(seed, i as int) != pattern_word(seed, j as int),
        seed != other ==> pattern_word(seed, i as int) != pattern_word(other, i as int),
{
    let x = i.wrapping_mul(0x9E37_79B9_7F4A_7C15);
    let y = j.wrapping_mul(0x9E37_79B9_7F4A_7C15);
    assert(seed ^ x == seed ^ y ==> x == y) by (bit_vector);
    assert(seed ^ x == other ^ x ==> seed == other) by (bit_vector);
    if i != j && x == y {
        super::rng::lemma_odd_factor(i, j, 0x9E37_79B9_7F4A_7C15, 0xF1DE_83E1_9937_733D);
    }
}

/// The words of a pattern begin with the seed, and up to it they go up by the same amount from one
/// to the next, which is the golden ratio's.
pub proof fn law_pattern_words_go_up_evenly(seed: u64, chunk: u64)
    requires
        chunk < u64::MAX,
    ensures
        pattern_word(seed, 0) == seed,
        pattern_word(seed, chunk as int) == seed ^ pattern_word(0, chunk as int),
        pattern_word(0, chunk + 1) == pattern_word(0, chunk as int).wrapping_add(
            0x9E37_79B9_7F4A_7C15,
        ),
{
    let g: u64 = 0x9E37_79B9_7F4A_7C15;
    let x: u64 = chunk.wrapping_mul(g);
    let y: u64 = ((chunk + 1) as u64).wrapping_mul(g);
    let z: u64 = 0u64.wrapping_mul(g);
    assert(z == 0);
    assert(seed ^ 0 == seed && (seed ^ (0u64 ^ x)) == seed ^ x && 0u64 ^ x == x && 0u64 ^ y == y)
        by (bit_vector);
    let two: int = 0x1_0000_0000_0000_0000;
    assert((chunk + 1) * g == chunk * g + g) by (nonlinear_arith);
    assert((chunk * g + g) % two == ((chunk * g) % two + g) % two) by {
        vstd::arithmetic::div_mod::lemma_add_mod_noop(chunk * g, g as int, two);
        vstd::arithmetic::div_mod::lemma_small_mod(g as nat, two as nat);
    }
}

/// A whole block carries its pattern in its first 64 KiB, in the first word of every 4 KiB after
/// them that has the room, and in the word that holds its last byte. Of a part of a block the last
/// of these is left out.
pub proof fn law_large_blocks_are_sampled(len: int, limit: int, j: int, d: int)
    requires
        0 <= limit <= len,
        j >= 0,
        0 <= d < 4096,
    ensures
        ({
            let k = 65536 + 4096 * j + d;
            let tail = limit == len && (len - 1) / 8 <= k / 8;
            &&& covered(len, limit, k) <==> k < limit && ((d < 8 && k - d + 8 <= limit) || tail)
            &&& j < 65536 && j < limit ==> covered(len, limit, j)
        }),
{
    let k: int = 65536 + 4096 * j + d;
    assert((4096 * j + d) % 4096 == d);
    assert(k >= (len - 1) / 8 * 8 <==> (len - 1) / 8 <= k / 8);
}

} // verus!
