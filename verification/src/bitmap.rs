//! Bits of words and of word sequences.
use vstd::prelude::*;

verus! {

/// Bits per bitmap word.
pub const BITS: usize = 64;

/// Bit `i` of `w`.
pub open spec fn bit(w: u64, i: int) -> bool {
    (w >> (i as u64)) & 1 == 1
}

/// Bit `i` of a sequence of words, lowest word first.
pub open spec fn bit_at(words: Seq<u64>, i: int) -> bool {
    bit(words[i / 64], i % 64)
}

/// Every bit of `[lo, hi)` is set.
pub open spec fn all_bits(words: Seq<u64>, lo: int, hi: int) -> bool {
    forall|i: int| lo <= i < hi ==> #[trigger] bit_at(words, i)
}

/// No bit of `[lo, hi)` is set.
pub open spec fn no_bits(words: Seq<u64>, lo: int, hi: int) -> bool {
    forall|i: int| lo <= i < hi ==> !#[trigger] bit_at(words, i)
}

/// Number of set bits among the first `n`.
pub open spec fn count_bits(words: Seq<u64>, n: int) -> int
    decreases n,
{
    if n <= 0 {
        0
    } else {
        count_bits(words, n - 1) + if bit_at(words, n - 1) {
            1int
        } else {
            0int
        }
    }
}

/// `n` consecutive bits starting at `bit`.
#[inline]
pub fn mask(bit: usize, n: usize) -> (r: u64)
    requires
        1 <= n,
        bit + n <= BITS,
    ensures
        forall|j: int| 0 <= j < 64 ==> (#[trigger] self::bit(r, j) <==> bit <= j < bit + n),
{
    // Shifting right by 64 - n (never 64 itself) sidesteps the shift by 64 that the obvious
    // (1 << n) - 1 hits for n == 64.
    let r: u64 = (u64::MAX >> ((BITS - n) as u64)) << (bit as u64);
    proof {
        let b: u64 = bit as u64;
        let k: u64 = n as u64;
        assert forall|j: int| 0 <= j < 64 implies (#[trigger] self::bit(r, j) <==> bit <= j < bit
            + n) by {
            let i: u64 = j as u64;
            assert(((((u64::MAX >> ((64 - k) as u64)) << b) >> i) & 1 == 1) <==> (b <= i && i < b
                + k)) by (bit_vector)
                requires
                    1 <= k,
                    b + k <= 64,
                    i < 64,
            ;
        }
    }
    r
}

/// How the bit operations act on one bit.
proof fn lemma_bit_ops_at(a: u64, m: u64, j: int)
    requires
        0 <= j < 64,
    ensures
        bit(a | m, j) <==> bit(a, j) || bit(m, j),
        bit(a & !m, j) <==> bit(a, j) && !bit(m, j),
        bit(a & m, j) <==> bit(a, j) && bit(m, j),
        bit(!m, j) <==> !bit(m, j),
        !bit(0, j),
        bit(u64::MAX, j),
{
    let i: u64 = j as u64;
    assert((((a | m) >> i) & 1 == 1 <==> ((a >> i) & 1 == 1 || (m >> i) & 1 == 1)) && (((a & !m)
        >> i) & 1 == 1 <==> ((a >> i) & 1 == 1 && !((m >> i) & 1 == 1))) && (((a & m) >> i) & 1
        == 1 <==> ((a >> i) & 1 == 1 && (m >> i) & 1 == 1)) && (((!m) >> i) & 1 == 1 <==> !((m
        >> i) & 1 == 1)) && !((0u64 >> i) & 1 == 1) && ((u64::MAX >> i) & 1 == 1)) by (bit_vector)
        requires
            i < 64,
    ;
}

/// How the bit operations act on single bits.
pub proof fn lemma_bit_ops(a: u64, m: u64)
    ensures
        forall|j: int| 0 <= j < 64 ==> (#[trigger] bit(a | m, j) <==> bit(a, j) || bit(m, j)),
        forall|j: int| 0 <= j < 64 ==> (#[trigger] bit(a & !m, j) <==> bit(a, j) && !bit(m, j)),
        forall|j: int| 0 <= j < 64 ==> (#[trigger] bit(a & m, j) <==> bit(a, j) && bit(m, j)),
        forall|j: int| 0 <= j < 64 ==> (#[trigger] bit(!m, j) <==> !bit(m, j)),
        forall|j: int| 0 <= j < 64 ==> !#[trigger] bit(0, j),
        forall|j: int| 0 <= j < 64 ==> #[trigger] bit(u64::MAX, j),
{
    assert forall|j: int| 0 <= j < 64 implies (#[trigger] bit(a | m, j) <==> bit(a, j) || bit(
        m,
        j,
    )) by {
        lemma_bit_ops_at(a, m, j);
    }
    assert forall|j: int| 0 <= j < 64 implies (#[trigger] bit(a & !m, j) <==> bit(a, j) && !bit(
        m,
        j,
    )) by {
        lemma_bit_ops_at(a, m, j);
    }
    assert forall|j: int| 0 <= j < 64 implies (#[trigger] bit(a & m, j) <==> bit(a, j) && bit(
        m,
        j,
    )) by {
        lemma_bit_ops_at(a, m, j);
    }
    assert forall|j: int| 0 <= j < 64 implies (#[trigger] bit(!m, j) <==> !bit(m, j)) by {
        lemma_bit_ops_at(a, m, j);
    }
    assert forall|j: int| 0 <= j < 64 implies !#[trigger] bit(0, j) by {
        lemma_bit_ops_at(a, m, j);
    }
    assert forall|j: int| 0 <= j < 64 implies #[trigger] bit(u64::MAX, j) by {
        lemma_bit_ops_at(a, m, j);
    }
}

/// The lowest set bit of a non-zero word.
pub proof fn lemma_lowest_bit(w: u64)
    requires
        w != 0,
    ensures
        vstd::std_specs::bits::u64_trailing_zeros(w) < 64,
        bit(w, vstd::std_specs::bits::u64_trailing_zeros(w) as int),
        forall|j: int|
            0 <= j < vstd::std_specs::bits::u64_trailing_zeros(w) ==> !#[trigger] bit(w, j),
{
    vstd::std_specs::bits::axiom_u64_trailing_zeros(w);
    let t: u32 = vstd::std_specs::bits::u64_trailing_zeros(w);
    assert forall|j: int| 0 <= j < t implies !#[trigger] bit(w, j) by {
        assert((w >> (j as u64)) & 1 == 0);
    }
}

/// The highest set bit of a non-zero word.
pub proof fn lemma_highest_bit(w: u64)
    requires
        w != 0,
    ensures
        0 <= vstd::std_specs::bits::u64_leading_zeros(w) < 64,
        bit(w, 63 - vstd::std_specs::bits::u64_leading_zeros(w)),
        forall|j: int|
            63 - vstd::std_specs::bits::u64_leading_zeros(w) < j < 64 ==> !#[trigger] bit(w, j),
{
    vstd::std_specs::bits::axiom_u64_leading_zeros(w);
    let t: int = vstd::std_specs::bits::u64_leading_zeros(w);
    let x: u64 = w >> ((63 - t) as u64);
    assert(x & 1 != 0 ==> x & 1 == 1) by (bit_vector);
    assert forall|j: int| 63 - t < j < 64 implies !#[trigger] bit(w, j) by {
        assert((w >> (j as u64)) & 1 == 0);
    }
}

/// A word without set bits is zero, one without clear bits is all ones.
pub proof fn lemma_word_extremes(w: u64)
    ensures
        w == 0 <==> forall|j: int| 0 <= j < 64 ==> !#[trigger] bit(w, j),
        w == u64::MAX <==> forall|j: int| 0 <= j < 64 ==> #[trigger] bit(w, j),
{
    lemma_bit_ops(w, w);
    if w != 0 {
        lemma_lowest_bit(w);
    }
    assert(w != u64::MAX ==> !w != 0) by (bit_vector);
    if w != u64::MAX {
        lemma_lowest_bit(!w);
        let t: int = vstd::std_specs::bits::u64_trailing_zeros(!w) as int;
        assert(bit(!w, t));
        assert(!bit(w, t));
    }
}

/// Whether a word holds every bit of a mask.
pub proof fn lemma_holds_mask(w: u64, m: u64)
    ensures
        (w & m == m) <==> forall|j: int| 0 <= j < 64 && bit(m, j) ==> #[trigger] bit(w, j),
{
    lemma_bit_ops(w, m);
    lemma_bit_ops(m, w);
    lemma_word_extremes(m & !w);
    assert((w & m == m) <==> (m & !w == 0)) by (bit_vector);
    if m & !w == 0 {
        assert forall|j: int| 0 <= j < 64 && bit(m, j) implies #[trigger] bit(w, j) by {
            assert(!bit(m & !w, j));
        }
    } else {
        let j: int = choose|j: int| 0 <= j < 64 && #[trigger] bit(m & !w, j);
        assert(bit(m, j) && !bit(w, j));
    }
}

/// Whether a word holds no bit of a mask.
pub proof fn lemma_misses_mask(w: u64, m: u64)
    ensures
        (w & m == 0) <==> forall|j: int| 0 <= j < 64 && bit(m, j) ==> !#[trigger] bit(w, j),
{
    lemma_bit_ops(w, m);
    lemma_word_extremes(w & m);
    if w & m == 0 {
        assert forall|j: int| 0 <= j < 64 && bit(m, j) implies !#[trigger] bit(w, j) by {
            assert(!bit(w & m, j));
        }
    } else {
        let j: int = choose|j: int| 0 <= j < 64 && #[trigger] bit(w & m, j);
        assert(bit(m, j) && bit(w, j));
    }
}

/// Bit `8k` of the result is set exactly when byte `k` of `b` is all ones; other bits are clear.
#[inline]
pub fn full_bytes(b: u64) -> (r: u64)
    ensures
        forall|j: int|
            0 <= j < 64 ==> (#[trigger] bit(r, j) <==> j % 8 == 0 && (forall|k: int|
                j <= k < j + 8 ==> #[trigger] bit(b, k))),
{
    let x: u64 = b & (b >> 4);
    let y: u64 = x & (x >> 2);
    let z: u64 = y & (y >> 1);
    let r: u64 = z & 0x0101_0101_0101_0101;
    proof {
        assert forall|j: int| 0 <= j < 64 implies (#[trigger] bit(r, j) <==> j % 8 == 0 && (forall|
            k: int,
        |
            j <= k < j + 8 ==> #[trigger] bit(b, k))) by {
            let i: u64 = j as u64;
            assert(((r >> i) & 1 == 1) <==> (i % 8 == 0 && (b >> i) & 1 == 1 && (b >> ((i
                + 1) as u64)) & 1 == 1 && (b >> ((i + 2) as u64)) & 1 == 1 && (b >> ((i
                + 3) as u64)) & 1 == 1 && (b >> ((i + 4) as u64)) & 1 == 1 && (b >> ((i
                + 5) as u64)) & 1 == 1 && (b >> ((i + 6) as u64)) & 1 == 1 && (b >> ((i
                + 7) as u64)) & 1 == 1)) by (bit_vector)
                requires
                    i < 64,
                    x == b & (b >> 4),
                    y == x & (x >> 2),
                    z == y & (y >> 1),
                    r == z & 0x0101_0101_0101_0101,
            ;
            assert(i as int % 8 == j % 8);
            let c: bool = bit(b, j) && bit(b, j + 1) && bit(b, j + 2) && bit(b, j + 3) && bit(
                b,
                j + 4,
            ) && bit(b, j + 5) && bit(b, j + 6) && bit(b, j + 7);
            assert(bit(r, j) <==> j % 8 == 0 && c);
            assert(c <==> (forall|k: int| j <= k < j + 8 ==> #[trigger] bit(b, k)));
        }
    }
    r
}

/// Whether every bit of `[rel, rel + count)` is set.
pub fn all_set<const W: usize>(words: &[u64; W], rel: usize, count: usize) -> (r: bool)
    requires
        rel + count <= 64 * W,
        64 * W <= usize::MAX,
    ensures
        r == all_bits(words@, rel as int, rel + count),
{
    let end: usize = rel + count;
    let mut pos: usize = rel;
    while pos < end
        invariant
            rel <= pos <= end,
            end == rel + count,
            end <= 64 * W,
            64 * W <= usize::MAX,
            all_bits(words@, rel as int, pos as int),
        decreases end - pos,
    {
        let w: usize = pos / BITS;
        let b: usize = pos % BITS;
        let n: usize = if BITS - b < end - pos {
            BITS - b
        } else {
            end - pos
        };
        let m: u64 = mask(b, n);
        proof {
            lemma_holds_mask(words@[w as int], m);
        }
        if words[w] & m != m {
            proof {
                let j: int = choose|j: int|
                    0 <= j < 64 && bit(m, j) && !#[trigger] bit(words@[w as int], j);
                let i: int = 64 * w + j;
                assert(i / 64 == w && i % 64 == j);
                assert(!bit_at(words@, i));
                assert(rel <= i < end);
            }
            return false;
        }
        proof {
            assert forall|i: int| rel <= i < pos + n implies #[trigger] bit_at(words@, i) by {
                if i >= pos {
                    assert(i / 64 == w);
                    assert(bit(m, i % 64));
                }
            }
        }
        pos = pos + n;
    }
    true
}

/// Whether no bit of `[rel, rel + count)` is set.
pub fn all_clear<const W: usize>(words: &[u64; W], rel: usize, count: usize) -> (r: bool)
    requires
        rel + count <= 64 * W,
        64 * W <= usize::MAX,
    ensures
        r == no_bits(words@, rel as int, rel + count),
{
    let end: usize = rel + count;
    let mut pos: usize = rel;
    while pos < end
        invariant
            rel <= pos <= end,
            end == rel + count,
            end <= 64 * W,
            64 * W <= usize::MAX,
            no_bits(words@, rel as int, pos as int),
        decreases end - pos,
    {
        let w: usize = pos / BITS;
        let b: usize = pos % BITS;
        let n: usize = if BITS - b < end - pos {
            BITS - b
        } else {
            end - pos
        };
        let m: u64 = mask(b, n);
        proof {
            lemma_misses_mask(words@[w as int], m);
        }
        if words[w] & m != 0 {
            proof {
                let j: int = choose|j: int|
                    0 <= j < 64 && bit(m, j) && #[trigger] bit(words@[w as int], j);
                let i: int = 64 * w + j;
                assert(i / 64 == w && i % 64 == j);
                assert(bit_at(words@, i));
                assert(rel <= i < end);
            }
            return false;
        }
        proof {
            assert forall|i: int| rel <= i < pos + n implies !#[trigger] bit_at(words@, i) by {
                if i >= pos {
                    assert(i / 64 == w);
                    assert(bit(m, i % 64));
                }
            }
        }
        pos = pos + n;
    }
    true
}

/// Set every bit of `[rel, rel + count)`.
pub fn set_bits<const W: usize>(words: &mut [u64; W], rel: usize, count: usize)
    requires
        rel + count <= 64 * W,
        64 * W <= usize::MAX,
    ensures
        forall|i: int|
            0 <= i < 64 * W ==> (#[trigger] bit_at(final(words)@, i) <==> bit_at(old(words)@, i)
                || rel <= i < rel + count),
{
    let end: usize = rel + count;
    let mut pos: usize = rel;
    while pos < end
        invariant
            rel <= pos <= end,
            end == rel + count,
            end <= 64 * W,
            64 * W <= usize::MAX,
            forall|i: int|
                0 <= i < 64 * W ==> (#[trigger] bit_at(words@, i) <==> bit_at(old(words)@, i)
                    || rel <= i < pos),
        decreases end - pos,
    {
        let w: usize = pos / BITS;
        let b: usize = pos % BITS;
        let n: usize = if BITS - b < end - pos {
            BITS - b
        } else {
            end - pos
        };
        let m: u64 = mask(b, n);
        let ghost before = words@;
        proof {
            lemma_bit_ops(words@[w as int], m);
        }
        let v: u64 = words[w] | m;
        words[w] = v;
        proof {
            assert(words@ == before.update(w as int, v));
            assert forall|i: int| 0 <= i < 64 * W implies (#[trigger] bit_at(words@, i) <==> bit_at(
                old(words)@,
                i,
            ) || rel <= i < pos + n) by {
                assert(bit_at(before, i) <==> bit_at(old(words)@, i) || rel <= i < pos);
                if i / 64 == w {
                    assert(bit(v, i % 64) <==> bit(before[w as int], i % 64) || bit(m, i % 64));
                }
            }
        }
        pos = pos + n;
    }
}

/// Clear every bit of `[rel, rel + count)`. Returns whether all of them were set.
pub fn clear_bits<const W: usize>(words: &mut [u64; W], rel: usize, count: usize) -> (r: bool)
    requires
        rel + count <= 64 * W,
        64 * W <= usize::MAX,
    ensures
        r == all_bits(old(words)@, rel as int, rel + count),
        forall|i: int|
            0 <= i < 64 * W ==> (#[trigger] bit_at(final(words)@, i) <==> bit_at(old(words)@, i)
                && !(rel <= i < rel + count)),
{
    let end: usize = rel + count;
    let mut pos: usize = rel;
    let mut all: bool = true;
    while pos < end
        invariant
            rel <= pos <= end,
            end == rel + count,
            end <= 64 * W,
            64 * W <= usize::MAX,
            all == all_bits(old(words)@, rel as int, pos as int),
            forall|i: int|
                0 <= i < 64 * W ==> (#[trigger] bit_at(words@, i) <==> bit_at(old(words)@, i)
                    && !(rel <= i < pos)),
        decreases end - pos,
    {
        let w: usize = pos / BITS;
        let b: usize = pos % BITS;
        let n: usize = if BITS - b < end - pos {
            BITS - b
        } else {
            end - pos
        };
        let m: u64 = mask(b, n);
        let ghost before = words@;
        proof {
            lemma_bit_ops(words@[w as int], m);
            lemma_holds_mask(words@[w as int], m);
        }
        let here: bool = words[w] & m == m;
        let v: u64 = words[w] & !m;
        words[w] = v;
        proof {
            assert(words@ == before.update(w as int, v));
            assert forall|i: int| 0 <= i < 64 * W implies (#[trigger] bit_at(words@, i) <==> bit_at(
                old(words)@,
                i,
            ) && !(rel <= i < pos + n)) by {
                assert(bit_at(before, i) <==> bit_at(old(words)@, i) && !(rel <= i < pos));
                if i / 64 == w {
                    assert(bit(v, i % 64) <==> bit(before[w as int], i % 64) && !bit(m, i % 64));
                }
            }
            assert forall|i: int| pos <= i < pos + n implies bit_at(before, i) == #[trigger] bit_at(
                old(words)@,
                i,
            ) by {
                assert(bit_at(before, i) <==> bit_at(old(words)@, i) && !(rel <= i < pos));
            }
            if here {
                assert forall|i: int| pos <= i < pos + n implies #[trigger] bit_at(
                    old(words)@,
                    i,
                ) by {
                    assert(i / 64 == w && bit(m, i % 64));
                    assert(bit(before[w as int], i % 64));
                    assert(bit_at(before, i));
                }
                assert((all && here) == all_bits(old(words)@, rel as int, pos + n));
            } else {
                let j: int = choose|j: int|
                    0 <= j < 64 && bit(m, j) && !#[trigger] bit(before[w as int], j);
                let i: int = 64 * w + j;
                assert(i / 64 == w && i % 64 == j);
                assert(!bit_at(before, i));
                assert(!bit_at(old(words)@, i));
                assert(!all_bits(old(words)@, rel as int, pos + n));
            }
        }
        all = all && here;
        pos = pos + n;
    }
    all
}

/// Lowest set bit at or above `pos`.
pub fn next_set<const W: usize>(words: &[u64; W], pos: usize) -> (r: Option<usize>)
    requires
        64 * W <= usize::MAX,
    ensures
        r matches Some(i) ==> pos <= i < 64 * W && bit_at(words@, i as int) && no_bits(
            words@,
            pos as int,
            i as int,
        ),
        r is None ==> no_bits(words@, pos as int, 64 * W),
{
    let mut w: usize = pos / BITS;
    if w >= W {
        return None;
    }
    let k: usize = pos % BITS;
    let high: u64 = mask(k, BITS - k);
    let mut b: u64 = words[w] & high;
    proof {
        lemma_bit_ops(words@[w as int], high);
    }
    loop
        invariant
            pos / BITS <= w < W,
            64 * W <= usize::MAX,
            no_bits(words@, pos as int, 64 * w),
            forall|j: int|
                0 <= j < 64 ==> (#[trigger] bit(b, j) <==> bit(words@[w as int], j) && 64 * w + j
                    >= pos),
        decreases W - w,
    {
        if b != 0 {
            let t: u32 = b.trailing_zeros();
            proof {
                lemma_lowest_bit(b);
                let i: int = 64 * w + t;
                assert(i / 64 == w && i % 64 == t);
                assert forall|x: int| pos <= x < i implies !#[trigger] bit_at(words@, x) by {
                    if x >= 64 * w {
                        assert(x / 64 == w);
                        assert(!bit(b, x % 64));
                    }
                }
            }
            return Some(w * BITS + t as usize);
        }
        proof {
            lemma_word_extremes(b);
            assert forall|x: int| pos <= x < 64 * (w + 1) implies !#[trigger] bit_at(words@, x) by {
                if x >= 64 * w {
                    assert(x / 64 == w);
                    assert(!bit(b, x % 64));
                }
            }
        }
        w = w + 1;
        if w >= W {
            return None;
        }
        b = words[w];
    }
}

/// Lowest clear bit at or above `pos`, or the end of the words.
pub fn next_clear<const W: usize>(words: &[u64; W], pos: usize) -> (r: usize)
    requires
        pos < 64 * W,
        64 * W <= usize::MAX,
    ensures
        pos <= r <= 64 * W,
        all_bits(words@, pos as int, r as int),
        r < 64 * W ==> !bit_at(words@, r as int),
{
    let mut w: usize = pos / BITS;
    let k: usize = pos % BITS;
    let high: u64 = mask(k, BITS - k);
    // Bits below `pos` count as set, so they cannot end the run early.
    let mut b: u64 = words[w] | !high;
    proof {
        lemma_bit_ops(words@[w as int], !high);
        lemma_bit_ops(words@[w as int], high);
    }
    loop
        invariant
            pos / BITS <= w < W,
            64 * W <= usize::MAX,
            all_bits(words@, pos as int, 64 * w),
            forall|j: int|
                0 <= j < 64 ==> (#[trigger] bit(b, j) <==> bit(words@[w as int], j) || 64 * w + j
                    < pos),
        decreases W - w,
    {
        if b != u64::MAX {
            let c: u64 = !b;
            let t: u32 = c.trailing_zeros();
            proof {
                assert(b != u64::MAX ==> !b != 0) by (bit_vector);
                lemma_lowest_bit(c);
                lemma_bit_ops(b, b);
                let i: int = 64 * w + t;
                assert(bit(!b, t as int));
                assert(!bit(b, t as int));
                assert(i / 64 == w && i % 64 == t);
                assert forall|x: int| pos <= x < i implies #[trigger] bit_at(words@, x) by {
                    if x >= 64 * w {
                        assert(x / 64 == w);
                        assert(!bit(!b, x % 64));
                        assert(bit(b, x % 64));
                    }
                }
            }
            return w * BITS + t as usize;
        }
        proof {
            lemma_word_extremes(b);
            assert forall|x: int| pos <= x < 64 * (w + 1) implies #[trigger] bit_at(words@, x) by {
                if x >= 64 * w {
                    assert(x / 64 == w);
                    assert(bit(b, x % 64));
                }
            }
        }
        w = w + 1;
        if w >= W {
            return W * BITS;
        }
        b = words[w];
    }
}

/// Highest clear bit strictly below `pos`.
pub fn prev_clear<const W: usize>(words: &[u64; W], pos: usize) -> (r: Option<usize>)
    requires
        pos <= 64 * W,
        64 * W <= usize::MAX,
    ensures
        r matches Some(i) ==> i < pos && !bit_at(words@, i as int) && all_bits(
            words@,
            i + 1,
            pos as int,
        ),
        r is None ==> all_bits(words@, 0, pos as int),
{
    if pos == 0 {
        return None;
    }
    let mut w: usize = (pos - 1) / BITS;
    let k: usize = (pos - 1) % BITS;
    let low: u64 = mask(0, k + 1);
    let mut b: u64 = !words[w] & low;
    proof {
        lemma_bit_ops(!words@[w as int], low);
        lemma_bit_ops(low, words@[w as int]);
    }
    loop
        invariant
            w <= (pos - 1) / BITS as int,
            w < W,
            1 <= pos <= 64 * W,
            64 * W <= usize::MAX,
            all_bits(words@, 64 * (w + 1), pos as int),
            forall|j: int|
                0 <= j < 64 ==> (#[trigger] bit(b, j) <==> !bit(words@[w as int], j) && 64 * w + j
                    < pos),
        decreases w,
    {
        if b != 0 {
            let z: u32 = b.leading_zeros();
            proof {
                lemma_highest_bit(b);
                let t: int = 63 - z;
                let i: int = 64 * w + t;
                assert(i / 64 == w && i % 64 == t);
                assert(bit(b, t));
                assert forall|x: int| i + 1 <= x < pos implies #[trigger] bit_at(words@, x) by {
                    if x < 64 * (w + 1) {
                        assert(x / 64 == w);
                        assert(!bit(b, x % 64));
                    }
                }
            }
            return Some(w * BITS + (63 - z as usize));
        }
        proof {
            lemma_word_extremes(b);
            assert forall|x: int| 64 * w <= x < pos implies #[trigger] bit_at(words@, x) by {
                if x < 64 * (w + 1) {
                    assert(x / 64 == w);
                    assert(!bit(b, x % 64));
                }
            }
        }
        if w == 0 {
            return None;
        }
        w = w - 1;
        b = !words[w];
        proof {
            lemma_bit_ops(b, words@[w as int]);
        }
    }
}

/// Number of set bits.
pub fn count_ones<const W: usize>(words: &[u64; W]) -> (r: usize)
    requires
        64 * W <= usize::MAX,
    ensures
        r == count_bits(words@, 64 * W),
{
    let mut n: usize = 0;
    let mut pos: usize = 0;
    while pos < W * BITS
        invariant
            pos <= 64 * W,
            64 * W <= usize::MAX,
            n == count_bits(words@, pos as int),
            n <= pos,
        decreases 64 * W - pos,
    {
        if (words[pos / BITS] >> ((pos % BITS) as u64)) & 1 == 1 {
            n = n + 1;
        }
        pos = pos + 1;
    }
    n
}

} // verus!
