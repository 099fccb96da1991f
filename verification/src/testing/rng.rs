//! Deterministic entropy for the model tester.
//!
//! Every decision the model makes (operation kind, size, alignment, victim block) is drawn from an
//! [`Entropy`] source. A seeded [`Rng`] makes a run reproducible from its seed and its number of
//! operations; a [`ByteSource`] over a fuzzer's input makes each mutation of the input a mutation
//! of the operation sequence.
use vstd::prelude::*;

verus! {

/// `x` of the `2^32` values of a `u32`, scaled to `0..n`.
pub open spec fn scaled(x: int, n: int) -> int {
    x * n / 0x1_0000_0000
}

/// The sum of the weights.
pub open spec fn total(weights: Seq<u32>) -> int
    decreases weights.len(),
{
    if weights.len() == 0 {
        0
    } else {
        weights[0] + total(weights.drop_first())
    }
}

/// The entry that `x` falls into when the entries are laid out one after another, each as long as
/// its weight.
pub open spec fn entry_at(weights: Seq<u32>, x: int) -> int
    decreases weights.len(),
{
    if weights.len() == 0 || x < weights[0] {
        0
    } else {
        1 + entry_at(weights.drop_first(), x - weights[0])
    }
}

/// A stream of 32-bit values that may run dry.
pub trait Entropy: Sized {
    /// The value that comes next, `None` once the source is exhausted.
    spec fn upcoming(&self) -> Option<u32>;

    /// The source after that value has been drawn.
    spec fn drawn(&self) -> Self;

    /// Next value, or `None` once the source is exhausted (a generator never is).
    fn next_u32(&mut self) -> (r: Option<u32>)
        ensures
            r == old(self).upcoming(),
            *final(self) == old(self).drawn(),
    ;

    /// Uniform in `0..n` for non-zero `n`. Multiplication and a shift; the bias is far below
    /// anything a test could observe, and there is no rejection loop that could consume an
    /// unbounded amount of a fuzzer's input.
    fn below(&mut self, n: u32) -> (r: Option<u32>)
        requires
            n > 0,
        ensures
            *final(self) == old(self).drawn(),
            r is Some <==> old(self).upcoming() is Some,
            r matches Some(x) ==> x == scaled(old(self).upcoming()->0 as int, n as int) && x < n,
    {
        match self.next_u32() {
            None => None,
            Some(x) => {
                proof {
                    lemma_scaled(x, n);
                }
                let wide: u64 = x as u64 * n as u64;
                Some((wide >> 32) as u32)
            },
        }
    }

    /// Uniform in `lo..=hi`; `lo <= hi` and the range must be below `2^32` wide.
    fn range(&mut self, lo: usize, hi: usize) -> (r: Option<usize>)
        requires
            lo <= hi,
            hi - lo < u32::MAX,
        ensures
            *final(self) == old(self).drawn(),
            r is Some <==> old(self).upcoming() is Some,
            r matches Some(x) ==> x == lo + scaled(
                old(self).upcoming()->0 as int,
                hi - lo + 1,
            ) && lo <= x <= hi,
    {
        let width: usize = hi - lo + 1;
        match self.below(width as u32) {
            None => None,
            Some(x) => Some(lo + x as usize),
        }
    }

    /// Pick an index with probability proportional to `weights[i]`. The weights must not all be
    /// zero. Entries with weight zero are never chosen.
    fn weighted(&mut self, weights: &[u32]) -> (r: Option<usize>)
        requires
            0 < total(weights@) <= u32::MAX,
        ensures
            *final(self) == old(self).drawn(),
            r is Some <==> old(self).upcoming() is Some,
            r matches Some(i) ==> {
                &&& i == entry_at(
                    weights@,
                    scaled(old(self).upcoming()->0 as int, total(weights@)),
                )
                &&& i < weights@.len()
                &&& weights@[i as int] > 0
            },
    {
        let sum: u32 = sum_of(weights);
        let mut x: u32 = match self.below(sum) {
            None => {
                return None;
            },
            Some(x) => x,
        };
        let ghost first: int = x as int;
        proof {
            assert(weights@.skip(0) =~= weights@);
        }
        let mut i: usize = 0;
        while i < weights.len() && x >= weights[i]
            invariant
                i <= weights@.len(),
                x < total(weights@.skip(i as int)),
                entry_at(weights@, first) == i + entry_at(weights@.skip(i as int), x as int),
            decreases weights@.len() - i,
        {
            proof {
                let rest = weights@.skip(i as int);
                assert(rest[0] == weights@[i as int]);
                assert(rest.drop_first() =~= weights@.skip(i + 1));
            }
            x = x - weights[i];
            i = i + 1;
        }
        proof {
            let rest = weights@.skip(i as int);
            assert(rest.len() > 0);
            assert(rest[0] == weights@[i as int]);
        }
        Some(i)
    }
}

/// What [`Entropy::below`] computes.
pub proof fn lemma_scaled(x: u32, n: u32)
    requires
        n > 0,
    ensures
        x * n <= u64::MAX,
        ((x as u64 * n as u64) as u64) >> 32 == scaled(x as int, n as int),
        0 <= scaled(x as int, n as int) < n,
{
    assert(x * n <= 0xffff_ffff * 0xffff_ffff) by (nonlinear_arith)
        requires
            x <= 0xffff_ffff,
            n <= 0xffff_ffff,
    ;
    assert(0 <= x * n < 0x1_0000_0000 * n) by (nonlinear_arith)
        requires
            0 <= x < 0x1_0000_0000,
            n > 0,
    ;
    let p: u64 = (x * n) as u64;
    assert(p >> 32 == p / 0x1_0000_0000) by (bit_vector);
}

/// The sum of a few weights.
pub(crate) fn wide_sum(weights: &[u32]) -> (r: u64)
    requires
        weights@.len() <= u32::MAX,
    ensures
        r == total(weights@),
{
    let mut sum: u64 = 0;
    let mut i: usize = 0;
    proof {
        assert(weights@.skip(0) =~= weights@);
    }
    while i < weights.len()
        invariant
            i <= weights@.len() <= u32::MAX,
            sum <= i * u32::MAX,
            total(weights@) == sum + total(weights@.skip(i as int)),
        decreases weights@.len() - i,
    {
        proof {
            let rest = weights@.skip(i as int);
            assert(rest[0] == weights@[i as int]);
            assert(rest.drop_first() =~= weights@.skip(i + 1));
            assert(i * u32::MAX + u32::MAX == (i + 1) * u32::MAX) by (nonlinear_arith);
            assert((i + 1) * u32::MAX <= u32::MAX * u32::MAX) by (nonlinear_arith)
                requires
                    i + 1 <= u32::MAX,
            ;
        }
        sum = sum + weights[i] as u64;
        i = i + 1;
    }
    sum
}

/// The sum of the weights, which must fit.
fn sum_of(weights: &[u32]) -> (r: u32)
    requires
        total(weights@) <= u32::MAX,
    ensures
        r == total(weights@),
{
    let mut sum: u32 = 0;
    let mut i: usize = 0;
    proof {
        assert(weights@.skip(0) =~= weights@);
    }
    while i < weights.len()
        invariant
            i <= weights@.len(),
            total(weights@) <= u32::MAX,
            total(weights@) == sum + total(weights@.skip(i as int)),
        decreases weights@.len() - i,
    {
        proof {
            let rest = weights@.skip(i as int);
            assert(rest[0] == weights@[i as int]);
            assert(rest.drop_first() =~= weights@.skip(i + 1));
            lemma_total_nonnegative(weights@.skip(i + 1));
        }
        sum = sum + weights[i];
        i = i + 1;
    }
    sum
}

proof fn lemma_total_nonnegative(weights: Seq<u32>)
    ensures
        total(weights) >= 0,
    decreases weights.len(),
{
    if weights.len() > 0 {
        lemma_total_nonnegative(weights.drop_first());
    }
}

/// The output mixer of the generator.
pub open spec fn mixed(z: u64) -> u64 {
    let a = (z ^ (z >> 30)).wrapping_mul(0xBF58_476D_1CE4_E5B9);
    let b = (a ^ (a >> 27)).wrapping_mul(0x94D0_49BB_1331_11EB);
    b ^ (b >> 31)
}

/// The splitmix64 output mixer. A bijection on `u64` with good avalanche, so distinct inputs give
/// distinct, uncorrelated outputs; the block fill patterns are built from it as well.
pub fn mix64(z: u64) -> (r: u64)
    ensures
        r == mixed(z),
{
    let a: u64 = (z ^ (z >> 30)).wrapping_mul(0xBF58_476D_1CE4_E5B9);
    let b: u64 = (a ^ (a >> 27)).wrapping_mul(0x94D0_49BB_1331_11EB);
    b ^ (b >> 31)
}

/// splitmix64: a Weyl sequence through [`mix64`]. Full period, no bad seeds (unlike xorshift,
/// whose zero state is a fixed point), and cheap on wasm32.
#[derive(Clone, Debug)]
pub struct Rng {
    state: u64,
}

impl Rng {
    /// The state, which the next output is computed from.
    pub closed spec fn view(&self) -> u64 {
        self.state
    }

    /// The generator that starts from `seed`.
    pub closed spec fn seeded(seed: u64) -> Rng {
        Rng { state: seed }
    }

    /// Start from `seed`; every seed is valid.
    pub fn new(seed: u64) -> (r: Self)
        ensures
            r@ == seed,
            r == Rng::seeded(seed),
    {
        Rng { state: seed }
    }

    /// Next 64 random bits.
    pub fn next_u64(&mut self) -> (r: u64)
        ensures
            final(self)@ == old(self)@.wrapping_add(0x9E37_79B9_7F4A_7C15),
            r == mixed(final(self)@),
    {
        self.state = self.state.wrapping_add(0x9E37_79B9_7F4A_7C15);
        mix64(self.state)
    }
}

impl Entropy for Rng {
    closed spec fn upcoming(&self) -> Option<u32> {
        Some((mixed(self.state.wrapping_add(0x9E37_79B9_7F4A_7C15)) >> 32) as u32)
    }

    closed spec fn drawn(&self) -> Self {
        Rng { state: self.state.wrapping_add(0x9E37_79B9_7F4A_7C15) }
    }

    fn next_u32(&mut self) -> Option<u32> {
        Some((self.next_u64() >> 32) as u32)
    }
}

/// A generator never runs dry, and its next value is the upper half of its next 64 bits.
pub proof fn lemma_rng_draws(r: &Rng)
    ensures
        r.upcoming() == Some(
            (mixed(r@.wrapping_add(0x9E37_79B9_7F4A_7C15)) >> 32) as u32,
        ),
        r.drawn()@ == r@.wrapping_add(0x9E37_79B9_7F4A_7C15),
{
}

/// Little-endian `u32`s read off a byte slice; runs dry when fewer than four bytes remain.
#[derive(Clone, Debug)]
pub struct ByteSource<'a> {
    data: &'a [u8],
    at: usize,
}

/// Four bytes as a little-endian number.
pub open spec fn little_endian(a: u8, b: u8, c: u8, d: u8) -> u32 {
    (a + 0x100 * b + 0x1_0000 * c + 0x100_0000 * d) as u32
}

impl<'a> ByteSource<'a> {
    /// The bytes not yet consumed.
    pub closed spec fn view(&self) -> Seq<u8> {
        self.data@.skip(self.at as int)
    }

    /// The source has not read beyond its bytes.
    pub closed spec fn wf(&self) -> bool {
        self.at <= self.data@.len()
    }

    /// Read from `data`.
    pub fn new(data: &'a [u8]) -> (r: Self)
        ensures
            r.wf(),
            r@ == data@,
    {
        let r = ByteSource { data, at: 0 };
        proof {
            assert(data@.skip(0) =~= data@);
        }
        r
    }

    /// Bytes not yet consumed.
    pub fn remaining(&self) -> (r: usize)
        requires
            self.wf(),
        ensures
            r == self@.len(),
    {
        self.data.len() - self.at
    }
}

impl<'a> Entropy for ByteSource<'a> {
    closed spec fn upcoming(&self) -> Option<u32> {
        let d = self.data@;
        let i = self.at as int;
        if i + 4 <= d.len() {
            Some(little_endian(d[i], d[i + 1], d[i + 2], d[i + 3]))
        } else {
            None
        }
    }

    closed spec fn drawn(&self) -> Self {
        if self.at + 4 <= self.data@.len() {
            ByteSource { data: self.data, at: (self.at + 4) as usize }
        } else {
            *self
        }
    }

    fn next_u32(&mut self) -> Option<u32> {
        let n: usize = self.data.len();
        let i: usize = self.at;
        if i > n || n - i < 4 {
            return None;
        }
        let a: u32 = self.data[i] as u32;
        let b: u32 = self.data[i + 1] as u32;
        let c: u32 = self.data[i + 2] as u32;
        let d: u32 = self.data[i + 3] as u32;
        self.at = i + 4;
        Some(a + 0x100 * b + 0x1_0000 * c + 0x100_0000 * d)
    }
}

/// A byte source gives its bytes four at a time, and is dry when fewer than four are left.
pub proof fn law_bytes_are_read_four_at_a_time(s: &ByteSource)
    requires
        s.wf(),
    ensures
        s.drawn().wf(),
        s@.len() >= 4 ==> s.upcoming() == Some(little_endian(s@[0], s@[1], s@[2], s@[3]))
            && s.drawn()@ == s@.skip(4),
        s@.len() < 4 ==> s.upcoming() is None && s.drawn() == *s,
{
    if s@.len() >= 4 {
        assert(s.data@.len() == s.data.len());
        assert(s.drawn()@ =~= s@.skip(4));
    }
}

/// Multiplying by an odd number, modulo `2^64`, can be undone.
pub proof fn lemma_odd_factor(x: u64, y: u64, c: u64, inverse: u64)
    requires
        (c * inverse) % 0x1_0000_0000_0000_0000 == 1,
        x.wrapping_mul(c) == y.wrapping_mul(c),
    ensures
        x == y,
{
    let m: int = 0x1_0000_0000_0000_0000;
    lemma_undone(x as int, c as int, inverse as int, m);
    lemma_undone(y as int, c as int, inverse as int, m);
}

proof fn lemma_undone(x: int, c: int, inverse: int, m: int)
    requires
        m > 0,
        0 <= x < m,
        (c * inverse) % m == 1,
    ensures
        (((x * c) % m) * inverse) % m == x,
{
    vstd::arithmetic::div_mod::lemma_mul_mod_noop_left(x * c, inverse, m);
    assert((x * c) * inverse == x * (c * inverse)) by (nonlinear_arith);
    vstd::arithmetic::div_mod::lemma_mul_mod_noop_right(x, c * inverse, m);
    vstd::arithmetic::div_mod::lemma_small_mod(x as nat, m as nat);
}

/// Distinct inputs of the mixer give distinct outputs.
pub proof fn law_mix64_is_injective(y: u64, z: u64)
    requires
        mixed(y) == mixed(z),
    ensures
        y == z,
{
    let a = (y ^ (y >> 30)).wrapping_mul(0xBF58_476D_1CE4_E5B9);
    let b = (a ^ (a >> 27)).wrapping_mul(0x94D0_49BB_1331_11EB);
    let c = (z ^ (z >> 30)).wrapping_mul(0xBF58_476D_1CE4_E5B9);
    let d = (c ^ (c >> 27)).wrapping_mul(0x94D0_49BB_1331_11EB);
    assert(b ^ (b >> 31) == d ^ (d >> 31) ==> b == d) by (bit_vector);
    lemma_odd_factor(a ^ (a >> 27), c ^ (c >> 27), 0x94D0_49BB_1331_11EB, 0x3196_42B2_D24D_8EC3);
    assert(a ^ (a >> 27) == c ^ (c >> 27) ==> a == c) by (bit_vector);
    lemma_odd_factor(y ^ (y >> 30), z ^ (z >> 30), 0xBF58_476D_1CE4_E5B9, 0x96DE_1B17_3F11_9089);
    assert(y ^ (y >> 30) == z ^ (z >> 30) ==> y == z) by (bit_vector);
}

/// Different seeds give generators whose next outputs differ.
pub proof fn law_different_seeds_give_different_values(a: u64, b: u64)
    requires
        a != b,
    ensures
        mixed(a.wrapping_add(0x9E37_79B9_7F4A_7C15)) != mixed(
            b.wrapping_add(0x9E37_79B9_7F4A_7C15),
        ),
{
    if mixed(a.wrapping_add(0x9E37_79B9_7F4A_7C15)) == mixed(
        b.wrapping_add(0x9E37_79B9_7F4A_7C15),
    ) {
        law_mix64_is_injective(
            a.wrapping_add(0x9E37_79B9_7F4A_7C15),
            b.wrapping_add(0x9E37_79B9_7F4A_7C15),
        );
    }
}

} // verus!
