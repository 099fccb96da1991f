//! The shape of an operation stream, and how operations are chosen.
use vstd::arithmetic::power2::pow2;
use vstd::prelude::*;

use super::rng::{entry_at, scaled, total, wide_sum, Entropy};
use crate::arith::{max, min};
use crate::layout::{valid_layout, Layout};

verus! {

/// Which live block a free takes, and the order a sweep frees everything in.
#[derive(Clone, Copy, Debug, PartialEq, Eq, Structural)]
pub enum Order {
    /// A uniformly random live block.
    Random,
    /// The most recently allocated block (stack-like).
    Lifo,
    /// The oldest live block (queue-like).
    Fifo,
}

/// The shape of an operation stream. Weights are relative; a zero weight disables the entry.
#[derive(Clone, Copy, Debug, PartialEq, Eq)]
pub struct Profile {
    /// Name used in failure reports.
    pub name: &'static str,
    /// Weights of `alloc`, `alloc_zeroed`, `dealloc` and `realloc`. With a batch size the
    /// `dealloc` weight is ignored: frees come from the free phase of each batch.
    pub ops: [u32; 4],
    /// Weights of the size classes: 1 to 10000 bytes with every doubling equally likely, 10 KiB
    /// to 100 KiB, 100 KiB to 4 MiB, and 4 MiB to 64 MiB, each uniform.
    pub sizes: [u32; 4],
    /// Weights of the alignment classes: 1 to 8 (uniform over the four powers of two), 16, 32,
    /// 64, 4096, 8192 to 65536 (uniform over the four powers of two), and the fixed request of one
    /// byte aligned to 65536.
    pub aligns: [u32; 7],
    /// Free every live block (verifying each) every this many operations; 0 never sweeps.
    pub sweep_every: usize,
    /// Live bytes never exceed this: an allocation that would is turned into a free (or clamped
    /// when nothing is live), so an allocator with this much backing memory, plus its own
    /// overhead, never has a reason to fail.
    pub max_live_bytes: usize,
    /// How a free picks its victim.
    pub order: Order,
    /// Non-zero for batch mode: allocate a random number of blocks up to this, then free every
    /// live block in `order`, and repeat.
    pub batch: usize,
}

/// A kibibyte.
pub const KIB: usize = 1024;

/// A mebibyte.
pub const MIB: usize = 1_048_576;

/// Upper bound of the small size class.
pub const SMALL_MAX: usize = 10_000;

/// The largest alignment asked for.
pub const MAX_ALIGN: usize = 65536;

impl Profile {
    /// The profile can be run: there is something to allocate, every choice has a weight, the
    /// weights add up to no more than a `u32`, and the live bytes are bounded so that every
    /// request is a layout and every range of sizes has less than `2^32` members.
    pub open spec fn usable(&self) -> bool {
        &&& self.ops[0] + self.ops[1] > 0
        &&& total(self.ops@) <= u32::MAX
        &&& 0 < total(self.sizes@) <= u32::MAX
        &&& 0 < total(self.aligns@) <= u32::MAX
        &&& self.max_live_bytes > 0
        &&& 2 * self.max_live_bytes - self.max_live_bytes / 2 < u32::MAX
        &&& valid_layout(self.max_live_bytes as int, MAX_ALIGN as int)
        &&& self.batch < u32::MAX
    }

    /// The first thing that is wrong with a profile that cannot be run.
    pub open spec fn complaint(&self) -> Seq<char> {
        if self.ops[0] + self.ops[1] == 0 {
            "no allocation weight"@
        } else if total(self.sizes@) == 0 {
            "no size weight"@
        } else if total(self.aligns@) == 0 {
            "no alignment weight"@
        } else if self.max_live_bytes == 0 {
            "zero live-byte cap"@
        } else if total(self.ops@) > u32::MAX || total(self.sizes@) > u32::MAX || total(
            self.aligns@,
        ) > u32::MAX {
            "weights too large"@
        } else if 2 * self.max_live_bytes - self.max_live_bytes / 2 >= u32::MAX || !valid_layout(
            self.max_live_bytes as int,
            MAX_ALIGN as int,
        ) {
            "live-byte cap too large"@
        } else {
            "batch too large"@
        }
    }

    /// The fields of [`Profile::small_churn`].
    pub open spec fn is_small_churn(self) -> bool {
        &&& self.name@ == "small_churn"@
        &&& self.ops@ == seq![45u32, 10u32, 35u32, 10u32]
        &&& self.sizes@ == seq![1u32, 0u32, 0u32, 0u32]
        &&& self.aligns@ == seq![85u32, 6u32, 5u32, 4u32, 0u32, 0u32, 0u32]
        &&& self.max_live_bytes == 64 * MIB
        &&& self.batch == 0
        &&& self.order == Order::Random
        &&& self.sweep_every == 0
    }

    /// The fields of [`Profile::mixed`].
    pub open spec fn is_mixed(self) -> bool {
        &&& self.name@ == "mixed"@
        &&& self.ops@ == seq![35u32, 10u32, 35u32, 20u32]
        &&& self.sizes@ == seq![920u32, 50u32, 25u32, 5u32]
        &&& self.aligns@ == seq![75u32, 8u32, 6u32, 5u32, 3u32, 2u32, 1u32]
        &&& self.max_live_bytes == 256 * MIB
        &&& self.batch == 0
        &&& self.order == Order::Random
        &&& self.sweep_every == 5000
    }

    /// The fields of [`Profile::large_heavy`].
    pub open spec fn is_large_heavy(self) -> bool {
        &&& self.name@ == "large_heavy"@
        &&& self.ops@ == seq![40u32, 10u32, 40u32, 10u32]
        &&& self.sizes@ == seq![300u32, 300u32, 380u32, 20u32]
        &&& self.aligns@ == seq![80u32, 5u32, 5u32, 5u32, 3u32, 1u32, 1u32]
        &&& self.max_live_bytes == 256 * MIB
        &&& self.batch == 0
        &&& self.order == Order::Random
        &&& self.sweep_every == 500
    }

    /// The fields of [`Profile::align_heavy`].
    pub open spec fn is_align_heavy(self) -> bool {
        &&& self.name@ == "align_heavy"@
        &&& self.ops@ == seq![40u32, 10u32, 40u32, 10u32]
        &&& self.sizes@ == seq![900u32, 80u32, 20u32, 0u32]
        &&& self.aligns@ == seq![20u32, 15u32, 15u32, 15u32, 15u32, 10u32, 10u32]
        &&& self.max_live_bytes == 128 * MIB
        &&& self.batch == 0
        &&& self.order == Order::Random
        &&& self.sweep_every == 2000
    }

    /// The fields of [`Profile::lifo_batches`].
    pub open spec fn is_lifo_batches(self) -> bool {
        &&& self.name@ == "lifo_batches"@
        &&& self.ops@ == seq![45u32, 5u32, 40u32, 10u32]
        &&& self.sizes@ == seq![950u32, 50u32, 0u32, 0u32]
        &&& self.aligns@ == seq![75u32, 8u32, 6u32, 5u32, 3u32, 2u32, 1u32]
        &&& self.max_live_bytes == 64 * MIB
        &&& self.batch == 256
        &&& self.order == Order::Lifo
        &&& self.sweep_every == 0
    }

    /// The fields of [`Profile::fifo_batches`].
    pub open spec fn is_fifo_batches(self) -> bool {
        &&& self.name@ == "fifo_batches"@
        &&& self.ops@ == seq![45u32, 5u32, 40u32, 10u32]
        &&& self.sizes@ == seq![950u32, 50u32, 0u32, 0u32]
        &&& self.aligns@ == seq![75u32, 8u32, 6u32, 5u32, 3u32, 2u32, 1u32]
        &&& self.max_live_bytes == 64 * MIB
        &&& self.batch == 256
        &&& self.order == Order::Fifo
        &&& self.sweep_every == 0
    }

    /// Whether the profile can be run, and what is wrong with it otherwise.
    pub fn validate(&self) -> (r: Result<(), &'static str>)
        ensures
            r is Ok <==> self.usable(),
            r matches Err(m) ==> m@ == self.complaint(),
    {
        proof {
            lemma_totals(self.ops@);
            lemma_totals(self.sizes@);
            lemma_totals(self.aligns@);
        }
        if self.ops[0] == 0 && self.ops[1] == 0 {
            return Err("no allocation weight");
        }
        let sizes: u64 = wide_sum(&self.sizes);
        if sizes == 0 {
            return Err("no size weight");
        }
        let aligns: u64 = wide_sum(&self.aligns);
        if aligns == 0 {
            return Err("no alignment weight");
        }
        if self.max_live_bytes == 0 {
            return Err("zero live-byte cap");
        }
        let most: u64 = u32::MAX as u64;
        if wide_sum(&self.ops) > most || sizes > most || aligns > most {
            return Err("weights too large");
        }
        let live: usize = self.max_live_bytes;
        if live as u64 > most || 2 * live as u64 - live as u64 / 2 >= most
            || Layout::from_size_align(live, MAX_ALIGN).is_err() {
            return Err("live-byte cap too large");
        }
        if self.batch as u64 >= most {
            return Err("batch too large");
        }
        Ok(())
    }

    /// Small blocks only, random frees, no sweeps: the fast paths under steady churn.
    pub fn small_churn() -> (r: Profile)
        ensures
            r.usable(),
            r.is_small_churn(),
    {
        let r = Profile {
            name: "small_churn",
            ops: [45, 10, 35, 10],
            sizes: [1, 0, 0, 0],
            aligns: [85, 6, 5, 4, 0, 0, 0],
            sweep_every: 0,
            max_live_bytes: 64 * MIB,
            order: Order::Random,
            batch: 0,
        };
        proof {
            lemma_usable(&r);
        }
        r
    }

    /// Every size and alignment class in realistic proportions, with plenty of realloc.
    pub fn mixed() -> (r: Profile)
        ensures
            r.usable(),
            r.is_mixed(),
    {
        let r = Profile {
            name: "mixed",
            ops: [35, 10, 35, 20],
            sizes: [920, 50, 25, 5],
            aligns: [75, 8, 6, 5, 3, 2, 1],
            sweep_every: 5000,
            max_live_bytes: 256 * MIB,
            order: Order::Random,
            batch: 0,
        };
        proof {
            lemma_usable(&r);
        }
        r
    }

    /// Mostly medium, large and huge blocks: page kinds, runs and memory growth.
    pub fn large_heavy() -> (r: Profile)
        ensures
            r.usable(),
            r.is_large_heavy(),
    {
        let r = Profile {
            name: "large_heavy",
            ops: [40, 10, 40, 10],
            sizes: [300, 300, 380, 20],
            aligns: [80, 5, 5, 5, 3, 1, 1],
            sweep_every: 500,
            max_live_bytes: 256 * MIB,
            order: Order::Random,
            batch: 0,
        };
        proof {
            lemma_usable(&r);
        }
        r
    }

    /// Every alignment class about equally often, including the over-aligned requests.
    pub fn align_heavy() -> (r: Profile)
        ensures
            r.usable(),
            r.is_align_heavy(),
    {
        let r = Profile {
            name: "align_heavy",
            ops: [40, 10, 40, 10],
            sizes: [900, 80, 20, 0],
            aligns: [20, 15, 15, 15, 15, 10, 10],
            sweep_every: 2000,
            max_live_bytes: 128 * MIB,
            order: Order::Random,
            batch: 0,
        };
        proof {
            lemma_usable(&r);
        }
        r
    }

    /// Allocate a batch, free it newest-first, repeat: stack-shaped lifetimes.
    pub fn lifo_batches() -> (r: Profile)
        ensures
            r.usable(),
            r.is_lifo_batches(),
    {
        let r = Profile {
            name: "lifo_batches",
            ops: [45, 5, 40, 10],
            sizes: [950, 50, 0, 0],
            aligns: [75, 8, 6, 5, 3, 2, 1],
            sweep_every: 0,
            max_live_bytes: 64 * MIB,
            order: Order::Lifo,
            batch: 256,
        };
        proof {
            lemma_usable(&r);
        }
        r
    }

    /// Allocate a batch, free it oldest-first, repeat: queue-shaped lifetimes.
    pub fn fifo_batches() -> (r: Profile)
        ensures
            r.usable(),
            r.is_fifo_batches(),
    {
        let r = Profile {
            name: "fifo_batches",
            ops: [45, 5, 40, 10],
            sizes: [950, 50, 0, 0],
            aligns: [75, 8, 6, 5, 3, 2, 1],
            sweep_every: 0,
            max_live_bytes: 64 * MIB,
            order: Order::Fifo,
            batch: 256,
        };
        proof {
            lemma_usable(&r);
        }
        r
    }

    /// Every preset.
    pub fn all() -> (r: [Profile; 6])
        ensures
            forall|i: int| 0 <= i < 6 ==> (#[trigger] r[i]).usable(),
            r[0].is_small_churn(),
            r[1].is_mixed(),
            r[2].is_large_heavy(),
            r[3].is_align_heavy(),
            r[4].is_lifo_batches(),
            r[5].is_fifo_batches(),
    {
        [
            Profile::small_churn(),
            Profile::mixed(),
            Profile::large_heavy(),
            Profile::align_heavy(),
            Profile::lifo_batches(),
            Profile::fifo_batches(),
        ]
    }
}

/// The sums of four and of seven weights.
proof fn lemma_totals(a: Seq<u32>)
    ensures
        a.len() == 4 ==> total(a) == a[0] + a[1] + a[2] + a[3],
        a.len() == 7 ==> total(a) == a[0] + a[1] + a[2] + a[3] + a[4] + a[5] + a[6],
{
    reveal_with_fuel(total, 8);
}

proof fn lemma_usable(p: &Profile)
    requires
        p.ops[0] + p.ops[1] > 0,
        p.sizes[0] > 0,
        p.aligns[0] > 0,
        forall|i: int| 0 <= i < 4 ==> #[trigger] p.ops[i] <= 1000,
        forall|i: int| 0 <= i < 4 ==> #[trigger] p.sizes[i] <= 1000,
        forall|i: int| 0 <= i < 7 ==> #[trigger] p.aligns[i] <= 1000,
        0 < p.max_live_bytes <= 0x1000_0000,
        p.batch <= 256,
    ensures
        p.usable(),
{
    lemma_totals(p.ops@);
    lemma_totals(p.sizes@);
    lemma_totals(p.aligns@);
    assert(vstd::arithmetic::power2::is_pow2(65536)) by {
        reveal_with_fuel(vstd::arithmetic::power2::is_pow2, 17);
    }
}

/// A block the tester holds.
#[derive(Clone, Copy, Debug, PartialEq, Eq, Structural)]
pub struct Block {
    pub addr: usize,
    pub layout: Layout,
    /// What the bytes of the block are computed from.
    pub seed: u64,
}

/// An operation of the stream.
#[derive(Clone, Copy, Debug, PartialEq, Eq, Structural)]
pub enum Op {
    Alloc { layout: Layout, zeroed: bool },
    Dealloc,
    Realloc { index: usize, new_size: usize },
}

/// The entry drawn with the given weights.
pub open spec fn weighed<E: Entropy>(e: E, weights: Seq<u32>) -> Option<int> {
    match e.upcoming() {
        Some(x) => Some(entry_at(weights, scaled(x as int, total(weights)))),
        None => None,
    }
}

/// The number drawn from `lo..=hi`.
pub open spec fn drawn_from<E: Entropy>(e: E, lo: int, hi: int) -> Option<int> {
    match e.upcoming() {
        Some(x) => Some(lo + scaled(x as int, hi - lo + 1)),
        None => None,
    }
}

/// The size drawn: a size class, then a size of that class; in the small class a doubling first,
/// so that bins of every size get exercised instead of the largest sizes dominating.
pub open spec fn size_choice<E: Entropy>(e: E, p: Profile) -> (Option<int>, E) {
    let f = e.drawn();
    match weighed(e, p.sizes@) {
        None => (None, f),
        Some(class) => if class == 0 {
            match drawn_from(f, 0, 13) {
                None => (None, f.drawn()),
                Some(k) => (
                    drawn_from(
                        f.drawn(),
                        pow2(k as nat) as int,
                        min(pow2((k + 1) as nat) - 1, SMALL_MAX as int),
                    ),
                    f.drawn().drawn(),
                ),
            }
        } else if class == 1 {
            (drawn_from(f, 10 * KIB, 100 * KIB), f.drawn())
        } else if class == 2 {
            (drawn_from(f, 100 * KIB, 4 * MIB), f.drawn())
        } else {
            (drawn_from(f, 4 * MIB, 64 * MIB), f.drawn())
        },
    }
}

/// The alignment of a class.
pub open spec fn align_choice<E: Entropy>(e: E, class: int) -> (Option<int>, E) {
    if class == 0 {
        match drawn_from(e, 0, 3) {
            None => (None, e.drawn()),
            Some(k) => (Some(pow2(k as nat) as int), e.drawn()),
        }
    } else if class == 1 {
        (Some(16), e)
    } else if class == 2 {
        (Some(32), e)
    } else if class == 3 {
        (Some(64), e)
    } else if class == 4 {
        (Some(4096), e)
    } else {
        match drawn_from(e, 13, 16) {
            None => (None, e.drawn()),
            Some(k) => (Some(pow2(k as nat) as int), e.drawn()),
        }
    }
}

/// The layout drawn: an alignment class, then a size, then an alignment of that class.
pub open spec fn layout_choice<E: Entropy>(e: E, p: Profile) -> (Option<Layout>, E) {
    match weighed(e, p.aligns@) {
        None => (None, e.drawn()),
        Some(class) => if class == 6 {
            (Some(Layout::of(1, 65536)), e.drawn())
        } else {
            let (size, f) = size_choice(e.drawn(), p);
            match size {
                None => (None, f),
                Some(n) => {
                    let (align, g) = align_choice(f, class);
                    match align {
                        None => (None, g),
                        Some(a) => (Some(Layout::of(n as usize, a as usize)), g),
                    }
                },
            }
        },
    }
}

/// `2^k`.
fn two_to(k: usize) -> (r: usize)
    requires
        k <= 16,
    ensures
        r == pow2(k as nat),
        1 <= r <= 65536,
        vstd::arithmetic::power2::is_pow2(r as int),
{
    let mut r: usize = 1;
    let mut i: usize = 0;
    proof {
        vstd::arithmetic::power2::lemma2_to64();
        assert(vstd::arithmetic::power2::is_pow2(1)) by {
            reveal(vstd::arithmetic::power2::is_pow2);
        }
    }
    while i < k
        invariant
            i <= k <= 16,
            r == pow2(i as nat),
            pow2(16) == 65536,
            1 <= r,
            vstd::arithmetic::power2::is_pow2(r as int),
        decreases k - i,
    {
        proof {
            vstd::arithmetic::power2::lemma_pow2_unfold((i + 1) as nat);
            lemma_pow2_grows((i + 1) as nat, 16);
            assert(vstd::arithmetic::power2::is_pow2(2 * r)) by {
                reveal_with_fuel(vstd::arithmetic::power2::is_pow2, 2);
            }
        }
        r = 2 * r;
        i = i + 1;
    }
    proof {
        lemma_pow2_grows(k as nat, 16);
    }
    r
}

proof fn lemma_pow2_grows(i: nat, j: nat)
    requires
        i <= j,
    ensures
        pow2(i) <= pow2(j),
{
    if i < j {
        vstd::arithmetic::power2::lemma_pow2_strictly_increases(i, j);
    }
}

/// Draw a size.
pub fn pick_size<E: Entropy>(p: &Profile, e: &mut E) -> (r: Option<usize>)
    requires
        p.usable(),
    ensures
        r is Some <==> size_choice(*old(e), *p).0 is Some,
        r matches Some(n) ==> Some(n as int) == size_choice(*old(e), *p).0,
        *final(e) == size_choice(*old(e), *p).1,
        r matches Some(n) ==> 1 <= n <= 64 * MIB,
{
    let class: usize = match e.weighted(&p.sizes) {
        None => {
            return None;
        },
        Some(c) => c,
    };
    match class {
        0 => {
            let k: usize = match e.below(14) {
                None => {
                    return None;
                },
                Some(k) => k as usize,
            };
            let lo: usize = two_to(k);
            let twice: usize = two_to(k + 1);
            proof {
                vstd::arithmetic::power2::lemma2_to64();
                lemma_pow2_grows(k as nat, 13);
                vstd::arithmetic::power2::lemma_pow2_unfold((k + 1) as nat);
            }
            let hi: usize = if twice - 1 < SMALL_MAX {
                twice - 1
            } else {
                SMALL_MAX
            };
            e.range(lo, hi)
        },
        1 => e.range(10 * KIB, 100 * KIB),
        2 => e.range(100 * KIB, 4 * MIB),
        _ => e.range(4 * MIB, 64 * MIB),
    }
}

/// Draw an alignment of a class.
fn pick_align<E: Entropy>(e: &mut E, class: usize) -> (r: Option<usize>)
    ensures
        r is Some <==> align_choice(*old(e), class as int).0 is Some,
        r matches Some(n) ==> Some(n as int) == align_choice(*old(e), class as int).0,
        *final(e) == align_choice(*old(e), class as int).1,
        r matches Some(n) ==> 1 <= n <= 65536 && vstd::arithmetic::power2::is_pow2(n as int),
{
    proof {
        reveal_with_fuel(vstd::arithmetic::power2::is_pow2, 14);
        assert(vstd::arithmetic::power2::is_pow2(16));
        assert(vstd::arithmetic::power2::is_pow2(32));
        assert(vstd::arithmetic::power2::is_pow2(64));
        assert(vstd::arithmetic::power2::is_pow2(4096));
    }
    match class {
        0 => match e.below(4) {
            None => None,
            Some(k) => Some(two_to(k as usize)),
        },
        1 => Some(16),
        2 => Some(32),
        3 => Some(64),
        4 => Some(4096),
        _ => match e.range(13, 16) {
            None => None,
            Some(k) => Some(two_to(k)),
        },
    }
}

/// Draw a layout.
pub fn pick_layout<E: Entropy>(p: &Profile, e: &mut E) -> (r: Option<Layout>)
    requires
        p.usable(),
    ensures
        r == layout_choice(*old(e), *p).0,
        *final(e) == layout_choice(*old(e), *p).1,
        r matches Some(l) ==> l.wf() && 1 <= l.size() <= 64 * MIB && l.align() <= MAX_ALIGN,
{
    let class: usize = match e.weighted(&p.aligns) {
        None => {
            return None;
        },
        Some(c) => c,
    };
    let ghost f = *e;
    if class == 6 {
        proof {
            assert(vstd::arithmetic::power2::is_pow2(65536)) by {
                reveal_with_fuel(vstd::arithmetic::power2::is_pow2, 17);
            }
        }
        return match Layout::from_size_align(1, 65536) {
            Ok(l) => Some(l),
            Err(_) => None,
        };
    }
    let size: usize = match pick_size(p, e) {
        None => {
            return None;
        },
        Some(n) => n,
    };
    let align: usize = match pick_align(e, class) {
        None => {
            return None;
        },
        Some(a) => a,
    };
    match Layout::from_size_align(size, align) {
        Ok(l) => Some(l),
        Err(_) => None,
    }
}

/// The operation class drawn, and the allocations left in the batch: in batch mode allocations
/// until the batch is full, then frees until nothing is live.
pub open spec fn class_choice<E: Entropy>(e: E, p: Profile, batch_left: int, free_left: int) -> (
    Option<int>,
    E,
    int,
) {
    if p.batch > 0 {
        let (left, f) = if batch_left == 0 && free_left == 0 {
            (drawn_from(e, 1, p.batch as int), e.drawn())
        } else {
            (Some(batch_left), e)
        };
        match left {
            None => (None, f, batch_left),
            Some(n) => if n > 0 {
                (weighed(f, seq![p.ops[0], p.ops[1], 0, p.ops[3]]), f.drawn(), n)
            } else {
                (Some(2), f, n)
            },
        }
    } else {
        (weighed(e, p.ops@), e.drawn(), batch_left)
    }
}

/// The new size drawn for a block of `old` bytes: half the time one near the old one, to hit
/// in-place growth and shrinking; otherwise a fresh draw, to hop between size classes.
pub open spec fn resize_choice<E: Entropy>(e: E, p: Profile, old: int) -> (Option<int>, E) {
    let f = e.drawn();
    match drawn_from(e, 0, 1) {
        None => (None, f),
        Some(coin) => if coin == 0 {
            (drawn_from(f, max(old / 2, 1), 2 * old), f.drawn())
        } else {
            size_choice(f, p)
        },
    }
}

/// The allocation drawn. One that would exceed the live bytes allowed is turned into a free, or
/// clamped when nothing is live.
pub open spec fn alloc_choice<E: Entropy>(
    e: E,
    p: Profile,
    any_live: bool,
    live_bytes: int,
    zeroed: bool,
) -> (Option<Op>, E) {
    let (layout, f) = layout_choice(e, p);
    let room = p.max_live_bytes - live_bytes;
    match layout {
        None => (None, f),
        Some(l) => if l.size() <= room {
            (Some(Op::Alloc { layout: l, zeroed }), f)
        } else if any_live {
            (Some(Op::Dealloc), f)
        } else {
            (Some(Op::Alloc { layout: Layout::of(max(room, 1) as usize, l.align()), zeroed }), f)
        },
    }
}

/// The resize drawn, of one of the live blocks, clamped to the live bytes allowed.
pub open spec fn realloc_choice<E: Entropy>(
    e: E,
    p: Profile,
    live: Seq<Block>,
    live_bytes: int,
) -> (Option<Op>, E) {
    match drawn_from(e, 0, live.len() - 1) {
        None => (None, e.drawn()),
        Some(i) => {
            let old = live[i].layout.size() as int;
            let (size, f) = resize_choice(e.drawn(), p, old);
            match size {
                None => (None, f),
                Some(n) => (
                    Some(
                        Op::Realloc {
                            index: i as usize,
                            new_size: min(n, p.max_live_bytes - live_bytes + old) as usize,
                        },
                    ),
                    f,
                ),
            }
        },
    }
}

/// The operation drawn, and the allocations left in the batch. With nothing to free or resize
/// there is an allocation instead.
pub open spec fn op_choice<E: Entropy>(
    e: E,
    p: Profile,
    live: Seq<Block>,
    live_bytes: int,
    batch_left: int,
    free_left: int,
) -> (Option<Op>, E, int) {
    let (drawn, f, left) = class_choice(e, p, batch_left, free_left);
    match drawn {
        None => (None, f, left),
        Some(class) => if class < 2 || live.len() == 0 {
            let (op, g) = alloc_choice(f, p, live.len() > 0, live_bytes, class == 1);
            (op, g, left)
        } else if class == 2 {
            (Some(Op::Dealloc), f, left)
        } else {
            let (op, g) = realloc_choice(f, p, live, live_bytes);
            (op, g, left)
        },
    }
}

/// What an operation drawn for these blocks may be.
pub open spec fn op_ok(p: Profile, live: Seq<Block>, live_bytes: int, op: Option<Op>) -> bool {
    match op {
        None => true,
        Some(Op::Alloc { layout, .. }) => {
            &&& layout.wf()
            &&& 1 <= layout.size() <= p.max_live_bytes - live_bytes
            &&& layout.align() <= MAX_ALIGN
        },
        Some(Op::Dealloc) => live.len() > 0,
        Some(Op::Realloc { index, new_size }) => {
            &&& index < live.len()
            &&& 1 <= new_size <= p.max_live_bytes - live_bytes + live[index as int].layout.size()
        },
    }
}

/// Draw an operation class.
fn pick_class<E: Entropy>(p: &Profile, e: &mut E, batch_left: &mut usize, free_left: usize) -> (r:
    Option<usize>)
    requires
        p.usable(),
    ensures
        ({
            let (class, f, left) = class_choice(
                *old(e),
                *p,
                *old(batch_left) as int,
                free_left as int,
            );
            &&& r is Some <==> class is Some
            &&& r matches Some(c) ==> Some(c as int) == class && c < 4
            &&& *final(e) == f
            &&& *final(batch_left) == left
        }),
{
    proof {
        lemma_totals(p.ops@);
        lemma_totals(seq![p.ops[0], p.ops[1], 0, p.ops[3]]);
    }
    if p.batch > 0 {
        if *batch_left == 0 && free_left == 0 {
            match e.range(1, p.batch) {
                None => {
                    return None;
                },
                Some(n) => {
                    *batch_left = n;
                },
            }
        }
        if *batch_left > 0 {
            let w: [u32; 4] = [p.ops[0], p.ops[1], 0, p.ops[3]];
            proof {
                assert(w@ =~= seq![p.ops[0], p.ops[1], 0, p.ops[3]]);
            }
            return e.weighted(&w);
        }
        return Some(2);
    }
    e.weighted(&p.ops)
}

/// Draw a new size for a block of `old` bytes.
fn pick_resize<E: Entropy>(p: &Profile, e: &mut E, old_size: usize) -> (r: Option<usize>)
    requires
        p.usable(),
        1 <= old_size <= p.max_live_bytes,
    ensures
        r is Some <==> resize_choice(*old(e), *p, old_size as int).0 is Some,
        r matches Some(n) ==> Some(n as int) == resize_choice(*old(e), *p, old_size as int).0 && n
            >= 1,
        *final(e) == resize_choice(*old(e), *p, old_size as int).1,
{
    match e.below(2) {
        None => None,
        Some(coin) => {
            if coin == 0 {
                let half: usize = old_size / 2;
                let lo: usize = if half > 1 {
                    half
                } else {
                    1
                };
                e.range(lo, 2 * old_size)
            } else {
                pick_size(p, e)
            }
        },
    }
}

/// Draw an allocation.
fn pick_alloc<E: Entropy>(
    p: &Profile,
    e: &mut E,
    live: &Vec<Block>,
    live_bytes: usize,
    zeroed: bool,
) -> (r: Option<Op>)
    requires
        p.usable(),
        live_bytes <= p.max_live_bytes,
        live@.len() == 0 ==> live_bytes == 0,
    ensures
        (r, *final(e)) == alloc_choice(
            *old(e),
            *p,
            live@.len() > 0,
            live_bytes as int,
            zeroed,
        ),
        op_ok(*p, live@, live_bytes as int, r),
{
    let layout = match pick_layout(p, e) {
        None => {
            return None;
        },
        Some(l) => l,
    };
    let room: usize = p.max_live_bytes - live_bytes;
    if layout.size() <= room {
        return Some(Op::Alloc { layout, zeroed });
    }
    if live.len() > 0 {
        return Some(Op::Dealloc);
    }
    match Layout::from_size_align(room, layout.align()) {
        Ok(l) => Some(Op::Alloc { layout: l, zeroed }),
        Err(_) => None,
    }
}

/// Draw a resize of one of the live blocks.
fn pick_realloc<E: Entropy>(p: &Profile, e: &mut E, live: &Vec<Block>, live_bytes: usize) -> (r:
    Option<Op>)
    requires
        p.usable(),
        live_bytes <= p.max_live_bytes,
        0 < live@.len() <= live_bytes,
        forall|i: int|
            0 <= i < live@.len() ==> 1 <= (#[trigger] live@[i]).layout.size() <= live_bytes,
    ensures
        (r, *final(e)) == realloc_choice(*old(e), *p, live@, live_bytes as int),
        op_ok(*p, live@, live_bytes as int, r),
{
    let index: usize = match e.below(live.len() as u32) {
        None => {
            return None;
        },
        Some(i) => i as usize,
    };
    let old_size: usize = live[index].layout.size();
    let size: usize = match pick_resize(p, e, old_size) {
        None => {
            return None;
        },
        Some(n) => n,
    };
    let room: usize = p.max_live_bytes - live_bytes + old_size;
    let new_size: usize = if size < room {
        size
    } else {
        room
    };
    Some(Op::Realloc { index, new_size })
}

/// Draw the next operation.
pub fn next_op<E: Entropy>(
    p: &Profile,
    e: &mut E,
    live: &Vec<Block>,
    live_bytes: usize,
    batch_left: &mut usize,
    free_left: usize,
) -> (r: Option<Op>)
    requires
        p.usable(),
        live_bytes <= p.max_live_bytes,
        live@.len() <= live_bytes,
        live@.len() == 0 ==> live_bytes == 0,
        forall|i: int|
            0 <= i < live@.len() ==> 1 <= (#[trigger] live@[i]).layout.size() <= live_bytes,
    ensures
        (r, *final(e), *final(batch_left) as int) == op_choice(
            *old(e),
            *p,
            live@,
            live_bytes as int,
            *old(batch_left) as int,
            free_left as int,
        ),
        op_ok(*p, live@, live_bytes as int, r),
{
    let class: usize = match pick_class(p, e, batch_left, free_left) {
        None => {
            return None;
        },
        Some(c) => c,
    };
    if class < 2 || live.len() == 0 {
        return pick_alloc(p, e, live, live_bytes, class == 1);
    }
    if class == 2 {
        return Some(Op::Dealloc);
    }
    pick_realloc(p, e, live, live_bytes)
}

/// No operation is drawn only when the source has run dry.
pub proof fn lemma_no_op_means_dry<E: Entropy>(
    e: E,
    p: Profile,
    live: Seq<Block>,
    live_bytes: int,
    batch_left: int,
    free_left: int,
)
    ensures
        op_choice(e, p, live, live_bytes, batch_left, free_left).0 is None ==> exists|f: E|
            #[trigger] f.drawn() == op_choice(
                e,
                p,
                live,
                live_bytes,
                batch_left,
                free_left,
            ).1 && f.upcoming() is None,
{
    let (class, f, left) = class_choice(e, p, batch_left, free_left);
    assert(f.drawn() == f.drawn());
    assert(e.drawn() == e.drawn());
    assert(e.drawn().drawn() == e.drawn().drawn());
    lemma_size_dry(f, p);
    lemma_layout_dry(f, p);
    match class {
        None => {},
        Some(_) => {
            match drawn_from(f, 0, live.len() - 1) {
                None => {},
                Some(i) => {
                    let g = f.drawn();
                    lemma_size_dry(g.drawn(), p);
                    assert(g.drawn() == g.drawn());
                    assert(g.drawn().drawn() == g.drawn().drawn());
                },
            }
        },
    }
}

proof fn lemma_size_dry<E: Entropy>(e: E, p: Profile)
    ensures
        size_choice(e, p).0 is None ==> exists|f: E| #[trigger]
            f.drawn() == size_choice(e, p).1 && f.upcoming() is None,
{
    let f = e.drawn();
    assert(e.drawn() == f);
    assert(f.drawn() == f.drawn());
    assert(f.drawn().drawn() == f.drawn().drawn());
}

proof fn lemma_layout_dry<E: Entropy>(e: E, p: Profile)
    ensures
        layout_choice(e, p).0 is None ==> exists|f: E| #[trigger]
            f.drawn() == layout_choice(e, p).1 && f.upcoming() is None,
{
    let f = e.drawn();
    assert(e.drawn() == f);
    lemma_size_dry(f, p);
    let (size, g) = size_choice(f, p);
    assert(g.drawn() == g.drawn());
}

/// What is said of a profile that cannot be run is true of it.
pub proof fn law_complaints_are_to_the_point(p: Profile)
    requires
        !p.usable(),
    ensures
        ({
            let cap = p.max_live_bytes as int;
            let c = p.complaint();
            &&& c == "no allocation weight"@ <==> p.ops[0] == 0 && p.ops[1] == 0
            &&& c == "no size weight"@ ==> total(p.sizes@) == 0
            &&& c == "no alignment weight"@ ==> total(p.aligns@) == 0
            &&& c == "zero live-byte cap"@ ==> cap == 0
            &&& c == "weights too large"@ ==> total(p.ops@) > 0xffff_ffff || total(p.sizes@)
                > 0xffff_ffff || total(p.aligns@) > 0xffff_ffff
            &&& c == "live-byte cap too large"@ ==> 2 * cap - cap / 2 >= 0xffff_ffff || cap
                > isize::MAX - 65535
            &&& c == "batch too large"@ ==> p.batch >= 0xffff_ffff
            &&& c == "no allocation weight"@ || c == "no size weight"@ || c
                == "no alignment weight"@ || c == "zero live-byte cap"@ || c == "weights too large"@
                || c == "live-byte cap too large"@ || c == "batch too large"@
        }),
{
    lemma_totals(p.sizes@);
    lemma_totals(p.aligns@);
    reveal_strlit("no allocation weight");
    reveal_strlit("no size weight");
    reveal_strlit("no alignment weight");
    reveal_strlit("zero live-byte cap");
    reveal_strlit("weights too large");
    reveal_strlit("live-byte cap too large");
    reveal_strlit("batch too large");
    assert("no allocation weight"@.len() == 20 && "no size weight"@.len() == 14);
    assert("no alignment weight"@.len() == 19 && "zero live-byte cap"@.len() == 18);
    assert("weights too large"@.len() == 17 && "live-byte cap too large"@.len() == 23);
    assert("batch too large"@.len() == 15);
    assert(vstd::arithmetic::power2::is_pow2(65536)) by {
        reveal_with_fuel(vstd::arithmetic::power2::is_pow2, 20);
    }
}

} // verus!
