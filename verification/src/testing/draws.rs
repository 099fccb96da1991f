//! What the words of an entropy source come to: how often each choice is made, and which sizes,
//! alignments and operations there are.
use vstd::arithmetic::power2::{lemma2_to64, lemma_pow2_unfold, pow2};
use vstd::prelude::*;

use super::choice::{drawn_from, layout_choice, op_choice, size_choice, Block, Op, Profile};
use super::fuzz::{is_picked, is_preset};
use super::rng::{entry_at, scaled, total, Entropy};
use crate::layout::Layout;

verus! {

/// The word `x` lies in the `k`th of `n` parts of equal length that all words are cut into.
pub open spec fn in_part(x: u32, n: int, k: int) -> bool {
    k * 0x1_0000_0000 <= x * n < (k + 1) * 0x1_0000_0000
}

/// The sum of the first `i` weights.
pub open spec fn weight_of_first(weights: Seq<u32>, i: int) -> int
    decreases i,
{
    if i <= 0 {
        0
    } else {
        weight_of_first(weights, i - 1) + weights[i - 1]
    }
}

/// The word `x` lies in the `i`th of the parts that all words are cut into, each as long as its
/// weight has a share of all the weight there is.
pub open spec fn in_share(x: u32, weights: Seq<u32>, i: int) -> bool {
    let all = weight_of_first(weights, weights.len() as int);
    &&& 0 <= i < weights.len()
    &&& weight_of_first(weights, i) * 0x1_0000_0000 <= x * all
    &&& x * all < weight_of_first(weights, i + 1) * 0x1_0000_0000
}

/// A draw below `n` is the part that its word lies in.
pub proof fn law_draws_are_uniform(x: u32, n: int, k: int)
    requires
        n > 0,
    ensures
        scaled(x as int, n) == k <==> in_part(x, n, k),
        in_part(x, n, k) ==> 0 <= k < n,
{
    let p: int = x * n;
    assert(0 <= p < 0x1_0000_0000 * n) by (nonlinear_arith)
        requires
            p == x * n,
            0 <= x < 0x1_0000_0000,
            n > 0,
    ;
}

/// Every one of up to `2^32` parts has a word.
pub proof fn law_every_part_has_a_word(n: int, k: int)
    requires
        0 <= k < n <= 0x1_0000_0000,
    ensures
        exists|x: u32| in_part(x, n, k),
{
    let t: int = k * 0x1_0000_0000 + n - 1;
    let q: int = t / n;
    vstd::arithmetic::div_mod::lemma_fundamental_div_mod(t, n);
    assert(n * q == q * n) by (nonlinear_arith);
    assert(q * n <= t && t < q * n + n);
    assert(0 <= q < 0x1_0000_0000) by (nonlinear_arith)
        requires
            q * n <= t,
            t < q * n + n,
            t == k * 0x1_0000_0000 + n - 1,
            0 <= k < n,
            n <= 0x1_0000_0000,
    ;
    let x: u32 = q as u32;
    assert(in_part(x, n, k));
}

/// The sums of the first weights never fall.
proof fn lemma_first_weights(weights: Seq<u32>, i: int, j: int)
    requires
        0 <= i <= j <= weights.len(),
    ensures
        0 <= weight_of_first(weights, i) <= weight_of_first(weights, j),
    decreases i, j,
{
    if i < j {
        lemma_first_weights(weights, i, j - 1);
    } else if i > 0 {
        lemma_first_weights(weights, i - 1, j - 1);
    }
}

/// The first weight and those after it.
proof fn lemma_rest_weights(weights: Seq<u32>, i: int)
    requires
        1 <= i <= weights.len(),
    ensures
        weight_of_first(weights, i) == weights[0] + weight_of_first(weights.drop_first(), i - 1),
    decreases i,
{
    if i > 1 {
        lemma_rest_weights(weights, i - 1);
    } else {
        assert(weight_of_first(weights, 0) == 0);
    }
}

proof fn lemma_total(weights: Seq<u32>)
    ensures
        total(weights) == weight_of_first(weights, weights.len() as int),
    decreases weights.len(),
{
    if weights.len() > 0 {
        lemma_total(weights.drop_first());
        lemma_rest_weights(weights, weights.len() as int);
    }
}

/// The entry that a number below the sum of the weights falls into.
proof fn lemma_entry(weights: Seq<u32>, y: int, i: int)
    requires
        0 <= i < weights.len(),
        weight_of_first(weights, i) <= y < weight_of_first(weights, i + 1),
    ensures
        entry_at(weights, y) == i,
    decreases i,
{
    assert(weight_of_first(weights, 0) == 0);
    assert(weight_of_first(weights, 1) == weight_of_first(weights, 0) + weights[0]);
    if i > 0 {
        lemma_first_weights(weights, 1, i);
        lemma_rest_weights(weights, i);
        lemma_rest_weights(weights, i + 1);
        lemma_entry(weights.drop_first(), y - weights[0], i - 1);
    }
}

/// A weighted draw is the entry in whose share its word lies.
pub proof fn law_weights_have_their_shares(x: u32, weights: Seq<u32>, i: int)
    requires
        in_share(x, weights, i),
    ensures
        entry_at(weights, scaled(x as int, total(weights))) == i,
        weights[i] > 0,
{
    lemma_total(weights);
    let all: int = total(weights);
    let p: int = x * all;
    lemma_first_weights(weights, 0, i);
    lemma_entry(weights, p / 0x1_0000_0000, i);
    assert(weight_of_first(weights, i + 1) == weight_of_first(weights, i) + weights[i]);
}

/// The smallest and the largest size of the classes that are uniform: ten to a hundred kibibytes, a
/// hundred kibibytes to four mebibytes, and four to sixty-four mebibytes.
pub open spec fn class_sizes(class: int) -> (int, int) {
    if class == 1 {
        (10240, 102400)
    } else if class == 2 {
        (102400, 4194304)
    } else {
        (4194304, 67108864)
    }
}

/// The `k`th doubling of the small sizes, which end with ten thousand.
pub open spec fn doubling(k: int) -> (int, int) {
    let end = 2 * pow2(k as nat) - 1;
    (
        pow2(k as nat) as int,
        if end < 10000 {
            end
        } else {
            10000
        },
    )
}

/// In the classes above the small one, the second word decides the size, uniformly over the class.
pub proof fn law_larger_sizes_are_uniform<E: Entropy>(e: E, p: Profile, x: u32, class: int, y: u32)
    requires
        1 <= class <= 3,
        e.upcoming() == Some(x),
        in_share(x, p.sizes@, class),
        e.drawn().upcoming() == Some(y),
    ensures
        ({
            let (lo, hi) = class_sizes(class);
            let (size, d) = size_choice(e, p);
            &&& d == e.drawn().drawn()
            &&& size matches Some(n) && lo <= n <= hi && in_part(y, hi - lo + 1, n - lo)
        }),
{
    let (lo, hi) = class_sizes(class);
    law_weights_have_their_shares(x, p.sizes@, class);
    law_draws_are_uniform(y, hi - lo + 1, scaled(y as int, hi - lo + 1));
}

/// In the small class the second word decides the doubling, all of them being equally likely, and
/// the third the size, uniformly over the doubling.
pub proof fn law_small_sizes_are_uniform_over_doublings<E: Entropy>(
    e: E,
    p: Profile,
    x: u32,
    y: u32,
    k: int,
    z: u32,
)
    requires
        e.upcoming() == Some(x),
        in_share(x, p.sizes@, 0),
        e.drawn().upcoming() == Some(y),
        in_part(y, 14, k),
        e.drawn().drawn().upcoming() == Some(z),
    ensures
        ({
            let (lo, hi) = doubling(k);
            let (size, d) = size_choice(e, p);
            &&& 0 <= k < 14
            &&& d == e.drawn().drawn().drawn()
            &&& size matches Some(n) && 1 <= lo <= n <= hi <= 10000 && in_part(
                z,
                hi - lo + 1,
                n - lo,
            )
        }),
{
    let (lo, hi) = doubling(k);
    law_weights_have_their_shares(x, p.sizes@, 0);
    law_draws_are_uniform(y, 14, k);
    lemma2_to64();
    lemma_doubling(k);
    lemma_pow2_unfold((k + 1) as nat);
    law_draws_are_uniform(z, hi - lo + 1, scaled(z as int, hi - lo + 1));
}

/// The doublings are those of the numbers from one to ten thousand.
proof fn lemma_doubling(k: int)
    requires
        0 <= k < 14,
    ensures
        1 <= doubling(k).0 <= doubling(k).1 <= 10000,
{
    lemma2_to64();
    assert(k == 0 || k == 1 || k == 2 || k == 3 || k == 4 || k == 5 || k == 6 || k == 7 || k == 8
        || k == 9 || k == 10 || k == 11 || k == 12 || k == 13);
}

/// The second word `y` leads to `n` bytes in the class.
pub open spec fn size_for<E: Entropy>(class: int, y: u32, n: int) -> bool {
    forall|e: E, p: Profile, x: u32|
        #![trigger in_share(x, p.sizes@, class), size_choice(e, p)]
        e.upcoming() == Some(x) && in_share(x, p.sizes@, class) && e.drawn().upcoming() == Some(y)
            ==> size_choice(e, p).0 == Some(n)
}

/// Every size of a class above the small one is drawn for some word.
pub proof fn law_every_larger_size_is_drawn<E: Entropy>(class: int, n: int)
    requires
        1 <= class <= 3,
        class_sizes(class).0 <= n <= class_sizes(class).1,
    ensures
        exists|y: u32| size_for::<E>(class, y, n),
{
    let (lo, hi) = class_sizes(class);
    law_every_part_has_a_word(hi - lo + 1, n - lo);
    let (span, at): (int, int) = (hi - lo + 1, n - lo);
    let y: u32 = choose|y: u32| in_part(y, span, at);
    assert forall|e: E, p: Profile, x: u32|
        #![trigger in_share(x, p.sizes@, class), size_choice(e, p)]
        e.upcoming() == Some(x) && in_share(x, p.sizes@, class) && e.drawn().upcoming()
            == Some(y) implies size_choice(e, p).0 == Some(n) by {
        law_larger_sizes_are_uniform(e, p, x, class, y);
        law_draws_are_uniform(y, hi - lo + 1, n - lo);
        law_draws_are_uniform(y, hi - lo + 1, size_choice(e, p).0->0 - lo);
    }
    assert(size_for::<E>(class, y, n));
}

/// The second and third words `y` and `z` lead to `n` bytes in the small class.
pub open spec fn small_size_for<E: Entropy>(y: u32, z: u32, n: int) -> bool {
    forall|e: E, p: Profile, x: u32|
        #![trigger in_share(x, p.sizes@, 0), size_choice(e, p)]
        e.upcoming() == Some(x) && in_share(x, p.sizes@, 0) && e.drawn().upcoming() == Some(y)
            && e.drawn().drawn().upcoming() == Some(z) ==> size_choice(e, p).0 == Some(n)
}

/// Every size from one to ten thousand lies in one of the doublings, and is drawn for some words.
pub proof fn law_every_small_size_is_drawn<E: Entropy>(n: int)
    requires
        1 <= n <= 10000,
    ensures
        exists|y: u32, z: u32| small_size_for::<E>(y, z, n),
{
    lemma2_to64();
    let k: int = if n < 2 {
        0
    } else if n < 4 {
        1
    } else if n < 8 {
        2
    } else if n < 16 {
        3
    } else if n < 32 {
        4
    } else if n < 64 {
        5
    } else if n < 128 {
        6
    } else if n < 256 {
        7
    } else if n < 512 {
        8
    } else if n < 1024 {
        9
    } else if n < 2048 {
        10
    } else if n < 4096 {
        11
    } else if n < 8192 {
        12
    } else {
        13
    };
    let (lo, hi) = doubling(k);
    assert(lo <= n <= hi);
    law_every_part_has_a_word(14, k);
    law_every_part_has_a_word(hi - lo + 1, n - lo);
    let y: u32 = choose|y: u32| in_part(y, 14, k);
    let (span, at): (int, int) = (hi - lo + 1, n - lo);
    let z: u32 = choose|z: u32| in_part(z, span, at);
    assert forall|e: E, p: Profile, x: u32|
        #![trigger in_share(x, p.sizes@, 0), size_choice(e, p)]
        e.upcoming() == Some(x) && in_share(x, p.sizes@, 0) && e.drawn().upcoming() == Some(y)
            && e.drawn().drawn().upcoming() == Some(z) implies size_choice(e, p).0 == Some(n) by {
        law_small_sizes_are_uniform_over_doublings(e, p, x, y, k, z);
        law_draws_are_uniform(z, hi - lo + 1, n - lo);
        law_draws_are_uniform(z, hi - lo + 1, size_choice(e, p).0->0 - lo);
    }
    assert(small_size_for::<E>(y, z, n));
}

/// A layout is one byte at the alignment of a slice for the last alignment class. For the others
/// it has the size drawn next and an alignment of the class: 16, 32, 64 or 4096, or one of the four
/// powers of two up to 8, or from 8192 up, each for a quarter of the words. Without entropy there
/// is none.
pub proof fn law_layouts_have_the_alignment_of_their_class<E: Entropy>(
    e: E,
    p: Profile,
    x: u32,
    class: int,
)
    requires
        e.upcoming() == Some(x),
        in_share(x, p.aligns@, class),
    ensures
        ({
            let (size, f) = size_choice(e.drawn(), p);
            let (layout, d) = layout_choice(e, p);
            let fixed = if class == 1 {
                16usize
            } else if class == 2 {
                32
            } else if class == 3 {
                64
            } else {
                4096
            };
            let least = if class == 0 {
                0int
            } else {
                13
            };
            &&& 0 <= class <= 6
            &&& class == 6 ==> layout == Some(Layout::of(1, 65536)) && d == e.drawn()
            &&& class < 6 && size is None ==> layout is None && d == f
            &&& 1 <= class <= 4 && size is Some ==> layout == Some(
                Layout::of(size->0 as usize, fixed),
            ) && d == f
            &&& (class == 0 || class == 5) && size is Some ==> {
                &&& d == f.drawn()
                &&& f.upcoming() is None ==> layout is None
                &&& forall|k: int|
                    f.upcoming() is Some && #[trigger] in_part(f.upcoming()->0, 4, k) ==> layout
                        == Some(
                        Layout::of(size->0 as usize, pow2((least + k) as nat) as usize),
                    )
            }
        }),
{
    law_weights_have_their_shares(x, p.aligns@, class);
    let (size, f) = size_choice(e.drawn(), p);
    assert forall|k: int|
        f.upcoming() is Some && #[trigger] in_part(f.upcoming()->0, 4, k) implies scaled(
        f.upcoming()->0 as int,
        4,
    ) == k by {
        law_draws_are_uniform(f.upcoming()->0, 4, k);
    }
}

/// What an operation class leads to, with `f` the entropy left: the first two allocate, plain and
/// zeroed, the third frees, and the fourth resizes; without live blocks all but the second allocate.
/// An allocation beyond the live bytes allowed frees instead or, with nothing live, takes what is
/// allowed. A resize is of any live block alike; the words of the first half lead to a size from
/// half the old one to twice it, the others to one drawn as for an allocation, and neither goes
/// beyond the live bytes allowed.
pub open spec fn leads_to<E: Entropy>(
    class: int,
    f: E,
    p: Profile,
    live: Seq<Block>,
    live_bytes: int,
    op: Option<Op>,
    d: E,
) -> bool {
    let room = p.max_live_bytes - live_bytes;
    if class < 2 || live.len() == 0 {
        let (layout, g) = layout_choice(f, p);
        &&& d == g
        &&& match layout {
            None => op is None,
            Some(l) => if l.size() <= room {
                op == Some(Op::Alloc { layout: l, zeroed: class == 1 })
            } else if live.len() > 0 {
                op == Some(Op::Dealloc)
            } else {
                room >= 1 ==> op == Some(
                    Op::Alloc { layout: Layout::of(room as usize, l.align()), zeroed: class == 1 },
                )
            },
        }
    } else if class == 2 {
        op == Some(Op::Dealloc) && d == f
    } else {
        resize_drawn(f, p, live, room, op, d)
    }
}

/// The resize that is drawn from `f`.
pub open spec fn resize_drawn<E: Entropy>(
    f: E,
    p: Profile,
    live: Seq<Block>,
    room: int,
    op: Option<Op>,
    d: E,
) -> bool {
    &&& f.upcoming() is None ==> op is None
    &&& f.upcoming() is Some && f.drawn().upcoming() is None ==> op is None
    &&& forall|i: int|
        #![trigger live[i]]
        f.upcoming() is Some && f.drawn().upcoming() is Some && in_part(
            f.upcoming()->0,
            live.len() as int,
            i,
        ) && live[i].layout.size() > 0 ==> resize_of(
            f.drawn(),
            p,
            i,
            live[i].layout.size() as int,
            room,
            op,
            d,
        )
}

/// The resize of the `i`th block, of `old` bytes, that is drawn from `g`.
pub open spec fn resize_of<E: Entropy>(
    g: E,
    p: Profile,
    i: int,
    old: int,
    room: int,
    op: Option<Op>,
    d: E,
) -> bool {
    let h = g.drawn();
    let lo = if old < 2 {
        1
    } else {
        old / 2
    };
    if g.upcoming()->0 < 0x8000_0000u32 {
        &&& d == h.drawn()
        &&& h.upcoming() is None ==> op is None
        &&& h.upcoming() is Some ==> exists|n: int|
            lo <= n <= 2 * old && in_part(h.upcoming()->0, 2 * old - lo + 1, n - lo)
                && #[trigger] resizes(op, i, n, room + old)
    } else {
        &&& d == size_choice(h, p).1
        &&& match size_choice(h, p).0 {
            None => op is None,
            Some(n) => resizes(op, i, n, room + old),
        }
    }
}

/// The operation resizes the `i`th block to `n` bytes, or to as many as are allowed.
pub open spec fn resizes(op: Option<Op>, i: int, n: int, allowed: int) -> bool {
    op == Some(
        Op::Realloc {
            index: i as usize,
            new_size: if n <= allowed {
                n as usize
            } else {
                allowed as usize
            },
        },
    )
}

/// The class leads to the operation.
proof fn lemma_leads_to<E: Entropy>(
    e: E,
    p: Profile,
    live: Seq<Block>,
    live_bytes: int,
    batch_left: int,
    free_left: int,
    class: int,
    f: E,
    left: int,
)
    requires
        0 <= class < 4,
        super::choice::class_choice(e, p, batch_left, free_left) == (Some(class), f, left),
    ensures
        ({
            let (op, d, n) = op_choice(e, p, live, live_bytes, batch_left, free_left);
            leads_to(class, f, p, live, live_bytes, op, d) && n == left
        }),
{
    let (op, d, n) = op_choice(e, p, live, live_bytes, batch_left, free_left);
    let room: int = p.max_live_bytes - live_bytes;
    if class == 3 && live.len() > 0 && f.upcoming() is Some && f.drawn().upcoming() is Some {
        assert forall|i: int|
            #![trigger live[i]]
            in_part(f.upcoming()->0, live.len() as int, i) && live[i].layout.size() > 0 implies
            resize_of(f.drawn(), p, i, live[i].layout.size() as int, room, op, d) by {
            lemma_resize_of(f, p, live, live_bytes, i);
        }
    }
}

proof fn lemma_resize_of<E: Entropy>(f: E, p: Profile, live: Seq<Block>, live_bytes: int, i: int)
    requires
        live.len() > 0,
        f.upcoming() is Some,
        f.drawn().upcoming() is Some,
        in_part(f.upcoming()->0, live.len() as int, i),
        live[i].layout.size() > 0,
    ensures
        ({
            let (op, d) = super::choice::realloc_choice(f, p, live, live_bytes);
            resize_of(
                f.drawn(),
                p,
                i,
                live[i].layout.size() as int,
                p.max_live_bytes - live_bytes,
                op,
                d,
            )
        }),
{
    let (op, d) = super::choice::realloc_choice(f, p, live, live_bytes);
    let room: int = p.max_live_bytes - live_bytes;
    let g = f.drawn();
    let h = g.drawn();
    let old: int = live[i].layout.size() as int;
    let lo: int = if old < 2 {
        1
    } else {
        old / 2
    };
    law_draws_are_uniform(f.upcoming()->0, live.len() as int, i);
    assert(drawn_from(f, 0, live.len() - 1) == Some(i));
    let coin: u32 = g.upcoming()->0;
    law_draws_are_uniform(coin, 2, 0);
    assert(in_part(coin, 2, 0) <==> coin < 0x8000_0000u32) by (nonlinear_arith);
    if coin < 0x8000_0000u32 && h.upcoming() is Some {
        let z: u32 = h.upcoming()->0;
        let k: int = scaled(z as int, 2 * old - lo + 1);
        law_draws_are_uniform(z, 2 * old - lo + 1, k);
        assert(resizes(op, i, lo + k, room + old));
    }
}

/// Without batches every word draws an operation class by its weight, and the class leads to the
/// operation.
pub proof fn law_operations_have_their_shares<E: Entropy>(
    e: E,
    p: Profile,
    live: Seq<Block>,
    live_bytes: int,
    batch_left: int,
    free_left: int,
    x: u32,
    class: int,
)
    requires
        p.batch == 0,
        e.upcoming() == Some(x),
        in_share(x, p.ops@, class),
    ensures
        ({
            let (op, d, left) = op_choice(e, p, live, live_bytes, batch_left, free_left);
            &&& leads_to(class, e.drawn(), p, live, live_bytes, op, d)
            &&& left == batch_left
        }),
{
    law_weights_have_their_shares(x, p.ops@, class);
    lemma_leads_to(
        e,
        p,
        live,
        live_bytes,
        batch_left,
        free_left,
        class,
        e.drawn(),
        batch_left,
    );
}

/// With batches, a new batch gets a number of allocations of its own, any up to the largest alike.
/// While allocations are left, the classes that allocate and resize are drawn by their weights, and
/// none frees. Once none is left, every operation is a free until all that is to be freed is freed.
pub proof fn law_batches_allocate_and_then_free<E: Entropy>(
    e: E,
    p: Profile,
    live: Seq<Block>,
    live_bytes: int,
    batch_left: int,
    free_left: int,
    x: u32,
    n: int,
    y: u32,
    class: int,
)
    requires
        p.batch > 0,
        batch_left >= 0,
        free_left >= 0,
        in_share(y, seq![p.ops[0], p.ops[1], 0u32, p.ops[3]], class),
    ensures
        class != 2,
        ({
            let (op, d, left) = op_choice(e, p, live, live_bytes, batch_left, free_left);
            &&& batch_left == 0 && free_left == 0 && e.upcoming() == Some(x) && in_part(
                x,
                p.batch as int,
                n - 1,
            ) && e.drawn().upcoming() == Some(y) ==> {
                &&& 1 <= n <= p.batch
                &&& left == n
                &&& leads_to(class, e.drawn().drawn(), p, live, live_bytes, op, d)
            }
            &&& batch_left > 0 && e.upcoming() == Some(y) ==> {
                &&& left == batch_left
                &&& leads_to(class, e.drawn(), p, live, live_bytes, op, d)
            }
            &&& batch_left == 0 && free_left > 0 && live.len() > 0 ==> {
                &&& left == 0
                &&& op == Some(Op::Dealloc)
                &&& d == e
            }
        }),
{
    let w = seq![p.ops[0], p.ops[1], 0u32, p.ops[3]];
    law_weights_have_their_shares(y, w, class);
    if batch_left == 0 && free_left == 0 && e.upcoming() == Some(x) && in_part(
        x,
        p.batch as int,
        n - 1,
    ) && e.drawn().upcoming() == Some(y) {
        law_draws_are_uniform(x, p.batch as int, n - 1);
        lemma_leads_to(
            e,
            p,
            live,
            live_bytes,
            batch_left,
            free_left,
            class,
            e.drawn().drawn(),
            n,
        );
    }
    if batch_left > 0 && e.upcoming() == Some(y) {
        lemma_leads_to(
            e,
            p,
            live,
            live_bytes,
            batch_left,
            free_left,
            class,
            e.drawn(),
            batch_left,
        );
    }
}

/// The weights are so many times the shares.
pub open spec fn multiple_of(weights: Seq<u32>, shares: Seq<int>, k: int) -> bool {
    &&& weights.len() == shares.len()
    &&& forall|i: int| 0 <= i < weights.len() ==> #[trigger] weights[i] == k * shares[i]
}

/// The weights are in these proportions.
pub open spec fn proportioned(weights: Seq<u32>, shares: Seq<int>) -> bool {
    exists|k: int| k > 0 && #[trigger] multiple_of(weights, shares, k)
}

proof fn lemma_proportioned(weights: Seq<u32>, shares: Seq<int>)
    requires
        weights.len() == shares.len(),
        forall|i: int| 0 <= i < weights.len() ==> #[trigger] weights[i] == shares[i],
    ensures
        proportioned(weights, shares),
{
    assert(multiple_of(weights, shares, 1));
}

/// The proportions most presets draw alignments in.
pub open spec fn usual_alignments() -> Seq<int> {
    seq![75, 8, 6, 5, 3, 2, 1]
}

/// The shape of the presets: which operations, sizes and alignments they draw in which proportions,
/// how much may be live, which block a free takes, and when everything is freed.
pub proof fn law_presets_have_their_shapes(p: Profile)
    ensures
        p.is_small_churn() ==> {
            &&& proportioned(p.ops@, seq![45, 10, 35, 10])
            &&& proportioned(p.sizes@, seq![1, 0, 0, 0])
            &&& proportioned(p.aligns@, seq![85, 6, 5, 4, 0, 0, 0])
            &&& p.max_live_bytes == 0x400_0000
            &&& p.order is Random && p.batch == 0 && p.sweep_every == 0
        },
        p.is_mixed() ==> {
            &&& proportioned(p.ops@, seq![35, 10, 35, 20])
            &&& proportioned(p.sizes@, seq![920, 50, 25, 5])
            &&& proportioned(p.aligns@, usual_alignments())
            &&& p.max_live_bytes == 0x1000_0000
            &&& p.order is Random && p.batch == 0 && p.sweep_every == 5000
        },
        p.is_large_heavy() ==> {
            &&& proportioned(p.ops@, seq![40, 10, 40, 10])
            &&& proportioned(p.sizes@, seq![300, 300, 380, 20])
            &&& proportioned(p.aligns@, seq![80, 5, 5, 5, 3, 1, 1])
            &&& p.max_live_bytes == 0x1000_0000
            &&& p.order is Random && p.batch == 0 && p.sweep_every == 500
        },
        p.is_align_heavy() ==> {
            &&& proportioned(p.ops@, seq![40, 10, 40, 10])
            &&& proportioned(p.sizes@, seq![900, 80, 20, 0])
            &&& proportioned(p.aligns@, seq![20, 15, 15, 15, 15, 10, 10])
            &&& p.max_live_bytes == 0x800_0000
            &&& p.order is Random && p.batch == 0 && p.sweep_every == 2000
        },
        p.is_lifo_batches() || p.is_fifo_batches() ==> {
            &&& proportioned(p.ops@, seq![45, 5, 40, 10])
            &&& proportioned(p.sizes@, seq![950, 50, 0, 0])
            &&& proportioned(p.aligns@, usual_alignments())
            &&& p.max_live_bytes == 0x400_0000
            &&& p.batch == 256 && p.sweep_every == 0
        },
        p.is_lifo_batches() ==> p.order is Lifo,
        p.is_fifo_batches() ==> p.order is Fifo,
{
    if p.is_small_churn() {
        lemma_proportioned(p.ops@, seq![45, 10, 35, 10]);
        lemma_proportioned(p.sizes@, seq![1, 0, 0, 0]);
        lemma_proportioned(p.aligns@, seq![85, 6, 5, 4, 0, 0, 0]);
    }
    if p.is_mixed() {
        lemma_proportioned(p.ops@, seq![35, 10, 35, 20]);
        lemma_proportioned(p.sizes@, seq![920, 50, 25, 5]);
        lemma_proportioned(p.aligns@, usual_alignments());
    }
    if p.is_large_heavy() {
        lemma_proportioned(p.ops@, seq![40, 10, 40, 10]);
        lemma_proportioned(p.sizes@, seq![300, 300, 380, 20]);
        lemma_proportioned(p.aligns@, seq![80, 5, 5, 5, 3, 1, 1]);
    }
    if p.is_align_heavy() {
        lemma_proportioned(p.ops@, seq![40, 10, 40, 10]);
        lemma_proportioned(p.sizes@, seq![900, 80, 20, 0]);
        lemma_proportioned(p.aligns@, seq![20, 15, 15, 15, 15, 10, 10]);
    }
    if p.is_lifo_batches() || p.is_fifo_batches() {
        lemma_proportioned(p.ops@, seq![45, 5, 40, 10]);
        lemma_proportioned(p.sizes@, seq![950, 50, 0, 0]);
        lemma_proportioned(p.aligns@, usual_alignments());
    }
}

/// A fuzzer's first byte picks one of the six presets, each for every sixth byte in turn, with
/// sixteen mebibytes live at most.
pub proof fn law_bytes_pick_the_presets_in_turn(p: Profile, byte: u8)
    requires
        is_picked(p, byte),
    ensures
        p.max_live_bytes == 0x100_0000,
        byte as int % 6 == 0 ==> p.name@ == "small_churn"@,
        byte as int % 6 == 1 ==> p.name@ == "mixed"@,
        byte as int % 6 == 2 ==> p.name@ == "large_heavy"@,
        byte as int % 6 == 3 ==> p.name@ == "align_heavy"@,
        byte as int % 6 == 4 ==> p.name@ == "lifo_batches"@ && p.order is Lifo,
        byte as int % 6 == 5 ==> p.name@ == "fifo_batches"@ && p.order is Fifo,
        exists|q: Profile|
            {
                &&& #[trigger] is_preset(q, byte as int % 6)
                &&& p.ops == q.ops && p.sizes == q.sizes && p.aligns == q.aligns
                &&& p.batch == q.batch && p.sweep_every == q.sweep_every
            },
{
}

} // verus!
