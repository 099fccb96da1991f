//! Powers of two, rounding and divisibility.
use vstd::arithmetic::power2::is_pow2;
use vstd::prelude::*;

verus! {

/// The least multiple of `align` that is at least `x`.
pub open spec fn round_up(x: int, align: int) -> int {
    if x % align == 0 {
        x
    } else {
        x + (align - x % align)
    }
}

/// `ceil(x / d)` for non-negative `x` and positive `d`.
pub open spec fn div_ceil(x: int, d: int) -> int {
    (x + d - 1) / d
}

pub open spec fn min(a: int, b: int) -> int {
    if a <= b {
        a
    } else {
        b
    }
}

pub open spec fn max(a: int, b: int) -> int {
    if a >= b {
        a
    } else {
        b
    }
}

pub proof fn lemma_pow2_positive(a: int)
    requires
        is_pow2(a),
    ensures
        a >= 1,
{
    reveal(is_pow2);
}

/// Of two powers of two the smaller divides the larger.
pub proof fn lemma_pow2_divides(a: int, b: int)
    requires
        is_pow2(a),
        is_pow2(b),
        a <= b,
    ensures
        b % a == 0,
    decreases b,
{
    reveal(is_pow2);
    if a > 1 {
        lemma_pow2_divides(a / 2, b / 2);
        let h: int = a / 2;
        let k: int = (b / 2) / h;
        vstd::arithmetic::div_mod::lemma_fundamental_div_mod(b / 2, h);
        assert(b == k * a) by (nonlinear_arith)
            requires
                b == 2 * (h * k),
                a == 2 * h,
        ;
        vstd::arithmetic::div_mod::lemma_mod_multiples_basic(k, a);
    }
}

/// Divisibility is transitive.
pub proof fn lemma_divides_trans(x: int, b: int, a: int)
    requires
        a > 0,
        b > 0,
        b % a == 0,
        x % b == 0,
    ensures
        x % a == 0,
{
    let q: int = x / b;
    let r: int = b / a;
    vstd::arithmetic::div_mod::lemma_fundamental_div_mod(x, b);
    vstd::arithmetic::div_mod::lemma_fundamental_div_mod(b, a);
    assert(x == (q * r) * a) by (nonlinear_arith)
        requires
            x == b * q,
            b == a * r,
    ;
    vstd::arithmetic::div_mod::lemma_mod_multiples_basic(q * r, a);
}

/// The sum and the difference of two multiples are multiples.
pub proof fn lemma_sum_of_multiples(x: int, y: int, a: int)
    requires
        a > 0,
        x % a == 0,
        y % a == 0,
    ensures
        (x + y) % a == 0,
        (x - y) % a == 0,
{
    vstd::arithmetic::div_mod::lemma_fundamental_div_mod(x, a);
    vstd::arithmetic::div_mod::lemma_fundamental_div_mod(y, a);
    let q: int = x / a;
    let r: int = y / a;
    assert(x + y == (q + r) * a && x - y == (q - r) * a) by (nonlinear_arith)
        requires
            x == a * q,
            y == a * r,
    ;
    vstd::arithmetic::div_mod::lemma_mod_multiples_basic(q + r, a);
    vstd::arithmetic::div_mod::lemma_mod_multiples_basic(q - r, a);
}

/// A multiple of `y` stays one after multiplication.
pub proof fn lemma_multiple_of_multiple(k: int, y: int, a: int)
    requires
        a > 0,
        y % a == 0,
    ensures
        (k * y) % a == 0,
{
    vstd::arithmetic::div_mod::lemma_fundamental_div_mod(y, a);
    let r: int = y / a;
    assert(k * y == (k * r) * a) by (nonlinear_arith)
        requires
            y == a * r,
    ;
    vstd::arithmetic::div_mod::lemma_mod_multiples_basic(k * r, a);
}

/// What [`round_up`] promises.
pub proof fn lemma_round_up(x: int, a: int)
    requires
        a > 0,
    ensures
        round_up(x, a) % a == 0,
        x <= round_up(x, a) < x + a,
        forall|y: int| x <= y && #[trigger] (y % a) == 0 ==> round_up(x, a) <= y,
{
    let r: int = round_up(x, a);
    vstd::arithmetic::div_mod::lemma_mod_bound(x, a);
    assert(r % a == 0) by {
        vstd::arithmetic::div_mod::lemma_fundamental_div_mod(x, a);
        if x % a != 0 {
            assert(r == (x / a + 1) * a) by (nonlinear_arith)
                requires
                    x == a * (x / a) + x % a,
                    r == x + (a - x % a),
            ;
            vstd::arithmetic::div_mod::lemma_mod_multiples_basic(x / a + 1, a);
        }
    }
    assert forall|y: int| x <= y && #[trigger] (y % a) == 0 implies r <= y by {
        if y < r {
            lemma_sum_of_multiples(r, y, a);
            vstd::arithmetic::div_mod::lemma_small_mod((r - y) as nat, a as nat);
        }
    }
}

/// Whether `n` is a power of two.
pub fn is_power_of_two(n: usize) -> (r: bool)
    ensures
        r == is_pow2(n as int),
{
    proof {
        reveal(is_pow2);
    }
    let mut m: usize = n;
    if m == 0 {
        return false;
    }
    while m % 2 == 0
        invariant
            m > 0,
            is_pow2(m as int) == is_pow2(n as int),
        decreases m,
    {
        proof {
            reveal(is_pow2);
        }
        m = m / 2;
    }
    proof {
        reveal(is_pow2);
    }
    m == 1
}

/// The least multiple of the power of two `align` that is at least `size`.
pub fn round_up_pow2(size: usize, align: usize) -> (r: usize)
    requires
        is_pow2(align as int),
        size + align - 1 <= usize::MAX,
    ensures
        r == round_up(size as int, align as int),
{
    proof {
        lemma_pow2_positive(align as int);
        lemma_round_up(size as int, align as int);
    }
    let over: usize = size % align;
    if over == 0 {
        size
    } else {
        size + (align - over)
    }
}

/// `ceil(x / d)`.
pub fn div_ceil_by(x: usize, d: usize) -> (r: usize)
    requires
        d > 0,
    ensures
        r == div_ceil(x as int, d as int),
{
    let q: usize = x / d;
    proof {
        vstd::arithmetic::div_mod::lemma_fundamental_div_mod(x as int, d as int);
        if x % d == 0 {
            vstd::arithmetic::div_mod::lemma_fundamental_div_mod_converse(
                x + d - 1,
                d as int,
                (x / d) as int,
                d - 1,
            );
        } else {
            assert(d as int * (x / d) as int + (x % d) as int + d - 1 == d as int * ((x / d) as int
                + 1) + (x % d - 1)) by (nonlinear_arith);
            vstd::arithmetic::div_mod::lemma_fundamental_div_mod_converse(
                x + d - 1,
                d as int,
                (x / d) as int + 1,
                (x % d - 1) as int,
            );
            assert(x / d < x || x / d == 0) by (nonlinear_arith)
                requires
                    d > 1,
            ;
        }
    }
    if x % d == 0 {
        q
    } else {
        q + 1
    }
}

} // verus!
