//! Size classes in pages: where the blocks of a page are.
use vstd::prelude::*;

use super::segregated::{class_for, in_class, GRANULE};
use super::sizeclass::NCLASS;
use crate::layout::Layout;

verus! {

/// Bytes of a page of blocks.
pub const PAGE: usize = 65536;

/// The page an address lies in.
pub open spec fn page_base(a: int) -> int {
    a - a % PAGE as int
}

/// Bytes of a block of class `c`.
pub open spec fn block_of(c: int) -> int {
    (c + 1) * GRANULE
}

/// `a` is a block of class `c` in the page at `p`, whose header takes `header` bytes.
pub open spec fn is_slot(p: int, header: int, c: int, a: int) -> bool {
    &&& p + header <= a
    &&& a + block_of(c) <= p + PAGE
    &&& (a - p - header) % block_of(c) == 0
}

/// A request belongs to a class.
pub open spec fn is_small(layout: Layout) -> bool {
    in_class(NCLASS as int, GRANULE as int, layout)
}

/// The class of a request.
pub open spec fn small_class(layout: Layout) -> int {
    class_for(GRANULE as int, layout)
}

pub proof fn lemma_small(layout: Layout)
    requires
        layout.size() >= 1,
        is_small(layout),
    ensures
        0 <= small_class(layout) < NCLASS,
        layout.size() <= block_of(small_class(layout)) <= 1024,
{
}

/// A block lies in its page.
pub proof fn lemma_slot_page(p: int, header: int, c: int, a: int)
    requires
        p % PAGE as int == 0,
        header >= 0,
        0 <= c < NCLASS,
        is_slot(p, header, c, a),
    ensures
        page_base(a) == p,
{
    assert(p <= a < p + PAGE);
}

/// Blocks of one class in one page do not overlap.
pub proof fn lemma_slots_apart(p: int, header: int, c: int, a: int, b: int)
    requires
        0 <= c < NCLASS,
        is_slot(p, header, c, a),
        is_slot(p, header, c, b),
        a < b,
    ensures
        a + block_of(c) <= b,
{
    let n: int = block_of(c);
    let x: int = a - p - header;
    let y: int = b - p - header;
    vstd::arithmetic::div_mod::lemma_fundamental_div_mod(x, n);
    vstd::arithmetic::div_mod::lemma_fundamental_div_mod(y, n);
    let i: int = x / n;
    let j: int = y / n;
    assert(i < j) by (nonlinear_arith)
        requires
            n > 0,
            x == n * i,
            y == n * j,
            x < y,
    ;
    assert(n * i + n <= n * j) by (nonlinear_arith)
        requires
            n > 0,
            i < j,
    ;
}

/// Every block of a class is aligned to the granule if the header is.
pub proof fn lemma_slot_aligned(p: int, header: int, c: int, a: int)
    requires
        p % PAGE as int == 0,
        header % 16 == 0,
        0 <= c < NCLASS,
        is_slot(p, header, c, a),
    ensures
        a % 16 == 0,
{
    let n: int = block_of(c);
    let x: int = a - p - header;
    vstd::arithmetic::div_mod::lemma_fundamental_div_mod(x, n);
    let i: int = x / n;
    assert(x == ((c + 1) * i) * 16) by (nonlinear_arith)
        requires
            x == n * i,
            n == (c + 1) * 16,
    ;
}

/// The next block after the blocks up to `cur`.
pub proof fn lemma_next_slot(p: int, header: int, c: int, cur: int)
    requires
        0 <= c < NCLASS,
        header >= 0,
        p + header <= cur,
        (cur - p - header) % block_of(c) == 0,
        cur + block_of(c) <= p + PAGE,
    ensures
        is_slot(p, header, c, cur),
        (cur + block_of(c) - p - header) % block_of(c) == 0,
{
    vstd::arithmetic::div_mod::lemma_mod_add_multiples_vanish(cur - p - header, block_of(c));
}

/// Pages are apart.
pub proof fn lemma_pages_apart(p: int, q: int)
    requires
        p % PAGE as int == 0,
        q % PAGE as int == 0,
        p < q,
    ensures
        p + PAGE <= q,
{
}

/// A request gets a block that is aligned for it.
pub proof fn lemma_slot_serves(layout: Layout, a: int)
    requires
        layout.wf(),
        is_small(layout),
        a % 16 == 0,
    ensures
        a % layout.align() as int == 0,
{
    assert(vstd::arithmetic::power2::is_pow2(16)) by {
        reveal_with_fuel(vstd::arithmetic::power2::is_pow2, 8);
    }
    crate::arith::lemma_pow2_positive(layout.align() as int);
    crate::arith::lemma_pow2_divides(layout.align() as int, 16);
    crate::arith::lemma_divides_trans(a, 16, layout.align() as int);
}

/// The layout of a page.
pub proof fn lemma_page_layout()
    ensures
        crate::layout::valid_layout(PAGE as int, PAGE as int),
{
    assert(vstd::arithmetic::power2::is_pow2(65536)) by {
        reveal_with_fuel(vstd::arithmetic::power2::is_pow2, 20);
    }
}

} // verus!
