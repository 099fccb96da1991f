//! Size classes ("bins") and the page geometry that follows from them.
//!
//! Pure arithmetic, no memory access, no state. This module decides how a [`Layout`] maps to a
//! block size, a page kind, and the offset of the first block inside a page. `alloc`, `dealloc`
//! and `realloc` all recompute the same classification from the layout they are given, so a page
//! header is found by rounding an address down and no page map is ever consulted.
//!
//! Exact classes every 8 bytes up to 64 bytes, then four classes per doubling. The laws at the
//! end of the module hold for all sizes `s` in `1..=LARGE_MAX_OBJ_SIZE`:
//!
//! - `bin(s)` is in `1..=MAX_BIN` and is monotone in `s`;
//! - `bin_size(bin(s)) >= s`, and `bin(bin_size(b)) == b`;
//! - internal waste is bounded: `bin_size(bin(s)) <= s + max(7, s / 4)`;
//! - `bin_size(bin(s))` is a multiple of every power of two that divides `s`, so a request
//!   whose alignment divides its size lands on an aligned block with no over-allocation.
use vstd::arithmetic::power2::is_pow2;
use vstd::prelude::*;

use crate::arith::{
    div_ceil, lemma_divides_trans, lemma_pow2_divides, lemma_pow2_positive, lemma_round_up,
    lemma_sum_of_multiples, round_up, round_up_pow2,
};
use crate::layout::Layout;

verus! {

/// Bytes per "word" for bin spacing, the same on every target.
pub const WORD: usize = 8;

/// Smallest block. Also the alignment every block has regardless of its class.
pub const MIN_BLOCK_SIZE: usize = 8;

/// One wasm page: the unit of `memory.grow` and of the slice bitmap.
pub const SLICE_SIZE: usize = 65536;

/// Page sizes per kind. Every page is aligned to its own size, so rounding an address inside
/// it down to a multiple of the size finds its header.
pub const SMALL_PAGE_SIZE: usize = 65536;

/// See [`SMALL_PAGE_SIZE`].
pub const MEDIUM_PAGE_SIZE: usize = 262144;

/// See [`SMALL_PAGE_SIZE`].
pub const LARGE_PAGE_SIZE: usize = 4194304;

/// Largest block served from each page kind. Each is exactly a bin size, chosen so a page holds
/// at least six blocks.
pub const SMALL_MAX_OBJ_SIZE: usize = 10240;

/// See [`SMALL_MAX_OBJ_SIZE`].
pub const MEDIUM_MAX_OBJ_SIZE: usize = 40960;

/// See [`SMALL_MAX_OBJ_SIZE`]. The largest size that has a bin.
pub const LARGE_MAX_OBJ_SIZE: usize = 524288;

/// Largest block the heap serves from a page. Anything larger is a header-less run of slices.
pub const MAX_BINNED_OBJ_SIZE: usize = 40960;

/// Largest alignment satisfied inside a page. Requests above this get their own run of slices,
/// which are 64 KiB-aligned (or aligned to the request when it is larger still).
pub const MAX_NATURAL_ALIGN: usize = 4096;

/// Bytes reserved at the start of a page for its header. `block_start` never returns less.
pub const PAGE_HEADER_RESERVE: usize = 32;

/// Largest size served by the direct table.
pub const DIRECT_MAX_SIZE: usize = 1024;

/// Entries in the direct table: one per multiple of `WORD` up to `DIRECT_MAX_SIZE`, plus zero.
pub const DIRECT_ENTRIES: usize = 129;

/// Highest valid bin. Bin 0 is never produced by [`bin`].
pub const MAX_BIN: u8 = 60;

/// Number of bins including the unused bin 0.
pub const BIN_COUNT: usize = 61;

/// Returned by [`bin`] for sizes above [`LARGE_MAX_OBJ_SIZE`]. Not a valid bin.
pub const BIN_HUGE: u8 = 61;

/// Largest bin of each page kind.
pub const SMALL_MAX_BIN: u8 = 37;

/// See [`SMALL_MAX_BIN`].
pub const MEDIUM_MAX_BIN: u8 = 45;

/// See [`SMALL_MAX_BIN`].
pub const LARGE_MAX_BIN: u8 = 60;

/// Largest bin the heap serves from a page.
pub const MAX_BINNED_BIN: u8 = 45;

/// Which kind of page a bin's blocks live in.
#[derive(Clone, Copy, Debug, PartialEq, Eq, Structural)]
pub enum PageKind {
    /// 64 KiB page, blocks up to [`SMALL_MAX_OBJ_SIZE`].
    Small,
    /// 256 KiB page, blocks up to [`MEDIUM_MAX_OBJ_SIZE`].
    Medium,
    /// 4 MiB page, blocks up to [`LARGE_MAX_OBJ_SIZE`].
    Large,
}

/// How a request is served.
#[derive(Clone, Copy, Debug, PartialEq, Eq, Structural)]
pub enum Class {
    /// From a page of the given bin; the block size is `bin_size(bin)`.
    Bin(u8),
    /// From a header-less run of whole slices.
    Huge,
}

/// Block size of bin `b`: eight exact classes, then each class doubles the one four below it.
pub open spec fn bin_bytes(b: int) -> int
    decreases b,
{
    if b <= 8 {
        8 * b
    } else {
        2 * bin_bytes(b - 4)
    }
}

/// The least bin from `b` on whose blocks hold `size` bytes, or `BIN_HUGE`.
pub open spec fn least_bin(size: int, b: int) -> int
    decreases 61 - b,
{
    if b > 60 || size <= bin_bytes(b) {
        b
    } else {
        least_bin(size, b + 1)
    }
}

/// The bin of a size: the least bin whose blocks hold it.
pub open spec fn bin_of(size: int) -> int {
    least_bin(size, 1)
}

pub open spec fn kind_page_size(kind: PageKind) -> int {
    match kind {
        PageKind::Small => SMALL_PAGE_SIZE as int,
        PageKind::Medium => MEDIUM_PAGE_SIZE as int,
        PageKind::Large => LARGE_PAGE_SIZE as int,
    }
}

/// The smallest page kind whose blocks may be as large as those of bin `b`.
pub open spec fn bin_kind(b: int) -> PageKind {
    if bin_bytes(b) <= SMALL_MAX_OBJ_SIZE {
        PageKind::Small
    } else if bin_bytes(b) <= MEDIUM_MAX_OBJ_SIZE {
        PageKind::Medium
    } else {
        PageKind::Large
    }
}

/// The size that is binned for a request: its size, rounded up to its alignment.
pub open spec fn padded_size(size: int, align: int) -> int {
    round_up(size, align)
}

/// How requests up to `cap` bytes are served from bins.
pub open spec fn class_of(size: int, align: int, cap: int) -> Class {
    if align > MAX_NATURAL_ALIGN || padded_size(size, align) > cap {
        Class::Huge
    } else {
        Class::Bin(bin_of(padded_size(size, align)) as u8)
    }
}

/// The largest power of two dividing `n`.
pub open spec fn pow2_part(n: int) -> int
    decreases n,
{
    if n <= 0 || n % 2 != 0 {
        1
    } else {
        2 * pow2_part(n / 2)
    }
}

/// The alignment every block of a page with blocks of `block_size` bytes has.
pub open spec fn natural_align(block_size: int) -> int {
    if pow2_part(block_size) > MAX_NATURAL_ALIGN {
        MAX_NATURAL_ALIGN as int
    } else {
        pow2_part(block_size)
    }
}

/// Offset of the first block: past the header, at the natural alignment of the blocks.
pub open spec fn first_block(block_size: int) -> int {
    round_up(PAGE_HEADER_RESERVE as int, natural_align(block_size))
}

/// Number of whole blocks between the first block and the end of the page.
pub open spec fn page_blocks(kind: PageKind, block_size: int) -> int {
    (kind_page_size(kind) - first_block(block_size)) / block_size
}

/// The bin sizes, written out.
pub proof fn lemma_bin_table()
    ensures
        bin_bytes(1) == 8, bin_bytes(2) == 16, bin_bytes(3) == 24, bin_bytes(4) == 32,
        bin_bytes(5) == 40, bin_bytes(6) == 48, bin_bytes(7) == 56, bin_bytes(8) == 64,
        bin_bytes(9) == 80, bin_bytes(10) == 96, bin_bytes(11) == 112, bin_bytes(12) == 128,
        bin_bytes(13) == 160, bin_bytes(14) == 192, bin_bytes(15) == 224, bin_bytes(16) == 256,
        bin_bytes(17) == 320, bin_bytes(18) == 384, bin_bytes(19) == 448, bin_bytes(20) == 512,
        bin_bytes(21) == 640, bin_bytes(22) == 768, bin_bytes(23) == 896, bin_bytes(24) == 1024,
        bin_bytes(25) == 1280, bin_bytes(26) == 1536, bin_bytes(27) == 1792,
        bin_bytes(28) == 2048, bin_bytes(29) == 2560, bin_bytes(30) == 3072,
        bin_bytes(31) == 3584, bin_bytes(32) == 4096, bin_bytes(33) == 5120,
        bin_bytes(34) == 6144, bin_bytes(35) == 7168, bin_bytes(36) == 8192,
        bin_bytes(37) == 10240, bin_bytes(38) == 12288, bin_bytes(39) == 14336,
        bin_bytes(40) == 16384, bin_bytes(41) == 20480, bin_bytes(42) == 24576,
        bin_bytes(43) == 28672, bin_bytes(44) == 32768, bin_bytes(45) == 40960,
        bin_bytes(46) == 49152, bin_bytes(47) == 57344, bin_bytes(48) == 65536,
        bin_bytes(49) == 81920, bin_bytes(50) == 98304, bin_bytes(51) == 114688,
        bin_bytes(52) == 131072, bin_bytes(53) == 163840, bin_bytes(54) == 196608,
        bin_bytes(55) == 229376, bin_bytes(56) == 262144, bin_bytes(57) == 327680,
        bin_bytes(58) == 393216, bin_bytes(59) == 458752, bin_bytes(60) == 524288,
{
    reveal_with_fuel(bin_bytes, 15);
}

/// Bin sizes grow strictly.
pub proof fn lemma_bin_bytes_increasing(a: int, b: int)
    requires
        1 <= a < b,
    ensures
        8 <= bin_bytes(a) < bin_bytes(b),
    decreases b,
{
    reveal_with_fuel(bin_bytes, 3);
    if b > 8 {
        if a > 8 {
            lemma_bin_bytes_increasing(a - 4, b - 4);
        } else if b - 4 > 8 {
            lemma_bin_bytes_increasing(a, b - 4);
        }
    }
}

/// [`least_bin`] is the least bin that holds the size.
proof fn lemma_least_bin(size: int, b: int)
    requires
        1 <= b <= 61,
    ensures
        b <= least_bin(size, b) <= 61,
        least_bin(size, b) <= 60 ==> size <= bin_bytes(least_bin(size, b)),
        forall|c: int| b <= c < least_bin(size, b) ==> #[trigger] bin_bytes(c) < size,
    decreases 61 - b,
{
    if b > 60 || size <= bin_bytes(b) {
    } else {
        lemma_least_bin(size, b + 1);
    }
}

/// What identifies the bin of a size.
pub proof fn lemma_bin_of(size: int)
    ensures
        1 <= bin_of(size) <= 61,
        size <= LARGE_MAX_OBJ_SIZE <==> bin_of(size) <= 60,
        bin_of(size) <= 60 ==> size <= bin_bytes(bin_of(size)),
        forall|c: int| 1 <= c < bin_of(size) ==> #[trigger] bin_bytes(c) < size,
{
    lemma_least_bin(size, 1);
    lemma_bin_table();
    let b: int = bin_of(size);
    if b <= 59 {
        lemma_bin_bytes_increasing(b, 60);
    }
}

/// A bin that holds `size` while the one below it does not is its bin.
pub proof fn lemma_bin_of_unique(size: int, b: int)
    requires
        1 <= b <= 60,
        size <= bin_bytes(b),
        b > 1 ==> bin_bytes(b - 1) < size,
    ensures
        bin_of(size) == b,
{
    lemma_bin_of(size);
    let c: int = bin_of(size);
    lemma_bin_table();
    if b < 60 {
        lemma_bin_bytes_increasing(b, 60);
    }
    if b < c {
        assert(bin_bytes(b) < size);
    }
    if c < b && c < b - 1 {
        lemma_bin_bytes_increasing(c, b - 1);
    }
}

/// Bins past the eighth in closed form.
proof fn lemma_bin_bytes_form(b: int, m: int)
    requires
        2 <= b <= 16,
        0 <= m <= 3,
    ensures
        bin_bytes(4 * b + m - 3) == 8 * (5 + m) * pow2_int(b - 2),
    decreases b,
{
    reveal_with_fuel(pow2_int, 2);
    if b > 2 {
        lemma_bin_bytes_form(b - 1, m);
        assert(8 * (5 + m) * pow2_int(b - 2) == 2 * (8 * (5 + m) * pow2_int(b - 3)))
            by (nonlinear_arith)
            requires
                pow2_int(b - 2) == 2 * pow2_int(b - 3),
        ;
    } else {
        assert(8 * (5 + m) * 1 == 8 * (5 + m)) by (nonlinear_arith);
    }
}

/// `2^n`.
spec fn pow2_int(n: int) -> int
    decreases n,
{
    if n <= 0 {
        1
    } else {
        2 * pow2_int(n - 1)
    }
}

proof fn lemma_shl_pow2(x: u64, n: u64)
    requires
        n <= 14,
        x <= 8,
    ensures
        x << n == x * pow2_int(n as int),
    decreases n,
{
    if n == 0 {
        assert(x << 0u64 == x) by (bit_vector);
        assert(x * 1 == x) by (nonlinear_arith);
    } else {
        let k: u64 = (n - 1) as u64;
        lemma_shl_pow2(x, k);
        assert(n <= 14 && n > 0 && x <= 8 ==> x << n == 2 * (x << ((n - 1) as u64)))
            by (bit_vector);
        assert(x * (2 * pow2_int(n - 1)) == 2 * (x * pow2_int(n - 1))) by (nonlinear_arith);
    }
}

/// The size class of a word count above eight: its top bit and the two bits below it.
proof fn lemma_quarter(w: u64, b: u64, m: u64)
    requires
        8 <= w < 65536,
        3 <= b <= 15,
        (w >> b) & 1 == 1,
        w >> ((b + 1) as u64) == 0,
        m == (w >> ((b - 2) as u64)) & 3,
    ensures
        m <= 3,
        8 * (4 + m) * pow2_int(b - 2) <= 8 * w,
        8 * (w + 1) <= 8 * (5 + m) * pow2_int(b - 2),
{
    assert(m <= 3 && ((4 + m) as u64) << ((b - 2) as u64) <= w && w < (((5 + m) as u64) << ((b
        - 2) as u64))) by (bit_vector)
        requires
            8 <= w < 65536,
            3 <= b <= 15,
            (w >> b) & 1 == 1,
            w >> ((b + 1) as u64) == 0,
            m == (w >> ((b - 2) as u64)) & 3,
    ;
    lemma_shl_pow2((4 + m) as u64, (b - 2) as u64);
    lemma_shl_pow2((5 + m) as u64, (b - 2) as u64);
    assert(8 * (4 + m) * pow2_int(b - 2) == 8 * ((4 + m) * pow2_int(b - 2)) && 8 * (5 + m)
        * pow2_int(b - 2) == 8 * ((5 + m) * pow2_int(b - 2))) by (nonlinear_arith);
}

/// Bin for a block of `size` bytes: `1..=MAX_BIN`, or [`BIN_HUGE`] above [`LARGE_MAX_OBJ_SIZE`].
/// Size 0 maps to bin 1.
#[inline]
pub fn bin(size: usize) -> (r: u8)
    ensures
        r == bin_of(size as int),
{
    proof {
        lemma_bin_table();
    }
    if size <= 64 {
        if size <= WORD {
            proof {
                lemma_bin_of_unique(size as int, 1);
            }
            1
        } else {
            let n: usize = (size + 7) / 8;
            proof {
                lemma_bin_of_unique(size as int, n as int);
            }
            n as u8
        }
    } else if size > LARGE_MAX_OBJ_SIZE {
        proof {
            lemma_bin_of(size as int);
        }
        BIN_HUGE
    } else {
        // With w the word count less one and b the index of its top bit, the two bits below the
        // top bit pick the quarter; the -3 accounts for the eight exact bins that precede.
        let w: u64 = ((size + 7) / 8 - 1) as u64;
        let lz: u32 = w.leading_zeros();
        proof {
            vstd::std_specs::bits::axiom_u64_leading_zeros(w);
            let z: u64 = lz as u64;
            assert(48 <= z <= 60) by (bit_vector)
                requires
                    8 <= w < 65536,
                    z <= 64,
                    z < 64 ==> (w >> ((63 - z) as u64)) & 1 != 0,
                    w == 0 <==> z == 64,
                    w >> ((64 - z) as u64) == 0,
            ;
        }
        let b: u64 = 63 - lz as u64;
        let m: u64 = (w >> (b - 2)) & 3;
        proof {
            assert((w >> b) & 1 != 0 ==> (w >> b) & 1 == 1) by (bit_vector);
            lemma_quarter(w, b, m);
            lemma_bin_bytes_form(b as int, m as int);
            if m > 0 {
                lemma_bin_bytes_form(b as int, m - 1);
            } else {
                lemma_bin_bytes_form(b - 1, 3);
                reveal_with_fuel(pow2_int, 2);
                assert(8 * 8 * pow2_int(b - 3) == 8 * 4 * (2 * pow2_int(b - 3)))
                    by (nonlinear_arith);
            }
            lemma_bin_of_unique(size as int, 4 * b + m - 3);
        }
        (4 * b + m - 3) as u8
    }
}

/// Block size of a bin in bytes.
#[inline]
pub fn bin_size(bin: u8) -> (r: usize)
    requires
        1 <= bin <= MAX_BIN,
    ensures
        r == bin_bytes(bin as int),
        8 <= r <= LARGE_MAX_OBJ_SIZE,
{
    proof {
        lemma_bin_table();
        if bin < 60 {
            lemma_bin_bytes_increasing(bin as int, 60);
        }
    }
    if bin <= 8 {
        bin as usize * WORD
    } else {
        // Inverse of the formula in `bin`: bin + 3 = 4b + m, and the largest word count in the
        // bin is (5 + m) << (b - 2).
        let k: u64 = bin as u64 + 3;
        let b: u64 = k / 4;
        let m: u64 = k % 4;
        proof {
            lemma_bin_bytes_form(b as int, m as int);
            lemma_shl_pow2((5 + m) as u64, (b - 2) as u64);
            assert(8 * (5 + m) * pow2_int(b - 2) == 8 * ((5 + m) * pow2_int(b - 2)))
                by (nonlinear_arith);
        }
        let words: u64 = (5 + m) << (b - 2);
        words as usize * WORD
    }
}

impl PageKind {
    /// Page size in bytes; every page of this kind is aligned to this value.
    #[inline]
    pub fn page_size(self) -> (r: usize)
        ensures
            r == kind_page_size(self),
    {
        match self {
            PageKind::Small => SMALL_PAGE_SIZE,
            PageKind::Medium => MEDIUM_PAGE_SIZE,
            PageKind::Large => LARGE_PAGE_SIZE,
        }
    }

    /// Mask that turns any address inside a page of this kind into the page's start address.
    #[inline]
    pub fn page_mask(self) -> (r: usize)
        ensures
            forall|addr: usize| #[trigger] (addr & r) == addr - addr as int % kind_page_size(self),
    {
        let mask: usize = !(self.page_size() - 1);
        proof {
            assert forall|addr: usize| #[trigger]
                (addr & mask) == addr - addr as int % kind_page_size(self) by {
                assert((addr & !65535usize) == addr - addr % 65536) by (bit_vector);
                assert((addr & !262143usize) == addr - addr % 262144) by (bit_vector);
                assert((addr & !4194303usize) == addr - addr % 4194304) by (bit_vector);
            }
        }
        mask
    }
}

/// Page kind holding blocks of `bin`.
#[inline]
pub fn kind_of_bin(bin: u8) -> (r: PageKind)
    requires
        1 <= bin <= MAX_BIN,
    ensures
        r == bin_kind(bin as int),
{
    proof {
        lemma_bin_table();
        if bin < 37 {
            lemma_bin_bytes_increasing(bin as int, 37);
        }
        if bin > 37 {
            lemma_bin_bytes_increasing(37, bin as int);
        }
        if bin < 45 {
            lemma_bin_bytes_increasing(bin as int, 45);
        }
        if bin > 45 {
            lemma_bin_bytes_increasing(45, bin as int);
        }
    }
    if bin <= SMALL_MAX_BIN {
        PageKind::Small
    } else if bin <= MEDIUM_MAX_BIN {
        PageKind::Medium
    } else {
        PageKind::Large
    }
}

/// Index into the direct table for sizes up to [`DIRECT_MAX_SIZE`].
#[inline]
pub fn direct_index(size: usize) -> (r: usize)
    requires
        size <= DIRECT_MAX_SIZE,
    ensures
        r == div_ceil(size as int, WORD as int),
        r < DIRECT_ENTRIES,
{
    (size + 7) / WORD
}


/// The spacing of the bins around bin `b`: how much larger its blocks are than those below it.
pub open spec fn bin_step(b: int) -> int
    decreases b,
{
    if b <= 8 {
        8
    } else {
        2 * bin_step(b - 4)
    }
}

/// Every bin is one step above the one below it, and a multiple of its step.
pub proof fn lemma_bin_step(b: int)
    requires
        b >= 1,
    ensures
        is_pow2(bin_step(b)),
        bin_step(b) >= 8,
        bin_bytes(b) == bin_bytes(b - 1) + bin_step(b),
        bin_bytes(b) % bin_step(b) == 0,
        b > 8 ==> 4 * bin_step(b) <= bin_bytes(b - 1),
    decreases b,
{
    reveal_with_fuel(bin_bytes, 3);
    reveal_with_fuel(bin_step, 3);
    reveal(is_pow2);
    assert(is_pow2(8)) by {
        reveal_with_fuel(is_pow2, 4);
    }
    if b > 8 {
        lemma_bin_step(b - 4);
        let t: int = bin_step(b - 4);
        let q: int = bin_bytes(b - 4) / t;
        vstd::arithmetic::div_mod::lemma_fundamental_div_mod(bin_bytes(b - 4), t);
        assert(bin_bytes(b) == q * (2 * t)) by (nonlinear_arith)
            requires
                bin_bytes(b) == 2 * (t * q),
        ;
        vstd::arithmetic::div_mod::lemma_mod_multiples_basic(q, 2 * t);
    }
}

/// Every bin size is a multiple of the word.
pub proof fn lemma_bin_bytes_word(b: int)
    requires
        b >= 1,
    ensures
        bin_bytes(b) % 8 == 0,
        bin_bytes(b) >= 8,
    decreases b,
{
    if b > 8 {
        lemma_bin_bytes_word(b - 4);
    }
}

/// Rounding a size up to an alignment that divides the word does not change its bin.
pub proof fn lemma_small_align_keeps_bin(size: int, align: int)
    requires
        size >= 0,
        is_pow2(align),
        align <= 8,
    ensures
        bin_of(round_up(size, align)) == bin_of(size),
        round_up(size, align) <= LARGE_MAX_OBJ_SIZE <==> size <= LARGE_MAX_OBJ_SIZE,
        round_up(size, align) <= MAX_BINNED_OBJ_SIZE <==> size <= MAX_BINNED_OBJ_SIZE,
{
    assert(is_pow2(8)) by {
        reveal_with_fuel(is_pow2, 4);
    }
    lemma_pow2_positive(align);
    lemma_pow2_divides(align, 8);
    lemma_round_up(size, align);
    lemma_divides_trans(LARGE_MAX_OBJ_SIZE as int, 8, align);
    lemma_divides_trans(MAX_BINNED_OBJ_SIZE as int, 8, align);
    lemma_bin_of(size);
    lemma_bin_of(round_up(size, align));
    if size <= LARGE_MAX_OBJ_SIZE {
        let b: int = bin_of(size);
        lemma_bin_bytes_word(b);
        lemma_divides_trans(bin_bytes(b), 8, align);
        lemma_bin_of_unique(round_up(size, align), b);
    }
}

/// Classify a request by its size and alignment, with blocks of up to `cap` bytes in pages.
#[inline]
fn classify_up_to(layout: Layout, cap: usize) -> (r: Class)
    requires
        layout.wf(),
        cap == LARGE_MAX_OBJ_SIZE || cap == MAX_BINNED_OBJ_SIZE,
    ensures
        r == class_of(layout.size() as int, layout.align() as int, cap as int),
{
    let align: usize = layout.align();
    proof {
        lemma_pow2_positive(align as int);
        lemma_round_up(layout.size() as int, align as int);
    }
    if align > MAX_NATURAL_ALIGN {
        return Class::Huge;
    }
    // The size of a layout leaves room for its alignment, so rounding up cannot overflow.
    let size: usize = if align > WORD {
        round_up_pow2(layout.size(), align)
    } else {
        proof {
            lemma_small_align_keeps_bin(layout.size() as int, align as int);
        }
        layout.size()
    };
    if size > cap {
        Class::Huge
    } else {
        Class::Bin(bin(size))
    }
}

/// Classify a request by its size and alignment.
///
/// Alignments above [`MAX_NATURAL_ALIGN`] and sizes above [`LARGE_MAX_OBJ_SIZE`] become
/// [`Class::Huge`]. Otherwise the size is rounded up to a multiple of the alignment and binned,
/// which makes the block aligned (see [`law_classify_aligns_by_construction`]).
#[inline]
pub fn classify(layout: Layout) -> (r: Class)
    requires
        layout.wf(),
    ensures
        r == class_of(layout.size() as int, layout.align() as int, LARGE_MAX_OBJ_SIZE as int),
{
    classify_up_to(layout, LARGE_MAX_OBJ_SIZE)
}

/// How the heap serves a request: as [`classify`], with every block above
/// [`MAX_BINNED_OBJ_SIZE`] in a run of slices of its own. `alloc`, `dealloc` and `realloc` all
/// go through it so they agree.
#[inline]
pub fn serving_class(layout: Layout) -> (r: Class)
    requires
        layout.wf(),
    ensures
        r == class_of(layout.size() as int, layout.align() as int, MAX_BINNED_OBJ_SIZE as int),
{
    classify_up_to(layout, MAX_BINNED_OBJ_SIZE)
}

/// Block size a binned request occupies.
#[inline]
pub fn class_block_size(class: Class) -> (r: Option<usize>)
    requires
        class matches Class::Bin(b) ==> 1 <= b <= MAX_BIN,
    ensures
        class matches Class::Bin(b) ==> r == Some(bin_bytes(b as int) as usize),
        class is Huge ==> r is None,
{
    match class {
        Class::Bin(b) => Some(bin_size(b)),
        Class::Huge => None,
    }
}

/// [`pow2_part`] is a power of two, divides `n`, and every power of two dividing `n` divides it.
pub proof fn lemma_pow2_part(n: int)
    requires
        n > 0,
    ensures
        is_pow2(pow2_part(n)),
        1 <= pow2_part(n) <= n,
        n % pow2_part(n) == 0,
        forall|a: int| is_pow2(a) && #[trigger] (n % a) == 0 ==> pow2_part(n) % a == 0,
    decreases n,
{
    reveal(is_pow2);
    if n % 2 == 0 {
        lemma_pow2_part(n / 2);
        let p: int = pow2_part(n / 2);
        let q: int = (n / 2) / p;
        vstd::arithmetic::div_mod::lemma_fundamental_div_mod(n / 2, p);
        assert(n == q * (2 * p)) by (nonlinear_arith)
            requires
                n == 2 * (p * q),
        ;
        vstd::arithmetic::div_mod::lemma_mod_multiples_basic(q, 2 * p);
        assert forall|a: int| is_pow2(a) && #[trigger] (n % a) == 0 implies pow2_part(n) % a
            == 0 by {
            if a > 1 {
                let h: int = a / 2;
                let k: int = n / a;
                vstd::arithmetic::div_mod::lemma_fundamental_div_mod(n, a);
                assert(n / 2 == k * h) by (nonlinear_arith)
                    requires
                        n == a * k,
                        a == 2 * h,
                ;
                vstd::arithmetic::div_mod::lemma_mod_multiples_basic(k, h);
                assert((n / 2) % h == 0);
                let j: int = p / h;
                vstd::arithmetic::div_mod::lemma_fundamental_div_mod(p, h);
                assert(2 * p == j * a) by (nonlinear_arith)
                    requires
                        p == h * j,
                        a == 2 * h,
                ;
                vstd::arithmetic::div_mod::lemma_mod_multiples_basic(j, a);
            }
        }
    } else {
        assert forall|a: int| is_pow2(a) && #[trigger] (n % a) == 0 implies pow2_part(n) % a
            == 0 by {
            if a > 1 {
                lemma_divides_trans(n, a, 2);
            }
        }
    }
}

/// What [`natural_align`] promises.
pub proof fn lemma_natural_align(block_size: int)
    requires
        block_size > 0,
    ensures
        is_pow2(natural_align(block_size)),
        1 <= natural_align(block_size) <= MAX_NATURAL_ALIGN,
        block_size % natural_align(block_size) == 0,
        forall|a: int|
            is_pow2(a) && a <= MAX_NATURAL_ALIGN && #[trigger] (block_size % a) == 0
                ==> natural_align(block_size) % a == 0,
{
    lemma_pow2_part(block_size);
    assert(is_pow2(4096)) by {
        reveal_with_fuel(is_pow2, 13);
    }
    let p: int = pow2_part(block_size);
    if p > 4096 {
        lemma_pow2_divides(4096, p);
        lemma_divides_trans(block_size, p, 4096);
    }
    assert forall|a: int|
        is_pow2(a) && a <= MAX_NATURAL_ALIGN && #[trigger] (block_size % a) == 0 implies
        natural_align(block_size) % a == 0 by {
        lemma_pow2_positive(a);
        if p > 4096 {
            lemma_pow2_divides(a, 4096);
        }
    }
}

/// Where the first block of a page starts.
pub proof fn lemma_first_block(block_size: int)
    requires
        block_size > 0,
        block_size % 8 == 0,
    ensures
        PAGE_HEADER_RESERVE <= first_block(block_size) <= MAX_NATURAL_ALIGN,
        first_block(block_size) % natural_align(block_size) == 0,
        first_block(block_size) % 8 == 0,
        forall|a: int|
            is_pow2(a) && a <= MAX_NATURAL_ALIGN && #[trigger] (block_size % a) == 0
                ==> first_block(block_size) % a == 0,
{
    lemma_natural_align(block_size);
    let n: int = natural_align(block_size);
    lemma_round_up(PAGE_HEADER_RESERVE as int, n);
    assert(is_pow2(4096) && is_pow2(8)) by {
        reveal_with_fuel(is_pow2, 13);
    }
    lemma_pow2_divides(n, 4096);
    assert(4096int % n == 0);
    assert forall|a: int|
        is_pow2(a) && a <= MAX_NATURAL_ALIGN && #[trigger] (block_size % a) == 0 implies
        first_block(block_size) % a == 0 by {
        lemma_pow2_positive(a);
        lemma_divides_trans(first_block(block_size), n, a);
    }
    assert(block_size % 8 == 0);
}

/// Offset of the first block in a page whose blocks are `block_size` bytes.
///
/// The header occupies the first [`PAGE_HEADER_RESERVE`] bytes; the first block starts at the
/// next multiple of the largest power of two dividing `block_size`, capped at
/// [`MAX_NATURAL_ALIGN`].
pub fn block_start(block_size: usize) -> (r: usize)
    requires
        block_size >= MIN_BLOCK_SIZE,
        block_size % WORD == 0,
    ensures
        r == first_block(block_size as int),
        PAGE_HEADER_RESERVE <= r <= MAX_NATURAL_ALIGN,
{
    let mut align: usize = 1;
    let mut rest: usize = block_size;
    proof {
        reveal(is_pow2);
        assert(1 * pow2_part(block_size as int) == pow2_part(block_size as int))
            by (nonlinear_arith);
    }
    while align < MAX_NATURAL_ALIGN && rest % 2 == 0
        invariant
            rest > 0,
            is_pow2(align as int),
            1 <= align <= MAX_NATURAL_ALIGN,
            align * pow2_part(rest as int) == pow2_part(block_size as int),
        decreases rest,
    {
        proof {
            assert(is_pow2(4096)) by {
                reveal_with_fuel(is_pow2, 13);
            }
            lemma_pow2_divides(align as int, 4096);
            lemma_pow2_strict(align as int, 4096);
            reveal(is_pow2);
            let half: int = pow2_part(rest as int / 2);
            assert(align * (2 * half) == (2 * align) * half) by (nonlinear_arith);
        }
        align = align * 2;
        rest = rest / 2;
    }
    proof {
        lemma_pow2_part(rest as int);
        if rest % 2 != 0 {
            assert(align * 1 == align) by (nonlinear_arith);
        } else {
            assert(align * pow2_part(rest as int) > 4096) by (nonlinear_arith)
                requires
                    align == 4096,
                    pow2_part(rest as int) >= 2,
            ;
        }
        lemma_natural_align(block_size as int);
        lemma_first_block(block_size as int);
    }
    round_up_pow2(PAGE_HEADER_RESERVE, align)
}

/// A smaller power of two is at most half the larger.
proof fn lemma_pow2_strict(a: int, b: int)
    requires
        is_pow2(a),
        is_pow2(b),
        a < b,
    ensures
        2 * a <= b,
{
    lemma_pow2_positive(a);
    lemma_pow2_divides(a, b);
    vstd::arithmetic::div_mod::lemma_fundamental_div_mod(b, a);
    let q: int = b / a;
    assert(q >= 2) by (nonlinear_arith)
        requires
            b == a * q,
            a < b,
            a >= 1,
    ;
    assert(2 * a <= b) by (nonlinear_arith)
        requires
            b == a * q,
            q >= 2,
            a >= 1,
    ;
}

/// Number of blocks a fresh page of `kind` holds for `block_size`.
pub fn blocks_per_page(kind: PageKind, block_size: usize) -> (r: usize)
    requires
        block_size >= MIN_BLOCK_SIZE,
        block_size % WORD == 0,
    ensures
        r == page_blocks(kind, block_size as int),
{
    (kind.page_size() - block_start(block_size)) / block_size
}

/// Every size up to the cap has a bin that holds it, wastes little of it, and keeps the
/// alignment that divides it.
pub proof fn law_bin_covers_and_bounds_waste(s: int)
    requires
        1 <= s <= LARGE_MAX_OBJ_SIZE,
    ensures
        1 <= bin_of(s) <= MAX_BIN,
        s <= bin_bytes(bin_of(s)) <= s + if s <= 64 {
            7
        } else {
            s / 4
        },
        forall|a: int| is_pow2(a) && #[trigger] (s % a) == 0 ==> bin_bytes(bin_of(s)) % a == 0,
{
    lemma_bin_of(s);
    lemma_bin_table();
    let b: int = bin_of(s);
    lemma_bin_step(b);
    if b > 1 {
        assert(bin_bytes(b - 1) < s);
    }
    if s <= 64 {
        if b > 8 {
            assert(bin_bytes(8) < s);
        }
    }
    let g: int = bin_step(b);
    assert forall|a: int| is_pow2(a) && #[trigger] (s % a) == 0 implies bin_bytes(b) % a == 0 by {
        lemma_pow2_positive(a);
        if a <= g {
            lemma_pow2_divides(a, g);
            lemma_divides_trans(bin_bytes(b), g, a);
        } else {
            lemma_pow2_divides(g, a);
            lemma_divides_trans(s, a, g);
            lemma_sum_of_multiples(bin_bytes(b), s, g);
            vstd::arithmetic::div_mod::lemma_small_mod((bin_bytes(b) - s) as nat, g as nat);
        }
    }
}

/// A bin's own size falls into the bin, and the next size into the next bin.
pub proof fn law_bins_are_tight(b: int)
    requires
        1 <= b <= MAX_BIN,
    ensures
        bin_of(bin_bytes(b)) == b,
        b < MAX_BIN ==> bin_of(bin_bytes(b) + 1) == b + 1,
{
    if b > 1 {
        lemma_bin_bytes_increasing(b - 1, b);
    }
    lemma_bin_of_unique(bin_bytes(b), b);
    if b < MAX_BIN {
        lemma_bin_bytes_increasing(b, b + 1);
        lemma_bin_of_unique(bin_bytes(b) + 1, b + 1);
    }
}

/// A larger size never falls into a smaller bin.
pub proof fn law_bin_is_monotone(s: int, t: int)
    requires
        s <= t,
    ensures
        bin_of(s) <= bin_of(t),
{
    lemma_bin_of(s);
    lemma_bin_of(t);
    if bin_of(t) < bin_of(s) {
        assert(bin_bytes(bin_of(t)) < s);
    }
}

/// A binned request gets blocks that hold it and are aligned for it: the block size and the
/// offset of the first block are multiples of the alignment, and a page holds a block.
pub proof fn law_classify_aligns_by_construction(size: int, align: int, cap: int)
    requires
        size >= 1,
        is_pow2(align),
        cap <= LARGE_MAX_OBJ_SIZE,
        class_of(size, align, cap) is Bin,
    ensures
        ({
            let b = class_of(size, align, cap)->0 as int;
            &&& b == bin_of(padded_size(size, align))
            &&& 1 <= b <= MAX_BIN
            &&& bin_bytes(b) >= size
            &&& bin_bytes(b) % align == 0
            &&& first_block(bin_bytes(b)) % align == 0
            &&& first_block(bin_bytes(b)) + bin_bytes(b) <= kind_page_size(bin_kind(b))
        }),
{
    lemma_pow2_positive(align);
    lemma_round_up(size, align);
    let s: int = padded_size(size, align);
    let b: int = bin_of(s);
    lemma_bin_of(s);
    lemma_bin_bytes_word(b);
    law_bin_covers_and_bounds_waste(s);
    lemma_first_block(bin_bytes(b));
    law_page_geometry(b);
}

/// A page of any bin holds at least six blocks, few enough for a 16-bit count, and they end
/// inside it.
pub proof fn law_page_geometry(b: int)
    requires
        1 <= b <= MAX_BIN,
    ensures
        6 <= page_blocks(bin_kind(b), bin_bytes(b)) <= 8188,
        first_block(bin_bytes(b)) + page_blocks(bin_kind(b), bin_bytes(b)) * bin_bytes(b)
            <= kind_page_size(bin_kind(b)),
        first_block(bin_bytes(b)) + bin_bytes(b) <= kind_page_size(bin_kind(b)),
{
    lemma_bin_table();
    lemma_bin_bytes_word(b);
    if b < 60 {
        lemma_bin_bytes_increasing(b, 60);
    }
    let bytes: int = bin_bytes(b);
    lemma_first_block(bytes);
    let room: int = kind_page_size(bin_kind(b)) - first_block(bytes);
    let n: int = page_blocks(bin_kind(b), bytes);
    vstd::arithmetic::div_mod::lemma_fundamental_div_mod(room, bytes);
    assert(6 <= n <= 8188 && n * bytes <= room) by (nonlinear_arith)
        requires
            room == bytes * n + room % bytes,
            0 <= room % bytes < bytes,
            6 * bytes <= room,
            room < 8189 * bytes,
            bytes > 0,
    ;
}

/// Sizes that share a slot of the direct table share a bin.
pub proof fn law_direct_slot_shares_a_bin(size: int)
    requires
        0 <= size <= DIRECT_MAX_SIZE,
    ensures
        bin_of(size) == bin_of(8 * div_ceil(size, 8)),
        bin_of(size) <= 24,
{
    assert(is_pow2(8)) by {
        reveal_with_fuel(is_pow2, 4);
    }
    lemma_small_align_keeps_bin(size, 8);
    lemma_bin_table();
    law_bin_is_monotone(size, 1024);
    law_bins_are_tight(24);
}

/// Blocks of up to 10 KiB come from pages of 64 KiB, larger ones of up to 40 KiB from pages of 256
/// KiB, and the largest from pages of 4 MiB.
pub proof fn law_pages_are_sized_for_their_blocks(b: int)
    requires
        1 <= b <= MAX_BIN,
    ensures
        kind_page_size(bin_kind(b)) == if bin_bytes(b) <= 10240 {
            65536int
        } else if bin_bytes(b) <= 40960 {
            262144
        } else {
            4194304
        },
{
}

/// The first block is at the first place after the 32 bytes of the header that is a multiple of
/// every power of two up to 4 KiB that divides the block size, and no further block would fit at the
/// end of the page.
pub proof fn law_pages_waste_no_room(b: int, a: int, x: int)
    requires
        1 <= b <= MAX_BIN,
        is_pow2(a),
        a <= 4096,
    ensures
        first_block(bin_bytes(b)) >= 32,
        bin_bytes(b) % a == 0 ==> first_block(bin_bytes(b)) % a == 0,
        bin_bytes(b) % a == 0 && (a == 4096 || bin_bytes(b) % (2 * a) != 0) && 32 <= x && x % a == 0
            ==> first_block(bin_bytes(b)) <= x,
        first_block(bin_bytes(b)) + (page_blocks(bin_kind(b), bin_bytes(b)) + 1) * bin_bytes(b)
            > kind_page_size(bin_kind(b)),
{
    let bytes: int = bin_bytes(b);
    lemma_bin_bytes_word(b);
    lemma_first_block(bytes);
    lemma_natural_align(bytes);
    lemma_pow2_positive(a);
    let n: int = natural_align(bytes);
    if bytes % a == 0 && (a == 4096 || bytes % (2 * a) != 0) {
        assert(n % a == 0);
        assert(n == a) by {
            if n > a {
                // A larger power of two that divides the size is a multiple of twice this one.
                assert(is_pow2(2 * a)) by {
                    reveal_with_fuel(is_pow2, 2);
                }
                lemma_pow2_larger(a, n);
                lemma_pow2_divides(2 * a, n);
                lemma_divides_trans(bytes, n, 2 * a);
            } else if n < a {
                vstd::arithmetic::div_mod::lemma_small_mod(n as nat, a as nat);
            }
        }
        if 32 <= x && x % a == 0 {
            lemma_round_up(32, a);
            let r: int = round_up(32, a);
            if x < r {
                vstd::arithmetic::div_mod::lemma_fundamental_div_mod(x, a);
                vstd::arithmetic::div_mod::lemma_fundamental_div_mod(r, a);
                assert(false) by (nonlinear_arith)
                    requires
                        x == a * (x / a),
                        r == a * (r / a),
                        32 <= x < r,
                        r < 32 + a,
                        a > 0,
                ;
            }
        }
    }
    let room: int = kind_page_size(bin_kind(b)) - first_block(bytes);
    let k: int = page_blocks(bin_kind(b), bytes);
    vstd::arithmetic::div_mod::lemma_fundamental_div_mod(room, bytes);
    vstd::arithmetic::div_mod::lemma_mod_bound(room, bytes);
    assert((k + 1) * bytes > room) by (nonlinear_arith)
        requires
            room == bytes * k + room % bytes,
            room % bytes < bytes,
    ;
}

/// A larger power of two is at least twice as large.
proof fn lemma_pow2_larger(a: int, n: int)
    requires
        is_pow2(a),
        is_pow2(n),
        a < n,
    ensures
        2 * a <= n,
    decreases n,
{
    lemma_pow2_positive(a);
    lemma_pow2_positive(n);
    reveal_with_fuel(is_pow2, 2);
    if a > 1 {
        lemma_pow2_larger(a / 2, n / 2);
    }
}

} // verus!
