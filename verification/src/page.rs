//! The in-band page header and the block free list it owns.
//!
//! A *page* is a naturally aligned run of slices (see [`PageKind`]) carved into equal blocks.
//! The header occupies the first [`PAGE_HEADER_RESERVE`] bytes, blocks start at `block_start`,
//! and because a page is aligned to its own size, [`header_of`] finds the header from any block
//! address by rounding it down.
//!
//! Free blocks form an intrusive LIFO list threaded through their first word. Blocks are made
//! available lazily: a fresh page has an empty free list, and [`extend`] links the next few
//! never-used blocks onto it only when the list runs dry, so blocks that are never needed are
//! never written.
//!
//! # Page invariants
//!
//! [`page_wf`] states, of a page at address `p` whose header was written by [`init`] and modified
//! only through this module:
//!
//! 1. `p` is not zero, is a multiple of its page size, and the end of the page does not overflow.
//! 2. Geometry: block size, first block, block count and kind are those of the header's bin.
//! 3. `used <= capacity <= reserved`.
//! 4. The free list visits exactly `capacity - used` distinct blocks, all with index below
//!    `capacity`, and ends at 0. Every other block with index below `capacity` is *live*: handed
//!    out by [`pop`] and not yet returned by [`push`]. Blocks at or above `capacity` have not
//!    been touched since [`init`].
//! 5. If `free_is_zero`, every block on the free list is zero except its first word and every
//!    block at or above `capacity` is entirely zero.
use vstd::prelude::*;

use crate::backend::{in_order, slice_of, Memory};
use crate::bins::{
    bin_bytes, bin_kind, bin_size, block_start, blocks_per_page, first_block, kind_of_bin,
    kind_page_size, law_page_geometry, lemma_bin_bytes_increasing, lemma_bin_bytes_word,
    lemma_bin_table, lemma_first_block, page_blocks, PageKind, MAX_BIN, SLICE_SIZE,
};

verus! {

/// Upper bound on the bytes worth of blocks one [`extend`] call links.
pub const MAX_EXTEND_SIZE: usize = 8192;

/// `flags` bit: the heap has moved this page to its full queue.
pub const FLAG_IN_FULL_QUEUE: u8 = 1;

const KIND_SMALL: u8 = 0;

const KIND_MEDIUM: u8 = 1;

const KIND_LARGE: u8 = 2;

/// The header at the start of every page.
///
/// In memory a header is four words: the free list head, the two queue links, and the counters,
/// bin and flags packed into one; the remaining fields follow from the bin.
#[derive(Clone, Copy, Debug, PartialEq, Eq, Structural)]
pub struct Page {
    /// Address of the first free block, 0 when the list is empty. Each free block stores the
    /// address of the next one in its first word.
    pub free: usize,
    /// Blocks handed out and not yet freed.
    pub used: u32,
    /// Blocks whose free-list links have been initialised.
    pub capacity: u32,
    /// Blocks the page holds in total.
    pub reserved: u32,
    /// Block size in bytes.
    pub block_size: u32,
    /// Offset of block 0 from the page start.
    pub block_start: u16,
    /// Every free-list block is zero except its first word and every block at or above
    /// `capacity` is entirely zero.
    pub free_is_zero: bool,
    /// The bin whose blocks this page serves.
    pub bin: u8,
    /// [`PageKind`] byte, see [`kind_to_u8`].
    pub kind: u8,
    /// Heap-owned flag bits, see [`FLAG_IN_FULL_QUEUE`].
    pub flags: u8,
    /// Heap-owned retirement countdown.
    pub retire_expire: u8,
    /// Heap-owned queue link: the next page's address, 0 for none.
    pub next: usize,
    /// Heap-owned queue link: the previous page's address, 0 for none.
    pub prev: usize,
}

/// Bytes a header takes in memory.
pub const HEADER_BYTES: usize = 32;

/// The byte stored for a page kind.
pub open spec fn kind_byte(kind: PageKind) -> u8 {
    match kind {
        PageKind::Small => 0,
        PageKind::Medium => 1,
        PageKind::Large => 2,
    }
}

pub open spec fn bin_in_range(bin: u8) -> bool {
    1 <= bin <= MAX_BIN
}

/// What follows from the bin of a page; all zero for a byte that is not a bin.
#[derive(Clone, Copy, Debug, PartialEq, Eq, Structural)]
struct Geometry {
    reserved: u32,
    block_size: u32,
    block_start: u16,
    kind: u8,
}

#[verifier::opaque]
spec fn geometry_of(bin: u8) -> Geometry {
    if bin_in_range(bin) {
        Geometry {
            reserved: page_blocks(bin_kind(bin as int), bin_bytes(bin as int)) as u32,
            block_size: bin_bytes(bin as int) as u32,
            block_start: first_block(bin_bytes(bin as int)) as u16,
            kind: kind_byte(bin_kind(bin as int)),
        }
    } else {
        Geometry { reserved: 0, block_size: 0, block_start: 0, kind: 0 }
    }
}

fn geometry(bin: u8) -> (r: Geometry)
    ensures
        r == geometry_of(bin),
{
    proof {
        reveal(geometry_of);
    }
    if 1 <= bin && bin <= MAX_BIN {
        let kind = kind_of_bin(bin);
        let size: usize = bin_size(bin);
        proof {
            lemma_bin_bytes_word(bin as int);
            law_page_geometry(bin as int);
        }
        Geometry {
            reserved: blocks_per_page(kind, size) as u32,
            block_size: size as u32,
            block_start: block_start(size) as u16,
            kind: kind_to_u8(kind),
        }
    } else {
        Geometry { reserved: 0, block_size: 0, block_start: 0, kind: 0 }
    }
}

/// The geometry fields of a header in order are those of its bin.
proof fn lemma_geometry(h: Page)
    requires
        header_ok(h),
    ensures
        geometry_of(h.bin) == (Geometry {
            reserved: h.reserved,
            block_size: h.block_size,
            block_start: h.block_start,
            kind: h.kind,
        }),
        h.reserved <= 8188,
{
    reveal(geometry_of);
    law_page_geometry(h.bin as int);
}

/// The header in memory at `p`.
#[verifier::opaque]
pub closed spec fn header(w: Map<int, u64>, p: int) -> Page {
    let meta = w[p + 24];
    let bin = (meta >> 32) as u8;
    Page {
        free: w[p] as usize,
        used: (meta & 0xffff) as u32,
        capacity: ((meta >> 16) & 0xffff) as u32,
        reserved: geometry_of(bin).reserved,
        block_size: geometry_of(bin).block_size,
        block_start: geometry_of(bin).block_start,
        free_is_zero: (meta >> 56) & 1 == 1,
        bin,
        kind: geometry_of(bin).kind,
        flags: (meta >> 40) as u8,
        retire_expire: (meta >> 48) as u8,
        next: w[p + 8] as usize,
        prev: w[p + 16] as usize,
    }
}

/// The geometry fields are those of the bin and the counters are in order.
pub open spec fn header_ok(h: Page) -> bool {
    &&& bin_in_range(h.bin)
    &&& h.kind == kind_byte(bin_kind(h.bin as int))
    &&& h.block_size == bin_bytes(h.bin as int)
    &&& h.block_start == first_block(bin_bytes(h.bin as int))
    &&& h.reserved == page_blocks(bin_kind(h.bin as int), bin_bytes(h.bin as int))
    &&& h.used <= h.capacity <= h.reserved
}

/// Size of the page a header describes.
pub open spec fn page_bytes(h: Page) -> int {
    kind_page_size(bin_kind(h.bin as int))
}

/// A page of the header's kind can be at `p`.
pub open spec fn page_addr_ok(p: int, h: Page) -> bool {
    &&& 0 < p
    &&& p % page_bytes(h) == 0
    &&& p + page_bytes(h) <= usize::MAX
}

/// Address of block `i`.
pub open spec fn block_addr(p: int, h: Page, i: int) -> int {
    p + h.block_start + i * h.block_size
}

/// `a` is the address of one of the first `n` blocks.
pub open spec fn is_block(p: int, h: Page, n: int, a: int) -> bool {
    exists|i: int| 0 <= i < n && a == #[trigger] block_addr(p, h, i)
}

/// The list of addresses that starts at `head` and follows the links stored at them until 0.
pub open spec fn chain(w: Map<int, u64>, head: int, l: Seq<int>) -> bool {
    &&& l.len() == 0 ==> head == 0
    &&& l.len() > 0 ==> head == l[0]
    &&& forall|i: int| 0 <= i < l.len() ==> #[trigger] l[i] > 0
    &&& forall|i: int| 0 <= i < l.len() ==> #[trigger] w[l[i]] == link(l, i)
}

/// What the `i`th node of a list holds: the address of the next one, or 0.
pub open spec fn link(l: Seq<int>, i: int) -> int {
    if i + 1 < l.len() {
        l[i + 1]
    } else {
        0
    }
}

/// `l` is the free list of the page at `p`.
pub open spec fn is_free_list(w: Map<int, u64>, p: int, h: Page, l: Seq<int>) -> bool {
    &&& chain(w, h.free as int, l)
    &&& l.no_duplicates()
    &&& l.len() == h.capacity - h.used
    &&& forall|i: int| 0 <= i < l.len() ==> #[trigger] is_block(p, h, h.capacity as int, l[i])
}

/// Every word of the block at `a` from offset `from` on is zero.
pub open spec fn block_zero(w: Map<int, u64>, h: Page, a: int, from: int) -> bool {
    forall|x: int|
        a + from <= x < a + h.block_size && x % 8 == 0 ==> #[trigger] w[x] == 0
}

/// What `free_is_zero` says.
pub open spec fn zero_ok(w: Map<int, u64>, p: int, h: Page, l: Seq<int>) -> bool {
    h.free_is_zero ==> {
        &&& forall|i: int| 0 <= i < l.len() ==> block_zero(w, h, #[trigger] l[i], 8)
        &&& forall|i: int|
            h.capacity <= i < h.reserved ==> block_zero(w, h, #[trigger] block_addr(p, h, i), 0)
    }
}

/// The page invariants of the page at `p`, with free list `l`.
pub open spec fn page_inv(w: Map<int, u64>, p: int, l: Seq<int>) -> bool {
    let h = header(w, p);
    &&& header_ok(h)
    &&& page_addr_ok(p, h)
    &&& is_free_list(w, p, h, l)
    &&& zero_ok(w, p, h, l)
}

/// The page invariants of the page at `p`.
pub open spec fn page_wf(w: Map<int, u64>, p: int) -> bool {
    exists|l: Seq<int>| page_inv(w, p, l)
}

/// The free list of the page at `p`.
pub open spec fn free_list(w: Map<int, u64>, p: int) -> Seq<int> {
    choose|l: Seq<int>| page_inv(w, p, l)
}

/// Block `a` of the page at `p` is handed out.
pub open spec fn is_live(w: Map<int, u64>, p: int, a: int) -> bool {
    &&& is_block(p, header(w, p), header(w, p).capacity as int, a)
    &&& !free_list(w, p).contains(a)
}

/// The slices of `[p, p + bytes)` belong to the allocator.
pub open spec fn owns_bytes<M: Memory>(mem: &M, p: int, bytes: int) -> bool {
    forall|s: int| slice_of(p) <= s < slice_of(p + bytes) ==> #[trigger] mem.owns(s)
}

/// Two lists that follow the same links from the same head are the same.
proof fn lemma_chain_unique(w: Map<int, u64>, head: int, l: Seq<int>, k: Seq<int>)
    requires
        chain(w, head, l),
        chain(w, head, k),
    ensures
        l == k,
    decreases l.len(),
{
    if l.len() == 0 {
        if k.len() > 0 {
            assert(k[0] > 0);
        }
        assert(l =~= k);
    } else {
        assert(l[0] > 0);
        assert(k.len() > 0);
        let lt = l.drop_first();
        let kt = k.drop_first();
        let next: int = w[l[0]] as int;
        assert(w[l[0]] == link(l, 0));
        assert(w[k[0]] == link(k, 0));
        assert forall|i: int| 0 <= i < lt.len() implies #[trigger] w[lt[i]] == link(lt, i) by {
            assert(w[l[i + 1]] == link(l, i + 1));
        }
        assert forall|i: int| 0 <= i < kt.len() implies #[trigger] w[kt[i]] == link(kt, i) by {
            assert(w[k[i + 1]] == link(k, i + 1));
        }
        lemma_chain_unique(w, next, lt, kt);
        assert(l =~= seq![l[0]] + lt);
        assert(k =~= seq![k[0]] + kt);
    }
}

/// A list that satisfies the invariants is the page's free list.
pub proof fn lemma_free_list(w: Map<int, u64>, p: int, l: Seq<int>)
    requires
        page_inv(w, p, l),
    ensures
        page_wf(w, p),
        free_list(w, p) == l,
{
    lemma_chain_unique(w, header(w, p).free as int, l, free_list(w, p));
}

/// A header depends on nothing but its words.
pub proof fn lemma_header_words(w: Map<int, u64>, v: Map<int, u64>, p: int)
    requires
        v[p] == w[p],
        v[p + 8] == w[p + 8],
        v[p + 16] == w[p + 16],
        v[p + 24] == w[p + 24],
    ensures
        header(v, p) == header(w, p),
{
    reveal(header);
}

/// A page depends on nothing but the words inside it.
#[verifier::spinoff_prover]
#[verifier::rlimit(40)]
pub proof fn lemma_page_frame(w: Map<int, u64>, v: Map<int, u64>, p: int, l: Seq<int>)
    requires
        page_inv(w, p, l),
        forall|x: int|
            p <= x < p + page_bytes(header(w, p)) && x % 8 == 0 ==> #[trigger] v[x] == w[x],
    ensures
        page_inv(v, p, l),
        header(v, p) == header(w, p),
{
    let h = header(w, p);
    lemma_page_shape(p, h);
    lemma_header_words(w, v, p);
    assert forall|i: int| 0 <= i < l.len() implies #[trigger] v[l[i]] == link(l, i) by {
        assert(is_block(p, h, h.capacity as int, l[i]));
        let k: int = choose|k: int| 0 <= k < h.capacity && l[i] == #[trigger] block_addr(p, h, k);
        lemma_block_in_page(p, h, k);
        assert(w[l[i]] == link(l, i));
    }
    if h.free_is_zero {
        assert forall|i: int| 0 <= i < l.len() implies block_zero(v, h, #[trigger] l[i], 8) by {
            assert(is_block(p, h, h.capacity as int, l[i]));
            let k: int = choose|k: int|
                0 <= k < h.capacity && l[i] == #[trigger] block_addr(p, h, k);
            lemma_block_in_page(p, h, k);
            assert(block_zero(w, h, l[i], 8));
            assert forall|x: int|
                l[i] + 8 <= x < l[i] + h.block_size && x % 8 == 0 implies #[trigger] v[x] == 0 by {
                assert(w[x] == 0);
            }
        }
        assert forall|i: int| h.capacity <= i < h.reserved implies block_zero(
            v,
            h,
            #[trigger] block_addr(p, h, i),
            0,
        ) by {
            lemma_block_in_page(p, h, i);
            let a: int = block_addr(p, h, i);
            assert(block_zero(w, h, a, 0));
            assert forall|x: int| a <= x < a + h.block_size && x % 8 == 0 implies #[trigger] v[x]
                == 0 by {
                assert(w[x] == 0);
            }
        }
    }
}

/// The header takes the first words of the page, and the page starts at a slice.
pub proof fn lemma_page_shape(p: int, h: Page)
    requires
        header_ok(h),
        page_addr_ok(p, h),
    ensures
        p % SLICE_SIZE as int == 0,
        p % 8 == 0,
        p >= SLICE_SIZE,
        page_bytes(h) % SLICE_SIZE as int == 0,
        page_bytes(h) >= SLICE_SIZE,
        slice_of(p + page_bytes(h)) == slice_of(p) + page_bytes(h) / SLICE_SIZE as int,
        h.block_size % 8 == 0,
        8 <= h.block_size <= 524288,
        h.block_start % 8 == 0,
        h.block_start >= HEADER_BYTES,
        h.reserved <= 8188,
{
    law_page_geometry(h.bin as int);
    lemma_bin_table();
    lemma_bin_bytes_word(h.bin as int);
    if h.bin < 60 {
        lemma_bin_bytes_increasing(h.bin as int, 60);
    }
    lemma_first_block(bin_bytes(h.bin as int));
    crate::arith::lemma_divides_trans(p, page_bytes(h), SLICE_SIZE as int);
}

/// A block lies inside its page, behind the header, and is aligned to the word.
pub proof fn lemma_block_in_page(p: int, h: Page, i: int)
    requires
        header_ok(h),
        page_addr_ok(p, h),
        0 <= i < h.reserved,
    ensures
        p + HEADER_BYTES <= block_addr(p, h, i),
        block_addr(p, h, i) + h.block_size <= p + page_bytes(h),
        block_addr(p, h, i) % 8 == 0,
        slice_of(p) <= slice_of(block_addr(p, h, i)) < slice_of(p + page_bytes(h)),
{
    lemma_page_shape(p, h);
    law_page_geometry(h.bin as int);
    let n: int = h.reserved as int;
    let b: int = h.block_size as int;
    assert(i * b + b <= n * b) by (nonlinear_arith)
        requires
            0 <= i < n,
            b >= 0,
    ;
    assert(i * b >= 0) by (nonlinear_arith)
        requires
            0 <= i,
            b >= 0,
    ;
    crate::arith::lemma_multiple_of_multiple(i, b, 8);
}

/// Different blocks do not overlap.
pub proof fn lemma_blocks_apart(p: int, h: Page, i: int, j: int)
    requires
        i < j,
        h.block_size >= 8,
    ensures
        block_addr(p, h, i) + h.block_size <= block_addr(p, h, j),
{
    let b: int = h.block_size as int;
    assert(i * b + b <= j * b) by (nonlinear_arith)
        requires
            i < j,
            b >= 0,
    ;
}

/// Two block addresses are equal or a block apart.
pub proof fn lemma_blocks_apart_addr(p: int, h: Page, n: int, a: int, b: int)
    requires
        is_block(p, h, n, a),
        is_block(p, h, n, b),
        a != b,
        h.block_size >= 8,
    ensures
        a + h.block_size <= b || b + h.block_size <= a,
{
    let i: int = choose|i: int| 0 <= i < n && a == #[trigger] block_addr(p, h, i);
    let j: int = choose|j: int| 0 <= j < n && b == #[trigger] block_addr(p, h, j);
    if i < j {
        lemma_blocks_apart(p, h, i, j);
    } else if j < i {
        lemma_blocks_apart(p, h, j, i);
    }
}

/// The page header address for a block address. Only the kind of the page (a function of the
/// block's layout) is needed, never a page map.
#[inline]
pub fn header_of(kind: PageKind, block_addr: usize) -> (r: usize)
    ensures
        r == block_addr - block_addr as int % kind_page_size(kind),
{
    block_addr & kind.page_mask()
}

/// Byte stored in `Page::kind` for a [`PageKind`].
#[inline]
pub fn kind_to_u8(kind: PageKind) -> (r: u8)
    ensures
        r == kind_byte(kind),
{
    match kind {
        PageKind::Small => KIND_SMALL,
        PageKind::Medium => KIND_MEDIUM,
        PageKind::Large => KIND_LARGE,
    }
}

/// Inverse of [`kind_to_u8`]; `None` for a byte that is not a kind (a corrupt header).
#[inline]
pub fn kind_from_u8(byte: u8) -> (r: Option<PageKind>)
    ensures
        r matches Some(kind) ==> kind_byte(kind) == byte,
        r is None <==> byte > 2,
{
    match byte {
        0 => Some(PageKind::Small),
        1 => Some(PageKind::Medium),
        2 => Some(PageKind::Large),
        _ => None,
    }
}

/// The counters, bin and flags of a header, packed into a word.
fn pack(h: &Page) -> (r: u64)
    requires
        h.used < 65536,
        h.capacity < 65536,
    ensures
        (r & 0xffff) as u32 == h.used,
        ((r >> 16) & 0xffff) as u32 == h.capacity,
        (r >> 32) as u8 == h.bin,
        (r >> 40) as u8 == h.flags,
        (r >> 48) as u8 == h.retire_expire,
        ((r >> 56) & 1 == 1) == h.free_is_zero,
{
    let a: u64 = h.used as u64;
    let b: u64 = h.capacity as u64;
    let c: u64 = h.bin as u64;
    let d: u64 = h.flags as u64;
    let e: u64 = h.retire_expire as u64;
    let f: u64 = if h.free_is_zero {
        1
    } else {
        0
    };
    let r: u64 = a | (b << 16) | (c << 32) | (d << 40) | (e << 48) | (f << 56);
    proof {
        assert((r & 0xffff) == a && ((r >> 16) & 0xffff) == b && (r >> 32) as u8 == c as u8 && (r
            >> 40) as u8 == d as u8 && (r >> 48) as u8 == e as u8 && (r >> 56) & 1 == f)
            by (bit_vector)
            requires
                a < 65536,
                b < 65536,
                c < 256,
                d < 256,
                e < 256,
                f < 2,
                r == a | (b << 16) | (c << 32) | (d << 40) | (e << 48) | (f << 56),
        ;
    }
    r
}

/// The words of a header lie in the first slice of the page.
proof fn lemma_header_slice(p: int)
    requires
        p % SLICE_SIZE as int == 0,
    ensures
        slice_of(p + 8) == slice_of(p),
        slice_of(p + 16) == slice_of(p),
        slice_of(p + 24) == slice_of(p),
{
}

/// The header at `page`.
#[verifier::spinoff_prover]
pub fn read<M: Memory>(page: usize, mem: &M) -> (r: Page)
    requires
        in_order(mem),
        page % SLICE_SIZE == 0,
        mem.owns(slice_of(page as int)),
    ensures
        r == header(mem.words(), page as int),
{
    proof {
        lemma_header_slice(page as int);
    }
    let free: u64 = mem.load(page);
    let next: u64 = mem.load(page + 8);
    let prev: u64 = mem.load(page + 16);
    let meta: u64 = mem.load(page + 24);
    let bin: u8 = (meta >> 32) as u8;
    let used: u32 = (meta & 0xffff) as u32;
    let capacity: u32 = ((meta >> 16) & 0xffff) as u32;
    let flags: u8 = (meta >> 40) as u8;
    let retire_expire: u8 = (meta >> 48) as u8;
    let free_is_zero: bool = (meta >> 56) & 1 == 1;
    let g = geometry(bin);
    let r = Page {
        free: free as usize,
        used,
        capacity,
        reserved: g.reserved,
        block_size: g.block_size,
        block_start: g.block_start,
        free_is_zero,
        bin,
        kind: g.kind,
        flags,
        retire_expire,
        next: next as usize,
        prev: prev as usize,
    };
    proof {
        assert(r == header(mem.words(), page as int)) by {
            reveal(header);
        }
    }
    r
}

/// The words of memory are the same but for the header at `p`.
pub open spec fn only_header_changed(w: Map<int, u64>, v: Map<int, u64>, p: int) -> bool {
    forall|x: int| !(p <= x < p + HEADER_BYTES) ==> #[trigger] v[x] == w[x]
}

/// `new` is `old` after stores: what the allocator owns is the same, and so is the end.
pub open spec fn stored<M: Memory>(old: &M, new: &M) -> bool {
    &&& in_order(new)
    &&& new.base_addr() == old.base_addr()
    &&& new.end() == old.end()
    &&& new.growths() == old.growths()
    &&& forall|s: int| #[trigger] new.owns(s) == old.owns(s)
}

/// Write the header at `page`.
#[verifier::spinoff_prover]
#[verifier::rlimit(40)]
pub fn write<M: Memory>(page: usize, mem: &mut M, h: &Page)
    requires
        in_order(old(mem)),
        page % SLICE_SIZE == 0,
        old(mem).owns(slice_of(page as int)),
        header_ok(*h),
    ensures
        stored(old(mem), final(mem)),
        header(final(mem).words(), page as int) == *h,
        only_header_changed(old(mem).words(), final(mem).words(), page as int),
{
    proof {
        lemma_header_slice(page as int);
        lemma_geometry(*h);
    }
    let meta: u64 = pack(h);
    mem.store(page, h.free as u64);
    mem.store(page + 8, h.next as u64);
    mem.store(page + 16, h.prev as u64);
    mem.store(page + 24, meta);
    proof {
        let v = mem.words();
        let p: int = page as int;
        assert(v[p] == h.free && v[p + 8] == h.next && v[p + 16] == h.prev && v[p + 24] == meta);
        assert(header(v, p) == *h) by {
            reveal(header);
        }
    }
}

/// Blocks are told apart by their addresses.
proof fn lemma_block_addr_injective(p: int, h: Page, i: int, j: int)
    requires
        h.block_size >= 8,
        block_addr(p, h, i) == block_addr(p, h, j),
    ensures
        i == j,
{
    if i < j {
        lemma_blocks_apart(p, h, i, j);
    } else if j < i {
        lemma_blocks_apart(p, h, j, i);
    }
}

/// The two headers agree on everything the free list depends on.
pub open spec fn same_but_heap_fields(h: Page, k: Page) -> bool {
    k == (Page {
        flags: k.flags,
        retire_expire: k.retire_expire,
        next: k.next,
        prev: k.prev,
        ..h
    })
}

/// The words of the page at `p` behind its header are the same.
pub open spec fn body_same(w: Map<int, u64>, v: Map<int, u64>, p: int, bytes: int) -> bool {
    forall|x: int| p + HEADER_BYTES <= x < p + bytes && x % 8 == 0 ==> #[trigger] v[x] == w[x]
}

/// The heap may change the links, the flags and the countdown of a page.
pub proof fn lemma_page_relabel(w: Map<int, u64>, v: Map<int, u64>, p: int, l: Seq<int>)
    requires
        page_inv(w, p, l),
        body_same(w, v, p, page_bytes(header(w, p))),
        same_but_heap_fields(header(w, p), header(v, p)),
    ensures
        page_inv(v, p, l),
{
    lemma_page_body(w, v, p, header(w, p), header(v, p), l);
}

/// What the list and the zero flag say carries over to a header that agrees on the blocks.
proof fn lemma_page_body(w: Map<int, u64>, v: Map<int, u64>, p: int, h: Page, k: Page, l: Seq<int>)
    requires
        header_ok(h),
        page_addr_ok(p, h),
        is_free_list(w, p, h, l),
        zero_ok(w, p, h, l),
        body_same(w, v, p, page_bytes(h)),
        same_but_heap_fields(h, k),
    ensures
        is_free_list(v, p, k, l),
        zero_ok(v, p, k, l),
{
    lemma_page_shape(p, h);
    assert forall|i: int| 0 <= i < l.len() implies #[trigger] v[l[i]] == link(l, i) by {
        assert(is_block(p, h, h.capacity as int, l[i]));
        let n: int = choose|n: int| 0 <= n < h.capacity && l[i] == #[trigger] block_addr(p, h, n);
        lemma_block_in_page(p, h, n);
        assert(w[l[i]] == link(l, i));
    }
    assert forall|i: int| #[trigger] block_addr(p, k, i) == block_addr(p, h, i) by {}
    assert forall|i: int| 0 <= i < l.len() implies #[trigger] is_block(
        p,
        k,
        k.capacity as int,
        l[i],
    ) by {
        assert(is_block(p, h, h.capacity as int, l[i]));
        let n: int = choose|n: int| 0 <= n < h.capacity && l[i] == #[trigger] block_addr(p, h, n);
        assert(l[i] == block_addr(p, k, n));
    }
    if k.free_is_zero {
        assert forall|i: int| 0 <= i < l.len() implies block_zero(v, k, #[trigger] l[i], 8) by {
            assert(is_block(p, h, h.capacity as int, l[i]));
            let n: int = choose|n: int|
                0 <= n < h.capacity && l[i] == #[trigger] block_addr(p, h, n);
            lemma_block_in_page(p, h, n);
            assert(block_zero(w, h, l[i], 8));
            assert forall|x: int|
                l[i] + 8 <= x < l[i] + k.block_size && x % 8 == 0 implies #[trigger] v[x] == 0 by {
                assert(w[x] == 0);
            }
        }
        assert forall|i: int| k.capacity <= i < k.reserved implies block_zero(
            v,
            k,
            #[trigger] block_addr(p, k, i),
            0,
        ) by {
            lemma_block_in_page(p, h, i);
            let a: int = block_addr(p, h, i);
            assert(block_zero(w, h, a, 0));
            assert forall|x: int| a <= x < a + k.block_size && x % 8 == 0 implies #[trigger] v[x]
                == 0 by {
                assert(w[x] == 0);
            }
        }
    }
}

/// Every word of `[lo, hi)` is zero.
pub open spec fn words_zero(w: Map<int, u64>, lo: int, hi: int) -> bool {
    forall|x: int| lo <= x < hi && x % 8 == 0 ==> #[trigger] w[x] == 0
}

/// The header of a fresh page of `bin`.
pub open spec fn fresh_header(bin: u8, zeroed: bool) -> Page {
    Page {
        free: 0,
        used: 0,
        capacity: 0,
        reserved: page_blocks(bin_kind(bin as int), bin_bytes(bin as int)) as u32,
        block_size: bin_bytes(bin as int) as u32,
        block_start: first_block(bin_bytes(bin as int)) as u16,
        free_is_zero: zeroed,
        bin,
        kind: kind_byte(bin_kind(bin as int)),
        flags: 0,
        retire_expire: 0,
        next: 0,
        prev: 0,
    }
}

/// Write a fresh header for a page of `kind` serving `bin` at `page_addr`.
///
/// `zeroed` says whether the whole page is known to be zero (fresh from `memory.grow`, or still
/// marked zero in the slice bitmap) and seeds `free_is_zero`.
pub fn init<M: Memory>(mem: &mut M, page_addr: usize, kind: PageKind, bin: u8, zeroed: bool) -> (r:
    usize)
    requires
        in_order(old(mem)),
        1 <= bin <= MAX_BIN,
        kind == bin_kind(bin as int),
        0 < page_addr,
        page_addr as int % kind_page_size(kind) == 0,
        page_addr + kind_page_size(kind) <= usize::MAX,
        owns_bytes(old(mem), page_addr as int, kind_page_size(kind)),
        zeroed ==> words_zero(
            old(mem).words(),
            page_addr as int,
            page_addr + kind_page_size(kind),
        ),
    ensures
        r == page_addr,
        stored(old(mem), final(mem)),
        only_header_changed(old(mem).words(), final(mem).words(), page_addr as int),
        header(final(mem).words(), page_addr as int) == fresh_header(bin, zeroed),
        page_wf(final(mem).words(), page_addr as int),
        free_list(final(mem).words(), page_addr as int) == Seq::<int>::empty(),
{
    let size: usize = bin_size(bin);
    proof {
        lemma_bin_bytes_word(bin as int);
        law_page_geometry(bin as int);
    }
    let h = Page {
        free: 0,
        used: 0,
        capacity: 0,
        reserved: blocks_per_page(kind, size) as u32,
        block_size: size as u32,
        block_start: block_start(size) as u16,
        free_is_zero: zeroed,
        bin,
        kind: kind_to_u8(kind),
        flags: 0,
        retire_expire: 0,
        next: 0,
        prev: 0,
    };
    let ghost p: int = page_addr as int;
    proof {
        lemma_page_shape(p, h);
        assert(mem.owns(slice_of(p)));
    }
    write(page_addr, mem, &h);
    proof {
        let l = Seq::<int>::empty();
        if zeroed {
            assert forall|i: int| h.capacity <= i < h.reserved implies block_zero(
                mem.words(),
                h,
                #[trigger] block_addr(p, h, i),
                0,
            ) by {
                lemma_block_in_page(p, h, i);
                let a: int = block_addr(p, h, i);
                assert forall|x: int|
                    a <= x < a + h.block_size && x % 8 == 0 implies #[trigger] mem.words()[x]
                    == 0 by {
                    assert(old(mem).words()[x] == 0);
                }
            }
        }
        assert(page_inv(mem.words(), p, l));
        lemma_free_list(mem.words(), p, l);
    }
    page_addr
}

/// The page at `page` can be worked on: its invariants hold and its memory is the allocator's.
pub open spec fn page_ready<M: Memory>(page: int, mem: &M) -> bool {
    &&& in_order(mem)
    &&& page_wf(mem.words(), page)
    &&& owns_bytes(mem, page, page_bytes(header(mem.words(), page)))
}

/// What [`page_ready`] says of the header, and that header and blocks can be accessed.
pub proof fn lemma_page_ready<M: Memory>(page: int, mem: &M)
    requires
        page_ready(page, mem),
    ensures
        page_inv(mem.words(), page, free_list(mem.words(), page)),
        page % SLICE_SIZE as int == 0,
        page % 8 == 0,
        mem.owns(slice_of(page)),
        forall|i: int|
            0 <= i < header(mem.words(), page).reserved ==> {
                let a = #[trigger] block_addr(page, header(mem.words(), page), i);
                &&& mem.owns(slice_of(a))
                &&& a % 8 == 0
                &&& page + HEADER_BYTES <= a
                &&& a + header(mem.words(), page).block_size <= page + page_bytes(
                    header(mem.words(), page),
                )
            },
{
    let h = header(mem.words(), page);
    assert(page_inv(mem.words(), page, free_list(mem.words(), page)));
    lemma_page_shape(page, h);
    assert(mem.owns(slice_of(page)));
    assert forall|i: int| 0 <= i < h.reserved implies {
        let a = #[trigger] block_addr(page, h, i);
        &&& mem.owns(slice_of(a))
        &&& a % 8 == 0
        &&& page + HEADER_BYTES <= a
        &&& a + h.block_size <= page + page_bytes(h)
    } by {
        lemma_block_in_page(page, h, i);
    }
}

/// The page after its first free block has been taken off the list.
pub open spec fn popped(w: Map<int, u64>, v: Map<int, u64>, p: int, block: int) -> bool {
    let l = free_list(w, p);
    let h = header(w, p);
    &&& l.len() > 0
    &&& block == l[0]
    &&& free_list(v, p) == l.drop_first()
    &&& header(v, p) == (Page { free: link(l, 0) as usize, used: (h.used + 1) as u32, ..h })
}

/// The page after a live block has been put in front of the list.
pub open spec fn pushed(w: Map<int, u64>, v: Map<int, u64>, p: int, block: int) -> bool {
    let h = header(w, p);
    &&& free_list(v, p) == seq![block] + free_list(w, p)
    &&& header(v, p) == (Page {
        free: block as usize,
        used: (h.used - 1) as u32,
        free_is_zero: false,
        ..h
    })
}

/// Freeing the block that was just allocated restores the free list and the count of blocks in
/// use.
pub proof fn law_push_undoes_pop(
    w: Map<int, u64>,
    v: Map<int, u64>,
    u: Map<int, u64>,
    p: int,
    block: int,
)
    requires
        page_wf(w, p),
        popped(w, v, p, block),
        pushed(v, u, p, block),
    ensures
        free_list(u, p) == free_list(w, p),
        header(u, p).used == header(w, p).used,
        header(u, p).capacity == header(w, p).capacity,
{
    assert(free_list(u, p) =~= free_list(w, p));
    assert(header(w, p).used < header(w, p).capacity);
}

/// The blocks of a page never outnumber what it holds: what is in use and what is free add up to
/// what has been made available.
pub proof fn law_blocks_add_up(w: Map<int, u64>, p: int)
    requires
        page_wf(w, p),
    ensures
        header(w, p).used + free_list(w, p).len() == header(w, p).capacity,
        header(w, p).capacity <= header(w, p).reserved,
        free_list(w, p).no_duplicates(),
{
}

/// Pop a block from the free list: the allocation fast path. `None` when the list is empty.
///
/// The block's first word still holds its free-list link; the block is otherwise untouched.
pub fn pop<M: Memory>(page: usize, mem: &mut M) -> (r: Option<usize>)
    requires
        page_ready(page as int, old(mem)),
    ensures
        stored(old(mem), final(mem)),
        page_wf(final(mem).words(), page as int),
        only_header_changed(old(mem).words(), final(mem).words(), page as int),
        r is None <==> free_list(old(mem).words(), page as int).len() == 0,
        r is None ==> final(mem).words() == old(mem).words(),
        r matches Some(block) ==> popped(
            old(mem).words(),
            final(mem).words(),
            page as int,
            block as int,
        ),
{
    let ghost p: int = page as int;
    let ghost w = mem.words();
    let ghost l = free_list(w, p);
    proof {
        lemma_page_ready(p, mem);
    }
    let h: Page = read(page, mem);
    let block: usize = h.free;
    if block == 0 {
        proof {
            if l.len() > 0 {
                assert(l[0] > 0);
            }
        }
        return None;
    }
    proof {
        assert(l.len() > 0);
        assert(is_block(p, h, h.capacity as int, l[0]));
        let n: int = choose|n: int| 0 <= n < h.capacity && l[0] == #[trigger] block_addr(p, h, n);
        lemma_page_shape(p, h);
        assert(mem.owns(slice_of(block_addr(p, h, n))));
        assert(w[l[0]] == link(l, 0));
        if l.len() > 1 {
            assert(is_block(p, h, h.capacity as int, l[1]));
            let m: int = choose|m: int|
                0 <= m < h.capacity && l[1] == #[trigger] block_addr(p, h, m);
            lemma_block_in_page(p, h, m);
        }
    }
    let next: u64 = mem.load(block);
    let k = Page { free: next as usize, used: h.used + 1, ..h };
    write(page, mem, &k);
    proof {
        let v = mem.words();
        let t = l.drop_first();
        let mid = Page { free: h.free, ..h };
        lemma_page_body(w, v, p, h, h, l);
        assert forall|i: int| 0 <= i < t.len() implies #[trigger] v[t[i]] == link(t, i) by {
            assert(v[l[i + 1]] == link(l, i + 1));
        }
        assert forall|i: int| 0 <= i < t.len() implies #[trigger] is_block(
            p,
            k,
            k.capacity as int,
            t[i],
        ) by {
            assert(is_block(p, h, h.capacity as int, l[i + 1]));
            let n: int = choose|n: int|
                0 <= n < h.capacity && l[i + 1] == #[trigger] block_addr(p, h, n);
            assert(t[i] == block_addr(p, k, n));
        }
        if k.free_is_zero {
            assert forall|i: int| 0 <= i < t.len() implies block_zero(v, k, #[trigger] t[i], 8) by {
                assert(block_zero(v, h, l[i + 1], 8));
            }
            assert forall|i: int| k.capacity <= i < k.reserved implies block_zero(
                v,
                k,
                #[trigger] block_addr(p, k, i),
                0,
            ) by {
                assert(block_zero(v, h, block_addr(p, h, i), 0));
            }
        }
        assert(page_inv(v, p, t));
        lemma_free_list(v, p, t);
    }
    Some(block)
}

/// Push a live block back onto the free list: the deallocation fast path. The block's contents
/// are overwritten from its first word.
pub fn push<M: Memory>(page: usize, mem: &mut M, block: usize)
    requires
        page_ready(page as int, old(mem)),
        is_live(old(mem).words(), page as int, block as int),
    ensures
        stored(old(mem), final(mem)),
        page_wf(final(mem).words(), page as int),
        forall|x: int|
            !(page <= x < page + HEADER_BYTES) && x != block ==> #[trigger] final(mem).words()[x]
                == old(mem).words()[x],
        pushed(old(mem).words(), final(mem).words(), page as int, block as int),
        header(old(mem).words(), page as int).used >= 1,
{
    let ghost p: int = page as int;
    let ghost w = mem.words();
    let ghost l = free_list(w, p);
    proof {
        lemma_page_ready(p, mem);
    }
    let h: Page = read(page, mem);
    let ghost n: int = choose|n: int|
        0 <= n < h.capacity && block == #[trigger] block_addr(p, h, n);
    proof {
        lemma_page_shape(p, h);
        lemma_live_block_counts(w, p, block as int);
        assert(mem.owns(slice_of(block_addr(p, h, n))));
    }
    mem.store(block, h.free as u64);
    let k = Page { free: block, used: h.used - 1, free_is_zero: false, ..h };
    write(page, mem, &k);
    proof {
        let v = mem.words();
        let t = seq![block as int] + l;
        assert forall|i: int| 0 <= i < t.len() implies #[trigger] is_block(
            p,
            k,
            k.capacity as int,
            t[i],
        ) by {
            if i == 0 {
                assert(t[i] == block_addr(p, k, n));
            } else {
                assert(is_block(p, h, h.capacity as int, l[i - 1]));
                let m: int = choose|m: int|
                    0 <= m < h.capacity && l[i - 1] == #[trigger] block_addr(p, h, m);
                assert(t[i] == block_addr(p, k, m));
            }
        }
        assert forall|i: int| 0 <= i < t.len() implies #[trigger] v[t[i]] == link(t, i) by {
            if i > 0 {
                assert(l.contains(l[i - 1]));
                assert(is_block(p, h, h.capacity as int, l[i - 1]));
                let m: int = choose|m: int|
                    0 <= m < h.capacity && l[i - 1] == #[trigger] block_addr(p, h, m);
                lemma_block_in_page(p, h, m);
                assert(w[l[i - 1]] == link(l, i - 1));
            }
        }
        assert(t.no_duplicates()) by {
            assert forall|i: int, j: int| 0 <= i < j < t.len() implies t[i] != t[j] by {
                if i == 0 {
                    assert(l.contains(l[j - 1]));
                }
            }
        }
        assert(page_inv(v, p, t));
        lemma_free_list(v, p, t);
    }
}

/// A live block means that fewer blocks are free than have been made available.
pub proof fn lemma_live_block_counts(w: Map<int, u64>, p: int, a: int)
    requires
        page_wf(w, p),
        is_live(w, p, a),
    ensures
        header(w, p).used >= 1,
{
    let h = header(w, p);
    let l = free_list(w, p);
    lemma_page_shape(p, h);
    let n: int = choose|n: int| 0 <= n < h.capacity && a == #[trigger] block_addr(p, h, n);
    if h.used == 0 {
        // As many distinct blocks are free as there are, so all of them are.
        let f = |a: int| block_number(p, h, a);
        let idx = l.map_values(f);
        let all = vstd::set_lib::set_int_range(0, h.capacity as int);
        assert(idx.no_duplicates()) by {
            assert forall|i: int, j: int| 0 <= i < idx.len() && 0 <= j < idx.len() && i
                != j implies idx[i] != idx[j] by {
                lemma_block_number(p, h, h.capacity as int, l[i]);
                lemma_block_number(p, h, h.capacity as int, l[j]);
            }
        }
        assert(idx.to_set().subset_of(all)) by {
            assert forall|x: int| idx.to_set().contains(x) implies all.contains(x) by {
                let i: int = choose|i: int| 0 <= i < idx.len() && idx[i] == x;
                lemma_block_number(p, h, h.capacity as int, l[i]);
            }
        }
        vstd::set_lib::lemma_int_range(0, h.capacity as int);
        idx.unique_seq_to_set();
        vstd::set_lib::lemma_subset_equality(idx.to_set(), all);
        assert(all.contains(n));
        assert(idx.to_set().contains(n));
        let i: int = choose|i: int| 0 <= i < idx.len() && idx[i] == n;
        lemma_block_number(p, h, h.capacity as int, l[i]);
        assert(l.contains(l[i]));
    }
}

/// The index of the block at `a`.
pub open spec fn block_number(p: int, h: Page, a: int) -> int {
    choose|i: int| 0 <= i < h.reserved && a == #[trigger] block_addr(p, h, i)
}

proof fn lemma_block_number(p: int, h: Page, n: int, a: int)
    requires
        h.block_size >= 8,
        n <= h.reserved,
        is_block(p, h, n, a),
    ensures
        0 <= block_number(p, h, a) < n,
        a == block_addr(p, h, block_number(p, h, a)),
{
    let i: int = choose|i: int| 0 <= i < n && a == #[trigger] block_addr(p, h, i);
    lemma_block_addr_injective(p, h, i, block_number(p, h, a));
}

/// How many blocks an extension of a page links: as many as [`MAX_EXTEND_SIZE`] bytes hold, at
/// least one, and no more than the page has left.
pub open spec fn extension(h: Page) -> int {
    crate::arith::min(
        h.reserved - h.capacity,
        crate::arith::max(MAX_EXTEND_SIZE as int / h.block_size as int, 1),
    )
}

/// The addresses of `n` consecutive blocks from block `first` on.
pub open spec fn block_batch(p: int, h: Page, first: int, n: int) -> Seq<int> {
    Seq::new(n as nat, |k: int| block_addr(p, h, first + k))
}

/// Link the next batch of never-used blocks onto the free list. Returns false when every block
/// already has a link, that is when `capacity == reserved`.
///
/// At most [`MAX_EXTEND_SIZE`] bytes worth of blocks, and at least one, are linked per call.
/// The new blocks go in front of whatever the list held; only their first words are written,
/// so `free_is_zero` remains accurate.
pub fn extend<M: Memory>(page: usize, mem: &mut M) -> (r: bool)
    requires
        page_ready(page as int, old(mem)),
    ensures
        stored(old(mem), final(mem)),
        page_wf(final(mem).words(), page as int),
        ({
            let h = header(old(mem).words(), page as int);
            &&& r == (h.capacity < h.reserved)
            &&& !r ==> final(mem).words() == old(mem).words()
            &&& r ==> extended_page(old(mem).words(), final(mem).words(), page as int)
        }),
{
    let ghost p: int = page as int;
    let ghost w = mem.words();
    let ghost l = free_list(w, p);
    proof {
        lemma_page_ready(p, mem);
    }
    let h: Page = read(page, mem);
    if h.capacity >= h.reserved {
        return false;
    }
    proof {
        lemma_page_shape(p, h);
    }
    let size: usize = h.block_size as usize;
    let most: u32 = if size <= MAX_EXTEND_SIZE {
        (MAX_EXTEND_SIZE / size) as u32
    } else {
        1
    };
    proof {
        vstd::arithmetic::div_mod::lemma_fundamental_div_mod(8192, size as int);
        vstd::arithmetic::div_mod::lemma_div_is_ordered_by_denominator(8192, 8, size as int);
        if size <= 8192 {
            assert(8192int / size as int >= 1) by {
                vstd::arithmetic::div_mod::lemma_div_non_zero(8192, size as int);
            }
        } else {
            vstd::arithmetic::div_mod::lemma_basic_div(8192, size as int);
        }
    }
    let left: u32 = h.reserved - h.capacity;
    let n: u32 = if left <= most {
        left
    } else {
        most
    };
    let ghost c: int = h.capacity as int;
    let ghost batch = block_batch(p, h, c, n as int);
    proof {
        assert(n == extension(h));
        lemma_block_in_page(p, h, c);
        assert(c * h.block_size + h.block_start + p == block_addr(p, h, c));
    }
    assert(h.capacity * size <= 8188 * 524288) by (nonlinear_arith)
        requires
            h.capacity <= 8188,
            size <= 524288,
    {
    }
    let first: usize = page + h.block_start as usize + h.capacity as usize * size;
    let mut block: usize = first;
    let mut i: u32 = 0;
    while i < n
        invariant
            i <= n,
            n >= 1,
            c == h.capacity,
            c + n <= h.reserved,
            size == h.block_size,
            header_ok(h),
            page_addr_ok(p, h),
            h.block_size >= 8,
            i < n ==> block == block_addr(p, h, c + i),
            stored(old(mem), mem),
            page_ready(p, old(mem)),
            header(old(mem).words(), p) == h,
            batch == block_batch(p, h, c, n as int),
            forall|k: int|
                0 <= k < i ==> mem.words()[#[trigger] block_addr(p, h, c + k)] == if k + 1 < n {
                    block_addr(p, h, c + k + 1)
                } else {
                    h.free as int
                },
            forall|x: int| !batch.contains(x) ==> #[trigger] mem.words()[x] == w[x],
            w == old(mem).words(),
        decreases n - i,
    {
        proof {
            lemma_page_ready(p, old(mem));
            lemma_block_in_page(p, h, c + i);
            assert(old(mem).owns(slice_of(block_addr(p, h, c + i))));
            assert(mem.owns(slice_of(block as int)));
            assert(batch[i as int] == block);
            assert(batch.contains(block as int));
            if i + 1 < n {
                lemma_block_in_page(p, h, c + i + 1);
                assert(block_addr(p, h, c + i + 1) == block + size) by (nonlinear_arith)
                    requires
                        block == p + h.block_start + (c + i) * h.block_size,
                        size == h.block_size,
                        block_addr(p, h, c + i + 1) == p + h.block_start + (c + i + 1)
                            * h.block_size,
                ;
            }
            assert forall|k: int| 0 <= k < i implies #[trigger] block_addr(p, h, c + k)
                != block by {
                lemma_blocks_apart(p, h, c + k, c + i);
            }
        }
        if i + 1 < n {
            let next: usize = block + size;
            mem.store(block, next as u64);
            block = next;
        } else {
            mem.store(block, h.free as u64);
        }
        i = i + 1;
    }
    let k = Page { free: first, capacity: h.capacity + n, ..h };
    let ghost u = mem.words();
    proof {
        assert(mem.owns(slice_of(p)));
    }
    write(page, mem, &k);
    proof {
        let v = mem.words();
        let t = batch + l;
        assert(page_inv(w, p, l));
        assert forall|j: int| 0 <= j < t.len() implies #[trigger] is_block(
            p,
            k,
            k.capacity as int,
            t[j],
        ) by {
            if j < n {
                assert(t[j] == block_addr(p, k, c + j));
            } else {
                assert(is_block(p, h, h.capacity as int, l[j - n]));
                let m: int = choose|m: int|
                    0 <= m < h.capacity && l[j - n] == #[trigger] block_addr(p, h, m);
                assert(t[j] == block_addr(p, k, m));
            }
        }
        assert forall|m: int| 0 <= m < c implies !batch.contains(#[trigger] block_addr(p, h, m)) by {
            if batch.contains(block_addr(p, h, m)) {
                let j: int = choose|j: int|
                    0 <= j < batch.len() && batch[j] == block_addr(p, h, m);
                lemma_blocks_apart(p, h, m, c + j);
            }
        }
        assert forall|j: int| 0 <= j < t.len() implies #[trigger] v[t[j]] == link(t, j) by {
            if j < n {
                lemma_block_in_page(p, h, c + j);
                assert(t[j] == block_addr(p, h, c + j));
                if j + 1 >= n && l.len() > 0 {
                    assert(t[j + 1] == l[0]);
                }
            } else {
                assert(is_block(p, h, h.capacity as int, l[j - n]));
                let m: int = choose|m: int|
                    0 <= m < h.capacity && l[j - n] == #[trigger] block_addr(p, h, m);
                lemma_block_in_page(p, h, m);
                assert(w[l[j - n]] == link(l, j - n));
            }
        }
        assert(t.no_duplicates()) by {
            assert forall|i: int, j: int| 0 <= i < j < t.len() implies t[i] != t[j] by {
                if j < n {
                    lemma_blocks_apart(p, h, c + i, c + j);
                } else if i < n {
                    assert(is_block(p, h, h.capacity as int, l[j - n]));
                    let m: int = choose|m: int|
                        0 <= m < h.capacity && l[j - n] == #[trigger] block_addr(p, h, m);
                    assert(batch.contains(t[i])) by {
                        assert(batch[i] == t[i]);
                    }
                }
            }
        }
        if k.free_is_zero {
            assert forall|j: int| 0 <= j < t.len() implies block_zero(v, k, #[trigger] t[j], 8) by {
                lemma_extend_zero(w, v, p, h, c, n as int, t[j], 8);
                if j < n {
                    assert(t[j] == block_addr(p, h, c + j));
                    assert(block_zero(w, h, block_addr(p, h, c + j), 0));
                } else {
                    assert(block_zero(w, h, l[j - n], 8));
                    assert(is_block(p, h, h.capacity as int, l[j - n]));
                    let m: int = choose|m: int|
                        0 <= m < h.capacity && l[j - n] == #[trigger] block_addr(p, h, m);
                    assert(is_block(p, h, h.reserved as int, l[j - n]));
                }
            }
            assert forall|j: int| k.capacity <= j < k.reserved implies block_zero(
                v,
                k,
                #[trigger] block_addr(p, k, j),
                0,
            ) by {
                assert(block_addr(p, k, j) == block_addr(p, h, j));
                assert(block_zero(w, h, block_addr(p, h, j), 0));
                if batch.contains(block_addr(p, h, j)) {
                    let i: int = choose|i: int|
                        0 <= i < batch.len() && batch[i] == block_addr(p, h, j);
                    lemma_blocks_apart(p, h, c + i, j);
                }
                lemma_extend_zero(w, v, p, h, c, n as int, block_addr(p, h, j), 0);
            }
        }
        assert(page_inv(v, p, t));
        lemma_free_list(v, p, t);
    }
    true
}

/// Linking a batch of blocks leaves every block as zero as it was, past its first word if it is
/// in the batch.
proof fn lemma_extend_zero(
    w: Map<int, u64>,
    v: Map<int, u64>,
    p: int,
    h: Page,
    c: int,
    n: int,
    a: int,
    from: int,
)
    requires
        header_ok(h),
        page_addr_ok(p, h),
        0 <= c,
        0 <= n,
        c + n <= h.reserved,
        from == 8 || (from == 0 && !block_batch(p, h, c, n).contains(a)),
        forall|x: int|
            !(p <= x < p + HEADER_BYTES) && !block_batch(p, h, c, n).contains(x) ==> #[trigger] v[x]
                == w[x],
    ensures
        is_block(p, h, h.reserved as int, a) && block_zero(w, h, a, from) ==> block_zero(
            v,
            h,
            a,
            from,
        ),
{
    if is_block(p, h, h.reserved as int, a) && block_zero(w, h, a, from) {
        let m: int = choose|m: int| 0 <= m < h.reserved && a == #[trigger] block_addr(p, h, m);
        lemma_page_shape(p, h);
        lemma_block_in_page(p, h, m);
        assert forall|x: int|
            a + from <= x < a + h.block_size && x % 8 == 0 implies #[trigger] v[x] == 0 by {
            assert(w[x] == 0);
            if block_batch(p, h, c, n).contains(x) {
                let j: int = choose|j: int| 0 <= j < n && block_batch(p, h, c, n)[j] == x;
                if c + j < m {
                    lemma_blocks_apart(p, h, c + j, m);
                } else if c + j > m {
                    lemma_blocks_apart(p, h, m, c + j);
                }
            }
        }
    }
}

/// Every block is handed out. Implies the free list is empty and the page cannot be extended.
#[inline]
pub fn is_full<M: Memory>(page: usize, mem: &M) -> (r: bool)
    requires
        page_ready(page as int, mem),
    ensures
        r == (header(mem.words(), page as int).used == header(mem.words(), page as int).reserved),
        r ==> free_list(mem.words(), page as int).len() == 0,
{
    proof {
        lemma_page_ready(page as int, mem);
    }
    let h = read(page, mem);
    h.used == h.reserved
}

/// No block is handed out.
#[inline]
pub fn all_free<M: Memory>(page: usize, mem: &M) -> (r: bool)
    requires
        page_ready(page as int, mem),
    ensures
        r == (header(mem.words(), page as int).used == 0),
{
    proof {
        lemma_page_ready(page as int, mem);
    }
    read(page, mem).used == 0
}

/// The free list is non-empty, so the next [`pop`] succeeds.
#[inline]
pub fn has_free<M: Memory>(page: usize, mem: &M) -> (r: bool)
    requires
        page_ready(page as int, mem),
    ensures
        r == (free_list(mem.words(), page as int).len() > 0),
{
    proof {
        lemma_page_ready(page as int, mem);
        let l = free_list(mem.words(), page as int);
        if l.len() > 0 {
            assert(l[0] > 0);
        }
    }
    read(page, mem).free != 0
}

/// Some blocks have no link yet, so [`extend`] would succeed.
#[inline]
pub fn is_expandable<M: Memory>(page: usize, mem: &M) -> (r: bool)
    requires
        page_ready(page as int, mem),
    ensures
        r == (header(mem.words(), page as int).capacity < header(
            mem.words(),
            page as int,
        ).reserved),
{
    proof {
        lemma_page_ready(page as int, mem);
    }
    let h = read(page, mem);
    h.capacity < h.reserved
}

/// The full-queue flag of a header.
pub open spec fn flagged_full(h: Page) -> bool {
    h.flags & FLAG_IN_FULL_QUEUE != 0
}

/// Whether the heap has parked this page in its full queue.
#[inline]
pub fn in_full_queue<M: Memory>(page: usize, mem: &M) -> (r: bool)
    requires
        page_ready(page as int, mem),
    ensures
        r == flagged_full(header(mem.words(), page as int)),
{
    proof {
        lemma_page_ready(page as int, mem);
    }
    read(page, mem).flags & FLAG_IN_FULL_QUEUE != 0
}

/// The flags with the full-queue bit set or cleared.
pub fn full_flag(flags: u8, in_full: bool) -> (r: u8)
    ensures
        r == if in_full {
            flags | FLAG_IN_FULL_QUEUE
        } else {
            flags & !FLAG_IN_FULL_QUEUE
        },
        (r & FLAG_IN_FULL_QUEUE != 0) == in_full,
        in_full == (flags & FLAG_IN_FULL_QUEUE != 0) ==> r == flags,
{
    proof {
        assert((flags | 1u8) & 1 != 0) by (bit_vector);
        assert((flags & !1u8) & 1 == 0) by (bit_vector);
        assert(flags & 1 != 0 ==> flags | 1u8 == flags) by (bit_vector);
        assert(flags & 1 == 0 ==> flags & !1u8 == flags) by (bit_vector);
    }
    if in_full {
        flags | FLAG_IN_FULL_QUEUE
    } else {
        flags & !FLAG_IN_FULL_QUEUE
    }
}

/// Record whether the page is in the heap's full queue.
pub fn set_in_full_queue<M: Memory>(page: usize, mem: &mut M, in_full: bool)
    requires
        page_ready(page as int, old(mem)),
    ensures
        stored(old(mem), final(mem)),
        only_header_changed(old(mem).words(), final(mem).words(), page as int),
        page_wf(final(mem).words(), page as int),
        free_list(final(mem).words(), page as int) == free_list(old(mem).words(), page as int),
        flagged_full(header(final(mem).words(), page as int)) == in_full,
        ({
            let h = header(old(mem).words(), page as int);
            header(final(mem).words(), page as int) == (Page {
                flags: if in_full {
                    h.flags | FLAG_IN_FULL_QUEUE
                } else {
                    h.flags & !FLAG_IN_FULL_QUEUE
                },
                ..h
            })
        }),
{
    let ghost w = mem.words();
    proof {
        lemma_page_ready(page as int, mem);
    }
    let h = read(page, mem);
    let k = Page { flags: full_flag(h.flags, in_full), ..h };
    write(page, mem, &k);
    proof {
        let l = free_list(w, page as int);
        lemma_page_relabel(w, mem.words(), page as int, l);
        lemma_free_list(mem.words(), page as int, l);
    }
}

/// The page's kind.
pub fn kind<M: Memory>(page: usize, mem: &M) -> (r: PageKind)
    requires
        page_ready(page as int, mem),
    ensures
        r == bin_kind(header(mem.words(), page as int).bin as int),
{
    proof {
        lemma_page_ready(page as int, mem);
    }
    match read(page, mem).kind {
        0 => PageKind::Small,
        1 => PageKind::Medium,
        _ => PageKind::Large,
    }
}

/// Addresses `(start, end)` of the block area: block 0 starts at `start` and the last block ends
/// at `end` (exclusive), inside the page.
pub fn block_area<M: Memory>(page: usize, mem: &M) -> (r: (usize, usize))
    requires
        page_ready(page as int, mem),
    ensures
        ({
            let h = header(mem.words(), page as int);
            &&& r.0 == block_addr(page as int, h, 0)
            &&& r.1 == block_addr(page as int, h, h.reserved as int)
            &&& page + HEADER_BYTES <= r.0
            &&& r.1 <= page + page_bytes(h)
        }),
{
    proof {
        lemma_page_ready(page as int, mem);
    }
    let h = read(page, mem);
    proof {
        lemma_page_shape(page as int, h);
        law_page_geometry(h.bin as int);
        lemma_block_in_page(page as int, h, 0);
        assert(0 * h.block_size == 0) by (nonlinear_arith);
        assert(h.reserved * h.block_size >= 0) by (nonlinear_arith);
    }
    let start: usize = page + h.block_start as usize;
    let end: usize = start + h.reserved as usize * h.block_size as usize;
    (start, end)
}

/// Index of `block` among the blocks that have been made available, or `None` if it lies
/// outside them or is not on a block boundary.
pub fn block_index(page: usize, h: &Page, block: usize) -> (r: Option<usize>)
    requires
        header_ok(*h),
        page_addr_ok(page as int, *h),
    ensures
        r matches Some(i) ==> i < h.capacity && block == block_addr(page as int, *h, i as int),
        r is None ==> !is_block(page as int, *h, h.capacity as int, block as int),
{
    proof {
        lemma_page_shape(page as int, *h);
        assert forall|i: int| 0 <= i implies page + h.block_start <= #[trigger] block_addr(
            page as int,
            *h,
            i,
        ) by {
            assert(i * h.block_size >= 0) by (nonlinear_arith)
                requires
                    0 <= i,
            ;
        }
    }
    let start: usize = page + h.block_start as usize;
    if block < start {
        return None;
    }
    let offset: usize = block - start;
    let size: usize = h.block_size as usize;
    let index: usize = offset / size;
    proof {
        vstd::arithmetic::div_mod::lemma_fundamental_div_mod(offset as int, size as int);
        assert(size as int * index as int == index as int * size as int) by (nonlinear_arith);
        if is_block(page as int, *h, h.capacity as int, block as int) {
            let i: int = choose|i: int|
                0 <= i < h.capacity && block == #[trigger] block_addr(page as int, *h, i);
            vstd::arithmetic::div_mod::lemma_fundamental_div_mod_converse(
                offset as int,
                size as int,
                i,
                0,
            );
        }
    }
    if offset % size == 0 && index < h.capacity as usize {
        Some(index)
    } else {
        None
    }
}

/// What is wrong with a header at `p`, if anything: the first of these that applies.
pub open spec fn header_fault(h: Page, p: int) -> Option<Seq<char>> {
    let b = h.bin as int;
    if h.kind > 2 {
        Some("kind byte is not a PageKind"@)
    } else if !bin_in_range(h.bin) {
        Some("bin out of range"@)
    } else if h.kind != kind_byte(bin_kind(b)) {
        Some("kind does not match bin"@)
    } else if h.block_size != bin_bytes(b) {
        Some("block_size does not match bin"@)
    } else if h.block_start != first_block(bin_bytes(b)) {
        Some("block_start does not match block_size"@)
    } else if h.reserved != page_blocks(bin_kind(b), bin_bytes(b)) {
        Some("reserved does not match page geometry"@)
    } else if p % kind_page_size(bin_kind(b)) != 0 {
        Some("page address is not aligned to its kind"@)
    } else if h.capacity > h.reserved {
        Some("capacity exceeds reserved"@)
    } else if h.used > h.capacity {
        Some("used exceeds capacity"@)
    } else {
        None
    }
}

/// What is wrong with the free list from address `cur` on, `len` blocks into it, if anything.
pub open spec fn list_fault(w: Map<int, u64>, p: int, h: Page, cur: int, len: int) -> Option<
    Seq<char>,
>
    decreases h.capacity - h.used - len,
{
    if cur == 0 {
        if len == h.capacity - h.used {
            None
        } else {
            Some("used + free list length != capacity"@)
        }
    } else if len >= h.capacity - h.used {
        Some("free list longer than capacity - used (cycle or lost block)"@)
    } else if !is_block(p, h, h.capacity as int, cur) {
        Some("free link outside the initialised block area or misaligned"@)
    } else {
        list_fault(w, p, h, w[cur] as usize as int, len + 1)
    }
}

/// What is wrong with the page at `p`, if anything.
pub open spec fn page_fault(w: Map<int, u64>, p: int) -> Option<Seq<char>> {
    let h = header(w, p);
    match header_fault(h, p) {
        Some(e) => Some(e),
        None => list_fault(w, p, h, h.free as int, 0),
    }
}

/// Check a header against the geometry of its bin and its own counters.
pub fn check_header(h: &Page, page: usize) -> (r: Result<(), &'static str>)
    ensures
        r is Ok <==> header_fault(*h, page as int) is None,
        r is Ok ==> header_ok(*h),
        r matches Err(e) ==> header_fault(*h, page as int) == Some(e@),
{
    let kind = match kind_from_u8(h.kind) {
        Some(kind) => kind,
        None => {
            return Err("kind byte is not a PageKind");
        },
    };
    if h.bin < 1 || h.bin > MAX_BIN {
        return Err("bin out of range");
    }
    if kind_to_u8(kind_of_bin(h.bin)) != h.kind {
        return Err("kind does not match bin");
    }
    let size: usize = bin_size(h.bin);
    proof {
        lemma_bin_bytes_word(h.bin as int);
        law_page_geometry(h.bin as int);
    }
    if h.block_size as usize != size {
        return Err("block_size does not match bin");
    }
    if h.block_start as usize != block_start(size) {
        return Err("block_start does not match block_size");
    }
    if h.reserved as usize != blocks_per_page(kind, size) {
        return Err("reserved does not match page geometry");
    }
    if page % kind.page_size() != 0 {
        return Err("page address is not aligned to its kind");
    }
    if h.capacity > h.reserved {
        return Err("capacity exceeds reserved");
    }
    if h.used > h.capacity {
        return Err("used exceeds capacity");
    }
    Ok(())
}

/// Check the page invariants that can be checked from the header and the free list. The free
/// list is walked only while its links stay inside the initialised block area, so a corrupt list
/// yields an error rather than an access outside the page.
pub fn validate<M: Memory>(page: usize, mem: &M) -> (r: Result<(), &'static str>)
    requires
        in_order(mem),
        page > 0,
        page % SLICE_SIZE == 0,
        mem.owns(slice_of(page as int)),
        header_fault(header(mem.words(), page as int), page as int) is None ==> page + page_bytes(
            header(mem.words(), page as int),
        ) <= usize::MAX && owns_bytes(
            mem,
            page as int,
            page_bytes(header(mem.words(), page as int)),
        ),
    ensures
        r is Ok <==> page_fault(mem.words(), page as int) is None,
        r matches Err(e) ==> page_fault(mem.words(), page as int) == Some(e@),
{
    let ghost p: int = page as int;
    let ghost w = mem.words();
    let h = read(page, mem);
    match check_header(&h, page) {
        Ok(_) => {},
        Err(e) => {
            return Err(e);
        },
    }
    let expected: u32 = h.capacity - h.used;
    let mut len: u32 = 0;
    let mut cur: usize = h.free;
    while cur != 0
        invariant
            in_order(mem),
            w == mem.words(),
            p == page,
            header_ok(h),
            h == header(w, p),
            header_fault(h, p) is None,
            page_addr_ok(p, h),
            owns_bytes(mem, p, page_bytes(h)),
            expected == h.capacity - h.used,
            len <= expected,
            list_fault(w, p, h, h.free as int, 0) == list_fault(w, p, h, cur as int, len as int),
        decreases expected - len + if cur == 0 {
            0int
        } else {
            1int
        },
    {
        // A list with a repeated block never ends, so exceeding the expected length also
        // catches duplicates.
        if len == expected {
            return Err("free list longer than capacity - used (cycle or lost block)");
        }
        match block_index(page, &h, cur) {
            Some(i) => {
                proof {
                    lemma_block_in_page(p, h, i as int);
                    assert(is_block(p, h, h.capacity as int, cur as int));
                    assert(mem.owns(slice_of(block_addr(p, h, i as int))));
                }
            },
            None => {
                return Err("free link outside the initialised block area or misaligned");
            },
        }
        cur = mem.load(cur) as usize;
        len = len + 1;
    }
    if len != expected {
        return Err("used + free list length != capacity");
    }
    Ok(())
}

/// No node of a list that ends is visited twice.
proof fn lemma_chain_distinct(w: Map<int, u64>, head: int, l: Seq<int>)
    requires
        chain(w, head, l),
    ensures
        l.no_duplicates(),
{
    assert forall|i: int, j: int| 0 <= i < j < l.len() implies l[i] != l[j] by {
        if l[i] == l[j] {
            let a = l.skip(i);
            let b = l.skip(j);
            assert(chain(w, l[i], a)) by {
                assert forall|k: int| 0 <= k < a.len() implies #[trigger] w[a[k]] == link(a, k) by {
                    assert(w[l[i + k]] == link(l, i + k));
                }
            }
            assert(chain(w, l[j], b)) by {
                assert forall|k: int| 0 <= k < b.len() implies #[trigger] w[b[k]] == link(b, k) by {
                    assert(w[l[j + k]] == link(l, j + k));
                }
            }
            lemma_chain_unique(w, l[i], a, b);
            assert(a.len() == b.len());
        }
    }
}

/// A walk that finds no fault has walked a list of blocks.
proof fn lemma_walk(w: Map<int, u64>, p: int, h: Page, cur: int, len: int) -> (l: Seq<int>)
    requires
        list_fault(w, p, h, cur, len) is None,
        0 <= cur,
        len <= h.capacity - h.used,
        forall|x: int| #[trigger] w[x] <= usize::MAX,
    ensures
        chain(w, cur, l),
        l.len() == h.capacity - h.used - len,
        forall|i: int| 0 <= i < l.len() ==> #[trigger] is_block(p, h, h.capacity as int, l[i]),
    decreases h.capacity - h.used - len,
{
    if cur == 0 {
        Seq::empty()
    } else {
        let t = lemma_walk(w, p, h, w[cur] as int, len + 1);
        let l = seq![cur] + t;
        assert forall|i: int| 0 <= i < l.len() implies #[trigger] w[l[i]] == link(l, i) by {
            if i > 0 {
                assert(w[t[i - 1]] == link(t, i - 1));
            }
        }
        assert forall|i: int| 0 <= i < l.len() implies #[trigger] is_block(
            p,
            h,
            h.capacity as int,
            l[i],
        ) by {
            if i > 0 {
                assert(is_block(p, h, h.capacity as int, t[i - 1]));
            }
        }
        l
    }
}

/// A walk along a list of blocks finds no fault.
proof fn lemma_walk_ok(w: Map<int, u64>, p: int, h: Page, l: Seq<int>, k: int)
    requires
        0 <= k <= l.len(),
        l.len() == h.capacity - h.used,
        chain(w, h.free as int, l),
        forall|i: int| 0 <= i < l.len() ==> #[trigger] is_block(p, h, h.capacity as int, l[i]),
        forall|i: int| 0 <= i < l.len() ==> #[trigger] w[l[i]] <= usize::MAX,
    ensures
        list_fault(
            w,
            p,
            h,
            if k < l.len() {
                l[k]
            } else {
                0
            },
            k,
        ) is None,
    decreases l.len() - k,
{
    if k < l.len() {
        lemma_walk_ok(w, p, h, l, k + 1);
        assert(w[l[k]] == link(l, k));
        assert(is_block(p, h, h.capacity as int, l[k]));
    }
}

/// [`validate`] finds no fault in a page whose invariants hold.
pub proof fn lemma_valid_page(w: Map<int, u64>, p: int)
    requires
        page_wf(w, p),
    ensures
        page_fault(w, p) is None,
{
    let l = choose|l: Seq<int>| page_inv(w, p, l);
    let h = header(w, p);
    lemma_page_shape(p, h);
    assert forall|i: int| 0 <= i < l.len() implies #[trigger] w[l[i]] <= usize::MAX by {
        if i + 1 < l.len() {
            assert(is_block(p, h, h.capacity as int, l[i + 1]));
            let n: int = choose|n: int|
                0 <= n < h.capacity && l[i + 1] == #[trigger] block_addr(p, h, n);
            lemma_block_in_page(p, h, n);
        }
    }
    lemma_walk_ok(w, p, h, l, 0);
}

/// A page with all its blocks handed out has no free list and cannot be extended.
pub proof fn lemma_full_header(w: Map<int, u64>, p: int)
    requires
        page_wf(w, p),
        header(w, p).used == header(w, p).reserved,
    ensures
        header(w, p).free == 0,
        header(w, p).capacity == header(w, p).reserved,
{
    let l = choose|l: Seq<int>| page_inv(w, p, l);
    assert(l.len() == 0);
}

/// [`validate`] finds no fault in a page exactly when its geometry, counters and free list are
/// as the invariants say; what it cannot see is the zero flag.
pub proof fn law_validate_decides(w: Map<int, u64>, p: int)
    requires
        p > 0,
        header_ok(header(w, p)) ==> p + page_bytes(header(w, p)) <= usize::MAX,
        forall|x: int| #[trigger] w[x] <= usize::MAX,
    ensures
        page_fault(w, p) is None <==> {
            let h = header(w, p);
            &&& header_ok(h)
            &&& page_addr_ok(p, h)
            &&& exists|l: Seq<int>| is_free_list(w, p, h, l)
        },
{
    let h = header(w, p);
    if page_fault(w, p) is None {
        let l = lemma_walk(w, p, h, h.free as int, 0);
        lemma_chain_distinct(w, h.free as int, l);
        assert(is_free_list(w, p, h, l));
    }
    if header_ok(h) && page_addr_ok(p, h) && exists|l: Seq<int>| is_free_list(w, p, h, l) {
        let l = choose|l: Seq<int>| is_free_list(w, p, h, l);
        lemma_walk_ok(w, p, h, l, 0);
    }
}

/// A header with the same geometry puts the blocks in the same places.
proof fn lemma_same_blocks(p: int, h: Page, k: Page, n: int, a: int)
    requires
        k.block_start == h.block_start,
        k.block_size == h.block_size,
    ensures
        is_block(p, k, n, a) == is_block(p, h, n, a),
{
    assert forall|i: int| #[trigger] block_addr(p, k, i) == block_addr(p, h, i) by {}
    if is_block(p, h, n, a) {
        let i: int = choose|i: int| 0 <= i < n && a == #[trigger] block_addr(p, h, i);
        assert(a == block_addr(p, k, i));
    }
    if is_block(p, k, n, a) {
        let i: int = choose|i: int| 0 <= i < n && a == #[trigger] block_addr(p, k, i);
        assert(a == block_addr(p, h, i));
    }
}

/// Popping a block makes it live and changes nothing for the others.
pub proof fn lemma_pop_live(w: Map<int, u64>, v: Map<int, u64>, p: int, block: int)
    requires
        page_wf(w, p),
        popped(w, v, p, block),
    ensures
        !is_live(w, p, block),
        is_live(v, p, block),
        is_block(p, header(w, p), header(w, p).capacity as int, block),
        forall|a: int| a != block ==> is_live(v, p, a) == #[trigger] is_live(w, p, a),
{
    let h = header(w, p);
    let k = header(v, p);
    let l = free_list(w, p);
    let t = l.drop_first();
    assert(page_inv(w, p, l));
    assert(l.contains(l[0]));
    assert(is_block(p, h, h.capacity as int, l[0]));
    lemma_same_blocks(p, h, k, h.capacity as int, block);
    assert(!t.contains(block)) by {
        if t.contains(block) {
            let i: int = choose|i: int| 0 <= i < t.len() && t[i] == block;
            assert(l[i + 1] == l[0]);
        }
    }
    assert forall|a: int| a != block implies is_live(v, p, a) == #[trigger] is_live(w, p, a) by {
        lemma_same_blocks(p, h, k, h.capacity as int, a);
        if l.contains(a) {
            let i: int = choose|i: int| 0 <= i < l.len() && l[i] == a;
            assert(t[i - 1] == a);
        }
        if t.contains(a) {
            let i: int = choose|i: int| 0 <= i < t.len() && t[i] == a;
            assert(l[i + 1] == a);
        }
    }
}

/// Pushing a block makes it free and changes nothing for the others.
pub proof fn lemma_push_live(w: Map<int, u64>, v: Map<int, u64>, p: int, block: int)
    requires
        page_wf(w, p),
        pushed(w, v, p, block),
    ensures
        !is_live(v, p, block),
        forall|a: int| a != block ==> is_live(v, p, a) == #[trigger] is_live(w, p, a),
{
    let h = header(w, p);
    let k = header(v, p);
    let l = free_list(w, p);
    let t = seq![block] + l;
    assert(t[0] == block);
    assert(t.contains(block));
    assert forall|a: int| a != block implies is_live(v, p, a) == #[trigger] is_live(w, p, a) by {
        lemma_same_blocks(p, h, k, h.capacity as int, a);
        if l.contains(a) {
            let i: int = choose|i: int| 0 <= i < l.len() && l[i] == a;
            assert(t[i + 1] == a);
        }
        if t.contains(a) {
            let i: int = choose|i: int| 0 <= i < t.len() && t[i] == a;
            assert(l[i - 1] == a);
        }
    }
}

/// The page after an extension.
pub open spec fn extended_page(w: Map<int, u64>, v: Map<int, u64>, p: int) -> bool {
    let h = header(w, p);
    let batch = block_batch(p, h, h.capacity as int, extension(h));
    &&& h.capacity < h.reserved
    &&& free_list(v, p) == batch + free_list(w, p)
    &&& header(v, p) == (Page {
        free: block_addr(p, h, h.capacity as int) as usize,
        capacity: (h.capacity + extension(h)) as u32,
        ..h
    })
    &&& forall|x: int|
        !(p <= x < p + HEADER_BYTES) && !batch.contains(x) ==> #[trigger] v[x] == w[x]
}

/// An extension makes no block live and leaves the live ones alone.
pub proof fn lemma_extend_live(w: Map<int, u64>, v: Map<int, u64>, p: int)
    requires
        page_wf(w, p),
        extended_page(w, v, p),
    ensures
        free_list(v, p).len() > 0,
        forall|a: int| is_live(v, p, a) == #[trigger] is_live(w, p, a),
        forall|x: int|
            !(p <= x < p + page_bytes(header(w, p))) ==> #[trigger] v[x] == w[x],
        forall|a: int, x: int|
            #![trigger is_live(w, p, a), v[x]]
            is_live(w, p, a) && a <= x < a + header(w, p).block_size ==> v[x] == w[x],
{
    let h = header(w, p);
    let k = header(v, p);
    let l = free_list(w, p);
    let c: int = h.capacity as int;
    let n: int = extension(h);
    let batch = block_batch(p, h, c, n);
    let t = batch + l;
    assert(page_inv(w, p, l));
    lemma_page_shape(p, h);
    assert(t[0] == batch[0]);
    assert forall|j: int| 0 <= j < n implies t.contains(#[trigger] block_addr(p, h, c + j)) by {
        assert(t[j] == block_addr(p, h, c + j));
    }
    assert forall|a: int| is_live(v, p, a) == #[trigger] is_live(w, p, a) by {
        lemma_same_blocks(p, h, k, c, a);
        if l.contains(a) {
            let i: int = choose|i: int| 0 <= i < l.len() && l[i] == a;
            assert(t[n + i] == a);
        }
        if is_live(v, p, a) {
            let i: int = choose|i: int| 0 <= i < k.capacity && a == #[trigger] block_addr(p, k, i);
            assert(a == block_addr(p, h, i));
            if i >= c {
                assert(t.contains(block_addr(p, h, c + (i - c))));
            }
        }
        if is_live(w, p, a) {
            let i: int = choose|i: int| 0 <= i < c && a == #[trigger] block_addr(p, h, i);
            assert(a == block_addr(p, k, i));
            if t.contains(a) {
                let j: int = choose|j: int| 0 <= j < t.len() && t[j] == a;
                if j < n {
                    lemma_blocks_apart(p, h, i, c + j);
                } else {
                    assert(l[j - n] == a);
                }
            }
        }
    }
    assert forall|j: int| 0 <= j < n implies p <= #[trigger] batch[j] && batch[j] + 8 <= p
        + page_bytes(h) by {
        lemma_block_in_page(p, h, c + j);
    }
    assert forall|x: int| !(p <= x < p + page_bytes(h)) implies #[trigger] v[x] == w[x] by {
        if batch.contains(x) {
            let j: int = choose|j: int| 0 <= j < n && batch[j] == x;
        }
    }
    assert forall|a: int, x: int|
        #![trigger is_live(w, p, a), v[x]]
        is_live(w, p, a) && a <= x < a + h.block_size implies v[x] == w[x] by {
        let i: int = choose|i: int| 0 <= i < c && a == #[trigger] block_addr(p, h, i);
        lemma_block_in_page(p, h, i);
        if batch.contains(x) {
            let j: int = choose|j: int| 0 <= j < n && batch[j] == x;
            lemma_blocks_apart(p, h, i, c + j);
        }
    }
}

/// Writing into a live block is no matter to the page.
pub proof fn lemma_live_write(w: Map<int, u64>, v: Map<int, u64>, p: int, a: int)
    requires
        page_wf(w, p),
        is_live(w, p, a),
        forall|x: int|
            !(a <= x < a + header(w, p).block_size) ==> #[trigger] v[x] == w[x],
    ensures
        header(v, p) == header(w, p),
        page_wf(v, p),
        free_list(v, p) == free_list(w, p),
{
    let h = header(w, p);
    let l = free_list(w, p);
    assert(page_inv(w, p, l));
    lemma_page_shape(p, h);
    let n: int = choose|n: int| 0 <= n < h.capacity && a == #[trigger] block_addr(p, h, n);
    lemma_block_in_page(p, h, n);
    lemma_header_words(w, v, p);
    assert forall|i: int| 0 <= i < l.len() implies #[trigger] v[l[i]] == link(l, i) by {
        assert(is_block(p, h, h.capacity as int, l[i]));
        assert(l.contains(l[i]));
        lemma_blocks_apart_addr(p, h, h.capacity as int, a, l[i]);
        assert(w[l[i]] == link(l, i));
    }
    if h.free_is_zero {
        assert forall|i: int| 0 <= i < l.len() implies block_zero(v, h, #[trigger] l[i], 8) by {
            assert(is_block(p, h, h.capacity as int, l[i]));
            assert(l.contains(l[i]));
            lemma_blocks_apart_addr(p, h, h.capacity as int, a, l[i]);
            assert(block_zero(w, h, l[i], 8));
            assert forall|x: int|
                l[i] + 8 <= x < l[i] + h.block_size && x % 8 == 0 implies #[trigger] v[x] == 0 by {
                assert(w[x] == 0);
            }
        }
        assert forall|i: int| h.capacity <= i < h.reserved implies block_zero(
            v,
            h,
            #[trigger] block_addr(p, h, i),
            0,
        ) by {
            let b: int = block_addr(p, h, i);
            lemma_blocks_apart(p, h, n, i);
            assert(block_zero(w, h, b, 0));
            assert forall|x: int| b <= x < b + h.block_size && x % 8 == 0 implies #[trigger] v[x]
                == 0 by {
                assert(w[x] == 0);
            }
        }
    }
    assert(page_inv(v, p, l));
    lemma_free_list(v, p, l);
}

/// Masking any address inside a page that lies at a multiple of its size gives the page.
pub proof fn law_masking_recovers_the_page(kind: PageKind, page: int, offset: int)
    requires
        page % kind_page_size(kind) == 0,
        0 <= offset < kind_page_size(kind),
    ensures
        (page + offset) - (page + offset) % kind_page_size(kind) == page,
{
    let size: int = kind_page_size(kind);
    vstd::arithmetic::div_mod::lemma_mod_adds(page, offset, size);
    vstd::arithmetic::div_mod::lemma_small_mod(offset as nat, size as nat);
}

/// Every block of a page is aligned as far as its size allows, and every byte of it lies behind
/// the header and inside the page, so masking its address gives the page.
pub proof fn law_blocks_lie_inside_their_page(b: int, page: int, i: int, j: int)
    requires
        1 <= b <= MAX_BIN,
        page % kind_page_size(bin_kind(b)) == 0,
        0 <= i < page_blocks(bin_kind(b), bin_bytes(b)),
        0 <= j < bin_bytes(b),
    ensures
        ({
            let offset = first_block(bin_bytes(b)) + i * bin_bytes(b);
            &&& HEADER_BYTES <= offset
            &&& offset % 8 == 0
            &&& offset % crate::bins::natural_align(bin_bytes(b)) == 0
            &&& offset + bin_bytes(b) <= kind_page_size(bin_kind(b))
            &&& (page + offset + j) - (page + offset + j) % kind_page_size(bin_kind(b)) == page
        }),
{
    let kind = bin_kind(b);
    let bytes: int = bin_bytes(b);
    let n: int = page_blocks(kind, bytes);
    let offset: int = first_block(bytes) + i * bytes;
    crate::bins::law_page_geometry(b);
    crate::bins::lemma_bin_bytes_word(b);
    crate::bins::lemma_first_block(bytes);
    assert(0 <= i * bytes && i * bytes + bytes <= n * bytes) by (nonlinear_arith)
        requires
            0 <= i < n,
            bytes > 0,
    ;
    crate::arith::lemma_multiple_of_multiple(i, bytes, 8);
    crate::arith::lemma_sum_of_multiples(first_block(bytes), i * bytes, 8);
    let natural: int = crate::bins::natural_align(bytes);
    crate::bins::lemma_natural_align(bytes);
    crate::arith::lemma_multiple_of_multiple(i, bytes, natural);
    crate::arith::lemma_sum_of_multiples(first_block(bytes), i * bytes, natural);
    law_masking_recovers_the_page(kind, page, offset + j);
}

/// An extension links the next blocks in order: all that are left if they take no more than 8 KiB,
/// as many as 8 KiB hold otherwise, but always one.
pub proof fn law_extensions_are_bounded(h: Page, p: int, k: int)
    requires
        header_ok(h),
        h.capacity < h.reserved,
        0 <= k < extension(h),
    ensures
        ({
            let n = extension(h);
            let left = h.reserved - h.capacity;
            &&& 1 <= n <= left
            &&& n == 1 || n * h.block_size <= 8192
            &&& n == left || (n + 1) * h.block_size > 8192
            &&& block_batch(p, h, h.capacity as int, n).len() == n
            &&& block_batch(p, h, h.capacity as int, n)[k] == p + h.block_start + (h.capacity + k)
                * h.block_size
        }),
{
    let size: int = h.block_size as int;
    lemma_bin_bytes_word(h.bin as int);
    let q: int = 8192int / size;
    vstd::arithmetic::div_mod::lemma_fundamental_div_mod(8192, size);
    vstd::arithmetic::div_mod::lemma_mod_bound(8192, size);
    let n: int = extension(h);
    assert(q >= 0 && q * size <= 8192 && (q + 1) * size > 8192) by (nonlinear_arith)
        requires
            8192 == size * q + 8192int % size,
            0 <= 8192int % size < size,
            size > 0,
    ;
    if n != 1 {
        assert(n * size <= q * size) by (nonlinear_arith)
            requires
                n <= q,
                size > 0,
        ;
    }
    if n != h.reserved - h.capacity {
        assert((n + 1) * size >= (q + 1) * size) by (nonlinear_arith)
            requires
                n >= q,
                size > 0,
        ;
    }
}

} // verus!
