//! The heap over a simulated linear memory, ready for the model tester.
//!
//! [`SimHeap`] owns a [`SimMemory`] and a [`Heap`] on top, so the same operation stream can be
//! replayed against it and against other allocators.
use vstd::prelude::*;

use super::model::{apart, bytes_kept, proper_block, RawAlloc, Request};
use crate::arith::{lemma_round_up, min};
use crate::backend::{first_whole_slice, is_pristine, max_slices, Memory, SimMemory};
use crate::bins::SLICE_SIZE;
use crate::bytes::{byte_at, byte_of};
use crate::heap::entry::{allocated, allocated_at, freed, same_but_words};
use crate::heap::laws::{law_live_blocks_are_apart, law_live_blocks_are_usable};
use crate::heap::resize::{copied, resized};
use crate::heap::{block_is_zero, empty_model, Heap};
use crate::layout::Layout;
use crate::model::{contents_kept, QUEUE_COUNT};
use crate::slices::GrowPolicy;

verus! {

/// The bytes of the live blocks.
pub open spec fn block_bytes(blocks: Map<int, Layout>, words: Map<int, u64>) -> Map<int, Seq<u8>> {
    Map::new(
        |b: int| blocks.dom().contains(b),
        |b: int| Seq::new(blocks[b].size() as nat, |k: int| byte_at(words, b + k)),
    )
}

/// A byte of a block whose word is the same as another block's.
proof fn lemma_same_byte(w: Map<int, u64>, v: Map<int, u64>, a: int, b: int, k: int)
    requires
        a % 8 == 0,
        b % 8 == 0,
        v[b + (k - k % 8)] == w[a + (k - k % 8)],
    ensures
        byte_at(v, b + k) == byte_at(w, a + k),
{
    assert((a + k) % 8 == k % 8);
    assert((b + k) % 8 == k % 8);
}

/// Words that are kept are bytes that are kept.
proof fn lemma_bytes_kept<M: Memory, const WORDS: usize>(
    o: &Heap<M, WORDS>,
    n: &Heap<M, WORDS>,
    except: int,
)
    requires
        o.wf(),
        contents_kept(o.words(), n.words(), o@, if except == -1 {
            0
        } else {
            except
        }),
        forall|b: int| #[trigger]
            o.blocks().dom().contains(b) && b != except ==> n.blocks().dom().contains(b)
                && n.blocks()[b] == o.blocks()[b],
    ensures
        bytes_kept(
            block_bytes(o.blocks(), o.words()),
            block_bytes(n.blocks(), n.words()),
            o.blocks(),
            except,
        ),
{
    let w = o.words();
    let v = n.words();
    let held = o.blocks();
    let c = block_bytes(held, w);
    let d = block_bytes(n.blocks(), v);
    assert forall|b: int, k: int|
        held.dom().contains(b) && b != except && 0 <= k < held[b].size() implies #[trigger] d[b][k]
        == c[b][k] by {
        o.lemma_block_shape(b);
        lemma_round_up(held[b].size() as int, 8);
        let x: int = b + (k - k % 8);
        assert(o@.blocks.dom().contains(b));
        assert(v[x] == w[x]);
        lemma_same_byte(w, v, b, b, k);
        assert(n.blocks().dom().contains(b));
    }
}

/// A block that is live is a proper one among the others.
proof fn lemma_proper_block<M: Memory, const WORDS: usize>(
    n: &Heap<M, WORDS>,
    others: Map<int, Layout>,
    a: int,
)
    requires
        n.wf(),
        n.blocks().dom().contains(a),
        !others.dom().contains(a),
        forall|b: int| #[trigger]
            others.dom().contains(b) ==> n.blocks().dom().contains(b) && n.blocks()[b] == others[b],
    ensures
        proper_block(others, a, n.blocks()[a]),
{
    let layout = n.blocks()[a];
    n.lemma_block_shape(a);
    law_live_blocks_are_usable(n, a, a);
    assert forall|b: int| #[trigger] others.dom().contains(b) implies apart(
        a,
        layout.size() as int,
        b,
        others[b].size() as int,
    ) by {
        n.lemma_block_shape(b);
        if a <= b < a + layout.size() {
            law_live_blocks_are_apart(n, a, b, b);
        }
        if b <= a < b + others[b].size() {
            law_live_blocks_are_apart(n, b, a, a);
        }
    }
}

impl<M: Memory, const WORDS: usize> RawAlloc for Heap<M, WORDS> {
    open spec fn valid(&self) -> bool {
        self.wf()
    }

    open spec fn held(&self) -> Map<int, Layout> {
        self.blocks()
    }

    open spec fn contents(&self) -> Map<int, Seq<u8>> {
        block_bytes(self.blocks(), self.words())
    }

    open spec fn honest(&self) -> bool {
        true
    }

    open spec fn gave(old: &Self, new: &Self, request: Request, r: Option<usize>) -> bool {
        match request {
            Request::Alloc { layout, zeroed } => allocated(old, new, layout, zeroed, r)
                && allocated_at(old, new, layout, r),
            Request::Dealloc { block, layout } => freed(old, new, block as int),
            Request::Realloc { block, layout, new_size } => resized(
                old,
                new,
                block as int,
                Layout::of(new_size, layout.align()),
                r,
            ),
            Request::WriteWord { block, offset, word } => same_but_words(old, new) && new.words()
                == old.words().insert(block + offset, word),
            Request::WriteByte { block, offset, byte } => {
                &&& same_but_words(old, new)
                &&& byte_at(new.words(), block + offset) == byte
                &&& forall|x: int|
                    x != block + offset ==> #[trigger] byte_at(new.words(), x) == byte_at(
                        old.words(),
                        x,
                    )
            },
        }
    }

    open spec fn footprint(&self) -> Option<usize> {
        let end = self.memory_view().end() * SLICE_SIZE;
        let base = self.memory_view().base_addr();
        if base <= end <= usize::MAX {
            Some((end - base) as usize)
        } else {
            None
        }
    }

    fn allocate(&mut self, layout: Layout) -> (r: Option<usize>) {
        let r = Heap::allocate(self, layout);
        proof {
            lemma_bytes_kept(old(self), self, -1);
            match r {
                Some(a) => {
                    lemma_proper_block(self, old(self).blocks(), a as int);
                },
                None => {},
            }
        }
        r
    }

    fn alloc_zeroed(&mut self, layout: Layout) -> (r: Option<usize>) {
        let r = Heap::alloc_zeroed(self, layout);
        proof {
            lemma_bytes_kept(old(self), self, -1);
            match r {
                Some(a) => {
                    lemma_proper_block(self, old(self).blocks(), a as int);
                    lemma_zero_bytes(self, a as int);
                },
                None => {},
            }
        }
        r
    }

    fn dealloc(&mut self, block: usize, layout: Layout) {
        Heap::dealloc(self, block, layout);
        proof {
            lemma_bytes_kept(old(self), self, block as int);
        }
    }

    fn realloc(&mut self, block: usize, layout: Layout, new_size: usize) -> (r: Option<usize>) {
        let r = Heap::realloc(self, block, layout, new_size);
        proof {
            Layout::lemma_of(new_size, layout.align());
            match r {
                Some(a) => {
                    let others = old(self).blocks().remove(block as int);
                    lemma_bytes_kept(old(self), self, block as int);
                    lemma_proper_block(self, others, a as int);
                    lemma_copied_bytes(old(self), self, block as int, a as int);
                },
                None => {
                    lemma_bytes_kept(old(self), self, -1);
                },
            }
        }
        r
    }

    /// Everything from the heap base to the current end of memory: the gap the heap reclaims plus
    /// every slice it has grown, whether or not it is in use.
    fn footprint_bytes(&self) -> (r: Option<usize>) {
        proof {
            self.lemma_memory_valid();
        }
        let mem = self.memory();
        let base: usize = mem.heap_base();
        match mem.size_slices().checked_mul(SLICE_SIZE) {
            Some(end) => {
                if base <= end {
                    Some(end - base)
                } else {
                    None
                }
            },
            None => None,
        }
    }

    fn read_word(&self, block: usize, offset: usize) -> (r: u64) {
        let r = self.load(block, offset);
        proof {
            self.lemma_block_shape(block as int);
            assert forall|j: u64| j < 8 implies #[trigger] byte_of(r, j)
                == self.contents()[block as int][offset + j] by {
                assert((block + offset + j) % 8 == j);
            }
        }
        r
    }

    fn write_word(&mut self, block: usize, offset: usize, value: u64) {
        proof {
            self.lemma_block_shape(block as int);
        }
        self.store(block, offset, value);
        proof {
            let b: int = block as int;
            let size: int = old(self).held()[b].size() as int;
            assert forall|k: int| 0 <= k < size implies #[trigger] self.contents()[b][k] == if offset
                <= k < offset + 8 {
                byte_of(value, (k - offset) as u64)
            } else {
                old(self).contents()[b][k]
            } by {
                assert((b + k) % 8 == k % 8);
                if offset <= k < offset + 8 {
                    assert(k % 8 == k - offset);
                }
            }
            lemma_other_bytes(old(self), self, b);
        }
    }

    fn read_byte(&self, block: usize, offset: usize) -> (r: u8) {
        Heap::read_byte(self, block, offset)
    }

    fn write_byte(&mut self, block: usize, offset: usize, value: u8) {
        Heap::write_byte(self, block, offset, value);
        proof {
            let held = old(self).held();
            old(self).lemma_block_shape(block as int);
            assert forall|b: int, k: int|
                held.dom().contains(b) && b != block && 0 <= k < held[b].size() implies
                #[trigger] self.contents()[b][k] == old(self).contents()[b][k] by {
                if b + k == block + offset {
                    law_live_blocks_are_apart(old(self), b, block as int, b + k);
                }
                assert(byte_at(self.words(), b + k) == byte_at(old(self).words(), b + k));
            }
        }
    }
}

/// A block of zero words is a block of zero bytes.
proof fn lemma_zero_bytes<M: Memory, const WORDS: usize>(n: &Heap<M, WORDS>, a: int)
    requires
        n.wf(),
        n.blocks().dom().contains(a),
        block_is_zero(n.words(), a, n.blocks()[a].size() as int),
    ensures
        forall|k: int|
            0 <= k < n.blocks()[a].size() ==> #[trigger] block_bytes(n.blocks(), n.words())[a][k]
                == 0,
{
    let size: int = n.blocks()[a].size() as int;
    n.lemma_block_shape(a);
    lemma_round_up(size, 8);
    assert forall|k: int| 0 <= k < size implies #[trigger] block_bytes(
        n.blocks(),
        n.words(),
    )[a][k] == 0 by {
        let x: int = a + (k - k % 8);
        assert(n.words()[x] == 0);
        assert((a + k) % 8 == k % 8);
        crate::bytes::lemma_byte_of_zero((k % 8) as u64);
    }
}

/// Words that were copied are bytes that were copied.
proof fn lemma_copied_bytes<M: Memory, const WORDS: usize>(
    o: &Heap<M, WORDS>,
    n: &Heap<M, WORDS>,
    a: int,
    b: int,
)
    requires
        o.wf(),
        n.wf(),
        o.blocks().dom().contains(a),
        n.blocks().dom().contains(b),
        copied(
            o.words(),
            n.words(),
            a,
            b,
            min(o.blocks()[a].size() as int, n.blocks()[b].size() as int),
        ),
    ensures
        forall|k: int|
            0 <= k < min(o.blocks()[a].size() as int, n.blocks()[b].size() as int)
                ==> #[trigger] block_bytes(n.blocks(), n.words())[b][k] == block_bytes(
                o.blocks(),
                o.words(),
            )[a][k],
{
    o.lemma_block_shape(a);
    n.lemma_block_shape(b);
    let bytes: int = min(o.blocks()[a].size() as int, n.blocks()[b].size() as int);
    assert forall|k: int| 0 <= k < bytes implies #[trigger] block_bytes(
        n.blocks(),
        n.words(),
    )[b][k] == block_bytes(o.blocks(), o.words())[a][k] by {
        let i: int = k - k % 8;
        assert(n.words()[b + i] == o.words()[a + i]);
        lemma_same_byte(o.words(), n.words(), a, b, k);
    }
}

/// Writing a word of one block leaves the bytes of the others alone.
proof fn lemma_other_bytes<M: Memory, const WORDS: usize>(
    o: &Heap<M, WORDS>,
    n: &Heap<M, WORDS>,
    a: int,
)
    requires
        o.wf(),
        o.blocks().dom().contains(a),
        n.blocks() == o.blocks(),
        exists|x: int, value: u64|
            a <= x && x + 8 <= a + o.blocks()[a].size() && n.words() == #[trigger] o.words().insert(
                x,
                value,
            ),
    ensures
        bytes_kept(
            block_bytes(o.blocks(), o.words()),
            block_bytes(n.blocks(), n.words()),
            o.blocks(),
            a,
        ),
{
    let (x, value): (int, u64) = choose|x: int, value: u64|
        a <= x && x + 8 <= a + o.blocks()[a].size() && n.words() == #[trigger] o.words().insert(
            x,
            value,
        );
    let held = o.blocks();
    o.lemma_block_shape(a);
    assert forall|b: int, k: int|
        held.dom().contains(b) && b != a && 0 <= k < held[b].size() implies #[trigger] block_bytes(
        n.blocks(),
        n.words(),
    )[b][k] == block_bytes(o.blocks(), o.words())[b][k] by {
        o.lemma_block_shape(b);
        let y: int = b + (k - k % 8);
        if y == x {
            law_live_blocks_are_apart(o, b, a, y);
        }
        lemma_same_byte(o.words(), n.words(), b, b, k);
    }
}

/// A [`Heap`] over a simulated linear memory.
///
/// `WORDS` sizes the heap's slice bitmap exactly as for [`Heap`].
pub struct SimHeap<const WORDS: usize> {
    pub heap: Heap<SimMemory, WORDS>,
}

/// Address of the simulated memory: 4 MiB, so that a word of the slice bitmap is aligned with it.
pub const REGION_BASE: usize = 0x40_0000;

impl<const WORDS: usize> SimHeap<WORDS> {
    /// A heap over a region of `total_slices` slices whose simulated memory is `initial_slices`
    /// long at first and whose heap base sits `heap_base_offset` bytes into the region.
    pub fn new(total_slices: usize, initial_slices: usize, heap_base_offset: usize) -> (r: Self)
        requires
            1 <= WORDS <= 1024,
            total_slices <= WORDS * 64,
            64 + total_slices <= max_slices(),
            total_slices * SLICE_SIZE <= usize::MAX,
            initial_slices <= total_slices,
            heap_base_offset < initial_slices * SLICE_SIZE,
        ensures
            r.heap.wf(),
            r.heap.blocks() == Map::<int, Layout>::empty(),
            r.heap@ == empty_model(),
            !r.heap.is_initialized(),
            r.heap.slow_calls() == 0,
            r.heap.retired() == (QUEUE_COUNT as int, 0int),
            r.heap.slice_view().free == Set::<int>::empty(),
            is_pristine(&r.heap.memory_view()),
            forall|s: int| #[trigger]
                r.heap.memory_view().owns(s) <==> first_whole_slice(
                    r.heap.memory_view().base_addr() as int,
                ) <= s < 64 + initial_slices,
            r.heap.memory_view().base_addr() == REGION_BASE + heap_base_offset,
            r.heap.memory_view().end() == 64 + initial_slices,
            r.heap.memory_view().spec_first() == 64,
            r.heap.memory_view().spec_capacity() == total_slices,
            r.heap.spec_policy() == (GrowPolicy { min_grow: 16, max_grow: 1024, step_divisor: 8 }),
    {
        let mem = SimMemory::from_region(
            REGION_BASE,
            total_slices * SLICE_SIZE,
            initial_slices,
            heap_base_offset,
        );
        SimHeap { heap: Heap::new(mem) }
    }
}

impl<const WORDS: usize> RawAlloc for SimHeap<WORDS> {
    open spec fn valid(&self) -> bool {
        self.heap.valid()
    }

    open spec fn held(&self) -> Map<int, Layout> {
        self.heap.held()
    }

    open spec fn contents(&self) -> Map<int, Seq<u8>> {
        self.heap.contents()
    }

    open spec fn honest(&self) -> bool {
        true
    }

    open spec fn gave(old: &Self, new: &Self, request: Request, r: Option<usize>) -> bool {
        <Heap<SimMemory, WORDS> as RawAlloc>::gave(&old.heap, &new.heap, request, r)
    }

    open spec fn footprint(&self) -> Option<usize> {
        self.heap.footprint()
    }

    fn allocate(&mut self, layout: Layout) -> Option<usize> {
        RawAlloc::allocate(&mut self.heap, layout)
    }

    fn alloc_zeroed(&mut self, layout: Layout) -> Option<usize> {
        RawAlloc::alloc_zeroed(&mut self.heap, layout)
    }

    fn dealloc(&mut self, block: usize, layout: Layout) {
        RawAlloc::dealloc(&mut self.heap, block, layout)
    }

    fn realloc(&mut self, block: usize, layout: Layout, new_size: usize) -> Option<usize> {
        RawAlloc::realloc(&mut self.heap, block, layout, new_size)
    }

    fn footprint_bytes(&self) -> Option<usize> {
        self.heap.footprint_bytes()
    }

    fn read_word(&self, block: usize, offset: usize) -> u64 {
        self.heap.read_word(block, offset)
    }

    fn write_word(&mut self, block: usize, offset: usize, value: u64) {
        self.heap.write_word(block, offset, value)
    }

    fn read_byte(&self, block: usize, offset: usize) -> u8 {
        RawAlloc::read_byte(&self.heap, block, offset)
    }

    fn write_byte(&mut self, block: usize, offset: usize, value: u8) {
        RawAlloc::write_byte(&mut self.heap, block, offset, value)
    }
}

/// The footprint of a heap is what lies between its base and the end of memory.
pub proof fn law_the_footprint_reaches_from_the_base_to_the_end<M: Memory, const WORDS: usize>(
    heap: &Heap<M, WORDS>,
)
    ensures
        ({
            let end = 65536 * heap.memory_view().end();
            let base = heap.memory_view().base_addr() as int;
            &&& heap.footprint() is Some <==> base <= end <= usize::MAX
            &&& heap.footprint() is Some ==> base + heap.footprint()->0 == end
        }),
{
}

/// The bytes of a block are those of its words, the lowest first.
pub proof fn law_words_are_kept_lowest_byte_first<M: Memory, const WORDS: usize>(
    heap: &Heap<M, WORDS>,
    a: int,
    k: int,
)
    requires
        heap.wf(),
        heap.blocks().dom().contains(a),
        0 <= k < heap.blocks()[a].size(),
    ensures
        heap.contents().dom().contains(a),
        heap.contents()[a].len() == heap.blocks()[a].size(),
        heap.contents()[a][k] == heap.words()[a + 8 * (k / 8)] as int
            / vstd::arithmetic::power2::pow2((8 * (k % 8)) as nat) as int % 256,
{
    heap.lemma_block_shape(a);
    assert((a + k) % 8 == k % 8);
    let w: u64 = heap.words()[a + 8 * (k / 8)];
    let j: u64 = (8 * (k % 8)) as u64;
    vstd::bits::lemma_u64_shr_is_div(w, j);
    let x: u64 = w >> j;
    assert(x as u8 == x % 256) by (bit_vector);
    assert((x & 0xff) as u8 == x as u8) by (bit_vector);
}

} // verus!
