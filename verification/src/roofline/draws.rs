//! What the workloads draw: sizes, alignments, actions and victims, word by word.
use vstd::prelude::*;
use vstd::std_specs::bits::axiom_u16_trailing_zeros;

use super::actions::{act, act_answers, act_refused, ra_align_of, Acted};
use super::calls::{denied, given, held_back, moved, returned, wrote};
use super::churn::{churned, firsts, populated, table_log};
use super::objects::Object;
use super::rng::{output, stepped};
use super::workloads::{large_log, large_size, mixed_in};
use crate::layout::Layout;
use crate::testing::draws::{in_part, law_draws_are_uniform};
use crate::testing::rng::scaled;

verus! {

/// The alignment that goes with a word: 8 unless its last two bits are zero, 16 unless the last
/// four are, 32 unless the last six are, and 64 otherwise.
pub open spec fn align_for(word: u32) -> usize {
    if word % 4 != 0 {
        8
    } else if word % 16 != 0 {
        16
    } else if word % 64 != 0 {
        32
    } else {
        64
    }
}

/// The zero bits at the end of a word decide the alignment: three of four words give 8, three of
/// the other sixteenths 16, and so on.
pub proof fn law_alignments_follow_the_last_bits(x: u64)
    ensures
        ra_align_of(x) == align_for(output(stepped(x))),
{
    let word: u32 = output(stepped(x));
    let low: u16 = word as u16;
    let zeros: u32 = low.trailing_zeros();
    axiom_u16_trailing_zeros(low);
    let z: u16 = zeros as u16;
    assert((word % 4 == 0 <==> low & 3 == 0) && (word % 16 == 0 <==> low & 15 == 0) && (word % 64
        == 0 <==> low & 63 == 0)) by (bit_vector)
        requires
            low == word as u16,
    ;
    assert((low & 3 == 0 <==> z >= 2) && (low & 15 == 0 <==> z >= 4) && (low & 63 == 0 <==> z
        >= 6)) by (bit_vector)
        requires
            z <= 16,
            low == 0 <==> z == 16,
            z < 16 ==> (low >> z) & 1u16 == 1u16,
            low << ((16 - z) as u16) == 0 || z == 0,
    ;
}

/// The words that are put out next, once `x` is the state.
pub open spec fn word(x: u64, n: nat) -> u32 {
    output(after(x, n))
}

/// The state `n` steps after `x`.
pub open spec fn after(x: u64, n: nat) -> u64
    decreases n,
{
    if n == 0 {
        x
    } else {
        stepped(after(x, (n - 1) as nat))
    }
}

/// A size drawn with two words: the first decides a bound up to ten thousand and the second a size
/// up to the bound, both uniformly.
pub open spec fn bounded_size(size: int, first: u32, second: u32) -> bool {
    exists|bound: int|
        1 <= size <= bound <= 10000 && #[trigger] in_part(first, 10000, bound - 1) && in_part(
            second,
            bound,
            size - 1,
        )
}

/// With fewer than a hundred objects live, or if the word lies in the first three of the choices,
/// an action allocates: the next three words decide the size and the alignment, the first byte of
/// the new object is written, and it is the last of the live ones.
pub proof fn law_an_action_allocates(s: Acted, step: int, p: usize, choices: int)
    requires
        0 <= step,
        choices > 0,
        s.table.len() < 100 || (s.table.len() < 16384 && word(s.state, 1) * choices < 3
            * 0x1_0000_0000),
    ensures
        ({
            let x = if s.table.len() < 100 {
                s.state
            } else {
                after(s.state, 1)
            };
            let t = act(s, step, p, choices);
            let o = t.table.last();
            &&& act_answers(s, step, p, choices) == seq![
                given(o.layout, p),
                wrote(p, 0, step as u8),
            ]
            &&& t.table == s.table.push(o)
            &&& o.addr == p
            &&& o.first == step as u8
            &&& bounded_size(o.layout.size() as int, word(x, 1), word(x, 2))
            &&& o.layout == Layout::of(o.layout.size(), align_for(word(x, 3)))
            &&& t.state == after(x, 3)
            &&& t.forced == s.forced
            &&& t.sum == mixed_in(s.sum, p)
        }),
{
    reveal_with_fuel(after, 4);
    let x: u64 = if s.table.len() < 100 {
        s.state
    } else {
        after(s.state, 1)
    };
    if s.table.len() >= 100 {
        lemma_choice(word(s.state, 1), choices);
    }
    let b: int = scaled(word(x, 1) as int, 10000);
    law_draws_are_uniform(word(x, 1), 10000, b);
    let k: int = scaled(word(x, 2) as int, b + 1);
    law_draws_are_uniform(word(x, 2), b + 1, k);
    law_alignments_follow_the_last_bits(stepped(stepped(x)));
    Layout::lemma_of((1 + k) as usize, align_for(word(x, 3)));
    let bound: int = b + 1;
    assert(in_part(word(x, 1), 10000, bound - 1));
}

/// Which of the choices a word lies in.
proof fn lemma_choice(w: u32, choices: int)
    requires
        choices > 0,
    ensures
        scaled(w as int, choices) < 3 <==> w * choices < 3 * 0x1_0000_0000,
        scaled(w as int, choices) < 6 <==> w * choices < 6 * 0x1_0000_0000,
{
    law_draws_are_uniform(w, choices, scaled(w as int, choices));
}

/// If the word lies in the next three of the choices, or if the live set is as large as it may be,
/// an action frees a live object, any of them alike, and the last one goes to its place. Only a free
/// of a live set that is as large as it may be is counted as forced.
pub proof fn law_an_action_frees(s: Acted, step: int, p: usize, choices: int) -> (i: int)
    requires
        choices > 0,
        s.table.len() >= 16384 || (s.table.len() >= 100 && 3 * 0x1_0000_0000 <= word(s.state, 1)
            * choices < 6 * 0x1_0000_0000),
    ensures
        ({
            let full = s.table.len() >= 16384;
            let x = if full {
                s.state
            } else {
                after(s.state, 1)
            };
            let t = act(s, step, p, choices);
            let n = s.table.len() as int;
            &&& 0 <= i < n
            &&& in_part(word(x, 1), n, i)
            &&& act_answers(s, step, p, choices) == seq![
                returned(s.table[i].layout, s.table[i].addr),
            ]
            &&& t.table.len() == n - 1
            &&& forall|k: int|
                0 <= k < n - 1 ==> #[trigger] t.table[k] == if k == i {
                    s.table[n - 1]
                } else {
                    s.table[k]
                }
            &&& t.state == after(x, 1)
            &&& t.sum == s.sum ^ (s.table[i].first as u32)
            &&& !full ==> t.forced == s.forced
            &&& full ==> t.forced == s.forced.wrapping_add(1)
        }),
{
    reveal_with_fuel(after, 3);
    let full = s.table.len() >= 16384;
    let x: u64 = if full {
        s.state
    } else {
        after(s.state, 1)
    };
    let n: int = s.table.len() as int;
    if !full {
        lemma_choice(word(s.state, 1), choices);
    }
    let i: int = scaled(word(x, 1) as int, n);
    law_draws_are_uniform(word(x, 1), n, i);
    i
}

/// If the word lies in the choices after the sixth, an action resizes a live object, any of them
/// alike, to a size drawn as for a new one, and writes the last byte. The object keeps its place and
/// its alignment.
pub proof fn law_an_action_resizes(s: Acted, step: int, p: usize, choices: int) -> (i: int)
    requires
        choices > 0,
        100 <= s.table.len() < 16384,
        word(s.state, 1) * choices >= 6 * 0x1_0000_0000,
    ensures
        ({
            let t = act(s, step, p, choices);
            let n = s.table.len() as int;
            let old = s.table[i];
            let o = t.table[i];
            &&& 0 <= i < n
            &&& in_part(word(s.state, 2), n, i)
            &&& bounded_size(o.layout.size() as int, word(s.state, 3), word(s.state, 4))
            &&& act_answers(s, step, p, choices) == seq![
                moved(old.layout, old.addr, o.layout.size(), p),
                wrote(p, o.layout.size() - 1, step as u8),
            ]
            &&& o.addr == p
            &&& o.layout == Layout::of(o.layout.size(), old.layout.align())
            &&& o.layout.size() > 1 ==> o.first == old.first
            &&& o.layout.size() == 1 ==> o.first == step as u8
            &&& t.table == s.table.update(i, o)
            &&& t.state == after(s.state, 4)
            &&& t.forced == s.forced
            &&& t.sum == mixed_in(s.sum, p)
        }),
{
    reveal_with_fuel(after, 5);
    let n: int = s.table.len() as int;
    lemma_choice(word(s.state, 1), choices);
    let i: int = scaled(word(s.state, 2) as int, n);
    law_draws_are_uniform(word(s.state, 2), n, i);
    let b: int = scaled(word(s.state, 3) as int, 10000);
    law_draws_are_uniform(word(s.state, 3), 10000, b);
    let k: int = scaled(word(s.state, 4) as int, b + 1);
    law_draws_are_uniform(word(s.state, 4), b + 1, k);
    Layout::lemma_of((1 + k) as usize, s.table[i].layout.align());
    let bound: int = b + 1;
    assert(in_part(word(s.state, 3), 10000, bound - 1));
    i
}

/// A layout of the churn: aligned to eight bytes, of a multiple of eight from 16 to 1024, uniformly.
pub open spec fn churn_layout(l: Layout, w: u32) -> bool {
    exists|k: int|
        #[trigger] in_part(w, 127, k) && 0 <= k < 127 && l == Layout::of((16 + 8 * k) as usize, 8)
}

proof fn lemma_churn_layout(x: u64)
    ensures
        churn_layout(super::churn::drawn_layout(x), output(x)),
{
    let k: int = scaled(output(x) as int, 127);
    law_draws_are_uniform(output(x), 127, k);
    assert(in_part(output(x), 127, k));
}

/// Each object of the live set is asked for with a layout of the churn, a word each, and its first
/// byte counts the objects.
pub proof fn law_the_live_set_is_drawn_word_by_word(ps: Seq<usize>, p: usize)
    ensures
        ({
            let d = populated(ps);
            let t = populated(ps.push(p));
            let o = t.table.last();
            &&& t.table == d.table.push(o)
            &&& o.addr == p
            &&& o.first == ps.len() as u8
            &&& churn_layout(o.layout, word(d.state, 1))
            &&& t.state == after(d.state, 1)
            &&& t.log == d.log + seq![given(o.layout, p), wrote(p, 0, ps.len() as u8)]
            &&& t.sum == mixed_in(d.sum, p)
        }),
{
    reveal_with_fuel(after, 2);
    assert(ps.push(p).drop_last() =~= ps);
    lemma_churn_layout(stepped(populated(ps).state));
}

/// A step of the churn frees one of the ten thousand objects, any of them alike, asks for another
/// with a layout of the churn, and puts it in the place of the first.
pub proof fn law_a_step_replaces_any_object_alike(
    table: Seq<Object>,
    state: u64,
    ps: Seq<usize>,
    p: usize,
) -> (i: int)
    requires
        table.len() == 10000,
    ensures
        ({
            let d = churned(table, state, ps);
            let t = churned(table, state, ps.push(p));
            let o = t.table[i];
            &&& 0 <= i < 10000
            &&& d.table.len() == 10000
            &&& in_part(word(d.state, 1), 10000, i)
            &&& t.table == d.table.update(i, o)
            &&& o.addr == p
            &&& o.first == ps.len() as u8
            &&& churn_layout(o.layout, word(d.state, 2))
            &&& t.state == after(d.state, 2)
            &&& t.log == d.log + seq![
                returned(d.table[i].layout, d.table[i].addr),
                given(o.layout, p),
                wrote(p, 0, ps.len() as u8),
            ]
            &&& t.sum == mixed_in(d.sum, p)
        }),
    decreases ps.len(),
{
    reveal_with_fuel(after, 3);
    let d = churned(table, state, ps);
    assert(ps.push(p).drop_last() =~= ps);
    if ps.len() > 0 {
        let j = law_a_step_replaces_any_object_alike(table, state, ps.drop_last(), ps.last());
        assert(ps.drop_last().push(ps.last()) =~= ps);
    }
    let i: int = scaled(word(d.state, 1) as int, 10000);
    law_draws_are_uniform(word(d.state, 1), 10000, i);
    lemma_churn_layout(stepped(stepped(d.state)));
    let t = churned(table, state, ps.push(p));
    assert(t.table == d.table.update(i, t.table[i]));
    assert(t.log =~= d.log + seq![
        returned(d.table[i].layout, d.table[i].addr),
        given(t.table[i].layout, p),
        wrote(p, 0, ps.len() as u8),
    ]);
    i
}

/// The large blocks double from 256 KiB to 4 MiB and then start again.
pub proof fn law_large_blocks_double_five_at_a_time(i: int)
    requires
        i >= 0,
    ensures
        large_size(i + 5) == large_size(i),
        i % 5 == 0 ==> large_size(i) == 0x4_0000,
        i % 5 != 4 ==> large_size(i + 1) == 2 * large_size(i),
{
}

/// Each large block is asked for with its size at an alignment of 16, one byte in every page of 4
/// KiB is written, first to last, and it is freed.
pub proof fn law_a_large_block_is_touched_page_by_page(ps: Seq<usize>, p: usize, k: int)
    requires
        0 <= k < large_size(ps.len() as int) / 4096,
    ensures
        ({
            let before = large_log(ps);
            let log = large_log(ps.push(p));
            let n = before.len();
            let size = large_size(ps.len() as int);
            let layout = Layout::of(size as usize, 16);
            &&& log.len() == n + size / 4096 + 2
            &&& log.take(n as int) == before
            &&& log[n as int] == given(layout, p)
            &&& log[n + 1 + k] == wrote(p, 4096 * k, ps.len() as u8)
            &&& log.last() == returned(layout, p)
        }),
{
    assert(ps.push(p).drop_last() =~= ps);
    assert(large_log(ps.push(p)).take(large_log(ps).len() as int) =~= large_log(ps));
}

/// A bit of the checksum with an address mixed in is the bit five places below it, all the way
/// round, and the bit of the address.
pub proof fn law_the_checksum_turns_by_five_bits(sum: u32, p: usize, i: u32)
    requires
        i < 32,
    ensures
        (mixed_in(sum, p) >> i) & 1 == ((sum >> ((i + 27) % 32) as u32) & 1) ^ (((p as u32) >> i)
            & 1),
{
    let q: u32 = p as u32;
    let j: u32 = ((i + 27) % 32) as u32;
    assert(((((sum << 5) | (sum >> 27)) ^ q) >> i) & 1 == ((sum >> j) & 1) ^ ((q >> i) & 1))
        by (bit_vector)
        requires
            i < 32,
            j == (i + 27) % 32,
    ;
}

/// An action that is refused asked for what it would have got: a size and an alignment drawn as for
/// any allocation, or another size for an object drawn as for any resize.
pub proof fn law_a_refused_action_asked_for_a_drawn_size(s: Acted, choices: int) -> (r: (int, usize))
    requires
        choices > 0,
        s.table.len() < 16384,
        s.table.len() < 100 || word(s.state, 1) * choices < 3 * 0x1_0000_0000 || word(s.state, 1)
            * choices >= 6 * 0x1_0000_0000,
    ensures
        ({
            let (i, size) = r;
            let n = s.table.len() as int;
            let x = if n < 100 {
                s.state
            } else {
                after(s.state, 1)
            };
            if n < 100 || word(s.state, 1) * choices < 3 * 0x1_0000_0000 {
                &&& bounded_size(size as int, word(x, 1), word(x, 2))
                &&& act_refused(s, choices) == denied(Layout::of(size, align_for(word(x, 3))))
            } else {
                &&& 0 <= i < n
                &&& in_part(word(x, 1), n, i)
                &&& bounded_size(size as int, word(x, 2), word(x, 3))
                &&& act_refused(s, choices) == held_back(s.table[i].layout, s.table[i].addr, size)
            }
        }),
{
    reveal_with_fuel(after, 5);
    let n: int = s.table.len() as int;
    let x: u64 = if n < 100 {
        s.state
    } else {
        after(s.state, 1)
    };
    if n >= 100 {
        lemma_choice(word(s.state, 1), choices);
    }
    if n < 100 || word(s.state, 1) * choices < 3 * 0x1_0000_0000 {
        let b: int = scaled(word(x, 1) as int, 10000);
        law_draws_are_uniform(word(x, 1), 10000, b);
        let k: int = scaled(word(x, 2) as int, b + 1);
        law_draws_are_uniform(word(x, 2), b + 1, k);
        law_alignments_follow_the_last_bits(stepped(stepped(x)));
        let bound: int = b + 1;
        assert(in_part(word(x, 1), 10000, bound - 1));
        (0, (1 + k) as usize)
    } else {
        let i: int = scaled(word(x, 1) as int, n);
        law_draws_are_uniform(word(x, 1), n, i);
        let b: int = scaled(word(x, 2) as int, 10000);
        law_draws_are_uniform(word(x, 2), 10000, b);
        let k: int = scaled(word(x, 3) as int, b + 1);
        law_draws_are_uniform(word(x, 3), b + 1, k);
        let bound: int = b + 1;
        assert(in_part(word(x, 2), 10000, bound - 1));
        (i, (1 + k) as usize)
    }
}

/// The live set of the churn is freed in the order of its table, and the first bytes are folded.
pub proof fn law_the_live_set_is_freed_in_order(t: Seq<Object>, o: Object)
    ensures
        table_log(t.push(o)) == table_log(t).push(returned(o.layout, o.addr)),
        firsts(t.push(o)) == firsts(t) ^ (o.first as u32),
        firsts(Seq::empty()) == 0,
{
    assert(t.push(o).drop_last() =~= t);
}

} // verus!
