//! What can be read off a report: the numbers in it, and what was found.
use vstd::arithmetic::power2::{is_pow2, pow2};
use vstd::prelude::*;

use super::report::{failure_text, finding_text, uppercased, Call, Failure, FailureKind, Finding};
use super::text::{decimal, digit_char, digits, floor_log2, hex_byte, hexadecimal, layout_text};
use crate::layout::Layout;

verus! {

/// What a digit is worth, from `0` to `9` and on from `a`.
pub open spec fn worth(c: char) -> int {
    if 48 <= c as int <= 57 {
        c as int - 48
    } else {
        c as int - 87
    }
}

/// The number that digits stand for in the given base.
pub open spec fn read_back(s: Seq<char>, base: int) -> int
    decreases s.len(),
{
    if s.len() == 0 {
        0
    } else {
        read_back(s.drop_last(), base) * base + worth(s.last())
    }
}

proof fn lemma_digit(d: int)
    requires
        0 <= d < 16,
    ensures
        worth(digit_char(d)) == d,
        digit_char(d) == '0' <==> d == 0,
{
}

/// A number is written so that its digits read back as the number, each below the base, and the
/// first is no zero unless it is the only one.
pub proof fn law_digits_read_back(n: int, base: int)
    requires
        n >= 0,
        2 <= base <= 16,
    ensures
        digits(n, base).len() > 0,
        read_back(digits(n, base), base) == n,
        forall|i: int|
            0 <= i < digits(n, base).len() ==> 0 <= worth(#[trigger] digits(n, base)[i]) < base,
        digits(n, base).len() > 1 ==> digits(n, base)[0] != '0',
    decreases n,
{
    let s = digits(n, base);
    reveal_with_fuel(read_back, 2);
    if n < base {
        lemma_digit(n);
        assert(s.drop_last() =~= Seq::<char>::empty());
    } else {
        vstd::arithmetic::div_mod::lemma_div_decreases(n, base);
        vstd::arithmetic::div_mod::lemma_div_pos_is_pos(n, base);
        vstd::arithmetic::div_mod::lemma_fundamental_div_mod(n, base);
        vstd::arithmetic::div_mod::lemma_mod_bound(n, base);
        assert(base * (n / base) == (n / base) * base) by (nonlinear_arith);
        assert(n / base >= 1) by (nonlinear_arith)
            requires
                n >= base,
                n == (n / base) * base + n % base,
                n % base < base,
                base > 0,
        ;
        law_digits_read_back(n / base, base);
        lemma_digit(n % base);
        let t = digits(n / base, base);
        assert(s.drop_last() =~= t);
        assert(s.last() == digit_char(n % base));
        assert forall|i: int| 0 <= i < s.len() implies 0 <= worth(#[trigger] s[i]) < base by {
            if i < t.len() {
                assert(s[i] == t[i]);
            }
        }
        if t.len() == 1 {
            assert(t.drop_last() =~= Seq::<char>::empty());
            assert(t[0] == t.last());
            assert(worth('0') == 0);
        }
        assert(s[0] == t[0]);
    }
}

/// Numbers are written in decimal; in hexadecimal they have a prefix, and a byte has two digits.
pub proof fn law_numbers_have_their_bases(n: int, b: u8)
    requires
        n >= 0,
    ensures
        read_back(decimal(n), 10) == n,
        hexadecimal(n).take(2) == seq!['0', 'x'],
        read_back(hexadecimal(n).skip(2), 16) == n,
        hex_byte(b).len() == 4,
        hex_byte(b).take(2) == seq!['0', 'x'],
        read_back(hex_byte(b).skip(2), 16) == b,
{
    reveal_strlit("0x");
    law_digits_read_back(n, 10);
    law_digits_read_back(n, 16);
    assert(hexadecimal(n).take(2) =~= seq!['0', 'x']);
    assert(hexadecimal(n).skip(2) =~= digits(n, 16));
    let hi: int = b as int / 16;
    let lo: int = b as int % 16;
    lemma_digit(hi);
    lemma_digit(lo);
    let s = hex_byte(b).skip(2);
    assert(hex_byte(b).take(2) =~= seq!['0', 'x']);
    assert(s =~= seq![digit_char(hi), digit_char(lo)]);
    assert(s.drop_last() =~= seq![digit_char(hi)]);
    assert(s.drop_last().drop_last() =~= Seq::<char>::empty());
    reveal_with_fuel(read_back, 3);
}

/// The exponent that goes with an alignment is the one it is a power of two with.
pub proof fn law_alignments_are_powers_of_their_exponents(n: int)
    requires
        is_pow2(n),
    ensures
        floor_log2(n) >= 0,
        pow2(floor_log2(n) as nat) == n,
    decreases n,
{
    crate::arith::lemma_pow2_positive(n);
    vstd::arithmetic::power2::lemma2_to64();
    reveal_with_fuel(is_pow2, 2);
    if n > 1 {
        law_alignments_are_powers_of_their_exponents(n / 2);
        vstd::arithmetic::power2::lemma_pow2_unfold(floor_log2(n) as nat);
    }
}

/// `part` stands somewhere in `s`.
pub open spec fn mentions(s: Seq<char>, part: Seq<char>) -> bool {
    exists|i: int| 0 <= i && i + part.len() <= s.len() && #[trigger] s.subrange(i, i + part.len())
        == part
}

/// What is mentioned stays so when more is said, and what is said last is mentioned.
proof fn lemma_mentions()
    ensures
        forall|x: Seq<char>, y: Seq<char>, part: Seq<char>|
            mentions(x, part) || y == part ==> #[trigger] mentions(x + y, part),
        forall|x: Seq<char>| #[trigger] mentions(x, x),
{
    assert forall|x: Seq<char>, y: Seq<char>, part: Seq<char>|
        mentions(x, part) || y == part implies #[trigger] mentions(x + y, part) by {
        let s = x + y;
        let n: int = part.len() as int;
        if mentions(x, part) {
            let i: int = choose|i: int|
                0 <= i && i + part.len() <= x.len() && #[trigger] x.subrange(i, i + part.len())
                    == part;
            assert(s.subrange(i, i + n) =~= x.subrange(i, i + n));
        } else {
            let i: int = x.len() as int;
            assert(s.subrange(i, i + n) =~= part);
        }
    }
    assert forall|x: Seq<char>| #[trigger] mentions(x, x) by {
        let i: int = 0;
        assert(x.subrange(i, i + x.len()) =~= x);
    }
}

/// A layout is written with its size, its alignment and the exponent of that.
pub proof fn law_layouts_are_written_out(l: Layout)
    requires
        l.wf(),
    ensures
        mentions(layout_text(l), "size: "@ + decimal(l.size() as int) + ","@),
        mentions(layout_text(l), "align: "@ + decimal(l.align() as int) + " (1 << "@),
        mentions(layout_text(l), decimal(floor_log2(l.align() as int)) + ") }"@),
        pow2(floor_log2(l.align() as int) as nat) == l.align(),
{
    law_alignments_are_powers_of_their_exponents(l.align() as int);
    let size = decimal(l.size() as int);
    let align = decimal(l.align() as int);
    let log = decimal(floor_log2(l.align() as int));
    reveal_strlit("Layout { size: ");
    reveal_strlit("size: ");
    reveal_strlit(",");
    reveal_strlit(", align: ");
    reveal_strlit("align: ");
    reveal_strlit(" (1 << ");
    reveal_strlit(") }");
    let s = layout_text(l);
    let (i, n): (int, int) = (9, size.len() as int);
    assert(s.subrange(i, i + n + 7) =~= "size: "@ + size + ","@);
    assert(mentions(s, "size: "@ + size + ","@)) by {
        let part = "size: "@ + size + ","@;
        assert(s.subrange(i, i + part.len()) == part);
    }
    let (j, m): (int, int) = (15 + n + 2, align.len() as int);
    assert(mentions(s, "align: "@ + align + " (1 << "@)) by {
        let part = "align: "@ + align + " (1 << "@;
        assert(s.subrange(j, j + part.len()) =~= part);
    }
    let k: int = j + 7 + m + 7;
    assert(mentions(s, log + ") }"@)) by {
        let part = log + ") }"@;
        assert(s.subrange(k, k + part.len()) =~= part);
    }
}

/// The name of a call.
pub open spec fn named(c: Call) -> Seq<char> {
    match c {
        Call::Alloc => seq!['a', 'l', 'l', 'o', 'c'],
        Call::AllocZeroed => seq!['a', 'l', 'l', 'o', 'c', '_', 'z', 'e', 'r', 'o', 'e', 'd'],
        Call::Realloc => seq!['r', 'e', 'a', 'l', 'l', 'o', 'c'],
    }
}

/// A finding is told with the addresses, the layouts and the counts it is about; a byte that
/// differs with where it is, what it is and what it should be, in this order.
pub proof fn law_a_finding_is_told_with_its_circumstances(f: Finding)
    ensures
        ({
            let s = finding_text(f);
            match f {
                Finding::Misaligned { call, start, layout } => {
                    &&& mentions(s, named(call))
                    &&& mentions(s, hexadecimal(start as int))
                    &&& mentions(s, layout_text(layout))
                },
                Finding::Wraps { call, start, layout } => {
                    &&& mentions(s, named(call))
                    &&& mentions(s, hexadecimal(start as int))
                    &&& mentions(s, layout_text(layout))
                    &&& mentions(s, ", which wraps the address space"@)
                },
                Finding::Overlaps { call, start, layout, other, other_end } => {
                    &&& mentions(s, named(call))
                    &&& mentions(s, hexadecimal(start as int))
                    &&& mentions(s, hexadecimal(start + layout.size()))
                    &&& mentions(s, layout_text(layout))
                    &&& mentions(s, ", overlapping the live block ["@)
                    &&& mentions(s, hexadecimal(other as int))
                    &&& mentions(s, hexadecimal(other_end as int))
                },
                Finding::Refused { call, layout, live_bytes } => {
                    &&& mentions(s, named(call))
                    &&& mentions(s, " returned None for "@)
                    &&& mentions(s, layout_text(layout))
                    &&& mentions(s, decimal(live_bytes as int))
                },
                Finding::NotZeroed { start, layout, at } => {
                    &&& mentions(s, hexadecimal(start as int))
                    &&& mentions(s, layout_text(layout))
                    &&& mentions(s, decimal(at.offset as int))
                    &&& mentions(s, hex_byte(at.found))
                },
                Finding::Corrupted { start, layout, at, resizing } => {
                    &&& mentions(s, hexadecimal(start as int))
                    &&& mentions(s, layout_text(layout))
                    &&& mentions(s, decimal(at.offset as int))
                    &&& mentions(s, hex_byte(at.found))
                    &&& mentions(s, hex_byte(at.expected))
                    &&& resizing ==> mentions(s, " before realloc"@)
                },
                Finding::RefusedResize { start, layout, new_size, live_bytes } => {
                    &&& mentions(s, hexadecimal(start as int))
                    &&& mentions(s, layout_text(layout))
                    &&& mentions(s, decimal(new_size as int))
                    &&& mentions(s, " returned None with "@)
                    &&& mentions(s, decimal(live_bytes as int))
                },
                Finding::LostBytes { start, layout, new_size, moved, at } => {
                    &&& mentions(s, hexadecimal(start as int))
                    &&& mentions(s, layout_text(layout))
                    &&& mentions(s, decimal(new_size as int))
                    &&& mentions(s, hexadecimal(moved as int))
                    &&& mentions(s, decimal(at.offset as int))
                    &&& mentions(s, hex_byte(at.found))
                    &&& mentions(s, hex_byte(at.expected))
                },
            }
        }),
{
    lemma_mentions();
    reveal_strlit("alloc");
    reveal_strlit("alloc_zeroed");
    reveal_strlit("realloc");
    assert(named(Call::Alloc) =~= "alloc"@);
    assert(named(Call::AllocZeroed) =~= "alloc_zeroed"@);
    assert(named(Call::Realloc) =~= "realloc"@);
}

/// The byte that differs is told as what was found, and then as what was expected.
pub proof fn law_the_found_byte_comes_before_the_expected_one(f: Finding)
    ensures
        f matches Finding::Corrupted { at, .. } ==> mentions(
            finding_text(f),
            hex_byte(at.found) + ", expected "@ + hex_byte(at.expected),
        ),
        f matches Finding::LostBytes { at, .. } ==> mentions(
            finding_text(f),
            hex_byte(at.found) + ", expected "@ + hex_byte(at.expected),
        ),
{
    lemma_mentions();
    match f {
        Finding::Corrupted { start, layout, at, resizing } => {
            let head = "block "@ + hexadecimal(start as int) + " ("@ + layout_text(layout)
                + ") has byte "@ + decimal(at.offset as int) + " = "@;
            let part = hex_byte(at.found) + ", expected "@ + hex_byte(at.expected);
            let end = if resizing {
                " before realloc"@
            } else {
                Seq::empty()
            };
            assert(finding_text(f) =~= head + part + end);
            assert(mentions(head + part, part));
        },
        Finding::LostBytes { start, layout, new_size, moved, at } => {
            let head = "realloc of "@ + hexadecimal(start as int) + " ("@ + layout_text(layout)
                + ") to "@ + decimal(new_size as int) + " returned "@ + hexadecimal(moved as int)
                + " with byte "@ + decimal(at.offset as int) + " = "@;
            let part = hex_byte(at.found) + ", expected "@ + hex_byte(at.expected);
            assert(finding_text(f) =~= head + part);
        },
        _ => {},
    }
}

/// A report begins with the kind of the failure and the operation, names the profile and repeats
/// what was found. With a seed it says how to run the same again.
pub proof fn law_a_report_says_what_when_and_how_to_repeat_it(f: &Failure)
    ensures
        ({
            let s = failure_text(f);
            let kind = match f.kind {
                FailureKind::Misaligned => "Misaligned at op "@,
                FailureKind::Overlap => "Overlap at op "@,
                FailureKind::Corrupted => "Corrupted at op "@,
                FailureKind::NotZeroed => "NotZeroed at op "@,
                FailureKind::ReallocLostBytes => "ReallocLostBytes at op "@,
                FailureKind::AllocFailed => "AllocFailed at op "@,
            };
            let n = decimal(f.op_index as int);
            &&& s.take((kind.len() + n.len()) as int) == kind + n
            &&& mentions(s, f.profile@)
            &&& mentions(s, f.detail@)
            &&& f.seed matches Some(seed) ==> {
                &&& mentions(s, hexadecimal(seed as int))
                &&& mentions(s, ". Reproduce with model::run(alloc, "@)
                &&& mentions(s, uppercased(f.profile@))
            }
        }),
{
    lemma_mentions();
    reveal_strlit("Misaligned");
    reveal_strlit("Overlap");
    reveal_strlit("Corrupted");
    reveal_strlit("NotZeroed");
    reveal_strlit("ReallocLostBytes");
    reveal_strlit("AllocFailed");
    reveal_strlit(" at op ");
    reveal_strlit("Misaligned at op ");
    reveal_strlit("Overlap at op ");
    reveal_strlit("Corrupted at op ");
    reveal_strlit("NotZeroed at op ");
    reveal_strlit("ReallocLostBytes at op ");
    reveal_strlit("AllocFailed at op ");
    let s = failure_text(f);
    let kind = match f.kind {
        FailureKind::Misaligned => "Misaligned at op "@,
        FailureKind::Overlap => "Overlap at op "@,
        FailureKind::Corrupted => "Corrupted at op "@,
        FailureKind::NotZeroed => "NotZeroed at op "@,
        FailureKind::ReallocLostBytes => "ReallocLostBytes at op "@,
        FailureKind::AllocFailed => "AllocFailed at op "@,
    };
    assert(super::report::kind_text(f.kind) + " at op "@ =~= kind);
    let n = decimal(f.op_index as int);
    assert(s.take((kind.len() + n.len()) as int) =~= kind + n);
}

} // verus!
