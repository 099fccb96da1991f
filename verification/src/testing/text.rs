//! The numbers and layouts in a failure report.
use vstd::prelude::*;
use vstd::string::*;

use crate::layout::Layout;

verus! {

/// The character of a digit below sixteen.
pub open spec fn digit_char(d: int) -> char {
    if d == 0 {
        '0'
    } else if d == 1 {
        '1'
    } else if d == 2 {
        '2'
    } else if d == 3 {
        '3'
    } else if d == 4 {
        '4'
    } else if d == 5 {
        '5'
    } else if d == 6 {
        '6'
    } else if d == 7 {
        '7'
    } else if d == 8 {
        '8'
    } else if d == 9 {
        '9'
    } else if d == 10 {
        'a'
    } else if d == 11 {
        'b'
    } else if d == 12 {
        'c'
    } else if d == 13 {
        'd'
    } else if d == 14 {
        'e'
    } else {
        'f'
    }
}

/// The digits of `n` in base `base`, most significant first.
pub open spec fn digits(n: int, base: int) -> Seq<char>
    decreases n,
    when 2 <= base
{
    if n < base {
        seq![digit_char(n)]
    } else {
        proof {
            vstd::arithmetic::div_mod::lemma_div_decreases(n, base);
            vstd::arithmetic::div_mod::lemma_div_pos_is_pos(n, base);
        }
        digits(n / base, base) + seq![digit_char(n % base)]
    }
}

/// `n` in decimal.
pub open spec fn decimal(n: int) -> Seq<char> {
    digits(n, 10)
}

/// `n` in hexadecimal, with its prefix.
pub open spec fn hexadecimal(n: int) -> Seq<char> {
    "0x"@ + digits(n, 16)
}

/// A byte in hexadecimal, with its prefix and both digits.
pub open spec fn hex_byte(b: u8) -> Seq<char> {
    "0x"@ + seq![digit_char(b as int / 16), digit_char(b as int % 16)]
}

/// The exponent of the largest power of two that is at most `n`.
pub open spec fn floor_log2(n: int) -> int
    decreases n,
{
    if n <= 1 {
        0
    } else {
        1 + floor_log2(n / 2)
    }
}

/// A layout, its alignment also as a power of two.
pub open spec fn layout_text(l: Layout) -> Seq<char> {
    "Layout { size: "@ + decimal(l.size() as int) + ", align: "@ + decimal(l.align() as int)
        + " (1 << "@ + decimal(floor_log2(l.align() as int)) + ") }"@
}

/// Append one digit.
fn append_digit(s: &mut String, d: u64)
    requires
        d < 16,
    ensures
        final(s)@ == old(s)@ + seq![digit_char(d as int)],
{
    proof {
        reveal_strlit("0");
        reveal_strlit("1");
        reveal_strlit("2");
        reveal_strlit("3");
        reveal_strlit("4");
        reveal_strlit("5");
        reveal_strlit("6");
        reveal_strlit("7");
        reveal_strlit("8");
        reveal_strlit("9");
        reveal_strlit("a");
        reveal_strlit("b");
        reveal_strlit("c");
        reveal_strlit("d");
        reveal_strlit("e");
        reveal_strlit("f");
    }
    let c: &str = match d {
        0 => "0",
        1 => "1",
        2 => "2",
        3 => "3",
        4 => "4",
        5 => "5",
        6 => "6",
        7 => "7",
        8 => "8",
        9 => "9",
        10 => "a",
        11 => "b",
        12 => "c",
        13 => "d",
        14 => "e",
        _ => "f",
    };
    proof {
        assert(c@ =~= seq![digit_char(d as int)]);
    }
    s.append(c);
}

/// Append the digits of `n`.
fn append_digits(s: &mut String, n: u64, base: u64)
    requires
        2 <= base <= 16,
    ensures
        final(s)@ == old(s)@ + digits(n as int, base as int),
    decreases n,
{
    if n < base {
        append_digit(s, n);
    } else {
        proof {
            vstd::arithmetic::div_mod::lemma_div_decreases(n as int, base as int);
        }
        append_digits(s, n / base, base);
        append_digit(s, n % base);
        proof {
            assert(s@ =~= old(s)@ + digits(n as int, base as int));
        }
    }
}

/// Append `n` in decimal.
pub fn append_decimal(s: &mut String, n: u64)
    ensures
        final(s)@ == old(s)@ + decimal(n as int),
{
    append_digits(s, n, 10);
}

/// Append `n` in hexadecimal, with its prefix.
pub fn append_hex(s: &mut String, n: u64)
    ensures
        final(s)@ == old(s)@ + hexadecimal(n as int),
{
    s.append("0x");
    append_digits(s, n, 16);
    proof {
        assert(s@ =~= old(s)@ + hexadecimal(n as int));
    }
}

/// Append a byte in hexadecimal, with its prefix and both digits.
pub fn append_hex_byte(s: &mut String, b: u8)
    ensures
        final(s)@ == old(s)@ + hex_byte(b),
{
    s.append("0x");
    append_digit(s, b as u64 / 16);
    append_digit(s, b as u64 % 16);
    proof {
        assert(s@ =~= old(s)@ + hex_byte(b));
    }
}

/// Append a layout.
pub fn append_layout(s: &mut String, l: &Layout)
    ensures
        final(s)@ == old(s)@ + layout_text(*l),
{
    s.append("Layout { size: ");
    append_decimal(s, l.size() as u64);
    s.append(", align: ");
    append_decimal(s, l.align() as u64);
    s.append(" (1 << ");
    let mut log: u64 = 0;
    let mut rest: usize = l.align();
    while rest > 1
        invariant
            log + floor_log2(rest as int) == floor_log2(l.align() as int),
            log <= l.align() - rest,
        decreases rest,
    {
        rest = rest / 2;
        log = log + 1;
    }
    append_decimal(s, log);
    s.append(") }");
    proof {
        assert(s@ =~= old(s)@ + layout_text(*l));
    }
}

} // verus!
