//! The bytes of a word, least significant first.
use vstd::prelude::*;

verus! {

/// Byte `k` of a word.
pub open spec fn byte_of(w: u64, k: u64) -> u8 {
    ((w >> (8 * k) as u64) & 0xff) as u8
}

/// The byte at address `x` of a memory of words.
pub open spec fn byte_at(words: Map<int, u64>, x: int) -> u8 {
    byte_of(words[x - x % 8], (x % 8) as u64)
}

/// Byte `k` of `w`.
pub fn get_byte(w: u64, k: u64) -> (r: u8)
    requires
        k < 8,
    ensures
        r == byte_of(w, k),
{
    ((w >> (8 * k)) & 0xff) as u8
}

/// `w` with byte `k` replaced.
pub fn put_byte(w: u64, k: u64, b: u8) -> (r: u64)
    requires
        k < 8,
    ensures
        byte_of(r, k) == b,
        forall|j: u64| j < 8 && j != k ==> #[trigger] byte_of(r, j) == byte_of(w, j),
{
    let s: u64 = 8 * k;
    let r: u64 = (w & !(0xffu64 << s)) | ((b as u64) << s);
    assert(((r >> s) & 0xff) as u8 == b) by (bit_vector)
        requires
            s < 64,
            s % 8 == 0,
            r == (w & !(0xffu64 << s)) | ((b as u64) << s),
    ;
    assert forall|j: u64| j < 8 && j != k implies #[trigger] byte_of(r, j) == byte_of(w, j) by {
        let t: u64 = (8 * j) as u64;
        assert(((r >> t) & 0xff) as u8 == ((w >> t) & 0xff) as u8) by (bit_vector)
            requires
                s < 64,
                t < 64,
                s % 8 == 0,
                t % 8 == 0,
                s != t,
                r == (w & !(0xffu64 << s)) | ((b as u64) << s),
        ;
    }
    r
}

/// Every byte of a zero word is zero.
pub proof fn lemma_byte_of_zero(k: u64)
    requires
        k < 8,
    ensures
        byte_of(0, k) == 0,
{
    let t: u64 = (8 * k) as u64;
    assert(((0u64 >> t) & 0xff) as u8 == 0) by (bit_vector);
}

} // verus!
