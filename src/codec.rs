//! Turning text into code-words, and code-words into the modules of a symbol.
use vstd::prelude::*;
use crate::bits::msb_bit;
use crate::error_cc::{data_words_of, ecc_spec, ecc_words_of};
use crate::segment::{pad_byte, segment_bits, EnumEncodingErr};

verus! {

/// The error type of `encode`.
pub type EncodingErr = EnumEncodingErr;

/// The byte whose bits, most significant first, are `bits[8k .. 8k + 8]`.
pub open spec fn byte_from_bits(bits: Seq<bool>, k: int) -> u8 {
    ((if bits[8 * k] { 128int } else { 0int }) + (if bits[8 * k + 1] { 64int } else { 0int }) + (if bits[8 * k + 2] {
        32int
    } else {
        0int
    }) + (if bits[8 * k + 3] { 16int } else { 0int }) + (if bits[8 * k + 4] { 8int } else { 0int }) + (if bits[8 * k
        + 5] {
        4int
    } else {
        0int
    }) + (if bits[8 * k + 6] { 2int } else { 0int }) + (if bits[8 * k + 7] { 1int } else { 0int })) as u8
}

/// The bytes of a bit sequence whose length is a multiple of 8.
pub open spec fn bytes_from_bits(bits: Seq<bool>) -> Seq<u8> {
    Seq::new(bits.len() / 8, |k: int| byte_from_bits(bits, k))
}

/// The bytes of the byte-mode segment of `t`.
pub open spec fn segment_bytes(t: Seq<char>) -> Seq<u8> {
    bytes_from_bits(segment_bits(t))
}

/// The smallest version whose data capacity holds `n` bytes, or 0 where none does.
pub open spec fn version_for(n: int) -> u8 {
    if n <= 19 {
        1
    } else if n <= 34 {
        2
    } else if n <= 55 {
        3
    } else if n <= 80 {
        4
    } else if n <= 108 {
        5
    } else {
        0
    }
}

/// The data code-words of `t` at version `v`: the segment, then pad bytes up to capacity.
pub open spec fn data_codewords(t: Seq<char>, v: u8) -> Seq<u8> {
    segment_bytes(t) + Seq::new((data_words_of(v) - (t.len() + 2)) as nat, |i: int| pad_byte(i))
}

/// All code-words of `t` at version `v`: the data code-words, then their error correction.
pub open spec fn codewords_spec(t: Seq<char>, v: u8) -> Seq<u8> {
    data_codewords(t, v) + ecc_spec(data_codewords(t, v), ecc_words_of(v))
}

/// Whether the data cell at `(x, y)` is inverted by mask `m`.
pub open spec fn mask_spec(m: u8, x: int, y: int) -> bool {
    if m == 0 {
        (x + y) % 2 == 0
    } else if m == 1 {
        y % 2 == 0
    } else if m == 2 {
        x % 3 == 0
    } else {
        (x + y) % 3 == 0
    }
}

/// The bit placed in the `k`-th data cell: the `k`-th bit of the code-words, then zeros.
pub open spec fn placed_bit(words: Seq<u8>, k: int) -> bool {
    if k < 8 * words.len() {
        msb_bit(words, k)
    } else {
        false
    }
}

/// Whether mask `mask` inverts the data cell at `pos`: 0 `(x+y) mod 2 == 0`, 1 `y mod 2 == 0`,
/// 2 `x mod 3 == 0`, 3 `(x+y) mod 3 == 0`.
pub fn mask_fn(mask: u8, pos: (u8, u8)) -> (r: bool)
    requires
        mask < 4,
    ensures
        r == mask_spec(mask, pos.0 as int, pos.1 as int),
{
    let (x, y) = pos;
    let x = x as u16;
    let y = y as u16;
    match mask {
        0 => 0 == ((x + y) % 2),
        1 => 0 == (y % 2),
        2 => 0 == (x % 3),
        _ => 0 == ((x + y) % 3),
    }
}

} // verus!
