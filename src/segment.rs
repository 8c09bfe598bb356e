//! Byte-mode segments: the header, the payload, the terminator, and the pad bytes.
use vstd::prelude::*;
use vstd::string::StrSliceExecFns;
use crate::bits::{bits_of, value_bits, BigEndianBitWriter};

verus! {

/// Why a text could not be encoded.
#[derive(Clone, Copy, PartialEq, Eq, Structural, Debug)]
pub enum EnumEncodingErr {
    /// A character's code point does not fit in a byte.
    NotAscii,
    /// Kept for the alphanumeric mode; the byte mode never returns it.
    NotAlphaNumeric,
    /// The payload does not fit the buffer or the largest supported version.
    DataTooLong,
    /// The error level or version has no capacity table here.
    NotSupported,
}

/// The byte that stands for a character in byte mode: its code point.
pub open spec fn char_byte(c: char) -> u8 {
    (c as u32) as u8
}

/// Every character of `t` has a code point below 256.
pub open spec fn fits_bytes(t: Seq<char>) -> bool {
    forall|i: int| 0 <= i < t.len() ==> (#[trigger] t[i] as u32) <= 255
}

/// Eight bits per character, in order.
pub open spec fn chars_bits(t: Seq<char>) -> Seq<bool>
    decreases t.len(),
{
    if t.len() == 0 {
        Seq::empty()
    } else {
        chars_bits(t.drop_last()) + value_bits(char_byte(t.last()), 8)
    }
}

/// The bits of a byte-mode segment: mode `0100`, the 8-bit character count, eight bits per
/// character, and the terminator `0000`.
pub open spec fn segment_bits(t: Seq<char>) -> Seq<bool> {
    value_bits(4, 4) + value_bits(t.len() as u8, 8) + chars_bits(t) + value_bits(0, 4)
}

/// The pad byte at offset `i` after the segment: 0xEC, 0x11, 0xEC, ...
pub open spec fn pad_byte(i: int) -> u8 {
    if i % 2 == 0 {
        0xEC
    } else {
        0x11
    }
}

/// Encodes `data` as a byte-mode segment into the start of `out` and returns the number of
/// bytes written, two more than the number of characters.
pub fn encode_byte_segment(data: &str, out: &mut [u8]) -> (r: Result<usize, EnumEncodingErr>)
    ensures
        r == Err::<usize, EnumEncodingErr>(EnumEncodingErr::NotAscii) <==> !fits_bytes(data@),
        r == Err::<usize, EnumEncodingErr>(EnumEncodingErr::DataTooLong) <==> fits_bytes(data@) && (
        data@.len() > 255 || data@.len() + 2 > old(out)@.len()),
        r is Ok <==> fits_bytes(data@) && data@.len() <= 255 && data@.len() + 2 <= old(out)@.len(),
        r is Err ==> final(out)@ == old(out)@,
        r is Ok ==> {
            &&& r->Ok_0 == data@.len() + 2
            &&& final(out)@.len() == old(out)@.len()
            &&& bits_of(final(out)@.subrange(0, r->Ok_0 as int)) == segment_bits(data@)
            &&& forall|j: int| r->Ok_0 <= j < old(out)@.len() ==> final(out)@[j] == old(out)@[j]
        },
{
    let char_count = data.unicode_len();
    let mut i: usize = 0;
    while i < char_count
        invariant
            char_count == data@.len(),
            i <= char_count,
            forall|k: int| 0 <= k < i ==> (#[trigger] data@[k] as u32) <= 255,
        decreases char_count - i,
    {
        if data.get_char(i) as u32 > 255 {
            return Err(EnumEncodingErr::NotAscii);
        }
        i += 1;
    }
    if char_count > 255 || char_count + 2 > out.len() {
        return Err(EnumEncodingErr::DataTooLong);
    }
    let size = char_count + 2;
    let mut bit_writer = BigEndianBitWriter::new(vec![0u8; size]);
    let segment_mode: u8 = 0b0100;
    bit_writer.append_bits(segment_mode, 4);
    bit_writer.append_bits(char_count as u8, 8);
    let ghost header = value_bits(4, 4) + value_bits(char_count as u8, 8);
    assert(bits_of(bit_writer.buffer()).subrange(0, 12) =~= header);
    let mut i: usize = 0;
    while i < char_count
        invariant
            char_count == data@.len(),
            char_count <= 255,
            size == char_count + 2,
            i <= char_count,
            bit_writer.buffer().len() == size,
            bit_writer.cursor() == 12 + 8 * i,
            header == value_bits(4, 4) + value_bits(char_count as u8, 8),
            bits_of(bit_writer.buffer()).subrange(0, 12 + 8 * i) == header + chars_bits(
                data@.subrange(0, i as int),
            ),
        decreases char_count - i,
    {
        let ch = data.get_char(i);
        let ghost before = bits_of(bit_writer.buffer());
        bit_writer.append_bits((ch as u32) as u8, 8);
        proof {
            let t = data@.subrange(0, i + 1);
            assert(t.drop_last() =~= data@.subrange(0, i as int));
            assert(bits_of(bit_writer.buffer()).subrange(0, 12 + 8 * (i + 1)) =~= before.subrange(
                0,
                12 + 8 * i,
            ) + value_bits(char_byte(ch), 8));
        }
        i += 1;
    }
    let ghost before = bits_of(bit_writer.buffer());
    bit_writer.append_bits(0b0000, 4);
    let pad_bits = (8 - bit_writer.bits_written() % 8) % 8;
    let ghost after_terminator = bits_of(bit_writer.buffer());
    assert(after_terminator.subrange(0, 8 * size) =~= before.subrange(0, 12 + 8 * char_count)
        + value_bits(0, 4));
    bit_writer.append_bits(0, pad_bits as u8);
    assert(bits_of(bit_writer.buffer()) =~= after_terminator);
    assert(data@.subrange(0, char_count as int) =~= data@);
    let bytes = bit_writer.into_bytes();
    let mut j: usize = 0;
    while j < size
        invariant
            size <= out@.len(),
            out@.len() == old(out)@.len(),
            bytes@.len() == size,
            j <= size,
            forall|k: int| 0 <= k < j ==> out@[k] == bytes@[k],
            forall|k: int| j <= k < out@.len() ==> out@[k] == old(out)@[k],
        decreases size - j,
    {
        out[j] = bytes[j];
        j += 1;
    }
    assert(out@.subrange(0, size as int) =~= bytes@);
    Ok(size)
}

/// Fills `bytes` with the pad pattern 0xEC, 0x11, 0xEC, ...
pub fn add_padding(bytes: &mut [u8])
    ensures
        final(bytes)@.len() == old(bytes)@.len(),
        forall|i: int| 0 <= i < final(bytes)@.len() ==> final(bytes)@[i] == pad_byte(i),
{
    let pad_bytes: [u8; 2] = [0xEC, 0x11];
    let mut i: usize = 0;
    while i < bytes.len()
        invariant
            bytes@.len() == old(bytes)@.len(),
            i <= bytes@.len(),
            pad_bytes@ == seq![0xECu8, 0x11u8],
            forall|k: int| 0 <= k < i ==> bytes@[k] == pad_byte(k),
        decreases bytes@.len() - i,
    {
        let b = pad_bytes[i % 2];
        bytes[i] = b;
        i += 1;
    }
}

} // verus!
