//! A small QR Code encoder for byte-mode payloads, versions 1 to 5 at error level L.
use vstd::prelude::*;
use vstd::slice::slice_subrange;

pub mod bits;
pub mod codec;
pub mod error_cc;
pub mod gf256;
pub mod img;
pub mod qr;
pub mod segment;
pub mod version;
pub mod zigzag;

use crate::bits::{bits_of, byte_bit, msb_bit, MsbBitIter};
use crate::codec::{
    bytes_from_bits, byte_from_bits, codewords_spec, data_codewords, mask_fn, mask_spec,
    placed_bit, segment_bytes, version_for, EncodingErr,
};
use crate::error_cc::{data_words_of, format_word, supported, total_words_of, ErrorLevel};
use crate::segment::{add_padding, encode_byte_segment, fits_bytes, pad_byte, EnumEncodingErr};
use crate::version::{
    data_region, distinct_positions, format_bit, format_cell, lemma_data_region_facts,
    lemma_data_region_size, lemma_format_cells, lemma_grid_cover, has_module_at, reserved_module_ok, size_of_version, Module, Version,
};

verus! {

/// A byte is the sum of its bits.
proof fn lemma_byte_of_bits(b: u8)
    ensures
        b == byte_from_bits(bits_of(seq![b]), 0),
{
    let b7 = byte_bit(b, 7);
    let b6 = byte_bit(b, 6);
    let b5 = byte_bit(b, 5);
    let b4 = byte_bit(b, 4);
    let b3 = byte_bit(b, 3);
    let b2 = byte_bit(b, 2);
    let b1 = byte_bit(b, 1);
    let b0 = byte_bit(b, 0);
    assert(b as int == (if b7 { 128int } else { 0int }) + (if b6 { 64int } else { 0int }) + (if b5 { 32int } else { 0int }) + (if b4 { 16int } else { 0int }) + (if b3 { 8int } else { 0int }) + (if b2 { 4int } else { 0int }) + (if b1 { 2int } else { 0int }) + (if b0 { 1int } else { 0int })) by (bit_vector)
        requires
            b7 == byte_bit(b, 7),
            b6 == byte_bit(b, 6),
            b5 == byte_bit(b, 5),
            b4 == byte_bit(b, 4),
            b3 == byte_bit(b, 3),
            b2 == byte_bit(b, 2),
            b1 == byte_bit(b, 1),
            b0 == byte_bit(b, 0),
    ;
    let bits = bits_of(seq![b]);
    assert(bits[0] == b7 && bits[1] == b6 && bits[2] == b5 && bits[3] == b4);
    assert(bits[4] == b3 && bits[5] == b2 && bits[6] == b1 && bits[7] == b0);
}

/// Bytes are read back from their bits.
pub proof fn lemma_bytes_from_bits(bytes: Seq<u8>)
    ensures
        bytes_from_bits(bits_of(bytes)) == bytes,
{
    let bits = bits_of(bytes);
    assert forall|k: int| 0 <= k < bytes.len() implies byte_from_bits(bits, k) == bytes[k] by {
        lemma_byte_of_bits(bytes[k]);
        let one = bits_of(seq![bytes[k]]);
        assert forall|j: int| 0 <= j < 8 implies bits[8 * k + j] == one[j] by {
            assert((8 * k + j) / 8 == k && (8 * k + j) % 8 == j);
        }
    }
    assert(bytes_from_bits(bits) =~= bytes);
}

/// The modules of a symbol of version `v` with code-words `words`: `n` function-pattern
/// modules at reserved positions, then the data modules in walk order under mask 0, then the 30
/// format modules for mask 0.
pub open spec fn symbol_layout(v: u8, words: Seq<u8>, r: Seq<Module>, n: int) -> bool {
    &&& 0 <= n
    &&& r.len() == n + data_region(v).len() + 30
    &&& forall|k: int| 0 <= k < n ==> reserved_module_ok(v, #[trigger] r[k])
    &&& forall|k: int| 0 <= k < data_region(v).len() ==> {
        let m = #[trigger] r[n + k];
        let p = data_region(v)[k];
        &&& m.carries_data()
        &&& m.pos() == p
        &&& m.dark() == (placed_bit(words, k) != mask_spec(0, p.0 as int, p.1 as int))
    }
    &&& forall|k: int| 0 <= k < 30 ==> {
        let (cell, bit) = format_cell(size_of_version(v), k);
        let m = #[trigger] r[n + data_region(v).len() + k];
        &&& !m.carries_data()
        &&& m.pos() == (cell.0 as u8, cell.1 as u8)
        &&& m.dark() == format_bit(format_word(0), bit)
    }
}

/// The outcome of encoding: the version, the error level, and a buffer of capacity `S` that
/// starts with the code-words.
pub struct Code<const S: usize> {
    pub version: Version,
    pub err_level: ErrorLevel,
    pub data: Vec<u8>,
}

/// Whether `c` is the encoding of `t`.
pub open spec fn encodes<const S: usize>(t: Seq<char>, c: Code<S>) -> bool {
    &&& c.wf()
    &&& c.data@.len() == S
    &&& c.version.0 == version_for(t.len() + 2int)
    &&& c.words() == codewords_spec(t, c.version.0)
    &&& forall|j: int| total_words_of(c.version.0) <= j < S ==> c.data@[j] == 0
}

/// A buffer of `n` zero bytes.
fn zeroed(n: usize) -> (r: Vec<u8>)
    ensures
        r@ == Seq::new(n as nat, |i: int| 0u8),
{
    let mut v: Vec<u8> = Vec::new();
    let mut i: usize = 0;
    while i < n
        invariant
            i <= n,
            v@ == Seq::new(i as nat, |k: int| 0u8),
        decreases n - i,
    {
        v.push(0);
        i += 1;
        assert(v@ =~= Seq::new(i as nat, |k: int| 0u8));
    }
    v
}

/// Whether a text of `n` characters fits a buffer of capacity `S` and a supported version.
pub open spec fn encodable(n: int, s: int) -> bool {
    &&& n + 2 <= s
    &&& version_for(n + 2) != 0
    &&& total_words_of(version_for(n + 2)) < s
}

/// The first version whose capacity holds `n` bytes is the one `version_for` names.
proof fn lemma_version_for(n: int, version: u8)
    requires
        1 <= version <= 6,
        version <= 5 ==> data_words_of(version) >= n,
        forall|v: u8| 1 <= v < version ==> data_words_of(v) < n,
    ensures
        version <= 5 ==> version == version_for(n),
        version > 5 ==> version_for(n) == 0,
{
    if version > 1 {
        assert(data_words_of(1) < n);
    }
    if version > 2 {
        assert(data_words_of(2) < n);
    }
    if version > 3 {
        assert(data_words_of(3) < n);
    }
    if version > 4 {
        assert(data_words_of(4) < n);
    }
    if version > 5 {
        assert(data_words_of(5) < n);
    }
}

/// Encodes `data` in the smallest version that holds it, at error level L.
pub fn encode<const S: usize>(data: &str) -> (r: Result<Code<S>, EncodingErr>)
    ensures
        r == Err::<Code<S>, EncodingErr>(EnumEncodingErr::NotAscii) <==> !fits_bytes(data@),
        r == Err::<Code<S>, EncodingErr>(EnumEncodingErr::DataTooLong) <==> fits_bytes(data@) && !encodable(data@.len() as int, S as int),
        r is Ok <==> fits_bytes(data@) && encodable(data@.len() as int, S as int),
        r is Ok ==> encodes(data@, r->Ok_0),
{
    let mut encoded: Vec<u8> = zeroed(S);
    assert(encoded@.len() == S);
    let size = match encode_byte_segment(data, encoded.as_mut_slice()) {
        Ok(n) => n,
        Err(e) => {
            assert(e == EnumEncodingErr::DataTooLong ==> data@.len() > 255 || data@.len() + 2 > S);
            return Err(e);
        },
    };
    let ghost segment = encoded@.subrange(0, size as int);
    proof {
        lemma_bytes_from_bits(segment);
        assert(segment == segment_bytes(data@));
    }
    let err_level = ErrorLevel::L;
    let mut version: u8 = 1;
    while version <= 5 && err_level.data_code_words(version) < size
        invariant
            1 <= version <= 6,
            err_level == ErrorLevel::L,
            size == data@.len() + 2,
            forall|v: u8| 1 <= v < version ==> data_words_of(v) < size,
        decreases 6 - version,
    {
        version += 1;
    }
    proof {
        lemma_version_for(size as int, version);
    }
    if version > 5 {
        return Err(EnumEncodingErr::DataTooLong);
    }
    if err_level.total_words(version) >= S {
        return Err(EnumEncodingErr::DataTooLong);
    }
    Ok(assemble(encoded, size, version, Ghost(data@)))
}

/// Pads the segment that starts `encoded` up to the data capacity of `version` and appends the
/// error-correction code-words.
pub(crate) fn fill_codewords(encoded: &mut Vec<u8>, size: usize, version: u8, text: Ghost<Seq<char>>)
    requires
        supported(version),
        old(encoded)@.len() >= total_words_of(version),
        size == text@.len() + 2,
        data_words_of(version) >= size,
        old(encoded)@.subrange(0, size as int) == segment_bytes(text@),
    ensures
        final(encoded)@.len() == old(encoded)@.len(),
        final(encoded)@.subrange(0, total_words_of(version) as int) == codewords_spec(text@, version),
        forall|j: int| total_words_of(version) <= j < old(encoded)@.len() ==> final(encoded)@[j] == old(encoded)@[j],
{
    let err_level = ErrorLevel::L;
    let data_size = err_level.data_code_words(version);
    let padding = data_size - size;
    let mut pad = vec![0u8; padding];
    add_padding(pad.as_mut_slice());
    let ghost segment = encoded@.subrange(0, size as int);
    let ghost len = encoded@.len();
    let mut i: usize = 0;
    while i < padding
        invariant
            encoded@.len() == len,
            size + padding == data_size,
            data_size <= len,
            pad@.len() == padding,
            forall|k: int| 0 <= k < padding ==> pad@[k] == pad_byte(k),
            i <= padding,
            encoded@.subrange(0, size as int) == segment,
            forall|k: int| 0 <= k < i ==> encoded@[size + k] == pad_byte(k),
            forall|j: int| data_size <= j < len ==> encoded@[j] == old(encoded)@[j],
        decreases padding - i,
    {
        encoded[size + i] = pad[i];
        i += 1;
        assert(encoded@.subrange(0, size as int) =~= segment);
    }
    let ghost data_words = encoded@.subrange(0, data_size as int);
    assert(data_words =~= data_codewords(text@, version));
    let total = err_level.add_error_codes(version, encoded.as_mut_slice());
    assert(encoded@.subrange(0, total as int) =~= codewords_spec(text@, version));
}

/// Pads and corrects the segment that starts `encoded`, and wraps the buffer.
fn assemble<const S: usize>(encoded: Vec<u8>, size: usize, version: u8, text: Ghost<Seq<char>>) -> (r: Code<S>)
    requires
        supported(version),
        encoded@.len() == S,
        size == text@.len() + 2,
        data_words_of(version) >= size,
        total_words_of(version) < S,
        version == version_for(size as int),
        encoded@.subrange(0, size as int) == segment_bytes(text@),
        forall|j: int| size <= j < S ==> encoded@[j] == 0,
    ensures
        encodes(text@, r),
{
    let mut encoded = encoded;
    fill_codewords(&mut encoded, size, version, text);
    Code { version: Version(version), err_level: ErrorLevel::L, data: encoded }
}

impl<const S: usize> Code<S> {
    /// A supported version at level L, with room for all its code-words.
    pub open spec fn wf(&self) -> bool {
        &&& supported(self.version.0)
        &&& self.err_level == ErrorLevel::L
        &&& self.data@.len() >= total_words_of(self.version.0)
    }

    /// The code-words: the data code-words, then the error-correction code-words.
    pub open spec fn words(&self) -> Seq<u8> {
        self.data@.subrange(0, total_words_of(self.version.0) as int)
    }

    pub fn code_words(&self) -> (r: &[u8])
        requires
            self.wf(),
        ensures
            r@ == self.words(),
    {
        let num_words = self.err_level.total_words(self.version.0);
        slice_subrange(self.data.as_slice(), 0, num_words)
    }

    /// The data modules in walk order, each showing its code-word bit (zero past the last
    /// code-word) inverted where mask 0 applies.
    fn masked_data_modules(&self) -> (r: Vec<Module>)
        requires
            self.wf(),
        ensures
            r@.len() == data_region(self.version.0).len(),
            forall|k: int| 0 <= k < r@.len() ==> {
                let m = #[trigger] r@[k];
                let p = data_region(self.version.0)[k];
                &&& m.carries_data()
                &&& m.pos() == p
                &&& m.dark() == (placed_bit(self.words(), k) != mask_spec(0, p.0 as int, p.1 as int))
            },
    {
        let cells = self.version.data_region_iter();
        let words = self.code_words();
        let mut bit_iter = MsbBitIter::new(words);
        let mut out: Vec<Module> = Vec::new();
        let mut k: usize = 0;
        while k < cells.len()
            invariant
                self.wf(),
                cells@ == data_region(self.version.0),
                words@ == self.words(),
                bit_iter.wf(),
                bit_iter.source() == words@,
                bit_iter.position() == if k < 8 * words@.len() { k as int } else { 8 * words@.len() as int },
                k <= cells@.len(),
                out@.len() == k,
                forall|j: int| 0 <= j < k ==> {
                    let m = #[trigger] out@[j];
                    let p = data_region(self.version.0)[j];
                    &&& m.carries_data()
                    &&& m.pos() == p
                    &&& m.dark() == (placed_bit(self.words(), j) != mask_spec(0, p.0 as int, p.1 as int))
                },
            decreases cells@.len() - k,
        {
            let bit = match bit_iter.next() {
                Some(bit) => bit,
                None => false,
            };
            let p = cells[k];
            let dark = if mask_fn(0, p) { !bit } else { bit };
            out.push(Module::data(p, dark));
            k += 1;
        }
        out
    }

    /// The data cells in walk order that hold code-word bits, each with its bit as read back
    /// from the symbol with mask 0 undone.
    pub fn data_module_iter(&self) -> (r: Vec<((u8, u8), bool)>)
        requires
            self.wf(),
        ensures
            r@.len() == 8 * self.words().len(),
            forall|k: int| 0 <= k < r@.len() ==> #[trigger] r@[k] == (data_region(self.version.0)[k], msb_bit(self.words(), k)),
    {
        let modules = self.masked_data_modules();
        let bit_count = 8 * self.err_level.total_words(self.version.0);
        proof {
            lemma_data_region_size(self.version.0);
        }
        let mut out: Vec<((u8, u8), bool)> = Vec::new();
        let mut k: usize = 0;
        while k < modules.len() && k < bit_count
            invariant
                self.wf(),
                bit_count == 8 * self.words().len(),
                modules@.len() == data_region(self.version.0).len(),
                forall|j: int| 0 <= j < modules@.len() ==> {
                    let m = #[trigger] modules@[j];
                    let p = data_region(self.version.0)[j];
                    &&& m.pos() == p
                    &&& m.dark() == (placed_bit(self.words(), j) != mask_spec(0, p.0 as int, p.1 as int))
                },
                k <= modules@.len(),
                k <= bit_count,
                out@.len() == k,
                forall|j: int| 0 <= j < k ==> #[trigger] out@[j] == (data_region(self.version.0)[j], msb_bit(self.words(), j)),
            decreases modules@.len() - k,
        {
            let m = modules[k];
            let p = m.position();
            let dark = m.is_dark();
            let bit = if mask_fn(0, p) { !dark } else { dark };
            out.push((p, bit));
            k += 1;
        }
        out
    }

    /// Every module of the symbol: the function patterns, then the data modules in walk order
    /// under mask 0, then the 30 format modules for mask 0.
    pub fn module_iter(&self) -> (r: Vec<Module>)
        requires
            self.wf(),
        ensures
            exists|n: int| #[trigger] symbol_layout(self.version.0, self.words(), r@, n),
            r@.len() == size_of_version(self.version.0) * size_of_version(self.version.0),
            forall|k: int| 0 <= k < r@.len() ==> (#[trigger] r@[k]).pos().0 < size_of_version(self.version.0)
                && r@[k].pos().1 < size_of_version(self.version.0),
            distinct_positions(r@),
            forall|x: int, y: int| 0 <= x < size_of_version(self.version.0) && 0 <= y < size_of_version(self.version.0)
                ==> #[trigger] has_module_at(r@, x, y),
    {
        let mut out = self.version.reserved_iter();
        let ghost reserved = out@;
        let data = self.masked_data_modules();
        let format = self.version.format_modules(self.err_level, 0);
        let mut k: usize = 0;
        while k < data.len()
            invariant
                k <= data@.len(),
                out@ == reserved + data@.subrange(0, k as int),
            decreases data@.len() - k,
        {
            out.push(data[k]);
            k += 1;
            assert(out@ =~= reserved + data@.subrange(0, k as int));
        }
        let mut k: usize = 0;
        while k < 30
            invariant
                k <= 30,
                out@ == reserved + data@ + format@.subrange(0, k as int),
            decreases 30 - k,
        {
            out.push(format[k]);
            k += 1;
            assert(out@ =~= reserved + data@ + format@.subrange(0, k as int));
        }
        assert(out@ =~= reserved + data@ + format@);
        let ghost n = reserved.len() as int;
        assert(forall|k: int| 0 <= k < data@.len() ==> out@[n + k] == data@[k]);
        assert(forall|k: int| 0 <= k < 30 ==> out@[n + data@.len() + k] == format@[k]);
        assert(symbol_layout(self.version.0, self.words(), out@, n));
        proof {
            let v = self.version.0;
            let sz = size_of_version(v);
            lemma_data_region_size(v);
            lemma_data_region_facts(v);
            lemma_format_cells(v);
            let dn = data@.len() as int;
            if v == 1 {
                assert(sz * sz == 441) by (nonlinear_arith)
                    requires
                        sz == 21,
                ;
            } else if v == 2 {
                assert(sz * sz == 625) by (nonlinear_arith)
                    requires
                        sz == 25,
                ;
            } else if v == 3 {
                assert(sz * sz == 841) by (nonlinear_arith)
                    requires
                        sz == 29,
                ;
            } else if v == 4 {
                assert(sz * sz == 1089) by (nonlinear_arith)
                    requires
                        sz == 33,
                ;
            } else {
                assert(sz * sz == 1369) by (nonlinear_arith)
                    requires
                        sz == 37,
                ;
            }
            assert(n + dn + 30 == sz * sz);
            assert forall|k: int| 0 <= k < out@.len() implies (#[trigger] out@[k]).pos().0 < sz && out@[k].pos().1 < sz by {
                if k < n {
                    assert(reserved_module_ok(v, reserved[k]));
                } else if k < n + dn {
                    assert(out@[k] == data@[k - n]);
                } else {
                    assert(out@[k] == format@[k - n - dn]);
                }
            }
            assert forall|i: int, j: int| 0 <= i < j < out@.len() implies (#[trigger] out@[i]).pos() != (#[trigger] out@[j]).pos() by {
                if j < n {
                    assert(out@[i] == reserved[i] && out@[j] == reserved[j]);
                } else if j < n + dn {
                    assert(out@[j] == data@[j - n]);
                    if i < n {
                        assert(reserved_module_ok(v, reserved[i]));
                    } else {
                        assert(out@[i] == data@[i - n]);
                    }
                } else {
                    assert(out@[j] == format@[j - n - dn]);
                    if i < n {
                        assert(reserved_module_ok(v, reserved[i]));
                    } else if i < n + dn {
                        assert(out@[i] == data@[i - n]);
                    } else {
                        assert(out@[i] == format@[i - n - dn]);
                    }
                }
            }
            let cells = Seq::new(out@.len(), |k: int| out@[k].pos());
            assert forall|i: int, j: int| 0 <= i < j < cells.len() implies cells[i] != cells[j] by {
                assert(out@[i].pos() != out@[j].pos());
            }
            lemma_grid_cover(sz, cells);
            assert forall|x: int, y: int| 0 <= x < sz && 0 <= y < sz implies #[trigger] has_module_at(out@, x, y) by {
                assert(cells.contains((x as u8, y as u8)));
                let k = choose|k: int| 0 <= k < cells.len() && cells[k] == (x as u8, y as u8);
                assert(out@[k].pos() == (x as u8, y as u8));
            }
        }
        out
    }
}

/// Encoding is a function of the text: two encodings of one text have the same version, level
/// and code-words, hence the same modules, and with one capacity the same buffer.
pub proof fn lemma_encode_deterministic<const S: usize, const T: usize>(t: Seq<char>, a: Code<S>, b: Code<T>)
    requires
        encodes(t, a),
        encodes(t, b),
    ensures
        a.version == b.version,
        a.err_level == b.err_level,
        a.words() == b.words(),
        S == T ==> a.data@ == b.data@,
{
    if S == T {
        let n = total_words_of(a.version.0) as int;
        assert forall|j: int| 0 <= j < S implies a.data@[j] == b.data@[j] by {
            if j < n {
                assert(a.data@[j] == a.words()[j] && b.data@[j] == b.words()[j]);
            }
        }
        assert(a.data@ =~= b.data@);
    }
}

} // verus!
