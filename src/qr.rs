//! A symbol as two bit squares: the module colours, and which modules are reserved.
use vstd::prelude::*;
use vstd::slice::slice_subrange;
use crate::bits::{BitSquare, MsbBitIter, Square};
use crate::codec::{codewords_spec, mask_fn, mask_spec, placed_bit};
use crate::error_cc::{data_words_of, format_word, supported, total_words_of, ErrorLevel};
use crate::segment::{encode_byte_segment, fits_bytes};
use crate::version::{
    alignment_center, data_region, finder_area, is_format_cell, format_bit, in_box, pattern_dark, finder_dark, is_reserved, lemma_data_region_facts,
    ring_distance, size_of_version, Version,
};
use crate::{fill_codewords, lemma_bytes_from_bits};

verus! {

/// The side of the square of version `v`.
pub fn version_to_size(v: u8) -> (r: u8)
    requires
        v <= 59,
    ensures
        r == size_of_version(v),
{
    4 * v + 17
}

/// The colour of a reserved module of the symbol: its format bit for mask 0 on a format cell,
/// else its function-pattern colour.
pub open spec fn function_dark(v: u8, x: int, y: int) -> bool {
    let s = size_of_version(v);
    if is_format_cell(s, x, y) {
        format_bit(format_word(0), format_index(s, x, y))
    } else {
        pattern_dark(v, x, y)
    }
}

/// Which bit of the format word a format cell shows.
pub open spec fn format_index(size: int, a: int, b: int) -> int {
    if a == 8 && b <= 5 {
        b
    } else if a == 8 && b == 7 {
        6
    } else if a == 8 && b == 8 {
        7
    } else if b == 8 && a == 7 {
        8
    } else if b == 8 && a <= 5 {
        14 - a
    } else if b == 8 && a >= size - 8 {
        size - 1 - a
    } else {
        b - size + 15
    }
}

/// Bit `i` of `word`.
fn bit_of(word: u32, i: u32) -> (r: bool)
    requires
        i < 32,
    ensures
        r == format_bit(word, i as int),
{
    0 != (word & (1u32 << i))
}

/// The cells of the alignment pattern of versions from 2 on.
pub open spec fn is_alignment_cell(v: u8, a: int, b: int) -> bool {
    v >= 2 && 4 * v + 8 <= a <= 4 * v + 12 && 4 * v + 8 <= b <= 4 * v + 12
}

/// A symbol: the colour of each module, which modules are reserved, the version and the
/// error level.
pub struct QrCode {
    data: BitSquare,
    reserved_bits: BitSquare,
    version: u8,
    error_level: ErrorLevel,
}

impl QrCode {
    /// The version.
    pub closed spec fn version_of(&self) -> u8 {
        self.version
    }

    /// Whether module `(x, y)` is dark.
    pub closed spec fn dark(&self, x: int, y: int) -> bool {
        self.data.cell(x, y)
    }

    /// Whether module `(x, y)` is reserved.
    pub closed spec fn reserved(&self, x: int, y: int) -> bool {
        self.reserved_bits.cell(x, y)
    }

    /// A supported version at level L, whose reserved modules are exactly the reserved cells.
    pub closed spec fn wf(&self) -> bool {
        &&& supported(self.version)
        &&& self.error_level == ErrorLevel::L
        &&& self.data.wf()
        &&& self.reserved_bits.wf()
        &&& self.data.side() == size_of_version(self.version)
        &&& self.reserved_bits.side() == size_of_version(self.version)
        &&& forall|x: int, y: int| 0 <= x < size_of_version(self.version) && 0 <= y < size_of_version(self.version)
            ==> #[trigger] self.reserved_bits.cell(x, y) == is_reserved(self.version, x, y)
    }

    /// The symbol of `version` with its function patterns, the format modules for mask 0, and
    /// the dark module drawn, and every data module light.
    pub fn new(version: u8, error_level: ErrorLevel) -> (r: QrCode)
        requires
            supported(version),
            error_level == ErrorLevel::L,
        ensures
            r.wf(),
            r.version_of() == version,
            forall|x: int, y: int| 0 <= x < size_of_version(version) && 0 <= y < size_of_version(version)
                && !is_reserved(version, x, y) ==> !#[trigger] r.dark(x, y),
            forall|x: int, y: int| 0 <= x < size_of_version(version) && 0 <= y < size_of_version(version)
                && is_reserved(version, x, y) ==> #[trigger] r.dark(x, y) == function_dark(version, x, y),
    {
        let size = version_to_size(version);
        let mut bit_sq = BitSquare::new(size);
        let mut reserved = BitSquare::new(size);
        draw_timing_pattern(&mut bit_sq, &mut reserved);
        draw_finding_pattern(&mut bit_sq, &mut reserved);
        set_alignment_patterns(&mut bit_sq, version, &mut reserved);
        let mut qr = QrCode { data: bit_sq, reserved_bits: reserved, version, error_level };
        qr.set_format();
        qr.set_dark_module();
        assert forall|x: int, y: int| 0 <= x < size && 0 <= y < size implies #[trigger] qr.reserved_bits.cell(x, y) == is_reserved(version, x, y) by {
        }
        assert forall|x: int, y: int| 0 <= x < size && 0 <= y < size && is_reserved(version, x, y) implies #[trigger] qr.data.cell(x, y) == function_dark(version, x, y) by {
        }
        qr
    }

    /// Encodes `data` into the data modules under mask 0.
    pub fn encode_data(&mut self, data: &str)
        requires
            old(self).wf(),
            fits_bytes(data@),
            data@.len() + 2 <= data_words_of(old(self).version_of()),
        ensures
            final(self).wf(),
            final(self).version_of() == old(self).version_of(),
            forall|x: int, y: int| 0 <= x < size_of_version(old(self).version_of()) && 0 <= y < size_of_version(old(self).version_of())
                && is_reserved(old(self).version_of(), x, y) ==> #[trigger] final(self).dark(x, y) == old(self).dark(x, y),
            forall|k: int| 0 <= k < data_region(old(self).version_of()).len() ==> {
                let p = #[trigger] data_region(old(self).version_of())[k];
                final(self).dark(p.0 as int, p.1 as int) == (placed_bit(codewords_spec(data@, old(self).version_of()), k) != mask_spec(0, p.0 as int, p.1 as int))
            },
    {
        let mut out_bytes = vec![0u8; 256];
        let size = match encode_byte_segment(data, out_bytes.as_mut_slice()) {
            Ok(n) => n,
            Err(_) => 0,
        };
        proof {
            lemma_bytes_from_bits(out_bytes@.subrange(0, size as int));
        }
        let version = self.version;
        fill_codewords(&mut out_bytes, size, version, Ghost(data@));
        let total = self.expected_byte_count();
        self.set_code_words(slice_subrange(out_bytes.as_slice(), 0, total));
        self.apply_mask(0);
        proof {
            lemma_data_region_facts(version);
        }
    }

    /// The module colours.
    pub fn data_sq(&self) -> (r: &BitSquare)
        requires
            self.wf(),
        ensures
            r.wf(),
            r.side() == size_of_version(self.version_of()),
            forall|x: int, y: int| #[trigger] r.cell(x, y) == self.dark(x, y),
    {
        &self.data
    }

    /// Inverts every data module that mask `mask_pattern` selects.
    pub fn apply_mask(&mut self, mask_pattern: u8)
        requires
            old(self).wf(),
            mask_pattern < 4,
        ensures
            final(self).wf(),
            final(self).version_of() == old(self).version_of(),
            forall|x: int, y: int| 0 <= x < size_of_version(old(self).version_of()) && 0 <= y < size_of_version(old(self).version_of())
                ==> #[trigger] final(self).dark(x, y) == if !is_reserved(old(self).version_of(), x, y) && mask_spec(mask_pattern, x, y) {
                    !old(self).dark(x, y)
                } else {
                    old(self).dark(x, y)
                },
    {
        let size = self.data.size();
        let mut x: u8 = 0;
        while x < size
            invariant
                self.wf(),
                self.version == old(self).version,
                size == size_of_version(self.version),
                x <= size,
                mask_pattern < 4,
                forall|a: int, b: int| 0 <= a < size && 0 <= b < size ==> #[trigger] self.data.cell(a, b) == if a < x && !is_reserved(self.version, a, b) && mask_spec(mask_pattern, a, b) {
                    !old(self).data.cell(a, b)
                } else {
                    old(self).data.cell(a, b)
                },
            decreases size - x,
        {
            let mut y: u8 = 0;
            while y < size
                invariant
                    self.wf(),
                    self.version == old(self).version,
                    size == size_of_version(self.version),
                    x < size,
                    y <= size,
                    mask_pattern < 4,
                    forall|a: int, b: int| 0 <= a < size && 0 <= b < size ==> #[trigger] self.data.cell(a, b) == if (a < x || (a == x && b < y)) && !is_reserved(self.version, a, b) && mask_spec(mask_pattern, a, b) {
                        !old(self).data.cell(a, b)
                    } else {
                        old(self).data.cell(a, b)
                    },
                decreases size - y,
            {
                if self.is_data_module((x, y)) && mask_fn(mask_pattern, (x, y)) {
                    self.data.flip_bit(x, y);
                }
                y += 1;
            }
            x += 1;
        }
    }

    /// Which modules are reserved.
    pub fn reserved_area(&self) -> (r: &BitSquare)
        requires
            self.wf(),
        ensures
            r.wf(),
            r.side() == size_of_version(self.version_of()),
            forall|x: int, y: int| 0 <= x < r.side() && 0 <= y < r.side() ==> #[trigger] r.cell(x, y) == is_reserved(self.version_of(), x, y),
    {
        &self.reserved_bits
    }

    /// Whether a module carries data.
    pub fn is_data_module(&self, pos: (u8, u8)) -> (r: bool)
        requires
            self.wf(),
            pos.0 < size_of_version(self.version_of()),
            pos.1 < size_of_version(self.version_of()),
        ensures
            r == !is_reserved(self.version_of(), pos.0 as int, pos.1 as int),
    {
        let (x, y) = pos;
        !self.reserved_bits.is_set(x, y)
    }

    /// Draws the format modules for mask 0 and marks them reserved.
    fn set_format(&mut self)
        requires
            supported(old(self).version),
            old(self).error_level == ErrorLevel::L,
            old(self).data.wf(),
            old(self).reserved_bits.wf(),
            old(self).data.side() == size_of_version(old(self).version),
            old(self).reserved_bits.side() == size_of_version(old(self).version),
        ensures
            final(self).version == old(self).version,
            final(self).error_level == old(self).error_level,
            final(self).data.wf(),
            final(self).reserved_bits.wf(),
            final(self).data.side() == old(self).data.side(),
            final(self).reserved_bits.side() == old(self).reserved_bits.side(),
            forall|a: int, b: int| 0 <= a < old(self).data.side() && 0 <= b < old(self).data.side() ==> #[trigger] final(self).reserved_bits.cell(a, b) == (old(self).reserved_bits.cell(a, b) || is_format_cell(old(self).data.side() as int, a, b)),
            forall|a: int, b: int| 0 <= a < old(self).data.side() && 0 <= b < old(self).data.side() ==> #[trigger] final(self).data.cell(a, b) == if is_format_cell(old(self).data.side() as int, a, b) {
                format_bit(format_word(0), format_index(old(self).data.side() as int, a, b))
            } else {
                old(self).data.cell(a, b)
            },
    {
        let bits = self.error_level.format_bits(0);
        let size = self.data.size();
        let mut i: u8 = 0;
        while i < 6
            invariant
                self.version == old(self).version,
                self.error_level == old(self).error_level,
                self.data.wf(),
                self.reserved_bits.wf(),
                self.data.side() == size,
                self.reserved_bits.side() == size,
                size == size_of_version(self.version),
                supported(self.version),
                bits == format_word(0),
                i <= 6,
                forall|a: int, b: int| 0 <= a < size && 0 <= b < size ==> #[trigger] self.reserved_bits.cell(a, b) == (old(self).reserved_bits.cell(a, b) || (a == 8 && b < i)),
                forall|a: int, b: int| 0 <= a < size && 0 <= b < size ==> #[trigger] self.data.cell(a, b) == if (a == 8 && b < i) {
                    format_bit(bits, format_index(size as int, a, b))
                } else {
                    old(self).data.cell(a, b)
                },
            decreases 6 - i,
        {
            self.set_function_module(8, i, bit_of(bits, i as u32));
            i += 1;
        }
        self.set_function_module(8, 7, bit_of(bits, 6));
        self.set_function_module(8, 8, bit_of(bits, 7));
        self.set_function_module(7, 8, bit_of(bits, 8));
        let mut i: u8 = 9;
        while i < 15
            invariant
                self.version == old(self).version,
                self.error_level == old(self).error_level,
                self.data.wf(),
                self.reserved_bits.wf(),
                self.data.side() == size,
                self.reserved_bits.side() == size,
                size == size_of_version(self.version),
                supported(self.version),
                bits == format_word(0),
                9 <= i <= 15,
                forall|a: int, b: int| 0 <= a < size && 0 <= b < size ==> #[trigger] self.reserved_bits.cell(a, b) == (old(self).reserved_bits.cell(a, b) || (a == 8 && (b <= 5 || b == 7 || b == 8)) || (b == 8 && (a == 7 || (14 - i < a <= 5)))),
                forall|a: int, b: int| 0 <= a < size && 0 <= b < size ==> #[trigger] self.data.cell(a, b) == if (a == 8 && (b <= 5 || b == 7 || b == 8)) || (b == 8 && (a == 7 || (14 - i < a <= 5))) {
                    format_bit(bits, format_index(size as int, a, b))
                } else {
                    old(self).data.cell(a, b)
                },
            decreases 15 - i,
        {
            self.set_function_module(14 - i, 8, bit_of(bits, i as u32));
            i += 1;
        }
        let mut i: u8 = 0;
        while i < 8
            invariant
                self.version == old(self).version,
                self.error_level == old(self).error_level,
                self.data.wf(),
                self.reserved_bits.wf(),
                self.data.side() == size,
                self.reserved_bits.side() == size,
                size == size_of_version(self.version),
                supported(self.version),
                bits == format_word(0),
                i <= 8,
                forall|a: int, b: int| 0 <= a < size && 0 <= b < size ==> #[trigger] self.reserved_bits.cell(a, b) == (old(self).reserved_bits.cell(a, b) || (a == 8 && (b <= 5 || b == 7 || b == 8)) || (b == 8 && (a == 7 || a <= 5)) || (b == 8 && size - i <= a < size)),
                forall|a: int, b: int| 0 <= a < size && 0 <= b < size ==> #[trigger] self.data.cell(a, b) == if (a == 8 && (b <= 5 || b == 7 || b == 8)) || (b == 8 && (a == 7 || a <= 5)) || (b == 8 && size - i <= a < size) {
                    format_bit(bits, format_index(size as int, a, b))
                } else {
                    old(self).data.cell(a, b)
                },
            decreases 8 - i,
        {
            self.set_function_module(size - 1 - i, 8, bit_of(bits, i as u32));
            i += 1;
        }
        let mut i: u8 = 8;
        while i < 15
            invariant
                self.version == old(self).version,
                self.error_level == old(self).error_level,
                self.data.wf(),
                self.reserved_bits.wf(),
                self.data.side() == size,
                self.reserved_bits.side() == size,
                size == size_of_version(self.version),
                supported(self.version),
                bits == format_word(0),
                8 <= i <= 15,
                forall|a: int, b: int| 0 <= a < size && 0 <= b < size ==> #[trigger] self.reserved_bits.cell(a, b) == (old(self).reserved_bits.cell(a, b) || (a == 8 && (b <= 5 || b == 7 || b == 8)) || (b == 8 && (a == 7 || a <= 5)) || (b == 8 && size - 8 <= a < size) || (a == 8 && size - 7 <= b < size - 15 + i)),
                forall|a: int, b: int| 0 <= a < size && 0 <= b < size ==> #[trigger] self.data.cell(a, b) == if (a == 8 && (b <= 5 || b == 7 || b == 8)) || (b == 8 && (a == 7 || a <= 5)) || (b == 8 && size - 8 <= a < size) || (a == 8 && size - 7 <= b < size - 15 + i) {
                    format_bit(bits, format_index(size as int, a, b))
                } else {
                    old(self).data.cell(a, b)
                },
            decreases 15 - i,
        {
            self.set_function_module(8, size - 15 + i, bit_of(bits, i as u32));
            i += 1;
        }
    }

    /// Sets a module's colour and marks it reserved.
    fn set_function_module(&mut self, x: u8, y: u8, is_set: bool)
        requires
            old(self).data.wf(),
            old(self).reserved_bits.wf(),
            x < old(self).data.side(),
            y < old(self).data.side(),
            old(self).reserved_bits.side() == old(self).data.side(),
        ensures
            final(self).version == old(self).version,
            final(self).error_level == old(self).error_level,
            final(self).data.wf(),
            final(self).reserved_bits.wf(),
            final(self).data.side() == old(self).data.side(),
            final(self).reserved_bits.side() == old(self).reserved_bits.side(),
            forall|a: int, b: int| 0 <= a < old(self).data.side() && 0 <= b < old(self).data.side() ==> #[trigger] final(self).data.cell(a, b) == if a == x && b == y { is_set } else { old(self).data.cell(a, b) },
            forall|a: int, b: int| 0 <= a < old(self).data.side() && 0 <= b < old(self).data.side() ==> #[trigger] final(self).reserved_bits.cell(a, b) == (old(self).reserved_bits.cell(a, b) || (a == x && b == y)),
    {
        self.data.set_value(x, y, is_set);
        self.reserved_bits.set_value(x, y, true);
    }

    /// Draws the dark module at `(8, 4v+9)` and marks it reserved.
    fn set_dark_module(&mut self)
        requires
            supported(old(self).version),
            old(self).data.wf(),
            old(self).reserved_bits.wf(),
            old(self).data.side() == size_of_version(old(self).version),
            old(self).reserved_bits.side() == size_of_version(old(self).version),
        ensures
            final(self).version == old(self).version,
            final(self).error_level == old(self).error_level,
            final(self).data.wf(),
            final(self).reserved_bits.wf(),
            final(self).data.side() == old(self).data.side(),
            final(self).reserved_bits.side() == old(self).reserved_bits.side(),
            forall|a: int, b: int| 0 <= a < old(self).data.side() && 0 <= b < old(self).data.side() ==> #[trigger] final(self).data.cell(a, b) == if a == 8 && b == 4 * old(self).version + 9 { true } else { old(self).data.cell(a, b) },
            forall|a: int, b: int| 0 <= a < old(self).data.side() && 0 <= b < old(self).data.side() ==> #[trigger] final(self).reserved_bits.cell(a, b) == (old(self).reserved_bits.cell(a, b) || (a == 8 && b == 4 * old(self).version + 9)),
    {
        let (x, y) = (8, 4 * self.version + 9);
        self.set_function_module(x, y, true);
    }

    /// Writes the bits of `code_words` into the data modules in walk order, and zeros into the
    /// data modules left over.
    fn set_code_words(&mut self, code_words: &[u8])
        requires
            old(self).wf(),
            code_words@.len() == total_words_of(old(self).version_of()),
        ensures
            final(self).wf(),
            final(self).version_of() == old(self).version_of(),
            forall|x: int, y: int| 0 <= x < size_of_version(old(self).version_of()) && 0 <= y < size_of_version(old(self).version_of())
                && is_reserved(old(self).version_of(), x, y) ==> #[trigger] final(self).dark(x, y) == old(self).dark(x, y),
            forall|k: int| 0 <= k < data_region(old(self).version_of()).len() ==> {
                let p = #[trigger] data_region(old(self).version_of())[k];
                final(self).dark(p.0 as int, p.1 as int) == placed_bit(code_words@, k)
            },
    {
        let cells = Version(self.version).data_region_iter();
        proof {
            lemma_data_region_facts(self.version);
        }
        let mut bit_iter = MsbBitIter::new(code_words);
        let mut k: usize = 0;
        while k < cells.len()
            invariant
                self.wf(),
                self.version == old(self).version,
                cells@ == data_region(self.version),
                cells@.no_duplicates(),
                forall|j: int| 0 <= j < cells@.len() ==> {
                    let c = #[trigger] cells@[j];
                    &&& c.0 < size_of_version(self.version)
                    &&& c.1 < size_of_version(self.version)
                    &&& !is_reserved(self.version, c.0 as int, c.1 as int)
                },
                bit_iter.wf(),
                bit_iter.source() == code_words@,
                bit_iter.position() == if k < 8 * code_words@.len() { k as int } else { 8 * code_words@.len() as int },
                k <= cells@.len(),
                forall|x: int, y: int| 0 <= x < size_of_version(self.version) && 0 <= y < size_of_version(self.version)
                    && is_reserved(self.version, x, y) ==> #[trigger] self.data.cell(x, y) == old(self).data.cell(x, y),
                forall|j: int| 0 <= j < k ==> {
                    let p = #[trigger] cells@[j];
                    self.data.cell(p.0 as int, p.1 as int) == placed_bit(code_words@, j)
                },
            decreases cells@.len() - k,
        {
            let bit = match bit_iter.next() {
                Some(bit) => bit,
                None => false,
            };
            let (x, y) = cells[k];
            self.data.set_value(x, y, bit);
            proof {
                assert forall|j: int| 0 <= j < k implies #[trigger] cells@[j] != cells@[k as int] by {
                }
            }
            k += 1;
        }
    }

    /// All code-words of the version.
    fn expected_byte_count(&self) -> (r: usize)
        requires
            self.wf(),
        ensures
            r == total_words_of(self.version_of()),
    {
        self.error_level.total_words(self.version)
    }
}

/// Draws the timing row and column, dark on even indices, and marks them reserved.
fn draw_timing_pattern(sq: &mut BitSquare, changes: &mut BitSquare)
    requires
        old(sq).wf(),
        old(changes).wf(),
        old(sq).side() == old(changes).side(),
        old(sq).side() > 6,
    ensures
        final(sq).wf(),
        final(changes).wf(),
        final(sq).side() == old(sq).side(),
        final(changes).side() == old(changes).side(),
        forall|a: int, b: int| 0 <= a < old(sq).side() && 0 <= b < old(sq).side() ==> #[trigger] final(changes).cell(a, b) == (old(changes).cell(a, b) || a == 6 || b == 6),
        forall|a: int, b: int| 0 <= a < old(sq).side() && 0 <= b < old(sq).side() ==> #[trigger] final(sq).cell(a, b) == if b == 6 {
            a % 2 == 0
        } else if a == 6 {
            b % 2 == 0
        } else {
            old(sq).cell(a, b)
        },
{
    let size = sq.size();
    let mut y: u8 = 0;
    while y < size
        invariant
            sq.wf(),
            changes.wf(),
            sq.side() == size,
            changes.side() == size,
            size > 6,
            y <= size,
            forall|a: int, b: int| 0 <= a < size && 0 <= b < size ==> #[trigger] changes.cell(a, b) == (old(changes).cell(a, b) || (a == 6 && b < y)),
            forall|a: int, b: int| 0 <= a < size && 0 <= b < size ==> #[trigger] sq.cell(a, b) == if a == 6 && b < y {
                b % 2 == 0
            } else {
                old(sq).cell(a, b)
            },
        decreases size - y,
    {
        let even = (y % 2) == 0;
        sq.set_value(6, y, even);
        changes.set_value(6, y, true);
        y += 1;
    }
    let mut x: u8 = 0;
    while x < size
        invariant
            sq.wf(),
            changes.wf(),
            sq.side() == size,
            changes.side() == size,
            size > 6,
            x <= size,
            forall|a: int, b: int| 0 <= a < size && 0 <= b < size ==> #[trigger] changes.cell(a, b) == (old(changes).cell(a, b) || a == 6 || (b == 6 && a < x)),
            forall|a: int, b: int| 0 <= a < size && 0 <= b < size ==> #[trigger] sq.cell(a, b) == if b == 6 && a < x {
                a % 2 == 0
            } else if a == 6 {
                b % 2 == 0
            } else {
                old(sq).cell(a, b)
            },
        decreases size - x,
    {
        let even = (x % 2) == 0;
        sq.set_value(x, 6, even);
        changes.set_value(x, 6, true);
        x += 1;
    }
}

/// Draws a finder pattern whose top-left corner is `top_left`: dark 7x7, light 5x5, dark 3x3
/// and dark centre; its 7x7 square is marked reserved.
fn finding_pattern(sq: &mut BitSquare, top_left: (u8, u8), changes: &mut BitSquare)
    requires
        old(sq).wf(),
        old(changes).wf(),
        old(sq).side() == old(changes).side(),
        top_left.0 + 7 <= old(sq).side(),
        top_left.1 + 7 <= old(sq).side(),
    ensures
        final(sq).wf(),
        final(changes).wf(),
        final(sq).side() == old(sq).side(),
        final(changes).side() == old(changes).side(),
        forall|a: int, b: int| 0 <= a < old(sq).side() && 0 <= b < old(sq).side() ==> #[trigger] final(changes).cell(a, b) == (old(changes).cell(a, b) || ring_distance((a, b), (top_left.0 + 3, top_left.1 + 3)) <= 3),
        forall|a: int, b: int| 0 <= a < old(sq).side() && 0 <= b < old(sq).side() ==> #[trigger] final(sq).cell(a, b) == if ring_distance((a, b), (top_left.0 + 3, top_left.1 + 3)) <= 3 {
            ring_distance((a, b), (top_left.0 + 3, top_left.1 + 3)) != 2
        } else {
            old(sq).cell(a, b)
        },
{
    sq.set_square(Square::new(7, top_left), true);
    let (x, y) = top_left;
    sq.set_square(Square::new(5, (x + 1, y + 1)), false);
    sq.set_square(Square::new(3, (x + 2, y + 2)), true);
    sq.set_square(Square::new(1, (x + 3, y + 3)), true);
    changes.set_square(Square::new(7, top_left), true);
    changes.set_square(Square::new(5, (x + 1, y + 1)), true);
    changes.set_square(Square::new(3, (x + 2, y + 2)), true);
    changes.set_square(Square::new(1, (x + 3, y + 3)), true);
}

/// Draws a finder with its separator in the 8x8 box at `corner`: the finder fills the 7x7
/// square at `top_left` inside the box, and the separator is the light column `sep_x` and row
/// `sep_y` of the box. The whole box is marked reserved.
fn draw_corner(sq: &mut BitSquare, changes: &mut BitSquare, corner: (u8, u8), top_left: (u8, u8), sep_x: u8, sep_y: u8)
    requires
        old(sq).wf(),
        old(changes).wf(),
        old(sq).side() == old(changes).side(),
        corner.0 + 8 <= old(sq).side(),
        corner.1 + 8 <= old(sq).side(),
        (top_left.0 == corner.0 && sep_x == corner.0 + 7) || (top_left.0 == corner.0 + 1 && sep_x == corner.0),
        (top_left.1 == corner.1 && sep_y == corner.1 + 7) || (top_left.1 == corner.1 + 1 && sep_y == corner.1),
    ensures
        final(sq).wf(),
        final(changes).wf(),
        final(sq).side() == old(sq).side(),
        final(changes).side() == old(changes).side(),
        forall|a: int, b: int| 0 <= a < old(sq).side() && 0 <= b < old(sq).side() ==> #[trigger] final(changes).cell(a, b) == (old(changes).cell(a, b) || in_box(a, b, corner.0 as int, corner.1 as int, corner.0 + 7, corner.1 + 7)),
        forall|a: int, b: int| 0 <= a < old(sq).side() && 0 <= b < old(sq).side() ==> #[trigger] final(sq).cell(a, b) == if in_box(a, b, corner.0 as int, corner.1 as int, corner.0 + 7, corner.1 + 7) {
            ring_distance((a, b), (top_left.0 + 3, top_left.1 + 3)) <= 3 && ring_distance((a, b), (top_left.0 + 3, top_left.1 + 3)) != 2
        } else {
            old(sq).cell(a, b)
        },
{
    finding_pattern(sq, top_left, changes);
    sq.draw_vert((sep_x, corner.1), 8, false);
    changes.draw_vert((sep_x, corner.1), 8, true);
    sq.draw_horizontal((corner.0, sep_y), 8, false);
    changes.draw_horizontal((corner.0, sep_y), 8, true);
}

/// Draws the three finders with their light separators, and marks them reserved.
fn draw_finding_pattern(sq: &mut BitSquare, changes: &mut BitSquare)
    requires
        old(sq).wf(),
        old(changes).wf(),
        old(sq).side() == old(changes).side(),
        old(sq).side() >= 16,
    ensures
        final(sq).wf(),
        final(changes).wf(),
        final(sq).side() == old(sq).side(),
        final(changes).side() == old(changes).side(),
        forall|a: int, b: int| 0 <= a < old(sq).side() && 0 <= b < old(sq).side() ==> #[trigger] final(changes).cell(a, b) == (old(changes).cell(a, b) || finder_area(old(sq).side() as int, a, b)),
        forall|a: int, b: int| 0 <= a < old(sq).side() && 0 <= b < old(sq).side() ==> #[trigger] final(sq).cell(a, b) == if finder_area(old(sq).side() as int, a, b) {
            finder_dark(old(sq).side() as int, a, b)
        } else {
            old(sq).cell(a, b)
        },
{
    let size = sq.size();
    draw_corner(sq, changes, (0, 0), (0, 0), 7, 7);
    draw_corner(sq, changes, (size - 8, 0), (size - 7, 0), size - 8, 7);
    draw_corner(sq, changes, (0, size - 8), (0, size - 7), 7, size - 8);
}

/// Draws the alignment pattern of versions from 2 on, centred at `(4v+10, 4v+10)`: dark 5x5,
/// light 3x3, dark centre; marked reserved.
fn set_alignment_patterns(sq: &mut BitSquare, version: u8, reserved: &mut BitSquare)
    requires
        supported(version),
        old(sq).wf(),
        old(reserved).wf(),
        old(sq).side() == size_of_version(version),
        old(reserved).side() == size_of_version(version),
    ensures
        final(sq).wf(),
        final(reserved).wf(),
        final(sq).side() == old(sq).side(),
        final(reserved).side() == old(reserved).side(),
        forall|a: int, b: int| 0 <= a < old(sq).side() && 0 <= b < old(sq).side() ==> #[trigger] final(reserved).cell(a, b) == (old(reserved).cell(a, b) || is_alignment_cell(version, a, b)),
        forall|a: int, b: int| 0 <= a < old(sq).side() && 0 <= b < old(sq).side() ==> #[trigger] final(sq).cell(a, b) == if is_alignment_cell(version, a, b) {
            ring_distance((a, b), (alignment_center(version), alignment_center(version))) != 1
        } else {
            old(sq).cell(a, b)
        },
{
    if version >= 2 {
        let c = 4 * version + 10;
        alignment_square(sq, (c, c), reserved);
    }
}

/// Draws an alignment pattern centred at `center`, and marks its 5x5 square reserved.
fn alignment_square(sq: &mut BitSquare, center: (u8, u8), changes: &mut BitSquare)
    requires
        old(sq).wf(),
        old(changes).wf(),
        old(sq).side() == old(changes).side(),
        2 <= center.0,
        2 <= center.1,
        center.0 + 3 <= old(sq).side(),
        center.1 + 3 <= old(sq).side(),
    ensures
        final(sq).wf(),
        final(changes).wf(),
        final(sq).side() == old(sq).side(),
        final(changes).side() == old(changes).side(),
        forall|a: int, b: int| 0 <= a < old(sq).side() && 0 <= b < old(sq).side() ==> #[trigger] final(changes).cell(a, b) == (old(changes).cell(a, b) || ring_distance((a, b), (center.0 as int, center.1 as int)) <= 2),
        forall|a: int, b: int| 0 <= a < old(sq).side() && 0 <= b < old(sq).side() ==> #[trigger] final(sq).cell(a, b) == if ring_distance((a, b), (center.0 as int, center.1 as int)) <= 2 {
            ring_distance((a, b), (center.0 as int, center.1 as int)) != 1
        } else {
            old(sq).cell(a, b)
        },
{
    let (x, y) = center;
    sq.set_square(Square::new(5, (x - 2, y - 2)), true);
    sq.set_square(Square::new(3, (x - 1, y - 1)), false);
    sq.set_square(Square::new(1, (x, y)), true);
    changes.set_square(Square::new(5, (x - 2, y - 2)), true);
    changes.set_square(Square::new(3, (x - 1, y - 1)), true);
    changes.set_square(Square::new(1, (x, y)), true);
}

} // verus!
