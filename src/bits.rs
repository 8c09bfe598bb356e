//! Bits of byte buffers, most significant bit first: a reader, a writer, and a square of bits.
use vstd::prelude::*;

verus! {

/// Bit `j` of `b`, counting from the least significant bit.
pub open spec fn byte_bit(b: u8, j: u8) -> bool {
    b & (1u8 << j) != 0
}

/// Bit `i` of `bytes` read most significant bit first: bit 7 of byte 0 is bit 0.
pub open spec fn msb_bit(bytes: Seq<u8>, i: int) -> bool {
    byte_bit(bytes[i / 8], (7 - i % 8) as u8)
}

/// All the bits of `bytes`, most significant first.
pub open spec fn bits_of(bytes: Seq<u8>) -> Seq<bool> {
    Seq::new(8 * bytes.len(), |i: int| msb_bit(bytes, i))
}

/// The low `k` bits of `v`, most significant first.
pub open spec fn value_bits(v: u8, k: nat) -> Seq<bool> {
    Seq::new(k, |i: int| byte_bit(v, (k - 1 - i) as u8))
}

/// Setting or clearing bit `j` changes that bit alone.
proof fn lemma_write_bit(b: u8, j: u8, m: u8)
    requires
        j < 8,
        m < 8,
    ensures
        byte_bit(b | (1u8 << j), m) == (m == j || byte_bit(b, m)),
        byte_bit(b & !(1u8 << j), m) == (m != j && byte_bit(b, m)),
{
    assert(byte_bit(b | (1u8 << j), m) == (m == j || byte_bit(b, m)) && byte_bit(b & !(1u8 << j), m) == (m != j && byte_bit(b, m))) by (bit_vector)
        requires
            j < 8,
            m < 8,
    ;
}

/// Reads the bits of a byte slice, bit 7 of each byte first.
pub struct MsbBitIter<'a> {
    bytes: &'a [u8],
    index: usize,
    bit_index: u8,
}

impl<'a> MsbBitIter<'a> {
    /// The bytes read.
    pub closed spec fn source(&self) -> Seq<u8> {
        self.bytes@
    }

    /// How many bits have been read.
    pub closed spec fn position(&self) -> int {
        self.index * 8 + 8 - self.bit_index
    }

    /// The cursor lies within the bytes.
    pub closed spec fn wf(&self) -> bool {
        &&& self.bit_index <= 8
        &&& self.index <= self.bytes@.len()
        &&& self.position() <= 8 * self.bytes@.len()
    }

    pub fn new(bytes: &'a [u8]) -> (r: MsbBitIter<'a>)
        ensures
            r.wf(),
            r.source() == bytes@,
            r.position() == 0,
    {
        MsbBitIter { bytes, index: 0, bit_index: 8 }
    }

    /// The next bit, or `None` once every bit has been read.
    pub fn next(&mut self) -> (r: Option<bool>)
        requires
            old(self).wf(),
        ensures
            final(self).wf(),
            final(self).source() == old(self).source(),
            old(self).position() < 8 * old(self).source().len() ==> r == Some(
                msb_bit(old(self).source(), old(self).position()),
            ) && final(self).position() == old(self).position() + 1,
            old(self).position() >= 8 * old(self).source().len() ==> r is None
                && final(self).position() == old(self).position(),
    {
        if self.bit_index == 0 && self.index < self.bytes.len() {
            self.index += 1;
            self.bit_index = 8;
        }
        if self.index < self.bytes.len() {
            let bit_i = self.bit_index - 1;
            let byte = self.bytes[self.index];
            let bit = byte & (1u8 << bit_i);
            self.bit_index -= 1;
            let ghost p = self.index * 8 + 7 - bit_i;
            assert(p / 8 == self.index && p % 8 == 7 - bit_i);
            return Some(bit != 0);
        }
        None
    }
}

/// Writes bits into a byte buffer at a cursor, most significant bit of each byte first.
pub struct BigEndianBitWriter {
    bytes: Vec<u8>,
    current_bit: usize,
}

impl BigEndianBitWriter {
    /// The buffer written into.
    pub closed spec fn buffer(&self) -> Seq<u8> {
        self.bytes@
    }

    /// The cursor: how many bits have been written.
    pub closed spec fn cursor(&self) -> nat {
        self.current_bit as nat
    }

    pub fn new(buffer: Vec<u8>) -> (r: BigEndianBitWriter)
        ensures
            r.buffer() == buffer@,
            r.cursor() == 0,
    {
        BigEndianBitWriter { bytes: buffer, current_bit: 0 }
    }

    /// Writes the low `num_of_bits` bits of `data`, most significant first, at the cursor, and
    /// moves the cursor past them. No other bit of the buffer changes.
    pub fn append_bits(&mut self, data: u8, num_of_bits: u8)
        requires
            num_of_bits <= 8,
            old(self).cursor() + num_of_bits <= 8 * old(self).buffer().len(),
            8 * old(self).buffer().len() <= usize::MAX,
        ensures
            final(self).cursor() == old(self).cursor() + num_of_bits,
            final(self).buffer().len() == old(self).buffer().len(),
            forall|p: int|
                0 <= p < 8 * old(self).buffer().len() ==> #[trigger] msb_bit(final(self).buffer(), p)
                    == if old(self).cursor() <= p < old(self).cursor() + num_of_bits {
                    value_bits(data, num_of_bits as nat)[p - old(self).cursor()]
                } else {
                    msb_bit(old(self).buffer(), p)
                },
    {
        let ghost start = self.current_bit as int;
        let ghost before = self.bytes@;
        let mut slot = self.current_bit / 8;
        let mut bit_index = self.current_bit % 8;
        let mut n: u8 = 0;
        while n < num_of_bits
            invariant
                start == old(self).cursor(),
                before == old(self).buffer(),
                num_of_bits <= 8,
                start + num_of_bits <= 8 * before.len(),
                8 * before.len() <= usize::MAX,
                n <= num_of_bits,
                bit_index < 8,
                slot * 8 + bit_index == start + n,
                self.bytes@.len() == before.len(),
                forall|p: int|
                    0 <= p < 8 * before.len() ==> #[trigger] msb_bit(self.bytes@, p) == if start <= p
                        < start + n {
                        value_bits(data, num_of_bits as nat)[p - start]
                    } else {
                        msb_bit(before, p)
                    },
            decreases num_of_bits - n,
        {
            let i = num_of_bits - 1 - n;
            let is_bit_set = (data & (1u8 << i)) != 0;
            let shift = (7 - bit_index) as u8;
            let mask: u8 = 1u8 << shift;
            let ghost old_bytes = self.bytes@;
            if is_bit_set {
                self.bytes[slot] = self.bytes[slot] | mask;
            } else {
                self.bytes[slot] = self.bytes[slot] & !mask;
            }
            proof {
                let q = start + n;
                assert(q / 8 == slot && q % 8 == bit_index);
                assert forall|p: int| 0 <= p < 8 * before.len() implies #[trigger] msb_bit(self.bytes@, p) == if start <= p < start + n + 1 {
                    value_bits(data, num_of_bits as nat)[p - start]
                } else {
                    msb_bit(before, p)
                } by {
                    if p / 8 == slot {
                        lemma_write_bit(old_bytes[slot as int], shift, (7 - p % 8) as u8);
                        if p == q {
                            assert(p - start == n);
                            assert(msb_bit(self.bytes@, p) == is_bit_set);
                            assert(value_bits(data, num_of_bits as nat)[p - start] == is_bit_set);
                        } else {
                            assert(p % 8 != bit_index);
                            assert(msb_bit(self.bytes@, p) == msb_bit(old_bytes, p));
                        }
                    } else {
                        assert(self.bytes@[p / 8] == old_bytes[p / 8]);
                        assert(msb_bit(self.bytes@, p) == msb_bit(old_bytes, p));
                    }
                }
            }
            if bit_index == 7 {
                slot += 1;
                bit_index = 0;
            } else {
                bit_index += 1;
            }
            n += 1;
        }
        self.current_bit = slot * 8 + bit_index;
    }

    pub fn bits_written(&self) -> (r: usize)
        ensures
            r == self.cursor(),
    {
        self.current_bit
    }

    /// The buffer, handed back.
    pub fn into_bytes(self) -> (r: Vec<u8>)
        ensures
            r@ == self.buffer(),
    {
        self.bytes
    }
}

/// Cells of a square are stored row after row.
pub(crate) proof fn lemma_cell_index(size: int, x: int, y: int, a: int, b: int)
    requires
        0 <= x < size,
        0 <= y < size,
        0 <= a < size,
        0 <= b < size,
    ensures
        0 <= y * size + x < size * size,
        y * size + x == b * size + a ==> x == a && y == b,
{
    assert(0 <= y * size + x < size * size) by (nonlinear_arith)
        requires
            0 <= x < size,
            0 <= y < size,
    ;
    if y < b {
        assert(y * size + x < b * size + a) by (nonlinear_arith)
            requires
                0 <= x < size,
                0 <= a,
                y < b,
        ;
    } else if b < y {
        assert(b * size + a < y * size + x) by (nonlinear_arith)
            requires
                0 <= a < size,
                0 <= x,
                b < y,
        ;
    }
}

proof fn lemma_square_bound(size: u8)
    ensures
        size * size <= 65025,
{
    assert(size * size <= 65025) by (nonlinear_arith)
        requires
            size <= 255,
    ;
}

/// An axis-aligned square of cells: its side and its top-left corner.
#[derive(Copy, Clone, Debug)]
pub struct Square {
    pub size: u8,
    pub top_left: (u8, u8),
}

impl Square {
    pub fn new(size: u8, top_left: (u8, u8)) -> (r: Square)
        ensures
            r.size == size,
            r.top_left == top_left,
    {
        Square { size, top_left }
    }

    /// Whether `(x, y)` is one of the square's cells.
    pub open spec fn holds(&self, x: int, y: int) -> bool {
        self.top_left.0 <= x < self.top_left.0 + self.size && self.top_left.1 <= y < self.top_left.1 + self.size
    }

    pub fn contains_point(&self, point: (u8, u8)) -> (r: bool)
        ensures
            r == self.holds(point.0 as int, point.1 as int),
    {
        let (x, y) = point;
        x >= self.top_left.0 && (x as u16) < self.top_left.0 as u16 + self.size as u16 && y >= self.top_left.1 && (y as u16) < self.top_left.1 as u16 + self.size as u16
    }
}

/// A square of bits, one per cell.
pub struct BitSquare {
    size: u8,
    bits: Vec<bool>,
}

impl BitSquare {
    /// The side of the square.
    pub closed spec fn side(&self) -> u8 {
        self.size
    }

    /// The bit of cell `(x, y)`.
    pub closed spec fn cell(&self, x: int, y: int) -> bool {
        self.bits@[y * self.size + x]
    }

    /// One bit per cell.
    pub closed spec fn wf(&self) -> bool {
        self.bits@.len() == self.size * self.size
    }

    /// The side of the square.
    pub fn size(&self) -> (r: u8)
        ensures
            r == self.side(),
    {
        self.size
    }

    /// A square of side `size` with every bit clear.
    pub fn new(size: u8) -> (r: BitSquare)
        ensures
            r.wf(),
            r.side() == size,
            forall|x: int, y: int| 0 <= x < size && 0 <= y < size ==> !#[trigger] r.cell(x, y),
    {
        proof {
            lemma_square_bound(size);
        }
        let n = size as usize * size as usize;
        let mut bits: Vec<bool> = Vec::new();
        let mut i: usize = 0;
        while i < n
            invariant
                n == size * size,
                i <= n,
                bits@.len() == i,
                forall|k: int| 0 <= k < i ==> !bits@[k],
            decreases n - i,
        {
            bits.push(false);
            i += 1;
        }
        let r = BitSquare { size, bits };
        assert forall|x: int, y: int| 0 <= x < size && 0 <= y < size implies !#[trigger] r.cell(x, y) by {
            lemma_cell_index(size as int, x, y, x, y);
        }
        r
    }

    pub fn is_set(&self, x: u8, y: u8) -> (r: bool)
        requires
            self.wf(),
            x < self.side(),
            y < self.side(),
        ensures
            r == self.cell(x as int, y as int),
    {
        proof {
            lemma_cell_index(self.size as int, x as int, y as int, x as int, y as int);
            lemma_square_bound(self.size);
        }
        self.bits[y as usize * self.size as usize + x as usize]
    }

    /// Sets the bit of `(x, y)` to `value`.
    pub fn set_value(&mut self, x: u8, y: u8, value: bool)
        requires
            old(self).wf(),
            x < old(self).side(),
            y < old(self).side(),
        ensures
            final(self).wf(),
            final(self).side() == old(self).side(),
            forall|a: int, b: int| 0 <= a < old(self).side() && 0 <= b < old(self).side() ==> #[trigger] final(self).cell(a, b) == if a == x && b == y {
                value
            } else {
                old(self).cell(a, b)
            },
    {
        proof {
            lemma_cell_index(self.size as int, x as int, y as int, x as int, y as int);
            lemma_square_bound(self.size);
        }
        let i = y as usize * self.size as usize + x as usize;
        self.bits.set(i, value);
        proof {
            assert forall|a: int, b: int| 0 <= a < self.size && 0 <= b < self.size implies #[trigger] self.cell(a, b) == if a == x && b == y {
                value
            } else {
                old(self).cell(a, b)
            } by {
                lemma_cell_index(self.size as int, x as int, y as int, a, b);
                lemma_cell_index(self.size as int, a, b, a, b);
            }
        }
    }

    /// Inverts the bit of `(x, y)`.
    pub fn flip_bit(&mut self, x: u8, y: u8)
        requires
            old(self).wf(),
            x < old(self).side(),
            y < old(self).side(),
        ensures
            final(self).wf(),
            final(self).side() == old(self).side(),
            forall|a: int, b: int| 0 <= a < old(self).side() && 0 <= b < old(self).side() ==> #[trigger] final(self).cell(a, b) == if a == x && b == y {
                !old(self).cell(a, b)
            } else {
                old(self).cell(a, b)
            },
    {
        let v = self.is_set(x, y);
        self.set_value(x, y, !v);
    }

    /// Sets every bit of `sq` to `value`.
    pub fn set_square(&mut self, sq: Square, value: bool)
        requires
            old(self).wf(),
            sq.top_left.0 + sq.size <= old(self).side(),
            sq.top_left.1 + sq.size <= old(self).side(),
        ensures
            final(self).wf(),
            final(self).side() == old(self).side(),
            forall|a: int, b: int| 0 <= a < old(self).side() && 0 <= b < old(self).side() ==> #[trigger] final(self).cell(a, b) == if sq.holds(a, b) {
                value
            } else {
                old(self).cell(a, b)
            },
    {
        let (x0, y0) = sq.top_left;
        let mut i: u8 = 0;
        while i < sq.size
            invariant
                self.wf(),
                self.size == old(self).side(),
                (x0, y0) == sq.top_left,
                x0 + sq.size <= self.size,
                y0 + sq.size <= self.size,
                i <= sq.size,
                forall|a: int, b: int| 0 <= a < self.size && 0 <= b < self.size ==> #[trigger] self.cell(a, b) == if sq.holds(a, b) && b < y0 + i {
                    value
                } else {
                    old(self).cell(a, b)
                },
            decreases sq.size - i,
        {
            let mut j: u8 = 0;
            while j < sq.size
                invariant
                    self.wf(),
                    self.size == old(self).side(),
                    (x0, y0) == sq.top_left,
                    x0 + sq.size <= self.size,
                    y0 + sq.size <= self.size,
                    i < sq.size,
                    j <= sq.size,
                    forall|a: int, b: int| 0 <= a < self.size && 0 <= b < self.size ==> #[trigger] self.cell(a, b) == if sq.holds(a, b) && (b < y0 + i || (b == y0 + i && a < x0 + j)) {
                        value
                    } else {
                        old(self).cell(a, b)
                    },
                decreases sq.size - j,
            {
                self.set_value(x0 + j, y0 + i, value);
                j += 1;
            }
            i += 1;
        }
    }

    /// Sets `len` bits downwards from `start` to `value`.
    pub fn draw_vert(&mut self, start: (u8, u8), len: u8, value: bool)
        requires
            old(self).wf(),
            start.0 < old(self).side(),
            start.1 + len <= old(self).side(),
        ensures
            final(self).wf(),
            final(self).side() == old(self).side(),
            forall|a: int, b: int| 0 <= a < old(self).side() && 0 <= b < old(self).side() ==> #[trigger] final(self).cell(a, b) == if a == start.0 && start.1 <= b < start.1 + len {
                value
            } else {
                old(self).cell(a, b)
            },
    {
        let mut i: u8 = 0;
        while i < len
            invariant
                self.wf(),
                self.size == old(self).side(),
                start.0 < self.size,
                start.1 + len <= self.size,
                i <= len,
                forall|a: int, b: int| 0 <= a < self.size && 0 <= b < self.size ==> #[trigger] self.cell(a, b) == if a == start.0 && start.1 <= b < start.1 + i {
                    value
                } else {
                    old(self).cell(a, b)
                },
            decreases len - i,
        {
            self.set_value(start.0, start.1 + i, value);
            i += 1;
        }
    }

    /// Sets `len` bits rightwards from `start` to `value`.
    pub fn draw_horizontal(&mut self, start: (u8, u8), len: u8, value: bool)
        requires
            old(self).wf(),
            start.1 < old(self).side(),
            start.0 + len <= old(self).side(),
        ensures
            final(self).wf(),
            final(self).side() == old(self).side(),
            forall|a: int, b: int| 0 <= a < old(self).side() && 0 <= b < old(self).side() ==> #[trigger] final(self).cell(a, b) == if b == start.1 && start.0 <= a < start.0 + len {
                value
            } else {
                old(self).cell(a, b)
            },
    {
        let mut i: u8 = 0;
        while i < len
            invariant
                self.wf(),
                self.size == old(self).side(),
                start.1 < self.size,
                start.0 + len <= self.size,
                i <= len,
                forall|a: int, b: int| 0 <= a < self.size && 0 <= b < self.size ==> #[trigger] self.cell(a, b) == if b == start.1 && start.0 <= a < start.0 + i {
                    value
                } else {
                    old(self).cell(a, b)
                },
            decreases len - i,
        {
            self.set_value(start.0 + i, start.1, value);
            i += 1;
        }
    }
}

} // verus!
