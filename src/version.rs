//! Version geometry: the reserved regions, the function patterns, the format cells, and the
//! data region in walk order.
use vstd::prelude::*;
use crate::error_cc::{format_word, supported, ErrorLevel};
use crate::zigzag::{
    in_strip_of, lemma_step_valid, lemma_walk_complete, lemma_walk_facts, on_walk, strip_of, walk_kept, zigzag_step, ZigzagIter,
};

verus! {

/// The side of a version's square.
pub open spec fn size_of_version(v: u8) -> int {
    4 * v + 17
}

/// Whether `(x, y)` lies in the box with corners `(x0, y0)` and `(x1, y1)`, bounds included.
pub open spec fn in_box(x: int, y: int, x0: int, y0: int, x1: int, y1: int) -> bool {
    x0 <= x <= x1 && y0 <= y <= y1
}

/// The centre of the alignment pattern of versions 2 to 5, on both axes.
pub open spec fn alignment_center(v: u8) -> int {
    4 * v + 10
}

/// Whether a cell is reserved: a finder with its separator and format area, the timing row or
/// column, the dark module, or the alignment pattern.
pub open spec fn is_reserved(v: u8, x: int, y: int) -> bool {
    let s = size_of_version(v);
    let c = alignment_center(v);
    ||| x == 6
    ||| y == 6
    ||| (x == 8 && y == 4 * v + 9)
    ||| in_box(x, y, 0, 0, 8, 8)
    ||| in_box(x, y, s - 8, 0, s - 1, 8)
    ||| in_box(x, y, 0, s - 8, 8, s - 1)
    ||| (v >= 2 && in_box(x, y, c - 2, c - 2, c + 2, c + 2))
}

/// The data cells of a version in walk order.
pub open spec fn data_region(v: u8) -> Seq<(u8, u8)> {
    let s = (4 * v + 17) as u8;
    walk_kept(s, (s - 1) as u8, (s - 1) as u8, true, |x: u8, y: u8| !is_reserved(v, x as int, y as int))
}

/// Bit `i` of a format word.
pub open spec fn format_bit(word: u32, i: int) -> bool {
    word & (1u32 << (i as u32)) != 0
}

/// The cell of the `k`-th format module, and the bit of the format word it shows: bits 0 to
/// 14 around the top-left finder, then again split between the top-right and bottom-left.
pub open spec fn format_cell(size: int, k: int) -> ((int, int), int) {
    if k < 6 {
        ((8, k), k)
    } else if k == 6 {
        ((8, 7), 6)
    } else if k == 7 {
        ((8, 8), 7)
    } else if k == 8 {
        ((7, 8), 8)
    } else if k < 15 {
        ((14 - k, 8), k)
    } else if k < 23 {
        ((size - 1 - (k - 15), 8), k - 15)
    } else {
        ((8, size - 15 + (k - 15)), k - 15)
    }
}

proof fn lemma_flags()
    ensures
        (0u8 | 0x80u8) & 0x80u8 != 0,
        (0u8 | 0x80u8) & 0xFu8 == 0,
        (1u8 | 0x80u8) & 0x80u8 != 0,
        (1u8 | 0x80u8) & 0xFu8 == 1,
        0u8 & 0x80u8 == 0,
        0u8 & 0xFu8 == 0,
        1u8 & 0x80u8 == 0,
        1u8 & 0xFu8 == 1,
{
    assert((0u8 | 0x80u8) & 0x80u8 != 0 && (0u8 | 0x80u8) & 0xFu8 == 0 && (1u8 | 0x80u8) & 0x80u8 != 0 && (1u8 | 0x80u8) & 0xFu8 == 1 && 0u8 & 0x80u8 == 0 && 0u8 & 0xFu8 == 0 && 1u8 & 0x80u8 == 0 && 1u8 & 0xFu8 == 1) by (bit_vector);
}

/// A cell of the symbol: its position, and flags for dark and for data.
#[derive(Copy, Clone, Debug)]
pub struct Module((u8, u8), u8);

impl Module {
    /// The position.
    pub closed spec fn pos(&self) -> (u8, u8) {
        self.0
    }

    /// Whether the module is dark.
    pub closed spec fn dark(&self) -> bool {
        self.1 & 0x80u8 != 0
    }

    /// Whether the module carries data.
    pub closed spec fn carries_data(&self) -> bool {
        self.1 & 0xFu8 == 1
    }

    pub fn is_dark(&self) -> (r: bool)
        ensures
            r == self.dark(),
    {
        let flags = self.1;
        0 != flags & 0x80u8
    }

    pub fn position(&self) -> (r: (u8, u8))
        ensures
            r == self.pos(),
    {
        self.0
    }

    /// A data module.
    pub fn data(position: (u8, u8), is_dark: bool) -> (r: Module)
        ensures
            r.pos() == position,
            r.dark() == is_dark,
            r.carries_data(),
    {
        let mut flags: u8 = 1;
        if is_dark {
            flags = flags | 0x80u8;
        }
        proof {
            lemma_flags();
        }
        Module(position, flags)
    }

    /// A module of a function pattern or of the format information.
    pub fn reserved(position: (u8, u8), is_dark: bool) -> (r: Module)
        ensures
            r.pos() == position,
            r.dark() == is_dark,
            !r.carries_data(),
    {
        let mut flags: u8 = 0;
        if is_dark {
            flags = flags | 0x80u8;
        }
        proof {
            lemma_flags();
        }
        Module(position, flags)
    }

    pub fn is_data(&self) -> (r: bool)
        ensures
            r == self.carries_data(),
    {
        let flags = self.1;
        1u8 == (flags & 0xFu8)
    }
}

/// The box between two corners, bounds included.
#[derive(Copy, Clone, Debug)]
pub struct Rect(pub (u8, u8), pub (u8, u8));

impl Rect {
    pub fn contains(&self, point: (u8, u8)) -> (r: bool)
        ensures
            r == in_box(point.0 as int, point.1 as int, self.0.0 as int, self.0.1 as int, self.1.0 as int, self.1.1 as int),
    {
        let (top_left, bottom_right) = (self.0, self.1);
        let (x, y) = point;
        x >= top_left.0 && x <= bottom_right.0 && y >= top_left.1 && y <= bottom_right.1
    }
}

/// Concentric square rings around a centre: ring `i` (the centre is ring 0) lies at distance
/// `i` and is dark where bit `i` of `color_bits` is set; `size` rings in all.
#[derive(Copy, Clone, Debug)]
pub struct ConcentricSquare {
    pub center: (u8, u8),
    pub size: u8,
    pub color_bits: u8,
}

/// The larger of the distances along the two axes.
pub open spec fn ring_distance(a: (int, int), b: (int, int)) -> int {
    let dx = if a.0 >= b.0 { a.0 - b.0 } else { b.0 - a.0 };
    let dy = if a.1 >= b.1 { a.1 - b.1 } else { b.1 - a.1 };
    if dx >= dy { dx } else { dy }
}

impl ConcentricSquare {
    /// The rings fit on the 8-bit grid.
    pub open spec fn fits(&self) -> bool {
        &&& 1 <= self.size <= 8
        &&& self.center.0 + 1 >= self.size
        &&& self.center.1 + 1 >= self.size
        &&& self.center.0 + self.size <= 255
        &&& self.center.1 + self.size <= 255
    }

    /// Whether a ring cell at distance `d` is dark.
    pub open spec fn ring_dark(&self, d: int) -> bool {
        self.color_bits & (1u8 << (d as u8)) != 0
    }

    pub fn contains(&self, location: (u8, u8)) -> (r: bool)
        requires
            self.fits(),
        ensures
            r == (ring_distance((location.0 as int, location.1 as int), (self.center.0 as int, self.center.1 as int)) < self.size),
    {
        let size = self.size;
        let (top_left_x, top_left_y) = (self.center.0 - (size - 1), self.center.1 - (size - 1));
        let (bottom_right_x, bottom_right_y) = (self.center.0 + (size - 1), self.center.1 + (size - 1));
        let (x, y) = location;
        x >= top_left_x && x <= bottom_right_x && y >= top_left_y && y <= bottom_right_y
    }

    /// Cell `m` of ring `i`: the top and bottom rows first, left to right in pairs, then the
    /// left and right columns between them, top to bottom in pairs.
    pub open spec fn ring_entry(&self, i: int, m: int) -> (u8, u8, bool) {
        let tx = self.center.0 - i;
        let ty = self.center.1 - i;
        let delta = 2 * i + 1;
        if m < 2 * delta {
            ((tx + m / 2) as u8, (if m % 2 == 0 { ty } else { ty + delta - 1 }) as u8, self.ring_dark(i))
        } else {
            let n = m - 2 * delta;
            ((if n % 2 == 0 { tx } else { tx + delta - 1 }) as u8, (ty + 1 + n / 2) as u8, self.ring_dark(i))
        }
    }

    /// The `8i` cells of ring `i`.
    pub open spec fn ring_seq(&self, i: int) -> Seq<(u8, u8, bool)> {
        Seq::new((8 * i) as nat, |m: int| self.ring_entry(i, m))
    }

    /// The centre, then rings 1 to `n`.
    pub open spec fn square_seq(&self, n: int) -> Seq<(u8, u8, bool)>
        decreases n,
    {
        if n <= 0 {
            seq![(self.center.0, self.center.1, self.ring_dark(0))]
        } else {
            self.square_seq(n - 1) + self.ring_seq(n)
        }
    }

    /// Each cell of ring `i` lies at distance `i` from the centre, and no two are the same.
    proof fn lemma_ring_facts(&self, i: int)
        requires
            self.fits(),
            1 <= i < self.size,
        ensures
            forall|m: int| 0 <= m < 8 * i ==> ring_distance(((#[trigger] self.ring_entry(i, m)).0 as int, self.ring_entry(i, m).1 as int), (self.center.0 as int, self.center.1 as int)) == i,
            forall|m1: int, m2: int| 0 <= m1 < m2 < 8 * i ==> ((#[trigger] self.ring_entry(i, m1)).0, self.ring_entry(i, m1).1) != ((#[trigger] self.ring_entry(i, m2)).0, self.ring_entry(i, m2).1),
    {
        assert forall|m: int| 0 <= m < 8 * i implies ring_distance(((#[trigger] self.ring_entry(i, m)).0 as int, self.ring_entry(i, m).1 as int), (self.center.0 as int, self.center.1 as int)) == i by {
            if m < 2 * (2 * i + 1) {
                assert(0 <= m / 2 <= 2 * i);
            } else {
                let n = m - 2 * (2 * i + 1);
                assert(0 <= n / 2 < 2 * i - 1);
            }
        }
        assert forall|m1: int, m2: int| 0 <= m1 < m2 < 8 * i implies ((#[trigger] self.ring_entry(i, m1)).0, self.ring_entry(i, m1).1) != ((#[trigger] self.ring_entry(i, m2)).0, self.ring_entry(i, m2).1) by {
            let d = 2 * (2 * i + 1);
            if m2 < d {
                assert(m1 / 2 != m2 / 2 || m1 % 2 != m2 % 2);
                assert(0 <= m1 / 2 <= 2 * i && 0 <= m2 / 2 <= 2 * i);
            } else if m1 < d {
                let n2 = m2 - d;
                assert(0 <= n2 / 2 < 2 * i - 1);
                assert(0 <= m1 / 2 <= 2 * i);
            } else {
                let n1 = m1 - d;
                let n2 = m2 - d;
                assert(n1 / 2 != n2 / 2 || n1 % 2 != n2 % 2);
                assert(0 <= n1 / 2 < 2 * i - 1 && 0 <= n2 / 2 < 2 * i - 1);
            }
        }
    }

    /// Every cell of rings 0 to `n` lies within distance `n` of the centre, and no position
    /// comes twice.
    pub proof fn lemma_square_seq_facts(&self, n: int)
        requires
            self.fits(),
            0 <= n < self.size,
        ensures
            forall|k: int| 0 <= k < self.square_seq(n).len() ==> ring_distance(((#[trigger] self.square_seq(n)[k]).0 as int, self.square_seq(n)[k].1 as int), (self.center.0 as int, self.center.1 as int)) <= n,
            forall|k1: int, k2: int| 0 <= k1 < k2 < self.square_seq(n).len() ==> ((#[trigger] self.square_seq(n)[k1]).0, self.square_seq(n)[k1].1) != ((#[trigger] self.square_seq(n)[k2]).0, self.square_seq(n)[k2].1),
        decreases n,
    {
        if n > 0 {
            self.lemma_square_seq_facts(n - 1);
            self.lemma_ring_facts(n);
            let a = self.square_seq(n - 1);
            let b = self.ring_seq(n);
            assert(self.square_seq(n) == a + b);
            assert forall|k: int| 0 <= k < (a + b).len() implies ring_distance(((#[trigger] (a + b)[k]).0 as int, (a + b)[k].1 as int), (self.center.0 as int, self.center.1 as int)) <= n by {
                if k >= a.len() {
                    assert((a + b)[k] == self.ring_entry(n, k - a.len()));
                }
            }
            assert forall|k1: int, k2: int| 0 <= k1 < k2 < (a + b).len() implies ((#[trigger] (a + b)[k1]).0, (a + b)[k1].1) != ((#[trigger] (a + b)[k2]).0, (a + b)[k2].1) by {
                if k2 < a.len() {
                } else if k1 < a.len() {
                    assert((a + b)[k2] == self.ring_entry(n, k2 - a.len()));
                    assert(ring_distance(((a + b)[k1].0 as int, (a + b)[k1].1 as int), (self.center.0 as int, self.center.1 as int)) <= n - 1);
                } else {
                    assert((a + b)[k1] == self.ring_entry(n, k1 - a.len()));
                    assert((a + b)[k2] == self.ring_entry(n, k2 - a.len()));
                }
            }
        }
    }

    /// The cells of one ring, `(x, y, dark)`, each at ring distance `d` with the ring's colour.
    pub open spec fn ring_cell_ok(&self, c: (u8, u8, bool)) -> bool {
        let d = ring_distance((c.0 as int, c.1 as int), (self.center.0 as int, self.center.1 as int));
        d < self.size && c.2 == self.ring_dark(d)
    }

    /// Writes the cells of all rings into `out`, the centre first and then ring by ring, and
    /// returns how many there are.
    #[verifier::rlimit(60)]
    pub fn square_points(&self, out: &mut [(u8, u8, bool)]) -> (r: usize)
        requires
            self.fits(),
            old(out)@.len() >= (2 * self.size - 1) * (2 * self.size - 1),
        ensures
            r == (2 * self.size - 1) * (2 * self.size - 1),
            final(out)@.len() == old(out)@.len(),
            final(out)@.subrange(0, r as int) == self.square_seq(self.size - 1),
            forall|k: int| 0 <= k < r ==> self.ring_cell_ok(#[trigger] final(out)@[k]),
    {
        let mut count: usize = 0;
        let is_dark = 0 != (self.color_bits & 1);
        assert(1u8 << 0u8 == 1u8) by (bit_vector);
        assert((2 * self.size - 1) * (2 * self.size - 1) >= 1) by (nonlinear_arith)
            requires
                self.size >= 1,
        ;
        out[0] = (self.center.0, self.center.1, is_dark);
        count += 1;
        let (center_x, center_y) = self.center;
        assert(out@.subrange(0, 1) =~= self.square_seq(0));
        let mut i: u8 = 1;
        assert(count == (2 * i - 1) * (2 * i - 1)) by (nonlinear_arith)
            requires
                i == 1,
                count == 1,
        ;
        while i < self.size
            invariant
                self.fits(),
                1 <= i <= self.size,
                out@.len() == old(out)@.len(),
                out@.len() >= (2 * self.size - 1) * (2 * self.size - 1),
                count == (2 * i - 1) * (2 * i - 1),
                (center_x, center_y) == self.center,
                out@.subrange(0, count as int) == self.square_seq(i - 1),
                forall|k: int| 0 <= k < count ==> self.ring_cell_ok(#[trigger] out@[k]),
            decreases self.size - i,
        {
            let (top_right_x, top_right_y) = (center_x - i, center_y - i);
            let delta = 2 * i + 1;
            let is_dark = 0 != (self.color_bits & (1u8 << i));
            assert((2 * i + 1) * (2 * i + 1) <= (2 * self.size - 1) * (2 * self.size - 1)) by (nonlinear_arith)
                requires
                    i < self.size,
            ;
            let ghost base = count;
            let mut x = top_right_x;
            while x < top_right_x + delta
                invariant
                    self.fits(),
                    1 <= i < self.size,
                    top_right_x == center_x - i,
                    top_right_y == center_y - i,
                    delta == 2 * i + 1,
                    (center_x, center_y) == self.center,
                    is_dark == self.ring_dark(i as int),
                    top_right_x <= x <= top_right_x + delta,
                    base == (2 * i - 1) * (2 * i - 1),
                    count == base + 2 * (x - top_right_x),
                    out@.subrange(0, count as int) == self.square_seq(i - 1) + self.ring_seq(i as int).subrange(0, 2 * (x - top_right_x)),
                    out@.len() == old(out)@.len(),
                    out@.len() >= (2 * i + 1) * (2 * i + 1),
                    forall|k: int| 0 <= k < count ==> self.ring_cell_ok(#[trigger] out@[k]),
                decreases top_right_x + delta - x,
            {
                assert(count + 1 < (2 * i + 1) * (2 * i + 1)) by (nonlinear_arith)
                    requires
                        count == (2 * i - 1) * (2 * i - 1) + 2 * (x - top_right_x),
                        x < top_right_x + 2 * i + 1,
                        x >= top_right_x,
                        i >= 1,
                ;
                let ghost before = out@;
                let ghost m = 2 * (x - top_right_x);
                out[count] = (x, top_right_y, is_dark);
                out[count + 1] = (x, (top_right_y + delta - 1), is_dark);
                proof {
                    assert(m / 2 == x - top_right_x && m % 2 == 0 && (m + 1) / 2 == x - top_right_x && (m + 1) % 2 == 1);
                    assert(out@[count as int] == self.ring_entry(i as int, m));
                    assert(out@[count + 1] == self.ring_entry(i as int, m + 1));
                    assert(self.ring_seq(i as int).subrange(0, m + 2) =~= self.ring_seq(i as int).subrange(0, m) + seq![self.ring_entry(i as int, m), self.ring_entry(i as int, m + 1)]);
                    assert(out@.subrange(0, count + 2) =~= before.subrange(0, count as int) + seq![out@[count as int], out@[count + 1]]);
                }
                count += 2;
                x += 1;
            }
            let mut y = top_right_y + 1;
            while y < top_right_y + delta - 1
                invariant
                    self.fits(),
                    1 <= i < self.size,
                    top_right_x == center_x - i,
                    top_right_y == center_y - i,
                    delta == 2 * i + 1,
                    (center_x, center_y) == self.center,
                    is_dark == self.ring_dark(i as int),
                    top_right_y + 1 <= y <= top_right_y + delta - 1,
                    base == (2 * i - 1) * (2 * i - 1),
                    count == base + 2 * delta + 2 * (y - top_right_y - 1),
                    out@.subrange(0, count as int) == self.square_seq(i - 1) + self.ring_seq(i as int).subrange(0, 2 * delta + 2 * (y - top_right_y - 1)),
                    out@.len() == old(out)@.len(),
                    out@.len() >= (2 * i + 1) * (2 * i + 1),
                    forall|k: int| 0 <= k < count ==> self.ring_cell_ok(#[trigger] out@[k]),
                decreases top_right_y + delta - 1 - y,
            {
                assert(count + 1 < (2 * i + 1) * (2 * i + 1)) by (nonlinear_arith)
                    requires
                        count == (2 * i - 1) * (2 * i - 1) + 2 * (2 * i + 1) + 2 * (y - top_right_y - 1),
                        y < top_right_y + 2 * i,
                        y >= top_right_y + 1,
                        i >= 1,
                ;
                let ghost before = out@;
                let ghost m = 2 * delta + 2 * (y - top_right_y - 1);
                let ghost n = 2 * (y - top_right_y - 1);
                out[count] = (top_right_x, y, is_dark);
                out[count + 1] = ((top_right_x + delta - 1), y, is_dark);
                proof {
                    assert(m - 2 * delta == n && n / 2 == y - top_right_y - 1 && n % 2 == 0 && (n + 1) / 2 == y - top_right_y - 1 && (n + 1) % 2 == 1);
                    assert(out@[count as int] == self.ring_entry(i as int, m));
                    assert(out@[count + 1] == self.ring_entry(i as int, m + 1));
                    assert(self.ring_seq(i as int).subrange(0, m + 2) =~= self.ring_seq(i as int).subrange(0, m) + seq![self.ring_entry(i as int, m), self.ring_entry(i as int, m + 1)]);
                    assert(out@.subrange(0, count + 2) =~= before.subrange(0, count as int) + seq![out@[count as int], out@[count + 1]]);
                }
                count += 2;
                y += 1;
            }
            assert(count == (2 * (i + 1) - 1) * (2 * (i + 1) - 1)) by (nonlinear_arith)
                requires
                    count == (2 * i - 1) * (2 * i - 1) + 2 * (2 * i + 1) + 2 * (2 * i - 1),
            ;
            assert(self.ring_seq(i as int).subrange(0, 8 * i) =~= self.ring_seq(i as int));
            i += 1;
        }
        count
    }

    /// The cells of all rings, as `square_points` writes them.
    pub fn iter_squares(&self) -> (r: Vec<(u8, u8, bool)>)
        requires
            self.fits(),
            self.size <= 4,
        ensures
            r@.len() == (2 * self.size - 1) * (2 * self.size - 1),
            r@ == self.square_seq(self.size - 1),
            forall|k: int| 0 <= k < r@.len() ==> self.ring_cell_ok(#[trigger] r@[k]),
    {
        let mut values = [(0u8, 0u8, false);64];
        assert((2 * self.size - 1) * (2 * self.size - 1) <= 49) by (nonlinear_arith)
            requires
                1 <= self.size <= 4,
        ;
        let count = self.square_points(&mut values);
        let mut out: Vec<(u8, u8, bool)> = Vec::new();
        let mut i: usize = 0;
        while i < count
            invariant
                count <= 64,
                i <= count,
                out@ == values@.subrange(0, i as int),
            decreases count - i,
        {
            out.push(values[i]);
            i += 1;
        }
        out
    }
}

/// What the data region keeps of the walk: the cells that are not reserved.
pub open spec fn data_keep(v: u8) -> spec_fn(u8, u8) -> bool {
    |x: u8, y: u8| !is_reserved(v, x as int, y as int)
}

/// The format cells: bits 0 to 14 around the top-left finder, and again split between the
/// top-right and bottom-left finders.
pub open spec fn is_format_cell(size: int, a: int, b: int) -> bool {
    ||| (a == 8 && (b <= 5 || b == 7 || b == 8))
    ||| (b == 8 && (a == 7 || a <= 5))
    ||| (b == 8 && size - 8 <= a < size)
    ||| (a == 8 && size - 7 <= b < size)
}

/// A reserved module at a reserved position of the square, off the format cells.
pub open spec fn reserved_module_ok(v: u8, m: Module) -> bool {
    &&& !m.carries_data()
    &&& m.pos().0 < size_of_version(v)
    &&& m.pos().1 < size_of_version(v)
    &&& is_reserved(v, m.pos().0 as int, m.pos().1 as int)
    &&& !is_format_cell(size_of_version(v), m.pos().0 as int, m.pos().1 as int)
    &&& m.dark() == pattern_dark(v, m.pos().0 as int, m.pos().1 as int)
}

/// The three corner areas of the finders with their separators.
pub open spec fn finder_area(s: int, x: int, y: int) -> bool {
    ||| in_box(x, y, 0, 0, 7, 7)
    ||| in_box(x, y, s - 8, 0, s - 1, 7)
    ||| in_box(x, y, 0, s - 8, 7, s - 1)
}

/// The colour of a cell of a finder area: the finder rings are dark but the second from the
/// outside, and the separators are light.
pub open spec fn finder_dark(s: int, x: int, y: int) -> bool {
    if ring_distance((x, y), (3, 3)) <= 3 {
        ring_distance((x, y), (3, 3)) != 2
    } else if ring_distance((x, y), (s - 4, 3)) <= 3 {
        ring_distance((x, y), (s - 4, 3)) != 2
    } else if ring_distance((x, y), (3, s - 4)) <= 3 {
        ring_distance((x, y), (3, s - 4)) != 2
    } else {
        false
    }
}

/// The colour of a function-pattern cell: the finder areas, then the alignment rings (dark but
/// the middle one), timing (dark on even indices), and the dark module.
pub open spec fn pattern_dark(v: u8, x: int, y: int) -> bool {
    let s = size_of_version(v);
    let c = alignment_center(v);
    if finder_area(s, x, y) {
        finder_dark(s, x, y)
    } else if v >= 2 && ring_distance((x, y), (c, c)) <= 2 {
        ring_distance((x, y), (c, c)) != 1
    } else if x == 6 {
        y % 2 == 0
    } else if y == 6 {
        x % 2 == 0
    } else {
        true
    }
}

/// The ring colours of finders (`0b1011`) and alignment patterns (`0b101`).
proof fn lemma_ring_colours(d: u8)
    ensures
        d < 4 ==> ((0b1011u8 & (1u8 << d) != 0) == (d != 2)),
        d < 3 ==> ((0b101u8 & (1u8 << d) != 0) == (d != 1)),
{
    assert(d < 4 ==> ((0b1011u8 & (1u8 << d) != 0) == (d != 2))) by (bit_vector);
    assert(d < 3 ==> ((0b101u8 & (1u8 << d) != 0) == (d != 1))) by (bit_vector);
}

/// Where run `run` of separator cells starts in their list.
pub open spec fn run_start(run: int) -> int {
    if run <= 0 {
        0
    } else if run == 1 {
        8
    } else if run == 2 {
        15
    } else if run == 3 {
        23
    } else if run == 4 {
        30
    } else if run == 5 {
        38
    } else {
        45
    }
}

/// Separator cell `k` of a square of side `s`: row 7 and column 7 beside the top-left finder,
/// column `s-8` and row 7 beside the top-right one, row `s-8` and column 7 beside the
/// bottom-left one.
pub open spec fn separator_cell(s: int, k: int) -> (int, int) {
    if k < 8 {
        (k, 7)
    } else if k < 15 {
        (7, k - 8)
    } else if k < 23 {
        (s - 8, k - 15)
    } else if k < 30 {
        (s - 7 + (k - 23), 7)
    } else if k < 38 {
        (k - 30, s - 8)
    } else {
        (7, s - 7 + (k - 38))
    }
}

/// `n` distinct keys in `0..n` take every value there.
proof fn lemma_keys_cover(keys: Seq<int>, n: int)
    requires
        keys.len() == n,
        keys.no_duplicates(),
        forall|k: int| 0 <= k < n ==> 0 <= #[trigger] keys[k] < n,
    ensures
        forall|t: int| 0 <= t < n ==> #[trigger] keys.contains(t),
{
    broadcast use vstd::seq_lib::group_seq_properties;
    keys.unique_seq_to_set();
    vstd::set_lib::lemma_int_range(0, n);
    let range = vstd::set_lib::set_int_range(0, n);
    assert(keys.to_set().subset_of(range));
    vstd::set_lib::lemma_subset_equality(keys.to_set(), range);
    assert forall|t: int| 0 <= t < n implies #[trigger] keys.contains(t) by {
        assert(range.contains(t));
        assert(keys.to_set().contains(t));
    }
}

/// `sz * sz` distinct cells of a square of side `sz` are all of its cells.
pub proof fn lemma_grid_cover(sz: int, cells: Seq<(u8, u8)>)
    requires
        0 < sz <= 255,
        cells.len() == sz * sz,
        cells.no_duplicates(),
        forall|k: int| 0 <= k < cells.len() ==> (#[trigger] cells[k]).0 < sz && cells[k].1 < sz,
    ensures
        forall|x: int, y: int| 0 <= x < sz && 0 <= y < sz ==> #[trigger] cells.contains((x as u8, y as u8)),
{
    let keys = Seq::new(cells.len(), |k: int| cells[k].0 * sz + cells[k].1);
    assert forall|k: int| 0 <= k < sz * sz implies 0 <= #[trigger] keys[k] < sz * sz by {
        crate::bits::lemma_cell_index(sz, cells[k].1 as int, cells[k].0 as int, 0, 0);
    }
    assert forall|i: int, j: int| 0 <= i < j < keys.len() implies keys[i] != keys[j] by {
        crate::bits::lemma_cell_index(sz, cells[i].1 as int, cells[i].0 as int, cells[j].1 as int, cells[j].0 as int);
    }
    lemma_keys_cover(keys, sz * sz);
    assert forall|x: int, y: int| 0 <= x < sz && 0 <= y < sz implies #[trigger] cells.contains((x as u8, y as u8)) by {
        crate::bits::lemma_cell_index(sz, y, x, 0, 0);
        let t = x * sz + y;
        assert(keys.contains(t));
        let k = choose|k: int| 0 <= k < keys.len() && keys[k] == t;
        crate::bits::lemma_cell_index(sz, y, x, cells[k].1 as int, cells[k].0 as int);
        assert(cells[k] == (x as u8, y as u8));
    }
}

/// The 30 format cells are distinct reserved cells of the square.
pub proof fn lemma_format_cells(v: u8)
    requires
        supported(v),
    ensures
        forall|k: int| 0 <= k < 30 ==> {
            let c = (#[trigger] format_cell(size_of_version(v), k)).0;
            &&& 0 <= c.0 < size_of_version(v)
            &&& 0 <= c.1 < size_of_version(v)
            &&& is_format_cell(size_of_version(v), c.0, c.1)
            &&& is_reserved(v, c.0, c.1)
        },
        forall|k1: int, k2: int| 0 <= k1 < k2 < 30 ==> (#[trigger] format_cell(size_of_version(v), k1)).0 != (#[trigger] format_cell(size_of_version(v), k2)).0,
{
}

/// Which function pattern a reserved cell belongs to: the three finders, the alignment
/// pattern, timing, the separators, the dark module.
pub open spec fn part_of(v: u8, x: int, y: int) -> int {
    let s = size_of_version(v);
    let c = alignment_center(v);
    if ring_distance((x, y), (3, 3)) <= 3 {
        0
    } else if ring_distance((x, y), (s - 4, 3)) <= 3 {
        1
    } else if ring_distance((x, y), (3, s - 4)) <= 3 {
        2
    } else if v >= 2 && ring_distance((x, y), (c, c)) <= 2 {
        3
    } else if finder_area(s, x, y) {
        5
    } else if x == 6 || y == 6 {
        4
    } else {
        6
    }
}

/// The part of a module's position.
pub open spec fn module_part(v: u8, m: Module) -> int {
    part_of(v, m.pos().0 as int, m.pos().1 as int)
}

/// Some module of `r` stands at `(x, y)`.
pub open spec fn has_module_at(r: Seq<Module>, x: int, y: int) -> bool {
    exists|k: int| 0 <= k < r.len() && (#[trigger] r[k]).pos() == (x as u8, y as u8)
}

/// No two modules share a position.
pub open spec fn distinct_positions(r: Seq<Module>) -> bool {
    forall|i: int, j: int| 0 <= i < j < r.len() ==> (#[trigger] r[i]).pos() != (#[trigger] r[j]).pos()
}

/// Every cell of the square belongs to part `j`.
pub open spec fn square_part(v: u8, sq: ConcentricSquare, j: int) -> bool {
    forall|x: int, y: int| #![trigger part_of(v, x, y)] ring_distance((x, y), (sq.center.0 as int, sq.center.1 as int)) < sq.size ==> part_of(v, x, y) == j
}

/// A symbol version, 1 to 5 here.
#[derive(Copy, Clone, Debug)]
pub struct Version(pub u8);

impl Version {
    pub fn square_size(&self) -> (r: u8)
        requires
            self.0 <= 59,
        ensures
            r == size_of_version(self.0),
    {
        4 * self.0 + 17
    }

    /// The format modules for `err_level` and `mask_level`, both copies.
    pub fn format_modules(&self, err_level: ErrorLevel, mask_level: u8) -> (r: [Module; 30])
        requires
            supported(self.0),
            err_level == ErrorLevel::L,
            mask_level < 8,
        ensures
            forall|k: int| 0 <= k < 30 ==> {
                let (cell, bit) = format_cell(size_of_version(self.0), k);
                &&& !(#[trigger] r[k]).carries_data()
                &&& r[k].pos() == (cell.0 as u8, cell.1 as u8)
                &&& r[k].dark() == format_bit(format_word(mask_level), bit)
            },
    {
        let mut mask_module = [Module::reserved((0, 0), false);30];
        let mut index: usize = 0;
        let bits = err_level.format_bits(mask_level);
        let square_size = self.square_size();
        let ghost size = size_of_version(self.0);
        let ghost word = format_word(mask_level);
        let mut i: u8 = 0;
        while i < 6
            invariant
                index == i,
                i <= 6,
                bits == word,
                forall|k: int| 0 <= k < index ==> {
                    let (cell, bit) = format_cell(size, k);
                    &&& !(#[trigger] mask_module[k]).carries_data()
                    &&& mask_module[k].pos() == (cell.0 as u8, cell.1 as u8)
                    &&& mask_module[k].dark() == format_bit(word, bit)
                },
            decreases 6 - i,
        {
            mask_module[index] = Module::reserved((8, i), 0 != (bits & (1u32 << i)));
            index += 1;
            i += 1;
        }
        mask_module[index] = Module::reserved((8, 7), 0 != (bits & (1u32 << 6u32)));
        index += 1;
        mask_module[index] = Module::reserved((8, 8), 0 != (bits & (1u32 << 7u32)));
        index += 1;
        mask_module[index] = Module::reserved((7, 8), 0 != (bits & (1u32 << 8u32)));
        index += 1;
        let mut i: u8 = 9;
        while i < 15
            invariant
                index == i,
                9 <= i <= 15,
                bits == word,
                forall|k: int| 0 <= k < index ==> {
                    let (cell, bit) = format_cell(size, k);
                    &&& !(#[trigger] mask_module[k]).carries_data()
                    &&& mask_module[k].pos() == (cell.0 as u8, cell.1 as u8)
                    &&& mask_module[k].dark() == format_bit(word, bit)
                },
            decreases 15 - i,
        {
            mask_module[index] = Module::reserved((14 - i, 8), 0 != (bits & (1u32 << i)));
            index += 1;
            i += 1;
        }
        let mut i: u8 = 0;
        while i < 8
            invariant
                index == 15 + i,
                i <= 8,
                bits == word,
                square_size == size,
                21 <= size <= 37,
                forall|k: int| 0 <= k < index ==> {
                    let (cell, bit) = format_cell(size, k);
                    &&& !(#[trigger] mask_module[k]).carries_data()
                    &&& mask_module[k].pos() == (cell.0 as u8, cell.1 as u8)
                    &&& mask_module[k].dark() == format_bit(word, bit)
                },
            decreases 8 - i,
        {
            mask_module[index] = Module::reserved((square_size - 1 - i, 8), 0 != (bits & (1u32 << i)));
            index += 1;
            i += 1;
        }
        let mut i: u8 = 8;
        while i < 15
            invariant
                index == 15 + i,
                8 <= i <= 15,
                bits == word,
                square_size == size,
                21 <= size <= 37,
                forall|k: int| 0 <= k < index ==> {
                    let (cell, bit) = format_cell(size, k);
                    &&& !(#[trigger] mask_module[k]).carries_data()
                    &&& mask_module[k].pos() == (cell.0 as u8, cell.1 as u8)
                    &&& mask_module[k].dark() == format_bit(word, bit)
                },
            decreases 15 - i,
        {
            mask_module[index] = Module::reserved((8, square_size - 15 + i), 0 != (bits & (1u32 << i)));
            index += 1;
            i += 1;
        }
        mask_module
    }

    fn dark_module_pos(&self) -> (r: (u8, u8))
        requires
            supported(self.0),
        ensures
            r == (8u8, (4 * self.0 + 9) as u8),
    {
        (8, 4 * self.0 + 9)
    }

    /// The timing cells outside the finder areas: column 6, then row 6, dark on even indices.
    fn timing_pattern_iter(&self) -> (r: Vec<(u8, u8, bool)>)
        requires
            supported(self.0),
        ensures
            r@.len() == 2 * (size_of_version(self.0) - 16),
            forall|k: int| 0 <= k < r@.len() ==> {
                let c = #[trigger] r@[k];
                let n = size_of_version(self.0) - 16;
                if k < n {
                    c == (6u8, (8 + k) as u8, (8 + k) % 2 == 0)
                } else {
                    c == ((8 + k - n) as u8, 6u8, (8 + k - n) % 2 == 0)
                }
            },
    {
        let size = self.square_size();
        let mut out: Vec<(u8, u8, bool)> = Vec::new();
        let mut y: u8 = 8;
        while y < size - 8
            invariant
                size == size_of_version(self.0),
                21 <= size <= 37,
                8 <= y <= size - 8,
                out@.len() == y - 8,
                forall|k: int| 0 <= k < out@.len() ==> #[trigger] out@[k] == (6u8, (8 + k) as u8, (8 + k) % 2 == 0),
            decreases size - 8 - y,
        {
            out.push((6, y, y % 2 == 0));
            y += 1;
        }
        let mut x: u8 = 8;
        while x < size - 8
            invariant
                size == size_of_version(self.0),
                21 <= size <= 37,
                8 <= x <= size - 8,
                out@.len() == size - 16 + x - 8,
                forall|k: int| 0 <= k < out@.len() ==> {
                    let c = #[trigger] out@[k];
                    let n = size - 16;
                    if k < n {
                        c == (6u8, (8 + k) as u8, (8 + k) % 2 == 0)
                    } else {
                        c == ((8 + k - n) as u8, 6u8, (8 + k - n) % 2 == 0)
                    }
                },
            decreases size - 8 - x,
        {
            out.push((x, 6, x % 2 == 0));
            x += 1;
        }
        out
    }

    /// The light separator cells bordering the three finders, each once: 15 around each finder.
    fn separator_squares_iter(&self) -> (r: Vec<(u8, u8, bool)>)
        requires
            supported(self.0),
        ensures
            r@.len() == 45,
            forall|k: int| 0 <= k < 45 ==> #[trigger] r@[k] == ({
                let c = separator_cell(size_of_version(self.0), k);
                (c.0 as u8, c.1 as u8, false)
            }),
    {
        let size = self.square_size();
        let runs: [(u8, u8, bool, u8); 6] = [
            (0, 7, true, 8),
            (7, 0, false, 7),
            (size - 8, 0, false, 8),
            (size - 7, 7, true, 7),
            (0, size - 8, true, 8),
            (7, size - 7, false, 7),
        ];
        let mut out: Vec<(u8, u8, bool)> = Vec::new();
        let mut run: usize = 0;
        while run < 6
            invariant
                size == size_of_version(self.0),
                supported(self.0),
                runs@ == seq![(0u8, 7u8, true, 8u8), (7u8, 0u8, false, 7u8), ((size - 8) as u8, 0u8, false, 8u8), ((size - 7) as u8, 7u8, true, 7u8), (0u8, (size - 8) as u8, true, 8u8), (7u8, (size - 7) as u8, false, 7u8)],
                run <= 6,
                out@.len() == run_start(run as int),
                forall|k: int| 0 <= k < out@.len() ==> #[trigger] out@[k] == ({
                    let c = separator_cell(size as int, k);
                    (c.0 as u8, c.1 as u8, false)
                }),
            decreases 6 - run,
        {
            let (x, y, horizontal, len) = runs[run];
            let mut i: u8 = 0;
            while i < len
                invariant
                    size == size_of_version(self.0),
                    supported(self.0),
                    (x, y, horizontal, len) == runs@[run as int],
                    runs@ == seq![(0u8, 7u8, true, 8u8), (7u8, 0u8, false, 7u8), ((size - 8) as u8, 0u8, false, 8u8), ((size - 7) as u8, 7u8, true, 7u8), (0u8, (size - 8) as u8, true, 8u8), (7u8, (size - 7) as u8, false, 7u8)],
                    run < 6,
                    i <= len,
                    out@.len() == run_start(run as int) + i,
                    forall|k: int| 0 <= k < out@.len() ==> #[trigger] out@[k] == ({
                        let c = separator_cell(size as int, k);
                        (c.0 as u8, c.1 as u8, false)
                    }),
                decreases len - i,
            {
                if horizontal {
                    out.push((x + i, y, false));
                } else {
                    out.push((x, y + i, false));
                }
                i += 1;
            }
            run += 1;
        }
        out
    }

    pub fn dark_module_location(&self) -> (r: (u8, u8))
        requires
            supported(self.0),
        ensures
            r == (8u8, (4 * self.0 + 9) as u8),
    {
        (8, (4 * self.0 + 9))
    }

    /// Whether a cell carries data rather than a function pattern or format information.
    pub fn is_data_location(&self, location: (u8, u8)) -> (r: bool)
        requires
            supported(self.0),
        ensures
            r == !is_reserved(self.0, location.0 as int, location.1 as int),
    {
        let (x, y) = location;
        if x == 6 || y == 6 {
            return false;
        }
        let (dx, dy) = self.dark_module_location();
        if x == dx && y == dy {
            return false;
        }
        let size = self.square_size();
        if Rect((0, 0), (8, 8)).contains(location) || Rect((size - 8, 0), (size - 1, 8)).contains(
            location,
        ) || Rect((0, size - 8), (8, size - 1)).contains(location) {
            return false;
        }
        let squares = self.alignment_squares_iter();
        let mut j: usize = 0;
        while j < squares.len()
            invariant
                supported(self.0),
                j <= squares@.len(),
                squares@.len() == if self.0 >= 2 { 1int } else { 0int },
                self.0 >= 2 ==> squares@[0] == alignment_square_spec(self.0),
                j > 0 ==> self.0 >= 2 && ring_distance((location.0 as int, location.1 as int), (alignment_center(self.0), alignment_center(self.0))) >= 3,
            decreases squares@.len() - j,
        {
            assert(j == 0);
            assert(squares@[j as int].fits());
            assert(squares@[j as int].center == (alignment_center(self.0) as u8, alignment_center(self.0) as u8));
            let inside = squares[j].contains(location);
            if inside {
                return false;
            }
            assert(ring_distance((location.0 as int, location.1 as int), (alignment_center(self.0), alignment_center(self.0))) >= 3);
            j += 1;
        }
        true
    }
    fn alignment_square(center: (u8, u8)) -> (r: ConcentricSquare)
        ensures
            r == (ConcentricSquare { center, size: 3, color_bits: 0b101 }),
    {
        ConcentricSquare { center, size: 3, color_bits: 0b101 }
    }

    /// The alignment patterns: none for version 1, one centred at `(4v+10, 4v+10)` otherwise.
    pub fn alignment_squares_iter(&self) -> (r: Vec<ConcentricSquare>)
        requires
            supported(self.0),
        ensures
            r@.len() == if self.0 >= 2 { 1int } else { 0int },
            self.0 >= 2 ==> r@[0] == alignment_square_spec(self.0),
    {
        let mut out: Vec<ConcentricSquare> = Vec::new();
        if self.0 >= 2 {
            let c = 4 * self.0 + 10;
            out.push(Self::alignment_square((c, c)));
        }
        out
    }

    /// The three finder patterns, in the top-left, top-right and bottom-left corners.
    fn finding_pattern(&self) -> (r: Vec<ConcentricSquare>)
        requires
            supported(self.0),
        ensures
            r@ == seq![
                ConcentricSquare { center: (3u8, 3u8), size: 4u8, color_bits: 0b1011u8 },
                ConcentricSquare { center: ((size_of_version(self.0) - 4) as u8, 3u8), size: 4u8, color_bits: 0b1011u8 },
                ConcentricSquare { center: (3u8, (size_of_version(self.0) - 4) as u8), size: 4u8, color_bits: 0b1011u8 },
            ],
    {
        let size = self.square_size();
        let mut out: Vec<ConcentricSquare> = Vec::new();
        out.push(ConcentricSquare { center: (3, 3), size: 4, color_bits: 0b1011 });
        out.push(ConcentricSquare { center: (size - 4, 3), size: 4, color_bits: 0b1011 });
        out.push(ConcentricSquare { center: (3, size - 4), size: 4, color_bits: 0b1011 });
        out
    }

    /// The data cells in walk order.
    pub fn data_region_iter(&self) -> (r: Vec<(u8, u8)>)
        requires
            supported(self.0),
        ensures
            r@ == data_region(self.0),
            forall|k: int| 0 <= k < r@.len() ==> {
                let c = #[trigger] r@[k];
                &&& c.0 < size_of_version(self.0)
                &&& c.1 < size_of_version(self.0)
                &&& !is_reserved(self.0, c.0 as int, c.1 as int)
            },
    {
        let size = self.square_size();
        let mut iter = ZigzagIter::new(size);
        let mut out: Vec<(u8, u8)> = Vec::new();
        let ghost keep = data_keep(self.0);
        loop
            invariant
                supported(self.0),
                size == size_of_version(self.0),
                keep == data_keep(self.0),
                iter.wf(),
                iter.size_of() == size,
                out@ + match iter.current() {
                    Some((x, y)) => walk_kept(size, x, y, iter.going_up(), keep),
                    None => Seq::empty(),
                } == data_region(self.0),
                forall|k: int| 0 <= k < out@.len() ==> {
                    let c = #[trigger] out@[k];
                    &&& c.0 < size
                    &&& c.1 < size
                    &&& !is_reserved(self.0, c.0 as int, c.1 as int)
                },
            ensures
                out@ == data_region(self.0),
                forall|k: int| 0 <= k < out@.len() ==> {
                    let c = #[trigger] out@[k];
                    &&& c.0 < size
                    &&& c.1 < size
                    &&& !is_reserved(self.0, c.0 as int, c.1 as int)
                },
            decreases iter.strip(), iter.in_strip(),
        {
            let ghost before = iter;
            match iter.next_pos() {
                Some(p) => {
                    proof {
                        lemma_step_valid(size, p.0, p.1, before.going_up());
                    }
                    let ghost prev = out@;
                    if self.is_data_location(p) {
                        out.push(p);
                    }
                    proof {
                        let rest = match iter.current() {
                            Some((x, y)) => walk_kept(size, x, y, iter.going_up(), keep),
                            None => Seq::empty(),
                        };
                        let here = if keep(p.0, p.1) { seq![p] } else { Seq::empty() };
                        assert(walk_kept(size, p.0, p.1, before.going_up(), keep) == here + rest);
                        assert(out@ =~= prev + here);
                        assert(out@ + rest =~= prev + (here + rest));
                    }
                },
                None => {
                    assert(out@ =~= out@ + Seq::<(u8, u8)>::empty());
                    break;
                },
            }
        }
        out
    }

    /// The modules of the function patterns: finders, alignment pattern, timing, separators,
    /// and the dark module.
    pub fn reserved_iter(&self) -> (r: Vec<Module>)
        requires
            supported(self.0),
        ensures
            r@.len() == 3 * 49 + (if self.0 >= 2 { 25int } else { 0int }) + 2 * (size_of_version(self.0) - 16) + 45 + 1,
            forall|k: int| 0 <= k < r@.len() ==> reserved_module_ok(self.0, #[trigger] r@[k]),
            distinct_positions(r@),
            forall|x: int, y: int| 0 <= x < size_of_version(self.0) && 0 <= y < size_of_version(self.0)
                && is_reserved(self.0, x, y) && !is_format_cell(size_of_version(self.0), x, y) ==> #[trigger] has_module_at(r@, x, y),
    {
        let mut out: Vec<Module> = Vec::new();
        let finders = self.finding_pattern();
        let aligns = self.alignment_squares_iter();
        let mut squares: Vec<ConcentricSquare> = Vec::new();
        proof {
            assert forall|d: u8| d < 4 implies ((0b1011u8 & (1u8 << d) != 0) == (d != 2)) && (d < 3 ==> ((0b101u8 & (1u8 << d) != 0) == (d != 1))) by {
                lemma_ring_colours(d);
            }
        }
        squares.push(finders[0]);
        squares.push(finders[1]);
        squares.push(finders[2]);
        if aligns.len() > 0 {
            squares.push(aligns[0]);
        }
        let mut s: usize = 0;
        while s < squares.len()
            invariant
                supported(self.0),
                squares@.len() == 3 + (if self.0 >= 2 { 1int } else { 0int }),
                forall|j: int| 0 <= j < squares@.len() ==> (#[trigger] squares@[j]).size == if j < 3 { 4u8 } else { 3u8 },
                s <= squares@.len(),
                out@.len() == if s <= 3 { 49 * s } else { 172 },
                forall|j: int| 0 <= j < squares@.len() ==> square_is_reserved(self.0, #[trigger] squares@[j]),
                forall|j: int| 0 <= j < squares@.len() ==> square_part(self.0, #[trigger] squares@[j], j),
                forall|k: int| 0 <= k < out@.len() ==> reserved_module_ok(self.0, #[trigger] out@[k]),
                forall|k: int| 0 <= k < out@.len() ==> module_part(self.0, #[trigger] out@[k]) < s,
                distinct_positions(out@),
            decreases squares@.len() - s,
        {
            let cells = squares[s].iter_squares();
            assert((2 * 4 - 1) * (2 * 4 - 1) == 49 && (2 * 3 - 1) * (2 * 3 - 1) == 25) by (nonlinear_arith);
            assert(squares@[s as int].size == if s < 3 { 4u8 } else { 3u8 });
            assert(cells@.len() == if s < 3 { 49int } else { 25int });
            let ghost start_len = out@.len();
            proof {
                squares@[s as int].lemma_square_seq_facts(squares@[s as int].size - 1);
            }
            let mut i: usize = 0;
            while i < cells.len()
                invariant
                    supported(self.0),
                    out@.len() == start_len + i,
                    i <= cells@.len(),
                    s < squares@.len(),
                    square_is_reserved(self.0, squares@[s as int]),
                    square_part(self.0, squares@[s as int], s as int),
                    cells@ == squares@[s as int].square_seq(squares@[s as int].size - 1),
                    forall|k1: int, k2: int| 0 <= k1 < k2 < cells@.len() ==> ((#[trigger] cells@[k1]).0, cells@[k1].1) != ((#[trigger] cells@[k2]).0, cells@[k2].1),
                    forall|k: int| 0 <= k < start_len ==> module_part(self.0, #[trigger] out@[k]) < s,
                    forall|k: int| start_len <= k < out@.len() ==> (#[trigger] out@[k]).pos() == (cells@[k - start_len].0, cells@[k - start_len].1),
                    distinct_positions(out@),
                    forall|k: int| 0 <= k < cells@.len() ==> squares@[s as int].ring_cell_ok(#[trigger] cells@[k]),
                    forall|k: int| 0 <= k < out@.len() ==> reserved_module_ok(self.0, #[trigger] out@[k]),
                decreases cells@.len() - i,
            {
                let (x, y, is_dark) = cells[i];
                proof {
                    let sq = squares@[s as int];
                    assert(sq.ring_cell_ok(cells@[i as int]));
                    assert(ring_distance((x as int, y as int), (sq.center.0 as int, sq.center.1 as int)) < sq.size);
                    assert(is_reserved(self.0, x as int, y as int));
                    assert(!is_format_cell(size_of_version(self.0), x as int, y as int));
                    assert(part_of(self.0, x as int, y as int) == s);
                }
                let ghost before = out@;
                out.push(Module::reserved((x, y), is_dark));
                proof {
                    assert forall|k: int| 0 <= k < out@.len() - 1 implies (#[trigger] out@[k]).pos() != out@[out@.len() - 1].pos() by {
                        if k < start_len {
                            assert(module_part(self.0, out@[k]) < s);
                        } else {
                            assert(out@[k] == before[k]);
                        }
                    }
                }
                i += 1;
            }
            s += 1;
        }
        let timing = self.timing_pattern_iter();
        let seps = self.separator_squares_iter();
        let ghost base = out@.len();
        let mut i: usize = 0;
        while i < timing.len()
            invariant
                supported(self.0),
                i <= timing@.len(),
                out@.len() == base + i,
                forall|k: int| 0 <= k < timing@.len() ==> {
                    let c = #[trigger] timing@[k];
                    let n = size_of_version(self.0) - 16;
                    if k < n {
                        c == (6u8, (8 + k) as u8, (8 + k) % 2 == 0)
                    } else {
                        c == ((8 + k - n) as u8, 6u8, (8 + k - n) % 2 == 0)
                    }
                },
                timing@.len() == 2 * (size_of_version(self.0) - 16),
                forall|k: int| 0 <= k < out@.len() ==> reserved_module_ok(self.0, #[trigger] out@[k]),
                forall|k: int| 0 <= k < base ==> module_part(self.0, #[trigger] out@[k]) < 4,
                forall|k: int| base <= k < out@.len() ==> (#[trigger] out@[k]).pos() == (timing@[k - base].0, timing@[k - base].1),
                distinct_positions(out@),
            decreases timing@.len() - i,
        {
            let (x, y, is_dark) = timing[i];
            let ghost before = out@;
            out.push(Module::reserved((x, y), is_dark));
            proof {
                assert(part_of(self.0, x as int, y as int) == 4);
                assert forall|k: int| 0 <= k < out@.len() - 1 implies (#[trigger] out@[k]).pos() != out@[out@.len() - 1].pos() by {
                    if k < base {
                        assert(module_part(self.0, out@[k]) < 4);
                    } else {
                        assert(out@[k] == before[k]);
                    }
                }
            }
            i += 1;
        }
        let ghost base2 = out@.len();
        let mut i: usize = 0;
        while i < seps.len()
            invariant
                supported(self.0),
                seps@.len() == 45,
                i <= seps@.len(),
                out@.len() == base2 + i,
                forall|k: int| 0 <= k < seps@.len() ==> #[trigger] seps@[k] == ({
                    let c = separator_cell(size_of_version(self.0), k);
                    (c.0 as u8, c.1 as u8, false)
                }),
                forall|k: int| 0 <= k < out@.len() ==> reserved_module_ok(self.0, #[trigger] out@[k]),
                forall|k: int| 0 <= k < base2 ==> module_part(self.0, #[trigger] out@[k]) < 5,
                forall|k: int| base2 <= k < out@.len() ==> (#[trigger] out@[k]).pos() == (seps@[k - base2].0, seps@[k - base2].1),
                distinct_positions(out@),
            decreases seps@.len() - i,
        {
            let (x, y, is_dark) = seps[i];
            let ghost before = out@;
            out.push(Module::reserved((x, y), is_dark));
            proof {
                assert(part_of(self.0, x as int, y as int) == 5);
                assert forall|k: int| 0 <= k < out@.len() - 1 implies (#[trigger] out@[k]).pos() != out@[out@.len() - 1].pos() by {
                    if k < base2 {
                        assert(module_part(self.0, out@[k]) < 5);
                    } else {
                        assert(out@[k] == before[k]);
                    }
                }
            }
            i += 1;
        }
        let ghost before = out@;
        out.push(Module::reserved(self.dark_module_pos(), true));
        proof {
            assert forall|k: int| 0 <= k < out@.len() - 1 implies (#[trigger] out@[k]).pos() != out@[out@.len() - 1].pos() by {
                assert(out@[k] == before[k]);
                assert(module_part(self.0, out@[k]) < 6);
            }
            let v = self.0;
            let sz = size_of_version(v);
            let n = out@.len() as int;
            let data = data_region(v);
            lemma_data_region_size(v);
            lemma_data_region_facts(v);
            lemma_format_cells(v);
            let dn = data.len() as int;
            if v == 1 {
                assert(sz * sz == 441) by (nonlinear_arith)
                    requires
                        sz == 21,
                ;
            } else if v == 2 {
                assert(sz * sz == 625) by (nonlinear_arith)
                    requires
                        sz == 25,
                ;
            } else if v == 3 {
                assert(sz * sz == 841) by (nonlinear_arith)
                    requires
                        sz == 29,
                ;
            } else if v == 4 {
                assert(sz * sz == 1089) by (nonlinear_arith)
                    requires
                        sz == 33,
                ;
            } else {
                assert(sz * sz == 1369) by (nonlinear_arith)
                    requires
                        sz == 37,
                ;
            }
            let cells = Seq::new((n + dn + 30) as nat, |k: int| if k < n {
                out@[k].pos()
            } else if k < n + dn {
                data[k - n]
            } else {
                let c = format_cell(sz, k - n - dn).0;
                (c.0 as u8, c.1 as u8)
            });
            assert forall|k: int| 0 <= k < cells.len() implies (#[trigger] cells[k]).0 < sz && cells[k].1 < sz by {
                if k < n {
                    assert(reserved_module_ok(v, out@[k]));
                }
            }
            assert forall|i: int, j: int| 0 <= i < j < cells.len() implies cells[i] != cells[j] by {
                if j < n {
                    assert(out@[i].pos() != out@[j].pos());
                } else if j < n + dn {
                    if i < n {
                        assert(reserved_module_ok(v, out@[i]));
                    }
                } else {
                    if i < n {
                        assert(reserved_module_ok(v, out@[i]));
                    }
                }
            }
            lemma_grid_cover(sz, cells);
            assert forall|x: int, y: int| 0 <= x < sz && 0 <= y < sz && is_reserved(v, x, y) && !is_format_cell(sz, x, y) implies #[trigger] has_module_at(out@, x, y) by {
                assert(cells.contains((x as u8, y as u8)));
                let k = choose|k: int| 0 <= k < cells.len() && cells[k] == (x as u8, y as u8);
                if k >= n && k < n + dn {
                    assert(data[k - n] == (x as u8, y as u8));
                } else if k >= n + dn {
                    assert(is_format_cell(sz, x, y));
                }
                assert(out@[k].pos() == (x as u8, y as u8));
            }
        }
        out
    }
}

/// The alignment pattern of a version from 2 on.
pub open spec fn alignment_square_spec(v: u8) -> ConcentricSquare {
    ConcentricSquare { center: ((4 * v + 10) as u8, (4 * v + 10) as u8), size: 3, color_bits: 0b101 }
}

/// Every cell of the square's rings is reserved, and at most 4 rings.
pub open spec fn square_is_reserved(v: u8, sq: ConcentricSquare) -> bool {
    &&& sq.fits()
    &&& sq.size <= 4
    &&& forall|x: int, y: int| #![trigger is_reserved(v, x, y)] ring_distance((x, y), (sq.center.0 as int, sq.center.1 as int)) < sq.size ==> is_reserved(v, x, y) && 0 <= x < size_of_version(v) && 0 <= y < size_of_version(v) && !is_format_cell(size_of_version(v), x, y)
    &&& forall|x: int, y: int| #![trigger pattern_dark(v, x, y)] ring_distance((x, y), (sq.center.0 as int, sq.center.1 as int)) < sq.size ==> pattern_dark(v, x, y) == sq.ring_dark(ring_distance((x, y), (sq.center.0 as int, sq.center.1 as int)))
}

/// The data region of a version lies in its square, holds no reserved cell, and holds no cell
/// twice.
pub proof fn lemma_data_region_facts(v: u8)
    requires
        supported(v),
    ensures
        data_region(v).no_duplicates(),
        forall|k: int| 0 <= k < data_region(v).len() ==> {
            let c = #[trigger] data_region(v)[k];
            &&& c.0 < size_of_version(v)
            &&& c.1 < size_of_version(v)
            &&& !is_reserved(v, c.0 as int, c.1 as int)
        },
{
    let s = (4 * v + 17) as u8;
    assert(on_walk(s, (s - 1) as u8, (s - 1) as u8));
    lemma_walk_facts(s, (s - 1) as u8, (s - 1) as u8, true, data_keep(v));
    assert(data_region(v) == walk_kept(s, (s - 1) as u8, (s - 1) as u8, true, data_keep(v)));
}

/// How many data cells the walk visits from `(x, y)` on.
spec fn data_count(v: u8, x: u8, y: u8, up: bool) -> int
    decreases strip_of((4 * v + 17) as u8, x) + 1, in_strip_of((4 * v + 17) as u8, x, y, up),
{
    let size = (4 * v + 17) as u8;
    if !on_walk(size, x, y) {
        0
    } else {
        let here = if !is_reserved(v, x as int, y as int) { 1int } else { 0int };
        match zigzag_step(size, x, y, up) {
            Some((nx, ny, nup)) => if on_walk(size, nx, ny) && (strip_of(size, nx) < strip_of(size, x) || (strip_of(size, nx) == strip_of(size, x) && 0 <= in_strip_of(size, nx, ny, nup) < in_strip_of(size, x, y, up))) {
                here + data_count(v, nx, ny, nup)
            } else {
                here
            },
            None => here,
        }
    }
}

proof fn lemma_count_is_length(v: u8, x: u8, y: u8, up: bool)
    ensures
        data_count(v, x, y, up) == walk_kept((4 * v + 17) as u8, x, y, up, data_keep(v)).len(),
    decreases strip_of((4 * v + 17) as u8, x) + 1, in_strip_of((4 * v + 17) as u8, x, y, up),
{
    let size = (4 * v + 17) as u8;
    if on_walk(size, x, y) {
        match zigzag_step(size, x, y, up) {
            Some((nx, ny, nup)) => {
                if on_walk(size, nx, ny) && (strip_of(size, nx) < strip_of(size, x) || (strip_of(size, nx) == strip_of(size, x) && 0 <= in_strip_of(size, nx, ny, nup) < in_strip_of(size, x, y, up))) {
                    lemma_count_is_length(v, nx, ny, nup);
                }
            },
            None => {},
        }
    }
}

/// Whether a cell carries data, as a count.
spec fn keep_count(v: u8, x: int, y: int) -> int {
    if is_reserved(v, x, y) {
        0
    } else {
        1
    }
}

/// The data cells of column `x` in rows `0..=n`.
spec fn column_count(v: u8, x: int, n: int) -> int
    decreases n + 1,
{
    if n < 0 {
        0
    } else {
        keep_count(v, x, n) + column_count(v, x, n - 1)
    }
}

/// The reserved cells of column `x` in rows `0..=n`, `0 <= x < size` and `x != 6`.
spec fn column_reserved(v: u8, x: int, n: int) -> int {
    let s = size_of_version(v);
    let c = alignment_center(v);
    let top = if x <= 8 || x >= s - 8 {
        if n < 8 { n + 1 } else { 9 }
    } else {
        if n >= 6 { 1int } else { 0int }
    };
    let bottom = if x <= 8 && n >= s - 8 { n - (s - 8) + 1 } else { 0int };
    let align = if v >= 2 && c - 2 <= x <= c + 2 && n >= c - 2 {
        if n <= c + 2 { n - (c - 2) + 1 } else { 5int }
    } else {
        0int
    };
    top + bottom + align
}

proof fn lemma_column_count(v: u8, x: int, n: int)
    requires
        supported(v),
        0 <= x < size_of_version(v),
        x != 6,
        -1 <= n < size_of_version(v),
    ensures
        column_count(v, x, n) == n + 1 - (if n < 0 { 0 } else { column_reserved(v, x, n) }),
    decreases n + 1,
{
    if n >= 0 {
        lemma_column_count(v, x, n - 1);
    }
}

/// The data cells of the strip with right column `r`, from row `y` to the end of the strip
/// in the direction of travel.
spec fn strip_rows(v: u8, r: int, y: int, up: bool) -> int {
    let s = size_of_version(v);
    if up {
        column_count(v, r, y) + column_count(v, r - 1, y)
    } else {
        (column_count(v, r, s - 1) - column_count(v, r, y - 1)) + (column_count(v, r - 1, s - 1) - column_count(v, r - 1, y - 1))
    }
}

/// The walk from a cell of a right column runs down the rest of the strip, then on from
/// where the next strip starts.
proof fn lemma_strip(v: u8, r: u8, y: u8, up: bool)
    requires
        supported(v),
        on_walk((4 * v + 17) as u8, r, y),
        crate::zigzag::is_right_column((4 * v + 17) as u8, r),
        r >= 1,
    ensures
        data_count(v, r, y, up) == strip_rows(v, r as int, y as int, up) + match zigzag_step((4 * v + 17) as u8, (r - 1) as u8, if up { 0u8 } else { (4 * v + 16) as u8 }, up) {
            Some((nx, ny, nup)) => data_count(v, nx, ny, nup),
            None => 0,
        },
    decreases if up { y as int } else { 4 * v + 16 - y },
{
    let size = (4 * v + 17) as u8;
    lemma_step_valid(size, r, y, up);
    assert(zigzag_step(size, r, y, up) == Some(((r - 1) as u8, y, up)));
    assert(data_count(v, r, y, up) == keep_count(v, r as int, y as int) + data_count(v, (r - 1) as u8, y, up));
    lemma_step_valid(size, (r - 1) as u8, y, up);
    assert(column_count(v, r as int, y as int) == keep_count(v, r as int, y as int) + column_count(v, r as int, y - 1));
    assert(column_count(v, r - 1, y as int) == keep_count(v, r - 1, y as int) + column_count(v, r - 1, y - 1));
    let boundary = if up { y == 0 } else { y + 1 == size };
    if !boundary {
        let ny = if up { (y - 1) as u8 } else { (y + 1) as u8 };
        assert(zigzag_step(size, (r - 1) as u8, y, up) == Some((r, ny, up)));
        assert(data_count(v, (r - 1) as u8, y, up) == keep_count(v, r - 1, y as int) + data_count(v, r, ny, up));
        lemma_strip(v, r, ny, up);
        if !up {
            assert(column_count(v, r as int, ny as int) == keep_count(v, r as int, ny as int) + column_count(v, r as int, y as int));
        }
    } else {
        let last = if up { 0u8 } else { (4 * v + 16) as u8 };
        assert(y == last);
        match zigzag_step(size, (r - 1) as u8, y, up) {
            Some((nx, ny, nup)) => {
                assert(data_count(v, (r - 1) as u8, y, up) == keep_count(v, r - 1, y as int) + data_count(v, nx, ny, nup));
            },
            None => {
                assert(data_count(v, (r - 1) as u8, y, up) == keep_count(v, r - 1, y as int));
            },
        }
    }
}

/// The right column of the strip after the one at `r`: two columns left, past the timing
/// column.
spec fn next_strip(r: int) -> int {
    if r == 8 {
        5
    } else {
        r - 2
    }
}

/// The data cells of both columns of the strip at `r`.
spec fn strip_cells(v: u8, r: int) -> int {
    let s = size_of_version(v);
    (s - column_reserved(v, r, s - 1)) + (s - column_reserved(v, r - 1, s - 1))
}

/// The data cells of the strips from `r` down to the last one, at column 1.
spec fn strips_total(v: u8, r: int) -> int
    decreases r,
{
    if r <= 1 {
        strip_cells(v, 1)
    } else {
        strip_cells(v, r) + strips_total(v, next_strip(r))
    }
}

/// The walk from the start of the strip at `r` visits the data cells of that strip and of
/// every later one.
proof fn lemma_strips(v: u8, r: u8, up: bool)
    requires
        supported(v),
        1 <= r < size_of_version(v),
        r != 6,
        r <= 5 ==> r % 2 == 1,
        r >= 7 ==> r % 2 == 0,
    ensures
        data_count(v, r, if up { (4 * v + 16) as u8 } else { 0u8 }, up) == strips_total(v, r as int),
    decreases r,
{
    let size = (4 * v + 17) as u8;
    let y0 = if up { (4 * v + 16) as u8 } else { 0u8 };
    lemma_strip(v, r, y0, up);
    lemma_column_count(v, r as int, size - 1);
    lemma_column_count(v, r - 1, size - 1);
    lemma_column_count(v, r as int, -1);
    lemma_column_count(v, r - 1, -1);
    if r > 1 {
        lemma_strips(v, next_strip(r as int) as u8, !up);
    }
}

/// The data region holds eight cells for each code-word, and the 7 remainder cells from
/// version 2 on; version 1 has no remainder cells.
pub proof fn lemma_data_region_size(v: u8)
    requires
        supported(v),
    ensures
        data_region(v).len() == 8 * crate::error_cc::total_words_of(v) + if v >= 2 { 7int } else { 0int },
{
    let s = (4 * v + 17) as u8;
    lemma_count_is_length(v, (s - 1) as u8, (s - 1) as u8, true);
    lemma_strips(v, (s - 1) as u8, true);
    reveal_with_fuel(strips_total, 20);
}

/// Every cell of the square that is not reserved is in the data region.
pub proof fn lemma_data_region_complete(v: u8, x: u8, y: u8)
    requires
        supported(v),
        x < size_of_version(v),
        y < size_of_version(v),
        !is_reserved(v, x as int, y as int),
    ensures
        data_region(v).contains((x, y)),
{
    let s = (4 * v + 17) as u8;
    assert(on_walk(s, (s - 1) as u8, (s - 1) as u8));
    assert(on_walk(s, x, y));
    lemma_walk_complete(s, (s - 1) as u8, (s - 1) as u8, true, data_keep(v), x, y);
}

} // verus!
