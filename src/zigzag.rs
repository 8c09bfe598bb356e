//! The zig-zag walk over a square: two-column strips from the right, alternately upwards and
//! downwards, with the timing column 6 left out.
use vstd::prelude::*;

verus! {

/// Whether column `x` is the right column of its strip. Strips pair columns from the right
/// edge; in a square of odd size of at least 9 the strip that would start at column 6 starts at
/// column 5 instead, so the columns left of 6 pair up as (5, 4), (3, 2), (1, 0).
pub open spec fn is_right_column(size: u8, x: u8) -> bool {
    if (size - 1) % 2 == 0 && size >= 9 && x < 6 {
        x % 2 == 1
    } else {
        (size - 1 - x) % 2 == 0
    }
}

/// The cell after `(x, y)` in the walk, with the direction after it; `None` after the last.
pub open spec fn zigzag_step(size: u8, x: u8, y: u8, up: bool) -> Option<(u8, u8, bool)> {
    if is_right_column(size, x) && x > 0 {
        Some(((x - 1) as u8, y, up))
    } else if (up && y == 0) || (!up && y + 1 == size) {
        if x == 0 {
            None
        } else if x == 7 && (size - 1) % 2 == 0 && size >= 9 {
            Some((5, y, !up))
        } else {
            Some(((x - 1) as u8, y, !up))
        }
    } else {
        let nx = if is_right_column(size, x) { x } else { (x + 1) as u8 };
        Some((nx, if up { (y - 1) as u8 } else { (y + 1) as u8 }, up))
    }
}

/// Whether column 6 is left out of the walk.
pub open spec fn skips_timing(size: u8) -> bool {
    (size - 1) % 2 == 0 && size >= 9
}

/// The right column of the strip that column `x` belongs to.
pub open spec fn strip_of(size: u8, x: u8) -> int {
    if is_right_column(size, x) {
        x as int
    } else {
        x + 1
    }
}

/// The cells of the current strip left after `(x, y)`, counted so that each step within a
/// strip lowers it.
pub open spec fn in_strip_of(size: u8, x: u8, y: u8, up: bool) -> int {
    let rows = if up { y as int } else { size - 1 - y };
    rows * 2 + if is_right_column(size, x) && x > 0 { 1int } else { 0int }
}

/// A cell of the square in a column that the walk visits.
pub open spec fn on_walk(size: u8, x: u8, y: u8) -> bool {
    &&& x < size
    &&& y < size
    &&& !(skips_timing(size) && x == 6)
    &&& (is_right_column(size, x) || (x + 1 < size && is_right_column(size, (x + 1) as u8)))
}

/// The cells of the walk from `(x, y)` on, in order, that `keep` holds of.
pub open spec fn walk_kept(size: u8, x: u8, y: u8, up: bool, keep: spec_fn(u8, u8) -> bool) -> Seq<(u8, u8)>
    decreases strip_of(size, x) + 1, in_strip_of(size, x, y, up),
{
    if !on_walk(size, x, y) {
        Seq::empty()
    } else {
        let here = if keep(x, y) { seq![(x, y)] } else { Seq::empty() };
        match zigzag_step(size, x, y, up) {
            Some((nx, ny, nup)) => if on_walk(size, nx, ny) && (strip_of(size, nx) < strip_of(size, x) || (strip_of(size, nx) == strip_of(size, x) && 0 <= in_strip_of(size, nx, ny, nup) < in_strip_of(size, x, y, up))) {
                here + walk_kept(size, nx, ny, nup, keep)
            } else {
                here
            },
            None => here,
        }
    }
}

/// A cursor on the zig-zag walk.
pub struct ZigzagIter {
    next_position: Option<(u8, u8)>,
    size: u8,
    traverse_up: bool,
}

/// Which move the walk makes from a cell.
pub enum Step {
    Left,
    Up,
    Down,
}

impl ZigzagIter {
    /// The side of the square walked.
    pub closed spec fn size_of(&self) -> u8 {
        self.size
    }

    /// The cell the next call returns, if any.
    pub closed spec fn current(&self) -> Option<(u8, u8)> {
        self.next_position
    }

    /// Whether the walk is going upwards.
    pub closed spec fn going_up(&self) -> bool {
        self.traverse_up
    }

    /// The right column of the strip the cursor is in.
    pub open spec fn strip(&self) -> int {
        match self.current() {
            Some((x, y)) => strip_of(self.size_of(), x) + 1,
            None => 0,
        }
    }

    /// How many cells of the current strip are left after the current one, counted so that
    /// each step within a strip lowers it.
    pub open spec fn in_strip(&self) -> int {
        match self.current() {
            Some((x, y)) => in_strip_of(self.size_of(), x, y, self.going_up()),
            None => 0,
        }
    }

    /// The cursor stands on a cell of the square, in a column the walk visits.
    pub open spec fn wf(&self) -> bool {
        match self.current() {
            Some((x, y)) => on_walk(self.size_of(), x, y),
            None => true,
        }
    }

    /// A walk over a square of side `size`, from its bottom-right corner upwards.
    pub fn new(size: u8) -> (r: ZigzagIter)
        requires
            size >= 1,
        ensures
            r.wf(),
            r.size_of() == size,
            r.current() == Some(((size - 1) as u8, (size - 1) as u8)),
            r.going_up(),
    {
        ZigzagIter { next_position: Some((size - 1, size - 1)), size, traverse_up: true }
    }

    /// Whether the walk is in the right column of its strip.
    fn is_right(&self, x: u8) -> (r: bool)
        requires
            1 <= self.size,
            x < self.size,
        ensures
            r == is_right_column(self.size, x),
    {
        if (self.size - 1) % 2 == 0 && self.size >= 9 && x < 6 {
            x % 2 == 1
        } else {
            (self.size - 1 - x) % 2 == 0
        }
    }

    /// The move from column `x`: left within a strip, else up or down.
    fn next_step(&self, x: u8) -> (r: Step)
        requires
            1 <= self.size,
            x < self.size,
        ensures
            r is Left <==> is_right_column(self.size, x) && x > 0,
            r is Up <==> !(is_right_column(self.size, x) && x > 0) && self.traverse_up,
            r is Down <==> !(is_right_column(self.size, x) && x > 0) && !self.traverse_up,
    {
        if self.is_right(x) && x > 0 {
            return Step::Left;
        }
        if self.traverse_up {
            Step::Up
        } else {
            Step::Down
        }
    }

    /// The last cell of a strip in column 0, in the current direction.
    fn end_position(&self) -> (r: (u8, u8))
        requires
            1 <= self.size,
        ensures
            r == (0u8, if self.traverse_up { 0u8 } else { (self.size - 1) as u8 }),
    {
        if self.traverse_up {
            (0, 0)
        } else {
            (0, self.size - 1)
        }
    }

    /// Returns the current cell and moves to the next.
    pub fn next_pos(&mut self) -> (r: Option<(u8, u8)>)
        requires
            old(self).wf(),
        ensures
            final(self).wf(),
            final(self).size_of() == old(self).size_of(),
            r == old(self).current(),
            match old(self).current() {
                Some((x, y)) => match zigzag_step(old(self).size_of(), x, y, old(self).going_up()) {
                    Some((nx, ny, up)) => final(self).current() == Some((nx, ny))
                        && final(self).going_up() == up,
                    None => final(self).current() is None,
                },
                None => final(self).current() is None,
            },
            old(self).current() is Some ==> (final(self).strip() < old(self).strip() || (
            final(self).strip() == old(self).strip() && final(self).in_strip() < old(
                self,
            ).in_strip())),
    {
        let (x, y) = match self.next_position {
            Some(p) => p,
            None => {
                return None;
            },
        };
        let size = self.size;
        let (end_x, end_y) = self.end_position();
        if x == end_x && y == end_y {
            self.next_position = None;
            return Some((x, y));
        }
        match self.next_step(x) {
            Step::Left => {
                self.next_position = Some((x - 1, y));
            },
            Step::Up => {
                if y == 0 {
                    let nx = if x == 7 && (size - 1) % 2 == 0 && size >= 9 { 5 } else { x - 1 };
                    self.next_position = Some((nx, y));
                    self.traverse_up = !self.traverse_up;
                } else if self.is_right(x) {
                    self.next_position = Some((x, y - 1));
                } else {
                    self.next_position = Some((x + 1, y - 1));
                }
            },
            Step::Down => {
                if y + 1 == size {
                    let nx = if x == 7 && (size - 1) % 2 == 0 && size >= 9 { 5 } else { x - 1 };
                    self.next_position = Some((nx, y));
                    self.traverse_up = !self.traverse_up;
                } else if self.is_right(x) {
                    self.next_position = Some((x, y + 1));
                } else {
                    self.next_position = Some((x + 1, y + 1));
                }
            },
        }
        Some((x, y))
    }
}

/// Each step of the walk lands on a visited cell and lowers the measure that `walk_kept`
/// recurses on.
pub proof fn lemma_step_valid(size: u8, x: u8, y: u8, up: bool)
    requires
        on_walk(size, x, y),
    ensures
        match zigzag_step(size, x, y, up) {
            Some((nx, ny, nup)) => on_walk(size, nx, ny) && (strip_of(size, nx) < strip_of(size, x) || (
            strip_of(size, nx) == strip_of(size, x) && 0 <= in_strip_of(size, nx, ny, nup)
                < in_strip_of(size, x, y, up))) && (strip_of(size, nx) == strip_of(size, x) ==> nup == up),
            None => true,
        },
{
}

/// The strips of two visited cells are equal or at least two columns apart.
proof fn lemma_strips_apart(size: u8, a: u8, b: u8)
    requires
        on_walk(size, a, 0),
        on_walk(size, b, 0),
        strip_of(size, a) < strip_of(size, b),
    ensures
        strip_of(size, a) + 2 <= strip_of(size, b),
        a < b,
{
}

/// Every cell of the walk from `(x, y)` is a visited cell that `keep` holds of, lies in the
/// strip of `(x, y)` or a later one, and, within that strip, no earlier than `(x, y)`; and no
/// cell comes twice.
pub proof fn lemma_walk_facts(size: u8, x: u8, y: u8, up: bool, keep: spec_fn(u8, u8) -> bool)
    requires
        on_walk(size, x, y),
    ensures
        walk_kept(size, x, y, up, keep).no_duplicates(),
        forall|i: int| 0 <= i < walk_kept(size, x, y, up, keep).len() ==> {
            let q = #[trigger] walk_kept(size, x, y, up, keep)[i];
            &&& on_walk(size, q.0, q.1)
            &&& keep(q.0, q.1)
            &&& (strip_of(size, q.0) < strip_of(size, x) || (strip_of(size, q.0) == strip_of(size, x)
                && in_strip_of(size, q.0, q.1, up) <= in_strip_of(size, x, y, up)))
        },
    decreases strip_of(size, x) + 1, in_strip_of(size, x, y, up),
{
    let w = walk_kept(size, x, y, up, keep);
    let here: Seq<(u8, u8)> = if keep(x, y) { seq![(x, y)] } else { Seq::empty() };
    lemma_step_valid(size, x, y, up);
    match zigzag_step(size, x, y, up) {
        Some((nx, ny, nup)) => {
            lemma_walk_facts(size, nx, ny, nup, keep);
            let rest = walk_kept(size, nx, ny, nup, keep);
            assert(w == here + rest);
            assert forall|i: int| 0 <= i < rest.len() implies #[trigger] rest[i] != (x, y) by {
                let q = rest[i];
                if strip_of(size, q.0) < strip_of(size, x) {
                    lemma_strips_apart(size, q.0, x);
                }
            }
            assert forall|i: int, j: int| 0 <= i < w.len() && 0 <= j < w.len() && i != j implies w[i] != w[j] by {
                if here.len() == 1 {
                    if i == 0 {
                        assert(w[j] == rest[j - 1]);
                    } else if j == 0 {
                        assert(w[i] == rest[i - 1]);
                    } else {
                        assert(w[i] == rest[i - 1] && w[j] == rest[j - 1]);
                    }
                } else {
                    assert(w[i] == rest[i] && w[j] == rest[j]);
                }
            }
            assert forall|i: int| 0 <= i < w.len() implies {
                let q = #[trigger] w[i];
                &&& on_walk(size, q.0, q.1)
                &&& keep(q.0, q.1)
                &&& (strip_of(size, q.0) < strip_of(size, x) || (strip_of(size, q.0) == strip_of(size, x)
                    && in_strip_of(size, q.0, q.1, up) <= in_strip_of(size, x, y, up)))
            } by {
                if here.len() == 1 && i == 0 {
                } else {
                    let j = if here.len() == 1 { i - 1 } else { i };
                    assert(w[i] == rest[j]);
                }
            }
        },
        None => {
            assert(w == here);
        },
    }
}

/// Whether cell `(a, b)` comes at or after `(x, y)` in the walk that goes `up` from there.
pub open spec fn walks_after(size: u8, x: u8, y: u8, up: bool, a: u8, b: u8) -> bool {
    strip_of(size, a) < strip_of(size, x) || (strip_of(size, a) == strip_of(size, x) && in_strip_of(size, a, b, up) <= in_strip_of(size, x, y, up))
}

/// On a square of odd side of at least 9, the walk from `(x, y)` passes every visited cell
/// that comes after it, and keeps those that `keep` holds of.
pub proof fn lemma_walk_complete(size: u8, x: u8, y: u8, up: bool, keep: spec_fn(u8, u8) -> bool, a: u8, b: u8)
    requires
        size >= 9,
        (size - 1) % 2 == 0,
        on_walk(size, x, y),
        on_walk(size, a, b),
        keep(a, b),
        walks_after(size, x, y, up, a, b),
    ensures
        walk_kept(size, x, y, up, keep).contains((a, b)),
    decreases strip_of(size, x) + 1, in_strip_of(size, x, y, up),
{
    let w = walk_kept(size, x, y, up, keep);
    let here: Seq<(u8, u8)> = if keep(x, y) { seq![(x, y)] } else { Seq::empty() };
    lemma_step_valid(size, x, y, up);
    if a == x && b == y {
        assert(w[0] == (x, y));
    } else {
        match zigzag_step(size, x, y, up) {
            Some((nx, ny, nup)) => {
                let rest = walk_kept(size, nx, ny, nup, keep);
                assert(w == here + rest);
                assert(walks_after(size, nx, ny, nup, a, b));
                lemma_walk_complete(size, nx, ny, nup, keep, a, b);
                let k = choose|k: int| 0 <= k < rest.len() && rest[k] == (a, b);
                assert(w[here.len() + k] == (a, b));
            },
            None => {
                assert(false);
            },
        }
    }
}

} // verus!
