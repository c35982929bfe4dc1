//! Integer coordinates on a grid.
use crate::dir::Dir;
use crate::scan::{digits_of, push_number, string_push};
use vstd::prelude::*;

verus! {

/// A position or displacement on a grid. `x` grows to the right and `y`
/// grows downwards. Coordinates are signed so that a step off the edge of a
/// grid can be formed before it is checked against the bounds.
#[derive(Clone, Copy, Debug, PartialEq, Eq, Structural, Hash)]
pub struct Point {
    pub x: isize,
    pub y: isize,
}

impl Default for Point {
    fn default() -> (p: Point)
        ensures
            p == (Point { x: 0, y: 0 }),
    {
        Point { x: 0, y: 0 }
    }
}

/// The characters that write the number `v`: a `-` for a negative number,
/// then its digits.
pub open spec fn shown_number(v: int) -> Seq<char> {
    if v < 0 {
        seq!['-'] + digits_of((-v) as nat)
    } else {
        digits_of(v as nat)
    }
}

/// Appends to `text` the characters that write `v`.
pub fn push_signed(text: &mut String, v: isize)
    ensures
        final(text)@ == old(text)@ + shown_number(v as int),
{
    if v < 0 {
        string_push(text, '-');
        let size: u64 = ((-(v + 1)) as u64) + 1;
        push_number(text, size);
        proof {
            assert(final(text)@ =~= old(text)@ + shown_number(v as int));
        }
    } else {
        push_number(text, v as u64);
    }
}

/// The size of `v` without its sign.
pub open spec fn magnitude(v: int) -> int {
    if v < 0 {
        -v
    } else {
        v
    }
}

/// The remainder of `a` on division by `m`, with the sign of `a`.
pub open spec fn remainder(a: int, m: int) -> int {
    if a < 0 {
        -(magnitude(a) % magnitude(m))
    } else {
        a % magnitude(m)
    }
}

/// The size of `v` without its sign.
fn size_of(v: isize) -> (size: usize)
    ensures
        size == magnitude(v as int),
{
    if v < 0 {
        (-(v + 1)) as usize + 1
    } else {
        v as usize
    }
}

/// The remainder of `a` on division by `m`, with the sign of `a`.
fn rem(a: isize, m: isize) -> (r: isize)
    requires
        m != 0,
        !(a == isize::MIN && m == -1),
    ensures
        r == remainder(a as int, m as int),
{
    let left = size_of(a) % size_of(m);
    proof {
        vstd::arithmetic::div_mod::lemma_mod_bound(magnitude(a as int), magnitude(m as int));
        vstd::arithmetic::div_mod::lemma_mod_decreases(
            magnitude(a as int) as nat,
            magnitude(m as int) as nat,
        );
    }
    if a < 0 {
        -(left as isize)
    } else {
        left as isize
    }
}

impl Point {
    /// The characters that show the point: its coordinates in brackets, with
    /// a comma between them.
    pub open spec fn shown(self) -> Seq<char> {
        seq!['('] + shown_number(self.x as int) + seq![','] + shown_number(self.y as int) + seq![
            ')',
        ]
    }

    /// Shows the point as text, such as `(6,1)`.
    pub fn render(&self) -> (text: String)
        ensures
            text@ == self.shown(),
    {
        let mut text = String::new();
        string_push(&mut text, '(');
        push_signed(&mut text, self.x);
        string_push(&mut text, ',');
        push_signed(&mut text, self.y);
        string_push(&mut text, ')');
        proof {
            assert(text@ =~= self.shown());
        }
        text
    }

    /// The sum of two points, coordinate by coordinate.
    pub open spec fn spec_plus(self, other: Point) -> (int, int) {
        (self.x + other.x, self.y + other.y)
    }

    /// The difference of two points, coordinate by coordinate.
    pub open spec fn spec_minus(self, other: Point) -> (int, int) {
        (self.x - other.x, self.y - other.y)
    }

    /// Whether both coordinates of `v` fit in `isize`.
    pub open spec fn fits(v: (int, int)) -> bool {
        &&& isize::MIN <= v.0 <= isize::MAX
        &&& isize::MIN <= v.1 <= isize::MAX
    }

    /// The four neighbours of `self`, in the order up, down, left, right.
    pub open spec fn spec_cardinal(self) -> Seq<Point> {
        seq![
            Point { x: self.x, y: (self.y - 1) as isize },
            Point { x: self.x, y: (self.y + 1) as isize },
            Point { x: (self.x - 1) as isize, y: self.y },
            Point { x: (self.x + 1) as isize, y: self.y },
        ]
    }

    /// Whether `self` and `other` are one step apart along one axis.
    pub open spec fn adjacent(self, other: Point) -> bool {
        ||| (self.x == other.x && (self.y - other.y == 1 || other.y - self.y == 1))
        ||| (self.y == other.y && (self.x - other.x == 1 || other.x - self.x == 1))
    }

    /// Whether every neighbour of `self` has coordinates that fit in `isize`.
    pub open spec fn has_neighbours(self) -> bool {
        &&& isize::MIN < self.x < isize::MAX
        &&& isize::MIN < self.y < isize::MAX
    }

    /// The point in column `x` of row `y`.
    pub fn new(x: isize, y: isize) -> (p: Point)
        ensures
            p == (Point { x, y }),
    {
        Point { x, y }
    }

    /// The point at column `x` and row `y`.
    pub fn from_indices(x: usize, y: usize) -> (p: Point)
        requires
            x <= isize::MAX,
            y <= isize::MAX,
        ensures
            p.x == x,
            p.y == y,
    {
        Point { x: x as isize, y: y as isize }
    }

    /// The point moved by `other`, coordinate by coordinate.
    pub fn plus(self, other: Point) -> (p: Point)
        requires
            Point::fits(self.spec_plus(other)),
        ensures
            (p.x as int, p.y as int) == self.spec_plus(other),
    {
        Point { x: self.x + other.x, y: self.y + other.y }
    }

    /// The step from `other` to this point, coordinate by coordinate.
    pub fn minus(self, other: Point) -> (p: Point)
        requires
            Point::fits(self.spec_minus(other)),
        ensures
            (p.x as int, p.y as int) == self.spec_minus(other),
    {
        Point { x: self.x - other.x, y: self.y - other.y }
    }

    /// The point with both coordinates multiplied by `k`.
    pub fn scale(self, k: isize) -> (p: Point)
        requires
            Point::fits((self.x * k, self.y * k)),
        ensures
            p.x == self.x * k,
            p.y == self.y * k,
    {
        Point { x: self.x * k, y: self.y * k }
    }

    /// The remainders of the coordinates on division by those of `other`,
    /// each with the sign of the coordinate divided.
    pub fn modulo(self, other: Point) -> (p: Point)
        requires
            other.x != 0,
            other.y != 0,
            !(self.x == isize::MIN && other.x == -1),
            !(self.y == isize::MIN && other.y == -1),
        ensures
            p.x == remainder(self.x as int, other.x as int),
            p.y == remainder(self.y as int, other.y as int),
    {
        Point { x: rem(self.x, other.x), y: rem(self.y, other.y) }
    }

    /// The neighbour one step from this point in the direction `dir`.
    pub fn step_to(self, dir: Dir) -> (p: Point)
        requires
            dir.can_step_from(self),
        ensures
            p == dir.spec_step_from(self),
    {
        dir.step_from(self)
    }

    /// The neighbour one row up.
    pub fn up(self) -> (p: Point)
        requires
            self.y > isize::MIN,
        ensures
            p.x == self.x,
            p.y == self.y - 1,
    {
        Point { x: self.x, y: self.y - 1 }
    }

    /// The neighbour one row down.
    pub fn down(self) -> (p: Point)
        requires
            self.y < isize::MAX,
        ensures
            p.x == self.x,
            p.y == self.y + 1,
    {
        Point { x: self.x, y: self.y + 1 }
    }

    /// The neighbour one column to the left.
    pub fn left(self) -> (p: Point)
        requires
            self.x > isize::MIN,
        ensures
            p.x == self.x - 1,
            p.y == self.y,
    {
        Point { x: self.x - 1, y: self.y }
    }

    /// The neighbour one column to the right.
    pub fn right(self) -> (p: Point)
        requires
            self.x < isize::MAX,
        ensures
            p.x == self.x + 1,
            p.y == self.y,
    {
        Point { x: self.x + 1, y: self.y }
    }

    /// The four neighbours, in the order up, down, left, right.
    pub fn cardinal(self) -> (ps: [Point; 4])
        requires
            self.has_neighbours(),
        ensures
            ps@ == self.spec_cardinal(),
    {
        [self.up(), self.down(), self.left(), self.right()]
    }
}

} // verus!
