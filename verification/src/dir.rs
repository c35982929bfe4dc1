//! The four compass directions.
use crate::point::Point;
use vstd::prelude::*;

verus! {

/// One of the four directions in which a step on a grid can be taken.
#[derive(Clone, Copy, Debug, PartialEq, Eq, Structural, Hash, PartialOrd, Ord)]
pub enum Dir {
    Up,
    Down,
    Left,
    Right,
}

impl Dir {
    /// The arrow that shows the direction: one of `^`, `v`, `<`, `>`.
    pub open spec fn arrow(self) -> char {
        match self {
            Dir::Up => '^',
            Dir::Down => 'v',
            Dir::Left => '<',
            Dir::Right => '>',
        }
    }

    /// The arrow that shows the direction.
    pub fn to_char(self) -> (ch: char)
        ensures
            ch == self.arrow(),
    {
        match self {
            Dir::Up => '^',
            Dir::Down => 'v',
            Dir::Left => '<',
            Dir::Right => '>',
        }
    }

    /// The direction after a quarter turn clockwise.
    pub open spec fn spec_to_right(self) -> Dir {
        match self {
            Dir::Up => Dir::Right,
            Dir::Down => Dir::Left,
            Dir::Left => Dir::Up,
            Dir::Right => Dir::Down,
        }
    }

    /// The direction after a quarter turn counter-clockwise.
    pub open spec fn spec_to_left(self) -> Dir {
        match self {
            Dir::Up => Dir::Left,
            Dir::Down => Dir::Right,
            Dir::Left => Dir::Down,
            Dir::Right => Dir::Up,
        }
    }

    /// The change in `x` of one step in this direction.
    pub open spec fn dx(self) -> int {
        match self {
            Dir::Left => -1,
            Dir::Right => 1,
            _ => 0,
        }
    }

    /// The change in `y` of one step in this direction.
    pub open spec fn dy(self) -> int {
        match self {
            Dir::Up => -1,
            Dir::Down => 1,
            _ => 0,
        }
    }

    /// The point one step from `curr` in this direction. Meaningful when the
    /// stepped coordinate fits in `isize`, see [`Dir::can_step_from`].
    pub open spec fn spec_step_from(self, curr: Point) -> Point {
        Point { x: (curr.x + self.dx()) as isize, y: (curr.y + self.dy()) as isize }
    }

    /// Whether a step from `curr` in this direction stays within `isize`.
    pub open spec fn can_step_from(self, curr: Point) -> bool {
        &&& isize::MIN <= curr.x + self.dx() <= isize::MAX
        &&& isize::MIN <= curr.y + self.dy() <= isize::MAX
    }

    /// The position of this direction in [`Dir::all`].
    pub open spec fn ordinal(self) -> int {
        match self {
            Dir::Up => 0,
            Dir::Down => 1,
            Dir::Left => 2,
            Dir::Right => 3,
        }
    }

    /// All four directions, in the fixed order in which neighbours are
    /// enumerated.
    pub open spec fn spec_all() -> Seq<Dir> {
        seq![Dir::Up, Dir::Down, Dir::Left, Dir::Right]
    }

    /// Turns a quarter to the right.
    pub fn turn_right(&mut self)
        ensures
            *final(self) == old(self).spec_to_right(),
    {
        *self = match self {
            Dir::Up => Dir::Right,
            Dir::Down => Dir::Left,
            Dir::Left => Dir::Up,
            Dir::Right => Dir::Down,
        }
    }

    /// Turns a quarter to the left.
    pub fn turn_left(&mut self)
        ensures
            *final(self) == old(self).spec_to_left(),
    {
        *self = match self {
            Dir::Up => Dir::Left,
            Dir::Down => Dir::Right,
            Dir::Left => Dir::Down,
            Dir::Right => Dir::Up,
        }
    }

    /// The direction a quarter to the right of this one.
    pub fn to_right(self) -> (d: Dir)
        ensures
            d == self.spec_to_right(),
    {
        let mut d = self;
        d.turn_right();
        d
    }

    /// The direction a quarter to the left of this one.
    pub fn to_left(self) -> (d: Dir)
        ensures
            d == self.spec_to_left(),
    {
        let mut d = self;
        d.turn_left();
        d
    }

    /// Take a step from `curr` in this direction.
    pub fn step_from(self, curr: Point) -> (next: Point)
        requires
            self.can_step_from(curr),
        ensures
            next == self.spec_step_from(curr),
            next.x == curr.x + self.dx(),
            next.y == curr.y + self.dy(),
    {
        let mut curr = curr;
        match self {
            Dir::Up => curr.y -= 1,
            Dir::Down => curr.y += 1,
            Dir::Left => curr.x -= 1,
            Dir::Right => curr.x += 1,
        }
        curr
    }

    /// All 4 cardinal directions.
    pub fn all() -> (dirs: [Dir; 4])
        ensures
            dirs@ == Dir::spec_all(),
    {
        [Dir::Up, Dir::Down, Dir::Left, Dir::Right]
    }

    /// The direction at position `i` of [`Dir::all`].
    pub fn from_index(i: usize) -> (dir: Dir)
        requires
            i < 4,
        ensures
            dir.ordinal() == i,
            dir == Dir::spec_all()[i as int],
    {
        if i == 0 {
            Dir::Up
        } else if i == 1 {
            Dir::Down
        } else if i == 2 {
            Dir::Left
        } else {
            Dir::Right
        }
    }

    /// The position of this direction in [`Dir::all`].
    pub fn index(self) -> (i: usize)
        ensures
            i == self.ordinal(),
            i < 4,
    {
        match self {
            Dir::Up => 0,
            Dir::Down => 1,
            Dir::Left => 2,
            Dir::Right => 3,
        }
    }
}

/// A quarter turn one way undoes a quarter turn the other way, and four
/// quarter turns the same way come back to the start.
pub proof fn lemma_turns(d: Dir)
    ensures
        d.spec_to_right().spec_to_left() == d,
        d.spec_to_left().spec_to_right() == d,
        d.spec_to_right().spec_to_right().spec_to_right().spec_to_right() == d,
        d.spec_to_left().spec_to_left().spec_to_left().spec_to_left() == d,
        d.spec_to_right() != d,
        d.spec_to_left() != d,
        d.spec_to_left() != d.spec_to_right(),
{
}

/// A step leads to an adjacent point, and every adjacent point is one step
/// away in exactly one direction.
pub proof fn lemma_step_adjacent(p: Point, q: Point)
    ensures
        p.adjacent(q) <==> exists|d: Dir| d.can_step_from(p) && #[trigger] d.spec_step_from(p) == q,
{
    if p.adjacent(q) {
        if q.y == p.y - 1 {
            assert(Dir::Up.can_step_from(p) && Dir::Up.spec_step_from(p) == q);
        } else if q.y == p.y + 1 {
            assert(Dir::Down.can_step_from(p) && Dir::Down.spec_step_from(p) == q);
        } else if q.x == p.x - 1 {
            assert(Dir::Left.can_step_from(p) && Dir::Left.spec_step_from(p) == q);
        } else {
            assert(Dir::Right.can_step_from(p) && Dir::Right.spec_step_from(p) == q);
        }
    }
}

} // verus!
