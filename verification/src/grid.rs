//! A dense rectangular grid of cells addressed by [`Point`].
use crate::arith::{lemma_index_decode, lemma_index_encode, lemma_index_in_range};
use crate::dir::Dir;
use crate::point::Point;
use vstd::prelude::*;

verus! {

/// The mathematical content of a [`Grid`]: its size and its cells, row by row.
pub struct GridView<T> {
    pub width: nat,
    pub height: nat,
    pub cells: Seq<T>,
}

impl<T> GridView<T> {
    /// There is exactly one cell for each position, and every column and row
    /// number fits in a coordinate of a [`Point`].
    pub open spec fn wf(self) -> bool {
        &&& self.cells.len() == self.width * self.height
        &&& self.width <= isize::MAX
        &&& self.height <= isize::MAX
    }

    /// Whether `point` names a cell of the grid.
    pub open spec fn in_bounds(self, point: Point) -> bool {
        &&& 0 <= point.x < self.width
        &&& 0 <= point.y < self.height
    }

    /// Where the cell at `point` is stored.
    pub open spec fn index_of(self, point: Point) -> int {
        point.y * self.width + point.x
    }

    /// The cell at `point`, for a point in bounds.
    pub open spec fn cell(self, point: Point) -> T {
        self.cells[self.index_of(point)]
    }

    /// The number of cells.
    pub open spec fn area(self) -> nat {
        self.width * self.height
    }

    /// The point whose cell is stored at index `i`.
    pub open spec fn point_at(self, i: int) -> Point {
        Point { x: (i % (self.width as int)) as isize, y: (i / (self.width as int)) as isize }
    }

    /// The grid with the cell at `point` replaced by `val`.
    pub open spec fn with_cell(self, point: Point, val: T) -> GridView<T> {
        GridView {
            width: self.width,
            height: self.height,
            cells: self.cells.update(self.index_of(point), val),
        }
    }

    /// The number that stands for the position `point` together with the
    /// facing `dir`: four consecutive numbers for each cell.
    pub open spec fn state_index(self, point: Point, dir: Dir) -> int {
        self.index_of(point) * 4 + dir.ordinal()
    }

    /// The index of an in-bounds point is the index of a cell, and leads
    /// back to the point.
    pub proof fn lemma_point_index(self, point: Point)
        requires
            self.wf(),
            self.in_bounds(point),
        ensures
            0 <= self.index_of(point) < self.area(),
            self.point_at(self.index_of(point)) == point,
    {
        lemma_index_in_range(point.x as int, point.y as int, self.width as int, self.height as int);
        lemma_index_decode(point.x as int, point.y as int, self.width as int);
    }

    /// Every cell index belongs to an in-bounds point.
    pub proof fn lemma_index_point(self, i: int)
        requires
            self.wf(),
            0 <= i < self.area(),
        ensures
            self.in_bounds(self.point_at(i)),
            self.index_of(self.point_at(i)) == i,
    {
        lemma_index_encode(i, self.width as int, self.height as int);
    }

    /// Different in-bounds points are stored at different indices.
    pub proof fn lemma_index_injective(self, p: Point, q: Point)
        requires
            self.wf(),
            self.in_bounds(p),
            self.in_bounds(q),
            self.index_of(p) == self.index_of(q),
        ensures
            p == q,
    {
        self.lemma_point_index(p);
        self.lemma_point_index(q);
    }

    /// The numbers of in-bounds positions with a facing lie below four times
    /// the area, and different states have different numbers.
    pub proof fn lemma_state_index(self, p: Point, d: Dir, q: Point, e: Dir)
        requires
            self.wf(),
            self.in_bounds(p),
            self.in_bounds(q),
        ensures
            0 <= self.state_index(p, d) < 4 * self.area(),
            self.state_index(p, d) == self.state_index(q, e) ==> p == q && d == e,
    {
        self.lemma_point_index(p);
        self.lemma_point_index(q);
        if self.state_index(p, d) == self.state_index(q, e) {
            assert(self.index_of(p) == self.index_of(q));
            self.lemma_index_injective(p, q);
        }
    }

    /// Replacing a cell keeps the grid well formed and changes no other cell.
    pub proof fn lemma_with_cell(self, point: Point, val: T, other: Point)
        requires
            self.wf(),
            self.in_bounds(point),
            self.in_bounds(other),
        ensures
            self.with_cell(point, val).wf(),
            self.with_cell(point, val).cell(point) == val,
            other != point ==> self.with_cell(point, val).cell(other) == self.cell(other),
    {
        self.lemma_point_index(point);
        self.lemma_point_index(other);
        if other != point && self.index_of(point) == self.index_of(other) {
            self.lemma_index_injective(point, other);
        }
    }
}

/// A `width` by `height` grid. The cells are stored row by row: the cell at
/// column `x` of row `y` is `inner[y * width + x]`.
#[derive(Debug)]
pub struct Grid<T> {
    pub width: usize,
    pub height: usize,
    pub inner: Vec<T>,
}

impl<T> View for Grid<T> {
    type V = GridView<T>;

    open spec fn view(&self) -> GridView<T> {
        GridView { width: self.width as nat, height: self.height as nat, cells: self.inner@ }
    }
}

impl<T: Clone> Clone for Grid<T> {
    fn clone(&self) -> (copy: Self)
        ensures
            copy.width == self.width,
            copy.height == self.height,
            copy.inner@.len() == self.inner@.len(),
            forall|i: int|
                0 <= i < self.inner@.len() ==> cloned(#[trigger] self.inner@[i], copy.inner@[i]),
    {
        Grid { width: self.width, height: self.height, inner: self.inner.clone() }
    }
}

impl<T> Grid<T> {
    /// The grid holds exactly one cell for each position, and every column
    /// and row number fits in a coordinate of a [`Point`].
    pub open spec fn wf(&self) -> bool {
        self@.wf()
    }

    /// Whether `point` names a cell of the grid.
    #[must_use]
    pub fn is_in_bounds(&self, point: Point) -> (inside: bool)
        ensures
            inside == self@.in_bounds(point),
    {
        point.x >= 0 && point.y >= 0 && (point.x as usize) < self.width && (point.y as usize)
            < self.height
    }

    /// The index at which the cell of an in-bounds point is stored.
    pub fn offset(&self, point: Point) -> (i: usize)
        requires
            self.wf(),
            self@.in_bounds(point),
        ensures
            i == self@.index_of(point),
            i < self.inner@.len(),
    {
        let n = self.inner.len();
        proof {
            self@.lemma_point_index(point);
            assert(0 <= (point.y as int) * (self.width as int)) by (nonlinear_arith)
                requires
                    0 <= point.y,
                    0 <= self.width,
            ;
            assert((point.y as int) * (self.width as int) + (point.x as int) < n);
        }
        (point.y as usize) * self.width + (point.x as usize)
    }

    /// The number that stands for an in-bounds position together with a
    /// facing.
    pub fn state_offset(&self, point: Point, dir: Dir) -> (i: usize)
        requires
            self.wf(),
            self@.in_bounds(point),
            4 * self@.area() <= usize::MAX,
        ensures
            i == self@.state_index(point, dir),
            i < 4 * self@.area(),
    {
        proof {
            self@.lemma_point_index(point);
        }
        self.offset(point) * 4 + dir.index()
    }

    /// The point whose cell is stored at index `i`.
    pub fn point_of(&self, i: usize) -> (point: Point)
        requires
            self.wf(),
            i < self@.area(),
        ensures
            point == self@.point_at(i as int),
            self@.in_bounds(point),
            self@.index_of(point) == i,
    {
        proof {
            self@.lemma_index_point(i as int);
            lemma_index_encode(i as int, self.width as int, self.height as int);
            assert(self.width > 0) by (nonlinear_arith)
                requires
                    i < self.width * self.height,
            ;
        }
        Point::from_indices(i % self.width, i / self.width)
    }

    /// The position and facing that the number `i` stands for.
    pub fn state_of(&self, i: usize) -> (state: (Point, Dir))
        requires
            self.wf(),
            i < 4 * self@.area(),
        ensures
            state.0 == self@.point_at(i as int / 4),
            state.1.ordinal() == i as int % 4,
            self@.in_bounds(state.0),
            self@.state_index(state.0, state.1) == i,
    {
        let point = self.point_of(i / 4);
        let dir = Dir::from_index(i % 4);
        (point, dir)
    }

    /// Overwrites the cell at `point`, which must be in bounds.
    pub fn set(&mut self, point: Point, val: T)
        requires
            old(self).wf(),
            old(self)@.in_bounds(point),
        ensures
            final(self).wf(),
            final(self)@ == old(self)@.with_cell(point, val),
    {
        let i = self.offset(point);
        self.inner.set(i, val);
    }

    /// The cell at `point`, or `None` when `point` lies outside the grid.
    #[must_use]
    pub fn get(&self, point: Point) -> (found: Option<&T>)
        requires
            self.wf(),
        ensures
            self@.in_bounds(point) ==> found == Some(&self@.cell(point)),
            !self@.in_bounds(point) ==> found.is_none(),
    {
        if !self.is_in_bounds(point) {
            return None;
        }
        Some(self.get_unchecked(point))
    }

    /// The cell at `point`, which must be in bounds.
    #[must_use]
    pub fn get_unchecked(&self, point: Point) -> (found: &T)
        requires
            self.wf(),
            self@.in_bounds(point),
        ensures
            *found == self@.cell(point),
    {
        let i = self.offset(point);
        &self.inner[i]
    }
}

impl<T> Grid<T> where T: Copy {
    /// A grid of the given size with every cell set to `fill`.
    pub fn new(width: usize, height: usize, fill: T) -> (grid: Grid<T>)
        requires
            width <= isize::MAX,
            height <= isize::MAX,
            width * height <= usize::MAX,
        ensures
            grid.wf(),
            grid.width == width,
            grid.height == height,
            forall|i: int| 0 <= i < grid.inner@.len() ==> grid.inner@[i] == fill,
    {
        let n = width * height;
        let mut inner: Vec<T> = Vec::with_capacity(n);
        let mut i: usize = 0;
        while i < n
            invariant
                i <= n,
                inner@.len() == i,
                forall|j: int| 0 <= j < i ==> inner@[j] == fill,
            decreases n - i,
        {
            inner.push(fill);
            i += 1;
        }
        Grid { width, height, inner }
    }

    /// A copy of the cell at `point`, or `None` when `point` lies outside the
    /// grid.
    #[must_use]
    pub fn get_copied(&self, point: Point) -> (found: Option<T>)
        requires
            self.wf(),
        ensures
            self@.in_bounds(point) ==> found == Some(self@.cell(point)),
            !self@.in_bounds(point) ==> found.is_none(),
    {
        match self.get(point) {
            Some(cell) => Some(*cell),
            None => None,
        }
    }
}

} // verus!
