//! A warehouse in which a robot pushes boxes about, one step at a time.
use crate::arith::{lemma_index_decode, lemma_index_encode};
use crate::dir::Dir;
use crate::grid::{Grid, GridView};
use crate::point::Point;
use crate::scan::{first_blank, lines, split_lines, views};
use crate::text::{strip_blanks, without_blanks};
use itertools::Itertools;
use vstd::prelude::*;
use vstd::string::StringSliceAdditionalSpecFns;

verus! {

/// What a cell of the warehouse holds. A wide box takes two cells, its left
/// half and its right half.
#[derive(Clone, Copy, Debug, PartialEq, Eq, Structural, Hash)]
pub enum Cell {
    Wall,
    Block,
    Empty,
    BlockLeft,
    BlockRight,
}

impl Cell {
    /// Whether the cell holds a box or a half of one.
    pub open spec fn is_box(self) -> bool {
        self == Cell::Block || self == Cell::BlockLeft || self == Cell::BlockRight
    }

    /// The character that a map shows for the cell.
    pub open spec fn mark(self) -> char {
        match self {
            Cell::Wall => '#',
            Cell::Block => 'O',
            Cell::Empty => '.',
            Cell::BlockLeft => '[',
            Cell::BlockRight => ']',
        }
    }

    /// The character that a map shows for the cell.
    pub fn to_char(self) -> (ch: char)
        ensures
            ch == self.mark(),
    {
        match self {
            Cell::Wall => '#',
            Cell::Block => 'O',
            Cell::Empty => '.',
            Cell::BlockLeft => '[',
            Cell::BlockRight => ']',
        }
    }
}

/// The warehouse, where the robot stands, and the moves it will try.
pub struct Input {
    pub grid: Grid<Cell>,
    pub player: Point,
    pub instructions: Vec<Dir>,
}

impl Input {
    /// The grid is well formed and the robot stands inside it.
    pub open spec fn wf(&self) -> bool {
        &&& self.grid.wf()
        &&& self.grid@.in_bounds(self.player)
    }
}

/// The point `k` steps from `p` in the direction `dir`.
pub open spec fn ahead(p: Point, dir: Dir, k: int) -> Point {
    match dir {
        Dir::Up => Point { x: p.x, y: (p.y - k) as isize },
        Dir::Down => Point { x: p.x, y: (p.y + k) as isize },
        Dir::Left => Point { x: (p.x - k) as isize, y: p.y },
        Dir::Right => Point { x: (p.x + k) as isize, y: p.y },
    }
}

/// Whether `q` lies `k` steps from `p` in the direction `dir`.
pub open spec fn lies_ahead(p: Point, dir: Dir, k: int, q: Point) -> bool {
    match dir {
        Dir::Up => q.x == p.x && q.y == p.y - k,
        Dir::Down => q.x == p.x && q.y == p.y + k,
        Dir::Left => q.x == p.x - k && q.y == p.y,
        Dir::Right => q.x == p.x + k && q.y == p.y,
    }
}

/// Whether `p` is a cell of the grid that holds a box or a half of one.
pub open spec fn holds_box(grid: GridView<Cell>, p: Point) -> bool {
    grid.in_bounds(p) && grid.cell(p).is_box()
}

/// Whether `p` is an empty cell of the grid.
pub open spec fn is_free(grid: GridView<Cell>, p: Point) -> bool {
    grid.in_bounds(p) && grid.cell(p) == Cell::Empty
}

/// Whether a step from `p` in the direction `dir` meets a row of `k - 1`
/// box cells with an empty cell right behind it.
pub open spec fn pushes(grid: GridView<Cell>, p: Point, dir: Dir, k: int) -> bool {
    &&& k >= 1
    &&& forall|j: int| 1 <= j < k ==> holds_box(grid, #[trigger] ahead(p, dir, j))
    &&& is_free(grid, ahead(p, dir, k))
}

/// The distance from `p` to the first empty cell in the direction `dir`, if
/// nothing but boxes stands between the two.
pub open spec fn gap(grid: GridView<Cell>, p: Point, dir: Dir) -> Option<int> {
    if exists|k: int| pushes(grid, p, dir, k) {
        Some(choose|k: int| pushes(grid, p, dir, k))
    } else {
        None
    }
}

/// Only one distance leads over boxes to the first empty cell.
pub proof fn lemma_pushes_unique(grid: GridView<Cell>, p: Point, dir: Dir, a: int, b: int)
    requires
        pushes(grid, p, dir, a),
        pushes(grid, p, dir, b),
    ensures
        a == b,
{
    if a < b {
        assert(holds_box(grid, ahead(p, dir, a)));
    } else if b < a {
        assert(holds_box(grid, ahead(p, dir, b)));
    }
}

/// A distance that leads over boxes to an empty cell is the gap.
proof fn lemma_gap(grid: GridView<Cell>, p: Point, dir: Dir, k: int)
    requires
        pushes(grid, p, dir, k),
    ensures
        gap(grid, p, dir) == Some(k),
{
    let found = choose|k: int| pushes(grid, p, dir, k);
    lemma_pushes_unique(grid, p, dir, k, found);
}

/// How many more steps in the direction `dir` a walk from the cell `p` can
/// take before it has left the grid.
spec fn room(grid: GridView<Cell>, p: Point, dir: Dir) -> int {
    match dir {
        Dir::Up => p.y + 1,
        Dir::Down => grid.height - p.y,
        Dir::Left => p.x + 1,
        Dir::Right => grid.width - p.x,
    }
}

/// Walks from `player` over the boxes in the direction `dir` and returns
/// the first empty cell with its distance, unless a wall or the edge of the
/// grid comes first.
fn first_gap(dir: Dir, player: Point, grid: &Grid<Cell>) -> (found: Option<(Point, usize)>)
    requires
        grid.wf(),
        dir.can_step_from(player),
    ensures
        match found {
            Some((end, k)) => gap(grid@, player, dir) == Some(k as int) && end == ahead(
                player,
                dir,
                k as int,
            ) && pushes(grid@, player, dir, k as int),
            None => gap(grid@, player, dir).is_none(),
        },
{
    let mut curr = dir.step_from(player);
    let mut k: usize = 1;
    loop
        invariant
            grid.wf(),
            1 <= k,
            lies_ahead(player, dir, k as int, curr),
            forall|j: int| 1 <= j < k ==> holds_box(grid@, #[trigger] ahead(player, dir, j)),
        decreases room(grid@, curr, dir),
    {
        let cell = match grid.get_copied(curr) {
            Some(cell) => cell,
            None => Cell::Wall,
        };
        match cell {
            Cell::Empty => {
                proof {
                    lemma_gap(grid@, player, dir, k as int);
                }
                return Some((curr, k));
            },
            Cell::Wall => {
                proof {
                    assert forall|far: int| !pushes(grid@, player, dir, far) by {
                        if far < k && pushes(grid@, player, dir, far) {
                            assert(holds_box(grid@, ahead(player, dir, far)));
                        } else if far > k && pushes(grid@, player, dir, far) {
                            assert(holds_box(grid@, ahead(player, dir, k as int)));
                        }
                    }
                }
                return None;
            },
            _ => {
                curr = dir.step_from(curr);
                k += 1;
            },
        }
    }
}

/// Whether the robot at `player` can step in the direction `dir`: whether
/// the cell there is empty, or boxes stand there in a row with an empty
/// cell behind them.
pub fn has_free_space_to(dir: Dir, player: Point, grid: &Grid<Cell>) -> (free: bool)
    requires
        grid.wf(),
        dir.can_step_from(player),
    ensures
        free == exists|k: int| pushes(grid@, player, dir, k),
{
    first_gap(dir, player, grid).is_some()
}

/// The box cells that stand in a row in front of `player`, nearest first,
/// if an empty cell lies behind them.
pub fn has_free_space_to2(dir: Dir, player: Point, grid: &Grid<Cell>) -> (found: Option<Vec<Cell>>)
    requires
        grid.wf(),
        dir.can_step_from(player),
    ensures
        match found {
            Some(boxes) => pushes(grid@, player, dir, (boxes@.len() + 1) as int) && forall|j: int|
                0 <= j < boxes@.len() ==> boxes@[j] == grid@.cell(
                    #[trigger] ahead(player, dir, j + 1),
                ),
            None => forall|k: int| !pushes(grid@, player, dir, k),
        },
{
    let k = match first_gap(dir, player, grid) {
        Some((_, k)) => k,
        None => {
            return None;
        },
    };
    let mut boxes: Vec<Cell> = Vec::new();
    let mut curr = dir.step_from(player);
    let mut at: usize = 1;
    while at < k
        invariant
            grid.wf(),
            1 <= at <= k,
            pushes(grid@, player, dir, k as int),
            lies_ahead(player, dir, at as int, curr),
            boxes@.len() == at - 1,
            forall|j: int|
                0 <= j < boxes@.len() ==> boxes@[j] == grid@.cell(
                    #[trigger] ahead(player, dir, j + 1),
                ),
        decreases k - at,
    {
        proof {
            assert(holds_box(grid@, ahead(player, dir, at as int)));
        }
        boxes.push(*grid.get_unchecked(curr));
        curr = dir.step_from(curr);
        at += 1;
    }
    Some(boxes)
}

/// The warehouse after the row of boxes in front of `p` has been pushed
/// one step in the direction `dir`: the empty cell behind the row takes a
/// box and the cell in front of `p` is left empty. Nothing changes where no
/// boxes stand in front of `p` or nothing is empty behind them.
pub open spec fn spec_shift(grid: GridView<Cell>, p: Point, dir: Dir) -> GridView<Cell> {
    match gap(grid, p, dir) {
        Some(k) => if k >= 2 {
            grid.with_cell(ahead(p, dir, k), Cell::Block).with_cell(ahead(p, dir, 1), Cell::Empty)
        } else {
            grid
        },
        None => grid,
    }
}

/// The warehouse and the robot's place after the robot at `p` has tried
/// a step in the direction `dir`.
pub open spec fn spec_move(grid: GridView<Cell>, p: Point, dir: Dir) -> (GridView<Cell>, Point) {
    match gap(grid, p, dir) {
        Some(_) => (spec_shift(grid, p, dir), ahead(p, dir, 1)),
        None => (grid, p),
    }
}

/// Pushes the row of boxes in front of `player` one step in the direction
/// `dir`, if there is one and an empty cell lies behind it.
pub fn shift_blocks(dir: Dir, player: Point, grid: &mut Grid<Cell>)
    requires
        old(grid).wf(),
        dir.can_step_from(player),
    ensures
        final(grid).wf(),
        final(grid)@ == spec_shift(old(grid)@, player, dir),
{
    let start = dir.step_from(player);
    match first_gap(dir, player, grid) {
        Some((end, k)) => {
            if k >= 2 {
                proof {
                    assert(holds_box(grid@, ahead(player, dir, 1)));
                }
                grid.set(end, Cell::Block);
                grid.set(start, Cell::Empty);
            }
        },
        None => {},
    }
}

/// Lets the robot try a step in the direction `dir`, pushing the boxes in
/// its way.
pub fn try_move(dir: Dir, player: &mut Point, grid: &mut Grid<Cell>)
    requires
        old(grid).wf(),
        old(grid)@.in_bounds(*old(player)),
    ensures
        final(grid).wf(),
        final(grid)@.in_bounds(*final(player)),
        (final(grid)@, *final(player)) == spec_move(old(grid)@, *old(player), dir),
{
    if has_free_space_to(dir, *player, grid) {
        proof {
            let k = choose|k: int| pushes(grid@, *player, dir, k);
            if k > 1 {
                assert(holds_box(grid@, ahead(*player, dir, 1)));
            }
        }
        shift_blocks(dir, *player, grid);
        *player = dir.step_from(*player);
    }
}

/// The warehouse and the robot's place after the first `n` of the moves.
pub open spec fn after_moves(grid: GridView<Cell>, p: Point, moves: Seq<Dir>, n: int) -> (
    GridView<Cell>,
    Point,
)
    decreases n,
{
    if n <= 0 {
        (grid, p)
    } else {
        let before = after_moves(grid, p, moves, n - 1);
        spec_move(before.0, before.1, moves[n - 1])
    }
}

/// A hundred times the row of `p` plus its column.
pub open spec fn spec_gps(p: Point) -> int {
    100 * p.y + p.x
}

/// A hundred times the row of `p` plus its column.
pub fn gps(p: Point) -> (v: usize)
    requires
        isize::MIN <= 100 * p.y <= isize::MAX,
        0 <= spec_gps(p) <= isize::MAX,
    ensures
        v == spec_gps(p),
{
    (100 * p.y + p.x) as usize
}

/// The `i`-th cell of a grid of the given height when the cells are taken
/// column by column.
pub open spec fn nth_cell(height: nat, i: int) -> Point {
    Point { x: (i / (height as int)) as isize, y: (i % (height as int)) as isize }
}

/// The sum of [`spec_gps`] over those of the first `n` cells, taken column
/// by column, that hold `target`.
pub open spec fn score_upto(grid: GridView<Cell>, target: Cell, n: int) -> int
    decreases n,
{
    if n <= 0 {
        0
    } else {
        let p = nth_cell(grid.height, n - 1);
        score_upto(grid, target, n - 1) + if grid.cell(p) == target {
            spec_gps(p)
        } else {
            0
        }
    }
}

/// The sum of [`spec_gps`] over the cells that hold `target`.
pub open spec fn spec_score(grid: GridView<Cell>, target: Cell) -> int {
    score_upto(grid, target, grid.area() as int)
}

/// Whether every sum of [`spec_gps`] over cells of the grid fits.
pub open spec fn score_fits(grid: GridView<Cell>) -> bool {
    &&& 100 * grid.height + grid.width <= isize::MAX
    &&& grid.area() * (100 * grid.height + grid.width) <= usize::MAX
}

/// Every pair of a column below `width` and a row below `height`, column by
/// column, from `Itertools::cartesian_product` on the two ranges: the pair
/// at index `i` is column `i / height` with row `i % height`.
#[verifier::external_body]
fn pairs(width: usize, height: usize) -> (all: Vec<(usize, usize)>)
    requires
        width * height <= usize::MAX,
    ensures
        all@.len() == width * height,
        forall|i: int|
            0 <= i < all@.len() ==> (#[trigger] all@[i]).0 == i / (height as int) && all@[i].1 == i
                % (height as int),
{
    (0..width).cartesian_product(0..height).collect()
}

/// The sum of [`gps`] over the cells that hold `target`.
pub fn score(grid: &Grid<Cell>, target: Cell) -> (total: usize)
    requires
        grid.wf(),
        score_fits(grid@),
    ensures
        total == spec_score(grid@, target),
{
    assert(grid.inner.len() == grid.width * grid.height);
    let cells = pairs(grid.width, grid.height);
    let ghost most = 100 * grid@.height + grid@.width;
    let mut total: usize = 0;
    let mut i: usize = 0;
    while i < cells.len()
        invariant
            grid.wf(),
            score_fits(grid@),
            most == 100 * grid@.height + grid@.width,
            cells@.len() == grid@.area(),
            forall|j: int|
                0 <= j < cells@.len() ==> (#[trigger] cells@[j]).0 == j / (grid.height as int)
                    && cells@[j].1 == j % (grid.height as int),
            i <= cells@.len(),
            total == score_upto(grid@, target, i as int),
            total <= i * most,
        decreases cells@.len() - i,
    {
        let (x, y) = cells[i];
        proof {
            assert(grid@.width * grid@.height == grid@.height * grid@.width) by (nonlinear_arith);
            lemma_index_encode(i as int, grid.height as int, grid.width as int);
            assert((i + 1) * most == i * most + most) by (nonlinear_arith);
            assert((i + 1) * most <= grid@.area() * most) by (nonlinear_arith)
                requires
                    i + 1 <= grid@.area(),
                    0 <= most,
            ;
        }
        let p = Point::from_indices(x, y);
        assert(p == nth_cell(grid@.height, i as int));
        if *grid.get_unchecked(p) == target {
            total += gps(p);
        }
        i += 1;
    }
    total
}

/// Lets the robot try every move in turn and adds up where the boxes stand
/// in the end.
pub fn q1(input: &Input) -> (total: usize)
    requires
        input.wf(),
        score_fits(input.grid@),
    ensures
        total == spec_score(
            after_moves(
                input.grid@,
                input.player,
                input.instructions@,
                input.instructions@.len() as int,
            ).0,
            Cell::Block,
        ),
{
    let mut grid = input.grid.clone();
    let mut player = input.player;
    proof {
        assert(grid.inner@ =~= input.grid.inner@);
        assert(grid@ == input.grid@);
    }
    let mut i: usize = 0;
    while i < input.instructions.len()
        invariant
            i <= input.instructions@.len(),
            grid.wf(),
            grid@.in_bounds(player),
            grid@.width == input.grid@.width,
            grid@.height == input.grid@.height,
            (grid@, player) == after_moves(
                input.grid@,
                input.player,
                input.instructions@,
                i as int,
            ),
        decreases input.instructions@.len() - i,
    {
        try_move(input.instructions[i], &mut player, &mut grid);
        i += 1;
    }
    score(&grid, Cell::Block)
}

/// The byte that a map shows for a wall.
pub const WALL_MARK: u8 = 35;

/// The byte that a map shows for an empty cell.
pub const FLOOR_MARK: u8 = 46;

/// The byte that a map shows for a box.
pub const BOX_MARK: u8 = 79;

/// The byte that a map shows where the robot stands.
pub const ROBOT_MARK: u8 = 64;

/// What the cell holds for which a map shows `byte`. Where the robot
/// stands the cell is empty.
pub open spec fn cell_of(byte: u8) -> Option<Cell> {
    if byte == WALL_MARK {
        Some(Cell::Wall)
    } else if byte == FLOOR_MARK || byte == ROBOT_MARK {
        Some(Cell::Empty)
    } else if byte == BOX_MARK {
        Some(Cell::Block)
    } else {
        None
    }
}

/// The move that the arrow `byte` stands for: one of `^`, `v`, `<`, `>`.
pub open spec fn dir_of(byte: u8) -> Option<Dir> {
    if byte == 94 {
        Some(Dir::Up)
    } else if byte == 118 {
        Some(Dir::Down)
    } else if byte == 60 {
        Some(Dir::Left)
    } else if byte == 62 {
        Some(Dir::Right)
    } else {
        None
    }
}

/// The byte in column `p.x` of line `p.y`.
pub open spec fn mark_at(rows: Seq<Seq<u8>>, p: Point) -> u8 {
    rows[p.y as int][p.x as int]
}

/// The lines from `from` up to `to`, written one behind the other.
pub open spec fn joined(rows: Seq<Seq<u8>>, from: int, to: int) -> Seq<u8>
    decreases to - from,
{
    if to <= from {
        Seq::empty()
    } else {
        joined(rows, from, to - 1) + rows[to - 1]
    }
}

/// Whether `p` names a byte of the first `height` lines, each `width`
/// bytes long.
pub open spec fn on_map(width: int, height: int, p: Point) -> bool {
    0 <= p.x < width && 0 <= p.y < height
}

/// Whether the lines describe a warehouse: a map of lines of one length
/// that shows the robot, an empty line, and lines of arrows.
pub open spec fn is_warehouse(rows: Seq<Seq<u8>>) -> bool {
    match first_blank(rows, 0) {
        Some(h) => {
            let w = rows[0].len() as int;
            let arrows = joined(rows, h + 1, rows.len() as int);
            &&& 1 <= h <= isize::MAX
            &&& w <= isize::MAX
            &&& w * h <= usize::MAX
            &&& forall|y: int| 0 <= y < h ==> (#[trigger] rows[y]).len() == w
            &&& forall|p: Point| on_map(w, h, p) ==> cell_of(#[trigger] mark_at(rows, p)).is_some()
            &&& exists|p: Point| on_map(w, h, p) && #[trigger] mark_at(rows, p) == ROBOT_MARK
            &&& forall|i: int| 0 <= i < arrows.len() ==> dir_of(#[trigger] arrows[i]).is_some()
        },
        None => false,
    }
}

impl Input {
    /// Whether `self` is the warehouse that the lines describe. Where the
    /// map shows the robot more than once, it stands at the last place.
    pub open spec fn shows(&self, rows: Seq<Seq<u8>>) -> bool {
        let h = first_blank(rows, 0).unwrap();
        let arrows = joined(rows, h + 1, rows.len() as int);
        &&& is_warehouse(rows)
        &&& self.wf()
        &&& self.grid@.height == h
        &&& self.grid@.width == rows[0].len()
        &&& forall|p: Point|
            self.grid@.in_bounds(p) ==> cell_of(#[trigger] mark_at(rows, p)) == Some(
                self.grid@.cell(p),
            )
        &&& mark_at(rows, self.player) == ROBOT_MARK
        &&& forall|p: Point|
            self.grid@.in_bounds(p) && #[trigger] mark_at(rows, p) == ROBOT_MARK
                ==> self.grid@.index_of(p) <= self.grid@.index_of(self.player)
        &&& self.instructions@.len() == arrows.len()
        &&& forall|i: int|
            0 <= i < arrows.len() ==> dir_of(arrows[i]) == Some(#[trigger] self.instructions@[i])
    }
}

/// Lines written one behind the other start with what fewer of them give.
proof fn lemma_joined_prefix(rows: Seq<Seq<u8>>, from: int, mid: int, to: int)
    requires
        from <= mid <= to,
    ensures
        joined(rows, from, mid).len() <= joined(rows, from, to).len(),
        forall|i: int|
            0 <= i < joined(rows, from, mid).len() ==> joined(rows, from, to)[i] == joined(
                rows,
                from,
                mid,
            )[i],
    decreases to - mid,
{
    if mid < to {
        lemma_joined_prefix(rows, from, mid, to - 1);
    }
}

/// The `i`-th cell of a map of the given width when the cells are taken
/// line by line.
spec fn spot(width: int, i: int) -> Point {
    Point { x: (i % width) as isize, y: (i / width) as isize }
}

/// Reads the map of the warehouse and the robot's moves. Spaces, tabs and
/// carriage returns are skipped. The result is `None` when the text
/// describes no warehouse.
pub fn parse(input: &str) -> (parsed: Option<Input>)
    ensures
        match parsed {
            Some(warehouse) => warehouse.shows(lines(without_blanks(input.spec_bytes()))),
            None => !is_warehouse(lines(without_blanks(input.spec_bytes()))),
        },
{
    let ghost all = lines(without_blanks(input.spec_bytes()));
    let stripped = strip_blanks(input.as_bytes());
    let rows = split_lines(stripped.as_slice());
    proof {
        assert(views(rows@).len() == rows@.len());
    }
    let mut h: usize = 0;
    while h < rows.len() && rows[h].len() != 0
        invariant
            all == views(rows@),
            all == lines(without_blanks(input.spec_bytes())),
            h <= rows@.len(),
            first_blank(all, 0) == first_blank(all, h as int),
        decreases rows@.len() - h,
    {
        proof {
            assert(all[h as int] == rows@[h as int]@);
        }
        h += 1;
    }
    if h >= rows.len() || h == 0 {
        proof {
            if h < rows@.len() {
                assert(all[0] == rows@[0]@);
            }
        }
        return None;
    }
    proof {
        assert(all[h as int] == rows@[h as int]@);
        assert(all[0] == rows@[0]@);
        assert(first_blank(all, 0) == Some(h as int));
    }
    let w = rows[0].len();
    if w > isize::MAX as usize || h > isize::MAX as usize {
        return None;
    }
    let n = match w.checked_mul(h) {
        Some(n) => n,
        None => {
            return None;
        },
    };
    let mut y: usize = 0;
    while y < h
        invariant
            all == views(rows@),
            all == lines(without_blanks(input.spec_bytes())),
            h < rows@.len(),
            first_blank(all, 0) == Some(h as int),
            w == all[0].len(),
            y <= h,
            forall|j: int| 0 <= j < y ==> (#[trigger] all[j]).len() == w,
        decreases h - y,
    {
        proof {
            assert(all[y as int] == rows@[y as int]@);
        }
        if rows[y].len() != w {
            return None;
        }
        y += 1;
    }
    let mut inner: Vec<Cell> = Vec::with_capacity(n);
    let mut player: Option<Point> = None;
    let mut i: usize = 0;
    while i < n
        invariant
            all == views(rows@),
            all == lines(without_blanks(input.spec_bytes())),
            first_blank(all, 0) == Some(h as int),
            h < rows@.len(),
            1 <= h <= isize::MAX,
            w == all[0].len(),
            w <= isize::MAX,
            n == w * h,
            forall|j: int| 0 <= j < h ==> (#[trigger] all[j]).len() == w,
            i <= n,
            inner@.len() == i,
            forall|j: int|
                0 <= j < i ==> cell_of(mark_at(all, spot(w as int, j))) == Some(
                    #[trigger] inner@[j],
                ),
            match player {
                Some(q) => {
                    &&& on_map(w as int, h as int, q)
                    &&& mark_at(all, q) == ROBOT_MARK
                    &&& q.y * w + q.x < i
                    &&& forall|j: int|
                        0 <= j < i && mark_at(all, #[trigger] spot(w as int, j)) == ROBOT_MARK ==> j
                            <= q.y * w + q.x
                },
                None => forall|j: int|
                    0 <= j < i ==> mark_at(all, #[trigger] spot(w as int, j)) != ROBOT_MARK,
            },
        decreases n - i,
    {
        proof {
            lemma_index_encode(i as int, w as int, h as int);
        }
        let x: usize = i % w;
        let y: usize = i / w;
        let ghost here = spot(w as int, i as int);
        proof {
            assert(all[y as int] == rows@[y as int]@);
            assert(on_map(w as int, h as int, here));
            assert(mark_at(all, here) == rows@[y as int]@[x as int]);
        }
        let byte = rows[y][x];
        let cell = if byte == WALL_MARK {
            Cell::Wall
        } else if byte == FLOOR_MARK {
            Cell::Empty
        } else if byte == BOX_MARK {
            Cell::Block
        } else if byte == ROBOT_MARK {
            player = Some(Point::from_indices(x, y));
            Cell::Empty
        } else {
            return None;
        };
        inner.push(cell);
        i += 1;
    }
    let player = match player {
        Some(player) => player,
        None => {
            proof {
                assert forall|p: Point| on_map(w as int, h as int, p) implies #[trigger] mark_at(
                    all,
                    p,
                ) != ROBOT_MARK by {
                    lemma_index_decode(p.x as int, p.y as int, w as int);
                    crate::arith::lemma_index_in_range(p.x as int, p.y as int, w as int, h as int);
                    assert(spot(w as int, p.y * w + p.x) == p);
                }
            }
            return None;
        },
    };
    let grid = Grid { width: w, height: h, inner };
    proof {
        assert forall|p: Point| grid@.in_bounds(p) implies cell_of(#[trigger] mark_at(all, p))
            == Some(grid@.cell(p)) && (mark_at(all, p) == ROBOT_MARK ==> grid@.index_of(p)
            <= grid@.index_of(player)) by {
            lemma_index_decode(p.x as int, p.y as int, w as int);
            crate::arith::lemma_index_in_range(p.x as int, p.y as int, w as int, h as int);
            assert(spot(w as int, p.y * w + p.x) == p);
        }
    }
    let ghost first = h as int + 1;
    let mut instructions: Vec<Dir> = Vec::new();
    let mut r: usize = h + 1;
    while r < rows.len()
        invariant
            all == views(rows@),
            all == lines(without_blanks(input.spec_bytes())),
            first == h + 1,
            first_blank(all, 0) == Some(h as int),
            first <= r <= rows@.len(),
            instructions@.len() == joined(all, first, r as int).len(),
            forall|t: int|
                0 <= t < instructions@.len() ==> dir_of(joined(all, first, r as int)[t]) == Some(
                    #[trigger] instructions@[t],
                ),
        decreases rows@.len() - r,
    {
        let ghost before = joined(all, first, r as int);
        proof {
            assert(all[r as int] == rows@[r as int]@);
        }
        let mut c: usize = 0;
        while c < rows[r as usize].len()
            invariant
                all == views(rows@),
            all == lines(without_blanks(input.spec_bytes())),
                first == h + 1,
                first_blank(all, 0) == Some(h as int),
                first <= r < rows@.len(),
                all[r as int] == rows@[r as int]@,
                before == joined(all, first, r as int),
                c <= rows@[r as int]@.len(),
                instructions@.len() == before.len() + c,
                forall|t: int|
                    0 <= t < instructions@.len() ==> dir_of(
                        (before + all[r as int].take(c as int))[t],
                    ) == Some(#[trigger] instructions@[t]),
            decreases rows@[r as int]@.len() - c,
        {
            let byte = rows[r][c];
            let ghost had = instructions@;
            let dir = if byte == 94 {
                Dir::Up
            } else if byte == 118 {
                Dir::Down
            } else if byte == 60 {
                Dir::Left
            } else if byte == 62 {
                Dir::Right
            } else {
                proof {
                    let whole = joined(all, first, rows@.len() as int);
                    lemma_joined_prefix(all, first, r as int + 1, rows@.len() as int);
                    let at = before.len() + c;
                    assert(joined(all, first, r as int + 1)[at] == byte);
                    assert(dir_of(whole[at]).is_none());
                }
                return None;
            };
            instructions.push(dir);
            proof {
                let now = before + all[r as int].take(c as int + 1);
                let was = before + all[r as int].take(c as int);
                assert forall|t: int| 0 <= t < instructions@.len() implies dir_of(now[t]) == Some(
                    #[trigger] instructions@[t],
                ) by {
                    if t < had.len() {
                        assert(now[t] == was[t]);
                        assert(instructions@[t] == had[t]);
                    }
                }
            }
            c += 1;
        }
        proof {
            assert(all[r as int].take(c as int) == all[r as int]);
        }
        r += 1;
    }
    let warehouse = Input { grid, player, instructions };
    proof {
        let arrows = joined(all, first, rows@.len() as int);
        assert forall|i: int| 0 <= i < arrows.len() implies dir_of(#[trigger] arrows[i]).is_some() by {
            assert(dir_of(arrows[i]) == Some(warehouse.instructions@[i]));
        }
    }
    Some(warehouse)
}

/// Whether no cell of the grid holds a half of a wide box.
pub open spec fn is_narrow(grid: GridView<Cell>) -> bool {
    forall|i: int|
        0 <= i < grid.cells.len() ==> (#[trigger] grid.cells[i]) != Cell::BlockLeft
            && grid.cells[i] != Cell::BlockRight
}

/// What one of the two cells holds that take the place of `cell` when the
/// warehouse is made twice as wide: a box becomes a wide box.
pub open spec fn widened(cell: Cell, right: bool) -> Cell {
    match cell {
        Cell::Block => if right {
            Cell::BlockRight
        } else {
            Cell::BlockLeft
        },
        _ => cell,
    }
}

/// The warehouse made twice as wide: two cells for each cell.
pub open spec fn spec_expand(grid: GridView<Cell>) -> GridView<Cell> {
    GridView {
        width: 2 * grid.width,
        height: grid.height,
        cells: Seq::new(2 * grid.cells.len(), |i: int| widened(grid.cells[i / 2], i % 2 == 1)),
    }
}

/// Makes the warehouse twice as wide: every cell becomes two cells, and a
/// box becomes a wide box.
pub fn expand(grid: Grid<Cell>) -> (wide: Grid<Cell>)
    requires
        grid.wf(),
        is_narrow(grid@),
        2 * grid@.width <= isize::MAX,
        2 * grid@.area() <= usize::MAX,
    ensures
        wide.wf(),
        wide@ == spec_expand(grid@),
{
    let width = grid.width * 2;
    let height = grid.height;
    let mut inner: Vec<Cell> = Vec::new();
    let mut i: usize = 0;
    while i < grid.inner.len()
        invariant
            is_narrow(grid@),
            i <= grid.inner@.len(),
            inner@.len() == 2 * i,
            forall|j: int|
                0 <= j < 2 * i ==> #[trigger] inner@[j] == widened(grid.inner@[j / 2], j % 2 == 1),
        decreases grid.inner@.len() - i,
    {
        let pair = match grid.inner[i] {
            Cell::Block => (Cell::BlockLeft, Cell::BlockRight),
            cell => (cell, cell),
        };
        inner.push(pair.0);
        inner.push(pair.1);
        i += 1;
    }
    proof {
        assert(inner@ =~= spec_expand(grid@).cells);
        assert(2 * grid@.width * grid@.height == 2 * (grid@.width * grid@.height))
            by (nonlinear_arith);
    }
    Grid { width, height, inner }
}

/// Two well-formed grids of one size that agree on every cell are equal.
proof fn lemma_same_grid(a: GridView<Cell>, b: GridView<Cell>)
    requires
        a.wf(),
        b.wf(),
        a.width == b.width,
        a.height == b.height,
        forall|p: Point| a.in_bounds(p) ==> a.cell(p) == b.cell(p),
    ensures
        a == b,
{
    assert forall|i: int| 0 <= i < a.cells.len() implies a.cells[i] == b.cells[i] by {
        a.lemma_index_point(i);
        let p = a.point_at(i);
        assert(a.cell(p) == b.cell(p));
    }
    assert(a.cells =~= b.cells);
}

/// How far `q` lies from `p` in the direction `dir`, counted in rows for a
/// direction up or down and in columns for one to the left or right.
pub open spec fn level(p: Point, dir: Dir, q: Point) -> int {
    match dir {
        Dir::Up => p.y - q.y,
        Dir::Down => q.y - p.y,
        Dir::Left => p.x - q.x,
        Dir::Right => q.x - p.x,
    }
}

/// Whether `q` lies straight ahead of `p` in the direction `dir`, or is
/// `p` itself.
pub open spec fn in_line(p: Point, dir: Dir, q: Point) -> bool {
    match dir {
        Dir::Up | Dir::Down => q.x == p.x,
        Dir::Left | Dir::Right => q.y == p.y,
    }
}

/// The cell from which a step in the direction `dir` leads to `q`.
pub open spec fn behind(dir: Dir, q: Point) -> Point {
    ahead(q, dir, -1)
}

/// What the cell `q` holds after the `k - 1` box cells in front of `p`
/// have been moved one step in the direction `dir`.
pub open spec fn slid_cell(grid: GridView<Cell>, p: Point, dir: Dir, k: int, q: Point) -> Cell {
    if in_line(p, dir, q) && level(p, dir, q) == 1 {
        Cell::Empty
    } else if in_line(p, dir, q) && 2 <= level(p, dir, q) <= k {
        grid.cell(behind(dir, q))
    } else {
        grid.cell(q)
    }
}

/// The warehouse after the `k - 1` box cells in front of `p` have been
/// moved one step in the direction `dir`.
pub open spec fn slid(grid: GridView<Cell>, p: Point, dir: Dir, k: int) -> GridView<Cell> {
    GridView {
        width: grid.width,
        height: grid.height,
        cells: Seq::new(grid.cells.len(), |i: int| slid_cell(grid, p, dir, k, grid.point_at(i))),
    }
}

/// Lets the robot try a step in the direction `dir` along its row, moving
/// the box cells in its way one cell on.
fn slide(dir: Dir, player: &mut Point, grid: &mut Grid<Cell>)
    requires
        old(grid).wf(),
        old(grid)@.in_bounds(*old(player)),
    ensures
        final(grid).wf(),
        final(grid)@.in_bounds(*final(player)),
        match gap(old(grid)@, *old(player), dir) {
            Some(k) => final(grid)@ == slid(old(grid)@, *old(player), dir, k) && *final(player)
                == ahead(*old(player), dir, 1),
            None => final(grid)@ == old(grid)@ && *final(player) == *old(player),
        },
{
    let ghost before = grid@;
    let ghost p = *player;
    let boxes = match has_free_space_to2(dir, *player, grid) {
        Some(boxes) => boxes,
        None => {
            return ;
        },
    };
    let ghost k = boxes@.len() as int + 1;
    proof {
        lemma_gap(before, p, dir, k);
        if k > 1 {
            assert(holds_box(before, ahead(p, dir, 1)));
        }
    }
    let start = dir.step_from(*player);
    let mut curr = start;
    let mut j: usize = 0;
    while j < boxes.len()
        invariant
            grid.wf(),
            before.wf(),
            grid@.width == before.width,
            grid@.height == before.height,
            before.in_bounds(p),
            k == boxes@.len() + 1,
            pushes(before, p, dir, k),
            forall|i: int|
                0 <= i < boxes@.len() ==> boxes@[i] == before.cell(#[trigger] ahead(p, dir, i + 1)),
            j <= boxes@.len(),
            lies_ahead(p, dir, j + 1, curr),
            before.in_bounds(curr),
            forall|q: Point|
                before.in_bounds(q) ==> #[trigger] grid@.cell(q) == if in_line(p, dir, q) && 2
                    <= level(p, dir, q) <= j + 1 {
                    before.cell(behind(dir, q))
                } else {
                    before.cell(q)
                },
        decreases boxes@.len() - j,
    {
        let ghost had = grid@;
        let ghost from = curr;
        curr = dir.step_from(curr);
        proof {
            if j + 2 < k {
                assert(holds_box(before, ahead(p, dir, j + 2)));
            }
            assert(curr == ahead(p, dir, j + 2));
            assert(from == ahead(p, dir, j + 1));
            assert(behind(dir, curr) == from);
        }
        grid.set(curr, boxes[j]);
        proof {
            assert forall|q: Point| before.in_bounds(q) implies #[trigger] grid@.cell(q)
                == if in_line(p, dir, q) && 2 <= level(p, dir, q) <= j + 2 {
                before.cell(behind(dir, q))
            } else {
                before.cell(q)
            } by {
                had.lemma_with_cell(curr, boxes@[j as int], q);
                assert(had.cell(q) == if in_line(p, dir, q) && 2 <= level(p, dir, q) <= j + 1 {
                    before.cell(behind(dir, q))
                } else {
                    before.cell(q)
                });
            }
        }
        j += 1;
    }
    let ghost had = grid@;
    grid.set(start, Cell::Empty);
    *player = start;
    proof {
        let goal = slid(before, p, dir, k);
        assert(before.cells.len() == grid@.cells.len());
        assert forall|q: Point| grid@.in_bounds(q) implies grid@.cell(q) == goal.cell(q) by {
            had.lemma_with_cell(start, Cell::Empty, q);
            before.lemma_point_index(q);
            assert(had.cell(q) == if in_line(p, dir, q) && 2 <= level(p, dir, q) <= k {
                before.cell(behind(dir, q))
            } else {
                before.cell(q)
            });
            assert(goal.cell(q) == slid_cell(before, p, dir, k, q));
        }
        lemma_same_grid(grid@, goal);
    }
}

/// The cell to the left of `p`.
pub open spec fn left_of(p: Point) -> Point {
    Point { x: (p.x - 1) as isize, y: p.y }
}

/// The cell to the right of `p`.
pub open spec fn right_of(p: Point) -> Point {
    Point { x: (p.x + 1) as isize, y: p.y }
}

/// Whether a wide box stands with its left half at `q` and its right half
/// in the next cell.
pub open spec fn is_wide_box(grid: GridView<Cell>, q: Point) -> bool {
    &&& grid.in_bounds(q)
    &&& grid.in_bounds(right_of(q))
    &&& grid.cell(q) == Cell::BlockLeft
    &&& grid.cell(right_of(q)) == Cell::BlockRight
}

/// Where the left half stands of the wide box that the cell `c` is a half
/// of, if it is a half of one.
pub open spec fn box_of(grid: GridView<Cell>, c: Point) -> Option<Point> {
    if is_wide_box(grid, c) {
        Some(c)
    } else if c.x > 0 && is_wide_box(grid, left_of(c)) {
        Some(left_of(c))
    } else {
        None
    }
}

/// Whether something pushes into the cell `c` when the robot at `p` steps
/// up or down: the robot itself, or a half of a wide box that is pushed in
/// its turn.
pub open spec fn pressed(grid: GridView<Cell>, p: Point, dir: Dir, c: Point) -> bool
    decreases level(p, dir, c),
{
    if dir == Dir::Left || dir == Dir::Right {
        false
    } else if level(p, dir, c) <= 1 {
        c == ahead(p, dir, 1)
    } else {
        match box_of(grid, behind(dir, c)) {
            Some(b) => pressed(grid, p, dir, b) || pressed(grid, p, dir, right_of(b)),
            None => false,
        }
    }
}

/// Whether `c` is a half of a wide box that is pushed when the robot at
/// `p` steps up or down.
pub open spec fn carried(grid: GridView<Cell>, p: Point, dir: Dir, c: Point) -> bool {
    match box_of(grid, c) {
        Some(b) => pressed(grid, p, dir, b) || pressed(grid, p, dir, right_of(b)),
        None => false,
    }
}

/// Whether nothing can be pushed into `c`: it is neither empty nor a half
/// of a wide box, or it lies outside the grid.
pub open spec fn blocks(grid: GridView<Cell>, c: Point) -> bool {
    !is_free(grid, c) && box_of(grid, c).is_none()
}

/// Whether the robot at `p` cannot step up or down, because it, or a box
/// that it would push, pushes into a cell that gives no way.
pub open spec fn stuck(grid: GridView<Cell>, p: Point, dir: Dir) -> bool {
    exists|c: Point| pressed(grid, p, dir, c) && blocks(grid, c)
}

/// What the cell `q` holds after every pushed box has moved one step.
pub open spec fn lifted_cell(grid: GridView<Cell>, p: Point, dir: Dir, q: Point) -> Cell {
    if carried(grid, p, dir, behind(dir, q)) {
        grid.cell(behind(dir, q))
    } else if carried(grid, p, dir, q) {
        Cell::Empty
    } else {
        grid.cell(q)
    }
}

/// The warehouse after every box that the robot at `p` pushes with a step
/// up or down has moved one step.
pub open spec fn lifted(grid: GridView<Cell>, p: Point, dir: Dir) -> GridView<Cell> {
    GridView {
        width: grid.width,
        height: grid.height,
        cells: Seq::new(grid.cells.len(), |i: int| lifted_cell(grid, p, dir, grid.point_at(i))),
    }
}

/// The warehouse of wide boxes and the robot's place after the robot at `p`
/// has tried a step in the direction `dir`.
pub open spec fn spec_wide_move(grid: GridView<Cell>, p: Point, dir: Dir) -> (
    GridView<Cell>,
    Point,
) {
    match dir {
        Dir::Left | Dir::Right => match gap(grid, p, dir) {
            Some(k) => (slid(grid, p, dir, k), ahead(p, dir, 1)),
            None => (grid, p),
        },
        Dir::Up | Dir::Down => if stuck(grid, p, dir) {
            (grid, p)
        } else {
            (lifted(grid, p, dir), ahead(p, dir, 1))
        },
    }
}

/// What is pushed into lies ahead of the robot and in a column of the grid.
proof fn lemma_pressed_inside(grid: GridView<Cell>, p: Point, dir: Dir, c: Point)
    requires
        grid.wf(),
        grid.in_bounds(p),
        pressed(grid, p, dir, c),
    ensures
        level(p, dir, c) >= 1,
        0 <= c.x < grid.width,
        dir == Dir::Up || dir == Dir::Down,
{
    if level(p, dir, c) > 1 {
        let u = behind(dir, c);
        assert(u.x == c.x);
        let b = box_of(grid, u).unwrap();
        if b != u {
            assert(grid.in_bounds(left_of(u)));
            assert(grid.in_bounds(right_of(left_of(u))));
            assert(right_of(left_of(u)) == u);
        }
    }
}

/// Where nothing is pushed into a row, nothing is pushed into the rows
/// behind it.
proof fn lemma_none_beyond(grid: GridView<Cell>, p: Point, dir: Dir, from: int, c: Point)
    requires
        grid.wf(),
        grid.in_bounds(p),
        from >= 1,
        forall|d: Point| level(p, dir, d) == from ==> !pressed(grid, p, dir, d),
        level(p, dir, c) >= from,
    ensures
        !pressed(grid, p, dir, c),
    decreases level(p, dir, c),
{
    if level(p, dir, c) > from && pressed(grid, p, dir, c) {
        let b = box_of(grid, behind(dir, c)).unwrap();
        lemma_none_beyond(grid, p, dir, from, b);
        lemma_none_beyond(grid, p, dir, from, right_of(b));
    }
}

/// Where the left half stands of the wide box that the cell at `c` is a
/// half of, if it is a half of one.
fn box_at(grid: &Grid<Cell>, c: Point) -> (found: Option<Point>)
    requires
        grid.wf(),
        grid@.in_bounds(c),
    ensures
        found == box_of(grid@, c),
{
    match *grid.get_unchecked(c) {
        Cell::BlockLeft => {
            match grid.get_copied(c.right()) {
                Some(Cell::BlockRight) => Some(c),
                _ => None,
            }
        },
        Cell::BlockRight => {
            let left = c.left();
            match grid.get_copied(left) {
                Some(Cell::BlockLeft) => Some(left),
                _ => None,
            }
        },
        _ => None,
    }
}

/// The cell in column `x` of the row that lies `l` steps from `p` in the
/// direction `dir`.
spec fn row_cell(p: Point, dir: Dir, l: int, x: int) -> Point {
    Point { x: x as isize, y: ahead(p, dir, l).y }
}

/// Whether `rows` says for each of the rows ahead of `p`, nearest first,
/// into which of its cells something is pushed.
spec fn shows_pressed(rows: Seq<Vec<bool>>, grid: GridView<Cell>, p: Point, dir: Dir) -> bool {
    &&& forall|l: int| 0 <= l < rows.len() ==> (#[trigger] rows[l])@.len() == grid.width
    &&& forall|l: int, x: int|
        0 <= l < rows.len() && 0 <= x < grid.width ==> #[trigger] rows[l]@[x] == pressed(
            grid,
            p,
            dir,
            row_cell(p, dir, l + 1, x),
        )
}

/// The marks say which cells are halves of pushed boxes: those in a row
/// ahead of the robot that is marked in the next row.
proof fn lemma_carried(rows: Seq<Vec<bool>>, grid: GridView<Cell>, p: Point, dir: Dir, q: Point)
    requires
        grid.wf(),
        grid.in_bounds(p),
        dir == Dir::Up || dir == Dir::Down,
        0 <= q.x < grid.width,
        grid.in_bounds(q) || level(p, dir, q) < 1,
        1 <= rows.len(),
        shows_pressed(rows, grid, p, dir),
        forall|c: Point| level(p, dir, c) >= rows.len() ==> !pressed(grid, p, dir, c),
    ensures
        carried(grid, p, dir, q) == (1 <= level(p, dir, q) < rows.len() && rows[level(
            p,
            dir,
            q,
        )]@[q.x as int]),
        carried(grid, p, dir, q) ==> grid.in_bounds(q),
{
    let l = level(p, dir, q);
    let beyond = ahead(q, dir, 1);
    assert(behind(dir, beyond) == q);
    assert(level(p, dir, beyond) == l + 1);
    match box_of(grid, q) {
        Some(b) => {
            if pressed(grid, p, dir, b) {
                lemma_pressed_inside(grid, p, dir, b);
            }
            if pressed(grid, p, dir, right_of(b)) {
                lemma_pressed_inside(grid, p, dir, right_of(b));
            }
        },
        None => {},
    }
    if 1 <= l < rows.len() {
        assert(beyond == row_cell(p, dir, l + 1, q.x as int));
        assert(rows[l]@[q.x as int] == pressed(grid, p, dir, beyond));
        assert(pressed(grid, p, dir, beyond) == carried(grid, p, dir, q));
    }
}

/// Whether the cell at `c` gives no way to what is pushed into it.
fn gives_no_way(grid: &Grid<Cell>, c: Point) -> (fixed: bool)
    requires
        grid.wf(),
        grid@.in_bounds(c),
    ensures
        fixed == blocks(grid@, c),
{
    match *grid.get_unchecked(c) {
        Cell::Empty => false,
        _ => box_at(grid, c).is_none(),
    }
}

/// Whether `rows` marks the cell in column `x` of the row `l` steps ahead
/// as a half of a pushed box.
fn is_marked(rows: &Vec<Vec<bool>>, l: isize, x: usize) -> (marked: bool)
    requires
        forall|i: int| 0 <= i < rows@.len() ==> x < (#[trigger] rows@[i])@.len(),
    ensures
        marked == (1 <= l < rows@.len() && rows@[l as int]@[x as int]),
{
    l >= 1 && (l as usize) < rows.len() && rows[l as usize][x]
}

/// Lets the robot try a step up or down. Every wide box in its way moves
/// with it, and pushes the boxes in its own way. Nothing moves if one of
/// them pushes into a wall, into a cell that is neither empty nor a half of
/// a wide box, or out of the grid.
fn lift(dir: Dir, player: &mut Point, grid: &mut Grid<Cell>)
    requires
        dir == Dir::Up || dir == Dir::Down,
        old(grid).wf(),
        old(grid)@.in_bounds(*old(player)),
    ensures
        final(grid).wf(),
        final(grid)@.in_bounds(*final(player)),
        (final(grid)@, *final(player)) == spec_wide_move(old(grid)@, *old(player), dir),
{
    let ghost before = grid@;
    let p = *player;
    let target = dir.step_from(p);
    if !grid.is_in_bounds(target) {
        proof {
            assert(pressed(before, p, dir, target) && blocks(before, target));
        }
        return ;
    }
    let width = grid.width;
    let mut first: Vec<bool> = Vec::new();
    let mut x: usize = 0;
    while x < width
        invariant
            before.wf(),
            before.in_bounds(p),
            dir == Dir::Up || dir == Dir::Down,
            width == before.width,
            x <= width,
            first@.len() == x,
            forall|i: int|
                0 <= i < x ==> #[trigger] first@[i] == pressed(
                    before,
                    p,
                    dir,
                    row_cell(p, dir, 1, i),
                ),
        decreases width - x,
    {
        first.push(x as isize == p.x);
        x += 1;
    }
    let mut rows: Vec<Vec<bool>> = Vec::new();
    rows.push(first);
    let mut at = target;
    let mut done = false;
    while !done
        invariant
            grid.wf(),
            grid@ == before,
            before == old(grid)@,
            p == *old(player),
            before.in_bounds(p),
            dir == Dir::Up || dir == Dir::Down,
            width == before.width,
            *player == p,
            target == ahead(p, dir, 1),
            1 <= rows@.len() <= before.height + 1,
            shows_pressed(rows@, before, p, dir),
            forall|c: Point|
                pressed(before, p, dir, c) && level(p, dir, c) < rows@.len() ==> !blocks(before, c),
            !done ==> before.in_bounds(at) && lies_ahead(p, dir, rows@.len() as int, at),
            done ==> forall|i: int|
                0 <= i < width ==> !(#[trigger] rows@[rows@.len() - 1]@[i]),
            done ==> forall|c: Point|
                pressed(before, p, dir, c) && level(p, dir, c) == rows@.len() - 1 ==> !blocks(
                    before,
                    c,
                ),
        decreases before.height + 2 - rows@.len() - if done { 1int } else { 0int },
    {
        let ghost depth = rows@.len() as int;
        let last = rows.len() - 1;
        let mut x: usize = 0;
        while x < width
            invariant
                grid.wf(),
                grid@ == before,
                before == old(grid)@,
                p == *old(player),
                *player == p,
                before.in_bounds(p),
                dir == Dir::Up || dir == Dir::Down,
                width == before.width,
                depth == rows@.len(),
                last == depth - 1,
                1 <= depth,
                shows_pressed(rows@, before, p, dir),
                before.in_bounds(at),
                lies_ahead(p, dir, depth, at),
                x <= width,
                forall|i: int|
                    0 <= i < x && pressed(before, p, dir, row_cell(p, dir, depth, i)) ==> !blocks(
                        before,
                        #[trigger] row_cell(p, dir, depth, i),
                    ),
            decreases width - x,
        {
            let c = Point::new(x as isize, at.y);
            proof {
                assert(c == row_cell(p, dir, depth, x as int));
                assert(rows@[last as int]@[x as int] == pressed(before, p, dir, c));
            }
            if rows[last][x] && gives_no_way(grid, c) {
                return ;
            }
            x += 1;
        }
        proof {
            assert forall|c: Point|
                pressed(before, p, dir, c) && level(p, dir, c) == depth implies !blocks(
                before,
                c,
            ) by {
                lemma_pressed_inside(before, p, dir, c);
                assert(c == row_cell(p, dir, depth, c.x as int));
            }
        }
        let mut next: Vec<bool> = Vec::new();
        let mut found: Option<usize> = None;
        let mut x: usize = 0;
        while x < width
            invariant
                grid.wf(),
                grid@ == before,
                before.in_bounds(p),
                dir == Dir::Up || dir == Dir::Down,
                width == before.width,
                depth == rows@.len(),
                last == depth - 1,
                1 <= depth,
                shows_pressed(rows@, before, p, dir),
                before.in_bounds(at),
                lies_ahead(p, dir, depth, at),
                x <= width,
                next@.len() == x,
                forall|i: int|
                    0 <= i < x ==> #[trigger] next@[i] == pressed(
                        before,
                        p,
                        dir,
                        row_cell(p, dir, depth + 1, i),
                    ),
                match found {
                    Some(i) => i < x && next@[i as int],
                    None => forall|i: int| 0 <= i < x ==> !(#[trigger] next@[i]),
                },
            decreases width - x,
        {
            let c = Point::new(x as isize, at.y);
            let moved = match box_at(grid, c) {
                Some(b) => {
                    proof {
                        assert(b == row_cell(p, dir, depth, b.x as int));
                        assert(right_of(b) == row_cell(p, dir, depth, b.x + 1));
                        assert(rows@[last as int]@[b.x as int] == pressed(before, p, dir, b));
                        assert(rows@[last as int]@[b.x + 1] == pressed(
                            before,
                            p,
                            dir,
                            right_of(b),
                        ));
                    }
                    rows[last][b.x as usize] || rows[last][b.x as usize + 1]
                },
                None => false,
            };
            proof {
                let beyond = row_cell(p, dir, depth + 1, x as int);
                assert(behind(dir, beyond) == c);
                assert(level(p, dir, beyond) == depth + 1);
                assert(moved == pressed(before, p, dir, beyond));
            }
            if moved {
                found = Some(x);
            }
            next.push(moved);
            x += 1;
        }
        let onward = dir.step_from(at);
        match found {
            None => {
                rows.push(next);
                done = true;
            },
            Some(i) => {
                if !grid.is_in_bounds(onward) {
                    proof {
                        let c = row_cell(p, dir, depth + 1, i as int);
                        assert(c.y == onward.y);
                        assert(pressed(before, p, dir, c) && blocks(before, c));
                    }
                    return ;
                }
                rows.push(next);
                at = onward;
            },
        }
    }
    proof {
        let depth = rows@.len() as int;
        assert forall|c: Point| level(p, dir, c) >= depth implies !pressed(before, p, dir, c) by {
            assert forall|d: Point| level(p, dir, d) == depth implies !pressed(
                before,
                p,
                dir,
                d,
            ) by {
                if pressed(before, p, dir, d) {
                    lemma_pressed_inside(before, p, dir, d);
                    assert(d == row_cell(p, dir, depth, d.x as int));
                    assert(rows@[depth - 1]@[d.x as int]);
                }
            }
            lemma_none_beyond(before, p, dir, depth, c);
        }
        assert(!stuck(before, p, dir));
    }
    let mut inner: Vec<Cell> = Vec::new();
    let mut i: usize = 0;
    while i < grid.inner.len()
        invariant
            grid.wf(),
            grid@ == before,
            before.in_bounds(p),
            dir == Dir::Up || dir == Dir::Down,
            width == before.width,
            1 <= rows@.len() <= before.height + 1,
            shows_pressed(rows@, before, p, dir),
            forall|c: Point| level(p, dir, c) >= rows@.len() ==> !pressed(before, p, dir, c),
            i <= grid.inner@.len(),
            inner@.len() == i,
            forall|j: int|
                0 <= j < i ==> #[trigger] inner@[j] == lifted_cell(
                    before,
                    p,
                    dir,
                    before.point_at(j),
                ),
        decreases grid.inner@.len() - i,
    {
        let q = grid.point_of(i);
        let from = match dir {
            Dir::Up => q.down(),
            _ => q.up(),
        };
        let l: isize = match dir {
            Dir::Up => p.y - q.y,
            _ => q.y - p.y,
        };
        proof {
            assert(from == behind(dir, q));
            assert(l == level(p, dir, q));
            lemma_carried(rows@, before, p, dir, q);
            lemma_carried(rows@, before, p, dir, from);
        }
        let cell = if is_marked(&rows, l - 1, q.x as usize) {
            *grid.get_unchecked(from)
        } else if is_marked(&rows, l, q.x as usize) {
            Cell::Empty
        } else {
            grid.inner[i]
        };
        inner.push(cell);
        i += 1;
    }
    proof {
        assert(inner@ =~= lifted(before, p, dir).cells);
    }
    grid.inner = inner;
    *player = target;
}

/// Lets the robot try a step in the direction `dir` in a warehouse of wide
/// boxes, pushing the boxes in its way.
pub fn try_wide_move(dir: Dir, player: &mut Point, grid: &mut Grid<Cell>)
    requires
        old(grid).wf(),
        old(grid)@.in_bounds(*old(player)),
    ensures
        final(grid).wf(),
        final(grid)@.in_bounds(*final(player)),
        (final(grid)@, *final(player)) == spec_wide_move(old(grid)@, *old(player), dir),
{
    match dir {
        Dir::Left | Dir::Right => slide(dir, player, grid),
        Dir::Up | Dir::Down => lift(dir, player, grid),
    }
}

/// The warehouse of wide boxes and the robot's place after the first `n`
/// of the moves.
pub open spec fn after_wide_moves(grid: GridView<Cell>, p: Point, moves: Seq<Dir>, n: int) -> (
    GridView<Cell>,
    Point,
)
    decreases n,
{
    if n <= 0 {
        (grid, p)
    } else {
        let before = after_wide_moves(grid, p, moves, n - 1);
        spec_wide_move(before.0, before.1, moves[n - 1])
    }
}

/// Where the robot stands in the warehouse made twice as wide.
pub open spec fn wide_place(p: Point) -> Point {
    Point { x: (2 * p.x) as isize, y: p.y }
}

/// Makes the warehouse twice as wide, lets the robot try every move in
/// turn, and adds up where the left halves of the boxes stand in the end.
pub fn q2(input: &Input) -> (total: usize)
    requires
        input.wf(),
        is_narrow(input.grid@),
        2 * input.grid@.width <= isize::MAX,
        2 * input.grid@.area() <= usize::MAX,
        score_fits(spec_expand(input.grid@)),
    ensures
        total == spec_score(
            after_wide_moves(
                spec_expand(input.grid@),
                wide_place(input.player),
                input.instructions@,
                input.instructions@.len() as int,
            ).0,
            Cell::BlockLeft,
        ),
{
    let narrow = input.grid.clone();
    proof {
        assert(narrow.inner@ =~= input.grid.inner@);
        assert(narrow@ == input.grid@);
    }
    let mut grid = expand(narrow);
    let mut player = Point::new(input.player.x * 2, input.player.y);
    let mut i: usize = 0;
    while i < input.instructions.len()
        invariant
            i <= input.instructions@.len(),
            grid.wf(),
            grid@.in_bounds(player),
            grid@.width == 2 * input.grid@.width,
            grid@.height == input.grid@.height,
            (grid@, player) == after_wide_moves(
                spec_expand(input.grid@),
                wide_place(input.player),
                input.instructions@,
                i as int,
            ),
        decreases input.instructions@.len() - i,
    {
        try_wide_move(input.instructions[i], &mut player, &mut grid);
        i += 1;
    }
    score(&grid, Cell::BlockLeft)
}

} // verus!
