//! A race track through a maze, and the shortcuts that cut across its walls.
use crate::dir::Dir;
use crate::fx::{index_map_get, index_map_insert};
use crate::grid::{Grid, GridView};
use crate::point::Point;
use crate::text::{find_last, is_text_grid, parse_grid, text_cell};
use fxhash::FxHashMap;
use vstd::prelude::*;
use vstd::string::StringSliceAdditionalSpecFns;

verus! {

/// The absolute value of `v`.
pub open spec fn magnitude(v: int) -> nat {
    if v < 0 {
        (-v) as nat
    } else {
        v as nat
    }
}

/// The number of steps between `p` and `q` when only moves along the axes
/// are allowed.
pub open spec fn manhattan(p: Point, q: Point) -> nat {
    magnitude(p.x - q.x) + magnitude(p.y - q.y)
}

/// The number of steps between two cells when walls let the racer through.
pub fn dist_btwn(p: Point, q: Point) -> (d: usize)
    requires
        isize::MIN < p.x - q.x <= isize::MAX,
        isize::MIN < p.y - q.y <= isize::MAX,
        manhattan(p, q) <= isize::MAX,
    ensures
        d == manhattan(p, q),
{
    let dx = p.x - q.x;
    let dy = p.y - q.y;
    let ax = if dx < 0 { -dx } else { dx };
    let ay = if dy < 0 { -dy } else { dy };
    let d = ax + ay;
    d as usize
}

/// The distance is the same in both directions, and zero only from a point
/// to itself.
pub proof fn lemma_manhattan(p: Point, q: Point)
    ensures
        manhattan(p, q) == manhattan(q, p),
        manhattan(p, q) == 0 <==> p == q,
        p.adjacent(q) <==> manhattan(p, q) == 1,
{
}

/// What a cell of the racetrack holds.
#[derive(Clone, Copy, Debug, PartialEq, Eq, Structural)]
pub enum Cell {
    Empty,
    Wall,
}

/// A maze and the track through it, from its start to its end.
pub struct Input {
    pub path: Vec<Point>,
    pub grid: Grid<Cell>,
}

/// Whether each cell of `path` lies next to the one before it.
pub open spec fn is_track(path: Seq<Point>) -> bool {
    forall|i: int| 0 <= i < path.len() - 1 ==> (#[trigger] path[i]).adjacent(path[i + 1])
}

/// Whether driving from cell `i` of the track straight to cell `j` is a
/// cheat of at most `max` steps: it crosses more than one step and no more
/// than `max`.
pub open spec fn is_cheat(path: Seq<Point>, i: int, j: int, max: nat) -> bool {
    &&& 0 <= i < j < path.len()
    &&& 1 < manhattan(path[i], path[j]) <= max
}

/// The steps that the cheat from cell `i` to cell `j` saves: the steps
/// along the track less the steps of the cheat.
pub open spec fn saving(path: Seq<Point>, i: int, j: int) -> int {
    (j - i) - manhattan(path[i], path[j])
}

/// The number of cheats that start at cell `i`, end at one of the cells
/// before cell `m`, and save `delta` steps.
pub open spec fn row_count(path: Seq<Point>, max: nat, delta: int, i: int, m: int) -> nat
    decreases m,
{
    if m <= 0 {
        0
    } else {
        row_count(path, max, delta, i, m - 1) + if is_cheat(path, i, m - 1, max) && saving(
            path,
            i,
            m - 1,
        ) == delta {
            1nat
        } else {
            0nat
        }
    }
}

/// The number of cheats that start at one of the cells before cell `n` and
/// save `delta` steps.
pub open spec fn cheat_count(path: Seq<Point>, max: nat, delta: int, n: int) -> nat
    decreases n,
{
    if n <= 0 {
        0
    } else {
        cheat_count(path, max, delta, n - 1) + row_count(
            path,
            max,
            delta,
            n - 1,
            path.len() as int,
        )
    }
}

/// The number of cheats that save at least `least` and less than `upto`
/// steps.
pub open spec fn over_count(path: Seq<Point>, max: nat, least: int, upto: int) -> nat
    decreases upto - least,
{
    if upto <= least {
        0
    } else {
        over_count(path, max, least, upto - 1) + cheat_count(
            path,
            max,
            upto - 1,
            path.len() as int,
        )
    }
}

/// The more savings are counted, the more cheats there are.
proof fn lemma_over_count_grows(path: Seq<Point>, max: nat, least: int, upto: int, more: int)
    requires
        upto <= more,
    ensures
        over_count(path, max, least, upto) <= over_count(path, max, least, more),
    decreases more - upto,
{
    if upto < more {
        lemma_over_count_grows(path, max, least, upto, more - 1);
    }
}

/// Two cells of a track are no more steps apart than the track takes from
/// one to the other.
pub proof fn lemma_track_distance(path: Seq<Point>, i: int, j: int)
    requires
        is_track(path),
        0 <= i <= j < path.len(),
    ensures
        manhattan(path[i], path[j]) <= j - i,
    decreases j - i,
{
    if i < j {
        lemma_track_distance(path, i, j - 1);
        assert(path[j - 1].adjacent(path[j - 1 + 1]));
    }
}

/// One cell of the track starts at most one cheat to each cell.
proof fn lemma_row_count_bound(path: Seq<Point>, max: nat, delta: int, i: int, m: int)
    requires
        0 <= m,
    ensures
        row_count(path, max, delta, i, m) <= m,
    decreases m,
{
    if m > 0 {
        lemma_row_count_bound(path, max, delta, i, m - 1);
    }
}

/// The first `n` cells of the track start at most `n` cheats to each cell.
proof fn lemma_cheat_count_bound(path: Seq<Point>, max: nat, delta: int, n: int)
    requires
        0 <= n,
    ensures
        cheat_count(path, max, delta, n) <= n * path.len(),
    decreases n,
{
    if n > 0 {
        lemma_cheat_count_bound(path, max, delta, n - 1);
        lemma_row_count_bound(path, max, delta, n - 1, path.len() as int);
        assert((n - 1) * path.len() + path.len() == n * path.len()) by (nonlinear_arith);
    } else {
        assert(0 * path.len() == 0);
    }
}

impl Input {
    /// The track lies in the maze, each of its cells next to the one before,
    /// and the maze is small enough for every count to fit.
    pub open spec fn wf(&self) -> bool {
        &&& self.grid.wf()
        &&& self.grid@.width + self.grid@.height <= isize::MAX
        &&& self.path@.len() >= 1
        &&& self.path@.len() * self.path@.len() <= usize::MAX
        &&& is_track(self.path@)
        &&& forall|i: int| 0 <= i < self.path@.len() ==> self.grid@.in_bounds(#[trigger] self.path@[i])
    }

    /// The number of steps from the start of the track to its end.
    pub fn baseline_speed(&self) -> (steps: usize)
        requires
            self.path@.len() >= 1,
        ensures
            steps == self.path@.len() - 1,
    {
        self.path.len() - 1
    }
}

/// Whether `saves` counts the cheats that start before cell `i`, and those
/// that start at cell `i` and end before cell `j`.
pub open spec fn counts_cheats(
    saves: Map<usize, usize>,
    path: Seq<Point>,
    max: nat,
    i: int,
    j: int,
) -> bool {
    &&& forall|delta: usize|
        saves.contains_key(delta) <==> #[trigger] cheat_count(path, max, delta as int, i)
            + row_count(path, max, delta as int, i, j) > 0
    &&& forall|delta: usize|
        saves.contains_key(delta) ==> saves[delta] == #[trigger] cheat_count(
            path,
            max,
            delta as int,
            i,
        ) + row_count(path, max, delta as int, i, j)
}

/// Maps number of picoseconds saved to number of cheats which save that much time.
pub fn each_cheat_saves(input: &Input, max_cheat_secs: usize) -> (saves: FxHashMap<usize, usize>)
    requires
        input.wf(),
    ensures
        counts_cheats(saves@, input.path@, max_cheat_secs as nat, input.path@.len() as int, 0),
{
    let ghost path = input.path@;
    let ghost max = max_cheat_secs as nat;
    let n = input.path.len();
    let mut saves: FxHashMap<usize, usize> = FxHashMap::default();
    let mut i: usize = 0;
    while i < n
        invariant
            input.wf(),
            path == input.path@,
            max == max_cheat_secs,
            n == path.len(),
            i <= n,
            counts_cheats(saves@, path, max, i as int, 0),
        decreases n - i,
    {
        let p = input.path[i];
        let mut j: usize = 0;
        while j < n
            invariant
                input.wf(),
                path == input.path@,
                max == max_cheat_secs,
                n == path.len(),
                i < n,
                j <= n,
                p == path[i as int],
                counts_cheats(saves@, path, max, i as int, j as int),
            decreases n - j,
        {
            let ghost had = saves@;
            if i < j {
                let q = input.path[j];
                proof {
                    assert(input.grid@.in_bounds(path[i as int]));
                    assert(input.grid@.in_bounds(path[j as int]));
                    lemma_track_distance(path, i as int, j as int);
                }
                let dist = dist_btwn(p, q);
                if !(dist > max_cheat_secs || dist <= 1) {
                    let delta = (j - i) - dist;
                    let count: usize = match index_map_get(&saves, delta) {
                        Some(count) => *count,
                        None => 0,
                    };
                    proof {
                        lemma_cheat_count_bound(path, max, delta as int, i as int);
                        lemma_row_count_bound(path, max, delta as int, i as int, j as int);
                        assert(i * n + j < n * n) by (nonlinear_arith)
                            requires
                                i < n,
                                j < n,
                        ;
                        assert(count == cheat_count(path, max, delta as int, i as int) + row_count(
                            path,
                            max,
                            delta as int,
                            i as int,
                            j as int,
                        ));
                    }
                    index_map_insert(&mut saves, delta, count + 1);
                }
            }
            proof {
                let next = j as int + 1;
                assert forall|delta: usize|
                    (saves@.contains_key(delta) <==> #[trigger] cheat_count(
                        path,
                        max,
                        delta as int,
                        i as int,
                    ) + row_count(path, max, delta as int, i as int, next) > 0) && (
                    saves@.contains_key(delta) ==> saves@[delta] == cheat_count(
                        path,
                        max,
                        delta as int,
                        i as int,
                    ) + row_count(path, max, delta as int, i as int, next)) by {
                    assert(had.contains_key(delta) <==> cheat_count(path, max, delta as int, i as int)
                        + row_count(path, max, delta as int, i as int, j as int) > 0);
                    if had.contains_key(delta) {
                        assert(had[delta] == cheat_count(path, max, delta as int, i as int)
                            + row_count(path, max, delta as int, i as int, j as int));
                    }
                }
                assert(counts_cheats(saves@, path, max, i as int, next));
            }
            j += 1;
        }
        proof {
            let next = i as int + 1;
            assert forall|delta: usize|
                (saves@.contains_key(delta) <==> #[trigger] cheat_count(
                    path,
                    max,
                    delta as int,
                    next,
                ) + row_count(path, max, delta as int, next, 0) > 0) && (saves@.contains_key(delta)
                    ==> saves@[delta] == cheat_count(path, max, delta as int, next) + row_count(
                    path,
                    max,
                    delta as int,
                    next,
                    0,
                )) by {
                assert(saves@.contains_key(delta) <==> cheat_count(path, max, delta as int, i as int)
                    + row_count(path, max, delta as int, i as int, n as int) > 0);
                if saves@.contains_key(delta) {
                    assert(saves@[delta] == cheat_count(path, max, delta as int, i as int)
                        + row_count(path, max, delta as int, i as int, n as int));
                }
            }
            assert(counts_cheats(saves@, path, max, next, 0));
        }
        i += 1;
    }
    saves
}

/// The number of cheats of at most `max_cheat_secs` steps that save at
/// least `save_at_least` steps, or `None` when the number does not fit.
pub fn cheats_over(save_at_least: usize, input: &Input, max_cheat_secs: usize) -> (total: Option<
    usize,
>)
    requires
        input.wf(),
    ensures
        match total {
            Some(count) => count == over_count(
                input.path@,
                max_cheat_secs as nat,
                save_at_least as int,
                input.path@.len() as int,
            ),
            None => over_count(
                input.path@,
                max_cheat_secs as nat,
                save_at_least as int,
                input.path@.len() as int,
            ) > usize::MAX,
        },
{
    let ghost path = input.path@;
    let ghost max = max_cheat_secs as nat;
    let saves = each_cheat_saves(input, max_cheat_secs);
    let n = input.path.len();
    let mut total: usize = 0;
    let mut delta = save_at_least;
    if save_at_least >= n {
        return Some(0);
    }
    while delta < n
        invariant
            path == input.path@,
            max == max_cheat_secs,
            n == path.len(),
            save_at_least <= delta <= n,
            counts_cheats(saves@, path, max, n as int, 0),
            total == over_count(path, max, save_at_least as int, delta as int),
        decreases n - delta,
    {
        let freq: usize = match index_map_get(&saves, delta) {
            Some(freq) => *freq,
            None => 0,
        };
        proof {
            assert(freq == cheat_count(path, max, delta as int, n as int) + row_count(
                path,
                max,
                delta as int,
                n as int,
                0,
            ));
        }
        total = match total.checked_add(freq) {
            Some(sum) => sum,
            None => {
                proof {
                    lemma_over_count_grows(path, max, save_at_least as int, delta + 1, n as int);
                }
                return None;
            },
        };
        delta += 1;
    }
    Some(total)
}

/// The number of cheats of at most two steps that save at least a hundred.
pub fn q1(input: &Input) -> (total: Option<usize>)
    requires
        input.wf(),
    ensures
        match total {
            Some(count) => count == over_count(input.path@, 2, 100, input.path@.len() as int),
            None => over_count(input.path@, 2, 100, input.path@.len() as int) > usize::MAX,
        },
{
    cheats_over(100, input, 2)
}

/// The number of cheats of at most twenty steps that save at least a
/// hundred.
pub fn q2(input: &Input) -> (total: Option<usize>)
    requires
        input.wf(),
    ensures
        match total {
            Some(count) => count == over_count(input.path@, 20, 100, input.path@.len() as int),
            None => over_count(input.path@, 20, 100, input.path@.len() as int) > usize::MAX,
        },
{
    cheats_over(100, input, 20)
}

/// The byte that marks a wall in the text of a maze.
pub const WALL_MARK: u8 = 35;

/// The byte that marks the start in the text of a maze.
pub const START_MARK: u8 = 83;

/// The byte that marks the end in the text of a maze.
pub const END_MARK: u8 = 69;

/// Whether `byte` may stand in the text of a maze.
pub open spec fn is_mark(byte: u8) -> bool {
    byte == WALL_MARK || byte == 46 || byte == START_MARK || byte == END_MARK
}

/// Whether the cell at `p` can be driven on.
pub open spec fn passable(maze: GridView<Cell>, p: Point) -> bool {
    maze.in_bounds(p) && maze.cell(p) == Cell::Empty
}

/// The cell to drive to from `cur`: among the first `k` of its four
/// neighbours, the last that can be driven on and is not in `seen`.
pub open spec fn candidate(maze: GridView<Cell>, seen: Seq<Point>, cur: Point, k: int) -> Option<
    Point,
>
    decreases k,
{
    if k <= 0 {
        None
    } else {
        let q = Dir::spec_all()[k - 1].spec_step_from(cur);
        if passable(maze, q) && !seen.contains(q) {
            Some(q)
        } else {
            candidate(maze, seen, cur, k - 1)
        }
    }
}

/// The track that goes on from `path` for `steps` steps at most: from the
/// last cell to a neighbour that has not been driven on, as long as there is
/// one.
pub open spec fn track_from(maze: GridView<Cell>, path: Seq<Point>, steps: nat) -> Seq<Point>
    decreases steps,
{
    if steps == 0 {
        path
    } else {
        match candidate(maze, path, path.last(), 4) {
            Some(q) => track_from(maze, path.push(q), (steps - 1) as nat),
            None => path,
        }
    }
}

impl Input {
    /// Whether `self` is the maze that `text` shows, with the track through
    /// it: a wall for each `#`, and the track from the last `S` to the last
    /// `E`.
    pub open spec fn shows(&self, text: Seq<u8>) -> bool {
        let maze = self.grid@;
        let start = self.path@[0];
        let end = self.path@.last();
        &&& self.wf()
        &&& is_text_grid(text, maze.width, maze.height)
        &&& forall|p: Point|
            maze.in_bounds(p) ==> is_mark(#[trigger] text_cell(text, maze.width, p)) && (maze.cell(
                p,
            ) == Cell::Wall <==> text_cell(text, maze.width, p) == WALL_MARK)
        &&& text_cell(text, maze.width, start) == START_MARK
        &&& forall|p: Point|
            maze.in_bounds(p) && #[trigger] text_cell(text, maze.width, p) == START_MARK
                ==> maze.index_of(p) <= maze.index_of(start)
        &&& text_cell(text, maze.width, end) == END_MARK
        &&& forall|p: Point|
            maze.in_bounds(p) && #[trigger] text_cell(text, maze.width, p) == END_MARK
                ==> maze.index_of(p) <= maze.index_of(end)
        &&& self.path@ == track_from(maze, seq![start], maze.area())
    }
}

/// Follows the track from `start` until it ends.
pub fn follow_track(grid: &Grid<Cell>, start: Point) -> (path: Vec<Point>)
    requires
        grid.wf(),
        grid@.in_bounds(start),
    ensures
        path@ == track_from(grid@, seq![start], grid@.area()),
        path@.len() >= 1,
        path@[0] == start,
        is_track(path@),
        forall|i: int| 0 <= i < path@.len() ==> grid@.in_bounds(#[trigger] path@[i]),
        path@.len() <= grid@.area() + 1,
{
    let ghost maze = grid@;
    let area = grid.inner.len();
    let dirs = Dir::all();
    let mut seen: Grid<bool> = Grid::new(grid.width, grid.height, false);
    let mut path: Vec<Point> = Vec::new();
    path.push(start);
    seen.set(start, true);
    let mut steps: usize = area;
    proof {
        assert(path@ =~= seq![start]);
        assert forall|p: Point| maze.in_bounds(p) implies #[trigger] seen@.cell(p) == path@.contains(
            p,
        ) by {
            if p == start {
                assert(path@[0] == p);
            }
            seen@.lemma_point_index(p);
            seen@.lemma_point_index(start);
            if p != start && seen@.index_of(p) == seen@.index_of(start) {
                seen@.lemma_index_injective(p, start);
            }
        }
    }
    let mut cur = start;
    let mut stuck = false;
    while steps > 0 && !stuck
        invariant
            grid.wf(),
            maze == grid@,
            area == maze.area(),
            stuck ==> candidate(maze, path@, path@.last(), 4).is_none(),
            dirs@ == Dir::spec_all(),
            seen.wf(),
            seen@.width == maze.width,
            seen@.height == maze.height,
            steps <= area,
            path@.len() >= 1,
            path@.len() + steps <= area + 1,
            path@[0] == start,
            cur == path@.last(),
            is_track(path@),
            forall|i: int| 0 <= i < path@.len() ==> maze.in_bounds(#[trigger] path@[i]),
            forall|p: Point| maze.in_bounds(p) ==> #[trigger] seen@.cell(p) == path@.contains(p),
            track_from(maze, path@, steps as nat) == track_from(maze, seq![start], maze.area()),
        decreases steps + (if stuck {
            0int
        } else {
            1int
        }),
    {
        let mut next: Option<Point> = None;
        let mut k: usize = 0;
        while k < 4
            invariant
                grid.wf(),
                maze == grid@,
                dirs@ == Dir::spec_all(),
                seen.wf(),
                seen@.width == maze.width,
                seen@.height == maze.height,
                maze.in_bounds(cur),
                k <= 4,
                next == candidate(maze, path@, cur, k as int),
                next matches Some(q) ==> maze.in_bounds(q) && cur.adjacent(q) && !path@.contains(q),
                forall|p: Point|
                    maze.in_bounds(p) ==> #[trigger] seen@.cell(p) == path@.contains(p),
            decreases 4 - k,
        {
            let q = dirs[k].step_from(cur);
            let free = match grid.get(q) {
                Some(cell) => *cell == Cell::Empty,
                None => false,
            };
            if free && !*seen.get_unchecked(q) {
                next = Some(q);
            }
            k += 1;
        }
        if next.is_none() {
            stuck = true;
        } else {
        let q = next.unwrap();
        let ghost had = path@;
        let ghost marks = seen@;
        path.push(q);
        seen.set(q, true);
        proof {
            assert forall|i: int| 0 <= i < path@.len() - 1 implies (#[trigger] path@[i]).adjacent(
                path@[i + 1],
            ) by {
                if i < had.len() - 1 {
                    assert(had[i].adjacent(had[i + 1]));
                }
            }
            assert forall|p: Point| maze.in_bounds(p) implies #[trigger] seen@.cell(p)
                == path@.contains(p) by {
                marks.lemma_with_cell(q, true, p);
                if had.contains(p) {
                    let i = choose|i: int| 0 <= i < had.len() && had[i] == p;
                    assert(path@[i] == p);
                }
                if path@.contains(p) && p != q {
                    let i = choose|i: int| 0 <= i < path@.len() && path@[i] == p;
                    assert(had[i] == p);
                }
                if p == q {
                    assert(path@[had.len() as int] == q);
                }
            }
        }
        cur = q;
        steps -= 1;
        }
    }
    path
}

/// Reads a maze and finds the track through it. The result is `None` when
/// the text shows no maze with a track from its start to its end.
pub fn parse(input: &str) -> (parsed: Option<Input>)
    ensures
        match parsed {
            Some(race) => race.shows(input.spec_bytes()),
            None => forall|race: Input| !race.shows(input.spec_bytes()),
        },
{
    let ghost text = input.spec_bytes();
    // First, parse 2D grid.
    let raw = match parse_grid(input.as_bytes()) {
        Some(raw) => raw,
        None => {
            return None;
        },
    };
    proof {
        assert forall|race: Input| race.shows(text) implies race.grid@.width == raw@.width
            && race.grid@.height == raw@.height by {
            crate::text::lemma_text_grid_unique(
                text,
                race.grid@.width,
                race.grid@.height,
                raw@.width,
                raw@.height,
            );
        }
    }
    let n = raw.inner.len();
    let start = match find_last(&raw, START_MARK) {
        Some(start) => start,
        None => {
            proof {
                assert forall|race: Input| !race.shows(text) by {
                    if race.shows(text) {
                        assert(race.grid@.in_bounds(race.path@[0]));
                        assert(raw@.cell(race.path@[0]) == text_cell(
                            text,
                            raw@.width,
                            race.path@[0],
                        ));
                    }
                }
            }
            return None;
        },
    };
    let end = match find_last(&raw, END_MARK) {
        Some(end) => end,
        None => {
            proof {
                assert forall|race: Input| !race.shows(text) by {
                    if race.shows(text) {
                        let last = race.path@.last();
                        assert(race.grid@.in_bounds(race.path@[race.path@.len() - 1]));
                        assert(raw@.cell(last) == text_cell(text, raw@.width, last));
                    }
                }
            }
            return None;
        },
    };
    let mut inner: Vec<Cell> = Vec::with_capacity(n);
    let mut i: usize = 0;
    while i < n
        invariant
            raw.wf(),
            text == input.spec_bytes(),
            n == raw.inner@.len(),
            i <= n,
            inner@.len() == i,
            forall|j: int|
                0 <= j < i ==> is_mark(raw.inner@[j]) && (#[trigger] inner@[j] == Cell::Wall
                    <==> raw.inner@[j] == WALL_MARK),
            forall|race: Input|
                race.shows(text) ==> race.grid@.width == raw@.width && race.grid@.height
                    == raw@.height,
            forall|p: Point| raw@.in_bounds(p) ==> raw@.cell(p) == text_cell(text, raw@.width, p),
        decreases n - i,
    {
        let byte = raw.inner[i];
        let cell = if byte == WALL_MARK {
            Cell::Wall
        } else if byte == 46 || byte == START_MARK || byte == END_MARK {
            Cell::Empty
        } else {
            proof {
                raw@.lemma_index_point(i as int);
                let p = raw@.point_at(i as int);
                assert(raw@.cell(p) == byte);
                assert(text_cell(text, raw@.width, p) == byte);
                assert forall|race: Input| !race.shows(text) by {
                    if race.shows(text) {
                        assert(race.grid@.in_bounds(p));
                        assert(is_mark(text_cell(text, race.grid@.width, p)));
                    }
                }
            }
            return None;
        };
        inner.push(cell);
        i += 1;
    }
    let grid = Grid { width: raw.width, height: raw.height, inner };
    let ghost maze = grid@;
    proof {
        assert forall|p: Point| maze.in_bounds(p) implies is_mark(
            #[trigger] text_cell(text, maze.width, p),
        ) && (maze.cell(p) == Cell::Wall <==> text_cell(text, maze.width, p) == WALL_MARK) by {
            raw@.lemma_point_index(p);
            assert(raw@.cell(p) == text_cell(text, raw@.width, p));
            let k = raw@.index_of(p);
            assert(grid.inner@[k] == Cell::Wall <==> raw.inner@[k] == WALL_MARK);
        }
        assert(raw@.cell(start) == text_cell(text, raw@.width, start));
        assert(raw@.cell(end) == text_cell(text, raw@.width, end));
    }
    // Find the singular path through the grid.
    let path = follow_track(&grid, start);
    let fits = match path.len().checked_mul(path.len()) {
        Some(_) => raw.width <= isize::MAX as usize - raw.height,
        None => false,
    };
    let last = path[path.len() - 1];
    proof {
        // Any maze that the text shows is this maze, with this track.
        assert forall|race: Input| race.shows(text) implies race.grid@ == maze && race.path@
            == path@ by {
            assert(race.grid@.cells =~= maze.cells) by {
                assert forall|k: int| 0 <= k < maze.cells.len() implies race.grid@.cells[k]
                    == maze.cells[k] by {
                    maze.lemma_index_point(k);
                    let p = maze.point_at(k);
                    assert(is_mark(text_cell(text, maze.width, p)));
                    assert(race.grid@.in_bounds(p));
                    assert(race.grid@.cell(p) == Cell::Wall <==> text_cell(text, maze.width, p)
                        == WALL_MARK);
                }
            }
            let other = race.path@[0];
            assert(race.grid@.in_bounds(race.path@[0]));
            assert(raw@.cell(other) == START_MARK);
            assert(maze.index_of(other) <= maze.index_of(start));
            assert(maze.index_of(start) <= maze.index_of(other));
            maze.lemma_index_injective(other, start);
        }
    }
    if !fits || last != end {
        proof {
            assert forall|race: Input| !race.shows(text) by {
                if race.shows(text) {
                    let other = race.path@.last();
                    assert(race.grid@.in_bounds(race.path@[race.path@.len() - 1]));
                    assert(raw@.cell(other) == END_MARK);
                    assert(raw@.cell(end) == END_MARK);
                    maze.lemma_index_injective(other, end);
                }
            }
        }
        return None;
    }
    let race = Input { path, grid };
    proof {
        assert forall|p: Point|
            maze.in_bounds(p) && #[trigger] text_cell(text, maze.width, p)
                == START_MARK implies maze.index_of(p) <= maze.index_of(start) by {
            assert(raw@.cell(p) == START_MARK);
        }
        assert forall|p: Point|
            maze.in_bounds(p) && #[trigger] text_cell(text, maze.width, p)
                == END_MARK implies maze.index_of(p) <= maze.index_of(end) by {
            assert(raw@.cell(p) == END_MARK);
        }
    }
    Some(race)
}

} // verus!
