//! A guard patrols a lab: she walks straight ahead and turns right in front
//! of an obstacle. Either she walks off the map or she is caught in a loop.
use crate::dir::Dir;
use crate::fx::index_set_insert;
use crate::grid::{Grid, GridView};
use crate::point::Point;
use fxhash::FxHashSet;
use vstd::prelude::*;
use vstd::string::StringSliceAdditionalSpecFns;
use crate::text::{find_last, is_text_grid, parse_grid, text_cell};
use vstd::set_lib::{lemma_int_range, lemma_len_subset, lemma_map_size};

verus! {

/// Where the guard stands and which way she faces.
#[derive(Clone, Copy, Debug, PartialEq, Eq, Structural, Hash)]
pub struct Guard {
    pub position: Point,
    pub direction: Dir,
}

/// How a patrol ended.
#[derive(Clone, Copy, Debug, PartialEq, Eq, Structural)]
pub struct Patrol {
    /// Whether the guard came back to a state she had been in before.
    pub looped: bool,
    /// The number of moves (a turn or a step forward) until the guard left
    /// the map or repeated a state.
    pub steps: usize,
    /// The number of different cells the guard stood on.
    pub visited: usize,
}

impl Guard {
    /// Whether the guard is on the map.
    pub open spec fn inside(self, lab: GridView<bool>) -> bool {
        lab.in_bounds(self.position)
    }

    /// Whether the cell in front of the guard is an obstacle. The edge of the
    /// map is no obstacle.
    pub open spec fn spec_is_facing_obstacle(self, lab: GridView<bool>) -> bool {
        let in_front = self.direction.spec_step_from(self.position);
        lab.in_bounds(in_front) && lab.cell(in_front)
    }

    /// One move: a quarter turn to the right in front of an obstacle, a step
    /// forward otherwise.
    pub open spec fn spec_next(self, lab: GridView<bool>) -> Guard {
        if self.spec_is_facing_obstacle(lab) {
            Guard { position: self.position, direction: self.direction.spec_to_right() }
        } else {
            Guard {
                position: self.direction.spec_step_from(self.position),
                direction: self.direction,
            }
        }
    }

    /// The guard after `n` moves.
    pub open spec fn after(self, lab: GridView<bool>, n: nat) -> Guard
        decreases n,
    {
        if n == 0 {
            self
        } else {
            self.after(lab, (n - 1) as nat).spec_next(lab)
        }
    }

    /// The number that stands for the guard's state.
    pub open spec fn id(self, lab: GridView<bool>) -> int {
        lab.state_index(self.position, self.direction)
    }

    /// Whether an obstacle stands in the cell right in front of the guard.
    pub fn is_facing_obstacle(&self, grid: &Grid<bool>) -> (blocked: bool)
        requires
            grid.wf(),
            self.inside(grid@),
        ensures
            blocked == self.spec_is_facing_obstacle(grid@),
    {
        let in_front = self.direction.step_from(self.position);
        match grid.get_copied(in_front) {
            Some(obstacle) => obstacle,
            None => false,
        }
    }

    /// Makes one move.
    pub fn next(self, grid: &Grid<bool>) -> (moved: Guard)
        requires
            grid.wf(),
            self.inside(grid@),
        ensures
            moved == self.spec_next(grid@),
    {
        if self.is_facing_obstacle(grid) {
            Guard { position: self.position, direction: self.direction.to_right() }
        } else {
            Guard { position: self.direction.step_from(self.position), direction: self.direction }
        }
    }
}

/// The guard never leaves the map.
pub open spec fn stays_inside(lab: GridView<bool>, guard: Guard) -> bool {
    forall|n: nat| (#[trigger] guard.after(lab, n)).inside(lab)
}

/// The guard is on the map after each of the first `n` moves, and at the
/// start.
pub open spec fn inside_through(lab: GridView<bool>, guard: Guard, n: nat) -> bool {
    forall|k: nat| k <= n ==> (#[trigger] guard.after(lab, k)).inside(lab)
}

/// The first `n` states of the patrol are on the map and differ from each
/// other.
pub open spec fn fresh_until(lab: GridView<bool>, guard: Guard, n: nat) -> bool {
    &&& forall|k: nat| k < n ==> (#[trigger] guard.after(lab, k)).inside(lab)
    &&& forall|j: nat, k: nat|
        j < k < n ==> #[trigger] guard.after(lab, j) != #[trigger] guard.after(lab, k)
}

/// After `n` moves the patrol is decided: the guard is off the map, or in a
/// state she was in before.
pub open spec fn settled_at(lab: GridView<bool>, guard: Guard, n: nat) -> bool {
    ||| !guard.after(lab, n).inside(lab)
    ||| exists|j: nat| j < n && #[trigger] guard.after(lab, j) == guard.after(lab, n)
}

/// The cells on which the guard stands before she leaves the map.
pub open spec fn visited_cells(lab: GridView<bool>, guard: Guard) -> Set<Point> {
    Set::new(
        |p: Point|
            exists|n: nat|
                inside_through(lab, guard, n) && (#[trigger] guard.after(lab, n)).position == p,
    )
}

/// Whether a new obstacle at `p` would catch the guard in a loop: `p` is a
/// free cell other than the one the guard starts on, and with an obstacle
/// there she never leaves the map.
pub open spec fn is_obstruction(lab: GridView<bool>, guard: Guard, p: Point) -> bool {
    &&& lab.in_bounds(p)
    &&& p != guard.position
    &&& !lab.cell(p)
    &&& stays_inside(lab.with_cell(p, true), guard)
}

/// The cells where a new obstacle would catch the guard in a loop.
pub open spec fn obstructions(lab: GridView<bool>, guard: Guard) -> Set<Point> {
    Set::new(|p: Point| is_obstruction(lab, guard, p))
}

/// The numbers of the first `n` states of the patrol.
pub open spec fn seen_states(lab: GridView<bool>, guard: Guard, n: nat) -> Set<int>
    decreases n,
{
    if n == 0 {
        Set::empty()
    } else {
        seen_states(lab, guard, (n - 1) as nat).insert(guard.after(lab, (n - 1) as nat).id(lab))
    }
}

/// The indices of the cells of the first `n` states of the patrol.
pub open spec fn seen_cells(lab: GridView<bool>, guard: Guard, n: nat) -> Set<int>
    decreases n,
{
    if n == 0 {
        Set::empty()
    } else {
        seen_cells(lab, guard, (n - 1) as nat).insert(
            lab.index_of(guard.after(lab, (n - 1) as nat).position),
        )
    }
}

/// Moving `a` times and then `b` times is moving `a + b` times.
pub proof fn lemma_after_add(lab: GridView<bool>, guard: Guard, a: nat, b: nat)
    ensures
        guard.after(lab, a + b) == guard.after(lab, a).after(lab, b),
    decreases b,
{
    if b > 0 {
        lemma_after_add(lab, guard, a, (b - 1) as nat);
        assert((a + b - 1) as nat == a + (b - 1) as nat);
    }
}

/// Once a state repeats, every later state is one of those between the two
/// occurrences.
pub proof fn lemma_cycle(lab: GridView<bool>, guard: Guard, i: nat, j: nat, k: nat)
    requires
        i < j,
        guard.after(lab, i) == guard.after(lab, j),
    ensures
        exists|m: nat| m < j && #[trigger] guard.after(lab, m) == guard.after(lab, k),
    decreases k,
{
    if k < j {
        assert(guard.after(lab, k) == guard.after(lab, k));
    } else {
        let r = (k - j) as nat;
        lemma_after_add(lab, guard, j, r);
        lemma_after_add(lab, guard, i, r);
        assert(guard.after(lab, k) == guard.after(lab, i + r));
        lemma_cycle(lab, guard, i, j, i + r);
    }
}

/// What the numbers of the first `n` states are, and how many.
pub proof fn lemma_seen_states(lab: GridView<bool>, guard: Guard, n: nat)
    requires
        lab.wf(),
        fresh_until(lab, guard, n),
    ensures
        seen_states(lab, guard, n).finite(),
        seen_states(lab, guard, n).len() == n,
        forall|i: int|
            seen_states(lab, guard, n).contains(i) <==> exists|k: nat|
                k < n && (#[trigger] guard.after(lab, k)).id(lab) == i,
        forall|i: int| seen_states(lab, guard, n).contains(i) ==> 0 <= i < 4 * lab.area(),
        n <= 4 * lab.area(),
    decreases n,
{
    if n > 0 {
        let m = (n - 1) as nat;
        let last = guard.after(lab, m);
        lemma_seen_states(lab, guard, m);
        let before = seen_states(lab, guard, m);
        assert(last.inside(lab));
        lab.lemma_state_index(last.position, last.direction, last.position, last.direction);
        if before.contains(last.id(lab)) {
            let k = choose|k: nat| k < m && (#[trigger] guard.after(lab, k)).id(lab) == last.id(lab);
            let early = guard.after(lab, k);
            assert(early.inside(lab));
            lab.lemma_state_index(early.position, early.direction, last.position, last.direction);
            assert(early == last);
            assert(false);
        }
        assert forall|i: int| seen_states(lab, guard, n).contains(i) implies exists|k: nat|
            k < n && (#[trigger] guard.after(lab, k)).id(lab) == i by {
            if i == last.id(lab) {
                assert(m < n && guard.after(lab, m).id(lab) == i);
            } else {
                let k = choose|k: nat| k < m && (#[trigger] guard.after(lab, k)).id(lab) == i;
                assert(k < n && guard.after(lab, k).id(lab) == i);
            }
        }
        assert forall|i: int|
            (exists|k: nat| k < n && (#[trigger] guard.after(lab, k)).id(lab) == i)
            implies seen_states(lab, guard, n).contains(i) by {
            let k = choose|k: nat| k < n && (#[trigger] guard.after(lab, k)).id(lab) == i;
            if k < m {
                assert(before.contains(i));
            }
        }
    }
    let all = vstd::set_lib::set_int_range(0, (4 * lab.area()) as int);
    lemma_int_range(0, (4 * lab.area()) as int);
    assert(seen_states(lab, guard, n).subset_of(all));
    lemma_len_subset(seen_states(lab, guard, n), all);
}

/// What the indices of the cells of the first `n` states are.
pub proof fn lemma_seen_cells(lab: GridView<bool>, guard: Guard, n: nat)
    ensures
        seen_cells(lab, guard, n).finite(),
        forall|i: int|
            seen_cells(lab, guard, n).contains(i) <==> exists|k: nat|
                k < n && lab.index_of((#[trigger] guard.after(lab, k)).position) == i,
    decreases n,
{
    if n > 0 {
        let m = (n - 1) as nat;
        lemma_seen_cells(lab, guard, m);
        let last = lab.index_of(guard.after(lab, m).position);
        assert forall|i: int| seen_cells(lab, guard, n).contains(i) implies exists|k: nat|
            k < n && lab.index_of((#[trigger] guard.after(lab, k)).position) == i by {
            if i == last {
                assert(m < n && lab.index_of(guard.after(lab, m).position) == i);
            } else {
                let k = choose|k: nat|
                    k < m && lab.index_of((#[trigger] guard.after(lab, k)).position) == i;
                assert(k < n && lab.index_of(guard.after(lab, k).position) == i);
            }
        }
        assert forall|i: int|
            (exists|k: nat| k < n && lab.index_of((#[trigger] guard.after(lab, k)).position) == i)
            implies seen_cells(lab, guard, n).contains(i) by {
            let k = choose|k: nat|
                k < n && lab.index_of((#[trigger] guard.after(lab, k)).position) == i;
            if k < m {
                assert(seen_cells(lab, guard, m).contains(i));
            }
        }
    }
}

/// When the patrol is decided after `n` moves and not before, the cells the
/// guard visits are those of her first `n` states.
pub proof fn lemma_visited_cells(lab: GridView<bool>, guard: Guard, n: nat)
    requires
        lab.wf(),
        fresh_until(lab, guard, n),
        settled_at(lab, guard, n),
    ensures
        visited_cells(lab, guard).finite(),
        visited_cells(lab, guard).len() == seen_cells(lab, guard, n).len(),
{
    let cells = seen_cells(lab, guard, n);
    let to_point = |i: int| lab.point_at(i);
    lemma_seen_cells(lab, guard, n);
    assert forall|i: int| cells.contains(i) implies 0 <= i < lab.area() && lab.index_of(
        to_point(i),
    ) == i by {
        let k = choose|k: nat| k < n && lab.index_of((#[trigger] guard.after(lab, k)).position) == i;
        assert(guard.after(lab, k).inside(lab));
        lab.lemma_point_index(guard.after(lab, k).position);
    }
    assert(vstd::relations::injective_on(to_point, cells));
    assert forall|p: Point| visited_cells(lab, guard).contains(p) implies cells.map(
        to_point,
    ).contains(p) by {
        let m = choose|m: nat|
            inside_through(lab, guard, m) && (#[trigger] guard.after(lab, m)).position == p;
        let k: nat = if guard.after(lab, n).inside(lab) {
            let j = choose|j: nat| j < n && #[trigger] guard.after(lab, j) == guard.after(lab, n);
            lemma_cycle(lab, guard, j, n, m);
            choose|k: nat| k < n && #[trigger] guard.after(lab, k) == guard.after(lab, m)
        } else {
            assert(guard.after(lab, m).inside(lab));
            if m >= n {
                assert(guard.after(lab, n).inside(lab));
            }
            m
        };
        assert(k < n && guard.after(lab, k).position == p);
        assert(guard.after(lab, k).inside(lab));
        lab.lemma_point_index(p);
        assert(cells.contains(lab.index_of(p)));
        assert(to_point(lab.index_of(p)) == p);
    }
    assert forall|p: Point| cells.map(to_point).contains(p) implies visited_cells(
        lab,
        guard,
    ).contains(p) by {
        let i = choose|i: int| cells.contains(i) && p == to_point(i);
        let k = choose|k: nat| k < n && lab.index_of((#[trigger] guard.after(lab, k)).position) == i;
        assert(guard.after(lab, k).inside(lab));
        lab.lemma_point_index(guard.after(lab, k).position);
        assert(inside_through(lab, guard, k)) by {
            assert forall|j: nat| j <= k implies (#[trigger] guard.after(lab, j)).inside(lab) by {}
        }
        assert(guard.after(lab, k).position == p);
    }
    assert(cells.map(to_point) =~= visited_cells(lab, guard));
    lemma_map_size(cells, visited_cells(lab, guard), to_point);
}

/// A patrol is decided after at most as many moves as there are states: four
/// for each cell of the map.
pub proof fn lemma_patrol_settles(lab: GridView<bool>, guard: Guard)
    requires
        lab.wf(),
    ensures
        exists|n: nat| n <= 4 * lab.area() && #[trigger] settled_at(lab, guard, n),
{
    lemma_settles_by(lab, guard, 4 * lab.area());
    if fresh_until(lab, guard, 4 * lab.area() + 1) {
        lemma_seen_states(lab, guard, 4 * lab.area() + 1);
    }
}

/// Within `n` moves the patrol is decided, or its first `n + 1` states are
/// on the map and differ from each other.
proof fn lemma_settles_by(lab: GridView<bool>, guard: Guard, n: nat)
    ensures
        fresh_until(lab, guard, n + 1) || exists|m: nat|
            m <= n && #[trigger] settled_at(lab, guard, m),
    decreases n,
{
    if n > 0 {
        lemma_settles_by(lab, guard, (n - 1) as nat);
    }
    if fresh_until(lab, guard, n) && !settled_at(lab, guard, n) {
        assert(fresh_until(lab, guard, n + 1));
    } else if fresh_until(lab, guard, n) {
        assert(n <= n && settled_at(lab, guard, n));
    } else {
        let m = choose|m: nat| m <= n - 1 && #[trigger] settled_at(lab, guard, m);
        assert(m <= n && settled_at(lab, guard, m));
    }
}

/// Walks the guard until she leaves the map or repeats a state.
pub fn patrol(grid: &Grid<bool>, guard: Guard) -> (out: Patrol)
    requires
        grid.wf(),
        4 * grid@.area() <= usize::MAX,
    ensures
        out.steps <= 4 * grid@.area(),
        fresh_until(grid@, guard, out.steps as nat),
        settled_at(grid@, guard, out.steps as nat),
        out.looped == guard.after(grid@, out.steps as nat).inside(grid@),
        out.looped == stays_inside(grid@, guard),
        out.visited == visited_cells(grid@, guard).len(),
{
    let ghost lab = grid@;
    let mut states: FxHashSet<usize> = FxHashSet::default();
    let mut cells: FxHashSet<usize> = FxHashSet::default();
    let mut cur = guard;
    let mut steps: usize = 0;
    let mut visited: usize = 0;
    loop
        invariant
            lab == grid@,
            grid.wf(),
            4 * lab.area() <= usize::MAX,
            cur == guard.after(lab, steps as nat),
            fresh_until(lab, guard, steps as nat),
            forall|i: usize| states@.contains(i) <==> seen_states(lab, guard, steps as nat).contains(i as int),
            forall|i: usize| cells@.contains(i) <==> seen_cells(lab, guard, steps as nat).contains(i as int),
            visited == seen_cells(lab, guard, steps as nat).len(),
            visited <= steps <= 4 * lab.area(),
        decreases 4 * lab.area() - steps,
    {
        if !grid.is_in_bounds(cur.position) {
            proof {
                lemma_visited_cells(lab, guard, steps as nat);
            }
            return Patrol { looped: false, steps, visited };
        }
        let id = grid.state_offset(cur.position, cur.direction);
        let fresh = index_set_insert(&mut states, id);
        proof {
            lemma_seen_states(lab, guard, steps as nat);
        }
        if !fresh {
            proof {
                let j = choose|j: nat| j < steps && (#[trigger] guard.after(lab, j)).id(lab) == id;
                let early = guard.after(lab, j);
                assert(early.inside(lab));
                lab.lemma_state_index(early.position, early.direction, cur.position, cur.direction);
                assert(guard.after(lab, j) == guard.after(lab, steps as nat));
                assert forall|n: nat| (#[trigger] guard.after(lab, n)).inside(lab) by {
                    lemma_cycle(lab, guard, j, steps as nat, n);
                    let m = choose|m: nat| m < steps && #[trigger] guard.after(lab, m) == guard.after(lab, n);
                    assert(guard.after(lab, m).inside(lab));
                }
                lemma_visited_cells(lab, guard, steps as nat);
            }
            return Patrol { looped: true, steps, visited };
        }
        proof {
            assert(fresh_until(lab, guard, (steps + 1) as nat)) by {
                assert forall|j: nat, k: nat| j < k < steps + 1 implies #[trigger] guard.after(lab, j)
                    != #[trigger] guard.after(lab, k) by {
                    if k == steps && guard.after(lab, j) == guard.after(lab, k) {
                        assert(guard.after(lab, j).id(lab) == id);
                        assert(seen_states(lab, guard, steps as nat).contains(id as int));
                    }
                }
            }
            lemma_seen_states(lab, guard, (steps + 1) as nat);
            lemma_seen_cells(lab, guard, steps as nat);
            lab.lemma_point_index(cur.position);
        }
        let cell = grid.offset(cur.position);
        if index_set_insert(&mut cells, cell) {
            visited += 1;
        }
        cur = cur.next(grid);
        steps += 1;
    }
}

/// Given this grid, does the guard get stuck in a loop?
pub fn loops(grid: &Grid<bool>, guard: Guard) -> (looping: bool)
    requires
        grid.wf(),
        4 * grid@.area() <= usize::MAX,
    ensures
        looping == stays_inside(grid@, guard),
{
    patrol(grid, guard).looped
}

/// The byte that marks an obstacle in the text of a map.
pub const OBSTACLE: u8 = 35;

/// The byte that marks the guard in the text of a map.
pub const GUARD: u8 = 94;

/// Whether `lab` and `guard` are what the map written in `text` shows: an
/// obstacle for each `#`, and the guard facing up where the last `^` stands.
pub open spec fn lab_of_text(text: Seq<u8>, lab: GridView<bool>, guard: Guard) -> bool {
    &&& lab.wf()
    &&& is_text_grid(text, lab.width, lab.height)
    &&& forall|p: Point|
        lab.in_bounds(p) ==> #[trigger] lab.cell(p) == (text_cell(text, lab.width, p) == OBSTACLE)
    &&& guard.direction == Dir::Up
    &&& lab.in_bounds(guard.position)
    &&& text_cell(text, lab.width, guard.position) == GUARD
    &&& forall|p: Point|
        lab.in_bounds(p) && #[trigger] text_cell(text, lab.width, p) == GUARD ==> lab.index_of(p)
            <= lab.index_of(guard.position)
}

/// Parse the puzzle input. The result is `None` when the text is no map or
/// shows no guard.
pub fn parse(input: &str) -> (parsed: Option<(Grid<bool>, Guard)>)
    ensures
        match parsed {
            Some((grid, guard)) => lab_of_text(input.spec_bytes(), grid@, guard),
            None => forall|lab: GridView<bool>, guard: Guard|
                !lab_of_text(input.spec_bytes(), lab, guard),
        },
{
    let ghost text = input.spec_bytes();
    let raw = match parse_grid(input.as_bytes()) {
        Some(raw) => raw,
        None => {
            return None;
        },
    };
    let position = match find_last(&raw, GUARD) {
        Some(position) => position,
        None => {
            proof {
                assert forall|lab: GridView<bool>, guard: Guard| !lab_of_text(text, lab, guard) by {
                    if lab_of_text(text, lab, guard) {
                        crate::text::lemma_text_grid_unique(
                            text,
                            lab.width,
                            lab.height,
                            raw@.width,
                            raw@.height,
                        );
                        assert(raw@.cell(guard.position) == GUARD);
                    }
                }
            }
            return None;
        },
    };
    let n = raw.inner.len();
    let mut inner: Vec<bool> = Vec::with_capacity(n);
    let mut i: usize = 0;
    while i < n
        invariant
            n == raw.inner@.len(),
            i <= n,
            inner@.len() == i,
            forall|j: int| 0 <= j < i ==> #[trigger] inner@[j] == (raw.inner@[j] == OBSTACLE),
        decreases n - i,
    {
        inner.push(raw.inner[i] == OBSTACLE);
        i += 1;
    }
    let grid = Grid { width: raw.width, height: raw.height, inner };
    let guard = Guard { position, direction: Dir::Up };
    proof {
        assert forall|p: Point| grid@.in_bounds(p) implies #[trigger] grid@.cell(p) == (text_cell(
            text,
            grid@.width,
            p,
        ) == OBSTACLE) by {
            raw@.lemma_point_index(p);
            assert(raw@.cell(p) == text_cell(text, raw@.width, p));
        }
        assert forall|p: Point|
            grid@.in_bounds(p) && #[trigger] text_cell(text, grid@.width, p)
                == GUARD implies grid@.index_of(p) <= grid@.index_of(guard.position) by {
            assert(raw@.cell(p) == GUARD);
        }
        assert(raw@.cell(position) == text_cell(text, raw@.width, position));
    }
    Some((grid, guard))
}

/// The number of cells the guard stands on before she leaves the map, or,
/// if she never leaves, the number of cells she ever stands on.
pub fn q1(input: &(Grid<bool>, Guard)) -> (count: usize)
    requires
        input.0.wf(),
        4 * input.0@.area() <= usize::MAX,
    ensures
        count == visited_cells(input.0@, input.1).len(),
{
    patrol(&input.0, input.1).visited
}

/// Checks if placing an obstacle at the given (x,y) point will
/// cause the given guard to get stuck in a loop on the given grid.
pub fn guard_loops_at(x: usize, y: usize, grid: &mut Grid<bool>, guard: &Guard) -> (is_loop: bool)
    requires
        old(grid).wf(),
        4 * old(grid)@.area() <= usize::MAX,
        x < old(grid).width,
        y < old(grid).height,
    ensures
        final(grid)@ == old(grid)@,
        is_loop == is_obstruction(old(grid)@, *guard, Point { x: x as isize, y: y as isize }),
{
    let p = Point::from_indices(x, y);
    let ghost lab = grid@;
    // Early termination checks
    if guard.position == p || *grid.get_unchecked(p) {
        return false;
    }
    proof {
        lab.lemma_with_cell(p, true, p);
        lab.lemma_point_index(p);
    }
    // Place the obstacle in the grid.
    grid.set(p, true);
    // Check if guard loops.
    let is_loop = loops(grid, *guard);
    // Reset the grid.
    grid.set(p, false);
    proof {
        assert(grid@.cells =~= lab.cells);
    }
    is_loop
}

/// The number of cells where a new obstacle would catch the guard in a loop.
pub fn q2(input: &(Grid<bool>, Guard)) -> (count: usize)
    requires
        input.0.wf(),
        4 * input.0@.area() <= usize::MAX,
    ensures
        count == obstructions(input.0@, input.1).len(),
{
    let grid = &input.0;
    let guard = &input.1;
    let ghost lab = grid@;
    let mut new_grid = grid.clone();
    proof {
        assert(new_grid@.cells =~= lab.cells);
    }
    let ghost mut found: Set<Point> = Set::empty();
    let mut count: usize = 0;
    let mut x: usize = 0;
    while x < grid.width
        invariant
            lab == grid@,
            new_grid@ == lab,
            lab.wf(),
            4 * lab.area() <= usize::MAX,
            x <= grid.width,
            found.finite(),
            count == found.len(),
            count <= x * grid.height,
            forall|p: Point| found.contains(p) <==> is_obstruction(lab, *guard, p) && p.x < x,
        decreases grid.width - x,
    {
        let mut y: usize = 0;
        while y < grid.height
            invariant
                lab == grid@,
                new_grid@ == lab,
                lab.wf(),
                4 * lab.area() <= usize::MAX,
                x < grid.width,
                y <= grid.height,
                found.finite(),
                count == found.len(),
                count <= x * grid.height + y,
                forall|p: Point|
                    found.contains(p) <==> is_obstruction(lab, *guard, p) && (p.x < x || (p.x == x
                        && p.y < y)),
            decreases grid.height - y,
        {
            proof {
                assert((x + 1) * grid.height <= grid.width * grid.height) by (nonlinear_arith)
                    requires
                        x + 1 <= grid.width,
                ;
                assert((x + 1) * grid.height == x * grid.height + grid.height) by (nonlinear_arith);
            }
            if guard_loops_at(x, y, &mut new_grid, guard) {
                count += 1;
                proof {
                    found = found.insert(Point { x: x as isize, y: y as isize });
                }
            }
            y += 1;
        }
        proof {
            assert((x + 1) * grid.height == x * grid.height + grid.height) by (nonlinear_arith);
        }
        x += 1;
    }
    proof {
        assert(found =~= obstructions(lab, *guard));
    }
    count
}

} // verus!
