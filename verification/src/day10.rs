//! Hiking trails on a topographic map: a trail climbs by exactly one with
//! each step and ends on a peak.
use crate::fx::{
    index_map_get, index_map_insert, index_map_remove, index_set_contains,
    index_set_insert,
};
use crate::grid::{Grid, GridView};
use crate::point::Point;
use crate::text::{is_text_grid, parse_grid, text_cell};
use fxhash::{FxHashMap, FxHashSet};
use vstd::prelude::*;
use vstd::set_lib::{lemma_int_range, lemma_len_subset, lemma_len_union, set_int_range};
use vstd::string::StringSliceAdditionalSpecFns;

verus! {

/// The height of a cell, from 0 up to [`PEAK`].
pub type Height = u8;

/// The height of a peak, where trails end.
pub const PEAK: Height = 9;

/// The height of a trailhead, where trails start.
pub const TRAILHEAD: Height = 0;

/// The height given to a cell whose character is no digit: no trail leads
/// there.
pub const IMPASSABLE: Height = 111;

/// The four neighbours of `p`, in the order above, left, right, below.
pub open spec fn spec_adjacent_to(p: Point) -> Seq<Point> {
    seq![
        Point { x: p.x, y: (p.y - 1) as isize },
        Point { x: (p.x - 1) as isize, y: p.y },
        Point { x: (p.x + 1) as isize, y: p.y },
        Point { x: p.x, y: (p.y + 1) as isize },
    ]
}

/// A step from `p` to `q` is part of a trail: the cells are neighbours and
/// `q` is higher by exactly one.
pub open spec fn climbs(map: GridView<Height>, p: Point, q: Point) -> bool {
    &&& map.in_bounds(p)
    &&& map.in_bounds(q)
    &&& p.adjacent(q)
    &&& map.cell(q) == map.cell(p) + 1
}

/// `trail` is a walk that climbs with every step.
pub open spec fn is_trail(map: GridView<Height>, trail: Seq<Point>) -> bool {
    &&& trail.len() >= 1
    &&& map.in_bounds(trail[0])
    &&& forall|i: int| 0 <= i < trail.len() - 1 ==> climbs(map, #[trigger] trail[i], trail[i + 1])
}

/// Whether the cell at `p` is a peak.
pub open spec fn is_peak(map: GridView<Height>, p: Point) -> bool {
    map.in_bounds(p) && map.cell(p) == PEAK
}

/// The neighbours of `p` to which a trail can go on, among the first `k` of
/// its four neighbours.
pub open spec fn climbing(map: GridView<Height>, p: Point, k: int) -> Seq<Point>
    decreases k,
{
    if k <= 0 {
        Seq::empty()
    } else if climbs(map, p, spec_adjacent_to(p)[k - 1]) {
        climbing(map, p, k - 1).push(spec_adjacent_to(p)[k - 1])
    } else {
        climbing(map, p, k - 1)
    }
}

/// The number of trails that start at `p` and end on a peak.
pub open spec fn trail_count(map: GridView<Height>, p: Point) -> nat
    decreases 255 - map.cell(p), 5int,
{
    if !map.in_bounds(p) {
        0
    } else if map.cell(p) == PEAK {
        1 + branch_count(map, p, 4)
    } else {
        branch_count(map, p, 4)
    }
}

/// The number of trails to a peak that start at `p` and go on to one of the
/// first `k` of its four neighbours.
pub open spec fn branch_count(map: GridView<Height>, p: Point, k: int) -> nat
    decreases 255 - map.cell(p), k,
{
    if k <= 0 || k > 4 {
        0
    } else if climbs(map, p, spec_adjacent_to(p)[k - 1]) {
        branch_count(map, p, k - 1) + trail_count(map, spec_adjacent_to(p)[k - 1])
    } else {
        branch_count(map, p, k - 1)
    }
}

/// The sum of the trail counts of the first `n` cells of `cells`.
pub open spec fn trails_from(map: GridView<Height>, cells: Seq<Point>, n: int) -> nat
    decreases n,
{
    if n <= 0 {
        0
    } else {
        trails_from(map, cells, n - 1) + trail_count(map, cells[n - 1])
    }
}

/// Four to the power `k`.
pub open spec fn pow4(k: nat) -> nat
    decreases k,
{
    if k == 0 {
        1
    } else {
        4 * pow4((k - 1) as nat)
    }
}

/// The most trails that can start at one cell.
pub const MAX_TRAILS: usize = 262144;

/// The cells that `climbing` lists are those to which a trail can go on.
pub proof fn lemma_climbing(map: GridView<Height>, p: Point, k: int)
    requires
        0 <= k <= 4,
    ensures
        climbing(map, p, k).len() <= k,
        forall|i: int|
            0 <= i < climbing(map, p, k).len() ==> climbs(map, p, #[trigger] climbing(map, p, k)[i]),
        forall|j: int|
            0 <= j < k && climbs(map, p, #[trigger] spec_adjacent_to(p)[j]) ==> climbing(
                map,
                p,
                k,
            ).contains(spec_adjacent_to(p)[j]),
        trails_from(map, climbing(map, p, k), climbing(map, p, k).len() as int) == branch_count(
            map,
            p,
            k,
        ),
    decreases k,
{
    if k > 0 {
        lemma_climbing(map, p, k - 1);
        let rest = climbing(map, p, k - 1);
        let q = spec_adjacent_to(p)[k - 1];
        if climbs(map, p, q) {
            let all = rest.push(q);
            assert(all[rest.len() as int] == q);
            assert forall|j: int|
                0 <= j < k && climbs(map, p, #[trigger] spec_adjacent_to(p)[j]) implies all.contains(
                spec_adjacent_to(p)[j],
            ) by {
                if j < k - 1 {
                    let i = choose|i: int| 0 <= i < rest.len() && rest[i] == spec_adjacent_to(p)[j];
                    assert(all[i] == spec_adjacent_to(p)[j]);
                }
            }
            lemma_trails_from_push(map, rest, q, rest.len() as int);
        }
    }
}

/// The sum over the first cells does not look at the cells behind them.
pub proof fn lemma_trails_from_push(map: GridView<Height>, cells: Seq<Point>, last: Point, n: int)
    requires
        0 <= n <= cells.len(),
    ensures
        trails_from(map, cells.push(last), n) == trails_from(map, cells, n),
    decreases n,
{
    if n > 0 {
        lemma_trails_from_push(map, cells, last, n - 1);
    }
}

/// Every cell next to `p` is one of its four neighbours.
pub proof fn lemma_adjacent_listed(p: Point, q: Point)
    requires
        p.adjacent(q),
        p.has_neighbours(),
    ensures
        exists|j: int| 0 <= j < 4 && #[trigger] spec_adjacent_to(p)[j] == q,
{
    if q.y == p.y - 1 {
        assert(spec_adjacent_to(p)[0] == q);
    } else if q.x == p.x - 1 {
        assert(spec_adjacent_to(p)[1] == q);
    } else if q.x == p.x + 1 {
        assert(spec_adjacent_to(p)[2] == q);
    } else {
        assert(spec_adjacent_to(p)[3] == q);
    }
}

/// No trail to a peak starts above the peaks, and at most four to the power
/// of the climb that is left start below.
pub proof fn lemma_trail_count_bound(map: GridView<Height>, p: Point)
    ensures
        map.in_bounds(p) && map.cell(p) > PEAK ==> trail_count(map, p) == 0,
        map.in_bounds(p) && map.cell(p) <= PEAK ==> trail_count(map, p) <= pow4(
            (PEAK - map.cell(p)) as nat,
        ),
        trail_count(map, p) <= MAX_TRAILS,
    decreases 255 - map.cell(p), 5int,
{
    if map.in_bounds(p) {
        lemma_branch_count_bound(map, p, 4);
        if map.cell(p) <= PEAK {
            lemma_pow4((PEAK - map.cell(p)) as nat);
        }
    }
}

/// The trails that go on to the first `k` neighbours are at most `k` times
/// what one neighbour allows.
pub proof fn lemma_branch_count_bound(map: GridView<Height>, p: Point, k: int)
    requires
        map.in_bounds(p),
        0 <= k <= 4,
    ensures
        map.cell(p) >= PEAK ==> branch_count(map, p, k) == 0,
        map.cell(p) < PEAK ==> branch_count(map, p, k) <= k * pow4((PEAK - 1 - map.cell(p)) as nat),
    decreases 255 - map.cell(p), k,
{
    let unit = pow4((PEAK - 1 - map.cell(p)) as nat);
    if k > 0 {
        lemma_branch_count_bound(map, p, k - 1);
        let q = spec_adjacent_to(p)[k - 1];
        assert((k - 1) * unit + unit == k * unit) by (nonlinear_arith);
        if climbs(map, p, q) {
            lemma_trail_count_bound(map, q);
        }
    } else {
        assert(0 * unit == 0);
    }
}

/// Powers of four up to the ninth.
pub proof fn lemma_pow4(k: nat)
    requires
        k <= 9,
    ensures
        1 <= pow4(k) <= MAX_TRAILS,
        k >= 1 ==> pow4(k) == 4 * pow4((k - 1) as nat),
{
    reveal_with_fuel(pow4, 10);
}

/// The four neighbours of `p`, in the order above, left, right, below.
pub fn adjacent_to(p: Point) -> (around: [Point; 4])
    requires
        p.has_neighbours(),
    ensures
        around@ == spec_adjacent_to(p),
{
    let Point { x, y } = p;
    [Point { x, y: y - 1 }, Point { x: x - 1, y }, Point { x: x + 1, y }, Point { x, y: y + 1 }]
}

/// For each cell, the neighbours to which a trail can go on from it.
pub struct Graph {
    pub edges: FxHashMap<usize, Vec<Point>>,
}

impl Graph {
    /// Whether the graph holds the steps of the trails of `map`, and nothing
    /// else: for each cell that a trail can leave, under the index of the
    /// cell, the neighbours to which a trail can go on.
    pub open spec fn describes(&self, map: GridView<Height>) -> bool {
        &&& forall|p: Point|
            map.in_bounds(p) ==> (self.edges@.contains_key(#[trigger] map.index_of(p) as usize) <==> climbing(
                map,
                p,
                4,
            ).len() > 0)
        &&& forall|p: Point|
            map.in_bounds(p) && self.edges@.contains_key(#[trigger] map.index_of(p) as usize)
                ==> self.edges@[map.index_of(p) as usize]@ == climbing(map, p, 4)
        &&& forall|key: usize| self.edges@.contains_key(key) ==> key < map.area()
    }

    /// A graph without steps.
    pub fn new() -> (graph: Graph)
        ensures
            graph.edges@.dom() == Set::<usize>::empty(),
    {
        Graph { edges: FxHashMap::default() }
    }

    /// Records a step from the cell with index `from` to the cell at `to`.
    pub fn insert_edge(&mut self, from: usize, to: Point)
        ensures
            final(self).edges@.dom() == old(self).edges@.dom().insert(from),
            final(self).edges@[from]@ == (if old(self).edges@.contains_key(from) {
                old(self).edges@[from]@
            } else {
                Seq::empty()
            }).push(to),
            forall|key: usize|
                key != from && old(self).edges@.contains_key(key) ==> final(self).edges@[key] == old(
                    self,
                ).edges@[key],
    {
        let mut targets = match index_map_remove(&mut self.edges, from) {
            Some(targets) => targets,
            None => Vec::new(),
        };
        targets.push(to);
        index_map_insert(&mut self.edges, from, targets);
        proof {
            assert(final(self).edges@.dom() =~= old(self).edges@.dom().insert(from));
        }
    }

    /// The number of trails that start at `start` and end on a peak.
    pub fn rating(&self, start: Point, grid: &Grid<Height>) -> (trails: usize)
        requires
            grid.wf(),
            self.describes(grid@),
        ensures
            trails == trail_count(grid@, start),
        decreases 255 - grid@.cell(start),
    {
        let ghost map = grid@;
        // Do a DFS and count every 9 we come across.
        let mut nines_found: usize = 0;
        let start_height = match grid.get(start) {
            Some(height) => *height,
            None => {
                return 0;
            },
        };
        if start_height == PEAK {
            nines_found += 1;
        }
        let key = grid.offset(start);
        proof {
            lemma_climbing(map, start, 4);
        }
        let neighbours = match index_map_get(&self.edges, key) {
            Some(neighbours) => neighbours,
            None => {
                return nines_found;
            },
        };
        let mut i: usize = 0;
        while i < neighbours.len()
            invariant
                grid.wf(),
                map == grid@,
                self.describes(map),
                map.in_bounds(start),
                neighbours@ == climbing(map, start, 4),
                i <= neighbours@.len(),
                nines_found == (if map.cell(start) == PEAK {
                    1nat
                } else {
                    0nat
                }) + trails_from(map, neighbours@, i as int),
                nines_found <= trail_count(map, start),
            decreases neighbours@.len() - i,
        {
            let n = neighbours[i];
            proof {
                lemma_climbing(map, start, 4);
                assert(climbs(map, start, neighbours@[i as int]));
                lemma_trail_count_bound(map, start);
                lemma_trails_from_monotonic(map, neighbours@, i as int + 1, neighbours@.len() as int);
            }
            nines_found += self.rating(n, grid);
            i += 1;
        }
        nines_found
    }
}

/// The sum over more cells is no smaller.
pub proof fn lemma_trails_from_monotonic(map: GridView<Height>, cells: Seq<Point>, a: int, b: int)
    requires
        a <= b,
    ensures
        trails_from(map, cells, a) <= trails_from(map, cells, b),
    decreases b - a,
{
    if a < b {
        lemma_trails_from_monotonic(map, cells, a, b - 1);
    }
}

/// No cell of `trail` has its index in `closed`.
pub open spec fn avoids(map: GridView<Height>, trail: Seq<Point>, closed: Set<usize>) -> bool {
    forall|i: int|
        0 <= i < trail.len() ==> !closed.contains(map.index_of(#[trigger] trail[i]) as usize)
}

/// A trail leads from `p` to `q` without touching a cell of `closed`.
pub open spec fn reaches_around(map: GridView<Height>, closed: Set<usize>, p: Point, q: Point) -> bool {
    exists|trail: Seq<Point>| #[trigger]
        is_trail(map, trail) && trail.first() == p && trail.last() == q && avoids(
            map,
            trail,
            closed,
        )
}

/// A trail leads from `p` to `q`.
pub open spec fn reaches(map: GridView<Height>, p: Point, q: Point) -> bool {
    reaches_around(map, Set::empty(), p, q)
}

/// The peaks to which a trail leads from `p` without touching a cell of
/// `closed`.
pub open spec fn peaks_around(map: GridView<Height>, closed: Set<usize>, p: Point) -> Set<Point> {
    Set::new(|q: Point| reaches_around(map, closed, p, q) && is_peak(map, q))
}

/// The peaks to which a trail leads from `p`.
pub open spec fn peaks_from(map: GridView<Height>, p: Point) -> Set<Point> {
    peaks_around(map, Set::empty(), p)
}

/// The sum of the numbers of peaks in reach of the first `n` cells of
/// `cells`.
pub open spec fn peaks_in_reach(map: GridView<Height>, cells: Seq<Point>, n: int) -> nat
    decreases n,
{
    if n <= 0 {
        0
    } else {
        peaks_in_reach(map, cells, n - 1) + peaks_from(map, cells[n - 1]).len()
    }
}

/// The indices of the cells that have not been discovered.
pub open spec fn undiscovered(discovered: Set<usize>, area: nat) -> Set<int> {
    Set::new(|i: int| 0 <= i < area && !discovered.contains(i as usize))
}

/// The cells not yet discovered are finitely many.
proof fn lemma_undiscovered_finite(discovered: Set<usize>, area: nat)
    ensures
        undiscovered(discovered, area).finite(),
        undiscovered(discovered, area).len() <= area,
{
    let all = set_int_range(0, area as int);
    lemma_int_range(0, area as int);
    assert(undiscovered(discovered, area).subset_of(all));
    lemma_len_subset(undiscovered(discovered, area), all);
}

/// Discovering one more cell leaves one cell fewer to discover.
proof fn lemma_discover_one(discovered: Set<usize>, area: nat, key: usize)
    requires
        key < area <= usize::MAX,
        !discovered.contains(key),
    ensures
        undiscovered(discovered.insert(key), area).len() + 1 == undiscovered(discovered, area).len(),
{
    lemma_undiscovered_finite(discovered, area);
    assert(undiscovered(discovered.insert(key), area) =~= undiscovered(discovered, area).remove(
        key as int,
    ));
}

/// A trail can be extended by one climbing step to a cell that is not closed.
proof fn lemma_reaches_step(map: GridView<Height>, closed: Set<usize>, p: Point, q: Point, r: Point)
    requires
        reaches_around(map, closed, p, q),
        climbs(map, q, r),
        !closed.contains(map.index_of(r) as usize),
    ensures
        reaches_around(map, closed, p, r),
{
    let trail = choose|trail: Seq<Point>| #[trigger]
        is_trail(map, trail) && trail.first() == p && trail.last() == q && avoids(
            map,
            trail,
            closed,
        );
    let longer = trail.push(r);
    assert forall|i: int| 0 <= i < longer.len() - 1 implies climbs(
        map,
        #[trigger] longer[i],
        longer[i + 1],
    ) by {
        if i < trail.len() - 1 {
            assert(climbs(map, trail[i], trail[i + 1]));
        }
    }
    assert forall|i: int| 0 <= i < longer.len() implies !closed.contains(
        map.index_of(#[trigger] longer[i]) as usize,
    ) by {
        if i < trail.len() {
            assert(longer[i] == trail[i]);
        }
    }
    assert(is_trail(map, longer) && longer.first() == p && longer.last() == r && avoids(
        map,
        longer,
        closed,
    ));
}

/// A cell that is not closed reaches itself.
proof fn lemma_reaches_self(map: GridView<Height>, closed: Set<usize>, p: Point)
    requires
        map.in_bounds(p),
        !closed.contains(map.index_of(p) as usize),
    ensures
        reaches_around(map, closed, p, p),
{
    let trail = seq![p];
    assert(is_trail(map, trail) && trail.first() == p && trail.last() == p && avoids(
        map,
        trail,
        closed,
    ));
}

/// Whether the search from `start` has come this far: `found` holds the
/// cells discovered by it, `pending` those whose steps are still to be
/// followed, and `seen` all cells discovered, those of `closed` included.
pub open spec fn searching(
    map: GridView<Height>,
    closed: Set<usize>,
    seen: Set<usize>,
    found: Set<Point>,
    pending: Seq<Point>,
    start: Point,
) -> bool {
    &&& forall|i: usize|
        seen.contains(i) <==> closed.contains(i) || (i < map.area() && found.contains(
            map.point_at(i as int),
        ))
    &&& forall|p: Point| #[trigger]
        found.contains(p) ==> {
            &&& map.in_bounds(p)
            &&& !closed.contains(map.index_of(p) as usize)
            &&& reaches_around(map, closed, start, p)
        }
    &&& found.contains(start)
    &&& forall|i: int| 0 <= i < pending.len() ==> found.contains(#[trigger] pending[i])
    &&& forall|p: Point, q: Point|
        #[trigger] climbs(map, p, q) && found.contains(p) && !pending.contains(p)
            && !closed.contains(map.index_of(q) as usize) ==> found.contains(q)
}

/// When no cell is pending, the cells found are the cells in reach.
proof fn lemma_search_done(
    map: GridView<Height>,
    closed: Set<usize>,
    seen: Set<usize>,
    found: Set<Point>,
    start: Point,
    trail: Seq<Point>,
    i: int,
)
    requires
        searching(map, closed, seen, found, Seq::empty(), start),
        is_trail(map, trail),
        trail.first() == start,
        avoids(map, trail, closed),
        0 <= i < trail.len(),
    ensures
        found.contains(trail[i]),
    decreases i,
{
    if i > 0 {
        lemma_search_done(map, closed, seen, found, start, trail, i - 1);
        assert(climbs(map, trail[i - 1], trail[i - 1 + 1]));
    }
}

/// The search discovers the cell `q`, one climbing step from the cell `p`
/// whose steps it is following.
proof fn lemma_search_discover(
    map: GridView<Height>,
    closed: Set<usize>,
    seen: Set<usize>,
    found: Set<Point>,
    open: Seq<Point>,
    p: Point,
    q: Point,
    start: Point,
)
    requires
        map.wf(),
        map.area() <= usize::MAX,
        searching(map, closed, seen, found, open.push(p), start),
        found.contains(p),
        climbs(map, p, q),
        !seen.contains(map.index_of(q) as usize),
    ensures
        !found.contains(q),
        searching(
            map,
            closed,
            seen.insert(map.index_of(q) as usize),
            found.insert(q),
            open.push(q).push(p),
            start,
        ),
{
    let there = map.index_of(q) as usize;
    let more = found.insert(q);
    let pending = open.push(q).push(p);
    map.lemma_point_index(q);
    lemma_reaches_step(map, closed, start, p, q);
    assert forall|k: usize|
        seen.insert(there).contains(k) <==> closed.contains(k) || (k < map.area() && more.contains(
            map.point_at(k as int),
        )) by {
        if k < map.area() {
            map.lemma_index_point(k as int);
        }
    }
    assert forall|k: int| 0 <= k < pending.len() implies more.contains(#[trigger] pending[k]) by {
        if k < open.len() {
            assert(pending[k] == open.push(p)[k]);
            assert(found.contains(open.push(p)[k]));
        }
    }
    assert forall|a: Point, b: Point|
        #[trigger] climbs(map, a, b) && more.contains(a) && !pending.contains(a)
            && !closed.contains(map.index_of(b) as usize) implies more.contains(b) by {
        assert(pending[open.len() as int] == q);
        if open.push(p).contains(a) {
            let m = choose|m: int| 0 <= m < open.push(p).len() && open.push(p)[m] == a;
            if m < open.len() {
                assert(pending[m] == a);
            } else {
                assert(pending[open.len() as int + 1] == a);
            }
        }
    }
}

/// The search has followed all steps from the cell `p`.
proof fn lemma_search_close(
    map: GridView<Height>,
    closed: Set<usize>,
    seen: Set<usize>,
    found: Set<Point>,
    open: Seq<Point>,
    p: Point,
    start: Point,
)
    requires
        map.wf(),
        map.in_bounds(p),
        searching(map, closed, seen, found, open.push(p), start),
        forall|j: int|
            0 <= j < climbing(map, p, 4).len() && !closed.contains(
                map.index_of(#[trigger] climbing(map, p, 4)[j]) as usize,
            ) ==> found.contains(climbing(map, p, 4)[j]),
    ensures
        searching(map, closed, seen, found, open, start),
{
    let pending = open.push(p);
    let neighbours = climbing(map, p, 4);
    assert forall|a: Point, b: Point|
        #[trigger] climbs(map, a, b) && found.contains(a) && !open.contains(a) && !closed.contains(
            map.index_of(b) as usize,
        ) implies found.contains(b) by {
        if a == p {
            lemma_adjacent_listed(p, b);
            let j = choose|j: int| 0 <= j < 4 && #[trigger] spec_adjacent_to(p)[j] == b;
            lemma_climbing(map, p, 4);
            assert(neighbours.contains(spec_adjacent_to(p)[j]));
            let m = choose|m: int| 0 <= m < neighbours.len() && neighbours[m] == b;
            assert(!closed.contains(map.index_of(neighbours[m]) as usize));
        } else {
            if pending.contains(a) {
                let m = choose|m: int| 0 <= m < pending.len() && pending[m] == a;
                assert(open[m] == a);
            }
        }
    }
    assert forall|k: int| 0 <= k < open.len() implies found.contains(#[trigger] open[k]) by {
        assert(pending[k] == open[k]);
    }
}

impl Graph {
    /// Score a trailhead: the number of peaks to which a trail leads from
    /// `start`. Cells in `discovered` are closed to the search, and the cells
    /// that the search reaches are added to it.
    pub fn score(&self, start: Point, grid: &Grid<Height>, discovered: &mut FxHashSet<usize>) -> (nines_found:
        usize)
        requires
            grid.wf(),
            self.describes(grid@),
        ensures
            nines_found == peaks_around(grid@, old(discovered)@, start).len(),
            nines_found <= grid@.area(),
            forall|i: usize|
                final(discovered)@.contains(i) <==> old(discovered)@.contains(i) || (i
                    < grid@.area() && reaches_around(
                    grid@,
                    old(discovered)@,
                    start,
                    grid@.point_at(i as int),
                )),
    {
        let ghost map = grid@;
        let ghost closed = discovered@;
        let curr_height = match grid.get(start) {
            Some(height) => *height,
            None => {
                proof {
                    assert(peaks_around(map, closed, start) =~= Set::<Point>::empty());
                }
                return 0;
            },
        };
        let start_key = grid.offset(start);
        let area = grid.inner.len();
        if index_set_contains(discovered, start_key) {
            proof {
                assert forall|q: Point| !reaches_around(map, closed, start, q) by {
                    if reaches_around(map, closed, start, q) {
                        let trail = choose|trail: Seq<Point>| #[trigger]
                            is_trail(map, trail) && trail.first() == start && trail.last() == q
                                && avoids(map, trail, closed);
                        assert(!closed.contains(map.index_of(trail[0]) as usize));
                    }
                }
                assert(peaks_around(map, closed, start) =~= Set::<Point>::empty());
            }
            return 0;
        }
        let mut nines_found: usize = 0;
        let ghost mut found: Set<Point> = Set::empty().insert(start);
        let ghost mut peaks: Set<Point> = Set::empty();
        index_set_insert(discovered, start_key);
        if curr_height == PEAK {
            nines_found += 1;
            proof {
                peaks = peaks.insert(start);
            }
        }
        let mut to_explore: Vec<Point> = Vec::new();
        to_explore.push(start);
        proof {
            map.lemma_point_index(start);
            lemma_discover_one(closed, map.area(), start_key);
            lemma_undiscovered_finite(closed, map.area());
            lemma_reaches_self(map, closed, start);
            assert(to_explore@[0] == start);
            assert forall|i: usize|
                discovered@.contains(i) <==> closed.contains(i) || (i < map.area()
                    && found.contains(map.point_at(i as int))) by {
                if i < map.area() {
                    map.lemma_index_point(i as int);
                }
            }
        }
        while to_explore.len() > 0
            invariant
                grid.wf(),
                map == grid@,
                self.describes(map),
                searching(map, closed, discovered@, found, to_explore@, start),
                map.area() <= usize::MAX,
                peaks.finite(),
                nines_found == peaks.len(),
                forall|q: Point| peaks.contains(q) <==> found.contains(q) && map.cell(q) == PEAK,
                nines_found + undiscovered(discovered@, map.area()).len() <= map.area(),
            decreases 2 * undiscovered(discovered@, map.area()).len() + to_explore@.len(),
        {
            let ghost stacked = to_explore@;
            let ghost budget = 2 * undiscovered(discovered@, map.area()).len() + to_explore@.len();
            let p = to_explore.pop().unwrap();
            proof {
                assert(found.contains(stacked[stacked.len() - 1]));
                assert(to_explore@.push(p) =~= stacked);
                lemma_climbing(map, p, 4);
                map.lemma_point_index(p);
            }
            let key = grid.offset(p);
            let empty: Vec<Point> = Vec::new();
            let neighbours = match index_map_get(&self.edges, key) {
                Some(neighbours) => neighbours,
                None => &empty,
            };
            let mut i: usize = 0;
            while i < neighbours.len()
                invariant
                    grid.wf(),
                    map == grid@,
                    self.describes(map),
                    found.contains(p),
                    neighbours@ == climbing(map, p, 4),
                    i <= neighbours@.len(),
                    searching(map, closed, discovered@, found, to_explore@.push(p), start),
                    map.area() <= usize::MAX,
                    map.in_bounds(p),
                    forall|j: int|
                        0 <= j < i && !closed.contains(
                            map.index_of(#[trigger] neighbours@[j]) as usize,
                        ) ==> found.contains(neighbours@[j]),
                    peaks.finite(),
                    nines_found == peaks.len(),
                    forall|q: Point| peaks.contains(q) <==> found.contains(q) && map.cell(q) == PEAK,
                    nines_found + undiscovered(discovered@, map.area()).len() <= map.area(),
                    2 * undiscovered(discovered@, map.area()).len() + to_explore@.len() + 1
                        <= budget,
                decreases neighbours@.len() - i,
            {
                let neighbour = neighbours[i];
                proof {
                    lemma_climbing(map, p, 4);
                    assert(climbs(map, p, neighbours@[i as int]));
                    map.lemma_point_index(neighbour);
                }
                let there = grid.offset(neighbour);
                let ghost had = found;
                let ghost seen = discovered@;
                let ghost open = to_explore@;
                if index_set_insert(discovered, there) {
                    let height = *grid.get_unchecked(neighbour);
                    proof {
                        lemma_search_discover(map, closed, seen, had, open, p, neighbour, start);
                        lemma_discover_one(seen, map.area(), there);
                        found = found.insert(neighbour);
                    }
                    if height == PEAK {
                        nines_found += 1;
                        proof {
                            peaks = peaks.insert(neighbour);
                        }
                    }
                    to_explore.push(neighbour);
                } else {
                    proof {
                        assert(discovered@ =~= seen);
                        if !closed.contains(there) {
                            assert(found.contains(map.point_at(there as int)));
                        }
                    }
                }
                i += 1;
            }
            proof {
                lemma_search_close(map, closed, discovered@, found, to_explore@, p, start);
            }
        }
        proof {
            assert(to_explore@ =~= Seq::<Point>::empty());
            assert forall|q: Point| reaches_around(map, closed, start, q) implies found.contains(
                q,
            ) by {
                let trail = choose|trail: Seq<Point>| #[trigger]
                    is_trail(map, trail) && trail.first() == start && trail.last() == q && avoids(
                        map,
                        trail,
                        closed,
                    );
                lemma_search_done(
                    map,
                    closed,
                    discovered@,
                    found,
                    start,
                    trail,
                    trail.len() as int - 1,
                );
            }
            assert(peaks =~= peaks_around(map, closed, start));
        }
        nines_found
    }
}

/// The peaks to which a trail leads from `p`, when only the steps to the
/// first `k` of its four neighbours are taken.
pub open spec fn peaks_via(map: GridView<Height>, p: Point, k: int) -> Set<Point>
    decreases k,
{
    if k <= 0 {
        if is_peak(map, p) {
            Set::empty().insert(p)
        } else {
            Set::empty()
        }
    } else if climbs(map, p, spec_adjacent_to(p)[k - 1]) {
        peaks_via(map, p, k - 1).union(peaks_from(map, spec_adjacent_to(p)[k - 1]))
    } else {
        peaks_via(map, p, k - 1)
    }
}

/// Which peaks `peaks_via` holds.
proof fn lemma_peaks_via_contains(map: GridView<Height>, p: Point, k: int, q: Point)
    requires
        0 <= k <= 4,
    ensures
        peaks_via(map, p, k).contains(q) <==> (is_peak(map, p) && q == p) || exists|j: int|
            0 <= j < k && climbs(map, p, #[trigger] spec_adjacent_to(p)[j]) && peaks_from(
                map,
                spec_adjacent_to(p)[j],
            ).contains(q),
    decreases k,
{
    if k > 0 {
        lemma_peaks_via_contains(map, p, k - 1, q);
        let last = spec_adjacent_to(p)[k - 1];
        if climbs(map, p, last) && peaks_from(map, last).contains(q) {
            assert(0 <= k - 1 < k && climbs(map, p, spec_adjacent_to(p)[k - 1]));
        }
        if exists|j: int|
            0 <= j < k && climbs(map, p, #[trigger] spec_adjacent_to(p)[j]) && peaks_from(
                map,
                spec_adjacent_to(p)[j],
            ).contains(q) {
            let j = choose|j: int|
                0 <= j < k && climbs(map, p, #[trigger] spec_adjacent_to(p)[j]) && peaks_from(
                    map,
                    spec_adjacent_to(p)[j],
                ).contains(q);
            if j < k - 1 {
                assert(0 <= j < k - 1 && climbs(map, p, spec_adjacent_to(p)[j]));
            }
        }
    }
}

/// The peaks reached over the first `k` neighbours are at most as many as
/// the trails that go on to them.
proof fn lemma_peaks_via_len(map: GridView<Height>, p: Point, k: int)
    requires
        map.wf(),
        map.in_bounds(p),
        0 <= k <= 4,
    ensures
        peaks_via(map, p, k).finite(),
        peaks_via(map, p, k).len() <= (if map.cell(p) == PEAK {
            1nat
        } else {
            0nat
        }) + branch_count(map, p, k),
    decreases 255 - map.cell(p), k,
{
    if k > 0 {
        lemma_peaks_via_len(map, p, k - 1);
        let last = spec_adjacent_to(p)[k - 1];
        if climbs(map, p, last) {
            lemma_rating_at_least_score(map, last);
            lemma_len_union(peaks_via(map, p, k - 1), peaks_from(map, last));
        }
    }
}

/// A cell is in reach of at most as many peaks as trails start from it: the
/// rating of a cell is at least its score.
pub proof fn lemma_rating_at_least_score(map: GridView<Height>, p: Point)
    requires
        map.wf(),
    ensures
        peaks_from(map, p).finite(),
        peaks_from(map, p).len() <= trail_count(map, p),
    decreases 255 - map.cell(p), 5int,
{
    if !map.in_bounds(p) {
        assert(peaks_from(map, p) =~= Set::<Point>::empty());
    } else {
        lemma_peaks_via_len(map, p, 4);
        assert forall|q: Point| peaks_from(map, p).contains(q) implies peaks_via(map, p, 4).contains(
            q,
        ) by {
            let trail = choose|trail: Seq<Point>| #[trigger]
                is_trail(map, trail) && trail.first() == p && trail.last() == q && avoids(
                    map,
                    trail,
                    Set::empty(),
                );
            lemma_peaks_via_contains(map, p, 4, q);
            if trail.len() > 1 {
                let next = trail[1];
                assert(climbs(map, trail[0int], trail[0int + 1]));
                lemma_adjacent_listed(p, next);
                let j = choose|j: int| 0 <= j < 4 && #[trigger] spec_adjacent_to(p)[j] == next;
                let rest = trail.drop_first();
                assert forall|i: int| 0 <= i < rest.len() - 1 implies climbs(
                    map,
                    #[trigger] rest[i],
                    rest[i + 1],
                ) by {
                    assert(climbs(map, trail[i + 1], trail[i + 1 + 1]));
                }
                assert(is_trail(map, rest) && rest.first() == next && rest.last() == q && avoids(
                    map,
                    rest,
                    Set::empty(),
                ));
                assert(peaks_from(map, spec_adjacent_to(p)[j]).contains(q));
            }
        }
        lemma_len_subset(peaks_from(map, p), peaks_via(map, p, 4));
    }
}

/// Over any list of trailheads, the sum of the ratings is at least the sum
/// of the scores.
pub proof fn lemma_ratings_at_least_scores(map: GridView<Height>, cells: Seq<Point>, n: int)
    requires
        map.wf(),
    ensures
        peaks_in_reach(map, cells, n) <= trails_from(map, cells, n),
    decreases n,
{
    if n > 0 {
        lemma_ratings_at_least_scores(map, cells, n - 1);
        lemma_rating_at_least_score(map, cells[n - 1]);
    }
}

/// The height that a character of the map stands for: its value for a
/// digit, and a height that no trail reaches for anything else.
pub open spec fn height_of(byte: u8) -> Height {
    if 48 <= byte <= 57 {
        (byte - 48) as u8
    } else {
        IMPASSABLE
    }
}

/// The trailheads among the first `n` cells of the map, row by row.
pub open spec fn trailheads_upto(map: GridView<Height>, n: int) -> Seq<Point>
    decreases n,
{
    if n <= 0 {
        Seq::empty()
    } else if map.cells[n - 1] == TRAILHEAD {
        trailheads_upto(map, n - 1).push(map.point_at(n - 1))
    } else {
        trailheads_upto(map, n - 1)
    }
}

/// The steps that the graph holds for the cell `p` when the cells before
/// index `n` have been surveyed, and the first `k` neighbours of the cell at
/// index `n`.
pub open spec fn steps_upto(map: GridView<Height>, p: Point, n: int, k: int) -> Seq<Point> {
    if map.index_of(p) < n {
        climbing(map, p, 4)
    } else if map.index_of(p) == n {
        climbing(map, p, k)
    } else {
        Seq::empty()
    }
}

/// Whether `edges` holds the steps of the survey so far.
pub open spec fn describes_upto(
    edges: Map<usize, Vec<Point>>,
    map: GridView<Height>,
    n: int,
    k: int,
) -> bool {
    &&& forall|p: Point|
        map.in_bounds(p) ==> (edges.contains_key(#[trigger] map.index_of(p) as usize) <==> steps_upto(
            map,
            p,
            n,
            k,
        ).len() > 0)
    &&& forall|p: Point|
        map.in_bounds(p) && edges.contains_key(#[trigger] map.index_of(p) as usize)
            ==> edges[map.index_of(p) as usize]@ == steps_upto(map, p, n, k)
    &&& forall|key: usize| edges.contains_key(key) ==> key < map.area()
}

/// A topographic map with the steps of its trails and its trailheads.
pub struct Input {
    pub grid: Grid<Height>,
    pub graph: Graph,
    pub trailheads: Vec<Point>,
}

impl Input {
    /// The graph holds the steps of the trails of the map.
    pub open spec fn wf(&self) -> bool {
        &&& self.grid.wf()
        &&& self.graph.describes(self.grid@)
    }

    /// Whether `self` is what the map written in `text` shows: the heights
    /// of its cells, the steps of its trails, and its trailheads row by row.
    pub open spec fn shows(&self, text: Seq<u8>) -> bool {
        &&& self.wf()
        &&& is_text_grid(text, self.grid@.width, self.grid@.height)
        &&& forall|p: Point|
            self.grid@.in_bounds(p) ==> #[trigger] self.grid@.cell(p) == height_of(
                text_cell(text, self.grid@.width, p),
            )
        &&& self.trailheads@ == trailheads_upto(self.grid@, self.grid@.area() as int)
    }
}

/// The step to one more neighbour is recorded, or there is none.
proof fn lemma_survey_step(
    before: Map<usize, Vec<Point>>,
    after: Map<usize, Vec<Point>>,
    map: GridView<Height>,
    from: Point,
    k: int,
)
    requires
        map.wf(),
        map.area() <= usize::MAX,
        map.in_bounds(from),
        0 <= k < 4,
        describes_upto(before, map, map.index_of(from), k),
        climbs(map, from, spec_adjacent_to(from)[k]) ==> {
            let key = map.index_of(from) as usize;
            &&& after.dom() == before.dom().insert(key)
            &&& after[key]@ == (if before.contains_key(key) {
                before[key]@
            } else {
                Seq::empty()
            }).push(spec_adjacent_to(from)[k])
            &&& forall|other: usize|
                other != key && before.contains_key(other) ==> after[other] == before[other]
        },
        !climbs(map, from, spec_adjacent_to(from)[k]) ==> after == before,
    ensures
        describes_upto(after, map, map.index_of(from), k + 1),
{
    let n = map.index_of(from);
    map.lemma_point_index(from);
    assert forall|p: Point| map.in_bounds(p) implies (after.contains_key(
        #[trigger] map.index_of(p) as usize,
    ) <==> steps_upto(map, p, n, k + 1).len() > 0) && (after.contains_key(
        map.index_of(p) as usize,
    ) ==> after[map.index_of(p) as usize]@ == steps_upto(map, p, n, k + 1)) by {
        map.lemma_point_index(p);
        if map.index_of(p) == n {
            map.lemma_index_injective(p, from);
        } else {
            assert(steps_upto(map, p, n, k + 1) == steps_upto(map, p, n, k));
        }
    }
}

/// When all neighbours of a cell have been looked at, the survey goes on to
/// the next cell.
proof fn lemma_survey_next(edges: Map<usize, Vec<Point>>, map: GridView<Height>, n: int)
    requires
        map.wf(),
        describes_upto(edges, map, n, 4),
    ensures
        describes_upto(edges, map, n + 1, 0),
{
    assert forall|p: Point| map.in_bounds(p) implies steps_upto(map, p, n + 1, 0) == steps_upto(
        map,
        p,
        n,
        4,
    ) by {}
}

/// Finds the steps of the trails of a map, and its trailheads.
pub fn survey(grid: &Grid<Height>) -> (found: (Graph, Vec<Point>))
    requires
        grid.wf(),
    ensures
        found.0.describes(grid@),
        found.1@ == trailheads_upto(grid@, grid@.area() as int),
{
    let ghost map = grid@;
    let area = grid.inner.len();
    let mut graph = Graph::new();
    let mut trailheads: Vec<Point> = Vec::new();
    let mut i: usize = 0;
    proof {
        assert forall|p: Point| map.in_bounds(p) implies map.index_of(p) >= 0 by {
            map.lemma_point_index(p);
        }
    }
    while i < area
        invariant
            grid.wf(),
            map == grid@,
            area == map.area(),
            i <= area,
            describes_upto(graph.edges@, map, i as int, 0),
            trailheads@ == trailheads_upto(map, i as int),
        decreases area - i,
    {
        proof {
            map.lemma_index_point(i as int);
            crate::arith::lemma_index_encode(i as int, grid.width as int, grid.height as int);
            assert(grid.width > 0) by (nonlinear_arith)
                requires
                    i < grid.width * grid.height,
            ;
        }
        // Check for paths from here to any adjacent locations.
        let from = Point::from_indices(i % grid.width, i / grid.width);
        let this_height = *grid.get_unchecked(from);
        if this_height == TRAILHEAD {
            trailheads.push(from);
        }
        let around = adjacent_to(from);
        let mut k: usize = 0;
        while k < 4
            invariant
                grid.wf(),
                map == grid@,
                area == map.area(),
                i < area,
                from == map.point_at(i as int),
                map.in_bounds(from),
                map.index_of(from) == i,
                this_height == map.cell(from),
                around@ == spec_adjacent_to(from),
                k <= 4,
                describes_upto(graph.edges@, map, i as int, k as int),
            decreases 4 - k,
        {
            let to = around[k];
            let ghost before = graph.edges@;
            let climbs_here = match grid.get(to) {
                Some(height) => this_height < 255 && *height == this_height + 1,
                None => false,
            };
            if climbs_here {
                graph.insert_edge(i, to);
            }
            proof {
                lemma_survey_step(before, graph.edges@, map, from, k as int);
            }
            k += 1;
        }
        proof {
            lemma_survey_next(graph.edges@, map, i as int);
        }
        i += 1;
    }
    proof {
        assert forall|p: Point| map.in_bounds(p) implies steps_upto(map, p, area as int, 0)
            == climbing(map, p, 4) by {
            map.lemma_point_index(p);
        }
    }
    (graph, trailheads)
}

/// Reads a topographic map: one digit for the height of each cell.
pub fn parse(input: &str) -> (parsed: Option<Input>)
    ensures
        match parsed {
            Some(map) => map.shows(input.spec_bytes()),
            None => forall|w: nat, h: nat| !is_text_grid(input.spec_bytes(), w, h),
        },
{
    let ghost text = input.spec_bytes();
    // First, parse the input as a topographic map
    // (i.e. a 2D grid where each cell has an integer height)
    let raw = match parse_grid(input.as_bytes()) {
        Some(raw) => raw,
        None => {
            return None;
        },
    };
    let n = raw.inner.len();
    let mut inner: Vec<Height> = Vec::with_capacity(n);
    let mut i: usize = 0;
    while i < n
        invariant
            n == raw.inner@.len(),
            i <= n,
            inner@.len() == i,
            forall|j: int| 0 <= j < i ==> #[trigger] inner@[j] == height_of(raw.inner@[j]),
        decreases n - i,
    {
        let byte = raw.inner[i];
        let height = if 48 <= byte && byte <= 57 {
            byte - 48
        } else {
            IMPASSABLE
        };
        inner.push(height);
        i += 1;
    }
    let grid = Grid { width: raw.width, height: raw.height, inner };
    // Then convert that 2D grid into a directed acyclic graph,
    // where paths in the graph are good hiking trails
    // (i.e. edge from M to N means that N is 1 step higher).
    let (graph, trailheads) = survey(&grid);
    proof {
        assert forall|p: Point| grid@.in_bounds(p) implies #[trigger] grid@.cell(p) == height_of(
            text_cell(text, grid@.width, p),
        ) by {
            raw@.lemma_point_index(p);
            assert(raw@.cell(p) == text_cell(text, raw@.width, p));
        }
    }
    Some(Input { grid, graph, trailheads })
}

/// The sum of the scores of the trailheads: for each, the number of peaks
/// that a trail from it reaches.
pub fn q1(input: &Input) -> (total: usize)
    requires
        input.wf(),
        input.trailheads@.len() * input.grid@.area() <= usize::MAX,
    ensures
        total == peaks_in_reach(input.grid@, input.trailheads@, input.trailheads@.len() as int),
{
    let ghost map = input.grid@;
    let ghost area = map.area();
    let mut total: usize = 0;
    let mut i: usize = 0;
    while i < input.trailheads.len()
        invariant
            input.wf(),
            map == input.grid@,
            area == map.area(),
            i <= input.trailheads@.len(),
            input.trailheads@.len() * area <= usize::MAX,
            total == peaks_in_reach(map, input.trailheads@, i as int),
            total <= i * area,
        decreases input.trailheads@.len() - i,
    {
        let start = input.trailheads[i];
        // For each zero, do a DFS then find how many 9s it came across.
        let mut discovered = FxHashSet::default();
        let score = input.graph.score(start, &input.grid, &mut discovered);
        proof {
            assert((i + 1) * area == i * area + area) by (nonlinear_arith);
            assert((i + 1) * area <= input.trailheads@.len() * area) by (nonlinear_arith)
                requires
                    i + 1 <= input.trailheads@.len(),
            ;
        }
        total += score;
        i += 1;
    }
    total
}

/// The sum of the ratings of the trailheads: for each, the number of trails
/// from it to a peak.
pub fn q2(input: &Input) -> (total: usize)
    requires
        input.wf(),
        input.trailheads@.len() * MAX_TRAILS <= usize::MAX,
    ensures
        total == trails_from(input.grid@, input.trailheads@, input.trailheads@.len() as int),
{
    let ghost map = input.grid@;
    let mut total: usize = 0;
    let mut i: usize = 0;
    while i < input.trailheads.len()
        invariant
            input.wf(),
            map == input.grid@,
            i <= input.trailheads@.len(),
            input.trailheads@.len() * MAX_TRAILS <= usize::MAX,
            total == trails_from(map, input.trailheads@, i as int),
            total <= i * MAX_TRAILS,
        decreases input.trailheads@.len() - i,
    {
        let start = input.trailheads[i];
        proof {
            lemma_trail_count_bound(map, start);
        }
        let rating = input.graph.rating(start, &input.grid);
        total += rating;
        i += 1;
    }
    total
}

} // verus!
