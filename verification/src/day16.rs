//! A reindeer races through a maze: a step forward costs one point, a
//! quarter turn on the spot a thousand. The cheapest way from the start to
//! the end is found by Dijkstra's algorithm over positions with a facing.
use crate::arith::lemma_bounded_set_len;
use crate::dir::Dir;
use crate::fx::{index_map_get, index_map_insert};
use crate::grid::{Grid, GridView};
use crate::point::Point;
use crate::text::{
    find_last, is_text_grid, parse_grid, strip_blanks, text_cell, without_blanks,
};
use crate::queue::{queue_entries, queue_get_priority, queue_new, queue_pop, queue_push};
use fxhash::FxHashMap;
use vstd::prelude::*;
use vstd::string::StringSliceAdditionalSpecFns;

verus! {

/// The cost of a quarter turn.
pub const TURN: usize = 1000;

/// The cost of a step forward.
pub const FWD: usize = 1;

/// What a cell of the maze holds.
#[derive(Clone, Copy, Debug, PartialEq, Eq, Structural)]
pub enum Cell {
    Wall,
    Empty,
}

/// A node of the search: where the reindeer stands and which way it faces.
#[derive(Clone, Copy, Debug, PartialEq, Eq, Structural, Hash)]
pub struct State {
    pub position: Point,
    pub facing: Dir,
}

/// A move from one state to the next, and what it costs.
#[derive(Clone, Copy, Debug, PartialEq, Eq, Structural)]
pub struct Edge {
    pub next: State,
    pub cost: usize,
}

/// Why a search found nothing.
#[derive(Clone, Copy, Debug, PartialEq, Eq, Structural)]
pub enum SearchError {
    /// No sequence of moves leads from the start to the target.
    NoPath,
}

/// For each state on an empty cell, under its number, the moves from it.
pub type Graph = FxHashMap<usize, Vec<Edge>>;

/// Whether the cell at `p` can be stood on.
pub open spec fn passable(maze: GridView<Cell>, p: Point) -> bool {
    maze.in_bounds(p) && maze.cell(p) == Cell::Empty
}

/// The number under which the state `s` is filed.
pub open spec fn key_of(maze: GridView<Cell>, s: State) -> usize {
    maze.state_index(s.position, s.facing) as usize
}

/// What the move from `s` to `t` costs, if there is such a move: a quarter
/// turn to either side on an empty cell, or a step forward onto an empty
/// cell.
pub open spec fn step_cost(maze: GridView<Cell>, s: State, t: State) -> Option<nat> {
    if !passable(maze, s.position) {
        None
    } else if t.position == s.position && (t.facing == s.facing.spec_to_left() || t.facing
        == s.facing.spec_to_right()) {
        Some(TURN as nat)
    } else if t.facing == s.facing && t.position == s.facing.spec_step_from(s.position)
        && passable(maze, t.position) {
        Some(FWD as nat)
    } else {
        None
    }
}

/// The moves from `s`: the turn to the left, the turn to the right, and the
/// step forward where the cell ahead is empty.
pub open spec fn edges_of(maze: GridView<Cell>, s: State) -> Seq<Edge> {
    let turns = seq![
        Edge { next: State { position: s.position, facing: s.facing.spec_to_left() }, cost: TURN },
        Edge { next: State { position: s.position, facing: s.facing.spec_to_right() }, cost: TURN },
    ];
    let ahead = s.facing.spec_step_from(s.position);
    if passable(maze, ahead) {
        turns.push(Edge { next: State { position: ahead, facing: s.facing }, cost: FWD })
    } else {
        turns
    }
}

/// `route` is a sequence of moves through the maze.
pub open spec fn is_route(maze: GridView<Cell>, route: Seq<State>) -> bool {
    &&& route.len() >= 1
    &&& passable(maze, route[0].position)
    &&& forall|i: int|
        0 <= i < route.len() - 1 ==> (#[trigger] step_cost(maze, route[i], route[i + 1])).is_some()
}

/// The sum of the costs of the moves of `route`.
pub open spec fn route_cost(maze: GridView<Cell>, route: Seq<State>) -> nat
    decreases route.len(),
{
    if route.len() <= 1 {
        0
    } else {
        route_cost(maze, route.drop_last()) + step_cost(
            maze,
            route[route.len() - 2],
            route.last(),
        ).unwrap()
    }
}

/// Some route from `from` to `to` costs `cost`.
pub open spec fn costs(maze: GridView<Cell>, from: State, to: State, cost: nat) -> bool {
    exists|route: Seq<State>| #[trigger]
        is_route(maze, route) && route.first() == from && route.last() == to && route_cost(
            maze,
            route,
        ) == cost
}

/// Whether the state `t` is a target: it stands on `end`, and faces `facing`
/// if one is asked for.
pub open spec fn meets(t: State, end: Point, facing: Option<Dir>) -> bool {
    t.position == end && (facing.is_none() || facing == Some(t.facing))
}

/// `cost` is the least cost of a route from `from` to a target.
pub open spec fn least(
    maze: GridView<Cell>,
    from: State,
    end: Point,
    facing: Option<Dir>,
    cost: nat,
) -> bool {
    &&& exists|goal: State| meets(goal, end, facing) && #[trigger] costs(maze, from, goal, cost)
    &&& forall|t: State, c: nat| meets(t, end, facing) && #[trigger] costs(maze, from, t, c) ==> cost <= c
}

/// No route leads from `from` to a target.
pub open spec fn unreachable(maze: GridView<Cell>, from: State, end: Point, facing: Option<Dir>) -> bool {
    forall|t: State, c: nat| meets(t, end, facing) ==> !#[trigger] costs(maze, from, t, c)
}

/// The least cost of a route to a target is one number.
pub proof fn lemma_least_unique(
    maze: GridView<Cell>,
    from: State,
    end: Point,
    facing: Option<Dir>,
    a: nat,
    b: nat,
)
    requires
        least(maze, from, end, facing, a),
        least(maze, from, end, facing, b),
    ensures
        a == b,
{
}

/// The moves listed for a state are the moves from it, and all of them.
pub proof fn lemma_edges(maze: GridView<Cell>, s: State)
    requires
        maze.wf(),
        passable(maze, s.position),
    ensures
        2 <= edges_of(maze, s).len() <= 3,
        forall|j: int|
            0 <= j < edges_of(maze, s).len() ==> {
                let e = #[trigger] edges_of(maze, s)[j];
                &&& step_cost(maze, s, e.next) == Some(e.cost as nat)
                &&& passable(maze, e.next.position)
                &&& e.cost <= TURN
            },
        forall|t: State|
            (#[trigger] step_cost(maze, s, t)).is_some() ==> exists|j: int|
                0 <= j < edges_of(maze, s).len() && edges_of(maze, s)[j] == (Edge {
                    next: t,
                    cost: step_cost(maze, s, t).unwrap() as usize,
                }),
{
    let edges = edges_of(maze, s);
    crate::dir::lemma_turns(s.facing);
    let ahead = s.facing.spec_step_from(s.position);
    assert(ahead != s.position);
    assert forall|t: State| (#[trigger] step_cost(maze, s, t)).is_some() implies exists|j: int|
        0 <= j < edges.len() && edges[j] == (Edge {
            next: t,
            cost: step_cost(maze, s, t).unwrap() as usize,
        }) by {
        if t.position == s.position && t.facing == s.facing.spec_to_left() {
            assert(edges[0] == Edge { next: t, cost: TURN });
        } else if t.position == s.position && t.facing == s.facing.spec_to_right() {
            assert(edges[1] == Edge { next: t, cost: TURN });
        } else {
            assert(edges[2] == Edge { next: t, cost: FWD });
        }
    }
}

/// A route goes on by one move.
pub proof fn lemma_costs_step(maze: GridView<Cell>, from: State, via: State, to: State, cost: nat)
    requires
        costs(maze, from, via, cost),
        step_cost(maze, via, to).is_some(),
    ensures
        costs(maze, from, to, cost + step_cost(maze, via, to).unwrap()),
{
    let route = choose|route: Seq<State>| #[trigger]
        is_route(maze, route) && route.first() == from && route.last() == via && route_cost(
            maze,
            route,
        ) == cost;
    let longer = route.push(to);
    assert(longer.drop_last() == route);
    assert forall|i: int| 0 <= i < longer.len() - 1 implies (#[trigger] step_cost(
        maze,
        longer[i],
        longer[i + 1],
    )).is_some() by {
        if i < route.len() - 1 {
            assert(step_cost(maze, route[i], route[i + 1]).is_some());
        }
    }
    assert(is_route(maze, longer) && longer.first() == from && longer.last() == to);
}

/// Standing still is a route that costs nothing.
pub proof fn lemma_costs_nothing(maze: GridView<Cell>, from: State)
    requires
        passable(maze, from.position),
    ensures
        costs(maze, from, from, 0),
{
    let route = seq![from];
    assert(is_route(maze, route) && route.first() == from && route.last() == from && route_cost(
        maze,
        route,
    ) == 0);
}

/// Every state of a route stands on an empty cell, and a route without its
/// last move is a route.
pub proof fn lemma_route_states(maze: GridView<Cell>, route: Seq<State>, i: int)
    requires
        is_route(maze, route),
        0 <= i < route.len(),
    ensures
        passable(maze, route[i].position),
        route.len() > 1 ==> is_route(maze, route.drop_last()),
    decreases i,
{
    if i > 0 {
        lemma_route_states(maze, route, i - 1);
        assert(step_cost(maze, route[i - 1], route[i - 1 + 1]).is_some());
    }
    if route.len() > 1 {
        let shorter = route.drop_last();
        assert forall|j: int| 0 <= j < shorter.len() - 1 implies (#[trigger] step_cost(
            maze,
            shorter[j],
            shorter[j + 1],
        )).is_some() by {
            assert(step_cost(maze, route[j], route[j + 1]).is_some());
        }
    }
}

/// The state filed under `key` is settled at no more than `bound`, or
/// waits in the queue at no more than `bound`.
pub open spec fn within(
    visited: Map<usize, usize>,
    tentative: Map<usize, usize>,
    key: usize,
    bound: int,
) -> bool {
    ||| (visited.contains_key(key) && visited[key] <= bound)
    ||| (tentative.contains_key(key) && tentative[key] <= bound)
}

/// What holds of the settled states `visited` and of the queue `tentative`
/// during a search from `start`. While the moves from a state are being
/// followed, `busy` is that state and `done` the number of its moves that have
/// been followed.
pub open spec fn frontier(
    maze: GridView<Cell>,
    start: State,
    visited: Map<usize, usize>,
    tentative: Map<usize, usize>,
    busy: Option<State>,
    done: int,
) -> bool {
    &&& passable(maze, start.position)
    &&& within(visited, tentative, key_of(maze, start), 0)
    &&& forall|k: usize| visited.contains_key(k) ==> k < 4 * maze.area()
    &&& forall|k: usize| tentative.contains_key(k) ==> k < 4 * maze.area()
    &&& forall|k: usize| !(visited.contains_key(k) && tentative.contains_key(k))
    &&& forall|a: usize, b: usize|
        #[trigger] visited.contains_key(a) && #[trigger] tentative.contains_key(b) ==> visited[a]
            <= tentative[b]
    &&& forall|s: State|
        maze.in_bounds(s.position) && visited.contains_key(#[trigger] key_of(maze, s)) ==> passable(
            maze,
            s.position,
        ) && costs(maze, start, s, visited[key_of(maze, s)] as nat)
    &&& forall|s: State|
        maze.in_bounds(s.position) && tentative.contains_key(#[trigger] key_of(maze, s))
            ==> passable(maze, s.position) && costs(
            maze,
            start,
            s,
            tentative[key_of(maze, s)] as nat,
        )
    &&& forall|y: State, t: State|
        maze.in_bounds(y.position) && visited.contains_key(key_of(maze, y)) && Some(y) != busy && (
        #[trigger] step_cost(maze, y, t)).is_some() ==> within(
            visited,
            tentative,
            key_of(maze, t),
            visited[key_of(maze, y)] + step_cost(maze, y, t).unwrap(),
        )
    &&& busy matches Some(u) ==> {
        &&& maze.in_bounds(u.position)
        &&& visited.contains_key(key_of(maze, u))
        &&& forall|a: usize| visited.contains_key(a) ==> visited[a] <= visited[key_of(maze, u)]
        &&& forall|j: int|
            0 <= j < done && j < edges_of(maze, u).len() ==> within(
                visited,
                tentative,
                key_of(maze, (#[trigger] edges_of(maze, u)[j]).next),
                visited[key_of(maze, u)] + edges_of(maze, u)[j].cost,
            )
    }
}

/// No route from `start` is cheaper than what the search knows: a route to a
/// settled state costs at least what the state was settled at, and a route to
/// any other state costs at least what some state waits at in the queue.
pub proof fn lemma_lower_bound(
    maze: GridView<Cell>,
    start: State,
    visited: Map<usize, usize>,
    tentative: Map<usize, usize>,
    route: Seq<State>,
)
    requires
        maze.wf(),
        frontier(maze, start, visited, tentative, None, 0),
        is_route(maze, route),
        route.first() == start,
    ensures
        visited.contains_key(key_of(maze, route.last())) ==> visited[key_of(maze, route.last())]
            <= route_cost(maze, route),
        !visited.contains_key(key_of(maze, route.last())) ==> exists|x: usize|
            #[trigger] tentative.contains_key(x) && tentative[x] <= route_cost(maze, route),
    decreases route.len(),
{
    let v = route.last();
    let k = route_cost(maze, route);
    if route.len() == 1 {
        let x = key_of(maze, start);
        if !visited.contains_key(x) {
            assert(tentative.contains_key(x) && tentative[x] <= k);
        }
    } else {
        let shorter = route.drop_last();
        let y = shorter.last();
        lemma_route_states(maze, route, route.len() - 2);
        lemma_lower_bound(maze, start, visited, tentative, shorter);
        assert(y == route[route.len() - 2]);
        assert(step_cost(maze, route[route.len() - 2], route[route.len() - 2 + 1]).is_some());
        let w = step_cost(maze, y, v).unwrap();
        let before = route_cost(maze, shorter);
        assert(k == before + w);
        if visited.contains_key(key_of(maze, y)) {
            assert(within(visited, tentative, key_of(maze, v), visited[key_of(maze, y)] + w));
            if !visited.contains_key(key_of(maze, v)) {
                let x = key_of(maze, v);
                assert(tentative.contains_key(x) && tentative[x] <= k);
            }
        } else {
            let x = choose|x: usize| #[trigger] tentative.contains_key(x) && tentative[x] <= before;
            if visited.contains_key(key_of(maze, v)) {
                assert(visited.contains_key(key_of(maze, v)) && tentative.contains_key(x));
            } else {
                assert(tentative.contains_key(x) && tentative[x] <= k);
            }
        }
    }
}

/// The search starts with the start state waiting at cost zero.
proof fn lemma_frontier_start(maze: GridView<Cell>, start: State, tentative: Map<usize, usize>)
    requires
        maze.wf(),
        passable(maze, start.position),
        tentative == Map::<usize, usize>::empty().insert(key_of(maze, start), 0),
        4 * maze.area() <= usize::MAX,
    ensures
        frontier(maze, start, Map::<usize, usize>::empty(), tentative, None, 0),
{
    lemma_costs_nothing(maze, start);
    maze.lemma_state_index(start.position, start.facing, start.position, start.facing);
    assert forall|s: State|
        maze.in_bounds(s.position) && tentative.contains_key(#[trigger] key_of(maze, s)) implies passable(
        maze,
        s.position,
    ) && costs(maze, start, s, tentative[key_of(maze, s)] as nat) by {
        maze.lemma_state_index(s.position, s.facing, start.position, start.facing);
    }
}

/// The cheapest waiting state is settled at its cost.
proof fn lemma_frontier_pop(
    maze: GridView<Cell>,
    start: State,
    visited: Map<usize, usize>,
    tentative: Map<usize, usize>,
    u: State,
    cost: usize,
)
    requires
        maze.wf(),
        4 * maze.area() <= usize::MAX,
        frontier(maze, start, visited, tentative, None, 0),
        maze.in_bounds(u.position),
        tentative.contains_key(key_of(maze, u)),
        tentative[key_of(maze, u)] == cost,
        forall|other: usize| #[trigger] tentative.contains_key(other) ==> cost <= tentative[other],
    ensures
        frontier(
            maze,
            start,
            visited.insert(key_of(maze, u), cost),
            tentative.remove(key_of(maze, u)),
            Some(u),
            0,
        ),
{
    let key = key_of(maze, u);
    let after = visited.insert(key, cost);
    let rest = tentative.remove(key);
    assert forall|a: usize| visited.contains_key(a) implies visited[a] <= cost by {
        assert(visited.contains_key(a) && tentative.contains_key(key));
    }
    assert forall|a: usize, b: usize|
        #[trigger] after.contains_key(a) && #[trigger] rest.contains_key(b) implies after[a]
        <= rest[b] by {
        assert(tentative.contains_key(b));
        if a != key {
            assert(visited.contains_key(a) && tentative.contains_key(b));
        }
    }
    assert forall|s: State|
        maze.in_bounds(s.position) && after.contains_key(#[trigger] key_of(maze, s)) implies passable(
        maze,
        s.position,
    ) && costs(maze, start, s, after[key_of(maze, s)] as nat) by {
        if key_of(maze, s) == key {
            assert(tentative.contains_key(key_of(maze, s)));
        }
    }
    assert forall|y: State, t: State|
        maze.in_bounds(y.position) && after.contains_key(key_of(maze, y)) && Some(y) != Some(u) && (
        #[trigger] step_cost(maze, y, t)).is_some() implies within(
        after,
        rest,
        key_of(maze, t),
        after[key_of(maze, y)] + step_cost(maze, y, t).unwrap(),
    ) by {
        maze.lemma_state_index(y.position, y.facing, u.position, u.facing);
        maze.lemma_state_index(u.position, u.facing, y.position, y.facing);
        assert(key_of(maze, y) != key);
        assert(within(
            visited,
            tentative,
            key_of(maze, t),
            visited[key_of(maze, y)] + step_cost(maze, y, t).unwrap(),
        ));
    }
}

/// One more move from the busy state has been followed: its target was
/// settled before, or waits now at no more than the cost through the busy
/// state.
proof fn lemma_frontier_relax(
    maze: GridView<Cell>,
    start: State,
    visited: Map<usize, usize>,
    tentative: Map<usize, usize>,
    after: Map<usize, usize>,
    u: State,
    done: int,
)
    requires
        maze.wf(),
        4 * maze.area() <= usize::MAX,
        frontier(maze, start, visited, tentative, Some(u), done),
        0 <= done < edges_of(maze, u).len(),
        ({
            let e = edges_of(maze, u)[done];
            let k = key_of(maze, e.next);
            let through = visited[key_of(maze, u)] + e.cost;
            if visited.contains_key(k) {
                after == tentative
            } else if tentative.contains_key(k) && tentative[k] < through {
                after == tentative.insert(k, tentative[k])
            } else {
                through <= usize::MAX && after == tentative.insert(k, through as usize)
            }
        }),
    ensures
        frontier(maze, start, visited, after, Some(u), done + 1),
{
    let e = edges_of(maze, u)[done];
    let k = key_of(maze, e.next);
    let c = visited[key_of(maze, u)];
    let through = c + e.cost;
    lemma_edges(maze, u);
    assert(passable(maze, u.position));
    maze.lemma_state_index(e.next.position, e.next.facing, e.next.position, e.next.facing);
    if visited.contains_key(k) {
        assert(visited[k] <= c);
    } else {
        lemma_costs_step(maze, start, u, e.next, c as nat);
        assert forall|s: State|
            maze.in_bounds(s.position) && after.contains_key(#[trigger] key_of(maze, s)) implies passable(
            maze,
            s.position,
        ) && costs(maze, start, s, after[key_of(maze, s)] as nat) by {
            if key_of(maze, s) == k {
                maze.lemma_state_index(s.position, s.facing, e.next.position, e.next.facing);
                if tentative.contains_key(k) && tentative[k] < through {
                    assert(tentative.contains_key(key_of(maze, s)));
                }
            } else {
                assert(tentative.contains_key(key_of(maze, s)));
            }
        }
        assert forall|a: usize, b: usize|
            #[trigger] visited.contains_key(a) && #[trigger] after.contains_key(b) implies visited[a]
            <= after[b] by {
            if b != k {
                assert(visited.contains_key(a) && tentative.contains_key(b));
            } else if tentative.contains_key(k) {
                assert(visited.contains_key(a) && tentative.contains_key(k));
            }
        }
        assert forall|y: State, t: State|
            maze.in_bounds(y.position) && visited.contains_key(key_of(maze, y)) && Some(y) != Some(
                u,
            ) && (#[trigger] step_cost(maze, y, t)).is_some() implies within(
            visited,
            after,
            key_of(maze, t),
            visited[key_of(maze, y)] + step_cost(maze, y, t).unwrap(),
        ) by {
            assert(within(
                visited,
                tentative,
                key_of(maze, t),
                visited[key_of(maze, y)] + step_cost(maze, y, t).unwrap(),
            ));
        }
        assert forall|j: int| 0 <= j < done + 1 && j < edges_of(maze, u).len() implies within(
            visited,
            after,
            key_of(maze, (#[trigger] edges_of(maze, u)[j]).next),
            visited[key_of(maze, u)] + edges_of(maze, u)[j].cost,
        ) by {
            if j < done {
                assert(within(
                    visited,
                    tentative,
                    key_of(maze, edges_of(maze, u)[j].next),
                    visited[key_of(maze, u)] + edges_of(maze, u)[j].cost,
                ));
            }
        }
    }
}

/// All moves from the busy state have been followed.
proof fn lemma_frontier_settled(
    maze: GridView<Cell>,
    start: State,
    visited: Map<usize, usize>,
    tentative: Map<usize, usize>,
    u: State,
)
    requires
        maze.wf(),
        frontier(maze, start, visited, tentative, Some(u), edges_of(maze, u).len() as int),
    ensures
        frontier(maze, start, visited, tentative, None, 0),
{
    assert(passable(maze, u.position));
    lemma_edges(maze, u);
    assert forall|y: State, t: State|
        maze.in_bounds(y.position) && visited.contains_key(key_of(maze, y)) && (
        #[trigger] step_cost(maze, y, t)).is_some() implies within(
        visited,
        tentative,
        key_of(maze, t),
        visited[key_of(maze, y)] + step_cost(maze, y, t).unwrap(),
    ) by {
        if y == u {
            let j = choose|j: int|
                0 <= j < edges_of(maze, u).len() && edges_of(maze, u)[j] == (Edge {
                    next: t,
                    cost: step_cost(maze, u, t).unwrap() as usize,
                });
            assert(within(
                visited,
                tentative,
                key_of(maze, edges_of(maze, u)[j].next),
                visited[key_of(maze, u)] + edges_of(maze, u)[j].cost,
            ));
        }
    }
}

/// Whether `graph` holds the moves of `maze`, and nothing else: for each
/// state on an empty cell, under its number, the moves from it.
pub open spec fn describes(graph: Map<usize, Vec<Edge>>, maze: GridView<Cell>) -> bool {
    &&& forall|s: State|
        maze.in_bounds(s.position) ==> (graph.contains_key(#[trigger] key_of(maze, s)) <==> passable(
            maze,
            s.position,
        ))
    &&& forall|s: State|
        passable(maze, s.position) ==> graph[#[trigger] key_of(maze, s)]@ == edges_of(maze, s)
    &&& forall|key: usize| graph.contains_key(key) ==> key < 4 * maze.area()
}

/// A maze with its start, its end and its moves.
pub struct Input {
    pub grid: Grid<Cell>,
    pub start: Point,
    pub end: Point,
    pub graph: Graph,
}

impl Input {
    /// The maze is small enough for every cost to fit, and the graph holds
    /// its moves.
    pub open spec fn wf(&self) -> bool {
        &&& self.grid.wf()
        &&& 4 * self.grid@.area() * TURN <= usize::MAX
        &&& describes(self.graph@, self.grid@)
    }

    /// The state in which the race starts: on the start cell, facing right.
    pub open spec fn spec_start(&self) -> State {
        State { position: self.start, facing: Dir::Right }
    }

    /// The state in which the search starts: at the start cell, facing right.
    pub fn start(&self) -> (state: State)
        ensures
            state == self.spec_start(),
    {
        State { position: self.start, facing: Dir::Right }
    }
}

/// Whether `state` is a target.
fn is_target(state: State, end: Point, facing: Option<Dir>) -> (hit: bool)
    ensures
        hit == meets(state, end, facing),
{
    state.position == end && match facing {
        Some(dir) => state.facing == dir,
        None => true,
    }
}

/// Finds a cheapest route from `start` to a state on `end`, facing `facing`
/// if one is given.
fn search(input: &Input, start: State, end: Point, facing: Option<Dir>) -> (found: Result<
    (State, usize),
    SearchError,
>)
    requires
        input.wf(),
        passable(input.grid@, start.position),
    ensures
        match found {
            Ok((goal, cost)) => {
                &&& meets(goal, end, facing)
                &&& costs(input.grid@, start, goal, cost as nat)
                &&& least(input.grid@, start, end, facing, cost as nat)
            },
            Err(_) => unreachable(input.grid@, start, end, facing),
        },
{
    let grid = &input.grid;
    let ghost maze = grid@;
    let states = 4 * grid.inner.len();
    // Initialize the data structures.
    let mut visited: FxHashMap<usize, usize> = FxHashMap::default();
    let mut tentative = queue_new();
    let mut settled: usize = 0;
    let start_key = grid.state_offset(start.position, start.facing);
    queue_push(&mut tentative, start_key, 0);
    proof {
        assert(visited@ =~= Map::<usize, usize>::empty());
        assert(queue_entries(tentative) =~= Map::<usize, usize>::empty().insert(start_key, 0));
        lemma_frontier_start(maze, start, queue_entries(tentative));
        assert(visited@.dom() =~= Set::<usize>::empty());
    }
    // Start the main loop.
    // Each iteration, get highest-priority item.
    loop
        invariant
            input.wf(),
            grid == &input.grid,
            maze == grid@,
            states == 4 * maze.area(),
            frontier(maze, start, visited@, queue_entries(tentative), None, 0),
            visited@.dom().finite(),
            settled == visited@.dom().len(),
            settled <= states,
            forall|s: State|
                maze.in_bounds(s.position) && visited@.contains_key(#[trigger] key_of(maze, s))
                    ==> !meets(s, end, facing),
            forall|k: usize| visited@.contains_key(k) ==> visited@[k] <= TURN * settled,
            forall|k: usize| #[trigger]
                queue_entries(tentative).contains_key(k) ==> queue_entries(tentative)[k] <= TURN
                    * settled,
        decreases states - settled,
    {
        let ghost waiting = queue_entries(tentative);
        let ghost before = visited@;
        let (key, cost) = match queue_pop(&mut tentative) {
            Some(top) => top,
            None => {
                proof {
                    assert forall|t: State, c: nat| meets(t, end, facing) implies !#[trigger] costs(
                        maze,
                        start,
                        t,
                        c,
                    ) by {
                        if costs(maze, start, t, c) {
                            let route = choose|route: Seq<State>| #[trigger]
                                is_route(maze, route) && route.first() == start && route.last()
                                    == t && route_cost(maze, route) == c;
                            lemma_lower_bound(maze, start, before, waiting, route);
                            lemma_route_states(maze, route, route.len() - 1);
                            if !before.contains_key(key_of(maze, t)) {
                                let x = choose|x: usize| #[trigger]
                                    waiting.contains_key(x) && waiting[x] <= c;
                                assert(waiting.dom().contains(x));
                            }
                        }
                    }
                }
                return Err(SearchError::NoPath);
            },
        };
        let (position, dir) = grid.state_of(key);
        let curr = State { position, facing: dir };
        proof {
            assert(key_of(maze, curr) == key);
            assert(passable(maze, curr.position));
        }
        // Are we at the final node?
        if is_target(curr, end, facing) {
            proof {
                assert forall|t: State, c: nat|
                    meets(t, end, facing) && #[trigger] costs(maze, start, t, c) implies cost
                    <= c by {
                    let route = choose|route: Seq<State>| #[trigger]
                        is_route(maze, route) && route.first() == start && route.last() == t
                            && route_cost(maze, route) == c;
                    lemma_lower_bound(maze, start, before, waiting, route);
                    lemma_route_states(maze, route, route.len() - 1);
                    if !before.contains_key(key_of(maze, t)) {
                        let x = choose|x: usize| #[trigger]
                            waiting.contains_key(x) && waiting[x] <= c;
                        assert(cost <= waiting[x]);
                    }
                }
                assert(meets(curr, end, facing) && costs(maze, start, curr, cost as nat));
            }
            return Ok((curr, cost));
        }
        // This node is settled at its cost.
        index_map_insert(&mut visited, key, cost);
        proof {
            lemma_frontier_pop(maze, start, before, waiting, curr, cost);
            lemma_bounded_set_len(visited@.dom(), states as nat);
            assert(visited@.dom() =~= before.dom().insert(key));
            assert(TURN * (settled + 1) == TURN * settled + TURN) by (nonlinear_arith);
            assert(TURN * (settled + 1) <= TURN * states) by (nonlinear_arith)
                requires
                    settled + 1 <= states,
            ;
            assert(TURN * states == 4 * maze.area() * TURN) by (nonlinear_arith)
                requires
                    states == 4 * maze.area(),
            ;
            assert forall|s: State|
                maze.in_bounds(s.position) && visited@.contains_key(
                    #[trigger] key_of(maze, s),
                ) implies !meets(s, end, facing) by {
                maze.lemma_state_index(s.position, s.facing, curr.position, curr.facing);
            }
            lemma_edges(maze, curr);
        }
        settled += 1;
        // Check each neighbour of the current node.
        let empty: Vec<Edge> = Vec::new();
        let edges = match index_map_get(&input.graph, key) {
            Some(edges) => edges,
            None => &empty,
        };
        let mut i: usize = 0;
        while i < edges.len()
            invariant
                input.wf(),
                grid == &input.grid,
                maze == grid@,
                states == 4 * maze.area(),
                edges@ == edges_of(maze, curr),
                i <= edges@.len(),
                key == key_of(maze, curr),
                visited@.contains_key(key),
                visited@[key] == cost,
                cost + TURN <= TURN * settled,
                TURN * settled <= usize::MAX,
                frontier(maze, start, visited@, queue_entries(tentative), Some(curr), i as int),
                forall|k: usize| #[trigger]
                    queue_entries(tentative).contains_key(k) ==> queue_entries(tentative)[k]
                        <= TURN * settled,
            decreases edges@.len() - i,
        {
            let neighbour = edges[i];
            let ghost waiting = queue_entries(tentative);
            proof {
                lemma_edges(maze, curr);
                assert(passable(maze, edges_of(maze, curr)[i as int].next.position));
            }
            let next_key = grid.state_offset(neighbour.next.position, neighbour.next.facing);
            // Don't visit the same node twice.
            if index_map_get(&visited, next_key).is_none() {
                // Update this neighbour's tentative cost, as the minimum cost to reach it.
                let cost_through_here = cost + neighbour.cost;
                let min_cost = match queue_get_priority(&tentative, next_key) {
                    Some(previous_cost) => if previous_cost < cost_through_here {
                        previous_cost
                    } else {
                        cost_through_here
                    },
                    None => cost_through_here,
                };
                queue_push(&mut tentative, next_key, min_cost);
            }
            proof {
                lemma_frontier_relax(
                    maze,
                    start,
                    visited@,
                    waiting,
                    queue_entries(tentative),
                    curr,
                    i as int,
                );
            }
            i += 1;
        }
        proof {
            lemma_frontier_settled(maze, start, visited@, queue_entries(tentative), curr);
        }
    }
}

/// Finds a cheapest route from `start` to `end`, whichever way the reindeer
/// faces when it gets there.
pub fn dijkstra(input: &Input, start: State, end: Point) -> (found: Result<
    (State, usize),
    SearchError,
>)
    requires
        input.wf(),
        passable(input.grid@, start.position),
    ensures
        match found {
            Ok((goal, cost)) => {
                &&& goal.position == end
                &&& costs(input.grid@, start, goal, cost as nat)
                &&& least(input.grid@, start, end, None, cost as nat)
            },
            Err(_) => unreachable(input.grid@, start, end, None),
        },
{
    search(input, start, end, None)
}

/// Whether the moves from `s` have been written down when the cells before
/// column `x`, the cells of column `x` above row `y`, and the first `k`
/// facings of the cell in column `x` and row `y` have been dealt with.
pub open spec fn listed_before(s: State, x: int, y: int, k: int) -> bool {
    ||| s.position.x < x
    ||| (s.position.x == x && s.position.y < y)
    ||| (s.position.x == x && s.position.y == y && s.facing.ordinal() < k)
}

/// Whether `graph` holds the moves of the states dealt with so far.
pub open spec fn describes_upto(
    graph: Map<usize, Vec<Edge>>,
    maze: GridView<Cell>,
    x: int,
    y: int,
    k: int,
) -> bool {
    &&& forall|s: State|
        maze.in_bounds(s.position) ==> (graph.contains_key(#[trigger] key_of(maze, s)) <==> passable(
            maze,
            s.position,
        ) && listed_before(s, x, y, k))
    &&& forall|s: State|
        passable(maze, s.position) && listed_before(s, x, y, k) ==> graph[#[trigger] key_of(
            maze,
            s,
        )]@ == edges_of(maze, s)
    &&& forall|key: usize| graph.contains_key(key) ==> key < 4 * maze.area()
}

/// The moves of one more state have been written down.
proof fn lemma_graph_insert(
    graph: Map<usize, Vec<Edge>>,
    maze: GridView<Cell>,
    curr: State,
    edges: Vec<Edge>,
)
    requires
        maze.wf(),
        4 * maze.area() <= usize::MAX,
        passable(maze, curr.position),
        describes_upto(graph, maze, curr.position.x as int, curr.position.y as int, curr.facing.ordinal()),
        edges@ == edges_of(maze, curr),
    ensures
        describes_upto(
            graph.insert(key_of(maze, curr), edges),
            maze,
            curr.position.x as int,
            curr.position.y as int,
            curr.facing.ordinal() + 1,
        ),
{
    let after = graph.insert(key_of(maze, curr), edges);
    let x = curr.position.x as int;
    let y = curr.position.y as int;
    let k = curr.facing.ordinal();
    maze.lemma_state_index(curr.position, curr.facing, curr.position, curr.facing);
    assert forall|s: State| maze.in_bounds(s.position) implies (after.contains_key(
        #[trigger] key_of(maze, s),
    ) <==> passable(maze, s.position) && listed_before(s, x, y, k + 1)) && (passable(
        maze,
        s.position,
    ) && listed_before(s, x, y, k + 1) ==> after[key_of(maze, s)]@ == edges_of(maze, s)) by {
        maze.lemma_state_index(s.position, s.facing, curr.position, curr.facing);
        maze.lemma_state_index(curr.position, curr.facing, s.position, s.facing);
        if s != curr {
            assert(key_of(maze, s) != key_of(maze, curr));
            assert(listed_before(s, x, y, k + 1) == listed_before(s, x, y, k));
        }
    }
}

/// Lists the moves from every state on an empty cell.
pub fn make_graph(grid: &Grid<Cell>) -> (graph: Graph)
    requires
        grid.wf(),
        4 * grid@.area() <= usize::MAX,
    ensures
        describes(graph@, grid@),
{
    let ghost maze = grid@;
    let mut graph: Graph = FxHashMap::default();
    let dirs = Dir::all();
    // List all nodes, i.e. cartesian product of
    // - every empty cell
    // - every orientation
    let mut x: usize = 0;
    while x < grid.width
        invariant
            grid.wf(),
            maze == grid@,
            4 * maze.area() <= usize::MAX,
            dirs@ == Dir::spec_all(),
            x <= grid.width,
            describes_upto(graph@, maze, x as int, 0, 0),
        decreases grid.width - x,
    {
        let mut y: usize = 0;
        while y < grid.height
            invariant
                grid.wf(),
                maze == grid@,
                4 * maze.area() <= usize::MAX,
                dirs@ == Dir::spec_all(),
                x < grid.width,
                y <= grid.height,
                describes_upto(graph@, maze, x as int, y as int, 0),
            decreases grid.height - y,
        {
            let position = Point::from_indices(x, y);
            if *grid.get_unchecked(position) == Cell::Empty {
                let mut k: usize = 0;
                while k < 4
                    invariant
                        grid.wf(),
                        maze == grid@,
                        4 * maze.area() <= usize::MAX,
                        dirs@ == Dir::spec_all(),
                        position.x == x,
                        position.y == y,
                        passable(maze, position),
                        k <= 4,
                        describes_upto(graph@, maze, x as int, y as int, k as int),
                    decreases 4 - k,
                {
                    let dir = dirs[k];
                    let curr = State { position, facing: dir };
                    // The reindeer has either 2 or 3 options.
                    // It can always turn left, it can always turn right.
                    let mut edges: Vec<Edge> = Vec::new();
                    edges.push(
                        Edge {
                            next: State { position: curr.position, facing: curr.facing.to_left() },
                            cost: TURN,
                        },
                    );
                    edges.push(
                        Edge {
                            next: State { position: curr.position, facing: curr.facing.to_right() },
                            cost: TURN,
                        },
                    );
                    // The reindeer can sometimes move forward, if it's facing an empty space.
                    let next = dir.step_from(curr.position);
                    let free = match grid.get(next) {
                        Some(cell) => *cell == Cell::Empty,
                        None => false,
                    };
                    if free {
                        edges.push(Edge { next: State { position: next, facing: dir }, cost: FWD });
                    }
                    let key = grid.state_offset(position, dir);
                    proof {
                        assert(edges@ =~= edges_of(maze, curr));
                        lemma_graph_insert(graph@, maze, curr, edges);
                    }
                    index_map_insert(&mut graph, key, edges);
                    k += 1;
                }
            }
            proof {
                assert forall|s: State|
                    listed_before(s, x as int, y as int + 1, 0) == (listed_before(
                        s,
                        x as int,
                        y as int,
                        4,
                    ) || (s.position == position && !listed_before(s, x as int, y as int, 0))) by {}
                assert(describes_upto(graph@, maze, x as int, y as int + 1, 0));
            }
            y += 1;
        }
        proof {
            assert forall|s: State| maze.in_bounds(s.position) implies listed_before(
                s,
                x as int + 1,
                0,
                0,
            ) == listed_before(s, x as int, grid.height as int, 0) by {}
        }
        x += 1;
    }
    proof {
        assert forall|s: State| maze.in_bounds(s.position) implies listed_before(
            s,
            grid.width as int,
            0,
            0,
        ) by {}
    }
    graph
}

/// The byte that marks a wall in the text of a maze.
pub const WALL_MARK: u8 = 35;

/// The byte that marks an empty cell in the text of a maze.
pub const EMPTY_MARK: u8 = 46;

/// The byte that marks the start in the text of a maze.
pub const START_MARK: u8 = 83;

/// The byte that marks the end in the text of a maze.
pub const END_MARK: u8 = 69;

/// Whether `byte` may stand in the text of a maze.
pub open spec fn is_mark(byte: u8) -> bool {
    byte == WALL_MARK || byte == EMPTY_MARK || byte == START_MARK || byte == END_MARK
}

/// Whether `text` shows a maze of the given size: a map of walls and empty
/// cells with a start and an end, small enough for every cost to fit.
pub open spec fn is_maze_text(text: Seq<u8>, width: nat, height: nat) -> bool {
    &&& is_text_grid(text, width, height)
    &&& 4 * (width * height) * TURN <= usize::MAX
    &&& forall|p: Point|
        0 <= p.x < width && 0 <= p.y < height ==> is_mark(#[trigger] text_cell(text, width, p))
    &&& exists|p: Point|
        0 <= p.x < width && 0 <= p.y < height && #[trigger] text_cell(text, width, p) == START_MARK
    &&& exists|p: Point|
        0 <= p.x < width && 0 <= p.y < height && #[trigger] text_cell(text, width, p) == END_MARK
}

impl Input {
    /// Whether `self` is the maze written in `text`: a wall for each `#`, the
    /// start where the last `S` stands and the end where the last `E` stands.
    pub open spec fn shows(&self, text: Seq<u8>) -> bool {
        let maze = self.grid@;
        &&& self.wf()
        &&& is_maze_text(text, maze.width, maze.height)
        &&& forall|p: Point|
            maze.in_bounds(p) ==> (#[trigger] maze.cell(p) == Cell::Wall <==> text_cell(
                text,
                maze.width,
                p,
            ) == WALL_MARK)
        &&& maze.in_bounds(self.start)
        &&& text_cell(text, maze.width, self.start) == START_MARK
        &&& forall|p: Point|
            maze.in_bounds(p) && #[trigger] text_cell(text, maze.width, p) == START_MARK
                ==> maze.index_of(p) <= maze.index_of(self.start)
        &&& maze.in_bounds(self.end)
        &&& text_cell(text, maze.width, self.end) == END_MARK
        &&& forall|p: Point|
            maze.in_bounds(p) && #[trigger] text_cell(text, maze.width, p) == END_MARK
                ==> maze.index_of(p) <= maze.index_of(self.end)
    }
}

/// Reads a maze. Spaces, tabs and carriage returns in the text are skipped.
/// The result is `None` when what is left shows no maze.
pub fn parse(input: &str) -> (parsed: Option<Input>)
    ensures
        match parsed {
            Some(maze) => maze.shows(without_blanks(input.spec_bytes())),
            None => forall|w: nat, h: nat| !is_maze_text(without_blanks(input.spec_bytes()), w, h),
        },
{
    let ghost text = without_blanks(input.spec_bytes());
    let stripped = strip_blanks(input.as_bytes());
    let raw = match parse_grid(stripped.as_slice()) {
        Some(raw) => raw,
        None => {
            return None;
        },
    };
    proof {
        assert forall|w: nat, h: nat| is_maze_text(text, w, h) implies w == raw@.width && h
            == raw@.height by {
            crate::text::lemma_text_grid_unique(text, w, h, raw@.width, raw@.height);
        }
        assert forall|p: Point| raw@.in_bounds(p) implies raw@.cell(p) == text_cell(
            text,
            raw@.width,
            p,
        ) by {}
    }
    let n = raw.inner.len();
    let fits = match n.checked_mul(4) {
        Some(states) => states.checked_mul(TURN).is_some(),
        None => false,
    };
    if !fits {
        proof {
            assert(4 * (raw@.width * raw@.height) * TURN == (n * 4) * TURN) by (nonlinear_arith)
                requires
                    n == raw@.width * raw@.height,
            ;
            assert((n * 4) * TURN >= n * 4) by (nonlinear_arith)
                requires
                    TURN >= 1,
                    n >= 0,
            ;
        }
        return None;
    }
    let start = match find_last(&raw, START_MARK) {
        Some(start) => start,
        None => {
            proof {
                assert forall|w: nat, h: nat| !is_maze_text(text, w, h) by {
                    if is_maze_text(text, w, h) {
                        let p = choose|p: Point|
                            0 <= p.x < w && 0 <= p.y < h && #[trigger] text_cell(text, w, p)
                                == START_MARK;
                        assert(raw@.in_bounds(p));
                        assert(raw@.cell(p) == text_cell(text, raw@.width, p));
                    }
                }
            }
            return None;
        },
    };
    let end = match find_last(&raw, END_MARK) {
        Some(end) => end,
        None => {
            proof {
                assert forall|w: nat, h: nat| !is_maze_text(text, w, h) by {
                    if is_maze_text(text, w, h) {
                        let p = choose|p: Point|
                            0 <= p.x < w && 0 <= p.y < h && #[trigger] text_cell(text, w, p)
                                == END_MARK;
                        assert(raw@.in_bounds(p));
                        assert(raw@.cell(p) == text_cell(text, raw@.width, p));
                    }
                }
            }
            return None;
        },
    };
    let mut inner: Vec<Cell> = Vec::with_capacity(n);
    let mut i: usize = 0;
    while i < n
        invariant
            raw.wf(),
            text == without_blanks(input.spec_bytes()),
            n == raw.inner@.len(),
            i <= n,
            inner@.len() == i,
            forall|j: int|
                0 <= j < i ==> is_mark(raw.inner@[j]) && (#[trigger] inner@[j] == Cell::Wall
                    <==> raw.inner@[j] == WALL_MARK),
            forall|w: nat, h: nat| is_maze_text(text, w, h) ==> w == raw@.width && h == raw@.height,
            forall|p: Point| raw@.in_bounds(p) ==> raw@.cell(p) == text_cell(text, raw@.width, p),
        decreases n - i,
    {
        let byte = raw.inner[i];
        let cell = if byte == WALL_MARK {
            Cell::Wall
        } else if byte == EMPTY_MARK || byte == START_MARK || byte == END_MARK {
            Cell::Empty
        } else {
            proof {
                raw@.lemma_index_point(i as int);
                let p = raw@.point_at(i as int);
                assert(raw@.cell(p) == byte);
                assert(text_cell(text, raw@.width, p) == byte);
                assert forall|w: nat, h: nat| !is_maze_text(text, w, h) by {
                    if is_maze_text(text, w, h) {
                        assert(0 <= p.x < w && 0 <= p.y < h);
                        assert(is_mark(text_cell(text, w, p)));
                    }
                }
            }
            return None;
        };
        inner.push(cell);
        i += 1;
    }
    let grid = Grid { width: raw.width, height: raw.height, inner };
    proof {
        assert(4 * grid@.area() * TURN == 4 * n * TURN) by (nonlinear_arith)
            requires
                n == grid@.area(),
        ;
        assert(4 * (grid@.width * grid@.height) * TURN == 4 * n * TURN) by (nonlinear_arith)
            requires
                n == grid@.width * grid@.height,
        ;
        assert forall|p: Point| grid@.in_bounds(p) implies (#[trigger] grid@.cell(p) == Cell::Wall
            <==> text_cell(text, grid@.width, p) == WALL_MARK) && is_mark(
            text_cell(text, grid@.width, p),
        ) by {
            raw@.lemma_point_index(p);
            assert(raw@.cell(p) == text_cell(text, raw@.width, p));
        }
        assert forall|p: Point|
            0 <= p.x < grid@.width && 0 <= p.y < grid@.height implies is_mark(
            #[trigger] text_cell(text, grid@.width, p),
        ) by {
            assert(raw@.in_bounds(p));
            raw@.lemma_point_index(p);
            assert(raw@.cell(p) == text_cell(text, raw@.width, p));
            let k = raw@.index_of(p);
            assert(grid.inner@[k] == Cell::Wall <==> raw.inner@[k] == WALL_MARK);
        }
        assert(raw@.cell(start) == text_cell(text, raw@.width, start));
        assert(raw@.cell(end) == text_cell(text, raw@.width, end));
        assert forall|p: Point|
            grid@.in_bounds(p) && #[trigger] text_cell(text, grid@.width, p)
                == START_MARK implies grid@.index_of(p) <= grid@.index_of(start) by {
            assert(raw@.cell(p) == START_MARK);
        }
        assert forall|p: Point|
            grid@.in_bounds(p) && #[trigger] text_cell(text, grid@.width, p)
                == END_MARK implies grid@.index_of(p) <= grid@.index_of(end) by {
            assert(raw@.cell(p) == END_MARK);
        }
    }
    let graph = make_graph(&grid);
    Some(Input { grid, start, end, graph })
}

/// The least cost of a route from the start, facing right, to the end.
pub fn q1(input: &Input) -> (best: Result<usize, SearchError>)
    requires
        input.wf(),
        passable(input.grid@, input.start),
    ensures
        match best {
            Ok(cost) => least(input.grid@, input.spec_start(), input.end, None, cost as nat),
            Err(_) => unreachable(input.grid@, input.spec_start(), input.end, None),
        },
{
    match dijkstra(input, input.start(), input.end) {
        Ok((_, cost)) => Ok(cost),
        Err(error) => Err(error),
    }
}

/// Whether a cheapest route from `start` to `end` passes the cell `p` facing
/// `facing`: the least cost to get there that way and the least cost to go on
/// from there add up to `best`.
pub open spec fn passes(
    maze: GridView<Cell>,
    start: State,
    end: Point,
    p: Point,
    facing: Dir,
    best: nat,
) -> bool {
    exists|to: nat, from: nat|
        #![trigger least(maze, start, p, Some(facing), to), least(maze, State { position: p, facing }, end, None, from)]
        least(maze, start, p, Some(facing), to) && least(
            maze,
            State { position: p, facing },
            end,
            None,
            from,
        ) && to + from == best
}

/// Whether the cell `p` lies on some cheapest route from `start` to `end`,
/// where a cheapest route costs `best`.
pub open spec fn on_best_route(
    maze: GridView<Cell>,
    start: State,
    end: Point,
    p: Point,
    best: nat,
) -> bool {
    exists|facing: Dir| #[trigger] passes(maze, start, end, p, facing, best)
}

/// The cells that lie on some cheapest route from `start` to `end`.
pub open spec fn best_cells(maze: GridView<Cell>, start: State, end: Point, best: nat) -> Set<Point> {
    Set::new(|p: Point| passable(maze, p) && on_best_route(maze, start, end, p, best))
}

/// Whether a cheapest route passes the cell `p` facing `facing`.
fn passes_facing(input: &Input, start: State, p: Point, facing: Dir, best: usize) -> (on: bool)
    requires
        input.wf(),
        passable(input.grid@, start.position),
        passable(input.grid@, p),
    ensures
        on == passes(input.grid@, start, input.end, p, facing, best as nat),
{
    let ghost maze = input.grid@;
    let ghost here = State { position: p, facing };
    let (p_state, cost_to) = match search(input, start, p, Some(facing)) {
        Ok(found) => found,
        Err(_) => {
            return false;
        },
    };
    assert(p_state == here);
    if cost_to > best {
        proof {
            assert forall|to: nat, from: nat|
                least(maze, start, p, Some(facing), to) && least(maze, here, input.end, None, from)
                implies to + from != best by {
                lemma_least_unique(maze, start, p, Some(facing), to, cost_to as nat);
            }
        }
        return false;
    }
    let cost_from = match search(input, p_state, input.end, None) {
        Ok((_, cost)) => cost,
        Err(_) => {
            return false;
        },
    };
    proof {
        assert forall|to: nat, from: nat|
            least(maze, start, p, Some(facing), to) && least(
                maze,
                here,
                input.end,
                None,
                from,
            ) implies to == cost_to && from == cost_from by {
            lemma_least_unique(maze, start, p, Some(facing), to, cost_to as nat);
            lemma_least_unique(maze, here, input.end, None, from, cost_from as nat);
        }
        if cost_from == best - cost_to {
            assert(least(maze, start, p, Some(facing), cost_to as nat) && least(
                maze,
                here,
                input.end,
                None,
                cost_from as nat,
            ));
        }
    }
    cost_from == best - cost_to
}

/// Whether the cell `p` lies on some cheapest route.
fn on_best_path(input: &Input, start: State, p: Point, best: usize) -> (on: bool)
    requires
        input.wf(),
        passable(input.grid@, start.position),
        passable(input.grid@, p),
    ensures
        on == on_best_route(input.grid@, start, input.end, p, best as nat),
{
    let ghost maze = input.grid@;
    let dirs = Dir::all();
    let mut on = false;
    let mut k: usize = 0;
    while k < 4
        invariant
            input.wf(),
            maze == input.grid@,
            passable(maze, start.position),
            passable(maze, p),
            dirs@ == Dir::spec_all(),
            k <= 4,
            on == exists|j: int|
                0 <= j < k && #[trigger] passes(
                    maze,
                    start,
                    input.end,
                    p,
                    Dir::spec_all()[j],
                    best as nat,
                ),
        decreases 4 - k,
    {
        let works = passes_facing(input, start, p, dirs[k], best);
        proof {
            if works {
                assert(0 <= k < k + 1 && passes(
                    maze,
                    start,
                    input.end,
                    p,
                    Dir::spec_all()[k as int],
                    best as nat,
                ));
            } else if exists|j: int|
                0 <= j < k + 1 && #[trigger] passes(
                    maze,
                    start,
                    input.end,
                    p,
                    Dir::spec_all()[j],
                    best as nat,
                ) {
                let j = choose|j: int|
                    0 <= j < k + 1 && #[trigger] passes(
                        maze,
                        start,
                        input.end,
                        p,
                        Dir::spec_all()[j],
                        best as nat,
                    );
                assert(0 <= j < k);
            }
        }
        on = on || works;
        k += 1;
    }
    proof {
        if on_best_route(maze, start, input.end, p, best as nat) {
            let facing = choose|facing: Dir| #[trigger]
                passes(maze, start, input.end, p, facing, best as nat);
            assert(Dir::spec_all()[facing.ordinal()] == facing);
        }
    }
    on
}

/// The number of cells that lie on some cheapest route from the start,
/// facing right, to the end.
pub fn q2(input: &Input) -> (count: Result<usize, SearchError>)
    requires
        input.wf(),
        passable(input.grid@, input.start),
    ensures
        match count {
            Ok(cells) => exists|best: nat| #[trigger]
                least(input.grid@, input.spec_start(), input.end, None, best) && cells
                    == best_cells(input.grid@, input.spec_start(), input.end, best).len(),
            Err(_) => unreachable(input.grid@, input.spec_start(), input.end, None),
        },
{
    let ghost maze = input.grid@;
    let start = input.start();
    let best_path_cost = match dijkstra(input, start, input.end) {
        Ok((_, cost)) => cost,
        Err(error) => {
            return Err(error);
        },
    };
    let area = input.grid.inner.len();
    let ghost mut found: Set<Point> = Set::empty();
    let mut cells: usize = 0;
    let mut i: usize = 0;
    while i < area
        invariant
            input.wf(),
            maze == input.grid@,
            start == input.spec_start(),
            passable(maze, start.position),
            area == maze.area(),
            i <= area,
            found.finite(),
            cells == found.len(),
            cells <= i,
            forall|p: Point|
                found.contains(p) <==> passable(maze, p) && maze.index_of(p) < i && on_best_route(
                    maze,
                    start,
                    input.end,
                    p,
                    best_path_cost as nat,
                ),
        decreases area - i,
    {
        let p = input.grid.point_of(i);
        if *input.grid.get_unchecked(p) == Cell::Empty {
            // If this point is part of a best path?
            if on_best_path(input, start, p, best_path_cost) {
                cells += 1;
                proof {
                    found = found.insert(p);
                }
            }
        }
        proof {
            assert forall|q: Point|
                found.contains(q) <==> passable(maze, q) && maze.index_of(q) < i + 1
                    && on_best_route(maze, start, input.end, q, best_path_cost as nat) by {
                if maze.in_bounds(q) && maze.index_of(q) == i {
                    maze.lemma_index_injective(q, p);
                }
            }
        }
        i += 1;
    }
    proof {
        assert(found =~= best_cells(maze, start, input.end, best_path_cost as nat)) by {
            assert forall|p: Point| passable(maze, p) implies maze.index_of(p) < area by {
                maze.lemma_point_index(p);
            }
        }
    }
    Ok(cells)
}

} // verus!
