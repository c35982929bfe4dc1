//! Breadth-first search over a graph whose nodes are numbered from zero.
use vstd::prelude::*;

verus! {

/// The graph that the lists of neighbours `rows` describe: for each node
/// the nodes to which an edge leads from it.
pub open spec fn links(rows: Seq<Vec<usize>>) -> Seq<Seq<usize>> {
    Seq::new(rows.len(), |a: int| rows[a]@)
}

/// Whether the graph has an edge from `a` to `b`.
pub open spec fn has_edge(adj: Seq<Seq<usize>>, a: usize, b: usize) -> bool {
    a < adj.len() && adj[a as int].contains(b)
}

/// Whether every edge of the graph leads to one of its nodes.
pub open spec fn is_graph(adj: Seq<Seq<usize>>) -> bool {
    forall|a: int, i: int|
        0 <= a < adj.len() && 0 <= i < adj[a].len() ==> (#[trigger] adj[a][i]) < adj.len()
}

/// `walk` follows edges of the graph from node to node.
pub open spec fn is_walk(adj: Seq<Seq<usize>>, walk: Seq<usize>) -> bool {
    &&& walk.len() >= 1
    &&& walk[0] < adj.len()
    &&& forall|i: int| 0 <= i < walk.len() - 1 ==> has_edge(adj, #[trigger] walk[i], walk[i + 1])
}

/// Some walk of `steps` edges leads from `from` to `to`.
pub open spec fn reaches_in(adj: Seq<Seq<usize>>, from: usize, to: usize, steps: nat) -> bool {
    exists|walk: Seq<usize>| #[trigger]
        is_walk(adj, walk) && walk.first() == from && walk.last() == to && walk.len() == steps + 1
}

/// `steps` is the least number of edges on a walk from `from` to a node
/// marked in `goal`, and `to` is a marked node that many edges away.
pub open spec fn nearest(
    adj: Seq<Seq<usize>>,
    goal: Seq<bool>,
    from: usize,
    to: usize,
    steps: nat,
) -> bool {
    &&& to < goal.len()
    &&& goal[to as int]
    &&& reaches_in(adj, from, to, steps)
    &&& forall|other: usize, k: nat|
        other < goal.len() && goal[other as int] && #[trigger] reaches_in(adj, from, other, k)
            ==> steps <= k
}

/// No walk leads from `from` to a node marked in `goal`.
pub open spec fn none_in_reach(adj: Seq<Seq<usize>>, goal: Seq<bool>, from: usize) -> bool {
    forall|other: usize, k: nat|
        other < goal.len() && goal[other as int] ==> !#[trigger] reaches_in(adj, from, other, k)
}

/// A walk goes on by one edge.
pub proof fn lemma_reaches_step(adj: Seq<Seq<usize>>, from: usize, via: usize, to: usize, steps: nat)
    requires
        reaches_in(adj, from, via, steps),
        has_edge(adj, via, to),
    ensures
        reaches_in(adj, from, to, steps + 1),
{
    let walk = choose|walk: Seq<usize>| #[trigger]
        is_walk(adj, walk) && walk.first() == from && walk.last() == via && walk.len() == steps + 1;
    let longer = walk.push(to);
    assert forall|i: int| 0 <= i < longer.len() - 1 implies has_edge(
        adj,
        #[trigger] longer[i],
        longer[i + 1],
    ) by {
        if i < walk.len() - 1 {
            assert(has_edge(adj, walk[i], walk[i + 1]));
        }
    }
    assert(is_walk(adj, longer) && longer.first() == from && longer.last() == to && longer.len()
        == steps + 2);
}

/// What holds during a search from `start`: `dist` gives the number of
/// edges to each node discovered, `queue` lists the nodes in the order in
/// which they were discovered, those before `head` have had their edges
/// followed, and of the node at `head` the first `done` edges.
pub open spec fn searching(
    adj: Seq<Seq<usize>>,
    start: usize,
    dist: Seq<Option<usize>>,
    queue: Seq<usize>,
    head: int,
    done: int,
) -> bool {
    &&& dist.len() == adj.len()
    &&& 0 <= head <= queue.len()
    &&& queue.len() >= 1
    &&& queue[0] == start
    &&& dist[start as int] == Some(0usize)
    &&& queue.no_duplicates()
    &&& forall|i: int|
        0 <= i < queue.len() ==> (#[trigger] queue[i]) < adj.len() && dist[queue[i] as int].is_some()
    &&& forall|v: int|
        0 <= v < dist.len() && (#[trigger] dist[v]).is_some() ==> queue.contains(v as usize)
    &&& forall|i: int, j: int|
        0 <= i <= j < queue.len() ==> dist[#[trigger] queue[i] as int].unwrap() <= dist[
            #[trigger] queue[j] as int].unwrap()
    &&& forall|i: int|
        head <= i < queue.len() ==> dist[#[trigger] queue[i] as int].unwrap() <= dist[queue[
            head] as int].unwrap() + 1
    &&& forall|i: int| 0 <= i < queue.len() ==> dist[#[trigger] queue[i] as int].unwrap() <= i
    &&& forall|i: int|
        0 <= i < queue.len() ==> reaches_in(
            adj,
            start,
            #[trigger] queue[i],
            dist[queue[i] as int].unwrap() as nat,
        )
    &&& forall|i: int, t: usize|
        0 <= i < head && #[trigger] has_edge(adj, queue[i], t) ==> relaxed(dist, queue[i], t)
    &&& head < queue.len() ==> forall|e: int|
        0 <= e < done && e < adj[queue[head] as int].len() ==> relaxed(
            dist,
            queue[head],
            #[trigger] adj[queue[head] as int][e],
        )
}

/// The node `to` has been discovered at most one edge further than `from`.
pub open spec fn relaxed(dist: Seq<Option<usize>>, from: usize, to: usize) -> bool {
    &&& to < dist.len()
    &&& dist[to as int].is_some()
    &&& dist[to as int].unwrap() <= dist[from as int].unwrap() + 1
}

/// Where `v` stands in the queue.
pub open spec fn place_of(queue: Seq<usize>, v: usize) -> int {
    choose|i: int| 0 <= i < queue.len() && queue[i] == v
}

/// No walk from `start` is shorter than what the search knows: a walk to a
/// node whose edges have been followed has at least as many edges as the
/// node's distance, and a walk to any other node has at least as many
/// edges as the distance of some node that still waits.
pub proof fn lemma_lower_bound(
    adj: Seq<Seq<usize>>,
    start: usize,
    dist: Seq<Option<usize>>,
    queue: Seq<usize>,
    head: int,
    walk: Seq<usize>,
)
    requires
        is_graph(adj),
        searching(adj, start, dist, queue, head, 0),
        is_walk(adj, walk),
        walk.first() == start,
    ensures
        walk.last() < adj.len(),
        (exists|i: int|
            0 <= i < head && #[trigger] queue[i] == walk.last() && dist[queue[i] as int].unwrap()
                <= walk.len() - 1) || (exists|i: int|
            head <= i < queue.len() && dist[#[trigger] queue[i] as int].unwrap() <= walk.len() - 1),
    decreases walk.len(),
{
    let v = walk.last();
    if walk.len() == 1 {
        if head > 0 {
            assert(queue[0] == walk.last());
        } else {
            assert(dist[queue[0] as int].unwrap() <= 0);
        }
    } else {
        let shorter = walk.drop_last();
        let y = shorter.last();
        assert forall|i: int| 0 <= i < shorter.len() - 1 implies has_edge(
            adj,
            #[trigger] shorter[i],
            shorter[i + 1],
        ) by {
            assert(has_edge(adj, walk[i], walk[i + 1]));
        }
        lemma_lower_bound(adj, start, dist, queue, head, shorter);
        assert(has_edge(adj, walk[walk.len() - 2], walk[walk.len() - 2 + 1]));
        assert(has_edge(adj, y, v));
        let e = choose|e: int| 0 <= e < adj[y as int].len() && adj[y as int][e] == v;
        assert(adj[y as int][e] < adj.len());
        if exists|i: int|
            0 <= i < head && #[trigger] queue[i] == y && dist[queue[i] as int].unwrap()
                <= shorter.len() - 1 {
            let i = choose|i: int|
                0 <= i < head && #[trigger] queue[i] == y && dist[queue[i] as int].unwrap()
                    <= shorter.len() - 1;
            assert(relaxed(dist, queue[i], v));
            assert(queue.contains(v));
            let j = place_of(queue, v);
            assert(queue[j] == v);
        } else {
            let x = choose|i: int|
                head <= i < queue.len() && dist[#[trigger] queue[i] as int].unwrap() <= shorter.len()
                    - 1;
            if dist[v as int].is_some() {
                assert(queue.contains(v));
                let j = place_of(queue, v);
                assert(queue[j] == v);
                if j < head {
                    assert(dist[queue[j] as int].unwrap() <= dist[queue[x] as int].unwrap());
                }
            }
            assert(head <= x < queue.len() && dist[queue[x] as int].unwrap() <= walk.len() - 1);
        }
    }
}

/// A list of different nodes is no longer than the graph has nodes.
proof fn lemma_queue_len(queue: Seq<usize>, n: nat)
    requires
        queue.no_duplicates(),
        n <= usize::MAX,
        forall|i: int| 0 <= i < queue.len() ==> (#[trigger] queue[i]) < n,
    ensures
        queue.len() <= n,
{
    queue.unique_seq_to_set();
    crate::arith::lemma_bounded_set_len(queue.to_set(), n);
}

/// One more edge from the node at the head of the queue has been followed.
proof fn lemma_follow(
    adj: Seq<Seq<usize>>,
    start: usize,
    dist: Seq<Option<usize>>,
    queue: Seq<usize>,
    head: int,
    done: int,
    after: Seq<Option<usize>>,
    longer: Seq<usize>,
)
    requires
        is_graph(adj),
        searching(adj, start, dist, queue, head, done),
        head < queue.len(),
        0 <= done < adj[queue[head] as int].len(),
        dist[queue[head] as int].unwrap() < usize::MAX,
        ({
            let to = adj[queue[head] as int][done];
            if dist[to as int].is_some() {
                after == dist && longer == queue
            } else {
                after == dist.update(
                    to as int,
                    Some((dist[queue[head] as int].unwrap() + 1) as usize),
                ) && longer == queue.push(to)
            }
        }),
    ensures
        searching(adj, start, after, longer, head, done + 1),
{
    let u = queue[head];
    let to = adj[u as int][done];
    let d = dist[u as int].unwrap();
    assert(to < adj.len());
    assert(has_edge(adj, u, to));
    if dist[to as int].is_some() {
        assert(queue.contains(to));
        let j = place_of(queue, to);
        assert(queue[j] == to);
        if j < head {
            assert(dist[queue[j] as int].unwrap() <= dist[queue[head] as int].unwrap());
        }
    } else {
        assert(!queue.contains(to)) by {
            if queue.contains(to) {
                let j = place_of(queue, to);
                assert(dist[queue[j] as int].is_some());
            }
        }
        assert(reaches_in(adj, start, queue[head], d as nat));
        lemma_reaches_step(adj, start, u, to, d as nat);
        let last = queue.len() as int;
        assert(longer[last] == to);
        assert forall|i: int| 0 <= i < longer.len() implies (#[trigger] longer[i]) < adj.len()
            && after[longer[i] as int].is_some() && reaches_in(
            adj,
            start,
            longer[i],
            after[longer[i] as int].unwrap() as nat,
        ) by {
            if i < last {
                assert(longer[i] == queue[i]);
                assert(queue[i] != to);
            }
        }
        assert forall|v: int|
            0 <= v < after.len() && (#[trigger] after[v]).is_some() implies longer.contains(
            v as usize,
        ) by {
            if v == to {
                assert(longer[last] == to);
            } else {
                assert(dist[v].is_some());
                let j = place_of(queue, v as usize);
                assert(longer[j] == v as usize);
            }
        }
        assert forall|i: int, j: int| 0 <= i <= j < longer.len() implies after[
            #[trigger] longer[i] as int].unwrap() <= after[#[trigger] longer[j] as int].unwrap() by {
            if j < last {
                assert(longer[i] == queue[i] && longer[j] == queue[j]);
                assert(dist[queue[i] as int].unwrap() <= dist[queue[j] as int].unwrap());
            } else if i < last {
                assert(longer[i] == queue[i]);
                if i < head {
                    assert(dist[queue[i] as int].unwrap() <= dist[queue[head] as int].unwrap());
                } else {
                    assert(dist[queue[i] as int].unwrap() <= dist[queue[head] as int].unwrap() + 1);
                }
            }
        }
        assert forall|i: int| head <= i < longer.len() implies after[
            #[trigger] longer[i] as int].unwrap() <= after[longer[head] as int].unwrap() + 1 by {
            if i < last {
                assert(longer[i] == queue[i]);
                assert(dist[queue[i] as int].unwrap() <= dist[queue[head] as int].unwrap() + 1);
            }
        }
        assert forall|i: int, t: usize| 0 <= i < head && #[trigger] has_edge(adj, longer[i], t) implies relaxed(
            after,
            longer[i],
            t,
        ) by {
            assert(longer[i] == queue[i]);
            assert(relaxed(dist, queue[i], t));
        }
        assert forall|i: int| 0 <= i < longer.len() implies after[
            #[trigger] longer[i] as int].unwrap() <= i by {
            if i < last {
                assert(longer[i] == queue[i]);
                assert(dist[queue[i] as int].unwrap() <= i);
            } else {
                assert(dist[queue[head] as int].unwrap() <= head);
            }
        }
        assert(longer.no_duplicates());
        assert(longer[0] == queue[0]);
        assert(longer[head] == queue[head]);
    }
    assert forall|e: int|
        0 <= e < done + 1 && e < adj[longer[head] as int].len() implies relaxed(
        after,
        longer[head],
        #[trigger] adj[longer[head] as int][e],
    ) by {
        if e < done {
            assert(relaxed(dist, queue[head], adj[queue[head] as int][e]));
        }
    }
}

/// All edges from the node at the head of the queue have been followed.
proof fn lemma_followed(
    adj: Seq<Seq<usize>>,
    start: usize,
    dist: Seq<Option<usize>>,
    queue: Seq<usize>,
    head: int,
)
    requires
        searching(adj, start, dist, queue, head, adj[queue[head] as int].len() as int),
        head < queue.len(),
    ensures
        searching(adj, start, dist, queue, head + 1, 0),
{
    let u = queue[head];
    assert forall|i: int, t: usize| 0 <= i < head + 1 && #[trigger] has_edge(adj, queue[i], t) implies relaxed(
        dist,
        queue[i],
        t,
    ) by {
        if i == head {
            let e = choose|e: int| 0 <= e < adj[u as int].len() && adj[u as int][e] == t;
            assert(relaxed(dist, queue[head], adj[queue[head] as int][e]));
        }
    }
    assert forall|i: int| head + 1 <= i < queue.len() implies dist[
        #[trigger] queue[i] as int].unwrap() <= dist[queue[head + 1] as int].unwrap() + 1 by {
        assert(dist[queue[i] as int].unwrap() <= dist[queue[head] as int].unwrap() + 1);
        assert(dist[queue[head] as int].unwrap() <= dist[queue[head + 1] as int].unwrap());
    }
}

/// Searches breadth first from `start` for a node marked in `goal`. The
/// result is the first marked node that the search comes to, with the number
/// of edges on the way, which is the least to any marked node; or `None` when
/// no marked node is in reach.
pub fn bfs(adj: &Vec<Vec<usize>>, goal: &Vec<bool>, start: usize) -> (found: Option<(usize, usize)>)
    requires
        is_graph(links(adj@)),
        goal@.len() == adj@.len(),
        start < adj@.len(),
    ensures
        match found {
            Some((to, steps)) => nearest(links(adj@), goal@, start, to, steps as nat),
            None => none_in_reach(links(adj@), goal@, start),
        },
{
    let n = adj.len();
    let ghost graph = links(adj@);
    // Cost to get to each node: the length of the shortest path to this node.
    let mut cost: Vec<Option<usize>> = Vec::with_capacity(n);
    let mut i: usize = 0;
    while i < n
        invariant
            i <= n,
            cost@.len() == i,
            forall|j: int| 0 <= j < i ==> (#[trigger] cost@[j]).is_none(),
        decreases n - i,
    {
        cost.push(None);
        i += 1;
    }
    // Queue of nodes to explore next.
    let mut queue: Vec<usize> = Vec::with_capacity(n);
    queue.push(start);
    cost.set(start, Some(0));
    let mut head: usize = 0;
    proof {
        let walk = seq![start];
        assert(is_walk(graph, walk) && walk.first() == start && walk.last() == start && walk.len()
            == 0 + 1);
        assert(queue@[0] == start);
        assert forall|v: int|
            0 <= v < cost@.len() && (#[trigger] cost@[v]).is_some() implies queue@.contains(
            v as usize,
        ) by {
            assert(queue@[0] == start);
        }
    }
    // Main loop
    while head < queue.len()
        invariant
            graph == links(adj@),
            n == graph.len(),
            is_graph(graph),
            goal@.len() == n,
            start < n,
            searching(graph, start, cost@, queue@, head as int, 0),
            forall|i: int| 0 <= i < head ==> !goal@[#[trigger] queue@[i] as int],
        decreases n - head,
    {
        proof {
            lemma_queue_len(queue@, n as nat);
        }
        let curr = queue[head];
        let curr_cost = match cost[curr] {
            Some(steps) => steps,
            None => 0,
        };
        if goal[curr] {
            proof {
                assert forall|other: usize, k: nat|
                    other < goal@.len() && goal@[other as int] && #[trigger] reaches_in(
                        graph,
                        start,
                        other,
                        k,
                    ) implies curr_cost <= k by {
                    let walk = choose|walk: Seq<usize>| #[trigger]
                        is_walk(graph, walk) && walk.first() == start && walk.last() == other
                            && walk.len() == k + 1;
                    lemma_lower_bound(graph, start, cost@, queue@, head as int, walk);
                    if exists|i: int|
                        0 <= i < head && #[trigger] queue@[i] == walk.last() && cost@[queue@[i] as int].unwrap()
                            <= walk.len() - 1 {
                        let i = choose|i: int|
                            0 <= i < head && #[trigger] queue@[i] == walk.last() && cost@[queue@[i] as int].unwrap()
                                <= walk.len() - 1;
                        assert(!goal@[queue@[i] as int]);
                    } else {
                        let x = choose|i: int|
                            head <= i < queue@.len() && cost@[#[trigger] queue@[i] as int].unwrap()
                                <= walk.len() - 1;
                        assert(cost@[queue@[head as int] as int].unwrap() <= cost@[queue@[x] as int].unwrap());
                    }
                }
                assert(reaches_in(graph, start, queue@[head as int], curr_cost as nat));
            }
            return Some((curr, curr_cost));
        }
        proof {
            assert(cost@[queue@[head as int] as int].unwrap() <= head);
        }
        let neighbours = &adj[curr];
        let mut e: usize = 0;
        while e < neighbours.len()
            invariant
                graph == links(adj@),
                n == graph.len(),
                is_graph(graph),
                start < n,
                head < queue@.len(),
                curr == queue@[head as int],
                curr < n,
                neighbours@ == graph[curr as int],
                cost@[curr as int] == Some(curr_cost),
                curr_cost < n,
                e <= neighbours@.len(),
                searching(graph, start, cost@, queue@, head as int, e as int),
                forall|i: int| 0 <= i < head ==> !goal@[#[trigger] queue@[i] as int],
            decreases neighbours@.len() - e,
        {
            let neighbour = neighbours[e];
            let ghost had = cost@;
            let ghost waiting = queue@;
            assert(graph[curr as int][e as int] < n);
            if cost[neighbour].is_none() {
                cost.set(neighbour, Some(curr_cost + 1));
                queue.push(neighbour);
            }
            proof {
                lemma_follow(graph, start, had, waiting, head as int, e as int, cost@, queue@);
                assert forall|i: int| 0 <= i < head implies !goal@[#[trigger] queue@[i] as int] by {
                    assert(queue@[i] == waiting[i]);
                }
                assert(queue@[head as int] == waiting[head as int]);
            }
            e += 1;
        }
        proof {
            lemma_followed(graph, start, cost@, queue@, head as int);
            lemma_queue_len(queue@, n as nat);
        }
        head += 1;
    }
    proof {
        assert forall|other: usize, k: nat|
            other < goal@.len() && goal@[other as int] implies !#[trigger] reaches_in(
            graph,
            start,
            other,
            k,
        ) by {
            if reaches_in(graph, start, other, k) {
                let walk = choose|walk: Seq<usize>| #[trigger]
                    is_walk(graph, walk) && walk.first() == start && walk.last() == other
                        && walk.len() == k + 1;
                lemma_lower_bound(graph, start, cost@, queue@, head as int, walk);
                if exists|i: int|
                    0 <= i < head && #[trigger] queue@[i] == walk.last() && cost@[queue@[i] as int].unwrap()
                        <= walk.len() - 1 {
                    let i = choose|i: int|
                        0 <= i < head && #[trigger] queue@[i] == walk.last() && cost@[queue@[i] as int].unwrap()
                            <= walk.len() - 1;
                    assert(!goal@[queue@[i] as int]);
                }
            }
        }
    }
    None
}

} // verus!
