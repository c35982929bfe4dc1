//! Bytes fall into a square memory space and corrupt the cells they hit. A
//! way is sought from the top left corner to the bottom right corner over
//! cells that are not corrupted.
use crate::bfs::{bfs as search, is_graph, links, nearest, none_in_reach};
use crate::dir::Dir;
use crate::grid::{Grid, GridView};
use crate::point::Point;
use crate::scan::{lines, numbers_fit, numbers_in, scan_numbers, split_lines, views};
use vstd::prelude::*;
use vstd::string::StringSliceAdditionalSpecFns;

verus! {

/// The places where the bytes fall, in the order in which they fall.
pub type Input = Vec<Point>;

/// For each cell, under its index, the indices of the cells to which a
/// step leads from it.
pub type Graph = Vec<Vec<usize>>;

/// The memory space after the first `n` bytes of `input` have fallen: a
/// cell is `true` when a byte has hit it. Bytes that miss the space change
/// nothing.
pub open spec fn fallen(width: nat, input: Seq<Point>, n: int) -> GridView<bool>
    decreases n,
{
    if n <= 0 {
        GridView { width, height: width, cells: Seq::new(width * width, |i: int| false) }
    } else {
        let before = fallen(width, input, n - 1);
        if n <= input.len() && before.in_bounds(input[n - 1]) {
            before.with_cell(input[n - 1], true)
        } else {
            before
        }
    }
}

/// The cells next to `p`, among the first `k` of its four neighbours, that
/// lie in the space and are not corrupted, each as its index.
pub open spec fn open_neighbours(space: GridView<bool>, p: Point, k: int) -> Seq<usize>
    decreases k,
{
    if k <= 0 {
        Seq::empty()
    } else {
        let next = Dir::spec_all()[k - 1].spec_step_from(p);
        if space.in_bounds(next) && !space.cell(next) {
            open_neighbours(space, p, k - 1).push(space.index_of(next) as usize)
        } else {
            open_neighbours(space, p, k - 1)
        }
    }
}

/// The steps that can be taken in `space`: from each cell that is not
/// corrupted to each cell next to it that is not corrupted.
pub open spec fn steps_of(space: GridView<bool>) -> Seq<Seq<usize>> {
    Seq::new(
        space.area(),
        |a: int|
            if space.cells[a] {
                Seq::empty()
            } else {
                open_neighbours(space, space.point_at(a), 4)
            },
    )
}

/// The list `list` without the node `target`.
pub open spec fn without(list: Seq<usize>, target: usize) -> Seq<usize>
    decreases list.len(),
{
    if list.len() == 0 {
        Seq::empty()
    } else if list.last() == target {
        without(list.drop_last(), target)
    } else {
        without(list.drop_last(), target).push(list.last())
    }
}

/// The graph without the edges that lead to `target`.
pub open spec fn pruned(graph: Seq<Seq<usize>>, target: usize) -> Seq<Seq<usize>> {
    Seq::new(graph.len(), |a: int| without(graph[a], target))
}

/// The graph after the bytes `input[from + 1]` to `input[from + count]` have
/// fallen: no edge leads to a cell that one of them has hit.
pub open spec fn cut(
    graph: Seq<Seq<usize>>,
    width: nat,
    input: Seq<Point>,
    from: int,
    count: int,
) -> Seq<Seq<usize>>
    decreases count,
{
    if count <= 0 {
        graph
    } else {
        let before = cut(graph, width, input, from, count - 1);
        let p = input[from + count];
        if 0 <= p.x < width && 0 <= p.y < width {
            pruned(before, (p.y * width + p.x) as usize)
        } else {
            before
        }
    }
}

/// The marks of the goal: the bottom right corner of the space and no other
/// cell.
pub open spec fn corner(width: nat) -> Seq<bool> {
    Seq::new(width * width, |i: int| i == width * width - 1)
}

/// What `without` keeps.
pub proof fn lemma_without(list: Seq<usize>, target: usize)
    ensures
        forall|v: usize| without(list, target).contains(v) <==> list.contains(v) && v != target,
        without(list, target).len() <= list.len(),
    decreases list.len(),
{
    if list.len() > 0 {
        let rest = list.drop_last();
        lemma_without(rest, target);
        assert forall|v: usize| without(list, target).contains(v) <==> list.contains(v) && v
            != target by {
            if list.contains(v) {
                let i = choose|i: int| 0 <= i < list.len() && list[i] == v;
                if i < rest.len() {
                    assert(rest[i] == v);
                }
            }
            if rest.contains(v) {
                let i = choose|i: int| 0 <= i < rest.len() && rest[i] == v;
                assert(list[i] == v);
            }
            if without(list, target).contains(v) && list.last() != target {
                let kept = without(rest, target).push(list.last());
                let i = choose|i: int| 0 <= i < kept.len() && kept[i] == v;
                if i < kept.len() - 1 {
                    assert(without(rest, target)[i] == v);
                } else {
                    assert(list[list.len() - 1] == v);
                }
            }
            if list.contains(v) && v != target {
                if list.last() == v {
                    let kept = without(rest, target).push(list.last());
                    assert(kept[kept.len() - 1] == v);
                } else {
                    assert(rest.contains(v));
                    if list.last() != target {
                        let i = choose|i: int|
                            0 <= i < without(rest, target).len() && without(rest, target)[i] == v;
                        assert(without(rest, target).push(list.last())[i] == v);
                    }
                }
            }
        }
    }
}

/// Reads the places where the bytes fall: two numbers from each line.
pub fn parse(input: &str) -> (parsed: Option<Input>)
    ensures
        match parsed {
            Some(places) => {
                &&& places@.len() == lines(input.spec_bytes()).len()
                &&& forall|i: int|
                    0 <= i < places@.len() ==> is_place(#[trigger] lines(input.spec_bytes())[i])
                        && places@[i] == place_of(lines(input.spec_bytes())[i])
            },
            None => exists|i: int|
                0 <= i < lines(input.spec_bytes()).len() && !is_place(
                    #[trigger] lines(input.spec_bytes())[i],
                ),
        },
{
    let ghost text = input.spec_bytes();
    let rows = split_lines(input.as_bytes());
    let mut places: Input = Vec::new();
    let mut i: usize = 0;
    while i < rows.len()
        invariant
            text == input.spec_bytes(),
            views(rows@) == lines(text),
            i <= rows@.len(),
            places@.len() == i,
            forall|j: int|
                0 <= j < i ==> is_place(#[trigger] lines(text)[j]) && places@[j] == place_of(
                    lines(text)[j],
                ),
        decreases rows@.len() - i,
    {
        proof {
            assert(views(rows@)[i as int] == rows@[i as int]@);
            assert(views(rows@).len() == rows@.len());
        }
        let ghost had = places@;
        let numbers = match scan_numbers(rows[i].as_slice()) {
            Some(numbers) => numbers,
            None => {
                proof {
                    assert(0 <= i < lines(text).len() && !is_place(lines(text)[i as int]));
                }
                return None;
            },
        };
        if numbers.len() != 2 || numbers[0] < isize::MIN as i64 || numbers[0] > isize::MAX as i64
            || numbers[1] < isize::MIN as i64 || numbers[1] > isize::MAX as i64 {
            proof {
                assert(0 <= i < lines(text).len() && !is_place(lines(text)[i as int]));
            }
            return None;
        }
        places.push(Point { x: numbers[0] as isize, y: numbers[1] as isize });
        proof {
            assert forall|j: int| 0 <= j < i + 1 implies is_place(#[trigger] lines(text)[j])
                && places@[j] == place_of(lines(text)[j]) by {
                if j < i {
                    assert(places@[j] == had[j]);
                }
            }
        }
        i += 1;
    }
    proof {
        assert(views(rows@).len() == rows@.len());
    }
    Some(places)
}

/// Whether `text` writes a place: two numbers that fit.
pub open spec fn is_place(text: Seq<u8>) -> bool {
    &&& numbers_fit(text)
    &&& numbers_in(text).len() == 2
    &&& isize::MIN <= numbers_in(text)[0] <= isize::MAX
    &&& isize::MIN <= numbers_in(text)[1] <= isize::MAX
}

/// The place that `text` writes.
pub open spec fn place_of(text: Seq<u8>) -> Point {
    Point { x: numbers_in(text)[0] as isize, y: numbers_in(text)[1] as isize }
}

/// Lets the first `num_corrupted` bytes fall into a space of the given
/// width.
pub fn drop_bytes(width: usize, num_corrupted: usize, input: &Input) -> (space: Grid<bool>)
    requires
        width <= isize::MAX,
        width * width <= usize::MAX,
    ensures
        space.wf(),
        space.width == width,
        space.height == width,
        space@ == fallen(width as nat, input@, num_corrupted as int),
{
    let mut space: Grid<bool> = Grid::new(width, width, false);
    proof {
        assert(space@.cells =~= fallen(width as nat, input@, 0).cells);
    }
    let mut i: usize = 0;
    while i < num_corrupted
        invariant
            i <= num_corrupted,
            space.wf(),
            space.width == width,
            space.height == width,
            space@ == fallen(width as nat, input@, i as int),
        decreases num_corrupted - i,
    {
        if i < input.len() {
            let p = input[i];
            if space.is_in_bounds(p) {
                space.set(p, true);
            }
        }
        i += 1;
    }
    space
}

/// Lists the steps that can be taken after the first `num_corrupted` bytes
/// have fallen.
pub fn make_graph(width: usize, num_corrupted: usize, input: &Input) -> (graph: Graph)
    requires
        width <= isize::MAX,
        width * width <= usize::MAX,
    ensures
        links(graph@) == steps_of(fallen(width as nat, input@, num_corrupted as int)),
        is_graph(links(graph@)),
        graph@.len() == width * width,
{
    let space = drop_bytes(width, num_corrupted, input);
    let ghost lab = space@;
    let area = space.inner.len();
    let dirs = Dir::all();
    // Build the graph
    let mut graph: Graph = Vec::with_capacity(area);
    let mut a: usize = 0;
    while a < area
        invariant
            space.wf(),
            lab == space@,
            area == lab.area(),
            dirs@ == Dir::spec_all(),
            a <= area,
            graph@.len() == a,
            forall|b: int| 0 <= b < a ==> (#[trigger] graph@[b])@ == steps_of(lab)[b],
            forall|b: int, i: int|
                0 <= b < a && 0 <= i < graph@[b]@.len() ==> (#[trigger] graph@[b]@[i]) < area,
        decreases area - a,
    {
        let p = space.point_of(a);
        let mut edges: Vec<usize> = Vec::new();
        if !*space.get_unchecked(p) {
            let mut k: usize = 0;
            while k < 4
                invariant
                    space.wf(),
                    lab == space@,
                    area == lab.area(),
                    lab.in_bounds(p),
                    dirs@ == Dir::spec_all(),
                    k <= 4,
                    edges@ == open_neighbours(lab, p, k as int),
                    forall|i: int| 0 <= i < edges@.len() ==> (#[trigger] edges@[i]) < area,
                decreases 4 - k,
            {
                let next = dirs[k].step_from(p);
                if space.is_in_bounds(next) && !*space.get_unchecked(next) {
                    proof {
                        lab.lemma_point_index(next);
                    }
                    edges.push(space.offset(next));
                }
                k += 1;
            }
        }
        let ghost had = graph@;
        graph.push(edges);
        proof {
            assert forall|b: int| 0 <= b < a + 1 implies (#[trigger] graph@[b])@ == steps_of(lab)[b] by {
                if b < a {
                    assert(graph@[b] == had[b]);
                }
            }
            assert forall|b: int, i: int|
                0 <= b < a + 1 && 0 <= i < graph@[b]@.len() implies (#[trigger] graph@[b]@[i])
                < area by {
                if b < a {
                    assert(graph@[b] == had[b]);
                }
            }
        }
        a += 1;
    }
    proof {
        assert(links(graph@) =~= steps_of(lab));
        assert(lab.width == width && lab.height == width);
    }
    graph
}

/// The least number of steps from `start` to the bottom right corner, over
/// the steps listed in `graph`.
pub fn bfs(graph: &Graph, width: usize, start: Point) -> (steps: Option<usize>)
    requires
        is_graph(links(graph@)),
        graph@.len() == width * width,
        0 <= start.x < width,
        0 <= start.y < width,
    ensures
        match steps {
            Some(count) => nearest(
                links(graph@),
                corner(width as nat),
                (start.y * width + start.x) as usize,
                (width * width - 1) as usize,
                count as nat,
            ),
            None => none_in_reach(
                links(graph@),
                corner(width as nat),
                (start.y * width + start.x) as usize,
            ),
        },
{
    let area = graph.len();
    // The node we're trying to find a path to.
    let mut goal: Vec<bool> = Vec::with_capacity(area);
    let mut i: usize = 0;
    while i < area
        invariant
            i <= area,
            goal@.len() == i,
            forall|j: int| 0 <= j < i ==> #[trigger] goal@[j] == (j == area - 1),
        decreases area - i,
    {
        goal.push(i == area - 1);
        i += 1;
    }
    proof {
        assert(goal@ =~= corner(width as nat));
        crate::arith::lemma_index_in_range(
            start.x as int,
            start.y as int,
            width as int,
            width as int,
        );
        assert(0 <= (start.y as int) * (width as int)) by (nonlinear_arith)
            requires
                0 <= start.y,
                0 <= width,
        ;
    }
    let from = (start.y as usize) * width + (start.x as usize);
    match search(graph, &goal, from) {
        Some((to, count)) => Some(count),
        None => None,
    }
}

/// Takes the edges to `target` out of the graph.
pub fn prune(graph: &mut Graph, target: usize)
    requires
        is_graph(links(old(graph)@)),
    ensures
        links(final(graph)@) == pruned(links(old(graph)@), target),
        is_graph(links(final(graph)@)),
        final(graph)@.len() == old(graph)@.len(),
{
    let ghost before = links(graph@);
    let n = graph.len();
    let mut a: usize = 0;
    while a < n
        invariant
            n == graph@.len(),
            before.len() == n,
            is_graph(before),
            a <= n,
            forall|b: int| 0 <= b < a ==> (#[trigger] graph@[b])@ == without(before[b], target),
            forall|b: int| a <= b < n ==> (#[trigger] graph@[b])@ == before[b],
        decreases n - a,
    {
        let mut kept: Vec<usize> = Vec::new();
        let mut i: usize = 0;
        let row = &graph[a];
        while i < row.len()
            invariant
                i <= row@.len(),
                kept@ == without(row@.take(i as int), target),
            decreases row@.len() - i,
        {
            proof {
                let next = row@.take(i + 1);
                assert(next.drop_last() == row@.take(i as int));
                assert(next.last() == row@[i as int]);
            }
            if row[i] != target {
                kept.push(row[i]);
            }
            i += 1;
        }
        proof {
            assert(row@.take(row@.len() as int) == row@);
        }
        let ghost had = graph@;
        graph.set(a, kept);
        proof {
            assert forall|b: int| 0 <= b < a + 1 implies (#[trigger] graph@[b])@ == without(
                before[b],
                target,
            ) by {
                if b < a {
                    assert(graph@[b] == had[b]);
                }
            }
            assert forall|b: int| a + 1 <= b < n implies (#[trigger] graph@[b])@ == before[b] by {
                assert(graph@[b] == had[b]);
            }
        }
        a += 1;
    }
    proof {
        assert(links(graph@) =~= pruned(before, target));
        assert forall|b: int, i: int|
            0 <= b < links(graph@).len() && 0 <= i < links(graph@)[b].len() implies (
        #[trigger] links(graph@)[b][i]) < links(graph@).len() by {
            lemma_without(before[b], target);
            let v = links(graph@)[b][i];
            assert(without(before[b], target)[i] == v);
            assert(without(before[b], target).contains(v));
            assert(before[b].contains(v));
            let j = choose|j: int| 0 <= j < before[b].len() && before[b][j] == v;
            assert(before[b][j] < before.len());
        }
    }
}

/// Whether the bottom right corner can be reached from the top left corner
/// after the bytes `input[from + 1]` to `input[from + count]` have fallen.
pub open spec fn still_open(
    graph: Seq<Seq<usize>>,
    width: nat,
    input: Seq<Point>,
    from: int,
    count: int,
) -> bool {
    !none_in_reach(cut(graph, width, input, from, count), corner(width), 0)
}

/// Whether byte `input[from + i]` is the first to cut the bottom right
/// corner off from the top left corner.
pub open spec fn first_cut(
    graph: Seq<Seq<usize>>,
    width: nat,
    input: Seq<Point>,
    from: int,
    i: int,
) -> bool {
    &&& 1 <= i
    &&& from + i < input.len()
    &&& !still_open(graph, width, input, from, i)
    &&& forall|j: int| 1 <= j < i ==> #[trigger] still_open(graph, width, input, from, j)
}

/// Lets the bytes behind `input[num_corrupted]` fall one by one, and shows
/// the place of the first one that cuts the bottom right corner off from the
/// top left corner. The result is `None` when no byte does.
pub fn find_last_block(width: usize, num_corrupted: usize, graph: Graph, input: &Input) -> (block:
    Option<String>)
    requires
        1 <= width <= isize::MAX,
        is_graph(links(graph@)),
        graph@.len() == width * width,
    ensures
        match block {
            Some(text) => exists|i: int| #[trigger]
                first_cut(links(graph@), width as nat, input@, num_corrupted as int, i) && text@
                    == input@[num_corrupted + i].shown(),
            None => forall|j: int|
                1 <= j && num_corrupted + j < input@.len() ==> #[trigger] still_open(
                    links(graph@),
                    width as nat,
                    input@,
                    num_corrupted as int,
                    j,
                ),
        },
{
    let ghost original = links(graph@);
    let ghost w = width as nat;
    let ghost from = num_corrupted as int;
    let mut net = graph;
    let mut i: usize = 1;
    if num_corrupted >= input.len() {
        return None;
    }
    while i < input.len() - num_corrupted
        invariant
            1 <= width <= isize::MAX,
            w == width,
            from == num_corrupted,
            original == links(graph@),
            num_corrupted < input@.len(),
            1 <= i <= input@.len() - num_corrupted,
            is_graph(links(net@)),
            net@.len() == width * width,
            links(net@) == cut(original, w, input@, from, i - 1),
            forall|j: int| 1 <= j < i ==> #[trigger] still_open(original, w, input@, from, j),
        decreases input@.len() - num_corrupted - i,
    {
        let curr = input[num_corrupted + i];
        let area = net.len();
        assert(area == width * width);
        if curr.x >= 0 && curr.y >= 0 && (curr.x as usize) < width && (curr.y as usize) < width {
            proof {
                crate::arith::lemma_index_in_range(
                    curr.x as int,
                    curr.y as int,
                    width as int,
                    width as int,
                );
                assert(0 <= (curr.y as int) * (width as int)) by (nonlinear_arith)
                    requires
                        0 <= curr.y,
                        0 <= width,
                ;
            }
            let target = (curr.y as usize) * width + (curr.x as usize);
            prune(&mut net, target);
        }
        proof {
            assert(links(net@) == cut(original, w, input@, from, i as int));
            assert(width * width >= 1) by (nonlinear_arith)
                requires
                    width >= 1,
            ;
        }
        let origin = Point { x: 0, y: 0 };
        proof {
            assert((origin.y * width + origin.x) as usize == 0) by (nonlinear_arith)
                requires
                    origin.y == 0,
                    origin.x == 0,
            ;
        }
        if bfs(&net, width, origin).is_none() {
            let text = curr.render();
            proof {
                assert(!still_open(original, w, input@, from, i as int));
                assert(first_cut(original, w, input@, from, i as int));
            }
            return Some(text);
        }
        proof {
            assert(still_open(original, w, input@, from, i as int));
        }
        i += 1;
    }
    None
}

/// The width and the height of the memory space.
pub const WIDTH: usize = 71;

/// The number of bytes that have fallen when the way is sought.
pub const FALLEN: usize = 1024;

/// The least number of steps from the top left corner to the bottom right
/// corner after the first [`FALLEN`] bytes have fallen, or `None` when there
/// is no way.
pub fn q1(input: &Input) -> (steps: Option<usize>)
    ensures
        match steps {
            Some(count) => nearest(
                steps_of(fallen(WIDTH as nat, input@, FALLEN as int)),
                corner(WIDTH as nat),
                0,
                (WIDTH * WIDTH - 1) as usize,
                count as nat,
            ),
            None => none_in_reach(
                steps_of(fallen(WIDTH as nat, input@, FALLEN as int)),
                corner(WIDTH as nat),
                0,
            ),
        },
{
    let graph = make_graph(WIDTH, FALLEN, input);
    bfs(&graph, WIDTH, Point::default())
}

/// The place of the first byte behind the first [`FALLEN`] and one more
/// that cuts the bottom right corner off from the top left corner, or `None`
/// when no byte does.
pub fn q2(input: &Input) -> (block: Option<String>)
    ensures
        match block {
            Some(text) => exists|i: int| #[trigger]
                first_cut(
                    steps_of(fallen(WIDTH as nat, input@, FALLEN as int)),
                    WIDTH as nat,
                    input@,
                    FALLEN as int,
                    i,
                ) && text@ == input@[FALLEN + i].shown(),
            None => forall|j: int|
                1 <= j && FALLEN + j < input@.len() ==> #[trigger] still_open(
                    steps_of(fallen(WIDTH as nat, input@, FALLEN as int)),
                    WIDTH as nat,
                    input@,
                    FALLEN as int,
                    j,
                ),
        },
{
    let graph = make_graph(WIDTH, FALLEN, input);
    find_last_block(WIDTH, FALLEN, graph, input)
}

} // verus!
