//! Antennas on a city map: each pair of antennas of the same frequency
//! makes antinodes on the line through the two.
use crate::arith::{lemma_index_in_range, lemma_index_injective};
use crate::fx::index_set_insert;
use crate::point::Point;
use crate::text::{is_text_grid, parse_grid};
use fxhash::FxHashSet;
use vstd::prelude::*;
use vstd::string::StringSliceAdditionalSpecFns;

verus! {

/// The byte that marks a cell without antenna.
pub const BLANK: u8 = 46;

/// The size of the city and every ordered pair of antennas of one
/// frequency.
pub struct Input {
    pub antennae_pairs: Vec<(Point, Point)>,
    pub width: isize,
    pub height: isize,
}

/// Is the given point within the city bounds?
pub open spec fn spec_in_bounds(point: Point, width: int, height: int) -> bool {
    point.x < width && point.y < height && point.x >= 0 && point.y >= 0
}

/// Whether `point` lies in a city of the given size.
pub fn in_bounds(point: Point, width: isize, height: isize) -> (inside: bool)
    ensures
        inside == spec_in_bounds(point, width as int, height as int),
{
    point.x < width && point.y < height && point.x >= 0 && point.y >= 0
}

/// The point `k` steps of `d` from `p`.
pub open spec fn along(p: Point, d: (int, int), k: int) -> (int, int) {
    (p.x + k * d.0, p.y + k * d.1)
}

/// The step from `p0` to `p1`.
pub open spec fn step_between(p0: Point, p1: Point) -> (int, int) {
    (p1.x - p0.x, p1.y - p0.y)
}

/// Whether `q` is one of the two antinodes of the pair: as far behind `p1`
/// as `p0` lies before it, or as far before `p0` as `p1` lies behind it.
pub open spec fn is_antinode(pair: (Point, Point), q: Point) -> bool {
    let d = step_between(pair.0, pair.1);
    (q.x as int, q.y as int) == along(pair.1, d, 1) || (q.x as int, q.y as int) == along(
        pair.0,
        d,
        -1,
    )
}

/// Whether `q` lies `k` steps from `p` in the city, with every step on the
/// way in the city.
pub open spec fn on_ray(p: Point, d: (int, int), k: int, q: Point, width: int, height: int) -> bool {
    &&& 0 <= k
    &&& (q.x as int, q.y as int) == along(p, d, k)
    &&& forall|j: int|
        0 <= j <= k ==> 0 <= (#[trigger] along(p, d, j)).0 < width && 0 <= along(p, d, j).1
            < height
}

/// Whether `q` is in line with the pair: on the ray from `p1` away from
/// `p0`, or on the ray from `p0` away from `p1`, as far as the ray stays in
/// the city.
pub open spec fn is_in_line(pair: (Point, Point), q: Point, width: int, height: int) -> bool {
    let d = step_between(pair.0, pair.1);
    (exists|k: int| #[trigger] on_ray(pair.1, d, k, q, width, height)) || (exists|k: int| #[trigger]
        on_ray(pair.0, (-d.0, -d.1), k, q, width, height))
}

impl Input {
    /// The city is small enough for every step to fit, and the antennas of
    /// each pair stand in the city at different places.
    pub open spec fn wf(&self) -> bool {
        &&& 0 <= self.width
        &&& 0 <= self.height
        &&& 2 * self.width <= isize::MAX
        &&& 2 * self.height <= isize::MAX
        &&& self.width * self.height <= usize::MAX
        &&& forall|i: int|
            0 <= i < self.antennae_pairs@.len() ==> {
                let pair = #[trigger] self.antennae_pairs@[i];
                &&& spec_in_bounds(pair.0, self.width as int, self.height as int)
                &&& spec_in_bounds(pair.1, self.width as int, self.height as int)
                &&& pair.0 != pair.1
            }
    }

    /// The places in the city that are an antinode of some pair.
    pub open spec fn antinodes(&self) -> Set<Point> {
        Set::new(
            |q: Point|
                spec_in_bounds(q, self.width as int, self.height as int) && exists|i: int|
                    0 <= i < self.antennae_pairs@.len() && is_antinode(
                        #[trigger] self.antennae_pairs@[i],
                        q,
                    ),
        )
    }

    /// The places in the city that are in line with some pair.
    pub open spec fn in_line(&self) -> Set<Point> {
        Set::new(
            |q: Point|
                exists|i: int|
                    0 <= i < self.antennae_pairs@.len() && is_in_line(
                        #[trigger] self.antennae_pairs@[i],
                        q,
                        self.width as int,
                        self.height as int,
                    ),
        )
    }
}

/// Marks the place `q` of the city, and counts it if it was not marked.
fn mark(
    places: &mut FxHashSet<usize>,
    count: &mut usize,
    q: Point,
    width: isize,
    height: isize,
    Ghost(marked): Ghost<Set<Point>>,
) -> (now: Ghost<Set<Point>>)
    requires
        spec_in_bounds(q, width as int, height as int),
        width * height <= usize::MAX,
        counted(old(places)@, *old(count), marked, width as int, height as int),
    ensures
        now@ == marked.insert(q),
        counted(final(places)@, *final(count), now@, width as int, height as int),
{
    proof {
        lemma_index_in_range(q.x as int, q.y as int, width as int, height as int);
        assert(0 <= (q.y as int) * (width as int)) by (nonlinear_arith)
            requires
                0 <= q.y,
                0 <= width,
        ;
    }
    let key = (q.y as usize) * (width as usize) + (q.x as usize);
    let ghost had = places@;
    let fresh = index_set_insert(places, key);
    proof {
        if !fresh {
            let p = choose|p: Point| marked.contains(p) && cell_key(p, width as int) == key;
            lemma_index_injective(p.x as int, p.y as int, q.x as int, q.y as int, width as int);
            assert(marked.insert(q) =~= marked);
        } else {
            if marked.contains(q) {
                assert(had.contains(cell_key(q, width as int) as usize));
            }
            crate::arith::lemma_bounded_set_len(places@, (width * height) as nat);
        }
    }
    if fresh {
        *count = *count + 1;
    }
    proof {
        assert forall|k: usize| places@.contains(k) implies exists|p: Point|
            marked.insert(q).contains(p) && cell_key(p, width as int) == k by {
            if k == key {
                assert(marked.insert(q).contains(q) && cell_key(q, width as int) == k);
            } else {
                let p = choose|p: Point| marked.contains(p) && cell_key(p, width as int) == k;
                assert(marked.insert(q).contains(p));
            }
        }
    }
    Ghost(marked.insert(q))
}

/// The number of the cell at `p` in a city of the given width.
pub open spec fn cell_key(p: Point, width: int) -> int {
    p.y * width + p.x
}

/// Whether `places` holds the numbers of the places of `marked`, and `count`
/// is how many they are.
pub open spec fn counted(
    places: Set<usize>,
    count: usize,
    marked: Set<Point>,
    width: int,
    height: int,
) -> bool {
    &&& marked.finite()
    &&& count == marked.len()
    &&& places.finite()
    &&& count == places.len()
    &&& forall|k: usize| places.contains(k) ==> k < width * height
    &&& forall|p: Point| #[trigger]
        marked.contains(p) ==> spec_in_bounds(p, width, height) && places.contains(
            cell_key(p, width) as usize,
        )
    &&& forall|k: usize|
        places.contains(k) ==> exists|p: Point| marked.contains(p) && cell_key(p, width) == k
}

/// The number of places in the city that are an antinode of some pair.
pub fn q1(input: &Input) -> (count: usize)
    requires
        input.wf(),
    ensures
        count == input.antinodes().len(),
{
    let ghost w = input.width as int;
    let ghost h = input.height as int;
    let mut places: FxHashSet<usize> = FxHashSet::default();
    let mut count: usize = 0;
    let mut marked: Ghost<Set<Point>> = Ghost(Set::empty());
    let mut i: usize = 0;
    while i < input.antennae_pairs.len()
        invariant
            input.wf(),
            w == input.width,
            h == input.height,
            i <= input.antennae_pairs@.len(),
            counted(places@, count, marked@, w, h),
            forall|q: Point|
                marked@.contains(q) <==> spec_in_bounds(q, w, h) && exists|j: int|
                    0 <= j < i && is_antinode(#[trigger] input.antennae_pairs@[j], q),
        decreases input.antennae_pairs@.len() - i,
    {
        let (p0, p1) = input.antennae_pairs[i];
        let ghost before = marked@;
        let dx = p1.x - p0.x;
        let dy = p1.y - p0.y;
        // Two antinodes.
        let after = Point { x: p1.x + dx, y: p1.y + dy };
        let ahead = Point { x: p0.x - dx, y: p0.y - dy };
        proof {
            assert(dx * 1 == dx && dy * 1 == dy);
            assert(-1 * dx == -dx && -1 * dy == -dy);
        }
        // Remove any that aren't in bounds of the city.
        if in_bounds(after, input.width, input.height) {
            marked = mark(&mut places, &mut count, after, input.width, input.height, marked);
        }
        if in_bounds(ahead, input.width, input.height) {
            marked = mark(&mut places, &mut count, ahead, input.width, input.height, marked);
        }
        proof {
            assert forall|q: Point|
                marked@.contains(q) <==> spec_in_bounds(q, w, h) && exists|j: int|
                    0 <= j < i + 1 && is_antinode(#[trigger] input.antennae_pairs@[j], q) by {
                if spec_in_bounds(q, w, h) && exists|j: int|
                    0 <= j < i + 1 && is_antinode(#[trigger] input.antennae_pairs@[j], q) {
                    let j = choose|j: int|
                        0 <= j < i + 1 && is_antinode(#[trigger] input.antennae_pairs@[j], q);
                    if j < i {
                        assert(before.contains(q));
                    } else {
                        assert(q == after || q == ahead);
                    }
                }
                if before.contains(q) {
                    let j = choose|j: int|
                        0 <= j < i && is_antinode(#[trigger] input.antennae_pairs@[j], q);
                    assert(0 <= j < i + 1 && is_antinode(input.antennae_pairs@[j], q));
                }
                if marked@.contains(q) && !before.contains(q) {
                    assert(is_antinode(input.antennae_pairs@[i as int], q));
                }
            }
        }
        i += 1;
    }
    proof {
        assert(marked@ =~= input.antinodes());
    }
    count
}

/// The places on the ray from `p` with the step `d`, as far as the ray
/// stays in the city.
pub open spec fn ray(p: Point, d: (int, int), width: int, height: int) -> Set<Point> {
    Set::new(|q: Point| exists|k: int| #[trigger] on_ray(p, d, k, q, width, height))
}

/// Marks the places on the ray from `p` with the step `(dx, dy)`.
fn mark_ray(
    places: &mut FxHashSet<usize>,
    count: &mut usize,
    p: Point,
    dx: isize,
    dy: isize,
    width: isize,
    height: isize,
    Ghost(marked): Ghost<Set<Point>>,
) -> (now: Ghost<Set<Point>>)
    requires
        spec_in_bounds(p, width as int, height as int),
        width * height <= usize::MAX,
        2 * width <= isize::MAX,
        2 * height <= isize::MAX,
        -width < dx < width,
        -height < dy < height,
        dx != 0 || dy != 0,
        counted(old(places)@, *old(count), marked, width as int, height as int),
    ensures
        now@ == marked.union(ray(p, (dx as int, dy as int), width as int, height as int)),
        counted(final(places)@, *final(count), now@, width as int, height as int),
{
    let ghost d = (dx as int, dy as int);
    let ghost w = width as int;
    let ghost h = height as int;
    let mut cur = p;
    let mut now: Ghost<Set<Point>> = Ghost(marked);
    let ghost mut k: int = 0;
    proof {
        assert(0 * d.0 == 0 && 0 * d.1 == 0);
    }
    while in_bounds(cur, width, height)
        invariant
            width * height <= usize::MAX,
            2 * width <= isize::MAX,
            2 * height <= isize::MAX,
            -width < dx < width,
            -height < dy < height,
            dx != 0 || dy != 0,
            d == (dx as int, dy as int),
            w == width,
            h == height,
            0 <= k,
            (cur.x as int, cur.y as int) == along(p, d, k),
            -w <= cur.x < 2 * w,
            -h <= cur.y < 2 * h,
            forall|j: int|
                0 <= j < k ==> 0 <= (#[trigger] along(p, d, j)).0 < w && 0 <= along(p, d, j).1 < h,
            counted(places@, *count, now@, w, h),
            forall|q: Point|
                now@.contains(q) <==> marked.contains(q) || exists|j: int|
                    0 <= j < k && #[trigger] on_ray(p, d, j, q, w, h),
        decreases
                (if dx > 0 {
                    2 * w - cur.x
                } else if dx < 0 {
                    cur.x + 1 + w
                } else if dy > 0 {
                    2 * h - cur.y
                } else {
                    cur.y + 1 + h
                }),
    {
        let ghost before = now@;
        let ghost here = cur;
        now = mark(places, count, cur, width, height, now);
        proof {
            assert((k + 1) * d.0 == k * d.0 + d.0) by (nonlinear_arith);
            assert((k + 1) * d.1 == k * d.1 + d.1) by (nonlinear_arith);
            assert(on_ray(p, d, k, here, w, h));
        }
        cur = Point { x: cur.x + dx, y: cur.y + dy };
        proof {
            let next = k + 1;
            assert forall|q: Point|
                now@.contains(q) <==> marked.contains(q) || exists|j: int|
                    0 <= j < next && #[trigger] on_ray(p, d, j, q, w, h) by {
                if exists|j: int| 0 <= j < next && #[trigger] on_ray(p, d, j, q, w, h) {
                    let j = choose|j: int| 0 <= j < next && #[trigger] on_ray(p, d, j, q, w, h);
                    if j < k {
                        assert(before.contains(q));
                    } else {
                        assert(q == here);
                    }
                }
                if before.contains(q) && !marked.contains(q) {
                    let j = choose|j: int| 0 <= j < k && #[trigger] on_ray(p, d, j, q, w, h);
                    assert(0 <= j < next && on_ray(p, d, j, q, w, h));
                }
                if q == here {
                    assert(0 <= k < next && on_ray(p, d, k, q, w, h));
                }
            }
            k = k + 1;
        }
    }
    proof {
        assert forall|q: Point|
            ray(p, d, w, h).contains(q) implies exists|j: int|
            0 <= j < k && #[trigger] on_ray(p, d, j, q, w, h) by {
            let j = choose|j: int| #[trigger] on_ray(p, d, j, q, w, h);
            if j >= k {
                assert(0 <= along(p, d, k).0 < w && 0 <= along(p, d, k).1 < h);
            }
        }
        assert(now@ =~= marked.union(ray(p, d, w, h)));
    }
    now
}

/// The number of places in the city that are in line with some pair.
pub fn q2(input: &Input) -> (count: usize)
    requires
        input.wf(),
    ensures
        count == input.in_line().len(),
{
    let ghost w = input.width as int;
    let ghost h = input.height as int;
    let mut places: FxHashSet<usize> = FxHashSet::default();
    let mut count: usize = 0;
    let mut marked: Ghost<Set<Point>> = Ghost(Set::empty());
    let mut i: usize = 0;
    while i < input.antennae_pairs.len()
        invariant
            input.wf(),
            w == input.width,
            h == input.height,
            i <= input.antennae_pairs@.len(),
            counted(places@, count, marked@, w, h),
            forall|q: Point|
                marked@.contains(q) <==> exists|j: int|
                    0 <= j < i && is_in_line(#[trigger] input.antennae_pairs@[j], q, w, h),
        decreases input.antennae_pairs@.len() - i,
    {
        let (p0, p1) = input.antennae_pairs[i];
        let ghost before = marked@;
        let dx = p1.x - p0.x;
        let dy = p1.y - p0.y;
        // Find antinodes after p1
        marked = mark_ray(&mut places, &mut count, p1, dx, dy, input.width, input.height, marked);
        // Find antinodes before p0
        marked =
        mark_ray(&mut places, &mut count, p0, -dx, -dy, input.width, input.height, marked);
        proof {
            let next = i as int + 1;
            assert forall|q: Point|
                marked@.contains(q) <==> exists|j: int|
                    0 <= j < next && is_in_line(#[trigger] input.antennae_pairs@[j], q, w, h) by {
                let pair = input.antennae_pairs@[i as int];
                let d = step_between(pair.0, pair.1);
                assert(is_in_line(pair, q, w, h) <==> ray(p1, d, w, h).contains(q) || ray(
                    p0,
                    (-d.0, -d.1),
                    w,
                    h,
                ).contains(q));
                if exists|j: int|
                    0 <= j < next && is_in_line(#[trigger] input.antennae_pairs@[j], q, w, h) {
                    let j = choose|j: int|
                        0 <= j < next && is_in_line(#[trigger] input.antennae_pairs@[j], q, w, h);
                    if j < i {
                        assert(before.contains(q));
                    }
                }
                if before.contains(q) {
                    let j = choose|j: int|
                        0 <= j < i && is_in_line(#[trigger] input.antennae_pairs@[j], q, w, h);
                    assert(0 <= j < next && is_in_line(input.antennae_pairs@[j], q, w, h));
                }
                if marked@.contains(q) && !before.contains(q) {
                    assert(0 <= i < next && is_in_line(input.antennae_pairs@[i as int], q, w, h));
                }
            }
        }
        i += 1;
    }
    proof {
        assert(marked@ =~= input.in_line());
    }
    count
}

impl Input {
    /// Whether `self` holds the pairs of antennas that the map written in
    /// `text` shows: each two antennas of the same frequency, both ways round.
    pub open spec fn shows(&self, text: Seq<u8>) -> bool {
        &&& self.wf()
        &&& is_text_grid(text, self.width as nat, self.height as nat)
        &&& forall|p0: Point, p1: Point|
            self.antennae_pairs@.contains((p0, p1)) <==> spec_in_bounds(
                p0,
                self.width as int,
                self.height as int,
            ) && spec_in_bounds(p1, self.width as int, self.height as int) && p0 != p1
                && #[trigger] same_frequency(text, self.width as nat, p0, p1)
    }
}

/// Whether antennas of the same frequency stand at `p0` and `p1`.
pub open spec fn same_frequency(text: Seq<u8>, width: nat, p0: Point, p1: Point) -> bool {
    let first = crate::text::text_cell(text, width, p0);
    first != BLANK && first == crate::text::text_cell(text, width, p1)
}

/// Reads the map of the city and pairs the antennas of the same frequency.
/// The result is `None` when the text is no map, or one too large.
pub fn parse(input: &str) -> (parsed: Option<Input>)
    ensures
        match parsed {
            Some(city) => city.shows(input.spec_bytes()),
            None => forall|w: nat, h: nat|
                is_text_grid(input.spec_bytes(), w, h) ==> 2 * w > isize::MAX || 2 * h
                    > isize::MAX,
        },
{
    let ghost text = input.spec_bytes();
    let raw = match parse_grid(input.as_bytes()) {
        Some(raw) => raw,
        None => {
            return None;
        },
    };
    proof {
        assert forall|w: nat, h: nat| is_text_grid(text, w, h) implies w == raw@.width && h
            == raw@.height by {
            crate::text::lemma_text_grid_unique(text, w, h, raw@.width, raw@.height);
        }
    }
    if raw.width > (isize::MAX as usize) / 2 || raw.height > (isize::MAX as usize) / 2 {
        return None;
    }
    let area = raw.inner.len();
    let mut antennae_pairs: Vec<(Point, Point)> = Vec::new();
    let ghost lab = raw@;
    let mut i: usize = 0;
    while i < area
        invariant
            raw.wf(),
            lab == raw@,
            area == lab.area(),
            i <= area,
            forall|k: int|
                0 <= k < antennae_pairs@.len() ==> {
                    let pair = #[trigger] antennae_pairs@[k];
                    &&& lab.in_bounds(pair.0)
                    &&& lab.in_bounds(pair.1)
                    &&& pair.0 != pair.1
                    &&& lab.cell(pair.0) != BLANK
                    &&& lab.cell(pair.0) == lab.cell(pair.1)
                },
            forall|p0: Point, p1: Point|
                lab.in_bounds(p0) && lab.in_bounds(p1) && p0 != p1 && lab.cell(p0) != BLANK
                    && lab.cell(p0) == lab.cell(p1) && lab.index_of(p0) < i
                    ==> #[trigger] antennae_pairs@.contains((p0, p1)),
        decreases area - i,
    {
        let p0 = raw.point_of(i);
        let freq = *raw.get_unchecked(p0);
        if freq != BLANK {
            let mut j: usize = 0;
            while j < area
                invariant
                    raw.wf(),
                    lab == raw@,
                    area == lab.area(),
                    i < area,
                    j <= area,
                    lab.in_bounds(p0),
                    lab.index_of(p0) == i,
                    freq == lab.cell(p0),
                    freq != BLANK,
                    forall|k: int|
                        0 <= k < antennae_pairs@.len() ==> {
                            let pair = #[trigger] antennae_pairs@[k];
                            &&& lab.in_bounds(pair.0)
                            &&& lab.in_bounds(pair.1)
                            &&& pair.0 != pair.1
                            &&& lab.cell(pair.0) != BLANK
                            &&& lab.cell(pair.0) == lab.cell(pair.1)
                        },
                    forall|q0: Point, q1: Point|
                        lab.in_bounds(q0) && lab.in_bounds(q1) && q0 != q1 && lab.cell(q0) != BLANK
                            && lab.cell(q0) == lab.cell(q1) && (lab.index_of(q0) < i || (q0 == p0
                            && lab.index_of(q1) < j)) ==> #[trigger] antennae_pairs@.contains(
                            (q0, q1),
                        ),
                decreases area - j,
            {
                let p1 = raw.point_of(j);
                let ghost had = antennae_pairs@;
                if i != j && *raw.get_unchecked(p1) == freq {
                    antennae_pairs.push((p0, p1));
                }
                proof {
                    assert forall|q0: Point, q1: Point|
                        lab.in_bounds(q0) && lab.in_bounds(q1) && q0 != q1 && lab.cell(q0) != BLANK
                            && lab.cell(q0) == lab.cell(q1) && (lab.index_of(q0) < i || (q0 == p0
                            && lab.index_of(q1) < j + 1)) implies #[trigger] antennae_pairs@.contains(
                        (q0, q1),
                    ) by {
                        if q0 == p0 && lab.index_of(q1) == j && !(lab.index_of(q0) < i) {
                            lab.lemma_index_injective(q1, p1);
                            if i == j {
                                lab.lemma_index_injective(q0, q1);
                            }
                            assert(antennae_pairs@[had.len() as int] == (q0, q1));
                        } else {
                            assert(had.contains((q0, q1)));
                            let k = choose|k: int| 0 <= k < had.len() && had[k] == (q0, q1);
                            assert(antennae_pairs@[k] == (q0, q1));
                        }
                    }
                }
                j += 1;
            }
        }
        proof {
            assert forall|q0: Point, q1: Point|
                lab.in_bounds(q0) && lab.in_bounds(q1) && q0 != q1 && lab.cell(q0) != BLANK
                    && lab.cell(q0) == lab.cell(q1) && lab.index_of(q0) < i
                    + 1 implies #[trigger] antennae_pairs@.contains((q0, q1)) by {
                if lab.index_of(q0) == i {
                    lab.lemma_index_injective(q0, p0);
                    lab.lemma_point_index(q1);
                }
            }
        }
        i += 1;
    }
    let city = Input { antennae_pairs, width: raw.width as isize, height: raw.height as isize };
    proof {
        assert forall|p0: Point, p1: Point|
            city.antennae_pairs@.contains((p0, p1)) <==> spec_in_bounds(
                p0,
                city.width as int,
                city.height as int,
            ) && spec_in_bounds(p1, city.width as int, city.height as int) && p0 != p1
                && #[trigger] same_frequency(text, city.width as nat, p0, p1) by {
            if city.antennae_pairs@.contains((p0, p1)) {
                let k = choose|k: int|
                    0 <= k < city.antennae_pairs@.len() && city.antennae_pairs@[k] == (p0, p1);
                assert(lab.in_bounds(city.antennae_pairs@[k].0));
            }
            if lab.in_bounds(p0) && lab.in_bounds(p1) {
                lab.lemma_point_index(p0);
                assert(lab.cell(p0) == crate::text::text_cell(text, lab.width, p0));
                assert(lab.cell(p1) == crate::text::text_cell(text, lab.width, p1));
            }
        }
        assert(city.width * city.height <= usize::MAX);
    }
    Some(city)
}

} // verus!
