//! Garden plots: a map of plants is cut into regions of touching cells that
//! grow the same plant, and each region is priced by its area and its fence.
use crate::dir::{lemma_step_adjacent, Dir};
use crate::fx::{index_set_contains, index_set_insert};
use crate::grid::{Grid, GridView};
use crate::point::Point;
use crate::text::{grid_of_text, is_text_grid, parse_grid};
use fxhash::FxHashSet;
use vstd::prelude::*;
use vstd::string::StringSliceAdditionalSpecFns;
use vstd::set_lib::{lemma_int_range, lemma_len_subset, set_int_range};

verus! {

/// `p` and `q` are neighbouring cells that hold the same value.
pub open spec fn linked<T>(garden: GridView<T>, p: Point, q: Point) -> bool {
    &&& garden.in_bounds(p)
    &&& garden.in_bounds(q)
    &&& p.adjacent(q)
    &&& garden.cell(p) == garden.cell(q)
}

/// `chain` is a walk over cells of the same value, each next to the one
/// before.
pub open spec fn is_chain<T>(garden: GridView<T>, chain: Seq<Point>) -> bool {
    &&& chain.len() >= 1
    &&& garden.in_bounds(chain[0])
    &&& forall|i: int| 0 <= i < chain.len() - 1 ==> linked(garden, #[trigger] chain[i], chain[i + 1])
}

/// `p` and `q` are joined by a walk over cells of the same value.
pub open spec fn connected<T>(garden: GridView<T>, p: Point, q: Point) -> bool {
    exists|chain: Seq<Point>| #[trigger]
        is_chain(garden, chain) && chain.first() == p && chain.last() == q
}

/// Every cell is connected to itself.
pub proof fn lemma_connected_refl<T>(garden: GridView<T>, p: Point)
    requires
        garden.in_bounds(p),
    ensures
        connected(garden, p, p),
{
    let chain = seq![p];
    assert(is_chain(garden, chain) && chain.first() == p && chain.last() == p);
}

/// A walk can be extended by one linked cell.
pub proof fn lemma_connected_step<T>(garden: GridView<T>, p: Point, q: Point, r: Point)
    requires
        connected(garden, p, q),
        linked(garden, q, r),
    ensures
        connected(garden, p, r),
{
    let chain = choose|chain: Seq<Point>| #[trigger]
        is_chain(garden, chain) && chain.first() == p && chain.last() == q;
    let longer = chain.push(r);
    assert forall|i: int| 0 <= i < longer.len() - 1 implies linked(
        garden,
        #[trigger] longer[i],
        longer[i + 1],
    ) by {
        if i < chain.len() - 1 {
            assert(linked(garden, chain[i], chain[i + 1]));
        }
    }
    assert(is_chain(garden, longer) && longer.first() == p && longer.last() == r);
}

/// The cells of a walk are in bounds and hold the value of its first cell.
pub proof fn lemma_chain_cells<T>(garden: GridView<T>, chain: Seq<Point>, i: int)
    requires
        is_chain(garden, chain),
        0 <= i < chain.len(),
    ensures
        garden.in_bounds(chain[i]),
        garden.cell(chain[i]) == garden.cell(chain[0]),
    decreases i,
{
    if i > 0 {
        lemma_chain_cells(garden, chain, i - 1);
        assert(linked(garden, chain[i - 1], chain[i - 1 + 1]));
    }
}

/// A walk can be walked backwards.
pub proof fn lemma_connected_sym<T>(garden: GridView<T>, p: Point, q: Point)
    requires
        connected(garden, p, q),
    ensures
        connected(garden, q, p),
{
    let chain = choose|chain: Seq<Point>| #[trigger]
        is_chain(garden, chain) && chain.first() == p && chain.last() == q;
    let back = chain.reverse();
    let n = chain.len() as int;
    lemma_chain_cells(garden, chain, n - 1);
    assert forall|i: int| 0 <= i < back.len() - 1 implies linked(
        garden,
        #[trigger] back[i],
        back[i + 1],
    ) by {
        assert(back[i] == chain[n - 1 - i]);
        assert(back[i + 1] == chain[n - 2 - i]);
        assert(linked(garden, chain[n - 2 - i], chain[n - 2 - i + 1]));
    }
    assert(is_chain(garden, back) && back.first() == q && back.last() == p);
}

/// Two walks that meet make one walk.
pub proof fn lemma_connected_trans<T>(garden: GridView<T>, p: Point, q: Point, r: Point)
    requires
        connected(garden, p, q),
        connected(garden, q, r),
    ensures
        connected(garden, p, r),
{
    let first = choose|chain: Seq<Point>| #[trigger]
        is_chain(garden, chain) && chain.first() == p && chain.last() == q;
    let second = choose|chain: Seq<Point>| #[trigger]
        is_chain(garden, chain) && chain.first() == q && chain.last() == r;
    lemma_join(garden, p, q, second, second.len() as int - 1);
}

/// A walk that starts where `p` is joined to leads only to cells that `p`
/// is joined to.
proof fn lemma_join<T>(garden: GridView<T>, p: Point, q: Point, second: Seq<Point>, i: int)
    requires
        connected(garden, p, q),
        is_chain(garden, second),
        second.first() == q,
        0 <= i < second.len(),
    ensures
        connected(garden, p, second[i]),
    decreases i,
{
    if i > 0 {
        lemma_join(garden, p, q, second, i - 1);
        assert(linked(garden, second[i - 1], second[i - 1 + 1]));
        lemma_connected_step(garden, p, second[i - 1], second[i]);
    }
}

/// What has been found of a garden: its regions, and for each cell the
/// number of the region that it belongs to.
pub struct Regions {
    pub cell_to_region: Grid<usize>,
    pub regions: Vec<(u8, Vec<Point>)>,
}

/// The sum of the areas of the first `n` regions.
pub open spec fn total_area(regions: Seq<(u8, Vec<Point>)>, n: int) -> nat
    decreases n,
{
    if n <= 0 {
        0
    } else {
        total_area(regions, n - 1) + regions[n - 1].1@.len()
    }
}

impl Regions {
    /// The number of regions.
    pub open spec fn count(&self) -> int {
        self.regions@.len() as int
    }

    /// The cells of region `r`.
    pub open spec fn members(&self, r: int) -> Seq<Point> {
        self.regions@[r].1@
    }

    /// The plant that grows in region `r`.
    pub open spec fn plant(&self, r: int) -> u8 {
        self.regions@[r].0
    }

    /// The first cell of region `r`.
    pub open spec fn seed(&self, r: int) -> Point {
        self.members(r)[0]
    }

    /// The region that the cell at `p` belongs to.
    pub open spec fn region_of(&self, p: Point) -> int {
        self.cell_to_region@.cell(p) as int
    }

    /// Whether `self` cuts `garden` into its regions:
    /// every cell belongs to one region, two cells belong to the same region
    /// exactly when a walk over cells of the same plant joins them, each
    /// region lists its cells once, and the regions are numbered in the order
    /// in which their first cells come row by row.
    pub open spec fn is_partition_of(&self, garden: GridView<u8>) -> bool {
        let labels = self.cell_to_region@;
        &&& labels.wf()
        &&& labels.width == garden.width
        &&& labels.height == garden.height
        &&& forall|p: Point| garden.in_bounds(p) ==> 0 <= #[trigger] self.region_of(p) < self.count()
        &&& forall|p: Point, q: Point|
            garden.in_bounds(p) && garden.in_bounds(q) ==> (#[trigger] self.region_of(p)
                == #[trigger] self.region_of(q) <==> connected(garden, p, q))
        &&& forall|r: int|
            0 <= r < self.count() ==> {
                &&& (#[trigger] self.members(r)).len() >= 1
                &&& self.members(r).no_duplicates()
            }
        &&& forall|r: int, i: int|
            0 <= r < self.count() && 0 <= i < self.members(r).len() ==> {
                &&& garden.in_bounds(#[trigger] self.members(r)[i])
                &&& self.region_of(self.members(r)[i]) == r
                &&& garden.cell(self.members(r)[i]) == self.plant(r)
            }
        &&& forall|p: Point|
            garden.in_bounds(p) ==> (#[trigger] self.members(self.region_of(p))).contains(p)
        &&& forall|p: Point|
            garden.in_bounds(p) ==> garden.index_of(self.seed(#[trigger] self.region_of(p)))
                <= garden.index_of(p)
        &&& forall|r: int, s: int|
            0 <= r < s < self.count() ==> garden.index_of(#[trigger] self.seed(r))
                < garden.index_of(#[trigger] self.seed(s))
        &&& total_area(self.regions@, self.count()) == garden.area()
    }
}

/// Every cell of the garden lies in exactly one region: the regions cover
/// the garden and no two of them share a cell.
pub proof fn lemma_partition_total(garden: GridView<u8>, found: Regions)
    requires
        garden.wf(),
        found.is_partition_of(garden),
    ensures
        forall|p: Point|
            garden.in_bounds(p) ==> exists|r: int|
                0 <= r < found.count() && #[trigger] found.members(r).contains(p),
        forall|p: Point, r: int, s: int|
            0 <= r < found.count() && 0 <= s < found.count() && #[trigger] found.members(
                r,
            ).contains(p) && #[trigger] found.members(s).contains(p) ==> r == s,
        forall|p: Point, r: int|
            0 <= r < found.count() && #[trigger] found.members(r).contains(p)
                ==> garden.in_bounds(p),
{
    assert forall|p: Point| garden.in_bounds(p) implies exists|r: int|
        0 <= r < found.count() && #[trigger] found.members(r).contains(p) by {
        let r = found.region_of(p);
        assert(found.members(r).contains(p));
    }
    assert forall|p: Point, r: int|
        0 <= r < found.count() && #[trigger] found.members(r).contains(p) implies garden.in_bounds(
        p,
    ) && found.region_of(p) == r by {
        let i = choose|i: int| 0 <= i < found.members(r).len() && found.members(r)[i] == p;
        assert(garden.in_bounds(found.members(r)[i]));
    }
}

/// A garden is cut into regions in one way only: two partitions of the same
/// garden give every cell the same region number, and their regions hold the
/// same cells.
pub proof fn lemma_partition_unique(garden: GridView<u8>, a: Regions, b: Regions)
    requires
        garden.wf(),
        a.is_partition_of(garden),
        b.is_partition_of(garden),
    ensures
        a.count() == b.count(),
        forall|p: Point| garden.in_bounds(p) ==> a.region_of(p) == b.region_of(p),
        forall|r: int|
            0 <= r < a.count() ==> a.members(r).to_set() == b.members(r).to_set() && a.plant(r)
                == b.plant(r),
{
    if a.count() <= b.count() {
        lemma_same_seeds(garden, a, b, a.count());
        lemma_same_count(garden, a, b);
    } else {
        lemma_same_seeds(garden, b, a, b.count());
        lemma_same_count(garden, b, a);
    }
    lemma_same_seeds(garden, a, b, a.count());
    assert forall|p: Point| garden.in_bounds(p) implies a.region_of(p) == b.region_of(p) by {
        lemma_same_region(garden, a, b, p);
    }
    assert forall|r: int| 0 <= r < a.count() implies a.members(r).to_set() == b.members(
        r,
    ).to_set() && a.plant(r) == b.plant(r) by {
        assert forall|p: Point| a.members(r).contains(p) implies b.members(r).contains(p) by {
            let i = choose|i: int| 0 <= i < a.members(r).len() && a.members(r)[i] == p;
            assert(garden.in_bounds(a.members(r)[i]));
            lemma_same_region(garden, a, b, p);
            assert(b.members(b.region_of(p)).contains(p));
        }
        assert forall|p: Point| b.members(r).contains(p) implies a.members(r).contains(p) by {
            let i = choose|i: int| 0 <= i < b.members(r).len() && b.members(r)[i] == p;
            assert(garden.in_bounds(b.members(r)[i]));
            lemma_same_region(garden, a, b, p);
            assert(a.members(a.region_of(p)).contains(p));
        }
        assert(a.members(r).to_set() =~= b.members(r).to_set());
        assert(garden.cell(a.members(r)[0]) == a.plant(r));
        assert(garden.cell(b.members(r)[0]) == b.plant(r));
        assert(a.seed(r) == b.seed(r));
    }
}

/// The first `n` regions of two partitions of a garden start at the same
/// cells.
proof fn lemma_same_seeds(garden: GridView<u8>, a: Regions, b: Regions, n: int)
    requires
        garden.wf(),
        a.is_partition_of(garden),
        b.is_partition_of(garden),
        0 <= n <= a.count(),
        n <= b.count(),
    ensures
        forall|r: int| 0 <= r < n ==> #[trigger] a.seed(r) == b.seed(r),
    decreases n,
{
    if n > 0 {
        let r = n - 1;
        lemma_same_seeds(garden, a, b, r);
        lemma_seed_not_later(garden, a, b, r);
        lemma_seed_not_later(garden, b, a, r);
        assert(garden.in_bounds(a.members(r)[0]));
        assert(garden.in_bounds(b.members(r)[0]));
        garden.lemma_index_injective(a.seed(r), b.seed(r));
    }
}

/// When the regions before `r` start at the same cells in both partitions,
/// region `r` of `b` starts no later than region `r` of `a`.
proof fn lemma_seed_not_later(garden: GridView<u8>, a: Regions, b: Regions, r: int)
    requires
        garden.wf(),
        a.is_partition_of(garden),
        b.is_partition_of(garden),
        0 <= r < a.count(),
        r < b.count(),
        forall|s: int| 0 <= s < r ==> #[trigger] a.seed(s) == b.seed(s),
    ensures
        garden.index_of(b.seed(r)) <= garden.index_of(a.seed(r)),
{
    let p = a.seed(r);
    assert(garden.in_bounds(a.members(r)[0]));
    assert(a.region_of(a.members(r)[0]) == r);
    let t = b.region_of(p);
    if t < r {
        assert(a.seed(t) == b.seed(t));
        assert(garden.in_bounds(b.members(t)[0]));
        assert(b.region_of(b.members(t)[0]) == t);
        assert(b.region_of(p) == b.region_of(b.seed(t)));
        assert(connected(garden, p, b.seed(t)));
        assert(a.region_of(a.members(t)[0]) == t);
        assert(a.region_of(p) == a.region_of(a.seed(t)));
    } else if t > r {
        assert(garden.index_of(b.seed(r)) < garden.index_of(b.seed(t)));
        assert(garden.index_of(b.seed(b.region_of(p))) <= garden.index_of(p));
    } else {
        assert(garden.index_of(b.seed(b.region_of(p))) <= garden.index_of(p));
    }
}

/// A partition has no more regions than another partition of the same garden.
proof fn lemma_same_count(garden: GridView<u8>, a: Regions, b: Regions)
    requires
        garden.wf(),
        a.is_partition_of(garden),
        b.is_partition_of(garden),
        a.count() <= b.count(),
        forall|s: int| 0 <= s < a.count() ==> #[trigger] a.seed(s) == b.seed(s),
    ensures
        a.count() == b.count(),
{
    if a.count() < b.count() {
        let r = a.count();
        let p = b.seed(r);
        assert(garden.in_bounds(b.members(r)[0]));
        assert(b.region_of(b.members(r)[0]) == r);
        let t = a.region_of(p);
        assert(a.seed(t) == b.seed(t));
        assert(garden.in_bounds(a.members(t)[0]));
        assert(a.region_of(a.members(t)[0]) == t);
        assert(a.region_of(p) == a.region_of(a.seed(t)));
        assert(connected(garden, p, a.seed(t)));
        assert(garden.in_bounds(b.members(t)[0]));
        assert(b.region_of(b.members(t)[0]) == t);
        assert(b.region_of(p) == b.region_of(b.seed(t)));
    }
}

/// Two partitions with the same first cells give a cell the same region.
proof fn lemma_same_region(garden: GridView<u8>, a: Regions, b: Regions, p: Point)
    requires
        garden.wf(),
        a.is_partition_of(garden),
        b.is_partition_of(garden),
        a.count() == b.count(),
        forall|s: int| 0 <= s < a.count() ==> #[trigger] a.seed(s) == b.seed(s),
        garden.in_bounds(p),
    ensures
        a.region_of(p) == b.region_of(p),
{
    let r = a.region_of(p);
    assert(garden.in_bounds(a.members(r)[0]));
    assert(a.region_of(a.members(r)[0]) == r);
    assert(a.region_of(p) == a.region_of(a.seed(r)));
    assert(connected(garden, p, a.seed(r)));
    assert(a.seed(r) == b.seed(r));
    assert(b.region_of(p) == b.region_of(b.seed(r)));
    assert(garden.in_bounds(b.members(r)[0]));
    assert(b.region_of(b.members(r)[0]) == r);
}

/// The indices of the cells that have no region yet.
pub open spec fn unlabelled(labels: GridView<Option<usize>>) -> Set<int> {
    Set::new(|i: int| 0 <= i < labels.cells.len() && labels.cells[i].is_none())
}

/// The cells without a region are finitely many.
proof fn lemma_unlabelled_finite(labels: GridView<Option<usize>>)
    ensures
        unlabelled(labels).finite(),
        unlabelled(labels).len() <= labels.cells.len(),
{
    let all = set_int_range(0, labels.cells.len() as int);
    lemma_int_range(0, labels.cells.len() as int);
    assert(unlabelled(labels).subset_of(all));
    lemma_len_subset(unlabelled(labels), all);
}

/// Giving a region to a cell that had none leaves one cell fewer without.
proof fn lemma_label_one(labels: GridView<Option<usize>>, p: Point, id: usize)
    requires
        labels.wf(),
        labels.in_bounds(p),
        labels.cell(p).is_none(),
    ensures
        unlabelled(labels.with_cell(p, Some(id))).len() + 1 == unlabelled(labels).len(),
{
    labels.lemma_point_index(p);
    lemma_unlabelled_finite(labels);
    assert(unlabelled(labels.with_cell(p, Some(id))) =~= unlabelled(labels).remove(
        labels.index_of(p),
    ));
}

/// Whether the scan of the first `n` cells of `garden`, row by row, has
/// found the regions `regions` and written them to `labels`.
pub open spec fn found_so_far(
    garden: GridView<u8>,
    labels: GridView<Option<usize>>,
    regions: Seq<(u8, Vec<Point>)>,
    n: int,
) -> bool {
    &&& garden.wf()
    &&& labels.wf()
    &&& labels.width == garden.width
    &&& labels.height == garden.height
    &&& forall|p: Point, q: Point|
        #[trigger] linked(garden, p, q) && labels.cell(p).is_some() ==> labels.cell(q)
            == labels.cell(p)
    &&& forall|r: int|
        0 <= r < regions.len() ==> {
            &&& (#[trigger] regions[r]).1@.len() >= 1
            &&& regions[r].1@.no_duplicates()
            &&& garden.index_of(regions[r].1@[0]) < n
        }
    &&& forall|r: int, i: int|
        0 <= r < regions.len() && 0 <= i < regions[r].1@.len() ==> {
            &&& garden.in_bounds(#[trigger] regions[r].1@[i])
            &&& labels.cell(regions[r].1@[i]).is_some()
            &&& labels.cell(regions[r].1@[i]).unwrap() == r
            &&& garden.cell(regions[r].1@[i]) == regions[r].0
        }
    &&& forall|p: Point|
        garden.in_bounds(p) && (#[trigger] labels.cell(p)).is_some() ==> {
            let r = labels.cell(p).unwrap() as int;
            &&& r < regions.len()
            &&& regions[r].1@.contains(p)
            &&& connected(garden, regions[r].1@[0], p)
            &&& garden.index_of(regions[r].1@[0]) <= garden.index_of(p)
        }
    &&& forall|r: int, s: int|
        0 <= r < s < regions.len() ==> garden.index_of((#[trigger] regions[r]).1@[0])
            < garden.index_of((#[trigger] regions[s]).1@[0])
    &&& forall|p: Point|
        garden.in_bounds(p) && garden.index_of(p) < n ==> (#[trigger] labels.cell(p)).is_some()
    &&& total_area(regions, regions.len() as int) + unlabelled(labels).len() == garden.area()
}

/// Whether the region `members` is being grown from `seed` under the number
/// `id`: `before` holds the regions found earlier, `now` also the cells found
/// for this one, and `pending` the cells whose neighbours are still to be
/// looked at.
pub open spec fn flooding(
    garden: GridView<u8>,
    before: GridView<Option<usize>>,
    now: GridView<Option<usize>>,
    members: Seq<Point>,
    pending: Seq<Point>,
    seed: Point,
    id: usize,
) -> bool {
    &&& now.wf()
    &&& now.width == garden.width
    &&& now.height == garden.height
    &&& forall|p: Point|
        garden.in_bounds(p) ==> (#[trigger] now.cell(p) == before.cell(p) || (before.cell(
            p,
        ).is_none() && now.cell(p) == Some(id)))
    &&& members.len() >= 1
    &&& members[0] == seed
    &&& members.no_duplicates()
    &&& forall|i: int|
        0 <= i < members.len() ==> {
            &&& garden.in_bounds(#[trigger] members[i])
            &&& now.cell(members[i]) == Some(id)
            &&& before.cell(members[i]).is_none()
            &&& garden.cell(members[i]) == garden.cell(seed)
            &&& connected(garden, seed, members[i])
        }
    &&& forall|p: Point|
        garden.in_bounds(p) && #[trigger] now.cell(p) == Some(id) && before.cell(p).is_none()
            ==> members.contains(p)
    &&& forall|i: int| 0 <= i < pending.len() ==> members.contains(#[trigger] pending[i])
    &&& forall|p: Point, q: Point|
        #[trigger] linked(garden, p, q) && members.contains(p) && !pending.contains(p)
            ==> members.contains(q)
    &&& members.len() + unlabelled(now).len() == unlabelled(before).len()
}

/// The sum of areas does not look at the regions behind the ones it adds up.
proof fn lemma_total_area_push(regions: Seq<(u8, Vec<Point>)>, last: (u8, Vec<Point>), n: int)
    requires
        0 <= n <= regions.len(),
    ensures
        total_area(regions.push(last), n) == total_area(regions, n),
    decreases n,
{
    if n > 0 {
        lemma_total_area_push(regions, last, n - 1);
    }
}

/// A finished region joins the regions found before it.
proof fn lemma_region_found(
    garden: GridView<u8>,
    before: GridView<Option<usize>>,
    now: GridView<Option<usize>>,
    regions: Seq<(u8, Vec<Point>)>,
    last: (u8, Vec<Point>),
    seed: Point,
)
    requires
        found_so_far(garden, before, regions, garden.index_of(seed)),
        garden.in_bounds(seed),
        before.cell(seed).is_none(),
        regions.len() <= usize::MAX,
        flooding(garden, before, now, last.1@, Seq::empty(), seed, regions.len() as usize),
        last.0 == garden.cell(seed),
    ensures
        found_so_far(garden, now, regions.push(last), garden.index_of(seed) + 1),
{
    let n = garden.index_of(seed);
    let id = regions.len() as usize;
    let all = regions.push(last);
    let members = last.1@;
    lemma_total_area_push(regions, last, regions.len() as int);
    assert forall|p: Point| garden.in_bounds(p) && #[trigger] now.cell(p) == Some(id) implies before.cell(
        p,
    ).is_none() && members.contains(p) && garden.index_of(p) >= n by {
        if before.cell(p).is_some() {
            assert(before.cell(p).unwrap() < regions.len());
        }
        if garden.index_of(p) < n {
            assert(before.cell(p).is_some());
        }
    }
    assert forall|p: Point, q: Point|
        #[trigger] linked(garden, p, q) && now.cell(p).is_some() implies now.cell(q) == now.cell(
        p,
    ) by {
        if before.cell(p).is_some() {
            assert(before.cell(q) == before.cell(p));
            assert(now.cell(p) == before.cell(p));
            assert(now.cell(q) == before.cell(q));
        } else {
            assert(now.cell(p) == Some(id));
            assert(members.contains(p));
            assert(members.contains(q));
            let i = choose|i: int| 0 <= i < members.len() && members[i] == q;
            assert(now.cell(members[i]) == Some(id));
        }
    }
    assert forall|r: int, i: int| 0 <= r < all.len() && 0 <= i < all[r].1@.len() implies {
        &&& garden.in_bounds(#[trigger] all[r].1@[i])
        &&& now.cell(all[r].1@[i]).is_some()
        &&& now.cell(all[r].1@[i]).unwrap() == r
        &&& garden.cell(all[r].1@[i]) == all[r].0
    } by {
        if r < regions.len() {
            let m = regions[r].1@[i];
            assert(garden.in_bounds(m) && before.cell(m).is_some());
            assert(now.cell(m) == before.cell(m));
        } else {
            assert(garden.in_bounds(members[i]));
        }
    }
    assert forall|p: Point| garden.in_bounds(p) && (#[trigger] now.cell(p)).is_some() implies {
        let r = now.cell(p).unwrap() as int;
        &&& r < all.len()
        &&& all[r].1@.contains(p)
        &&& connected(garden, all[r].1@[0], p)
        &&& garden.index_of(all[r].1@[0]) <= garden.index_of(p)
    } by {
        if before.cell(p).is_some() {
            assert(now.cell(p) == before.cell(p));
            let r = before.cell(p).unwrap() as int;
            assert(all[r] == regions[r]);
        } else {
            assert(now.cell(p) == Some(id));
            let i = choose|i: int| 0 <= i < members.len() && members[i] == p;
            assert(connected(garden, seed, members[i]));
        }
    }
    assert forall|r: int, s: int| 0 <= r < s < all.len() implies garden.index_of(
        (#[trigger] all[r]).1@[0],
    ) < garden.index_of((#[trigger] all[s]).1@[0]) by {
        if s < regions.len() {
            assert(all[r] == regions[r] && all[s] == regions[s]);
        } else {
            assert(all[r] == regions[r]);
        }
    }
    assert forall|p: Point| garden.in_bounds(p) && garden.index_of(p) < n + 1 implies (#[trigger] now.cell(
        p,
    )).is_some() by {
        if garden.index_of(p) < n {
            assert(before.cell(p).is_some());
        } else {
            garden.lemma_index_injective(p, seed);
            assert(now.cell(members[0]) == Some(id));
        }
    }
    assert forall|r: int| 0 <= r < all.len() implies {
        &&& (#[trigger] all[r]).1@.len() >= 1
        &&& all[r].1@.no_duplicates()
        &&& garden.index_of(all[r].1@[0]) < n + 1
    } by {
        if r < regions.len() {
            assert(all[r] == regions[r]);
        }
    }
}

/// Along a walk the region stays the same.
proof fn lemma_chain_label(
    garden: GridView<u8>,
    labels: GridView<Option<usize>>,
    regions: Seq<(u8, Vec<Point>)>,
    chain: Seq<Point>,
    i: int,
)
    requires
        found_so_far(garden, labels, regions, garden.area() as int),
        is_chain(garden, chain),
        0 <= i < chain.len(),
    ensures
        labels.cell(chain[i]) == labels.cell(chain[0]),
        labels.cell(chain[0]).is_some(),
    decreases i,
{
    garden.lemma_point_index(chain[0]);
    if i > 0 {
        lemma_chain_label(garden, labels, regions, chain, i - 1);
        assert(linked(garden, chain[i - 1], chain[i - 1 + 1]));
    }
}

/// When every cell has been scanned, the regions found cut the garden into
/// its regions.
proof fn lemma_scan_done(garden: GridView<u8>, labels: GridView<Option<usize>>, found: Regions)
    requires
        found_so_far(garden, labels, found.regions@, garden.area() as int),
        found.cell_to_region@.width == garden.width,
        found.cell_to_region@.height == garden.height,
        found.cell_to_region@.cells.len() == labels.cells.len(),
        forall|i: int|
            0 <= i < labels.cells.len() ==> labels.cells[i] == Some(
                #[trigger] found.cell_to_region@.cells[i],
            ),
    ensures
        found.is_partition_of(garden),
{
    let regions = found.regions@;
    assert forall|p: Point| garden.in_bounds(p) implies labels.cell(p) == Some(
        found.cell_to_region@.cell(p),
    ) by {
        garden.lemma_point_index(p);
    }
    assert forall|p: Point| garden.in_bounds(p) implies 0 <= #[trigger] found.region_of(p)
        < found.count() by {
        assert(labels.cell(p).is_some());
    }
    assert forall|p: Point, q: Point| garden.in_bounds(p) && garden.in_bounds(q) implies (
    #[trigger] found.region_of(p) == #[trigger] found.region_of(q) <==> connected(garden, p, q)) by {
        assert(labels.cell(p).is_some());
        assert(labels.cell(q).is_some());
        let r = found.region_of(p);
        if found.region_of(p) == found.region_of(q) {
            lemma_connected_sym(garden, regions[r].1@[0], p);
            lemma_connected_trans(garden, p, regions[r].1@[0], q);
        }
        if connected(garden, p, q) {
            let chain = choose|chain: Seq<Point>| #[trigger]
                is_chain(garden, chain) && chain.first() == p && chain.last() == q;
            lemma_chain_label(garden, labels, regions, chain, chain.len() as int - 1);
        }
    }
    assert forall|r: int| 0 <= r < found.count() implies {
        &&& (#[trigger] found.members(r)).len() >= 1
        &&& found.members(r).no_duplicates()
    } by {
        assert(regions[r].1@.len() >= 1);
    }
    assert forall|r: int, i: int| 0 <= r < found.count() && 0 <= i < found.members(r).len() implies {
        &&& garden.in_bounds(#[trigger] found.members(r)[i])
        &&& found.region_of(found.members(r)[i]) == r
        &&& garden.cell(found.members(r)[i]) == found.plant(r)
    } by {
        assert(garden.in_bounds(regions[r].1@[i]));
    }
    assert forall|p: Point| garden.in_bounds(p) implies (#[trigger] found.members(
        found.region_of(p),
    )).contains(p) by {
        assert(labels.cell(p).is_some());
    }
    assert forall|p: Point| garden.in_bounds(p) implies garden.index_of(
        found.seed(#[trigger] found.region_of(p)),
    ) <= garden.index_of(p) by {
        assert(labels.cell(p).is_some());
    }
    assert forall|r: int, s: int| 0 <= r < s < found.count() implies garden.index_of(
        #[trigger] found.seed(r),
    ) < garden.index_of(#[trigger] found.seed(s)) by {
        assert(garden.index_of(regions[r].1@[0]) < garden.index_of(regions[s].1@[0]));
    }
    lemma_unlabelled_finite(labels);
    assert(unlabelled(labels) =~= Set::<int>::empty()) by {
        assert forall|i: int| !unlabelled(labels).contains(i) by {
            if 0 <= i < labels.cells.len() {
                assert(labels.cells[i] == Some(found.cell_to_region@.cells[i]));
            }
        }
    }
}

/// Grows the region of `seed`: gives the number `id` to every cell that a
/// walk over cells of the same plant joins to `seed`, and returns those cells.
fn flood(garden: &Grid<u8>, labels: &mut Grid<Option<usize>>, seed: Point, id: usize) -> (members:
    Vec<Point>)
    requires
        garden.wf(),
        old(labels).wf(),
        old(labels)@.width == garden@.width,
        old(labels)@.height == garden@.height,
        garden@.in_bounds(seed),
        old(labels)@.cell(seed).is_none(),
        forall|p: Point, q: Point|
            #[trigger] linked(garden@, p, q) && old(labels)@.cell(p).is_some() ==> old(
                labels,
            )@.cell(q) == old(labels)@.cell(p),
    ensures
        flooding(garden@, old(labels)@, final(labels)@, members@, Seq::empty(), seed, id),
{
    let ghost before = labels@;
    let ghost plot = garden@;
    let plant = *garden.get_unchecked(seed);
    let mut members: Vec<Point> = Vec::new();
    let mut to_explore: Vec<Point> = Vec::new();
    labels.set(seed, Some(id));
    members.push(seed);
    to_explore.push(seed);
    proof {
        lemma_label_one(before, seed, id);
        lemma_connected_refl(plot, seed);
        assert(members@[0] == seed);
        assert(to_explore@[0] == seed);
        assert forall|p: Point| plot.in_bounds(p) implies (#[trigger] labels@.cell(p) == before.cell(
            p,
        ) || (before.cell(p).is_none() && labels@.cell(p) == Some(id))) by {
            before.lemma_with_cell(seed, Some(id), p);
        }
        assert forall|p: Point|
            plot.in_bounds(p) && #[trigger] labels@.cell(p) == Some(id) && before.cell(
                p,
            ).is_none() implies members@.contains(p) by {
            before.lemma_with_cell(seed, Some(id), p);
        }
        before.lemma_with_cell(seed, Some(id), seed);
    }
    let dirs = Dir::all();
    while to_explore.len() > 0
        invariant
            garden.wf(),
            plot == garden@,
            plant == plot.cell(seed),
            plot.in_bounds(seed),
            dirs@ == Dir::spec_all(),
            forall|p: Point, q: Point|
                #[trigger] linked(plot, p, q) && before.cell(p).is_some() ==> before.cell(q)
                    == before.cell(p),
            flooding(plot, before, labels@, members@, to_explore@, seed, id),
        decreases 2 * unlabelled(labels@).len() + to_explore@.len(),
    {
        let ghost stacked = to_explore@;
        let ghost budget = 2 * unlabelled(labels@).len() + to_explore@.len();
        let p = to_explore.pop().unwrap();
        proof {
            assert(members@.contains(stacked[stacked.len() - 1]));
            assert forall|i: int| 0 <= i < to_explore@.push(p).len() implies members@.contains(
                #[trigger] to_explore@.push(p)[i],
            ) by {
                assert(to_explore@.push(p)[i] == stacked[i]);
            }
            assert(to_explore@.push(p) =~= stacked);
        }
        let mut k: usize = 0;
        while k < 4
            invariant
                garden.wf(),
                plot == garden@,
                plant == plot.cell(seed),
                plot.in_bounds(seed),
                plot.in_bounds(p),
                members@.contains(p),
                k <= 4,
                dirs@ == Dir::spec_all(),
                forall|a: Point, b: Point|
                    #[trigger] linked(plot, a, b) && before.cell(a).is_some() ==> before.cell(b)
                        == before.cell(a),
                flooding(plot, before, labels@, members@, to_explore@.push(p), seed, id),
                forall|j: int|
                    0 <= j < k && linked(plot, p, (#[trigger] dirs@[j]).spec_step_from(p))
                        ==> members@.contains(dirs@[j].spec_step_from(p)),
                2 * unlabelled(labels@).len() + to_explore@.len() + 1 <= budget,
            decreases 4 - k,
        {
            let dir = dirs[k];
            let q = dir.step_from(p);
            let ghost was = labels@;
            let ghost had = members@;
            let ghost open = to_explore@;
            if garden.is_in_bounds(q) && *garden.get_unchecked(q) == plant
                && labels.get_unchecked(q).is_none() {
                labels.set(q, Some(id));
                members.push(q);
                to_explore.push(q);
                proof {
                    lemma_label_one(was, q, id);
                    let i = choose|i: int| 0 <= i < had.len() && had[i] == p;
                    assert(plot.cell(had[i]) == plot.cell(seed));
                    assert(linked(plot, p, q));
                    lemma_connected_step(plot, seed, p, q);
                    assert(!had.contains(q)) by {
                        if had.contains(q) {
                            let j = choose|j: int| 0 <= j < had.len() && had[j] == q;
                            assert(was.cell(had[j]) == Some(id));
                        }
                    }
                    assert forall|a: Point| plot.in_bounds(a) implies (#[trigger] labels@.cell(a)
                        == before.cell(a) || (before.cell(a).is_none() && labels@.cell(a) == Some(
                        id,
                    ))) by {
                        was.lemma_with_cell(q, Some(id), a);
                        assert(was.cell(a) == before.cell(a) || (before.cell(a).is_none()
                            && was.cell(a) == Some(id)));
                    }
                    assert forall|i: int| 0 <= i < members@.len() implies {
                        &&& plot.in_bounds(#[trigger] members@[i])
                        &&& labels@.cell(members@[i]) == Some(id)
                        &&& before.cell(members@[i]).is_none()
                        &&& plot.cell(members@[i]) == plot.cell(seed)
                        &&& connected(plot, seed, members@[i])
                    } by {
                        if i < had.len() {
                            assert(members@[i] == had[i]);
                            assert(plot.in_bounds(had[i]));
                            was.lemma_with_cell(q, Some(id), had[i]);
                        } else {
                            was.lemma_with_cell(q, Some(id), q);
                            assert(was.cell(q) == before.cell(q) || (before.cell(q).is_none()
                                && was.cell(q) == Some(id)));
                        }
                    }
                    assert forall|a: Point|
                        plot.in_bounds(a) && #[trigger] labels@.cell(a) == Some(id) && before.cell(
                            a,
                        ).is_none() implies members@.contains(a) by {
                        was.lemma_with_cell(q, Some(id), a);
                        if a == q {
                            assert(members@[had.len() as int] == q);
                        } else {
                            assert(had.contains(a));
                            let j = choose|j: int| 0 <= j < had.len() && had[j] == a;
                            assert(members@[j] == a);
                        }
                    }
                    assert forall|a: Point| had.contains(a) implies members@.contains(a) by {
                        let j = choose|j: int| 0 <= j < had.len() && had[j] == a;
                        assert(members@[j] == a);
                    }
                    assert(members@.contains(q)) by {
                        assert(members@[had.len() as int] == q);
                    }
                    let pending = to_explore@.push(p);
                    assert forall|i: int| 0 <= i < pending.len() implies members@.contains(
                        #[trigger] pending[i],
                    ) by {
                        if i < open.len() {
                            assert(pending[i] == open.push(p)[i]);
                            assert(had.contains(open.push(p)[i]));
                        } else if i == open.len() {
                            assert(pending[i] == q);
                        } else {
                            assert(pending[i] == p);
                        }
                    }
                    assert forall|a: Point, b: Point|
                        #[trigger] linked(plot, a, b) && members@.contains(a) && !pending.contains(
                            a,
                        ) implies members@.contains(b) by {
                        assert(pending[open.len() as int] == q);
                        assert(a != q);
                        let j = choose|j: int| 0 <= j < members@.len() && members@[j] == a;
                        assert(had[j] == a);
                        assert(had.contains(a));
                        if open.push(p).contains(a) {
                            let m = choose|m: int| 0 <= m < open.push(p).len() && open.push(p)[m]
                                == a;
                            if m < open.len() {
                                assert(pending[m] == a);
                            } else {
                                assert(pending[open.len() as int + 1] == a);
                            }
                        }
                        assert(had.contains(b));
                    }
                    assert(members@.no_duplicates());
                }
            } else {
                proof {
                    if linked(plot, p, q) {
                        assert(plot.cell(q) == plant) by {
                            let i = choose|i: int| 0 <= i < had.len() && had[i] == p;
                            assert(plot.cell(had[i]) == plot.cell(seed));
                        }
                        assert(was.cell(q).is_some());
                        if before.cell(q).is_some() {
                            lemma_linked_sym(plot, p, q);
                            assert(before.cell(p) == before.cell(q));
                            let i = choose|i: int| 0 <= i < had.len() && had[i] == p;
                            assert(before.cell(had[i]).is_none());
                        }
                        assert(was.cell(q) == Some(id));
                        assert(members@.contains(q));
                    }
                }
            }
            k += 1;
        }
        proof {
            let pending = to_explore@.push(p);
            assert forall|a: Point, b: Point|
                #[trigger] linked(plot, a, b) && members@.contains(a) && !to_explore@.contains(
                    a,
                ) implies members@.contains(b) by {
                if a == p {
                    lemma_step_adjacent(p, b);
                    let d = choose|d: Dir| d.can_step_from(p) && #[trigger] d.spec_step_from(p) == b;
                    assert(dirs@[d.ordinal()] == d);
                } else {
                    if pending.contains(a) {
                        let m = choose|m: int| 0 <= m < pending.len() && pending[m] == a;
                        assert(to_explore@[m] == a);
                    }
                }
            }
            assert forall|i: int| 0 <= i < to_explore@.len() implies members@.contains(
                #[trigger] to_explore@[i],
            ) by {
                assert(pending[i] == to_explore@[i]);
            }
        }
    }
    proof {
        assert(to_explore@ =~= Seq::<Point>::empty());
    }
    members
}

/// Cells with the same value next to each other are linked both ways.
proof fn lemma_linked_sym<T>(garden: GridView<T>, p: Point, q: Point)
    requires
        linked(garden, p, q),
    ensures
        linked(garden, q, p),
{
}

/// Before the scan nothing has been found.
proof fn lemma_scan_start(garden: GridView<u8>, labels: GridView<Option<usize>>)
    requires
        garden.wf(),
        labels.wf(),
        labels.width == garden.width,
        labels.height == garden.height,
        forall|i: int| 0 <= i < labels.cells.len() ==> labels.cells[i].is_none(),
    ensures
        found_so_far(garden, labels, Seq::empty(), 0),
{
    let all = set_int_range(0, labels.cells.len() as int);
    lemma_int_range(0, labels.cells.len() as int);
    assert(unlabelled(labels) =~= all);
    assert forall|p: Point| garden.in_bounds(p) implies (#[trigger] labels.cell(p)).is_none() by {
        garden.lemma_point_index(p);
    }
    assert forall|p: Point| garden.in_bounds(p) implies garden.index_of(p) >= 0 by {
        garden.lemma_point_index(p);
    }
}

/// A cell that already has a region needs no work.
proof fn lemma_scan_skip(
    garden: GridView<u8>,
    labels: GridView<Option<usize>>,
    regions: Seq<(u8, Vec<Point>)>,
    here: Point,
)
    requires
        found_so_far(garden, labels, regions, garden.index_of(here)),
        garden.in_bounds(here),
        labels.cell(here).is_some(),
    ensures
        found_so_far(garden, labels, regions, garden.index_of(here) + 1),
{
    assert forall|p: Point|
        garden.in_bounds(p) && garden.index_of(p) < garden.index_of(here) + 1 implies (
    #[trigger] labels.cell(p)).is_some() by {
        if garden.index_of(p) == garden.index_of(here) {
            garden.lemma_index_injective(p, here);
        }
    }
}

/// Cuts the garden into its regions.
pub fn find_regions(garden_map: &Grid<u8>) -> (found: Regions)
    requires
        garden_map.wf(),
    ensures
        found.is_partition_of(garden_map@),
{
    let ghost plot = garden_map@;
    let width = garden_map.width;
    let height = garden_map.height;
    let area = garden_map.inner.len();
    let mut regions: Vec<(u8, Vec<Point>)> = Vec::new();
    let mut cell_to_region: Grid<Option<usize>> = Grid::new(width, height, None);
    proof {
        lemma_scan_start(plot, cell_to_region@);
        assert(0 * width == 0) by (nonlinear_arith);
    }
    let mut y: usize = 0;
    while y < height
        invariant
            garden_map.wf(),
            plot == garden_map@,
            width == garden_map.width,
            height == garden_map.height,
            y <= height,
            cell_to_region.wf(),
            found_so_far(plot, cell_to_region@, regions@, y * width),
        decreases height - y,
    {
        let mut x: usize = 0;
        while x < width
            invariant
                garden_map.wf(),
                plot == garden_map@,
                width == garden_map.width,
                height == garden_map.height,
                y < height,
                x <= width,
                cell_to_region.wf(),
                found_so_far(plot, cell_to_region@, regions@, y * width + x),
            decreases width - x,
        {
            let curr = Point::from_indices(x, y);
            // Check we haven't already labeled this one
            if cell_to_region.get_unchecked(curr).is_none() {
                let curr_plant = *garden_map.get_unchecked(curr);
                let ghost before = cell_to_region@;
                let ghost earlier = regions@;
                let discovered = flood(garden_map, &mut cell_to_region, curr, regions.len());
                let ghost last = (curr_plant, discovered);
                regions.push((curr_plant, discovered));
                proof {
                    lemma_region_found(plot, before, cell_to_region@, earlier, last, curr);
                }
            } else {
                proof {
                    lemma_scan_skip(plot, cell_to_region@, regions@, curr);
                }
            }
            x += 1;
        }
        proof {
            assert((y + 1) * width == y * width + width) by (nonlinear_arith);
        }
        y += 1;
    }
    proof {
        assert(height * width == width * height) by (nonlinear_arith);
    }
    let mut inner: Vec<usize> = Vec::with_capacity(area);
    let mut i: usize = 0;
    while i < area
        invariant
            area == cell_to_region.inner@.len(),
            i <= area,
            inner@.len() == i,
            forall|j: int|
                0 <= j < i && cell_to_region.inner@[j].is_some() ==> cell_to_region.inner@[j]
                    == Some(#[trigger] inner@[j]),
        decreases area - i,
    {
        let id = match cell_to_region.inner[i] {
            Some(id) => id,
            None => 0,
        };
        inner.push(id);
        i += 1;
    }
    let found = Regions { cell_to_region: Grid { width, height, inner }, regions };
    proof {
        let labels = cell_to_region@;
        assert forall|j: int| 0 <= j < labels.cells.len() implies labels.cells[j] == Some(
            #[trigger] found.cell_to_region@.cells[j],
        ) by {
            plot.lemma_index_point(j);
            assert(labels.cell(plot.point_at(j)).is_some());
        }
        lemma_scan_done(plot, labels, found);
    }
    found
}

/// The fence of a region: one piece for each side of a cell of the region
/// that faces a cell outside of it.
pub open spec fn fence(region: Set<Point>) -> Set<(Point, Dir)> {
    Set::new(|m: (Point, Dir)| region.contains(m.0) && !region.contains(m.1.spec_step_from(m.0)))
}

/// The cell next to `p` along a fence that runs on side `dir` of `p`: to the
/// right for a fence above or below, downwards for a fence to the left or
/// right.
pub open spec fn beside(p: Point, dir: Dir) -> Point {
    match dir {
        Dir::Up | Dir::Down => Dir::Right.spec_step_from(p),
        Dir::Left | Dir::Right => Dir::Down.spec_step_from(p),
    }
}

/// The pieces of fence at which a straight side of the region ends: those
/// that do not go on along the next cell.
pub open spec fn side_ends(region: Set<Point>) -> Set<(Point, Dir)> {
    Set::new(
        |m: (Point, Dir)|
            fence(region).contains(m) && !fence(region).contains((beside(m.0, m.1), m.1)),
    )
}

impl Regions {
    /// The cells of region `r`, as a set.
    pub open spec fn region(&self, r: int) -> Set<Point> {
        self.members(r).to_set()
    }

    /// The sum over the first `n` regions of area times perimeter.
    pub open spec fn fence_price(&self, n: int) -> nat
        decreases n,
    {
        if n <= 0 {
            0
        } else {
            self.fence_price(n - 1) + self.members(n - 1).len() * fence(self.region(n - 1)).len()
        }
    }

    /// The sum over the first `n` regions of area times number of sides.
    pub open spec fn bulk_price(&self, n: int) -> nat
        decreases n,
    {
        if n <= 0 {
            0
        } else {
            self.bulk_price(n - 1) + self.members(n - 1).len() * side_ends(
                self.region(n - 1),
            ).len()
        }
    }
}

/// How many of the marks `(members[i], dir)` meet `pred`, counting the cells
/// before `members[n]` with all four directions and `members[n]` with the
/// first `k`.
pub open spec fn marks_upto(
    members: Seq<Point>,
    pred: spec_fn(Point, Dir) -> bool,
    n: int,
    k: int,
) -> nat
    decreases n, k,
{
    if k <= 0 {
        if n <= 0 {
            0
        } else {
            marks_upto(members, pred, n - 1, 4)
        }
    } else {
        marks_upto(members, pred, n, k - 1) + if pred(members[n], Dir::spec_all()[k - 1]) {
            1nat
        } else {
            0nat
        }
    }
}

/// The marks that [`marks_upto`] counts.
pub open spec fn mark_set(
    members: Seq<Point>,
    pred: spec_fn(Point, Dir) -> bool,
    n: int,
    k: int,
) -> Set<(Point, Dir)> {
    Set::new(
        |m: (Point, Dir)|
            exists|i: int|
                0 <= i < members.len() && #[trigger] members[i] == m.0 && pred(m.0, m.1) && (i < n
                    || (i == n && m.1.ordinal() < k)),
    )
}

/// [`marks_upto`] is the number of marks in [`mark_set`].
pub proof fn lemma_marks(members: Seq<Point>, pred: spec_fn(Point, Dir) -> bool, n: int, k: int)
    requires
        members.no_duplicates(),
        0 <= n <= members.len(),
        0 <= k <= 4,
        n == members.len() ==> k == 0,
    ensures
        mark_set(members, pred, n, k).finite(),
        mark_set(members, pred, n, k).len() == marks_upto(members, pred, n, k),
        marks_upto(members, pred, n, k) <= 4 * n + k,
    decreases n, k,
{
    let now = mark_set(members, pred, n, k);
    if k == 0 {
        if n == 0 {
            assert(now =~= Set::<(Point, Dir)>::empty());
        } else {
            lemma_marks(members, pred, n - 1, 4);
            let prev = mark_set(members, pred, n - 1, 4);
            assert forall|m: (Point, Dir)| now.contains(m) implies prev.contains(m) by {
                let i = choose|i: int|
                    0 <= i < members.len() && #[trigger] members[i] == m.0 && pred(m.0, m.1) && (i
                        < n || (i == n && m.1.ordinal() < k));
                assert(members[i] == m.0 && (i < n - 1 || (i == n - 1 && m.1.ordinal() < 4)));
            }
            assert forall|m: (Point, Dir)| prev.contains(m) implies now.contains(m) by {
                let i = choose|i: int|
                    0 <= i < members.len() && #[trigger] members[i] == m.0 && pred(m.0, m.1) && (i
                        < n - 1 || (i == n - 1 && m.1.ordinal() < 4));
                assert(members[i] == m.0 && i < n);
            }
            assert(now =~= prev);
        }
    } else {
        lemma_marks(members, pred, n, k - 1);
        let prev = mark_set(members, pred, n, k - 1);
        let d = Dir::spec_all()[k - 1];
        let mark = (members[n], d);
        assert(d.ordinal() == k - 1);
        assert forall|m: (Point, Dir)| prev.contains(m) implies now.contains(m) by {
            let i = choose|i: int|
                0 <= i < members.len() && #[trigger] members[i] == m.0 && pred(m.0, m.1) && (i < n
                    || (i == n && m.1.ordinal() < k - 1));
            assert(members[i] == m.0 && (i < n || (i == n && m.1.ordinal() < k)));
        }
        assert forall|m: (Point, Dir)| now.contains(m) && m != mark implies prev.contains(m) by {
            let i = choose|i: int|
                0 <= i < members.len() && #[trigger] members[i] == m.0 && pred(m.0, m.1) && (i < n
                    || (i == n && m.1.ordinal() < k));
            if i == n && m.1.ordinal() == k - 1 {
                assert(m.1 == d);
            }
            assert(members[i] == m.0 && (i < n || (i == n && m.1.ordinal() < k - 1)));
        }
        assert(!prev.contains(mark)) by {
            if prev.contains(mark) {
                let i = choose|i: int|
                    0 <= i < members.len() && #[trigger] members[i] == mark.0 && pred(
                        mark.0,
                        mark.1,
                    ) && (i < n || (i == n && mark.1.ordinal() < k - 1));
                assert(members[i] == members[n]);
            }
        }
        if pred(members[n], d) {
            assert(now.contains(mark)) by {
                assert(members[n] == mark.0);
            }
            assert(now =~= prev.insert(mark));
        } else {
            assert(!now.contains(mark));
            assert(now =~= prev);
        }
    }
}

/// The area of a region is at most the sum of the areas up to it.
proof fn lemma_total_area_bound(regions: Seq<(u8, Vec<Point>)>, n: int, r: int)
    requires
        0 <= r < n <= regions.len(),
    ensures
        regions[r].1@.len() <= total_area(regions, n),
        total_area(regions, r) + regions[r].1@.len() <= total_area(regions, n),
    decreases n,
{
    if r < n - 1 {
        lemma_total_area_bound(regions, n - 1, r);
    }
}

/// Whether the cell at `p` lies in region `r`.
fn in_region(found: &Regions, r: usize, p: Point, Ghost(garden): Ghost<GridView<u8>>) -> (inside:
    bool)
    requires
        garden.wf(),
        found.is_partition_of(garden),
        r < found.count(),
    ensures
        inside == found.region(r as int).contains(p),
{
    proof {
        if garden.in_bounds(p) {
            assert(found.members(found.region_of(p)).contains(p));
        }
        if found.members(r as int).contains(p) {
            let i = choose|i: int| 0 <= i < found.members(r as int).len() && found.members(
                r as int,
            )[i] == p;
            assert(garden.in_bounds(found.members(r as int)[i]));
        }
    }
    match found.cell_to_region.get(p) {
        Some(id) => *id == r,
        None => false,
    }
}

/// The cell next to `p` along a fence on side `dir`.
fn next_along(p: Point, dir: Dir) -> (q: Point)
    requires
        p.x < isize::MAX,
        p.y < isize::MAX,
    ensures
        q == beside(p, dir),
{
    match dir {
        Dir::Up | Dir::Down => Dir::Right.step_from(p),
        Dir::Left | Dir::Right => Dir::Down.step_from(p),
    }
}

/// The length of the fence around region `r`.
fn perimeter_of(found: &Regions, r: usize, Ghost(garden): Ghost<GridView<u8>>) -> (length: usize)
    requires
        garden.wf(),
        found.is_partition_of(garden),
        r < found.count(),
        4 * garden.area() <= usize::MAX,
    ensures
        length == fence(found.region(r as int)).len(),
        length <= 4 * found.members(r as int).len(),
{
    let members = &found.regions[r].1;
    let ghost region = found.region(r as int);
    let ghost outside = |p: Point, d: Dir| !region.contains(d.spec_step_from(p));
    let dirs = Dir::all();
    let mut length: usize = 0;
    let mut i: usize = 0;
    proof {
        lemma_total_area_bound(found.regions@, found.count(), r as int);
    }
    while i < members.len()
        invariant
            garden.wf(),
            found.is_partition_of(garden),
            r < found.count(),
            members@ == found.members(r as int),
            region == found.region(r as int),
            outside == |p: Point, d: Dir| !region.contains(d.spec_step_from(p)),
            dirs@ == Dir::spec_all(),
            i <= members@.len(),
            4 * members@.len() <= usize::MAX,
            length == marks_upto(members@, outside, i as int, 0),
        decreases members@.len() - i,
    {
        let p = members[i];
        assert(garden.in_bounds(found.members(r as int)[i as int]));
        let mut k: usize = 0;
        while k < 4
            invariant
                garden.wf(),
                found.is_partition_of(garden),
                r < found.count(),
                members@ == found.members(r as int),
                region == found.region(r as int),
                outside == |p: Point, d: Dir| !region.contains(d.spec_step_from(p)),
                dirs@ == Dir::spec_all(),
                i < members@.len(),
                p == members@[i as int],
                garden.in_bounds(p),
                k <= 4,
                4 * members@.len() <= usize::MAX,
                length == marks_upto(members@, outside, i as int, k as int),
            decreases 4 - k,
        {
            proof {
                lemma_marks(members@, outside, i as int, k as int);
            }
            let q = dirs[k].step_from(p);
            if !in_region(found, r, q, Ghost(garden)) {
                length += 1;
            }
            k += 1;
        }
        i += 1;
    }
    proof {
        lemma_marks(members@, outside, members@.len() as int, 0);
        assert(mark_set(members@, outside, members@.len() as int, 0) =~= fence(region)) by {
            assert forall|m: (Point, Dir)| fence(region).contains(m) implies mark_set(
                members@,
                outside,
                members@.len() as int,
                0,
            ).contains(m) by {
                let j = choose|j: int| 0 <= j < members@.len() && members@[j] == m.0;
                assert(members@[j] == m.0);
            }
        }
    }
    length
}

/// The pieces of fence around region `r`, each as the number of the state
/// made of its cell and its side.
fn edges_of(found: &Regions, r: usize, Ghost(garden): Ghost<GridView<u8>>) -> (edges: FxHashSet<
    usize,
>)
    requires
        garden.wf(),
        found.is_partition_of(garden),
        r < found.count(),
        4 * garden.area() <= usize::MAX,
    ensures
        forall|p: Point, d: Dir|
            garden.in_bounds(p) ==> (edges@.contains(#[trigger] garden.state_index(p, d) as usize)
                <==> fence(found.region(r as int)).contains((p, d))),
{
    let members = &found.regions[r].1;
    let labels = &found.cell_to_region;
    let ghost region = found.region(r as int);
    let dirs = Dir::all();
    let mut edges = FxHashSet::default();
    let mut i: usize = 0;
    while i < members.len()
        invariant
            garden.wf(),
            found.is_partition_of(garden),
            r < found.count(),
            4 * garden.area() <= usize::MAX,
            members@ == found.members(r as int),
            region == found.region(r as int),
            labels == &found.cell_to_region,
            dirs@ == Dir::spec_all(),
            i <= members@.len(),
            forall|p: Point, d: Dir|
                garden.in_bounds(p) ==> (edges@.contains(
                    #[trigger] garden.state_index(p, d) as usize,
                ) <==> fence(region).contains((p, d)) && exists|j: int|
                    0 <= j < i && members@[j] == p),
        decreases members@.len() - i,
    {
        let p = members[i];
        assert(garden.in_bounds(found.members(r as int)[i as int]));
        let mut k: usize = 0;
        while k < 4
            invariant
                garden.wf(),
                found.is_partition_of(garden),
                r < found.count(),
                4 * garden.area() <= usize::MAX,
                members@ == found.members(r as int),
                region == found.region(r as int),
                labels == &found.cell_to_region,
                dirs@ == Dir::spec_all(),
                i < members@.len(),
                p == members@[i as int],
                garden.in_bounds(p),
                k <= 4,
                forall|q: Point, d: Dir|
                    garden.in_bounds(q) ==> (edges@.contains(
                        #[trigger] garden.state_index(q, d) as usize,
                    ) <==> fence(region).contains((q, d)) && ((exists|j: int|
                        0 <= j < i && members@[j] == q) || (q == p && d.ordinal() < k))),
            decreases 4 - k,
        {
            let dir = dirs[k];
            let q = dir.step_from(p);
            let ghost had = edges@;
            if !in_region(found, r, q, Ghost(garden)) {
                let id = labels.state_offset(p, dir);
                index_set_insert(&mut edges, id);
                proof {
                    assert forall|a: Point, d: Dir| garden.in_bounds(a) implies (edges@.contains(
                        #[trigger] garden.state_index(a, d) as usize,
                    ) <==> fence(region).contains((a, d)) && ((exists|j: int|
                        0 <= j < i && members@[j] == a) || (a == p && d.ordinal() < k + 1))) by {
                        garden.lemma_state_index(a, d, p, dir);
                        assert(members@.contains(p));
                        if a == p && d == dir {
                        } else {
                            assert(had.contains(garden.state_index(a, d) as usize)
                                == edges@.contains(garden.state_index(a, d) as usize));
                        }
                    }
                }
            } else {
                proof {
                    assert forall|a: Point, d: Dir| garden.in_bounds(a) implies (edges@.contains(
                        #[trigger] garden.state_index(a, d) as usize,
                    ) <==> fence(region).contains((a, d)) && ((exists|j: int|
                        0 <= j < i && members@[j] == a) || (a == p && d.ordinal() < k + 1))) by {
                        if a == p && d.ordinal() == k {
                            assert(d == dir);
                        }
                    }
                }
            }
            k += 1;
        }
        proof {
            assert forall|q: Point, d: Dir| garden.in_bounds(q) implies (edges@.contains(
                #[trigger] garden.state_index(q, d) as usize,
            ) <==> fence(region).contains((q, d)) && exists|j: int|
                0 <= j < i + 1 && members@[j] == q) by {
                if q == p {
                    assert(members@[i as int] == q);
                }
                if exists|j: int| 0 <= j < i + 1 && members@[j] == q {
                    let j = choose|j: int| 0 <= j < i + 1 && members@[j] == q;
                    if j < i {
                        assert(0 <= j < i && members@[j] == q);
                    }
                }
            }
        }
        i += 1;
    }
    proof {
        assert forall|p: Point, d: Dir| garden.in_bounds(p) implies (edges@.contains(
            #[trigger] garden.state_index(p, d) as usize,
        ) <==> fence(region).contains((p, d))) by {
            if fence(region).contains((p, d)) {
                let j = choose|j: int| 0 <= j < members@.len() && members@[j] == p;
                assert(0 <= j < i && members@[j] == p);
            }
        }
    }
    edges
}

/// The number of straight sides of region `r`, given the pieces of its
/// fence: the pieces that do not go on along the next cell.
fn sides_from(
    edges: &FxHashSet<usize>,
    found: &Regions,
    r: usize,
    Ghost(garden): Ghost<GridView<u8>>,
) -> (sides: usize)
    requires
        garden.wf(),
        found.is_partition_of(garden),
        r < found.count(),
        4 * garden.area() <= usize::MAX,
        forall|p: Point, d: Dir|
            garden.in_bounds(p) ==> (edges@.contains(#[trigger] garden.state_index(p, d) as usize)
                <==> fence(found.region(r as int)).contains((p, d))),
    ensures
        sides == side_ends(found.region(r as int)).len(),
        sides <= 4 * found.members(r as int).len(),
{
    let members = &found.regions[r].1;
    let labels = &found.cell_to_region;
    let ghost region = found.region(r as int);
    let ghost ends = |p: Point, d: Dir| side_ends(region).contains((p, d));
    let dirs = Dir::all();
    let mut sides: usize = 0;
    let mut i: usize = 0;
    proof {
        lemma_total_area_bound(found.regions@, found.count(), r as int);
    }
    while i < members.len()
        invariant
            garden.wf(),
            found.is_partition_of(garden),
            r < found.count(),
            4 * garden.area() <= usize::MAX,
            members@ == found.members(r as int),
            region == found.region(r as int),
            labels == &found.cell_to_region,
            ends == |p: Point, d: Dir| side_ends(region).contains((p, d)),
            dirs@ == Dir::spec_all(),
            i <= members@.len(),
            4 * members@.len() <= usize::MAX,
            forall|p: Point, d: Dir|
                garden.in_bounds(p) ==> (edges@.contains(
                    #[trigger] garden.state_index(p, d) as usize,
                ) <==> fence(region).contains((p, d))),
            sides == marks_upto(members@, ends, i as int, 0),
        decreases members@.len() - i,
    {
        let p = members[i];
        assert(garden.in_bounds(found.members(r as int)[i as int]));
        let mut k: usize = 0;
        while k < 4
            invariant
                garden.wf(),
                found.is_partition_of(garden),
                r < found.count(),
                4 * garden.area() <= usize::MAX,
                members@ == found.members(r as int),
                region == found.region(r as int),
                labels == &found.cell_to_region,
                ends == |p: Point, d: Dir| side_ends(region).contains((p, d)),
                dirs@ == Dir::spec_all(),
                i < members@.len(),
                p == members@[i as int],
                garden.in_bounds(p),
                k <= 4,
                4 * members@.len() <= usize::MAX,
                forall|q: Point, d: Dir|
                    garden.in_bounds(q) ==> (edges@.contains(
                        #[trigger] garden.state_index(q, d) as usize,
                    ) <==> fence(region).contains((q, d))),
                sides == marks_upto(members@, ends, i as int, k as int),
            decreases 4 - k,
        {
            proof {
                lemma_marks(members@, ends, i as int, k as int);
            }
            let dir = dirs[k];
            let here = labels.state_offset(p, dir);
            assert(garden.state_index(p, dir) as usize == here);
            if index_set_contains(edges, here) {
                let next = next_along(p, dir);
                let goes_on = if labels.is_in_bounds(next) {
                    let there = labels.state_offset(next, dir);
                    assert(garden.state_index(next, dir) as usize == there);
                    index_set_contains(edges, there)
                } else {
                    proof {
                        if region.contains(next) {
                            let j = choose|j: int| 0 <= j < members@.len() && members@[j] == next;
                            assert(garden.in_bounds(found.members(r as int)[j]));
                        }
                    }
                    false
                };
                if !goes_on {
                    sides += 1;
                }
            }
            k += 1;
        }
        i += 1;
    }
    proof {
        lemma_marks(members@, ends, members@.len() as int, 0);
        assert(mark_set(members@, ends, members@.len() as int, 0) =~= side_ends(region)) by {
            assert forall|m: (Point, Dir)| side_ends(region).contains(m) implies mark_set(
                members@,
                ends,
                members@.len() as int,
                0,
            ).contains(m) by {
                let j = choose|j: int| 0 <= j < members@.len() && members@[j] == m.0;
                assert(members@[j] == m.0);
            }
        }
    }
    sides
}

/// Reads the map of a garden: one letter for each cell.
pub fn parse(input: &str) -> (parsed: Option<Grid<u8>>)
    ensures
        match parsed {
            Some(garden) => grid_of_text(input.spec_bytes(), garden@),
            None => forall|w: nat, h: nat| !is_text_grid(input.spec_bytes(), w, h),
        },
{
    parse_grid(input.as_bytes())
}

/// The price of fencing every region of an already divided garden: for each
/// region its area times its perimeter.
fn fence_cost(found: &Regions, Ghost(garden): Ghost<GridView<u8>>) -> (price: usize)
    requires
        garden.wf(),
        found.is_partition_of(garden),
        4 * garden.area() * garden.area() <= usize::MAX,
    ensures
        price == found.fence_price(found.count()),
{
    let ghost area = garden.area();
    let mut price: usize = 0;
    let mut r: usize = 0;
    proof {
        lemma_area_fits(area);
    }
    while r < found.regions.len()
        invariant
            garden.wf(),
            found.is_partition_of(garden),
            area == garden.area(),
            4 * area * area <= usize::MAX,
            4 * area <= usize::MAX,
            r <= found.count(),
            price == found.fence_price(r as int),
            price <= 4 * area * total_area(found.regions@, r as int),
        decreases found.count() - r,
    {
        let size = found.regions[r].1.len();
        let length = perimeter_of(found, r, Ghost(garden));
        proof {
            lemma_total_area_bound(found.regions@, found.count(), r as int);
            lemma_price_step(
                area as int,
                size as int,
                length as int,
                total_area(found.regions@, r as int) as int,
            );
        }
        price += size * length;
        r += 1;
    }
    price
}

/// The price of fencing every region of an already divided garden at the
/// bulk rate: for each region its area times its number of sides.
fn bulk_cost(found: &Regions, Ghost(garden): Ghost<GridView<u8>>) -> (price: usize)
    requires
        garden.wf(),
        found.is_partition_of(garden),
        4 * garden.area() * garden.area() <= usize::MAX,
    ensures
        price == found.bulk_price(found.count()),
{
    let ghost area = garden.area();
    let mut price: usize = 0;
    let mut r: usize = 0;
    proof {
        lemma_area_fits(area);
    }
    while r < found.regions.len()
        invariant
            garden.wf(),
            found.is_partition_of(garden),
            area == garden.area(),
            4 * area * area <= usize::MAX,
            4 * area <= usize::MAX,
            r <= found.count(),
            price == found.bulk_price(r as int),
            price <= 4 * area * total_area(found.regions@, r as int),
        decreases found.count() - r,
    {
        let size = found.regions[r].1.len();
        let edges = edges_of(found, r, Ghost(garden));
        let sides = sides_from(&edges, found, r, Ghost(garden));
        proof {
            lemma_total_area_bound(found.regions@, found.count(), r as int);
            lemma_price_step(
                area as int,
                size as int,
                sides as int,
                total_area(found.regions@, r as int) as int,
            );
        }
        price += size * sides;
        r += 1;
    }
    price
}

/// A garden whose squared area fits has an area that fits.
proof fn lemma_area_fits(area: nat)
    requires
        4 * area * area <= usize::MAX,
    ensures
        4 * area <= usize::MAX,
{
    assert(4 * area <= 4 * area * area || area == 0) by (nonlinear_arith);
}

/// One more region keeps the price below four times the area times the
/// area counted so far.
proof fn lemma_price_step(area: int, size: int, length: int, before: int)
    requires
        0 <= size,
        0 <= length <= 4 * size,
        0 <= before,
        before + size <= area,
    ensures
        size * length <= 4 * area * size,
        4 * area * before + 4 * area * size == 4 * area * (before + size),
        4 * area * (before + size) <= 4 * area * area,
{
    assert(size * length <= size * (4 * size)) by (nonlinear_arith)
        requires
            0 <= size,
            0 <= length <= 4 * size,
    ;
    assert(size * (4 * size) <= 4 * area * size) by (nonlinear_arith)
        requires
            0 <= size <= area,
    ;
    assert(4 * area * before + 4 * area * size == 4 * area * (before + size)) by (nonlinear_arith);
    assert(4 * area * (before + size) <= 4 * area * area) by (nonlinear_arith)
        requires
            0 <= before + size <= area,
    ;
}

/// The price of fencing the garden: for each region its area times its
/// perimeter.
pub fn q1(garden_map: &Grid<u8>) -> (price: usize)
    requires
        garden_map.wf(),
        4 * garden_map@.area() * garden_map@.area() <= usize::MAX,
    ensures
        exists|found: Regions|
            found.is_partition_of(garden_map@) && price == #[trigger] found.fence_price(
                found.count(),
            ),
{
    let found = find_regions(garden_map);
    fence_cost(&found, Ghost(garden_map@))
}

/// The price of fencing the garden at the bulk rate: for each region its
/// area times its number of sides.
pub fn q2(garden_map: &Grid<u8>) -> (price: usize)
    requires
        garden_map.wf(),
        4 * garden_map@.area() * garden_map@.area() <= usize::MAX,
    ensures
        exists|found: Regions|
            found.is_partition_of(garden_map@) && price == #[trigger] found.bulk_price(
                found.count(),
            ),
{
    let found = find_regions(garden_map);
    bulk_cost(&found, Ghost(garden_map@))
}

} // verus!
