//! Pages to print: rules say which page must come before which, and each
//! update lists pages in an order that keeps the rules or does not.
use crate::scan::{
    first_blank, lemma_first_blank, lines, numbers_fit, numbers_in, scan_numbers, split_lines,
    views,
};
use vstd::prelude::*;
use vstd::string::StringSliceAdditionalSpecFns;

verus! {

/// An update: its pages in the order in which they are printed.
pub type Update = Vec<u32>;

/// The ordering rules and the updates.
#[derive(Debug)]
pub struct Input {
    pub constraints: Vec<(u32, u32)>,
    pub updates: Vec<Update>,
}

/// Where `page` stands last in `update`, if it stands there at all.
pub open spec fn last_place(update: Seq<u32>, page: u32) -> Option<int>
    decreases update.len(),
{
    if update.len() == 0 {
        None
    } else if update.last() == page {
        Some(update.len() - 1)
    } else {
        last_place(update.drop_last(), page)
    }
}

/// Whether `update` keeps the rule that `rule.0` comes before `rule.1`: it
/// does if one of the two pages is missing.
pub open spec fn keeps(update: Seq<u32>, rule: (u32, u32)) -> bool {
    match (last_place(update, rule.0), last_place(update, rule.1)) {
        (Some(l), Some(r)) => l < r,
        _ => true,
    }
}

/// Whether `update` keeps all rules.
pub open spec fn is_correct(update: Seq<u32>, constraints: Seq<(u32, u32)>) -> bool {
    forall|i: int| 0 <= i < constraints.len() ==> keeps(update, #[trigger] constraints[i])
}

/// Where `page` stands last in `update`.
pub fn find_last(update: &[u32], page: u32) -> (place: Option<usize>)
    ensures
        match place {
            Some(i) => last_place(update@, page) == Some(i as int),
            None => last_place(update@, page).is_none(),
        },
{
    let mut place: Option<usize> = None;
    let mut i: usize = 0;
    while i < update.len()
        invariant
            i <= update@.len(),
            match place {
                Some(p) => last_place(update@.take(i as int), page) == Some(p as int),
                None => last_place(update@.take(i as int), page).is_none(),
            },
        decreases update@.len() - i,
    {
        proof {
            let next = update@.take(i + 1);
            assert(next.drop_last() == update@.take(i as int));
            assert(next.last() == update@[i as int]);
        }
        if update[i] == page {
            place = Some(i);
        }
        i += 1;
    }
    proof {
        assert(update@.take(update@.len() as int) == update@);
    }
    place
}

/// Whether `page` is one of the pages.
pub open spec fn among(pages: Seq<u32>, page: u32) -> bool {
    pages.contains(page)
}

/// Whether `page` can come next: it is one of the pages, has not been
/// placed, and every page that must come before it has been placed.
pub open spec fn is_free(
    pages: Seq<u32>,
    pairs: Seq<(u32, u32)>,
    placed: Seq<u32>,
    page: u32,
) -> bool {
    &&& !placed.contains(page)
    &&& forall|k: int|
        0 <= k < pairs.len() && (#[trigger] pairs[k]).1 == page && pages.contains(pairs[k].0)
            ==> placed.contains(pairs[k].0)
}

/// The first place in `pages`, from place `from` on, whose page can come
/// next.
pub open spec fn first_free(
    pages: Seq<u32>,
    pairs: Seq<(u32, u32)>,
    placed: Seq<u32>,
    from: int,
) -> Option<int>
    decreases pages.len() - from,
{
    if from < 0 || from >= pages.len() {
        None
    } else if is_free(pages, pairs, placed, pages[from]) {
        Some(from)
    } else {
        first_free(pages, pairs, placed, from + 1)
    }
}

/// The pages in the order in which they come when, `steps` times, the first
/// page of `pages` that can come next is placed behind `placed`.
pub open spec fn ordered(
    pages: Seq<u32>,
    pairs: Seq<(u32, u32)>,
    placed: Seq<u32>,
    steps: nat,
) -> Seq<u32>
    decreases steps,
{
    if steps == 0 {
        placed
    } else {
        match first_free(pages, pairs, placed, 0) {
            Some(i) => ordered(pages, pairs, placed.push(pages[i]), (steps - 1) as nat),
            None => placed,
        }
    }
}

/// The order of the pages that the rules ask for, going by the rule "the
/// first page that can come next comes next". It has fewer pages than `pages`
/// when the rules cannot all be kept, or a page stands twice.
pub open spec fn ordering(pages: Seq<u32>, pairs: Seq<(u32, u32)>) -> Seq<u32> {
    ordered(pages, pairs, Seq::empty(), pages.len())
}

/// Whether `order` keeps every rule between two of the pages: of two pages
/// of a rule, the one that must come first has been placed before the other,
/// or the other has not been placed.
pub open spec fn respects(pages: Seq<u32>, pairs: Seq<(u32, u32)>, order: Seq<u32>) -> bool {
    forall|k: int, j: int|
        0 <= k < pairs.len() && 0 <= j < order.len() && (#[trigger] pairs[k]).1 == #[trigger] order[j]
            && pages.contains(pairs[k].0) ==> order.subrange(0, j).contains(pairs[k].0)
}

/// Whether `page` can come next.
fn can_come_next(pages: &[u32], pairs: &[(u32, u32)], placed: &Vec<u32>, page: u32) -> (free: bool)
    ensures
        free == is_free(pages@, pairs@, placed@, page),
{
    if contains(placed.as_slice(), page) {
        return false;
    }
    let mut k: usize = 0;
    while k < pairs.len()
        invariant
            k <= pairs@.len(),
            !placed@.contains(page),
            forall|j: int|
                0 <= j < k && (#[trigger] pairs@[j]).1 == page && pages@.contains(pairs@[j].0)
                    ==> placed@.contains(pairs@[j].0),
        decreases pairs@.len() - k,
    {
        let (l, r) = pairs[k];
        if r == page && contains(pages, l) && !contains(placed.as_slice(), l) {
            return false;
        }
        k += 1;
    }
    true
}

/// Whether `page` stands in `list`.
pub fn contains(list: &[u32], page: u32) -> (found: bool)
    ensures
        found == list@.contains(page),
{
    let mut i: usize = 0;
    while i < list.len()
        invariant
            i <= list@.len(),
            forall|j: int| 0 <= j < i ==> list@[j] != page,
        decreases list@.len() - i,
    {
        if list[i] == page {
            return true;
        }
        i += 1;
    }
    false
}

/// Puts the pages in the order that the rules ask for. The result is `None`
/// when the rules cannot all be kept, or a page stands twice.
pub fn topological_ordering(all_numbers: &[u32], pairs: &[(u32, u32)]) -> (order: Option<Vec<u32>>)
    ensures
        match order {
            Some(list) => list@ == ordering(all_numbers@, pairs@) && list@.len()
                == all_numbers@.len() && respects(all_numbers@, pairs@, list@),
            None => ordering(all_numbers@, pairs@).len() < all_numbers@.len(),
        },
{
    let ghost pages = all_numbers@;
    let ghost rules = pairs@;
    let n = all_numbers.len();
    let mut order: Vec<u32> = Vec::with_capacity(n);
    let mut step: usize = 0;
    while step < n
        invariant
            pages == all_numbers@,
            rules == pairs@,
            n == pages.len(),
            step <= n,
            order@.len() == step,
            ordered(pages, rules, order@, (n - step) as nat) == ordering(pages, rules),
            respects(pages, rules, order@),
        decreases n - step,
    {
        let mut i: usize = 0;
        let mut found: Option<usize> = None;
        while i < n && found.is_none()
            invariant
                pages == all_numbers@,
                rules == pairs@,
                n == pages.len(),
                i <= n,
                match found {
                    Some(at) => at < n && first_free(pages, rules, order@, 0) == Some(at as int)
                        && is_free(pages, rules, order@, pages[at as int]),
                    None => first_free(pages, rules, order@, 0) == first_free(
                        pages,
                        rules,
                        order@,
                        i as int,
                    ),
                },
            decreases n - i + (if found.is_none() {
                1int
            } else {
                0int
            }),
        {
            if can_come_next(all_numbers, pairs, &order, all_numbers[i]) {
                found = Some(i);
            } else {
                i += 1;
            }
        }
        let i = match found {
            Some(i) => i,
            None => {
                proof {
                    lemma_ordered_len(pages, rules, order@, (n - step) as nat);
                }
                return None;
            },
        };
        let ghost had = order@;
        order.push(all_numbers[i]);
        proof {
            assert forall|k: int, j: int|
                0 <= k < rules.len() && 0 <= j < order@.len() && (#[trigger] rules[k]).1
                    == #[trigger] order@[j] && pages.contains(rules[k].0) implies order@.subrange(
                0,
                j,
            ).contains(rules[k].0) by {
                if j < had.len() {
                    assert(order@[j] == had[j]);
                    assert(had.subrange(0, j) =~= order@.subrange(0, j));
                } else {
                    assert(order@.subrange(0, j) =~= had);
                    assert(is_free(pages, rules, had, pages[i as int]));
                    assert(had.contains(rules[k].0));
                }
            }
        }
        step += 1;
    }
    Some(order)
}

/// Placing goes on for no more steps than it is given.
proof fn lemma_ordered_len(pages: Seq<u32>, pairs: Seq<(u32, u32)>, placed: Seq<u32>, steps: nat)
    ensures
        ordered(pages, pairs, placed, steps).len() <= placed.len() + steps,
        first_free(pages, pairs, placed, 0).is_none() ==> ordered(pages, pairs, placed, steps)
            == placed,
    decreases steps,
{
    if steps > 0 {
        match first_free(pages, pairs, placed, 0) {
            Some(i) => {
                lemma_ordered_len(pages, pairs, placed.push(pages[i]), (steps - 1) as nat);
            },
            None => {},
        }
    }
}

/// Whether `order` lists the pages of `pages` and no others.
pub open spec fn arranges(pages: Seq<u32>, order: Seq<u32>) -> bool {
    forall|page: u32| order.contains(page) <==> pages.contains(page)
}

/// The first page that can come next can come next, and where there is
/// none, no page can.
proof fn lemma_first_free(pages: Seq<u32>, pairs: Seq<(u32, u32)>, placed: Seq<u32>, from: int)
    requires
        0 <= from,
    ensures
        match first_free(pages, pairs, placed, from) {
            Some(i) => from <= i < pages.len() && is_free(pages, pairs, placed, pages[i]),
            None => forall|i: int|
                from <= i < pages.len() ==> !is_free(pages, pairs, placed, #[trigger] pages[i]),
        },
    decreases pages.len() - from,
{
    if from < pages.len() && !is_free(pages, pairs, placed, pages[from]) {
        lemma_first_free(pages, pairs, placed, from + 1);
    }
}

/// Placing puts down pages of `pages`, each once, and stops early only
/// when no page can come next.
proof fn lemma_ordered(pages: Seq<u32>, pairs: Seq<(u32, u32)>, placed: Seq<u32>, steps: nat)
    requires
        placed.no_duplicates(),
        forall|i: int| 0 <= i < placed.len() ==> pages.contains(#[trigger] placed[i]),
    ensures
        ({
            let all = ordered(pages, pairs, placed, steps);
            &&& all.no_duplicates()
            &&& forall|i: int| 0 <= i < all.len() ==> pages.contains(#[trigger] all[i])
            &&& all.len() == placed.len() + steps || first_free(pages, pairs, all, 0).is_none()
        }),
    decreases steps,
{
    if steps > 0 {
        lemma_first_free(pages, pairs, placed, 0);
        match first_free(pages, pairs, placed, 0) {
            Some(i) => {
                let next = placed.push(pages[i]);
                assert forall|a: int, b: int|
                    0 <= a < next.len() && 0 <= b < next.len() && a != b implies next[a]
                    != next[b] by {
                    if a == placed.len() {
                        assert(placed[b] == next[b]);
                    } else if b == placed.len() {
                        assert(placed[a] == next[a]);
                    }
                }
                assert forall|j: int| 0 <= j < next.len() implies pages.contains(
                    #[trigger] next[j],
                ) by {
                    if j < placed.len() {
                        assert(next[j] == placed[j]);
                    }
                }
                lemma_ordered(pages, pairs, next, (steps - 1) as nat);
            },
            None => {},
        }
    }
}

/// Among pages that all stand once, fewer placed pages leave one out.
proof fn lemma_left_out(pages: Seq<u32>, placed: Seq<u32>) -> (page: u32)
    requires
        pages.no_duplicates(),
        placed.len() < pages.len(),
    ensures
        pages.contains(page),
        !placed.contains(page),
{
    if forall|i: int| 0 <= i < pages.len() ==> placed.contains(#[trigger] pages[i]) {
        assert(pages.to_set().subset_of(placed.to_set())) by {
            assert forall|page: u32| pages.to_set().contains(page) implies placed.to_set().contains(
                page,
            ) by {
                let i = choose|i: int| 0 <= i < pages.len() && pages[i] == page;
                assert(placed.contains(pages[i]));
            }
        }
        vstd::seq_lib::seq_to_set_is_finite(placed);
        vstd::set_lib::lemma_len_subset(pages.to_set(), placed.to_set());
        pages.unique_seq_to_set();
        placed.lemma_cardinality_of_set();
    }
    let i = choose|i: int| 0 <= i < pages.len() && !placed.contains(#[trigger] pages[i]);
    pages[i]
}

/// The first place in `order`, up to place `k`, whose page is not placed.
proof fn lemma_first_unplaced(order: Seq<u32>, placed: Seq<u32>, k: int) -> (j: int)
    requires
        0 <= k < order.len(),
        !placed.contains(order[k]),
    ensures
        0 <= j <= k,
        !placed.contains(order[j]),
        forall|i: int| 0 <= i < j ==> placed.contains(#[trigger] order[i]),
    decreases k,
{
    if forall|i: int| 0 <= i < k ==> placed.contains(#[trigger] order[i]) {
        k
    } else {
        let i = choose|i: int| 0 <= i < k && !placed.contains(#[trigger] order[i]);
        lemma_first_unplaced(order, placed, i)
    }
}

/// Where pages that all stand once cannot all be placed, no arrangement of
/// them keeps every rule: the rules ask for a page to come before itself.
pub proof fn lemma_no_order(pages: Seq<u32>, pairs: Seq<(u32, u32)>, order: Seq<u32>)
    requires
        pages.no_duplicates(),
        ordering(pages, pairs).len() < pages.len(),
        arranges(pages, order),
    ensures
        !respects(pages, pairs, order),
{
    let placed = ordering(pages, pairs);
    lemma_ordered(pages, pairs, Seq::empty(), pages.len());
    lemma_first_free(pages, pairs, placed, 0);
    let page = lemma_left_out(pages, placed);
    let k = choose|k: int| 0 <= k < order.len() && order[k] == page;
    let j = lemma_first_unplaced(order, placed, k);
    let stuck = order[j];
    assert(order.contains(stuck));
    let at = choose|i: int| 0 <= i < pages.len() && pages[i] == stuck;
    assert(!is_free(pages, pairs, placed, pages[at]));
    let r = choose|r: int|
        0 <= r < pairs.len() && (#[trigger] pairs[r]).1 == stuck && pages.contains(pairs[r].0)
            && !placed.contains(pairs[r].0);
    if respects(pages, pairs, order) {
        let before = order.subrange(0, j);
        assert(before.contains(pairs[r].0));
        let i = choose|i: int| 0 <= i < before.len() && before[i] == pairs[r].0;
        assert(order[i] == pairs[r].0);
        assert(placed.contains(order[i]));
    }
}

/// Where pages that all stand once can all be placed, the order in which
/// they are placed lists each of them once.
pub proof fn lemma_ordering_arranges(pages: Seq<u32>, pairs: Seq<(u32, u32)>)
    requires
        pages.no_duplicates(),
        ordering(pages, pairs).len() == pages.len(),
    ensures
        ordering(pages, pairs).no_duplicates(),
        arranges(pages, ordering(pages, pairs)),
{
    let placed = ordering(pages, pairs);
    lemma_ordered(pages, pairs, Seq::empty(), pages.len());
    assert forall|page: u32| pages.contains(page) implies placed.contains(page) by {
        if !placed.contains(page) {
            // The placed pages are pages other than `page`, which are fewer.
            let at = choose|i: int| 0 <= i < pages.len() && pages[i] == page;
            let others = pages.remove(at);
            assert(others.no_duplicates()) by {
                assert forall|a: int, b: int|
                    0 <= a < others.len() && 0 <= b < others.len() && a != b implies others[a]
                    != others[b] by {
                    let a0 = if a < at { a } else { a + 1 };
                    let b0 = if b < at { b } else { b + 1 };
                    assert(others[a] == pages[a0] && others[b] == pages[b0]);
                }
            }
            assert(placed.to_set().subset_of(others.to_set())) by {
                assert forall|x: u32| placed.to_set().contains(x) implies others.to_set().contains(
                    x,
                ) by {
                    let i = choose|i: int| 0 <= i < placed.len() && placed[i] == x;
                    assert(pages.contains(placed[i]));
                    let w = choose|w: int| 0 <= w < pages.len() && pages[w] == x;
                    assert(w != at);
                    let v = if w < at { w } else { w - 1 };
                    assert(others[v] == x);
                }
            }
            vstd::seq_lib::seq_to_set_is_finite(others);
            vstd::set_lib::lemma_len_subset(placed.to_set(), others.to_set());
            placed.unique_seq_to_set();
            others.lemma_cardinality_of_set();
        }
    }
    assert forall|page: u32| placed.contains(page) implies pages.contains(page) by {
        let i = choose|i: int| 0 <= i < placed.len() && placed[i] == page;
        assert(pages.contains(placed[i]));
    }
}

/// Find the middle page from the list of all pages, after they've been
/// ordered according to the given constraints.
pub fn find_middle_page(all_pages: &[u32], constraints: &[(u32, u32)]) -> (middle: Option<u32>)
    ensures
        match middle {
            Some(page) => ordering(all_pages@, constraints@).len() == all_pages@.len()
                && all_pages@.len() > 0 && page == ordering(all_pages@, constraints@)[all_pages@.len() as int
                / 2],
            None => ordering(all_pages@, constraints@).len() < all_pages@.len() || all_pages@.len()
                == 0,
        },
{
    match topological_ordering(all_pages, constraints) {
        Some(order) => {
            if order.len() == 0 {
                None
            } else {
                Some(order[order.len() / 2])
            }
        },
        None => None,
    }
}

impl Input {
    /// Whether the update keeps every rule.
    pub fn update_is_correct(&self, update: &[u32]) -> (correct: bool)
        ensures
            correct == is_correct(update@, self.constraints@),
    {
        let mut i: usize = 0;
        while i < self.constraints.len()
            invariant
                i <= self.constraints@.len(),
                forall|j: int| 0 <= j < i ==> keeps(update@, #[trigger] self.constraints@[j]),
            decreases self.constraints@.len() - i,
        {
            let (page_left, page_right) = self.constraints[i];
            let pos_left_page = find_last(update, page_left);
            let pos_right_page = find_last(update, page_right);
            match (pos_left_page, pos_right_page) {
                (Some(l), Some(r)) => {
                    if r <= l {
                        return false;
                    }
                },
                _ => {},
            }
            i += 1;
        }
        true
    }

    /// Returns indices of updates which are in correct order.
    pub fn updates_in_correct_order(&self) -> (found: Vec<usize>)
        ensures
            forall|i: int|
                0 <= i < self.updates@.len() ==> (found@.contains(i as usize) <==> is_correct(
                    (#[trigger] self.updates@[i])@,
                    self.constraints@,
                )),
            forall|k: int| 0 <= k < found@.len() ==> (#[trigger] found@[k]) < self.updates@.len(),
            forall|j: int, k: int| 0 <= j < k < found@.len() ==> found@[j] < found@[k],
    {
        let mut found: Vec<usize> = Vec::new();
        let mut i: usize = 0;
        while i < self.updates.len()
            invariant
                i <= self.updates@.len(),
                forall|j: int|
                    0 <= j < i ==> (found@.contains(j as usize) <==> is_correct(
                        (#[trigger] self.updates@[j])@,
                        self.constraints@,
                    )),
                forall|k: int| 0 <= k < found@.len() ==> (#[trigger] found@[k]) < i,
                forall|j: int, k: int| 0 <= j < k < found@.len() ==> found@[j] < found@[k],
            decreases self.updates@.len() - i,
        {
            let ghost had = found@;
            if self.update_is_correct(self.updates[i].as_slice()) {
                found.push(i);
            }
            proof {
                assert forall|j: int| 0 <= j < i + 1 implies (found@.contains(j as usize)
                    <==> is_correct((#[trigger] self.updates@[j])@, self.constraints@)) by {
                    if had.contains(j as usize) {
                        let k = choose|k: int| 0 <= k < had.len() && had[k] == j as usize;
                        assert(found@[k] == j as usize);
                    }
                    if found@.contains(j as usize) {
                        let k = choose|k: int| 0 <= k < found@.len() && found@[k] == j as usize;
                        if k < had.len() {
                            assert(had[k] == j as usize);
                        }
                    }
                    if j == i && found@.len() > had.len() {
                        assert(found@[had.len() as int] == i);
                    }
                }
            }
            i += 1;
        }
        found
    }

    /// The sum of the middle pages of the first `n` updates that keep the
    /// rules.
    pub open spec fn correct_sum(&self, n: int) -> nat
        decreases n,
    {
        if n <= 0 {
            0
        } else {
            let update = self.updates@[n - 1]@;
            self.correct_sum(n - 1) + if is_correct(update, self.constraints@) && update.len() > 0 {
                update[update.len() as int / 2] as nat
            } else {
                0
            }
        }
    }

    /// The sum of the middle pages of the first `n` updates that break the
    /// rules, after their pages have been put in the order that the rules ask
    /// for.
    pub open spec fn mended_sum(&self, n: int) -> nat
        decreases n,
    {
        if n <= 0 {
            0
        } else {
            let update = self.updates@[n - 1]@;
            self.mended_sum(n - 1) + if !is_correct(update, self.constraints@) {
                ordering(update, self.constraints@)[update.len() as int / 2] as nat
            } else {
                0
            }
        }
    }

    /// Whether every update that breaks the rules can be put in order.
    pub open spec fn can_mend(&self, n: int) -> bool {
        forall|i: int|
            0 <= i < n && !is_correct((#[trigger] self.updates@[i])@, self.constraints@)
                ==> ordering(self.updates@[i]@, self.constraints@).len() == self.updates@[i]@.len()
    }

    /// The sum of the middle pages of the updates that keep the rules, or
    /// `None` when the sum does not fit.
    pub fn solve_q1(&self) -> (total: Option<u32>)
        ensures
            match total {
                Some(sum) => sum == self.correct_sum(self.updates@.len() as int),
                None => self.correct_sum(self.updates@.len() as int) > u32::MAX,
            },
    {
        let mut total: u32 = 0;
        let mut i: usize = 0;
        while i < self.updates.len()
            invariant
                i <= self.updates@.len(),
                total == self.correct_sum(i as int),
            decreases self.updates@.len() - i,
        {
            let update = &self.updates[i];
            if update.len() > 0 && self.update_is_correct(update.as_slice()) {
                total = match total.checked_add(update[update.len() / 2]) {
                    Some(sum) => sum,
                    None => {
                        proof {
                            self.lemma_correct_sum_monotonic(
                                i as int + 1,
                                self.updates@.len() as int,
                            );
                        }
                        return None;
                    },
                };
            }
            i += 1;
        }
        Some(total)
    }

    /// The sum of the middle pages of the updates that break the rules, after
    /// their pages have been put in order. The result is `None` when an update
    /// cannot be put in order, or the sum does not fit.
    pub fn solve_q2(&self) -> (total: Option<u32>)
        ensures
            match total {
                Some(sum) => self.can_mend(self.updates@.len() as int) && sum == self.mended_sum(
                    self.updates@.len() as int,
                ),
                None => !self.can_mend(self.updates@.len() as int) || self.mended_sum(
                    self.updates@.len() as int,
                ) > u32::MAX,
            },
    {
        let mut total: u32 = 0;
        let mut i: usize = 0;
        while i < self.updates.len()
            invariant
                i <= self.updates@.len(),
                self.can_mend(i as int),
                total == self.mended_sum(i as int),
            decreases self.updates@.len() - i,
        {
            let update = &self.updates[i];
            if !self.update_is_correct(update.as_slice()) {
                let middle = match find_middle_page(
                    update.as_slice(),
                    self.constraints.as_slice(),
                ) {
                    Some(middle) => middle,
                    None => {
                        proof {
                            // An update that breaks a rule holds a page.
                            if update@.len() == 0 {
                                assert forall|k: int|
                                    0 <= k < self.constraints@.len() implies keeps(
                                    update@,
                                    #[trigger] self.constraints@[k],
                                ) by {}
                            }
                        }
                        return None;
                    },
                };
                total = match total.checked_add(middle) {
                    Some(sum) => sum,
                    None => {
                        proof {
                            self.lemma_mended_sum_monotonic(
                                i as int + 1,
                                self.updates@.len() as int,
                            );
                        }
                        return None;
                    },
                };
            }
            i += 1;
        }
        Some(total)
    }

    /// The sum over the correct updates grows with the number of updates.
    pub proof fn lemma_correct_sum_monotonic(&self, a: int, b: int)
        requires
            a <= b,
        ensures
            self.correct_sum(a) <= self.correct_sum(b),
        decreases b - a,
    {
        if a < b {
            self.lemma_correct_sum_monotonic(a, b - 1);
        }
    }

    /// The sum over the mended updates grows with the number of updates.
    pub proof fn lemma_mended_sum_monotonic(&self, a: int, b: int)
        requires
            a <= b,
        ensures
            self.mended_sum(a) <= self.mended_sum(b),
        decreases b - a,
    {
        if a < b {
            self.lemma_mended_sum_monotonic(a, b - 1);
        }
    }
}

/// Whether `text` writes page numbers: numbers that fit.
pub open spec fn is_page_list(text: Seq<u8>) -> bool {
    &&& numbers_fit(text)
    &&& forall|i: int|
        0 <= i < numbers_in(text).len() ==> 0 <= #[trigger] numbers_in(text)[i] <= u32::MAX
}

/// Whether `pages` are the page numbers that `text` writes.
pub open spec fn pages_of(text: Seq<u8>, pages: Seq<u32>) -> bool {
    &&& is_page_list(text)
    &&& pages.len() == numbers_in(text).len()
    &&& forall|i: int| 0 <= i < pages.len() ==> #[trigger] pages[i] == numbers_in(text)[i]
}

/// Whether `text` writes a rule: two page numbers.
pub open spec fn is_rule(text: Seq<u8>) -> bool {
    is_page_list(text) && numbers_in(text).len() == 2
}

/// Whether the lines `rows` list rules, then an empty line, then updates.
pub open spec fn is_listing(rows: Seq<Seq<u8>>) -> bool {
    match first_blank(rows, 0) {
        Some(e) => (forall|i: int| 0 <= i < e ==> is_rule(#[trigger] rows[i])) && (forall|i: int|
            e < i < rows.len() ==> is_page_list(#[trigger] rows[i])),
        None => false,
    }
}

impl Input {
    /// Whether `self` holds what the lines `rows` list: the rules before the
    /// first empty line, the updates behind it.
    pub open spec fn shows(&self, rows: Seq<Seq<u8>>) -> bool {
        &&& is_listing(rows)
        &&& self.constraints@.len() == first_blank(rows, 0).unwrap()
        &&& forall|i: int|
            0 <= i < self.constraints@.len() ==> pages_of(
                #[trigger] rows[i],
                seq![self.constraints@[i].0, self.constraints@[i].1],
            )
        &&& self.updates@.len() == rows.len() - first_blank(rows, 0).unwrap() - 1
        &&& forall|i: int|
            0 <= i < self.updates@.len() ==> pages_of(
                rows[first_blank(rows, 0).unwrap() + 1 + i],
                (#[trigger] self.updates@[i])@,
            )
    }

    /// Reads the rules and the updates. The result is `None` when the text
    /// does not list rules, an empty line and updates.
    pub fn parse(input: &str) -> (parsed: Option<Input>)
        ensures
            match parsed {
                Some(list) => list.shows(lines(input.spec_bytes())),
                None => !is_listing(lines(input.spec_bytes())),
            },
    {
        let ghost all = lines(input.spec_bytes());
        let rows = split_lines(input.as_bytes());
        proof {
            assert(views(rows@).len() == rows@.len());
        }
        let mut constraints: Vec<(u32, u32)> = Vec::new();
        let mut e: usize = 0;
        while e < rows.len() && rows[e].len() != 0
            invariant
                all == views(rows@),
                all == lines(input.spec_bytes()),
                e <= rows@.len(),
                first_blank(all, 0) == first_blank(all, e as int),
                constraints@.len() == e,
                forall|i: int| 0 <= i < e ==> is_rule(#[trigger] all[i]),
                forall|i: int|
                    0 <= i < e ==> pages_of(
                        #[trigger] all[i],
                        seq![constraints@[i].0, constraints@[i].1],
                    ),
            decreases rows@.len() - e,
        {
            proof {
                assert(all[e as int] == rows@[e as int]@);
            }
            let ghost had = constraints@;
            let pages = match read_pages(rows[e].as_slice()) {
                Some(pages) => pages,
                None => {
                    proof {
                        lemma_first_blank(all, e as int);
                    }
                    return None;
                },
            };
            if pages.len() != 2 {
                proof {
                    lemma_first_blank(all, e as int);
                }
                return None;
            }
            constraints.push((pages[0], pages[1]));
            proof {
                assert(pages@ =~= seq![pages@[0], pages@[1]]);
                assert forall|i: int| 0 <= i < e + 1 implies pages_of(
                    #[trigger] all[i],
                    seq![constraints@[i].0, constraints@[i].1],
                ) by {
                    if i < e {
                        assert(constraints@[i] == had[i]);
                    }
                }
            }
            e += 1;
        }
        if e >= rows.len() {
            return None;
        }
        proof {
            assert(all[e as int] == rows@[e as int]@);
            assert(first_blank(all, 0) == Some(e as int));
        }
        let mut updates: Vec<Update> = Vec::new();
        let mut i: usize = e + 1;
        while i < rows.len()
            invariant
                all == views(rows@),
                all == lines(input.spec_bytes()),
                e < rows@.len(),
                e + 1 <= i <= rows@.len(),
                first_blank(all, 0) == Some(e as int),
                updates@.len() == i - e - 1,
                forall|j: int| e < j < i ==> is_page_list(#[trigger] all[j]),
                forall|j: int|
                    0 <= j < updates@.len() ==> pages_of(all[e + 1 + j], (#[trigger] updates@[j])@),
            decreases rows@.len() - i,
        {
            proof {
                assert(all[i as int] == rows@[i as int]@);
            }
            let ghost had = updates@;
            let pages = match read_pages(rows[i].as_slice()) {
                Some(pages) => pages,
                None => {
                    return None;
                },
            };
            updates.push(pages);
            proof {
                assert forall|j: int| 0 <= j < updates@.len() implies pages_of(
                    all[e + 1 + j],
                    (#[trigger] updates@[j])@,
                ) by {
                    if j < had.len() {
                        assert(updates@[j] == had[j]);
                    }
                }
            }
            i += 1;
        }
        Some(Input { constraints, updates })
    }
}


/// Reads the page numbers that `text` writes.
pub fn read_pages(text: &[u8]) -> (parsed: Option<Vec<u32>>)
    ensures
        match parsed {
            Some(pages) => pages_of(text@, pages@),
            None => !is_page_list(text@),
        },
{
    let numbers = match scan_numbers(text) {
        Some(numbers) => numbers,
        None => {
            return None;
        },
    };
    let mut pages: Vec<u32> = Vec::with_capacity(numbers.len());
    let mut i: usize = 0;
    while i < numbers.len()
        invariant
            numbers_fit(text@),
            numbers@.len() == numbers_in(text@).len(),
            forall|j: int| 0 <= j < numbers@.len() ==> #[trigger] numbers@[j] == numbers_in(text@)[j],
            i <= numbers@.len(),
            pages@.len() == i,
            forall|j: int| 0 <= j < i ==> #[trigger] pages@[j] == numbers_in(text@)[j],
        decreases numbers@.len() - i,
    {
        let number = numbers[i];
        if number < 0 || number > u32::MAX as i64 {
            proof {
                assert(numbers@[i as int] == numbers_in(text@)[i as int]);
            }
            return None;
        }
        pages.push(number as u32);
        i += 1;
    }
    proof {
        assert forall|j: int| 0 <= j < numbers_in(text@).len() implies 0 <= #[trigger] numbers_in(
            text@,
        )[j] <= u32::MAX by {
            assert(pages@[j] == numbers_in(text@)[j]);
        }
    }
    Some(pages)
}

} // verus!
