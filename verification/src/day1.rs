//! Two lists of location numbers, compared side by side.
use crate::scan::{fields, lines, parse_u64, split_fields, split_lines, unsigned_of, views};
use std::collections::HashMap;
use vstd::prelude::*;
use vstd::string::StringSliceAdditionalSpecFns;

verus! {

/// A list of location numbers.
pub type List = Vec<u64>;

/// Whether the numbers stand in rising order.
pub open spec fn sorted(list: Seq<u64>) -> bool {
    forall|i: int, j: int| 0 <= i <= j < list.len() ==> list[i] <= list[j]
}

/// How far apart `a` and `b` are.
pub open spec fn distance(a: u64, b: u64) -> nat {
    if a >= b {
        (a - b) as nat
    } else {
        (b - a) as nat
    }
}

/// The sum of the distances of the first `n` pairs of the two lists.
pub open spec fn total_distance(l: Seq<u64>, r: Seq<u64>, n: int) -> nat
    decreases n,
{
    if n <= 0 {
        0
    } else {
        total_distance(l, r, n - 1) + distance(l[n - 1], r[n - 1])
    }
}

/// How many of the first `n` numbers of `list` are `key`.
pub open spec fn count_of(list: Seq<u64>, n: int, key: u64) -> nat
    decreases n,
{
    if n <= 0 {
        0
    } else {
        count_of(list, n - 1, key) + if list[n - 1] == key {
            1nat
        } else {
            0nat
        }
    }
}

/// The sum over the first `n` numbers of `l` of the number times how often
/// it stands in `r`.
pub open spec fn similarity(l: Seq<u64>, r: Seq<u64>, n: int) -> nat
    decreases n,
{
    if n <= 0 {
        0
    } else {
        similarity(l, r, n - 1) + (l[n - 1] * count_of(r, r.len() as int, l[n - 1])) as nat
    }
}

/// The shorter of two lengths.
pub open spec fn shorter(a: nat, b: nat) -> int {
    if a <= b {
        a as int
    } else {
        b as int
    }
}

/// `<[u64]>::sort_unstable`: puts the numbers in rising order and changes
/// nothing in which numbers the list holds.
#[verifier::external_body]
fn sort_list(list: &mut Vec<u64>)
    ensures
        sorted(final(list)@),
        final(list)@.to_multiset() == old(list)@.to_multiset(),
{
    list.sort_unstable()
}

/// How far the two numbers of a pair are apart.
pub fn abs_diff(pair: (&u64, &u64)) -> (d: u64)
    ensures
        d == distance(*pair.0, *pair.1),
{
    let (a, b) = pair;
    if *a >= *b {
        *a - *b
    } else {
        *b - *a
    }
}

/// Reads the number that `s` writes.
pub fn parse_num(s: &[u8]) -> (parsed: Option<u64>)
    ensures
        parsed == (match unsigned_of(s@) {
            Some(value) => if value <= u64::MAX {
                Some(value as u64)
            } else {
                None
            },
            None => None,
        }),
{
    parse_u64(s)
}

/// Whether the line `text` writes the pair `(a, b)`: two fields, each a
/// number.
pub open spec fn pair_of(text: Seq<u8>, a: u64, b: u64) -> bool {
    &&& fields(text).len() == 2
    &&& unsigned_of(fields(text)[0]) == Some(a as nat)
    &&& unsigned_of(fields(text)[1]) == Some(b as nat)
}

/// Whether the line `text` writes a pair of numbers that fit.
pub open spec fn is_pair(text: Seq<u8>) -> bool {
    exists|a: u64, b: u64| pair_of(text, a, b)
}

/// Reads the two lists, one pair from each line, and puts each list in
/// rising order. The result is `None` when a line holds no pair.
pub fn parse_lists(input: &str) -> (parsed: Option<(List, List)>)
    ensures
        match parsed {
            Some((l, r)) => {
                &&& sorted(l@)
                &&& sorted(r@)
                &&& exists|left: Seq<u64>, right: Seq<u64>|
                    #![trigger left.to_multiset(), right.to_multiset()]
                    {
                        &&& left.len() == lines(input.spec_bytes()).len()
                        &&& right.len() == left.len()
                        &&& forall|i: int|
                            0 <= i < left.len() ==> pair_of(
                                #[trigger] lines(input.spec_bytes())[i],
                                left[i],
                                right[i],
                            )
                        &&& l@.to_multiset() == left.to_multiset()
                        &&& r@.to_multiset() == right.to_multiset()
                    }
            },
            None => exists|i: int|
                0 <= i < lines(input.spec_bytes()).len() && !is_pair(
                    #[trigger] lines(input.spec_bytes())[i],
                ),
        },
{
    let ghost text = input.spec_bytes();
    let rows = split_lines(input.as_bytes());
    let mut l: List = Vec::new();
    let mut r: List = Vec::new();
    let mut i: usize = 0;
    while i < rows.len()
        invariant
            text == input.spec_bytes(),
            views(rows@) == lines(text),
            i <= rows@.len(),
            l@.len() == i,
            r@.len() == i,
            forall|j: int| 0 <= j < i ==> pair_of(#[trigger] lines(text)[j], l@[j], r@[j]),
        decreases rows@.len() - i,
    {
        proof {
            assert(views(rows@)[i as int] == rows@[i as int]@);
            assert(views(rows@).len() == rows@.len());
        }
        let words = split_fields(rows[i].as_slice());
        let ghost line = lines(text)[i as int];
        if words.len() != 2 {
            proof {
                assert(views(words@).len() == words@.len());
                assert(!is_pair(line));
            }
            return None;
        }
        proof {
            assert(views(words@)[0] == words@[0]@);
            assert(views(words@)[1] == words@[1]@);
            assert(views(words@).len() == words@.len());
        }
        let a = match parse_num(words[0].as_slice()) {
            Some(a) => a,
            None => {
                proof {
                    assert(!is_pair(line));
                }
                return None;
            },
        };
        let b = match parse_num(words[1].as_slice()) {
            Some(b) => b,
            None => {
                proof {
                    assert(!is_pair(line));
                }
                return None;
            },
        };
        l.push(a);
        r.push(b);
        i += 1;
    }
    let ghost left = l@;
    sort_list(&mut l);
    sort_list(&mut r);
    proof {
        assert(views(rows@).len() == rows@.len());
        assert(left.len() == lines(text).len());
    }
    Some((l, r))
}

/// The sum of the distances between the numbers that stand side by side.
pub fn part1(lists: &(List, List)) -> (total: u64)
    requires
        total_distance(lists.0@, lists.1@, shorter(lists.0@.len(), lists.1@.len())) <= u64::MAX,
    ensures
        total == total_distance(lists.0@, lists.1@, shorter(lists.0@.len(), lists.1@.len())),
{
    let l = &lists.0;
    let r = &lists.1;
    let n = if l.len() <= r.len() {
        l.len()
    } else {
        r.len()
    };
    let mut total: u64 = 0;
    let mut i: usize = 0;
    while i < n
        invariant
            n == shorter(l@.len(), r@.len()),
            i <= n,
            total == total_distance(l@, r@, i as int),
            total_distance(l@, r@, n as int) <= u64::MAX,
        decreases n - i,
    {
        proof {
            lemma_total_distance_monotonic(l@, r@, i as int + 1, n as int);
        }
        total += abs_diff((&l[i], &r[i]));
        i += 1;
    }
    total
}

/// The sum of more distances is no smaller.
pub proof fn lemma_total_distance_monotonic(l: Seq<u64>, r: Seq<u64>, a: int, b: int)
    requires
        a <= b,
    ensures
        total_distance(l, r, a) <= total_distance(l, r, b),
    decreases b - a,
{
    if a < b {
        lemma_total_distance_monotonic(l, r, a, b - 1);
    }
}

/// The similarity of more numbers is no smaller.
pub proof fn lemma_similarity_monotonic(l: Seq<u64>, r: Seq<u64>, a: int, b: int)
    requires
        a <= b,
    ensures
        similarity(l, r, a) <= similarity(l, r, b),
    decreases b - a,
{
    if a < b {
        lemma_similarity_monotonic(l, r, a, b - 1);
    }
}

/// A number stands in a list no more often than the list is long.
pub proof fn lemma_count_bound(list: Seq<u64>, n: int, key: u64)
    requires
        0 <= n,
    ensures
        count_of(list, n, key) <= n,
    decreases n,
{
    if n > 0 {
        lemma_count_bound(list, n - 1, key);
    }
}

/// How often each number stands in `list`.
pub fn frequencies(list: &List) -> (d: HashMap<u64, u64>)
    ensures
        forall|key: u64| #![trigger d@.contains_key(key)]
            (d@.contains_key(key) <==> count_of(list@, list@.len() as int, key) > 0) && (
            d@.contains_key(key) ==> d@[key] == count_of(list@, list@.len() as int, key)),
{
    broadcast use vstd::std_specs::hash::group_hash_axioms;

    let mut d: HashMap<u64, u64> = HashMap::with_capacity(list.len());
    let mut i: usize = 0;
    while i < list.len()
        invariant
            i <= list@.len(),
            forall|key: u64|
                d@.contains_key(key) <==> #[trigger] count_of(list@, i as int, key) > 0,
            forall|key: u64|
                d@.contains_key(key) ==> d@[key] == #[trigger] count_of(list@, i as int, key),
        decreases list@.len() - i,
    {
        let id = list[i];
        let ghost had = d@;
        let seen: u64 = match d.get(&id) {
            Some(count) => *count,
            None => 0,
        };
        proof {
            lemma_count_bound(list@, i as int, id);
            assert(seen == count_of(list@, i as int, id));
        }
        d.insert(id, seen + 1);
        proof {
            assert(d@ == had.insert(id, (seen + 1) as u64));
            assert forall|key: u64|
                (d@.contains_key(key) <==> #[trigger] count_of(list@, i as int + 1, key) > 0) && (
                d@.contains_key(key) ==> d@[key] == count_of(list@, i as int + 1, key)) by {
                assert(count_of(list@, i as int + 1, key) == count_of(list@, i as int, key) + (
                if list@[i as int] == key {
                    1nat
                } else {
                    0nat
                }));
            }
        }
        i += 1;
    }
    d
}

/// The sum over the left list of each number times how often it stands in
/// the right list.
pub fn part2(lists: &(List, List)) -> (total: u64)
    requires
        similarity(lists.0@, lists.1@, lists.0@.len() as int) <= u64::MAX,
    ensures
        total == similarity(lists.0@, lists.1@, lists.0@.len() as int),
{
    broadcast use vstd::std_specs::hash::group_hash_axioms;

    let l = &lists.0;
    let r = frequencies(&lists.1);
    let mut total: u64 = 0;
    let mut i: usize = 0;
    while i < l.len()
        invariant
            i <= l@.len(),
            total == similarity(l@, lists.1@, i as int),
            similarity(l@, lists.1@, l@.len() as int) <= u64::MAX,
            forall|key: u64| #![trigger r@.contains_key(key)]
                (r@.contains_key(key) <==> count_of(lists.1@, lists.1@.len() as int, key) > 0) && (
                r@.contains_key(key) ==> r@[key] == count_of(
                    lists.1@,
                    lists.1@.len() as int,
                    key,
                )),
        decreases l@.len() - i,
    {
        let item = l[i];
        let times: u64 = match r.get(&item) {
            Some(count) => *count,
            None => 0,
        };
        proof {
            assert(r@.contains_key(item) || !r@.contains_key(item));
            lemma_similarity_monotonic(l@, lists.1@, i as int + 1, l@.len() as int);
            assert(item * times == l@[i as int] * count_of(
                lists.1@,
                lists.1@.len() as int,
                l@[i as int],
            ));
        }
        total += item * times;
        i += 1;
    }
    total
}

} // verus!
