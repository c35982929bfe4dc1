//! Towels with stripes: in how many ways can a design be laid out with the
//! towels at hand, one behind the other?
use crate::scan::{fields, lines, split_fields, split_lines, views};
use vstd::prelude::*;
use vstd::string::StringSliceAdditionalSpecFns;

verus! {

/// The towels at hand and the designs to lay out, each a row of stripes.
pub struct Input {
    pub available: Vec<Vec<u8>>,
    pub targets: Vec<Vec<u8>>,
}

/// Whether `towel` is one of the towels at hand.
pub open spec fn at_hand(available: Seq<Seq<u8>>, towel: Seq<u8>) -> bool {
    available.contains(towel)
}

/// The number of ways to lay out the first `n` stripes of `target`.
pub open spec fn ways(target: Seq<u8>, available: Seq<Seq<u8>>, n: int) -> nat
    decreases n, n + 1,
{
    if n <= 0 {
        1
    } else {
        ways_ending(target, available, n, n)
    }
}

/// The number of ways to lay out the first `n` stripes of `target` in which
/// the last towel starts at one of the first `k` stripes.
pub open spec fn ways_ending(target: Seq<u8>, available: Seq<Seq<u8>>, n: int, k: int) -> nat
    decreases n, k,
{
    if k <= 0 || k > n {
        0
    } else {
        ways_ending(target, available, n, k - 1) + if at_hand(
            available,
            target.subrange(k - 1, n),
        ) {
            ways(target, available, k - 1)
        } else {
            0
        }
    }
}

/// Ways that end with an earlier start of the last towel are fewer.
proof fn lemma_ways_ending_monotonic(
    target: Seq<u8>,
    available: Seq<Seq<u8>>,
    n: int,
    a: int,
    b: int,
)
    requires
        0 <= a <= b <= n,
    ensures
        ways_ending(target, available, n, a) <= ways_ending(target, available, n, b),
    decreases b - a,
{
    if a < b {
        lemma_ways_ending_monotonic(target, available, n, a, b - 1);
    }
}

/// Whether `towel` is the piece of `target` from stripe `from` to stripe
/// `to`.
fn is_piece(towel: &Vec<u8>, target: &[u8], from: usize, to: usize) -> (same: bool)
    requires
        from <= to <= target@.len(),
    ensures
        same == (towel@ == target@.subrange(from as int, to as int)),
{
    if towel.len() != to - from {
        return false;
    }
    let mut i: usize = 0;
    while i < towel.len()
        invariant
            from <= to <= target@.len(),
            towel@.len() == to - from,
            i <= towel@.len(),
            forall|j: int| 0 <= j < i ==> #[trigger] towel@[j] == target@[from + j],
        decreases towel@.len() - i,
    {
        if towel[i] != target[from + i] {
            proof {
                assert(target@.subrange(from as int, to as int)[i as int] == target@[from + i]);
            }
            return false;
        }
        i += 1;
    }
    proof {
        assert(towel@ =~= target@.subrange(from as int, to as int));
    }
    true
}

/// Whether the piece of `target` from stripe `from` to stripe `to` is a
/// towel at hand.
fn has_piece(available: &Vec<Vec<u8>>, target: &[u8], from: usize, to: usize) -> (found: bool)
    requires
        from <= to <= target@.len(),
    ensures
        found == at_hand(views(available@), target@.subrange(from as int, to as int)),
{
    let ghost piece = target@.subrange(from as int, to as int);
    let mut i: usize = 0;
    while i < available.len()
        invariant
            from <= to <= target@.len(),
            piece == target@.subrange(from as int, to as int),
            i <= available@.len(),
            forall|j: int| 0 <= j < i ==> (#[trigger] available@[j])@ != piece,
        decreases available@.len() - i,
    {
        if is_piece(&available[i], target, from, to) {
            proof {
                assert(views(available@)[i as int] == piece);
            }
            return true;
        }
        i += 1;
    }
    proof {
        assert forall|j: int| 0 <= j < views(available@).len() implies views(available@)[j]
            != piece by {
            assert(available@[j]@ != piece);
        }
    }
    false
}

/// Whether the ways to lay out `target`, and those to lay out each of its
/// beginnings, can be counted.
pub open spec fn countable(target: Seq<u8>, available: Seq<Seq<u8>>) -> bool {
    forall|n: int| 0 <= n <= target.len() ==> #[trigger] ways(target, available, n) <= usize::MAX
}

/// The number of ways to lay out `target` with the towels at hand, or
/// `None` when the ways to lay out a beginning of it are more than can be
/// counted.
pub fn ways_to_make(target: &[u8], available: &Vec<Vec<u8>>) -> (count: Option<usize>)
    ensures
        match count {
            Some(number) => countable(target@, views(available@)) && number == ways(
                target@,
                views(available@),
                target@.len() as int,
            ),
            None => !countable(target@, views(available@)),
        },
{
    let ghost towels = views(available@);
    // How many ways can you make the n-prefix of `target`?
    // Only 1 way to make the empty string (0-prefix).
    let mut possible: Vec<usize> = Vec::new();
    possible.push(1);
    let mut m: usize = 0;
    while m < target.len()
        invariant
            towels == views(available@),
            m <= target@.len(),
            possible@.len() == m + 1,
            forall|j: int| 0 <= j <= m ==> #[trigger] possible@[j] == ways(target@, towels, j),
        decreases target@.len() - m,
    {
        let n = m + 1;
        let mut ways_to_make: usize = 0;
        let mut k: usize = 0;
        while k < n
            invariant
                towels == views(available@),
                1 <= n <= target@.len(),
                possible@.len() == n,
                forall|j: int| 0 <= j < n ==> #[trigger] possible@[j] == ways(target@, towels, j),
                k <= n,
                ways_to_make == ways_ending(target@, towels, n as int, k as int),
            decreases n - k,
        {
            if possible[k] > 0 && has_piece(available, target, k, n) {
                // Because there are `possible[k]` ways to make the smaller prefix,
                // and one way to make the smaller suffix,
                // there are as many more ways to make this n-prefix.
                ways_to_make = match ways_to_make.checked_add(possible[k]) {
                    Some(sum) => sum,
                    None => {
                        proof {
                            lemma_ways_ending_monotonic(
                                target@,
                                towels,
                                n as int,
                                k as int + 1,
                                n as int,
                            );
                            assert(ways(target@, towels, n as int) > usize::MAX);
                        }
                        return None;
                    },
                };
            }
            k += 1;
        }
        possible.push(ways_to_make);
        m += 1;
    }
    proof {
        assert forall|n: int| 0 <= n <= target@.len() implies #[trigger] ways(target@, towels, n)
            <= usize::MAX by {
            assert(possible@[n] == ways(target@, towels, n));
        }
    }
    Some(possible[target.len()])
}

/// How many of the first `n` designs can be laid out.
pub open spec fn makeable(targets: Seq<Vec<u8>>, available: Seq<Seq<u8>>, n: int) -> nat
    decreases n,
{
    if n <= 0 {
        0
    } else {
        makeable(targets, available, n - 1) + if ways(
            targets[n - 1]@,
            available,
            targets[n - 1]@.len() as int,
        ) > 0 {
            1nat
        } else {
            0nat
        }
    }
}

/// The sum of the numbers of ways to lay out the first `n` designs.
pub open spec fn all_ways(targets: Seq<Vec<u8>>, available: Seq<Seq<u8>>, n: int) -> nat
    decreases n,
{
    if n <= 0 {
        0
    } else {
        all_ways(targets, available, n - 1) + ways(
            targets[n - 1]@,
            available,
            targets[n - 1]@.len() as int,
        )
    }
}

/// Whether the ways to lay out each of the designs can be counted.
pub open spec fn all_countable(targets: Seq<Vec<u8>>, available: Seq<Seq<u8>>) -> bool {
    forall|i: int| 0 <= i < targets.len() ==> countable((#[trigger] targets[i])@, available)
}

/// The sum of the ways grows with the number of designs.
proof fn lemma_all_ways_grow(targets: Seq<Vec<u8>>, available: Seq<Seq<u8>>, n: int, m: int)
    requires
        0 <= n <= m,
    ensures
        all_ways(targets, available, n) <= all_ways(targets, available, m),
    decreases m - n,
{
    if n < m {
        lemma_all_ways_grow(targets, available, n, m - 1);
    }
}

/// The number of designs that can be laid out, or `None` when the ways of
/// a design are more than can be counted.
pub fn q1(input: &Input) -> (count: Option<usize>)
    ensures
        match count {
            Some(number) => all_countable(input.targets@, views(input.available@)) && number
                == makeable(
                input.targets@,
                views(input.available@),
                input.targets@.len() as int,
            ),
            None => !all_countable(input.targets@, views(input.available@)),
        },
{
    let ghost towels = views(input.available@);
    let mut count: usize = 0;
    let mut i: usize = 0;
    while i < input.targets.len()
        invariant
            towels == views(input.available@),
            i <= input.targets@.len(),
            count == makeable(input.targets@, towels, i as int),
            count <= i,
            forall|j: int| 0 <= j < i ==> countable((#[trigger] input.targets@[j])@, towels),
        decreases input.targets@.len() - i,
    {
        let number = match ways_to_make(input.targets[i].as_slice(), &input.available) {
            Some(number) => number,
            None => {
                return None;
            },
        };
        if number > 0 {
            count += 1;
        }
        i += 1;
    }
    Some(count)
}

/// The sum of the numbers of ways to lay out the designs, or `None` when a
/// number on the way does not fit.
pub fn q2(input: &Input) -> (total: Option<usize>)
    ensures
        match total {
            Some(sum) => all_countable(input.targets@, views(input.available@)) && sum
                == all_ways(
                input.targets@,
                views(input.available@),
                input.targets@.len() as int,
            ),
            None => !all_countable(input.targets@, views(input.available@)) || all_ways(
                input.targets@,
                views(input.available@),
                input.targets@.len() as int,
            ) > usize::MAX,
        },
{
    let ghost towels = views(input.available@);
    let mut total: usize = 0;
    let mut i: usize = 0;
    while i < input.targets.len()
        invariant
            towels == views(input.available@),
            i <= input.targets@.len(),
            total == all_ways(input.targets@, towels, i as int),
            forall|j: int| 0 <= j < i ==> countable((#[trigger] input.targets@[j])@, towels),
        decreases input.targets@.len() - i,
    {
        let number = match ways_to_make(input.targets[i].as_slice(), &input.available) {
            Some(number) => number,
            None => {
                return None;
            },
        };
        total = match total.checked_add(number) {
            Some(sum) => sum,
            None => {
                proof {
                    lemma_all_ways_grow(
                        input.targets@,
                        towels,
                        i + 1,
                        input.targets@.len() as int,
                    );
                }
                return None;
            },
        };
        i += 1;
    }
    Some(total)
}

/// The line `line` with a space in place of each comma.
pub open spec fn blanked(line: Seq<u8>) -> Seq<u8> {
    Seq::new(
        line.len(),
        |i: int|
            if line[i] == 44 {
                32u8
            } else {
                line[i]
            },
    )
}

impl Input {
    /// Whether `self` is what `text` lists: on the first line the towels at
    /// hand, with commas between them; then an empty line; then the designs,
    /// one on each line.
    pub open spec fn shows(&self, text: Seq<u8>) -> bool {
        let rows = lines(text);
        &&& rows.len() >= 2
        &&& rows[1].len() == 0
        &&& views(self.available@) == fields(blanked(rows[0]))
        &&& views(self.targets@) == rows.subrange(2, rows.len() as int)
    }
}

/// Reads the towels at hand and the designs. The result is `None` when the
/// text does not start with a line of towels and an empty line.
pub fn parse(input: &str) -> (parsed: Option<Input>)
    ensures
        match parsed {
            Some(list) => list.shows(input.spec_bytes()),
            None => lines(input.spec_bytes()).len() < 2 || lines(input.spec_bytes())[1].len() != 0,
        },
{
    let rows = split_lines(input.as_bytes());
    proof {
        assert(views(rows@).len() == rows@.len());
    }
    if rows.len() < 2 {
        return None;
    }
    proof {
        assert(views(rows@)[1] == rows@[1]@);
        assert(views(rows@)[0] == rows@[0]@);
    }
    if rows[1].len() != 0 {
        return None;
    }
    let mut first: Vec<u8> = Vec::with_capacity(rows[0].len());
    let mut i: usize = 0;
    while i < rows[0].len()
        invariant
            rows@.len() >= 2,
            i <= rows@[0]@.len(),
            first@.len() == i,
            forall|j: int| 0 <= j < i ==> #[trigger] first@[j] == blanked(rows@[0]@)[j],
        decreases rows@[0]@.len() - i,
    {
        let byte = rows[0][i];
        first.push(
            if byte == 44 {
                32
            } else {
                byte
            },
        );
        i += 1;
    }
    proof {
        assert(first@ =~= blanked(rows@[0]@));
    }
    let available = split_fields(first.as_slice());
    let mut targets: Vec<Vec<u8>> = Vec::new();
    let ghost all = views(rows@);
    let mut k: usize = 2;
    while k < rows.len()
        invariant
            all == views(rows@),
            2 <= k <= rows@.len(),
            targets@.len() == k - 2,
            forall|j: int| 0 <= j < targets@.len() ==> (#[trigger] targets@[j])@ == all[j + 2],
        decreases rows@.len() - k,
    {
        let ghost had = targets@;
        let row = rows[k].clone();
        proof {
            assert(row@ =~= rows@[k as int]@);
            assert(all[k as int] == rows@[k as int]@);
        }
        targets.push(row);
        proof {
            assert forall|j: int| 0 <= j < targets@.len() implies (#[trigger] targets@[j])@
                == all[j + 2] by {
                if j < had.len() {
                    assert(targets@[j] == had[j]);
                }
            }
        }
        k += 1;
    }
    proof {
        assert(views(targets@) =~= all.subrange(2, all.len() as int));
    }
    Some(Input { available, targets })
}

} // verus!
