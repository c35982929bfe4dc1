//! Stones engraved with numbers: a stone with an even number of digits splits
//! into two, its left half and its right half.
use crate::fx::{index_map_drain, index_map_get, index_map_insert};
use crate::scan::{fields, parse_u64, split_fields, unsigned_of, views};
use fxhash::FxHashMap;
use vstd::prelude::*;
use vstd::string::StringSliceAdditionalSpecFns;

verus! {

/// The number engraved on a stone.
pub type Num = u64;

/// The number of decimal digits of `n`; zero has one digit.
pub open spec fn digit_count(n: nat) -> nat
    decreases n,
{
    if n < 10 {
        1
    } else {
        1 + digit_count(n / 10)
    }
}

/// Ten to the power `k`.
pub open spec fn pow10(k: nat) -> nat
    decreases k,
{
    if k == 0 {
        1
    } else {
        10 * pow10((k - 1) as nat)
    }
}

/// A number lies between the powers of ten that its digit count names.
pub proof fn lemma_digit_count(n: nat)
    ensures
        digit_count(n) >= 1,
        n > 0 ==> pow10((digit_count(n) - 1) as nat) <= n,
        n < pow10(digit_count(n)),
    decreases n,
{
    if n >= 10 {
        lemma_digit_count(n / 10);
    } else {
        assert(pow10(1) == 10) by {
            reveal_with_fuel(pow10, 2);
        }
    }
}

/// Powers of ten grow with the exponent.
pub proof fn lemma_pow10_monotonic(a: nat, b: nat)
    requires
        a <= b,
    ensures
        1 <= pow10(a) <= pow10(b),
    decreases b,
{
    if b > 0 {
        if a < b {
            lemma_pow10_monotonic(a, (b - 1) as nat);
        } else {
            lemma_pow10_monotonic((a - 1) as nat, (b - 1) as nat);
        }
    }
}

/// A positive number splits into its halves without loss: the left half,
/// shifted back, plus the right half is the number.
pub proof fn lemma_split_rejoins(n: nat)
    requires
        n > 0,
    ensures
        ({
            let tens = pow10(digit_count(n) / 2);
            (n / tens) * tens + n % tens == n
        }),
{
    let tens = pow10(digit_count(n) / 2);
    lemma_pow10_monotonic(0, digit_count(n) / 2);
    vstd::arithmetic::div_mod::lemma_fundamental_div_mod(n as int, tens as int);
    assert((n / tens) * tens == tens * (n / tens)) by (nonlinear_arith);
}

/// The number of decimal digits of `n`; zero has one digit.
pub fn num_digits(n: Num) -> (digits: u32)
    requires
        n > 0,
    ensures
        digits == digit_count(n as nat),
{
    let mut digits: u32 = 1;
    let mut rest = n;
    proof {
        assert(pow10(0) == 1);
        assert(rest * pow10(0) == rest);
    }
    while rest >= 10
        invariant
            digit_count(n as nat) == digits - 1 + digit_count(rest as nat),
            1 <= digits <= 20,
            rest * pow10((digits - 1) as nat) <= n,
        decreases rest,
    {
        proof {
            let k = (digits - 1) as nat;
            assert(pow10(k + 1) == 10 * pow10(k));
            assert((rest / 10) * (10 * pow10(k)) <= rest * pow10(k)) by (nonlinear_arith)
                requires
                    0 <= rest,
                    0 <= pow10(k),
            ;
            if digits == 20 {
                lemma_pow10_monotonic(19, 19);
                assert(pow10(19) == 10_000_000_000_000_000_000nat) by {
                    reveal_with_fuel(pow10, 20);
                }
                assert(rest * pow10(19) >= 10 * pow10(19)) by (nonlinear_arith)
                    requires
                        rest >= 10,
                        pow10(19) >= 0,
                ;
            }
        }
        rest = rest / 10;
        digits += 1;
    }
    digits
}

/// Whether `n` is written with an even number of decimal digits.
pub fn even_num_of_digits(n: Num) -> (even: bool)
    requires
        n > 0,
    ensures
        even == (digit_count(n as nat) % 2 == 0),
{
    num_digits(n) % 2 == 0
}

/// Ten to the power `k`, for a power that fits.
fn power_of_ten(k: u32) -> (tens: u64)
    requires
        pow10(k as nat) <= u64::MAX,
    ensures
        tens == pow10(k as nat),
{
    let mut tens: u64 = 1;
    let mut i: u32 = 0;
    while i < k
        invariant
            i <= k,
            tens == pow10(i as nat),
            pow10(k as nat) <= u64::MAX,
        decreases k - i,
    {
        proof {
            lemma_pow10_monotonic((i + 1) as nat, k as nat);
        }
        tens = tens * 10;
        i += 1;
    }
    tens
}

/// Splits a number down the middle of its digits.
/// E.g.
/// ```
/// assert_eq!(aoc::day11::split(1234), (12, 34));
/// ```
pub fn split(n: Num) -> (halves: (Num, Num))
    requires
        n > 0,
    ensures
        halves.0 == n as nat / pow10(digit_count(n as nat) / 2),
        halves.1 == n as nat % pow10(digit_count(n as nat) / 2),
{
    let half = num_digits(n) / 2;
    proof {
        lemma_digit_count(n as nat);
        lemma_pow10_monotonic(half as nat, (digit_count(n as nat) - 1) as nat);
    }
    let tens = power_of_ten(half);
    (n / tens, n % tens)
}

/// For each number, how many stones are engraved with it.
pub type Input = FxHashMap<Num, usize>;

/// The number on the one stone that a stone turns into which neither shows
/// zero nor splits.
pub open spec fn grown(n: Num) -> nat {
    n as nat * 2024
}

/// How many of the stones that the stone `n` turns into at a blink are
/// engraved with `target`: a stone with zero turns into a stone with one, a
/// stone with an even number of digits splits into its halves, and any other
/// stone has its number multiplied by 2024.
pub open spec fn offspring(n: Num, target: nat) -> nat {
    if n == 0 {
        if target == 1 {
            1
        } else {
            0
        }
    } else if digit_count(n as nat) % 2 == 0 {
        let tens = pow10(digit_count(n as nat) / 2);
        (if target == n as nat / tens {
            1nat
        } else {
            0nat
        }) + (if target == n as nat % tens {
            1nat
        } else {
            0nat
        })
    } else if target == grown(n) {
        1
    } else {
        0
    }
}

/// What the stones counted in `entry` add at a blink to the stones engraved
/// with `target`.
pub open spec fn share(entry: (Num, usize), target: nat) -> nat {
    (entry.1 * offspring(entry.0, target)) as nat
}

/// How many stones are engraved with `target` after a blink of the stones
/// `stones`, counting the stones with a number below `upto` only.
pub open spec fn inflow(stones: Map<Num, usize>, target: nat, upto: nat) -> nat
    decreases upto,
{
    if upto == 0 {
        0
    } else {
        let n = (upto - 1) as nat;
        inflow(stones, target, n) + if n <= u64::MAX && stones.contains_key(n as u64) {
            share((n as u64, stones[n as u64]), target)
        } else {
            0
        }
    }
}

/// One more than the greatest number that fits on a stone.
pub open spec fn all_numbers() -> nat {
    0x1_0000_0000_0000_0000
}

/// How many stones are engraved with `target` after a blink.
pub open spec fn stones_after(stones: Map<Num, usize>, target: nat) -> nat {
    inflow(stones, target, all_numbers())
}

/// Whether some stone turns into a stone engraved with `target`.
pub open spec fn fed(stones: Map<Num, usize>, target: nat) -> bool {
    exists|n: Num| stones.contains_key(n) && #[trigger] offspring(n, target) > 0
}

/// Whether the stones `after` are what a blink makes of the stones
/// `before`.
pub open spec fn is_blink(before: Map<Num, usize>, after: Map<Num, usize>) -> bool {
    forall|target: Num| #![trigger after.contains_key(target)]
        (after.contains_key(target) <==> fed(before, target as nat)) && (after.contains_key(target)
            ==> after[target] == stones_after(before, target as nat))
}

/// Whether a blink of `stones` can be counted: no new number and no new
/// count is too large.
pub open spec fn blink_fits(stones: Map<Num, usize>) -> bool {
    &&& forall|target: nat| fed(stones, target) ==> target <= u64::MAX
    &&& forall|target: nat| #[trigger] stones_after(stones, target) <= usize::MAX
}

/// The sum of the shares of the first `n` entries.
pub open spec fn shares(entries: Seq<(Num, usize)>, n: int, target: nat) -> nat
    decreases n,
{
    if n <= 0 {
        0
    } else {
        shares(entries, n - 1, target) + share(entries[n - 1], target)
    }
}

/// Whether `entries` lists each entry of `stones` once.
pub open spec fn lists(entries: Seq<(Num, usize)>, stones: Map<Num, usize>) -> bool {
    &&& forall|i: int, j: int| 0 <= i < j < entries.len() ==> entries[i].0 != entries[j].0
    &&& forall|i: int|
        0 <= i < entries.len() ==> stones.contains_key(#[trigger] entries[i].0) && stones[entries[i].0]
            == entries[i].1
    &&& forall|key: Num|
        stones.contains_key(key) ==> exists|i: int|
            0 <= i < entries.len() && #[trigger] entries[i].0 == key
}

/// Taking one entry out of the stones takes its share out of the inflow.
proof fn lemma_inflow_remove(stones: Map<Num, usize>, key: Num, target: nat, upto: nat)
    requires
        stones.contains_key(key),
    ensures
        inflow(stones, target, upto) == inflow(stones.remove(key), target, upto) + if key < upto {
            share((key, stones[key]), target)
        } else {
            0
        },
    decreases upto,
{
    if upto > 0 {
        lemma_inflow_remove(stones, key, target, (upto - 1) as nat);
    }
}

/// Stones that are not there add nothing.
proof fn lemma_inflow_empty(stones: Map<Num, usize>, target: nat, upto: nat)
    requires
        forall|key: Num| !stones.contains_key(key),
    ensures
        inflow(stones, target, upto) == 0,
    decreases upto,
{
    if upto > 0 {
        lemma_inflow_empty(stones, target, (upto - 1) as nat);
    }
}

/// The shares of the entries add up to the inflow, in whatever order the
/// entries are listed.
proof fn lemma_shares(entries: Seq<(Num, usize)>, stones: Map<Num, usize>, target: nat)
    requires
        lists(entries, stones),
    ensures
        shares(entries, entries.len() as int, target) == stones_after(stones, target),
    decreases entries.len(),
{
    if entries.len() == 0 {
        lemma_inflow_empty(stones, target, all_numbers());
    } else {
        let last = entries.last();
        let rest = entries.drop_last();
        let fewer = stones.remove(last.0);
        assert(stones.contains_key(entries[entries.len() - 1].0));
        assert forall|key: Num| fewer.contains_key(key) implies exists|i: int|
            0 <= i < rest.len() && #[trigger] rest[i].0 == key by {
            let i = choose|i: int| 0 <= i < entries.len() && #[trigger] entries[i].0 == key;
            assert(rest[i].0 == key);
        }
        assert forall|i: int| 0 <= i < rest.len() implies fewer.contains_key(
            #[trigger] rest[i].0,
        ) && fewer[rest[i].0] == rest[i].1 by {
            assert(entries[i].0 != entries[entries.len() - 1].0);
            assert(stones.contains_key(entries[i].0));
        }
        assert(lists(rest, fewer)) by {
            assert forall|i: int, j: int| 0 <= i < j < rest.len() implies rest[i].0
                != rest[j].0 by {
                assert(entries[i].0 != entries[j].0);
            }
        }
        lemma_shares(rest, fewer, target);
        lemma_inflow_remove(stones, last.0, target, all_numbers());
        lemma_shares_prefix(entries, rest, rest.len() as int, target);
    }
}

/// The sum of the first shares does not look at the entries behind them.
proof fn lemma_shares_prefix(
    entries: Seq<(Num, usize)>,
    rest: Seq<(Num, usize)>,
    n: int,
    target: nat,
)
    requires
        0 <= n <= rest.len() <= entries.len(),
        forall|i: int| 0 <= i < rest.len() ==> rest[i] == entries[i],
    ensures
        shares(rest, n, target) == shares(entries, n, target),
    decreases n,
{
    if n > 0 {
        lemma_shares_prefix(entries, rest, n - 1, target);
    }
}

/// The shares of more entries are no less.
proof fn lemma_shares_monotonic(entries: Seq<(Num, usize)>, a: int, b: int, target: nat)
    requires
        a <= b,
    ensures
        shares(entries, a, target) <= shares(entries, b, target),
    decreases b - a,
{
    if a < b {
        lemma_shares_monotonic(entries, a, b - 1, target);
    }
}

/// Whether the first `n` entries turn into a stone engraved with `target`.
pub open spec fn fed_by(entries: Seq<(Num, usize)>, n: int, target: nat) -> bool {
    exists|i: int| 0 <= i < n && #[trigger] offspring(entries[i].0, target) > 0
}

/// Whether `stones` counts what the first `n` entries turn into.
pub open spec fn counts_first(stones: Map<Num, usize>, entries: Seq<(Num, usize)>, n: int) -> bool {
    forall|target: Num| #![trigger stones.contains_key(target)]
        (stones.contains_key(target) <==> fed_by(entries, n, target as nat)) && (
        stones.contains_key(target) ==> stones[target] == shares(entries, n, target as nat))
}

/// Adds `v` stones engraved with `k`. The result tells whether the count
/// fits; if it does not, nothing changes.
pub fn add_to(m: &mut Input, k: Num, v: usize) -> (fits: bool)
    ensures
        fits == ((if old(m)@.contains_key(k) {
            old(m)@[k] as int
        } else {
            0
        }) + v <= usize::MAX),
        fits ==> final(m)@ == old(m)@.insert(
            k,
            ((if old(m)@.contains_key(k) {
                old(m)@[k] as int
            } else {
                0
            }) + v) as usize,
        ),
        !fits ==> final(m)@ == old(m)@,
{
    let had: usize = match index_map_get(m, k) {
        Some(count) => *count,
        None => 0,
    };
    match had.checked_add(v) {
        Some(sum) => {
            index_map_insert(m, k, sum);
            true
        },
        None => false,
    }
}

/// One blink: every stone turns into its offspring. The result tells
/// whether every new number and every new count fits; if one does not, the
/// stones are left in disorder.
pub fn blink(stones: &mut Input) -> (fits: bool)
    ensures
        fits ==> is_blink(old(stones)@, final(stones)@),
        fits == blink_fits(old(stones)@),
{
    let ghost before = stones@;
    let old_stones = index_map_drain(stones);
    let ghost entries = old_stones@;
    proof {
        assert(lists(entries, before));
        assert forall|target: nat| #[trigger]
            stones_after(before, target) == shares(entries, entries.len() as int, target) by {
            lemma_shares(entries, before, target);
        }
        assert forall|target: nat| fed(before, target) == fed_by(
            entries,
            entries.len() as int,
            target,
        ) by {
            if fed(before, target) {
                let n = choose|n: Num| before.contains_key(n) && #[trigger] offspring(n, target) > 0;
                let i = choose|i: int| 0 <= i < entries.len() && #[trigger] entries[i].0 == n;
                assert(offspring(entries[i].0, target) > 0);
            }
            if fed_by(entries, entries.len() as int, target) {
                let i = choose|i: int|
                    0 <= i < entries.len() && #[trigger] offspring(entries[i].0, target) > 0;
                assert(before.contains_key(entries[i].0));
            }
        }
    }
    let mut i: usize = 0;
    while i < old_stones.len()
        invariant
            entries == old_stones@,
            before == old(stones)@,
            i <= entries.len(),
            counts_first(stones@, entries, i as int),
            forall|target: nat| fed_by(entries, i as int, target) ==> target <= u64::MAX,
            forall|target: nat| #[trigger]
                stones_after(before, target) == shares(entries, entries.len() as int, target),
            forall|target: nat|
                fed(before, target) == fed_by(entries, entries.len() as int, target),
        decreases entries.len() - i,
    {
        let (number, count) = old_stones[i];
        let ghost had = stones@;
        let first: Num;
        let second: Option<Num>;
        if number == 0 {
            first = 1;
            second = None;
        } else if even_num_of_digits(number) {
            let (l, r) = split(number);
            first = l;
            second = Some(r);
        } else {
            second = None;
            first = match number.checked_mul(2024) {
                Some(product) => product,
                None => {
                    proof {
                        assert(offspring(entries[i as int].0, grown(number)) > 0);
                        assert(fed_by(entries, entries.len() as int, grown(number)));
                        assert(fed(before, grown(number)));
                    }
                    return false;
                },
            };
        }
        proof {
            assert forall|target: nat| offspring(number, target) == (if target == first {
                1nat
            } else {
                0nat
            }) + (if second == Some(target as Num) && target <= u64::MAX {
                1nat
            } else {
                0nat
            }) by {}
        }
        if !add_to(stones, first, count) {
            proof {
                assert(count * 1 == count);
                assert(count * 2 == count + count);
                lemma_blink_overflow(had, entries, i as int, first);
                assert(stones_after(before, first as nat) > usize::MAX);
            }
            return false;
        }
        if let Some(other) = second {
            if !add_to(stones, other, count) {
                proof {
                    assert(count * 1 == count);
                    assert(count * 2 == count + count);
                    lemma_blink_overflow(had, entries, i as int, other);
                    assert(stones_after(before, other as nat) > usize::MAX);
                }
                return false;
            }
        }
        proof {
            assert(count * 0 == 0);
            assert(count * 1 == count);
            assert(count * 2 == count + count);
            lemma_blink_step(had, stones@, entries, i as int, i as int + 1);
        }
        i += 1;
    }
    proof {
        assert forall|target: nat| #[trigger] stones_after(before, target) <= usize::MAX by {
            if target <= u64::MAX {
                let t = target as Num;
                if stones@.contains_key(t) {
                } else {
                    lemma_shares_zero(entries, entries.len() as int, target);
                }
            } else {
                lemma_shares_zero(entries, entries.len() as int, target);
            }
        }
        assert forall|target: Num| #![trigger stones@.contains_key(target)]
            (stones@.contains_key(target) <==> fed(before, target as nat)) && (stones@.contains_key(
                target,
            ) ==> stones@[target] == stones_after(before, target as nat)) by {}
    }
    true
}

/// Entries that turn into no stone with `target` have no share in it.
proof fn lemma_shares_zero(entries: Seq<(Num, usize)>, n: int, target: nat)
    requires
        0 <= n <= entries.len(),
        !fed_by(entries, n, target),
    ensures
        shares(entries, n, target) == 0,
    decreases n,
{
    if n > 0 {
        assert(!(offspring(entries[n - 1].0, target) > 0));
        assert(!fed_by(entries, n - 1, target)) by {
            if fed_by(entries, n - 1, target) {
                let i = choose|i: int|
                    0 <= i < n - 1 && #[trigger] offspring(entries[i].0, target) > 0;
                assert(0 <= i < n && offspring(entries[i].0, target) > 0);
            }
        }
        lemma_shares_zero(entries, n - 1, target);
        assert(entries[n - 1].1 * 0 == 0);
    }
}

/// The new numbers of a stone that is neither zero nor grows past what
/// fits.
pub open spec fn new_numbers_fit(n: Num) -> bool {
    n == 0 || digit_count(n as nat) % 2 == 0 || grown(n) <= u64::MAX
}

/// The counts after one more entry has been dealt with.
proof fn lemma_blink_step(
    had: Map<Num, usize>,
    now: Map<Num, usize>,
    entries: Seq<(Num, usize)>,
    i: int,
    next: int,
)
    requires
        0 <= i < entries.len(),
        next == i + 1,
        counts_first(had, entries, i),
        new_numbers_fit(entries[i].0),
        forall|target: Num| #![trigger now.contains_key(target)]
            (now.contains_key(target) <==> had.contains_key(target) || offspring(
                entries[i].0,
                target as nat,
            ) > 0) && (now.contains_key(target) ==> now[target] == (if had.contains_key(target) {
                had[target] as int
            } else {
                0
            }) + share(entries[i], target as nat)),
        forall|target: nat| fed_by(entries, i, target) ==> target <= u64::MAX,
    ensures
        counts_first(now, entries, next),
        forall|target: nat| fed_by(entries, next, target) ==> target <= u64::MAX,
{
    let n = entries[i].0;
    lemma_digit_count(n as nat);
    assert forall|target: nat| fed_by(entries, next, target) == (fed_by(entries, i, target)
        || offspring(n, target) > 0) by {
        if fed_by(entries, next, target) {
            let j = choose|j: int|
                0 <= j < next && #[trigger] offspring(entries[j].0, target) > 0;
            if j < i {
                assert(0 <= j < i && offspring(entries[j].0, target) > 0);
            }
        }
        if fed_by(entries, i, target) {
            let j = choose|j: int| 0 <= j < i && #[trigger] offspring(entries[j].0, target) > 0;
            assert(0 <= j < next && offspring(entries[j].0, target) > 0);
        }
        if offspring(n, target) > 0 {
            assert(0 <= i < next && offspring(entries[i].0, target) > 0);
        }
    }
    assert forall|target: nat| offspring(n, target) > 0 implies target <= u64::MAX by {
        if n != 0 && digit_count(n as nat) % 2 == 0 {
            let tens = pow10(digit_count(n as nat) / 2);
            lemma_pow10_monotonic(0, digit_count(n as nat) / 2);
            vstd::arithmetic::div_mod::lemma_div_is_ordered_by_denominator(
                n as int,
                1,
                tens as int,
            );
            vstd::arithmetic::div_mod::lemma_mod_bound(n as int, tens as int);
            vstd::arithmetic::div_mod::lemma_fundamental_div_mod(n as int, tens as int);
            assert(n as nat / tens <= n) by (nonlinear_arith)
                requires
                    tens >= 1,
            ;
            assert(n as nat % tens <= n) by (nonlinear_arith)
                requires
                    tens >= 1,
            ;
        }
    }
    assert forall|target: Num| #![trigger now.contains_key(target)]
        (now.contains_key(target) <==> fed_by(entries, next, target as nat)) && (now.contains_key(
            target,
        ) ==> now[target] == shares(entries, next, target as nat)) by {
        if !had.contains_key(target) {
            lemma_shares_zero(entries, i, target as nat);
        }
    }
}

/// A count that does not fit shows that the blink does not fit.
proof fn lemma_blink_overflow(
    had: Map<Num, usize>,
    entries: Seq<(Num, usize)>,
    i: int,
    target: Num,
)
    requires
        0 <= i < entries.len(),
        counts_first(had, entries, i),
        (if had.contains_key(target) {
            had[target] as int
        } else {
            0
        }) + share(entries[i], target as nat) > usize::MAX,
    ensures
        shares(entries, entries.len() as int, target as nat) > usize::MAX,
{
    if !had.contains_key(target) {
        lemma_shares_zero(entries, i, target as nat);
    }
    lemma_shares_monotonic(entries, i + 1, entries.len() as int, target as nat);
    assert(shares(entries, i + 1, target as nat) > usize::MAX);
}

/// The stones after a blink of `stones`.
pub open spec fn after_blink(stones: Map<Num, usize>) -> Map<Num, usize> {
    Map::new(
        |target: Num| fed(stones, target as nat),
        |target: Num| stones_after(stones, target as nat) as usize,
    )
}

/// The stones after `n` blinks of `stones`.
pub open spec fn after_blinks(stones: Map<Num, usize>, n: nat) -> Map<Num, usize>
    decreases n,
{
    if n == 0 {
        stones
    } else {
        after_blink(after_blinks(stones, (n - 1) as nat))
    }
}

/// Whether each of the first `n` blinks of `stones` can be counted.
pub open spec fn blinks_fit(stones: Map<Num, usize>, n: nat) -> bool {
    forall|j: nat| j < n ==> blink_fits(#[trigger] after_blinks(stones, j))
}

/// The number of stones in `stones` with a number below `upto`.
pub open spec fn population(stones: Map<Num, usize>, upto: nat) -> nat
    decreases upto,
{
    if upto == 0 {
        0
    } else {
        let n = (upto - 1) as nat;
        population(stones, n) + if n <= u64::MAX && stones.contains_key(n as u64) {
            stones[n as u64] as nat
        } else {
            0
        }
    }
}

/// The number of stones in `stones`.
pub open spec fn stone_count(stones: Map<Num, usize>) -> nat {
    population(stones, all_numbers())
}

/// The sum of the counts of the first `n` entries.
pub open spec fn counted(entries: Seq<(Num, usize)>, n: int) -> nat
    decreases n,
{
    if n <= 0 {
        0
    } else {
        counted(entries, n - 1) + entries[n - 1].1 as nat
    }
}

/// Taking a number out of the counts takes its stones out of the sum.
proof fn lemma_population_remove(stones: Map<Num, usize>, key: Num, upto: nat)
    requires
        stones.contains_key(key),
    ensures
        population(stones, upto) == population(stones.remove(key), upto) + if key < upto {
            stones[key] as nat
        } else {
            0
        },
    decreases upto,
{
    if upto > 0 {
        lemma_population_remove(stones, key, (upto - 1) as nat);
    }
}

/// Counts of no number add up to no stones.
proof fn lemma_population_empty(stones: Map<Num, usize>, upto: nat)
    requires
        forall|key: Num| !stones.contains_key(key),
    ensures
        population(stones, upto) == 0,
    decreases upto,
{
    if upto > 0 {
        lemma_population_empty(stones, (upto - 1) as nat);
    }
}

/// The stones counted in the first entries do not depend on the entries
/// behind them.
proof fn lemma_counted_prefix(entries: Seq<(Num, usize)>, rest: Seq<(Num, usize)>, n: int)
    requires
        0 <= n <= rest.len() <= entries.len(),
        forall|i: int| 0 <= i < rest.len() ==> rest[i] == entries[i],
    ensures
        counted(rest, n) == counted(entries, n),
    decreases n,
{
    if n > 0 {
        lemma_counted_prefix(entries, rest, n - 1);
    }
}

/// More entries count at least as many stones.
proof fn lemma_counted_monotonic(entries: Seq<(Num, usize)>, a: int, b: int)
    requires
        a <= b,
    ensures
        counted(entries, a) <= counted(entries, b),
    decreases b - a,
{
    if a < b {
        lemma_counted_monotonic(entries, a, b - 1);
    }
}

/// The counts of the entries add up to the number of stones, in whatever
/// order the entries are listed.
proof fn lemma_counted(entries: Seq<(Num, usize)>, stones: Map<Num, usize>)
    requires
        lists(entries, stones),
    ensures
        counted(entries, entries.len() as int) == stone_count(stones),
    decreases entries.len(),
{
    if entries.len() == 0 {
        lemma_population_empty(stones, all_numbers());
    } else {
        let last = entries.last();
        let rest = entries.drop_last();
        let fewer = stones.remove(last.0);
        assert(stones.contains_key(entries[entries.len() - 1].0));
        assert forall|key: Num| fewer.contains_key(key) implies exists|i: int|
            0 <= i < rest.len() && #[trigger] rest[i].0 == key by {
            let i = choose|i: int| 0 <= i < entries.len() && #[trigger] entries[i].0 == key;
            assert(rest[i].0 == key);
        }
        assert forall|i: int| 0 <= i < rest.len() implies fewer.contains_key(
            #[trigger] rest[i].0,
        ) && fewer[rest[i].0] == rest[i].1 by {
            assert(entries[i].0 != entries[entries.len() - 1].0);
            assert(stones.contains_key(entries[i].0));
        }
        assert(lists(rest, fewer)) by {
            assert forall|i: int, j: int| 0 <= i < j < rest.len() implies rest[i].0
                != rest[j].0 by {
                assert(entries[i].0 != entries[j].0);
            }
        }
        lemma_counted(rest, fewer);
        lemma_population_remove(stones, last.0, all_numbers());
        lemma_counted_prefix(entries, rest, rest.len() as int);
    }
}

/// The number of stones after `n` blinks. The result is `None` when a
/// number or a count on the way does not fit.
pub fn solve(input: &Input, n: usize) -> (total: Option<usize>)
    ensures
        match total {
            Some(count) => blinks_fit(input@, n as nat) && count == stone_count(
                after_blinks(input@, n as nat),
            ),
            None => !blinks_fit(input@, n as nat) || stone_count(after_blinks(input@, n as nat))
                > usize::MAX,
        },
{
    let mut stones = input.clone();
    let mut i: usize = 0;
    while i < n
        invariant
            i <= n,
            stones@ == after_blinks(input@, i as nat),
            blinks_fit(input@, i as nat),
        decreases n - i,
    {
        let ghost had = stones@;
        if !blink(&mut stones) {
            proof {
                assert(!blink_fits(after_blinks(input@, i as nat)));
            }
            return None;
        }
        proof {
            assert(stones@ =~= after_blink(had));
            assert forall|j: nat| j < i + 1 implies blink_fits(#[trigger] after_blinks(input@, j)) by {
                if j == i {
                } else {
                    assert(j < i);
                }
            }
        }
        i += 1;
    }
    let ghost last = stones@;
    let entries = index_map_drain(&mut stones);
    proof {
        lemma_counted(entries@, last);
    }
    let mut total: usize = 0;
    let mut k: usize = 0;
    while k < entries.len()
        invariant
            k <= entries@.len(),
            total == counted(entries@, k as int),
            counted(entries@, entries@.len() as int) == stone_count(
                after_blinks(input@, n as nat),
            ),
        decreases entries@.len() - k,
    {
        total = match total.checked_add(entries[k].1) {
            Some(sum) => sum,
            None => {
                proof {
                    lemma_counted_monotonic(entries@, k as int + 1, entries@.len() as int);
                }
                return None;
            },
        };
        k += 1;
    }
    Some(total)
}

/// How many of the first `n` numbers are `key`.
pub open spec fn occurrences(numbers: Seq<Num>, n: int, key: Num) -> nat
    decreases n,
{
    if n <= 0 {
        0
    } else {
        occurrences(numbers, n - 1, key) + if numbers[n - 1] == key {
            1nat
        } else {
            0nat
        }
    }
}

/// Whether `text` is a row of stones: numbers that fit, separated by blanks.
pub open spec fn is_row(text: Seq<u8>) -> bool {
    forall|i: int|
        0 <= i < fields(text).len() ==> {
            let value = unsigned_of(#[trigger] fields(text)[i]);
            value.is_some() && value.unwrap() <= u64::MAX
        }
}

/// The numbers written in a row of stones.
pub open spec fn row_numbers(text: Seq<u8>) -> Seq<Num> {
    Seq::new(fields(text).len(), |i: int| unsigned_of(fields(text)[i]).unwrap() as Num)
}

/// Reads a row of stones and counts the stones of each number. The result is
/// `None` when a field is no number that fits.
pub fn parse(input: &str) -> (parsed: Option<Input>)
    ensures
        match parsed {
            Some(stones) => is_row(input.spec_bytes()) && forall|key: Num| #![trigger stones@.contains_key(key)]
                {
                    let count = occurrences(
                        row_numbers(input.spec_bytes()),
                        row_numbers(input.spec_bytes()).len() as int,
                        key,
                    );
                    (stones@.contains_key(key) <==> count > 0) && (stones@.contains_key(key)
                        ==> stones@[key] == count)
                },
            None => !is_row(input.spec_bytes()),
        },
{
    let ghost text = input.spec_bytes();
    let words = split_fields(input.as_bytes());
    let mut m: Input = FxHashMap::default();
    let mut i: usize = 0;
    while i < words.len()
        invariant
            text == input.spec_bytes(),
            views(words@) == fields(text),
            i <= words@.len(),
            forall|j: int|
                0 <= j < i ==> {
                    let value = unsigned_of(#[trigger] fields(text)[j]);
                    value.is_some() && value.unwrap() <= u64::MAX
                },
            forall|key: Num| #![trigger m@.contains_key(key)]
                {
                    let count = occurrences(row_numbers(text), i as int, key);
                    (m@.contains_key(key) <==> count > 0) && (m@.contains_key(key) ==> m@[key]
                        == count) && count <= i
                },
        decreases words@.len() - i,
    {
        proof {
            assert(views(words@)[i as int] == words@[i as int]@);
            assert(views(words@).len() == words@.len());
        }
        let num = match parse_u64(words[i].as_slice()) {
            Some(num) => num,
            None => {
                proof {
                    let value = unsigned_of(fields(text)[i as int]);
                    assert(!(value.is_some() && value.unwrap() <= u64::MAX));
                }
                return None;
            },
        };
        proof {
            assert(row_numbers(text)[i as int] == num);
            assert(m@.contains_key(num) || !m@.contains_key(num));
        }
        let ghost had = m@;
        let fits = add_to(&mut m, num, 1);
        proof {
            assert(fits);
            assert forall|key: Num| #![trigger m@.contains_key(key)]
                {
                    let count = occurrences(row_numbers(text), i as int + 1, key);
                    (m@.contains_key(key) <==> count > 0) && (m@.contains_key(key) ==> m@[key]
                        == count) && count <= i + 1
                } by {
                assert(had.contains_key(key) || !had.contains_key(key));
            }
        }
        i += 1;
    }
    proof {
        assert(views(words@).len() == words@.len());
    }
    Some(m)
}

/// The number of stones after 25 blinks.
pub fn q1(input: &Input) -> (total: Option<usize>)
    ensures
        match total {
            Some(count) => blinks_fit(input@, 25) && count == stone_count(after_blinks(input@, 25)),
            None => !blinks_fit(input@, 25) || stone_count(after_blinks(input@, 25)) > usize::MAX,
        },
{
    solve(input, 25)
}

/// The number of stones after 75 blinks.
pub fn q2(input: &Input) -> (total: Option<usize>)
    ensures
        match total {
            Some(count) => blinks_fit(input@, 75) && count == stone_count(after_blinks(input@, 75)),
            None => !blinks_fit(input@, 75) || stone_count(after_blinks(input@, 75)) > usize::MAX,
        },
{
    solve(input, 75)
}

} // verus!
