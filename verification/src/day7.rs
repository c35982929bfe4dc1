//! Equations with their operators missing: which of them can be made true
//! by putting operators between their numbers?
use crate::arith::exact_quotient;
use crate::day11::{digit_count, lemma_digit_count, lemma_pow10_monotonic, pow10};
use crate::scan::{
    lines, numbers_fit, numbers_in, push_int, scan_numbers, shown_int, split_lines, string_push,
    views,
};
use vstd::prelude::*;
use vstd::string::StringSliceAdditionalSpecFns;

verus! {

/// The equations to calibrate.
pub struct Input {
    pub equations: Vec<Equation>,
}

/// An equation without its operators: the goal and the numbers.
pub struct Equation {
    pub goal: i64,
    pub items: Vec<i64>,
}

/// An operator between two numbers.
#[derive(Clone, Copy, Debug, PartialEq, Eq, Structural)]
pub enum Op {
    Add,
    Mul,
    Cat,
}

/// The value of `left` and `right` joined by `op`. Joining by `Cat` writes
/// the digits of `right` behind `left`.
pub open spec fn apply(op: Op, left: int, right: int) -> int {
    match op {
        Op::Add => left + right,
        Op::Mul => left * right,
        Op::Cat => left * pow10(digit_count(right as nat)) + right,
    }
}

/// The value of the first `n` numbers of `items` with the operators `ops`
/// between them, worked out from left to right.
pub open spec fn value(items: Seq<i64>, ops: Seq<Op>, n: int) -> int
    decreases n,
{
    if n <= 1 {
        items[0] as int
    } else {
        apply(ops[n - 2], value(items, ops, n - 1), items[n - 1] as int)
    }
}

/// Whether `ops` are operators that may stand between the first `n`
/// numbers.
pub open spec fn fits_between(ops: Seq<Op>, n: int, allow_concat: bool) -> bool {
    &&& ops.len() == n - 1
    &&& forall|i: int| 0 <= i < ops.len() ==> (#[trigger] ops[i] == Op::Cat ==> allow_concat)
}

/// Whether the first `n` numbers make `goal` with some operators between
/// them.
pub open spec fn solvable(goal: int, items: Seq<i64>, n: int, allow_concat: bool) -> bool {
    exists|ops: Seq<Op>| #[trigger]
        fits_between(ops, n, allow_concat) && value(items, ops, n) == goal
}

/// The text of the first `n` numbers with the operators `ops` between
/// them.
pub open spec fn shown(items: Seq<i64>, ops: Seq<Op>, n: int) -> Seq<char>
    decreases n,
{
    if n <= 1 {
        shown_int(items[0] as int)
    } else {
        shown(items, ops, n - 1) + op_text(ops[n - 2]) + shown_int(items[n - 1] as int)
    }
}

/// How an operator is written.
pub open spec fn op_text(op: Op) -> Seq<char> {
    match op {
        Op::Add => seq![' ', '+', ' '],
        Op::Mul => seq![' ', '*', ' '],
        Op::Cat => seq![' ', '|', '|', ' '],
    }
}

/// Whether the numbers can stand in an equation: none is zero, and none is
/// negative where numbers may be joined.
pub open spec fn usable(items: Seq<i64>, allow_concat: bool) -> bool {
    forall|i: int|
        0 <= i < items.len() ==> (#[trigger] items[i]) != 0 && (allow_concat ==> items[i] > 0)
}

/// The value with fewer numbers does not look at the operators behind
/// them.
proof fn lemma_value_prefix(items: Seq<i64>, ops: Seq<Op>, shorter: Seq<Op>, n: int)
    requires
        1 <= n,
        shorter.len() >= n - 1,
        ops.len() >= n - 1,
        forall|i: int| 0 <= i < n - 1 ==> shorter[i] == ops[i],
    ensures
        value(items, shorter, n) == value(items, ops, n),
        shown(items, shorter, n) == shown(items, ops, n),
    decreases n,
{
    if n > 1 {
        lemma_value_prefix(items, ops, shorter, n - 1);
    }
}

/// Ten to the power of the number of digits of `curr`.
fn shift_of(curr: i64) -> (tens: i128)
    requires
        curr > 0,
    ensures
        tens == pow10(digit_count(curr as nat)),
        1 <= tens <= 10_000_000_000_000_000_000,
{
    let mut tens: i128 = 10;
    let mut rest = curr;
    proof {
        assert(pow10(1) == 10) by {
            reveal_with_fuel(pow10, 2);
        }
        lemma_digit_count(curr as nat);
        assert(pow10(19) == 10_000_000_000_000_000_000nat) by {
            reveal_with_fuel(pow10, 20);
        }
        if digit_count(curr as nat) > 19 {
            lemma_pow10_monotonic(19, (digit_count(curr as nat) - 1) as nat);
        }
        lemma_pow10_monotonic(digit_count(curr as nat), 19);
    }
    let ghost mut done: nat = 1;
    while rest >= 10
        invariant
            rest >= 0,
            done >= 1,
            tens == pow10(done),
            digit_count(curr as nat) == done - 1 + digit_count(rest as nat),
            digit_count(curr as nat) <= 19,
            pow10(19) == 10_000_000_000_000_000_000nat,
        decreases rest,
    {
        proof {
            lemma_digit_count((rest / 10) as nat);
            lemma_pow10_monotonic(done + 1, 19);
        }
        rest = rest / 10;
        tens = tens * 10;
        proof {
            done = done + 1;
        }
    }
    proof {
        lemma_pow10_monotonic(0, done);
    }
    tens
}

/// Looks for operators that make the first `n` numbers equal to `goal`.
fn find_ops(goal: i128, items: &[i64], n: usize, allow_concat: bool) -> (found: Option<Vec<Op>>)
    requires
        1 <= n <= items@.len(),
        usable(items@, allow_concat),
        -0x4000_0000_0000_0000_0000_0000_0000_0000 + n * 0x8000_0000_0000_0000 <= goal
            <= 0x4000_0000_0000_0000_0000_0000_0000_0000 - n * 0x8000_0000_0000_0000,
        n < 0x4000_0000_0000_0000,
    ensures
        match found {
            Some(ops) => fits_between(ops@, n as int, allow_concat) && value(
                items@,
                ops@,
                n as int,
            ) == goal,
            None => !solvable(goal as int, items@, n as int, allow_concat),
        },
    decreases n,
{
    let curr = items[n - 1];
    if n == 1 {
        if goal == curr as i128 {
            let ops: Vec<Op> = Vec::new();
            return Some(ops);
        }
        return None;
    }
    let ghost rest_n = n as int - 1;
    if let Some(mut ops) = find_ops(goal - curr as i128, items, n - 1, allow_concat) {
        let ghost shorter = ops@;
        ops.push(Op::Add);
        proof {
            lemma_value_prefix(items@, ops@, shorter, rest_n);
        }
        return Some(ops);
    }
    let by_mul = exact_quotient(goal, curr as i128);
    if let Some(quotient) = by_mul {
        proof {
            assert(-0x4000_0000_0000_0000_0000_0000_0000_0000 + (n - 1) * 0x8000_0000_0000_0000
                <= quotient <= 0x4000_0000_0000_0000_0000_0000_0000_0000 - (n - 1)
                * 0x8000_0000_0000_0000) by (nonlinear_arith)
                requires
                    quotient * curr == goal,
                    curr != 0,
                    -0x4000_0000_0000_0000_0000_0000_0000_0000 + n * 0x8000_0000_0000_0000 <= goal
                        <= 0x4000_0000_0000_0000_0000_0000_0000_0000 - n * 0x8000_0000_0000_0000,
                    n >= 1,
            ;
        }
        if let Some(mut ops) = find_ops(quotient, items, n - 1, allow_concat) {
            let ghost shorter = ops@;
            ops.push(Op::Mul);
            proof {
                lemma_value_prefix(items@, ops@, shorter, rest_n);
            }
            return Some(ops);
        }
    }
    let mut by_cat: Option<i128> = None;
    if allow_concat {
        let new_goal = goal - curr as i128;
        let tens = shift_of(curr);
        by_cat = exact_quotient(new_goal, tens);
        if let Some(quotient) = by_cat {
            proof {
                assert(-0x4000_0000_0000_0000_0000_0000_0000_0000 + (n - 1)
                    * 0x8000_0000_0000_0000 <= quotient
                    <= 0x4000_0000_0000_0000_0000_0000_0000_0000 - (n - 1)
                    * 0x8000_0000_0000_0000) by (nonlinear_arith)
                    requires
                        quotient * tens == new_goal,
                        tens >= 1,
                        -0x4000_0000_0000_0000_0000_0000_0000_0000 + (n - 1)
                            * 0x8000_0000_0000_0000 <= new_goal
                            <= 0x4000_0000_0000_0000_0000_0000_0000_0000 - (n - 1)
                            * 0x8000_0000_0000_0000,
                ;
            }
            if let Some(mut ops) = find_ops(quotient, items, n - 1, allow_concat) {
                let ghost shorter = ops@;
                ops.push(Op::Cat);
                proof {
                    lemma_value_prefix(items@, ops@, shorter, rest_n);
                }
                return Some(ops);
            }
        }
    }
    proof {
        assert forall|ops: Seq<Op>| #[trigger]
            fits_between(ops, n as int, allow_concat) implies value(items@, ops, n as int)
            != goal by {
            if value(items@, ops, n as int) == goal {
                let shorter = ops.drop_last();
                let left = value(items@, ops, rest_n);
                lemma_value_prefix(items@, ops, shorter, rest_n);
                assert(fits_between(shorter, rest_n, allow_concat)) by {
                    assert forall|i: int|
                        0 <= i < shorter.len() && #[trigger] shorter[i] == Op::Cat implies allow_concat by {
                        assert(shorter[i] == ops[i]);
                    }
                }
                let op = ops[n - 2];
                if op == Op::Add {
                    assert(solvable(goal - curr, items@, rest_n, allow_concat));
                } else if op == Op::Mul {
                    assert(left * curr == goal);
                    assert(by_mul.is_some());
                    crate::day13::lemma_cancel(left, by_mul.unwrap() as int, curr as int);
                    assert(solvable(by_mul.unwrap() as int, items@, rest_n, allow_concat));
                } else {
                    let tens = pow10(digit_count(curr as nat));
                    assert(left * tens == goal - curr);
                    assert(by_cat.is_some());
                    crate::day13::lemma_cancel(left, by_cat.unwrap() as int, tens as int);
                    assert(solvable(by_cat.unwrap() as int, items@, rest_n, allow_concat));
                }
            }
        }
    }
    None
}

/// Writes the numbers with the operators between them.
fn render(items: &[i64], ops: &Vec<Op>) -> (text: String)
    requires
        ops@.len() + 1 == items@.len(),
    ensures
        text@ == shown(items@, ops@, items@.len() as int),
{
    let mut text = String::new();
    push_int(&mut text, items[0]);
    let mut i: usize = 1;
    proof {
        assert(text@ =~= shown(items@, ops@, 1));
    }
    while i < items.len()
        invariant
            ops@.len() + 1 == items@.len(),
            1 <= i <= items@.len(),
            text@ == shown(items@, ops@, i as int),
        decreases items@.len() - i,
    {
        let ghost had = text@;
        string_push(&mut text, ' ');
        match ops[i - 1] {
            Op::Add => string_push(&mut text, '+'),
            Op::Mul => string_push(&mut text, '*'),
            Op::Cat => {
                string_push(&mut text, '|');
                string_push(&mut text, '|');
            },
        }
        string_push(&mut text, ' ');
        proof {
            assert(text@ =~= had + op_text(ops@[i - 1]));
        }
        push_int(&mut text, items[i]);
        i += 1;
    }
    text
}

/// Looks for operators that make the numbers equal to `goal`: `+` and `*`,
/// and `||` if `allow_concat` is set. The result is the equation found,
/// written out, or `None` when there is none.
pub fn is_solvable(goal: i64, items: &[i64], allow_concat: bool) -> (equation: Option<String>)
    requires
        1 <= items@.len() < 0x4000_0000_0000_0000,
        usable(items@, allow_concat),
    ensures
        match equation {
            Some(text) => exists|ops: Seq<Op>| #[trigger]
                fits_between(ops, items@.len() as int, allow_concat) && value(
                    items@,
                    ops,
                    items@.len() as int,
                ) == goal && text@ == shown(items@, ops, items@.len() as int),
            None => !solvable(goal as int, items@, items@.len() as int, allow_concat),
        },
{
    let n = items.len();
    proof {
        assert(n * 0x8000_0000_0000_0000 <= 0x2000_0000_0000_0000_0000_0000_0000_0000)
            by (nonlinear_arith)
            requires
                n < 0x4000_0000_0000_0000,
        ;
    }
    match find_ops(goal as i128, items, n, allow_concat) {
        Some(ops) => {
            let text = render(items, &ops);
            proof {
                assert(fits_between(ops@, n as int, allow_concat) && value(items@, ops@, n as int)
                    == goal && text@ == shown(items@, ops@, n as int));
            }
            Some(text)
        },
        None => None,
    }
}

/// Whether `text` writes an equation: a goal and one number or more, all
/// of them numbers that fit.
pub open spec fn is_equation(text: Seq<u8>) -> bool {
    numbers_fit(text) && numbers_in(text).len() >= 2
}

/// Whether `equation` is the equation that `text` writes: the first number
/// is the goal, the others are the numbers to join.
pub open spec fn equation_of(text: Seq<u8>, equation: Equation) -> bool {
    &&& is_equation(text)
    &&& equation.goal == numbers_in(text)[0]
    &&& equation.items@.len() == numbers_in(text).len() - 1
    &&& forall|i: int|
        0 <= i < equation.items@.len() ==> #[trigger] equation.items@[i] == numbers_in(text)[i + 1]
}

/// Whether the first `n` equations are those that the first `n` lines
/// write.
pub open spec fn equations_of(rows: Seq<Seq<u8>>, equations: Seq<Equation>, n: int) -> bool {
    forall|i: int| 0 <= i < n ==> equation_of(#[trigger] rows[i], equations[i])
}

/// Reads one equation from each line.
pub fn parse(input: &str) -> (parsed: Option<Input>)
    ensures
        match parsed {
            Some(list) => list.equations@.len() == lines(input.spec_bytes()).len() && equations_of(
                lines(input.spec_bytes()),
                list.equations@,
                list.equations@.len() as int,
            ),
            None => exists|i: int|
                0 <= i < lines(input.spec_bytes()).len() && !is_equation(
                    #[trigger] lines(input.spec_bytes())[i],
                ),
        },
{
    let ghost text = input.spec_bytes();
    let rows = split_lines(input.as_bytes());
    let mut equations: Vec<Equation> = Vec::new();
    let mut i: usize = 0;
    while i < rows.len()
        invariant
            text == input.spec_bytes(),
            views(rows@) == lines(text),
            i <= rows@.len(),
            equations@.len() == i,
            equations_of(lines(text), equations@, i as int),
        decreases rows@.len() - i,
    {
        proof {
            assert(views(rows@)[i as int] == rows@[i as int]@);
            assert(views(rows@).len() == rows@.len());
        }
        let ghost line = lines(text)[i as int];
        let ghost had = equations@;
        let numbers = match scan_numbers(rows[i].as_slice()) {
            Some(numbers) => numbers,
            None => {
                proof {
                    assert(0 <= i < lines(text).len() && !is_equation(lines(text)[i as int]));
                }
                return None;
            },
        };
        if numbers.len() < 2 {
            proof {
                assert(0 <= i < lines(text).len() && !is_equation(lines(text)[i as int]));
            }
            return None;
        }
        let mut items: Vec<i64> = Vec::new();
        let mut k: usize = 1;
        while k < numbers.len()
            invariant
                1 <= k <= numbers@.len(),
                items@.len() == k - 1,
                forall|j: int| 0 <= j < items@.len() ==> #[trigger] items@[j] == numbers@[j + 1],
            decreases numbers@.len() - k,
        {
            items.push(numbers[k]);
            k += 1;
        }
        let equation = Equation { goal: numbers[0], items };
        proof {
            assert forall|j: int| 0 <= j < equation.items@.len() implies #[trigger] equation.items@[j]
                == numbers_in(line)[j + 1] by {
                assert(numbers@[j + 1] == numbers_in(line)[j + 1]);
            }
            assert(equation_of(line, equation));
        }
        equations.push(equation);
        proof {
            assert forall|j: int| 0 <= j < i + 1 implies equation_of(
                #[trigger] lines(text)[j],
                equations@[j],
            ) by {
                if j < i {
                    assert(equations@[j] == had[j]);
                }
            }
        }
        i += 1;
    }
    proof {
        assert(views(rows@).len() == rows@.len());
    }
    Some(Input { equations })
}

/// The sum of the goals of those of the first `n` equations that can be
/// made true.
pub open spec fn solved_sum(equations: Seq<Equation>, n: int, allow_concat: bool) -> int
    decreases n,
{
    if n <= 0 {
        0
    } else {
        let e = equations[n - 1];
        solved_sum(equations, n - 1, allow_concat) + if solvable(
            e.goal as int,
            e.items@,
            e.items@.len() as int,
            allow_concat,
        ) {
            e.goal as int
        } else {
            0
        }
    }
}

/// Whether every equation has numbers that can stand in an equation.
pub open spec fn all_usable(equations: Seq<Equation>, allow_concat: bool) -> bool {
    forall|i: int|
        0 <= i < equations.len() ==> 1 <= (#[trigger] equations[i]).items@.len()
            < 0x4000_0000_0000_0000 && usable(equations[i].items@, allow_concat)
}

/// Whether the sum fits when the goals of the equations that can be made
/// true are added up one after the other.
pub open spec fn sums_fit(equations: Seq<Equation>, allow_concat: bool) -> bool {
    forall|n: int|
        0 <= n <= equations.len() ==> i64::MIN <= #[trigger] solved_sum(
            equations,
            n,
            allow_concat,
        ) <= i64::MAX
}

/// The sum of the goals of the equations that can be made true, or `None`
/// when a sum on the way does not fit.
pub fn sum_solvable(input: &Input, allow_concat: bool) -> (total: Option<i64>)
    requires
        all_usable(input.equations@, allow_concat),
    ensures
        match total {
            Some(sum) => sums_fit(input.equations@, allow_concat) && sum == solved_sum(
                input.equations@,
                input.equations@.len() as int,
                allow_concat,
            ),
            None => !sums_fit(input.equations@, allow_concat),
        },
{
    let mut total: i64 = 0;
    let mut i: usize = 0;
    while i < input.equations.len()
        invariant
            all_usable(input.equations@, allow_concat),
            i <= input.equations@.len(),
            total == solved_sum(input.equations@, i as int, allow_concat),
            forall|n: int|
                0 <= n <= i ==> i64::MIN <= #[trigger] solved_sum(
                    input.equations@,
                    n,
                    allow_concat,
                ) <= i64::MAX,
        decreases input.equations@.len() - i,
    {
        let e = &input.equations[i];
        if is_solvable(e.goal, e.items.as_slice(), allow_concat).is_some() {
            total = match total.checked_add(e.goal) {
                Some(sum) => sum,
                None => {
                    proof {
                        let next = solved_sum(input.equations@, i + 1, allow_concat);
                        assert(next < i64::MIN || next > i64::MAX);
                    }
                    return None;
                },
            };
        }
        i += 1;
    }
    Some(total)
}

/// The sum of the goals of the equations that `+` and `*` can make true.
pub fn q1(input: &Input) -> (total: Option<i64>)
    requires
        all_usable(input.equations@, false),
    ensures
        match total {
            Some(sum) => sums_fit(input.equations@, false) && sum == solved_sum(
                input.equations@,
                input.equations@.len() as int,
                false,
            ),
            None => !sums_fit(input.equations@, false),
        },
{
    sum_solvable(input, false)
}

/// The sum of the goals of the equations that `+`, `*` and `||` can make
/// true.
pub fn q2(input: &Input) -> (total: Option<i64>)
    requires
        all_usable(input.equations@, true),
    ensures
        match total {
            Some(sum) => sums_fit(input.equations@, true) && sum == solved_sum(
                input.equations@,
                input.equations@.len() as int,
                true,
            ),
            None => !sums_fit(input.equations@, true),
        },
{
    sum_solvable(input, true)
}

} // verus!
