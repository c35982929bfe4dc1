//! Claw machines: button A moves the claw by one vector and costs three
//! tokens, button B moves it by another and costs one. The prize is won when
//! the claw is right above it.
use crate::arith::exact_quotient;
use crate::point::Point;
use crate::scan::{numbers_fit, numbers_in, scan_numbers};
use vstd::prelude::*;
use vstd::string::StringSliceAdditionalSpecFns;

verus! {

/// The tokens that one press of button A costs.
pub const COST_A: usize = 3;

/// The tokens that one press of button B costs.
pub const COST_B: usize = 1;

/// The greatest move of a button, along either axis and either way, for
/// which the cost is worked out.
pub const MAX_MOVE: isize = 1048576;

/// A claw machine: how far each button moves the claw, and where the prize lies.
#[derive(Clone, Copy, Debug, PartialEq, Eq, Structural)]
pub struct Machine {
    /// How far the claw moves when pressing A.
    pub a: Point,
    /// How far the claw moves when pressing B.
    pub b: Point,
    /// Location of the prize.
    pub prize: Point,
}

impl Machine {
    /// Whether pressing A `pa` times and B `pb` times puts the claw above
    /// the prize, when the prize lies `add` further along both axes.
    pub open spec fn wins(&self, add: int, pa: int, pb: int) -> bool {
        &&& pa * self.a.x + pb * self.b.x == self.prize.x + add
        &&& pa * self.a.y + pb * self.b.y == self.prize.y + add
    }

    /// The two buttons move the claw along different lines, button B moves
    /// it along the x axis, and no button moves it too far.
    pub open spec fn regular(&self) -> bool {
        &&& self.a.y * self.b.x - self.a.x * self.b.y != 0
        &&& self.b.x != 0
        &&& -MAX_MOVE <= self.a.x <= MAX_MOVE
        &&& -MAX_MOVE <= self.a.y <= MAX_MOVE
        &&& -MAX_MOVE <= self.b.x <= MAX_MOVE
        &&& -MAX_MOVE <= self.b.y <= MAX_MOVE
    }

    /// Returns the cheapest way to win. Or None if it's not possible.
    pub fn min_cost_to_win(&self, add_to_prize: isize) -> (cost: Option<usize>)
        requires
            self.regular(),
            isize::MIN <= self.prize.x + add_to_prize <= isize::MAX,
            isize::MIN <= self.prize.y + add_to_prize <= isize::MAX,
        ensures
            match cost {
                Some(tokens) => exists|pa: int, pb: int|
                    0 <= pa && 0 <= pb && #[trigger] self.wins(add_to_prize as int, pa, pb)
                        && tokens == pa * COST_A + pb * COST_B,
                None => forall|pa: int, pb: int|
                    0 <= pa && 0 <= pb && #[trigger] self.wins(add_to_prize as int, pa, pb) ==> pa
                        * COST_A + pb * COST_B > usize::MAX,
            },
    {
        // R = location of prize
        let rx = (self.prize.x + add_to_prize) as i128;
        let ry = (self.prize.y + add_to_prize) as i128;
        let ax = self.a.x as i128;
        let ay = self.a.y as i128;
        let bx = self.b.x as i128;
        let by = self.b.y as i128;
        proof {
            lemma_product_bound(bx as int, ry as int, 0x8000_0000_0000_0000);
            lemma_product_bound(by as int, rx as int, 0x8000_0000_0000_0000);
            lemma_product_bound(ay as int, bx as int, 0x8000_0000_0000_0000);
            lemma_product_bound(ax as int, by as int, 0x8000_0000_0000_0000);
        }
        let top = bx * ry - by * rx;
        let bot = ay * bx - ax * by;
        proof {
            assert forall|pa: int, pb: int| #[trigger]
                self.wins(add_to_prize as int, pa, pb) implies pa * bot == top && pb * bx == rx
                - pa * ax by {
                lemma_unique(
                    ax as int,
                    ay as int,
                    bx as int,
                    by as int,
                    rx as int,
                    ry as int,
                    pa,
                    pb,
                );
            }
        }
        let pa = match exact_quotient(top, bot) {
            Some(pa) => pa,
            None => {
                return None;
            },
        };
        proof {
            lemma_factor_bound(pa as int, bot as int, top as int);
            lemma_product_bound(ax as int, pa as int, 0x20_0000_0000_0000_0000_0000);
            assert forall|qa: int, qb: int| #[trigger]
                self.wins(add_to_prize as int, qa, qb) implies qa == pa by {
                lemma_cancel(qa, pa as int, bot as int);
            }
        }
        let rest = rx - pa * ax;
        let pb = match exact_quotient(rest, bx) {
            Some(pb) => pb,
            None => {
                return None;
            },
        };
        proof {
            lemma_factor_bound(pb as int, bx as int, rest as int);
            assert forall|qa: int, qb: int| #[trigger]
                self.wins(add_to_prize as int, qa, qb) implies qa == pa && qb == pb by {
                lemma_cancel(qb, pb as int, bx as int);
            }
            lemma_solution(
                ax as int,
                ay as int,
                bx as int,
                by as int,
                rx as int,
                ry as int,
                pa as int,
                pb as int,
            );
            assert(self.wins(add_to_prize as int, pa as int, pb as int));
        }
        if pa < 0 || pb < 0 {
            return None;
        }
        let tokens = pa * 3 + pb;
        if tokens > usize::MAX as i128 {
            return None;
        }
        Some(tokens as usize)
    }
}

/// A factor of a number is no larger than the number.
proof fn lemma_factor_bound(q: int, bot: int, top: int)
    requires
        bot != 0,
        q * bot == top,
    ensures
        top >= 0 ==> -top <= q <= top,
        top < 0 ==> top <= q <= -top,
{
    assert(top >= 0 ==> -top <= q <= top) by (nonlinear_arith)
        requires
            q * bot == top,
            bot != 0,
    ;
    assert(top < 0 ==> top <= q <= -top) by (nonlinear_arith)
        requires
            q * bot == top,
            bot != 0,
    ;
}

/// Two numbers with the same product with a third that is not zero are the
/// same.
pub proof fn lemma_cancel(a: int, b: int, c: int)
    requires
        c != 0,
        a * c == b * c,
    ensures
        a == b,
{
    assert(a == b) by (nonlinear_arith)
        requires
            c != 0,
            a * c == b * c,
    ;
}

/// A product of a move and a number of bounded size is of bounded size.
proof fn lemma_product_bound(a: int, b: int, m: int)
    requires
        -MAX_MOVE <= a <= MAX_MOVE,
        -m <= b <= m,
    ensures
        -1048576 * m <= a * b <= 1048576 * m,
        a * b == b * a,
{
    assert(-1048576 * m <= a * b <= 1048576 * m) by (nonlinear_arith)
        requires
            -1048576 <= a <= 1048576,
            -m <= b <= m,
    ;
    assert(a * b == b * a) by (nonlinear_arith);
}

/// What the numbers of presses of a winning way must be.
proof fn lemma_unique(ax: int, ay: int, bx: int, by: int, rx: int, ry: int, pa: int, pb: int)
    requires
        pa * ax + pb * bx == rx,
        pa * ay + pb * by == ry,
    ensures
        pa * (ay * bx - ax * by) == bx * ry - by * rx,
        pb * bx == rx - pa * ax,
{
    assert(pa * (ay * bx - ax * by) == pa * (ay * bx) - pa * (ax * by)) by (nonlinear_arith);
    assert(bx * (pa * ay + pb * by) == bx * (pa * ay) + bx * (pb * by)) by (nonlinear_arith);
    assert(by * (pa * ax + pb * bx) == by * (pa * ax) + by * (pb * bx)) by (nonlinear_arith);
    assert(pa * (ay * bx) == bx * (pa * ay)) by (nonlinear_arith);
    assert(pa * (ax * by) == by * (pa * ax)) by (nonlinear_arith);
    assert(bx * (pb * by) == by * (pb * bx)) by (nonlinear_arith);
}

/// Numbers of presses worked out from the two quotients win.
proof fn lemma_solution(ax: int, ay: int, bx: int, by: int, rx: int, ry: int, pa: int, pb: int)
    requires
        bx != 0,
        pa * (ay * bx - ax * by) == bx * ry - by * rx,
        pb * bx == rx - pa * ax,
    ensures
        pa * ax + pb * bx == rx,
        pa * ay + pb * by == ry,
{
    assert(pa * (ay * bx - ax * by) == pa * (ay * bx) - pa * (ax * by)) by (nonlinear_arith);
    assert(bx * (pa * ay + pb * by) == bx * (pa * ay) + bx * (pb * by)) by (nonlinear_arith);
    assert(pa * (ay * bx) == bx * (pa * ay)) by (nonlinear_arith);
    assert(pa * (ax * by) == by * (pa * ax)) by (nonlinear_arith);
    assert(bx * (pb * by) == by * (pb * bx)) by (nonlinear_arith);
    assert(by * (pb * bx) == by * (rx - pa * ax));
    assert(by * (rx - pa * ax) == by * rx - by * (pa * ax)) by (nonlinear_arith);
    assert(bx * (pa * ay + pb * by) == bx * ry);
    assert(pa * ay + pb * by == ry) by (nonlinear_arith)
        requires
            bx * (pa * ay + pb * by) == bx * ry,
            bx != 0,
    ;
}

/// The sum of the costs of the first `n` machines that can be won, with the
/// prizes `add` further along both axes.
pub open spec fn cheapest(machines: Seq<Machine>, add: int, n: int) -> nat
    decreases n,
{
    if n <= 0 {
        0
    } else {
        cheapest(machines, add, n - 1) + cost_of(machines[n - 1], add)
    }
}

/// What it costs to win the prize of `machine`, and zero if it cannot be won
/// at a cost that fits.
pub open spec fn cost_of(machine: Machine, add: int) -> nat {
    if exists|pa: int, pb: int|
        0 <= pa && 0 <= pb && #[trigger] machine.wins(add, pa, pb) && pa * COST_A + pb * COST_B
            <= usize::MAX {
        let (pa, pb) = choose|pa: int, pb: int|
            0 <= pa && 0 <= pb && #[trigger] machine.wins(add, pa, pb) && pa * COST_A + pb * COST_B
                <= usize::MAX;
        (pa * COST_A + pb * COST_B) as nat
    } else {
        0
    }
}

/// The sum of the costs of the machines that can be won, or `None` when the
/// sum does not fit.
pub fn total_cost(input: &Vec<Machine>, add_to_prize: isize) -> (total: Option<usize>)
    requires
        forall|i: int|
            0 <= i < input@.len() ==> {
                &&& (#[trigger] input@[i]).regular()
                &&& isize::MIN <= input@[i].prize.x + add_to_prize <= isize::MAX
                &&& isize::MIN <= input@[i].prize.y + add_to_prize <= isize::MAX
            },
    ensures
        match total {
            Some(sum) => sum == cheapest(input@, add_to_prize as int, input@.len() as int),
            None => cheapest(input@, add_to_prize as int, input@.len() as int) > usize::MAX,
        },
{
    let mut total: usize = 0;
    let mut i: usize = 0;
    while i < input.len()
        invariant
            i <= input@.len(),
            total == cheapest(input@, add_to_prize as int, i as int),
            forall|i: int|
                0 <= i < input@.len() ==> {
                    &&& (#[trigger] input@[i]).regular()
                    &&& isize::MIN <= input@[i].prize.x + add_to_prize <= isize::MAX
                    &&& isize::MIN <= input@[i].prize.y + add_to_prize <= isize::MAX
                },
        decreases input@.len() - i,
    {
        let machine = &input[i];
        let cost = match machine.min_cost_to_win(add_to_prize) {
            Some(cost) => cost,
            None => 0,
        };
        proof {
            lemma_cost_of(input@[i as int], add_to_prize as int, cost as int);
        }
        total = match total.checked_add(cost) {
            Some(sum) => sum,
            None => {
                proof {
                    lemma_cheapest_monotonic(
                        input@,
                        add_to_prize as int,
                        i as int + 1,
                        input@.len() as int,
                    );
                }
                return None;
            },
        };
        i += 1;
    }
    Some(total)
}

/// The cost worked out for a machine is its cost.
proof fn lemma_cost_of(machine: Machine, add: int, cost: int)
    requires
        machine.regular(),
        (exists|pa: int, pb: int|
            0 <= pa && 0 <= pb && #[trigger] machine.wins(add, pa, pb) && cost == pa * COST_A + pb
                * COST_B && cost <= usize::MAX) || (cost == 0 && forall|pa: int, pb: int|
            0 <= pa && 0 <= pb && #[trigger] machine.wins(add, pa, pb) ==> pa * COST_A + pb * COST_B
                > usize::MAX),
    ensures
        cost_of(machine, add) == cost,
{
    if exists|pa: int, pb: int|
        0 <= pa && 0 <= pb && #[trigger] machine.wins(add, pa, pb) && pa * COST_A + pb * COST_B
            <= usize::MAX {
        let (pa, pb) = choose|pa: int, pb: int|
            0 <= pa && 0 <= pb && #[trigger] machine.wins(add, pa, pb) && pa * COST_A + pb * COST_B
                <= usize::MAX;
        let (qa, qb) = choose|qa: int, qb: int|
            0 <= qa && 0 <= qb && #[trigger] machine.wins(add, qa, qb) && cost == qa * COST_A + qb
                * COST_B && cost <= usize::MAX;
        let bot = machine.a.y * machine.b.x - machine.a.x * machine.b.y;
        lemma_unique(
            machine.a.x as int,
            machine.a.y as int,
            machine.b.x as int,
            machine.b.y as int,
            machine.prize.x + add,
            machine.prize.y + add,
            pa,
            pb,
        );
        lemma_unique(
            machine.a.x as int,
            machine.a.y as int,
            machine.b.x as int,
            machine.b.y as int,
            machine.prize.x + add,
            machine.prize.y + add,
            qa,
            qb,
        );
        lemma_cancel(pa, qa, bot);
        lemma_cancel(pb, qb, machine.b.x as int);
    }
}

/// The sum of more costs is no smaller.
proof fn lemma_cheapest_monotonic(machines: Seq<Machine>, add: int, a: int, b: int)
    requires
        a <= b,
    ensures
        cheapest(machines, add, a) <= cheapest(machines, add, b),
    decreases b - a,
{
    if a < b {
        lemma_cheapest_monotonic(machines, add, a, b - 1);
    }
}

/// Whether the numbers of `text` describe machines: six for each machine, the
/// moves of its buttons and the place of its prize, and none too large.
pub open spec fn is_machine_list(text: Seq<u8>) -> bool {
    &&& numbers_fit(text)
    &&& numbers_in(text).len() % 6 == 0
    &&& forall|i: int|
        0 <= i < numbers_in(text).len() ==> isize::MIN <= #[trigger] numbers_in(text)[i]
            <= isize::MAX
}

/// Reads the machines: the numbers of the text, six for each machine in the
/// order move of A, move of B, place of the prize, each as x and y.
pub fn parse(input: &str) -> (parsed: Option<Vec<Machine>>)
    ensures
        match parsed {
            Some(machines) => {
                let numbers = numbers_in(input.spec_bytes());
                &&& is_machine_list(input.spec_bytes())
                &&& machines@.len() * 6 == numbers.len()
                &&& forall|i: int|
                    0 <= i < machines@.len() ==> {
                        let m = #[trigger] machines@[i];
                        &&& m.a.x == numbers[6 * i]
                        &&& m.a.y == numbers[6 * i + 1]
                        &&& m.b.x == numbers[6 * i + 2]
                        &&& m.b.y == numbers[6 * i + 3]
                        &&& m.prize.x == numbers[6 * i + 4]
                        &&& m.prize.y == numbers[6 * i + 5]
                    }
            },
            None => !is_machine_list(input.spec_bytes()),
        },
{
    let ghost text = input.spec_bytes();
    let numbers = match scan_numbers(input.as_bytes()) {
        Some(numbers) => numbers,
        None => {
            return None;
        },
    };
    if numbers.len() % 6 != 0 {
        return None;
    }
    let mut machines: Vec<Machine> = Vec::new();
    let mut i: usize = 0;
    while i < numbers.len() / 6
        invariant
            text == input.spec_bytes(),
            numbers_fit(text),
            numbers@.len() == numbers_in(text).len(),
            numbers@.len() % 6 == 0,
            forall|j: int| 0 <= j < numbers@.len() ==> #[trigger] numbers@[j] == numbers_in(text)[j],
            i <= numbers@.len() / 6,
            machines@.len() == i,
            forall|j: int|
                0 <= j < 6 * i ==> isize::MIN <= #[trigger] numbers_in(text)[j] <= isize::MAX,
            forall|k: int|
                0 <= k < i ==> {
                    let m = #[trigger] machines@[k];
                    &&& m.a.x == numbers_in(text)[6 * k]
                    &&& m.a.y == numbers_in(text)[6 * k + 1]
                    &&& m.b.x == numbers_in(text)[6 * k + 2]
                    &&& m.b.y == numbers_in(text)[6 * k + 3]
                    &&& m.prize.x == numbers_in(text)[6 * k + 4]
                    &&& m.prize.y == numbers_in(text)[6 * k + 5]
                },
        decreases numbers@.len() / 6 - i,
    {
        assert(6 * (i + 1) <= numbers@.len()) by (nonlinear_arith)
            requires
                i < numbers@.len() / 6,
        ;
        let base = 6 * i;
        let mut values: [isize; 6] = [0, 0, 0, 0, 0, 0];
        let mut k: usize = 0;
        while k < 6
            invariant
                text == input.spec_bytes(),
                numbers@.len() == numbers_in(text).len(),
                forall|j: int|
                    0 <= j < numbers@.len() ==> #[trigger] numbers@[j] == numbers_in(text)[j],
                base == 6 * i,
                base + 6 <= numbers@.len() <= usize::MAX,
                k <= 6,
                forall|j: int| 0 <= j < k ==> #[trigger] values@[j] == numbers_in(text)[base + j],
            decreases 6 - k,
        {
            let number = numbers[base + k];
            if number < isize::MIN as i64 || number > isize::MAX as i64 {
                proof {
                    assert(numbers@[base + k] == numbers_in(text)[base + k]);
                }
                return None;
            }
            values[k] = number as isize;
            k += 1;
        }
        proof {
            assert forall|j: int| 0 <= j < 6 * (i + 1) implies isize::MIN <= #[trigger] numbers_in(
                text,
            )[j] <= isize::MAX by {
                if j >= base {
                    assert(values@[j - base] == numbers_in(text)[base + (j - base)]);
                }
            }
        }
        machines.push(
            Machine {
                a: Point { x: values[0], y: values[1] },
                b: Point { x: values[2], y: values[3] },
                prize: Point { x: values[4], y: values[5] },
            },
        );
        i += 1;
    }
    Some(machines)
}

/// How much farther away the prizes lie than the machines say.
pub const FAR: i64 = 10000000000000;

/// What it costs to win every prize that can be won.
pub fn q1(input: &Vec<Machine>) -> (total: Option<usize>)
    requires
        forall|i: int| 0 <= i < input@.len() ==> (#[trigger] input@[i]).regular(),
    ensures
        match total {
            Some(sum) => sum == cheapest(input@, 0, input@.len() as int),
            None => cheapest(input@, 0, input@.len() as int) > usize::MAX,
        },
{
    total_cost(input, 0)
}

/// What it costs to win every prize that can be won when each prize lies
/// farther away by [`FAR`] in both directions.
pub fn q2(input: &Vec<Machine>) -> (total: Option<usize>)
    requires
        FAR <= isize::MAX,
        forall|i: int|
            0 <= i < input@.len() ==> {
                &&& (#[trigger] input@[i]).regular()
                &&& input@[i].prize.x + FAR <= isize::MAX
                &&& input@[i].prize.y + FAR <= isize::MAX
            },
    ensures
        match total {
            Some(sum) => sum == cheapest(input@, FAR as int, input@.len() as int),
            None => cheapest(input@, FAR as int, input@.len() as int) > usize::MAX,
        },
{
    total_cost(input, FAR as isize)
}

} // verus!
