//! Robots that walk in straight lines over a floor whose edges wrap around.
use crate::point::Point;
use crate::scan::{lines, numbers_fit, numbers_in, scan_numbers, split_lines, views};
use vstd::prelude::*;
use vstd::string::StringSliceAdditionalSpecFns;

verus! {

/// A robot: where it stands and how far it moves each second.
#[derive(Debug, Clone, Copy, PartialEq, Eq, Structural)]
pub struct Robot {
    pub position: Point,
    pub velocity: Point,
}

/// One of the four quarters of the floor.
#[derive(Debug, Clone, Copy, PartialEq, Eq, Structural)]
pub enum Quadrant {
    Tl,
    Tr,
    Bl,
    Br,
}

/// The place on a line of length `size` that is `v` steps from its start,
/// when the line wraps around at both ends.
pub open spec fn wrapped(v: int, size: int) -> int {
    v % size
}

/// The place `v` steps from the start of a line of length `size` that wraps
/// around at both ends.
pub fn wrap(v: isize, size: usize) -> (place: isize)
    requires
        0 < size <= isize::MAX,
    ensures
        place == wrapped(v as int, size as int),
        0 <= place < size,
{
    if v >= 0 {
        proof {
            vstd::arithmetic::div_mod::lemma_mod_bound(v as int, size as int);
        }
        ((v as usize) % size) as isize
    } else {
        let back = (-(v + 1)) as usize;
        let r = back % size;
        proof {
            let q = (back / size) as int;
            vstd::arithmetic::div_mod::lemma_fundamental_div_mod(back as int, size as int);
            vstd::arithmetic::div_mod::lemma_mod_bound(back as int, size as int);
            assert(v == size * (-q - 1) + (size - 1 - r)) by (nonlinear_arith)
                requires
                    back == size * q + r,
                    v == -back - 1,
            ;
            vstd::arithmetic::div_mod::lemma_fundamental_div_mod_converse(
                v as int,
                size as int,
                -q - 1,
                size - 1 - r,
            );
        }
        (size - 1 - r) as isize
    }
}

impl Robot {
    /// Where the robot stands after `seconds` seconds on a floor of the
    /// given size.
    pub open spec fn place_after(self, width: int, height: int, seconds: int) -> (int, int) {
        (
            wrapped(self.position.x + seconds * self.velocity.x, width),
            wrapped(self.position.y + seconds * self.velocity.y, height),
        )
    }

    /// Whether the robot can take a step without a coordinate running over.
    pub open spec fn can_step(self) -> bool {
        &&& isize::MIN <= self.position.x + self.velocity.x <= isize::MAX
        &&& isize::MIN <= self.position.y + self.velocity.y <= isize::MAX
    }

    /// The quarter of the floor in which the point `(x, y)` lies, if it lies
    /// in one: the middle column and the middle row belong to none.
    pub open spec fn spec_quadrant(x: int, y: int, width: int, height: int) -> Option<Quadrant> {
        let mw = width / 2;
        let mh = height / 2;
        if x > mw && y < mh {
            Some(Quadrant::Tr)
        } else if x > mw && y > mh {
            Some(Quadrant::Br)
        } else if x < mw && y < mh {
            Some(Quadrant::Tl)
        } else if x < mw && y > mh {
            Some(Quadrant::Bl)
        } else {
            None
        }
    }

    /// Reads a robot from its four numbers: position, then velocity, each as
    /// x and y. The result is `None` when the text holds other than four
    /// numbers, or one that does not fit.
    pub fn parse(s: &[u8]) -> (parsed: Option<Robot>)
        ensures
            match parsed {
                Some(robot) => is_robot(s@) && robot == robot_of(s@),
                None => !is_robot(s@),
            },
    {
        let numbers = match scan_numbers(s) {
            Some(numbers) => numbers,
            None => {
                return None;
            },
        };
        if numbers.len() != 4 {
            return None;
        }
        let mut values: [isize; 4] = [0, 0, 0, 0];
        let mut k: usize = 0;
        while k < 4
            invariant
                numbers@.len() == 4,
                numbers_in(s@).len() == 4,
                forall|j: int| 0 <= j < 4 ==> #[trigger] numbers@[j] == numbers_in(s@)[j],
                k <= 4,
                forall|j: int| 0 <= j < k ==> #[trigger] values@[j] == numbers_in(s@)[j],
            decreases 4 - k,
        {
            let number = numbers[k];
            if number < isize::MIN as i64 || number > isize::MAX as i64 {
                proof {
                    assert(numbers@[k as int] == numbers_in(s@)[k as int]);
                }
                return None;
            }
            values[k] = number as isize;
            k += 1;
        }
        Some(
            Robot {
                position: Point { x: values[0], y: values[1] },
                velocity: Point { x: values[2], y: values[3] },
            },
        )
    }

    /// Moves the robot by its velocity, wrapping around the edges of the
    /// floor.
    pub fn step(&mut self, width: usize, height: usize)
        requires
            0 < width <= isize::MAX,
            0 < height <= isize::MAX,
            old(self).can_step(),
        ensures
            final(self).velocity == old(self).velocity,
            final(self).position.x == wrapped(
                old(self).position.x + old(self).velocity.x,
                width as int,
            ),
            final(self).position.y == wrapped(
                old(self).position.y + old(self).velocity.y,
                height as int,
            ),
    {
        let x = wrap(self.position.x + self.velocity.x, width);
        let y = wrap(self.position.y + self.velocity.y, height);
        self.position = Point { x, y };
    }

    /// The quarter of a floor of the given size in which the robot stands, if it
    /// stands in one.
    pub fn quadrant(self, width: usize, height: usize) -> (quarter: Option<Quadrant>)
        requires
            width <= isize::MAX,
            height <= isize::MAX,
        ensures
            quarter == Robot::spec_quadrant(
                self.position.x as int,
                self.position.y as int,
                width as int,
                height as int,
            ),
    {
        let mw = (width as isize) / 2;
        let mh = (height as isize) / 2;
        let Point { x, y } = self.position;
        if x > mw && y < mh {
            Some(Quadrant::Tr)
        } else if x > mw && y > mh {
            Some(Quadrant::Br)
        } else if x < mw && y < mh {
            Some(Quadrant::Tl)
        } else if x < mw && y > mh {
            Some(Quadrant::Bl)
        } else {
            None
        }
    }
}

/// Whether `text` describes a robot: four numbers that fit.
pub open spec fn is_robot(text: Seq<u8>) -> bool {
    &&& numbers_fit(text)
    &&& numbers_in(text).len() == 4
    &&& forall|i: int| 0 <= i < 4 ==> isize::MIN <= #[trigger] numbers_in(text)[i] <= isize::MAX
}

/// The robot that `text` describes.
pub open spec fn robot_of(text: Seq<u8>) -> Robot {
    Robot {
        position: Point { x: numbers_in(text)[0] as isize, y: numbers_in(text)[1] as isize },
        velocity: Point { x: numbers_in(text)[2] as isize, y: numbers_in(text)[3] as isize },
    }
}

/// Whether the first `n` robots are those that the first `n` lines
/// describe.
pub open spec fn robots_of(robots: Seq<Robot>, rows: Seq<Seq<u8>>, n: int) -> bool {
    forall|i: int| 0 <= i < n ==> is_robot(#[trigger] rows[i]) && robots[i] == robot_of(rows[i])
}

/// Reads one robot from each line.
pub fn parse(input: &str) -> (parsed: Option<Vec<Robot>>)
    ensures
        match parsed {
            Some(robots) => {
                &&& robots@.len() == lines(input.spec_bytes()).len()
                &&& robots_of(robots@, lines(input.spec_bytes()), robots@.len() as int)
            },
            None => exists|i: int|
                0 <= i < lines(input.spec_bytes()).len() && !is_robot(
                    #[trigger] lines(input.spec_bytes())[i],
                ),
        },
{
    let ghost text = input.spec_bytes();
    let rows = split_lines(input.as_bytes());
    let mut robots: Vec<Robot> = Vec::new();
    let mut i: usize = 0;
    while i < rows.len()
        invariant
            text == input.spec_bytes(),
            views(rows@) == lines(text),
            i <= rows@.len(),
            robots@.len() == i,
            robots_of(robots@, lines(text), i as int),
        decreases rows@.len() - i,
    {
        proof {
            assert(views(rows@)[i as int] == rows@[i as int]@);
            assert(views(rows@).len() == rows@.len());
        }
        let ghost line = lines(text)[i as int];
        let ghost had = robots@;
        assert(rows@[i as int]@ == line);
        let robot = match Robot::parse(rows[i].as_slice()) {
            Some(robot) => robot,
            None => {
                proof {
                    assert(0 <= i < lines(text).len() && !is_robot(lines(text)[i as int]));
                }
                return None;
            },
        };
        robots.push(robot);
        proof {
            assert forall|j: int| 0 <= j < i + 1 implies is_robot(#[trigger] lines(text)[j])
                && robots@[j] == robot_of(lines(text)[j]) by {
                if j < i {
                    assert(robots@[j] == had[j]);
                }
            }
        }
        i += 1;
    }
    proof {
        assert(views(rows@).len() == rows@.len());
    }
    Some(robots)
}

/// Whether the robot can walk over a floor of the given size without a
/// coordinate running over.
pub open spec fn can_walk(robot: Robot, width: int, height: int) -> bool {
    &&& robot.can_step()
    &&& isize::MIN <= robot.velocity.x && robot.velocity.x + width <= isize::MAX
    &&& isize::MIN <= robot.velocity.y && robot.velocity.y + height <= isize::MAX
}

/// How many of the first `n` robots stand in the quarter `quarter` after
/// `seconds` seconds.
pub open spec fn in_quadrant(
    robots: Seq<Robot>,
    n: int,
    width: int,
    height: int,
    seconds: int,
    quarter: Quadrant,
) -> nat
    decreases n,
{
    if n <= 0 {
        0
    } else {
        let place = robots[n - 1].place_after(width, height, seconds);
        in_quadrant(robots, n - 1, width, height, seconds, quarter) + if Robot::spec_quadrant(
            place.0,
            place.1,
            width,
            height,
        ) == Some(quarter) {
            1nat
        } else {
            0nat
        }
    }
}

/// The product of the numbers of robots in the four quarters after
/// `seconds` seconds.
pub open spec fn safety_factor(robots: Seq<Robot>, width: int, height: int, seconds: int) -> nat {
    let n = robots.len() as int;
    in_quadrant(robots, n, width, height, seconds, Quadrant::Tl) * in_quadrant(
        robots,
        n,
        width,
        height,
        seconds,
        Quadrant::Tr,
    ) * in_quadrant(robots, n, width, height, seconds, Quadrant::Bl) * in_quadrant(
        robots,
        n,
        width,
        height,
        seconds,
        Quadrant::Br,
    )
}

/// One more step from where the robot stands after `k` seconds leads to
/// where it stands after `k + 1` seconds.
proof fn lemma_step_on(p: int, v: int, size: int, k: int)
    requires
        size > 0,
    ensures
        wrapped(wrapped(p + k * v, size) + v, size) == wrapped(p + (k + 1) * v, size),
{
    vstd::arithmetic::div_mod::lemma_add_mod_noop(p + k * v, v, size);
    vstd::arithmetic::div_mod::lemma_mod_bound(v, size);
    vstd::arithmetic::div_mod::lemma_add_mod_noop(wrapped(p + k * v, size), v, size);
    vstd::arithmetic::div_mod::lemma_mod_twice(p + k * v, size);
    assert(p + k * v + v == p + (k + 1) * v) by (nonlinear_arith);
}

/// Walks one robot for `seconds` seconds.
pub fn walk(robot: Robot, width: usize, height: usize, seconds: usize) -> (moved: Robot)
    requires
        0 < width <= isize::MAX,
        0 < height <= isize::MAX,
        can_walk(robot, width as int, height as int),
    ensures
        moved.velocity == robot.velocity,
        (moved.position.x as int, moved.position.y as int) == (if seconds == 0 {
            (robot.position.x as int, robot.position.y as int)
        } else {
            robot.place_after(width as int, height as int, seconds as int)
        }),
{
    let mut moved = robot;
    let mut k: usize = 0;
    while k < seconds
        invariant
            0 < width <= isize::MAX,
            0 < height <= isize::MAX,
            can_walk(robot, width as int, height as int),
            k <= seconds,
            moved.velocity == robot.velocity,
            k == 0 ==> moved == robot,
            k > 0 ==> (moved.position.x as int, moved.position.y as int) == robot.place_after(
                width as int,
                height as int,
                k as int,
            ),
        decreases seconds - k,
    {
        proof {
            if k > 0 {
                vstd::arithmetic::div_mod::lemma_mod_bound(
                    robot.position.x + k * robot.velocity.x,
                    width as int,
                );
                vstd::arithmetic::div_mod::lemma_mod_bound(
                    robot.position.y + k * robot.velocity.y,
                    height as int,
                );
                lemma_step_on(
                    robot.position.x as int,
                    robot.velocity.x as int,
                    width as int,
                    k as int,
                );
                lemma_step_on(
                    robot.position.y as int,
                    robot.velocity.y as int,
                    height as int,
                    k as int,
                );
            } else {
                assert(0 * robot.velocity.x == 0);
                assert(0 * robot.velocity.y == 0);
                assert(robot.position.x + 1 * robot.velocity.x == robot.position.x
                    + robot.velocity.x);
                assert(robot.position.y + 1 * robot.velocity.y == robot.position.y
                    + robot.velocity.y);
            }
        }
        moved.step(width, height);
        k += 1;
    }
    moved
}

/// The product of the numbers of robots in the four quarters of the floor
/// after `seconds` seconds, or `None` when the product does not fit.
pub fn solve_q1(robots: Vec<Robot>, width: usize, height: usize, seconds: usize) -> (factor:
    Option<usize>)
    requires
        0 < width <= isize::MAX,
        0 < height <= isize::MAX,
        seconds > 0,
        forall|i: int| 0 <= i < robots@.len() ==> can_walk(#[trigger] robots@[i], width as int, height as int),
    ensures
        match factor {
            Some(product) => product == safety_factor(
                robots@,
                width as int,
                height as int,
                seconds as int,
            ),
            None => safety_factor(robots@, width as int, height as int, seconds as int)
                > usize::MAX,
        },
{
    let ghost w = width as int;
    let ghost h = height as int;
    let ghost t = seconds as int;
    let mut tl: usize = 0;
    let mut tr: usize = 0;
    let mut bl: usize = 0;
    let mut br: usize = 0;
    let mut i: usize = 0;
    while i < robots.len()
        invariant
            0 < width <= isize::MAX,
            0 < height <= isize::MAX,
            seconds > 0,
            w == width,
            h == height,
            t == seconds,
            forall|i: int| 0 <= i < robots@.len() ==> can_walk(#[trigger] robots@[i], w, h),
            i <= robots@.len(),
            tl == in_quadrant(robots@, i as int, w, h, t, Quadrant::Tl),
            tr == in_quadrant(robots@, i as int, w, h, t, Quadrant::Tr),
            bl == in_quadrant(robots@, i as int, w, h, t, Quadrant::Bl),
            br == in_quadrant(robots@, i as int, w, h, t, Quadrant::Br),
            tl <= i,
            tr <= i,
            bl <= i,
            br <= i,
        decreases robots@.len() - i,
    {
        let moved = walk(robots[i], width, height, seconds);
        match moved.quadrant(width, height) {
            Some(Quadrant::Tl) => tl += 1,
            Some(Quadrant::Tr) => tr += 1,
            Some(Quadrant::Bl) => bl += 1,
            Some(Quadrant::Br) => br += 1,
            None => {},
        }
        i += 1;
    }
    let first = match tl.checked_mul(tr) {
        Some(product) => product,
        None => {
            proof {
                lemma_product_grows(tl as int * tr as int, bl as int, br as int);
            }
            return (if bl == 0 || br == 0 {
                Some(0)
            } else {
                None
            });
        },
    };
    let second = match first.checked_mul(bl) {
        Some(product) => product,
        None => {
            proof {
                lemma_product_grows(first as int * bl as int, br as int, 1);
            }
            return (if br == 0 {
                Some(0)
            } else {
                None
            });
        },
    };
    second.checked_mul(br)
}

/// A product with factors that are not zero is no smaller than its first
/// factor.
proof fn lemma_product_grows(a: int, b: int, c: int)
    requires
        0 <= a,
        0 <= b,
        0 <= c,
    ensures
        b > 0 && c > 0 ==> a * b * c >= a,
        b == 0 || c == 0 ==> a * b * c == 0,
{
    assert(b > 0 && c > 0 ==> a * b * c >= a) by (nonlinear_arith)
        requires
            0 <= a,
            0 <= b,
            0 <= c,
    ;
    assert(b == 0 || c == 0 ==> a * b * c == 0) by (nonlinear_arith);
}

/// The safety factor after a hundred seconds on a floor 101 wide and 103
/// high.
pub fn q1(robots: &Vec<Robot>) -> (factor: Option<usize>)
    requires
        forall|i: int| 0 <= i < robots@.len() ==> can_walk(#[trigger] robots@[i], 101, 103),
    ensures
        match factor {
            Some(product) => product == safety_factor(robots@, 101, 103, 100),
            None => safety_factor(robots@, 101, 103, 100) > usize::MAX,
        },
{
    let seconds: usize = 100;
    let width: usize = 101;
    let height: usize = 103;
    let copy = robots.clone();
    assert(copy@ =~= robots@);
    solve_q1(copy, width, height, seconds)
}

} // verus!
