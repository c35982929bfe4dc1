//! A word search: how often does `XMAS` stand in the grid, in any of the
//! eight directions, and how often do two `MAS` cross?
use crate::grid::{Grid, GridView};
use crate::point::Point;
use crate::text::{grid_of_text, is_text_grid, parse_grid};
use vstd::prelude::*;
use vstd::string::StringSliceAdditionalSpecFns;

verus! {

/// The bytes of `XMAS`.
pub const XMAS: [u8; 4] = [88, 77, 65, 83];

/// The bytes of `SAMX`.
pub const XMAS_BACKWARDS: [u8; 4] = [83, 65, 77, 88];

/// The letter in column `x` of row `y`, if there is one.
pub open spec fn letter(grid: GridView<u8>, x: int, y: int) -> Option<u8> {
    if 0 <= x < grid.width && 0 <= y < grid.height {
        Some(grid.cells[y * grid.width + x])
    } else {
        None
    }
}

/// Whether the four letters of `word` stand in the grid from column `x` of
/// row `y` on, each `dx` columns and `dy` rows from the one before.
pub open spec fn word_at(grid: GridView<u8>, x: int, y: int, dx: int, dy: int, word: Seq<u8>) -> bool {
    forall|k: int| 0 <= k < 4 ==> #[trigger] letter(grid, x + k * dx, y + k * dy) == Some(word[k])
}

/// At how many of the first `n` cells, row by row, `word` starts in the
/// direction `(dx, dy)`.
pub open spec fn hits(grid: GridView<u8>, dx: int, dy: int, word: Seq<u8>, n: int) -> nat
    decreases n,
{
    if n <= 0 {
        0
    } else {
        let i = n - 1;
        hits(grid, dx, dy, word, i) + if word_at(
            grid,
            i % (grid.width as int),
            i / (grid.width as int),
            dx,
            dy,
            word,
        ) {
            1nat
        } else {
            0nat
        }
    }
}

/// How often `word` stands in the grid in the direction `(dx, dy)`.
pub open spec fn occurrences(grid: GridView<u8>, dx: int, dy: int, word: Seq<u8>) -> nat {
    hits(grid, dx, dy, word, grid.area() as int)
}

/// Whether two `MAS` cross at the `A` in column `x` of row `y`.
pub open spec fn cross_at(grid: GridView<u8>, x: int, y: int) -> bool {
    let top_l = letter(grid, x - 1, y - 1);
    let top_r = letter(grid, x + 1, y - 1);
    let bot_l = letter(grid, x - 1, y + 1);
    let bot_r = letter(grid, x + 1, y + 1);
    let m = Some(77u8);
    let s = Some(83u8);
    &&& letter(grid, x, y) == Some(65u8)
    &&& (top_l == m && bot_r == s) || (top_l == s && bot_r == m)
    &&& (top_r == m && bot_l == s) || (top_r == s && bot_l == m)
}

/// At how many of the first `n` cells, row by row, two `MAS` cross.
pub open spec fn crosses(grid: GridView<u8>, n: int) -> nat
    decreases n,
{
    if n <= 0 {
        0
    } else {
        let i = n - 1;
        crosses(grid, i) + if cross_at(grid, i % (grid.width as int), i / (grid.width as int)) {
            1nat
        } else {
            0nat
        }
    }
}

/// The letter at `p`, if `p` lies in the grid.
fn at(grid: &Grid<u8>, p: Point) -> (found: Option<u8>)
    requires
        grid.wf(),
    ensures
        found == letter(grid@, p.x as int, p.y as int),
{
    grid.get_copied(p)
}

/// Whether `word` stands in the grid from `p` on in the direction
/// `(dx, dy)`.
fn has_word(grid: &Grid<u8>, p: Point, dx: isize, dy: isize, word: &[u8; 4]) -> (found: bool)
    requires
        grid.wf(),
        grid@.in_bounds(p),
        -1 <= dx <= 1,
        -1 <= dy <= 1,
    ensures
        found == word_at(grid@, p.x as int, p.y as int, dx as int, dy as int, word@),
{
    let mut cur = p;
    let mut k: usize = 0;
    proof {
        assert(0 * dx == 0 && 0 * dy == 0);
    }
    while k < 4
        invariant
            grid.wf(),
            -1 <= dx <= 1,
            -1 <= dy <= 1,
            k <= 4,
            k < 4 ==> cur.x == p.x + k * dx && cur.y == p.y + k * dy,
            k < 4 ==> -1 <= cur.x <= grid@.width && -1 <= cur.y <= grid@.height,
            grid@.in_bounds(p),
            forall|j: int|
                0 <= j < k ==> #[trigger] letter(grid@, p.x + j * dx, p.y + j * dy) == Some(
                    word@[j],
                ),
        decreases 4 - k,
    {
        if at(grid, cur) != Some(word[k]) {
            proof {
                assert(letter(grid@, p.x + k * dx, p.y + k * dy) != Some(word@[k as int]));
            }
            return false;
        }
        proof {
            assert((k + 1) * dx == k * dx + dx) by (nonlinear_arith);
            assert((k + 1) * dy == k * dy + dy) by (nonlinear_arith);
        }
        if k < 3 {
            cur = Point { x: cur.x + dx, y: cur.y + dy };
        }
        k += 1;
    }
    true
}

/// How often `word` stands in the grid in the direction `(dx, dy)`.
pub fn count_word(grid: &Grid<u8>, dx: isize, dy: isize, word: &[u8; 4]) -> (found: usize)
    requires
        grid.wf(),
        -1 <= dx <= 1,
        -1 <= dy <= 1,
    ensures
        found == occurrences(grid@, dx as int, dy as int, word@),
        found <= grid@.area(),
{
    let area = grid.inner.len();
    let mut found: usize = 0;
    let mut i: usize = 0;
    while i < area
        invariant
            grid.wf(),
            area == grid@.area(),
            -1 <= dx <= 1,
            -1 <= dy <= 1,
            i <= area,
            found == hits(grid@, dx as int, dy as int, word@, i as int),
            found <= i,
        decreases area - i,
    {
        let p = grid.point_of(i);
        proof {
            crate::arith::lemma_index_encode(i as int, grid.width as int, grid.height as int);
        }
        if has_word(grid, p, dx, dy, word) {
            found += 1;
        }
        i += 1;
    }
    found
}

/// How often the word stands in a row, read from left to right: `XMAS`, or
/// `SAMX` if `reverse` is set.
pub fn search_horizontal(grid: &Grid<u8>, reverse: bool) -> (found: usize)
    requires
        grid.wf(),
    ensures
        found == occurrences(grid@, 1, 0, if reverse {
            XMAS_BACKWARDS@
        } else {
            XMAS@
        }),
        found <= grid@.area(),
{
    if reverse {
        count_word(grid, 1, 0, &XMAS_BACKWARDS)
    } else {
        count_word(grid, 1, 0, &XMAS)
    }
}

/// How often the word stands in a column, read from top to bottom.
pub fn search_vertical(grid: &Grid<u8>, reverse: bool) -> (found: usize)
    requires
        grid.wf(),
    ensures
        found == occurrences(grid@, 0, 1, if reverse {
            XMAS_BACKWARDS@
        } else {
            XMAS@
        }),
        found <= grid@.area(),
{
    if reverse {
        count_word(grid, 0, 1, &XMAS_BACKWARDS)
    } else {
        count_word(grid, 0, 1, &XMAS)
    }
}

/// How often the word stands on a diagonal, read downwards to the right.
pub fn search_diag_top_right(grid: &Grid<u8>, reverse: bool) -> (found: usize)
    requires
        grid.wf(),
    ensures
        found == occurrences(grid@, 1, 1, if reverse {
            XMAS_BACKWARDS@
        } else {
            XMAS@
        }),
        found <= grid@.area(),
{
    if reverse {
        count_word(grid, 1, 1, &XMAS_BACKWARDS)
    } else {
        count_word(grid, 1, 1, &XMAS)
    }
}

/// How often the word stands on a diagonal, read upwards to the right.
pub fn search_diag_top_left(grid: &Grid<u8>, reverse: bool) -> (found: usize)
    requires
        grid.wf(),
    ensures
        found == occurrences(grid@, 1, -1, if reverse {
            XMAS_BACKWARDS@
        } else {
            XMAS@
        }),
        found <= grid@.area(),
{
    if reverse {
        count_word(grid, 1, -1, &XMAS_BACKWARDS)
    } else {
        count_word(grid, 1, -1, &XMAS)
    }
}

/// How often `XMAS` stands in the grid in any of the eight directions: in
/// each of four directions forwards and backwards.
pub open spec fn xmas_count(grid: GridView<u8>) -> nat {
    occurrences(grid, 1, 0, XMAS@) + occurrences(grid, 1, 0, XMAS_BACKWARDS@) + occurrences(
        grid,
        0,
        1,
        XMAS@,
    ) + occurrences(grid, 0, 1, XMAS_BACKWARDS@) + occurrences(grid, 1, -1, XMAS@) + occurrences(
        grid,
        1,
        -1,
        XMAS_BACKWARDS@,
    ) + occurrences(grid, 1, 1, XMAS@) + occurrences(grid, 1, 1, XMAS_BACKWARDS@)
}

/// How often the word is found in the grid, in all eight directions.
pub fn solve_q1(grid: &Grid<u8>) -> (found: usize)
    requires
        grid.wf(),
        8 * grid@.area() <= usize::MAX,
    ensures
        found == xmas_count(grid@),
{
    search_horizontal(grid, false) + search_horizontal(grid, true) + search_vertical(grid, false)
        + search_vertical(grid, true) + search_diag_top_left(grid, false) + search_diag_top_left(
        grid,
        true,
    ) + search_diag_top_right(grid, false) + search_diag_top_right(grid, true)
}

/// The number of places where two `MAS` cross.
pub fn solve_q2(grid: &Grid<u8>) -> (found: usize)
    requires
        grid.wf(),
    ensures
        found == crosses(grid@, grid@.area() as int),
{
    let area = grid.inner.len();
    let mut found: usize = 0;
    let mut i: usize = 0;
    while i < area
        invariant
            grid.wf(),
            area == grid@.area(),
            i <= area,
            found == crosses(grid@, i as int),
            found <= i,
        decreases area - i,
    {
        let p = grid.point_of(i);
        proof {
            crate::arith::lemma_index_encode(i as int, grid.width as int, grid.height as int);
        }
        // Check for an A
        if at(grid, p) == Some(65) {
            // Check for the remaining MAS letters.
            let top_l = at(grid, Point { x: p.x - 1, y: p.y - 1 });
            let top_r = at(grid, Point { x: p.x + 1, y: p.y - 1 });
            let bot_l = at(grid, Point { x: p.x - 1, y: p.y + 1 });
            let bot_r = at(grid, Point { x: p.x + 1, y: p.y + 1 });
            let m = Some(77u8);
            let s = Some(83u8);
            if ((top_l == m && bot_r == s) || (top_l == s && bot_r == m)) && ((top_r == m && bot_l
                == s) || (top_r == s && bot_l == m)) {
                found += 1;
            }
        }
        i += 1;
    }
    found
}

/// Reads the grid of letters.
pub fn parse(input: &str) -> (parsed: Option<Grid<u8>>)
    ensures
        match parsed {
            Some(grid) => grid_of_text(input.spec_bytes(), grid@),
            None => forall|w: nat, h: nat| !is_text_grid(input.spec_bytes(), w, h),
        },
{
    parse_grid(input.as_bytes())
}

} // verus!
