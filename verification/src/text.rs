//! Puzzle maps written as text: one line for each row, one byte for each cell.
use crate::grid::{Grid, GridView};
use crate::point::Point;
use vstd::prelude::*;

verus! {

/// The byte that ends a line.
pub const NEWLINE: u8 = 10;

/// Whether `text` is a map of `height` lines, each of `width` bytes followed
/// by a newline, where the last newline may be missing.
pub open spec fn is_text_grid(text: Seq<u8>, width: nat, height: nat) -> bool {
    &&& 1 <= width <= isize::MAX
    &&& 1 <= height <= isize::MAX
    &&& (text.len() == height * (width + 1) || text.len() + 1 == height * (width + 1))
    &&& forall|i: int|
        0 <= i < text.len() ==> ((#[trigger] text[i] == NEWLINE) <==> i % ((width + 1) as int) == width as int)
}

/// Where the byte of the cell at `point` stands in a text of the given width.
pub open spec fn text_index(width: nat, point: Point) -> int {
    point.y * (width + 1) + point.x
}

/// The byte that `text`, a map of the given width, holds for the cell at
/// `point`.
pub open spec fn text_cell(text: Seq<u8>, width: nat, point: Point) -> u8 {
    text[text_index(width, point)]
}

/// Whether `grid` holds the cells of the map written in `text`.
pub open spec fn grid_of_text(text: Seq<u8>, grid: GridView<u8>) -> bool {
    &&& grid.wf()
    &&& is_text_grid(text, grid.width, grid.height)
    &&& forall|p: Point| grid.in_bounds(p) ==> #[trigger] grid.cell(p) == text_cell(text, grid.width, p)
}

/// A text is a map of at most one size.
pub proof fn lemma_text_grid_unique(text: Seq<u8>, w1: nat, h1: nat, w2: nat, h2: nat)
    requires
        is_text_grid(text, w1, h1),
        is_text_grid(text, w2, h2),
    ensures
        w1 == w2,
        h1 == h2,
{
    lemma_text_grid_width(text, w1, h1);
    lemma_text_grid_width(text, w2, h2);
    assert(h1 == h2) by (nonlinear_arith)
        requires
            w1 == w2,
            h1 * (w1 + 1) == h2 * (w2 + 1) || h1 * (w1 + 1) + 1 == h2 * (w2 + 1) || h1 * (w1 + 1)
                == h2 * (w2 + 1) + 1,
            w1 >= 1,
    ;
}

/// The width of a map is the number of bytes before its first newline, or
/// the length of the text if it holds no newline.
pub proof fn lemma_text_grid_width(text: Seq<u8>, width: nat, height: nat)
    requires
        is_text_grid(text, width, height),
    ensures
        width <= text.len(),
        forall|i: int| 0 <= i < width ==> text[i] != NEWLINE,
        width < text.len() ==> text[width as int] == NEWLINE,
{
    assert(height * (width + 1) >= width + 1) by (nonlinear_arith)
        requires
            height >= 1,
    ;
    assert forall|i: int| 0 <= i < width implies text[i] != NEWLINE by {
        vstd::arithmetic::div_mod::lemma_small_mod(i as nat, width + 1);
    }
    if width < text.len() {
        vstd::arithmetic::div_mod::lemma_small_mod(width, width + 1);
    }
}

/// The byte of a cell is no newline and lies inside the text.
pub proof fn lemma_text_cell(text: Seq<u8>, width: nat, height: nat, point: Point)
    requires
        is_text_grid(text, width, height),
        0 <= point.x < width,
        0 <= point.y < height,
    ensures
        0 <= text_index(width, point) < text.len(),
        text[text_index(width, point)] != NEWLINE,
{
    crate::arith::lemma_index_in_range(
        point.x as int,
        point.y as int,
        (width + 1) as int,
        height as int,
    );
    crate::arith::lemma_index_decode(point.x as int, point.y as int, (width + 1) as int);
    assert((width + 1) * height == height * (width + 1)) by (nonlinear_arith);
    assert(point.y * (width + 1) <= (height - 1) * (width + 1)) by (nonlinear_arith)
        requires
            point.y <= height - 1,
            width >= 0,
    ;
    assert((height - 1) * (width + 1) + width - 1 == height * (width + 1) - 2) by (nonlinear_arith);
}

/// The number of bytes before the first newline of `text`.
fn first_line_len(text: &[u8]) -> (n: usize)
    ensures
        n <= text@.len(),
        forall|i: int| 0 <= i < n ==> text@[i] != NEWLINE,
        n < text@.len() ==> text@[n as int] == NEWLINE,
{
    let mut n: usize = 0;
    while n < text.len() && text[n] != NEWLINE
        invariant
            n <= text@.len(),
            forall|i: int| 0 <= i < n ==> text@[i] != NEWLINE,
        decreases text@.len() - n,
    {
        n += 1;
    }
    n
}

/// Reads a map of bytes from `text`. The result is `None` when `text` is not
/// a map: when it is empty, when its lines differ in length, or when a line is
/// empty.
pub fn parse_grid(text: &[u8]) -> (parsed: Option<Grid<u8>>)
    ensures
        match parsed {
            Some(grid) => grid_of_text(text@, grid@),
            None => forall|w: nat, h: nat| !is_text_grid(text@, w, h),
        },
{
    let width = first_line_len(text);
    proof {
        assert forall|w: nat, h: nat| is_text_grid(text@, w, h) implies w == width by {
            lemma_text_grid_width(text@, w, h);
        }
    }
    if width == 0 || width > isize::MAX as usize {
        return None;
    }
    parse_rows(text, width)
}

/// Reads the rows of a map whose first line is `width` bytes long.
fn parse_rows(text: &[u8], width: usize) -> (parsed: Option<Grid<u8>>)
    requires
        1 <= width <= isize::MAX,
        width <= text@.len(),
        forall|w: nat, h: nat| is_text_grid(text@, w, h) ==> w == width,
    ensures
        match parsed {
            Some(grid) => grid_of_text(text@, grid@),
            None => forall|w: nat, h: nat| !is_text_grid(text@, w, h),
        },
{
    let len = text.len();
    let stride = width + 1;
    let mut inner: Vec<u8> = Vec::new();
    let mut height: usize = 0;
    let mut start: usize = 0;
    // Each round reads one line, which starts at `start`.
    while start < len
        invariant
            len == text@.len(),
            stride == width + 1,
            1 <= width <= isize::MAX,
            start <= len,
            start == height * stride,
            height <= isize::MAX,
            inner@.len() == height * width,
            forall|w: nat, h: nat| is_text_grid(text@, w, h) ==> w == width,
            forall|i: int|
                0 <= i < start ==> ((#[trigger] text@[i] == NEWLINE) <==> i % (stride as int)
                    == width as int),
            forall|j: int|
                0 <= j < inner@.len() ==> #[trigger] inner@[j] == text@[j + j / (width as int)],
        decreases len - start,
    {
        if len - start < width || height >= isize::MAX as usize {
            proof {
                assert forall|w: nat, h: nat| !is_text_grid(text@, w, h) by {
                    if is_text_grid(text@, w, h) {
                        lemma_line_fits(text@, w, h, height as nat);
                    }
                }
            }
            return None;
        }
        let mut x: usize = 0;
        while x < width
            invariant
                len == text@.len(),
                stride == width + 1,
                x <= width,
                start == height * stride,
                start + width <= len,
                inner@.len() == height * width + x,
                forall|w: nat, h: nat| is_text_grid(text@, w, h) ==> w == width,
                forall|i: int|
                    0 <= i < start + x ==> ((#[trigger] text@[i] == NEWLINE) <==> i % (
                    stride as int) == width as int),
                forall|j: int|
                    0 <= j < inner@.len() ==> #[trigger] inner@[j] == text@[j + j / (width as int)],
            decreases width - x,
        {
            let byte = text[start + x];
            proof {
                crate::arith::lemma_index_decode(x as int, height as int, stride as int);
                crate::arith::lemma_index_decode(x as int, height as int, width as int);
                assert(height * stride == height * width + height) by (nonlinear_arith)
                    requires
                        stride == width + 1,
                ;
            }
            if byte == NEWLINE {
                proof {
                    assert forall|w: nat, h: nat| !is_text_grid(text@, w, h) by {
                        if is_text_grid(text@, w, h) {
                            assert(text@[start + x] == NEWLINE);
                        }
                    }
                }
                return None;
            }
            inner.push(byte);
            x += 1;
        }
        let end = start + width;
        proof {
            crate::arith::lemma_index_decode(width as int, height as int, stride as int);
            assert((height + 1) * width == height * width + width) by (nonlinear_arith);
            assert((height + 1) * stride == height * stride + stride) by (nonlinear_arith);
        }
        if end < len {
            if text[end] != NEWLINE {
                proof {
                    assert forall|w: nat, h: nat| !is_text_grid(text@, w, h) by {
                        if is_text_grid(text@, w, h) {
                            assert(text@[end as int] != NEWLINE);
                        }
                    }
                }
                return None;
            }
            start = end + 1;
        } else {
            start = end;
            height += 1;
            proof {
                assert(start + 1 == height * stride);
                assert(is_text_grid(text@, width as nat, height as nat));
            }
            let grid = Grid { width, height, inner };
            proof {
                lemma_cells_match(text@, grid);
            }
            return Some(grid);
        }
        height += 1;
    }
    if height == 0 {
        proof {
            assert forall|w: nat, h: nat| !is_text_grid(text@, w, h) by {
                if is_text_grid(text@, w, h) {
                    assert(h * (w + 1) >= 2) by (nonlinear_arith)
                        requires
                            h >= 1,
                            w >= 1,
                    ;
                }
            }
        }
        return None;
    }
    proof {
        assert(is_text_grid(text@, width as nat, height as nat));
    }
    let grid = Grid { width, height, inner };
    proof {
        lemma_cells_match(text@, grid);
    }
    Some(grid)
}

/// Where a line of a map starts, a whole line follows.
proof fn lemma_line_fits(text: Seq<u8>, w: nat, h: nat, rows: nat)
    requires
        is_text_grid(text, w, h),
        rows * (w + 1) < text.len(),
    ensures
        rows < h,
        text.len() - rows * (w + 1) >= w,
{
    let stride = w + 1;
    if rows >= h {
        assert(rows * stride >= h * stride) by (nonlinear_arith)
            requires
                rows >= h,
                stride >= 0,
        ;
    } else {
        assert((rows + 1) * stride <= h * stride) by (nonlinear_arith)
            requires
                rows + 1 <= h,
                stride >= 0,
        ;
        assert((rows + 1) * stride == rows * stride + stride) by (nonlinear_arith);
    }
}

/// Cells copied line by line are the cells of the map.
proof fn lemma_cells_match(text: Seq<u8>, grid: Grid<u8>)
    requires
        is_text_grid(text, grid@.width, grid@.height),
        grid.inner@.len() == grid@.height * grid@.width,
        forall|j: int|
            0 <= j < grid.inner@.len() ==> #[trigger] grid.inner@[j] == text[j + j / (
            grid@.width as int)],
    ensures
        grid_of_text(text, grid@),
{
    let w = grid@.width as int;
    assert(grid@.height * grid@.width == grid@.width * grid@.height) by (nonlinear_arith);
    assert forall|p: Point| grid@.in_bounds(p) implies #[trigger] grid@.cell(p) == text_cell(
        text,
        grid@.width,
        p,
    ) by {
        grid@.lemma_point_index(p);
        crate::arith::lemma_index_decode(p.x as int, p.y as int, w);
        assert(p.y * (w + 1) == p.y * w + p.y) by (nonlinear_arith);
    }
}

/// Where `byte` stands last in `grid`, going row by row.
pub fn find_last(grid: &Grid<u8>, byte: u8) -> (found: Option<Point>)
    requires
        grid.wf(),
    ensures
        match found {
            Some(p) => {
                &&& grid@.in_bounds(p)
                &&& grid@.cell(p) == byte
                &&& forall|q: Point|
                    grid@.in_bounds(q) && #[trigger] grid@.cell(q) == byte ==> grid@.index_of(q)
                        <= grid@.index_of(p)
            },
            None => forall|q: Point| grid@.in_bounds(q) ==> #[trigger] grid@.cell(q) != byte,
        },
{
    let mut found: Option<Point> = None;
    let mut y: usize = 0;
    while y < grid.height
        invariant
            grid.wf(),
            y <= grid.height,
            match found {
                Some(p) => {
                    &&& grid@.in_bounds(p)
                    &&& grid@.cell(p) == byte
                    &&& p.y < y
                    &&& forall|q: Point|
                        grid@.in_bounds(q) && q.y < y && #[trigger] grid@.cell(q) == byte
                            ==> grid@.index_of(q) <= grid@.index_of(p)
                },
                None => forall|q: Point|
                    grid@.in_bounds(q) && q.y < y ==> #[trigger] grid@.cell(q) != byte,
            },
        decreases grid.height - y,
    {
        let mut x: usize = 0;
        while x < grid.width
            invariant
                grid.wf(),
                y < grid.height,
                x <= grid.width,
                match found {
                    Some(p) => {
                        &&& grid@.in_bounds(p)
                        &&& grid@.cell(p) == byte
                        &&& (p.y < y || (p.y == y && p.x < x))
                        &&& forall|q: Point|
                            grid@.in_bounds(q) && (q.y < y || (q.y == y && q.x < x))
                                && #[trigger] grid@.cell(q) == byte ==> grid@.index_of(q)
                                <= grid@.index_of(p)
                    },
                    None => forall|q: Point|
                        grid@.in_bounds(q) && (q.y < y || (q.y == y && q.x < x))
                            ==> #[trigger] grid@.cell(q) != byte,
                },
            decreases grid.width - x,
        {
            let here = Point::from_indices(x, y);
            if *grid.get_unchecked(here) == byte {
                proof {
                    assert forall|q: Point|
                        grid@.in_bounds(q) && (q.y < y || (q.y == y && q.x < x + 1))
                        implies grid@.index_of(q) <= grid@.index_of(here) by {
                        lemma_row_major(grid@, q, here);
                    }
                }
                found = Some(here);
            }
            x += 1;
        }
        y += 1;
    }
    found
}

/// A cell that comes first row by row is stored first.
pub proof fn lemma_row_major<T>(grid: GridView<T>, p: Point, q: Point)
    requires
        grid.in_bounds(p),
        grid.in_bounds(q),
        p.y < q.y || (p.y == q.y && p.x <= q.x),
    ensures
        grid.index_of(p) <= grid.index_of(q),
        p != q ==> grid.index_of(p) < grid.index_of(q),
{
    if p.y < q.y {
        assert((p.y + 1) * grid.width <= q.y * grid.width) by (nonlinear_arith)
            requires
                p.y + 1 <= q.y,
                grid.width >= 0,
        ;
        assert((p.y + 1) * grid.width == p.y * grid.width + grid.width) by (nonlinear_arith);
    }
}

/// Whether `byte` is a space, a tab or a carriage return.
pub open spec fn is_blank(byte: u8) -> bool {
    byte == 32 || byte == 9 || byte == 13
}

/// What is left of `text` when its spaces, tabs and carriage returns are
/// taken out.
pub open spec fn without_blanks(text: Seq<u8>) -> Seq<u8>
    decreases text.len(),
{
    if text.len() == 0 {
        Seq::empty()
    } else if is_blank(text.last()) {
        without_blanks(text.drop_last())
    } else {
        without_blanks(text.drop_last()).push(text.last())
    }
}

/// Copies `text` without its spaces, tabs and carriage returns.
pub fn strip_blanks(text: &[u8]) -> (kept: Vec<u8>)
    ensures
        kept@ == without_blanks(text@),
{
    let mut kept: Vec<u8> = Vec::new();
    let mut i: usize = 0;
    while i < text.len()
        invariant
            i <= text@.len(),
            kept@ == without_blanks(text@.take(i as int)),
        decreases text@.len() - i,
    {
        let byte = text[i];
        proof {
            let next = text@.take(i + 1);
            assert(next.drop_last() == text@.take(i as int));
            assert(next.last() == byte);
        }
        if !(byte == 32 || byte == 9 || byte == 13) {
            kept.push(byte);
        }
        i += 1;
    }
    proof {
        assert(text@.take(text@.len() as int) == text@);
    }
    kept
}

} // verus!