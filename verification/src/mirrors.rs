//! Mirror detection in ash-and-rock patterns: a vertical reflection axis
//! between two columns, or a horizontal one between two rows, where the
//! two sides match cell for cell as far as both extend; the smudged
//! variants look for an axis with exactly one mismatching cell.
use vstd::prelude::*;

use crate::grid::Grid;

verus! {

/// Whether the columns left and right of the axis after column `x - 1`
/// mirror each other as far as both sides extend.
pub open spec fn vertical_mirror_at(cells: Seq<Seq<bool>>, w: int, h: int, x: int) -> bool {
    forall|c: int, y: int|
        0 <= c && c < x && c < w - x && 0 <= y < h ==> #[trigger] cells[y][x - c - 1] == cells[y][x
            + c]
}

/// Whether the rows above and below the axis after row `y - 1` mirror
/// each other as far as both sides extend.
pub open spec fn horizontal_mirror_at(cells: Seq<Seq<bool>>, w: int, h: int, y: int) -> bool {
    forall|r: int, xx: int|
        0 <= r && r < y && r < h - y && 0 <= xx < w ==> #[trigger] cells[y - r - 1][xx] == cells[y
            + r][xx]
}

/// The number of columns to the left of the first vertical mirror axis,
/// or `None` where no axis exists.
pub fn find_vertical_reflection(pattern: &Grid<bool>) -> (r: Option<usize>)
    requires
        pattern.wf(),
    ensures
        r is Some ==> 1 <= r->0 < pattern.width && vertical_mirror_at(
            pattern.cells(),
            pattern.width as int,
            pattern.height as int,
            r->0 as int,
        ) && (forall|x: int|
            1 <= x < r->0 ==> !vertical_mirror_at(
                pattern.cells(),
                pattern.width as int,
                pattern.height as int,
                x,
            )),
        r is None ==> forall|x: int|
            1 <= x < pattern.width ==> !vertical_mirror_at(
                pattern.cells(),
                pattern.width as int,
                pattern.height as int,
                x,
            ),
{
    let w = pattern.width;
    let h = pattern.height;
    let ghost cells = pattern.cells();
    let mut x: usize = 1;
    while x < w
        invariant
            pattern.wf(),
            cells == pattern.cells(),
            w == pattern.width,
            h == pattern.height,
            1 <= x,
            forall|xx: int| 1 <= xx < x ==> !vertical_mirror_at(cells, w as int, h as int, xx),
        decreases w - x,
    {
        let nb = if x < w - x {
            x
        } else {
            w - x
        };
        let mut c: usize = 0;
        let mut matches = true;
        while c < nb && matches
            invariant
                pattern.wf(),
                cells == pattern.cells(),
                w == pattern.width,
                h == pattern.height,
                1 <= x < w,
                x < w - x ==> nb == x,
                x >= w - x ==> nb as int == w as int - x as int,
                c <= nb,
                matches ==> forall|cc: int, y: int|
                    0 <= cc < c && 0 <= y < h ==> #[trigger] cells[y][x - cc - 1] == cells[y][x
                        + cc],
                !matches ==> !vertical_mirror_at(cells, w as int, h as int, x as int),
            decreases nb - c,
        {
            let mut y: usize = 0;
            while y < h && matches
                invariant
                    pattern.wf(),
                    cells == pattern.cells(),
                    w == pattern.width,
                    h == pattern.height,
                    1 <= x < w,
                    c < nb,
                    x < w - x ==> nb == x,
                    x >= w - x ==> nb as int == w as int - x as int,
                    y <= h,
                    matches ==> forall|cc: int, yy: int|
                        0 <= cc < c && 0 <= yy < h ==> #[trigger] cells[yy][x - cc - 1]
                            == cells[yy][x + cc],
                    matches ==> forall|yy: int|
                        0 <= yy < y ==> #[trigger] cells[yy][x - c - 1] == cells[yy][x + c],
                    !matches ==> !vertical_mirror_at(cells, w as int, h as int, x as int),
                decreases h - y,
            {
                if pattern.lines[y][x - c - 1] != pattern.lines[y][x + c] {
                    proof {
                        assert(cells[y as int][x - c - 1] != cells[y as int][x + c]);
                    }
                    matches = false;
                    y = h;
                } else {
                    y = y + 1;
                }
            }
            if matches {
                c = c + 1;
            } else {
                c = nb;
            }
        }
        if matches {
            proof {
                assert forall|cc: int, y: int|
                    0 <= cc && cc < x && cc < w - x && 0 <= y < h implies #[trigger] cells[y][x - cc
                    - 1] == cells[y][x + cc] by {
                    assert(cc < nb);
                }
            }
            return Some(x);
        }
        x = x + 1;
    }
    None
}

/// The number of rows above the first horizontal mirror axis, or `None`
/// where no axis exists.
pub fn find_horizontal_reflection(pattern: &Grid<bool>) -> (r: Option<usize>)
    requires
        pattern.wf(),
    ensures
        r is Some ==> 1 <= r->0 < pattern.height && horizontal_mirror_at(
            pattern.cells(),
            pattern.width as int,
            pattern.height as int,
            r->0 as int,
        ) && (forall|y: int|
            1 <= y < r->0 ==> !horizontal_mirror_at(
                pattern.cells(),
                pattern.width as int,
                pattern.height as int,
                y,
            )),
        r is None ==> forall|y: int|
            1 <= y < pattern.height ==> !horizontal_mirror_at(
                pattern.cells(),
                pattern.width as int,
                pattern.height as int,
                y,
            ),
{
    let w = pattern.width;
    let h = pattern.height;
    let ghost cells = pattern.cells();
    let mut y: usize = 1;
    while y < h
        invariant
            pattern.wf(),
            cells == pattern.cells(),
            w == pattern.width,
            h == pattern.height,
            1 <= y,
            forall|yy: int| 1 <= yy < y ==> !horizontal_mirror_at(cells, w as int, h as int, yy),
        decreases h - y,
    {
        let nb = if y < h - y {
            y
        } else {
            h - y
        };
        let mut rr: usize = 0;
        let mut matches = true;
        while rr < nb && matches
            invariant
                pattern.wf(),
                cells == pattern.cells(),
                w == pattern.width,
                h == pattern.height,
                1 <= y < h,
                y < h - y ==> nb == y,
                y >= h - y ==> nb as int == h as int - y as int,
                rr <= nb,
                matches ==> forall|r2: int, xx: int|
                    0 <= r2 < rr && 0 <= xx < w ==> #[trigger] cells[y - r2 - 1][xx] == cells[y
                        + r2][xx],
                !matches ==> !horizontal_mirror_at(cells, w as int, h as int, y as int),
            decreases nb - rr,
        {
            let mut xx: usize = 0;
            while xx < w && matches
                invariant
                    pattern.wf(),
                    cells == pattern.cells(),
                    w == pattern.width,
                    h == pattern.height,
                    1 <= y < h,
                    rr < nb,
                    y < h - y ==> nb == y,
                    y >= h - y ==> nb as int == h as int - y as int,
                    xx <= w,
                    matches ==> forall|r2: int, x2: int|
                        0 <= r2 < rr && 0 <= x2 < w ==> #[trigger] cells[y - r2 - 1][x2] == cells[y
                            + r2][x2],
                    matches ==> forall|x2: int|
                        0 <= x2 < xx ==> #[trigger] cells[y - rr - 1][x2] == cells[y + rr][x2],
                    !matches ==> !horizontal_mirror_at(cells, w as int, h as int, y as int),
                decreases w - xx,
            {
                if pattern.lines[y - rr - 1][xx] != pattern.lines[y + rr][xx] {
                    proof {
                        assert(cells[y - rr - 1][xx as int] != cells[y + rr][xx as int]);
                    }
                    matches = false;
                    xx = w;
                } else {
                    xx = xx + 1;
                }
            }
            if matches {
                rr = rr + 1;
            } else {
                rr = nb;
            }
        }
        if matches {
            proof {
                assert forall|r2: int, x2: int|
                    0 <= r2 && r2 < y && r2 < h - y && 0 <= x2 < w implies #[trigger] cells[y - r2
                    - 1][x2] == cells[y + r2][x2] by {
                    assert(r2 < nb);
                }
            }
            return Some(y);
        }
        y = y + 1;
    }
    None
}

/// The reflection summary of a pattern: the column count of the first
/// vertical axis, else one hundred times the row count of the first
/// horizontal axis, else zero.
pub fn find_reflection(pattern: &Grid<bool>) -> (r: usize)
    requires
        pattern.wf(),
        pattern.height < usize::MAX / 100,
    ensures
        (exists|x: int|
            1 <= x < pattern.width && vertical_mirror_at(
                pattern.cells(),
                pattern.width as int,
                pattern.height as int,
                x,
            )) ==> 1 <= r < pattern.width && vertical_mirror_at(
            pattern.cells(),
            pattern.width as int,
            pattern.height as int,
            r as int,
        ),
        (forall|x: int|
            1 <= x < pattern.width ==> !vertical_mirror_at(
                pattern.cells(),
                pattern.width as int,
                pattern.height as int,
                x,
            )) && (exists|y: int|
            1 <= y < pattern.height && horizontal_mirror_at(
                pattern.cells(),
                pattern.width as int,
                pattern.height as int,
                y,
            )) ==> exists|y: int|
            r == 100 * y && 1 <= y < pattern.height && horizontal_mirror_at(
                pattern.cells(),
                pattern.width as int,
                pattern.height as int,
                y,
            ),
        (forall|x: int|
            1 <= x < pattern.width ==> !vertical_mirror_at(
                pattern.cells(),
                pattern.width as int,
                pattern.height as int,
                x,
            )) && (forall|y: int|
            1 <= y < pattern.height ==> !horizontal_mirror_at(
                pattern.cells(),
                pattern.width as int,
                pattern.height as int,
                y,
            )) ==> r == 0,
{
    match find_vertical_reflection(pattern) {
        Some(x) => x,
        None => match find_horizontal_reflection(pattern) {
            Some(y) => {
                let r = 100 * y;
                proof {
                    assert(r == 100 * (y as int));
                }
                r
            },
            None => 0,
        },
    }
}

} // verus!
