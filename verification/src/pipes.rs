//! Classification of maze cells as inside or outside a closed pipe loop.
//! The loop is traced by connectivity from a start cell; a left-to-right
//! scanline then flips an inside flag at every genuine crossing of the
//! loop, treating corner pairs that return to the same side as no
//! crossing.
use vstd::prelude::*;

use crate::ParseError;
use crate::parse_error;
use crate::grid::Coord;
use crate::grid::Dir;
use crate::grid::Grid;

verus! {

/// Whether a pipe shape opens upward.
pub open spec fn spec_connects_up(tile: u8) -> bool {
    tile == 124 || tile == 76 || tile == 74
}

/// Whether a pipe shape opens downward.
pub open spec fn spec_connects_down(tile: u8) -> bool {
    tile == 124 || tile == 55 || tile == 70
}

/// Whether a pipe shape opens to the left.
pub open spec fn spec_connects_left(tile: u8) -> bool {
    tile == 45 || tile == 55 || tile == 74
}

/// Whether a pipe shape opens to the right.
pub open spec fn spec_connects_right(tile: u8) -> bool {
    tile == 45 || tile == 76 || tile == 70
}

/// Whether `tile` (`|`, `L` or `J`) opens upward.
pub fn connects_up(tile: &u8) -> (r: bool)
    ensures
        r == spec_connects_up(*tile),
{
    *tile == 124 || *tile == 76 || *tile == 74
}

/// Whether `tile` (`|`, `7` or `F`) opens downward.
pub fn connects_down(tile: &u8) -> (r: bool)
    ensures
        r == spec_connects_down(*tile),
{
    *tile == 124 || *tile == 55 || *tile == 70
}

/// Whether `tile` (`-`, `7` or `J`) opens to the left.
pub fn connects_left(tile: &u8) -> (r: bool)
    ensures
        r == spec_connects_left(*tile),
{
    *tile == 45 || *tile == 55 || *tile == 74
}

/// Whether `tile` (`-`, `L` or `F`) opens to the right.
pub fn connects_right(tile: &u8) -> (r: bool)
    ensures
        r == spec_connects_right(*tile),
{
    *tile == 45 || *tile == 76 || *tile == 70
}

/// How a cell stands with respect to the loop.
#[derive(Debug, Clone, Copy, PartialEq, Eq, Structural)]
pub enum InOutStatus {
    Unknown,
    Inside,
    Outside,
    MainLoop,
}

impl InOutStatus {
    /// Inside and outside swapped; the other statuses unchanged.
    pub open spec fn spec_flipped(self) -> InOutStatus {
        match self {
            InOutStatus::Inside => InOutStatus::Outside,
            InOutStatus::Outside => InOutStatus::Inside,
            s => s,
        }
    }

    /// Inside and outside swapped; the other statuses unchanged.
    pub fn flipped(&self) -> (r: InOutStatus)
        ensures
            r == self.spec_flipped(),
    {
        match self {
            InOutStatus::Inside => InOutStatus::Outside,
            InOutStatus::Outside => InOutStatus::Inside,
            s => *s,
        }
    }
}

/// One maze cell: its pipe symbol and its classification so far.
#[derive(Debug, Clone, Copy, PartialEq, Eq, Structural)]
pub struct Tile {
    pub tile: u8,
    pub status: InOutStatus,
}

/// The shape the start cell must have, judged from which of its in-bounds
/// neighbors connect back to it; the first matching shape in a fixed
/// order of preference, `None` where none fits.
pub open spec fn spec_start_shape(
    up: Option<u8>,
    down: Option<u8>,
    left: Option<u8>,
    right: Option<u8>,
) -> Option<u8> {
    if up is Some && down is Some && spec_connects_down(up->0) && spec_connects_up(down->0) {
        Some(124u8)
    } else if up is Some && left is Some && spec_connects_down(up->0) && spec_connects_right(
        left->0,
    ) {
        Some(74u8)
    } else if up is Some && right is Some && spec_connects_down(up->0) && spec_connects_left(
        right->0,
    ) {
        Some(76u8)
    } else if down is Some && left is Some && spec_connects_up(down->0) && spec_connects_right(
        left->0,
    ) {
        Some(55u8)
    } else if down is Some && right is Some && spec_connects_up(down->0) && spec_connects_left(
        right->0,
    ) {
        Some(70u8)
    } else if left is Some && right is Some && spec_connects_right(left->0) && spec_connects_left(
        right->0,
    ) {
        Some(45u8)
    } else {
        None
    }
}

/// Determines the pipe shape hidden under the start cell from its
/// neighbors; fails where no shape fits them.
pub fn determine_starting_pipe_shape(maze: &Grid<u8>, start_pos: Coord) -> (r: Result<
    u8,
    ParseError,
>)
    requires
        maze.wf(),
    ensures
        r is Ok <==> spec_start_shape(
            maze.spec_neighbor(start_pos, Dir::Up),
            maze.spec_neighbor(start_pos, Dir::Down),
            maze.spec_neighbor(start_pos, Dir::Left),
            maze.spec_neighbor(start_pos, Dir::Right),
        ) is Some,
        r is Ok ==> Some(r->Ok_0) == spec_start_shape(
            maze.spec_neighbor(start_pos, Dir::Up),
            maze.spec_neighbor(start_pos, Dir::Down),
            maze.spec_neighbor(start_pos, Dir::Left),
            maze.spec_neighbor(start_pos, Dir::Right),
        ),
{
    let (up, down, left, right) = maze.get_cardinally_adjacent_tiles(start_pos);
    let up_down = match (up, down) {
        (Some(u), Some(d)) => connects_down(u) && connects_up(d),
        _ => false,
    };
    if up_down {
        return Ok(124);
    }
    let up_left = match (up, left) {
        (Some(u), Some(l)) => connects_down(u) && connects_right(l),
        _ => false,
    };
    if up_left {
        return Ok(74);
    }
    let up_right = match (up, right) {
        (Some(u), Some(rr)) => connects_down(u) && connects_left(rr),
        _ => false,
    };
    if up_right {
        return Ok(76);
    }
    let down_left = match (down, left) {
        (Some(d), Some(l)) => connects_up(d) && connects_right(l),
        _ => false,
    };
    if down_left {
        return Ok(55);
    }
    let down_right = match (down, right) {
        (Some(d), Some(rr)) => connects_up(d) && connects_left(rr),
        _ => false,
    };
    if down_right {
        return Ok(70);
    }
    let left_right = match (left, right) {
        (Some(l), Some(rr)) => connects_right(l) && connects_left(rr),
        _ => false,
    };
    if left_right {
        return Ok(45);
    }
    Err(parse_error("S", "no possible pipe for start position"))
}

/// The first `S` cell in row-major order, if any.
pub fn find_start(maze: &Grid<u8>) -> (r: Option<Coord>)
    requires
        maze.wf(),
    ensures
        r is Some ==> {
            let (x, y) = r->0;
            &&& maze.spec_in_bounds((x, y))
            &&& maze.cells()[y as int][x as int] == 83
            &&& forall|j: int, i: int|
                0 <= j < maze.height && 0 <= i < maze.width && (j < y || (j == y && i < x))
                    ==> #[trigger] maze.cells()[j][i] != 83
        },
        r is None ==> forall|j: int, i: int|
            0 <= j < maze.height && 0 <= i < maze.width ==> #[trigger] maze.cells()[j][i] != 83,
{
    let mut y: usize = 0;
    while y < maze.height
        invariant
            maze.wf(),
            y <= maze.height,
            forall|j: int, i: int|
                0 <= j < y && 0 <= i < maze.width ==> #[trigger] maze.cells()[j][i] != 83,
        decreases maze.height - y,
    {
        let mut x: usize = 0;
        while x < maze.width
            invariant
                maze.wf(),
                y < maze.height,
                x <= maze.width,
                forall|j: int, i: int|
                    0 <= j < y && 0 <= i < maze.width ==> #[trigger] maze.cells()[j][i] != 83,
                forall|i: int| 0 <= i < x ==> #[trigger] maze.cells()[y as int][i] != 83,
            decreases maze.width - x,
        {
            if maze.lines[y][x] == 83 {
                return Some((x, y));
            }
            x = x + 1;
        }
        y = y + 1;
    }
    None
}

/// The directions a pipe shape opens to.
pub open spec fn pipe_dirs(tile: u8) -> Seq<Dir> {
    if tile == 124 {
        seq![Dir::Up, Dir::Down]
    } else if tile == 45 {
        seq![Dir::Left, Dir::Right]
    } else if tile == 74 {
        seq![Dir::Up, Dir::Left]
    } else if tile == 76 {
        seq![Dir::Up, Dir::Right]
    } else if tile == 55 {
        seq![Dir::Down, Dir::Left]
    } else if tile == 70 {
        seq![Dir::Down, Dir::Right]
    } else {
        Seq::empty()
    }
}

/// Whether `c` addresses a cell of a `w` × `h` grid.
pub open spec fn pipe_in_grid(w: int, h: int, c: Coord) -> bool {
    (c.0 as int) < w && (c.1 as int) < h
}

/// One step of loop tracing: the pipe at `c` opens towards the adjacent
/// cell `c2`.
pub open spec fn pipe_step(tiles: Seq<Seq<u8>>, w: int, h: int, c: Coord, c2: Coord) -> bool {
    &&& pipe_in_grid(w, h, c)
    &&& exists|d: Dir|
        pipe_dirs(tiles[c.1 as int][c.0 as int]).contains(d) && #[trigger] d.spec_step(c) == Some(
            c2,
        )
}

/// A non-empty sequence of in-bounds cells, each the pipe continuation of
/// the one before.
pub open spec fn pipe_path_ok(tiles: Seq<Seq<u8>>, w: int, h: int, p: Seq<Coord>) -> bool {
    &&& p.len() >= 1
    &&& forall|i: int| 0 <= i < p.len() ==> pipe_in_grid(w, h, #[trigger] p[i])
    &&& forall|i: int| 0 <= i < p.len() - 1 ==> pipe_step(tiles, w, h, #[trigger] p[i], p[i + 1])
}

/// Whether cell `to` lies on the pipe run started at `from`.
pub open spec fn pipe_reachable(tiles: Seq<Seq<u8>>, w: int, h: int, from: Coord, to: Coord) -> bool {
    exists|p: Seq<Coord>| pipe_path_ok(tiles, w, h, p) && p.first() == from && p.last() == to
}

/// The number of marked cells in one row.
pub open spec fn count_true_row(row: Seq<bool>) -> int
    decreases row.len(),
{
    if row.len() == 0 {
        0
    } else {
        count_true_row(row.drop_last()) + if row.last() {
            1int
        } else {
            0int
        }
    }
}

/// The number of marked cells in a mark grid.
pub open spec fn count_true(cells: Seq<Seq<bool>>) -> int
    decreases cells.len(),
{
    if cells.len() == 0 {
        0
    } else {
        count_true(cells.drop_last()) + count_true_row(cells.last())
    }
}

/// Updating one mark in a row changes its count by the difference.
proof fn lemma_true_row_update(row: Seq<bool>, i: int, v: bool)
    requires
        0 <= i < row.len(),
    ensures
        count_true_row(row.update(i, v)) == count_true_row(row) - (if row[i] {
            1int
        } else {
            0int
        }) + (if v {
            1int
        } else {
            0int
        }),
    decreases row.len(),
{
    if i == row.len() - 1 {
        assert(row.update(i, v).drop_last() =~~= row.drop_last());
        assert(row.update(i, v).last() == v);
    } else {
        lemma_true_row_update(row.drop_last(), i, v);
        assert(row.update(i, v).drop_last() =~~= row.drop_last().update(i, v));
        assert(row.update(i, v).last() == row.last());
    }
}

/// Updating one row changes the grid count by the difference.
proof fn lemma_true_update(cells: Seq<Seq<bool>>, y: int, row: Seq<bool>)
    requires
        0 <= y < cells.len(),
    ensures
        count_true(cells.update(y, row)) == count_true(cells) - count_true_row(cells[y])
            + count_true_row(row),
    decreases cells.len(),
{
    if y == cells.len() - 1 {
        assert(cells.update(y, row).drop_last() =~~= cells.drop_last());
        assert(cells.update(y, row).last() == row);
    } else {
        lemma_true_update(cells.drop_last(), y, row);
        assert(cells.update(y, row).drop_last() =~~= cells.drop_last().update(y, row));
        assert(cells.update(y, row).last() == cells.last());
    }
}

/// A row of `n` marks counts at most `n`.
proof fn lemma_true_row_bound(row: Seq<bool>)
    ensures
        0 <= count_true_row(row) <= row.len(),
    decreases row.len(),
{
    if row.len() > 0 {
        lemma_true_row_bound(row.drop_last());
    }
}

/// A grid of `h` rows of `w` marks counts at most `w h`.
proof fn lemma_true_bound(cells: Seq<Seq<bool>>, w: int)
    requires
        forall|y: int| 0 <= y < cells.len() ==> (#[trigger] cells[y]).len() == w,
    ensures
        0 <= count_true(cells) <= w * cells.len(),
    decreases cells.len(),
{
    if cells.len() > 0 {
        lemma_true_bound(cells.drop_last(), w);
        lemma_true_row_bound(cells.last());
        assert(cells.last().len() == w);
        vstd::arithmetic::mul::lemma_mul_is_distributive_add(w, cells.len() - 1, 1);
    } else {
        vstd::arithmetic::mul::lemma_mul_by_zero_is_zero(w);
    }
}

/// Every marked cell has its pipe continuations marked, unless it still
/// waits on the worklist.
pub open spec fn pipe_closed_at(
    tiles: Seq<Seq<u8>>,
    w: int,
    h: int,
    mark: Seq<Seq<bool>>,
    c: Coord,
) -> bool {
    forall|c2: Coord|
        #[trigger] pipe_step(tiles, w, h, c, c2) && pipe_in_grid(w, h, c2) ==> mark[c2.1 as int][c2.0 as int]
}

/// Appending one pipe step to a path keeps it a path.
proof fn lemma_pipe_extend(tiles: Seq<Seq<u8>>, w: int, h: int, from: Coord, c: Coord, c2: Coord)
    requires
        pipe_reachable(tiles, w, h, from, c),
        pipe_step(tiles, w, h, c, c2),
        pipe_in_grid(w, h, c2),
    ensures
        pipe_reachable(tiles, w, h, from, c2),
{
    let p = choose|p: Seq<Coord>| pipe_path_ok(tiles, w, h, p) && p.first() == from && p.last() == c;
    let p2 = p.push(c2);
    assert(pipe_path_ok(tiles, w, h, p2)) by {
        assert(forall|i: int| 0 <= i < p.len() ==> p2[i] == p[i]);
        assert(p2[p2.len() - 1] == c2);
        assert(p2[p.len() - 1] == p.last());
    }
    assert(p2.first() == from && p2.last() == c2);
}

/// In a mark grid closed under pipe steps that marks the start of a pipe
/// path, every cell of the path is marked.
proof fn lemma_pipe_path_marked(
    tiles: Seq<Seq<u8>>,
    w: int,
    h: int,
    mark: Seq<Seq<bool>>,
    p: Seq<Coord>,
)
    requires
        pipe_path_ok(tiles, w, h, p),
        mark[p.first().1 as int][p.first().0 as int],
        forall|c: Coord|
            pipe_in_grid(w, h, c) && #[trigger] mark[c.1 as int][c.0 as int] ==> pipe_closed_at(
                tiles,
                w,
                h,
                mark,
                c,
            ),
    ensures
        mark[p.last().1 as int][p.last().0 as int],
    decreases p.len(),
{
    if p.len() > 1 {
        let q = p.drop_last();
        assert(pipe_path_ok(tiles, w, h, q)) by {
            assert(forall|i: int| 0 <= i < q.len() ==> q[i] == p[i]);
        }
        lemma_pipe_path_marked(tiles, w, h, mark, q);
        let prev = q.last();
        assert(prev == p[p.len() - 2]);
        assert(pipe_step(tiles, w, h, prev, p.last()));
        assert(pipe_in_grid(w, h, prev));
        assert(pipe_closed_at(tiles, w, h, mark, prev));
    }
}

/// The mark grid of the loop through `from`: a cell is marked exactly
/// when the pipes lead to it from `from`.
pub open spec fn loop_mask(tiles: Seq<Seq<u8>>, w: int, h: int, from: Coord) -> Seq<Seq<bool>> {
    Seq::new(
        h as nat,
        |y: int|
            Seq::new(w as nat, |x: int| pipe_reachable(tiles, w, h, from, (x as usize, y as usize))),
    )
}

/// The two directions the pipe at a cell opens to, as a value.
fn pipe_dirs_exec(tile: u8) -> (r: Vec<Dir>)
    ensures
        r@ == pipe_dirs(tile),
{
    let mut r: Vec<Dir> = Vec::new();
    if tile == 124 {
        r.push(Dir::Up);
        r.push(Dir::Down);
    } else if tile == 45 {
        r.push(Dir::Left);
        r.push(Dir::Right);
    } else if tile == 74 {
        r.push(Dir::Up);
        r.push(Dir::Left);
    } else if tile == 76 {
        r.push(Dir::Up);
        r.push(Dir::Right);
    } else if tile == 55 {
        r.push(Dir::Down);
        r.push(Dir::Left);
    } else if tile == 70 {
        r.push(Dir::Down);
        r.push(Dir::Right);
    }
    assert(r@ =~~= pipe_dirs(tile));
    r
}

/// Marks every cell the pipes lead to from `start`: cell `(x, y)` of the
/// result is marked exactly when the loop through `start` crosses it.
#[verifier::rlimit(100)]
pub fn color_main_loop(tiles: &Grid<u8>, start: Coord) -> (mark: Grid<bool>)
    requires
        tiles.wf(),
        tiles.spec_in_bounds(start),
    ensures
        mark.wf(),
        mark.width == tiles.width,
        mark.height == tiles.height,
        mark.cells() == loop_mask(tiles.cells(), tiles.width as int, tiles.height as int, start),
{
    let w = tiles.width;
    let h = tiles.height;
    let ghost tc = tiles.cells();
    let mut mark: Grid<bool> = Grid::new(w, h, false);
    let mut stack: Vec<Coord> = Vec::new();
    let ghost old_cells = mark.cells();
    mark.set(start, true);
    proof {
        lemma_true_row_update(old_cells[start.1 as int], start.0 as int, true);
        lemma_true_update(
            old_cells,
            start.1 as int,
            old_cells[start.1 as int].update(start.0 as int, true),
        );
        let p0 = seq![start];
        assert(p0.len() == 1);
        assert(p0.first() == start);
        assert(p0.last() == start);
        assert(pipe_path_ok(tc, w as int, h as int, p0));
        assert(pipe_reachable(tc, w as int, h as int, start, start));
    }
    stack.push(start);
    proof {
        assert forall|cc: Coord|
            pipe_in_grid(w as int, h as int, cc) && #[trigger] mark.cells()[cc.1 as int][cc.0 as int] implies cc
            == start by {
            if cc.0 != start.0 || cc.1 != start.1 {
                assert(mark.cells()[cc.1 as int][cc.0 as int] == old_cells[cc.1 as int][cc.0 as int]);
                assert(old_cells[cc.1 as int][cc.0 as int] == false);
            }
        }
        assert(stack@.contains(start));
    }
    while stack.len() > 0
        invariant
            tiles.wf(),
            tc == tiles.cells(),
            w == tiles.width,
            h == tiles.height,
            pipe_in_grid(w as int, h as int, start),
            mark.wf(),
            mark.width == w,
            mark.height == h,
            mark.cells()[start.1 as int][start.0 as int],
            forall|k: int|
                0 <= k < stack@.len() ==> pipe_in_grid(w as int, h as int, #[trigger] stack@[k])
                    && mark.cells()[stack@[k].1 as int][stack@[k].0 as int],
            forall|c: Coord|
                pipe_in_grid(w as int, h as int, c)
                    && #[trigger] mark.cells()[c.1 as int][c.0 as int] ==> pipe_reachable(
                    tc,
                    w as int,
                    h as int,
                    start,
                    c,
                ),
            forall|c: Coord|
                pipe_in_grid(w as int, h as int, c)
                    && #[trigger] mark.cells()[c.1 as int][c.0 as int] ==> stack@.contains(c)
                    || pipe_closed_at(tc, w as int, h as int, mark.cells(), c),
        decreases (w as int) * (h as int) - count_true(mark.cells()), stack@.len(),
    {
        let ghost pre_count = count_true(mark.cells());
        proof {
            lemma_true_bound(mark.cells(), w as int);
        }
        let ghost pre_stack = stack@;
        let c = stack.pop().unwrap();
        proof {
            assert(stack@ =~~= pre_stack.drop_last());
            assert forall|cc: Coord|
                pipe_in_grid(w as int, h as int, cc)
                    && #[trigger] mark.cells()[cc.1 as int][cc.0 as int] && cc != c implies stack@.contains(
                cc,
            ) || pipe_closed_at(tc, w as int, h as int, mark.cells(), cc) by {
                if pre_stack.contains(cc) {
                    let k = choose|k: int| 0 <= k < pre_stack.len() && pre_stack[k] == cc;
                    if k < pre_stack.len() - 1 {
                        assert(stack@[k] == cc);
                        assert(stack@.contains(cc));
                    } else {
                        assert(pre_stack[k] == c);
                    }
                }
            }
        }
        let tile = tiles.lines[c.1][c.0];
        let dirs = pipe_dirs_exec(tile);
        let ghost pre_stack_len = stack@.len();
        let mut di: usize = 0;
        let ghost mut marked_new = false;
        while di < dirs.len()
            invariant
                tiles.wf(),
                tc == tiles.cells(),
                w == tiles.width,
                h == tiles.height,
                pipe_in_grid(w as int, h as int, start),
                pipe_in_grid(w as int, h as int, c),
                tile == tc[c.1 as int][c.0 as int],
                dirs@ == pipe_dirs(tile),
                di <= dirs@.len(),
                mark.wf(),
                mark.width == w,
                mark.height == h,
                mark.cells()[start.1 as int][start.0 as int],
                mark.cells()[c.1 as int][c.0 as int],
                pipe_reachable(tc, w as int, h as int, start, c),
                forall|k: int|
                    0 <= k < stack@.len() ==> pipe_in_grid(w as int, h as int, #[trigger] stack@[k])
                        && mark.cells()[stack@[k].1 as int][stack@[k].0 as int],
                forall|cc: Coord|
                    pipe_in_grid(w as int, h as int, cc)
                        && #[trigger] mark.cells()[cc.1 as int][cc.0 as int] ==> pipe_reachable(
                        tc,
                        w as int,
                        h as int,
                        start,
                        cc,
                    ),
                forall|cc: Coord|
                    pipe_in_grid(w as int, h as int, cc)
                        && #[trigger] mark.cells()[cc.1 as int][cc.0 as int] && cc != c
                        ==> stack@.contains(cc) || pipe_closed_at(
                        tc,
                        w as int,
                        h as int,
                        mark.cells(),
                        cc,
                    ),
                forall|j: int|
                    0 <= j < di && (#[trigger] dirs@[j]).spec_step(c) is Some && pipe_in_grid(
                        w as int,
                        h as int,
                        dirs@[j].spec_step(c)->0,
                    ) ==> mark.cells()[(dirs@[j].spec_step(c)->0).1 as int][(dirs@[j].spec_step(
                        c,
                    )->0).0 as int],
                marked_new ==> count_true(mark.cells()) > pre_count,
                !marked_new ==> count_true(mark.cells()) == pre_count && stack@.len()
                    == pre_stack_len,
                count_true(mark.cells()) >= pre_count,
                stack@.len() >= pre_stack_len,
            decreases dirs@.len() - di,
        {
            let d2 = dirs[di];
            match d2.step(c) {
                Some(c2) => {
                    if c2.0 < w && c2.1 < h {
                        let already = mark.lines[c2.1][c2.0];
                        if !already {
                            let ghost pre_cells = mark.cells();
                            mark.set(c2, true);
                            proof {
                                lemma_true_row_update(pre_cells[c2.1 as int], c2.0 as int, true);
                                lemma_true_update(
                                    pre_cells,
                                    c2.1 as int,
                                    pre_cells[c2.1 as int].update(c2.0 as int, true),
                                );
                                marked_new = true;
                                assert(pipe_dirs(tile).contains(d2)) by {
                                    assert(dirs@[di as int] == d2);
                                }
                                assert(pipe_step(tc, w as int, h as int, c, c2));
                                lemma_pipe_extend(tc, w as int, h as int, start, c, c2);
                            }
                            let ghost mid_stack = stack@;
                            stack.push(c2);
                            proof {
                                assert forall|cc: Coord|
                                    pipe_in_grid(w as int, h as int, cc)
                                        && #[trigger] mark.cells()[cc.1 as int][cc.0 as int] implies (
                                pre_cells[cc.1 as int][cc.0 as int] || cc == c2) by {
                                    if cc.0 != c2.0 || cc.1 != c2.1 {
                                        assert(mark.cells()[cc.1 as int][cc.0 as int]
                                            == pre_cells[cc.1 as int][cc.0 as int]);
                                    }
                                }
                                assert forall|s3: Coord| mid_stack.contains(s3) implies #[trigger] stack@.contains(
                                    s3,
                                ) by {
                                    let k = choose|k: int|
                                        0 <= k < mid_stack.len() && mid_stack[k] == s3;
                                    assert(stack@[k] == s3);
                                }
                                assert(stack@.contains(c2)) by {
                                    assert(stack@[stack@.len() - 1] == c2);
                                }
                                assert forall|cc: Coord|
                                    pipe_in_grid(w as int, h as int, cc)
                                        && #[trigger] mark.cells()[cc.1 as int][cc.0 as int] && cc
                                        != c implies stack@.contains(cc) || pipe_closed_at(
                                    tc,
                                    w as int,
                                    h as int,
                                    mark.cells(),
                                    cc,
                                ) by {
                                    if cc != c2 {
                                        assert(pre_cells[cc.1 as int][cc.0 as int]);
                                        if pipe_closed_at(tc, w as int, h as int, pre_cells, cc) {
                                            assert forall|n2: Coord|
                                                #[trigger] pipe_step(tc, w as int, h as int, cc, n2)
                                                    && pipe_in_grid(w as int, h as int, n2) implies mark.cells()[n2.1 as int][n2.0 as int] by {
                                                assert(pre_cells[n2.1 as int][n2.0 as int]);
                                                if n2.0 != c2.0 || n2.1 != c2.1 {
                                                    assert(mark.cells()[n2.1 as int][n2.0 as int]
                                                        == pre_cells[n2.1 as int][n2.0 as int]);
                                                }
                                            }
                                        }
                                    }
                                }
                            }
                        }
                    }
                },
                None => {},
            }
            di = di + 1;
        }
        proof {
            assert(pipe_closed_at(tc, w as int, h as int, mark.cells(), c)) by {
                assert forall|c2: Coord|
                    #[trigger] pipe_step(tc, w as int, h as int, c, c2) && pipe_in_grid(
                        w as int,
                        h as int,
                        c2,
                    ) implies mark.cells()[c2.1 as int][c2.0 as int] by {
                    let d = choose|d: Dir|
                        pipe_dirs(tc[c.1 as int][c.0 as int]).contains(d) && #[trigger] d.spec_step(
                            c,
                        ) == Some(c2);
                    let j = choose|j: int| 0 <= j < dirs@.len() && dirs@[j] == d;
                    assert(dirs@[j].spec_step(c) == Some(c2));
                }
            }
            lemma_true_bound(mark.cells(), w as int);
        }
    }
    proof {
        assert forall|c: Coord|
            pipe_in_grid(w as int, h as int, c) && #[trigger] mark.cells()[c.1 as int][c.0 as int] implies pipe_closed_at(
            tc,
            w as int,
            h as int,
            mark.cells(),
            c,
        ) by {
            assert(!stack@.contains(c)) by {
                if stack@.contains(c) {
                    let k = choose|k: int| 0 <= k < stack@.len() && stack@[k] == c;
                }
            }
        }
        assert forall|y: int, x: int| 0 <= y < h && 0 <= x < w implies #[trigger] mark.cells()[y][x]
            == loop_mask(tc, w as int, h as int, start)[y][x] by {
            let c: Coord = (x as usize, y as usize);
            assert(c.1 as int == y && c.0 as int == x);
            assert(loop_mask(tc, w as int, h as int, start)[y][x] == pipe_reachable(
                tc,
                w as int,
                h as int,
                start,
                c,
            ));
            if mark.cells()[y][x] {
                assert(mark.cells()[c.1 as int][c.0 as int]);
                assert(pipe_reachable(tc, w as int, h as int, start, c));
            } else {
                assert(!mark.cells()[c.1 as int][c.0 as int]);
                if pipe_reachable(tc, w as int, h as int, start, c) {
                    let p = choose|p: Seq<Coord>|
                        pipe_path_ok(tc, w as int, h as int, p) && p.first() == start && p.last()
                            == c;
                    lemma_pipe_path_marked(tc, w as int, h as int, mark.cells(), p);
                }
            }
        }
        assert(mark.cells() =~~= loop_mask(tc, w as int, h as int, start));
    }
    mark
}

/// The scanline parity rule over the cells of one row from position `i`
/// on, given the classification state so far: `inside` is the parity,
/// `in_wall` whether a horizontal run of loop cells is being crossed, and
/// `from_below` whether that run was entered through a downward-opening
/// corner; `acc` holds the cells already classified.
pub open spec fn classify_from(
    row: Seq<Tile>,
    i: int,
    inside: bool,
    in_wall: bool,
    from_below: bool,
    acc: Seq<Tile>,
) -> Seq<Tile>
    decreases row.len() - i,
{
    if i < 0 || i >= row.len() {
        acc
    } else {
        let t = row[i];
        if t.status is MainLoop {
            if !in_wall && !spec_connects_left(t.tile) {
                if spec_connects_right(t.tile) {
                    classify_from(row, i + 1, inside, true, spec_connects_down(t.tile), acc.push(t))
                } else {
                    classify_from(row, i + 1, !inside, false, from_below, acc.push(t))
                }
            } else if in_wall && !spec_connects_right(t.tile) {
                if from_below != spec_connects_down(t.tile) {
                    classify_from(row, i + 1, !inside, false, from_below, acc.push(t))
                } else {
                    classify_from(row, i + 1, inside, false, from_below, acc.push(t))
                }
            } else {
                classify_from(row, i + 1, inside, in_wall, from_below, acc.push(t))
            }
        } else {
            classify_from(
                row,
                i + 1,
                inside,
                in_wall,
                from_below,
                acc.push(
                    Tile {
                        tile: t.tile,
                        status: if inside {
                            InOutStatus::Inside
                        } else {
                            InOutStatus::Outside
                        },
                    },
                ),
            )
        }
    }
}

/// One row classified by the scanline parity rule, starting outside.
pub open spec fn classify_row(row: Seq<Tile>) -> Seq<Tile> {
    classify_from(row, 0, false, false, false, Seq::empty())
}

/// Classifies every non-loop cell of every row as inside or outside by
/// the scanline parity rule; loop cells are kept as they are.
pub fn color_inside_outside(maze: &Grid<Tile>) -> (r: Grid<Tile>)
    requires
        maze.wf(),
    ensures
        r.wf(),
        r.width == maze.width,
        r.height == maze.height,
        forall|y: int| 0 <= y < maze.height ==> #[trigger] r.cells()[y] == classify_row(
            maze.cells()[y],
        ),
{
    let mut lines: Vec<Vec<Tile>> = Vec::new();
    let mut y: usize = 0;
    while y < maze.height
        invariant
            maze.wf(),
            y <= maze.height,
            lines@.len() == y,
            forall|j: int| 0 <= j < y ==> (#[trigger] lines@[j])@.len() == maze.width,
            forall|j: int| 0 <= j < y ==> (#[trigger] lines@[j])@ == classify_row(maze.cells()[j]),
        decreases maze.height - y,
    {
        let ghost row = maze.cells()[y as int];
        let mut acc: Vec<Tile> = Vec::new();
        let mut inside = false;
        let mut in_wall = false;
        let mut from_below = false;
        let mut x: usize = 0;
        proof {
            assert(acc@ =~~= Seq::<Tile>::empty());
        }
        while x < maze.width
            invariant
                maze.wf(),
                y < maze.height,
                row == maze.cells()[y as int],
                x <= maze.width,
                acc@.len() == x,
                classify_row(row) == classify_from(
                    row,
                    x as int,
                    inside,
                    in_wall,
                    from_below,
                    acc@,
                ),
            decreases maze.width - x,
        {
            let t = maze.lines[y][x];
            let ghost prev_acc = acc@;
            proof {
                assert(t == row[x as int]);
            }
            if matches!(t.status, InOutStatus::MainLoop) {
                if !in_wall && !connects_left(&t.tile) {
                    if connects_right(&t.tile) {
                        in_wall = true;
                        from_below = connects_down(&t.tile);
                    } else {
                        inside = !inside;
                        in_wall = false;
                    }
                } else if in_wall && !connects_right(&t.tile) {
                    in_wall = false;
                    if from_below != connects_down(&t.tile) {
                        inside = !inside;
                    }
                }
                acc.push(t);
            } else {
                acc.push(
                    Tile {
                        tile: t.tile,
                        status: if inside {
                            InOutStatus::Inside
                        } else {
                            InOutStatus::Outside
                        },
                    },
                );
            }
            x = x + 1;
        }
        proof {
            assert(acc@ == classify_row(row));
        }
        lines.push(acc);
        y = y + 1;
    }
    let g = Grid { lines, width: maze.width, height: maze.height };
    proof {
        assert forall|j: int| 0 <= j < maze.height implies (#[trigger] g.cells()[j])
            == classify_row(maze.cells()[j]) by {
            assert(g.cells()[j] == g.lines@[j]@);
        }
        assert(g.wf()) by {
            assert forall|j: int| 0 <= j < g.lines@.len() implies (#[trigger] g.lines@[j])@.len()
                == g.width by {
                lemma_classify_len(maze.cells()[j], 0, false, false, false, Seq::empty());
            }
        }
    }
    g
}

/// The scanline keeps the row length: it classifies cell for cell.
pub proof fn lemma_classify_len(
    row: Seq<Tile>,
    i: int,
    inside: bool,
    in_wall: bool,
    from_below: bool,
    acc: Seq<Tile>,
)
    requires
        0 <= i <= row.len(),
    ensures
        classify_from(row, i, inside, in_wall, from_below, acc).len() == acc.len() + row.len() - i,
    decreases row.len() - i,
{
    if i < row.len() {
        let t = row[i];
        if t.status is MainLoop {
            if !in_wall && !spec_connects_left(t.tile) {
                if spec_connects_right(t.tile) {
                    lemma_classify_len(
                        row,
                        i + 1,
                        inside,
                        true,
                        spec_connects_down(t.tile),
                        acc.push(t),
                    );
                } else {
                    lemma_classify_len(row, i + 1, !inside, false, from_below, acc.push(t));
                }
            } else if in_wall && !spec_connects_right(t.tile) {
                if from_below != spec_connects_down(t.tile) {
                    lemma_classify_len(row, i + 1, !inside, false, from_below, acc.push(t));
                } else {
                    lemma_classify_len(row, i + 1, inside, false, from_below, acc.push(t));
                }
            } else {
                lemma_classify_len(row, i + 1, inside, in_wall, from_below, acc.push(t));
            }
        } else {
            lemma_classify_len(
                row,
                i + 1,
                inside,
                in_wall,
                from_below,
                acc.push(
                    Tile {
                        tile: t.tile,
                        status: if inside {
                            InOutStatus::Inside
                        } else {
                            InOutStatus::Outside
                        },
                    },
                ),
            );
        }
    }
}

/// The number of cells of one row classified as inside.
pub open spec fn count_inside_row(row: Seq<Tile>) -> int
    decreases row.len(),
{
    if row.len() == 0 {
        0
    } else {
        count_inside_row(row.drop_last()) + if row.last().status is Inside {
            1int
        } else {
            0int
        }
    }
}

/// The number of cells of a maze classified as inside.
pub open spec fn count_inside_cells(cells: Seq<Seq<Tile>>) -> int
    decreases cells.len(),
{
    if cells.len() == 0 {
        0
    } else {
        count_inside_cells(cells.drop_last()) + count_inside_row(cells.last())
    }
}

/// The number of cells classified as inside the loop.
pub fn count_inside(maze: &Grid<Tile>) -> (r: usize)
    requires
        maze.wf(),
        maze.width * maze.height <= usize::MAX,
    ensures
        r == count_inside_cells(maze.cells()),
{
    let h = maze.height;
    let mut total: usize = 0;
    let mut y: usize = 0;
    proof {
        assert(maze.cells().take(0) =~~= Seq::<Seq<Tile>>::empty());
    }
    while y < h
        invariant
            maze.wf(),
            h == maze.height,
            maze.width * maze.height <= usize::MAX,
            y <= h,
            total == count_inside_cells(maze.cells().take(y as int)),
            total <= y * maze.width,
        decreases h - y,
    {
        let w = maze.width;
        let mut x: usize = 0;
        let mut row_count: usize = 0;
        proof {
            assert(maze.cells()[y as int].take(0) =~~= Seq::<Tile>::empty());
        }
        while x < w
            invariant
                maze.wf(),
                h == maze.height,
                w == maze.width,
                y < h,
                x <= w,
                row_count == count_inside_row(maze.cells()[y as int].take(x as int)),
                row_count <= x,
            decreases w - x,
        {
            let t = maze.lines[y][x];
            if matches!(t.status, InOutStatus::Inside) {
                row_count = row_count + 1;
            }
            proof {
                assert(maze.cells()[y as int].take(x as int + 1).drop_last() =~~= maze.cells()[y as int].take(x as int));
                assert(maze.cells()[y as int].take(x as int + 1).last() == maze.cells()[y as int][x as int]);
            }
            x = x + 1;
        }
        proof {
            assert(maze.cells()[y as int].take(w as int) =~~= maze.cells()[y as int]);
            assert(maze.cells().take(y as int + 1).drop_last() =~~= maze.cells().take(y as int));
            assert(maze.cells().take(y as int + 1).last() == maze.cells()[y as int]);
            vstd::arithmetic::mul::lemma_mul_is_distributive_add_other_way(
                maze.width as int,
                y as int,
                1,
            );
            vstd::arithmetic::mul::lemma_mul_inequality(y as int + 1, h as int, maze.width as int);
            vstd::arithmetic::mul::lemma_mul_is_commutative(maze.width as int, h as int);
        }
        total = total + row_count;
        y = y + 1;
    }
    proof {
        assert(maze.cells().take(h as int) =~~= maze.cells());
    }
    total
}

} // verus!
