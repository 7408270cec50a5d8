//! Beam propagation through a grid of mirrors and splitters. A beam state
//! is a cell together with a travel direction; propagation marks every
//! state reachable from the entry state, and the energized count is the
//! number of cells crossed by at least one beam.
use vstd::prelude::*;
use vstd::string::StringSliceAdditionalSpecFns;

use crate::ParseError;
use crate::parse_error;
use crate::grid::Coord;
use crate::grid::Dir;
use crate::grid::Grid;
use crate::grid::rectangular;
use crate::grid::spec_lines;

verus! {

/// What stands in one cell of the contraption.
#[derive(Debug, Clone, Copy, PartialEq, Eq, Structural)]
pub enum TileKind {
    Empty,
    MirrorSlash,
    MirrorBack,
    SplitV,
    SplitH,
}

/// Which of the four travel directions have already crossed a cell.
#[derive(Debug, Clone, Copy, PartialEq, Eq, Structural)]
pub struct BeamMask {
    pub up: bool,
    pub down: bool,
    pub left: bool,
    pub right: bool,
}

impl BeamMask {
    /// The mask with no direction marked.
    pub open spec fn empty_spec() -> BeamMask {
        BeamMask { up: false, down: false, left: false, right: false }
    }

    /// Whether direction `d` is marked.
    pub open spec fn spec_has(self, d: Dir) -> bool {
        match d {
            Dir::Up => self.up,
            Dir::Down => self.down,
            Dir::Left => self.left,
            Dir::Right => self.right,
        }
    }

    /// The mask with direction `d` marked in addition.
    pub open spec fn spec_with(self, d: Dir) -> BeamMask {
        match d {
            Dir::Up => BeamMask { up: true, ..self },
            Dir::Down => BeamMask { down: true, ..self },
            Dir::Left => BeamMask { left: true, ..self },
            Dir::Right => BeamMask { right: true, ..self },
        }
    }

    /// The number of marked directions.
    pub open spec fn bits(self) -> int {
        (if self.up {
            1int
        } else {
            0int
        }) + (if self.down {
            1int
        } else {
            0int
        }) + (if self.left {
            1int
        } else {
            0int
        }) + (if self.right {
            1int
        } else {
            0int
        })
    }

    /// Whether any direction is marked.
    pub open spec fn spec_any(self) -> bool {
        self.up || self.down || self.left || self.right
    }
}

/// The reflection of a travel direction at a `/` mirror.
pub open spec fn slash_reflect(dir: Dir) -> Dir {
    match dir {
        Dir::Up => Dir::Right,
        Dir::Left => Dir::Down,
        Dir::Down => Dir::Left,
        Dir::Right => Dir::Up,
    }
}

/// The outgoing travel directions of a beam that enters a tile of kind
/// `kind` travelling in `dir`.
pub open spec fn spec_out_dirs(kind: TileKind, dir: Dir) -> Seq<Dir> {
    match kind {
        TileKind::Empty => seq![dir],
        TileKind::SplitV => match dir {
            Dir::Up => seq![dir],
            Dir::Down => seq![dir],
            Dir::Left => seq![Dir::Up, Dir::Down],
            Dir::Right => seq![Dir::Up, Dir::Down],
        },
        TileKind::SplitH => match dir {
            Dir::Left => seq![dir],
            Dir::Right => seq![dir],
            Dir::Up => seq![Dir::Left, Dir::Right],
            Dir::Down => seq![Dir::Left, Dir::Right],
        },
        TileKind::MirrorSlash => seq![slash_reflect(dir)],
        TileKind::MirrorBack => seq![slash_reflect(dir.spec_reverse())],
    }
}

/// The opposite travel direction.
pub fn flip(dir: Dir) -> (r: Dir)
    ensures
        r == dir.spec_reverse(),
{
    dir.reverse()
}

/// The direction a beam travelling in `dir` leaves a mirror tile in:
/// `MirrorBack` behaves like `MirrorSlash` with the direction flipped.
pub fn reflect(dir: Dir, mirror: TileKind) -> (r: Dir)
    ensures
        mirror is MirrorSlash ==> r == slash_reflect(dir),
        mirror is MirrorBack ==> r == slash_reflect(dir.spec_reverse()),
        !(mirror is MirrorSlash) && !(mirror is MirrorBack) ==> r == dir,
{
    let d = if matches!(mirror, TileKind::MirrorBack) {
        dir.reverse()
    } else {
        dir
    };
    match mirror {
        TileKind::MirrorSlash | TileKind::MirrorBack => match d {
            Dir::Up => Dir::Right,
            Dir::Left => Dir::Down,
            Dir::Down => Dir::Left,
            Dir::Right => Dir::Up,
        },
        _ => dir,
    }
}

/// Whether `c` addresses a cell of a `w` × `h` grid.
pub open spec fn in_grid(w: int, h: int, c: Coord) -> bool {
    (c.0 as int) < w && (c.1 as int) < h
}

/// One beam step: from state `s`, the beam leaves the tile in one of its
/// outgoing directions and lands on the adjacent cell in that direction.
pub open spec fn propagates(
    tiles: Seq<Seq<TileKind>>,
    w: int,
    h: int,
    s: (Coord, Dir),
    s2: (Coord, Dir),
) -> bool {
    &&& in_grid(w, h, s.0)
    &&& spec_out_dirs(tiles[s.0.1 as int][s.0.0 as int], s.1).contains(s2.1)
    &&& s2.1.spec_step(s.0) == Some(s2.0)
}

/// A non-empty sequence of in-bounds beam states, each step following
/// from the one before.
pub open spec fn beam_path_ok(
    tiles: Seq<Seq<TileKind>>,
    w: int,
    h: int,
    p: Seq<(Coord, Dir)>,
) -> bool {
    &&& p.len() >= 1
    &&& forall|i: int| 0 <= i < p.len() ==> in_grid(w, h, (#[trigger] p[i]).0)
    &&& forall|i: int| 0 <= i < p.len() - 1 ==> propagates(tiles, w, h, #[trigger] p[i], p[i + 1])
}

/// Whether the beam entering at `from` eventually crosses state `to`.
pub open spec fn beam_reachable(
    tiles: Seq<Seq<TileKind>>,
    w: int,
    h: int,
    from: (Coord, Dir),
    to: (Coord, Dir),
) -> bool {
    exists|p: Seq<(Coord, Dir)>|
        beam_path_ok(tiles, w, h, p) && p.first() == from && p.last() == to
}

/// The per-cell visited marks of the beam entering at `from`: each
/// direction bit of each cell says whether that state is reachable.
pub open spec fn reach_mask(
    tiles: Seq<Seq<TileKind>>,
    w: int,
    h: int,
    from: (Coord, Dir),
) -> Seq<Seq<BeamMask>> {
    Seq::new(
        h as nat,
        |y: int|
            Seq::new(
                w as nat,
                |x: int|
                    BeamMask {
                        up: beam_reachable(tiles, w, h, from, (((x as usize, y as usize)), Dir::Up)),
                        down: beam_reachable(
                            tiles,
                            w,
                            h,
                            from,
                            (((x as usize, y as usize)), Dir::Down),
                        ),
                        left: beam_reachable(
                            tiles,
                            w,
                            h,
                            from,
                            (((x as usize, y as usize)), Dir::Left),
                        ),
                        right: beam_reachable(
                            tiles,
                            w,
                            h,
                            from,
                            (((x as usize, y as usize)), Dir::Right),
                        ),
                    },
            ),
    )
}

/// The number of marked direction bits in one row.
pub open spec fn count_marked_row(row: Seq<BeamMask>) -> int
    decreases row.len(),
{
    if row.len() == 0 {
        0
    } else {
        count_marked_row(row.drop_last()) + row.last().bits()
    }
}

/// The number of marked direction bits in the whole mask grid.
pub open spec fn count_marked(cells: Seq<Seq<BeamMask>>) -> int
    decreases cells.len(),
{
    if cells.len() == 0 {
        0
    } else {
        count_marked(cells.drop_last()) + count_marked_row(cells.last())
    }
}

/// Updating one mask in a row changes the row's bit count by the
/// difference of the two masks.
proof fn lemma_count_row_update(row: Seq<BeamMask>, i: int, v: BeamMask)
    requires
        0 <= i < row.len(),
    ensures
        count_marked_row(row.update(i, v)) == count_marked_row(row) - row[i].bits() + v.bits(),
    decreases row.len(),
{
    if i == row.len() - 1 {
        assert(row.update(i, v).drop_last() =~~= row.drop_last());
        assert(row.update(i, v).last() == v);
    } else {
        lemma_count_row_update(row.drop_last(), i, v);
        assert(row.update(i, v).drop_last() =~~= row.drop_last().update(i, v));
        assert(row.update(i, v).last() == row.last());
    }
}

/// Updating one row of the mask grid changes the total bit count by the
/// difference of the two rows' counts.
proof fn lemma_count_update(cells: Seq<Seq<BeamMask>>, y: int, row: Seq<BeamMask>)
    requires
        0 <= y < cells.len(),
    ensures
        count_marked(cells.update(y, row)) == count_marked(cells) - count_marked_row(cells[y])
            + count_marked_row(row),
    decreases cells.len(),
{
    if y == cells.len() - 1 {
        assert(cells.update(y, row).drop_last() =~~= cells.drop_last());
        assert(cells.update(y, row).last() == row);
    } else {
        lemma_count_update(cells.drop_last(), y, row);
        assert(cells.update(y, row).drop_last() =~~= cells.drop_last().update(y, row));
        assert(cells.update(y, row).last() == cells.last());
    }
}

/// A row of `n` masks holds at most `4 n` marked bits.
proof fn lemma_count_row_bound(row: Seq<BeamMask>)
    ensures
        0 <= count_marked_row(row) <= 4 * row.len(),
    decreases row.len(),
{
    if row.len() > 0 {
        lemma_count_row_bound(row.drop_last());
    }
}

/// A mask grid of `h` rows of `w` masks holds at most `4 w h` marked
/// bits.
proof fn lemma_count_bound(cells: Seq<Seq<BeamMask>>, w: int)
    requires
        forall|y: int| 0 <= y < cells.len() ==> (#[trigger] cells[y]).len() == w,
    ensures
        0 <= count_marked(cells) <= 4 * w * cells.len(),
    decreases cells.len(),
{
    if cells.len() > 0 {
        lemma_count_bound(cells.drop_last(), w);
        lemma_count_row_bound(cells.last());
        assert(cells.last().len() == w);
        vstd::arithmetic::mul::lemma_mul_is_distributive_add(4 * w, cells.len() - 1, 1);
    } else {
        vstd::arithmetic::mul::lemma_mul_by_zero_is_zero(4 * w);
    }
}

/// Whether the mask grid marks state `(c, d)`.
pub open spec fn mask_has(mask: Seq<Seq<BeamMask>>, c: Coord, d: Dir) -> bool {
    mask[c.1 as int][c.0 as int].spec_has(d)
}

/// Every marked state has all its successors marked, unless it still
/// waits on the worklist.
pub open spec fn beam_closed_at(
    tiles: Seq<Seq<TileKind>>,
    w: int,
    h: int,
    mask: Seq<Seq<BeamMask>>,
    s: (Coord, Dir),
) -> bool {
    forall|s2: (Coord, Dir)|
        #[trigger] propagates(tiles, w, h, s, s2) && in_grid(w, h, s2.0) ==> mask_has(
            mask,
            s2.0,
            s2.1,
        )
}

/// Appending one propagation step to a path keeps it a path.
proof fn lemma_reach_extend(
    tiles: Seq<Seq<TileKind>>,
    w: int,
    h: int,
    from: (Coord, Dir),
    s: (Coord, Dir),
    s2: (Coord, Dir),
)
    requires
        beam_reachable(tiles, w, h, from, s),
        propagates(tiles, w, h, s, s2),
        in_grid(w, h, s2.0),
    ensures
        beam_reachable(tiles, w, h, from, s2),
{
    let p = choose|p: Seq<(Coord, Dir)>|
        beam_path_ok(tiles, w, h, p) && p.first() == from && p.last() == s;
    let p2 = p.push(s2);
    assert(beam_path_ok(tiles, w, h, p2)) by {
        assert(forall|i: int| 0 <= i < p.len() ==> p2[i] == p[i]);
        assert(p2[p2.len() - 1] == s2);
        assert(p2[p.len() - 1] == p.last());
    }
    assert(p2.first() == from && p2.last() == s2);
}

/// In a mask closed under propagation that marks the entry state, every
/// state a beam path reaches is marked.
proof fn lemma_path_marked(
    tiles: Seq<Seq<TileKind>>,
    w: int,
    h: int,
    mask: Seq<Seq<BeamMask>>,
    p: Seq<(Coord, Dir)>,
)
    requires
        beam_path_ok(tiles, w, h, p),
        mask_has(mask, p.first().0, p.first().1),
        forall|s: (Coord, Dir)|
            in_grid(w, h, s.0) && #[trigger] mask_has(mask, s.0, s.1) ==> beam_closed_at(
                tiles,
                w,
                h,
                mask,
                s,
            ),
    ensures
        mask_has(mask, p.last().0, p.last().1),
    decreases p.len(),
{
    if p.len() > 1 {
        let q = p.drop_last();
        assert(beam_path_ok(tiles, w, h, q)) by {
            assert(forall|i: int| 0 <= i < q.len() ==> q[i] == p[i]);
        }
        lemma_path_marked(tiles, w, h, mask, q);
        let prev = q.last();
        assert(prev == p[p.len() - 2]);
        assert(propagates(tiles, w, h, prev, p.last()));
        assert(in_grid(w, h, prev.0));
        assert(beam_closed_at(tiles, w, h, mask, prev));
    }
}

/// The tile a contraption symbol denotes.
pub open spec fn spec_beam_tile(b: u8) -> TileKind {
    if b == 47 {
        TileKind::MirrorSlash
    } else if b == 92 {
        TileKind::MirrorBack
    } else if b == 124 {
        TileKind::SplitV
    } else if b == 45 {
        TileKind::SplitH
    } else {
        TileKind::Empty
    }
}

/// Whether a byte is one of the five contraption symbols.
pub open spec fn valid_beam_byte(b: u8) -> bool {
    b == 46 || b == 47 || b == 92 || b == 124 || b == 45
}

/// Parses a contraption: `.` passes beams through, `/` and `\` are
/// mirrors, `|` and `-` are splitters. Any other byte is rejected.
pub fn parse_tiles(input: &str) -> (r: Result<Grid<TileKind>, ParseError>)
    ensures
        r is Ok ==> {
            let rows = spec_lines(input.spec_bytes());
            &&& rows.len() > 0
            &&& rectangular(rows)
            &&& r->Ok_0.wf()
            &&& r->Ok_0.height == rows.len()
            &&& r->Ok_0.width == rows[0].len()
            &&& forall|y: int, x: int|
                0 <= y < rows.len() && 0 <= x < rows[0].len() ==> #[trigger] r->Ok_0.cells()[y][x]
                    == spec_beam_tile(rows[y][x])
        },
        r is Err ==> {
            let rows = spec_lines(input.spec_bytes());
            rows.len() == 0 || !rectangular(rows) || exists|y: int, x: int|
                0 <= y < rows.len() && 0 <= x < rows[0].len() && !valid_beam_byte(
                    #[trigger] rows[y][x],
                )
        },
{
    let bytes = Grid::<u8>::from_lines(input)?;
    let mut lines: Vec<Vec<TileKind>> = Vec::new();
    let mut y: usize = 0;
    let ghost rows = spec_lines(input.spec_bytes());
    while y < bytes.lines.len()
        invariant
            bytes.wf(),
            rows == spec_lines(input.spec_bytes()),
            bytes.cells() == rows,
            rows.len() > 0,
            rectangular(rows),
            bytes.height == rows.len(),
            bytes.width == rows[0].len(),
            y <= bytes.height,
            lines@.len() == y,
            forall|j: int| 0 <= j < y ==> (#[trigger] lines@[j])@.len() == bytes.width,
            forall|j: int, x: int|
                0 <= j < y && 0 <= x < bytes.width ==> #[trigger] lines@[j]@[x] == spec_beam_tile(
                    rows[j][x],
                ),
        decreases bytes.lines@.len() - y,
    {
        let mut line: Vec<TileKind> = Vec::new();
        let mut x: usize = 0;
        while x < bytes.lines[y].len()
            invariant
                bytes.wf(),
                rows == spec_lines(input.spec_bytes()),
                bytes.cells() == rows,
                rows.len() > 0,
                rectangular(rows),
                bytes.height == rows.len(),
                bytes.width == rows[0].len(),
                y < bytes.height,
                x <= bytes.width,
                line@.len() == x,
                forall|i: int|
                    0 <= i < x ==> #[trigger] line@[i] == spec_beam_tile(rows[y as int][i]),
            decreases bytes.lines@[y as int]@.len() - x,
        {
            let b = bytes.lines[y][x];
            assert(b == rows[y as int][x as int]);
            let t = match b {
                46u8 => TileKind::Empty,
                47u8 => TileKind::MirrorSlash,
                92u8 => TileKind::MirrorBack,
                124u8 => TileKind::SplitV,
                45u8 => TileKind::SplitH,
                _ => {
                    assert(!valid_beam_byte(rows[y as int][x as int]));
                    return Err(parse_error(input, "unrecognized contraption symbol"));
                },
            };
            line.push(t);
            x = x + 1;
        }
        lines.push(line);
        y = y + 1;
    }
    let g = Grid { lines, width: bytes.width, height: bytes.height };
    assert(g.wf());
    Ok(g)
}

/// The outgoing directions of a beam at a tile, as a value.
pub fn out_dirs(kind: TileKind, dir: Dir) -> (r: Vec<Dir>)
    ensures
        r@ == spec_out_dirs(kind, dir),
{
    let mut r: Vec<Dir> = Vec::new();
    match kind {
        TileKind::Empty => {
            r.push(dir);
        },
        TileKind::SplitV => {
            match dir {
                Dir::Up => r.push(dir),
                Dir::Down => r.push(dir),
                _ => {
                    r.push(Dir::Up);
                    r.push(Dir::Down);
                },
            }
        },
        TileKind::SplitH => {
            match dir {
                Dir::Left => r.push(dir),
                Dir::Right => r.push(dir),
                _ => {
                    r.push(Dir::Left);
                    r.push(Dir::Right);
                },
            }
        },
        TileKind::MirrorSlash => {
            match dir {
                Dir::Up => r.push(Dir::Right),
                Dir::Left => r.push(Dir::Down),
                Dir::Down => r.push(Dir::Left),
                Dir::Right => r.push(Dir::Up),
            }
        },
        TileKind::MirrorBack => {
            match dir {
                Dir::Up => r.push(Dir::Left),
                Dir::Left => r.push(Dir::Up),
                Dir::Down => r.push(Dir::Right),
                Dir::Right => r.push(Dir::Down),
            }
        },
    }
    assert(r@ =~~= spec_out_dirs(kind, dir));
    r
}

/// Marks every beam state reachable from `(entry, dir)`: bit `d` of cell
/// `c` is set exactly when the beam crosses `c` travelling in `d`.
#[verifier::rlimit(100)]
pub fn propagate(tiles: &Grid<TileKind>, entry: Coord, dir: Dir) -> (mask: Grid<BeamMask>)
    requires
        tiles.wf(),
    ensures
        mask.wf(),
        mask.width == tiles.width,
        mask.height == tiles.height,
        tiles.spec_in_bounds(entry) ==> mask.cells() == reach_mask(
            tiles.cells(),
            tiles.width as int,
            tiles.height as int,
            (entry, dir),
        ),
        !tiles.spec_in_bounds(entry) ==> forall|y: int, x: int|
            0 <= y < tiles.height && 0 <= x < tiles.width ==> #[trigger] mask.cells()[y][x]
                == BeamMask::empty_spec(),
{
    let w = tiles.width;
    let h = tiles.height;
    let ghost tc = tiles.cells();
    let ghost from = (entry, dir);
    let mut mask: Grid<BeamMask> = Grid::new(
        w,
        h,
        BeamMask { up: false, down: false, left: false, right: false },
    );
    proof {
        lemma_count_bound(mask.cells(), w as int);
        assert forall|y: int| 0 <= y < h implies count_marked_row(#[trigger] mask.cells()[y])
            == 0 by {
            lemma_row_all_empty(mask.cells()[y]);
        }
        lemma_grid_all_empty(mask.cells());
    }
    if entry.0 >= w || entry.1 >= h {
        return mask;
    }
    let mut stack: Vec<(Coord, Dir)> = Vec::new();
    let first_mask = BeamMask { up: false, down: false, left: false, right: false };
    let ghost old_cells = mask.cells();
    mask.set(entry, set_dir(first_mask, dir));
    proof {
        lemma_count_row_update(old_cells[entry.1 as int], entry.0 as int, set_dir_spec(first_mask, dir));
        lemma_count_update(old_cells, entry.1 as int, old_cells[entry.1 as int].update(entry.0 as int, set_dir_spec(first_mask, dir)));
        let p0 = seq![from];
        assert(p0.len() == 1);
        assert(p0.first() == from);
        assert(p0.last() == from);
        assert(beam_path_ok(tc, w as int, h as int, p0));
        assert(beam_reachable(tc, w as int, h as int, from, from));
    }
    stack.push((entry, dir));
    proof {
        assert forall|cc: Coord, dd: Dir|
            in_grid(w as int, h as int, cc) && #[trigger] mask_has(mask.cells(), cc, dd) implies (cc
            == entry && dd == dir) by {
            if cc.0 != entry.0 || cc.1 != entry.1 {
                assert(mask.cells()[cc.1 as int][cc.0 as int] == old_cells[cc.1 as int][cc.0 as int]);
                assert(old_cells[cc.1 as int][cc.0 as int] == BeamMask::empty_spec());
            } else {
                assert(mask.cells()[cc.1 as int][cc.0 as int] == set_dir_spec(first_mask, dir));
            }
        }
        assert(stack@.contains((entry, dir)));
    }
    while stack.len() > 0
        invariant
            tiles.wf(),
            tc == tiles.cells(),
            w == tiles.width,
            h == tiles.height,
            from == (entry, dir),
            in_grid(w as int, h as int, entry),
            mask.wf(),
            mask.width == w,
            mask.height == h,
            mask_has(mask.cells(), entry, dir),
            // every stacked state is marked and in bounds
            forall|k: int|
                0 <= k < stack@.len() ==> in_grid(w as int, h as int, (#[trigger] stack@[k]).0)
                    && mask_has(mask.cells(), stack@[k].0, stack@[k].1),
            // soundness: every marked state is reachable
            forall|c: Coord, d: Dir|
                in_grid(w as int, h as int, c) && #[trigger] mask_has(mask.cells(), c, d)
                    ==> beam_reachable(tc, w as int, h as int, from, (c, d)),
            // closure except for stacked states
            forall|c: Coord, d: Dir|
                in_grid(w as int, h as int, c) && #[trigger] mask_has(mask.cells(), c, d)
                    ==> stack@.contains((c, d)) || beam_closed_at(
                    tc,
                    w as int,
                    h as int,
                    mask.cells(),
                    (c, d),
                ),
        decreases 4 * (w as int) * (h as int) - count_marked(mask.cells()), stack@.len(),
    {
        let ghost pre_count = count_marked(mask.cells());
        proof {
            lemma_count_bound(mask.cells(), w as int);
        }
        let ghost pre_stack = stack@;
        let s = stack.pop().unwrap();
        let (c, d) = s;
        proof {
            assert(stack@ =~~= pre_stack.drop_last());
            assert forall|cc: Coord, dd: Dir|
                in_grid(w as int, h as int, cc) && #[trigger] mask_has(mask.cells(), cc, dd) && !(cc
                == c && dd == d) implies stack@.contains((cc, dd)) || beam_closed_at(
                tc,
                w as int,
                h as int,
                mask.cells(),
                (cc, dd),
            ) by {
                if pre_stack.contains((cc, dd)) {
                    let k = choose|k: int| 0 <= k < pre_stack.len() && pre_stack[k] == (cc, dd);
                    if k < pre_stack.len() - 1 {
                        assert(stack@[k] == (cc, dd));
                        assert(stack@.contains((cc, dd)));
                    } else {
                        assert(pre_stack[k] == s);
                    }
                }
            }
        }
        let kind = tiles.lines[c.1][c.0];
        let dirs = out_dirs(kind, d);
        let ghost pre_stack_len = stack@.len();
        let mut di: usize = 0;
        let ghost mut marked_new = false;
        while di < dirs.len()
            invariant
                tiles.wf(),
                tc == tiles.cells(),
                w == tiles.width,
                h == tiles.height,
                from == (entry, dir),
                in_grid(w as int, h as int, entry),
                in_grid(w as int, h as int, c),
                kind == tc[c.1 as int][c.0 as int],
                dirs@ == spec_out_dirs(kind, d),
                di <= dirs@.len(),
                mask.wf(),
                mask.width == w,
                mask.height == h,
                mask_has(mask.cells(), entry, dir),
                mask_has(mask.cells(), c, d),
                beam_reachable(tc, w as int, h as int, from, (c, d)),
                forall|k: int|
                    0 <= k < stack@.len() ==> in_grid(w as int, h as int, (#[trigger] stack@[k]).0)
                        && mask_has(mask.cells(), stack@[k].0, stack@[k].1),
                forall|cc: Coord, dd: Dir|
                    in_grid(w as int, h as int, cc) && #[trigger] mask_has(mask.cells(), cc, dd)
                        ==> beam_reachable(tc, w as int, h as int, from, (cc, dd)),
                forall|cc: Coord, dd: Dir|
                    in_grid(w as int, h as int, cc) && #[trigger] mask_has(mask.cells(), cc, dd)
                        && !(cc == c && dd == d) ==> stack@.contains((cc, dd)) || beam_closed_at(
                        tc,
                        w as int,
                        h as int,
                        mask.cells(),
                        (cc, dd),
                    ),
                // processed outgoing directions have their landing states marked
                forall|j: int|
                    0 <= j < di && (#[trigger] dirs@[j]).spec_step(c) is Some && in_grid(
                        w as int,
                        h as int,
                        dirs@[j].spec_step(c)->0,
                    ) ==> mask_has(mask.cells(), dirs@[j].spec_step(c)->0, dirs@[j]),
                marked_new ==> count_marked(mask.cells()) > pre_count,
                !marked_new ==> count_marked(mask.cells()) == pre_count && stack@.len()
                    == pre_stack_len,
                count_marked(mask.cells()) >= pre_count,
                stack@.len() >= pre_stack_len,
            decreases dirs@.len() - di,
        {
            let d2 = dirs[di];
            match d2.step(c) {
                Some(c2) => {
                    if c2.0 < w && c2.1 < h {
                        let cur = mask.lines[c2.1][c2.0];
                        let already = match d2 {
                            Dir::Up => cur.up,
                            Dir::Down => cur.down,
                            Dir::Left => cur.left,
                            Dir::Right => cur.right,
                        };
                        if !already {
                            let ghost pre_cells = mask.cells();
                            mask.set(c2, set_dir(cur, d2));
                            proof {
                                assert(cur == pre_cells[c2.1 as int][c2.0 as int]);
                                lemma_count_row_update(
                                    pre_cells[c2.1 as int],
                                    c2.0 as int,
                                    set_dir_spec(cur, d2),
                                );
                                lemma_count_update(
                                    pre_cells,
                                    c2.1 as int,
                                    pre_cells[c2.1 as int].update(
                                        c2.0 as int,
                                        set_dir_spec(cur, d2),
                                    ),
                                );
                                marked_new = true;
                                assert(propagates(tc, w as int, h as int, (c, d), (c2, d2)));
                                lemma_reach_extend(
                                    tc,
                                    w as int,
                                    h as int,
                                    from,
                                    (c, d),
                                    (c2, d2),
                                );
                            }
                            let ghost mid_stack = stack@;
                            stack.push((c2, d2));
                            proof {
                                assert forall|cc: Coord, dd: Dir|
                                    in_grid(w as int, h as int, cc) && #[trigger] mask_has(
                                        mask.cells(),
                                        cc,
                                        dd,
                                    ) implies (mask_has(pre_cells, cc, dd) || (cc == c2 && dd
                                    == d2)) by {
                                    if cc.0 != c2.0 || cc.1 != c2.1 {
                                        assert(mask.cells()[cc.1 as int][cc.0 as int]
                                            == pre_cells[cc.1 as int][cc.0 as int]);
                                    } else {
                                        assert(mask.cells()[cc.1 as int][cc.0 as int]
                                            == set_dir_spec(cur, d2));
                                    }
                                }
                                assert forall|s3: (Coord, Dir)| mid_stack.contains(s3) implies #[trigger] stack@.contains(
                                    s3,
                                ) by {
                                    let k = choose|k: int|
                                        0 <= k < mid_stack.len() && mid_stack[k] == s3;
                                    assert(stack@[k] == s3);
                                }
                                assert(stack@.contains((c2, d2))) by {
                                    assert(stack@[stack@.len() - 1] == (c2, d2));
                                }
                                assert forall|cc: Coord, dd: Dir|
                                    in_grid(w as int, h as int, cc) && #[trigger] mask_has(
                                        mask.cells(),
                                        cc,
                                        dd,
                                    ) && !(cc == c && dd == d) implies stack@.contains((cc, dd))
                                    || beam_closed_at(
                                    tc,
                                    w as int,
                                    h as int,
                                    mask.cells(),
                                    (cc, dd),
                                ) by {
                                    if cc == c2 && dd == d2 {
                                    } else {
                                        assert(mask_has(pre_cells, cc, dd));
                                        if beam_closed_at(tc, w as int, h as int, pre_cells, (cc, dd)) {
                                            assert forall|s2: (Coord, Dir)|
                                                #[trigger] propagates(
                                                    tc,
                                                    w as int,
                                                    h as int,
                                                    (cc, dd),
                                                    s2,
                                                ) && in_grid(w as int, h as int, s2.0) implies mask_has(
                                                mask.cells(),
                                                s2.0,
                                                s2.1,
                                            ) by {
                                                assert(mask_has(pre_cells, s2.0, s2.1));
                                                if s2.0.0 != c2.0 || s2.0.1 != c2.1 {
                                                    assert(mask.cells()[s2.0.1 as int][s2.0.0 as int]
                                                        == pre_cells[s2.0.1 as int][s2.0.0 as int]);
                                                } else {
                                                    assert(mask.cells()[s2.0.1 as int][s2.0.0 as int]
                                                        == set_dir_spec(cur, d2));
                                                }
                                            }
                                        }
                                    }
                                }
                            }
                        }
                    }
                },
                None => {},
            }
            di = di + 1;
        }
        proof {
            assert(beam_closed_at(tc, w as int, h as int, mask.cells(), (c, d))) by {
                assert forall|s2: (Coord, Dir)|
                    #[trigger] propagates(tc, w as int, h as int, (c, d), s2) && in_grid(
                        w as int,
                        h as int,
                        s2.0,
                    ) implies mask_has(mask.cells(), s2.0, s2.1) by {
                    let j = choose|j: int|
                        0 <= j < dirs@.len() && dirs@[j] == s2.1;
                    assert(spec_out_dirs(kind, d).contains(s2.1));
                    assert(dirs@[j].spec_step(c) == Some(s2.0));
                }
            }
            if !marked_new {
                assert(count_marked(mask.cells()) == pre_count);
            }
            lemma_count_bound(mask.cells(), w as int);
        }
    }
    proof {
        assert forall|s: (Coord, Dir)|
            in_grid(w as int, h as int, s.0) && #[trigger] mask_has(mask.cells(), s.0, s.1)
            implies beam_closed_at(tc, w as int, h as int, mask.cells(), s) by {
            assert(!stack@.contains(s)) by {
                if stack@.contains(s) {
                    let k = choose|k: int| 0 <= k < stack@.len() && stack@[k] == s;
                }
            }
        }
        assert forall|y: int, x: int|
            0 <= y < h && 0 <= x < w implies #[trigger] mask.cells()[y][x] == reach_mask(
            tc,
            w as int,
            h as int,
            from,
        )[y][x] by {
            let c: Coord = (x as usize, y as usize);
            assert forall|d: Dir|
                mask_has(mask.cells(), c, d) == beam_reachable(
                    tc,
                    w as int,
                    h as int,
                    from,
                    (c, d),
                ) by {
                if mask_has(mask.cells(), c, d) {
                } else {
                    if beam_reachable(tc, w as int, h as int, from, (c, d)) {
                        let p = choose|p: Seq<(Coord, Dir)>|
                            beam_path_ok(tc, w as int, h as int, p) && p.first() == from
                                && p.last() == (c, d);
                        lemma_path_marked(tc, w as int, h as int, mask.cells(), p);
                    }
                }
            }
            assert(mask_has(mask.cells(), c, Dir::Up) == mask.cells()[y][x].up);
            assert(mask_has(mask.cells(), c, Dir::Down) == mask.cells()[y][x].down);
            assert(mask_has(mask.cells(), c, Dir::Left) == mask.cells()[y][x].left);
            assert(mask_has(mask.cells(), c, Dir::Right) == mask.cells()[y][x].right);
        }
        assert(mask.cells() =~~= reach_mask(tc, w as int, h as int, from));
    }
    mask
}

/// The mask `m` with direction `d` marked in addition, as a value.
fn set_dir(m: BeamMask, d: Dir) -> (r: BeamMask)
    ensures
        r == set_dir_spec(m, d),
{
    match d {
        Dir::Up => BeamMask { up: true, ..m },
        Dir::Down => BeamMask { down: true, ..m },
        Dir::Left => BeamMask { left: true, ..m },
        Dir::Right => BeamMask { right: true, ..m },
    }
}

/// The mask `m` with direction `d` marked in addition.
pub open spec fn set_dir_spec(m: BeamMask, d: Dir) -> BeamMask {
    m.spec_with(d)
}

/// The number of energized cells (cells with any direction marked) in one
/// row.
pub open spec fn count_energized_row(row: Seq<BeamMask>) -> int
    decreases row.len(),
{
    if row.len() == 0 {
        0
    } else {
        count_energized_row(row.drop_last()) + if row.last().spec_any() {
            1int
        } else {
            0int
        }
    }
}

/// The number of energized cells in a mask grid.
pub open spec fn count_energized(cells: Seq<Seq<BeamMask>>) -> int
    decreases cells.len(),
{
    if cells.len() == 0 {
        0
    } else {
        count_energized(cells.drop_last()) + count_energized_row(cells.last())
    }
}

/// The number of cells crossed by at least one beam direction.
pub fn energized_tiles(mask: &Grid<BeamMask>) -> (r: usize)
    requires
        mask.wf(),
        mask.width * mask.height <= usize::MAX,
    ensures
        r == count_energized(mask.cells()),
{
    let h = mask.height;
    let mut total: usize = 0;
    let mut y: usize = 0;
    proof {
        assert(mask.cells().take(0) =~~= Seq::<Seq<BeamMask>>::empty());
    }
    while y < h
        invariant
            mask.wf(),
            h == mask.height,
            mask.width * mask.height <= usize::MAX,
            y <= h,
            total == count_energized(mask.cells().take(y as int)),
            total <= y * mask.width,
        decreases h - y,
    {
        let w = mask.width;
        let mut x: usize = 0;
        let mut row_count: usize = 0;
        proof {
            assert(mask.cells()[y as int].take(0) =~~= Seq::<BeamMask>::empty());
        }
        while x < w
            invariant
                mask.wf(),
                h == mask.height,
                w == mask.width,
                y < h,
                x <= w,
                row_count == count_energized_row(mask.cells()[y as int].take(x as int)),
                row_count <= x,
            decreases w - x,
        {
            let m = mask.lines[y][x];
            if m.up || m.down || m.left || m.right {
                row_count = row_count + 1;
            }
            proof {
                assert(mask.cells()[y as int].take(x as int + 1).drop_last() =~~= mask.cells()[y as int].take(x as int));
                assert(mask.cells()[y as int].take(x as int + 1).last() == mask.cells()[y as int][x as int]);
            }
            x = x + 1;
        }
        proof {
            assert(mask.cells()[y as int].take(w as int) =~~= mask.cells()[y as int]);
            assert(mask.cells().take(y as int + 1).drop_last() =~~= mask.cells().take(y as int));
            assert(mask.cells().take(y as int + 1).last() == mask.cells()[y as int]);
            vstd::arithmetic::mul::lemma_mul_is_distributive_add_other_way(
                mask.width as int,
                y as int,
                1,
            );
            vstd::arithmetic::mul::lemma_mul_inequality(y as int + 1, h as int, mask.width as int);
            vstd::arithmetic::mul::lemma_mul_is_commutative(mask.width as int, h as int);
        }
        total = total + row_count;
        y = y + 1;
    }
    proof {
        assert(mask.cells().take(h as int) =~~= mask.cells());
    }
    total
}

/// The number of cells the beam entering at `(entry, dir)` energizes.
pub open spec fn spec_energized(tiles: &Grid<TileKind>, entry: Coord, dir: Dir) -> int {
    count_energized(
        reach_mask(tiles.cells(), tiles.width as int, tiles.height as int, (entry, dir)),
    )
}

/// Propagates the beam entering at `(entry, dir)` and counts the
/// energized cells; an out-of-bounds entry energizes nothing.
pub fn energized_count(tiles: &Grid<TileKind>, entry: Coord, dir: Dir) -> (r: usize)
    requires
        tiles.wf(),
        tiles.width * tiles.height <= usize::MAX,
    ensures
        tiles.spec_in_bounds(entry) ==> r == spec_energized(tiles, entry, dir),
        !tiles.spec_in_bounds(entry) ==> r == 0,
{
    let mask = propagate(tiles, entry, dir);
    let r = energized_tiles(&mask);
    proof {
        if !tiles.spec_in_bounds(entry) {
            assert forall|y: int| 0 <= y < mask.cells().len() implies count_energized_row(
                #[trigger] mask.cells()[y],
            ) == 0 by {
                lemma_energized_row_empty(mask.cells()[y]);
            }
            lemma_energized_grid_empty(mask.cells());
        }
    }
    r
}

/// A row of empty masks energizes no cell.
proof fn lemma_energized_row_empty(row: Seq<BeamMask>)
    requires
        forall|x: int| 0 <= x < row.len() ==> #[trigger] row[x] == BeamMask::empty_spec(),
    ensures
        count_energized_row(row) == 0,
    decreases row.len(),
{
    if row.len() > 0 {
        lemma_energized_row_empty(row.drop_last());
    }
}

/// A grid of rows energizing no cell energizes no cell.
proof fn lemma_energized_grid_empty(cells: Seq<Seq<BeamMask>>)
    requires
        forall|y: int| 0 <= y < cells.len() ==> count_energized_row(#[trigger] cells[y]) == 0,
    ensures
        count_energized(cells) == 0,
    decreases cells.len(),
{
    if cells.len() > 0 {
        lemma_energized_grid_empty(cells.drop_last());
    }
}

/// Whether `(c, d)` is a beam entry on the grid border heading inward:
/// downward from the top row, rightward from the left column, upward from
/// the bottom row, or leftward from the right column.
pub open spec fn border_entry(w: int, h: int, c: Coord, d: Dir) -> bool {
    ||| (c.1 == 0 && (c.0 as int) < w && d == Dir::Down)
    ||| (c.0 == 0 && (c.1 as int) < h && d == Dir::Right)
    ||| (h > 0 && c.1 as int == h - 1 && (c.0 as int) < w && d == Dir::Up)
    ||| (w > 0 && c.0 as int == w - 1 && (c.1 as int) < h && d == Dir::Left)
}

/// The largest energized count over all border entries; zero for an empty
/// grid.
pub fn max_energized(tiles: &Grid<TileKind>) -> (r: usize)
    requires
        tiles.wf(),
        tiles.width * tiles.height <= usize::MAX,
    ensures
        forall|c: Coord, d: Dir|
            #[trigger] border_entry(tiles.width as int, tiles.height as int, c, d) ==> spec_energized(
                tiles,
                c,
                d,
            ) <= r,
        tiles.width > 0 && tiles.height > 0 ==> exists|c: Coord, d: Dir|
            #[trigger] border_entry(tiles.width as int, tiles.height as int, c, d)
                && spec_energized(tiles, c, d) == r,
        tiles.width == 0 || tiles.height == 0 ==> r == 0,
{
    let w = tiles.width;
    let h = tiles.height;
    if w == 0 || h == 0 {
        proof {
            assert forall|c: Coord, d: Dir|
                #[trigger] border_entry(w as int, h as int, c, d) implies spec_energized(
                tiles,
                c,
                d,
            ) <= 0 by {
                let m = reach_mask(tiles.cells(), w as int, h as int, (c, d));
                assert forall|y: int| 0 <= y < m.len() implies count_energized_row(
                    #[trigger] m[y],
                ) == 0 by {
                    assert(m[y].len() == 0);
                }
                lemma_energized_grid_empty(m);
            }
        }
        return 0;
    }
    let mut best: usize = energized_count(tiles, (0, 0), Dir::Down);
    proof {
        assert(border_entry(w as int, h as int, (0usize, 0usize), Dir::Down));
    }
    let mut x: usize = 0;
    while x < w
        invariant
            tiles.wf(),
            w == tiles.width,
            h == tiles.height,
            w * h <= usize::MAX,
            w > 0 && h > 0,
            x <= w,
            exists|c: Coord, d: Dir|
                #[trigger] border_entry(w as int, h as int, c, d) && spec_energized(tiles, c, d)
                    == best,
            forall|c: Coord|
                (c.0 as int) < x && c.1 == 0 ==> spec_energized(tiles, c, Dir::Down) <= best,
            forall|c: Coord|
                (c.0 as int) < x && c.1 as int == h - 1 ==> spec_energized(tiles, c, Dir::Up)
                    <= best,
        decreases w - x,
    {
        let v1 = energized_count(tiles, (x, 0), Dir::Down);
        if v1 > best {
            best = v1;
            proof {
                assert(border_entry(w as int, h as int, (x, 0usize), Dir::Down));
            }
        }
        let v2 = energized_count(tiles, (x, h - 1), Dir::Up);
        if v2 > best {
            best = v2;
            proof {
                assert(border_entry(w as int, h as int, (x, (h - 1) as usize), Dir::Up));
            }
        }
        proof {
            assert forall|c: Coord|
                (c.0 as int) < x + 1 && c.1 == 0 implies spec_energized(tiles, c, Dir::Down)
                <= best by {
                if c.0 == x {
                    assert(c == (x, 0usize));
                }
            }
            assert forall|c: Coord|
                (c.0 as int) < x + 1 && c.1 as int == h - 1 implies spec_energized(
                tiles,
                c,
                Dir::Up,
            ) <= best by {
                if c.0 == x {
                    assert(c == (x, (h - 1) as usize));
                }
            }
        }
        x = x + 1;
    }
    let mut y: usize = 0;
    while y < h
        invariant
            tiles.wf(),
            w == tiles.width,
            h == tiles.height,
            w * h <= usize::MAX,
            w > 0 && h > 0,
            y <= h,
            exists|c: Coord, d: Dir|
                #[trigger] border_entry(w as int, h as int, c, d) && spec_energized(tiles, c, d)
                    == best,
            forall|c: Coord|
                (c.0 as int) < w && c.1 == 0 ==> spec_energized(tiles, c, Dir::Down) <= best,
            forall|c: Coord|
                (c.0 as int) < w && c.1 as int == h - 1 ==> spec_energized(tiles, c, Dir::Up)
                    <= best,
            forall|c: Coord|
                (c.1 as int) < y && c.0 == 0 ==> spec_energized(tiles, c, Dir::Right) <= best,
            forall|c: Coord|
                (c.1 as int) < y && c.0 as int == w - 1 ==> spec_energized(tiles, c, Dir::Left)
                    <= best,
        decreases h - y,
    {
        let v1 = energized_count(tiles, (0, y), Dir::Right);
        if v1 > best {
            best = v1;
            proof {
                assert(border_entry(w as int, h as int, (0usize, y), Dir::Right));
            }
        }
        let v2 = energized_count(tiles, (w - 1, y), Dir::Left);
        if v2 > best {
            best = v2;
            proof {
                assert(border_entry(w as int, h as int, ((w - 1) as usize, y), Dir::Left));
            }
        }
        proof {
            assert forall|c: Coord|
                (c.1 as int) < y + 1 && c.0 == 0 implies spec_energized(tiles, c, Dir::Right)
                <= best by {
                if c.1 == y {
                    assert(c == (0usize, y));
                }
            }
            assert forall|c: Coord|
                (c.1 as int) < y + 1 && c.0 as int == w - 1 implies spec_energized(
                tiles,
                c,
                Dir::Left,
            ) <= best by {
                if c.1 == y {
                    assert(c == ((w - 1) as usize, y));
                }
            }
        }
        y = y + 1;
    }
    proof {
        assert forall|c: Coord, d: Dir|
            #[trigger] border_entry(w as int, h as int, c, d) implies spec_energized(tiles, c, d)
            <= best by {}
    }
    best
}

/// A row of empty masks counts no marked bits.
proof fn lemma_row_all_empty(row: Seq<BeamMask>)
    requires
        forall|x: int| 0 <= x < row.len() ==> #[trigger] row[x] == BeamMask::empty_spec(),
    ensures
        count_marked_row(row) == 0,
    decreases row.len(),
{
    if row.len() > 0 {
        lemma_row_all_empty(row.drop_last());
    }
}

/// A grid of zero-count rows counts no marked bits.
proof fn lemma_grid_all_empty(cells: Seq<Seq<BeamMask>>)
    requires
        forall|y: int| 0 <= y < cells.len() ==> count_marked_row(#[trigger] cells[y]) == 0,
    ensures
        count_marked(cells) == 0,
    decreases cells.len(),
{
    if cells.len() > 0 {
        lemma_grid_all_empty(cells.drop_last());
    }
}

} // verus!
