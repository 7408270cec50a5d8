//! A garden of plots and rocks where a set of reached plots spreads one
//! cardinal step per round. The round function implements [`Simulate`], so
//! the state after a huge number of rounds comes from cycle extrapolation.
use vstd::prelude::*;
use vstd::string::StringSliceAdditionalSpecFns;

use crate::ParseError;
use crate::parse_error;
use crate::cycle::Simulate;
use crate::grid::Grid;
use crate::grid::rectangular;
use crate::grid::spec_lines;

verus! {

/// What a garden cell is made of.
#[derive(Debug, Clone, Copy, PartialEq, Eq, Structural)]
pub enum TileType {
    GardenPlot,
    Rock,
}

/// One garden cell: its type, and whether the spread has reached it.
#[derive(Debug, Clone, Copy, PartialEq, Eq, Structural)]
pub struct Tile {
    pub tile_type: TileType,
    pub reached: bool,
}

/// The fingerprint code of one cell: rocks are 0, unreached plots 1,
/// reached plots 2.
pub open spec fn tile_code(t: Tile) -> u64 {
    match t.tile_type {
        TileType::Rock => 0,
        TileType::GardenPlot => if t.reached {
            2
        } else {
            1
        },
    }
}

/// Whether the fingerprint `k` of a `w`-wide garden marks the cell
/// `(x, y)` as a reached plot.
pub open spec fn key_reached(k: Seq<u64>, w: int, h: int, x: int, y: int) -> bool {
    0 <= x < w && 0 <= y < h && k[2 + y * w + x] == 2
}

/// The code of cell index `i` of the fingerprint after one round: rocks
/// stay rocks, and a plot is reached exactly when it had a reached
/// cardinal neighbor.
pub open spec fn next_code(k: Seq<u64>, i: int) -> u64 {
    let w = k[0] as int;
    let h = k[1] as int;
    let x = (i - 2) % w;
    let y = (i - 2) / w;
    if k[i] == 0 {
        0
    } else if key_reached(k, w, h, x - 1, y) || key_reached(k, w, h, x + 1, y) || key_reached(
        k,
        w,
        h,
        x,
        y - 1,
    ) || key_reached(k, w, h, x, y + 1) {
        2
    } else {
        1
    }
}

/// A rectangular garden; the grid is kept well-formed and small enough
/// that every cell has a fingerprint index.
pub struct Garden {
    grid: Grid<Tile>,
}

impl Garden {
    /// The grid is rectangular and its area leaves room for the two
    /// dimension slots of the fingerprint.
    #[verifier::type_invariant]
    pub closed spec fn inv(&self) -> bool {
        &&& self.grid.wf()
        &&& self.grid.width * self.grid.height + 2 <= usize::MAX
    }

    /// The cells of the garden.
    pub closed spec fn cells(&self) -> Seq<Seq<Tile>> {
        self.grid.cells()
    }

    /// The width of the garden.
    pub closed spec fn spec_width(&self) -> int {
        self.grid.width as int
    }

    /// The height of the garden.
    pub closed spec fn spec_height(&self) -> int {
        self.grid.height as int
    }

    /// Wraps a grid of tiles, refusing one whose area has no room for the
    /// fingerprint's two dimension slots.
    pub fn from_grid(grid: Grid<Tile>) -> (r: Result<Garden, ParseError>)
        requires
            grid.wf(),
        ensures
            r is Ok <==> grid.width * grid.height + 2 <= usize::MAX,
            r is Ok ==> r->Ok_0.cells() == grid.cells() && r->Ok_0.spec_width() == grid.width
                && r->Ok_0.spec_height() == grid.height,
    {
        if grid.height != 0 && grid.width > (usize::MAX - 2) / grid.height {
            proof {
                let h = grid.height as int;
                let w = grid.width as int;
                let q = (usize::MAX - 2) as int / h;
                vstd::arithmetic::div_mod::lemma_fundamental_div_mod((usize::MAX - 2) as int, h);
                vstd::arithmetic::mul::lemma_mul_inequality(q + 1, w, h);
                vstd::arithmetic::mul::lemma_mul_is_distributive_add_other_way(h, q, 1);
                vstd::arithmetic::mul::lemma_mul_is_commutative(w, h);
                assert((q + 1) * h == q * h + h);
                vstd::arithmetic::mul::lemma_mul_is_commutative(q, h);
                assert(w * h >= (q + 1) * h);
            }
            return Err(parse_error("", "garden too large"));
        }
        proof {
            if grid.height != 0 {
                vstd::arithmetic::div_mod::lemma_fundamental_div_mod(
                    (usize::MAX - 2) as int,
                    grid.height as int,
                );
                vstd::arithmetic::mul::lemma_mul_inequality(
                    grid.width as int,
                    (usize::MAX - 2) / grid.height as int,
                    grid.height as int,
                );
                vstd::arithmetic::mul::lemma_mul_is_commutative(
                    grid.width as int,
                    grid.height as int,
                );
            } else {
                assert(grid.width * grid.height == 0) by {
                    vstd::arithmetic::mul::lemma_mul_by_zero_is_zero(grid.width as int);
                }
            }
        }
        Ok(Garden { grid })
    }

    /// Parses a garden: `.` is an open plot, `#` a rock, `S` a plot the
    /// spread starts from. Any other byte is rejected.
    pub fn from_text(input: &str) -> (r: Result<Garden, ParseError>)
        ensures
            r is Ok ==> {
                let rows = spec_lines(input.spec_bytes());
                &&& rows.len() > 0
                &&& rectangular(rows)
                &&& r->Ok_0.spec_height() == rows.len()
                &&& r->Ok_0.spec_width() == rows[0].len()
                &&& forall|y: int, x: int|
                    0 <= y < rows.len() && 0 <= x < rows[0].len() ==> #[trigger] r->Ok_0.cells()[y][x]
                        == spec_tile(rows[y][x])
            },
            r is Err ==> {
                let rows = spec_lines(input.spec_bytes());
                rows.len() == 0 || !rectangular(rows) || rows[0].len() * rows.len() + 2
                    > usize::MAX || exists|y: int, x: int|
                    0 <= y < rows.len() && 0 <= x < rows[0].len() && !valid_tile_byte(
                        #[trigger] rows[y][x],
                    )
            },
    {
        let bytes = Grid::<u8>::from_lines(input)?;
        let mut lines: Vec<Vec<Tile>> = Vec::new();
        let mut y: usize = 0;
        let ghost rows = spec_lines(input.spec_bytes());
        while y < bytes.lines.len()
            invariant
                bytes.wf(),
                rows == spec_lines(input.spec_bytes()),
                bytes.cells() == rows,
                rows.len() > 0,
                rectangular(rows),
                bytes.height == rows.len(),
                bytes.width == rows[0].len(),
                y <= bytes.height,
                lines@.len() == y,
                forall|j: int| 0 <= j < y ==> (#[trigger] lines@[j])@.len() == bytes.width,
                forall|j: int, x: int|
                    0 <= j < y && 0 <= x < bytes.width ==> #[trigger] lines@[j]@[x] == spec_tile(
                        rows[j][x],
                    ),
            decreases bytes.lines@.len() - y,
        {
            let mut line: Vec<Tile> = Vec::new();
            let mut x: usize = 0;
            while x < bytes.lines[y].len()
                invariant
                    bytes.wf(),
                    rows == spec_lines(input.spec_bytes()),
                    bytes.cells() == rows,
                    rows.len() > 0,
                    rectangular(rows),
                    bytes.height == rows.len(),
                    bytes.width == rows[0].len(),
                    y < bytes.height,
                    x <= bytes.width,
                    line@.len() == x,
                    forall|i: int|
                        0 <= i < x ==> #[trigger] line@[i] == spec_tile(rows[y as int][i]),
                decreases bytes.lines@[y as int]@.len() - x,
            {
                let b = bytes.lines[y][x];
                assert(b == rows[y as int][x as int]);
                let t = match b {
                    46u8 => Tile { tile_type: TileType::GardenPlot, reached: false },
                    35u8 => Tile { tile_type: TileType::Rock, reached: false },
                    83u8 => Tile { tile_type: TileType::GardenPlot, reached: true },
                    _ => {
                        assert(!valid_tile_byte(rows[y as int][x as int]));
                        return Err(parse_error(input, "unrecognized garden symbol"));
                    },
                };
                line.push(t);
                x = x + 1;
            }
            lines.push(line);
            y = y + 1;
        }
        let g = Grid { lines, width: bytes.width, height: bytes.height };
        assert(g.wf());
        let garden = Garden::from_grid(g)?;
        Ok(garden)
    }
}

/// Whether `(x, y)` is a reached plot of `cells`.
pub open spec fn cell_reached(cells: Seq<Seq<Tile>>, w: int, h: int, x: int, y: int) -> bool {
    &&& 0 <= x < w
    &&& 0 <= y < h
    &&& cells[y][x].tile_type is GardenPlot
    &&& cells[y][x].reached
}

/// The tile at `(x, y)` after one round: rocks stay rocks, and a plot is
/// reached exactly when one of its cardinal neighbors was.
pub open spec fn step_tile(cells: Seq<Seq<Tile>>, w: int, h: int, x: int, y: int) -> Tile {
    if cells[y][x].tile_type is Rock {
        Tile { tile_type: TileType::Rock, reached: false }
    } else {
        Tile {
            tile_type: TileType::GardenPlot,
            reached: cell_reached(cells, w, h, x - 1, y) || cell_reached(cells, w, h, x + 1, y)
                || cell_reached(cells, w, h, x, y - 1) || cell_reached(cells, w, h, x, y + 1),
        }
    }
}

/// The fingerprint of a garden: its dimensions, then one code per cell in
/// row-major order.
pub open spec fn garden_key(cells: Seq<Seq<Tile>>, w: int, h: int) -> Seq<u64> {
    Seq::new(
        (2 + w * h) as nat,
        |i: int|
            if i == 0 {
                w as u64
            } else if i == 1 {
                h as u64
            } else {
                tile_code(cells[(i - 2) / w][(i - 2) % w])
            },
    )
}

/// The cell codes of the fingerprint after one round.
pub open spec fn garden_next_key(k: Seq<u64>) -> Seq<u64> {
    Seq::new(
        k.len(),
        |i: int|
            if i < 2 {
                k[i]
            } else {
                next_code(k, i)
            },
    )
}

/// The fingerprint slot of cell `(x, y)` holds that cell's code.
proof fn lemma_key_index(cells: Seq<Seq<Tile>>, w: int, h: int, x: int, y: int)
    requires
        0 <= x < w,
        0 <= y < h,
    ensures
        2 <= 2 + y * w + x < 2 + w * h,
        garden_key(cells, w, h)[2 + y * w + x] == tile_code(cells[y][x]),
{
    vstd::arithmetic::mul::lemma_mul_inequality(y + 1, h, w);
    vstd::arithmetic::mul::lemma_mul_is_distributive_add_other_way(w, y, 1);
    vstd::arithmetic::mul::lemma_mul_is_commutative(w, h);
    vstd::arithmetic::mul::lemma_mul_is_commutative(w, y);
    assert(y * w + x < w * h);
    assert(y * w >= 0) by {
        vstd::arithmetic::mul::lemma_mul_nonnegative(y, w);
    }
    vstd::arithmetic::div_mod::lemma_fundamental_div_mod_converse(y * w + x, w, y, x);
    assert((y * w + x) / w == y);
    assert((y * w + x) % w == x);
}

/// A reached-plot mark in the fingerprint means a reached plot in the
/// cells, and conversely.
proof fn lemma_key_reached(cells: Seq<Seq<Tile>>, w: int, h: int, x: int, y: int)
    requires
        0 <= w,
        0 <= h,
    ensures
        key_reached(garden_key(cells, w, h), w, h, x, y) == cell_reached(cells, w, h, x, y),
{
    if 0 <= x < w && 0 <= y < h {
        lemma_key_index(cells, w, h, x, y);
    }
}

impl Simulate for Garden {
    open spec fn key_view(&self) -> Seq<u64> {
        garden_key(self.cells(), self.spec_width(), self.spec_height())
    }

    open spec fn next_key(k: Seq<u64>) -> Seq<u64> {
        garden_next_key(k)
    }

    fn sim_step(&self) -> (r: Self) {
        let r = self.step_once();
        proof {
            use_type_invariant(self);
            let w = self.spec_width();
            let h = self.spec_height();
            let cells = self.cells();
            let k = garden_key(cells, w, h);
            assert forall|i: int| 0 <= i < k.len() implies r.key_view()[i] == garden_next_key(k)[i]
                by {
                if i >= 2 {
                    let t = i - 2;
                    let x = t % w;
                    let y = t / w;
                    assert(w > 0) by {
                        if w == 0 {
                            vstd::arithmetic::mul::lemma_mul_by_zero_is_zero(h);
                        }
                    }
                    vstd::arithmetic::div_mod::lemma_fundamental_div_mod(t, w);
                    vstd::arithmetic::div_mod::lemma_mod_bound(t, w);
                    vstd::arithmetic::div_mod::lemma_div_pos_is_pos(t, w);
                    assert(0 <= x < w);
                    assert(y >= 0);
                    assert(y < h) by {
                        if y >= h {
                            vstd::arithmetic::mul::lemma_mul_inequality(h, y, w);
                            vstd::arithmetic::mul::lemma_mul_is_commutative(h, w);
                            vstd::arithmetic::mul::lemma_mul_is_commutative(y, w);
                        }
                    }
                    lemma_key_index(cells, w, h, x, y);
                    lemma_key_index(r.cells(), w, h, x, y);
                    lemma_key_reached(cells, w, h, x - 1, y);
                    lemma_key_reached(cells, w, h, x + 1, y);
                    lemma_key_reached(cells, w, h, x, y - 1);
                    lemma_key_reached(cells, w, h, x, y + 1);
                    assert(r.cells()[y][x] == step_tile(cells, w, h, x, y));
                    assert(k[0] == w as u64 && k[1] == h as u64);
                }
            }
            assert(r.key_view() =~~= garden_next_key(k));
        }
        r
    }

    fn key(&self) -> (r: Vec<u64>) {
        proof {
            use_type_invariant(self);
        }
        let w = self.grid.width;
        let h = self.grid.height;
        let mut r: Vec<u64> = Vec::new();
        r.push(w as u64);
        r.push(h as u64);
        let ghost k = self.key_view();
        proof {
            assert(r@ =~~= k.take(2));
        }
        let mut y: usize = 0;
        while y < h
            invariant
                self.inv(),
                k == self.key_view(),
                w == self.grid.width,
                h == self.grid.height,
                y <= h,
                r@.len() == 2 + y * w,
                r@ =~~= k.take(2 + y as int * w as int),
            decreases h - y,
        {
            let mut x: usize = 0;
            proof {
                vstd::arithmetic::mul::lemma_mul_inequality(
                    y as int + 1,
                    h as int,
                    w as int,
                );
                vstd::arithmetic::mul::lemma_mul_is_distributive_add_other_way(
                    w as int,
                    y as int,
                    1,
                );
                vstd::arithmetic::mul::lemma_mul_is_commutative(w as int, h as int);
            }
            while x < w
                invariant
                    self.inv(),
                    k == self.key_view(),
                    w == self.grid.width,
                    h == self.grid.height,
                    y < h,
                    x <= w,
                    (y + 1) * w <= w * h,
                    r@.len() == 2 + y * w + x,
                    r@ =~~= k.take(2 + y as int * w as int + x as int),
                decreases w - x,
            {
                proof {
                    vstd::arithmetic::mul::lemma_mul_is_distributive_add_other_way(
                        w as int,
                        y as int,
                        1,
                    );
                }
                let t = self.grid.lines[y][x];
                let code: u64 = match t.tile_type {
                    TileType::Rock => 0,
                    TileType::GardenPlot => if t.reached {
                        2
                    } else {
                        1
                    },
                };
                let ghost prev = r@;
                r.push(code);
                proof {
                    lemma_key_index(self.cells(), w as int, h as int, x as int, y as int);
                    assert(code == tile_code(self.cells()[y as int][x as int]));
                    assert(r@ =~~= k.take(2 + y as int * w as int + x as int + 1));
                }
                x = x + 1;
            }
            proof {
                vstd::arithmetic::mul::lemma_mul_is_distributive_add_other_way(
                    w as int,
                    y as int,
                    1,
                );
            }
            y = y + 1;
        }
        proof {
            vstd::arithmetic::mul::lemma_mul_is_commutative(w as int, h as int);
            assert(r@ =~~= k);
        }
        r
    }
}

impl Garden {
    /// One round of spreading: every plot with a reached cardinal neighbor
    /// becomes reached; every other plot becomes unreached; rocks stay.
    pub fn step_once(&self) -> (r: Garden)
        ensures
            r.spec_width() == self.spec_width(),
            r.spec_height() == self.spec_height(),
            forall|y: int, x: int|
                0 <= y < self.spec_height() && 0 <= x < self.spec_width()
                    ==> #[trigger] r.cells()[y][x] == step_tile(
                    self.cells(),
                    self.spec_width(),
                    self.spec_height(),
                    x,
                    y,
                ),
    {
        proof {
            use_type_invariant(self);
        }
        let w = self.grid.width;
        let h = self.grid.height;
        let ghost cells = self.cells();
        let mut lines: Vec<Vec<Tile>> = Vec::new();
        let mut y: usize = 0;
        while y < h
            invariant
                self.inv(),
                cells == self.cells(),
                w == self.grid.width,
                h == self.grid.height,
                y <= h,
                lines@.len() == y,
                forall|j: int| 0 <= j < y ==> (#[trigger] lines@[j])@.len() == w,
                forall|j: int, i: int|
                    0 <= j < y && 0 <= i < w ==> #[trigger] lines@[j]@[i] == step_tile(
                        cells,
                        w as int,
                        h as int,
                        i,
                        j,
                    ),
            decreases h - y,
        {
            let mut line: Vec<Tile> = Vec::new();
            let mut x: usize = 0;
            while x < w
                invariant
                    self.inv(),
                    cells == self.cells(),
                    w == self.grid.width,
                    h == self.grid.height,
                    y < h,
                    x <= w,
                    line@.len() == x,
                    forall|i: int|
                        0 <= i < x ==> #[trigger] line@[i] == step_tile(
                            cells,
                            w as int,
                            h as int,
                            i,
                            y as int,
                        ),
                decreases w - x,
            {
                let t = self.grid.lines[y][x];
                let new_tile: Tile = match t.tile_type {
                    TileType::Rock => Tile { tile_type: TileType::Rock, reached: false },
                    TileType::GardenPlot => {
                        let mut reached = false;
                        if x > 0 {
                            let nb = self.grid.lines[y][x - 1];
                            if nb.tile_type == TileType::GardenPlot && nb.reached {
                                reached = true;
                            }
                        }
                        if x + 1 < w {
                            let nb = self.grid.lines[y][x + 1];
                            if nb.tile_type == TileType::GardenPlot && nb.reached {
                                reached = true;
                            }
                        }
                        if y > 0 {
                            let nb = self.grid.lines[y - 1][x];
                            if nb.tile_type == TileType::GardenPlot && nb.reached {
                                reached = true;
                            }
                        }
                        if y + 1 < h {
                            let nb = self.grid.lines[y + 1][x];
                            if nb.tile_type == TileType::GardenPlot && nb.reached {
                                reached = true;
                            }
                        }
                        Tile { tile_type: TileType::GardenPlot, reached }
                    },
                };
                proof {
                    assert(new_tile == step_tile(cells, w as int, h as int, x as int, y as int));
                }
                line.push(new_tile);
                x = x + 1;
            }
            lines.push(line);
            y = y + 1;
        }
        let g = Grid { lines, width: w, height: h };
        assert(g.wf());
        Garden { grid: g }
    }

    /// The number of reached plots.
    pub fn count_reached(&self) -> (r: usize)
        ensures
            r == count_cells(self.cells()),
    {
        proof {
            use_type_invariant(self);
        }
        let h = self.grid.height;
        let mut total: usize = 0;
        let mut y: usize = 0;
        proof {
            assert(self.cells().take(0) =~~= Seq::<Seq<Tile>>::empty());
        }
        while y < h
            invariant
                self.inv(),
                h == self.grid.height,
                y <= h,
                total == count_cells(self.cells().take(y as int)),
                total <= y * self.grid.width,
            decreases h - y,
        {
            let w = self.grid.width;
            let mut x: usize = 0;
            let mut row_count: usize = 0;
            proof {
                assert(self.cells()[y as int].take(0) =~~= Seq::<Tile>::empty());
            }
            while x < w
                invariant
                    self.inv(),
                    h == self.grid.height,
                    w == self.grid.width,
                    y < h,
                    x <= w,
                    row_count == count_row(self.cells()[y as int].take(x as int)),
                    row_count <= x,
                decreases w - x,
            {
                let t = self.grid.lines[y][x];
                let is_hit: bool = match t.tile_type {
                    TileType::GardenPlot => t.reached,
                    TileType::Rock => false,
                };
                if is_hit {
                    row_count = row_count + 1;
                }
                proof {
                    assert(self.cells()[y as int].take(x as int + 1).drop_last() =~~= self.cells()[y as int].take(x as int));
                    assert(self.cells()[y as int].take(x as int + 1).last() == self.cells()[y as int][x as int]);
                }
                x = x + 1;
            }
            proof {
                assert(self.cells()[y as int].take(w as int) =~~= self.cells()[y as int]);
                assert(self.cells().take(y as int + 1).drop_last() =~~= self.cells().take(y as int));
                assert(self.cells().take(y as int + 1).last() == self.cells()[y as int]);
                vstd::arithmetic::mul::lemma_mul_is_distributive_add_other_way(
                    self.grid.width as int,
                    y as int,
                    1,
                );
                vstd::arithmetic::mul::lemma_mul_inequality(
                    y as int + 1,
                    h as int,
                    self.grid.width as int,
                );
                vstd::arithmetic::mul::lemma_mul_is_commutative(
                    self.grid.width as int,
                    h as int,
                );
            }
            total = total + row_count;
            y = y + 1;
        }
        proof {
            assert(self.cells().take(h as int) =~~= self.cells());
        }
        total
    }
}

/// Whether the cell at `(x, y)` is a rock, for out-of-grid positions a
/// rock as well.
pub open spec fn rock_or_edge(cells: Seq<Seq<TileType>>, w: int, h: int, x: int, y: int) -> bool {
    !(0 <= x < w && 0 <= y < h) || cells[y][x] is Rock
}

/// The tile at `(x, y)` after blocking: a plot whose four cardinal
/// neighbors are all in-bounds rocks becomes a rock itself.
pub open spec fn blocked_tile(cells: Seq<Seq<TileType>>, w: int, h: int, x: int, y: int) -> TileType {
    if cells[y][x] is GardenPlot && 0 < x && x < w - 1 && 0 < y && y < h - 1 && cells[y][x - 1] is Rock
        && cells[y][x + 1] is Rock && cells[y - 1][x] is Rock && cells[y + 1][x] is Rock {
        TileType::Rock
    } else {
        cells[y][x]
    }
}

/// Turns every plot that is walled in by four in-bounds rocks into a
/// rock, since the spread can never reach it.
pub fn block_unreachable_spots(map: &Grid<TileType>) -> (r: Grid<TileType>)
    requires
        map.wf(),
    ensures
        r.wf(),
        r.width == map.width,
        r.height == map.height,
        forall|y: int, x: int|
            0 <= y < map.height && 0 <= x < map.width ==> #[trigger] r.cells()[y][x]
                == blocked_tile(map.cells(), map.width as int, map.height as int, x, y),
{
    let w = map.width;
    let h = map.height;
    let ghost cells = map.cells();
    let mut lines: Vec<Vec<TileType>> = Vec::new();
    let mut y: usize = 0;
    while y < h
        invariant
            map.wf(),
            cells == map.cells(),
            w == map.width,
            h == map.height,
            y <= h,
            lines@.len() == y,
            forall|j: int| 0 <= j < y ==> (#[trigger] lines@[j])@.len() == w,
            forall|j: int, i: int|
                0 <= j < y && 0 <= i < w ==> #[trigger] lines@[j]@[i] == blocked_tile(
                    cells,
                    w as int,
                    h as int,
                    i,
                    j,
                ),
        decreases h - y,
    {
        let mut line: Vec<TileType> = Vec::new();
        let mut x: usize = 0;
        while x < w
            invariant
                map.wf(),
                cells == map.cells(),
                w == map.width,
                h == map.height,
                y < h,
                x <= w,
                line@.len() == x,
                forall|i: int|
                    0 <= i < x ==> #[trigger] line@[i] == blocked_tile(
                        cells,
                        w as int,
                        h as int,
                        i,
                        y as int,
                    ),
            decreases w - x,
        {
            let t = map.lines[y][x];
            let walled = matches!(t, TileType::GardenPlot) && x > 0 && x + 1 < w && y > 0 && y + 1
                < h && matches!(map.lines[y][x - 1], TileType::Rock) && matches!(
                map.lines[y][x + 1],
                TileType::Rock,
            ) && matches!(map.lines[y - 1][x], TileType::Rock) && matches!(
                map.lines[y + 1][x],
                TileType::Rock,
            );
            let new_tile = if walled {
                TileType::Rock
            } else {
                t
            };
            proof {
                assert(new_tile == blocked_tile(cells, w as int, h as int, x as int, y as int));
            }
            line.push(new_tile);
            x = x + 1;
        }
        lines.push(line);
        y = y + 1;
    }
    let g = Grid { lines, width: w, height: h };
    assert(g.wf());
    g
}

/// The number of reached plots in one row.
pub open spec fn count_row(row: Seq<Tile>) -> int
    decreases row.len(),
{
    if row.len() == 0 {
        0
    } else {
        count_row(row.drop_last()) + if row.last().tile_type is GardenPlot && row.last().reached {
            1int
        } else {
            0int
        }
    }
}

/// The number of reached plots in a grid of cells.
pub open spec fn count_cells(cells: Seq<Seq<Tile>>) -> int
    decreases cells.len(),
{
    if cells.len() == 0 {
        0
    } else {
        count_cells(cells.drop_last()) + count_row(cells.last())
    }
}

/// Whether a byte is one of the three garden symbols.
pub open spec fn valid_tile_byte(b: u8) -> bool {
    b == 46 || b == 35 || b == 83
}

/// The tile a garden symbol denotes.
pub open spec fn spec_tile(b: u8) -> Tile {
    if b == 35 {
        Tile { tile_type: TileType::Rock, reached: false }
    } else if b == 83 {
        Tile { tile_type: TileType::GardenPlot, reached: true }
    } else {
        Tile { tile_type: TileType::GardenPlot, reached: false }
    }
}

} // verus!
