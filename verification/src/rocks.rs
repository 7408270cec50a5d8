//! A platform of rolling rocks: tilting it makes every round rock roll
//! as far as it can toward the tilted edge, stopped only by square rocks
//! and by rocks already settled. A spin cycle tilts north, west, south
//! and east in turn; the platform state implements [`Simulate`], so the
//! state after an enormous number of spins comes from cycle
//! extrapolation.
use vstd::prelude::*;
use vstd::string::StringSliceAdditionalSpecFns;

use crate::ParseError;
use crate::parse_error;
use crate::cycle::Simulate;
use crate::grid::Dir;
use crate::grid::Grid;
use crate::grid::rectangular;
use crate::grid::spec_lines;

verus! {

/// One cell of the platform.
#[derive(Debug, Clone, Copy, PartialEq, Eq, Structural)]
pub enum Rock {
    Empty,
    Square,
    Round,
}

/// A line of all-empty cells.
pub open spec fn empty_line(n: int) -> Seq<Rock> {
    Seq::new(n as nat, |j: int| Rock::Empty)
}

/// The packing walk over a line: `i` cells are done, round rocks settle
/// at the write position `wp`, square rocks stay put and reset it.
pub open spec fn pack_step(line: Seq<Rock>, i: int, wp: int, acc: Seq<Rock>) -> Seq<Rock>
    decreases line.len() - i,
{
    if i < 0 || i >= line.len() {
        acc
    } else {
        match line[i] {
            Rock::Round => pack_step(line, i + 1, wp + 1, acc.update(wp, Rock::Round)),
            Rock::Square => pack_step(line, i + 1, i + 1, acc.update(i, Rock::Square)),
            Rock::Empty => pack_step(line, i + 1, wp, acc),
        }
    }
}

/// The line after all round rocks rolled toward the front.
pub open spec fn pack_front(line: Seq<Rock>) -> Seq<Rock> {
    pack_step(line, 0, 0, empty_line(line.len() as int))
}

/// The line reversed.
pub open spec fn rev_line(line: Seq<Rock>) -> Seq<Rock> {
    Seq::new(line.len(), |j: int| line[line.len() - 1 - j])
}

/// The line after all round rocks rolled toward the back.
pub open spec fn pack_back(line: Seq<Rock>) -> Seq<Rock> {
    rev_line(pack_front(rev_line(line)))
}

/// Rolls the round rocks of one line to the front, keeping square rocks
/// in place.
fn pack_line_front(line: &Vec<Rock>) -> (r: Vec<Rock>)
    ensures
        r@ == pack_front(line@),
{
    let n = line.len();
    let mut r: Vec<Rock> = Vec::new();
    let mut k: usize = 0;
    while k < n
        invariant
            k <= n,
            r@.len() == k,
            forall|j: int| 0 <= j < k ==> #[trigger] r@[j] == Rock::Empty,
        decreases n - k,
    {
        r.push(Rock::Empty);
        k = k + 1;
    }
    proof {
        assert(r@ =~~= empty_line(line@.len() as int));
    }
    let mut i: usize = 0;
    let mut wp: usize = 0;
    while i < n
        invariant
            n == line@.len(),
            i <= n,
            wp <= i,
            r@.len() == n,
            pack_front(line@) == pack_step(line@, i as int, wp as int, r@),
        decreases n - i,
    {
        let ghost prev = r@;
        match line[i] {
            Rock::Round => {
                r[wp] = Rock::Round;
                proof {
                    assert(r@ =~~= prev.update(wp as int, Rock::Round));
                }
                wp = wp + 1;
            },
            Rock::Square => {
                r[i] = Rock::Square;
                proof {
                    assert(r@ =~~= prev.update(i as int, Rock::Square));
                }
                wp = i + 1;
            },
            Rock::Empty => {},
        }
        i = i + 1;
    }
    r
}

/// The line with its cells in reverse order.
fn reverse_line(line: &Vec<Rock>) -> (r: Vec<Rock>)
    ensures
        r@ == rev_line(line@),
{
    let n = line.len();
    let mut r: Vec<Rock> = Vec::new();
    let mut k: usize = 0;
    while k < n
        invariant
            n == line@.len(),
            k <= n,
            r@.len() == k,
            forall|j: int| 0 <= j < k ==> #[trigger] r@[j] == line@[n - 1 - j],
        decreases n - k,
    {
        r.push(line[n - 1 - k]);
        k = k + 1;
    }
    proof {
        assert(r@ =~~= rev_line(line@));
    }
    r
}

/// Rolls the round rocks of one line to the back.
fn pack_line_back(line: &Vec<Rock>) -> (r: Vec<Rock>)
    ensures
        r@ == pack_back(line@),
{
    let rev = reverse_line(line);
    let packed = pack_line_front(&rev);
    let r = reverse_line(&packed);
    r
}

/// The packing walk never changes the line's length.
proof fn lemma_pack_step_len(line: Seq<Rock>, i: int, wp: int, acc: Seq<Rock>)
    requires
        acc.len() == line.len(),
        0 <= wp <= i,
    ensures
        pack_step(line, i, wp, acc).len() == acc.len(),
    decreases line.len() - i,
{
    if 0 <= i < line.len() {
        match line[i] {
            Rock::Round => lemma_pack_step_len(line, i + 1, wp + 1, acc.update(wp, Rock::Round)),
            Rock::Square => lemma_pack_step_len(line, i + 1, i + 1, acc.update(i, Rock::Square)),
            Rock::Empty => lemma_pack_step_len(line, i + 1, wp, acc),
        }
    }
}

/// Packed lines keep their length, toward either edge.
pub proof fn lemma_pack_len(line: Seq<Rock>)
    ensures
        pack_front(line).len() == line.len(),
        pack_back(line).len() == line.len(),
{
    lemma_pack_step_len(line, 0, 0, empty_line(line.len() as int));
    lemma_pack_step_len(rev_line(line), 0, 0, empty_line(line.len() as int));
}

/// Column `x` of the cells, top to bottom.
pub open spec fn col_of(cells: Seq<Seq<Rock>>, h: int, x: int) -> Seq<Rock> {
    Seq::new(h as nat, |y: int| cells[y][x])
}

/// The cells after one tilt: round rocks roll toward the tilted edge
/// within their column (up or down) or row (left or right).
pub open spec fn tilt_cells(cells: Seq<Seq<Rock>>, w: int, h: int, dir: Dir) -> Seq<Seq<Rock>> {
    match dir {
        Dir::Up => Seq::new(
            h as nat,
            |y: int| Seq::new(w as nat, |x: int| pack_front(col_of(cells, h, x))[y]),
        ),
        Dir::Down => Seq::new(
            h as nat,
            |y: int| Seq::new(w as nat, |x: int| pack_back(col_of(cells, h, x))[y]),
        ),
        Dir::Left => Seq::new(h as nat, |y: int| pack_front(cells[y])),
        Dir::Right => Seq::new(h as nat, |y: int| pack_back(cells[y])),
    }
}

/// The cells after one spin: tilts north, west, south and east in turn.
pub open spec fn spin_cells(cells: Seq<Seq<Rock>>, w: int, h: int) -> Seq<Seq<Rock>> {
    tilt_cells(
        tilt_cells(tilt_cells(tilt_cells(cells, w, h, Dir::Up), w, h, Dir::Left), w, h, Dir::Down),
        w,
        h,
        Dir::Right,
    )
}

/// Tilts the platform toward one edge: every round rock rolls within its
/// row or column until something stops it.
pub fn tilt(rocks: &Grid<Rock>, dir: Dir) -> (r: Grid<Rock>)
    requires
        rocks.wf(),
    ensures
        r.wf(),
        r.width == rocks.width,
        r.height == rocks.height,
        r.cells() == tilt_cells(rocks.cells(), rocks.width as int, rocks.height as int, dir),
{
    let w = rocks.width;
    let h = rocks.height;
    let ghost cells = rocks.cells();
    let mut lines: Vec<Vec<Rock>> = Vec::new();
    match dir {
        Dir::Up | Dir::Down => {
            let pack_to_front = matches!(dir, Dir::Up);
            let mut packed_cols: Vec<Vec<Rock>> = Vec::new();
            let mut x: usize = 0;
            while x < w
                invariant
                    rocks.wf(),
                    cells == rocks.cells(),
                    w == rocks.width,
                    h == rocks.height,
                    pack_to_front == (dir == Dir::Up),
                    dir == Dir::Up || dir == Dir::Down,
                    x <= w,
                    packed_cols@.len() == x,
                    forall|i: int|
                        0 <= i < x ==> (#[trigger] packed_cols@[i])@ == (if dir == Dir::Up {
                            pack_front(col_of(cells, h as int, i))
                        } else {
                            pack_back(col_of(cells, h as int, i))
                        }),
                decreases w - x,
            {
                let col = rocks.column(x);
                proof {
                    assert(col@ =~~= col_of(cells, h as int, x as int));
                }
                let packed = if pack_to_front {
                    pack_line_front(&col)
                } else {
                    pack_line_back(&col)
                };
                packed_cols.push(packed);
                x = x + 1;
            }
            proof {
                assert forall|i: int| 0 <= i < w implies (#[trigger] packed_cols@[i])@.len()
                    == h by {
                    assert(col_of(cells, h as int, i).len() == h);
                    lemma_pack_len(col_of(cells, h as int, i));
                }
            }
            let mut y: usize = 0;
            while y < h
                invariant
                    w == rocks.width,
                    h == rocks.height,
                    dir == Dir::Up || dir == Dir::Down,
                    packed_cols@.len() == w,
                    forall|i: int| 0 <= i < w ==> (#[trigger] packed_cols@[i])@.len() == h,
                    forall|i: int|
                        0 <= i < w ==> (#[trigger] packed_cols@[i])@ == (if dir == Dir::Up {
                            pack_front(col_of(cells, h as int, i))
                        } else {
                            pack_back(col_of(cells, h as int, i))
                        }),
                    y <= h,
                    lines@.len() == y,
                    forall|j: int| 0 <= j < y ==> (#[trigger] lines@[j])@.len() == w,
                    forall|j: int, i: int|
                        0 <= j < y && 0 <= i < w ==> #[trigger] lines@[j]@[i] == packed_cols@[i]@[j],
                decreases h - y,
            {
                let mut line: Vec<Rock> = Vec::new();
                let mut x2: usize = 0;
                while x2 < w
                    invariant
                        packed_cols@.len() == w,
                        forall|i: int| 0 <= i < w ==> (#[trigger] packed_cols@[i])@.len() == h,
                        y < h,
                        x2 <= w,
                        line@.len() == x2,
                        forall|i: int|
                            0 <= i < x2 ==> #[trigger] line@[i] == packed_cols@[i]@[y as int],
                    decreases w - x2,
                {
                    line.push(packed_cols[x2][y]);
                    x2 = x2 + 1;
                }
                lines.push(line);
                y = y + 1;
            }
        },
        Dir::Left | Dir::Right => {
            let pack_to_front = matches!(dir, Dir::Left);
            let mut y: usize = 0;
            while y < h
                invariant
                    rocks.wf(),
                    cells == rocks.cells(),
                    w == rocks.width,
                    h == rocks.height,
                    pack_to_front == (dir == Dir::Left),
                    dir == Dir::Left || dir == Dir::Right,
                    y <= h,
                    lines@.len() == y,
                    forall|j: int| 0 <= j < y ==> (#[trigger] lines@[j])@.len() == w,
                    forall|j: int|
                        0 <= j < y ==> (#[trigger] lines@[j])@ == (if dir == Dir::Left {
                            pack_front(cells[j])
                        } else {
                            pack_back(cells[j])
                        }),
                decreases h - y,
            {
                let row = rocks.row(y);
                let packed = if pack_to_front {
                    pack_line_front(&row)
                } else {
                    pack_line_back(&row)
                };
                proof {
                    lemma_pack_len(cells[y as int]);
                }
                lines.push(packed);
                y = y + 1;
            }
        },
    }
    let g = Grid { lines, width: w, height: h };
    proof {
        assert(g.wf()) by {
            assert forall|j: int| 0 <= j < g.lines@.len() implies (#[trigger] g.lines@[j])@.len()
                == w by {
                if dir == Dir::Up || dir == Dir::Down {
                } else {
                    assert(cells[j].len() == w);
                }
            }
        }
        assert forall|y2: int, x2: int| 0 <= y2 < h && 0 <= x2 < w implies #[trigger] g.cells()[y2][x2]
            == tilt_cells(cells, w as int, h as int, dir)[y2][x2] by {
            assert(g.cells()[y2] == g.lines@[y2]@);
        }
        assert forall|y2: int| 0 <= y2 < h implies #[trigger] g.cells()[y2] == tilt_cells(
            cells,
            w as int,
            h as int,
            dir,
        )[y2] by {
            assert(g.cells()[y2] =~~= tilt_cells(cells, w as int, h as int, dir)[y2]);
        }
        assert(g.cells() =~~= tilt_cells(cells, w as int, h as int, dir));
    }
    g
}

/// One spin of the platform: tilts north, west, south, then east.
pub fn spin_cycle(rocks: &Grid<Rock>) -> (r: Grid<Rock>)
    requires
        rocks.wf(),
    ensures
        r.wf(),
        r.width == rocks.width,
        r.height == rocks.height,
        r.cells() == spin_cells(rocks.cells(), rocks.width as int, rocks.height as int),
{
    let t1 = tilt(rocks, Dir::Up);
    let t2 = tilt(&t1, Dir::Left);
    let t3 = tilt(&t2, Dir::Down);
    tilt(&t3, Dir::Right)
}

/// The fingerprint code of one cell: empty ground is 0, square rocks 1,
/// round rocks 2.
pub open spec fn rock_code(r: Rock) -> u64 {
    match r {
        Rock::Empty => 0,
        Rock::Square => 1,
        Rock::Round => 2,
    }
}

/// The cell a platform symbol denotes.
pub open spec fn spec_rock(b: u8) -> Rock {
    if b == 35 {
        Rock::Square
    } else if b == 79 {
        Rock::Round
    } else {
        Rock::Empty
    }
}

/// Whether a byte is one of the three platform symbols.
pub open spec fn valid_rock_byte(b: u8) -> bool {
    b == 46 || b == 35 || b == 79
}

/// The fingerprint of a platform: its dimensions, then one code per cell
/// in row-major order.
pub open spec fn platform_key(cells: Seq<Seq<Rock>>, w: int, h: int) -> Seq<u64> {
    Seq::new(
        (2 + w * h) as nat,
        |i: int|
            if i == 0 {
                w as u64
            } else if i == 1 {
                h as u64
            } else {
                rock_code(cells[(i - 2) / w][(i - 2) % w])
            },
    )
}

/// The cells a fingerprint encodes.
pub open spec fn platform_decode(k: Seq<u64>) -> Seq<Seq<Rock>> {
    let w = k[0] as int;
    let h = k[1] as int;
    Seq::new(
        h as nat,
        |y: int|
            Seq::new(
                w as nat,
                |x: int|
                    if k[2 + y * w + x] == 1 {
                        Rock::Square
                    } else if k[2 + y * w + x] == 2 {
                        Rock::Round
                    } else {
                        Rock::Empty
                    },
            ),
    )
}

/// The fingerprint slot of cell `(x, y)` holds that cell's code.
proof fn lemma_platform_key_index(cells: Seq<Seq<Rock>>, w: int, h: int, x: int, y: int)
    requires
        0 <= x < w,
        0 <= y < h,
    ensures
        2 <= 2 + y * w + x < 2 + w * h,
        platform_key(cells, w, h)[2 + y * w + x] == rock_code(cells[y][x]),
{
    vstd::arithmetic::mul::lemma_mul_inequality(y + 1, h, w);
    vstd::arithmetic::mul::lemma_mul_is_distributive_add_other_way(w, y, 1);
    vstd::arithmetic::mul::lemma_mul_is_commutative(w, h);
    vstd::arithmetic::mul::lemma_mul_is_commutative(w, y);
    assert(y * w + x < w * h);
    assert(y * w >= 0) by {
        vstd::arithmetic::mul::lemma_mul_nonnegative(y, w);
    }
    vstd::arithmetic::div_mod::lemma_fundamental_div_mod_converse(y * w + x, w, y, x);
}

/// Decoding a platform fingerprint gives back the encoded cells.
proof fn lemma_platform_round_trip(cells: Seq<Seq<Rock>>, w: int, h: int)
    requires
        0 <= w <= u64::MAX,
        0 <= h <= u64::MAX,
        cells.len() == h,
        forall|y: int| 0 <= y < h ==> (#[trigger] cells[y]).len() == w,
    ensures
        platform_decode(platform_key(cells, w, h)) == cells,
{
    let k = platform_key(cells, w, h);
    assert(k[0] == w as u64 && k[1] == h as u64);
    assert forall|y: int| 0 <= y < h implies #[trigger] platform_decode(k)[y] == cells[y] by {
        assert forall|x: int| 0 <= x < w implies #[trigger] platform_decode(k)[y][x]
            == cells[y][x] by {
            lemma_platform_key_index(cells, w, h, x, y);
        }
        assert(platform_decode(k)[y] =~~= cells[y]);
    }
    assert(platform_decode(k) =~~= cells);
}

/// A rectangular platform of rocks; the grid is kept well-formed and
/// small enough that every cell has a fingerprint index.
pub struct Platform {
    grid: Grid<Rock>,
}

impl Platform {
    /// The grid is rectangular and its area leaves room for the two
    /// dimension slots of the fingerprint.
    #[verifier::type_invariant]
    pub closed spec fn inv(&self) -> bool {
        &&& self.grid.wf()
        &&& self.grid.width * self.grid.height + 2 <= usize::MAX
    }

    /// The cells of the platform.
    pub closed spec fn cells(&self) -> Seq<Seq<Rock>> {
        self.grid.cells()
    }

    /// The width of the platform.
    pub closed spec fn spec_width(&self) -> int {
        self.grid.width as int
    }

    /// The height of the platform.
    pub closed spec fn spec_height(&self) -> int {
        self.grid.height as int
    }

    /// Wraps a grid of rocks, refusing one whose area has no room for
    /// the fingerprint's two dimension slots.
    pub fn from_grid(grid: Grid<Rock>) -> (r: Result<Platform, ParseError>)
        requires
            grid.wf(),
        ensures
            r is Ok <==> grid.width * grid.height + 2 <= usize::MAX,
            r is Ok ==> r->Ok_0.cells() == grid.cells() && r->Ok_0.spec_width() == grid.width
                && r->Ok_0.spec_height() == grid.height,
    {
        if grid.height != 0 && grid.width > (usize::MAX - 2) / grid.height {
            proof {
                let h = grid.height as int;
                let w = grid.width as int;
                let q = (usize::MAX - 2) as int / h;
                vstd::arithmetic::div_mod::lemma_fundamental_div_mod((usize::MAX - 2) as int, h);
                vstd::arithmetic::mul::lemma_mul_inequality(q + 1, w, h);
                vstd::arithmetic::mul::lemma_mul_is_distributive_add_other_way(h, q, 1);
                vstd::arithmetic::mul::lemma_mul_is_commutative(w, h);
                assert((q + 1) * h == q * h + h);
                vstd::arithmetic::mul::lemma_mul_is_commutative(q, h);
                assert(w * h >= (q + 1) * h);
            }
            return Err(parse_error("", "platform too large"));
        }
        proof {
            if grid.height != 0 {
                vstd::arithmetic::div_mod::lemma_fundamental_div_mod(
                    (usize::MAX - 2) as int,
                    grid.height as int,
                );
                vstd::arithmetic::mul::lemma_mul_inequality(
                    grid.width as int,
                    (usize::MAX - 2) / grid.height as int,
                    grid.height as int,
                );
                vstd::arithmetic::mul::lemma_mul_is_commutative(
                    grid.width as int,
                    grid.height as int,
                );
            } else {
                assert(grid.width * grid.height == 0) by {
                    vstd::arithmetic::mul::lemma_mul_by_zero_is_zero(grid.width as int);
                }
            }
        }
        Ok(Platform { grid })
    }

    /// Parses a platform: `.` is empty ground, `#` a square rock, `O` a
    /// round rock. Any other byte is rejected.
    pub fn from_text(input: &str) -> (r: Result<Platform, ParseError>)
        ensures
            r is Ok ==> {
                let rows = spec_lines(input.spec_bytes());
                &&& rows.len() > 0
                &&& rectangular(rows)
                &&& r->Ok_0.spec_height() == rows.len()
                &&& r->Ok_0.spec_width() == rows[0].len()
                &&& forall|y: int, x: int|
                    0 <= y < rows.len() && 0 <= x < rows[0].len()
                        ==> #[trigger] r->Ok_0.cells()[y][x] == spec_rock(rows[y][x])
            },
            r is Err ==> {
                let rows = spec_lines(input.spec_bytes());
                rows.len() == 0 || !rectangular(rows) || rows[0].len() * rows.len() + 2
                    > usize::MAX || exists|y: int, x: int|
                    0 <= y < rows.len() && 0 <= x < rows[0].len() && !valid_rock_byte(
                        #[trigger] rows[y][x],
                    )
            },
    {
        let bytes = Grid::<u8>::from_lines(input)?;
        let mut lines: Vec<Vec<Rock>> = Vec::new();
        let mut y: usize = 0;
        let ghost rows = spec_lines(input.spec_bytes());
        while y < bytes.lines.len()
            invariant
                bytes.wf(),
                rows == spec_lines(input.spec_bytes()),
                bytes.cells() == rows,
                rows.len() > 0,
                rectangular(rows),
                bytes.height == rows.len(),
                bytes.width == rows[0].len(),
                y <= bytes.height,
                lines@.len() == y,
                forall|j: int| 0 <= j < y ==> (#[trigger] lines@[j])@.len() == bytes.width,
                forall|j: int, x: int|
                    0 <= j < y && 0 <= x < bytes.width ==> #[trigger] lines@[j]@[x] == spec_rock(
                        rows[j][x],
                    ),
            decreases bytes.lines@.len() - y,
        {
            let mut line: Vec<Rock> = Vec::new();
            let mut x: usize = 0;
            while x < bytes.lines[y].len()
                invariant
                    bytes.wf(),
                    rows == spec_lines(input.spec_bytes()),
                    bytes.cells() == rows,
                    rows.len() > 0,
                    rectangular(rows),
                    bytes.height == rows.len(),
                    bytes.width == rows[0].len(),
                    y < bytes.height,
                    x <= bytes.width,
                    line@.len() == x,
                    forall|i: int|
                        0 <= i < x ==> #[trigger] line@[i] == spec_rock(rows[y as int][i]),
                decreases bytes.lines@[y as int]@.len() - x,
            {
                let b = bytes.lines[y][x];
                assert(b == rows[y as int][x as int]);
                let t = match b {
                    46u8 => Rock::Empty,
                    35u8 => Rock::Square,
                    79u8 => Rock::Round,
                    _ => {
                        assert(!valid_rock_byte(rows[y as int][x as int]));
                        return Err(parse_error(input, "unrecognized rock symbol"));
                    },
                };
                line.push(t);
                x = x + 1;
            }
            lines.push(line);
            y = y + 1;
        }
        let g = Grid { lines, width: bytes.width, height: bytes.height };
        assert(g.wf());
        let platform = Platform::from_grid(g)?;
        Ok(platform)
    }

    /// The grid of rocks behind the platform.
    pub fn as_grid(&self) -> (r: &Grid<Rock>)
        ensures
            r.wf(),
            r.width == self.spec_width(),
            r.height == self.spec_height(),
            r.cells() == self.cells(),
    {
        proof {
            use_type_invariant(self);
        }
        &self.grid
    }

    /// One spin of the platform, as a state of its own.
    pub fn spin(&self) -> (r: Platform)
        ensures
            r.spec_width() == self.spec_width(),
            r.spec_height() == self.spec_height(),
            r.cells() == spin_cells(self.cells(), self.spec_width(), self.spec_height()),
    {
        proof {
            use_type_invariant(self);
        }
        let g = spin_cycle(&self.grid);
        Platform { grid: g }
    }
}

impl Simulate for Platform {
    open spec fn key_view(&self) -> Seq<u64> {
        platform_key(self.cells(), self.spec_width(), self.spec_height())
    }

    open spec fn next_key(k: Seq<u64>) -> Seq<u64> {
        platform_key(
            spin_cells(platform_decode(k), k[0] as int, k[1] as int),
            k[0] as int,
            k[1] as int,
        )
    }

    fn sim_step(&self) -> (r: Self) {
        proof {
            use_type_invariant(self);
        }
        let r = self.spin();
        proof {
            let w = self.spec_width();
            let h = self.spec_height();
            let k = platform_key(self.cells(), w, h);
            assert(usize::MAX <= u64::MAX);
            assert(k[0] as int == w && k[1] as int == h);
            lemma_platform_round_trip(self.cells(), w, h);
            assert(r.key_view() == Self::next_key(self.key_view()));
        }
        r
    }

    fn key(&self) -> (r: Vec<u64>) {
        proof {
            use_type_invariant(self);
        }
        let w = self.grid.width;
        let h = self.grid.height;
        let mut r: Vec<u64> = Vec::new();
        r.push(w as u64);
        r.push(h as u64);
        let ghost k = self.key_view();
        proof {
            assert(r@ =~~= k.take(2));
        }
        let mut y: usize = 0;
        while y < h
            invariant
                self.inv(),
                k == self.key_view(),
                w == self.grid.width,
                h == self.grid.height,
                y <= h,
                r@.len() == 2 + y * w,
                r@ =~~= k.take(2 + y as int * w as int),
            decreases h - y,
        {
            let mut x: usize = 0;
            proof {
                vstd::arithmetic::mul::lemma_mul_inequality(y as int + 1, h as int, w as int);
                vstd::arithmetic::mul::lemma_mul_is_distributive_add_other_way(
                    w as int,
                    y as int,
                    1,
                );
                vstd::arithmetic::mul::lemma_mul_is_commutative(w as int, h as int);
            }
            while x < w
                invariant
                    self.inv(),
                    k == self.key_view(),
                    w == self.grid.width,
                    h == self.grid.height,
                    y < h,
                    x <= w,
                    (y + 1) * w <= w * h,
                    r@.len() == 2 + y * w + x,
                    r@ =~~= k.take(2 + y as int * w as int + x as int),
                decreases w - x,
            {
                proof {
                    vstd::arithmetic::mul::lemma_mul_is_distributive_add_other_way(
                        w as int,
                        y as int,
                        1,
                    );
                }
                let t = self.grid.lines[y][x];
                let code: u64 = match t {
                    Rock::Empty => 0,
                    Rock::Square => 1,
                    Rock::Round => 2,
                };
                r.push(code);
                proof {
                    lemma_platform_key_index(self.cells(), w as int, h as int, x as int, y as int);
                    assert(code == rock_code(self.cells()[y as int][x as int]));
                    assert(r@ =~~= k.take(2 + y as int * w as int + x as int + 1));
                }
                x = x + 1;
            }
            proof {
                vstd::arithmetic::mul::lemma_mul_is_distributive_add_other_way(
                    w as int,
                    y as int,
                    1,
                );
            }
            y = y + 1;
        }
        proof {
            vstd::arithmetic::mul::lemma_mul_is_commutative(w as int, h as int);
            assert(r@ =~~= k);
        }
        r
    }
}

/// The number of round rocks in one row.
pub open spec fn count_round_row(row: Seq<Rock>) -> int
    decreases row.len(),
{
    if row.len() == 0 {
        0
    } else {
        count_round_row(row.drop_last()) + if row.last() is Round {
            1int
        } else {
            0int
        }
    }
}

/// The load on the north beam of the rows before `y`: every round rock
/// in row `j` weighs the number of rows from `j` to the south edge.
pub open spec fn north_load_upto(cells: Seq<Seq<Rock>>, h: int, y: int) -> int
    decreases y,
{
    if y <= 0 {
        0
    } else {
        north_load_upto(cells, h, y - 1) + (h - (y - 1)) * count_round_row(cells[y - 1])
    }
}

impl Platform {
    /// The total load on the north support beam: each round rock counts
    /// the number of rows between it and the south edge, inclusive.
    pub fn north_load(&self) -> (r: usize)
        requires
            self.spec_height() * (self.spec_width() * self.spec_height()) <= usize::MAX,
        ensures
            r as int == north_load_upto(self.cells(), self.spec_height(), self.spec_height()),
    {
        proof {
            use_type_invariant(self);
        }
        let w = self.grid.width;
        let h = self.grid.height;
        let mut total: usize = 0;
        let mut y: usize = 0;
        while y < h
            invariant
                self.inv(),
                w == self.grid.width,
                h == self.grid.height,
                h as int * (w as int * h as int) <= usize::MAX,
                y <= h,
                total as int == north_load_upto(self.cells(), h as int, y as int),
                total as int <= y as int * (w as int * h as int),
            decreases h - y,
        {
            let mut x: usize = 0;
            let mut row_count: usize = 0;
            proof {
                assert(self.cells()[y as int].take(0) =~~= Seq::<Rock>::empty());
            }
            while x < w
                invariant
                    self.inv(),
                    w == self.grid.width,
                    h == self.grid.height,
                    y < h,
                    x <= w,
                    row_count as int == count_round_row(self.cells()[y as int].take(x as int)),
                    row_count <= x,
                decreases w - x,
            {
                if matches!(self.grid.lines[y][x], Rock::Round) {
                    row_count = row_count + 1;
                }
                proof {
                    assert(self.cells()[y as int].take(x as int + 1).drop_last() =~~= self.cells()[y as int].take(x as int));
                    assert(self.cells()[y as int].take(x as int + 1).last() == self.cells()[y as int][x as int]);
                }
                x = x + 1;
            }
            proof {
                assert(self.cells()[y as int].take(w as int) =~~= self.cells()[y as int]);
            }
            let weight = h - y;
            proof {
                vstd::arithmetic::mul::lemma_mul_nonnegative(w as int, h as int);
                assert(weight as int * row_count as int <= h as int * w as int) by (
                nonlinear_arith)
                    requires
                        0 <= weight as int <= h as int,
                        0 <= row_count as int <= w as int,
                ;
                vstd::arithmetic::mul::lemma_mul_nonnegative(weight as int, row_count as int);
                vstd::arithmetic::mul::lemma_mul_is_commutative(h as int, w as int);
                assert(y as int * (w as int * h as int) + w as int * h as int <= (y as int + 1) * (
                w as int * h as int)) by (nonlinear_arith);
                assert((y as int + 1) * (w as int * h as int) <= h as int * (w as int * h as int))
                    by (nonlinear_arith)
                    requires
                        y as int + 1 <= h as int,
                        w as int * h as int >= 0,
                ;
                assert(w as int * h as int <= h as int * (w as int * h as int)) by (
                nonlinear_arith)
                    requires
                        h as int >= 1,
                        w as int * h as int >= 0,
                ;
            }
            let contribution = weight * row_count;
            total = total + contribution;
            y = y + 1;
        }
        total
    }
}

} // verus!
