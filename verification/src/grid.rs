//! A rectangular grid of cells addressed by `(x, y)` coordinates, with
//! bounds-checked accessors and cardinal-direction neighbor queries.
//! Out-of-bounds access yields `None` instead of failing, which keeps
//! boundary checks out of the algorithms built on top.
use vstd::prelude::*;
use vstd::string::StringSliceAdditionalSpecFns;

use crate::ParseError;
use crate::parse_error;

verus! {

/// An `(x, y)` cell address: `x` is the column, `y` the row, both zero-based.
pub type Coord = (usize, usize);

/// One of the four cardinal directions.
#[derive(Debug, Clone, Copy, PartialEq, Eq, Structural)]
pub enum Dir {
    Up,
    Down,
    Left,
    Right,
}

impl Dir {
    /// The opposite direction.
    pub open spec fn spec_reverse(self) -> Dir {
        match self {
            Dir::Up => Dir::Down,
            Dir::Down => Dir::Up,
            Dir::Left => Dir::Right,
            Dir::Right => Dir::Left,
        }
    }

    /// The direction after a quarter turn clockwise.
    pub open spec fn spec_clockwise(self) -> Dir {
        match self {
            Dir::Up => Dir::Right,
            Dir::Right => Dir::Down,
            Dir::Down => Dir::Left,
            Dir::Left => Dir::Up,
        }
    }

    /// The coordinate one step from `coord` in this direction, or `None`
    /// where the step would leave the non-negative quadrant or overflow.
    pub open spec fn spec_step(self, coord: Coord) -> Option<Coord> {
        let (x, y) = coord;
        match self {
            Dir::Up => if y > 0 { Some((x, (y - 1) as usize)) } else { None },
            Dir::Down => if y < usize::MAX { Some((x, (y + 1) as usize)) } else { None },
            Dir::Left => if x > 0 { Some(((x - 1) as usize, y)) } else { None },
            Dir::Right => if x < usize::MAX { Some(((x + 1) as usize, y)) } else { None },
        }
    }

    /// Whether `self` is the reverse of `dir`.
    pub fn is_reverse(&self, dir: Dir) -> (r: bool)
        ensures
            r == (*self == dir.spec_reverse()),
    {
        match dir {
            Dir::Up => *self == Dir::Down,
            Dir::Down => *self == Dir::Up,
            Dir::Left => *self == Dir::Right,
            Dir::Right => *self == Dir::Left,
        }
    }

    /// The opposite direction.
    pub fn reverse(self) -> (r: Dir)
        ensures
            r == self.spec_reverse(),
    {
        match self {
            Dir::Up => Dir::Down,
            Dir::Down => Dir::Up,
            Dir::Left => Dir::Right,
            Dir::Right => Dir::Left,
        }
    }

    /// The direction after a quarter turn clockwise.
    pub fn rotate_clockwise(self) -> (r: Dir)
        ensures
            r == self.spec_clockwise(),
    {
        match self {
            Dir::Up => Dir::Right,
            Dir::Right => Dir::Down,
            Dir::Down => Dir::Left,
            Dir::Left => Dir::Up,
        }
    }

    /// The direction after a quarter turn counter-clockwise.
    pub fn rotate_counter_clockwise(self) -> (r: Dir)
        ensures
            r == self.spec_clockwise().spec_reverse(),
    {
        match self {
            Dir::Up => Dir::Left,
            Dir::Left => Dir::Down,
            Dir::Down => Dir::Right,
            Dir::Right => Dir::Up,
        }
    }

    /// Steps `coord` one cell in this direction, `None` at the lower edges
    /// or on overflow.
    pub fn step(self, coord: Coord) -> (r: Option<Coord>)
        ensures
            r == self.spec_step(coord),
    {
        let (x, y) = coord;
        match self {
            Dir::Up => if y > 0 { Some((x, y - 1)) } else { None },
            Dir::Down => if y < usize::MAX { Some((x, y + 1)) } else { None },
            Dir::Left => if x > 0 { Some((x - 1, y)) } else { None },
            Dir::Right => if x < usize::MAX { Some((x + 1, y)) } else { None },
        }
    }
}

/// The lines of `s` up to the end, split at newline bytes with empty lines
/// dropped, given that the bytes before `i` left the partial line `cur` and
/// the finished lines `acc`.
pub open spec fn split_lines_from(s: Seq<u8>, i: int, cur: Seq<u8>, acc: Seq<Seq<u8>>) -> Seq<
    Seq<u8>,
>
    decreases s.len() - i,
{
    if i < 0 || i >= s.len() {
        if cur.len() > 0 {
            acc.push(cur)
        } else {
            acc
        }
    } else if s[i] == 10u8 {
        split_lines_from(
            s,
            i + 1,
            Seq::empty(),
            if cur.len() > 0 {
                acc.push(cur)
            } else {
                acc
            },
        )
    } else {
        split_lines_from(s, i + 1, cur.push(s[i]), acc)
    }
}

/// The non-empty lines of `s`, split at newline bytes.
pub open spec fn spec_lines(s: Seq<u8>) -> Seq<Seq<u8>> {
    split_lines_from(s, 0, Seq::empty(), Seq::empty())
}

/// All rows have the length of the first one.
pub open spec fn rectangular(rows: Seq<Seq<u8>>) -> bool {
    forall|i: int| 0 <= i < rows.len() ==> (#[trigger] rows[i]).len() == rows[0].len()
}

/// Splits `s` at newline bytes, dropping empty lines.
fn split_lines(s: &[u8]) -> (r: Vec<Vec<u8>>)
    ensures
        r@.map_values(|l: Vec<u8>| l@) == spec_lines(s@),
{
    let mut acc: Vec<Vec<u8>> = Vec::new();
    let mut cur: Vec<u8> = Vec::new();
    let mut i: usize = 0;
    assert(acc@.map_values(|l: Vec<u8>| l@) =~~= Seq::<Seq<u8>>::empty());
    assert(cur@ =~~= Seq::<u8>::empty());
    while i < s.len()
        invariant
            i <= s.len(),
            split_lines_from(s@, i as int, cur@, acc@.map_values(|l: Vec<u8>| l@)) == spec_lines(
                s@,
            ),
        decreases s.len() - i,
    {
        let ghost prev_acc = acc@.map_values(|l: Vec<u8>| l@);
        let ghost prev_cur = cur@;
        let ghost prev_i = i as int;
        if s[i] == 10 {
            if cur.len() > 0 {
                acc.push(cur);
                cur = Vec::new();
                assert(acc@.map_values(|l: Vec<u8>| l@) =~~= prev_acc.push(prev_cur));
            }
            assert(cur@ =~~= Seq::<u8>::empty());
            assert(split_lines_from(s@, prev_i, prev_cur, prev_acc) == split_lines_from(
                s@,
                prev_i + 1,
                Seq::empty(),
                if prev_cur.len() > 0 {
                    prev_acc.push(prev_cur)
                } else {
                    prev_acc
                },
            ));
        } else {
            cur.push(s[i]);
            assert(split_lines_from(s@, prev_i, prev_cur, prev_acc) == split_lines_from(
                s@,
                prev_i + 1,
                prev_cur.push(s@[prev_i]),
                prev_acc,
            ));
        }
        i += 1;
    }
    if cur.len() > 0 {
        let ghost prev_acc = acc@.map_values(|l: Vec<u8>| l@);
        let ghost prev_cur = cur@;
        acc.push(cur);
        assert(acc@.map_values(|l: Vec<u8>| l@) =~~= prev_acc.push(prev_cur));
    }
    acc
}

/// A `width` × `height` rectangle of cells, stored row-major.
#[derive(Debug, Clone, PartialEq, Eq)]
pub struct Grid<Item> {
    pub lines: Vec<Vec<Item>>,
    pub width: usize,
    pub height: usize,
}

impl<Item> Grid<Item> {
    /// The cells as a sequence of rows.
    pub open spec fn cells(&self) -> Seq<Seq<Item>> {
        self.lines@.map_values(|l: Vec<Item>| l@)
    }

    /// Every row has exactly `width` cells and there are `height` rows.
    pub open spec fn wf(&self) -> bool {
        &&& self.lines@.len() == self.height
        &&& forall|y: int| 0 <= y < self.height ==> (#[trigger] self.lines@[y])@.len() == self.width
    }

    /// Whether `coord` addresses a cell of the grid.
    pub open spec fn spec_in_bounds(&self, coord: Coord) -> bool {
        coord.0 < self.width && coord.1 < self.height
    }

    /// The cell at `coord`, as a spec value.
    pub open spec fn spec_cell(&self, coord: Coord) -> Item {
        self.cells()[coord.1 as int][coord.0 as int]
    }

    /// Whether `coord` addresses a cell.
    pub fn in_bounds(&self, coord: Coord) -> (r: bool)
        ensures
            r == self.spec_in_bounds(coord),
    {
        coord.0 < self.width && coord.1 < self.height
    }

    /// The cell at `coord`, or `None` when `coord` lies outside the grid.
    pub fn get(&self, coord: Coord) -> (r: Option<&Item>)
        requires
            self.wf(),
        ensures
            r is Some <==> self.spec_in_bounds(coord),
            r is Some ==> *r->Some_0 == self.spec_cell(coord),
    {
        let (x, y) = coord;
        if x >= self.width || y >= self.height {
            None
        } else {
            Some(&self.lines[y][x])
        }
    }

    /// The coordinate together with the cell it addresses, or `None` when
    /// it lies outside the grid.
    pub fn get_with_coord(&self, coord: Coord) -> (r: Option<(Coord, &Item)>)
        requires
            self.wf(),
        ensures
            r is Some <==> self.spec_in_bounds(coord),
            r is Some ==> r->Some_0.0 == coord && *r->Some_0.1 == self.spec_cell(coord),
    {
        let (x, y) = coord;
        if x >= self.width || y >= self.height {
            None
        } else {
            Some(((x, y), &self.lines[y][x]))
        }
    }

    /// Appends a row at index `y`, shifting the rows below it down.
    pub fn insert_line(&mut self, y: usize, line: Vec<Item>)
        requires
            old(self).wf(),
            y <= old(self).height,
            line@.len() == old(self).width,
            old(self).height < usize::MAX,
        ensures
            final(self).wf(),
            final(self).width == old(self).width,
            final(self).height == old(self).height + 1,
            final(self).cells() == old(self).cells().insert(y as int, line@),
    {
        self.lines.insert(y, line);
        self.height = self.height + 1;
        assert(self.cells() =~~= old(self).cells().insert(y as int, line@));
    }

    /// Inserts a column at index `x`, shifting the columns to its right.
    pub fn insert_column(&mut self, x: usize, column: Vec<Item>)
        requires
            old(self).wf(),
            x <= old(self).width,
            column@.len() == old(self).height,
            old(self).width < usize::MAX,
        ensures
            final(self).wf(),
            final(self).width == old(self).width + 1,
            final(self).height == old(self).height,
            final(self).cells().len() == old(self).cells().len(),
            forall|y: int|
                0 <= y < old(self).height ==> #[trigger] final(self).cells()[y] == old(
                    self,
                ).cells()[y].insert(x as int, column@[y]),
    {
        let ghost full_column = column@;
        let mut column = column;
        let mut y: usize = 0;
        while y < self.lines.len()
            invariant
                old(self).wf(),
                x <= old(self).width,
                full_column.len() == old(self).height,
                y <= old(self).height,
                self.width == old(self).width,
                self.height == old(self).height,
                self.lines@.len() == old(self).lines@.len(),
                column@ == full_column.skip(y as int),
                forall|j: int|
                    y <= j < old(self).height ==> #[trigger] self.cells()[j] == old(self).cells()[j],
                forall|j: int|
                    0 <= j < y ==> #[trigger] self.cells()[j] == old(self).cells()[j].insert(
                        x as int,
                        full_column[j],
                    ),
            decreases self.lines@.len() - y,
        {
            assert(self.cells()[y as int] == old(self).cells()[y as int]);
            assert(self.lines@[y as int]@.len() == old(self).width);
            let item = column.remove(0);
            assert(item == full_column[y as int]);
            assert(column@ =~~= full_column.skip(y as int + 1));
            let ghost prev = self.cells();
            let ghost prev_lines = self.lines@;
            self.lines[y].insert(x, item);
            assert(self.lines@ =~~= prev_lines.update(y as int, self.lines@[y as int]));
            assert(self.lines@[y as int]@ =~~= prev[y as int].insert(
                x as int,
                full_column[y as int],
            ));
            assert(self.cells() =~~= prev.update(
                y as int,
                prev[y as int].insert(x as int, full_column[y as int]),
            ));
            y = y + 1;
        }
        assert(y == old(self).height);
        assert(forall|j: int|
            0 <= j < old(self).height ==> #[trigger] self.cells()[j] == old(self).cells()[j].insert(
                x as int,
                full_column[j],
            ));
        let ghost cells_snapshot = self.cells();
        self.width = self.width + 1;
        assert(self.cells() == cells_snapshot);
        assert forall|j: int| 0 <= j < old(self).height implies #[trigger] self.cells()[j] == old(
            self,
        ).cells()[j].insert(x as int, full_column[j]) by {}
        assert forall|j: int| 0 <= j < self.lines@.len() implies (#[trigger] self.lines@[j])@.len()
            == self.width by {
            assert(self.cells()[j] == old(self).cells()[j].insert(x as int, full_column[j]));
            assert(self.cells()[j] == self.lines@[j]@);
            assert(old(self).cells()[j].len() == old(self).width);
        }
        assert(self.wf());
    }

    /// Overwrites the cell at `coord`.
    pub fn set(&mut self, coord: Coord, value: Item)
        requires
            old(self).wf(),
            old(self).spec_in_bounds(coord),
        ensures
            final(self).wf(),
            final(self).width == old(self).width,
            final(self).height == old(self).height,
            final(self).cells() == old(self).cells().update(
                coord.1 as int,
                old(self).cells()[coord.1 as int].update(coord.0 as int, value),
            ),
    {
        let (x, y) = coord;
        self.lines[y][x] = value;
        assert(self.cells() =~~= old(self).cells().update(
            coord.1 as int,
            old(self).cells()[coord.1 as int].update(coord.0 as int, value),
        ));
    }
}

impl<Item> Grid<Item> {
    /// The cell one step from `coord` in direction `dir`, or `None` when
    /// that step leaves the grid.
    pub fn get_in_dir(&self, coord: Coord, dir: Dir) -> (r: Option<&Item>)
        requires
            self.wf(),
        ensures
            r is Some <==> dir.spec_step(coord) is Some && self.spec_in_bounds(
                dir.spec_step(coord)->Some_0,
            ),
            r is Some ==> *r->Some_0 == self.spec_cell(dir.spec_step(coord)->Some_0),
    {
        match dir.step(coord) {
            Some(c) => self.get(c),
            None => None,
        }
    }

    /// The cell above `coord`, if any.
    pub fn get_above(&self, coord: Coord) -> (r: Option<&Item>)
        requires
            self.wf(),
        ensures
            r is Some <==> self.spec_neighbor(coord, Dir::Up) is Some,
            r is Some ==> *r->Some_0 == self.spec_neighbor(coord, Dir::Up)->Some_0,
    {
        self.get_in_dir(coord, Dir::Up)
    }

    /// The cell below `coord`, if any.
    pub fn get_below(&self, coord: Coord) -> (r: Option<&Item>)
        requires
            self.wf(),
        ensures
            r is Some <==> self.spec_neighbor(coord, Dir::Down) is Some,
            r is Some ==> *r->Some_0 == self.spec_neighbor(coord, Dir::Down)->Some_0,
    {
        self.get_in_dir(coord, Dir::Down)
    }

    /// The cell left of `coord`, if any.
    pub fn get_left_of(&self, coord: Coord) -> (r: Option<&Item>)
        requires
            self.wf(),
        ensures
            r is Some <==> self.spec_neighbor(coord, Dir::Left) is Some,
            r is Some ==> *r->Some_0 == self.spec_neighbor(coord, Dir::Left)->Some_0,
    {
        self.get_in_dir(coord, Dir::Left)
    }

    /// The cell right of `coord`, if any.
    pub fn get_right_of(&self, coord: Coord) -> (r: Option<&Item>)
        requires
            self.wf(),
        ensures
            r is Some <==> self.spec_neighbor(coord, Dir::Right) is Some,
            r is Some ==> *r->Some_0 == self.spec_neighbor(coord, Dir::Right)->Some_0,
    {
        self.get_in_dir(coord, Dir::Right)
    }

    /// The neighbor of `coord` in direction `dir`, as a spec value.
    pub open spec fn spec_neighbor(&self, coord: Coord, dir: Dir) -> Option<Item> {
        match dir.spec_step(coord) {
            Some(c) => if self.spec_in_bounds(c) {
                Some(self.spec_cell(c))
            } else {
                None
            },
            None => None,
        }
    }

    /// The neighboring coordinate and cell in direction `dir`, if any.
    pub fn get_in_dir_coord(&self, coord: Coord, dir: Dir) -> (r: Option<(Coord, &Item)>)
        requires
            self.wf(),
        ensures
            r is Some <==> dir.spec_step(coord) is Some && self.spec_in_bounds(
                dir.spec_step(coord)->Some_0,
            ),
            r is Some ==> r->Some_0.0 == dir.spec_step(coord)->Some_0 && *r->Some_0.1
                == self.spec_cell(dir.spec_step(coord)->Some_0),
    {
        match dir.step(coord) {
            Some(c) => self.get_with_coord(c),
            None => None,
        }
    }

    /// The coordinate and cell above `coord`, if any.
    pub fn get_above_coord(&self, coord: Coord) -> (r: Option<(Coord, &Item)>)
        requires
            self.wf(),
        ensures
            r is Some <==> self.spec_neighbor(coord, Dir::Up) is Some,
            r is Some ==> r->Some_0.0 == Dir::Up.spec_step(coord)->Some_0 && *r->Some_0.1
                == self.spec_neighbor(coord, Dir::Up)->Some_0,
    {
        self.get_in_dir_coord(coord, Dir::Up)
    }

    /// The coordinate and cell below `coord`, if any.
    pub fn get_below_coord(&self, coord: Coord) -> (r: Option<(Coord, &Item)>)
        requires
            self.wf(),
        ensures
            r is Some <==> self.spec_neighbor(coord, Dir::Down) is Some,
            r is Some ==> r->Some_0.0 == Dir::Down.spec_step(coord)->Some_0 && *r->Some_0.1
                == self.spec_neighbor(coord, Dir::Down)->Some_0,
    {
        self.get_in_dir_coord(coord, Dir::Down)
    }

    /// The coordinate and cell left of `coord`, if any.
    pub fn get_left_coord(&self, coord: Coord) -> (r: Option<(Coord, &Item)>)
        requires
            self.wf(),
        ensures
            r is Some <==> self.spec_neighbor(coord, Dir::Left) is Some,
            r is Some ==> r->Some_0.0 == Dir::Left.spec_step(coord)->Some_0 && *r->Some_0.1
                == self.spec_neighbor(coord, Dir::Left)->Some_0,
    {
        self.get_in_dir_coord(coord, Dir::Left)
    }

    /// The coordinate and cell right of `coord`, if any.
    pub fn get_right_coord(&self, coord: Coord) -> (r: Option<(Coord, &Item)>)
        requires
            self.wf(),
        ensures
            r is Some <==> self.spec_neighbor(coord, Dir::Right) is Some,
            r is Some ==> r->Some_0.0 == Dir::Right.spec_step(coord)->Some_0 && *r->Some_0.1
                == self.spec_neighbor(coord, Dir::Right)->Some_0,
    {
        self.get_in_dir_coord(coord, Dir::Right)
    }

    /// The cells in the four cardinal directions, as
    /// (up, down, left, right).
    pub fn get_cardinally_adjacent_tiles(&self, coord: Coord) -> (r: (
        Option<&Item>,
        Option<&Item>,
        Option<&Item>,
        Option<&Item>,
    ))
        requires
            self.wf(),
        ensures
            r.0 is Some <==> self.spec_neighbor(coord, Dir::Up) is Some,
            r.0 is Some ==> *r.0->Some_0 == self.spec_neighbor(coord, Dir::Up)->Some_0,
            r.1 is Some <==> self.spec_neighbor(coord, Dir::Down) is Some,
            r.1 is Some ==> *r.1->Some_0 == self.spec_neighbor(coord, Dir::Down)->Some_0,
            r.2 is Some <==> self.spec_neighbor(coord, Dir::Left) is Some,
            r.2 is Some ==> *r.2->Some_0 == self.spec_neighbor(coord, Dir::Left)->Some_0,
            r.3 is Some <==> self.spec_neighbor(coord, Dir::Right) is Some,
            r.3 is Some ==> *r.3->Some_0 == self.spec_neighbor(coord, Dir::Right)->Some_0,
    {
        (
            self.get_above(coord),
            self.get_below(coord),
            self.get_left_of(coord),
            self.get_right_of(coord),
        )
    }

    /// The four cardinal neighbors of `coord`, each tagged with its
    /// direction.
    pub fn get_neighbors(&self, coord: Coord) -> (r: [(Dir, Option<&Item>); 4])
        requires
            self.wf(),
        ensures
            r@.len() == 4,
            forall|k: int|
                0 <= k < 4 ==> (#[trigger] r@[k]).0 == seq![Dir::Up, Dir::Down, Dir::Left, Dir::Right][k],
            forall|k: int|
                0 <= k < 4 ==> ((#[trigger] r@[k]).1 is Some <==> self.spec_neighbor(coord, r@[k].0) is Some),
            forall|k: int|
                0 <= k < 4 ==> ((#[trigger] r@[k]).1 is Some ==> *r@[k].1->Some_0
                    == self.spec_neighbor(coord, r@[k].0)->Some_0),
    {
        [
            (Dir::Up, self.get_above(coord)),
            (Dir::Down, self.get_below(coord)),
            (Dir::Left, self.get_left_of(coord)),
            (Dir::Right, self.get_right_of(coord)),
        ]
    }
}

impl<Item: Copy> Grid<Item> {
    /// A `width` × `height` grid with every cell set to `fill`.
    pub fn new(width: usize, height: usize, fill: Item) -> (r: Grid<Item>)
        ensures
            r.wf(),
            r.width == width,
            r.height == height,
            forall|y: int, x: int|
                0 <= y < height && 0 <= x < width ==> #[trigger] r.cells()[y][x] == fill,
    {
        let mut lines: Vec<Vec<Item>> = Vec::new();
        let mut y: usize = 0;
        while y < height
            invariant
                y <= height,
                lines@.len() == y,
                forall|j: int| 0 <= j < y ==> (#[trigger] lines@[j])@.len() == width,
                forall|j: int, x: int|
                    0 <= j < y && 0 <= x < width ==> #[trigger] lines@[j]@[x] == fill,
            decreases height - y,
        {
            let mut line: Vec<Item> = Vec::new();
            let mut x: usize = 0;
            while x < width
                invariant
                    x <= width,
                    line@.len() == x,
                    forall|i: int| 0 <= i < x ==> #[trigger] line@[i] == fill,
                decreases width - x,
            {
                line.push(fill);
                x = x + 1;
            }
            lines.push(line);
            y = y + 1;
        }
        let g = Grid { lines, width, height };
        assert(g.wf());
        g
    }

    /// The cells of row `y`, left to right.
    pub fn row(&self, y: usize) -> (r: Vec<Item>)
        requires
            self.wf(),
            y < self.height,
        ensures
            r@ == self.cells()[y as int],
    {
        let mut r: Vec<Item> = Vec::new();
        let mut x: usize = 0;
        while x < self.width
            invariant
                self.wf(),
                y < self.height,
                x <= self.width,
                r@.len() == x,
                forall|i: int| 0 <= i < x ==> #[trigger] r@[i] == self.cells()[y as int][i],
            decreases self.width - x,
        {
            r.push(self.lines[y][x]);
            x = x + 1;
        }
        assert(r@ =~~= self.cells()[y as int]);
        r
    }

    /// All rows, top to bottom.
    pub fn rows(&self) -> (r: Vec<Vec<Item>>)
        requires
            self.wf(),
        ensures
            r@.len() == self.height,
            forall|y: int| 0 <= y < self.height ==> (#[trigger] r@[y])@ == self.cells()[y],
    {
        let mut r: Vec<Vec<Item>> = Vec::new();
        let mut y: usize = 0;
        while y < self.height
            invariant
                self.wf(),
                y <= self.height,
                r@.len() == y,
                forall|j: int| 0 <= j < y ==> (#[trigger] r@[j])@ == self.cells()[j],
            decreases self.height - y,
        {
            r.push(self.row(y));
            y = y + 1;
        }
        r
    }

    /// The cells of column `x`, top to bottom.
    pub fn column(&self, x: usize) -> (r: Vec<Item>)
        requires
            self.wf(),
            x < self.width,
        ensures
            r@.len() == self.height,
            forall|y: int| 0 <= y < self.height ==> #[trigger] r@[y] == self.cells()[y][x as int],
    {
        let mut r: Vec<Item> = Vec::new();
        let mut y: usize = 0;
        while y < self.height
            invariant
                self.wf(),
                x < self.width,
                y <= self.height,
                r@.len() == y,
                forall|j: int| 0 <= j < y ==> #[trigger] r@[j] == self.cells()[j][x as int],
            decreases self.height - y,
        {
            r.push(self.lines[y][x]);
            y = y + 1;
        }
        r
    }

    /// All columns, left to right.
    pub fn columns(&self) -> (r: Vec<Vec<Item>>)
        requires
            self.wf(),
        ensures
            r@.len() == self.width,
            forall|x: int| 0 <= x < self.width ==> (#[trigger] r@[x])@.len() == self.height,
            forall|x: int, y: int|
                0 <= x < self.width && 0 <= y < self.height ==> #[trigger] r@[x]@[y]
                    == self.cells()[y][x],
    {
        let mut r: Vec<Vec<Item>> = Vec::new();
        let mut x: usize = 0;
        while x < self.width
            invariant
                self.wf(),
                x <= self.width,
                r@.len() == x,
                forall|i: int| 0 <= i < x ==> (#[trigger] r@[i])@.len() == self.height,
                forall|i: int, y: int|
                    0 <= i < x && 0 <= y < self.height ==> #[trigger] r@[i]@[y]
                        == self.cells()[y][i],
            decreases self.width - x,
        {
            r.push(self.column(x));
            x = x + 1;
        }
        r
    }

    /// All cells in row-major order.
    pub fn iter(&self) -> (r: Vec<Item>)
        requires
            self.wf(),
            self.width * self.height < usize::MAX,
        ensures
            r@.len() == self.width * self.height,
            forall|y: int, x: int|
                0 <= y < self.height && 0 <= x < self.width ==> #[trigger] r@[y * self.width + x]
                    == self.cells()[y][x],
    {
        let mut r: Vec<Item> = Vec::new();
        let mut y: usize = 0;
        while y < self.height
            invariant
                self.wf(),
                self.width * self.height < usize::MAX,
                y <= self.height,
                r@.len() == y * self.width,
                y * self.width <= self.width * self.height,
                forall|j: int, x: int|
                    0 <= j < y && 0 <= x < self.width ==> #[trigger] r@[j * self.width + x]
                        == self.cells()[j][x],
            decreases self.height - y,
        {
            proof {
                vstd::arithmetic::mul::lemma_mul_inequality(
                    y as int + 1,
                    self.height as int,
                    self.width as int,
                );
                vstd::arithmetic::mul::lemma_mul_is_commutative(self.width as int, y as int + 1);
                vstd::arithmetic::mul::lemma_mul_is_commutative(
                    self.width as int,
                    self.height as int,
                );
            }
            let mut x: usize = 0;
            while x < self.width
                invariant
                    self.wf(),
                    y < self.height,
                    x <= self.width,
                    (y + 1) * self.width <= self.width * self.height,
                    self.width * self.height < usize::MAX,
                    r@.len() == y * self.width + x,
                    forall|j: int, i: int|
                        0 <= j < y && 0 <= i < self.width ==> #[trigger] r@[j * self.width + i]
                            == self.cells()[j][i],
                    forall|i: int|
                        0 <= i < x ==> #[trigger] r@[y as int * self.width + i]
                            == self.cells()[y as int][i],
                decreases self.width - x,
            {
                proof {
                    vstd::arithmetic::mul::lemma_mul_is_distributive_add_other_way(
                        self.width as int,
                        y as int,
                        1,
                    );
                }
                r.push(self.lines[y][x]);
                x = x + 1;
                proof {
                    assert forall|j: int, i: int|
                        0 <= j < y && 0 <= i < self.width implies #[trigger] r@[j * self.width + i]
                        == self.cells()[j][i] by {
                        vstd::arithmetic::mul::lemma_mul_inequality(
                            j + 1,
                            y as int,
                            self.width as int,
                        );
                        vstd::arithmetic::mul::lemma_mul_is_distributive_add_other_way(
                            self.width as int,
                            j,
                            1,
                        );
                    }
                }
            }
            proof {
                vstd::arithmetic::mul::lemma_mul_is_distributive_add_other_way(
                    self.width as int,
                    y as int,
                    1,
                );
            }
            y = y + 1;
            proof {
                assert forall|j: int, i: int|
                    0 <= j < y && 0 <= i < self.width implies #[trigger] r@[j * self.width + i]
                    == self.cells()[j][i] by {
                    vstd::arithmetic::mul::lemma_mul_inequality(j + 1, y as int, self.width as int);
                    vstd::arithmetic::mul::lemma_mul_is_distributive_add_other_way(
                        self.width as int,
                        j,
                        1,
                    );
                }
            }
        }
        proof {
            vstd::arithmetic::mul::lemma_mul_is_commutative(self.width as int, self.height as int);
        }
        r
    }

    /// A cell-for-cell copy of the grid.
    pub fn duplicate(&self) -> (r: Grid<Item>)
        requires
            self.wf(),
        ensures
            r.wf(),
            r.width == self.width,
            r.height == self.height,
            r.cells() == self.cells(),
    {
        let mut lines: Vec<Vec<Item>> = Vec::new();
        let mut y: usize = 0;
        while y < self.height
            invariant
                self.wf(),
                y <= self.height,
                lines@.len() == y,
                forall|j: int| 0 <= j < y ==> (#[trigger] lines@[j])@ == self.cells()[j],
            decreases self.height - y,
        {
            lines.push(self.row(y));
            y = y + 1;
        }
        let g = Grid { lines, width: self.width, height: self.height };
        proof {
            assert forall|j: int| 0 <= j < g.lines@.len() implies (#[trigger] g.cells()[j])
                == self.cells()[j] by {
                assert(g.cells()[j] == g.lines@[j]@);
            }
            assert(g.wf());
            assert(g.cells() =~~= self.cells());
        }
        g
    }

    /// Whether `(xi, yi)` lies in the window one cell around the run of
    /// cells `[rx0, rx1) × {ry}` without belonging to the run itself.
    pub open spec fn spec_adjacent_to_range(&self, rx0: int, rx1: int, ry: int, xi: int, yi: int) -> bool {
        &&& (if rx0 >= 1 { rx0 - 1 } else { 0 }) <= xi < (if rx1 + 1 <= self.width { rx1 + 1 } else { self.width as int })
        &&& (if ry >= 1 { ry - 1 } else { 0 }) <= yi < (if ry + 2 <= self.height { ry + 2 } else { self.height as int })
        &&& !(rx0 <= xi < rx1 && yi == ry)
    }

    /// Every value in `r` is the cell of some coordinate bordering the run
    /// `[rx0, rx1) × {ry}`.
    pub open spec fn spec_only_adjacent_cells(&self, rx0: int, rx1: int, ry: int, r: Seq<Item>) -> bool {
        forall|v: Item|
            #[trigger] r.contains(v) ==> exists|xi: int, yi: int|
                self.spec_adjacent_to_range(rx0, rx1, ry, xi, yi) && v == self.cells()[yi][xi]
    }

    /// The cells bordering the horizontal run `xrange × {y}`, including
    /// diagonals. Every returned cell borders the run, and the cell of
    /// every bordering coordinate is returned.
    pub fn adjacent_to_range(&self, xrange: &core::ops::Range<usize>, y: usize) -> (r: Vec<Item>)
        requires
            self.wf(),
            xrange.end < usize::MAX,
            y < usize::MAX - 1,
        ensures
            self.spec_only_adjacent_cells(xrange.start as int, xrange.end as int, y as int, r@),
            forall|xi: int, yi: int|
                #[trigger] self.spec_adjacent_to_range(
                    xrange.start as int,
                    xrange.end as int,
                    y as int,
                    xi,
                    yi,
                ) ==> r@.contains(self.cells()[yi][xi]),
    {
        let ghost rx0 = xrange.start as int;
        let ghost rx1 = xrange.end as int;
        let ghost ry = y as int;
        let x0: usize = if xrange.start >= 1 { xrange.start - 1 } else { 0 };
        let xe: usize = if xrange.end + 1 <= self.width { xrange.end + 1 } else { self.width };
        let y0: usize = if y >= 1 { y - 1 } else { 0 };
        let ye: usize = if y + 2 <= self.height { y + 2 } else { self.height };
        let mut r: Vec<Item> = Vec::new();
        let ghost mut wit: Seq<(int, int)> = Seq::empty();
        let mut xi: usize = x0;
        while xi < xe
            invariant
                self.wf(),
                rx0 == xrange.start as int,
                rx1 == xrange.end as int,
                ry == y as int,
                x0 as int == (if rx0 >= 1 { rx0 - 1 } else { 0 }),
                xe as int == (if rx1 + 1 <= self.width { rx1 + 1 } else { self.width as int }),
                y0 as int == (if ry >= 1 { ry - 1 } else { 0 }),
                ye as int == (if ry + 2 <= self.height { ry + 2 } else { self.height as int }),
                ye <= self.height,
                x0 <= xi,
                wit.len() == r@.len(),
                forall|k: int|
                    0 <= k < r@.len() ==> self.spec_adjacent_to_range(
                        rx0,
                        rx1,
                        ry,
                        (#[trigger] wit[k]).0,
                        wit[k].1,
                    ) && r@[k] == self.cells()[wit[k].1][wit[k].0],
                forall|a: int, b: int|
                    #[trigger] self.spec_adjacent_to_range(rx0, rx1, ry, a, b) && a < xi
                        ==> r@.contains(self.cells()[b][a]),
            decreases xe - xi,
        {
            let mut yi: usize = y0;
            while yi < ye
                invariant
                    self.wf(),
                    rx0 == xrange.start as int,
                    rx1 == xrange.end as int,
                    ry == y as int,
                    x0 as int == (if rx0 >= 1 { rx0 - 1 } else { 0 }),
                    xe as int == (if rx1 + 1 <= self.width { rx1 + 1 } else { self.width as int }),
                    y0 as int == (if ry >= 1 { ry - 1 } else { 0 }),
                    ye as int == (if ry + 2 <= self.height {
                        ry + 2
                    } else {
                        self.height as int
                    }),
                    ye <= self.height,
                    x0 <= xi < xe,
                    y0 <= yi,
                    wit.len() == r@.len(),
                    forall|k: int|
                        0 <= k < r@.len() ==> self.spec_adjacent_to_range(
                            rx0,
                            rx1,
                            ry,
                            (#[trigger] wit[k]).0,
                            wit[k].1,
                        ) && r@[k] == self.cells()[wit[k].1][wit[k].0],
                    forall|a: int, b: int|
                        #[trigger] self.spec_adjacent_to_range(rx0, rx1, ry, a, b) && (a < xi || (a
                            == xi && b < yi)) ==> r@.contains(self.cells()[b][a]),
                decreases ye - yi,
            {
                if !(xrange.start <= xi && xi < xrange.end && yi == y) {
                    let ghost prev = r@;
                    r.push(self.lines[yi][xi]);
                    proof {
                        wit = wit.push((xi as int, yi as int));
                        assert(self.spec_adjacent_to_range(rx0, rx1, ry, xi as int, yi as int));
                        assert(r@[prev.len() as int] == self.cells()[yi as int][xi as int]);
                        assert(forall|k: int| 0 <= k < prev.len() ==> r@[k] == prev[k]);
                        assert forall|a: int, b: int|
                            #[trigger] self.spec_adjacent_to_range(rx0, rx1, ry, a, b) && (a < xi
                                || (a == xi && b < yi + 1)) implies r@.contains(
                            self.cells()[b][a],
                        ) by {
                            if a == xi as int && b == yi as int {
                                assert(r@[prev.len() as int] == self.cells()[b][a]);
                            } else {
                                assert(prev.contains(self.cells()[b][a]));
                                let k = choose|k: int|
                                    0 <= k < prev.len() && prev[k] == self.cells()[b][a];
                                assert(r@[k] == self.cells()[b][a]);
                            }
                        }
                    }
                }
                yi = yi + 1;
            }
            xi = xi + 1;
        }
        proof {
            assert forall|v: Item| #[trigger] r@.contains(v) implies exists|a: int, b: int|
                self.spec_adjacent_to_range(rx0, rx1, ry, a, b) && v == self.cells()[b][a] by {
                let k = choose|k: int| 0 <= k < r@.len() && r@[k] == v;
                let (a, b) = wit[k];
                assert(self.spec_adjacent_to_range(rx0, rx1, ry, a, b) && v
                    == self.cells()[b][a]);
            }
            assert(self.spec_only_adjacent_cells(rx0, rx1, ry, r@));
        }
        r
    }

    /// A fresh grid whose cell at each coordinate is `f` applied to the
    /// cell of `self` there, consuming `self`.
    pub fn into_mapped<U, F: Fn(Item) -> U>(self, f: F) -> (r: Grid<U>)
        requires
            self.wf(),
            forall|y: int, x: int|
                0 <= y < self.height && 0 <= x < self.width ==> call_requires(
                    f,
                    (self.cells()[y][x],),
                ),
        ensures
            r.wf(),
            r.width == self.width,
            r.height == self.height,
            forall|y: int, x: int|
                0 <= y < self.height && 0 <= x < self.width ==> call_ensures(
                    f,
                    (self.cells()[y][x],),
                    #[trigger] r.cells()[y][x],
                ),
    {
        let mut lines: Vec<Vec<U>> = Vec::new();
        let mut y: usize = 0;
        while y < self.lines.len()
            invariant
                self.wf(),
                forall|j: int, x: int|
                    0 <= j < self.height && 0 <= x < self.width ==> call_requires(
                        f,
                        (self.cells()[j][x],),
                    ),
                y <= self.height,
                lines@.len() == y,
                forall|j: int| 0 <= j < y ==> (#[trigger] lines@[j])@.len() == self.width,
                forall|j: int, x: int|
                    0 <= j < y && 0 <= x < self.width ==> call_ensures(
                        f,
                        (self.cells()[j][x],),
                        #[trigger] lines@[j]@[x],
                    ),
            decreases self.lines@.len() - y,
        {
            let mut line: Vec<U> = Vec::new();
            let mut x: usize = 0;
            while x < self.lines[y].len()
                invariant
                    self.wf(),
                    forall|j: int, i: int|
                        0 <= j < self.height && 0 <= i < self.width ==> call_requires(
                            f,
                            (self.cells()[j][i],),
                        ),
                    y < self.height,
                    x <= self.width,
                    line@.len() == x,
                    forall|i: int|
                        0 <= i < x ==> call_ensures(
                            f,
                            (self.cells()[y as int][i],),
                            #[trigger] line@[i],
                        ),
                decreases self.lines@[y as int]@.len() - x,
            {
                assert(self.cells()[y as int][x as int] == self.lines@[y as int]@[x as int]);
                line.push(f(self.lines[y][x]));
                x = x + 1;
            }
            lines.push(line);
            y = y + 1;
        }
        let g = Grid { lines, width: self.width, height: self.height };
        assert(g.wf());
        g
    }
}

impl Grid<u8> {
    /// Parses one row per non-empty input line, one cell per byte.
    /// Fails when the input holds no line, or when two lines differ in
    /// length.
    pub fn from_lines(input: &str) -> (r: Result<Grid<u8>, ParseError>)
        ensures
            r is Ok <==> spec_lines(input.spec_bytes()).len() > 0 && rectangular(
                spec_lines(input.spec_bytes()),
            ),
            r is Ok ==> {
                let g = r->Ok_0;
                &&& g.wf()
                &&& g.cells() == spec_lines(input.spec_bytes())
                &&& g.height == spec_lines(input.spec_bytes()).len()
                &&& g.width == spec_lines(input.spec_bytes())[0].len()
            },
    {
        let rows = split_lines(input.as_bytes());
        let ghost srows = spec_lines(input.spec_bytes());
        if rows.len() == 0 {
            return Err(parse_error(input, "no lines in input"));
        }
        let width = rows[0].len();
        let height = rows.len();
        let mut y: usize = 1;
        while y < rows.len()
            invariant
                srows == spec_lines(input.spec_bytes()),
                rows@.map_values(|l: Vec<u8>| l@) == srows,
                1 <= y <= rows@.len(),
                width == srows[0].len(),
                forall|j: int| 0 <= j < y ==> (#[trigger] srows[j]).len() == width,
            decreases rows@.len() - y,
        {
            if rows[y].len() != width {
                assert(srows[y as int] == rows@[y as int]@);
                assert(srows[y as int].len() != srows[0].len());
                assert(!rectangular(srows));
                assert(!(spec_lines(input.spec_bytes()).len() > 0 && rectangular(
                    spec_lines(input.spec_bytes()),
                )));
                return Err(parse_error(input, "lines of unequal length"));
            }
            assert(srows[y as int] == rows@[y as int]@);
            y = y + 1;
        }
        let g = Grid { lines: rows, width, height };
        assert(forall|j: int| 0 <= j < g.lines@.len() ==> (#[trigger] g.lines@[j])@ == srows[j]);
        assert(g.wf());
        assert(rectangular(srows));
        Ok(g)
    }

    /// Parses one row per non-empty input line, one cell per byte mapped
    /// through `f`. Fails exactly where [`Grid::from_lines`] fails.
    pub fn from_lines_mapped<Item, F: Fn(u8) -> Item>(input: &str, f: F) -> (r: Result<
        Grid<Item>,
        ParseError,
    >)
        requires
            forall|b: u8| call_requires(f, (b,)),
        ensures
            r is Ok <==> spec_lines(input.spec_bytes()).len() > 0 && rectangular(
                spec_lines(input.spec_bytes()),
            ),
            r is Ok ==> {
                let g = r->Ok_0;
                let srows = spec_lines(input.spec_bytes());
                &&& g.wf()
                &&& g.height == srows.len()
                &&& g.width == srows[0].len()
                &&& forall|y: int, x: int|
                    0 <= y < srows.len() && 0 <= x < srows[y].len() ==> call_ensures(
                        f,
                        (srows[y][x],),
                        #[trigger] g.cells()[y][x],
                    )
            },
    {
        let base = Grid::from_lines(input)?;
        let ghost srows = spec_lines(input.spec_bytes());
        let mut lines: Vec<Vec<Item>> = Vec::new();
        let mut y: usize = 0;
        while y < base.lines.len()
            invariant
                base.wf(),
                base.cells() == srows,
                forall|b: u8| call_requires(f, (b,)),
                y <= base.height,
                lines@.len() == y,
                forall|j: int| 0 <= j < y ==> (#[trigger] lines@[j])@.len() == base.width,
                forall|j: int, x: int|
                    0 <= j < y && 0 <= x < base.width ==> call_ensures(
                        f,
                        (srows[j][x],),
                        #[trigger] lines@[j]@[x],
                    ),
            decreases base.lines@.len() - y,
        {
            let mut line: Vec<Item> = Vec::new();
            let mut x: usize = 0;
            while x < base.lines[y].len()
                invariant
                    base.wf(),
                    base.cells() == srows,
                    forall|b: u8| call_requires(f, (b,)),
                    y < base.height,
                    x <= base.width,
                    line@.len() == x,
                    forall|i: int|
                        0 <= i < x ==> call_ensures(f, (srows[y as int][i],), #[trigger] line@[i]),
                decreases base.lines@[y as int]@.len() - x,
            {
                let b = base.lines[y][x];
                line.push(f(b));
                x = x + 1;
            }
            lines.push(line);
            y = y + 1;
        }
        let g = Grid { lines, width: base.width, height: base.height };
        assert(g.wf());
        Ok(g)
    }
}

impl<Item> Grid<Item> {
    /// A fresh grid of the given cell values, row by row, applying `f` to
    /// every cell of `self`.
    pub fn mapped<U, F: Fn(&Item) -> U>(&self, f: F) -> (r: Grid<U>)
        requires
            self.wf(),
            forall|y: int, x: int|
                0 <= y < self.height && 0 <= x < self.width ==> call_requires(
                    f,
                    (&self.cells()[y][x],),
                ),
        ensures
            r.wf(),
            r.width == self.width,
            r.height == self.height,
            forall|y: int, x: int|
                0 <= y < self.height && 0 <= x < self.width ==> call_ensures(
                    f,
                    (&self.cells()[y][x],),
                    #[trigger] r.cells()[y][x],
                ),
    {
        let mut lines: Vec<Vec<U>> = Vec::new();
        let mut y: usize = 0;
        while y < self.lines.len()
            invariant
                self.wf(),
                forall|j: int, x: int|
                    0 <= j < self.height && 0 <= x < self.width ==> call_requires(
                        f,
                        (&self.cells()[j][x],),
                    ),
                y <= self.height,
                lines@.len() == y,
                forall|j: int| 0 <= j < y ==> (#[trigger] lines@[j])@.len() == self.width,
                forall|j: int, x: int|
                    0 <= j < y && 0 <= x < self.width ==> call_ensures(
                        f,
                        (&self.cells()[j][x],),
                        #[trigger] lines@[j]@[x],
                    ),
            decreases self.lines@.len() - y,
        {
            let mut line: Vec<U> = Vec::new();
            let mut x: usize = 0;
            while x < self.lines[y].len()
                invariant
                    self.wf(),
                    forall|j: int, i: int|
                        0 <= j < self.height && 0 <= i < self.width ==> call_requires(
                            f,
                            (&self.cells()[j][i],),
                        ),
                    y < self.height,
                    x <= self.width,
                    line@.len() == x,
                    forall|i: int|
                        0 <= i < x ==> call_ensures(
                            f,
                            (&self.cells()[y as int][i],),
                            #[trigger] line@[i],
                        ),
                decreases self.lines@[y as int]@.len() - x,
            {
                assert(self.cells()[y as int][x as int] == self.lines@[y as int]@[x as int]);
                line.push(f(&self.lines[y][x]));
                x = x + 1;
            }
            lines.push(line);
            y = y + 1;
        }
        let g = Grid { lines, width: self.width, height: self.height };
        assert(g.wf());
        g
    }
}

} // verus!
