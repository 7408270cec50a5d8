//! Best-first search over (cell, facing-direction) states for the minimal
//! heat loss from the top-left to the bottom-right cell, where the walker
//! must go straight between `min_run` and `max_run` cells before every
//! turn and may never reverse. Straight stretches are expanded as whole
//! edges, so the run constraints live in the edge generation.
use vstd::prelude::*;

use crate::grid::Coord;
use crate::grid::Dir;
use crate::grid::Grid;

verus! {

/// The search found no way to the destination.
#[derive(Debug, Clone, Copy, PartialEq, Eq, Structural)]
pub enum PathError {
    NoPathFound,
}

/// Whether two directions are perpendicular.
pub open spec fn perpendicular(a: Dir, b: Dir) -> bool {
    a != b && a != b.spec_reverse()
}

/// The cell reached by walking `k` steps in direction `d` from `c`,
/// staying inside the `w` × `h` grid the whole way; `None` where the walk
/// leaves the grid.
pub open spec fn run_end(w: int, h: int, c: Coord, d: Dir, k: nat) -> Option<Coord>
    decreases k,
{
    if k == 0 {
        Some(c)
    } else {
        match d.spec_step(c) {
            Some(c2) => if (c2.0 as int) < w && (c2.1 as int) < h {
                run_end(w, h, c2, d, (k - 1) as nat)
            } else {
                None
            },
            None => None,
        }
    }
}

/// The cost of walking `k` steps in direction `d` from `c`: the sum of
/// the costs of the cells entered.
pub open spec fn run_cost(cells: Seq<Seq<u8>>, w: int, h: int, c: Coord, d: Dir, k: nat) -> int
    decreases k,
{
    if k == 0 {
        0
    } else {
        match d.spec_step(c) {
            Some(c2) => (cells[c2.1 as int][c2.0 as int] as int) + run_cost(
                cells,
                w,
                h,
                c2,
                d,
                (k - 1) as nat,
            ),
            None => 0,
        }
    }
}

/// The cell where a sequence of straight runs from `c0` ends, `None`
/// where some run leaves the grid.
pub open spec fn runs_end(w: int, h: int, c0: Coord, p: Seq<(Dir, usize)>) -> Option<Coord>
    decreases p.len(),
{
    if p.len() == 0 {
        Some(c0)
    } else {
        match runs_end(w, h, c0, p.drop_last()) {
            Some(c) => run_end(w, h, c, p.last().0, p.last().1 as nat),
            None => None,
        }
    }
}

/// The total cost of a sequence of straight runs from `c0`.
pub open spec fn runs_cost(cells: Seq<Seq<u8>>, w: int, h: int, c0: Coord, p: Seq<(Dir, usize)>) -> int
    decreases p.len(),
{
    if p.len() == 0 {
        0
    } else {
        match runs_end(w, h, c0, p.drop_last()) {
            Some(c) => runs_cost(cells, w, h, c0, p.drop_last()) + run_cost(
                cells,
                w,
                h,
                c,
                p.last().0,
                p.last().1 as nat,
            ),
            None => 0,
        }
    }
}

/// A lawful walk from `c0`: every run is between `min_run` and `max_run`
/// cells long, stays on the grid, and turns perpendicular to the run
/// before it; the first run may head anywhere.
pub open spec fn runs_ok(
    w: int,
    h: int,
    min_run: usize,
    max_run: usize,
    c0: Coord,
    p: Seq<(Dir, usize)>,
) -> bool
    decreases p.len(),
{
    if p.len() == 0 {
        true
    } else {
        let q = p.drop_last();
        &&& runs_ok(w, h, min_run, max_run, c0, q)
        &&& min_run <= p.last().1 <= max_run
        &&& (q.len() > 0 ==> perpendicular(p.last().0, q.last().0))
        &&& runs_end(w, h, c0, q) is Some
        &&& run_end(w, h, runs_end(w, h, c0, q)->0, p.last().0, p.last().1 as nat) is Some
    }
}

/// Whether some lawful walk leads from the top-left cell to `to` at
/// exactly cost `cost`.
pub open spec fn has_walk(
    cells: Seq<Seq<u8>>,
    w: int,
    h: int,
    min_run: usize,
    max_run: usize,
    to: Coord,
    cost: int,
) -> bool {
    exists|p: Seq<(Dir, usize)>|
        runs_ok(w, h, min_run, max_run, (0usize, 0usize), p) && runs_end(
            w,
            h,
            (0usize, 0usize),
            p,
        ) == Some(to) && runs_cost(cells, w, h, (0usize, 0usize), p) == cost
}

/// Walking one more step extends the run's end and adds the entered
/// cell's cost.
proof fn lemma_run_extend(cells: Seq<Seq<u8>>, w: int, h: int, c: Coord, d: Dir, k: nat, c2: Coord)
    requires
        run_end(w, h, c, d, k) is Some,
        d.spec_step(run_end(w, h, c, d, k)->0) == Some(c2),
        (c2.0 as int) < w,
        (c2.1 as int) < h,
    ensures
        run_end(w, h, c, d, k + 1) == Some(c2),
        run_cost(cells, w, h, c, d, k + 1) == run_cost(cells, w, h, c, d, k) + (
        cells[c2.1 as int][c2.0 as int] as int),
    decreases k,
{
    if k == 0 {
        assert(run_end(w, h, c, d, 1) == run_end(w, h, c2, d, 0));
        assert(run_cost(cells, w, h, c, d, 1) == (cells[c2.1 as int][c2.0 as int] as int)
            + run_cost(cells, w, h, c2, d, 0));
    } else {
        let c1 = d.spec_step(c)->0;
        assert(run_end(w, h, c, d, k) == run_end(w, h, c1, d, (k - 1) as nat));
        lemma_run_extend(cells, w, h, c1, d, (k - 1) as nat, c2);
        assert(run_end(w, h, c, d, k + 1) == run_end(w, h, c1, d, k));
        assert(run_cost(cells, w, h, c, d, k + 1) == (cells[c1.1 as int][c1.0 as int] as int)
            + run_cost(cells, w, h, c1, d, k));
        assert(run_cost(cells, w, h, c, d, k) == (cells[c1.1 as int][c1.0 as int] as int)
            + run_cost(cells, w, h, c1, d, (k - 1) as nat));
    }
}

/// One search node: the accumulated cost of some lawful walk to `coord`
/// arriving in direction `dir`.
#[derive(Debug, Clone, Copy, PartialEq, Eq)]
pub struct Node {
    pub distance: usize,
    pub coord: Coord,
    pub dir: Dir,
}

/// The best known distances to one cell, one per arrival direction.
#[derive(Debug, Clone, Copy, PartialEq, Eq, Structural)]
struct DirBests {
    up: Option<usize>,
    down: Option<usize>,
    left: Option<usize>,
    right: Option<usize>,
}

impl DirBests {
    fn get_dir(&self, d: Dir) -> (r: Option<usize>)
        ensures
            r == best_entry(*self, d),
    {
        match d {
            Dir::Up => self.up,
            Dir::Down => self.down,
            Dir::Left => self.left,
            Dir::Right => self.right,
        }
    }

    fn with_dir(self, d: Dir, v: usize) -> (r: DirBests)
        ensures
            best_entry(r, d) == Some(v),
            forall|d2: Dir| d2 != d ==> #[trigger] best_entry(r, d2) == best_entry(self, d2),
    {
        match d {
            Dir::Up => DirBests { up: Some(v), ..self },
            Dir::Down => DirBests { down: Some(v), ..self },
            Dir::Left => DirBests { left: Some(v), ..self },
            Dir::Right => DirBests { right: Some(v), ..self },
        }
    }
}

/// The recorded best distance for direction `d` in one cell of the
/// best-distance grid.
spec fn best_entry(b: DirBests, d: Dir) -> Option<usize> {
    match d {
        Dir::Up => b.up,
        Dir::Down => b.down,
        Dir::Left => b.left,
        Dir::Right => b.right,
    }
}

/// The recorded best distance of state `(c, d)`.
spec fn best_at(bc: Seq<Seq<DirBests>>, c: Coord, d: Dir) -> Option<usize> {
    best_entry(bc[c.1 as int][c.0 as int], d)
}

/// The termination potential of one recorded distance: unknown states
/// weigh the most, known states their distance.
spec fn pot_entry(e: Option<usize>) -> int {
    match e {
        None => usize::MAX as int + 1,
        Some(v) => v as int,
    }
}

/// The potential of one cell: its four directions summed.
spec fn pot_cell(b: DirBests) -> int {
    pot_entry(b.up) + pot_entry(b.down) + pot_entry(b.left) + pot_entry(b.right)
}

/// The potential of one row of the best-distance grid.
spec fn pot_row(row: Seq<DirBests>) -> int
    decreases row.len(),
{
    if row.len() == 0 {
        0
    } else {
        pot_row(row.drop_last()) + pot_cell(row.last())
    }
}

/// The potential of the whole best-distance grid; it sinks with every
/// recorded improvement, which bounds the search loop.
spec fn pot_grid(cells: Seq<Seq<DirBests>>) -> int
    decreases cells.len(),
{
    if cells.len() == 0 {
        0
    } else {
        pot_grid(cells.drop_last()) + pot_row(cells.last())
    }
}

/// Updating one cell of a row shifts the row potential by the cells'
/// difference.
proof fn lemma_pot_row_update(row: Seq<DirBests>, i: int, v: DirBests)
    requires
        0 <= i < row.len(),
    ensures
        pot_row(row.update(i, v)) == pot_row(row) - pot_cell(row[i]) + pot_cell(v),
    decreases row.len(),
{
    if i == row.len() - 1 {
        assert(row.update(i, v).drop_last() =~~= row.drop_last());
        assert(row.update(i, v).last() == v);
    } else {
        lemma_pot_row_update(row.drop_last(), i, v);
        assert(row.update(i, v).drop_last() =~~= row.drop_last().update(i, v));
        assert(row.update(i, v).last() == row.last());
    }
}

/// Updating one row of the grid shifts the grid potential by the rows'
/// difference.
proof fn lemma_pot_update(cells: Seq<Seq<DirBests>>, y: int, row: Seq<DirBests>)
    requires
        0 <= y < cells.len(),
    ensures
        pot_grid(cells.update(y, row)) == pot_grid(cells) - pot_row(cells[y]) + pot_row(row),
    decreases cells.len(),
{
    if y == cells.len() - 1 {
        assert(cells.update(y, row).drop_last() =~~= cells.drop_last());
        assert(cells.update(y, row).last() == row);
    } else {
        lemma_pot_update(cells.drop_last(), y, row);
        assert(cells.update(y, row).drop_last() =~~= cells.drop_last().update(y, row));
        assert(cells.update(y, row).last() == cells.last());
    }
}

/// Potentials never go negative.
proof fn lemma_pot_row_nonneg(row: Seq<DirBests>)
    ensures
        pot_row(row) >= 0,
    decreases row.len(),
{
    if row.len() > 0 {
        lemma_pot_row_nonneg(row.drop_last());
    }
}

/// Potentials never go negative.
proof fn lemma_pot_nonneg(cells: Seq<Seq<DirBests>>)
    ensures
        pot_grid(cells) >= 0,
    decreases cells.len(),
{
    if cells.len() > 0 {
        lemma_pot_nonneg(cells.drop_last());
        lemma_pot_row_nonneg(cells.last());
    }
}

/// Run costs are sums of cell costs, so never negative.
proof fn lemma_run_cost_nonneg(cells: Seq<Seq<u8>>, w: int, h: int, c: Coord, d: Dir, k: nat)
    ensures
        run_cost(cells, w, h, c, d, k) >= 0,
    decreases k,
{
    if k > 0 {
        match d.spec_step(c) {
            Some(c2) => {
                lemma_run_cost_nonneg(cells, w, h, c2, d, (k - 1) as nat);
            },
            None => {},
        }
    }
}

/// A shorter run along a walkable stretch also stays on the grid and
/// costs no more.
proof fn lemma_run_mono(cells: Seq<Seq<u8>>, w: int, h: int, c: Coord, d: Dir, k1: nat, k2: nat)
    requires
        k1 <= k2,
        run_end(w, h, c, d, k2) is Some,
    ensures
        run_end(w, h, c, d, k1) is Some,
        run_cost(cells, w, h, c, d, k1) <= run_cost(cells, w, h, c, d, k2),
    decreases k2,
{
    if k2 > 0 {
        let c2 = d.spec_step(c)->0;
        if k1 > 0 {
            lemma_run_mono(cells, w, h, c2, d, (k1 - 1) as nat, (k2 - 1) as nat);
        } else {
            lemma_run_cost_nonneg(cells, w, h, c2, d, (k2 - 1) as nat);
        }
    }
}

/// Once a straight walk leaves the grid it never comes back: every
/// longer run from the same start is off the grid too.
proof fn lemma_run_stuck(w: int, h: int, c: Coord, d: Dir, k: nat, k2: nat)
    requires
        run_end(w, h, c, d, k) is Some,
        match d.spec_step(run_end(w, h, c, d, k)->0) {
            Some(c2) => !((c2.0 as int) < w && (c2.1 as int) < h),
            None => true,
        },
        k2 > k,
    ensures
        run_end(w, h, c, d, k2) is None,
    decreases k,
{
    if k == 0 {
    } else {
        let c1 = d.spec_step(c)->0;
        lemma_run_stuck(w, h, c1, d, (k - 1) as nat, (k2 - 1) as nat);
    }
}

/// Every outgoing run of a recorded state leads to a state recorded at
/// no more than the base cost plus the run cost, unless that sum does
/// not even fit the machine.
#[verifier::opaque]
spec fn runs_covered(
    cells: Seq<Seq<u8>>,
    w: int,
    h: int,
    min_run: usize,
    max_run: usize,
    bc: Seq<Seq<DirBests>>,
    c: Coord,
    d: Dir,
    b: int,
) -> bool {
    forall|d2: Dir, k: nat|
        perpendicular(d2, d) && min_run <= k <= max_run && (#[trigger] run_end(
            w,
            h,
            c,
            d2,
            k,
        )) is Some ==> b + run_cost(cells, w, h, c, d2, k) > usize::MAX || (best_at(
            bc,
            run_end(w, h, c, d2, k)->0,
            d2,
        ) is Some && best_at(bc, run_end(w, h, c, d2, k)->0, d2)->0 <= b + run_cost(
            cells,
            w,
            h,
            c,
            d2,
            k,
        ))
}

/// In a best-distance grid where every recorded state is covered and the
/// two virtual start states are recorded at zero, every lawful walk of
/// machine-sized cost ends in a recorded state of no greater cost.
proof fn lemma_walks_bounded(
    cells: Seq<Seq<u8>>,
    w: int,
    h: int,
    min_run: usize,
    max_run: usize,
    bc: Seq<Seq<DirBests>>,
    p: Seq<(Dir, usize)>,
)
    requires
        w >= 1,
        h >= 1,
        forall|c: Coord, d: Dir|
            (c.0 as int) < w && (c.1 as int) < h && (#[trigger] best_at(bc, c, d)) is Some
                ==> runs_covered(cells, w, h, min_run, max_run, bc, c, d, best_at(bc, c, d)->0 as int),
        best_at(bc, (0usize, 0usize), Dir::Left) == Some(0usize),
        best_at(bc, (0usize, 0usize), Dir::Up) == Some(0usize),
        runs_ok(w, h, min_run, max_run, (0usize, 0usize), p),
        p.len() > 0,
        runs_end(w, h, (0usize, 0usize), p) is Some,
        runs_cost(cells, w, h, (0usize, 0usize), p) <= usize::MAX,
    ensures
        best_at(bc, runs_end(w, h, (0usize, 0usize), p)->0, p.last().0) is Some,
        best_at(bc, runs_end(w, h, (0usize, 0usize), p)->0, p.last().0)->0 <= runs_cost(
            cells,
            w,
            h,
            (0usize, 0usize),
            p,
        ),
    decreases p.len(),
{
    reveal(runs_covered);
    let c0: Coord = (0usize, 0usize);
    let q = p.drop_last();
    let (dl, kl) = p.last();
    let qc = runs_end(w, h, c0, q)->0;
    assert(runs_end(w, h, c0, q) is Some);
    assert(run_end(w, h, qc, dl, kl as nat) is Some);
    assert(runs_end(w, h, c0, p) == run_end(w, h, qc, dl, kl as nat));
    lemma_run_cost_nonneg(cells, w, h, qc, dl, kl as nat);
    lemma_runs_in_bounds(w, h, c0, q);
    if q.len() == 0 {
        assert(qc == c0);
        let sd: Dir = if dl == Dir::Up || dl == Dir::Down {
            Dir::Left
        } else {
            Dir::Up
        };
        assert(perpendicular(dl, sd));
        assert(best_at(bc, c0, sd) == Some(0usize));
        assert(runs_covered(cells, w, h, min_run, max_run, bc, c0, sd, 0));
        assert(runs_cost(cells, w, h, c0, p) == run_cost(cells, w, h, qc, dl, kl as nat));
        assert(0 + run_cost(cells, w, h, c0, dl, kl as nat) <= usize::MAX);
    } else {
        lemma_walks_bounded(cells, w, h, min_run, max_run, bc, q);
        let bq = best_at(bc, qc, q.last().0)->0;
        assert(runs_cost(cells, w, h, c0, p) == runs_cost(cells, w, h, c0, q) + run_cost(
            cells,
            w,
            h,
            qc,
            dl,
            kl as nat,
        ));
        assert(perpendicular(dl, q.last().0));
        assert(runs_covered(cells, w, h, min_run, max_run, bc, qc, q.last().0, bq as int));
        assert(bq as int + run_cost(cells, w, h, qc, dl, kl as nat) <= usize::MAX);
    }
}

/// Lawful walks never leave the grid: their end cell is in bounds.
proof fn lemma_runs_in_bounds(w: int, h: int, c0: Coord, p: Seq<(Dir, usize)>)
    requires
        w >= 1,
        h >= 1,
        (c0.0 as int) < w,
        (c0.1 as int) < h,
        runs_end(w, h, c0, p) is Some,
    ensures
        ((runs_end(w, h, c0, p)->0).0 as int) < w,
        ((runs_end(w, h, c0, p)->0).1 as int) < h,
    decreases p.len(),
{
    if p.len() > 0 {
        let q = p.drop_last();
        lemma_runs_in_bounds(w, h, c0, q);
        lemma_run_in_bounds(w, h, runs_end(w, h, c0, q)->0, p.last().0, p.last().1 as nat);
    }
}

/// A straight run that stays on the grid ends on the grid.
proof fn lemma_run_in_bounds(w: int, h: int, c: Coord, d: Dir, k: nat)
    requires
        w >= 1,
        h >= 1,
        (c.0 as int) < w,
        (c.1 as int) < h,
        run_end(w, h, c, d, k) is Some,
    ensures
        ((run_end(w, h, c, d, k)->0).0 as int) < w,
        ((run_end(w, h, c, d, k)->0).1 as int) < h,
    decreases k,
{
    if k > 0 {
        let c2 = d.spec_step(c)->0;
        lemma_run_in_bounds(w, h, c2, d, (k - 1) as nat);
    }
}

/// Whether a frontier node is justified by the walk `p`.
pub open spec fn node_justified(
    cells: Seq<Seq<u8>>,
    w: int,
    h: int,
    min_run: usize,
    max_run: usize,
    node: Node,
    p: Seq<(Dir, usize)>,
) -> bool {
    &&& runs_ok(w, h, min_run, max_run, (0usize, 0usize), p)
    &&& runs_end(w, h, (0usize, 0usize), p) == Some(node.coord)
    &&& runs_cost(cells, w, h, (0usize, 0usize), p) == node.distance
    &&& (p.len() > 0 ==> p.last().0 == node.dir)
    &&& (p.len() == 0 ==> node.dir == Dir::Left || node.dir == Dir::Up)
}

/// Whether every eligible straight run in direction `d2` out of `c` is
/// covered: the state it reaches is recorded at no more than the base
/// cost plus the run cost, unless that sum does not fit the machine.
#[verifier::opaque]
spec fn dir_runs_covered(
    cells: Seq<Seq<u8>>,
    w: int,
    h: int,
    min_run: usize,
    max_run: usize,
    bc: Seq<Seq<DirBests>>,
    c: Coord,
    d2: Dir,
    b: int,
) -> bool {
    forall|kk: nat|
        min_run <= kk <= max_run && (#[trigger] run_end(w, h, c, d2, kk)) is Some ==> b + run_cost(
            cells,
            w,
            h,
            c,
            d2,
            kk,
        ) > usize::MAX || (best_at(bc, run_end(w, h, c, d2, kk)->0, d2) is Some && best_at(
            bc,
            run_end(w, h, c, d2, kk)->0,
            d2,
        )->0 <= b + run_cost(cells, w, h, c, d2, kk))
}

/// Every state recorded in `old_bc` is still recorded in `new_bc`, at
/// the same distance or better.
spec fn best_monotone(w: int, h: int, old_bc: Seq<Seq<DirBests>>, new_bc: Seq<Seq<DirBests>>) -> bool {
    forall|cc: Coord, dd: Dir|
        (cc.0 as int) < w && (cc.1 as int) < h && (#[trigger] best_at(old_bc, cc, dd)) is Some
            ==> best_at(new_bc, cc, dd) is Some && best_at(new_bc, cc, dd)->0 <= best_at(
            old_bc,
            cc,
            dd,
        )->0
}

/// Improving records keeps a direction's runs covered.
proof fn lemma_dir_covered_monotone(
    cells: Seq<Seq<u8>>,
    w: int,
    h: int,
    min_run: usize,
    max_run: usize,
    old_bc: Seq<Seq<DirBests>>,
    new_bc: Seq<Seq<DirBests>>,
    c: Coord,
    d2: Dir,
    b: int,
)
    requires
        w >= 1,
        h >= 1,
        (c.0 as int) < w,
        (c.1 as int) < h,
        dir_runs_covered(cells, w, h, min_run, max_run, old_bc, c, d2, b),
        best_monotone(w, h, old_bc, new_bc),
    ensures
        dir_runs_covered(cells, w, h, min_run, max_run, new_bc, c, d2, b),
{
    reveal(dir_runs_covered);
    assert forall|kk: nat|
        min_run <= kk <= max_run && (#[trigger] run_end(w, h, c, d2, kk)) is Some implies b
        + run_cost(cells, w, h, c, d2, kk) > usize::MAX || (best_at(
        new_bc,
        run_end(w, h, c, d2, kk)->0,
        d2,
    ) is Some && best_at(new_bc, run_end(w, h, c, d2, kk)->0, d2)->0 <= b + run_cost(
        cells,
        w,
        h,
        c,
        d2,
        kk,
    )) by {
        if b + run_cost(cells, w, h, c, d2, kk) <= usize::MAX {
            let ep = run_end(w, h, c, d2, kk)->0;
            lemma_run_in_bounds(w, h, c, d2, kk);
            assert(best_at(old_bc, ep, d2) is Some);
        }
    }
}

/// Improving records keeps a whole state covered.
proof fn lemma_covered_monotone(
    cells: Seq<Seq<u8>>,
    w: int,
    h: int,
    min_run: usize,
    max_run: usize,
    old_bc: Seq<Seq<DirBests>>,
    new_bc: Seq<Seq<DirBests>>,
    c: Coord,
    d: Dir,
    b: int,
)
    requires
        w >= 1,
        h >= 1,
        (c.0 as int) < w,
        (c.1 as int) < h,
        runs_covered(cells, w, h, min_run, max_run, old_bc, c, d, b),
        best_monotone(w, h, old_bc, new_bc),
    ensures
        runs_covered(cells, w, h, min_run, max_run, new_bc, c, d, b),
{
    reveal(runs_covered);
    assert forall|d2: Dir, kk: nat|
        perpendicular(d2, d) && min_run <= kk <= max_run && (#[trigger] run_end(
            w,
            h,
            c,
            d2,
            kk,
        )) is Some implies b + run_cost(cells, w, h, c, d2, kk) > usize::MAX || (best_at(
        new_bc,
        run_end(w, h, c, d2, kk)->0,
        d2,
    ) is Some && best_at(new_bc, run_end(w, h, c, d2, kk)->0, d2)->0 <= b + run_cost(
        cells,
        w,
        h,
        c,
        d2,
        kk,
    )) by {
        if b + run_cost(cells, w, h, c, d2, kk) <= usize::MAX {
            let ep = run_end(w, h, c, d2, kk)->0;
            lemma_run_in_bounds(w, h, c, d2, kk);
            assert(best_at(old_bc, ep, d2) is Some);
        }
    }
}

/// Against records where every recorded state either waits on the
/// frontier at its recorded distance or has its runs covered, every
/// lawful walk beyond the empty one either costs more than the machine
/// can hold, or some waiting node costs no more than it, or its end
/// state is recorded at no more than its cost with no node waiting there.
proof fn lemma_min_bound(
    cells: Seq<Seq<u8>>,
    w: int,
    h: int,
    min_run: usize,
    max_run: usize,
    bc: Seq<Seq<DirBests>>,
    fr: Seq<Node>,
    p: Seq<(Dir, usize)>,
)
    requires
        w >= 1,
        h >= 1,
        forall|c: Coord, d: Dir|
            (c.0 as int) < w && (c.1 as int) < h && (#[trigger] best_at(bc, c, d)) is Some
                ==> fr.contains(Node { distance: best_at(bc, c, d)->0, coord: c, dir: d })
                || runs_covered(cells, w, h, min_run, max_run, bc, c, d, best_at(bc, c, d)->0 as int),
        best_at(bc, (0usize, 0usize), Dir::Left) == Some(0usize),
        best_at(bc, (0usize, 0usize), Dir::Up) == Some(0usize),
        runs_ok(w, h, min_run, max_run, (0usize, 0usize), p),
        runs_end(w, h, (0usize, 0usize), p) is Some,
        p.len() > 0,
    ensures
        runs_cost(cells, w, h, (0usize, 0usize), p) > usize::MAX || (exists|n: Node|
            #[trigger] fr.contains(n) && n.distance as int <= runs_cost(
                cells,
                w,
                h,
                (0usize, 0usize),
                p,
            )) || (best_at(bc, runs_end(w, h, (0usize, 0usize), p)->0, p.last().0) is Some
            && best_at(bc, runs_end(w, h, (0usize, 0usize), p)->0, p.last().0)->0 as int
            <= runs_cost(cells, w, h, (0usize, 0usize), p) && !fr.contains(
            Node {
                distance: best_at(bc, runs_end(w, h, (0usize, 0usize), p)->0, p.last().0)->0,
                coord: runs_end(w, h, (0usize, 0usize), p)->0,
                dir: p.last().0,
            },
        )),
    decreases p.len(),
{
    reveal(runs_covered);
    let c0: Coord = (0usize, 0usize);
    let q = p.drop_last();
    let (dl, kl) = p.last();
    let qc = runs_end(w, h, c0, q)->0;
    let ep = runs_end(w, h, c0, p)->0;
    let cost_p = runs_cost(cells, w, h, c0, p);
    let rc = run_cost(cells, w, h, qc, dl, kl as nat);
    assert(runs_end(w, h, c0, q) is Some);
    assert(run_end(w, h, qc, dl, kl as nat) is Some);
    assert(ep == run_end(w, h, qc, dl, kl as nat)->0);
    lemma_run_cost_nonneg(cells, w, h, qc, dl, kl as nat);
    lemma_runs_in_bounds(w, h, c0, q);
    lemma_run_in_bounds(w, h, qc, dl, kl as nat);
    assert(cost_p == runs_cost(cells, w, h, c0, q) + rc);
    if cost_p > usize::MAX {
    } else {
        let base_dir: Dir = if q.len() == 0 {
            if dl == Dir::Up || dl == Dir::Down {
                Dir::Left
            } else {
                Dir::Up
            }
        } else {
            q.last().0
        };
        let ghost mut settled = false;
        if q.len() == 0 {
            assert(qc == c0);
            assert(perpendicular(dl, base_dir));
            assert(best_at(bc, c0, base_dir) == Some(0usize));
            assert(runs_cost(cells, w, h, c0, q) == 0);
            if fr.contains(Node { distance: 0usize, coord: c0, dir: base_dir }) {
                assert(exists|n: Node|
                    #[trigger] fr.contains(n) && n.distance as int <= cost_p) by {
                    assert(fr.contains(Node { distance: 0usize, coord: c0, dir: base_dir })
                        && (Node { distance: 0usize, coord: c0, dir: base_dir }).distance as int
                        <= cost_p);
                }
                settled = true;
            }
        } else {
            lemma_min_bound(cells, w, h, min_run, max_run, bc, fr, q);
            let cost_q = runs_cost(cells, w, h, c0, q);
            if cost_q > usize::MAX {
                assert(cost_p > usize::MAX);
                settled = true;
            } else if exists|n: Node| #[trigger] fr.contains(n) && n.distance as int <= cost_q {
                let n = choose|n: Node| #[trigger] fr.contains(n) && n.distance as int <= cost_q;
                assert(fr.contains(n) && n.distance as int <= cost_p);
                settled = true;
            } else {
                assert(best_at(bc, qc, base_dir) is Some && best_at(bc, qc, base_dir)->0 as int
                    <= cost_q && !fr.contains(
                    Node { distance: best_at(bc, qc, base_dir)->0, coord: qc, dir: base_dir },
                ));
                assert(perpendicular(dl, base_dir));
            }
        }
        if !settled {
            // the base state is recorded, not waiting, so it is covered;
            // the last run lands on a recorded state of bounded cost
            let bq: int = best_at(bc, qc, base_dir)->0 as int;
            assert(best_at(bc, qc, base_dir) is Some);
            assert(bq <= runs_cost(cells, w, h, c0, q));
            if fr.contains(
                Node { distance: best_at(bc, qc, base_dir)->0, coord: qc, dir: base_dir },
            ) {
                assert(exists|n: Node|
                    #[trigger] fr.contains(n) && n.distance as int <= cost_p) by {
                    let n2 = Node {
                        distance: best_at(bc, qc, base_dir)->0,
                        coord: qc,
                        dir: base_dir,
                    };
                    assert(fr.contains(n2) && n2.distance as int <= cost_p);
                }
            } else {
                assert(runs_covered(cells, w, h, min_run, max_run, bc, qc, base_dir, bq));
                assert(bq + rc <= cost_p);
                assert(min_run <= kl as nat <= max_run);
                assert(best_at(bc, ep, dl) is Some && best_at(bc, ep, dl)->0 <= bq + rc);
                if fr.contains(Node { distance: best_at(bc, ep, dl)->0, coord: ep, dir: dl }) {
                    assert(exists|n: Node|
                        #[trigger] fr.contains(n) && n.distance as int <= cost_p) by {
                        let n3 = Node { distance: best_at(bc, ep, dl)->0, coord: ep, dir: dl };
                        assert(fr.contains(n3) && n3.distance as int <= cost_p);
                    }
                }
            }
        }
    }
}

/// Best-first search for the cheapest walk from the top-left to the
/// bottom-right cell of a grid of cell costs, going straight between
/// `min_run` and `max_run` cells before each perpendicular turn. On
/// success the returned cost is the cost of an actual lawful walk; the
/// search signals `NoPathFound` only when no lawful walk of
/// machine-representable cost reaches the destination.
#[verifier::rlimit(100)]
pub fn find_path(grid: &Grid<u8>, min_run: usize, max_run: usize) -> (r: Result<usize, PathError>)
    requires
        grid.wf(),
        grid.width >= 1,
        grid.height >= 1,
        1 <= min_run <= max_run,
    ensures
        r is Ok ==> has_walk(
            grid.cells(),
            grid.width as int,
            grid.height as int,
            min_run,
            max_run,
            ((grid.width - 1) as usize, (grid.height - 1) as usize),
            r->Ok_0 as int,
        ),
        r is Ok ==> forall|c: int|
            #[trigger] has_walk(
                grid.cells(),
                grid.width as int,
                grid.height as int,
                min_run,
                max_run,
                ((grid.width - 1) as usize, (grid.height - 1) as usize),
                c,
            ) ==> r->Ok_0 as int <= c,
        r is Err ==> forall|c: int|
            0 <= c <= usize::MAX ==> !(#[trigger] has_walk(
                grid.cells(),
                grid.width as int,
                grid.height as int,
                min_run,
                max_run,
                ((grid.width - 1) as usize, (grid.height - 1) as usize),
                c,
            )),
{
    let w = grid.width;
    let h = grid.height;
    let ghost cells = grid.cells();
    let dest: Coord = (w - 1, h - 1);
    let mut best: Grid<DirBests> = Grid::new(
        w,
        h,
        DirBests { up: None, down: None, left: None, right: None },
    );
    let ghost blank = best.cells();
    let seed_cell = DirBests { up: Some(0), down: None, left: Some(0), right: None };
    best.set((0, 0), seed_cell);
    let mut frontier: Vec<Node> = Vec::new();
    let ghost mut wit: Seq<Seq<(Dir, usize)>> = Seq::empty();
    frontier.push(Node { distance: 0, coord: (0, 0), dir: Dir::Left });
    frontier.push(Node { distance: 0, coord: (0, 0), dir: Dir::Up });
    proof {
        let empty_runs: Seq<(Dir, usize)> = Seq::empty();
        wit = wit.push(empty_runs).push(empty_runs);
        assert(runs_ok(w as int, h as int, min_run, max_run, (0usize, 0usize), empty_runs));
        assert(runs_end(w as int, h as int, (0usize, 0usize), empty_runs) == Some((0usize, 0usize)));
        assert(runs_cost(cells, w as int, h as int, (0usize, 0usize), empty_runs) == 0);
        assert(best_at(best.cells(), (0usize, 0usize), Dir::Left) == Some(0usize));
        assert(best_at(best.cells(), (0usize, 0usize), Dir::Up) == Some(0usize));
        assert forall|c: Coord, d: Dir|
            (c.0 as int) < w && (c.1 as int) < h && (#[trigger] best_at(
                best.cells(),
                c,
                d,
            )) is Some implies frontier@.contains(
            Node { distance: best_at(best.cells(), c, d)->0, coord: c, dir: d },
        ) by {
            if c.0 != 0 || c.1 != 0 {
                assert(best.cells()[c.1 as int][c.0 as int] == blank[c.1 as int][c.0 as int]);
            } else {
                assert(best.cells()[c.1 as int][c.0 as int] == seed_cell);
                if d == Dir::Left {
                    assert(frontier@[0] == Node {
                        distance: 0usize,
                        coord: (0usize, 0usize),
                        dir: Dir::Left,
                    });
                } else {
                    assert(frontier@[1] == Node {
                        distance: 0usize,
                        coord: (0usize, 0usize),
                        dir: Dir::Up,
                    });
                }
            }
        }
    }
    while frontier.len() > 0
        invariant
            grid.wf(),
            cells == grid.cells(),
            w == grid.width,
            h == grid.height,
            w >= 1,
            h >= 1,
            1 <= min_run <= max_run,
            dest == ((w - 1) as usize, (h - 1) as usize),
            best.wf(),
            best.width == w,
            best.height == h,
            best_at(best.cells(), (0usize, 0usize), Dir::Left) == Some(0usize),
            best_at(best.cells(), (0usize, 0usize), Dir::Up) == Some(0usize),
            wit.len() == frontier@.len(),
            forall|k: int|
                0 <= k < frontier@.len() ==> node_justified(
                    cells,
                    w as int,
                    h as int,
                    min_run,
                    max_run,
                    #[trigger] frontier@[k],
                    wit[k],
                ),
            forall|k: int|
                0 <= k < frontier@.len() ==> ((#[trigger] frontier@[k]).coord.0 as int) < w && (
                frontier@[k].coord.1 as int) < h && best_at(
                    best.cells(),
                    frontier@[k].coord,
                    frontier@[k].dir,
                ) is Some && best_at(best.cells(), frontier@[k].coord, frontier@[k].dir)->0
                    <= frontier@[k].distance,
            forall|c: Coord, d: Dir|
                (c.0 as int) < w && (c.1 as int) < h && (#[trigger] best_at(
                    best.cells(),
                    c,
                    d,
                )) is Some ==> frontier@.contains(
                    Node { distance: best_at(best.cells(), c, d)->0, coord: c, dir: d },
                ) || runs_covered(
                    cells,
                    w as int,
                    h as int,
                    min_run,
                    max_run,
                    best.cells(),
                    c,
                    d,
                    best_at(best.cells(), c, d)->0 as int,
                ),
            forall|d: Dir|
                (#[trigger] best_at(best.cells(), dest, d)) is Some ==> frontier@.contains(
                    Node { distance: best_at(best.cells(), dest, d)->0, coord: dest, dir: d },
                ),
        decreases pot_grid(best.cells()), frontier@.len(),
    {
        let ghost pre_pot = pot_grid(best.cells());
        let ghost pre_best = best.cells();
        let ghost pre_len = frontier@.len();
        proof {
            lemma_pot_nonneg(best.cells());
        }
        // pop the node of least distance
        let mut mi: usize = 0;
        let mut i: usize = 1;
        while i < frontier.len()
            invariant
                mi < frontier@.len(),
                i <= frontier@.len(),
                forall|j: int|
                    0 <= j < i ==> frontier@[mi as int].distance <= (
                    #[trigger] frontier@[j]).distance,
            decreases frontier@.len() - i,
        {
            if frontier[i].distance < frontier[mi].distance {
                mi = i;
            }
            i = i + 1;
        }
        let node = frontier[mi];
        let ghost node_runs = wit[mi as int];
        let ghost pre_frontier = frontier@;
        let last = frontier.len() - 1;
        let moved = frontier[last];
        frontier[mi] = moved;
        let popped = frontier.pop().unwrap();
        proof {
            let old_wit = wit;
            wit = wit.update(mi as int, wit[wit.len() - 1]).drop_last();
            assert forall|k: int| 0 <= k < frontier@.len() implies node_justified(
                cells,
                w as int,
                h as int,
                min_run,
                max_run,
                #[trigger] frontier@[k],
                wit[k],
            ) by {
                if k == mi as int {
                    assert(frontier@[k] == moved);
                    assert(wit[k] == old_wit[old_wit.len() - 1]);
                } else {
                    assert(wit[k] == old_wit[k]);
                }
            }
            assert(node_justified(cells, w as int, h as int, min_run, max_run, node, node_runs));
            assert forall|k: int|
                0 <= k < frontier@.len() implies ((#[trigger] frontier@[k]).coord.0 as int) < w && (
            frontier@[k].coord.1 as int) < h && best_at(
                best.cells(),
                frontier@[k].coord,
                frontier@[k].dir,
            ) is Some && best_at(best.cells(), frontier@[k].coord, frontier@[k].dir)->0
                <= frontier@[k].distance by {
                if k == mi as int {
                    assert(frontier@[k] == pre_frontier[pre_frontier.len() - 1]);
                } else {
                    assert(frontier@[k] == pre_frontier[k]);
                }
            }
            // a value other than the popped one stays on the frontier
            assert forall|v: Node| pre_frontier.contains(v) && v != node implies frontier@.contains(
                v,
            ) by {
                let k = choose|k: int| 0 <= k < pre_frontier.len() && pre_frontier[k] == v;
                if k == mi as int {
                    assert(v == node);
                } else if k == pre_frontier.len() - 1 {
                    assert(frontier@[mi as int] == v);
                } else {
                    assert(frontier@[k] == v);
                }
            }
        }
        if node.coord.0 == dest.0 && node.coord.1 == dest.1 {
            proof {
                assert(runs_end(w as int, h as int, (0usize, 0usize), node_runs) == Some(dest));
                assert(has_walk(
                    cells,
                    w as int,
                    h as int,
                    min_run,
                    max_run,
                    dest,
                    node.distance as int,
                ));
                // the popped node is the cheapest on the frontier, and no
                // lawful walk to the destination beats the frontier
                assert forall|c: int|
                    #[trigger] has_walk(
                        cells,
                        w as int,
                        h as int,
                        min_run,
                        max_run,
                        dest,
                        c,
                    ) implies node.distance as int <= c by {
                    let p = choose|p: Seq<(Dir, usize)>|
                        runs_ok(w as int, h as int, min_run, max_run, (0usize, 0usize), p)
                            && runs_end(w as int, h as int, (0usize, 0usize), p) == Some(dest)
                            && runs_cost(cells, w as int, h as int, (0usize, 0usize), p) == c;
                    assert(node == pre_frontier[mi as int]);
                    if p.len() == 0 {
                        assert(dest == (0usize, 0usize));
                        assert(c == 0);
                        assert(best_at(best.cells(), dest, Dir::Left) == Some(0usize));
                        assert(pre_frontier.contains(Node {
                            distance: 0usize,
                            coord: dest,
                            dir: Dir::Left,
                        }));
                        let kx = choose|kx: int|
                            0 <= kx < pre_frontier.len() && pre_frontier[kx] == Node {
                                distance: 0usize,
                                coord: dest,
                                dir: Dir::Left,
                            };
                        assert(node.distance <= pre_frontier[kx].distance);
                    } else {
                        lemma_min_bound(
                            cells,
                            w as int,
                            h as int,
                            min_run,
                            max_run,
                            best.cells(),
                            pre_frontier,
                            p,
                        );
                        if c > usize::MAX {
                            assert(node.distance as int <= usize::MAX);
                        } else if exists|n: Node|
                            #[trigger] pre_frontier.contains(n) && n.distance as int <= c {
                            let n = choose|n: Node|
                                #[trigger] pre_frontier.contains(n) && n.distance as int <= c;
                            let kx = choose|kx: int|
                                0 <= kx < pre_frontier.len() && pre_frontier[kx] == n;
                            assert(node.distance <= pre_frontier[kx].distance);
                        } else {
                            // the end state would be recorded but not
                            // waiting, yet destination records always wait
                            assert(best_at(best.cells(), dest, p.last().0) is Some);
                            assert(pre_frontier.contains(Node {
                                distance: best_at(best.cells(), dest, p.last().0)->0,
                                coord: dest,
                                dir: p.last().0,
                            }));
                            assert(false);
                        }
                    }
                }
            }
            return Ok(node.distance);
        }
        proof {
            // a destination record still has its frontier node: the
            // popped node is not at the destination
            assert forall|d: Dir|
                (#[trigger] best_at(best.cells(), dest, d)) is Some implies frontier@.contains(
                Node { distance: best_at(best.cells(), dest, d)->0, coord: dest, dir: d },
            ) by {
                let v = Node { distance: best_at(best.cells(), dest, d)->0, coord: dest, dir: d };
                assert(pre_frontier.contains(v));
                assert(v != node);
            }
        }
        let bcell = best.lines[node.coord.1][node.coord.0];
        let bval = match bcell.get_dir(node.dir) {
            Some(b) => b,
            None => node.distance,
        };
        proof {
            assert(pre_frontier[mi as int] == node);
            assert(best_at(best.cells(), node.coord, node.dir) is Some);
            assert(bval == best_at(best.cells(), node.coord, node.dir)->0);
            assert(bval <= node.distance);
        }
        if bval < node.distance {
            // stale entry: a cheaper node for this state was recorded, so
            // its own pop covers the expansion
            proof {
                assert forall|c: Coord, d: Dir|
                    (c.0 as int) < w && (c.1 as int) < h && (#[trigger] best_at(
                        best.cells(),
                        c,
                        d,
                    )) is Some implies frontier@.contains(
                    Node { distance: best_at(best.cells(), c, d)->0, coord: c, dir: d },
                ) || runs_covered(
                    cells,
                    w as int,
                    h as int,
                    min_run,
                    max_run,
                    best.cells(),
                    c,
                    d,
                    best_at(best.cells(), c, d)->0 as int,
                ) by {
                    let v = Node { distance: best_at(best.cells(), c, d)->0, coord: c, dir: d };
                    if pre_frontier.contains(v) {
                        assert(v != node);
                        assert(frontier@.contains(v));
                    }
                }
                assert(best.cells() == pre_best);
                assert(frontier@.len() == pre_len - 1);
            }
        } else {
            let ghost b = bval as int;
            let d1 = node.dir.rotate_clockwise();
            let dcc = node.dir.rotate_counter_clockwise();
            let mut which: usize = 0;
            let ghost mut pushed_any = false;
            while which < 2
                invariant
                    grid.wf(),
                    cells == grid.cells(),
                    w == grid.width,
                    h == grid.height,
                    w >= 1,
                    h >= 1,
                    1 <= min_run <= max_run,
                    dest == ((w - 1) as usize, (h - 1) as usize),
                    best.wf(),
                    best.width == w,
                    best.height == h,
                    best_at(best.cells(), (0usize, 0usize), Dir::Left) == Some(0usize),
                    best_at(best.cells(), (0usize, 0usize), Dir::Up) == Some(0usize),
                    d1 == node.dir.spec_clockwise(),
                    dcc == node.dir.spec_clockwise().spec_reverse(),
                    (node.coord.0 as int) < w && (node.coord.1 as int) < h,
                    node.coord != dest,
                    node_justified(cells, w as int, h as int, min_run, max_run, node, node_runs),
                    b == node.distance as int,
                    best_at(best.cells(), node.coord, node.dir) == Some(node.distance),
                    wit.len() == frontier@.len(),
                    forall|k: int|
                        0 <= k < frontier@.len() ==> node_justified(
                            cells,
                            w as int,
                            h as int,
                            min_run,
                            max_run,
                            #[trigger] frontier@[k],
                            wit[k],
                        ),
                    forall|k: int|
                        0 <= k < frontier@.len() ==> ((#[trigger] frontier@[k]).coord.0 as int) < w
                            && (frontier@[k].coord.1 as int) < h && best_at(
                            best.cells(),
                            frontier@[k].coord,
                            frontier@[k].dir,
                        ) is Some && best_at(best.cells(), frontier@[k].coord, frontier@[k].dir)->0
                            <= frontier@[k].distance,
                    forall|c: Coord, d: Dir|
                        (c.0 as int) < w && (c.1 as int) < h && (#[trigger] best_at(
                            best.cells(),
                            c,
                            d,
                        )) is Some && !(c == node.coord && d == node.dir) ==> frontier@.contains(
                            Node { distance: best_at(best.cells(), c, d)->0, coord: c, dir: d },
                        ) || runs_covered(
                            cells,
                            w as int,
                            h as int,
                            min_run,
                            max_run,
                            best.cells(),
                            c,
                            d,
                            best_at(best.cells(), c, d)->0 as int,
                        ),
                    forall|d: Dir|
                        (#[trigger] best_at(best.cells(), dest, d)) is Some
                            ==> frontier@.contains(
                            Node {
                                distance: best_at(best.cells(), dest, d)->0,
                                coord: dest,
                                dir: d,
                            },
                        ),
                    which >= 1 ==> dir_runs_covered(
                        cells,
                        w as int,
                        h as int,
                        min_run,
                        max_run,
                        best.cells(),
                        node.coord,
                        d1,
                        b,
                    ),
                    which >= 2 ==> dir_runs_covered(
                        cells,
                        w as int,
                        h as int,
                        min_run,
                        max_run,
                        best.cells(),
                        node.coord,
                        dcc,
                        b,
                    ),
                    pre_pot == pot_grid(pre_best),
                    pushed_any ==> pot_grid(best.cells()) < pre_pot,
                    !pushed_any ==> best.cells() == pre_best && frontier@.len() == pre_len - 1,
                decreases 2 - which,
            {
                let dir = if which == 0 {
                    d1
                } else {
                    dcc
                };
                proof {
                    assert(perpendicular(dir, node.dir)) by {
                        assert(dir == node.dir.spec_clockwise() || dir
                            == node.dir.spec_clockwise().spec_reverse());
                    }
                }
                let mut cur = node.coord;
                let mut total = node.distance;
                let mut k: usize = 0;
                let mut stopped = false;
                proof {
                    reveal(dir_runs_covered);
                    assert(dir_runs_covered(
                        cells,
                        w as int,
                        h as int,
                        min_run,
                        k,
                        best.cells(),
                        node.coord,
                        dir,
                        b,
                    ));
                }
                while k < max_run && !stopped
                    invariant
                        grid.wf(),
                        cells == grid.cells(),
                        w == grid.width,
                        h == grid.height,
                        w >= 1,
                        h >= 1,
                        1 <= min_run <= max_run,
                        dest == ((w - 1) as usize, (h - 1) as usize),
                        best.wf(),
                        best.width == w,
                        best.height == h,
                        best_at(best.cells(), (0usize, 0usize), Dir::Left) == Some(0usize),
                        best_at(best.cells(), (0usize, 0usize), Dir::Up) == Some(0usize),
                        perpendicular(dir, node.dir),
                        dir == d1 || dir == dcc,
                        which == 0 ==> dir == d1,
                        which == 1 ==> dir == dcc,
                        which <= 1,
                        d1 == node.dir.spec_clockwise(),
                        dcc == node.dir.spec_clockwise().spec_reverse(),
                        (node.coord.0 as int) < w && (node.coord.1 as int) < h,
                        node.coord != dest,
                        node_justified(
                            cells,
                            w as int,
                            h as int,
                            min_run,
                            max_run,
                            node,
                            node_runs,
                        ),
                        b == node.distance as int,
                        best_at(best.cells(), node.coord, node.dir) == Some(node.distance),
                        k <= max_run,
                        !stopped ==> run_end(w as int, h as int, node.coord, dir, k as nat)
                            == Some(cur),
                        !stopped ==> total as int == b + run_cost(
                            cells,
                            w as int,
                            h as int,
                            node.coord,
                            dir,
                            k as nat,
                        ),
                        dir_runs_covered(
                            cells,
                            w as int,
                            h as int,
                            min_run,
                            k,
                            best.cells(),
                            node.coord,
                            dir,
                            b,
                        ),
                        stopped ==> dir_runs_covered(
                            cells,
                            w as int,
                            h as int,
                            min_run,
                            max_run,
                            best.cells(),
                            node.coord,
                            dir,
                            b,
                        ),
                        wit.len() == frontier@.len(),
                        forall|kk: int|
                            0 <= kk < frontier@.len() ==> node_justified(
                                cells,
                                w as int,
                                h as int,
                                min_run,
                                max_run,
                                #[trigger] frontier@[kk],
                                wit[kk],
                            ),
                        forall|kk: int|
                            0 <= kk < frontier@.len() ==> ((#[trigger] frontier@[kk]).coord.0 as int)
                                < w && (frontier@[kk].coord.1 as int) < h && best_at(
                                best.cells(),
                                frontier@[kk].coord,
                                frontier@[kk].dir,
                            ) is Some && best_at(
                                best.cells(),
                                frontier@[kk].coord,
                                frontier@[kk].dir,
                            )->0 <= frontier@[kk].distance,
                        forall|c: Coord, d: Dir|
                            (c.0 as int) < w && (c.1 as int) < h && (#[trigger] best_at(
                                best.cells(),
                                c,
                                d,
                            )) is Some && !(c == node.coord && d == node.dir)
                                ==> frontier@.contains(
                                Node {
                                    distance: best_at(best.cells(), c, d)->0,
                                    coord: c,
                                    dir: d,
                                },
                            ) || runs_covered(
                                cells,
                                w as int,
                                h as int,
                                min_run,
                                max_run,
                                best.cells(),
                                c,
                                d,
                                best_at(best.cells(), c, d)->0 as int,
                            ),
                        forall|d: Dir|
                            (#[trigger] best_at(best.cells(), dest, d)) is Some
                                ==> frontier@.contains(
                                Node {
                                    distance: best_at(best.cells(), dest, d)->0,
                                    coord: dest,
                                    dir: d,
                                },
                            ),
                        which >= 1 ==> dir_runs_covered(
                            cells,
                            w as int,
                            h as int,
                            min_run,
                            max_run,
                            best.cells(),
                            node.coord,
                            d1,
                            b,
                        ),
                        pre_pot == pot_grid(pre_best),
                        pushed_any ==> pot_grid(best.cells()) < pre_pot,
                        !pushed_any ==> best.cells() == pre_best && frontier@.len() == pre_len
                            - 1,
                    decreases max_run - k, (if stopped {
                        0int
                    } else {
                        1int
                    }),
                {
                    let ghost kprev = k as nat;
                    match dir.step(cur) {
                        Some(c2) => {
                            if c2.0 < w && c2.1 < h {
                                let cell_cost = grid.lines[c2.1][c2.0];
                                match total.checked_add(cell_cost as usize) {
                                    Some(nt) => {
                                        proof {
                                            lemma_run_extend(
                                                cells,
                                                w as int,
                                                h as int,
                                                node.coord,
                                                dir,
                                                k as nat,
                                                c2,
                                            );
                                        }
                                        total = nt;
                                        cur = c2;
                                        k = k + 1;
                                        if k >= min_run {
                                            // push only on a strict improvement
                                            // of the recorded distance
                                            let cur_best = best.lines[c2.1][c2.0].get_dir(dir);
                                            let better = match cur_best {
                                                Some(bv2) => total < bv2,
                                                None => true,
                                            };
                                            if better {
                                                let nb = best.lines[c2.1][c2.0].with_dir(
                                                    dir,
                                                    total,
                                                );
                                                let ghost prev_cells = best.cells();
                                                let ghost prev_frontier2 = frontier@;
                                                let ghost old_pushed = pushed_any;
                                                best.set(c2, nb);
                                                let ghost p2 = node_runs.push((dir, k));
                                                proof {
                                                    pushed_any = true;
                                                    assert(p2.drop_last() =~~= node_runs);
                                                    assert(p2.last() == (dir, k));
                                                    assert(runs_ok(
                                                        w as int,
                                                        h as int,
                                                        min_run,
                                                        max_run,
                                                        (0usize, 0usize),
                                                        p2,
                                                    ));
                                                    assert(runs_end(
                                                        w as int,
                                                        h as int,
                                                        (0usize, 0usize),
                                                        p2,
                                                    ) == Some(c2));
                                                    assert(runs_cost(
                                                        cells,
                                                        w as int,
                                                        h as int,
                                                        (0usize, 0usize),
                                                        p2,
                                                    ) == total as int);
                                                    wit = wit.push(p2);
                                                }
                                                frontier.push(
                                                    Node { distance: total, coord: c2, dir },
                                                );
                                                proof {
                                                    let oldc =
                                                        prev_cells[c2.1 as int][c2.0 as int];
                                                    assert(cur_best == best_entry(oldc, dir));
                                                    assert(best_entry(nb, dir) == Some(total));
                                                    assert(best_entry(nb, Dir::Up) == nb.up
                                                        && best_entry(oldc, Dir::Up) == oldc.up);
                                                    assert(best_entry(nb, Dir::Down) == nb.down
                                                        && best_entry(oldc, Dir::Down)
                                                        == oldc.down);
                                                    assert(best_entry(nb, Dir::Left) == nb.left
                                                        && best_entry(oldc, Dir::Left)
                                                        == oldc.left);
                                                    assert(best_entry(nb, Dir::Right) == nb.right
                                                        && best_entry(oldc, Dir::Right)
                                                        == oldc.right);
                                                    assert forall|d3: Dir| d3 != dir implies
                                                        #[trigger] best_entry(nb, d3)
                                                        == best_entry(oldc, d3) by {}
                                                    // the update touches one state only
                                                    assert forall|cc: Coord, dd: Dir|
                                                        (cc.0 as int) < w && (cc.1 as int) < h
                                                            && !(cc == c2 && dd == dir) implies
                                                        #[trigger] best_at(best.cells(), cc, dd)
                                                        == best_at(prev_cells, cc, dd) by {
                                                        if cc.0 != c2.0 || cc.1 != c2.1 {
                                                            assert(best.cells()[cc.1 as int][cc.0 as int]
                                                                == prev_cells[cc.1 as int][cc.0 as int]);
                                                        } else {
                                                            assert(best.cells()[cc.1 as int][cc.0 as int]
                                                                == nb);
                                                        }
                                                    }
                                                    assert(best_at(best.cells(), c2, dir)
                                                        == Some(total));
                                                    assert(best_monotone(
                                                        w as int,
                                                        h as int,
                                                        prev_cells,
                                                        best.cells(),
                                                    ));
                                                    // the potential falls strictly
                                                    lemma_pot_row_update(
                                                        prev_cells[c2.1 as int],
                                                        c2.0 as int,
                                                        nb,
                                                    );
                                                    lemma_pot_update(
                                                        prev_cells,
                                                        c2.1 as int,
                                                        prev_cells[c2.1 as int].update(
                                                            c2.0 as int,
                                                            nb,
                                                        ),
                                                    );
                                                    assert(pot_entry(best_entry(nb, dir))
                                                        < pot_entry(best_entry(oldc, dir)));
                                                    assert(pot_cell(nb) < pot_cell(oldc));
                                                    assert(pot_grid(best.cells()) < pot_grid(
                                                        prev_cells,
                                                    ));
                                                    if !old_pushed {
                                                        assert(pot_grid(prev_cells) == pre_pot);
                                                    }
                                                    // frontier facts carry over the push
                                                    assert(frontier@.last() == Node {
                                                        distance: total,
                                                        coord: c2,
                                                        dir,
                                                    });
                                                    assert forall|v: Node|
                                                        prev_frontier2.contains(v) implies
                                                        #[trigger] frontier@.contains(v) by {
                                                        let kx = choose|kx: int|
                                                            0 <= kx < prev_frontier2.len()
                                                                && prev_frontier2[kx] == v;
                                                        assert(frontier@[kx] == v);
                                                    }
                                                    assert forall|kk: int|
                                                        0 <= kk < frontier@.len() implies node_justified(
                                                        cells,
                                                        w as int,
                                                        h as int,
                                                        min_run,
                                                        max_run,
                                                        #[trigger] frontier@[kk],
                                                        wit[kk],
                                                    ) by {
                                                        if kk < frontier@.len() - 1 {
                                                            assert(frontier@[kk]
                                                                == prev_frontier2[kk]);
                                                        }
                                                    }
                                                    assert forall|kk: int|
                                                        0 <= kk < frontier@.len() implies ((
                                                    #[trigger] frontier@[kk]).coord.0 as int) < w
                                                        && (frontier@[kk].coord.1 as int) < h
                                                        && best_at(
                                                        best.cells(),
                                                        frontier@[kk].coord,
                                                        frontier@[kk].dir,
                                                    ) is Some && best_at(
                                                        best.cells(),
                                                        frontier@[kk].coord,
                                                        frontier@[kk].dir,
                                                    )->0 <= frontier@[kk].distance by {
                                                        if kk < frontier@.len() - 1 {
                                                            assert(frontier@[kk]
                                                                == prev_frontier2[kk]);
                                                        }
                                                    }
                                                    // waiting-or-covered carries over
                                                    assert forall|cc: Coord, dd: Dir|
                                                        (cc.0 as int) < w && (cc.1 as int) < h
                                                            && (#[trigger] best_at(
                                                            best.cells(),
                                                            cc,
                                                            dd,
                                                        )) is Some && !(cc == node.coord && dd
                                                            == node.dir) implies frontier@.contains(
                                                        Node {
                                                            distance: best_at(
                                                                best.cells(),
                                                                cc,
                                                                dd,
                                                            )->0,
                                                            coord: cc,
                                                            dir: dd,
                                                        },
                                                    ) || runs_covered(
                                                        cells,
                                                        w as int,
                                                        h as int,
                                                        min_run,
                                                        max_run,
                                                        best.cells(),
                                                        cc,
                                                        dd,
                                                        best_at(best.cells(), cc, dd)->0 as int,
                                                    ) by {
                                                        if cc == c2 && dd == dir {
                                                            assert(frontier@.last() == Node {
                                                                distance: best_at(
                                                                    best.cells(),
                                                                    cc,
                                                                    dd,
                                                                )->0,
                                                                coord: cc,
                                                                dir: dd,
                                                            });
                                                        } else {
                                                            assert(best_at(best.cells(), cc, dd)
                                                                == best_at(prev_cells, cc, dd));
                                                            if runs_covered(
                                                                cells,
                                                                w as int,
                                                                h as int,
                                                                min_run,
                                                                max_run,
                                                                prev_cells,
                                                                cc,
                                                                dd,
                                                                best_at(
                                                                    prev_cells,
                                                                    cc,
                                                                    dd,
                                                                )->0 as int,
                                                            ) {
                                                                lemma_covered_monotone(
                                                                    cells,
                                                                    w as int,
                                                                    h as int,
                                                                    min_run,
                                                                    max_run,
                                                                    prev_cells,
                                                                    best.cells(),
                                                                    cc,
                                                                    dd,
                                                                    best_at(
                                                                        prev_cells,
                                                                        cc,
                                                                        dd,
                                                                    )->0 as int,
                                                                );
                                                            }
                                                        }
                                                    }
                                                    // a recorded destination still
                                                    // has a node waiting
                                                    assert forall|dd: Dir|
                                                        (#[trigger] best_at(
                                                            best.cells(),
                                                            dest,
                                                            dd,
                                                        )) is Some implies frontier@.contains(
                                                        Node {
                                                            distance: best_at(
                                                                best.cells(),
                                                                dest,
                                                                dd,
                                                            )->0,
                                                            coord: dest,
                                                            dir: dd,
                                                        },
                                                    ) by {
                                                        if dest == c2 && dd == dir {
                                                            assert(frontier@.last() == Node {
                                                                distance: best_at(
                                                                    best.cells(),
                                                                    dest,
                                                                    dd,
                                                                )->0,
                                                                coord: dest,
                                                                dir: dd,
                                                            });
                                                        } else {
                                                            assert(best_at(best.cells(), dest, dd)
                                                                == best_at(prev_cells, dest, dd));
                                                            assert(prev_frontier2.contains(Node {
                                                                distance: best_at(
                                                                    prev_cells,
                                                                    dest,
                                                                    dd,
                                                                )->0,
                                                                coord: dest,
                                                                dir: dd,
                                                            }));
                                                        }
                                                    }
                                                    // coverage facts survive the
                                                    // improvement
                                                    lemma_dir_covered_monotone(
                                                        cells,
                                                        w as int,
                                                        h as int,
                                                        min_run,
                                                        kprev as usize,
                                                        prev_cells,
                                                        best.cells(),
                                                        node.coord,
                                                        dir,
                                                        b,
                                                    );
                                                    if which >= 1 {
                                                        lemma_dir_covered_monotone(
                                                            cells,
                                                            w as int,
                                                            h as int,
                                                            min_run,
                                                            max_run,
                                                            prev_cells,
                                                            best.cells(),
                                                            node.coord,
                                                            d1,
                                                            b,
                                                        );
                                                    }
                                                }
                                            }
                                        }
                                        proof {
                                            // the new step joins the covered runs
                                            reveal(dir_runs_covered);
                                            assert forall|kk: nat|
                                                min_run <= kk <= k && (#[trigger] run_end(
                                                    w as int,
                                                    h as int,
                                                    node.coord,
                                                    dir,
                                                    kk,
                                                )) is Some implies b + run_cost(
                                                cells,
                                                w as int,
                                                h as int,
                                                node.coord,
                                                dir,
                                                kk,
                                            ) > usize::MAX || (best_at(
                                                best.cells(),
                                                run_end(
                                                    w as int,
                                                    h as int,
                                                    node.coord,
                                                    dir,
                                                    kk,
                                                )->0,
                                                dir,
                                            ) is Some && best_at(
                                                best.cells(),
                                                run_end(
                                                    w as int,
                                                    h as int,
                                                    node.coord,
                                                    dir,
                                                    kk,
                                                )->0,
                                                dir,
                                            )->0 <= b + run_cost(
                                                cells,
                                                w as int,
                                                h as int,
                                                node.coord,
                                                dir,
                                                kk,
                                            )) by {
                                                if kk == k as nat {
                                                    assert(run_end(
                                                        w as int,
                                                        h as int,
                                                        node.coord,
                                                        dir,
                                                        kk,
                                                    ) == Some(cur));
                                                    if k >= min_run {
                                                        assert(best_at(best.cells(), cur, dir)
                                                            is Some && best_at(
                                                            best.cells(),
                                                            cur,
                                                            dir,
                                                        )->0 <= total);
                                                    }
                                                }
                                            }
                                            assert(dir_runs_covered(
                                                cells,
                                                w as int,
                                                h as int,
                                                min_run,
                                                k,
                                                best.cells(),
                                                node.coord,
                                                dir,
                                                b,
                                            ));
                                        }
                                    },
                                    None => {
                                        proof {
                                            assert(b + run_cost(
                                                cells,
                                                w as int,
                                                h as int,
                                                node.coord,
                                                dir,
                                                (kprev + 1) as nat,
                                            ) > usize::MAX) by {
                                                lemma_run_extend(
                                                    cells,
                                                    w as int,
                                                    h as int,
                                                    node.coord,
                                                    dir,
                                                    kprev,
                                                    c2,
                                                );
                                            }
                                            reveal(dir_runs_covered);
                                            assert forall|kk: nat|
                                                min_run <= kk <= max_run && (#[trigger] run_end(
                                                    w as int,
                                                    h as int,
                                                    node.coord,
                                                    dir,
                                                    kk,
                                                )) is Some implies b + run_cost(
                                                cells,
                                                w as int,
                                                h as int,
                                                node.coord,
                                                dir,
                                                kk,
                                            ) > usize::MAX || (best_at(
                                                best.cells(),
                                                run_end(
                                                    w as int,
                                                    h as int,
                                                    node.coord,
                                                    dir,
                                                    kk,
                                                )->0,
                                                dir,
                                            ) is Some && best_at(
                                                best.cells(),
                                                run_end(
                                                    w as int,
                                                    h as int,
                                                    node.coord,
                                                    dir,
                                                    kk,
                                                )->0,
                                                dir,
                                            )->0 <= b + run_cost(
                                                cells,
                                                w as int,
                                                h as int,
                                                node.coord,
                                                dir,
                                                kk,
                                            )) by {
                                                if kk > kprev {
                                                    lemma_run_mono(
                                                        cells,
                                                        w as int,
                                                        h as int,
                                                        node.coord,
                                                        dir,
                                                        (kprev + 1) as nat,
                                                        kk,
                                                    );
                                                    lemma_run_cost_nonneg(
                                                        cells,
                                                        w as int,
                                                        h as int,
                                                        node.coord,
                                                        dir,
                                                        kk,
                                                    );
                                                }
                                            }
                                            assert(dir_runs_covered(
                                                cells,
                                                w as int,
                                                h as int,
                                                min_run,
                                                max_run,
                                                best.cells(),
                                                node.coord,
                                                dir,
                                                b,
                                            ));
                                        }
                                        stopped = true;
                                    },
                                }
                            } else {
                                proof {
                                    reveal(dir_runs_covered);
                                    assert forall|kk: nat|
                                        min_run <= kk <= max_run && (#[trigger] run_end(
                                            w as int,
                                            h as int,
                                            node.coord,
                                            dir,
                                            kk,
                                        )) is Some implies b + run_cost(
                                        cells,
                                        w as int,
                                        h as int,
                                        node.coord,
                                        dir,
                                        kk,
                                    ) > usize::MAX || (best_at(
                                        best.cells(),
                                        run_end(w as int, h as int, node.coord, dir, kk)->0,
                                        dir,
                                    ) is Some && best_at(
                                        best.cells(),
                                        run_end(w as int, h as int, node.coord, dir, kk)->0,
                                        dir,
                                    )->0 <= b + run_cost(
                                        cells,
                                        w as int,
                                        h as int,
                                        node.coord,
                                        dir,
                                        kk,
                                    )) by {
                                        if kk > kprev {
                                            lemma_run_stuck(
                                                w as int,
                                                h as int,
                                                node.coord,
                                                dir,
                                                kprev,
                                                kk,
                                            );
                                        }
                                    }
                                    assert(dir_runs_covered(
                                        cells,
                                        w as int,
                                        h as int,
                                        min_run,
                                        max_run,
                                        best.cells(),
                                        node.coord,
                                        dir,
                                        b,
                                    ));
                                }
                                stopped = true;
                            }
                        },
                        None => {
                            proof {
                                reveal(dir_runs_covered);
                                assert forall|kk: nat|
                                    min_run <= kk <= max_run && (#[trigger] run_end(
                                        w as int,
                                        h as int,
                                        node.coord,
                                        dir,
                                        kk,
                                    )) is Some implies b + run_cost(
                                    cells,
                                    w as int,
                                    h as int,
                                    node.coord,
                                    dir,
                                    kk,
                                ) > usize::MAX || (best_at(
                                    best.cells(),
                                    run_end(w as int, h as int, node.coord, dir, kk)->0,
                                    dir,
                                ) is Some && best_at(
                                    best.cells(),
                                    run_end(w as int, h as int, node.coord, dir, kk)->0,
                                    dir,
                                )->0 <= b + run_cost(
                                    cells,
                                    w as int,
                                    h as int,
                                    node.coord,
                                    dir,
                                    kk,
                                )) by {
                                    if kk > kprev {
                                        lemma_run_stuck(
                                            w as int,
                                            h as int,
                                            node.coord,
                                            dir,
                                            kprev,
                                            kk,
                                        );
                                    }
                                }
                                assert(dir_runs_covered(
                                    cells,
                                    w as int,
                                    h as int,
                                    min_run,
                                    max_run,
                                    best.cells(),
                                    node.coord,
                                    dir,
                                    b,
                                ));
                            }
                            stopped = true;
                        },
                    }
                }
                proof {
                    if !stopped {
                        assert(k == max_run);
                    }
                    assert(dir_runs_covered(
                        cells,
                        w as int,
                        h as int,
                        min_run,
                        max_run,
                        best.cells(),
                        node.coord,
                        dir,
                        b,
                    ));
                }
                which = which + 1;
            }
            proof {
                // both perpendicular directions covered means the popped
                // state is fully covered
                reveal(runs_covered);
                reveal(dir_runs_covered);
                assert(runs_covered(
                    cells,
                    w as int,
                    h as int,
                    min_run,
                    max_run,
                    best.cells(),
                    node.coord,
                    node.dir,
                    b,
                )) by {
                    assert forall|d2: Dir, kk: nat|
                        perpendicular(d2, node.dir) && min_run <= kk <= max_run && (
                        #[trigger] run_end(
                            w as int,
                            h as int,
                            node.coord,
                            d2,
                            kk,
                        )) is Some implies b + run_cost(
                        cells,
                        w as int,
                        h as int,
                        node.coord,
                        d2,
                        kk,
                    ) > usize::MAX || (best_at(
                        best.cells(),
                        run_end(w as int, h as int, node.coord, d2, kk)->0,
                        d2,
                    ) is Some && best_at(
                        best.cells(),
                        run_end(w as int, h as int, node.coord, d2, kk)->0,
                        d2,
                    )->0 <= b + run_cost(cells, w as int, h as int, node.coord, d2, kk)) by {
                        assert(d2 == d1 || d2 == dcc);
                    }
                }
                assert forall|c: Coord, d: Dir|
                    (c.0 as int) < w && (c.1 as int) < h && (#[trigger] best_at(
                        best.cells(),
                        c,
                        d,
                    )) is Some implies frontier@.contains(
                    Node { distance: best_at(best.cells(), c, d)->0, coord: c, dir: d },
                ) || runs_covered(
                    cells,
                    w as int,
                    h as int,
                    min_run,
                    max_run,
                    best.cells(),
                    c,
                    d,
                    best_at(best.cells(), c, d)->0 as int,
                ) by {
                    if c == node.coord && d == node.dir {
                        assert(best_at(best.cells(), c, d)->0 as int == b);
                    }
                }
            }
        }
        proof {
            lemma_pot_nonneg(best.cells());
        }
    }
    proof {
        // the frontier is exhausted: every recorded state is covered, so
        // no lawful walk of machine-sized cost reaches the destination
        assert forall|c: int| 0 <= c <= usize::MAX implies !(#[trigger] has_walk(
            cells,
            w as int,
            h as int,
            min_run,
            max_run,
            dest,
            c,
        )) by {
            if has_walk(cells, w as int, h as int, min_run, max_run, dest, c) {
                let p = choose|p: Seq<(Dir, usize)>|
                    runs_ok(w as int, h as int, min_run, max_run, (0usize, 0usize), p)
                        && runs_end(w as int, h as int, (0usize, 0usize), p) == Some(dest)
                        && runs_cost(cells, w as int, h as int, (0usize, 0usize), p) == c;
                assert forall|cc: Coord, d: Dir|
                    (cc.0 as int) < w && (cc.1 as int) < h && (#[trigger] best_at(
                        best.cells(),
                        cc,
                        d,
                    )) is Some implies runs_covered(
                    cells,
                    w as int,
                    h as int,
                    min_run,
                    max_run,
                    best.cells(),
                    cc,
                    d,
                    best_at(best.cells(), cc, d)->0 as int,
                ) by {
                    let v = Node {
                        distance: best_at(best.cells(), cc, d)->0,
                        coord: cc,
                        dir: d,
                    };
                    if frontier@.contains(v) {
                        let kx = choose|kx: int|
                            0 <= kx < frontier@.len() && frontier@[kx] == v;
                    }
                }
                if p.len() == 0 {
                    assert(dest == (0usize, 0usize));
                    assert(best_at(best.cells(), dest, Dir::Left) is Some);
                    assert(frontier@.contains(Node {
                        distance: best_at(best.cells(), dest, Dir::Left)->0,
                        coord: dest,
                        dir: Dir::Left,
                    }));
                    let kx = choose|kx: int|
                        0 <= kx < frontier@.len() && frontier@[kx] == Node {
                            distance: best_at(best.cells(), dest, Dir::Left)->0,
                            coord: dest,
                            dir: Dir::Left,
                        };
                } else {
                    lemma_walks_bounded(
                        cells,
                        w as int,
                        h as int,
                        min_run,
                        max_run,
                        best.cells(),
                        p,
                    );
                    assert(best_at(best.cells(), dest, p.last().0) is Some);
                    assert(frontier@.contains(Node {
                        distance: best_at(best.cells(), dest, p.last().0)->0,
                        coord: dest,
                        dir: p.last().0,
                    }));
                    let kx = choose|kx: int|
                        0 <= kx < frontier@.len() && frontier@[kx] == Node {
                            distance: best_at(best.cells(), dest, p.last().0)->0,
                            coord: dest,
                            dir: p.last().0,
                        };
                }
            }
        }
    }
    Err(PathError::NoPathFound)
}

} // verus!
