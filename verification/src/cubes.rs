//! The cube game: each game shows several handfuls of colored cubes; a
//! game is possible under a limit when no handful exceeds it, and its
//! minimal power is the product of the per-color maxima over its
//! handfuls.
use vstd::prelude::*;

verus! {

/// A handful of cubes, counted per color.
#[derive(Debug, Clone, Copy, PartialEq, Eq, Structural)]
pub struct Cubes {
    pub red: usize,
    pub green: usize,
    pub blue: usize,
}

impl Cubes {
    /// The product of the three counts.
    pub open spec fn spec_power(self) -> int {
        (self.red as int) * (self.green as int) * (self.blue as int)
    }

    /// Whether this handful fits under the given per-color limits.
    pub fn is_possible(&self, game_limits: &Cubes) -> (r: bool)
        ensures
            r == (self.red <= game_limits.red && self.green <= game_limits.green && self.blue
                <= game_limits.blue),
    {
        self.red <= game_limits.red && self.green <= game_limits.green && self.blue
            <= game_limits.blue
    }

    /// The product of the three counts.
    pub fn power(&self) -> (r: usize)
        requires
            (self.red as int) * (self.green as int) <= usize::MAX,
            self.spec_power() <= usize::MAX,
        ensures
            r as int == self.spec_power(),
    {
        proof {
            vstd::arithmetic::mul::lemma_mul_nonnegative(self.red as int, self.green as int);
            vstd::arithmetic::mul::lemma_mul_nonnegative(
                (self.red as int) * (self.green as int),
                self.blue as int,
            );
        }
        self.red * self.green * self.blue
    }
}

/// One game: its identifier and the handfuls it showed.
#[derive(Debug, Clone, PartialEq, Eq)]
pub struct Game {
    pub id: usize,
    pub cubes_sets: Vec<Cubes>,
}

/// The per-color maxima over the handfuls of `sets[..i]`.
pub open spec fn minimal_cubes_upto(sets: Seq<Cubes>, i: int) -> Cubes
    decreases i,
{
    if i <= 0 {
        Cubes { red: 0, green: 0, blue: 0 }
    } else {
        let prev = minimal_cubes_upto(sets, i - 1);
        let c = sets[i - 1];
        Cubes {
            red: if prev.red >= c.red {
                prev.red
            } else {
                c.red
            },
            green: if prev.green >= c.green {
                prev.green
            } else {
                c.green
            },
            blue: if prev.blue >= c.blue {
                prev.blue
            } else {
                c.blue
            },
        }
    }
}

/// The smallest handful that covers every handful of the game.
pub open spec fn spec_minimal_cubes(sets: Seq<Cubes>) -> Cubes {
    minimal_cubes_upto(sets, sets.len() as int)
}

impl Game {
    /// Whether every handful of the game fits under the limits.
    pub fn is_possible(&self, game_limits: &Cubes) -> (r: bool)
        ensures
            r == (forall|i: int|
                0 <= i < self.cubes_sets@.len() ==> (#[trigger] self.cubes_sets@[i]).red
                    <= game_limits.red && self.cubes_sets@[i].green <= game_limits.green
                    && self.cubes_sets@[i].blue <= game_limits.blue),
    {
        let mut i: usize = 0;
        while i < self.cubes_sets.len()
            invariant
                i <= self.cubes_sets@.len(),
                forall|j: int|
                    0 <= j < i ==> (#[trigger] self.cubes_sets@[j]).red <= game_limits.red
                        && self.cubes_sets@[j].green <= game_limits.green
                        && self.cubes_sets@[j].blue <= game_limits.blue,
            decreases self.cubes_sets@.len() - i,
        {
            if !self.cubes_sets[i].is_possible(game_limits) {
                return false;
            }
            i = i + 1;
        }
        true
    }

    /// The power of the smallest handful covering every handful shown.
    pub fn minimal_power(&self) -> (r: usize)
        requires
            (spec_minimal_cubes(self.cubes_sets@).red as int) * (spec_minimal_cubes(
                self.cubes_sets@,
            ).green as int) <= usize::MAX,
            spec_minimal_cubes(self.cubes_sets@).spec_power() <= usize::MAX,
        ensures
            r as int == spec_minimal_cubes(self.cubes_sets@).spec_power(),
    {
        let mut acc = Cubes { red: 0, green: 0, blue: 0 };
        let mut i: usize = 0;
        while i < self.cubes_sets.len()
            invariant
                i <= self.cubes_sets@.len(),
                acc == minimal_cubes_upto(self.cubes_sets@, i as int),
            decreases self.cubes_sets@.len() - i,
        {
            let c = self.cubes_sets[i];
            acc = Cubes {
                red: if acc.red >= c.red {
                    acc.red
                } else {
                    c.red
                },
                green: if acc.green >= c.green {
                    acc.green
                } else {
                    c.green
                },
                blue: if acc.blue >= c.blue {
                    acc.blue
                } else {
                    c.blue
                },
            };
            i = i + 1;
        }
        acc.power()
    }
}

} // verus!
