//! Scratchcards: each card lists winning numbers and numbers present;
//! the count of distinct present numbers that win doubles the score for
//! every win after the first.
use vstd::prelude::*;

verus! {

/// The numbers of one card.
#[derive(Debug, Clone, PartialEq, Eq)]
pub struct Numbers {
    pub winning: Vec<i64>,
    pub present: Vec<i64>,
}

/// The number of winning matches among the first `i` present numbers,
/// counting each distinct value once.
pub open spec fn count_winning_upto(winning: Seq<i64>, present: Seq<i64>, i: int) -> int
    decreases i,
{
    if i <= 0 {
        0
    } else {
        count_winning_upto(winning, present, i - 1) + if winning.contains(present[i - 1])
            && !present.take(i - 1).contains(present[i - 1]) {
            1int
        } else {
            0int
        }
    }
}

/// Two raised to the `k`-th power.
pub open spec fn pow2(k: int) -> int
    decreases k,
{
    if k <= 0 {
        1
    } else {
        2 * pow2(k - 1)
    }
}

/// The match count never exceeds the number of present numbers.
proof fn lemma_count_winning_bound(winning: Seq<i64>, present: Seq<i64>, i: int)
    ensures
        0 <= count_winning_upto(winning, present, i) <= (if i >= 0 {
            i
        } else {
            0
        }),
    decreases i,
{
    if i > 0 {
        lemma_count_winning_bound(winning, present, i - 1);
    }
}

/// Whether `x` occurs in `v`.
fn contains_val(v: &Vec<i64>, x: i64) -> (r: bool)
    ensures
        r == v@.contains(x),
{
    let mut i: usize = 0;
    while i < v.len()
        invariant
            i <= v@.len(),
            forall|j: int| 0 <= j < i ==> v@[j] != x,
        decreases v@.len() - i,
    {
        if v[i] == x {
            assert(v@[i as int] == x);
            return true;
        }
        i = i + 1;
    }
    false
}

impl Numbers {
    /// The number of distinct present numbers that appear among the
    /// winning numbers.
    pub fn count_winning(&self) -> (r: usize)
        ensures
            r as int == count_winning_upto(self.winning@, self.present@, self.present@.len() as int),
    {
        let mut count: usize = 0;
        let mut i: usize = 0;
        while i < self.present.len()
            invariant
                i <= self.present@.len(),
                count as int == count_winning_upto(self.winning@, self.present@, i as int),
                count <= i,
            decreases self.present@.len() - i,
        {
            let x = self.present[i];
            let wins = contains_val(&self.winning, x);
            let mut duplicate = false;
            let mut j: usize = 0;
            while j < i
                invariant
                    j <= i,
                    i < self.present@.len(),
                    x == self.present@[i as int],
                    duplicate == self.present@.take(j as int).contains(x),
                decreases i - j,
            {
                if self.present[j] == x {
                    proof {
                        assert(self.present@.take(j as int + 1)[j as int] == x);
                    }
                    duplicate = true;
                } else {
                    proof {
                        if self.present@.take(j as int + 1).contains(x) {
                            let k = choose|k: int|
                                0 <= k < j + 1 && #[trigger] self.present@.take(j as int + 1)[k]
                                    == x;
                            if k < j {
                                assert(self.present@.take(j as int)[k] == x);
                            }
                        }
                        if self.present@.take(j as int).contains(x) {
                            let k = choose|k: int|
                                0 <= k < j && #[trigger] self.present@.take(j as int)[k] == x;
                            assert(self.present@.take(j as int + 1)[k] == x);
                        }
                    }
                }
                j = j + 1;
            }
            if wins && !duplicate {
                count = count + 1;
            }
            i = i + 1;
        }
        count
    }

    /// The card's score: nothing without a match, else two to the power
    /// of one less than the match count.
    pub fn score(&self) -> (r: usize)
        requires
            self.present@.len() < 32,
        ensures
            r as int == ({
                let c = count_winning_upto(
                    self.winning@,
                    self.present@,
                    self.present@.len() as int,
                );
                if c == 0 {
                    0int
                } else {
                    pow2(c - 1)
                }
            }),
    {
        let count = self.count_winning();
        proof {
            lemma_count_winning_bound(
                self.winning@,
                self.present@,
                self.present@.len() as int,
            );
        }
        if count == 0 {
            return 0;
        }
        let mut r: usize = 1;
        let mut k: usize = 0;
        proof {
            lemma_pow2_val();
        }
        while k < count - 1
            invariant
                count < 32,
                count >= 1,
                k <= count - 1,
                r as int == pow2(k as int),
            decreases count - 1 - k,
        {
            proof {
                lemma_pow2_le(k as int + 1, 31);
                lemma_pow2_val();
            }
            r = r * 2;
            k = k + 1;
        }
        r
    }
}

/// The thirty-first power of two, spelled out.
pub proof fn lemma_pow2_val()
    ensures
        pow2(31) == 2147483648,
{
    reveal_with_fuel(pow2, 33);
}

/// Powers of two grow with the exponent.
pub proof fn lemma_pow2_le(a: int, b: int)
    requires
        a <= b,
    ensures
        pow2(a) <= pow2(b),
        pow2(a) >= 1,
    decreases b - a,
{
    if a < b {
        lemma_pow2_le(a, b - 1);
    } else {
        lemma_pow2_pos(a);
    }
}

/// Powers of two are positive.
pub proof fn lemma_pow2_pos(a: int)
    ensures
        pow2(a) >= 1,
    decreases a,
{
    if a > 0 {
        lemma_pow2_pos(a - 1);
    }
}

} // verus!
