//! Extrapolation of difference pyramids: a history of readings is
//! extended forward or backward by repeatedly taking pairwise
//! differences until a constant row remains and summing the edges of the
//! pyramid.
use vstd::prelude::*;

verus! {

/// Whether every value of `h` has magnitude at most `b`.
pub open spec fn values_bounded(h: Seq<int>, b: int) -> bool {
    forall|i: int| 0 <= i < h.len() ==> -b <= #[trigger] h[i] <= b
}

/// Whether all values of `h` are equal.
pub open spec fn all_equal(h: Seq<int>) -> bool {
    forall|i: int, j: int| 0 <= i < h.len() && 0 <= j < h.len() ==> #[trigger] h[i] == #[trigger] h[j]
}

/// The pairwise differences of consecutive values.
pub open spec fn spec_diffs(h: Seq<int>) -> Seq<int> {
    Seq::new((h.len() - 1) as nat, |i: int| h[i + 1] - h[i])
}

/// The next value of the sequence: the last value plus the extrapolated
/// next difference, down to a constant row.
pub open spec fn spec_extrapolate(h: Seq<int>) -> int
    decreases h.len(),
{
    if h.len() == 0 {
        0
    } else if all_equal(h) {
        h.last()
    } else {
        h.last() + spec_extrapolate(spec_diffs(h))
    }
}

/// The value before the first: the first value minus the backward
/// extrapolation of the differences.
pub open spec fn spec_extrapolate_back(h: Seq<int>) -> int
    decreases h.len(),
{
    if h.len() == 0 {
        0
    } else if all_equal(h) {
        h.first()
    } else {
        h.first() - spec_extrapolate_back(spec_diffs(h))
    }
}

/// Powers of two.
pub open spec fn pow2(k: int) -> int
    decreases k,
{
    if k <= 0 {
        1
    } else {
        2 * pow2(k - 1)
    }
}

/// Extrapolated values stay within the bound scaled by a power of two.
proof fn lemma_extrapolate_bounded(h: Seq<int>, b: int)
    requires
        values_bounded(h, b),
        b >= 0,
    ensures
        -(b * pow2(h.len() as int + 1) - b) <= spec_extrapolate(h) <= b * pow2(h.len() as int + 1)
            - b,
        -(b * pow2(h.len() as int + 1) - b) <= spec_extrapolate_back(h) <= b * pow2(
            h.len() as int + 1,
        ) - b,
    decreases h.len(),
{
    let n = h.len() as int;
    lemma_pow2_pos(n + 1);
    lemma_pow2_mono(1, n + 1);
    assert(pow2(1) == 2) by {
        reveal_with_fuel(pow2, 3);
    }
    vstd::arithmetic::mul::lemma_mul_nonnegative(b, pow2(n + 1));
    assert(b * 2 <= b * pow2(n + 1)) by {
        if b > 0 {
            vstd::arithmetic::mul::lemma_mul_left_inequality(b, 2, pow2(n + 1));
        } else {
            vstd::arithmetic::mul::lemma_mul_by_zero_is_zero(pow2(n + 1));
        }
    }
    if h.len() == 0 || all_equal(h) {
    } else {
        assert(values_bounded(spec_diffs(h), 2 * b)) by {
            assert forall|i: int| 0 <= i < spec_diffs(h).len() implies -(2 * b)
                <= #[trigger] spec_diffs(h)[i] <= 2 * b by {
                assert(h[i + 1] - h[i] <= b - (-b));
            }
        }
        lemma_extrapolate_bounded(spec_diffs(h), 2 * b);
        assert((2 * b) * pow2(n) == b * pow2(n + 1)) by {
            vstd::arithmetic::mul::lemma_mul_is_associative(2, b, pow2(n));
            vstd::arithmetic::mul::lemma_mul_is_associative(b, 2, pow2(n));
            vstd::arithmetic::mul::lemma_mul_is_commutative(2, b);
        }
    }
}

/// Powers of two are positive.
proof fn lemma_pow2_pos(a: int)
    ensures
        pow2(a) >= 1,
    decreases a,
{
    if a > 0 {
        lemma_pow2_pos(a - 1);
    }
}

/// Powers of two grow with the exponent.
proof fn lemma_pow2_mono(a: int, b: int)
    requires
        a <= b,
    ensures
        pow2(a) <= pow2(b),
    decreases b - a,
{
    if a < b {
        lemma_pow2_mono(a, b - 1);
        lemma_pow2_pos(a);
    }
}

/// Two small powers of two, spelled out.
proof fn lemma_pow2_vals()
    ensures
        pow2(33) == 8589934592,
        pow2(1) == 2,
{
    reveal_with_fuel(pow2, 35);
}

/// Whether all values of a vector are equal, as a value.
fn vec_all_equal(h: &Vec<i64>) -> (r: bool)
    ensures
        r == all_equal(h@.map_values(|v: i64| v as int)),
{
    let ghost hs = h@.map_values(|v: i64| v as int);
    let mut i: usize = 1;
    if h.len() == 0 {
        return true;
    }
    while i < h.len()
        invariant
            hs == h@.map_values(|v: i64| v as int),
            h@.len() > 0,
            1 <= i <= h@.len(),
            forall|j: int| 0 <= j < i ==> #[trigger] hs[j] == hs[0],
        decreases h@.len() - i,
    {
        if h[i] != h[0] {
            assert(hs[i as int] != hs[0]);
            return false;
        }
        i = i + 1;
    }
    true
}

/// The next reading of the history: differences are taken until a
/// constant row remains, and the last values of all rows are summed.
pub fn extrapolate(history: &Vec<i64>) -> (r: i64)
    requires
        values_bounded(history@.map_values(|v: i64| v as int), 1000000000),
        history@.len() <= 32,
    ensures
        r as int == spec_extrapolate(history@.map_values(|v: i64| v as int)),
{
    proof {
        lemma_pow2_vals();
        lemma_pow2_mono(history@.len() as int + 1, 33);
        vstd::arithmetic::mul::lemma_mul_left_inequality(
            1000000000,
            pow2(history@.len() as int + 1),
            pow2(33),
        );
    }
    extrapolate_inner(history, Ghost(1000000000int))
}

/// The reading before the first: first values of all rows, alternately
/// subtracted.
pub fn extrapolate_back(history: &Vec<i64>) -> (r: i64)
    requires
        values_bounded(history@.map_values(|v: i64| v as int), 1000000000),
        history@.len() <= 32,
    ensures
        r as int == spec_extrapolate_back(history@.map_values(|v: i64| v as int)),
{
    proof {
        lemma_pow2_vals();
        lemma_pow2_mono(history@.len() as int + 1, 33);
        vstd::arithmetic::mul::lemma_mul_left_inequality(
            1000000000,
            pow2(history@.len() as int + 1),
            pow2(33),
        );
    }
    extrapolate_back_inner(history, Ghost(1000000000int))
}

/// Forward extrapolation with a bound threaded through the recursion:
/// the differences of a `b`-bounded row are `2 b`-bounded.
fn extrapolate_inner(h: &Vec<i64>, Ghost(b): Ghost<int>) -> (r: i64)
    requires
        values_bounded(h@.map_values(|v: i64| v as int), b),
        0 <= b,
        h@.len() <= 32,
        b * pow2(h@.len() as int + 1) <= 1000000000 * pow2(33),
    ensures
        r as int == spec_extrapolate(h@.map_values(|v: i64| v as int)),
        -(b * pow2(h@.len() as int + 1) - b) <= r as int <= b * pow2(h@.len() as int + 1) - b,
    decreases h@.len(),
{
    let ghost hs = h@.map_values(|v: i64| v as int);
    proof {
        lemma_pow2_vals();
        lemma_pow2_mono(1, h@.len() as int + 1);
        lemma_extrapolate_bounded(hs, b);
        assert(b * 2 <= b * pow2(h@.len() as int + 1)) by {
            if b > 0 {
                vstd::arithmetic::mul::lemma_mul_left_inequality(
                    b,
                    2,
                    pow2(h@.len() as int + 1),
                );
            } else {
                vstd::arithmetic::mul::lemma_mul_by_zero_is_zero(pow2(h@.len() as int + 1));
            }
        }
        assert(1000000000 * pow2(33) == 8589934592000000000);
    }
    if h.len() == 0 {
        return 0;
    }
    if vec_all_equal(h) {
        let r = h[h.len() - 1];
        proof {
            assert(hs.last() == r as int);
        }
        return r;
    }
    let mut diffs: Vec<i64> = Vec::new();
    let mut i: usize = 0;
    while i < h.len() - 1
        invariant
            hs == h@.map_values(|v: i64| v as int),
            values_bounded(hs, b),
            0 <= b,
            b * 2 <= 8589934592000000000,
            h@.len() >= 1,
            i <= h@.len() - 1,
            diffs@.len() == i,
            forall|j: int| 0 <= j < i ==> #[trigger] diffs@[j] as int == hs[j + 1] - hs[j],
        decreases h@.len() - 1 - i,
    {
        proof {
            assert(hs[i as int] == h@[i as int] as int);
            assert(hs[i as int + 1] == h@[i as int + 1] as int);
        }
        let d = h[i + 1] - h[i];
        diffs.push(d);
        i = i + 1;
    }
    proof {
        assert(diffs@.map_values(|v: i64| v as int) =~~= spec_diffs(hs));
        assert(values_bounded(spec_diffs(hs), 2 * b)) by {
            assert forall|j: int| 0 <= j < spec_diffs(hs).len() implies -(2 * b)
                <= #[trigger] spec_diffs(hs)[j] <= 2 * b by {
                assert(hs[j + 1] - hs[j] <= b - (-b));
            }
        }
        assert((2 * b) * pow2(diffs@.len() as int + 1) == b * pow2(h@.len() as int + 1)) by {
            vstd::arithmetic::mul::lemma_mul_is_associative(2, b, pow2(diffs@.len() as int + 1));
            vstd::arithmetic::mul::lemma_mul_is_associative(b, 2, pow2(diffs@.len() as int + 1));
            vstd::arithmetic::mul::lemma_mul_is_commutative(2, b);
        }
    }
    let rest = extrapolate_inner(&diffs, Ghost(2 * b));
    let r = h[h.len() - 1] + rest;
    proof {
        assert(hs.last() == h@[h@.len() - 1] as int);
    }
    r
}

/// Backward extrapolation with the bound threaded through the recursion.
fn extrapolate_back_inner(h: &Vec<i64>, Ghost(b): Ghost<int>) -> (r: i64)
    requires
        values_bounded(h@.map_values(|v: i64| v as int), b),
        0 <= b,
        h@.len() <= 32,
        b * pow2(h@.len() as int + 1) <= 1000000000 * pow2(33),
    ensures
        r as int == spec_extrapolate_back(h@.map_values(|v: i64| v as int)),
        -(b * pow2(h@.len() as int + 1) - b) <= r as int <= b * pow2(h@.len() as int + 1) - b,
    decreases h@.len(),
{
    let ghost hs = h@.map_values(|v: i64| v as int);
    proof {
        lemma_pow2_vals();
        lemma_pow2_mono(1, h@.len() as int + 1);
        lemma_extrapolate_bounded(hs, b);
        assert(b * 2 <= b * pow2(h@.len() as int + 1)) by {
            if b > 0 {
                vstd::arithmetic::mul::lemma_mul_left_inequality(
                    b,
                    2,
                    pow2(h@.len() as int + 1),
                );
            } else {
                vstd::arithmetic::mul::lemma_mul_by_zero_is_zero(pow2(h@.len() as int + 1));
            }
        }
        assert(1000000000 * pow2(33) == 8589934592000000000);
    }
    if h.len() == 0 {
        return 0;
    }
    if vec_all_equal(h) {
        let r = h[0];
        proof {
            assert(hs.first() == r as int);
        }
        return r;
    }
    let mut diffs: Vec<i64> = Vec::new();
    let mut i: usize = 0;
    while i < h.len() - 1
        invariant
            hs == h@.map_values(|v: i64| v as int),
            values_bounded(hs, b),
            0 <= b,
            b * 2 <= 8589934592000000000,
            h@.len() >= 1,
            i <= h@.len() - 1,
            diffs@.len() == i,
            forall|j: int| 0 <= j < i ==> #[trigger] diffs@[j] as int == hs[j + 1] - hs[j],
        decreases h@.len() - 1 - i,
    {
        proof {
            assert(hs[i as int] == h@[i as int] as int);
            assert(hs[i as int + 1] == h@[i as int + 1] as int);
        }
        let d = h[i + 1] - h[i];
        diffs.push(d);
        i = i + 1;
    }
    proof {
        assert(diffs@.map_values(|v: i64| v as int) =~~= spec_diffs(hs));
        assert(values_bounded(spec_diffs(hs), 2 * b)) by {
            assert forall|j: int| 0 <= j < spec_diffs(hs).len() implies -(2 * b)
                <= #[trigger] spec_diffs(hs)[j] <= 2 * b by {
                assert(hs[j + 1] - hs[j] <= b - (-b));
            }
        }
        assert((2 * b) * pow2(diffs@.len() as int + 1) == b * pow2(h@.len() as int + 1)) by {
            vstd::arithmetic::mul::lemma_mul_is_associative(2, b, pow2(diffs@.len() as int + 1));
            vstd::arithmetic::mul::lemma_mul_is_associative(b, 2, pow2(diffs@.len() as int + 1));
            vstd::arithmetic::mul::lemma_mul_is_commutative(2, b);
        }
    }
    let rest = extrapolate_back_inner(&diffs, Ghost(2 * b));
    let r = h[0] - rest;
    proof {
        assert(hs.first() == h@[0] as int);
    }
    r
}

} // verus!
