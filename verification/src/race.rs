//! The toy boat race: holding the button for `t` of `time` milliseconds
//! drives `(time - t) * t` millimeters; the answer is how many hold times
//! beat the record distance.
use vstd::prelude::*;

verus! {

/// The number of hold times in `1..t` that beat `distance`.
pub open spec fn wins_below(time: int, distance: int, t: int) -> int
    decreases t,
{
    if t <= 1 {
        0
    } else {
        wins_below(time, distance, t - 1) + if (time - (t - 1)) * (t - 1) > distance {
            1int
        } else {
            0int
        }
    }
}

/// The number of hold times `t` in `1..time` whose distance
/// `(time - t) * t` beats the record `distance`.
pub fn nb_wining_ways(time: usize, distance: usize) -> (r: usize)
    ensures
        r as int == wins_below(time as int, distance as int, time as int),
{
    let mut count: usize = 0;
    let mut t: usize = 1;
    if time == 0 {
        return 0;
    }
    while t < time
        invariant
            1 <= t <= time,
            count as int == wins_below(time as int, distance as int, t as int),
            count < t,
        decreases time - t,
    {
        proof {
            vstd::arithmetic::mul::lemma_mul_upper_bound(
                (time - t) as int,
                u64::MAX as int,
                t as int,
                u64::MAX as int,
            );
            assert(usize::MAX <= u64::MAX);
        }
        let dist: u128 = ((time - t) as u128) * (t as u128);
        if dist > distance as u128 {
            count = count + 1;
        }
        t = t + 1;
    }
    count
}

} // verus!
