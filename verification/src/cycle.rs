//! Cycle detection over a deterministic simulation: once a state key
//! repeats, the state reached after an arbitrarily large number of steps
//! is found by stepping only `(n - start) mod period` more times.
use vstd::prelude::*;

verus! {

/// A simulation step function together with a faithful fingerprint of its
/// state. `next_key` pins the step down at the level of fingerprints, so
/// equal fingerprints lead to equal futures.
pub trait Simulate: Sized {
    /// A faithful summary of the full state.
    spec fn key_view(&self) -> Seq<u64>;

    /// The fingerprint of the state after one step, as a function of the
    /// fingerprint alone.
    spec fn next_key(k: Seq<u64>) -> Seq<u64>;

    /// Advances the simulation by one step.
    fn sim_step(&self) -> (r: Self)
        ensures
            r.key_view() == Self::next_key(self.key_view()),
    ;

    /// The fingerprint of the current state.
    fn key(&self) -> (r: Vec<u64>)
        ensures
            r@ == self.key_view(),
    ;
}

/// The fingerprint after `n` steps from a state with fingerprint `k`.
pub open spec fn iterate<S: Simulate>(k: Seq<u64>, n: nat) -> Seq<u64>
    decreases n,
{
    if n == 0 {
        k
    } else {
        S::next_key(iterate::<S>(k, (n - 1) as nat))
    }
}

/// Once the fingerprint repeats over one period, it repeats over that
/// period forever after.
pub proof fn lemma_cycle_shift<S: Simulate>(k: Seq<u64>, start: nat, period: nat, m: nat)
    requires
        period > 0,
        iterate::<S>(k, start + period) == iterate::<S>(k, start),
        m >= start,
    ensures
        iterate::<S>(k, m + period) == iterate::<S>(k, m),
    decreases m,
{
    if m > start {
        lemma_cycle_shift::<S>(k, start, period, (m - 1) as nat);
        assert(iterate::<S>(k, m + period) == S::next_key(iterate::<S>(k, (m - 1 + period) as nat)));
        assert(iterate::<S>(k, m) == S::next_key(iterate::<S>(k, (m - 1) as nat)));
    }
}

/// Stepping `start` times and then `(n - start) mod period` more reaches
/// the same fingerprint as stepping `n` times, for any `n ≥ start`, as
/// soon as the fingerprint at `start + period` equals the one at `start`.
pub proof fn lemma_periodic_extrapolation<S: Simulate>(k: Seq<u64>, start: nat, period: nat, n: nat)
    requires
        period > 0,
        iterate::<S>(k, start + period) == iterate::<S>(k, start),
        n >= start,
    ensures
        iterate::<S>(k, n) == iterate::<S>(
            k,
            (start + (((n - start) as int) % (period as int))) as nat,
        ),
    decreases n,
{
    if n - start < period {
        vstd::arithmetic::div_mod::lemma_small_mod((n - start) as nat, period);
    } else {
        lemma_cycle_shift::<S>(k, start, period, (n - period) as nat);
        lemma_periodic_extrapolation::<S>(k, start, period, (n - period) as nat);
        assert((((n - period) - start) as int + period as int) % (period as int) == ((n - period)
            - start) as int % (period as int)) by {
            vstd::arithmetic::div_mod::lemma_mod_add_multiples_vanish(
                ((n - period) - start) as int,
                period as int,
            );
        }
    }
}

/// Whether two fingerprints hold the same values.
fn keys_equal(a: &Vec<u64>, b: &Vec<u64>) -> (r: bool)
    ensures
        r == (a@ == b@),
{
    if a.len() != b.len() {
        return false;
    }
    let mut i: usize = 0;
    while i < a.len()
        invariant
            i <= a@.len(),
            a@.len() == b@.len(),
            forall|j: int| 0 <= j < i ==> a@[j] == b@[j],
        decreases a@.len() - i,
    {
        if a[i] != b[i] {
            return false;
        }
        i = i + 1;
    }
    proof {
        assert(a@ =~~= b@);
    }
    true
}

/// Steps the simulation `n` times, one step at a time.
pub fn simulate_naively<S: Simulate>(init: S, n: u64) -> (r: S)
    ensures
        r.key_view() == iterate::<S>(init.key_view(), n as nat),
{
    let ghost k0 = init.key_view();
    let mut cur = init;
    let mut i: u64 = 0;
    while i < n
        invariant
            k0 == init.key_view(),
            i <= n,
            cur.key_view() == iterate::<S>(k0, i as nat),
        decreases n - i,
    {
        cur = cur.sim_step();
        i = i + 1;
    }
    cur
}

/// The state after `n` steps, computed by simulating only until the
/// fingerprint first repeats and then jumping ahead by whole periods.
/// Where no repeat happens within `n` steps, this is plain simulation.
pub fn extrapolate<S: Simulate>(init: S, n: u64) -> (r: S)
    ensures
        r.key_view() == iterate::<S>(init.key_view(), n as nat),
{
    let ghost k0 = init.key_view();
    let mut states: Vec<S> = Vec::new();
    let mut keys: Vec<Vec<u64>> = Vec::new();
    let k = init.key();
    keys.push(k);
    states.push(init);
    let mut i: u64 = 0;
    while i < n
        invariant
            k0 == init.key_view(),
            i <= n,
            states@.len() == i + 1,
            keys@.len() == i + 1,
            forall|j: int|
                0 <= j <= i ==> (#[trigger] states@[j]).key_view() == iterate::<S>(k0, j as nat),
            forall|j: int| 0 <= j <= i ==> (#[trigger] keys@[j])@ == iterate::<S>(k0, j as nat),
        decreases n - i,
    {
        let next = states[states.len() - 1].sim_step();
        proof {
            assert(states@[i as int].key_view() == iterate::<S>(k0, i as nat));
            assert(iterate::<S>(k0, (i + 1) as nat) == S::next_key(iterate::<S>(k0, i as nat)));
        }
        let nk = next.key();
        let mut j: usize = 0;
        let mut found: Option<usize> = None;
        while j < keys.len() && found.is_none()
            invariant
                j <= keys@.len(),
                nk@ == iterate::<S>(k0, (i + 1) as nat),
                forall|jj: int| 0 <= jj <= i ==> (#[trigger] keys@[jj])@ == iterate::<S>(k0, jj as nat),
                keys@.len() == i + 1,
                i < n,
                found is Some ==> 0 <= found->0 < keys@.len() && keys@[found->0 as int]@ == nk@,
            decreases keys@.len() - j,
        {
            if keys_equal(&keys[j], &nk) {
                found = Some(j);
            }
            j = j + 1;
        }
        if let Some(s0) = found {
            let start = s0 as u64;
            let period = (i + 1) - start;
            proof {
                assert(iterate::<S>(k0, start as nat) == keys@[s0 as int]@);
                assert(iterate::<S>(k0, (start + period) as nat) == iterate::<S>(k0, start as nat));
                lemma_periodic_extrapolation::<S>(k0, start as nat, period as nat, n as nat);
                vstd::arithmetic::div_mod::lemma_mod_bound((n - start) as int, period as int);
            }
            let rem = (n - start) % period;
            let mut cur = next;
            let mut m: u64 = 0;
            proof {
                assert(cur.key_view() == iterate::<S>(k0, (start + period) as nat));
                assert(cur.key_view() == iterate::<S>(k0, (start + 0) as nat));
            }
            while m < rem
                invariant
                    m <= rem,
                    rem < period,
                    start + period <= n,
                    cur.key_view() == iterate::<S>(k0, (start + m) as nat),
                decreases rem - m,
            {
                cur = cur.sim_step();
                m = m + 1;
                proof {
                    assert(iterate::<S>(k0, (start + m) as nat) == S::next_key(
                        iterate::<S>(k0, (start + m - 1) as nat),
                    ));
                }
            }
            proof {
                assert(cur.key_view() == iterate::<S>(k0, (start + rem) as nat));
                assert(rem as int == ((n - start) as int) % (period as int));
                assert((start + rem) as nat == (start as nat + (((n as nat - start as nat) as int)
                    % (period as nat as int))) as nat);
                assert(cur.key_view() == iterate::<S>(k0, n as nat));
            }
            return cur;
        }
        keys.push(nk);
        states.push(next);
        i = i + 1;
    }
    let last = states.pop().unwrap();
    proof {
        assert(last.key_view() == iterate::<S>(k0, n as nat));
    }
    last
}

} // verus!
