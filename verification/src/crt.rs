//! The Chinese remainder construction: given remainders under pairwise
//! coprime divisors, the smallest simultaneous solution and the spacing
//! between consecutive solutions.
use vstd::prelude::*;

use num::Integer;

verus! {

/// One congruence: the solution leaves remainder `ai` under divisor `ni`.
#[derive(Debug, Clone, Copy, PartialEq, Eq, Structural)]
pub struct Input {
    // divisor
    pub ni: usize,
    // remainder
    pub ai: usize,
}

/// The solution set: `min` is the smallest solution and every
/// `min + k * n` is one too.
#[derive(Debug, Clone, Copy, PartialEq, Eq, Structural)]
pub struct Solutions {
    // minimal solution
    pub min: usize,
    // increment between solutions
    pub n: usize,
}

/// The greatest common divisor of two non-negative integers, by Euclid's
/// rule.
pub open spec fn gcd_int(a: int, b: int) -> int
    decreases b,
        when b >= 0
{
    if b <= 0 {
        a
    } else {
        gcd_int(b, a % b)
    }
}

/// The product of the divisors from index `i` on.
pub open spec fn prod_from(s: Seq<Input>, i: int) -> int
    decreases s.len() - i,
{
    if i < 0 || i >= s.len() {
        1
    } else {
        (s[i].ni as int) * prod_from(s, i + 1)
    }
}

/// The product of all divisors.
pub open spec fn spec_product(s: Seq<Input>) -> int {
    prod_from(s, 0)
}

/// The product of the divisors from index `i` on, leaving out index `j`.
pub open spec fn prod_skip(s: Seq<Input>, i: int, j: int) -> int
    decreases s.len() - i,
{
    if i < 0 || i >= s.len() {
        1
    } else if i == j {
        prod_skip(s, i + 1, j)
    } else {
        (s[i].ni as int) * prod_skip(s, i + 1, j)
    }
}

/// Relies on num's `Integer::gcd` for `usize`: the greatest common
/// divisor of the two arguments.
#[verifier::external_body]
fn gcd_usize(a: usize, b: usize) -> (g: usize)
    ensures
        g as int == gcd_int(a as int, b as int),
{
    a.gcd(&b)
}

/// Relies on num's `Integer::extended_gcd` for `i128`: the greatest
/// common divisor together with Bézout coefficients `x`, `y` satisfying
/// `a * x + b * y == gcd`.
#[verifier::external_body]
fn extended_gcd_i128(a: i128, b: i128) -> (r: (i128, i128, i128))
    requires
        0 <= a <= u64::MAX as i128,
        0 <= b <= u64::MAX as i128,
    ensures
        r.0 as int == gcd_int(a as int, b as int),
        (a as int) * (r.1 as int) + (b as int) * (r.2 as int) == r.0 as int,
{
    let e = a.extended_gcd(&b);
    (e.gcd, e.x, e.y)
}

/// Whether two numbers share no divisor beyond one.
pub fn coprime(a: usize, b: usize) -> (r: bool)
    ensures
        r == (gcd_int(a as int, b as int) == 1),
{
    gcd_usize(a, b) == 1
}

/// Suffix products are positive when every divisor is.
proof fn lemma_prod_pos(s: Seq<Input>, i: int)
    requires
        forall|k: int| 0 <= k < s.len() ==> (#[trigger] s[k]).ni >= 1,
    ensures
        prod_from(s, i) >= 1,
    decreases s.len() - i,
{
    if 0 <= i < s.len() {
        lemma_prod_pos(s, i + 1);
        vstd::arithmetic::mul::lemma_mul_inequality(1, s[i].ni as int, prod_from(s, i + 1));
    }
}

/// Suffix products with one index left out are positive too.
proof fn lemma_skip_pos(s: Seq<Input>, i: int, j: int)
    requires
        forall|k: int| 0 <= k < s.len() ==> (#[trigger] s[k]).ni >= 1,
    ensures
        prod_skip(s, i, j) >= 1,
    decreases s.len() - i,
{
    if 0 <= i < s.len() {
        lemma_skip_pos(s, i + 1, j);
        if i != j {
            vstd::arithmetic::mul::lemma_mul_inequality(1, s[i].ni as int, prod_skip(s, i + 1, j));
        }
    }
}

/// A later suffix product divides into an earlier one: it is no larger.
proof fn lemma_prod_le(s: Seq<Input>, i: int)
    requires
        forall|k: int| 0 <= k < s.len() ==> (#[trigger] s[k]).ni >= 1,
        0 <= i,
    ensures
        prod_from(s, i) <= prod_from(s, 0),
    decreases i,
{
    if i > 0 {
        lemma_prod_le(s, i - 1);
        if i - 1 < s.len() {
            lemma_prod_pos(s, i);
            vstd::arithmetic::mul::lemma_mul_inequality(1, s[i - 1].ni as int, prod_from(s, i));
        }
    }
}

/// Leaving an index out never increases a suffix product.
proof fn lemma_skip_le(s: Seq<Input>, i: int, j: int)
    requires
        forall|k: int| 0 <= k < s.len() ==> (#[trigger] s[k]).ni >= 1,
    ensures
        prod_skip(s, i, j) <= prod_from(s, i),
    decreases s.len() - i,
{
    if 0 <= i < s.len() {
        lemma_skip_le(s, i + 1, j);
        lemma_skip_pos(s, i + 1, j);
        lemma_prod_pos(s, i + 1);
        if i == j {
            vstd::arithmetic::mul::lemma_mul_inequality(1, s[i].ni as int, prod_from(s, i + 1));
        } else {
            vstd::arithmetic::mul::lemma_mul_left_inequality(
                s[i].ni as int,
                prod_skip(s, i + 1, j),
                prod_from(s, i + 1),
            );
        }
    }
}

/// Past the left-out index the two suffix products agree.
proof fn lemma_skip_tail(s: Seq<Input>, i: int, j: int)
    requires
        j < i,
    ensures
        prod_skip(s, i, j) == prod_from(s, i),
    decreases s.len() - i,
{
    if 0 <= i < s.len() {
        lemma_skip_tail(s, i + 1, j);
    }
}

/// Pulling the factor at index `j` out of a suffix product leaves the
/// suffix product that skips `j`.
proof fn lemma_prod_factor(s: Seq<Input>, i: int, j: int)
    requires
        0 <= i <= j < s.len(),
    ensures
        prod_from(s, i) == (s[j].ni as int) * prod_skip(s, i, j),
    decreases j - i,
{
    if i == j {
        lemma_skip_tail(s, i + 1, j);
    } else {
        lemma_prod_factor(s, i + 1, j);
        vstd::arithmetic::mul::lemma_mul_is_associative(
            s[i].ni as int,
            s[j].ni as int,
            prod_skip(s, i + 1, j),
        );
        vstd::arithmetic::mul::lemma_mul_is_commutative(s[i].ni as int, s[j].ni as int);
        vstd::arithmetic::mul::lemma_mul_is_associative(
            s[j].ni as int,
            s[i].ni as int,
            prod_skip(s, i + 1, j),
        );
    }
}

/// A divisor that is not the one skipped divides the skipping product.
proof fn lemma_skip_divisible(s: Seq<Input>, i: int, j: int, t: int)
    requires
        forall|k: int| 0 <= k < s.len() ==> (#[trigger] s[k]).ni >= 1,
        0 <= i <= t < s.len(),
        t != j,
    ensures
        prod_skip(s, i, j) % (s[t].ni as int) == 0,
    decreases s.len() - i,
{
    let m = s[t].ni as int;
    if i == t {
        vstd::arithmetic::div_mod::lemma_mod_multiples_basic(prod_skip(s, i + 1, j), m);
        vstd::arithmetic::mul::lemma_mul_is_commutative(m, prod_skip(s, i + 1, j));
    } else {
        lemma_skip_divisible(s, i + 1, j, t);
        if i != j {
            vstd::arithmetic::div_mod::lemma_mul_mod_noop_right(
                s[i].ni as int,
                prod_skip(s, i + 1, j),
                m,
            );
            assert((s[i].ni as int) * (prod_skip(s, i + 1, j) % m) % m == prod_skip(s, i, j) % m);
            assert((s[i].ni as int) * 0 == 0) by {
                vstd::arithmetic::mul::lemma_mul_by_zero_is_zero(s[i].ni as int);
            }
            vstd::arithmetic::div_mod::lemma_mod_self_0(m);
            assert((0int) % m == 0) by {
                vstd::arithmetic::div_mod::lemma_small_mod(0, m as nat);
            }
        }
    }
}

/// Computes the smallest simultaneous solution of the congruences and the
/// product of the divisors. The divisors must be mutually coprime: each
/// one coprime to the product of all the others.
pub fn chinese_remainder(inputs: &[Input]) -> (r: Solutions)
    requires
        forall|i: int| 0 <= i < inputs@.len() ==> (#[trigger] inputs@[i]).ai < inputs@[i].ni,
        spec_product(inputs@) <= usize::MAX,
        forall|i: int|
            0 <= i < inputs@.len() ==> gcd_int(
                (#[trigger] inputs@[i]).ni as int,
                prod_skip(inputs@, 0, i),
            ) == 1,
    ensures
        r.n == spec_product(inputs@),
        r.min < r.n,
        forall|i: int|
            0 <= i < inputs@.len() ==> (r.min as int) % ((#[trigger] inputs@[i]).ni as int)
                == inputs@[i].ai,
{
    let k = inputs.len();
    proof {
        assert(forall|i: int| 0 <= i < inputs@.len() ==> (#[trigger] inputs@[i]).ni >= 1);
    }
    // the product of all divisors
    let mut n: usize = 1;
    let mut i: usize = k;
    while i > 0
        invariant
            forall|j: int| 0 <= j < inputs@.len() ==> (#[trigger] inputs@[j]).ai < inputs@[j].ni,
            spec_product(inputs@) <= usize::MAX,
            k == inputs@.len(),
            i <= k,
            n as int == prod_from(inputs@, i as int),
        decreases i,
    {
        i = i - 1;
        proof {
            lemma_prod_le(inputs@, i as int);
            assert(prod_from(inputs@, i as int) == (inputs@[i as int].ni as int) * prod_from(
                inputs@,
                i as int + 1,
            ));
        }
        n = inputs[i].ni * n;
    }
    proof {
        lemma_prod_pos(inputs@, 0);
    }
    let nu: u128 = n as u128;
    let mut acc: u128 = 0;
    let mut t: usize = 0;
    while t < k
        invariant
            forall|j: int| 0 <= j < inputs@.len() ==> (#[trigger] inputs@[j]).ai < inputs@[j].ni,
            spec_product(inputs@) <= usize::MAX,
            forall|j: int|
                0 <= j < inputs@.len() ==> gcd_int(
                    (#[trigger] inputs@[j]).ni as int,
                    prod_skip(inputs@, 0, j),
                ) == 1,
            k == inputs@.len(),
            n as int == spec_product(inputs@),
            n >= 1,
            nu == n as u128,
            t <= k,
            acc < nu,
            forall|j: int|
                0 <= j < inputs@.len() ==> (acc as int) % ((#[trigger] inputs@[j]).ni as int) == (
                if j < t {
                    inputs@[j].ai as int
                } else {
                    0
                }),
        decreases k - t,
    {
        // the product of all divisors but the current one
        let mut pt: usize = 1;
        let mut j: usize = k;
        while j > 0
            invariant
                forall|jj: int|
                    0 <= jj < inputs@.len() ==> (#[trigger] inputs@[jj]).ai < inputs@[jj].ni,
                spec_product(inputs@) <= usize::MAX,
                k == inputs@.len(),
                t < k,
                j <= k,
                pt as int == prod_skip(inputs@, j as int, t as int),
            decreases j,
        {
            j = j - 1;
            if j != t {
                proof {
                    lemma_skip_le(inputs@, j as int, t as int);
                    lemma_prod_le(inputs@, j as int);
                    assert(prod_skip(inputs@, j as int, t as int) == (inputs@[j as int].ni as int)
                        * prod_skip(inputs@, j as int + 1, t as int));
                }
                pt = inputs[j].ni * pt;
            }
        }
        let nt = inputs[t].ni;
        let at = inputs[t].ai;
        proof {
            lemma_prod_factor(inputs@, 0, t as int);
            lemma_skip_le(inputs@, 0, t as int);
            lemma_skip_pos(inputs@, 0, t as int);
        }
        let e = extended_gcd_i128(nt as i128, pt as i128);
        proof {
            assert(e.0 as int == 1);
        }
        let vt = match (e.2).checked_rem_euclid(nt as i128) {
            Some(v) => v,
            None => {
                proof {
                    vstd::arithmetic::div_mod::lemma_mod_bound(e.2 as int, nt as int);
                }
                // nt >= 1, so the remainder exists and is small
                0
            },
        };
        proof {
            vstd::arithmetic::div_mod::lemma_mod_bound(e.2 as int, nt as int);
            assert(vt as int == (e.2 as int) % (nt as int));
            assert(0 <= vt as int && (vt as int) < (nt as int));
        }
        proof {
            assert(usize::MAX <= u64::MAX);
            vstd::arithmetic::mul::lemma_mul_upper_bound(
                vt as int,
                u64::MAX as int,
                pt as int,
                u64::MAX as int,
            );
        }
        let et: u128 = (vt as u128) * (pt as u128);
        let e_mod: u128 = et % nu;
        proof {
            vstd::arithmetic::mul::lemma_mul_upper_bound(
                at as int,
                u64::MAX as int,
                e_mod as int,
                u64::MAX as int,
            );
        }
        let term: u128 = (at as u128) * e_mod;
        let ghost prev_acc = acc as int;
        acc = (acc + term % nu) % nu;
        proof {
            let ni = nt as int;
            let p = pt as int;
            let nn = n as int;
            let y = e.2 as int;
            let v = vt as int;
            let a = at as int;
            let eti = et as int;
            // et ≡ 1 (mod nt)
            assert(eti == v * p);
            vstd::arithmetic::mul::lemma_mul_is_commutative(v, p);
            vstd::arithmetic::div_mod::lemma_mul_mod_noop_right(p, y, ni);
            assert(p * (y % ni) % ni == (p * y) % ni);
            assert(p * y == 1 - ni * (e.1 as int));
            vstd::arithmetic::div_mod::lemma_mod_multiples_vanish(-(e.1 as int), 1, ni);
            assert((ni * (-(e.1 as int)) + 1int) % ni == 1int % ni);
            assert(ni * (-(e.1 as int)) == -(ni * (e.1 as int))) by {
                vstd::arithmetic::mul::lemma_mul_is_commutative(ni, -(e.1 as int));
                vstd::arithmetic::mul::lemma_mul_unary_negation(e.1 as int, ni);
                vstd::arithmetic::mul::lemma_mul_is_commutative(ni, e.1 as int);
            }
            assert(ni * (-(e.1 as int)) + 1int == 1int - ni * (e.1 as int));
            assert(p * y == 1int - ni * (e.1 as int));
            assert(p * y % ni == 1int % ni);
            assert(eti % ni == 1int % ni) by {
                vstd::arithmetic::mul::lemma_mul_is_commutative(p, v);
            }
            // the pieces of the new accumulator, divisor by divisor
            assert(nn == ni * p);
            assert forall|jj: int| 0 <= jj < inputs@.len() implies (acc as int) % ((
            #[trigger] inputs@[jj]).ni as int) == (if jj < t + 1 {
                inputs@[jj].ai as int
            } else {
                0
            }) by {
                let m = inputs@[jj].ni as int;
                let pj = prod_skip(inputs@, 0, jj);
                lemma_prod_factor(inputs@, 0, jj);
                lemma_skip_pos(inputs@, 0, jj);
                assert(nn == m * pj);
                vstd::arithmetic::div_mod::lemma_mod_mod(eti, m, pj);
                assert((eti % nn) % m == eti % m);
                assert(e_mod as int == eti % nn);
                vstd::arithmetic::div_mod::lemma_mul_mod_noop_right(a, e_mod as int, m);
                assert(term as int == a * (e_mod as int));
                assert((term as int) % m == (a * (eti % nn)) % m);
                assert((a * ((eti % nn) % m)) % m == (a * (eti % nn)) % m) by {
                    vstd::arithmetic::div_mod::lemma_mul_mod_noop_right(a, eti % nn, m);
                }
                assert((term as int) % m == (a * (eti % m)) % m);
                if jj == t {
                    assert(eti % m == 1int % m);
                    assert((a * (1int % m)) % m == (a * 1int) % m) by {
                        vstd::arithmetic::div_mod::lemma_mul_mod_noop_right(a, 1, m);
                    }
                    assert((term as int) % m == a % m);
                    vstd::arithmetic::div_mod::lemma_small_mod(a as nat, m as nat);
                    assert((term as int) % m == a);
                } else {
                    lemma_skip_divisible(inputs@, 0, t as int, jj);
                    assert(p % m == 0) by {
                        assert(p == prod_skip(inputs@, 0, t as int));
                    }
                    assert((v * (p % m)) % m == (v * p) % m) by {
                        vstd::arithmetic::div_mod::lemma_mul_mod_noop_right(v, p, m);
                    }
                    assert(v * 0 == 0) by {
                        vstd::arithmetic::mul::lemma_mul_by_zero_is_zero(v);
                    }
                    assert((0int) % m == 0) by {
                        vstd::arithmetic::div_mod::lemma_small_mod(0, m as nat);
                    }
                    assert(eti % m == 0);
                    assert((a * (0int)) % m == 0) by {
                        vstd::arithmetic::mul::lemma_mul_by_zero_is_zero(a);
                        vstd::arithmetic::div_mod::lemma_small_mod(0, m as nat);
                    }
                    assert((term as int) % m == 0);
                }
                // fold the term into the accumulator modulo m
                vstd::arithmetic::div_mod::lemma_mod_mod(prev_acc + (term as int) % nn, m, pj);
                assert((acc as int) == (prev_acc + (term as int) % nn) % nn);
                assert((acc as int) % m == (prev_acc + (term as int) % nn) % m);
                vstd::arithmetic::div_mod::lemma_add_mod_noop(prev_acc, (term as int) % nn, m);
                vstd::arithmetic::div_mod::lemma_mod_mod(term as int, m, pj);
                assert(((term as int) % nn) % m == (term as int) % m);
                if jj < t {
                    let aj = inputs@[jj].ai as int;
                    assert(prev_acc % m == aj);
                    assert((acc as int) % m == (aj % m + (term as int) % m) % m) by {
                        vstd::arithmetic::div_mod::lemma_small_mod(aj as nat, m as nat);
                    }
                    assert((acc as int) % m == (aj + 0) % m) by {
                        vstd::arithmetic::div_mod::lemma_add_mod_noop(aj, 0, m);
                        vstd::arithmetic::div_mod::lemma_small_mod(aj as nat, m as nat);
                        vstd::arithmetic::div_mod::lemma_small_mod(0, m as nat);
                    }
                    vstd::arithmetic::div_mod::lemma_small_mod(aj as nat, m as nat);
                } else if jj == t {
                    assert(prev_acc % m == 0);
                    assert((acc as int) % m == (0int % m + a) % m);
                    assert((0int) % m == 0) by {
                        vstd::arithmetic::div_mod::lemma_small_mod(0, m as nat);
                    }
                    vstd::arithmetic::div_mod::lemma_small_mod(a as nat, m as nat);
                } else {
                    assert(prev_acc % m == 0);
                    assert((acc as int) % m == (0int % m + 0int) % m);
                    vstd::arithmetic::div_mod::lemma_small_mod(0, m as nat);
                }
            }
        }
        t = t + 1;
    }
    let min = acc as usize;
    Solutions { min, n }
}

} // verus!
