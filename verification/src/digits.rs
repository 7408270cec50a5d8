//! Calibration digits: the first and last digit of a line, where a digit
//! is either an ASCII digit character or a spelled-out word from `one`
//! to `nine`.
use vstd::prelude::*;

verus! {

/// The spelled-out word for a digit value.
pub open spec fn word_of(d: int) -> Seq<u8> {
    if d == 1 {
        seq![111u8, 110u8, 101u8]
    } else if d == 2 {
        seq![116u8, 119u8, 111u8]
    } else if d == 3 {
        seq![116u8, 104u8, 114u8, 101u8, 101u8]
    } else if d == 4 {
        seq![102u8, 111u8, 117u8, 114u8]
    } else if d == 5 {
        seq![102u8, 105u8, 118u8, 101u8]
    } else if d == 6 {
        seq![115u8, 105u8, 120u8]
    } else if d == 7 {
        seq![115u8, 101u8, 118u8, 101u8, 110u8]
    } else if d == 8 {
        seq![101u8, 105u8, 103u8, 104u8, 116u8]
    } else if d == 9 {
        seq![110u8, 105u8, 110u8, 101u8]
    } else {
        Seq::empty()
    }
}

/// Whether the word for digit `d` starts at position `i` of `s`.
pub open spec fn word_matches_at(s: Seq<u8>, i: int, d: int) -> bool {
    &&& 0 <= i
    &&& i + word_of(d).len() <= s.len()
    &&& s.subrange(i, i + word_of(d).len() as int) == word_of(d)
}

/// The digit value starting at position `i` of `s`: an ASCII digit
/// character counts as itself, a spelled-out word as its value.
pub open spec fn digit_at(s: Seq<u8>, i: int) -> Option<int> {
    if 0 <= i < s.len() && 49 <= s[i] <= 57 {
        Some(s[i] - 48)
    } else if word_matches_at(s, i, 1) {
        Some(1)
    } else if word_matches_at(s, i, 2) {
        Some(2)
    } else if word_matches_at(s, i, 3) {
        Some(3)
    } else if word_matches_at(s, i, 4) {
        Some(4)
    } else if word_matches_at(s, i, 5) {
        Some(5)
    } else if word_matches_at(s, i, 6) {
        Some(6)
    } else if word_matches_at(s, i, 7) {
        Some(7)
    } else if word_matches_at(s, i, 8) {
        Some(8)
    } else if word_matches_at(s, i, 9) {
        Some(9)
    } else {
        None
    }
}

/// The word for digit `d`, as bytes.
fn word_bytes(d: usize) -> (r: Vec<u8>)
    requires
        1 <= d <= 9,
    ensures
        r@ == word_of(d as int),
{
    let r = match d {
        1usize => vec![111u8, 110u8, 101u8],
        2usize => vec![116u8, 119u8, 111u8],
        3usize => vec![116u8, 104u8, 114u8, 101u8, 101u8],
        4usize => vec![102u8, 111u8, 117u8, 114u8],
        5usize => vec![102u8, 105u8, 118u8, 101u8],
        6usize => vec![115u8, 105u8, 120u8],
        7usize => vec![115u8, 101u8, 118u8, 101u8, 110u8],
        8usize => vec![101u8, 105u8, 103u8, 104u8, 116u8],
        _ => vec![110u8, 105u8, 110u8, 101u8],
    };
    proof {
        assert(r@ =~~= word_of(d as int));
    }
    r
}

/// The digit value starting at position `i`, if any.
fn digit_at_exec(s: &[u8], i: usize) -> (r: Option<usize>)
    requires
        i < s@.len(),
    ensures
        r is Some <==> digit_at(s@, i as int) is Some,
        r is Some ==> Some(r->0 as int) == digit_at(s@, i as int),
{
    let b = s[i];
    if 49 <= b && b <= 57 {
        return Some((b - 48) as usize);
    }
    let mut d: usize = 1;
    while d <= 9
        invariant
            i < s@.len(),
            !(49 <= s@[i as int] <= 57),
            1 <= d <= 10,
            forall|dd: int| 1 <= dd < d ==> !word_matches_at(s@, i as int, dd),
        decreases 10 - d,
    {
        let w = word_bytes(d);
        if w.len() <= s.len() - i {
            let mut k: usize = 0;
            let mut same = true;
            while k < w.len()
                invariant
                    i < s@.len(),
                    s@.len() <= usize::MAX,
                    w@ == word_of(d as int),
                    i + w@.len() <= s@.len(),
                    k <= w@.len(),
                    same ==> forall|j: int| 0 <= j < k ==> s@[i + j] == w@[j],
                    !same ==> !word_matches_at(s@, i as int, d as int),
                decreases w@.len() - k,
            {
                proof {
                    assert(i + k < s@.len());
                }
                if s[i + k] != w[k] {
                    proof {
                        assert(s@.subrange(i as int, i + w@.len() as int)[k as int] != w@[k as int]);
                    }
                    same = false;
                    k = w.len();
                } else {
                    k = k + 1;
                }
            }
            if same {
                proof {
                    assert(s@.subrange(i as int, i + w@.len() as int) =~~= word_of(d as int));
                    assert(word_matches_at(s@, i as int, d as int));
                }
                return Some(d);
            }
        } else {
            proof {
                assert(!word_matches_at(s@, i as int, d as int));
            }
        }
        d = d + 1;
    }
    proof {
        assert(digit_at(s@, i as int) is None);
    }
    None
}

/// The first digit of the line, spelled or literal: the value at the
/// earliest position where one starts.
pub fn first_digit(s: &[u8]) -> (r: Option<usize>)
    ensures
        r is Some ==> exists|i: int|
            0 <= i < s@.len() && Some(r->0 as int) == #[trigger] digit_at(s@, i) && (forall|j: int|
                0 <= j < i ==> digit_at(s@, j) is None),
        r is None ==> forall|i: int| 0 <= i < s@.len() ==> #[trigger] digit_at(s@, i) is None,
{
    let mut i: usize = 0;
    while i < s.len()
        invariant
            i <= s@.len(),
            forall|j: int| 0 <= j < i ==> #[trigger] digit_at(s@, j) is None,
        decreases s@.len() - i,
    {
        match digit_at_exec(s, i) {
            Some(v) => {
                proof {
                    assert(Some(v as int) == digit_at(s@, i as int));
                }
                return Some(v);
            },
            None => {},
        }
        i = i + 1;
    }
    None
}

/// The last digit of the line, spelled or literal: the value at the
/// latest position where one starts.
pub fn last_digit(s: &[u8]) -> (r: Option<usize>)
    ensures
        r is Some ==> exists|i: int|
            0 <= i < s@.len() && Some(r->0 as int) == #[trigger] digit_at(s@, i) && (forall|j: int|
                i < j < s@.len() ==> digit_at(s@, j) is None),
        r is None ==> forall|i: int| 0 <= i < s@.len() ==> #[trigger] digit_at(s@, i) is None,
{
    let mut i: usize = s.len();
    while i > 0
        invariant
            i <= s@.len(),
            forall|j: int| i <= j < s@.len() ==> #[trigger] digit_at(s@, j) is None,
        decreases i,
    {
        i = i - 1;
        match digit_at_exec(s, i) {
            Some(v) => {
                proof {
                    assert(Some(v as int) == digit_at(s@, i as int));
                }
                return Some(v);
            },
            None => {},
        }
    }
    None
}

/// The calibration value of one line: ten times its first digit plus
/// its last, or nothing where the line holds no digit.
pub fn calibration_value(s: &[u8]) -> (r: Option<usize>)
    ensures
        r is Some <==> exists|i: int| 0 <= i < s@.len() && #[trigger] digit_at(s@, i) is Some,
        r is Some ==> exists|i: int, j: int|
            {
                &&& 0 <= i < s@.len() && 0 <= j < s@.len()
                &&& #[trigger] digit_at(s@, i) is Some && #[trigger] digit_at(s@, j) is Some
                &&& (forall|k: int| 0 <= k < i ==> digit_at(s@, k) is None)
                &&& (forall|k: int| j < k < s@.len() ==> digit_at(s@, k) is None)
                &&& r->0 as int == 10 * (digit_at(s@, i)->0) + digit_at(s@, j)->0
            },
{
    let first = first_digit(s);
    let last = last_digit(s);
    match (first, last) {
        (Some(f), Some(l)) => {
            let r = 10 * f + l;
            proof {
                let i = choose|i: int|
                    0 <= i < s@.len() && Some(f as int) == #[trigger] digit_at(s@, i) && (forall|
                        k: int,
                    | 0 <= k < i ==> digit_at(s@, k) is None);
                let j = choose|j: int|
                    0 <= j < s@.len() && Some(l as int) == #[trigger] digit_at(s@, j) && (forall|
                        k: int,
                    | j < k < s@.len() ==> digit_at(s@, k) is None);
                assert(1 <= f <= 9 && 1 <= l <= 9) by {
                    assert(digit_at(s@, i) is Some);
                    assert(digit_at(s@, j) is Some);
                }
                assert(0 <= i < s@.len() && 0 <= j < s@.len() && digit_at(s@, i) is Some
                    && digit_at(s@, j) is Some && (forall|k: int|
                    0 <= k < i ==> digit_at(s@, k) is None) && (forall|k: int|
                    j < k < s@.len() ==> digit_at(s@, k) is None) && r as int == 10 * (digit_at(
                    s@,
                    i,
                )->0) + digit_at(s@, j)->0);
            }
            Some(r)
        },
        _ => {
            proof {
                if first is None {
                    assert(forall|i: int|
                        0 <= i < s@.len() ==> #[trigger] digit_at(s@, i) is None);
                }
            }
            None
        },
    }
}

} // verus!
