//! Arrangement counting for rows of springs: each `?` cell is free to be
//! operational (`.`) or damaged (`#`), and an arrangement is valid when
//! the runs of damaged springs match the given group lengths in order.
use vstd::prelude::*;

use crate::scratch::pow2;

verus! {

/// One puzzle row: the spring cells and the damaged-run lengths.
#[derive(Debug, Clone, PartialEq, Eq)]
pub struct Row {
    pub row: Vec<u8>,
    pub groups: Vec<usize>,
}

/// The number of valid arrangements of `row` given that the current run
/// of damaged springs has length `cur` and the runs still owed are
/// `groups`. A `.` closes the run (which must match the first owed
/// group), a `#` extends it, and a `?` does both.
pub open spec fn spec_arrangements(row: Seq<u8>, cur: int, groups: Seq<usize>) -> int
    decreases row.len(),
{
    if row.len() == 0 {
        if groups.len() == 0 && cur == 0 {
            1
        } else if groups.len() == 1 && cur == groups[0] {
            1
        } else {
            0
        }
    } else {
        let dot_count: int = if row[0] == 46 || row[0] == 63 {
            if cur == 0 {
                spec_arrangements(row.skip(1), 0, groups)
            } else if groups.len() > 0 && cur == groups[0] {
                spec_arrangements(row.skip(1), 0, groups.skip(1))
            } else {
                0
            }
        } else {
            0
        };
        let hash_count: int = if row[0] == 35 || row[0] == 63 {
            if groups.len() == 0 {
                0
            } else if cur == 0 {
                spec_arrangements(row.skip(1), 1, groups)
            } else if cur + 1 > groups[0] {
                0
            } else {
                spec_arrangements(row.skip(1), cur + 1, groups)
            }
        } else {
            0
        };
        dot_count + hash_count
    }
}

/// The arrangement count never exceeds two to the number of cells.
proof fn lemma_arrangements_bound(row: Seq<u8>, cur: int, groups: Seq<usize>)
    ensures
        0 <= spec_arrangements(row, cur, groups) <= pow2(row.len() as int),
    decreases row.len(),
{
    crate::scratch::lemma_pow2_pos(row.len() as int);
    if row.len() > 0 {
        crate::scratch::lemma_pow2_le(row.len() as int - 1, row.len() as int);
    }
    if row.len() > 0 {
        lemma_arrangements_bound(row.skip(1), 0, groups);
        lemma_arrangements_bound(row.skip(1), 0, groups.skip(1));
        lemma_arrangements_bound(row.skip(1), 1, groups);
        lemma_arrangements_bound(row.skip(1), cur + 1, groups);
    }
}

/// Counts the valid arrangements of the remaining cells.
fn arrangements(row: &[u8], current_group_length: usize, groups: &[usize]) -> (r: usize)
    requires
        pow2(row@.len() as int) <= usize::MAX,
    ensures
        r as int == spec_arrangements(row@, current_group_length as int, groups@),
    decreases row@.len(),
{
    proof {
        lemma_arrangements_bound(row@, current_group_length as int, groups@);
        lemma_arrangements_bound(row@.skip(1), 0, groups@);
        lemma_arrangements_bound(row@.skip(1), 0, groups@.skip(1));
        lemma_arrangements_bound(row@.skip(1), 1, groups@);
        lemma_arrangements_bound(row@.skip(1), current_group_length + 1, groups@);
        if row@.len() >= 1 {
            crate::scratch::lemma_pow2_le(row@.len() as int - 1, row@.len() as int);
        }
    }
    if row.len() == 0 {
        if groups.len() == 0 && current_group_length == 0 {
            return 1;
        } else if groups.len() == 1 && current_group_length == groups[0] {
            return 1;
        } else {
            return 0;
        }
    }
    let first = row[0];
    let rest = &row[1..row.len()];
    proof {
        assert(rest@ =~~= row@.skip(1));
    }
    let mut count: usize = 0;
    if first == 46 || first == 63 {
        if current_group_length == 0 {
            count = count + arrangements(rest, 0, groups);
        } else if groups.len() > 0 && current_group_length == groups[0] {
            let rest_groups = &groups[1..groups.len()];
            proof {
                assert(rest_groups@ =~~= groups@.skip(1));
            }
            count = count + arrangements(rest, 0, rest_groups);
        }
    }
    if first == 35 || first == 63 {
        if groups.len() == 0 {
        } else if current_group_length == 0 {
            count = count + arrangements(rest, 1, groups);
        } else if current_group_length >= groups[0] {
        } else {
            count = count + arrangements(rest, current_group_length + 1, groups);
        }
    }
    count
}

impl Row {
    /// The number of ways to replace each `?` so that the runs of `#`
    /// match the group lengths in order.
    pub fn count_arrangements(&self) -> (r: usize)
        requires
            pow2(self.row@.len() as int) <= usize::MAX,
        ensures
            r as int == spec_arrangements(self.row@, 0, self.groups@),
    {
        arrangements(self.row.as_slice(), 0, self.groups.as_slice())
    }
}

} // verus!
