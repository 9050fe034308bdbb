//! Validation of the group size and the layout of groups in the buffer.

use vstd::prelude::*;

verus! {

/// Why a scoring call was refused.
#[derive(Debug, Clone, Copy, PartialEq, Eq, Structural)]
pub enum ScoreError {
    /// The group size is zero, so a group holds no value to score.
    InvalidGroupSize,
}

/// Number of complete groups in a buffer of `len` values; the trailing
/// partial group, if any, is not counted.
pub open spec fn num_groups(len: int, group_size: int) -> int {
    len / group_size
}

/// Position in the buffer of the `k`-th value of group `i`.
pub open spec fn member_index(group_size: int, i: int, k: int) -> int {
    i * group_size + k
}

/// Every value of a complete group lies inside the buffer.
pub proof fn lemma_group_in_bounds(len: int, group_size: int, i: int)
    requires
        0 < group_size,
        0 <= len,
        0 <= i < num_groups(len, group_size),
    ensures
        0 <= member_index(group_size, i, 0),
        member_index(group_size, i, group_size) <= len,
{
    let n = len / group_size;
    assert(n * group_size <= len) by (nonlinear_arith)
        requires
            n == len / group_size,
            0 < group_size,
            0 <= len,
    ;
    assert(i * group_size + group_size <= n * group_size && 0 <= i * group_size) by (nonlinear_arith)
        requires
            0 <= i < n,
            0 < group_size,
    ;
}

/// Number of complete groups of `group_size` values in a buffer of `len`
/// values, or `InvalidGroupSize` when `group_size` is zero.
pub fn group_count(len: usize, group_size: usize) -> (r: Result<usize, ScoreError>)
    ensures
        match r {
            Ok(n) => group_size > 0 && n == num_groups(len as int, group_size as int),
            Err(e) => group_size == 0 && e == ScoreError::InvalidGroupSize,
        },
{
    if group_size == 0 {
        Err(ScoreError::InvalidGroupSize)
    } else {
        Ok(len / group_size)
    }
}

} // verus!
