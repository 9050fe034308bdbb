//! The two largest values of each group, from which the margin of confidence
//! (largest minus second largest) is taken.

use vstd::prelude::*;
use crate::float_bits::{lemma_order_key_injective, order_key, total_order_key};
use crate::grouping::{lemma_group_in_bounds, member_index, num_groups, ScoreError};

verus! {

broadcast use vstd::seq_lib::group_to_multiset_ensures;

/// Where the largest values of one group stand in the buffer.
#[derive(Debug, Clone, Copy, PartialEq, Eq, Structural)]
pub struct TopTwo {
    /// Position of a largest value of the group.
    pub first: usize,
    /// Position of a largest value among the others; `None` when the group
    /// holds a single value, whose margin is that value itself.
    pub second: Option<usize>,
}

/// Position `i` holds a largest value of `s`.
pub open spec fn is_max_at(s: Seq<int>, i: int) -> bool {
    &&& 0 <= i < s.len()
    &&& forall|k: int| 0 <= k < s.len() ==> s[k] <= s[i]
}

/// Position `i` holds a largest value of `s`, and position `j`, another one,
/// a largest value of the rest.
pub open spec fn is_top_two_at(s: Seq<int>, i: int, j: int) -> bool {
    &&& is_max_at(s, i)
    &&& 0 <= j < s.len()
    &&& j != i
    &&& forall|k: int| 0 <= k < s.len() && k != i ==> s[k] <= s[j]
}

/// The total-order keys of the values of group `i`, in buffer order.
pub open spec fn group_keys(bits: Seq<u64>, group_size: int, i: int) -> Seq<int> {
    Seq::new(group_size as nat, |k: int| total_order_key(bits[member_index(group_size, i, k)]))
}

/// `t` names the largest values of group `i`: a largest and a second largest at
/// two distinct positions, or the lone value of a one-value group.
pub open spec fn picks_top_two(bits: Seq<u64>, group_size: int, i: int, t: TopTwo) -> bool {
    let start = member_index(group_size, i, 0);
    match t.second {
        None => group_size == 1 && t.first == start,
        Some(j) => group_size >= 2 && is_top_two_at(
            group_keys(bits, group_size, i),
            t.first - start,
            j - start,
        ),
    }
}

/// A largest value does not depend on the order of the values.
proof fn lemma_max_order_invariant(s1: Seq<int>, s2: Seq<int>, i1: int, i2: int)
    requires
        s1.to_multiset() =~= s2.to_multiset(),
        is_max_at(s1, i1),
        is_max_at(s2, i2),
    ensures
        s1[i1] == s2[i2],
{
    assert(s1.to_multiset().count(s1[i1]) > 0);
    assert(s2.contains(s1[i1]));
    assert(s2.to_multiset().count(s2[i2]) > 0);
    assert(s1.contains(s2[i2]));
}

/// Top-two choices over sequences holding the same values pick the same two
/// values.
proof fn lemma_top_two_order_invariant(
    s1: Seq<int>,
    s2: Seq<int>,
    i1: int,
    j1: int,
    i2: int,
    j2: int,
)
    requires
        s1.to_multiset() =~= s2.to_multiset(),
        is_top_two_at(s1, i1, j1),
        is_top_two_at(s2, i2, j2),
    ensures
        s1[i1] == s2[i2],
        s1[j1] == s2[j2],
{
    lemma_max_order_invariant(s1, s2, i1, i2);
    let r1 = s1.remove(i1);
    let r2 = s2.remove(i2);
    assert(r1.to_multiset() =~= r2.to_multiset());
    let k1 = if j1 < i1 { j1 } else { j1 - 1 };
    let k2 = if j2 < i2 { j2 } else { j2 - 1 };
    assert(r1[k1] == s1[j1]);
    assert(r2[k2] == s2[j2]);
    assert forall|k: int| 0 <= k < r1.len() implies r1[k] <= r1[k1] by {
        if k >= i1 {
            assert(r1[k] == s1[k + 1]);
        }
    }
    assert forall|k: int| 0 <= k < r2.len() implies r2[k] <= r2[k2] by {
        if k >= i2 {
            assert(r2[k] == s2[k + 1]);
        }
    }
    lemma_max_order_invariant(r1, r2, k1, k2);
}

/// The two largest values of a group, and so its margin, do not depend on the
/// order in which the group lists its values: for two groups that hold the
/// same values in any order (the group `i1` of `bits1` and the group `i2` of
/// `bits2`), the picks name the same largest and the same second largest
/// value.
pub proof fn lemma_margin_order_invariant(
    bits1: Seq<u64>,
    i1: int,
    t1: TopTwo,
    bits2: Seq<u64>,
    i2: int,
    t2: TopTwo,
    group_size: int,
)
    requires
        group_keys(bits1, group_size, i1).to_multiset() =~= group_keys(
            bits2,
            group_size,
            i2,
        ).to_multiset(),
        picks_top_two(bits1, group_size, i1, t1),
        picks_top_two(bits2, group_size, i2, t2),
    ensures
        bits1[t1.first as int] == bits2[t2.first as int],
        t1.second is Some <==> t2.second is Some,
        t1.second is Some ==> bits1[t1.second->0 as int] == bits2[t2.second->0 as int],
{
    let s1 = group_keys(bits1, group_size, i1);
    let s2 = group_keys(bits2, group_size, i2);
    let start1 = member_index(group_size, i1, 0);
    let start2 = member_index(group_size, i2, 0);
    match (t1.second, t2.second) {
        (Some(j1), Some(j2)) => {
            lemma_top_two_order_invariant(s1, s2, t1.first - start1, j1 - start1, t2.first - start2, j2 - start2);
            lemma_order_key_injective(bits1[t1.first as int], bits2[t2.first as int]);
            lemma_order_key_injective(bits1[j1 as int], bits2[j2 as int]);
        },
        _ => {
            assert(s1.len() == group_size);
            assert(s2.len() == group_size);
            assert(s1[0] == total_order_key(bits1[start1]));
            assert(s2[0] == total_order_key(bits2[start2]));
            assert(s1 =~= seq![s1[0]]);
            assert(s2 =~= seq![s2[0]]);
            assert(s1.to_multiset().count(s1[0]) > 0);
            assert(s2.contains(s1[0]));
            lemma_order_key_injective(bits1[t1.first as int], bits2[t2.first as int]);
        },
    }
}

/// When the largest value of a group occurs at two positions, the picks name
/// two positions holding that same value, so the margin is zero.
pub proof fn lemma_tie_margin_zero(bits: Seq<u64>, group_size: int, i: int, t: TopTwo, a: int, b: int)
    requires
        picks_top_two(bits, group_size, i, t),
        0 <= a < group_size,
        0 <= b < group_size,
        a != b,
        is_max_at(group_keys(bits, group_size, i), a),
        bits[member_index(group_size, i, a)] == bits[member_index(group_size, i, b)],
    ensures
        t.second is Some,
        bits[t.first as int] == bits[t.second->0 as int],
{
    let s = group_keys(bits, group_size, i);
    let start = member_index(group_size, i, 0);
    let j = t.second->0;
    assert(s[a] == s[b]);
    assert(s[t.first - start] == s[a]);
    if a == t.first - start {
        assert(s[j - start] >= s[b]);
    } else {
        assert(s[j - start] >= s[a]);
    }
    assert(s[t.first - start] == total_order_key(bits[t.first as int]));
    assert(s[j - start] == total_order_key(bits[j as int]));
    lemma_order_key_injective(bits[t.first as int], bits[j as int]);
}

/// The largest values of the group that occupies `start .. end` of `bits`.
fn top_two_in(bits: &[u64], start: usize, end: usize) -> (r: TopTwo)
    requires
        start < end <= bits@.len(),
    ensures
        start <= r.first < end,
        forall|k: int| start <= k < end ==> total_order_key(#[trigger] bits@[k]) <= total_order_key(
            bits@[r.first as int],
        ),
        match r.second {
            None => end == start + 1,
            Some(j) => {
                &&& start <= j < end
                &&& j != r.first
                &&& forall|k: int|
                    start <= k < end && k != r.first ==> total_order_key(#[trigger] bits@[k])
                        <= total_order_key(bits@[j as int])
            },
        },
{
    let mut first: usize = start;
    let mut first_key: u64 = order_key(bits[start]);
    let mut second: Option<usize> = None;
    let mut second_key: u64 = 0;
    let mut pos: usize = start + 1;
    while pos < end
        invariant
            start < pos <= end <= bits@.len(),
            start <= first < pos,
            first_key == total_order_key(bits@[first as int]),
            forall|k: int| start <= k < pos ==> total_order_key(#[trigger] bits@[k]) <= first_key,
            match second {
                None => pos == start + 1,
                Some(j) => {
                    &&& start <= j < pos
                    &&& j != first
                    &&& second_key == total_order_key(bits@[j as int])
                    &&& forall|k: int|
                        start <= k < pos && k != first ==> total_order_key(#[trigger] bits@[k]) <= second_key
                },
            },
        decreases end - pos,
    {
        let key = order_key(bits[pos]);
        if key > first_key {
            second = Some(first);
            second_key = first_key;
            first = pos;
            first_key = key;
        } else if second.is_none() || key > second_key {
            second = Some(pos);
            second_key = key;
        }
        pos = pos + 1;
    }
    TopTwo { first, second }
}

/// For each complete group of `group_size` values in `bits`, the positions of
/// its largest and second largest values in the IEEE 754 total order, or
/// `InvalidGroupSize` when `group_size` is zero. `bits` holds the patterns of
/// the probabilities; a trailing partial group is dropped.
pub fn margin_picks(bits: &[u64], group_size: usize) -> (r: Result<Vec<TopTwo>, ScoreError>)
    ensures
        match r {
            Ok(picks) => {
                &&& group_size > 0
                &&& picks.len() == num_groups(bits@.len() as int, group_size as int)
                &&& forall|i: int|
                    0 <= i < picks.len() ==> picks_top_two(
                        bits@,
                        group_size as int,
                        i,
                        #[trigger] picks[i],
                    )
            },
            Err(e) => group_size == 0 && e == ScoreError::InvalidGroupSize,
        },
{
    if group_size == 0 {
        return Err(ScoreError::InvalidGroupSize);
    }
    let len = bits.len();
    let n = len / group_size;
    let mut picks: Vec<TopTwo> = Vec::new();
    let mut i: usize = 0;
    while i < n
        invariant
            0 < group_size,
            len == bits@.len(),
            n == num_groups(len as int, group_size as int),
            i <= n,
            picks.len() == i,
            forall|t: int|
                0 <= t < i ==> picks_top_two(bits@, group_size as int, t, #[trigger] picks@[t]),
        decreases n - i,
    {
        proof {
            lemma_group_in_bounds(len as int, group_size as int, i as int);
        }
        let start = i * group_size;
        let end = start + group_size;
        let t = top_two_in(bits, start, end);
        let ghost keys = group_keys(bits@, group_size as int, i as int);
        assert(forall|k: int| 0 <= k < group_size ==> #[trigger] keys[k] == total_order_key(bits@[start + k]));
        proof {
            match t.second {
                None => {},
                Some(j) => {
                    assert forall|k: int| 0 <= k < keys.len() implies #[trigger] keys[k] <= keys[t.first - start] by {
                        assert(keys[k] == total_order_key(bits@[start + k]));
                    }
                    assert forall|k: int| 0 <= k < keys.len() && k != t.first - start implies #[trigger] keys[k]
                        <= keys[j - start] by {
                        assert(keys[k] == total_order_key(bits@[start + k]));
                    }
                },
            }
        }
        picks.push(t);
        i = i + 1;
    }
    Ok(picks)
}

} // verus!
