//! The entries of each group that enter its Shannon entropy.
//!
//! The entropy of a group is `-Σ p · log2(p)` over its entries `p > 0`; an
//! entry at or below zero (or a NaN) contributes nothing, as `p · log2(p)`
//! tends to zero with `p`. A group with no positive entry therefore has
//! entropy zero.

use vstd::prelude::*;
use crate::float_bits::{is_positive, is_positive_bits, ONE_BITS};
use crate::grouping::{lemma_group_in_bounds, member_index, num_groups, ScoreError};

verus! {

/// The buffer positions of group `i`, in order.
pub open spec fn group_positions(group_size: int, i: int) -> Seq<usize> {
    Seq::new(group_size as nat, |k: int| member_index(group_size, i, k) as usize)
}

/// The positions of group `i` whose double is positive, in order: the terms
/// of the group's entropy.
pub open spec fn entropy_support(bits: Seq<u64>, group_size: int, i: int) -> Seq<usize> {
    group_positions(group_size, i).filter(|j: usize| is_positive_bits(bits[j as int]))
}

/// A filter keeps nothing of a sequence none of whose elements passes it.
proof fn lemma_filter_none<A>(s: Seq<A>, pred: spec_fn(A) -> bool)
    requires
        forall|k: int| 0 <= k < s.len() ==> !pred(#[trigger] s[k]),
    ensures
        s.filter(pred) =~= Seq::<A>::empty(),
    decreases s.len(),
{
    reveal(Seq::filter);
    if s.len() > 0 {
        lemma_filter_none(s.drop_last(), pred);
    }
}

/// A filter keeps the whole of a sequence all of whose elements pass it.
proof fn lemma_filter_all<A>(s: Seq<A>, pred: spec_fn(A) -> bool)
    requires
        forall|k: int| 0 <= k < s.len() ==> pred(#[trigger] s[k]),
    ensures
        s.filter(pred) =~= s,
    decreases s.len(),
{
    reveal(Seq::filter);
    if s.len() > 0 {
        lemma_filter_all(s.drop_last(), pred);
        assert(s.drop_last().push(s.last()) =~= s);
    }
}

/// A filter keeps exactly the one element of a sequence that passes it.
proof fn lemma_filter_single<A>(s: Seq<A>, pred: spec_fn(A) -> bool, h: int)
    requires
        0 <= h < s.len(),
        pred(s[h]),
        forall|k: int| 0 <= k < s.len() && k != h ==> !pred(#[trigger] s[k]),
    ensures
        s.filter(pred) =~= seq![s[h]],
    decreases s.len(),
{
    reveal(Seq::filter);
    let rest = s.drop_last();
    if h == s.len() - 1 {
        lemma_filter_none(rest, pred);
    } else {
        lemma_filter_single(rest, pred, h);
    }
}

/// When exactly one value of a group is positive, its entropy has a single
/// term, that value's. So it is for a one-hot group (one `1.0`, the rest
/// `0.0`), whose entropy is then `-1.0 · log2(1.0)`, that is zero.
pub proof fn lemma_single_positive_term(bits: Seq<u64>, group_size: int, i: int, h: int)
    requires
        0 < group_size,
        bits.len() <= usize::MAX,
        0 <= i < num_groups(bits.len() as int, group_size),
        0 <= h < group_size,
        is_positive_bits(bits[member_index(group_size, i, h)]),
        forall|k: int|
            0 <= k < group_size && k != h ==> !is_positive_bits(
                #[trigger] bits[member_index(group_size, i, k)],
            ),
    ensures
        entropy_support(bits, group_size, i) == seq![member_index(group_size, i, h) as usize],
{
    lemma_group_in_bounds(bits.len() as int, group_size, i);
    let s = group_positions(group_size, i);
    let pred = |j: usize| is_positive_bits(bits[j as int]);
    assert forall|k: int| 0 <= k < s.len() && k != h implies !pred(#[trigger] s[k]) by {
        assert(s[k] as int == member_index(group_size, i, k));
    }
    assert(s[h] as int == member_index(group_size, i, h));
    lemma_filter_single(s, pred, h);
}

/// When every value of a group is positive, every value has a term in its
/// entropy. So it is for a uniform group of `k` values `1/k`, whose entropy
/// is then `k` equal terms `-(1/k) · log2(1/k)`, that is `log2(k)`.
pub proof fn lemma_all_positive_terms(bits: Seq<u64>, group_size: int, i: int)
    requires
        0 < group_size,
        bits.len() <= usize::MAX,
        0 <= i < num_groups(bits.len() as int, group_size),
        forall|k: int|
            0 <= k < group_size ==> is_positive_bits(#[trigger] bits[member_index(group_size, i, k)]),
    ensures
        entropy_support(bits, group_size, i) == group_positions(group_size, i),
{
    lemma_group_in_bounds(bits.len() as int, group_size, i);
    let s = group_positions(group_size, i);
    let pred = |j: usize| is_positive_bits(bits[j as int]);
    assert forall|k: int| 0 <= k < s.len() implies pred(#[trigger] s[k]) by {
        assert(s[k] as int == member_index(group_size, i, k));
    }
    lemma_filter_all(s, pred);
}

/// A one-hot group: the value `1.0` at position `h` and `+0.0` elsewhere.
pub open spec fn is_one_hot(bits: Seq<u64>, group_size: int, i: int, h: int) -> bool {
    &&& 0 <= h < group_size
    &&& bits[member_index(group_size, i, h)] == ONE_BITS
    &&& forall|k: int|
        0 <= k < group_size && k != h ==> #[trigger] bits[member_index(group_size, i, k)] == 0
}

/// The entropy of a one-hot group has the single term of its `1.0`, which
/// is `-1.0 · log2(1.0) = 0`.
pub proof fn lemma_one_hot_term(bits: Seq<u64>, group_size: int, i: int, h: int)
    requires
        0 < group_size,
        bits.len() <= usize::MAX,
        0 <= i < num_groups(bits.len() as int, group_size),
        is_one_hot(bits, group_size, i, h),
    ensures
        entropy_support(bits, group_size, i) == seq![member_index(group_size, i, h) as usize],
        bits[member_index(group_size, i, h)] == ONE_BITS,
{
    lemma_single_positive_term(bits, group_size, i, h);
}

/// A group with no positive value has no entropy term, so its entropy is
/// the empty sum, zero. So it is for a group of zeros.
pub proof fn lemma_no_positive_term(bits: Seq<u64>, group_size: int, i: int)
    requires
        0 < group_size,
        bits.len() <= usize::MAX,
        0 <= i < num_groups(bits.len() as int, group_size),
        forall|k: int|
            0 <= k < group_size ==> !is_positive_bits(#[trigger] bits[member_index(group_size, i, k)]),
    ensures
        entropy_support(bits, group_size, i) == Seq::<usize>::empty(),
{
    lemma_group_in_bounds(bits.len() as int, group_size, i);
    let s = group_positions(group_size, i);
    let pred = |j: usize| is_positive_bits(bits[j as int]);
    assert forall|k: int| 0 <= k < s.len() implies !pred(#[trigger] s[k]) by {
        assert(s[k] as int == member_index(group_size, i, k));
    }
    lemma_filter_none(s, pred);
}

/// The positions in `start .. end` of `bits` whose double is positive.
fn positive_positions(bits: &[u64], start: usize, end: usize) -> (r: Vec<usize>)
    requires
        start <= end <= bits@.len(),
    ensures
        r@ == Seq::new((end - start) as nat, |k: int| (start + k) as usize).filter(
            |j: usize| is_positive_bits(bits@[j as int]),
        ),
{
    let ghost pred = |j: usize| is_positive_bits(bits@[j as int]);
    let mut out: Vec<usize> = Vec::new();
    let mut pos: usize = start;
    while pos < end
        invariant
            start <= pos <= end <= bits@.len(),
            pred == (|j: usize| is_positive_bits(bits@[j as int])),
            out@ == Seq::new((pos - start) as nat, |k: int| (start + k) as usize).filter(pred),
        decreases end - pos,
    {
        let ghost before = Seq::new((pos - start) as nat, |k: int| (start + k) as usize);
        let ghost after = Seq::new((pos + 1 - start) as nat, |k: int| (start + k) as usize);
        proof {
            assert(after.drop_last() =~= before);
            assert(after.last() == pos);
            reveal(Seq::filter);
        }
        if is_positive(bits[pos]) {
            out.push(pos);
        }
        pos = pos + 1;
    }
    out
}

/// For each complete group of `group_size` values in `bits`, the positions of
/// its positive entries in buffer order, or `InvalidGroupSize` when
/// `group_size` is zero. `bits` holds the patterns of the probabilities; a
/// trailing partial group is dropped.
pub fn entropy_terms(bits: &[u64], group_size: usize) -> (r: Result<Vec<Vec<usize>>, ScoreError>)
    ensures
        match r {
            Ok(groups) => {
                &&& group_size > 0
                &&& groups.len() == num_groups(bits@.len() as int, group_size as int)
                &&& forall|i: int|
                    0 <= i < groups.len() ==> (#[trigger] groups[i])@ == entropy_support(
                        bits@,
                        group_size as int,
                        i,
                    )
            },
            Err(e) => group_size == 0 && e == ScoreError::InvalidGroupSize,
        },
{
    if group_size == 0 {
        return Err(ScoreError::InvalidGroupSize);
    }
    let len = bits.len();
    let n = len / group_size;
    let mut groups: Vec<Vec<usize>> = Vec::new();
    let mut i: usize = 0;
    while i < n
        invariant
            0 < group_size,
            len == bits@.len(),
            n == num_groups(len as int, group_size as int),
            i <= n,
            groups.len() == i,
            forall|t: int|
                0 <= t < i ==> (#[trigger] groups@[t])@ == entropy_support(
                    bits@,
                    group_size as int,
                    t,
                ),
        decreases n - i,
    {
        proof {
            lemma_group_in_bounds(len as int, group_size as int, i as int);
        }
        let start = i * group_size;
        let end = start + group_size;
        let members = positive_positions(bits, start, end);
        assert(Seq::new((end - start) as nat, |k: int| (start + k) as usize) =~= group_positions(
            group_size as int,
            i as int,
        ));
        groups.push(members);
        i = i + 1;
    }
    Ok(groups)
}

} // verus!
