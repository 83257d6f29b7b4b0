//! The range compressor: turns a sequence of message identifiers into the
//! closed intervals of its runs of consecutive values.

use std::ops::RangeInclusive;
use vstd::prelude::*;
use vstd::relations::injective_on;
use vstd::set_lib::{lemma_int_range, lemma_len_subset, lemma_map_size, set_int_range};

verus! {

/// Whether each element of `ids` is strictly greater than the one before it,
/// that is, whether `ids` is sorted ascending and holds no value twice.
pub open spec fn strictly_increasing(ids: Seq<u32>) -> bool {
    forall|i: int, j: int| 0 <= i < j < ids.len() ==> ids[i] < ids[j]
}

/// Whether a run starts at position `i` of `ids`: `i` is the first position,
/// or the value there is not the value before it plus one.
pub open spec fn opens_run(ids: Seq<u32>, i: int) -> bool {
    i == 0 || ids[i] != ids[i - 1] + 1
}

/// The runs of `ids`, in order, each as the pair of its first and its last
/// value. A run is a stretch of `ids`, as long as can be, in which every value
/// but the first is the value before it plus one.
pub open spec fn runs(ids: Seq<u32>) -> Seq<(int, int)>
    decreases ids.len(),
{
    if ids.len() == 0 {
        Seq::empty()
    } else if opens_run(ids, ids.len() - 1) {
        runs(ids.drop_last()).push((ids.last() as int, ids.last() as int))
    } else {
        let before = runs(ids.drop_last());
        before.drop_last().push((before.last().0, ids.last() as int))
    }
}

/// The two ends of a range, as a pair.
pub open spec fn span(range: RangeInclusive<u32>) -> (int, int) {
    (range@.start as int, range@.end as int)
}

/// The two ends of each range of `ranges`.
pub open spec fn spans(ranges: Seq<RangeInclusive<u32>>) -> Seq<(int, int)> {
    ranges.map_values(|r: RangeInclusive<u32>| span(r))
}

/// Whether `v` is a value of `ids`.
pub open spec fn occurs(ids: Seq<u32>, v: int) -> bool {
    exists|i: int| 0 <= i < ids.len() && ids[i] == v
}

/// Whether some pair of `pairs` has `v` between its two ends.
pub open spec fn covers(pairs: Seq<(int, int)>, v: int) -> bool {
    exists|k: int| 0 <= k < pairs.len() && in_pair(pairs, k, v)
}

/// Whether `v` lies between the two ends of pair `k` of `pairs`.
pub open spec fn in_pair(pairs: Seq<(int, int)>, k: int, v: int) -> bool {
    pairs[k].0 <= v <= pairs[k].1
}

/// Whether every pair begins no later than it ends, and a later pair begins
/// beyond the successor of the end of an earlier one: the pairs ascend, and
/// between two neighbours at least one value is left out.
pub open spec fn apart(pairs: Seq<(int, int)>) -> bool {
    &&& forall|k: int| 0 <= k < pairs.len() ==> (#[trigger] pairs[k]).0 <= pairs[k].1
    &&& forall|j: int, k: int|
        0 <= j < k < pairs.len() ==> (#[trigger] pairs[j]).1 + 1 < (#[trigger] pairs[k]).0
}

/// How many values the pairs of `pairs` hold between their ends, all together.
pub open spec fn total_size(pairs: Seq<(int, int)>) -> int
    decreases pairs.len(),
{
    if pairs.len() == 0 {
        0
    } else {
        total_size(pairs.drop_last()) + (pairs.last().1 - pairs.last().0 + 1)
    }
}

/// Every run begins no later than it ends, both ends are values of a `u32`,
/// there are no more runs than values, and the last run ends with the last
/// value.
pub proof fn lemma_runs_shape(ids: Seq<u32>)
    ensures
        runs(ids).len() <= ids.len(),
        ids.len() > 0 ==> runs(ids).len() > 0 && runs(ids).last().1 == ids.last(),
        forall|k: int|
            0 <= k < runs(ids).len() ==> 0 <= (#[trigger] runs(ids)[k]).0 <= runs(ids)[k].1
                <= u32::MAX,
    decreases ids.len(),
{
    if ids.len() > 0 {
        lemma_runs_shape(ids.drop_last());
    }
}

/// An empty sequence has no runs.
pub proof fn lemma_runs_of_empty(ids: Seq<u32>)
    requires
        ids.len() == 0,
    ensures
        runs(ids) == Seq::<(int, int)>::empty(),
{
}

/// A single value `v` has the one run from `v` to `v`.
pub proof fn lemma_runs_of_single(v: u32)
    ensures
        runs(seq![v]) == seq![(v as int, v as int)],
{
    let ids = seq![v];
    assert(runs(ids.drop_last()) =~= Seq::<(int, int)>::empty());
    assert(runs(ids) =~= seq![(v as int, v as int)]);
}

/// The runs hold exactly the values of the sequence: a value lies in some run
/// if and only if it occurs in `ids`.
pub proof fn lemma_runs_cover(ids: Seq<u32>, v: int)
    ensures
        covers(runs(ids), v) <==> occurs(ids, v),
    decreases ids.len(),
{
    if ids.len() > 0 {
        let init = ids.drop_last();
        let last = ids.len() - 1;
        let all = runs(ids);
        let before = runs(init);
        lemma_runs_cover(init, v);
        lemma_runs_shape(init);
        lemma_runs_shape(ids);
        if covers(all, v) {
            let k = choose|k: int| 0 <= k < all.len() && in_pair(all, k, v);
            if k < all.len() - 1 {
                assert(in_pair(before, k, v));
                let i = choose|i: int| 0 <= i < init.len() && init[i] == v;
                assert(ids[i] == v);
            } else if opens_run(ids, last) {
                assert(ids[last] == v);
            } else if v == ids[last] {
            } else {
                assert(in_pair(before, before.len() - 1, v));
                let i = choose|i: int| 0 <= i < init.len() && init[i] == v;
                assert(ids[i] == v);
            }
        }
        if occurs(ids, v) {
            let i = choose|i: int| 0 <= i < ids.len() && ids[i] == v;
            if i == last {
                assert(in_pair(all, all.len() - 1, v));
            } else {
                assert(init[i] == v);
                let k = choose|k: int| 0 <= k < before.len() && in_pair(before, k, v);
                if k < before.len() - 1 || opens_run(ids, last) {
                    assert(in_pair(all, k, v));
                } else {
                    assert(in_pair(all, all.len() - 1, v));
                }
            }
        }
    }
}

/// In a strictly increasing sequence a run begins beyond the successor of
/// the end of the run before it.
proof fn lemma_runs_neighbours(ids: Seq<u32>, k: int)
    requires
        strictly_increasing(ids),
        0 <= k < runs(ids).len() - 1,
    ensures
        runs(ids)[k].1 + 1 < runs(ids)[k + 1].0,
    decreases ids.len(),
{
    lemma_runs_shape(ids);
    if ids.len() > 1 {
        let init = ids.drop_last();
        let before = runs(init);
        assert(strictly_increasing(init));
        lemma_runs_shape(init);
        assert(init.last() < ids.last());
        if k < before.len() - 1 {
            lemma_runs_neighbours(init, k);
        }
    }
}

/// In a strictly increasing sequence an earlier run ends before a later one
/// begins, with at least one value left out between them.
pub proof fn lemma_runs_ascend(ids: Seq<u32>, j: int, k: int)
    requires
        strictly_increasing(ids),
        0 <= j < k < runs(ids).len(),
    ensures
        runs(ids)[j].1 + 1 < runs(ids)[k].0,
    decreases k - j,
{
    lemma_runs_neighbours(ids, k - 1);
    if j + 1 < k {
        lemma_runs_shape(ids);
        lemma_runs_ascend(ids, j, k - 1);
        assert(runs(ids)[k - 1].0 <= runs(ids)[k - 1].1);
    }
}

/// The runs of a strictly increasing sequence come in ascending order, and
/// between two neighbours at least one value is left out: a later run
/// begins beyond the successor of the end of an earlier one.
pub proof fn lemma_runs_apart(ids: Seq<u32>)
    requires
        strictly_increasing(ids),
    ensures
        apart(runs(ids)),
        forall|j: int, k: int|
            0 <= j < k < runs(ids).len() ==> (#[trigger] runs(ids)[j]).0 < (#[trigger] runs(
                ids,
            )[k]).0,
{
    let all = runs(ids);
    lemma_runs_shape(ids);
    assert forall|j: int, k: int| 0 <= j < k < all.len() implies (#[trigger] all[j]).1 + 1 < (
    #[trigger] all[k]).0 by {
        lemma_runs_ascend(ids, j, k);
    }
}

/// The runs of a strictly increasing sequence partition its values: a value
/// lies in some run if and only if it occurs in the sequence, and no value
/// lies in two runs.
pub proof fn lemma_runs_partition(ids: Seq<u32>)
    requires
        strictly_increasing(ids),
    ensures
        forall|v: int| #[trigger] covers(runs(ids), v) <==> occurs(ids, v),
        forall|j: int, k: int, v: int|
            0 <= j < k < runs(ids).len() && #[trigger] in_pair(runs(ids), j, v) ==> !#[trigger] in_pair(
                runs(ids),
                k,
                v,
            ),
{
    assert forall|v: int| #[trigger] covers(runs(ids), v) <==> occurs(ids, v) by {
        lemma_runs_cover(ids, v);
    }
    assert forall|j: int, k: int, v: int|
        0 <= j < k < runs(ids).len() && #[trigger] in_pair(
            runs(ids),
            j,
            v,
        ) implies !#[trigger] in_pair(runs(ids), k, v) by {
        lemma_runs_ascend(ids, j, k);
    }
}

/// The runs hold as many values as the sequence has elements.
pub proof fn lemma_runs_total_size(ids: Seq<u32>)
    ensures
        total_size(runs(ids)) == ids.len(),
    decreases ids.len(),
{
    if ids.len() > 0 {
        let init = ids.drop_last();
        let before = runs(init);
        let x = ids.last() as int;
        lemma_runs_total_size(init);
        lemma_runs_shape(init);
        if opens_run(ids, ids.len() - 1) {
            assert(before.push((x, x)).drop_last() =~= before);
        } else {
            assert(before.drop_last().push((before.last().0, x)).drop_last() =~= before.drop_last());
        }
    }
}

/// A pair of `other` that holds the first value of run `k` of `ids`.
spec fn holder(ids: Seq<u32>, other: Seq<(int, int)>, k: int) -> int {
    choose|m: int| 0 <= m < other.len() && in_pair(other, m, runs(ids)[k].0)
}

/// Pairs that hold values of `ids` alone do not reach from one run into
/// another: between two runs lies a value that `ids` lacks.
proof fn lemma_pair_stays_in_run(ids: Seq<u32>, other: Seq<(int, int)>, j: int, k: int, m: int)
    requires
        strictly_increasing(ids),
        forall|v: int| #[trigger] covers(other, v) ==> occurs(ids, v),
        0 <= j < k < runs(ids).len(),
        0 <= m < other.len(),
        in_pair(other, m, runs(ids)[j].0),
    ensures
        !in_pair(other, m, runs(ids)[k].0),
{
    let all = runs(ids);
    let gap = all[j].1 + 1;
    lemma_runs_shape(ids);
    lemma_runs_ascend(ids, j, k);
    if in_pair(other, m, all[k].0) {
        assert(in_pair(other, m, gap));
        assert(covers(other, gap));
        lemma_runs_cover(ids, gap);
        let t = choose|t: int| 0 <= t < all.len() && in_pair(all, t, gap);
        if t < j {
            lemma_runs_ascend(ids, t, j);
        } else if t > j {
            lemma_runs_ascend(ids, j, t);
        }
    }
}

/// No fewer ranges will do: pairs that hold exactly the values of a strictly
/// increasing sequence, in whatever order, are at least as many as its runs.
pub proof fn lemma_runs_fewest(ids: Seq<u32>, other: Seq<(int, int)>)
    requires
        strictly_increasing(ids),
        forall|v: int| #[trigger] covers(other, v) <==> occurs(ids, v),
    ensures
        runs(ids).len() <= other.len(),
{
    let all = runs(ids);
    let n = all.len() as int;
    let m = other.len() as int;
    let f = |k: int| holder(ids, other, k);
    let from = set_int_range(0, n);
    let into = set_int_range(0, m);
    let image = from.map(f);
    lemma_int_range(0, n);
    lemma_int_range(0, m);
    lemma_runs_shape(ids);
    assert forall|k: int| 0 <= k < n implies 0 <= #[trigger] f(k) < m && in_pair(
        other,
        f(k),
        all[k].0,
    ) by {
        assert(in_pair(all, k, all[k].0));
        assert(covers(all, all[k].0));
        lemma_runs_cover(ids, all[k].0);
        assert(covers(other, all[k].0));
    }
    assert(injective_on(f, from)) by {
        assert forall|j: int, k: int|
            from.contains(j) && from.contains(k) && #[trigger] f(j) == #[trigger] f(
                k,
            ) implies j == k by {
            if j < k {
                lemma_pair_stays_in_run(ids, other, j, k, f(j));
            } else if k < j {
                lemma_pair_stays_in_run(ids, other, k, j, f(j));
            }
        }
    }
    lemma_map_size(from, image, f);
    assert(image.subset_of(into)) by {
        assert forall|y: int| image.contains(y) implies into.contains(y) by {
            let k = choose|k: int| from.contains(k) && y == f(k);
            assert(0 <= f(k) < m);
        }
    }
    lemma_len_subset(image, into);
}

/// Two neighbours of a strictly increasing sequence lie in the same run if
/// and only if the later is the successor of the earlier: consecutive values
/// are merged, and every gap starts a new run.
pub proof fn lemma_runs_split_at_gaps(ids: Seq<u32>, i: int, k: int)
    requires
        strictly_increasing(ids),
        0 <= i < ids.len() - 1,
        0 <= k < runs(ids).len(),
        in_pair(runs(ids), k, ids[i] as int),
    ensures
        in_pair(runs(ids), k, ids[i + 1] as int) <==> ids[i + 1] == ids[i] + 1,
{
    let all = runs(ids);
    let here = ids[i] as int;
    let next = ids[i + 1] as int;
    lemma_runs_shape(ids);
    if next == here + 1 {
        assert(occurs(ids, next));
        lemma_runs_cover(ids, next);
        let t = choose|t: int| 0 <= t < all.len() && in_pair(all, t, next);
        if t < k {
            lemma_runs_ascend(ids, t, k);
        } else if t > k {
            lemma_runs_ascend(ids, k, t);
        }
    } else if in_pair(all, k, next) {
        let between = here + 1;
        assert(in_pair(all, k, between));
        assert(covers(all, between));
        lemma_runs_cover(ids, between);
        let m = choose|m: int| 0 <= m < ids.len() && ids[m] == between;
        if m < i {
            assert(ids[m] < ids[i]);
        } else if m > i + 1 {
            assert(ids[i + 1] < ids[m]);
        }
    }
}

proof fn lemma_occurs_before_last(ids: Seq<u32>, v: int)
    requires
        strictly_increasing(ids),
        ids.len() > 0,
    ensures
        occurs(ids, v) <==> occurs(ids.drop_last(), v) || v == ids.last(),
        occurs(ids.drop_last(), v) ==> v < ids.last(),
{
    let init = ids.drop_last();
    if occurs(ids, v) && v != ids.last() {
        let i = choose|i: int| 0 <= i < ids.len() && ids[i] == v;
        assert(init[i] == v);
    }
    if occurs(init, v) {
        let i = choose|i: int| 0 <= i < init.len() && init[i] == v;
        assert(ids[i] == v);
    }
    if v == ids.last() {
        assert(ids[ids.len() - 1] == v);
    }
}

/// `pairs` without the largest value that it holds: the last pair ends one
/// value earlier, or is left out if it held that value alone.
spec fn without_top(pairs: Seq<(int, int)>) -> Seq<(int, int)> {
    if pairs.last().0 == pairs.last().1 {
        pairs.drop_last()
    } else {
        pairs.drop_last().push((pairs.last().0, pairs.last().1 - 1))
    }
}

/// Pairs that are apart and hold exactly the values of a strictly increasing
/// sequence end with its last value.
proof fn lemma_last_pair_ends_with_last_value(ids: Seq<u32>, other: Seq<(int, int)>)
    requires
        strictly_increasing(ids),
        ids.len() > 0,
        apart(other),
        forall|v: int| #[trigger] covers(other, v) <==> occurs(ids, v),
    ensures
        other.len() > 0,
        other.last().1 == ids.last(),
{
    let x = ids.last() as int;
    assert(occurs(ids, x)) by {
        assert(ids[ids.len() - 1] == x);
    }
    assert(covers(other, x));
    let t = choose|t: int| 0 <= t < other.len() && in_pair(other, t, x);
    let top = other.len() - 1;
    let b = other[top].1;
    assert(in_pair(other, top, b));
    assert(covers(other, b));
    lemma_occurs_before_last(ids, b);
    if t < top {
        assert(other[t].1 + 1 < other[top].0);
    }
}

/// Without their largest value, pairs that are apart are still apart.
proof fn lemma_without_top_apart(other: Seq<(int, int)>)
    requires
        apart(other),
        other.len() > 0,
    ensures
        apart(without_top(other)),
{
    let shorter = without_top(other);
    assert forall|k: int| 0 <= k < shorter.len() implies (#[trigger] shorter[k]).0
        <= shorter[k].1 by {
        if k < other.len() - 1 {
            assert(shorter[k] == other[k]);
        }
    }
    assert forall|j: int, k: int| 0 <= j < k < shorter.len() implies (#[trigger] shorter[j]).1
        + 1 < (#[trigger] shorter[k]).0 by {
        assert(shorter[j] == other[j]);
        assert(shorter[k].0 == other[k].0);
    }
}

/// Without their largest value, pairs that hold exactly the values of a
/// strictly increasing sequence hold exactly its values but the last.
proof fn lemma_without_top_covers(ids: Seq<u32>, other: Seq<(int, int)>, v: int)
    requires
        strictly_increasing(ids),
        ids.len() > 0,
        apart(other),
        other.len() > 0,
        other.last().1 == ids.last(),
        forall|w: int| #[trigger] covers(other, w) <==> occurs(ids, w),
    ensures
        covers(without_top(other), v) <==> occurs(ids.drop_last(), v),
{
    let shorter = without_top(other);
    let top = other.len() - 1;
    lemma_occurs_before_last(ids, v);
    if covers(shorter, v) {
        let k = choose|k: int| 0 <= k < shorter.len() && in_pair(shorter, k, v);
        if k < top {
            assert(in_pair(other, k, v));
            assert(other[k].1 + 1 < other[top].0);
        } else {
            assert(in_pair(other, top, v));
        }
        assert(covers(other, v));
    }
    if occurs(ids.drop_last(), v) {
        assert(covers(other, v));
        let k = choose|k: int| 0 <= k < other.len() && in_pair(other, k, v);
        assert(in_pair(shorter, k, v));
    }
}

/// Where the last pair holds the last value alone, the value before it is
/// not its predecessor.
proof fn lemma_lone_top_opens_run(ids: Seq<u32>, other: Seq<(int, int)>)
    requires
        strictly_increasing(ids),
        ids.len() > 0,
        apart(other),
        other.len() > 0,
        other.last() == (ids.last() as int, ids.last() as int),
        forall|w: int| #[trigger] covers(other, w) <==> occurs(ids, w),
    ensures
        opens_run(ids, ids.len() - 1),
{
    if ids.len() > 1 {
        let top = other.len() - 1;
        let y = ids[ids.len() - 2] as int;
        assert(occurs(ids, y)) by {
            assert(ids[ids.len() - 2] == y);
        }
        assert(covers(other, y));
        let k = choose|k: int| 0 <= k < other.len() && in_pair(other, k, y);
        assert(ids[ids.len() - 2] < ids[ids.len() - 1]);
        if k < top {
            assert(other[k].1 + 1 < other[top].0);
        }
    }
}

/// Where the last pair holds more than the last value, the value before the
/// last is its predecessor.
proof fn lemma_wide_top_extends_run(ids: Seq<u32>, other: Seq<(int, int)>)
    requires
        strictly_increasing(ids),
        ids.len() > 0,
        other.len() > 0,
        other.last().0 < other.last().1,
        other.last().1 == ids.last(),
        forall|w: int| #[trigger] covers(other, w) <==> occurs(ids, w),
    ensures
        !opens_run(ids, ids.len() - 1),
{
    let x = ids.last() as int;
    assert(in_pair(other, other.len() - 1, x - 1));
    assert(covers(other, x - 1));
    let m = choose|m: int| 0 <= m < ids.len() && ids[m] == x - 1;
    if m < ids.len() - 2 {
        assert(ids[m] < ids[ids.len() - 2]);
        assert(ids[ids.len() - 2] < ids[ids.len() - 1]);
    }
}

/// The runs are the only pairs that are apart and hold exactly the values of
/// a strictly increasing sequence.
pub proof fn lemma_runs_only(ids: Seq<u32>, other: Seq<(int, int)>)
    requires
        strictly_increasing(ids),
        apart(other),
        forall|v: int| #[trigger] covers(other, v) <==> occurs(ids, v),
    ensures
        other == runs(ids),
    decreases ids.len(),
{
    if ids.len() == 0 {
        if other.len() > 0 {
            assert(in_pair(other, 0, other[0].0));
            assert(covers(other, other[0].0));
        }
        assert(other =~= runs(ids));
    } else {
        let init = ids.drop_last();
        let shorter = without_top(other);
        assert(strictly_increasing(init));
        lemma_last_pair_ends_with_last_value(ids, other);
        lemma_without_top_apart(other);
        assert forall|v: int| #[trigger] covers(shorter, v) <==> occurs(init, v) by {
            lemma_without_top_covers(ids, other, v);
        }
        lemma_runs_only(init, shorter);
        if other.last().0 == other.last().1 {
            lemma_lone_top_opens_run(ids, other);
            assert(other =~= shorter.push(other.last()));
        } else {
            assert(other.last().0 < other.last().1);
            lemma_wide_top_extends_run(ids, other);
            assert(shorter.drop_last() =~= other.drop_last());
            assert(other =~= other.drop_last().push(other.last()));
        }
    }
}

/// Compresses `uids` into the ranges of its runs.
///
/// Meant for identifiers sorted ascending without repetition. Of such, the
/// ranges hold exactly the values of `uids`, they ascend, and between two
/// neighbours a value is left out; no other ranges do so, and none fewer
/// hold the same values. On any other input a range still ends wherever the
/// next value is not the successor of the one before.
pub fn ranges(uids: &[u32]) -> (out: Vec<RangeInclusive<u32>>)
    ensures
        spans(out@) == runs(uids@),
        forall|k: int| 0 <= k < out@.len() ==> !(#[trigger] out@[k])@.exhausted,
        strictly_increasing(uids@) ==> apart(spans(out@)),
        forall|v: int| #[trigger] covers(spans(out@), v) <==> occurs(uids@, v),
{
    proof {
        if strictly_increasing(uids@) {
            lemma_runs_apart(uids@);
        }
        assert forall|v: int| #[trigger] covers(runs(uids@), v) <==> occurs(uids@, v) by {
            lemma_runs_cover(uids@, v);
        }
    }
    let mut out: Vec<RangeInclusive<u32>> = Vec::new();
    let n: usize = uids.len();
    if n == 0 {
        assert(spans(out@) =~= runs(uids@));
        return out;
    }
    let mut start: u32 = uids[0];
    let mut previous: u32 = uids[0];
    let mut i: usize = 1;
    proof {
        assert(uids@.take(1).drop_last() =~= Seq::<u32>::empty());
        assert(runs(uids@.take(1).drop_last()) =~= Seq::<(int, int)>::empty());
        assert(runs(uids@.take(1)) =~= spans(out@).push((start as int, previous as int)));
    }
    while i < n
        invariant
            n == uids@.len(),
            1 <= i <= n,
            previous == uids@[i - 1],
            runs(uids@.take(i as int)) == spans(out@).push((start as int, previous as int)),
            forall|k: int| 0 <= k < out@.len() ==> !(#[trigger] out@[k])@.exhausted,
        decreases n - i,
    {
        let current: u32 = uids[i];
        let ghost seen = uids@.take(i as int);
        let ghost next = uids@.take(i + 1);
        let ghost closed = spans(out@);
        proof {
            assert(next.drop_last() =~= seen);
            assert(next.last() == current);
            assert(next[next.len() - 2] == previous);
        }
        if previous == u32::MAX || current != previous + 1 {
            out.push(RangeInclusive::new(start, previous));
            proof {
                assert(spans(out@) =~= closed.push((start as int, previous as int)));
            }
            start = current;
        } else {
            proof {
                assert(closed.push((start as int, previous as int)).drop_last() =~= closed);
            }
        }
        previous = current;
        i = i + 1;
    }
    proof {
        assert(uids@.take(n as int) =~= uids@);
    }
    let ghost closed = spans(out@);
    out.push(RangeInclusive::new(start, previous));
    proof {
        assert(spans(out@) =~= closed.push((start as int, previous as int)));
    }
    out
}

} // verus!
