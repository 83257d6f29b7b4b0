//! Identifier sets: a search answers with identifiers in no particular order,
//! and the compressor wants them ascending, each once.

use crate::ranges::strictly_increasing;
use vstd::prelude::*;
use vstd::seq_lib::to_multiset_contains;

verus! {

/// Whether `sorted` holds exactly the values of `ids`, each once, ascending.
pub open spec fn ascends_over(sorted: Seq<u32>, ids: Seq<u32>) -> bool {
    &&& strictly_increasing(sorted)
    &&& forall|v: u32| sorted.contains(v) <==> ids.contains(v)
}

/// The values of `ids`, each once, in ascending order.
pub open spec fn ascending(ids: Seq<u32>) -> Seq<u32> {
    choose|sorted: Seq<u32>| ascends_over(sorted, ids)
}

/// Two strictly increasing sequences that hold the same values are equal.
pub proof fn lemma_increasing_unique(a: Seq<u32>, b: Seq<u32>)
    requires
        strictly_increasing(a),
        strictly_increasing(b),
        forall|v: u32| a.contains(v) <==> b.contains(v),
    ensures
        a == b,
    decreases a.len(),
{
    if a.len() == 0 {
        if b.len() > 0 {
            assert(b.contains(b[0]));
            assert(a.contains(b[0]));
        }
        assert(a =~= b);
    } else {
        assert(a.contains(a.last()));
        assert(b.contains(a.last()));
        assert(b.len() > 0);
        assert(b.contains(b.last()));
        assert(a.contains(b.last()));
        assert(a.last() == b.last());
        let a0 = a.drop_last();
        let b0 = b.drop_last();
        assert forall|v: u32| a0.contains(v) <==> b0.contains(v) by {
            if a0.contains(v) {
                let i = choose|i: int| 0 <= i < a0.len() && a0[i] == v;
                assert(a[i] == v);
                assert(a.contains(v));
                let j = choose|j: int| 0 <= j < b.len() && b[j] == v;
                assert(b0[j] == v);
            }
            if b0.contains(v) {
                let j = choose|j: int| 0 <= j < b0.len() && b0[j] == v;
                assert(b[j] == v);
                assert(b.contains(v));
                let i = choose|i: int| 0 <= i < a.len() && a[i] == v;
                assert(a0[i] == v);
            }
        }
        lemma_increasing_unique(a0, b0);
        assert(a =~= a0.push(a.last()));
        assert(b =~= b0.push(b.last()));
    }
}

/// A sequence that holds the values of `ids`, each once, ascending, is
/// `ascending(ids)`: there is no other.
pub proof fn lemma_ascending_is(sorted: Seq<u32>, ids: Seq<u32>)
    requires
        ascends_over(sorted, ids),
    ensures
        sorted == ascending(ids),
{
    lemma_increasing_unique(sorted, ascending(ids));
}

/// `sorted` with `x` put in at its place, unless it is there already.
spec fn with_value(sorted: Seq<u32>, x: u32) -> Seq<u32>
    decreases sorted.len(),
{
    if sorted.len() == 0 || sorted.last() < x {
        sorted.push(x)
    } else if sorted.last() == x {
        sorted
    } else {
        with_value(sorted.drop_last(), x).push(sorted.last())
    }
}

proof fn lemma_with_value(sorted: Seq<u32>, x: u32)
    requires
        strictly_increasing(sorted),
    ensures
        strictly_increasing(with_value(sorted, x)),
        forall|v: u32|
            #![trigger with_value(sorted, x).contains(v)]
            #![trigger sorted.contains(v)]
            with_value(sorted, x).contains(v) <==> sorted.contains(v) || v == x,
        with_value(sorted, x).len() <= sorted.len() + 1,
    decreases sorted.len(),
{
    let out = with_value(sorted, x);
    if sorted.len() == 0 || sorted.last() < x {
        assert(out[sorted.len() as int] == x);
        assert forall|v: u32| out.contains(v) implies sorted.contains(v) || v == x by {
            let k = choose|k: int| 0 <= k < out.len() && out[k] == v;
            if k < sorted.len() {
                assert(sorted[k] == v);
            }
        }
        assert forall|v: u32| sorted.contains(v) implies out.contains(v) by {
            let k = choose|k: int| 0 <= k < sorted.len() && sorted[k] == v;
            assert(out[k] == v);
        }
    } else if sorted.last() == x {
        assert(sorted[sorted.len() - 1] == x);
    } else {
        let init = sorted.drop_last();
        let top = sorted.last();
        let low = with_value(init, x);
        lemma_with_value(init, x);
        assert forall|i: int| 0 <= i < low.len() implies low[i] < top by {
            assert(low.contains(low[i]));
            if init.contains(low[i]) {
                let k = choose|k: int| 0 <= k < init.len() && init[k] == low[i];
                assert(sorted[k] == low[i]);
            }
        }
        assert(out[low.len() as int] == top);
        assert forall|v: u32| out.contains(v) implies sorted.contains(v) || v == x by {
            let k = choose|k: int| 0 <= k < out.len() && out[k] == v;
            if k < low.len() {
                assert(low[k] == v);
                assert(low.contains(v));
                if init.contains(v) {
                    let m = choose|m: int| 0 <= m < init.len() && init[m] == v;
                    assert(sorted[m] == v);
                }
            } else {
                assert(sorted[sorted.len() - 1] == v);
            }
        }
        assert forall|v: u32| sorted.contains(v) || v == x implies out.contains(v) by {
            if sorted.contains(v) && v != top {
                let m = choose|m: int| 0 <= m < sorted.len() && sorted[m] == v;
                assert(init[m] == v);
                assert(init.contains(v));
            }
            if v != top {
                assert(low.contains(v));
                let k = choose|k: int| 0 <= k < low.len() && low[k] == v;
                assert(out[k] == v);
            }
        }
    }
}

/// Every sequence has its ascending sequence: `ascending(ids)` holds exactly
/// the values of `ids`, each once, ascending. It is no longer than `ids`.
pub proof fn lemma_ascending_exists(ids: Seq<u32>)
    ensures
        ascends_over(ascending(ids), ids),
        ascending(ids).len() <= ids.len(),
    decreases ids.len(),
{
    if ids.len() == 0 {
        let none = Seq::<u32>::empty();
        assert(ascends_over(none, ids));
        lemma_ascending_is(none, ids);
    } else {
        let init = ids.drop_last();
        lemma_ascending_exists(init);
        lemma_with_value(ascending(init), ids.last());
        let sorted = with_value(ascending(init), ids.last());
        assert forall|v: u32| sorted.contains(v) <==> ids.contains(v) by {
            if ids.contains(v) && v != ids.last() {
                let k = choose|k: int| 0 <= k < ids.len() && ids[k] == v;
                assert(init[k] == v);
                assert(init.contains(v));
            }
            if init.contains(v) {
                let k = choose|k: int| 0 <= k < init.len() && init[k] == v;
                assert(ids[k] == v);
            }
            if v == ids.last() {
                assert(ids[ids.len() - 1] == v);
            }
        }
        assert(ascends_over(sorted, ids));
        lemma_ascending_is(sorted, ids);
    }
}

/// The order of `ids`, and how often a value occurs in it, do not matter:
/// sequences that hold the same values have the same ascending sequence.
pub proof fn lemma_ascending_of_same_values(a: Seq<u32>, b: Seq<u32>)
    requires
        forall|v: u32| a.contains(v) <==> b.contains(v),
    ensures
        ascending(a) == ascending(b),
{
    lemma_ascending_exists(a);
    let sorted = ascending(a);
    assert(ascends_over(sorted, b));
    lemma_ascending_is(sorted, b);
}

/// `slice::sort` of std on the vector's elements: afterwards the vector holds
/// the elements it held before, each as often as before, in ascending order.
#[verifier::external_body]
fn sort_in_place(ids: &mut Vec<u32>)
    ensures
        final(ids)@.to_multiset() == old(ids)@.to_multiset(),
        forall|i: int, j: int| 0 <= i <= j < final(ids)@.len() ==> final(ids)@[i] <= final(ids)@[j],
{
    ids.sort();
}

/// Sorts `ids` ascending and drops repeated values.
pub fn sort_unique(ids: Vec<u32>) -> (out: Vec<u32>)
    ensures
        ascends_over(out@, ids@),
        out@ == ascending(ids@),
{
    let mut sorted: Vec<u32> = ids;
    sort_in_place(&mut sorted);
    proof {
        assert forall|v: u32| sorted@.contains(v) <==> ids@.contains(v) by {
            to_multiset_contains(sorted@, v);
            to_multiset_contains(ids@, v);
        }
    }
    let n: usize = sorted.len();
    let mut out: Vec<u32> = Vec::new();
    let mut i: usize = 0;
    while i < n
        invariant
            n == sorted@.len(),
            0 <= i <= n,
            forall|a: int, b: int| 0 <= a <= b < n ==> sorted@[a] <= sorted@[b],
            strictly_increasing(out@),
            i == 0 ==> out@.len() == 0,
            i > 0 ==> out@.len() > 0 && out@.last() == sorted@[i - 1],
            forall|v: u32| out@.contains(v) <==> sorted@.take(i as int).contains(v),
        decreases n - i,
    {
        let current: u32 = sorted[i];
        let ghost kept = out@;
        let ghost seen = sorted@.take(i as int);
        let ghost next = sorted@.take(i + 1);
        proof {
            assert(next =~= seen.push(current));
        }
        if i == 0 || current != sorted[i - 1] {
            out.push(current);
            proof {
                assert forall|v: u32| out@.contains(v) <==> next.contains(v) by {
                    if out@.contains(v) {
                        let k = choose|k: int| 0 <= k < out@.len() && out@[k] == v;
                        if k < kept.len() {
                            assert(kept[k] == v);
                            assert(kept.contains(v));
                            let m = choose|m: int| 0 <= m < seen.len() && seen[m] == v;
                            assert(next[m] == v);
                        } else {
                            assert(next[i as int] == v);
                        }
                    }
                    if next.contains(v) {
                        let m = choose|m: int| 0 <= m < next.len() && next[m] == v;
                        if m < i {
                            assert(seen[m] == v);
                            assert(seen.contains(v));
                            assert(kept.contains(v));
                            let k = choose|k: int| 0 <= k < kept.len() && kept[k] == v;
                            assert(out@[k] == v);
                        } else {
                            assert(out@[kept.len() as int] == v);
                        }
                    }
                }
            }
        } else {
            proof {
                assert forall|v: u32| out@.contains(v) <==> next.contains(v) by {
                    if out@.contains(v) {
                        let m = choose|m: int| 0 <= m < seen.len() && seen[m] == v;
                        assert(next[m] == v);
                    }
                    if next.contains(v) {
                        let m = choose|m: int| 0 <= m < next.len() && next[m] == v;
                        if m < i {
                            assert(seen[m] == v);
                            assert(seen.contains(v));
                        } else {
                            assert(out@[out@.len() - 1] == v);
                        }
                    }
                }
            }
        }
        i = i + 1;
    }
    proof {
        assert(sorted@.take(n as int) =~= sorted@);
        lemma_ascending_is(out@, ids@);
    }
    out
}

} // verus!
