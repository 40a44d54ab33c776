//! Places ranked by weight: the heaviest first, and of two of one weight
//! the one that stands first.

use vstd::prelude::*;

verus! {

/// The smaller of two numbers.
pub open spec fn smaller(a: nat, b: nat) -> nat {
    if a <= b {
        a
    } else {
        b
    }
}

/// Whether the place `i` is ranked ahead of the place `j`. A place without
/// a weight is not ranked at all.
pub open spec fn ahead(weights: Seq<Option<u64>>, i: int, j: int) -> bool {
    match (weights[i], weights[j]) {
        (Some(one), Some(other)) => one > other || (one == other && i < j),
        _ => false,
    }
}

/// How many of the first `n` places have a weight.
pub open spec fn ranked_below(weights: Seq<Option<u64>>, n: int) -> nat
    decreases n,
{
    if n <= 0 {
        0
    } else if weights[n - 1] is Some {
        ranked_below(weights, n - 1) + 1
    } else {
        ranked_below(weights, n - 1)
    }
}

/// `picks` are places below `seen` that have a weight, each ahead of the
/// ones behind it, and each ahead of every weighted place below `seen` that
/// is not picked.
pub open spec fn leading(weights: Seq<Option<u64>>, seen: int, picks: Seq<int>) -> bool {
    &&& forall|k: int|
        0 <= k < picks.len() ==> 0 <= #[trigger] picks[k] < seen && weights[picks[k]] is Some
    &&& forall|k: int, l: int|
        0 <= k < l < picks.len() ==> ahead(weights, #[trigger] picks[k], #[trigger] picks[l])
    &&& forall|k: int, j: int|
        0 <= k < picks.len() && 0 <= j < seen && (#[trigger] weights[j]) is Some
            && !picks.contains(j) ==> ahead(weights, #[trigger] picks[k], j)
}

/// `picks` are the `limit` first places by rank, or all weighted places
/// where they are fewer, from the first in rank on.
pub open spec fn top_ranked(weights: Seq<Option<u64>>, limit: nat, picks: Seq<int>) -> bool {
    &&& leading(weights, weights.len() as int, picks)
    &&& picks.len() == smaller(limit, ranked_below(weights, weights.len() as int))
}

/// The places held in a vector, as numbers.
pub open spec fn places(top: Seq<usize>) -> Seq<int> {
    top.map_values(|place: usize| place as int)
}

/// The picks among the first `seen` places, while these are gone through:
/// as long as fewer than `limit` are picked, every weighted place is.
spec fn picked_so_far(weights: Seq<Option<u64>>, seen: int, limit: nat, picks: Seq<int>) -> bool {
    &&& leading(weights, seen, picks)
    &&& picks.len() == smaller(limit, ranked_below(weights, seen))
    &&& picks.len() < limit ==> forall|j: int|
        0 <= j < seen && (#[trigger] weights[j]) is Some ==> picks.contains(j)
}

/// A place that is no heavier than any of a full set of picks stays out.
proof fn lemma_leave_out(weights: Seq<Option<u64>>, seen: int, limit: nat, picks: Seq<int>)
    requires
        0 <= seen < weights.len(),
        picked_so_far(weights, seen, limit, picks),
        weights[seen] is Some,
        picks.len() == limit,
        forall|k: int|
            0 <= k < picks.len() ==> weights[#[trigger] picks[k]]->0 >= weights[seen]->0,
    ensures
        picked_so_far(weights, seen + 1, limit, picks),
{
}

/// A place that is heavier than the picks from `at` on goes in before them,
/// and where that makes one pick too many, the last one goes.
proof fn lemma_take_in(
    weights: Seq<Option<u64>>,
    seen: int,
    limit: nat,
    picks: Seq<int>,
    at: int,
) -> (next: Seq<int>)
    requires
        0 <= seen < weights.len(),
        picked_so_far(weights, seen, limit, picks),
        weights[seen] is Some,
        0 <= at <= picks.len(),
        at < limit,
        forall|k: int| 0 <= k < at ==> weights[#[trigger] picks[k]]->0 >= weights[seen]->0,
        forall|k: int|
            at <= k < picks.len() ==> weights[#[trigger] picks[k]]->0 < weights[seen]->0,
    ensures
        next == if picks.len() < limit {
            picks.insert(at, seen)
        } else {
            picks.insert(at, seen).drop_last()
        },
        picked_so_far(weights, seen + 1, limit, next),
{
    let grown = picks.insert(at, seen);
    let next = if picks.len() < limit {
        grown
    } else {
        grown.drop_last()
    };
    // Each pick of `grown` is the new place or an old pick.
    assert forall|k: int| 0 <= k < grown.len() implies (#[trigger] grown[k] == seen && k == at)
        || (k < at && grown[k] == picks[k]) || (k > at && grown[k] == picks[k - 1]) by {}
    // Each old pick still stands in `grown`.
    assert forall|m: int| 0 <= m < picks.len() implies grown[if m < at {
        m
    } else {
        m + 1
    }] == #[trigger] picks[m] by {}
    assert forall|k: int| 0 <= k < next.len() implies 0 <= #[trigger] next[k] < seen + 1
        && weights[next[k]] is Some by {
        assert(next[k] == grown[k]);
    }
    assert forall|k: int, l: int| 0 <= k < l < next.len() implies ahead(
        weights,
        #[trigger] next[k],
        #[trigger] next[l],
    ) by {
        assert(next[k] == grown[k] && next[l] == grown[l]);
        if k < at && l > at {
            assert(ahead(weights, picks[k], picks[l - 1]));
        } else if k > at {
            assert(ahead(weights, picks[k - 1], picks[l - 1]));
        }
    }
    assert(next[at] == seen);
    assert forall|k: int, j: int|
        0 <= k < next.len() && 0 <= j < seen + 1 && (#[trigger] weights[j]) is Some
            && !next.contains(j) implies ahead(weights, #[trigger] next[k], j) by {
        assert(next[k] == grown[k]);
        assert(j != seen);
        if picks.contains(j) {
            // An old pick that is no longer one is the last, which went.
            let m = choose|m: int| 0 <= m < picks.len() && picks[m] == j;
            let held = if m < at {
                m
            } else {
                m + 1
            };
            assert(grown[held] == j);
            if held < next.len() {
                assert(next[held] == j);
            }
            assert(m == picks.len() - 1);
            if k < at {
                assert(ahead(weights, picks[k], picks[m]));
            } else if k > at {
                assert(ahead(weights, picks[k - 1], picks[m]));
            }
        } else {
            assert(ahead(weights, picks[picks.len() - 1], j));
            if k < at {
                assert(ahead(weights, picks[k], j));
            } else if k > at {
                assert(ahead(weights, picks[k - 1], j));
            }
        }
    }
    if next.len() < limit {
        assert forall|j: int| 0 <= j < seen + 1 && (#[trigger] weights[j]) is Some implies next.contains(
            j,
        ) by {
            if j < seen {
                assert(picks.contains(j));
                let m = choose|m: int| 0 <= m < picks.len() && picks[m] == j;
                let held = if m < at {
                    m
                } else {
                    m + 1
                };
                assert(grown[held] == j);
            } else {
                assert(grown[at] == j);
            }
        }
    }
    next
}

/// The `limit` first places by rank, from the first in rank on.
pub fn top_places(weights: &Vec<Option<u64>>, limit: usize) -> (top: Vec<usize>)
    ensures
        top_ranked(weights@, limit as nat, places(top@)),
{
    let mut top: Vec<usize> = Vec::new();
    let mut seen: usize = 0;
    while seen < weights.len()
        invariant
            seen <= weights.len(),
            picked_so_far(weights@, seen as int, limit as nat, places(top@)),
        decreases weights.len() - seen,
    {
        let ghost picks = places(top@);
        match weights[seen] {
            Some(weight) => {
                let mut at: usize = top.len();
                proof {
                    assert forall|k: int| 0 <= k < top@.len() implies 0 <= #[trigger] top@[k]
                        < seen && weights@[top@[k] as int] is Some by {
                        assert(picks[k] == top@[k]);
                    }
                }
                while at > 0 && weights[top[at - 1]].unwrap() < weight
                    invariant
                        at <= top.len(),
                        seen < weights.len(),
                        forall|k: int|
                            0 <= k < top@.len() ==> 0 <= #[trigger] top@[k] < seen
                                && weights@[top@[k] as int] is Some,
                        forall|k: int|
                            at <= k < top@.len() ==> weights@[#[trigger] top@[k] as int]->0
                                < weight,
                    decreases at,
                {
                    at -= 1;
                }
                proof {
                    assert forall|k: int| at <= k < picks.len() implies weights@[#[trigger] picks[k]]->0
                        < weight by {
                        assert(picks[k] == top@[k]);
                    }
                    assert forall|k: int| 0 <= k < at implies weights@[#[trigger] picks[k]]->0
                        >= weight by {
                        assert(picks[at - 1] == top@[at - 1]);
                        if k < at - 1 {
                            assert(ahead(weights@, picks[k], picks[at - 1]));
                        }
                    }
                }
                if at < limit {
                    proof {
                        lemma_take_in(weights@, seen as int, limit as nat, picks, at as int);
                    }
                    let full = top.len() == limit;
                    top.insert(at, seen);
                    proof {
                        assert(places(top@) =~= picks.insert(at as int, seen as int));
                    }
                    if full {
                        top.pop();
                        proof {
                            assert(places(top@) =~= picks.insert(
                                at as int,
                                seen as int,
                            ).drop_last());
                        }
                    }
                } else {
                    proof {
                        lemma_leave_out(weights@, seen as int, limit as nat, picks);
                    }
                }
            },
            None => {},
        }
        seen += 1;
    }
    top
}

/// Where two choices of leading places agree before `k`, the place that one
/// holds at `k` is the other's, or is ahead of it.
proof fn lemma_comes_first(weights: Seq<Option<u64>>, one: Seq<int>, other: Seq<int>, k: int)
    requires
        leading(weights, weights.len() as int, one),
        leading(weights, weights.len() as int, other),
        0 <= k < one.len(),
        k < other.len(),
        forall|i: int| 0 <= i < k ==> one[i] == other[i],
    ensures
        one[k] == other[k] || ahead(weights, one[k], other[k]),
{
    let j = other[k];
    if one[k] != j {
        if one.contains(j) {
            let m = choose|m: int| 0 <= m < one.len() && one[m] == j;
            if m < k {
                assert(other[m] == j);
                assert(ahead(weights, other[m], other[k]));
            } else {
                assert(ahead(weights, one[k], one[m]));
            }
        } else {
            assert(ahead(weights, one[k], j));
        }
    }
}

/// Two choices of leading places of one length agree up to `k`.
proof fn lemma_agree(weights: Seq<Option<u64>>, one: Seq<int>, other: Seq<int>, k: int)
    requires
        leading(weights, weights.len() as int, one),
        leading(weights, weights.len() as int, other),
        one.len() == other.len(),
        0 <= k < one.len(),
    ensures
        forall|i: int| 0 <= i <= k ==> one[i] == other[i],
    decreases k,
{
    if k > 0 {
        lemma_agree(weights, one, other, k - 1);
    }
    lemma_comes_first(weights, one, other, k);
    lemma_comes_first(weights, other, one, k);
}

/// Only one choice of places is that of the first in rank.
pub proof fn lemma_top_unique(
    weights: Seq<Option<u64>>,
    limit: nat,
    one: Seq<int>,
    other: Seq<int>,
)
    requires
        top_ranked(weights, limit, one),
        top_ranked(weights, limit, other),
    ensures
        one == other,
{
    assert forall|k: int| 0 <= k < one.len() implies one[k] == other[k] by {
        lemma_agree(weights, one, other, k);
    }
    assert(one =~= other);
}

} // verus!
