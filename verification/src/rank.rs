//! Ranking of bids: highest score first, earlier bid first among equals.

use vstd::prelude::*;
use crate::bid::{BidView, DecryptedBid, bid_views, evaluate_score, score_doubled};

verus! {

/// Whether the bid at position `a` comes before the bid at position `b` in
/// the ranking: it scores higher, or it scores the same and was made first.
pub open spec fn outranks(bids: Seq<BidView>, a: int, b: int) -> bool {
    ||| score_doubled(bids[a]) > score_doubled(bids[b])
    ||| (score_doubled(bids[a]) == score_doubled(bids[b]) && a < b)
}

/// Whether `order` lists the first `count` positions of `bids`, each once,
/// so that every position outranks all that come after it.
pub open spec fn ranks_first(order: Seq<usize>, bids: Seq<BidView>, count: int) -> bool {
    &&& order.len() == count
    &&& forall|k: int| 0 <= k < order.len() ==> (#[trigger] order[k]) < count
    &&& forall|p: usize| p < count ==> #[trigger] order.contains(p)
    &&& forall|j: int, k: int|
        0 <= j < k < order.len() ==> outranks(bids, #[trigger] order[j] as int, #[trigger] order[k] as int)
}

/// Whether `order` is the ranking of `bids`: it lists every position once,
/// by falling score, and bids of equal score in the order they were made.
pub open spec fn is_ranking(order: Seq<usize>, bids: Seq<BidView>) -> bool {
    ranks_first(order, bids, bids.len() as int)
}

/// The ranking of `bids`.
pub open spec fn ranking(bids: Seq<BidView>) -> Seq<usize> {
    choose|order: Seq<usize>| is_ranking(order, bids)
}

proof fn lemma_rankings_agree_upto(a: Seq<usize>, b: Seq<usize>, bids: Seq<BidView>, upto: int)
    requires
        is_ranking(a, bids),
        is_ranking(b, bids),
        0 <= upto <= bids.len(),
    ensures
        forall|j: int| 0 <= j < upto ==> a[j] == b[j],
    decreases upto,
{
    if upto > 0 {
        let k = upto - 1;
        lemma_rankings_agree_upto(a, b, bids, k);
        let x = a[k];
        let y = b[k];
        assert(b.contains(x));
        assert(a.contains(y));
        let m = choose|m: int| 0 <= m < b.len() && b[m] == x;
        let n = choose|n: int| 0 <= n < a.len() && a[n] == y;
        if m < k {
            assert(a[m] == b[m]);
            assert(outranks(bids, a[m] as int, a[k] as int));
        }
        if n < k {
            assert(b[n] == a[n]);
            assert(outranks(bids, b[n] as int, b[k] as int));
        }
        if m > k {
            assert(outranks(bids, b[k] as int, b[m] as int));
        }
        if n > k {
            assert(outranks(bids, a[k] as int, a[n] as int));
        }
    }
}

/// No list of bids has two rankings.
pub proof fn lemma_ranking_is_unique(a: Seq<usize>, b: Seq<usize>, bids: Seq<BidView>)
    requires
        is_ranking(a, bids),
        is_ranking(b, bids),
    ensures
        a == b,
{
    lemma_rankings_agree_upto(a, b, bids, bids.len() as int);
    assert(a =~= b);
}

/// In a ranking scores never rise, and of two bids with the same score the
/// one that was made first comes first.
pub proof fn lemma_ranking_is_stable(order: Seq<usize>, bids: Seq<BidView>, j: int, k: int)
    requires
        is_ranking(order, bids),
        0 <= j < k < order.len(),
    ensures
        score_doubled(bids[order[j] as int]) >= score_doubled(bids[order[k] as int]),
        score_doubled(bids[order[j] as int]) == score_doubled(bids[order[k] as int]) ==> order[j]
            < order[k],
{
    assert(outranks(bids, order[j] as int, order[k] as int));
}

/// Where a bid with `score` enters `order`: behind every position, from
/// `from` on, whose bid scores no lower.
spec fn entry_point(order: Seq<usize>, bids: Seq<BidView>, score: nat, from: int) -> int
    decreases order.len() - from,
{
    if 0 <= from < order.len() && score_doubled(bids[order[from] as int]) >= score {
        entry_point(order, bids, score, from + 1)
    } else {
        from
    }
}

proof fn lemma_entry_point(order: Seq<usize>, bids: Seq<BidView>, score: nat, from: int)
    requires
        0 <= from <= order.len(),
    ensures
        from <= entry_point(order, bids, score, from) <= order.len(),
        forall|k: int|
            from <= k < entry_point(order, bids, score, from) ==> score_doubled(
                bids[#[trigger] order[k] as int],
            ) >= score,
        entry_point(order, bids, score, from) < order.len() ==> score_doubled(
            bids[order[entry_point(order, bids, score, from)] as int],
        ) < score,
    decreases order.len() - from,
{
    if from < order.len() && score_doubled(bids[order[from] as int]) >= score {
        lemma_entry_point(order, bids, score, from + 1);
    }
}

proof fn lemma_insert_keeps_ranking(before: Seq<usize>, bids: Seq<BidView>, next: usize, at: int)
    requires
        ranks_first(before, bids, next as int),
        next < usize::MAX,
        0 <= at <= before.len(),
        forall|k: int|
            0 <= k < at ==> score_doubled(bids[#[trigger] before[k] as int]) >= score_doubled(
                bids[next as int],
            ),
        at < before.len() ==> score_doubled(bids[before[at] as int]) < score_doubled(
            bids[next as int],
        ),
    ensures
        ranks_first(before.insert(at, next), bids, next + 1),
{
    let after = before.insert(at, next);
    assert forall|k: int| 0 <= k < after.len() implies (#[trigger] after[k]) < next + 1 by {
        if k < at {
            assert(after[k] == before[k]);
        } else if k > at {
            assert(after[k] == before[k - 1]);
        }
    }
    assert forall|q: usize| q < next + 1 implies #[trigger] after.contains(q) by {
        if q == next {
            assert(after[at] == q);
        } else {
            assert(before.contains(q));
            let k0 = choose|k: int| 0 <= k < before.len() && before[k] == q;
            if k0 < at {
                assert(after[k0] == q);
            } else {
                assert(after[k0 + 1] == q);
            }
        }
    }
    assert forall|j: int, k: int| 0 <= j < k < after.len() implies outranks(
        bids,
        #[trigger] after[j] as int,
        #[trigger] after[k] as int,
    ) by {
        let bj = if j < at {
            j
        } else {
            j - 1
        };
        let bk = if k < at {
            k
        } else {
            k - 1
        };
        if j != at && k != at {
            assert(after[j] == before[bj]);
            assert(after[k] == before[bk]);
            assert(outranks(bids, before[bj] as int, before[bk] as int));
        } else if k == at {
            assert(after[j] == before[j]);
            assert(before[j] < next);
        } else {
            assert(after[k] == before[k - 1]);
            if k - 1 > at {
                assert(outranks(bids, before[at] as int, before[k - 1] as int));
            }
        }
    }
}

proof fn lemma_first_ranked(bids: Seq<BidView>, count: nat) -> (order: Seq<usize>)
    requires
        count <= bids.len(),
        count <= usize::MAX,
    ensures
        ranks_first(order, bids, count as int),
    decreases count,
{
    if count == 0 {
        Seq::empty()
    } else {
        let next = (count - 1) as usize;
        let before = lemma_first_ranked(bids, (count - 1) as nat);
        let at = entry_point(before, bids, score_doubled(bids[next as int]), 0);
        lemma_entry_point(before, bids, score_doubled(bids[next as int]), 0);
        lemma_insert_keeps_ranking(before, bids, next, at);
        before.insert(at, next)
    }
}

/// Every list of bids that a machine can hold has a ranking.
pub proof fn lemma_ranking_exists(bids: Seq<BidView>)
    requires
        bids.len() <= usize::MAX,
    ensures
        is_ranking(ranking(bids), bids),
{
    let order = lemma_first_ranked(bids, bids.len());
    assert(is_ranking(order, bids));
}

/// Ranks the bids: highest score first, and bids of equal score in the order
/// in which they stand in `bids`. The result holds positions in `bids`.
pub fn rank(bids: &Vec<DecryptedBid>) -> (order: Vec<usize>)
    ensures
        is_ranking(order@, bid_views(bids@)),
        order@ == ranking(bid_views(bids@)),
{
    let ghost views = bid_views(bids@);
    let mut scores: Vec<u128> = Vec::new();
    let mut order: Vec<usize> = Vec::new();
    let mut i: usize = 0;
    while i < bids.len()
        invariant
            i <= bids.len(),
            views == bid_views(bids@),
            scores.len() == i,
            forall|j: int| 0 <= j < i ==> scores[j] == score_doubled(#[trigger] views[j]),
            ranks_first(order@, views, i as int),
        decreases bids.len() - i,
    {
        let score: u128 = evaluate_score(&bids[i]);
        scores.push(score);
        let mut p: usize = 0;
        while p < order.len() && scores[order[p]] >= score
            invariant
                p <= order.len(),
                order.len() == i,
                scores.len() == i + 1,
                forall|k: int| 0 <= k < order.len() ==> (#[trigger] order[k]) < i,
                forall|k: int| 0 <= k < p ==> scores[#[trigger] order[k] as int] >= score,
            decreases order.len() - p,
        {
            p = p + 1;
        }
        let ghost before = order@;
        order.insert(p, i);
        proof {
            assert(score == score_doubled(views[i as int]));
            assert forall|k: int| 0 <= k < p implies score_doubled(
                views[#[trigger] before[k] as int],
            ) >= score_doubled(views[i as int]) by {
                assert(scores[before[k] as int] >= score);
            }
            lemma_insert_keeps_ranking(before, views, i, p as int);
        }
        i = i + 1;
    }
    proof {
        let chosen = ranking(views);
        assert(is_ranking(order@, views));
        lemma_ranking_is_unique(order@, chosen, views);
    }
    order
}

} // verus!
