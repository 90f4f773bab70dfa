//! Ranking of features by importance: names paired with scores by position,
//! ordered by score from highest to lowest with ties kept in feature order,
//! and cut before the first entry of zero importance.
//!
//! A score is a non-negative importance in an encoding whose integer order
//! is the order of the importances and in which 0 is zero importance.
use vstd::prelude::*;
use vstd::set_lib::{lemma_int_range, lemma_subset_equality, set_int_range};

verus! {

/// A feature name with its importance score.
pub struct RankedFeature {
    pub name: String,
    pub score: u64,
}

/// The names and the scores did not pair up: their counts differ.
#[derive(Debug, Clone, Copy, PartialEq, Eq, Structural)]
pub struct LengthMismatch {
    pub names: usize,
    pub scores: usize,
}

/// Feature `i` ranks before feature `j`: it has the higher score, or the same
/// score and comes first.
pub open spec fn ranks_before(scores: Seq<u64>, i: int, j: int) -> bool {
    scores[i] > scores[j] || (scores[i] == scores[j] && i < j)
}

/// `order` lists every feature index below `scores.len()` once, each ranking
/// before all that follow it.
pub open spec fn is_ranking_order(scores: Seq<u64>, order: Seq<int>) -> bool {
    &&& order.len() == scores.len()
    &&& forall|p: int| 0 <= p < order.len() ==> 0 <= #[trigger] order[p] < scores.len()
    &&& forall|p: int, q: int|
        0 <= p < q < order.len() ==> ranks_before(scores, #[trigger] order[p], #[trigger] order[q])
}

/// `out` pairs the names with the scores by position and lists the pairs in
/// ranking order.
pub open spec fn is_ranked(names: Seq<String>, scores: Seq<u64>, out: Seq<RankedFeature>) -> bool {
    exists|order: Seq<int>|
        is_ranking_order(scores, order) && out.len() == order.len() && forall|p: int|
            0 <= p < out.len() ==> (#[trigger] out[p]).name == names[order[p]] && out[p].score
                == scores[order[p]]
}

/// The names of the entries.
pub open spec fn names_of(out: Seq<RankedFeature>) -> Seq<String> {
    out.map_values(|e: RankedFeature| e.name)
}

/// The scores of the entries.
pub open spec fn scores_of(out: Seq<RankedFeature>) -> Seq<u64> {
    out.map_values(|e: RankedFeature| e.score)
}

/// The scores never rise from one entry to a later one.
pub open spec fn non_increasing(scores: Seq<u64>) -> bool {
    forall|i: int, j: int| 0 <= i < j < scores.len() ==> #[trigger] scores[i] >= #[trigger] scores[j]
}

/// The feature indices in ranking order, built by inserting each index after
/// every earlier index of at least its score.
fn ranking_order(scores: &Vec<u64>) -> (r: Vec<usize>)
    ensures
        is_ranking_order(scores@, r@.map_values(|x: usize| x as int)),
{
    let n = scores.len();
    let mut order: Vec<usize> = Vec::new();
    let mut i: usize = 0;
    while i < n
        invariant
            n == scores@.len(),
            i <= n,
            order@.len() == i,
            forall|p: int| 0 <= p < order@.len() ==> #[trigger] order@[p] < i,
            forall|p: int, q: int|
                0 <= p < q < order@.len() ==> ranks_before(
                    scores@,
                    #[trigger] order@[p] as int,
                    #[trigger] order@[q] as int,
                ),
        decreases n - i,
    {
        let s = scores[i];
        let mut p: usize = 0;
        while p < order.len() && scores[order[p]] >= s
            invariant
                n == scores@.len(),
                i < n,
                s == scores@[i as int],
                p <= order@.len(),
                forall|x: int| 0 <= x < order@.len() ==> #[trigger] order@[x] < i,
                forall|x: int| 0 <= x < p ==> scores@[#[trigger] order@[x] as int] >= s,
            decreases order@.len() - p,
        {
            p = p + 1;
        }
        let ghost before = order@;
        order.insert(p, i);
        assert forall|x: int, y: int|
            0 <= x < y < order@.len() implies ranks_before(
                scores@,
                #[trigger] order@[x] as int,
                #[trigger] order@[y] as int,
            ) by {
            if y < p {
                assert(order@[x] == before[x] && order@[y] == before[y]);
            } else if y == p {
                assert(order@[x] == before[x]);
            } else if x == p {
                assert(order@[y] == before[y - 1]);
                assert(scores@[before[p as int] as int] < s);
                if y - 1 > p {
                    assert(ranks_before(scores@, before[p as int] as int, before[y - 1] as int));
                }
            } else if x < p {
                assert(order@[x] == before[x] && order@[y] == before[y - 1]);
            } else {
                assert(order@[x] == before[x - 1] && order@[y] == before[y - 1]);
            }
        }
        i = i + 1;
    }
    order
}

/// Pairs `names[i]` with `scores[i]` and lists the pairs by score, highest
/// first, equal scores in feature order.
pub fn rank(names: &Vec<String>, scores: &Vec<u64>) -> (r: Result<Vec<RankedFeature>, LengthMismatch>)
    ensures
        names@.len() != scores@.len() ==> r == Err::<Vec<RankedFeature>, LengthMismatch>(
            LengthMismatch { names: names@.len() as usize, scores: scores@.len() as usize },
        ),
        names@.len() == scores@.len() ==> (r matches Ok(out) && is_ranked(names@, scores@, out@)),
{
    if names.len() != scores.len() {
        return Err(LengthMismatch { names: names.len(), scores: scores.len() });
    }
    let order = ranking_order(scores);
    let ghost ord = order@.map_values(|x: usize| x as int);
    let mut out: Vec<RankedFeature> = Vec::new();
    let mut p: usize = 0;
    while p < order.len()
        invariant
            names@.len() == scores@.len(),
            ord == order@.map_values(|x: usize| x as int),
            is_ranking_order(scores@, ord),
            p <= order@.len(),
            out@.len() == p,
            forall|x: int|
                0 <= x < p ==> (#[trigger] out@[x]).name == names@[ord[x]] && out@[x].score
                    == scores@[ord[x]],
        decreases order@.len() - p,
    {
        let k = order[p];
        assert(ord[p as int] == k as int);
        out.push(RankedFeature { name: names[k].clone(), score: scores[k] });
        p = p + 1;
    }
    Ok(out)
}

/// The entries before the first one whose score is zero; all of them when
/// none is.
pub fn truncate_at_first_zero(ranked: Vec<RankedFeature>) -> (r: Vec<RankedFeature>)
    ensures
        r@.len() <= ranked@.len(),
        r@ == ranked@.take(r@.len() as int),
        forall|p: int| 0 <= p < r@.len() ==> (#[trigger] r@[p]).score != 0,
        r@.len() == ranked@.len() || ranked@[r@.len() as int].score == 0,
{
    let mut p: usize = 0;
    while p < ranked.len() && ranked[p].score != 0
        invariant
            p <= ranked@.len(),
            forall|x: int| 0 <= x < p ==> (#[trigger] ranked@[x]).score != 0,
        decreases ranked@.len() - p,
    {
        p = p + 1;
    }
    let mut r = ranked;
    r.truncate(p);
    assert(r@ =~= ranked@.take(p as int));
    r
}

/// A ranking is stable: of two entries with equal scores, the one that comes
/// first belongs to the feature that comes first.
pub proof fn lemma_rank_stable(scores: Seq<u64>, order: Seq<int>, p: int, q: int)
    requires
        is_ranking_order(scores, order),
        0 <= p < q < order.len(),
        scores[order[p]] == scores[order[q]],
    ensures
        order[p] < order[q],
{
    assert(ranks_before(scores, order[p], order[q]));
}

/// The scores of a ranking never rise.
pub proof fn lemma_ranked_non_increasing(names: Seq<String>, scores: Seq<u64>, out: Seq<RankedFeature>)
    requires
        is_ranked(names, scores, out),
    ensures
        non_increasing(scores_of(out)),
        names_of(out).len() == out.len(),
        scores_of(out).len() == out.len(),
{
    let order = choose|order: Seq<int>|
        is_ranking_order(scores, order) && out.len() == order.len() && forall|p: int|
            0 <= p < out.len() ==> (#[trigger] out[p]).name == names[order[p]] && out[p].score
                == scores[order[p]];
    assert forall|i: int, j: int| 0 <= i < j < out.len() implies #[trigger] scores_of(out)[i]
        >= #[trigger] scores_of(out)[j] by {
        assert(out[i].score == scores[order[i]]);
        assert(out[j].score == scores[order[j]]);
        assert(ranks_before(scores, order[i], order[j]));
    }
}

/// A strictly increasing sequence of `n` indices below `n` lists them all in
/// order.
proof fn lemma_increasing_indices(order: Seq<int>)
    requires
        forall|p: int| 0 <= p < order.len() ==> 0 <= #[trigger] order[p] < order.len(),
        forall|p: int, q: int| 0 <= p < q < order.len() ==> #[trigger] order[p] < #[trigger] order[q],
    ensures
        forall|p: int| 0 <= p < order.len() ==> #[trigger] order[p] == p,
    decreases order.len(),
{
    if order.len() > 0 {
        let n = order.len();
        let front = order.drop_last();
        assert forall|p: int| 0 <= p < front.len() implies 0 <= #[trigger] front[p] < front.len() by {
            assert(order[p] < order[n - 1]);
        }
        assert forall|p: int, q: int| 0 <= p < q < front.len() implies #[trigger] front[p]
            < #[trigger] front[q] by {
            assert(order[p] < order[q]);
        }
        lemma_increasing_indices(front);
        assert forall|p: int| 0 <= p < order.len() implies #[trigger] order[p] == p by {
            if p < n - 1 {
                assert(front[p] == order[p]);
            } else if n > 1 {
                assert(front[n - 2] == n - 2);
                assert(order[n - 2] < order[n - 1]);
            }
        }
    }
}

/// Scores that never rise are ranked as they stand: the only ranking order
/// is the order of the features.
pub proof fn lemma_sorted_scores_rank_in_place(scores: Seq<u64>, order: Seq<int>)
    requires
        non_increasing(scores),
        is_ranking_order(scores, order),
    ensures
        forall|p: int| 0 <= p < order.len() ==> #[trigger] order[p] == p,
{
    assert forall|p: int, q: int| 0 <= p < q < order.len() implies #[trigger] order[p]
        < #[trigger] order[q] by {
        assert(ranks_before(scores, order[p], order[q]));
        if order[p] > order[q] {
            assert(scores[order[q]] >= scores[order[p]]);
        }
    }
    lemma_increasing_indices(order);
}

/// A ranking order lists every feature index.
pub proof fn lemma_ranking_order_covers(scores: Seq<u64>, order: Seq<int>, v: int)
    requires
        is_ranking_order(scores, order),
        0 <= v < scores.len(),
    ensures
        order.contains(v),
{
    let n = scores.len() as int;
    assert(order.no_duplicates()) by {
        assert forall|p: int, q: int| 0 <= p < order.len() && 0 <= q < order.len() && p != q
            implies order[p] != order[q] by {
            if p < q {
                assert(ranks_before(scores, order[p], order[q]));
            } else {
                assert(ranks_before(scores, order[q], order[p]));
            }
        }
    }
    order.unique_seq_to_set();
    lemma_int_range(0, n);
    assert(order.to_set().subset_of(set_int_range(0, n))) by {
        assert forall|x: int| order.to_set().contains(x) implies set_int_range(0, n).contains(x) by {
            let p = choose|p: int| 0 <= p < order.len() && order[p] == x;
            assert(0 <= order[p] < n);
        }
    }
    lemma_subset_equality(order.to_set(), set_int_range(0, n));
    assert(set_int_range(0, n).contains(v));
}

/// Two ranking orders of the same scores agree on their first `m` entries.
proof fn lemma_ranking_orders_agree(scores: Seq<u64>, o1: Seq<int>, o2: Seq<int>, m: int)
    requires
        is_ranking_order(scores, o1),
        is_ranking_order(scores, o2),
        0 <= m <= o1.len(),
    ensures
        forall|r: int| 0 <= r < m ==> #[trigger] o1[r] == o2[r],
    decreases m,
{
    if m > 0 {
        let p = m - 1;
        lemma_ranking_orders_agree(scores, o1, o2, p);
        let a = o1[p];
        let b = o2[p];
        if a != b {
            lemma_ranking_order_covers(scores, o2, a);
            let q = choose|q: int| 0 <= q < o2.len() && o2[q] == a;
            lemma_ranking_order_covers(scores, o1, b);
            let r = choose|r: int| 0 <= r < o1.len() && o1[r] == b;
            if q < p {
                assert(o1[q] == o2[q]);
                assert(ranks_before(scores, o1[q], o1[p]));
            } else if r < p {
                assert(o1[r] == o2[r]);
                assert(ranks_before(scores, o2[r], o2[p]));
            } else {
                assert(q > p && r > p);
                assert(ranks_before(scores, o2[p], o2[q]));
                assert(ranks_before(scores, o1[p], o1[r]));
            }
        }
    }
}

/// The ranking of a list of scores is unique: any two ranking orders of the
/// same scores are equal, so `rank` has exactly one correct result.
pub proof fn lemma_ranking_order_unique(scores: Seq<u64>, o1: Seq<int>, o2: Seq<int>)
    requires
        is_ranking_order(scores, o1),
        is_ranking_order(scores, o2),
    ensures
        o1 == o2,
{
    lemma_ranking_orders_agree(scores, o1, o2, o1.len() as int);
    assert(o1 =~= o2);
}

/// Names and scores have exactly one ranked list.
pub proof fn lemma_ranked_unique(
    names: Seq<String>,
    scores: Seq<u64>,
    out1: Seq<RankedFeature>,
    out2: Seq<RankedFeature>,
)
    requires
        is_ranked(names, scores, out1),
        is_ranked(names, scores, out2),
    ensures
        out1 == out2,
{
    let o1 = choose|order: Seq<int>|
        is_ranking_order(scores, order) && out1.len() == order.len() && forall|p: int|
            0 <= p < out1.len() ==> (#[trigger] out1[p]).name == names[order[p]] && out1[p].score
                == scores[order[p]];
    let o2 = choose|order: Seq<int>|
        is_ranking_order(scores, order) && out2.len() == order.len() && forall|p: int|
            0 <= p < out2.len() ==> (#[trigger] out2[p]).name == names[order[p]] && out2[p].score
                == scores[order[p]];
    lemma_ranking_order_unique(scores, o1, o2);
    assert forall|p: int| 0 <= p < out1.len() implies #[trigger] out1[p] == out2[p] by {
        assert(out1[p].name == names[o1[p]] && out2[p].name == names[o2[p]]);
    }
    assert(out1 =~= out2);
}

/// Ranking is idempotent: ranking an already ranked list again gives it back
/// unchanged.
pub proof fn lemma_rank_idempotent(
    names: Seq<String>,
    scores: Seq<u64>,
    out: Seq<RankedFeature>,
    again: Seq<RankedFeature>,
)
    requires
        is_ranked(names, scores, out),
        is_ranked(names_of(out), scores_of(out), again),
    ensures
        again == out,
{
    lemma_ranked_non_increasing(names, scores, out);
    let s2 = scores_of(out);
    let n2 = names_of(out);
    let order = choose|order: Seq<int>|
        is_ranking_order(s2, order) && again.len() == order.len() && forall|p: int|
            0 <= p < again.len() ==> (#[trigger] again[p]).name == n2[order[p]]
                && again[p].score == s2[order[p]];
    lemma_sorted_scores_rank_in_place(s2, order);
    assert forall|p: int| 0 <= p < out.len() implies #[trigger] again[p] == out[p] by {
        assert(order[p] == p);
        assert(again[p].name == n2[p]);
        assert(again[p].score == s2[p]);
    }
    assert(again =~= out);
}

} // verus!
