use vstd::prelude::*;
use std::cmp::Ordering;

verus! {

/// Orders two visits, each with its cost, so that the costlier comes first.
pub fn costlier_first(a: &(u64, u64), b: &(u64, u64)) -> (order: Ordering)
    ensures
        (order == Ordering::Less) == (a.1 > b.1),
        (order == Ordering::Equal) == (a.1 == b.1),
        (order == Ordering::Greater) == (a.1 < b.1),
{
    if a.1 > b.1 {
        Ordering::Less
    } else if a.1 == b.1 {
        Ordering::Equal
    } else {
        Ordering::Greater
    }
}

/// The costs do not rise along the ranking.
pub open spec fn costs_descend(ranking: Seq<(u64, u64)>) -> bool {
    forall|i: int, j: int| 0 <= i < j < ranking.len() ==> ranking[i].1 >= ranking[j].1
}

/// The entries that have the given cost, in their order.
pub open spec fn with_cost(entries: Seq<(u64, u64)>, cost: u64) -> Seq<(u64, u64)>
    decreases entries.len(),
{
    if entries.len() == 0 {
        entries
    } else if entries.last().1 == cost {
        with_cost(entries.drop_last(), cost).push(entries.last())
    } else {
        with_cost(entries.drop_last(), cost)
    }
}

/// `ranking` holds the entries of `source`, each as often, the costlier
/// first, and entries of equal cost in the order that they have in `source`.
pub open spec fn is_ranking_of(ranking: Seq<(u64, u64)>, source: Seq<(u64, u64)>) -> bool {
    &&& ranking.to_multiset() == source.to_multiset()
    &&& costs_descend(ranking)
    &&& forall|cost: u64| #[trigger] with_cost(ranking, cost) == with_cost(source, cost)
}

/// The ranking of `source`; there is one only.
pub open spec fn ranking_of(source: Seq<(u64, u64)>) -> Seq<(u64, u64)> {
    choose|ranking: Seq<(u64, u64)>| is_ranking_of(ranking, source)
}

/// Where some entry has the given cost, it is found among the entries.
proof fn lemma_with_cost_has_member(entries: Seq<(u64, u64)>, cost: u64)
    requires
        with_cost(entries, cost).len() > 0,
    ensures
        exists|i: int| 0 <= i < entries.len() && entries[i].1 == cost,
    decreases entries.len(),
{
    if entries.len() > 0 {
        if entries.last().1 == cost {
            assert(entries[entries.len() - 1].1 == cost);
        } else {
            lemma_with_cost_has_member(entries.drop_last(), cost);
            let i = choose|i: int|
                0 <= i < entries.drop_last().len() && entries.drop_last()[i].1 == cost;
            assert(entries[i].1 == cost);
        }
    }
}

/// In a descending sequence that holds an entry of some cost, the last
/// entry costs no more than that.
proof fn lemma_last_is_cheapest(entries: Seq<(u64, u64)>, cost: u64)
    requires
        costs_descend(entries),
        with_cost(entries, cost).len() > 0,
    ensures
        entries.len() > 0,
        entries.last().1 <= cost,
{
    lemma_with_cost_has_member(entries, cost);
    let i = choose|i: int| 0 <= i < entries.len() && entries[i].1 == cost;
    if i < entries.len() - 1 {
        assert(entries[i].1 >= entries[entries.len() - 1].1);
    }
}

/// Two descending sequences that agree, cost by cost, on their entries of
/// that cost and on the order of these, are the same sequence.
proof fn lemma_same_classes_same_sequence(first: Seq<(u64, u64)>, second: Seq<(u64, u64)>)
    requires
        costs_descend(first),
        costs_descend(second),
        first.len() == second.len(),
        forall|cost: u64| #[trigger] with_cost(first, cost) == with_cost(second, cost),
    ensures
        first == second,
    decreases first.len(),
{
    if first.len() == 0 {
        assert(first =~= second);
    } else {
        let x = first.last();
        let y = second.last();
        assert(with_cost(first, x.1) == with_cost(second, x.1));
        assert(with_cost(first, y.1) == with_cost(second, y.1));
        lemma_last_is_cheapest(first, y.1);
        lemma_last_is_cheapest(second, x.1);
        let head = first.drop_last();
        let other = second.drop_last();
        assert(with_cost(head, x.1) =~= with_cost(first, x.1).drop_last());
        assert(with_cost(other, x.1) =~= with_cost(second, x.1).drop_last());
        assert(with_cost(first, x.1).last() == x);
        assert(with_cost(second, x.1).last() == y);
        assert forall|cost: u64| #[trigger] with_cost(head, cost) == with_cost(other, cost) by {
            assert(with_cost(first, cost) == with_cost(second, cost));
        }
        assert(costs_descend(head)) by {
            assert forall|i: int, j: int| 0 <= i < j < head.len() implies head[i].1
                >= head[j].1 by {
                assert(first[i].1 >= first[j].1);
            }
        }
        assert(costs_descend(other)) by {
            assert forall|i: int, j: int| 0 <= i < j < other.len() implies other[i].1
                >= other[j].1 by {
                assert(second[i].1 >= second[j].1);
            }
        }
        lemma_same_classes_same_sequence(head, other);
        assert(first =~= head.push(x));
        assert(second =~= other.push(y));
    }
}

/// A sequence has one ranking only: whatever is a ranking of it is
/// `ranking_of` it.
pub proof fn lemma_ranking_is_unique(ranking: Seq<(u64, u64)>, source: Seq<(u64, u64)>)
    requires
        is_ranking_of(ranking, source),
    ensures
        ranking == ranking_of(source),
{
    let chosen = ranking_of(source);
    assert(is_ranking_of(chosen, source));
    vstd::seq_lib::to_multiset_len(ranking);
    vstd::seq_lib::to_multiset_len(chosen);
    assert forall|cost: u64| #[trigger] with_cost(ranking, cost) == with_cost(chosen, cost) by {
        assert(with_cost(ranking, cost) == with_cost(source, cost));
        assert(with_cost(chosen, cost) == with_cost(source, cost));
    }
    lemma_same_classes_same_sequence(ranking, chosen);
}

/// Calls `sort_by` of std's slices with `costlier_first` as the order. The
/// sort rearranges the entries in place and is stable, so what comes back
/// is the ranking of what went in: the same entries, each as often as
/// before, none before a costlier one, and entries of equal cost in the
/// order that they had.
#[verifier::external_body]
pub(crate) fn rank_by_cost(costs: &mut Vec<(u64, u64)>)
    ensures
        is_ranking_of(final(costs)@, old(costs)@),
{
    costs.sort_by(|a, b| costlier_first(a, b));
}

} // verus!
