//! Ranking: commands in the order of their weights, the heaviest first, and
//! those of one weight in the order in which they came.

use vstd::prelude::*;
use vstd::seq_lib::to_multiset_build;
use crate::command::{Command, Entry};

verus! {

/// The test that an entry has the weight `weight`.
pub open spec fn has_weight(weight: u32) -> spec_fn(Entry) -> bool {
    |entry: Entry| entry.weight == weight
}

/// The entries of `entries` that have the weight `weight`, in their order.
pub open spec fn of_weight(entries: Seq<Entry>, weight: u32) -> Seq<Entry> {
    entries.filter(has_weight(weight))
}

/// No entry stands before a heavier one.
pub open spec fn ranked(entries: Seq<Entry>) -> bool {
    forall|i: int, j: int| 0 <= i < j < entries.len() ==> entries[i].weight >= entries[j].weight
}

/// `list` is `entries` ranked: it goes from the heaviest to the lightest, and
/// for each weight it holds the entries of that weight that `entries` holds,
/// in the order that they have there.
pub open spec fn is_ranking(list: Seq<Entry>, entries: Seq<Entry>) -> bool {
    &&& ranked(list)
    &&& forall|weight: u32| of_weight(list, weight) == of_weight(entries, weight)
}

proof fn lemma_of_weight_push(entries: Seq<Entry>, entry: Entry, weight: u32)
    ensures
        of_weight(entries.push(entry), weight) == if entry.weight == weight {
            of_weight(entries, weight).push(entry)
        } else {
            of_weight(entries, weight)
        },
{
    reveal(Seq::filter);
    assert(entries.push(entry).drop_last() == entries);
}

proof fn lemma_of_weight_prepend(entries: Seq<Entry>, entry: Entry, weight: u32)
    ensures
        of_weight(seq![entry] + entries, weight) == if entry.weight == weight {
            seq![entry] + of_weight(entries, weight)
        } else {
            of_weight(entries, weight)
        },
{
    entries.lemma_filter_prepend(entry, has_weight(weight));
}

proof fn lemma_of_weight_none(entries: Seq<Entry>, weight: u32)
    requires
        forall|i: int| 0 <= i < entries.len() ==> entries[i].weight != weight,
    ensures
        of_weight(entries, weight) == Seq::<Entry>::empty(),
    decreases entries.len(),
{
    reveal(Seq::filter);
    if entries.len() > 0 {
        lemma_of_weight_none(entries.drop_last(), weight);
    }
}

/// Among the entries of its weight, an entry stands as often as in the whole.
proof fn lemma_of_weight_count(entries: Seq<Entry>, entry: Entry)
    ensures
        of_weight(entries, entry.weight).to_multiset().count(entry) == entries.to_multiset().count(
            entry,
        ),
    decreases entries.len(),
{
    let here = of_weight(entries, entry.weight);
    if entries.len() == 0 {
        lemma_of_weight_none(entries, entry.weight);
        assert(entries =~= Seq::<Entry>::empty());
    } else {
        let rest = entries.drop_last();
        let last = entries.last();
        let before = of_weight(rest, entry.weight);
        lemma_of_weight_count(rest, entry);
        assert(entries == rest.push(last));
        lemma_of_weight_push(rest, last, entry.weight);
        to_multiset_build(rest, last);
        if last.weight == entry.weight {
            to_multiset_build(before, last);
            assert(here.to_multiset().count(entry) == before.to_multiset().insert(last).count(
                entry,
            ));
        }
    }
}

/// Where the entries of one weight stand in `entries`: the positions, which
/// go up, of all entries of that weight.
proof fn lemma_of_weight_sources(entries: Seq<Entry>, weight: u32) -> (sources: Seq<int>)
    ensures
        sources.len() == of_weight(entries, weight).len(),
        forall|k: int|
            0 <= k < sources.len() ==> 0 <= #[trigger] sources[k] < entries.len()
                && entries[sources[k]] == of_weight(entries, weight)[k],
        forall|k: int, l: int| 0 <= k < l < sources.len() ==> sources[k] < sources[l],
        forall|p: int|
            0 <= p < entries.len() && entries[p].weight == weight ==> exists|k: int|
                0 <= k < sources.len() && sources[k] == p,
    decreases entries.len(),
{
    if entries.len() == 0 {
        lemma_of_weight_none(entries, weight);
        Seq::empty()
    } else {
        let rest = entries.drop_last();
        let last = entries.last();
        let before = lemma_of_weight_sources(rest, weight);
        assert(entries == rest.push(last));
        lemma_of_weight_push(rest, last, weight);
        let sources = if last.weight == weight {
            before.push(entries.len() - 1)
        } else {
            before
        };
        assert forall|p: int| 0 <= p < entries.len() && entries[p].weight == weight implies exists|
            k: int,
        |
            0 <= k < sources.len() && sources[k] == p by {
            if p < rest.len() {
                let k = choose|k: int| 0 <= k < before.len() && before[k] == p;
                assert(sources[k] == p);
            } else {
                assert(sources[sources.len() - 1] == p);
            }
        }
        sources
    }
}

/// Ranking: a heavier entry stands before a lighter one.
pub proof fn lemma_heavier_first(list: Seq<Entry>, i: int, j: int)
    requires
        ranked(list),
        0 <= i < list.len(),
        0 <= j < list.len(),
        list[i].weight > list[j].weight,
    ensures
        i < j,
{
}

/// A ranking holds what was ranked, each entry as often: nothing is added,
/// and nothing is lost.
pub proof fn lemma_ranking_permutes(list: Seq<Entry>, entries: Seq<Entry>)
    requires
        is_ranking(list, entries),
    ensures
        list.to_multiset() == entries.to_multiset(),
        list.len() == entries.len(),
{
    assert forall|entry: Entry|
        list.to_multiset().count(entry) == entries.to_multiset().count(entry) by {
        lemma_of_weight_count(list, entry);
        lemma_of_weight_count(entries, entry);
    }
    list.to_multiset_ensures();
    entries.to_multiset_ensures();
}

/// Stability: two entries of one weight stand in a ranking in the order in
/// which they stand in what was ranked.
pub proof fn lemma_ranking_is_stable(list: Seq<Entry>, entries: Seq<Entry>, i: int, j: int)
    requires
        is_ranking(list, entries),
        0 <= i < j < list.len(),
        list[i].weight == list[j].weight,
    ensures
        exists|p: int, q: int|
            0 <= p < q < entries.len() && entries[p] == list[i] && entries[q] == list[j],
{
    let weight = list[i].weight;
    let in_list = lemma_of_weight_sources(list, weight);
    let in_entries = lemma_of_weight_sources(entries, weight);
    // `list[i]` and `list[j]` are the `k`th and the `l`th entry of their
    // weight, in `list` and so in `entries` too, and `k < l`.
    let k = choose|k: int| 0 <= k < in_list.len() && in_list[k] == i;
    let l = choose|l: int| 0 <= l < in_list.len() && in_list[l] == j;
    assert(k < l);
    assert(entries[in_entries[k]] == list[i] && entries[in_entries[l]] == list[j]);
}

/// Stability, seen from what was ranked: two entries of one weight keep
/// their order in the ranking.
pub proof fn lemma_ranking_keeps_order(list: Seq<Entry>, entries: Seq<Entry>, p: int, q: int)
    requires
        is_ranking(list, entries),
        0 <= p < q < entries.len(),
        entries[p].weight == entries[q].weight,
    ensures
        exists|i: int, j: int|
            0 <= i < j < list.len() && list[i] == entries[p] && list[j] == entries[q],
{
    let weight = entries[p].weight;
    let in_list = lemma_of_weight_sources(list, weight);
    let in_entries = lemma_of_weight_sources(entries, weight);
    // `entries[p]` and `entries[q]` are the `k`th and the `l`th entry of
    // their weight, in `entries` and so in `list` too, and `k < l`.
    let k = choose|k: int| 0 <= k < in_entries.len() && in_entries[k] == p;
    let l = choose|l: int| 0 <= l < in_entries.len() && in_entries[l] == q;
    assert(k < l);
    assert(list[in_list[k]] == entries[p] && list[in_list[l]] == entries[q]);
}

/// Two ranked lists that hold, for each weight, the same entries in the
/// same order are one list.
proof fn lemma_ranked_equal(a: Seq<Entry>, b: Seq<Entry>)
    requires
        ranked(a),
        ranked(b),
        forall|weight: u32| of_weight(a, weight) == of_weight(b, weight),
    ensures
        a == b,
    decreases a.len(),
{
    if a.len() == 0 {
        if b.len() > 0 {
            let y = b.last();
            assert(b == b.drop_last().push(y));
            lemma_of_weight_push(b.drop_last(), y, y.weight);
            lemma_of_weight_none(a, y.weight);
            assert(of_weight(b, y.weight).len() > 0);
        }
    } else {
        let x = a.last();
        let a_rest = a.drop_last();
        assert(a == a_rest.push(x));
        lemma_of_weight_push(a_rest, x, x.weight);
        assert(of_weight(b, x.weight).len() > 0);
        if b.len() == 0 {
            lemma_of_weight_none(b, x.weight);
        }
        let y = b.last();
        let b_rest = b.drop_last();
        assert(b == b_rest.push(y));
        lemma_of_weight_push(b_rest, y, y.weight);
        assert(of_weight(a, y.weight).len() > 0);
        // Each list holds an entry of the other's last weight, and its own
        // last entry is its lightest: the two last weights are one.
        if x.weight < y.weight {
            lemma_of_weight_none(b, x.weight);
        }
        if y.weight < x.weight {
            lemma_of_weight_none(a, y.weight);
        }
        assert(x.weight == y.weight);
        // The last entry of that weight is the last entry of either list.
        let here = of_weight(a, x.weight);
        assert(here.last() == x && here.last() == y);
        assert(of_weight(a_rest, x.weight) == here.drop_last());
        assert forall|weight: u32| of_weight(a_rest, weight) == of_weight(b_rest, weight) by {
            lemma_of_weight_push(a_rest, x, weight);
            lemma_of_weight_push(b_rest, y, weight);
        }
        lemma_ranked_equal(a_rest, b_rest);
    }
}

/// There is one ranking of a list of entries, and no other.
pub proof fn lemma_ranking_unique(first: Seq<Entry>, second: Seq<Entry>, entries: Seq<Entry>)
    requires
        is_ranking(first, entries),
        is_ranking(second, entries),
    ensures
        first == second,
{
    lemma_ranked_equal(first, second);
}

/// A merge under way: `left` and `right` are what is left of two ranked
/// lists, `tail` is the end of the merged list, and nothing is lost.
spec fn merging(
    left: Seq<Entry>,
    right: Seq<Entry>,
    tail: Seq<Entry>,
    left_all: Seq<Entry>,
    right_all: Seq<Entry>,
) -> bool {
    &&& ranked(left)
    &&& ranked(right)
    &&& ranked(tail)
    &&& tail.len() > 0 ==> forall|i: int| 0 <= i < left.len() ==> left[i].weight >= tail[0].weight
    &&& tail.len() > 0 ==> forall|i: int|
        0 <= i < right.len() ==> right[i].weight >= tail[0].weight
    &&& forall|weight: u32|
        of_weight(left, weight) + of_weight(right, weight) + of_weight(tail, weight) == of_weight(
            left_all,
            weight,
        ) + of_weight(right_all, weight)
}

proof fn lemma_merging_begins(left: Seq<Entry>, right: Seq<Entry>)
    requires
        ranked(left),
        ranked(right),
    ensures
        merging(left, right, Seq::empty(), left, right),
{
    assert forall|weight: u32|
        of_weight(left, weight) + of_weight(right, weight) + of_weight(
            Seq::<Entry>::empty(),
            weight,
        ) == of_weight(left, weight) + of_weight(right, weight) by {
        lemma_of_weight_none(Seq::<Entry>::empty(), weight);
    }
}

proof fn lemma_merging_ends(tail: Seq<Entry>, left_all: Seq<Entry>, right_all: Seq<Entry>)
    requires
        merging(Seq::empty(), Seq::empty(), tail, left_all, right_all),
    ensures
        ranked(tail),
        forall|weight: u32|
            of_weight(tail, weight) == of_weight(left_all, weight) + of_weight(right_all, weight),
{
    assert forall|weight: u32|
        of_weight(tail, weight) == of_weight(left_all, weight) + of_weight(
            right_all,
            weight,
        ) by {
        lemma_of_weight_none(Seq::<Entry>::empty(), weight);
        assert(Seq::<Entry>::empty() + Seq::<Entry>::empty() + of_weight(tail, weight) == of_weight(
            tail,
            weight,
        ));
    }
}

/// The last entry of `right` goes before `tail` where the last of `left` is
/// no lighter: entries of one weight keep `left` before `right`.
proof fn lemma_merging_from_right(
    left: Seq<Entry>,
    right: Seq<Entry>,
    tail: Seq<Entry>,
    left_all: Seq<Entry>,
    right_all: Seq<Entry>,
)
    requires
        merging(left, right, tail, left_all, right_all),
        right.len() > 0,
        left.len() > 0 ==> right.last().weight <= left.last().weight,
    ensures
        merging(left, right.drop_last(), seq![right.last()] + tail, left_all, right_all),
{
    let x = right.last();
    let rest = right.drop_last();
    let next = seq![x] + tail;
    assert(right == rest.push(x));
    assert forall|weight: u32|
        of_weight(left, weight) + of_weight(rest, weight) + of_weight(next, weight) == of_weight(
            left_all,
            weight,
        ) + of_weight(right_all, weight) by {
        lemma_of_weight_push(rest, x, weight);
        lemma_of_weight_prepend(tail, x, weight);
        if x.weight == weight {
            assert(of_weight(left, weight) + of_weight(rest, weight) + (seq![x] + of_weight(
                tail,
                weight,
            )) == of_weight(left, weight) + of_weight(rest, weight).push(x) + of_weight(
                tail,
                weight,
            ));
        }
    }
}

/// The last entry of `left` goes before `tail` where the last of `right` is
/// heavier: then `right` holds nothing of that weight any more.
proof fn lemma_merging_from_left(
    left: Seq<Entry>,
    right: Seq<Entry>,
    tail: Seq<Entry>,
    left_all: Seq<Entry>,
    right_all: Seq<Entry>,
)
    requires
        merging(left, right, tail, left_all, right_all),
        left.len() > 0,
        right.len() > 0 ==> right.last().weight > left.last().weight,
    ensures
        merging(left.drop_last(), right, seq![left.last()] + tail, left_all, right_all),
{
    let x = left.last();
    let rest = left.drop_last();
    let next = seq![x] + tail;
    assert(left == rest.push(x));
    assert forall|weight: u32|
        of_weight(rest, weight) + of_weight(right, weight) + of_weight(next, weight) == of_weight(
            left_all,
            weight,
        ) + of_weight(right_all, weight) by {
        lemma_of_weight_push(rest, x, weight);
        lemma_of_weight_prepend(tail, x, weight);
        if x.weight == weight {
            lemma_of_weight_none(right, weight);
            assert(of_weight(rest, weight) + of_weight(right, weight) + (seq![x] + of_weight(
                tail,
                weight,
            )) == of_weight(rest, weight).push(x) + of_weight(right, weight) + of_weight(
                tail,
                weight,
            ));
        }
    }
}

/// Merges two ranked lists: the result is ranked, and for each weight it
/// holds the entries of `left`, then those of `right`.
fn merge(left: Vec<Command>, right: Vec<Command>) -> (merged: Vec<Command>)
    requires
        ranked(left.deep_view()),
        ranked(right.deep_view()),
    ensures
        ranked(merged.deep_view()),
        forall|weight: u32|
            of_weight(merged.deep_view(), weight) == of_weight(left.deep_view(), weight)
                + of_weight(right.deep_view(), weight),
{
    let ghost left_all = left.deep_view();
    let ghost right_all = right.deep_view();
    let mut left = left;
    let mut right = right;
    // The merged list is built from its end: `tail` is what is settled of
    // it, and `reversed` holds `tail` backwards.
    let mut reversed: Vec<Command> = Vec::new();
    let ghost mut tail: Seq<Entry> = Seq::empty();
    proof {
        lemma_merging_begins(left_all, right_all);
    }
    while left.len() > 0 || right.len() > 0
        invariant
            merging(left.deep_view(), right.deep_view(), tail, left_all, right_all),
            reversed.len() == tail.len(),
            forall|k: int| 0 <= k < reversed.len() ==> reversed@[k]@ == tail[tail.len() - 1 - k],
        decreases left.len() + right.len(),
    {
        let ghost l = left.deep_view();
        let ghost r = right.deep_view();
        let from_right = if left.len() == 0 {
            true
        } else if right.len() == 0 {
            false
        } else {
            right[right.len() - 1].weight <= left[left.len() - 1].weight
        };
        if from_right {
            let last = right.pop().unwrap();
            proof {
                assert(right.deep_view() == r.drop_last());
                lemma_merging_from_right(l, r, tail, left_all, right_all);
                tail = seq![last@] + tail;
            }
            reversed.push(last);
        } else {
            let last = left.pop().unwrap();
            proof {
                assert(left.deep_view() == l.drop_last());
                lemma_merging_from_left(l, r, tail, left_all, right_all);
                tail = seq![last@] + tail;
            }
            reversed.push(last);
        }
    }
    proof {
        lemma_merging_ends(tail, left_all, right_all);
    }
    let mut merged: Vec<Command> = Vec::new();
    while reversed.len() > 0
        invariant
            reversed.len() + merged.len() == tail.len(),
            forall|k: int| 0 <= k < reversed.len() ==> reversed@[k]@ == tail[tail.len() - 1 - k],
            forall|k: int| 0 <= k < merged.len() ==> merged@[k]@ == tail[k],
        decreases reversed.len(),
    {
        let next = reversed.pop().unwrap();
        merged.push(next);
    }
    assert(merged.deep_view() == tail);
    merged
}

/// Ranks `list`: the heaviest command first, and commands of one weight in
/// the order that they have in `list`.
pub fn rank(list: Vec<Command>) -> (ranking: Vec<Command>)
    ensures
        is_ranking(ranking.deep_view(), list.deep_view()),
    decreases list.len(),
{
    if list.len() <= 1 {
        return list;
    }
    let ghost all = list.deep_view();
    let mut left = list;
    let half: usize = left.len() / 2;
    let right = left.split_off(half);
    proof {
        assert(all == left.deep_view() + right.deep_view());
        assert forall|weight: u32|
            of_weight(all, weight) == of_weight(left.deep_view(), weight) + of_weight(
                right.deep_view(),
                weight,
            ) by {
            Seq::filter_distributes_over_add(
                left.deep_view(),
                right.deep_view(),
                has_weight(weight),
            );
        }
    }
    let left = rank(left);
    let right = rank(right);
    merge(left, right)
}

} // verus!
