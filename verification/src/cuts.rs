//! Stretches of a lane path that lie inside intersections, and their order.

use vstd::prelude::*;

verus! {

/// A stretch of a lane path that runs through an intersection: the lane
/// enters at distance `entry` and leaves at distance `exit`.
#[derive(Clone, Copy, Debug, PartialEq, Eq, Structural)]
pub struct Cut {
    pub entry: i64,
    pub exit: i64,
}

/// Whether the cuts are in ascending order of their entry distances.
pub open spec fn entries_ascend(cuts: Seq<Cut>) -> bool {
    forall|i: int, j: int| 0 <= i <= j < cuts.len() ==> cuts[i].entry <= cuts[j].entry
}

/// The cuts of `cuts` that enter at distance `entry`, in their order.
pub open spec fn entering_at(cuts: Seq<Cut>, entry: i64) -> Seq<Cut>
    decreases cuts.len(),
{
    if cuts.len() == 0 {
        Seq::empty()
    } else if cuts.last().entry == entry {
        entering_at(cuts.drop_last(), entry).push(cuts.last())
    } else {
        entering_at(cuts.drop_last(), entry)
    }
}

/// `sorted` with `cut` added behind the last cut that enters no later than
/// `cut` does.
pub open spec fn insert_cut(sorted: Seq<Cut>, cut: Cut) -> Seq<Cut>
    decreases sorted.len(),
{
    if sorted.len() == 0 {
        seq![cut]
    } else if sorted.last().entry <= cut.entry {
        sorted.push(cut)
    } else {
        insert_cut(sorted.drop_last(), cut).push(sorted.last())
    }
}

/// The cuts in ascending order of entry; cuts that enter at the same
/// distance keep the order they came in.
pub open spec fn sort_cuts(cuts: Seq<Cut>) -> Seq<Cut>
    decreases cuts.len(),
{
    if cuts.len() == 0 {
        Seq::empty()
    } else {
        insert_cut(sort_cuts(cuts.drop_last()), cuts.last())
    }
}

/// Inserting a cut at the place where the later entries begin is what
/// `insert_cut` does.
proof fn lemma_insert_cut_at(sorted: Seq<Cut>, cut: Cut, at: int)
    requires
        0 <= at <= sorted.len(),
        forall|i: int| at <= i < sorted.len() ==> sorted[i].entry > cut.entry,
        at > 0 ==> sorted[at - 1].entry <= cut.entry,
    ensures
        insert_cut(sorted, cut) == sorted.insert(at, cut),
    decreases sorted.len() - at,
{
    if sorted.len() == 0 {
        assert(sorted.insert(at, cut) =~= seq![cut]);
    } else if at == sorted.len() {
        assert(sorted.insert(at, cut) =~= sorted.push(cut));
    } else {
        lemma_insert_cut_at(sorted.drop_last(), cut, at);
        assert(sorted.insert(at, cut) =~= sorted.drop_last().insert(at, cut).push(sorted.last()));
    }
}

/// Inserting keeps the length, the contents and the ascending order.
pub proof fn lemma_insert_cut(sorted: Seq<Cut>, cut: Cut)
    ensures
        insert_cut(sorted, cut).len() == sorted.len() + 1,
        insert_cut(sorted, cut).to_multiset() == sorted.to_multiset().insert(cut),
        entries_ascend(sorted) ==> entries_ascend(insert_cut(sorted, cut)),
    decreases sorted.len(),
{
    broadcast use vstd::seq_lib::group_to_multiset_ensures;

    if sorted.len() == 0 {
        assert(sorted =~= Seq::empty());
        assert(seq![cut] =~= Seq::<Cut>::empty().push(cut));
    } else if sorted.last().entry <= cut.entry {
    } else {
        let front = sorted.drop_last();
        lemma_insert_cut(front, cut);
        assert(sorted =~= front.push(sorted.last()));
        assert(insert_cut(sorted, cut).to_multiset() =~= sorted.to_multiset().insert(cut));
        if entries_ascend(sorted) {
            let out = insert_cut(sorted, cut);
            let inner = insert_cut(front, cut);
            assert(entries_ascend(front)) by {
                assert forall|i: int, j: int| 0 <= i <= j < front.len() implies front[i].entry
                    <= front[j].entry by {
                    assert(front[i] == sorted[i] && front[j] == sorted[j]);
                }
            }
            assert forall|i: int, j: int| 0 <= i <= j < out.len() implies out[i].entry
                <= out[j].entry by {
                if j < inner.len() {
                    assert(out[i] == inner[i] && out[j] == inner[j]);
                } else if i < inner.len() {
                    assert(out[i] == inner[i]);
                    assert(inner.to_multiset().count(inner[i]) > 0);
                    if inner[i] != cut {
                        assert(front.to_multiset().count(inner[i]) > 0);
                        let w = choose|w: int| 0 <= w < front.len() && front[w] == inner[i];
                        assert(sorted[w] == inner[i]);
                        assert(sorted[w].entry <= sorted[sorted.len() - 1].entry);
                    }
                }
            }
        }
    }
}

/// Sorting gives the same cuts, as many of each, in ascending order of
/// entry.
pub proof fn lemma_sort_cuts(cuts: Seq<Cut>)
    ensures
        sort_cuts(cuts).len() == cuts.len(),
        sort_cuts(cuts).to_multiset() == cuts.to_multiset(),
        entries_ascend(sort_cuts(cuts)),
    decreases cuts.len(),
{
    broadcast use vstd::seq_lib::group_to_multiset_ensures;

    if cuts.len() == 0 {
        assert(cuts =~= Seq::empty());
    } else {
        lemma_sort_cuts(cuts.drop_last());
        lemma_insert_cut(sort_cuts(cuts.drop_last()), cuts.last());
        assert(cuts =~= cuts.drop_last().push(cuts.last()));
    }
}

/// Every cut of the sorted sequence is one of the given cuts, and every
/// given cut is in the sorted sequence.
pub proof fn lemma_sort_cuts_members(cuts: Seq<Cut>)
    ensures
        forall|i: int| 0 <= i < sort_cuts(cuts).len() ==> cuts.contains(#[trigger] sort_cuts(cuts)[i]),
        forall|i: int| 0 <= i < cuts.len() ==> sort_cuts(cuts).contains(#[trigger] cuts[i]),
{
    broadcast use vstd::seq_lib::group_to_multiset_ensures;

    lemma_sort_cuts(cuts);
    let sorted = sort_cuts(cuts);
    assert forall|i: int| 0 <= i < sorted.len() implies cuts.contains(#[trigger] sorted[i]) by {
        assert(sorted.to_multiset().count(sorted[i]) > 0);
        assert(cuts.to_multiset().count(sorted[i]) > 0);
    }
    assert forall|i: int| 0 <= i < cuts.len() implies sorted.contains(#[trigger] cuts[i]) by {
        assert(cuts.to_multiset().count(cuts[i]) > 0);
        assert(sorted.to_multiset().count(cuts[i]) > 0);
    }
}

/// Inserting a cut adds it behind the cuts that enter where it does, and
/// leaves the cuts of every other entry distance as they were.
pub proof fn lemma_insert_cut_stable(sorted: Seq<Cut>, cut: Cut, entry: i64)
    ensures
        entering_at(insert_cut(sorted, cut), entry) == if cut.entry == entry {
            entering_at(sorted, entry).push(cut)
        } else {
            entering_at(sorted, entry)
        },
    decreases sorted.len(),
{
    if sorted.len() == 0 {
        assert(seq![cut].drop_last() =~= sorted);
    } else if sorted.last().entry <= cut.entry {
        assert(sorted.push(cut).drop_last() =~= sorted);
    } else {
        let inner = insert_cut(sorted.drop_last(), cut);
        lemma_insert_cut_stable(sorted.drop_last(), cut, entry);
        assert(inner.push(sorted.last()).drop_last() =~= inner);
    }
}

/// Sorting is stable: the cuts that enter at one distance stand in the
/// sorted sequence in the order in which they were given.
pub proof fn lemma_sort_cuts_stable(cuts: Seq<Cut>, entry: i64)
    ensures
        entering_at(sort_cuts(cuts), entry) == entering_at(cuts, entry),
    decreases cuts.len(),
{
    if cuts.len() > 0 {
        lemma_sort_cuts_stable(cuts.drop_last(), entry);
        lemma_insert_cut_stable(sort_cuts(cuts.drop_last()), cuts.last(), entry);
    }
}

/// Sorts cuts by entry distance; cuts with the same entry distance keep
/// their order.
pub fn sort_by_entry(cuts: &Vec<Cut>) -> (sorted: Vec<Cut>)
    ensures
        sorted@ == sort_cuts(cuts@),
        sorted@.len() == cuts@.len(),
        sorted@.to_multiset() == cuts@.to_multiset(),
        entries_ascend(sorted@),
{
    let mut sorted: Vec<Cut> = Vec::new();
    let mut n: usize = 0;
    while n < cuts.len()
        invariant
            n <= cuts.len(),
            sorted@ == sort_cuts(cuts@.take(n as int)),
            sorted@.len() == n,
        decreases cuts.len() - n,
    {
        let cut = cuts[n];
        let mut at: usize = sorted.len();
        while at > 0 && sorted[at - 1].entry > cut.entry
            invariant
                at <= sorted.len(),
                forall|i: int| at <= i < sorted@.len() ==> sorted@[i].entry > cut.entry,
            decreases at,
        {
            at = at - 1;
        }
        proof {
            lemma_insert_cut_at(sorted@, cut, at as int);
            assert(cuts@.take(n + 1).drop_last() =~= cuts@.take(n as int));
        }
        sorted.insert(at, cut);
        n = n + 1;
    }
    proof {
        assert(cuts@.take(n as int) =~= cuts@);
        lemma_sort_cuts(cuts@);
    }
    sorted
}

} // verus!
