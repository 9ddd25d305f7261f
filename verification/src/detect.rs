//! Which road outlines are tested against which, and the intersections that
//! their overlaps become.

use vstd::prelude::*;
use itertools::Itertools;
use crate::prototype::{IntersectionPrototype, OverlapRegion};

verus! {

/// The place of the pair `(i, j)` among all pairs of indices below `n`, row
/// by row.
pub open spec fn grid_index(n: int, i: int, j: int) -> int {
    i * n + j
}

/// All pairs of indices below `n`, by `Itertools::cartesian_product` of the
/// range `0..n` with itself. The contract states what the documentation of
/// that adaptor shows: every pair of an item of the first iterator with an
/// item of the second, those of one first item together and in the order of
/// the second iterator. It asks for so few pairs that collecting them cannot
/// exceed the size that a vector may have.
#[verifier::external_body]
fn index_grid(n: usize) -> (grid: Vec<(usize, usize)>)
    requires
        n * n <= usize::MAX / 32,
    ensures
        grid@.len() == n * n,
        forall|i: int, j: int|
            0 <= i < n && 0 <= j < n ==> grid@[#[trigger] grid_index(n as int, i, j)] == (
                i as usize,
                j as usize,
            ),
{
    (0..n).cartesian_product(0..n).collect()
}

/// The pairs `(i, j)` with `j` below `upto` and other than `i`, in
/// ascending order of `j`.
pub open spec fn partners(i: usize, upto: nat) -> Seq<(usize, usize)>
    decreases upto,
{
    if upto == 0 {
        Seq::empty()
    } else if upto - 1 == i {
        partners(i, (upto - 1) as nat)
    } else {
        partners(i, (upto - 1) as nat).push((i, (upto - 1) as usize))
    }
}

/// The pairs of two different indices below `n` whose first index is below
/// `rows`: row by row, each row in ascending order.
pub open spec fn pairs_of_rows(n: nat, rows: nat) -> Seq<(usize, usize)>
    decreases rows,
{
    if rows == 0 {
        Seq::empty()
    } else {
        pairs_of_rows(n, (rows - 1) as nat) + partners((rows - 1) as usize, n)
    }
}

/// All ordered pairs of two different indices below `n`.
pub open spec fn ordered_pairs(n: nat) -> Seq<(usize, usize)> {
    pairs_of_rows(n, n)
}

/// Whether `a` comes before `b` when pairs are ordered by their first
/// index, and by the second where the first is the same.
pub open spec fn pair_before(a: (usize, usize), b: (usize, usize)) -> bool {
    a.0 < b.0 || (a.0 == b.0 && a.1 < b.1)
}

/// What one row of pairs holds, and in which order.
pub proof fn lemma_partners(i: usize, upto: nat)
    requires
        upto <= usize::MAX,
    ensures
        partners(i, upto).len() == if i < upto {
            upto - 1
        } else {
            upto as int
        },
        forall|m: int|
            0 <= m < partners(i, upto).len() ==> {
                let pair = #[trigger] partners(i, upto)[m];
                pair.0 == i && pair.1 < upto && pair.1 != i
            },
        forall|j: usize| j < upto && j != i ==> partners(i, upto).contains((i, j)),
        forall|a: int, b: int|
            0 <= a < b < partners(i, upto).len() ==> pair_before(
                #[trigger] partners(i, upto)[a],
                #[trigger] partners(i, upto)[b],
            ),
    decreases upto,
{
    if upto > 0 {
        let before = partners(i, (upto - 1) as nat);
        let row = partners(i, upto);
        lemma_partners(i, (upto - 1) as nat);
        assert forall|j: usize| j < upto && j != i implies row.contains((i, j)) by {
            if j < upto - 1 {
                assert(before.contains((i, j)));
                let m = choose|m: int| 0 <= m < before.len() && before[m] == (i, j);
                assert(row[m] == (i, j));
            } else {
                assert(row[row.len() - 1] == (i, j));
            }
        }
    }
}

/// The pairs are those of two different indices below `n`, each of them
/// once: none pairs an index with itself, none is missing, and they stand in
/// ascending order, so none comes twice.
pub proof fn lemma_pairs_of_rows(n: nat, rows: nat)
    requires
        rows <= n <= usize::MAX,
    ensures
        pairs_of_rows(n, rows).len() == rows * (n - 1),
        forall|m: int|
            0 <= m < pairs_of_rows(n, rows).len() ==> {
                let pair = #[trigger] pairs_of_rows(n, rows)[m];
                pair.0 < rows && pair.1 < n && pair.0 != pair.1
            },
        forall|i: usize, j: usize|
            i < rows && j < n && i != j ==> pairs_of_rows(n, rows).contains((i, j)),
        forall|a: int, b: int|
            0 <= a < b < pairs_of_rows(n, rows).len() ==> pair_before(
                #[trigger] pairs_of_rows(n, rows)[a],
                #[trigger] pairs_of_rows(n, rows)[b],
            ),
    decreases rows,
{
    if rows > 0 {
        let i = (rows - 1) as usize;
        let before = pairs_of_rows(n, (rows - 1) as nat);
        let row = partners(i, n);
        let all = pairs_of_rows(n, rows);
        lemma_pairs_of_rows(n, (rows - 1) as nat);
        lemma_partners(i, n);
        assert(all.len() == rows * (n - 1)) by (nonlinear_arith)
            requires
                all.len() == (rows - 1) * (n - 1) + (n - 1),
        ;
        assert forall|m: int| 0 <= m < all.len() implies {
            let pair = #[trigger] all[m];
            pair.0 < rows && pair.1 < n && pair.0 != pair.1
        } by {
            if m < before.len() {
                assert(all[m] == before[m]);
            } else {
                assert(all[m] == row[m - before.len()]);
            }
        }
        assert forall|i2: usize, j: usize| i2 < rows && j < n && i2 != j implies all.contains(
            (i2, j),
        ) by {
            if i2 < rows - 1 {
                assert(before.contains((i2, j)));
                let m = choose|m: int| 0 <= m < before.len() && before[m] == (i2, j);
                assert(all[m] == (i2, j));
            } else {
                assert(row.contains((i2, j)));
                let m = choose|m: int| 0 <= m < row.len() && row[m] == (i2, j);
                assert(all[before.len() + m] == (i2, j));
            }
        }
        assert forall|a: int, b: int| 0 <= a < b < all.len() implies pair_before(
            #[trigger] all[a],
            #[trigger] all[b],
        ) by {
            if b < before.len() {
                assert(all[a] == before[a] && all[b] == before[b]);
            } else if a < before.len() {
                assert(all[a] == before[a] && all[b] == row[b - before.len()]);
            } else {
                assert(all[a] == row[a - before.len()] && all[b] == row[b - before.len()]);
            }
        }
    } else {
        assert(0 * (n - 1) == 0);
    }
}

/// The pairs of road outlines that are tested for overlap, in the order of
/// the tests: every outline against every other, so each two of them meet
/// twice, once in either order. No outline is tested against itself. The
/// number of outlines is limited by what a vector of all their pairs may
/// hold.
pub fn outline_pairs(n: usize) -> (pairs: Vec<(usize, usize)>)
    requires
        n * n <= usize::MAX / 32,
    ensures
        pairs@ == ordered_pairs(n as nat),
        pairs@.len() == n * (n - 1),
        forall|m: int|
            0 <= m < pairs@.len() ==> {
                let pair = #[trigger] pairs@[m];
                pair.0 < n && pair.1 < n && pair.0 != pair.1
            },
        forall|i: usize, j: usize| i < n && j < n && i != j ==> pairs@.contains((i, j)),
        forall|a: int, b: int|
            0 <= a < b < pairs@.len() ==> pair_before(#[trigger] pairs@[a], #[trigger] pairs@[b]),
{
    let grid = index_grid(n);
    let mut pairs: Vec<(usize, usize)> = Vec::new();
    let mut k: usize = 0;
    let mut i: usize = 0;
    while i < n
        invariant
            i <= n,
            n * n <= usize::MAX,
            grid@.len() == n * n,
            forall|i: int, j: int|
                0 <= i < n && 0 <= j < n ==> grid@[#[trigger] grid_index(n as int, i, j)] == (
                    i as usize,
                    j as usize,
                ),
            k == i * n,
            pairs@ == pairs_of_rows(n as nat, i as nat),
        decreases n - i,
    {
        let ghost before = pairs@;
        let mut j: usize = 0;
        while j < n
            invariant
                i < n,
                j <= n,
                n * n <= usize::MAX,
                grid@.len() == n * n,
                forall|i: int, j: int|
                    0 <= i < n && 0 <= j < n ==> grid@[#[trigger] grid_index(n as int, i, j)] == (
                        i as usize,
                        j as usize,
                    ),
                k == i * n + j,
                pairs@ == before + partners(i, j as nat),
            decreases n - j,
        {
            proof {
                assert(i * n + j < n * n) by (nonlinear_arith)
                    requires
                        i < n,
                        j < n,
                ;
                assert(grid@[grid_index(n as int, i as int, j as int)] == (i, j));
            }
            let pair = grid[k];
            if pair.0 != pair.1 {
                pairs.push(pair);
                proof {
                    assert(pairs@ =~= before + partners(i, (j + 1) as nat));
                }
            }
            k = k + 1;
            j = j + 1;
        }
        proof {
            assert(i * n + n == (i + 1) * n) by (nonlinear_arith);
        }
        i = i + 1;
    }
    proof {
        lemma_pairs_of_rows(n as nat, n as nat);
    }
    pairs
}

/// How many regions a test for overlap gave: none where the clipping
/// failed.
pub open spec fn region_count(outcome: Option<usize>) -> nat {
    match outcome {
        Some(count) => count as nat,
        None => 0,
    }
}

/// The first `count` parts of the overlap of one pair of outlines.
pub open spec fn parts_of(pair: (usize, usize), count: nat) -> Seq<OverlapRegion> {
    Seq::new(count, |part: int| OverlapRegion { first: pair.0, second: pair.1, part: part as usize })
}

/// The regions of all overlaps: those of the first pair, then those of the
/// second, and so on, the parts of each overlap in their order.
pub open spec fn overlap_regions(pairs: Seq<(usize, usize)>, outcomes: Seq<Option<usize>>) -> Seq<
    OverlapRegion,
>
    decreases pairs.len(),
{
    if pairs.len() == 0 || outcomes.len() != pairs.len() {
        Seq::empty()
    } else {
        overlap_regions(pairs.drop_last(), outcomes.drop_last()) + parts_of(
            pairs.last(),
            region_count(outcomes.last()),
        )
    }
}

/// The regions that the intersections cover, in their order.
pub open spec fn shapes_of(intersections: Seq<IntersectionPrototype>) -> Seq<OverlapRegion> {
    Seq::new(intersections.len(), |k: int| intersections[k].shape)
}

/// Makes one intersection of every region in which two outlines overlap.
/// `outcomes` holds for each pair, in the order of `pairs`, the number of
/// regions that clipping the first outline by the second gave, or `None`
/// where the clipping failed: such a pair counts like one without overlap.
pub fn intersections_of(pairs: &Vec<(usize, usize)>, outcomes: &Vec<Option<usize>>) -> (intersections:
    Vec<IntersectionPrototype>)
    requires
        pairs@.len() == outcomes@.len(),
    ensures
        shapes_of(intersections@) == overlap_regions(pairs@, outcomes@),
        forall|k: int| 0 <= k < intersections@.len() ==> (#[trigger] intersections@[k]).is_fresh(),
{
    let mut intersections: Vec<IntersectionPrototype> = Vec::new();
    let mut m: usize = 0;
    while m < pairs.len()
        invariant
            m <= pairs@.len(),
            pairs@.len() == outcomes@.len(),
            shapes_of(intersections@) == overlap_regions(
                pairs@.take(m as int),
                outcomes@.take(m as int),
            ),
            forall|k: int|
                0 <= k < intersections@.len() ==> (#[trigger] intersections@[k]).is_fresh(),
        decreases pairs@.len() - m,
    {
        let pair = pairs[m];
        let count: usize = match outcomes[m] {
            Some(count) => count,
            None => 0,
        };
        let ghost before = shapes_of(intersections@);
        let mut part: usize = 0;
        while part < count
            invariant
                part <= count,
                shapes_of(intersections@) == before + parts_of(pair, part as nat),
                forall|k: int|
                    0 <= k < intersections@.len() ==> (#[trigger] intersections@[k]).is_fresh(),
            decreases count - part,
        {
            let ghost old_shapes = shapes_of(intersections@);
            intersections.push(
                IntersectionPrototype::new(
                    OverlapRegion { first: pair.0, second: pair.1, part },
                ),
            );
            proof {
                assert(shapes_of(intersections@) =~= old_shapes.push(
                    OverlapRegion { first: pair.0, second: pair.1, part },
                ));
                assert(shapes_of(intersections@) =~= before + parts_of(pair, (part + 1) as nat));
            }
            part = part + 1;
        }
        proof {
            assert(pairs@.take(m + 1).drop_last() =~= pairs@.take(m as int));
            assert(outcomes@.take(m + 1).drop_last() =~= outcomes@.take(m as int));
            assert(before + parts_of(pair, 0) =~= before);
        }
        m = m + 1;
    }
    proof {
        assert(pairs@.take(m as int) =~= pairs@);
        assert(outcomes@.take(m as int) =~= outcomes@);
    }
    intersections
}

/// Every region comes from one of the tested pairs, and is one of the parts
/// that the test of that pair gave.
pub proof fn lemma_overlap_regions(pairs: Seq<(usize, usize)>, outcomes: Seq<Option<usize>>)
    requires
        pairs.len() == outcomes.len(),
    ensures
        forall|k: int|
            0 <= k < overlap_regions(pairs, outcomes).len() ==> exists|m: int|
                {
                    let region = #[trigger] overlap_regions(pairs, outcomes)[k];
                    0 <= m < pairs.len() && (region.first, region.second) == #[trigger] pairs[m]
                        && region.part < region_count(outcomes[m])
                },
    decreases pairs.len(),
{
    if pairs.len() > 0 {
        let last = pairs.len() - 1;
        let before = overlap_regions(pairs.drop_last(), outcomes.drop_last());
        let regions = overlap_regions(pairs, outcomes);
        lemma_overlap_regions(pairs.drop_last(), outcomes.drop_last());
        assert forall|k: int| 0 <= k < regions.len() implies exists|m: int|
            {
                let region = #[trigger] regions[k];
                0 <= m < pairs.len() && (region.first, region.second) == #[trigger] pairs[m]
                    && region.part < region_count(outcomes[m])
            } by {
            if k < before.len() {
                assert(regions[k] == before[k]);
                let m = choose|m: int|
                    0 <= m < pairs.drop_last().len() && (before[k].first, before[k].second)
                        == #[trigger] pairs.drop_last()[m] && before[k].part < region_count(
                        outcomes.drop_last()[m],
                    );
                assert(pairs[m] == pairs.drop_last()[m]);
                assert(outcomes[m] == outcomes.drop_last()[m]);
            } else {
                assert((regions[k].first, regions[k].second) == pairs[last]);
                assert(outcomes[last] == outcomes.last());
            }
        }
    }
}

/// No intersection is the overlap of a road outline with itself, whatever
/// the tests for overlap gave.
pub proof fn lemma_no_self_intersection(n: nat, outcomes: Seq<Option<usize>>)
    requires
        n <= usize::MAX,
        outcomes.len() == ordered_pairs(n).len(),
    ensures
        forall|k: int|
            0 <= k < overlap_regions(ordered_pairs(n), outcomes).len() ==> {
                let region = #[trigger] overlap_regions(ordered_pairs(n), outcomes)[k];
                region.first != region.second && region.first < n && region.second < n
            },
{
    let pairs = ordered_pairs(n);
    let regions = overlap_regions(pairs, outcomes);
    lemma_pairs_of_rows(n, n);
    lemma_overlap_regions(pairs, outcomes);
    assert forall|k: int| 0 <= k < regions.len() implies {
        let region = #[trigger] regions[k];
        region.first != region.second && region.first < n && region.second < n
    } by {
        let m = choose|m: int|
            0 <= m < pairs.len() && (regions[k].first, regions[k].second) == #[trigger] pairs[m]
                && regions[k].part < region_count(outcomes[m]);
    }
}

} // verus!
