//! Cutting a lane path where it runs through intersections.
//!
//! Distances along a lane path are `i64` keys. They are compared and never
//! added, so any encoding of the caller's measure that keeps its order and
//! maps the start of the path to zero will do.

use vstd::prelude::*;
use crate::cuts::{sort_by_entry, sort_cuts, Cut};
use crate::prototype::{IntersectionConnector, IntersectionPrototype, LanePrototype, Passage};

verus! {

/// What was measured of one lane path against one intersection: the
/// distances along the lane at which it crosses the intersection's boundary,
/// and whether its two end points lie inside the intersection.
#[derive(Clone, Debug)]
pub struct Crossing {
    pub distances: Vec<i64>,
    pub start_inside: bool,
    pub end_inside: bool,
}

/// The smallest of the distances; zero if there is none.
pub open spec fn least(distances: Seq<i64>) -> i64
    decreases distances.len(),
{
    if distances.len() == 0 {
        0
    } else if distances.len() == 1 {
        distances[0]
    } else if distances.last() < least(distances.drop_last()) {
        distances.last()
    } else {
        least(distances.drop_last())
    }
}

/// The largest of the distances; zero if there is none.
pub open spec fn greatest(distances: Seq<i64>) -> i64
    decreases distances.len(),
{
    if distances.len() == 0 {
        0
    } else if distances.len() == 1 {
        distances[0]
    } else if distances.last() > greatest(distances.drop_last()) {
        distances.last()
    } else {
        greatest(distances.drop_last())
    }
}

/// `least` and `greatest` are members of the sequence and bound all of it.
pub proof fn lemma_least_greatest(distances: Seq<i64>)
    requires
        distances.len() > 0,
    ensures
        distances.contains(least(distances)),
        distances.contains(greatest(distances)),
        forall|i: int| 0 <= i < distances.len() ==> least(distances) <= #[trigger] distances[i],
        forall|i: int| 0 <= i < distances.len() ==> #[trigger] distances[i] <= greatest(distances),
    decreases distances.len(),
{
    if distances.len() == 1 {
        assert(distances[0] == least(distances));
    } else {
        let front = distances.drop_last();
        lemma_least_greatest(front);
        let lo = choose|i: int| 0 <= i < front.len() && front[i] == least(front);
        let hi = choose|i: int| 0 <= i < front.len() && front[i] == greatest(front);
        assert(distances[lo] == least(front));
        assert(distances[hi] == greatest(front));
        assert(distances[distances.len() - 1] == distances.last());
        assert forall|i: int| 0 <= i < distances.len() implies least(distances)
            <= #[trigger] distances[i] by {
            if i < front.len() {
                assert(front[i] == distances[i]);
            }
        }
        assert forall|i: int| 0 <= i < distances.len() implies #[trigger] distances[i]
            <= greatest(distances) by {
            if i < front.len() {
                assert(front[i] == distances[i]);
            }
        }
    }
}

impl Crossing {
    /// How the lane passes the intersection. With two or more crossing
    /// points it runs through, from the first of them to the last. With one
    /// crossing point it leaves if it starts inside, and else arrives if it
    /// ends inside. In every other case the two stay apart.
    pub open spec fn passage(self) -> Passage {
        let distances = self.distances@;
        if distances.len() >= 2 {
            Passage::Through { entry: least(distances), exit: greatest(distances) }
        } else if distances.len() == 1 && self.start_inside {
            Passage::Leaving { exit: distances[0] }
        } else if distances.len() == 1 && self.end_inside {
            Passage::Arriving { entry: distances[0] }
        } else {
            Passage::Apart
        }
    }

    /// Classifies the measurement.
    pub fn classify(&self) -> (passage: Passage)
        ensures
            passage == self.passage(),
            passage matches Passage::Through { entry, exit } ==> {
                &&& self.distances@.contains(entry)
                &&& self.distances@.contains(exit)
                &&& forall|i: int|
                    0 <= i < self.distances@.len() ==> entry <= #[trigger] self.distances@[i]
                        <= exit
            },
    {
        let n = self.distances.len();
        if n >= 2 {
            let mut entry: i64 = self.distances[0];
            let mut exit: i64 = self.distances[0];
            let mut i: usize = 1;
            while i < n
                invariant
                    1 <= i <= n,
                    n == self.distances@.len(),
                    entry == least(self.distances@.take(i as int)),
                    exit == greatest(self.distances@.take(i as int)),
                decreases n - i,
            {
                proof {
                    assert(self.distances@.take(i + 1).drop_last() =~= self.distances@.take(
                        i as int,
                    ));
                }
                let d = self.distances[i];
                if d < entry {
                    entry = d;
                }
                if d > exit {
                    exit = d;
                }
                i = i + 1;
            }
            proof {
                assert(self.distances@.take(n as int) =~= self.distances@);
                lemma_least_greatest(self.distances@);
            }
            Passage::Through { entry, exit }
        } else if n == 1 && self.start_inside {
            Passage::Leaving { exit: self.distances[0] }
        } else if n == 1 && self.end_inside {
            Passage::Arriving { entry: self.distances[0] }
        } else {
            Passage::Apart
        }
    }
}

/// The distance before which the lane is dropped because it begins inside
/// an intersection: the largest exit among the intersections it leaves, and
/// zero if it leaves none.
pub open spec fn start_trim(crossings: Seq<Crossing>) -> i64
    decreases crossings.len(),
{
    if crossings.len() == 0 {
        0
    } else {
        let before = start_trim(crossings.drop_last());
        match crossings.last().passage() {
            Passage::Leaving { exit } => if exit > before {
                exit
            } else {
                before
            },
            _ => before,
        }
    }
}

/// The distance behind which the lane is dropped because it ends inside an
/// intersection: the smallest entry among the intersections it arrives in,
/// and the lane's length if it arrives in none.
pub open spec fn end_trim(length: i64, crossings: Seq<Crossing>) -> i64
    decreases crossings.len(),
{
    if crossings.len() == 0 {
        length
    } else {
        let before = end_trim(length, crossings.drop_last());
        match crossings.last().passage() {
            Passage::Arriving { entry } => if entry < before {
                entry
            } else {
                before
            },
            _ => before,
        }
    }
}

/// The stretches in which the lane runs through an intersection, in the
/// order of the intersections.
pub open spec fn through_cuts(crossings: Seq<Crossing>) -> Seq<Cut>
    decreases crossings.len(),
{
    if crossings.len() == 0 {
        Seq::empty()
    } else {
        let before = through_cuts(crossings.drop_last());
        match crossings.last().passage() {
            Passage::Through { entry, exit } => before.push(Cut { entry, exit }),
            _ => before,
        }
    }
}

/// The stretches between the cuts: from `start` to the first cut, from each
/// cut's exit to the next cut's entry, and from the last cut to `end`.
pub open spec fn spans_between(lane: usize, start: i64, cuts: Seq<Cut>, end: i64) -> Seq<
    LanePrototype,
> {
    Seq::new(
        cuts.len() + 1,
        |i: int|
            LanePrototype {
                lane,
                from: if i == 0 {
                    start
                } else {
                    cuts[i - 1].exit
                },
                to: if i == cuts.len() {
                    end
                } else {
                    cuts[i].entry
                },
            },
    )
}

/// The spans that have a length: those that end behind where they begin.
pub open spec fn proper_spans(spans: Seq<LanePrototype>) -> Seq<LanePrototype>
    decreases spans.len(),
{
    if spans.len() == 0 {
        Seq::empty()
    } else if spans.last().from < spans.last().to {
        proper_spans(spans.drop_last()).push(spans.last())
    } else {
        proper_spans(spans.drop_last())
    }
}

/// The stretches of lane number `lane`, of the given length, that lie
/// outside of all intersections.
pub open spec fn lane_pieces(lane: usize, length: i64, crossings: Seq<Crossing>) -> Seq<
    LanePrototype,
> {
    proper_spans(
        spans_between(
            lane,
            start_trim(crossings),
            sort_cuts(through_cuts(crossings)),
            end_trim(length, crossings),
        ),
    )
}

/// The start trim is zero or the exit of an intersection that the lane
/// leaves, and no such exit lies behind it. The end trim is the length or
/// the entry of an intersection that the lane arrives in, and no such entry
/// lies before it.
pub proof fn lemma_trims(length: i64, crossings: Seq<Crossing>)
    ensures
        start_trim(crossings) >= 0,
        forall|k: int|
            0 <= k < crossings.len() ==> (#[trigger] crossings[k].passage() matches Passage::Leaving {
                exit,
            } ==> exit <= start_trim(crossings)),
        start_trim(crossings) == 0 || exists|k: int|
            0 <= k < crossings.len() && #[trigger] crossings[k].passage() == (Passage::Leaving {
                exit: start_trim(crossings),
            }),
        end_trim(length, crossings) <= length,
        forall|k: int|
            0 <= k < crossings.len() ==> (#[trigger] crossings[k].passage() matches Passage::Arriving {
                entry,
            } ==> end_trim(length, crossings) <= entry),
        end_trim(length, crossings) == length || exists|k: int|
            0 <= k < crossings.len() && #[trigger] crossings[k].passage() == (Passage::Arriving {
                entry: end_trim(length, crossings),
            }),
    decreases crossings.len(),
{
    if crossings.len() > 0 {
        let front = crossings.drop_last();
        let last = crossings.len() - 1;
        lemma_trims(length, front);
        assert(crossings[last] == crossings.last());
        assert forall|k: int| 0 <= k < crossings.len() implies (
        #[trigger] crossings[k].passage() matches Passage::Leaving { exit } ==> exit <= start_trim(
            crossings,
        )) by {
            if k < last {
                assert(front[k] == crossings[k]);
            }
        }
        assert forall|k: int| 0 <= k < crossings.len() implies (
        #[trigger] crossings[k].passage() matches Passage::Arriving { entry } ==> end_trim(
            length,
            crossings,
        ) <= entry) by {
            if k < last {
                assert(front[k] == crossings[k]);
            }
        }
        if start_trim(crossings) != 0 {
            if start_trim(crossings) == start_trim(front) {
                let k = choose|k: int|
                    0 <= k < front.len() && #[trigger] front[k].passage() == (Passage::Leaving {
                        exit: start_trim(front),
                    });
                assert(crossings[k] == front[k]);
            } else {
                assert(crossings[last].passage() == (Passage::Leaving {
                    exit: start_trim(crossings),
                }));
            }
        }
        if end_trim(length, crossings) != length {
            if end_trim(length, crossings) == end_trim(length, front) {
                let k = choose|k: int|
                    0 <= k < front.len() && #[trigger] front[k].passage() == (Passage::Arriving {
                        entry: end_trim(length, front),
                    });
                assert(crossings[k] == front[k]);
            } else {
                assert(crossings[last].passage() == (Passage::Arriving {
                    entry: end_trim(length, crossings),
                }));
            }
        }
    }
}

/// Every cut comes from an intersection that the lane runs through, so it
/// does not exit before it enters.
pub proof fn lemma_through_cuts(crossings: Seq<Crossing>)
    ensures
        forall|i: int|
            0 <= i < through_cuts(crossings).len() ==> (#[trigger] through_cuts(
                crossings,
            )[i]).entry <= through_cuts(crossings)[i].exit,
        forall|i: int|
            0 <= i < through_cuts(crossings).len() ==> exists|k: int|
                0 <= k < crossings.len() && #[trigger] crossings[k].passage() == (Passage::Through {
                    entry: (#[trigger] through_cuts(crossings)[i]).entry,
                    exit: through_cuts(crossings)[i].exit,
                }),
    decreases crossings.len(),
{
    if crossings.len() > 0 {
        let front = crossings.drop_last();
        let last = crossings.len() - 1;
        lemma_through_cuts(front);
        assert(crossings[last] == crossings.last());
        let cuts = through_cuts(crossings);
        if crossings.last().distances@.len() >= 2 {
            lemma_least_greatest(crossings.last().distances@);
        }
        assert forall|i: int| 0 <= i < cuts.len() implies exists|k: int|
            0 <= k < crossings.len() && #[trigger] crossings[k].passage() == (Passage::Through {
                entry: (#[trigger] cuts[i]).entry,
                exit: cuts[i].exit,
            }) by {
            if i < through_cuts(front).len() {
                let k = choose|k: int|
                    0 <= k < front.len() && #[trigger] front[k].passage() == (Passage::Through {
                        entry: through_cuts(front)[i].entry,
                        exit: through_cuts(front)[i].exit,
                    });
                assert(crossings[k] == front[k]);
            } else {
                assert(crossings[last].passage() == (Passage::Through {
                    entry: cuts[i].entry,
                    exit: cuts[i].exit,
                }));
            }
        }
    }
}

/// Whether `earlier` stands in `spans` at a place before one of `later`.
pub open spec fn stands_before(
    spans: Seq<LanePrototype>,
    earlier: LanePrototype,
    later: LanePrototype,
) -> bool {
    exists|i: int, j: int|
        0 <= i < j < spans.len() && #[trigger] spans[i] == earlier && #[trigger] spans[j] == later
}

/// The proper spans are spans, they have a length, and they keep their
/// order: each is found in `spans`, behind the one before it.
pub proof fn lemma_proper_spans(spans: Seq<LanePrototype>)
    ensures
        proper_spans(spans).len() <= spans.len(),
        forall|a: int|
            0 <= a < proper_spans(spans).len() ==> (#[trigger] proper_spans(spans)[a]).from
                < proper_spans(spans)[a].to,
        forall|a: int|
            0 <= a < proper_spans(spans).len() ==> spans.contains(#[trigger] proper_spans(spans)[a]),
        forall|i: int|
            0 <= i < spans.len() && spans[i].from < spans[i].to ==> proper_spans(spans).contains(
                #[trigger] spans[i],
            ),
        forall|a: int, b: int|
            0 <= a < b < proper_spans(spans).len() ==> stands_before(
                spans,
                #[trigger] proper_spans(spans)[a],
                #[trigger] proper_spans(spans)[b],
            ),
    decreases spans.len(),
{
    if spans.len() > 0 {
        let front = spans.drop_last();
        let last = spans.len() - 1;
        let kept = proper_spans(spans);
        let kept_front = proper_spans(front);
        lemma_proper_spans(front);
        assert(spans[last] == spans.last());
        assert forall|a: int| 0 <= a < kept.len() implies spans.contains(#[trigger] kept[a]) by {
            if a < kept_front.len() {
                let i = choose|i: int| 0 <= i < front.len() && front[i] == kept_front[a];
                assert(spans[i] == kept[a]);
            }
        }
        assert forall|i: int| 0 <= i < spans.len() && spans[i].from < spans[i].to implies kept.contains(
            #[trigger] spans[i],
        ) by {
            if i < last {
                assert(front[i] == spans[i]);
                let a = choose|a: int| 0 <= a < kept_front.len() && kept_front[a] == front[i];
                assert(kept[a] == spans[i]);
            } else {
                assert(kept[kept.len() - 1] == spans[i]);
            }
        }
        assert forall|a: int, b: int| 0 <= a < b < kept.len() implies stands_before(
            spans,
            #[trigger] kept[a],
            #[trigger] kept[b],
        ) by {
            if b < kept_front.len() {
                assert(stands_before(front, kept_front[a], kept_front[b]));
                let (i, j) = choose|i: int, j: int|
                    0 <= i < j < front.len() && #[trigger] front[i] == kept_front[a]
                        && #[trigger] front[j] == kept_front[b];
                assert(spans[i] == kept[a] && spans[j] == kept[b]);
            } else {
                let i = choose|i: int| 0 <= i < front.len() && front[i] == kept_front[a];
                assert(spans[i] == kept[a] && spans[last] == kept[b]);
            }
        }
    }
}

/// The pieces of a lane belong to that lane, have a length, come in the
/// lane's direction and do not overlap: each ends before the next begins.
pub proof fn lemma_pieces_in_order(lane: usize, length: i64, crossings: Seq<Crossing>)
    ensures
        forall|a: int|
            0 <= a < lane_pieces(lane, length, crossings).len() ==> {
                let piece = #[trigger] lane_pieces(lane, length, crossings)[a];
                piece.lane == lane && piece.from < piece.to
            },
        forall|a: int, b: int|
            0 <= a < b < lane_pieces(lane, length, crossings).len() ==> (#[trigger] lane_pieces(
                lane,
                length,
                crossings,
            )[a]).to <= (#[trigger] lane_pieces(lane, length, crossings)[b]).from,
{
    let cuts = sort_cuts(through_cuts(crossings));
    let spans = spans_between(lane, start_trim(crossings), cuts, end_trim(length, crossings));
    let pieces = lane_pieces(lane, length, crossings);
    lemma_proper_spans(spans);
    lemma_through_cuts(crossings);
    crate::cuts::lemma_sort_cuts(through_cuts(crossings));
    crate::cuts::lemma_sort_cuts_members(through_cuts(crossings));
    assert forall|a: int| 0 <= a < pieces.len() implies {
        let piece = #[trigger] pieces[a];
        piece.lane == lane && piece.from < piece.to
    } by {
        let i = choose|i: int| 0 <= i < spans.len() && spans[i] == pieces[a];
    }
    assert forall|a: int, b: int| 0 <= a < b < pieces.len() implies (#[trigger] pieces[a]).to <= (
    #[trigger] pieces[b]).from by {
        assert(stands_before(spans, pieces[a], pieces[b]));
        let (i, j) = choose|i: int, j: int|
            0 <= i < j < spans.len() && #[trigger] spans[i] == pieces[a] && #[trigger] spans[j]
                == pieces[b];
        assert(spans[i].to == cuts[i].entry);
        assert(spans[j].from == cuts[j - 1].exit);
        assert(cuts[i].entry <= cuts[j - 1].entry);
        let w = choose|w: int|
            0 <= w < through_cuts(crossings).len() && through_cuts(crossings)[w] == cuts[j - 1];
        assert(through_cuts(crossings)[w].entry <= through_cuts(crossings)[w].exit);
    }
}

/// A lane that crosses no intersection stays whole: from its start to its
/// end, if it has a length.
pub proof fn lemma_uncrossed_lane(lane: usize, length: i64, crossings: Seq<Crossing>)
    requires
        forall|k: int| 0 <= k < crossings.len() ==> (#[trigger] crossings[k]).distances@.len() == 0,
    ensures
        start_trim(crossings) == 0,
        end_trim(length, crossings) == length,
        through_cuts(crossings).len() == 0,
        length > 0 ==> lane_pieces(lane, length, crossings) == seq![
            LanePrototype { lane, from: 0, to: length },
        ],
        length <= 0 ==> lane_pieces(lane, length, crossings).len() == 0,
    decreases crossings.len(),
{
    if crossings.len() > 0 {
        assert(crossings[crossings.len() - 1] == crossings.last());
        assert forall|k: int| 0 <= k < crossings.drop_last().len() implies (
        #[trigger] crossings.drop_last()[k]).distances@.len() == 0 by {
            assert(crossings.drop_last()[k] == crossings[k]);
        }
        lemma_uncrossed_lane(lane, length, crossings.drop_last());
    }
    assert(through_cuts(crossings) =~= Seq::empty());
    assert(sort_cuts(through_cuts(crossings)) =~= Seq::empty());
    let spans = spans_between(lane, 0, Seq::empty(), length);
    assert(spans.len() == 1);
    assert(spans.drop_last() =~= Seq::empty());
    assert(proper_spans(spans.drop_last()) =~= Seq::empty());
    if length > 0 {
        assert(proper_spans(spans) =~= seq![LanePrototype { lane, from: 0, to: length }]);
    }
}

/// What the trims and cuts are when the lane runs through intersection
/// number `k` and touches no other.
proof fn lemma_one_cut(length: i64, crossings: Seq<Crossing>, k: int)
    requires
        0 <= k < crossings.len(),
        crossings[k].distances@.len() >= 2,
        forall|j: int|
            0 <= j < crossings.len() && j != k ==> (#[trigger] crossings[j]).distances@.len() == 0,
    ensures
        start_trim(crossings) == 0,
        end_trim(length, crossings) == length,
        through_cuts(crossings) == seq![
            Cut {
                entry: least(crossings[k].distances@),
                exit: greatest(crossings[k].distances@),
            },
        ],
    decreases crossings.len(),
{
    let front = crossings.drop_last();
    let last = crossings.len() - 1;
    assert(crossings[last] == crossings.last());
    assert forall|j: int| 0 <= j < front.len() && j != k implies (#[trigger] front[j]).distances@.len()
        == 0 by {
        assert(front[j] == crossings[j]);
    }
    if k == last {
        lemma_uncrossed_lane(0, length, front);
        assert(through_cuts(front) =~= Seq::empty());
        assert(through_cuts(crossings) =~= seq![
            Cut {
                entry: least(crossings[k].distances@),
                exit: greatest(crossings[k].distances@),
            },
        ]);
    } else {
        assert(front[k] == crossings[k]);
        lemma_one_cut(length, front, k);
    }
}

/// A lane that crosses the boundary of one intersection twice or more, and
/// touches no other intersection, gives that intersection one incoming
/// connector, at the first crossing, and one outgoing connector, at the
/// last. What is left of the lane is the stretch before the first crossing
/// and the stretch behind the last, each if it has a length: no piece holds
/// any of the lane between the two.
pub proof fn lemma_lane_through_one_intersection(
    lane: usize,
    length: i64,
    crossings: Seq<Crossing>,
    k: int,
    before: IntersectionPrototype,
    after: IntersectionPrototype,
)
    requires
        0 <= k < crossings.len(),
        crossings[k].distances@.len() >= 2,
        forall|j: int|
            0 <= j < crossings.len() && j != k ==> (#[trigger] crossings[j]).distances@.len() == 0,
        after.is_connected_from(before, lane, crossings[k].passage()),
    ensures
        ({
            let entry = least(crossings[k].distances@);
            let exit = greatest(crossings[k].distances@);
            &&& entry <= exit
            &&& after.incoming@ == before.incoming@.push(
                IntersectionConnector { lane, distance: entry },
            )
            &&& after.outgoing@ == before.outgoing@.push(
                IntersectionConnector { lane, distance: exit },
            )
            &&& lane_pieces(lane, length, crossings) == proper_spans(
                seq![
                    LanePrototype { lane, from: 0, to: entry },
                    LanePrototype { lane, from: exit, to: length },
                ],
            )
            &&& forall|a: int|
                0 <= a < lane_pieces(lane, length, crossings).len() ==> {
                    let piece = #[trigger] lane_pieces(lane, length, crossings)[a];
                    piece.to <= entry || exit <= piece.from
                }
        }),
{
    let entry = least(crossings[k].distances@);
    let exit = greatest(crossings[k].distances@);
    let cut = Cut { entry, exit };
    lemma_one_cut(length, crossings, k);
    lemma_least_greatest(crossings[k].distances@);
    assert(crossings[k].distances@[0] <= exit);
    assert(seq![cut].drop_last() =~= Seq::empty());
    assert(sort_cuts(seq![cut].drop_last()) =~= Seq::empty());
    assert(sort_cuts(seq![cut]) =~= seq![cut]);
    let spans = spans_between(lane, 0, seq![cut], length);
    assert(spans =~= seq![
        LanePrototype { lane, from: 0, to: entry },
        LanePrototype { lane, from: exit, to: length },
    ]);
    lemma_proper_spans(spans);
    let pieces = lane_pieces(lane, length, crossings);
    assert forall|a: int| 0 <= a < pieces.len() implies {
        let piece = #[trigger] pieces[a];
        piece.to <= entry || exit <= piece.from
    } by {
        let i = choose|i: int| 0 <= i < spans.len() && spans[i] == pieces[a];
    }
}

/// Whether no piece of the lane begins where a stretch through an
/// intersection ends before `distance`: behind every such stretch, the next
/// stretch begins, or the lane is trimmed, no later than the stretch ends.
pub open spec fn no_piece_behind_cut_before(
    length: i64,
    crossings: Seq<Crossing>,
    distance: i64,
) -> bool {
    let cuts = sort_cuts(through_cuts(crossings));
    &&& forall|i: int, j: int|
        0 <= i && i + 1 == j && j < cuts.len() && (#[trigger] cuts[i]).exit < distance
            ==> cuts[i].exit >= (#[trigger] cuts[j]).entry
    &&& cuts.len() > 0 && cuts.last().exit < distance ==> cuts.last().exit >= end_trim(
        length,
        crossings,
    )
}

/// A lane that begins inside an intersection, and crosses its boundary once,
/// has no piece that begins before that crossing, unless a piece begins where
/// the lane's stretch through another intersection ends before it.
pub proof fn lemma_lane_starting_inside(
    lane: usize,
    length: i64,
    crossings: Seq<Crossing>,
    k: int,
)
    requires
        0 <= k < crossings.len(),
        crossings[k].distances@.len() == 1,
        crossings[k].start_inside,
        no_piece_behind_cut_before(length, crossings, crossings[k].distances@[0]),
    ensures
        crossings[k].passage() == (Passage::Leaving { exit: crossings[k].distances@[0] }),
        forall|a: int|
            0 <= a < lane_pieces(lane, length, crossings).len() ==> (#[trigger] lane_pieces(
                lane,
                length,
                crossings,
            )[a]).from >= crossings[k].distances@[0],
{
    let exit = crossings[k].distances@[0];
    let cuts = sort_cuts(through_cuts(crossings));
    let spans = spans_between(lane, start_trim(crossings), cuts, end_trim(length, crossings));
    let pieces = lane_pieces(lane, length, crossings);
    lemma_trims(length, crossings);
    lemma_proper_spans(spans);
    assert forall|a: int| 0 <= a < pieces.len() implies (#[trigger] pieces[a]).from >= exit by {
        let i = choose|i: int| 0 <= i < spans.len() && spans[i] == pieces[a];
        if i > 0 {
            assert(spans[i].from == cuts[i - 1].exit);
            if i < cuts.len() {
                assert(spans[i].to == cuts[i].entry);
            } else {
                assert(cuts[i - 1] == cuts.last());
            }
        }
    }
}

/// Cuts one lane at the intersections. `crossings` holds for each
/// intersection, in their order, what was measured of the lane against it.
/// Every intersection that the lane enters or leaves gets the connectors,
/// and the stretches of the lane outside of the intersections come back in
/// the lane's direction.
pub fn trim_lane(
    lane: usize,
    length: i64,
    crossings: &Vec<Crossing>,
    intersections: &mut Vec<IntersectionPrototype>,
) -> (pieces: Vec<LanePrototype>)
    requires
        crossings@.len() == old(intersections)@.len(),
    ensures
        final(intersections)@.len() == old(intersections)@.len(),
        forall|k: int|
            0 <= k < crossings@.len() ==> (#[trigger] final(intersections)@[k]).is_connected_from(
                old(intersections)@[k],
                lane,
                crossings@[k].passage(),
            ),
        pieces@ == lane_pieces(lane, length, crossings@),
{
    let mut start: i64 = 0;
    let mut end: i64 = length;
    let mut cuts: Vec<Cut> = Vec::new();
    let mut k: usize = 0;
    while k < crossings.len()
        invariant
            k <= crossings@.len(),
            crossings@.len() == old(intersections)@.len(),
            intersections@.len() == old(intersections)@.len(),
            forall|j: int|
                0 <= j < k ==> (#[trigger] intersections@[j]).is_connected_from(
                    old(intersections)@[j],
                    lane,
                    crossings@[j].passage(),
                ),
            forall|j: int| k <= j < crossings@.len() ==> intersections@[j] == old(intersections)@[j],
            start == start_trim(crossings@.take(k as int)),
            end == end_trim(length, crossings@.take(k as int)),
            cuts@ == through_cuts(crossings@.take(k as int)),
        decreases crossings@.len() - k,
    {
        proof {
            assert(crossings@.take(k + 1).drop_last() =~= crossings@.take(k as int));
        }
        let passage = crossings[k].classify();
        intersections[k].connect(lane, passage);
        match passage {
            Passage::Through { entry, exit } => {
                cuts.push(Cut { entry, exit });
            },
            Passage::Leaving { exit } => {
                if exit > start {
                    start = exit;
                }
            },
            Passage::Arriving { entry } => {
                if entry < end {
                    end = entry;
                }
            },
            Passage::Apart => {},
        }
        k = k + 1;
    }
    proof {
        assert(crossings@.take(k as int) =~= crossings@);
    }
    let sorted = sort_by_entry(&cuts);
    let ghost spans = spans_between(lane, start, sorted@, end);
    let mut pieces: Vec<LanePrototype> = Vec::new();
    let mut from: i64 = start;
    let mut i: usize = 0;
    while i < sorted.len()
        invariant
            i <= sorted@.len(),
            spans == spans_between(lane, start, sorted@, end),
            from == spans[i as int].from,
            pieces@ == proper_spans(spans.take(i as int)),
        decreases sorted@.len() - i,
    {
        proof {
            assert(spans.take(i + 1).drop_last() =~= spans.take(i as int));
        }
        let cut = sorted[i];
        if from < cut.entry {
            pieces.push(LanePrototype { lane, from, to: cut.entry });
        }
        from = cut.exit;
        i = i + 1;
    }
    proof {
        assert(spans.take(i + 1) =~= spans);
        assert(spans.drop_last() =~= spans.take(i as int));
    }
    if from < end {
        pieces.push(LanePrototype { lane, from, to: end });
    }
    pieces
}

} // verus!
