//! From the measurements of all lanes to the finished road network.

use vstd::prelude::*;
use crate::prototype::{
    incoming_after,
    outgoing_after,
    IntersectionConnector,
    IntersectionPrototype,
    LanePrototype,
    RoadPrototype,
};
use crate::trim::{lane_pieces, lemma_uncrossed_lane, trim_lane, Crossing};

verus! {

/// What was measured of one lane path: its length, and how it meets each
/// intersection, in the order of the intersections.
#[derive(Clone, Debug)]
pub struct LaneSurvey {
    pub length: i64,
    pub crossings: Vec<Crossing>,
}

/// Whether every lane was measured against each of `n` intersections.
pub open spec fn surveys_cover(lanes: Seq<LaneSurvey>, n: nat) -> bool {
    forall|l: int| 0 <= l < lanes.len() ==> (#[trigger] lanes[l]).crossings@.len() == n
}

/// The pieces of the first `upto` lanes: those of the first lane, then
/// those of the second, and so on.
pub open spec fn pieces_of_lanes(lanes: Seq<LaneSurvey>, upto: nat) -> Seq<LanePrototype>
    decreases upto,
{
    if upto == 0 {
        Seq::empty()
    } else {
        let lane = upto - 1;
        pieces_of_lanes(lanes, lane as nat) + lane_pieces(
            lane as usize,
            lanes[lane].length,
            lanes[lane].crossings@,
        )
    }
}

/// The incoming connectors of intersection number `k` once the first `upto`
/// lanes are connected to it, one lane after the other.
pub open spec fn incoming_of_lanes(
    before: Seq<IntersectionConnector>,
    lanes: Seq<LaneSurvey>,
    k: int,
    upto: nat,
) -> Seq<IntersectionConnector>
    decreases upto,
{
    if upto == 0 {
        before
    } else {
        let lane = upto - 1;
        incoming_after(
            incoming_of_lanes(before, lanes, k, lane as nat),
            lane as usize,
            lanes[lane].crossings@[k].passage(),
        )
    }
}

/// The outgoing connectors of intersection number `k` once the first `upto`
/// lanes are connected to it, one lane after the other.
pub open spec fn outgoing_of_lanes(
    before: Seq<IntersectionConnector>,
    lanes: Seq<LaneSurvey>,
    k: int,
    upto: nat,
) -> Seq<IntersectionConnector>
    decreases upto,
{
    if upto == 0 {
        before
    } else {
        let lane = upto - 1;
        outgoing_after(
            outgoing_of_lanes(before, lanes, k, lane as nat),
            lane as usize,
            lanes[lane].crossings@[k].passage(),
        )
    }
}

/// Whether `after` is `before` with the first `upto` lanes connected to it
/// as intersection number `k`, and nothing else changed.
pub open spec fn is_connected_to_lanes(
    after: IntersectionPrototype,
    before: IntersectionPrototype,
    lanes: Seq<LaneSurvey>,
    k: int,
    upto: nat,
) -> bool {
    &&& after.shape == before.shape
    &&& after.incoming@ == incoming_of_lanes(before.incoming@, lanes, k, upto)
    &&& after.outgoing@ == outgoing_of_lanes(before.outgoing@, lanes, k, upto)
    &&& after.connecting_lanes@ == before.connecting_lanes@
    &&& after.timings@ == before.timings@
}

/// Wraps intersections and lane pieces as prototypes: all intersections,
/// then all lane pieces, each group in its order.
fn wrap_prototypes(intersections: Vec<IntersectionPrototype>, pieces: Vec<LanePrototype>) -> (prototypes:
    Vec<RoadPrototype>)
    ensures
        prototypes@.len() == intersections@.len() + pieces@.len(),
        forall|k: int|
            0 <= k < intersections@.len() ==> #[trigger] prototypes@[k]
                == RoadPrototype::Intersection(intersections@[k]),
        forall|m: int|
            0 <= m < pieces@.len() ==> #[trigger] prototypes@[intersections@.len() + m]
                == RoadPrototype::Lane(pieces@[m]),
{
    let ghost given = intersections@;
    let mut rest = intersections;
    let mut reversed: Vec<IntersectionPrototype> = Vec::new();
    while rest.len() > 0
        invariant
            rest@.len() + reversed@.len() == given.len(),
            rest@ == given.take(rest@.len() as int),
            forall|j: int|
                0 <= j < reversed@.len() ==> #[trigger] reversed@[j] == given[given.len() - 1 - j],
        decreases rest@.len(),
    {
        let taken = rest.pop().unwrap();
        reversed.push(taken);
    }
    let mut prototypes: Vec<RoadPrototype> = Vec::new();
    while reversed.len() > 0
        invariant
            prototypes@.len() + reversed@.len() == given.len(),
            forall|j: int|
                0 <= j < reversed@.len() ==> #[trigger] reversed@[j] == given[given.len() - 1 - j],
            forall|k: int|
                0 <= k < prototypes@.len() ==> #[trigger] prototypes@[k]
                    == RoadPrototype::Intersection(given[k]),
        decreases reversed@.len(),
    {
        let taken = reversed.pop().unwrap();
        prototypes.push(RoadPrototype::Intersection(taken));
    }
    let mut m: usize = 0;
    while m < pieces.len()
        invariant
            m <= pieces@.len(),
            prototypes@.len() == given.len() + m,
            forall|k: int|
                0 <= k < given.len() ==> #[trigger] prototypes@[k] == RoadPrototype::Intersection(
                    given[k],
                ),
            forall|j: int|
                0 <= j < m ==> #[trigger] prototypes@[given.len() + j] == RoadPrototype::Lane(
                    pieces@[j],
                ),
        decreases pieces@.len() - m,
    {
        prototypes.push(RoadPrototype::Lane(pieces[m]));
        m = m + 1;
    }
    prototypes
}

/// Computes the road network from the intersections that were found and
/// the measurements of all lanes against them. The lanes are cut one after
/// the other, lane number `l` being `lanes[l]`. The result holds the
/// intersections, in their order and with the connectors of all lanes that
/// enter or leave them, and behind them the pieces of all lanes.
pub fn calculate_prototypes(intersections: Vec<IntersectionPrototype>, lanes: &Vec<LaneSurvey>) -> (prototypes:
    Vec<RoadPrototype>)
    requires
        surveys_cover(lanes@, intersections@.len()),
    ensures
        prototypes@.len() == intersections@.len() + pieces_of_lanes(lanes@, lanes@.len()).len(),
        forall|k: int|
            0 <= k < intersections@.len() ==> (#[trigger] prototypes@[k] matches RoadPrototype::Intersection(
                connected,
            ) && is_connected_to_lanes(connected, intersections@[k], lanes@, k, lanes@.len())),
        forall|m: int|
            0 <= m < pieces_of_lanes(lanes@, lanes@.len()).len() ==> #[trigger] prototypes@[intersections@.len()
                + m] == RoadPrototype::Lane(pieces_of_lanes(lanes@, lanes@.len())[m]),
{
    let ghost given = intersections@;
    let mut connected = intersections;
    let mut pieces: Vec<LanePrototype> = Vec::new();
    let mut l: usize = 0;
    while l < lanes.len()
        invariant
            l <= lanes@.len(),
            surveys_cover(lanes@, given.len()),
            connected@.len() == given.len(),
            forall|k: int|
                0 <= k < given.len() ==> is_connected_to_lanes(
                    #[trigger] connected@[k],
                    given[k],
                    lanes@,
                    k,
                    l as nat,
                ),
            pieces@ == pieces_of_lanes(lanes@, l as nat),
        decreases lanes@.len() - l,
    {
        let ghost before = connected@;
        let mut cut = trim_lane(l, lanes[l].length, &lanes[l].crossings, &mut connected);
        proof {
            assert forall|k: int| 0 <= k < given.len() implies is_connected_to_lanes(
                #[trigger] connected@[k],
                given[k],
                lanes@,
                k,
                (l + 1) as nat,
            ) by {
                assert(connected@[k].is_connected_from(
                    before[k],
                    l,
                    lanes@[l as int].crossings@[k].passage(),
                ));
                assert(is_connected_to_lanes(before[k], given[k], lanes@, k, l as nat));
            }
        }
        pieces.append(&mut cut);
        l = l + 1;
    }
    wrap_prototypes(connected, pieces)
}

/// Lanes that cross no intersection come out whole: there is one piece for
/// each lane, in the order of the lanes, from the lane's start to its end.
pub proof fn lemma_uncrossed_lanes(lanes: Seq<LaneSurvey>, upto: nat)
    requires
        upto <= lanes.len() <= usize::MAX,
        forall|l: int, k: int|
            0 <= l < lanes.len() && 0 <= k < lanes[l].crossings@.len() ==> (
            #[trigger] lanes[l].crossings@[k]).distances@.len() == 0,
        forall|l: int| 0 <= l < lanes.len() ==> (#[trigger] lanes[l]).length > 0,
    ensures
        pieces_of_lanes(lanes, upto) == Seq::new(
            upto,
            |l: int| LanePrototype { lane: l as usize, from: 0, to: lanes[l].length },
        ),
    decreases upto,
{
    if upto > 0 {
        let lane = upto - 1;
        lemma_uncrossed_lanes(lanes, lane as nat);
        lemma_uncrossed_lane(lane as usize, lanes[lane].length, lanes[lane].crossings@);
    }
    assert(pieces_of_lanes(lanes, upto) =~= Seq::new(
        upto,
        |l: int| LanePrototype { lane: l as usize, from: 0, to: lanes[l].length },
    ));
}

} // verus!
