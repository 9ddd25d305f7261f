//! The pieces of a finished road network: lanes and intersections.

use vstd::prelude::*;

verus! {

/// The region that an intersection covers: part number `part` of the
/// overlap of the outlines of roads `first` and `second`.
#[derive(Clone, Copy, Debug, PartialEq, Eq, Structural)]
pub struct OverlapRegion {
    pub first: usize,
    pub second: usize,
    pub part: usize,
}

/// One drivable stretch of a lane: the part of lane path number `lane`
/// between the distances `from` and `to`, with `from < to` wherever the
/// stretch was cut out by this library.
#[derive(Clone, Copy, Debug, PartialEq, Eq, Structural)]
pub struct LanePrototype {
    pub lane: usize,
    pub from: i64,
    pub to: i64,
}

/// The place where a lane enters or leaves an intersection: the point at
/// `distance` along lane path number `lane`, and the lane's direction there.
#[derive(Clone, Copy, Debug, PartialEq, Eq, Structural)]
pub struct IntersectionConnector {
    pub lane: usize,
    pub distance: i64,
}

/// How a lane passes an intersection.
#[derive(Clone, Copy, Debug, PartialEq, Eq, Structural)]
pub enum Passage {
    /// The lane does not touch the intersection.
    Apart,
    /// The lane runs through: it enters at `entry` and leaves at `exit`.
    Through { entry: i64, exit: i64 },
    /// The lane begins inside and leaves at `exit`.
    Leaving { exit: i64 },
    /// The lane enters at `entry` and ends inside.
    Arriving { entry: i64 },
}

/// The connectors `before` and, behind them, the place where `lane` enters
/// the intersection, if `passage` has one.
pub open spec fn incoming_after(
    before: Seq<IntersectionConnector>,
    lane: usize,
    passage: Passage,
) -> Seq<IntersectionConnector> {
    match passage {
        Passage::Through { entry, exit } => before.push(
            IntersectionConnector { lane, distance: entry },
        ),
        Passage::Arriving { entry } => before.push(IntersectionConnector { lane, distance: entry }),
        _ => before,
    }
}

/// The connectors `before` and, behind them, the place where `lane` leaves
/// the intersection, if `passage` has one.
pub open spec fn outgoing_after(
    before: Seq<IntersectionConnector>,
    lane: usize,
    passage: Passage,
) -> Seq<IntersectionConnector> {
    match passage {
        Passage::Through { entry, exit } => before.push(
            IntersectionConnector { lane, distance: exit },
        ),
        Passage::Leaving { exit } => before.push(IntersectionConnector { lane, distance: exit }),
        _ => before,
    }
}

/// A junction of two roads. The lanes that cross it leave their connectors
/// here; the lanes inside it and its signal timings are filled in by later
/// stages and are empty in everything this library makes.
#[derive(Clone, Debug)]
pub struct IntersectionPrototype {
    pub shape: OverlapRegion,
    pub incoming: Vec<IntersectionConnector>,
    pub outgoing: Vec<IntersectionConnector>,
    pub connecting_lanes: Vec<LanePrototype>,
    pub timings: Vec<Vec<bool>>,
}

impl IntersectionPrototype {
    /// Whether no lane has been connected yet.
    pub open spec fn is_fresh(self) -> bool {
        &&& self.incoming@.len() == 0
        &&& self.outgoing@.len() == 0
        &&& self.connecting_lanes@.len() == 0
        &&& self.timings@.len() == 0
    }

    /// Whether `self` is `before` with the connectors of `lane`'s passage
    /// added and nothing else changed.
    pub open spec fn is_connected_from(self, before: Self, lane: usize, passage: Passage) -> bool {
        &&& self.shape == before.shape
        &&& self.incoming@ == incoming_after(before.incoming@, lane, passage)
        &&& self.outgoing@ == outgoing_after(before.outgoing@, lane, passage)
        &&& self.connecting_lanes@ == before.connecting_lanes@
        &&& self.timings@ == before.timings@
    }

    /// An intersection on the given region that no lane is connected to.
    pub fn new(shape: OverlapRegion) -> (intersection: Self)
        ensures
            intersection.shape == shape,
            intersection.is_fresh(),
    {
        IntersectionPrototype {
            shape,
            incoming: Vec::new(),
            outgoing: Vec::new(),
            connecting_lanes: Vec::new(),
            timings: Vec::new(),
        }
    }

    /// Records where `lane` enters and leaves this intersection.
    pub fn connect(&mut self, lane: usize, passage: Passage)
        ensures
            final(self).is_connected_from(*old(self), lane, passage),
    {
        match passage {
            Passage::Apart => {},
            Passage::Through { entry, exit } => {
                self.incoming.push(IntersectionConnector { lane, distance: entry });
                self.outgoing.push(IntersectionConnector { lane, distance: exit });
            },
            Passage::Leaving { exit } => {
                self.outgoing.push(IntersectionConnector { lane, distance: exit });
            },
            Passage::Arriving { entry } => {
                self.incoming.push(IntersectionConnector { lane, distance: entry });
            },
        }
    }
}

/// A finished piece of the road network.
#[derive(Clone, Debug)]
pub enum RoadPrototype {
    Lane(LanePrototype),
    Intersection(IntersectionPrototype),
}

} // verus!
