//! Lane counts of a road and the lateral offsets that follow from them.
//!
//! Offsets are signed and measured in tenths of a length unit, positive to
//! the right of the centerline as seen in its direction of travel.

use vstd::prelude::*;

verus! {

/// Width of one lane, in tenths of a length unit.
pub const LANE_WIDTH: i32 = 60;

/// Distance between the middles of two neighbouring lanes, in tenths of a
/// length unit: eight tenths of a lane's width.
pub const LANE_DISTANCE: i32 = 48;

/// Distance between the innermost forward lane and the innermost backward
/// lane, in tenths of a length unit.
pub const CENTER_LANE_DISTANCE: i32 = 48;

/// How many lanes a road carries in each direction.
#[derive(Clone, Copy, Debug, PartialEq, Eq, Structural)]
pub struct RoadIntent {
    pub n_lanes_forward: u8,
    pub n_lanes_backward: u8,
}

/// The two shifts that turn a centerline into the edges of its road.
#[derive(Clone, Copy, Debug, PartialEq, Eq, Structural)]
pub struct OutlineShifts {
    /// Shift of the left edge: never positive.
    pub left: i32,
    /// Shift of the right edge: never negative.
    pub right: i32,
}

/// Distance from the centerline to the middle of lane number `k` of either
/// direction, counted from the centerline outwards.
pub open spec fn lane_offset(k: int) -> int {
    CENTER_LANE_DISTANCE as int / 2 + k * LANE_DISTANCE as int
}

/// Distance from the centerline to the edge of a road side that carries
/// `n_lanes` lanes.
pub open spec fn edge_offset(n_lanes: int) -> int {
    CENTER_LANE_DISTANCE as int / 2 + n_lanes * LANE_DISTANCE as int
}

impl RoadIntent {
    pub fn new(n_lanes_forward: u8, n_lanes_backward: u8) -> (intent: Self)
        ensures
            intent.n_lanes_forward == n_lanes_forward,
            intent.n_lanes_backward == n_lanes_backward,
    {
        RoadIntent { n_lanes_forward, n_lanes_backward }
    }

    /// Number of lanes of both directions together.
    pub open spec fn n_lanes(self) -> int {
        self.n_lanes_forward as int + self.n_lanes_backward as int
    }

    /// Signed offsets of all lanes: the forward lanes from the centerline
    /// outwards to the right, then the backward lanes from the centerline
    /// outwards to the left.
    pub open spec fn lane_offsets_spec(self) -> Seq<i32> {
        Seq::new(
            self.n_lanes() as nat,
            |i: int|
                if i < self.n_lanes_forward as int {
                    lane_offset(i) as i32
                } else {
                    (-lane_offset(i - self.n_lanes_forward as int)) as i32
                },
        )
    }

    /// Distance between the two edges of the road.
    pub open spec fn outline_width_spec(self) -> int {
        CENTER_LANE_DISTANCE as int + self.n_lanes() * LANE_DISTANCE as int
    }

    /// The offset of every lane of the road, one entry per lane.
    pub fn lane_offsets(&self) -> (offsets: Vec<i32>)
        ensures
            offsets@ == self.lane_offsets_spec(),
            offsets@.len() == self.n_lanes(),
            forall|k: int|
                0 <= k < self.n_lanes_forward as int ==> #[trigger] offsets@[k] as int
                    == lane_offset(k),
            forall|k: int|
                0 <= k < self.n_lanes_backward as int ==> #[trigger] offsets@[self.n_lanes_forward
                    as int + k] as int == -lane_offset(k),
    {
        let mut offsets: Vec<i32> = Vec::new();
        let mut k: u8 = 0;
        while k < self.n_lanes_forward
            invariant
                k <= self.n_lanes_forward,
                offsets@.len() == k as int,
                forall|i: int| 0 <= i < k as int ==> offsets@[i] == self.lane_offsets_spec()[i],
            decreases self.n_lanes_forward - k,
        {
            let lane: i32 = k as i32;
            offsets.push(CENTER_LANE_DISTANCE / 2 + lane * LANE_DISTANCE);
            k = k + 1;
        }
        let mut j: u8 = 0;
        while j < self.n_lanes_backward
            invariant
                j <= self.n_lanes_backward,
                offsets@.len() == self.n_lanes_forward as int + j as int,
                forall|i: int|
                    0 <= i < self.n_lanes_forward as int + j as int ==> offsets@[i]
                        == self.lane_offsets_spec()[i],
            decreases self.n_lanes_backward - j,
        {
            let lane: i32 = j as i32;
            offsets.push(-(CENTER_LANE_DISTANCE / 2 + lane * LANE_DISTANCE));
            j = j + 1;
        }
        assert(offsets@ =~= self.lane_offsets_spec());
        assert forall|k: int| 0 <= k < self.n_lanes_backward as int implies #[trigger] offsets@[self.n_lanes_forward
            as int + k] as int == -lane_offset(k) by {
            assert(offsets@[self.n_lanes_forward as int + k] == self.lane_offsets_spec()[self.n_lanes_forward as int + k]);
        }
        offsets
    }

    /// The shifts of the two edges of the road: each edge lies half the
    /// center gap plus one lane distance per lane of its side away from the
    /// centerline.
    pub fn outline_shifts(&self) -> (shifts: OutlineShifts)
        ensures
            shifts.right as int == edge_offset(self.n_lanes_forward as int),
            shifts.left as int == -edge_offset(self.n_lanes_backward as int),
            shifts.right as int - shifts.left as int == self.outline_width_spec(),
    {
        let forward: i32 = self.n_lanes_forward as i32;
        let backward: i32 = self.n_lanes_backward as i32;
        OutlineShifts {
            left: -(CENTER_LANE_DISTANCE / 2 + backward * LANE_DISTANCE),
            right: CENTER_LANE_DISTANCE / 2 + forward * LANE_DISTANCE,
        }
    }
}

/// The lane distance is eight tenths of the lane width, and the center gap
/// is as wide as the lane distance.
pub proof fn lemma_lane_constants()
    ensures
        10 * LANE_DISTANCE == 8 * LANE_WIDTH,
        CENTER_LANE_DISTANCE == LANE_DISTANCE,
{
}

/// A road without lanes has an outline as wide as the center gap, and every
/// further lane widens the outline by one lane distance.
pub proof fn lemma_outline_width(intent: RoadIntent)
    ensures
        intent.outline_width_spec() == edge_offset(intent.n_lanes_forward as int) + edge_offset(
            intent.n_lanes_backward as int,
        ),
        intent.n_lanes() == 0 ==> intent.outline_width_spec() == CENTER_LANE_DISTANCE,
        intent.outline_width_spec() >= CENTER_LANE_DISTANCE,
{
}

/// Every lane lies strictly between the two edges of its road: half a lane
/// distance or more inside of the edge of its side.
pub proof fn lemma_lanes_inside_outline(intent: RoadIntent, k: int)
    requires
        0 <= k < intent.n_lanes(),
    ensures
        -edge_offset(intent.n_lanes_backward as int) < (intent.lane_offsets_spec()[k] as int),
        (intent.lane_offsets_spec()[k] as int) < edge_offset(intent.n_lanes_forward as int),
{
}

} // verus!
