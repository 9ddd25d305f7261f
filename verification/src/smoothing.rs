//! Rounding the corners of a sketched polyline.
//!
//! A sketch with `n + 1` corners has `n` straight segments. The caller
//! measures each segment from one of its corners to its midpoint and hands
//! over these half lengths as keys: integers that are only compared, and of
//! which zero stands for no distance at all. The plan that comes back names
//! every point of the smoothed path by a corner and a distance from it.

use vstd::prelude::*;

verus! {

/// The side of a corner on which a point of the sketch lies.
#[derive(Clone, Copy, Debug, PartialEq, Eq, Structural)]
pub enum Side {
    /// On the segment that ends in the corner.
    Before,
    /// On the segment that begins in the corner.
    After,
}

/// A point of the sketch: `distance` away from corner number `corner`, on
/// the given side of it.
#[derive(Clone, Copy, Debug, PartialEq, Eq, Structural)]
pub struct Anchor {
    pub corner: usize,
    pub side: Side,
    pub distance: u64,
}

/// The two shapes of a piece of a smoothed path.
#[derive(Clone, Copy, Debug, PartialEq, Eq, Structural)]
pub enum PieceKind {
    /// A circular arc that rounds a corner.
    Arc,
    /// A straight line along a segment of the sketch.
    Line,
}

/// One piece of a smoothed path, from one point of the sketch to another.
#[derive(Clone, Copy, Debug, PartialEq, Eq, Structural)]
pub struct PathPiece {
    pub kind: PieceKind,
    pub from: Anchor,
    pub to: Anchor,
}

impl Anchor {
    /// Whether the two anchors name the same point: the same distance from
    /// the same corner, on the same side unless the point is the corner.
    pub open spec fn meets(self, other: Anchor) -> bool {
        &&& self.corner == other.corner
        &&& self.distance == other.distance
        &&& (self.side == other.side || self.distance == 0)
    }
}

/// How far the rounding of a corner reaches into each of the two segments
/// that meet in it: as far as the midpoint of the shorter one. The first and
/// the last corner of a sketch are not rounded.
pub open spec fn corner_reach(half_lengths: Seq<u64>, corner: int) -> u64 {
    if corner <= 0 || corner >= half_lengths.len() {
        0
    } else if half_lengths[corner - 1] <= half_lengths[corner] {
        half_lengths[corner - 1]
    } else {
        half_lengths[corner]
    }
}

/// The arc that rounds the given corner.
pub open spec fn arc_at(half_lengths: Seq<u64>, corner: int) -> PathPiece {
    let distance = corner_reach(half_lengths, corner);
    PathPiece {
        kind: PieceKind::Arc,
        from: Anchor { corner: corner as usize, side: Side::Before, distance },
        to: Anchor { corner: corner as usize, side: Side::After, distance },
    }
}

/// The straight part of the given segment: what the roundings of its two
/// corners leave of it.
pub open spec fn line_on(half_lengths: Seq<u64>, segment: int) -> PathPiece {
    PathPiece {
        kind: PieceKind::Line,
        from: Anchor {
            corner: segment as usize,
            side: Side::After,
            distance: corner_reach(half_lengths, segment),
        },
        to: Anchor {
            corner: (segment + 1) as usize,
            side: Side::Before,
            distance: corner_reach(half_lengths, segment + 1),
        },
    }
}

/// The pieces of the smoothed path along the first `n` segments: for each
/// segment in turn the arc that rounds its first corner, if the rounding
/// reaches anywhere, and then its straight part.
pub open spec fn planned_pieces(half_lengths: Seq<u64>, n: nat) -> Seq<PathPiece>
    decreases n,
{
    if n == 0 {
        Seq::empty()
    } else {
        let segment = n - 1;
        let before = planned_pieces(half_lengths, segment as nat);
        if corner_reach(half_lengths, segment) > 0 {
            before.push(arc_at(half_lengths, segment)).push(line_on(half_lengths, segment))
        } else {
            before.push(line_on(half_lengths, segment))
        }
    }
}

/// The reach of the rounding of one corner.
pub fn reach_of_corner(half_lengths: &Vec<u64>, corner: usize) -> (reach: u64)
    ensures
        reach == corner_reach(half_lengths@, corner as int),
{
    if corner == 0 || corner >= half_lengths.len() {
        0
    } else if half_lengths[corner - 1] <= half_lengths[corner] {
        half_lengths[corner - 1]
    } else {
        half_lengths[corner]
    }
}

/// Plans the smoothed path of a sketch from the half lengths of its
/// segments. A sketch without a segment has no path.
pub fn smoothing_plan(half_lengths: &Vec<u64>) -> (plan: Option<Vec<PathPiece>>)
    requires
        2 * half_lengths@.len() <= usize::MAX,
    ensures
        half_lengths@.len() == 0 <==> plan is None,
        plan matches Some(pieces) ==> pieces@ == planned_pieces(
            half_lengths@,
            half_lengths@.len(),
        ),
{
    let n = half_lengths.len();
    if n == 0 {
        return None;
    }
    let mut pieces: Vec<PathPiece> = Vec::new();
    let mut segment: usize = 0;
    while segment < n
        invariant
            segment <= n,
            n == half_lengths@.len(),
            2 * n <= usize::MAX,
            pieces@ == planned_pieces(half_lengths@, segment as nat),
            pieces@.len() <= 2 * segment,
        decreases n - segment,
    {
        let reach = reach_of_corner(half_lengths, segment);
        let next_reach = reach_of_corner(half_lengths, segment + 1);
        if reach > 0 {
            pieces.push(
                PathPiece {
                    kind: PieceKind::Arc,
                    from: Anchor { corner: segment, side: Side::Before, distance: reach },
                    to: Anchor { corner: segment, side: Side::After, distance: reach },
                },
            );
        }
        pieces.push(
            PathPiece {
                kind: PieceKind::Line,
                from: Anchor { corner: segment, side: Side::After, distance: reach },
                to: Anchor { corner: segment + 1, side: Side::Before, distance: next_reach },
            },
        );
        segment = segment + 1;
    }
    Some(pieces)
}

/// The rounding of a corner never reaches past the midpoint of either of
/// the two segments that meet in it, and it reaches the midpoint of one of
/// them. The two ends of a sketch are not rounded.
pub proof fn lemma_reach_within_halves(half_lengths: Seq<u64>, corner: int)
    ensures
        0 < corner < half_lengths.len() ==> {
            &&& corner_reach(half_lengths, corner) <= half_lengths[corner - 1]
            &&& corner_reach(half_lengths, corner) <= half_lengths[corner]
            &&& (corner_reach(half_lengths, corner) == half_lengths[corner - 1] || corner_reach(
                half_lengths,
                corner,
            ) == half_lengths[corner])
        },
        corner_reach(half_lengths, 0) == 0,
        corner_reach(half_lengths, half_lengths.len() as int) == 0,
{
}

/// Both roundings that reach into a segment end before or at its midpoint,
/// so the straight part of a segment never runs backwards.
pub proof fn lemma_straight_part(half_lengths: Seq<u64>, segment: int)
    requires
        0 <= segment < half_lengths.len(),
    ensures
        line_on(half_lengths, segment).from.distance <= half_lengths[segment],
        line_on(half_lengths, segment).to.distance <= half_lengths[segment],
        line_on(half_lengths, segment).from.distance + line_on(half_lengths, segment).to.distance
            <= 2 * half_lengths[segment],
{
}

/// The smoothed path of a sketch of two points is one straight line from
/// the first point to the second.
pub proof fn lemma_two_points(half_lengths: Seq<u64>)
    requires
        half_lengths.len() == 1,
    ensures
        planned_pieces(half_lengths, 1) == seq![
            PathPiece {
                kind: PieceKind::Line,
                from: Anchor { corner: 0, side: Side::After, distance: 0 },
                to: Anchor { corner: 1, side: Side::Before, distance: 0 },
            },
        ],
{
    assert(planned_pieces(half_lengths, 0) =~= Seq::empty());
    assert(planned_pieces(half_lengths, 1) =~= seq![line_on(half_lengths, 0)]);
}

/// The plan along `n` segments has between `n` and `2 n - 1` pieces and ends
/// with the straight part of the last of them.
pub proof fn lemma_plan_shape(half_lengths: Seq<u64>, n: nat)
    requires
        0 < n <= half_lengths.len(),
        n <= usize::MAX,
    ensures
        n <= planned_pieces(half_lengths, n).len() <= 2 * n - 1,
        planned_pieces(half_lengths, n).last() == line_on(half_lengths, n - 1),
        planned_pieces(half_lengths, n).first() == line_on(half_lengths, 0),
    decreases n,
{
    if n > 1 {
        lemma_plan_shape(half_lengths, (n - 1) as nat);
    } else {
        assert(planned_pieces(half_lengths, 0) =~= Seq::empty());
    }
}

/// Whether every piece begins where the piece before it ends.
pub open spec fn is_continuous(pieces: Seq<PathPiece>) -> bool {
    forall|j: int, k: int|
        0 <= j && j + 1 == k && k < pieces.len() ==> (#[trigger] pieces[j]).to.meets(
            (#[trigger] pieces[k]).from,
        )
}

/// A continuous path stays continuous when a piece is added that begins
/// where the path ends.
proof fn lemma_push_continuous(pieces: Seq<PathPiece>, piece: PathPiece)
    requires
        is_continuous(pieces),
        pieces.len() > 0 ==> pieces.last().to.meets(piece.from),
    ensures
        is_continuous(pieces.push(piece)),
{
    let longer = pieces.push(piece);
    assert forall|j: int, k: int| 0 <= j && j + 1 == k && k < longer.len() implies (
    #[trigger] longer[j]).to.meets((#[trigger] longer[k]).from) by {
        if k < pieces.len() {
            assert(longer[j] == pieces[j] && longer[k] == pieces[k]);
        } else {
            assert(longer[j] == pieces.last() && longer[k] == piece);
        }
    }
}

/// The planned path is continuous: it begins in the first corner, every
/// piece begins where the piece before it ends, and the last piece ends in
/// the last corner.
pub proof fn lemma_plan_continuous(half_lengths: Seq<u64>, n: nat)
    requires
        0 < n <= half_lengths.len(),
        n <= usize::MAX,
    ensures
        planned_pieces(half_lengths, n).first().from == (Anchor {
            corner: 0,
            side: Side::After,
            distance: 0,
        }),
        is_continuous(planned_pieces(half_lengths, n)),
        planned_pieces(half_lengths, n).last().to.corner == n,
        n == half_lengths.len() ==> planned_pieces(half_lengths, n).last().to.distance == 0,
    decreases n,
{
    lemma_plan_shape(half_lengths, n);
    let segment = n - 1;
    let before = planned_pieces(half_lengths, segment as nat);
    let arc = arc_at(half_lengths, segment);
    let line = line_on(half_lengths, segment);
    if n > 1 {
        lemma_plan_shape(half_lengths, segment as nat);
        lemma_plan_continuous(half_lengths, segment as nat);
        assert(before.last() == line_on(half_lengths, segment - 1));
        if corner_reach(half_lengths, segment) > 0 {
            lemma_push_continuous(before, arc);
            lemma_push_continuous(before.push(arc), line);
        } else {
            lemma_push_continuous(before, line);
        }
    } else {
        assert(before =~= Seq::empty());
        lemma_push_continuous(before, line);
    }
}

} // verus!
