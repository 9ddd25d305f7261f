//! Road network synthesis over exact integer measurements.
//!
//! A designer sketches roads as polylines tagged with lane counts. This
//! library holds the rules that turn such sketches into a road network: how
//! far each corner is rounded, how far lanes and road edges sit from the
//! centerline, which pairs of road outlines are tested for overlap, and how a
//! lane is cut where it runs through an intersection.
//!
//! The library never touches coordinates. Its callers measure curves with the
//! geometry kernel of their choice and hand over integers: lengths and
//! distances along a path as keys that are only ever compared, and offsets
//! from a centerline in tenths of a length unit. What comes back names
//! geometry by numbers: a lane piece by its lane and two distances, an
//! intersection by the pair of outlines that overlap in it.
//!
//! The stages, in the order in which a caller runs them:
//!
//! 1. [`smoothing`]: the plan of arcs and lines that rounds a sketch.
//! 2. [`intent`]: the shifts of the road edges and of the lanes.
//! 3. [`detect`]: the pairs of outlines to clip, and the intersections.
//! 4. [`trim`] and [`pipeline`]: the cuts of the lanes at the intersections
//!    and the finished list of prototypes.

pub mod cuts;
pub mod detect;
pub mod intent;
pub mod pipeline;
pub mod prototype;
pub mod smoothing;
pub mod trim;

pub use intent::RoadIntent;
pub use pipeline::calculate_prototypes;
pub use prototype::{IntersectionConnector, IntersectionPrototype, LanePrototype, RoadPrototype};
