use descartes::{
    ArcLinePath, Area, AreaEmbedding, AreaFilter, ClosedLinePath, Intersect, LinePath,
    PointContainer, P2, V2,
};
use road_planning::detect::{intersections_of, outline_pairs};
use road_planning::pipeline::LaneSurvey;
use road_planning::smoothing::{smoothing_plan, Anchor, PieceKind, Side};
use road_planning::trim::Crossing;
use road_planning::{calculate_prototypes, LanePrototype, RoadIntent, RoadPrototype};

fn length_key(length: f32) -> u64 {
    u64::from(length.abs().to_bits())
}

fn key_length(key: u64) -> f32 {
    f32::from_bits(key as u32)
}

fn distance_key(distance: f32) -> i64 {
    let amount = i64::from(distance.abs().to_bits());
    if distance < 0.0 {
        -amount
    } else {
        amount
    }
}

fn key_distance(key: i64) -> f32 {
    let amount = f32::from_bits(key.unsigned_abs() as u32);
    if key < 0 {
        -amount
    } else {
        amount
    }
}

fn direction(points: &[P2], segment: usize) -> V2 {
    (points[segment + 1] - points[segment]).normalize()
}

fn anchor_point(points: &[P2], anchor: &Anchor) -> P2 {
    let corner = points[anchor.corner];
    let reach = key_length(anchor.distance);
    match anchor.side {
        Side::Before => corner - direction(points, anchor.corner - 1) * reach,
        Side::After => corner + direction(points, anchor.corner) * reach,
    }
}

fn smooth_path(points: &[P2]) -> Option<ArcLinePath> {
    let half_lengths: Vec<u64> = points
        .windows(2)
        .map(|pair| {
            let center = P2::new((pair[0].x + pair[1].x) / 2.0, (pair[0].y + pair[1].y) / 2.0);
            length_key((pair[0] - center).norm())
        })
        .collect();
    let plan = smoothing_plan(&half_lengths)?;
    let mut path: Option<ArcLinePath> = None;
    for piece in &plan {
        let from = anchor_point(points, &piece.from);
        let to = anchor_point(points, &piece.to);
        let built = match piece.kind {
            PieceKind::Arc => ArcLinePath::arc(from, direction(points, piece.from.corner - 1), to),
            PieceKind::Line => ArcLinePath::line(from, to),
        };
        if let Some(built) = built {
            path = Some(match path {
                Some(so_far) => so_far.concat(&built).ok()?,
                None => built,
            });
        }
    }
    path
}

fn outline(intent: &RoadIntent, path: &LinePath) -> Area {
    let shifts = intent.outline_shifts();
    let right = path.shift_orthogonally(shifts.right as f32 / 10.0).unwrap().reverse();
    let left = path.shift_orthogonally(shifts.left as f32 / 10.0).unwrap();
    let points = left
        .points
        .iter()
        .chain(right.points.iter())
        .chain(left.points.first())
        .cloned()
        .collect();
    Area::new_simple(ClosedLinePath::new(LinePath::new(points).unwrap()).unwrap())
}

fn clip(a: &Area, b: &Area) -> Option<Vec<Area>> {
    let mut embedding = AreaEmbedding::new(6.0);
    embedding.insert(a.clone(), 0u8);
    embedding.insert(b.clone(), 1u8);
    let shared = embedding.view(AreaFilter::all_of(vec![0u8, 1u8])).get_area().ok()?;
    Some(shared.disjoint())
}

fn survey(lane: &LinePath, region: &Area) -> Crossing {
    Crossing {
        distances: region
            .primitives
            .iter()
            .flat_map(|primitive| (lane, primitive.boundary.path()).intersect())
            .map(|point| distance_key(point.along_a))
            .collect(),
        start_inside: region.contains(lane.start()),
        end_inside: region.contains(lane.end()),
    }
}

fn network(gestures: &[(Vec<P2>, RoadIntent)]) -> (Vec<LinePath>, Vec<RoadPrototype>) {
    let paths: Vec<(RoadIntent, LinePath)> = gestures
        .iter()
        .map(|(points, intent)| (*intent, smooth_path(points).unwrap().to_line_path()))
        .collect();
    let shapes: Vec<Area> = paths.iter().map(|(intent, path)| outline(intent, path)).collect();
    let pairs = outline_pairs(shapes.len());
    let mut regions = Vec::new();
    let mut outcomes = Vec::new();
    for &(a, b) in &pairs {
        let clipped = clip(&shapes[a], &shapes[b]);
        outcomes.push(clipped.as_ref().map(|areas| areas.len()));
        regions.extend(clipped.unwrap_or_default());
    }
    let intersections = intersections_of(&pairs, &outcomes);
    assert_eq!(intersections.len(), regions.len());
    let lanes: Vec<LinePath> = paths
        .iter()
        .flat_map(|(intent, path)| {
            intent
                .lane_offsets()
                .into_iter()
                .filter_map(move |offset| path.shift_orthogonally(offset as f32 / 10.0))
        })
        .collect();
    let surveys: Vec<LaneSurvey> = lanes
        .iter()
        .map(|lane| LaneSurvey {
            length: distance_key(lane.length()),
            crossings: regions.iter().map(|region| survey(lane, region)).collect(),
        })
        .collect();
    (lanes, calculate_prototypes(intersections, &surveys))
}

fn lane_pieces(prototypes: &[RoadPrototype]) -> Vec<LanePrototype> {
    prototypes
        .iter()
        .filter_map(|p| match p {
            RoadPrototype::Lane(piece) => Some(*piece),
            RoadPrototype::Intersection(_) => None,
        })
        .collect()
}

#[test]
fn keys_keep_the_order_of_distances() {
    let distances = [-3.5f32, -0.25, 0.0, 0.001, 1.0, 47.6, 100.0, 1.0e9];
    for pair in distances.windows(2) {
        assert!(distance_key(pair[0]) < distance_key(pair[1]));
    }
    for &d in &distances {
        assert_eq!(key_distance(distance_key(d)), d);
    }
    assert_eq!(distance_key(0.0), 0);
    assert_eq!(length_key(0.0), 0);
    assert_eq!(key_length(length_key(12.5)), 12.5);
}

#[test]
fn straight_gesture_becomes_one_straight_line() {
    let points = vec![P2::new(0.0, 0.0), P2::new(100.0, 0.0)];
    let path = smooth_path(&points).unwrap().to_line_path();
    assert_eq!(path.points.len(), 2);
    assert!((path.start() - points[0]).norm() < 0.001);
    assert!((path.end() - points[1]).norm() < 0.001);
    assert!((path.length() - 100.0).abs() < 0.001);
}

#[test]
fn l_shape_is_smoothed_without_gaps() {
    let points = vec![P2::new(0.0, 0.0), P2::new(100.0, 0.0), P2::new(100.0, 100.0)];
    let path = smooth_path(&points).unwrap();
    let segments: Vec<_> = path.segments().collect();
    assert_eq!(segments.len(), 3);
    let line_path = path.to_line_path();
    assert!((line_path.start() - points[0]).norm() < 0.001);
    assert!((line_path.end() - points[2]).norm() < 0.001);
    // a quarter circle of radius 50 between two lines of length 50
    let expected = 50.0 + 50.0 + std::f32::consts::PI * 25.0;
    assert!((line_path.length() - expected).abs() < 0.5);
}

#[test]
fn roads_that_cross_are_cut_at_their_intersection() {
    let intent = RoadIntent::new(1, 1);
    let gestures = vec![
        (vec![P2::new(0.0, 0.0), P2::new(100.0, 0.0)], intent),
        (vec![P2::new(50.0, -50.0), P2::new(50.0, 50.0)], intent),
    ];
    let (lanes, prototypes) = network(&gestures);
    assert_eq!(lanes.len(), 4);

    let mut n_intersections = 0;
    for prototype in &prototypes {
        if let RoadPrototype::Intersection(intersection) = prototype {
            n_intersections += 1;
            assert_eq!(intersection.incoming.len(), 4);
            assert_eq!(intersection.outgoing.len(), 4);
            for (entry, exit) in intersection.incoming.iter().zip(&intersection.outgoing) {
                assert_eq!(entry.lane, exit.lane);
                let entry_distance = key_distance(entry.distance);
                let exit_distance = key_distance(exit.distance);
                // the outlines are 14.4 wide and cross in the middle
                assert!((entry_distance - 42.8).abs() < 0.01);
                assert!((exit_distance - 57.2).abs() < 0.01);
            }
        }
    }
    // the overlap is found once for each order of the two outlines
    assert_eq!(n_intersections, 2);

    let pieces = lane_pieces(&prototypes);
    assert_eq!(pieces.len(), 8);
    for piece in &pieces {
        let from = key_distance(piece.from);
        let to = key_distance(piece.to);
        assert!(to <= 42.81 || from >= 57.19);
        assert!(lanes[piece.lane].subsection(from, to).is_some());
    }
}

#[test]
fn roads_apart_stay_uncut() {
    let gestures = vec![
        (vec![P2::new(0.0, 0.0), P2::new(100.0, 0.0)], RoadIntent::new(2, 1)),
        (vec![P2::new(0.0, 200.0), P2::new(100.0, 200.0)], RoadIntent::new(1, 1)),
    ];
    let (lanes, prototypes) = network(&gestures);
    assert_eq!(lanes.len(), 5);
    assert_eq!(prototypes.len(), 5);
    let pieces = lane_pieces(&prototypes);
    assert_eq!(pieces.len(), 5);
    for (lane, piece) in pieces.iter().enumerate() {
        assert_eq!(piece.lane, lane);
        assert_eq!(key_distance(piece.from), 0.0);
        assert_eq!(key_distance(piece.to), lanes[lane].length());
        let cut = lanes[lane].subsection(0.0, lanes[lane].length()).unwrap();
        assert!((cut.start() - lanes[lane].start()).norm() < 0.001);
        assert!((cut.end() - lanes[lane].end()).norm() < 0.001);
    }
}

#[test]
fn crossing_l_shapes_give_intersections_and_cut_lanes() {
    let intent = RoadIntent::new(1, 1);
    let gestures = vec![
        (vec![P2::new(0.0, 0.0), P2::new(100.0, 0.0), P2::new(100.0, 100.0)], intent),
        (vec![P2::new(50.0, -50.0), P2::new(50.0, 50.0), P2::new(150.0, 50.0)], intent),
    ];
    let (lanes, prototypes) = network(&gestures);
    assert_eq!(lanes.len(), 4);

    // the two rounded centerlines meet near (50, 0) and near (100, 50)
    let mut cuts: Vec<Vec<(f32, f32)>> = vec![Vec::new(); lanes.len()];
    let mut n_intersections = 0;
    for prototype in &prototypes {
        if let RoadPrototype::Intersection(intersection) = prototype {
            n_intersections += 1;
            assert!(intersection.shape.first != intersection.shape.second);
            // one pair of connectors for each of the four lanes
            assert_eq!(intersection.incoming.len(), 4);
            assert_eq!(intersection.outgoing.len(), 4);
            for (entry, exit) in intersection.incoming.iter().zip(&intersection.outgoing) {
                assert_eq!(entry.lane, exit.lane);
                assert!(entry.distance < exit.distance);
                cuts[entry.lane].push((key_distance(entry.distance), key_distance(exit.distance)));
            }
            assert!(intersection.connecting_lanes.is_empty());
            assert!(intersection.timings.is_empty());
        }
    }
    assert!(n_intersections >= 1);
    // every overlap is found once for each order of the two outlines
    assert_eq!(n_intersections % 2, 0);

    let pieces = lane_pieces(&prototypes);
    assert!(pieces.len() >= 4);
    for lane in 0..lanes.len() {
        assert!(pieces.iter().filter(|piece| piece.lane == lane).count() >= 2);
    }
    for piece in &pieces {
        let from = key_distance(piece.from);
        let to = key_distance(piece.to);
        assert!(0.0 <= from && from < to && to <= lanes[piece.lane].length());
        for &(entry, exit) in &cuts[piece.lane] {
            assert!(to <= entry || exit <= from);
        }
    }
}

#[test]
fn shifting_by_nothing_keeps_the_path() {
    let points = vec![P2::new(0.0, 0.0), P2::new(100.0, 0.0), P2::new(100.0, 100.0)];
    let path = smooth_path(&points).unwrap().to_line_path();
    let shifted = path.shift_orthogonally(0.0).unwrap();
    assert_eq!(shifted.points.len(), path.points.len());
    for (a, b) in shifted.points.iter().zip(path.points.iter()) {
        assert!((a - b).norm() < 0.001);
    }
}

#[test]
fn outline_without_lanes_is_a_band_as_wide_as_the_center_gap() {
    let path = LinePath::new(vec![P2::new(0.0, 0.0), P2::new(100.0, 0.0)]).unwrap();
    let footprint = outline(&RoadIntent::new(0, 0), &path);
    assert!(footprint.contains(P2::new(50.0, 2.3)));
    assert!(footprint.contains(P2::new(50.0, -2.3)));
    assert!(!footprint.contains(P2::new(50.0, 2.5)));
    assert!(!footprint.contains(P2::new(50.0, -2.5)));
}
