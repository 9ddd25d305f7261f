use road_planning::detect::{intersections_of, outline_pairs};
use road_planning::pipeline::LaneSurvey;
use road_planning::trim::Crossing;
use road_planning::{
    calculate_prototypes, IntersectionConnector, IntersectionPrototype, LanePrototype, RoadIntent,
    RoadPrototype,
};

fn through(entry: i64, exit: i64) -> Crossing {
    Crossing { distances: vec![entry, exit], start_inside: false, end_inside: false }
}

fn apart() -> Crossing {
    Crossing { distances: vec![], start_inside: false, end_inside: false }
}

fn lanes_of(prototypes: &[RoadPrototype]) -> Vec<LanePrototype> {
    prototypes
        .iter()
        .filter_map(|p| match p {
            RoadPrototype::Lane(lane) => Some(*lane),
            RoadPrototype::Intersection(_) => None,
        })
        .collect()
}

fn intersections_in(prototypes: &[RoadPrototype]) -> Vec<IntersectionPrototype> {
    prototypes
        .iter()
        .filter_map(|p| match p {
            RoadPrototype::Intersection(intersection) => Some(intersection.clone()),
            RoadPrototype::Lane(_) => None,
        })
        .collect()
}

#[test]
fn crossing_roads_share_an_intersection() {
    // two roads of one lane each way that cross once: the outlines overlap
    // in one region, which both orders of the pair report
    let intents = vec![RoadIntent::new(1, 1), RoadIntent::new(1, 1)];
    let pairs = outline_pairs(intents.len());
    let intersections = intersections_of(&pairs, &vec![Some(1), Some(1)]);
    assert_eq!(intersections.len(), 2);

    let mut lanes = Vec::new();
    for intent in &intents {
        for _ in intent.lane_offsets() {
            lanes.push(LaneSurvey {
                length: 2000,
                crossings: vec![through(400, 600), through(400, 600)],
            });
        }
    }
    assert_eq!(lanes.len(), 4);

    let prototypes = calculate_prototypes(intersections, &lanes);
    let found = intersections_in(&prototypes);
    let pieces = lanes_of(&prototypes);
    assert_eq!(found.len(), 2);
    assert!(pieces.len() >= 4);
    assert_eq!(pieces.len(), 8);
    for intersection in &found {
        assert_eq!(intersection.incoming.len(), 4);
        assert_eq!(intersection.outgoing.len(), 4);
        for lane in 0..4 {
            assert_eq!(intersection.incoming[lane], IntersectionConnector { lane, distance: 400 });
            assert_eq!(intersection.outgoing[lane], IntersectionConnector { lane, distance: 600 });
        }
        assert!(intersection.connecting_lanes.is_empty());
        assert!(intersection.timings.is_empty());
    }
    for lane in 0..4 {
        assert_eq!(pieces[2 * lane], LanePrototype { lane, from: 0, to: 400 });
        assert_eq!(pieces[2 * lane + 1], LanePrototype { lane, from: 600, to: 2000 });
    }
}

#[test]
fn roads_apart_keep_their_lanes_whole() {
    let intents = vec![RoadIntent::new(2, 1), RoadIntent::new(1, 0)];
    let pairs = outline_pairs(intents.len());
    let intersections = intersections_of(&pairs, &vec![Some(0), Some(0)]);
    assert!(intersections.is_empty());

    let lengths = [1000, 1010, 990, 500];
    let lanes: Vec<LaneSurvey> =
        lengths.iter().map(|&length| LaneSurvey { length, crossings: vec![] }).collect();
    let prototypes = calculate_prototypes(intersections, &lanes);
    assert!(intersections_in(&prototypes).is_empty());
    let pieces = lanes_of(&prototypes);
    assert_eq!(pieces.len(), lanes.len());
    for (lane, piece) in pieces.iter().enumerate() {
        assert_eq!(*piece, LanePrototype { lane, from: 0, to: lengths[lane] });
    }
}

#[test]
fn intersections_come_before_lanes() {
    let intersections = intersections_of(&outline_pairs(2), &vec![Some(1), None]);
    let lanes = vec![
        LaneSurvey { length: 100, crossings: vec![through(10, 20)] },
        LaneSurvey { length: 100, crossings: vec![apart()] },
    ];
    let prototypes = calculate_prototypes(intersections, &lanes);
    assert_eq!(prototypes.len(), 4);
    assert!(matches!(prototypes[0], RoadPrototype::Intersection(_)));
    assert!(matches!(prototypes[1], RoadPrototype::Lane(LanePrototype { lane: 0, from: 0, to: 10 })));
    assert!(matches!(prototypes[2], RoadPrototype::Lane(LanePrototype { lane: 0, from: 20, to: 100 })));
    assert!(matches!(prototypes[3], RoadPrototype::Lane(LanePrototype { lane: 1, from: 0, to: 100 })));
}

#[test]
fn nothing_in_gives_nothing_out() {
    assert!(calculate_prototypes(vec![], &vec![]).is_empty());
}
