use road_planning::smoothing::{
    reach_of_corner, smoothing_plan, Anchor, PathPiece, PieceKind, Side,
};

fn line(from_corner: usize, from: u64, to_corner: usize, to: u64) -> PathPiece {
    PathPiece {
        kind: PieceKind::Line,
        from: Anchor { corner: from_corner, side: Side::After, distance: from },
        to: Anchor { corner: to_corner, side: Side::Before, distance: to },
    }
}

fn arc(corner: usize, reach: u64) -> PathPiece {
    PathPiece {
        kind: PieceKind::Arc,
        from: Anchor { corner, side: Side::Before, distance: reach },
        to: Anchor { corner, side: Side::After, distance: reach },
    }
}

fn same_point(a: Anchor, b: Anchor) -> bool {
    a.corner == b.corner && a.distance == b.distance && (a.side == b.side || a.distance == 0)
}

#[test]
fn two_points_give_one_whole_line() {
    let plan = smoothing_plan(&vec![50]).unwrap();
    assert_eq!(plan, vec![line(0, 0, 1, 0)]);
}

#[test]
fn no_segment_gives_no_path() {
    assert_eq!(smoothing_plan(&vec![]), None);
}

#[test]
fn l_shape_is_rounded_to_the_midpoints() {
    // (0,0) -> (100,0) -> (100,100): both half lengths are 50
    let plan = smoothing_plan(&vec![50, 50]).unwrap();
    assert_eq!(plan, vec![line(0, 0, 1, 50), arc(1, 50), line(1, 50, 2, 0)]);
}

#[test]
fn rounding_reaches_to_the_midpoint_of_the_shorter_segment() {
    let plan = smoothing_plan(&vec![50, 10, 30]).unwrap();
    assert_eq!(
        plan,
        vec![
            line(0, 0, 1, 10),
            arc(1, 10),
            line(1, 10, 2, 10),
            arc(2, 10),
            line(2, 10, 3, 0),
        ]
    );
}

#[test]
fn corner_between_segments_without_length_is_not_rounded() {
    let plan = smoothing_plan(&vec![0, 40]).unwrap();
    assert_eq!(plan, vec![line(0, 0, 1, 0), line(1, 0, 2, 0)]);
}

#[test]
fn reach_of_each_corner() {
    let half_lengths = vec![50, 10, 30];
    assert_eq!(reach_of_corner(&half_lengths, 0), 0);
    assert_eq!(reach_of_corner(&half_lengths, 1), 10);
    assert_eq!(reach_of_corner(&half_lengths, 2), 10);
    assert_eq!(reach_of_corner(&half_lengths, 3), 0);
    assert_eq!(reach_of_corner(&half_lengths, 4), 0);
}

#[test]
fn reach_never_exceeds_either_half() {
    let half_lengths = vec![7, 3, 9, 9, 1, u64::MAX, 4];
    for corner in 1..half_lengths.len() {
        let reach = reach_of_corner(&half_lengths, corner);
        assert!(reach <= half_lengths[corner - 1]);
        assert!(reach <= half_lengths[corner]);
        assert!(reach == half_lengths[corner - 1] || reach == half_lengths[corner]);
    }
}

#[test]
fn plan_is_continuous() {
    let half_lengths = vec![7, 3, 0, 9, 9, 1, 4];
    let plan = smoothing_plan(&half_lengths).unwrap();
    assert_eq!(plan[0].from, Anchor { corner: 0, side: Side::After, distance: 0 });
    for pair in plan.windows(2) {
        assert!(same_point(pair[0].to, pair[1].from));
    }
    let last = plan[plan.len() - 1];
    assert_eq!(last.to, Anchor { corner: 7, side: Side::Before, distance: 0 });
}
