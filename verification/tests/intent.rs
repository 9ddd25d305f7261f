use road_planning::intent::{
    OutlineShifts, CENTER_LANE_DISTANCE, LANE_DISTANCE, LANE_WIDTH,
};
use road_planning::RoadIntent;

#[test]
fn new_keeps_lane_counts() {
    let intent = RoadIntent::new(3, 1);
    assert_eq!(intent.n_lanes_forward, 3);
    assert_eq!(intent.n_lanes_backward, 1);
}

#[test]
fn constants_in_tenths() {
    assert_eq!(LANE_WIDTH, 60);
    assert_eq!(LANE_DISTANCE, 48);
    assert_eq!(CENTER_LANE_DISTANCE, 48);
    assert_eq!(LANE_WIDTH as f32 / 10.0, 6.0);
    assert_eq!(10 * LANE_DISTANCE, 8 * LANE_WIDTH);
}

#[test]
fn lane_offsets_forward_then_backward() {
    let offsets = RoadIntent::new(2, 3).lane_offsets();
    assert_eq!(offsets, vec![24, 72, -24, -72, -120]);
}

#[test]
fn lane_offsets_of_one_lane_each_way() {
    assert_eq!(RoadIntent::new(1, 1).lane_offsets(), vec![24, -24]);
}

#[test]
fn lane_offsets_without_lanes() {
    assert_eq!(RoadIntent::new(0, 0).lane_offsets(), Vec::<i32>::new());
}

#[test]
fn lane_offsets_of_widest_road() {
    let offsets = RoadIntent::new(255, 255).lane_offsets();
    assert_eq!(offsets.len(), 510);
    assert_eq!(offsets[254], 24 + 254 * 48);
    assert_eq!(offsets[255], -24);
    assert_eq!(offsets[509], -(24 + 254 * 48));
}

#[test]
fn outline_shifts_count_lanes_of_each_side() {
    let shifts = RoadIntent::new(2, 1).outline_shifts();
    assert_eq!(shifts, OutlineShifts { left: -72, right: 120 });
}

#[test]
fn outline_without_lanes_is_as_wide_as_center_gap() {
    let shifts = RoadIntent::new(0, 0).outline_shifts();
    assert_eq!(shifts.right - shifts.left, CENTER_LANE_DISTANCE);
    assert_eq!(shifts, OutlineShifts { left: -24, right: 24 });
}

#[test]
fn outline_of_widest_road() {
    let shifts = RoadIntent::new(255, 255).outline_shifts();
    assert_eq!(shifts.right, 24 + 255 * 48);
    assert_eq!(shifts.left, -(24 + 255 * 48));
}

#[test]
fn lanes_lie_inside_outline() {
    let intent = RoadIntent::new(3, 2);
    let shifts = intent.outline_shifts();
    for offset in intent.lane_offsets() {
        assert!(shifts.left < offset && offset < shifts.right);
    }
}
