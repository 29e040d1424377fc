use pcb_router::fixed_point::FixedPoint;
use pcb_router::post_process::{
    binary_approach_to_obstacles, optimize_path, try_convex_and_merge,
    try_cut_right_or_sharp_angle, try_merge_path, try_parallel_shift,
};
use pcb_router::trace_path::{TraceAnchor, TraceAnchors, TracePath};
use pcb_router::vec2::FixedVec2;

fn pt(x: i32, y: i32) -> FixedVec2 {
    FixedVec2::from_bits(x, y)
}

fn anchor(x: i32, y: i32) -> TraceAnchor {
    TraceAnchor { position: pt(x, y), start_layer: 0, end_layer: 0 }
}

fn positions(anchors: &Vec<TraceAnchor>) -> Vec<(i32, i32)> {
    anchors.iter().map(|a| (a.position.x.to_bits(), a.position.y.to_bits())).collect()
}

fn never(_a: FixedVec2, _b: FixedVec2, _layer: usize) -> bool {
    false
}

fn always(_a: FixedVec2, _b: FixedVec2, _layer: usize) -> bool {
    true
}

#[test]
fn merge_removes_the_middle_of_a_straight_run() {
    let mut path = vec![anchor(0, 0), anchor(4, 0), anchor(8, 0)];
    assert!(try_merge_path(&mut path));
    assert_eq!(positions(&path), vec![(0, 0), (8, 0)]);
    assert!(!try_merge_path(&mut path));
    assert_eq!(positions(&path), vec![(0, 0), (8, 0)]);
}

#[test]
fn merge_removes_a_doubled_anchor() {
    let mut path = vec![anchor(0, 0), anchor(4, 0), anchor(4, 0), anchor(4, 4)];
    assert!(try_merge_path(&mut path));
    assert_eq!(positions(&path), vec![(0, 0), (4, 0), (4, 4)]);
    assert!(!try_merge_path(&mut path));
}

#[test]
fn merge_keeps_an_anchor_that_changes_layer() {
    let mut path = vec![
        anchor(0, 0),
        TraceAnchor { position: pt(4, 0), start_layer: 0, end_layer: 1 },
        TraceAnchor { position: pt(8, 0), start_layer: 1, end_layer: 1 },
    ];
    assert!(!try_merge_path(&mut path));
    assert_eq!(path.len(), 3);
}

#[test]
fn merge_keeps_a_turn() {
    let mut path = vec![anchor(0, 0), anchor(4, 0), anchor(8, 4)];
    assert!(!try_merge_path(&mut path));
}

#[test]
fn cut_doubles_the_anchor_of_a_right_angle() {
    let mut path = vec![anchor(0, 0), anchor(4, 0), anchor(4, 4)];
    assert!(try_cut_right_or_sharp_angle(&mut path));
    assert_eq!(positions(&path), vec![(0, 0), (4, 0), (4, 0), (4, 4)]);
    assert!(!try_cut_right_or_sharp_angle(&mut path));
}

#[test]
fn cut_doubles_the_anchor_of_a_sharp_angle() {
    let mut path = vec![anchor(0, 0), anchor(8, 0), anchor(4, 4)];
    assert!(try_cut_right_or_sharp_angle(&mut path));
    assert_eq!(positions(&path), vec![(0, 0), (8, 0), (8, 0), (4, 4)]);
}

#[test]
fn cut_leaves_a_blunt_turn() {
    let mut path = vec![anchor(0, 0), anchor(4, 0), anchor(8, 4)];
    assert!(!try_cut_right_or_sharp_angle(&mut path));
    assert_eq!(path.len(), 3);
}

#[test]
fn shift_moves_the_step_to_the_start_when_clear() {
    let mut path = vec![anchor(0, 0), anchor(4, 0), anchor(4, 4), anchor(8, 4)];
    assert!(try_parallel_shift(&mut path, &never));
    assert_eq!(positions(&path), vec![(0, 0), (0, 4), (8, 4)]);
}

#[test]
fn shift_moves_the_step_to_the_end_when_the_start_is_blocked() {
    let mut path = vec![anchor(0, 0), anchor(4, 0), anchor(4, 4), anchor(8, 4)];
    let oracle = |a: FixedVec2, b: FixedVec2, _l: usize| {
        a.x.to_bits() == 0 && b.x.to_bits() == 0
    };
    assert!(try_parallel_shift(&mut path, &oracle));
    assert_eq!(positions(&path), vec![(0, 0), (8, 0), (8, 4)]);
}

#[test]
fn shift_slides_as_far_as_the_search_finds_room() {
    let mut path = vec![anchor(0, 0), anchor(8, 0), anchor(8, 8), anchor(16, 8)];
    let oracle = |a: FixedVec2, b: FixedVec2, _l: usize| {
        a.x.to_bits() == b.x.to_bits() && (a.x.to_bits() < 4 || a.x.to_bits() > 12)
    };
    assert!(try_parallel_shift(&mut path, &oracle));
    assert_eq!(positions(&path), vec![(0, 0), (4, 0), (4, 8), (16, 8)]);
}

#[test]
fn shift_gives_up_when_everything_is_blocked() {
    let mut path = vec![anchor(0, 0), anchor(4, 0), anchor(4, 4), anchor(8, 4)];
    assert!(!try_parallel_shift(&mut path, &always));
    assert_eq!(positions(&path), vec![(0, 0), (4, 0), (4, 4), (8, 4)]);
}

#[test]
fn shift_needs_parallel_outer_steps() {
    let mut path = vec![anchor(0, 0), anchor(4, 0), anchor(4, 4), anchor(0, 4)];
    assert!(!try_parallel_shift(&mut path, &never));
}

#[test]
fn convex_merge_collapses_a_bulge_to_one_diagonal() {
    let mut path = vec![anchor(0, 0), anchor(8, 0), anchor(12, 4), anchor(12, 12)];
    assert!(try_convex_and_merge(&mut path, &never));
    assert_eq!(positions(&path), vec![(0, 0), (12, 12)]);
}

#[test]
fn convex_merge_moves_the_step_as_far_as_the_search_finds_room() {
    let mut path = vec![anchor(0, 0), anchor(8, 0), anchor(12, 4), anchor(12, 12)];
    // diagonals above the line y = x - 3 collide
    let oracle = |a: FixedVec2, b: FixedVec2, _l: usize| {
        let dx = b.x.to_bits() - a.x.to_bits();
        let dy = b.y.to_bits() - a.y.to_bits();
        dx == dy && a.y.to_bits() - a.x.to_bits() > -3
    };
    assert!(try_convex_and_merge(&mut path, &oracle));
    assert_eq!(positions(&path), vec![(0, 0), (4, 0), (12, 8), (12, 12)]);
}

#[test]
fn convex_merge_leaves_a_zigzag() {
    // turns right, then left: no bulge
    let mut path = vec![anchor(0, 0), anchor(0, 8), anchor(8, 8), anchor(8, 16)];
    assert!(!try_convex_and_merge(&mut path, &never));
    assert_eq!(path.len(), 4);
}

#[test]
fn convex_merge_gives_up_when_everything_is_blocked() {
    let mut path = vec![anchor(0, 0), anchor(8, 0), anchor(12, 4), anchor(12, 12)];
    assert!(!try_convex_and_merge(&mut path, &always));
    assert_eq!(positions(&path), vec![(0, 0), (8, 0), (12, 4), (12, 12)]);
}

#[test]
fn binary_approach_finds_the_last_clear_length() {
    let start = pt(0, 0);
    let traces = |len: FixedPoint| vec![(start, pt(len.to_bits(), 0))];
    let oracle = |_a: FixedVec2, b: FixedVec2, _l: usize| b.x.to_bits() > 10;
    let found = binary_approach_to_obstacles(
        &traces,
        FixedPoint::from_bits(0),
        FixedPoint::from_bits(100),
        &oracle,
        0,
    );
    assert_eq!(found, FixedPoint::from_bits(10));
}

#[test]
fn binary_approach_stays_at_the_start_when_all_is_blocked() {
    let start = pt(0, 0);
    let traces = |len: FixedPoint| vec![(start, pt(len.to_bits(), 0))];
    let found = binary_approach_to_obstacles(
        &traces,
        FixedPoint::from_bits(0),
        FixedPoint::from_bits(64),
        &always,
        0,
    );
    assert_eq!(found, FixedPoint::from_bits(0));
}

#[test]
fn binary_approach_skips_empty_pieces() {
    let start = pt(0, 0);
    // the only piece is empty at every length, so nothing ever collides
    let traces = |_len: FixedPoint| vec![(start, start)];
    let found = binary_approach_to_obstacles(
        &traces,
        FixedPoint::from_bits(0),
        FixedPoint::from_bits(64),
        &always,
        0,
    );
    assert_eq!(found, FixedPoint::from_bits(63));
}

fn path_of(anchors: Vec<TraceAnchor>) -> TracePath {
    TracePath::from_anchors(
        TraceAnchors(anchors),
        FixedPoint::from_bits(65536),
        FixedPoint::from_bits(32768),
        FixedPoint::from_bits(131072),
    )
}

fn optimize(path: &TracePath, oracle: &impl Fn(FixedVec2, FixedVec2, usize) -> bool) -> TracePath {
    optimize_path(
        path,
        oracle,
        FixedPoint::from_bits(65536),
        FixedPoint::from_bits(32768),
        FixedPoint::from_bits(131072),
        1000,
    )
}

#[test]
fn optimizing_a_straight_path_changes_nothing() {
    let path = path_of(vec![anchor(0, 0), anchor(64, 0)]);
    let better = optimize(&path, &never);
    assert_eq!(positions(&better.anchors.0), vec![(0, 0), (64, 0)]);
    assert_eq!(better.segments, path.segments);
    assert_eq!(better.vias, path.vias);
    assert_eq!(better.total_length, path.total_length);
}

#[test]
fn optimizing_a_settled_path_changes_nothing() {
    // one blunt turn, every rewrite blocked or not applicable
    let path = path_of(vec![anchor(0, 0), anchor(8, 0), anchor(16, 8)]);
    let better = optimize(&path, &always);
    assert_eq!(positions(&better.anchors.0), vec![(0, 0), (8, 0), (16, 8)]);
    assert_eq!(better.segments, path.segments);
    let again = optimize(&better, &always);
    assert_eq!(positions(&again.anchors.0), vec![(0, 0), (8, 0), (16, 8)]);
}

#[test]
fn optimizing_a_staircase_gives_one_turn() {
    let path = path_of(vec![anchor(0, 0), anchor(4, 0), anchor(4, 4), anchor(8, 4), anchor(8, 8)]);
    let better = optimize(&path, &never);
    let ps = positions(&better.anchors.0);
    assert_eq!(ps.first(), Some(&(0, 0)));
    assert_eq!(ps.last(), Some(&(8, 8)));
    assert_eq!(ps, vec![(0, 0), (8, 8)]);
    assert_eq!(better.total_length.straight, 0);
    assert_eq!(better.total_length.diagonal, 8);
}

#[test]
fn optimizing_keeps_the_anchors_that_change_layer() {
    let via = TraceAnchor { position: pt(4, 0), start_layer: 0, end_layer: 1 };
    let path = path_of(vec![
        anchor(0, 0),
        anchor(2, 0),
        via,
        TraceAnchor { position: pt(8, 0), start_layer: 1, end_layer: 1 },
        TraceAnchor { position: pt(12, 0), start_layer: 1, end_layer: 1 },
    ]);
    let better = optimize(&path, &never);
    assert_eq!(positions(&better.anchors.0), vec![(0, 0), (4, 0), (12, 0)]);
    assert_eq!(better.anchors.0[1], via);
    assert_eq!(better.vias.len(), 1);
    assert_eq!(better.vias[0].position, pt(4, 0));
    assert_eq!((better.vias[0].min_layer, better.vias[0].max_layer), (0, 1));
}

#[test]
fn optimizing_with_no_rewrites_allowed_only_merges() {
    let path = path_of(vec![anchor(0, 0), anchor(2, 0), anchor(4, 0), anchor(4, 4), anchor(8, 4)]);
    let better = optimize_path(
        &path,
        &never,
        FixedPoint::from_bits(65536),
        FixedPoint::from_bits(32768),
        FixedPoint::from_bits(131072),
        0,
    );
    assert_eq!(positions(&better.anchors.0), vec![(0, 0), (4, 0), (4, 4), (8, 4)]);
}

#[test]
fn a_right_angle_that_cannot_be_flattened_stays() {
    let path = path_of(vec![anchor(0, 0), anchor(8, 0), anchor(8, 8)]);
    let better = optimize(&path, &always);
    assert_eq!(positions(&better.anchors.0), vec![(0, 0), (8, 0), (8, 8)]);
    let again = optimize(&better, &always);
    assert_eq!(positions(&again.anchors.0), vec![(0, 0), (8, 0), (8, 8)]);
}

#[test]
fn a_right_angle_is_cut_and_flattened_when_clear() {
    let path = path_of(vec![anchor(0, 0), anchor(8, 0), anchor(8, 8)]);
    let better = optimize(&path, &never);
    assert_eq!(positions(&better.anchors.0), vec![(0, 0), (8, 8)]);
    assert_eq!(better.total_length.diagonal, 8);
    assert_eq!(better.total_length.straight, 0);
}
