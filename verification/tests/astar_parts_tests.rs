use pcb_router::astar::AStarModel;
use pcb_router::direction::{AStarNodeDirection, Direction};
use pcb_router::fixed_point::FixedPoint;
use pcb_router::pcb_problem::PadLayer;
use pcb_router::search::is_visited;
use pcb_router::search_tree::{AstarNode, AstarNodeKey};
use pcb_router::vec2::FixedVec2;

fn pt(x: i32, y: i32) -> FixedVec2 {
    FixedVec2::from_bits(x, y)
}

fn model_to(end: FixedVec2) -> AStarModel {
    AStarModel {
        start: pt(0, 0),
        end,
        start_layers: PadLayer::All,
        end_layers: PadLayer::Front,
        num_layers: 2,
        trace_width: FixedPoint::from_bits(4),
        trace_clearance: FixedPoint::from_bits(2),
        via_diameter: FixedPoint::from_bits(8),
    }
}

#[test]
fn a_clear_move_reaches_its_end() {
    let m = model_to(pt(20, 20));
    let clear = |_a: FixedVec2, _b: FixedVec2, _l: usize| false;
    assert_eq!(m.clamp_by_collision(&clear, pt(0, 0), pt(100, 0), 0), Some(pt(100, 0)));
}

#[test]
fn a_blocked_move_stops_at_the_last_clear_even_point() {
    let m = model_to(pt(20, 20));
    let beyond_ten = |_a: FixedVec2, b: FixedVec2, _l: usize| b.x.to_bits() > 10;
    assert_eq!(m.clamp_by_collision(&beyond_ten, pt(0, 0), pt(100, 0), 0), Some(pt(10, 0)));
    let beyond_eleven = |_a: FixedVec2, b: FixedVec2, _l: usize| b.x.to_bits() > 11;
    assert_eq!(m.clamp_by_collision(&beyond_eleven, pt(0, 0), pt(100, 0), 0), Some(pt(10, 0)));
    assert_eq!(
        m.binary_approach_to_obstacles(&beyond_eleven, pt(0, 0), pt(100, 0), 0),
        Some(pt(10, 0))
    );
}

#[test]
fn a_blocked_diagonal_move_stops_on_the_even_lattice() {
    let m = model_to(pt(20, 20));
    let beyond_seven = |_a: FixedVec2, b: FixedVec2, _l: usize| b.x.to_bits() > 7;
    assert_eq!(m.clamp_by_collision(&beyond_seven, pt(0, 0), pt(50, 50), 0), Some(pt(6, 6)));
    // from a point with two odd coordinates
    assert_eq!(m.clamp_by_collision(&beyond_seven, pt(1, 1), pt(51, 51), 0), Some(pt(6, 6)));
    assert_eq!(m.clamp_by_collision(&beyond_seven, pt(0, 0), pt(-50, 50), 0), Some(pt(-50, 50)));
}

#[test]
fn a_move_that_is_blocked_at_once_leads_nowhere() {
    let m = model_to(pt(20, 20));
    let blocked = |_a: FixedVec2, _b: FixedVec2, _l: usize| true;
    assert_eq!(m.clamp_by_collision(&blocked, pt(0, 0), pt(100, 0), 0), None);
    let beyond_one = |_a: FixedVec2, b: FixedVec2, _l: usize| b.x.to_bits() > 1;
    assert_eq!(m.clamp_by_collision(&beyond_one, pt(0, 0), pt(100, 0), 0), None);
}

#[test]
fn the_nearest_line_through_the_goal_is_met() {
    let m = model_to(pt(20, 20));
    assert_eq!(m.get_intersection_with_end_alignments(pt(4, 0), pt(4, 40), 0), Some(pt(4, 4)));
    // a shorter move meets only the horizontal line through the goal
    assert_eq!(m.get_intersection_with_end_alignments(pt(4, 10), pt(4, 30), 0), Some(pt(4, 20)));
    // no line is met
    assert_eq!(m.get_intersection_with_end_alignments(pt(4, 6), pt(4, 10), 0), None);
    // the goal cannot be reached on the back layer
    assert_eq!(m.get_intersection_with_end_alignments(pt(4, 0), pt(4, 40), 1), None);
}

#[test]
fn directions_along_a_wall_are_radial() {
    let m = model_to(pt(20, 20));
    let wall = |_a: FixedVec2, b: FixedVec2, _l: usize| b.x.to_bits() > 0;
    assert_eq!(
        m.radial_directions_wrt_obstacles(&wall, &pt(0, 0), 0),
        vec![Direction::Up, Direction::Down]
    );
    let clear = |_a: FixedVec2, _b: FixedVec2, _l: usize| false;
    assert_eq!(m.radial_directions_wrt_obstacles(&clear, &pt(0, 0), 0), vec![]);
    let blocked = |_a: FixedVec2, _b: FixedVec2, _l: usize| true;
    assert_eq!(m.radial_directions_wrt_obstacles(&blocked, &pt(0, 0), 0), vec![]);
}

fn node(position: FixedVec2, layer: usize, direction: AStarNodeDirection, prev_node: Option<usize>) -> AstarNode {
    AstarNode {
        position,
        layer,
        direction,
        actual_cost: 0,
        actual_length: 0,
        estimated_cost: 0,
        total_cost: 0,
        prev_node,
    }
}

fn small_tree() -> Vec<AstarNode> {
    vec![
        node(pt(0, 0), 0, AStarNodeDirection::Unset, None),
        node(pt(8, 0), 0, AStarNodeDirection::Planar(Direction::Right), Some(0)),
        node(pt(8, 0), 1, AStarNodeDirection::Vertical { from_layer: 0 }, Some(1)),
        node(pt(8, 8), 1, AStarNodeDirection::Planar(Direction::Up), Some(2)),
        node(pt(0, 8), 0, AStarNodeDirection::Planar(Direction::Up), Some(0)),
    ]
}

#[test]
fn nodes_are_linked_as_their_directions_say() {
    let tree = small_tree();
    for k in 0..tree.len() {
        assert!(AstarNode::is_direction_and_displacement_invariant(&tree, k));
    }
    let mut wrong = small_tree();
    wrong[1].direction = AStarNodeDirection::Planar(Direction::Up);
    assert!(!AstarNode::is_direction_and_displacement_invariant(&wrong, 1));
    let mut no_start = small_tree();
    no_start[0].prev_node = Some(0);
    assert!(!AstarNode::is_direction_and_displacement_invariant(&no_start, 0));
    let mut same_layer = small_tree();
    same_layer[2].layer = 0;
    assert!(!AstarNode::is_direction_and_displacement_invariant(&same_layer, 2));
    let mut other_layer = small_tree();
    other_layer[3].layer = 0;
    assert!(!AstarNode::is_direction_and_displacement_invariant(&other_layer, 3));
}

#[test]
fn the_way_to_a_node_becomes_a_path() {
    let tree = small_tree();
    let path = AstarNode::to_trace_path(
        &tree,
        3,
        FixedPoint::from_bits(4),
        FixedPoint::from_bits(2),
        FixedPoint::from_bits(8),
    );
    let anchors: Vec<(i32, i32, usize, usize)> = path
        .anchors
        .0
        .iter()
        .map(|a| (a.position.x.to_bits(), a.position.y.to_bits(), a.start_layer, a.end_layer))
        .collect();
    assert_eq!(anchors, vec![(0, 0, 0, 0), (8, 0, 0, 1), (8, 8, 1, 1)]);
    assert_eq!(path.segments.len(), 2);
    assert_eq!(path.segments[0].layer, 0);
    assert_eq!(path.segments[1].layer, 1);
    assert_eq!(path.vias.len(), 1);
    assert_eq!(path.vias[0].position, pt(8, 0));
    assert_eq!(path.total_length.straight, 16);
    let other = AstarNode::to_trace_path(
        &tree,
        4,
        FixedPoint::from_bits(4),
        FixedPoint::from_bits(2),
        FixedPoint::from_bits(8),
    );
    assert_eq!(other.anchors.0.len(), 2);
    let single = AstarNode::to_trace_path(
        &tree,
        0,
        FixedPoint::from_bits(4),
        FixedPoint::from_bits(2),
        FixedPoint::from_bits(8),
    );
    assert_eq!(single.anchors.0.len(), 1);
}

#[test]
fn visited_keys_are_found() {
    let keys = vec![
        AstarNodeKey { position: pt(0, 0), layer: 0 },
        AstarNodeKey { position: pt(8, 0), layer: 1 },
    ];
    assert!(is_visited(&keys, AstarNodeKey { position: pt(8, 0), layer: 1 }));
    assert!(!is_visited(&keys, AstarNodeKey { position: pt(8, 0), layer: 0 }));
    assert_eq!(small_tree()[2].key(), AstarNodeKey { position: pt(8, 0), layer: 1 });
}
