use pcb_router::astar::{octile_distance_fixed, AStarModel, AStarSettings};
use pcb_router::astar_check_struct::check_path;
use pcb_router::bayesian_backtrack_algo::TraceCache;
use pcb_router::direction::Direction;
use pcb_router::fixed_point::FixedPoint;
use pcb_router::pcb_problem::{ConnectionID, PadLayer};
use pcb_router::search::{AStarError, FrontierItem};
use pcb_router::trace_path::TracePath;
use pcb_router::vec2::FixedVec2;
use std::cell::Cell;

const UNIT: i32 = 65536;

fn units(x: i32, y: i32) -> FixedVec2 {
    FixedVec2::from_bits(x * UNIT, y * UNIT)
}

fn as_units(p: FixedVec2) -> (f64, f64) {
    (p.x.to_bits() as f64 / UNIT as f64, p.y.to_bits() as f64 / UNIT as f64)
}

/// Distance from the point `p` to the segment from `a` to `b`.
fn point_to_segment(p: (f64, f64), a: (f64, f64), b: (f64, f64)) -> f64 {
    let (dx, dy) = (b.0 - a.0, b.1 - a.1);
    let len2 = dx * dx + dy * dy;
    let t = if len2 == 0.0 { 0.0 } else { (((p.0 - a.0) * dx + (p.1 - a.1) * dy) / len2).clamp(0.0, 1.0) };
    let (cx, cy) = (a.0 + t * dx, a.1 + t * dy);
    ((p.0 - cx) * (p.0 - cx) + (p.1 - cy) * (p.1 - cy)).sqrt()
}

fn segments_cross(a: (f64, f64), b: (f64, f64), c: (f64, f64), d: (f64, f64)) -> bool {
    let o = |p: (f64, f64), q: (f64, f64), r: (f64, f64)| (q.0 - p.0) * (r.1 - p.1) - (q.1 - p.1) * (r.0 - p.0);
    let (d1, d2, d3, d4) = (o(c, d, a), o(c, d, b), o(a, b, c), o(a, b, d));
    ((d1 > 0.0 && d2 < 0.0) || (d1 < 0.0 && d2 > 0.0)) && ((d3 > 0.0 && d4 < 0.0) || (d3 < 0.0 && d4 > 0.0))
}

/// Distance between two segments.
fn segment_to_segment(a: (f64, f64), b: (f64, f64), c: (f64, f64), d: (f64, f64)) -> f64 {
    if segments_cross(a, b, c, d) {
        return 0.0;
    }
    point_to_segment(a, c, d)
        .min(point_to_segment(b, c, d))
        .min(point_to_segment(c, a, b))
        .min(point_to_segment(d, a, b))
}

fn outside(p: FixedVec2, half: f64, margin: f64) -> bool {
    let (x, y) = as_units(p);
    x - margin < -half || x + margin > half || y - margin < -half || y + margin > half
}

fn model(start: FixedVec2, end: FixedVec2, layers: PadLayer, num_layers: usize) -> AStarModel {
    AStarModel {
        start,
        end,
        start_layers: layers,
        end_layers: layers,
        num_layers,
        trace_width: FixedPoint::from_bits(UNIT),
        trace_clearance: FixedPoint::from_bits(UNIT / 2),
        via_diameter: FixedPoint::from_bits(2 * UNIT),
    }
}

fn settings(stride: i32, max_expansions: usize) -> AStarSettings {
    AStarSettings {
        astar_stride: FixedPoint::from_bits(stride),
        astar_max_expansions: max_expansions,
        via_cost: FixedPoint::from_bits(5 * UNIT),
        max_rewrites: 1000,
    }
}

fn euclid(path: &TracePath) -> f64 {
    (path.total_length.straight as f64 + path.total_length.diagonal as f64 * 2f64.sqrt()) / UNIT as f64
}

fn check_shape(path: &TracePath, m: &AStarModel) {
    let anchors = &path.anchors.0;
    assert_eq!(anchors.first().unwrap().position, m.start);
    assert_eq!(anchors.last().unwrap().position, m.end);
    for pair in anchors.windows(2) {
        assert_eq!(pair[0].end_layer, pair[1].start_layer);
        assert!(Direction::is_two_points_valid_direction(pair[0].position, pair[1].position));
    }
    for s in &path.segments {
        assert!(matches!(Direction::from_points(s.start, s.end), Ok(Some(_))));
    }
    assert_eq!(path.segments.len(), anchors.len() - 1);
}

fn no_stop() -> bool {
    false
}

#[test]
fn empty_board_gives_one_straight_segment() {
    let m = model(units(-30, 0), units(30, 0), PadLayer::All, 1);
    let border = |a: FixedVec2, b: FixedVec2, _l: usize| outside(a, 50.0, 0.5) || outside(b, 50.0, 0.5);
    let via = |p: FixedVec2, _l: usize| outside(p, 50.0, 1.0);
    let found = m.run(&border, &via, &no_stop, &settings(UNIT, 3000)).unwrap();
    let path = found.trace_path;
    check_shape(&path, &m);
    assert_eq!(path.anchors.0.len(), 2);
    assert_eq!(path.segments.len(), 1);
    assert!(path.vias.is_empty());
    assert_eq!(path.total_length.straight, 60 * UNIT as u128);
    assert_eq!(path.total_length.diagonal, 0);
    assert!((euclid(&path) - 60.0).abs() < 1e-9);
}

#[test]
fn smallest_stride_terminates_on_an_empty_board() {
    let m = model(units(-30, 0), units(30, 0), PadLayer::All, 1);
    let border = |a: FixedVec2, b: FixedVec2, _l: usize| outside(a, 50.0, 0.5) || outside(b, 50.0, 0.5);
    let via = |p: FixedVec2, _l: usize| outside(p, 50.0, 1.0);
    let found = m.run(&border, &via, &no_stop, &settings(2, 3000)).unwrap();
    assert_eq!(found.trace_path.anchors.0.len(), 2);
    assert!((euclid(&found.trace_path) - 60.0).abs() < 1e-9);
}

#[test]
fn one_pad_in_the_way_is_passed_by() {
    let m = model(units(-30, 0), units(30, 0), PadLayer::All, 1);
    // a round pad of diameter 6 with clearance 0.5 at the origin, against a
    // trace of width 1 with clearance 0.5
    let oracle = |a: FixedVec2, b: FixedVec2, _l: usize| {
        outside(a, 50.0, 0.5)
            || outside(b, 50.0, 0.5)
            || point_to_segment((0.0, 0.0), as_units(a), as_units(b)) < 4.0
    };
    let via = |p: FixedVec2, _l: usize| {
        outside(p, 50.0, 1.0) || point_to_segment((0.0, 0.0), as_units(p), as_units(p)) < 4.5
    };
    let found = m.run(&oracle, &via, &no_stop, &settings(UNIT, 3000)).unwrap();
    let path = found.trace_path;
    check_shape(&path, &m);
    assert!(path.vias.is_empty());
    assert!(euclid(&path) > 60.0);
    assert!(euclid(&path) < 70.0);
    for s in &path.segments {
        assert!(!oracle(s.start, s.end, s.layer));
    }
}

#[test]
fn crossing_a_fixed_trace_takes_two_vias() {
    let mut m = model(units(0, -30), units(0, 30), PadLayer::Front, 2);
    m.end_layers = PadLayer::Front;
    // another net's trace runs from (-30, 0) to (30, 0) on layer 0
    let other = ((-30.0, 0.0), (30.0, 0.0));
    let oracle = |a: FixedVec2, b: FixedVec2, l: usize| {
        outside(a, 50.0, 0.5)
            || outside(b, 50.0, 0.5)
            || (l == 0 && segment_to_segment(as_units(a), as_units(b), other.0, other.1) < 1.5)
    };
    let via = |p: FixedVec2, l: usize| {
        outside(p, 50.0, 1.0) || (l == 0 && point_to_segment(as_units(p), other.0, other.1) < 2.0)
    };
    let found = m.run(&oracle, &via, &no_stop, &settings(UNIT, 3000)).unwrap();
    let path = found.trace_path;
    check_shape(&path, &m);
    assert_eq!(path.vias.len(), 2);
    assert_eq!(path.anchors.0.first().unwrap().start_layer, 0);
    assert_eq!(path.anchors.0.last().unwrap().end_layer, 0);
    for v in &path.vias {
        assert_eq!((v.min_layer, v.max_layer), (0, 1));
        assert!(!via(v.position, 0));
    }
    for s in &path.segments {
        assert!(!oracle(s.start, s.end, s.layer));
    }
    assert!(path.segments.iter().any(|s| s.layer == 1));
}

#[test]
fn a_stop_request_cancels_before_the_first_node() {
    let m = model(units(-30, 0), units(30, 0), PadLayer::All, 1);
    let clear = |_a: FixedVec2, _b: FixedVec2, _l: usize| false;
    let via = |_p: FixedVec2, _l: usize| false;
    let stop = || true;
    let r = m.run(&clear, &via, &stop, &settings(UNIT, 3000));
    assert_eq!(r.err(), Some(AStarError::Cancelled));
}

#[test]
fn a_stop_request_cancels_a_running_search() {
    let m = model(units(-30, 0), units(30, 0), PadLayer::All, 1);
    // a wall that cannot be passed keeps the search busy
    let wall = |a: FixedVec2, b: FixedVec2, _l: usize| {
        outside(a, 50.0, 0.5) || outside(b, 50.0, 0.5) || as_units(a).0.max(as_units(b).0) > -1.0
    };
    let via = |_p: FixedVec2, _l: usize| true;
    let polls = Cell::new(0usize);
    let stop = || {
        polls.set(polls.get() + 1);
        polls.get() > 20
    };
    let r = m.run(&wall, &via, &stop, &settings(UNIT, 100000));
    assert_eq!(r.err(), Some(AStarError::Cancelled));
    assert_eq!(polls.get(), 21);
}

#[test]
fn the_search_gives_up_after_its_budget() {
    let m = model(units(-30, 0), units(30, 0), PadLayer::All, 1);
    let wall = |a: FixedVec2, b: FixedVec2, _l: usize| {
        outside(a, 50.0, 0.5) || outside(b, 50.0, 0.5) || as_units(a).0.max(as_units(b).0) > -1.0
    };
    let via = |_p: FixedVec2, _l: usize| true;
    let r = m.run(&wall, &via, &no_stop, &settings(UNIT, 50));
    assert_eq!(r.err(), Some(AStarError::BudgetExceeded));
    let none = m.run(&wall, &via, &no_stop, &settings(UNIT, 0));
    assert_eq!(none.err(), Some(AStarError::BudgetExceeded));
}

#[test]
fn a_start_that_is_walled_in_has_no_path() {
    let m = model(units(-30, 0), units(30, 0), PadLayer::All, 1);
    let blocked = |_a: FixedVec2, _b: FixedVec2, _l: usize| true;
    let via = |_p: FixedVec2, _l: usize| true;
    let r = m.run(&blocked, &via, &no_stop, &settings(UNIT, 3000));
    assert_eq!(r.err(), Some(AStarError::NoPath));
}

#[test]
fn start_at_the_goal_gives_a_single_anchor() {
    let m = model(units(5, 5), units(5, 5), PadLayer::All, 2);
    let clear = |_a: FixedVec2, _b: FixedVec2, _l: usize| false;
    let via = |_p: FixedVec2, _l: usize| false;
    let found = m.run(&clear, &via, &no_stop, &settings(UNIT, 10)).unwrap();
    assert_eq!(found.trace_path.anchors.0.len(), 1);
    assert!(found.trace_path.segments.is_empty());
}

#[test]
fn octile_cost_counts_diagonal_and_straight_ticks() {
    let a = FixedVec2::from_bits(0, 0);
    assert_eq!(octile_distance_fixed(a, FixedVec2::from_bits(10, 0)), 10 * 65536);
    assert_eq!(octile_distance_fixed(a, FixedVec2::from_bits(-3, 3)), 3 * 92682);
    assert_eq!(octile_distance_fixed(a, FixedVec2::from_bits(10, -4)), 6 * 65536 + 4 * 92682);
    assert_eq!(octile_distance_fixed(a, a), 0);
}

#[test]
fn pop_min_takes_the_first_cheapest() {
    let mut frontier = vec![
        FrontierItem { total_cost: 7, node: 0 },
        FrontierItem { total_cost: 3, node: 1 },
        FrontierItem { total_cost: 3, node: 2 },
        FrontierItem { total_cost: 9, node: 3 },
    ];
    assert_eq!(pcb_router::search::pop_min(&mut frontier), FrontierItem { total_cost: 3, node: 1 });
    assert_eq!(frontier.len(), 3);
    assert_eq!(pcb_router::search::pop_min(&mut frontier), FrontierItem { total_cost: 3, node: 2 });
    assert_eq!(pcb_router::search::pop_min(&mut frontier), FrontierItem { total_cost: 7, node: 0 });
    assert_eq!(pcb_router::search::pop_min(&mut frontier), FrontierItem { total_cost: 9, node: 3 });
    assert!(frontier.is_empty());
}

#[test]
fn a_second_request_is_served_from_the_cache() {
    let m = model(units(-30, 0), units(30, 0), PadLayer::All, 1);
    let oracle = |a: FixedVec2, b: FixedVec2, _l: usize| {
        outside(a, 50.0, 0.5)
            || outside(b, 50.0, 0.5)
            || point_to_segment((0.0, 0.0), as_units(a), as_units(b)) < 4.0
    };
    let via = |p: FixedVec2, _l: usize| outside(p, 50.0, 1.0);
    let connection = ConnectionID(0);
    let mut cache = TraceCache::new(&vec![connection]);
    let searches = Cell::new(0usize);
    let mut route = || match cache.lookup(connection, 1, &oracle, &via) {
        Some(path) => path,
        None => {
            searches.set(searches.get() + 1);
            let found = m.run(&oracle, &via, &no_stop, &settings(UNIT, 3000)).unwrap().trace_path;
            cache.insert(connection, found.duplicate());
            found
        }
    };
    let first = route();
    assert_eq!(searches.get(), 1);
    let second = route();
    assert_eq!(searches.get(), 1);
    assert_eq!(first.anchors.0, second.anchors.0);
    assert_eq!(first.segments, second.segments);
}

#[test]
fn a_search_is_repeatable() {
    let m = model(units(-30, 0), units(30, 0), PadLayer::All, 1);
    let oracle = |a: FixedVec2, b: FixedVec2, _l: usize| {
        outside(a, 50.0, 0.5)
            || outside(b, 50.0, 0.5)
            || point_to_segment((0.0, 0.0), as_units(a), as_units(b)) < 4.0
    };
    let via = |p: FixedVec2, _l: usize| outside(p, 50.0, 1.0);
    let one = m.run(&oracle, &via, &no_stop, &settings(UNIT, 3000)).unwrap().trace_path;
    let two = m.run(&oracle, &via, &no_stop, &settings(UNIT, 3000)).unwrap().trace_path;
    assert_eq!(one.anchors.0, two.anchors.0);
    assert_eq!(one.total_length, two.total_length);
}

#[test]
fn a_path_round_a_pad_passes_the_check_of_its_oracles() {
    let m = model(units(-30, 6), units(30, -4), PadLayer::All, 1);
    let oracle = |a: FixedVec2, b: FixedVec2, _l: usize| {
        outside(a, 50.0, 0.5)
            || outside(b, 50.0, 0.5)
            || point_to_segment((0.0, 0.0), as_units(a), as_units(b)) < 7.0
    };
    let via = |p: FixedVec2, _l: usize| {
        outside(p, 50.0, 1.0) || point_to_segment((0.0, 0.0), as_units(p), as_units(p)) < 7.5
    };
    let found = m.run(&oracle, &via, &no_stop, &settings(2 * UNIT, 5000)).unwrap();
    check_shape(&found.trace_path, &m);
    assert!(found.trace_path.anchors.0.len() > 2);
    assert!(check_path(&found.trace_path, 1, &oracle, &via));
}

#[test]
fn a_path_with_vias_passes_the_check_of_its_oracles() {
    let m = model(units(0, -30), units(0, 30), PadLayer::Front, 2);
    let other = ((-30.0, 0.0), (30.0, 0.0));
    let oracle = |a: FixedVec2, b: FixedVec2, l: usize| {
        outside(a, 50.0, 0.5)
            || outside(b, 50.0, 0.5)
            || (l == 0 && segment_to_segment(as_units(a), as_units(b), other.0, other.1) < 1.5)
    };
    let via = |p: FixedVec2, l: usize| {
        outside(p, 50.0, 1.0) || (l == 0 && point_to_segment(as_units(p), other.0, other.1) < 2.0)
    };
    let found = m.run(&oracle, &via, &no_stop, &settings(UNIT, 3000)).unwrap();
    assert_eq!(found.trace_path.vias.len(), 2);
    assert!(check_path(&found.trace_path, 2, &oracle, &via));
    // against a board on which the other trace lies on both layers the
    // same path fails the check
    let both = |a: FixedVec2, b: FixedVec2, _l: usize| {
        segment_to_segment(as_units(a), as_units(b), other.0, other.1) < 1.5
    };
    assert!(!check_path(&found.trace_path, 2, &both, &via));
}
