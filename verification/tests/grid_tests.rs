use pcb_router::direction::Direction;
use pcb_router::fixed_point::FixedPoint;
use pcb_router::grid::{
    clamp_down, clamp_up, directions_to_grid_points, floor_mod, is_grid_point,
    line_intersection_infinite, to_nearest_one_step_point,
};
use pcb_router::line::Line;
use pcb_router::vec2::{FixedVec2, IntVec2};

fn fx(bits: i32) -> FixedPoint {
    FixedPoint::from_bits(bits)
}

fn pt(x: i32, y: i32) -> FixedVec2 {
    FixedVec2::from_bits(x, y)
}

#[test]
fn floor_mod_is_never_negative() {
    assert_eq!(floor_mod(7, 4), 3);
    assert_eq!(floor_mod(-1, 4), 3);
    assert_eq!(floor_mod(-4, 4), 0);
    assert_eq!(floor_mod(-5, 4), 3);
    assert_eq!(floor_mod(0, 4), 0);
}

#[test]
fn clamp_down_goes_strictly_below() {
    assert_eq!(clamp_down(fx(5), fx(4)), fx(4));
    assert_eq!(clamp_down(fx(4), fx(4)), fx(0));
    assert_eq!(clamp_down(fx(1), fx(4)), fx(0));
    assert_eq!(clamp_down(fx(0), fx(4)), fx(-4));
    assert_eq!(clamp_down(fx(-1), fx(4)), fx(-4));
    assert_eq!(clamp_down(fx(-4), fx(4)), fx(-8));
}

#[test]
fn clamp_up_goes_strictly_above() {
    assert_eq!(clamp_up(fx(3), fx(4)), fx(4));
    assert_eq!(clamp_up(fx(4), fx(4)), fx(8));
    assert_eq!(clamp_up(fx(0), fx(4)), fx(4));
    assert_eq!(clamp_up(fx(-1), fx(4)), fx(0));
    assert_eq!(clamp_up(fx(-4), fx(4)), fx(0));
    assert_eq!(clamp_up(fx(-5), fx(4)), fx(-4));
}

#[test]
fn clamps_work_with_the_smallest_stride_far_from_the_origin() {
    // thirty units from the origin with a stride of two ticks
    let v = fx(30 * 65536);
    assert_eq!(clamp_up(v, fx(2)), fx(30 * 65536 + 2));
    assert_eq!(clamp_down(v, fx(2)), fx(30 * 65536 - 2));
}

#[test]
fn grid_points_are_multiples_of_the_stride() {
    assert!(is_grid_point(&pt(8, -4), fx(4)));
    assert!(is_grid_point(&pt(0, 0), fx(4)));
    assert!(!is_grid_point(&pt(8, 2), fx(4)));
    assert!(!is_grid_point(&pt(-2, 4), fx(4)));
}

#[test]
fn a_grid_point_has_eight_moves() {
    let moves = directions_to_grid_points(pt(0, 0), fx(4));
    assert_eq!(
        moves,
        vec![
            (Direction::Left, pt(-4, 0)),
            (Direction::Right, pt(4, 0)),
            (Direction::Up, pt(0, 4)),
            (Direction::Down, pt(0, -4)),
            (Direction::TopLeft, pt(-4, 4)),
            (Direction::BottomRight, pt(4, -4)),
            (Direction::TopRight, pt(4, 4)),
            (Direction::BottomLeft, pt(-4, -4)),
        ]
    );
}

#[test]
fn a_point_on_one_grid_line_has_two_moves() {
    assert_eq!(
        directions_to_grid_points(pt(2, 0), fx(4)),
        vec![(Direction::Left, pt(0, 0)), (Direction::Right, pt(4, 0))]
    );
    assert_eq!(
        directions_to_grid_points(pt(1, 3), fx(4)),
        vec![(Direction::TopLeft, pt(0, 4)), (Direction::BottomRight, pt(4, 0))]
    );
    assert_eq!(
        directions_to_grid_points(pt(3, 1), fx(4)),
        vec![(Direction::TopLeft, pt(0, 4)), (Direction::BottomRight, pt(4, 0))]
    );
    assert_eq!(
        directions_to_grid_points(pt(5, 1), fx(4)),
        vec![(Direction::TopRight, pt(8, 4)), (Direction::BottomLeft, pt(4, 0))]
    );
}

#[test]
fn a_point_off_every_grid_line_has_no_move() {
    assert_eq!(directions_to_grid_points(pt(2, 1), fx(8)), vec![]);
}

#[test]
fn one_step_points() {
    let p = pt(2, 0);
    let s = fx(4);
    assert_eq!(to_nearest_one_step_point(&p, Direction::Up, s), pt(2, 4));
    assert_eq!(to_nearest_one_step_point(&p, Direction::Down, s), pt(2, -4));
    assert_eq!(to_nearest_one_step_point(&p, Direction::Left, s), pt(0, 0));
    assert_eq!(to_nearest_one_step_point(&p, Direction::Right, s), pt(4, 0));
    assert_eq!(to_nearest_one_step_point(&p, Direction::TopLeft, s), pt(1, 1));
    assert_eq!(to_nearest_one_step_point(&p, Direction::BottomRight, s), pt(3, -1));
    assert_eq!(to_nearest_one_step_point(&p, Direction::TopRight, s), pt(3, 1));
    assert_eq!(to_nearest_one_step_point(&p, Direction::BottomLeft, s), pt(1, -1));
}

#[test]
fn one_step_from_a_grid_point_is_a_whole_stride_along_an_axis() {
    let p = pt(8, 8);
    let s = fx(4);
    assert_eq!(to_nearest_one_step_point(&p, Direction::Up, s), pt(8, 12));
    // a diagonal step stops at the next grid diagonal, half a stride away
    assert_eq!(to_nearest_one_step_point(&p, Direction::TopRight, s), pt(10, 10));
    assert_eq!(to_nearest_one_step_point(&p, Direction::TopLeft, s), pt(6, 10));
}

#[test]
fn segment_meets_horizontal_line() {
    let q = line_intersection_infinite(pt(0, 0), pt(8, 8), pt(0, 4), pt(1, 4));
    assert_eq!(q, Some(pt(4, 4)));
}

#[test]
fn segment_misses_line_beyond_its_end() {
    let q = line_intersection_infinite(pt(0, 0), pt(2, 2), pt(0, 4), pt(1, 4));
    assert_eq!(q, None);
}

#[test]
fn vertical_segment_meets_diagonal_line() {
    let q = line_intersection_infinite(pt(2, 0), pt(2, 10), pt(0, 0), pt(1, 1));
    assert_eq!(q, Some(pt(2, 2)));
    let miss = line_intersection_infinite(pt(2, 4), pt(2, 10), pt(0, 0), pt(1, 1));
    assert_eq!(miss, None);
}

#[test]
fn two_diagonals_meet_in_the_middle() {
    let q = line_intersection_infinite(pt(0, 0), pt(8, 8), pt(8, 0), pt(7, 1));
    assert_eq!(q, Some(pt(4, 4)));
}

#[test]
fn sloped_segment_meets_vertical_line_only_at_the_height_of_its_span() {
    // the vertical line is given by the span from (8, 8) to (8, 9)
    assert_eq!(line_intersection_infinite(pt(0, 0), pt(16, 16), pt(8, 8), pt(8, 9)), Some(pt(8, 8)));
    assert_eq!(line_intersection_infinite(pt(0, 0), pt(16, 16), pt(8, 0), pt(8, 1)), None);
}

#[test]
fn lines_meet_on_the_lattice() {
    let a = Line::new(pt(0, 0), IntVec2::new(1, 1));
    let b = Line::new(pt(4, 0), IntVec2::new(0, 1));
    assert_eq!(a.intersection(&b), Some(pt(4, 4)));
    assert_eq!(b.intersection(&a), Some(pt(4, 4)));
}

#[test]
fn parallel_lines_do_not_meet() {
    let a = Line::new(pt(0, 0), IntVec2::new(1, 1));
    let b = Line::new(pt(4, 0), IntVec2::new(-1, -1));
    assert_eq!(a.intersection(&b), None);
}

#[test]
fn lines_that_meet_between_lattice_points_give_none() {
    let a = Line::new(pt(0, 0), IntVec2::new(1, 1));
    let b = Line::new(pt(1, 0), IntVec2::new(-1, 1));
    assert_eq!(a.intersection(&b), None);
    let c = Line::new(pt(2, 0), IntVec2::new(-1, 1));
    assert_eq!(a.intersection(&c), Some(pt(1, 1)));
}

#[test]
fn lines_with_longer_directions_meet() {
    let a = Line::new(pt(0, 0), IntVec2::new(2, 1));
    let b = Line::new(pt(0, 6), IntVec2::new(1, -1));
    // y = x / 2 and y = 6 - x meet at (4, 2)
    assert_eq!(a.intersection(&b), Some(pt(4, 2)));
}
