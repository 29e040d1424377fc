use pcb_router::direction::{AStarNodeDirection, Direction, DirectionError};
use pcb_router::fixed_point::FixedPoint;
use pcb_router::vec2::FixedVec2;

fn all() -> Vec<Direction> {
    Direction::all_directions()
}

#[test]
fn all_directions_lists_axial_then_diagonal() {
    assert_eq!(
        all(),
        vec![
            Direction::Up,
            Direction::Down,
            Direction::Left,
            Direction::Right,
            Direction::TopRight,
            Direction::TopLeft,
            Direction::BottomRight,
            Direction::BottomLeft,
        ]
    );
}

#[test]
fn opposite_twice_is_identity() {
    for d in all() {
        assert_eq!(d.opposite().opposite(), d);
        assert_ne!(d.opposite(), d);
    }
    assert_eq!(Direction::Up.opposite(), Direction::Down);
    assert_eq!(Direction::TopRight.opposite(), Direction::BottomLeft);
}

#[test]
fn left_then_right_quarter_turn_is_identity() {
    for d in all() {
        assert_eq!(d.left_90_dir().right_90_dir(), d);
        assert_eq!(d.left_45_dir().right_45_dir(), d);
        assert!(d.is_right_angle(d.left_90_dir()));
        assert!(d.is_right_angle(d.right_90_dir()));
    }
}

#[test]
fn quarter_and_eighth_turns() {
    assert_eq!(Direction::Up.right_90_dir(), Direction::Right);
    assert_eq!(Direction::Up.left_90_dir(), Direction::Left);
    assert_eq!(Direction::Up.right_45_dir(), Direction::TopRight);
    assert_eq!(Direction::Up.left_45_dir(), Direction::TopLeft);
    assert_eq!(Direction::BottomLeft.right_45_dir(), Direction::Left);
}

#[test]
fn indices_run_clockwise_from_up() {
    let order = [
        Direction::Up,
        Direction::TopRight,
        Direction::Right,
        Direction::BottomRight,
        Direction::Down,
        Direction::BottomLeft,
        Direction::Left,
        Direction::TopLeft,
    ];
    for (i, d) in order.iter().enumerate() {
        assert_eq!(d.direction_to_int(), i as i32);
        assert_eq!(Direction::int_to_direction(i as i32), *d);
    }
}

#[test]
fn diagonal_directions() {
    assert!(Direction::TopLeft.is_diagonal());
    assert!(Direction::BottomRight.is_diagonal());
    assert!(!Direction::Up.is_diagonal());
    assert!(!Direction::Left.is_diagonal());
}

#[test]
fn sharp_and_right_angles() {
    assert!(Direction::Up.is_sharp_angle(Direction::BottomRight));
    assert!(Direction::Up.is_sharp_angle(Direction::BottomLeft));
    assert!(!Direction::Up.is_sharp_angle(Direction::Right));
    assert!(!Direction::Up.is_right_angle(Direction::Down));
    assert!(!Direction::Up.is_right_angle(Direction::Up));
    assert!(Direction::TopRight.is_right_angle(Direction::BottomRight));
}

#[test]
fn between_angles() {
    // Right is 2 steps clockwise from Up
    assert_eq!(Direction::between_right_angle(Direction::Right, Direction::Up), Direction::TopRight);
    assert_eq!(Direction::between_right_angle(Direction::Up, Direction::Right), Direction::TopRight);
    // BottomRight is 3 steps clockwise from Up
    assert_eq!(
        Direction::between_sharp_angle(Direction::BottomRight, Direction::Up),
        Direction::TopRight
    );
    assert_eq!(
        Direction::between_sharp_angle(Direction::Up, Direction::BottomRight),
        Direction::Right
    );
}

#[test]
fn left_and_right_turn_ranges() {
    assert!(Direction::Left.left_45_90_135(Direction::Up));
    assert!(Direction::TopLeft.left_45_90_135(Direction::Up));
    assert!(Direction::BottomLeft.left_45_90_135(Direction::Up));
    assert!(!Direction::Down.left_45_90_135(Direction::Up));
    assert!(Direction::Right.right_45_90_135(Direction::Up));
    assert!(!Direction::Left.right_45_90_135(Direction::Up));
    assert!(!Direction::Up.right_45_90_135(Direction::Up));
}

#[test]
fn unit_vectors() {
    let u = Direction::TopLeft.to_int_vec2();
    assert_eq!((u.x, u.y), (-1, 1));
    let d = Direction::Down.to_int_vec2();
    assert_eq!((d.x, d.y), (0, -1));
    assert_eq!(
        Direction::BottomRight.to_fixed_vec2(FixedPoint::from_bits(6)),
        FixedVec2::from_bits(6, -6)
    );
    assert_eq!(Direction::Left.to_fixed_vec2(FixedPoint::from_bits(4)), FixedVec2::from_bits(-4, 0));
}

#[test]
fn from_points_gives_each_direction() {
    let o = FixedVec2::from_bits(10, 10);
    let cases = [
        ((10, 15), Direction::Up),
        ((10, 5), Direction::Down),
        ((5, 10), Direction::Left),
        ((15, 10), Direction::Right),
        ((15, 15), Direction::TopRight),
        ((5, 15), Direction::TopLeft),
        ((15, 5), Direction::BottomRight),
        ((5, 5), Direction::BottomLeft),
    ];
    for ((x, y), d) in cases {
        assert_eq!(Direction::from_points(o, FixedVec2::from_bits(x, y)), Ok(Some(d)));
        assert!(Direction::is_two_points_valid_direction(o, FixedVec2::from_bits(x, y)));
    }
}

#[test]
fn from_points_of_equal_points_is_none() {
    let o = FixedVec2::from_bits(-7, 3);
    assert_eq!(Direction::from_points(o, o), Ok(None));
    assert!(!Direction::is_two_points_valid_direction(o, o));
}

#[test]
fn from_points_rejects_other_slopes() {
    let o = FixedVec2::from_bits(0, 0);
    assert_eq!(
        Direction::from_points(o, FixedVec2::from_bits(2, 1)),
        Err(DirectionError { dx: 2, dy: 1 })
    );
    assert!(!Direction::is_two_points_valid_direction(o, FixedVec2::from_bits(2, 1)));
}

#[test]
fn from_points_survives_the_full_coordinate_range() {
    let a = FixedVec2::from_bits(i32::MIN, 0);
    let b = FixedVec2::from_bits(i32::MAX, 0);
    assert_eq!(Direction::from_points(a, b), Ok(Some(Direction::Right)));
}

#[test]
fn node_direction_variants_compare() {
    assert_eq!(AStarNodeDirection::Planar(Direction::Up), AStarNodeDirection::Planar(Direction::Up));
    assert_ne!(AStarNodeDirection::Unset, AStarNodeDirection::Vertical { from_layer: 0 });
}
