use pcb_router::fixed_point::FixedPoint;
use pcb_router::quad_tree::{Bounds, QuadTreeChildren, QuadTreeNode, MAX_DEPTH, MAX_OBJECTS};

/// A rectangle given by its low and high corner, in ticks.
type Rect = (i32, i32, i32, i32);

fn fx(bits: i32) -> FixedPoint {
    FixedPoint::from_bits(bits)
}

fn inside(r: &Rect, b: &Bounds) -> bool {
    b.x_min.to_bits() < r.0 && r.2 < b.x_max.to_bits() && b.y_min.to_bits() < r.1 && r.3 < b.y_max.to_bits()
}

fn touching(r: &Rect, b: &Bounds) -> bool {
    r.0 <= b.x_max.to_bits() && b.x_min.to_bits() <= r.2 && r.1 <= b.y_max.to_bits() && b.y_min.to_bits() <= r.3
}

fn overlapping(a: &Rect, b: &Rect) -> bool {
    a.0 <= b.2 && b.0 <= a.2 && a.1 <= b.3 && b.1 <= a.3
}

fn square() -> QuadTreeNode<Rect> {
    QuadTreeNode::new(fx(0), fx(1024), fx(0), fx(1024), 0)
}

#[test]
fn limits_of_the_tree() {
    assert_eq!(MAX_OBJECTS, 4);
    assert_eq!(MAX_DEPTH, 10);
}

#[test]
fn a_new_node_is_empty() {
    let node = square();
    assert_eq!(node.depth, 0);
    assert_eq!(node.bounds, Bounds { x_min: fx(0), x_max: fx(1024), y_min: fx(0), y_max: fx(1024) });
    assert!(node.objects.is_empty());
    assert!(node.children.is_none());
    assert!(!node.collides_with(&(10, 10, 20, 20), &touching, &overlapping));
}

#[test]
fn quarters_halve_the_region() {
    let q: QuadTreeChildren<Rect> = QuadTreeChildren::new(
        Bounds { x_min: fx(0), x_max: fx(1024), y_min: fx(-100), y_max: fx(101) },
        3,
    );
    assert_eq!(q.top_left.bounds, Bounds { x_min: fx(0), x_max: fx(512), y_min: fx(-100), y_max: fx(0) });
    assert_eq!(q.top_right.bounds, Bounds { x_min: fx(512), x_max: fx(1024), y_min: fx(-100), y_max: fx(0) });
    assert_eq!(q.bottom_left.bounds, Bounds { x_min: fx(0), x_max: fx(512), y_min: fx(0), y_max: fx(101) });
    assert_eq!(q.bottom_right.bounds, Bounds { x_min: fx(512), x_max: fx(1024), y_min: fx(0), y_max: fx(101) });
    assert_eq!(q.top_left.depth, 4);
    assert_eq!(q.bottom_right.depth, 4);
}

#[test]
fn an_item_outside_the_region_is_refused() {
    let mut node = square();
    assert!(!node.insert((1000, 1000, 1100, 1100), &inside));
    assert!(!node.insert((-5, 10, 5, 20), &inside));
    assert!(node.objects.is_empty());
}

#[test]
fn a_stored_item_is_found_by_itself() {
    let mut node = square();
    let items: Vec<Rect> = vec![
        (10, 10, 20, 20),
        (600, 10, 620, 20),
        (10, 600, 20, 620),
        (600, 600, 620, 620),
        (500, 500, 520, 520),
        (100, 100, 110, 110),
        (130, 130, 140, 140),
        (160, 160, 170, 170),
        (190, 190, 200, 200),
        (220, 220, 230, 230),
    ];
    for item in &items {
        assert!(node.insert(*item, &inside));
        for seen in &items {
            if seen == item {
                break;
            }
            assert!(node.collides_with(seen, &touching, &overlapping));
        }
        assert!(node.collides_with(item, &touching, &overlapping));
    }
    assert!(!node.collides_with(&(300, 700, 310, 710), &touching, &overlapping));
}

#[test]
fn a_full_node_is_divided_and_its_items_move_down() {
    let mut node = square();
    assert!(node.insert((10, 10, 20, 20), &inside));
    assert!(node.insert((600, 10, 620, 20), &inside));
    assert!(node.insert((10, 600, 20, 620), &inside));
    assert!(node.insert((500, 500, 520, 520), &inside));
    assert_eq!(node.objects.len(), 4);
    assert!(node.children.is_none());
    assert!(node.insert((600, 600, 620, 620), &inside));
    // the item across the middle stays; the others went to their quarters
    assert_eq!(node.objects, vec![(500, 500, 520, 520)]);
    let q = node.children.as_ref().unwrap();
    assert_eq!(q.top_left.objects, vec![(10, 10, 20, 20)]);
    assert_eq!(q.top_right.objects, vec![(600, 10, 620, 20)]);
    assert_eq!(q.bottom_left.objects, vec![(10, 600, 20, 620)]);
    assert_eq!(q.bottom_right.objects, vec![(600, 600, 620, 620)]);
    assert_eq!(q.top_left.depth, 1);
}

#[test]
fn a_node_at_the_depth_limit_is_not_divided() {
    let mut node: QuadTreeNode<Rect> = QuadTreeNode::new(fx(0), fx(1024), fx(0), fx(1024), MAX_DEPTH);
    for k in 0..6 {
        assert!(node.insert((10 + k, 10, 20 + k, 20), &inside));
    }
    assert_eq!(node.objects.len(), 6);
    assert!(node.children.is_none());
}

#[test]
fn extend_stores_what_lies_inside() {
    let mut node = square();
    node.extend(&vec![(10, 10, 20, 20), (2000, 10, 2010, 20), (30, 30, 40, 40)], &inside);
    assert_eq!(node.objects, vec![(10, 10, 20, 20), (30, 30, 40, 40)]);
    assert!(node.collides_with_set(&vec![(900, 900, 910, 910), (35, 35, 36, 36)], &touching, &overlapping));
    assert!(!node.collides_with_set(&vec![(900, 900, 910, 910)], &touching, &overlapping));
    assert!(!node.collides_with_set(&vec![], &touching, &overlapping));
}

#[test]
fn a_query_that_does_not_touch_a_region_does_not_look_into_it() {
    let mut node = square();
    node.insert((10, 10, 20, 20), &inside);
    // an oracle that denies every touch hides every item
    let blind = |_r: &Rect, _b: &Bounds| false;
    assert!(!node.collides_with(&(10, 10, 20, 20), &blind, &overlapping));
    assert!(node.collides_with(&(15, 15, 16, 16), &touching, &overlapping));
}
