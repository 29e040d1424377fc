use pcb_router::direction::Direction;
use pcb_router::fixed_point::FixedPoint;
use pcb_router::trace_path::{PathLength, TraceAnchor, TraceAnchors, TracePath, TraceSegment, Via};
use pcb_router::vec2::FixedVec2;

fn pt(x: i32, y: i32) -> FixedVec2 {
    FixedVec2::from_bits(x, y)
}

fn fx(bits: i32) -> FixedPoint {
    FixedPoint::from_bits(bits)
}

#[test]
fn from_anchors_keeps_the_anchors() {
    let anchors = vec![
        TraceAnchor { position: pt(0, 0), start_layer: 0, end_layer: 0 },
        TraceAnchor { position: pt(10, 0), start_layer: 0, end_layer: 1 },
        TraceAnchor { position: pt(20, 10), start_layer: 1, end_layer: 1 },
    ];
    let path = TracePath::from_anchors(TraceAnchors(anchors.clone()), fx(4), fx(2), fx(8));
    assert_eq!(path.anchors.0, anchors);
}

#[test]
fn from_anchors_derives_segments_vias_and_length() {
    let anchors = vec![
        TraceAnchor { position: pt(0, 0), start_layer: 0, end_layer: 0 },
        TraceAnchor { position: pt(10, 0), start_layer: 0, end_layer: 1 },
        TraceAnchor { position: pt(20, 10), start_layer: 1, end_layer: 1 },
    ];
    let path = TracePath::from_anchors(TraceAnchors(anchors), fx(4), fx(2), fx(8));
    assert_eq!(
        path.segments,
        vec![
            TraceSegment { start: pt(0, 0), end: pt(10, 0), width: fx(4), clearance: fx(2), layer: 0 },
            TraceSegment {
                start: pt(10, 0),
                end: pt(20, 10),
                width: fx(4),
                clearance: fx(2),
                layer: 1
            },
        ]
    );
    assert_eq!(
        path.vias,
        vec![Via {
            position: pt(10, 0),
            diameter: fx(8),
            clearance: fx(2),
            min_layer: 0,
            max_layer: 1
        }]
    );
    assert_eq!(path.total_length, PathLength { straight: 10, diagonal: 10 });
}

#[test]
fn a_via_spans_its_layers_in_ascending_order() {
    let anchors = vec![
        TraceAnchor { position: pt(0, 0), start_layer: 3, end_layer: 3 },
        TraceAnchor { position: pt(10, 0), start_layer: 3, end_layer: 1 },
        TraceAnchor { position: pt(20, 0), start_layer: 1, end_layer: 1 },
    ];
    let path = TracePath::from_anchors(TraceAnchors(anchors), fx(4), fx(2), fx(8));
    assert_eq!(path.vias.len(), 1);
    assert_eq!((path.vias[0].min_layer, path.vias[0].max_layer), (1, 3));
    assert_eq!(path.segments[0].layer, 3);
    assert_eq!(path.segments[1].layer, 1);
}

#[test]
fn a_single_anchor_has_no_segment() {
    let anchors = vec![TraceAnchor { position: pt(6, 6), start_layer: 0, end_layer: 0 }];
    let path = TracePath::from_anchors(TraceAnchors(anchors), fx(4), fx(2), fx(8));
    assert!(path.segments.is_empty());
    assert!(path.vias.is_empty());
    assert_eq!(path.total_length, PathLength { straight: 0, diagonal: 0 });
}

#[test]
fn a_first_anchor_that_changes_layer_has_a_via() {
    let anchors = vec![
        TraceAnchor { position: pt(0, 0), start_layer: 0, end_layer: 1 },
        TraceAnchor { position: pt(0, 10), start_layer: 1, end_layer: 1 },
    ];
    let path = TracePath::from_anchors(TraceAnchors(anchors), fx(4), fx(2), fx(8));
    assert_eq!(path.vias.len(), 1);
    assert_eq!(path.vias[0].position, pt(0, 0));
}

#[test]
fn length_of_a_step_off_the_eight_directions_is_octile() {
    let anchors = vec![
        TraceAnchor { position: pt(0, 0), start_layer: 0, end_layer: 0 },
        TraceAnchor { position: pt(-7, 3), start_layer: 0, end_layer: 0 },
    ];
    let path = TracePath::from_anchors(TraceAnchors(anchors), fx(4), fx(2), fx(8));
    assert_eq!(path.total_length, PathLength { straight: 4, diagonal: 3 });
}

#[test]
fn segment_direction() {
    let s = TraceSegment { start: pt(0, 0), end: pt(-5, 5), width: fx(4), clearance: fx(2), layer: 0 };
    assert_eq!(s.get_direction(), Direction::TopLeft);
}
