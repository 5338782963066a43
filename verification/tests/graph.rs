use polygonum::graph::{PointGraph, SegmentGraph};
use polygonum::pipeline::Pipeline;
use polygonum::point::{Point, Segment};

fn point(x: i64, y: i64, z: i64) -> Point {
    Point { x, y, z }
}

fn segment(a: (i64, i64, i64), b: (i64, i64, i64)) -> Segment {
    (point(a.0, a.1, a.2), point(b.0, b.1, b.2))
}

fn sorted(mut points: Vec<Point>) -> Vec<Point> {
    points.sort();
    points
}

#[test]
fn graph_absorbs_duplicates_and_reversals() {
    let graph = PointGraph::from(&[
        segment((0, 0, 0), (1, 0, 0)),
        segment((1, 0, 0), (0, 0, 0)),
        segment((0, 0, 0), (1, 0, 0)),
    ]);
    assert_eq!(sorted(graph.points()), vec![point(0, 0, 0), point(1, 0, 0)]);
    assert_eq!(graph.neighbors(&point(0, 0, 0)), Some(vec![point(1, 0, 0)]));
    assert_eq!(graph.neighbors(&point(1, 0, 0)), Some(vec![point(0, 0, 0)]));
    assert_eq!(graph.neighbors(&point(2, 0, 0)), None);
}

#[test]
fn prune_cuts_a_chain_back_to_the_triangle() {
    // a triangle with a tail of two edges
    let graph = PointGraph::from(&[
        segment((0, 0, 0), (1, 0, 0)),
        segment((1, 0, 0), (0, 1, 0)),
        segment((0, 1, 0), (0, 0, 0)),
        segment((0, 0, 0), (5, 5, 5)),
        segment((5, 5, 5), (9, 9, 9)),
    ])
    .prune();
    assert_eq!(
        sorted(graph.points()),
        vec![point(0, 0, 0), point(0, 1, 0), point(1, 0, 0)]
    );
    assert_eq!(
        sorted(graph.neighbors(&point(0, 0, 0)).unwrap()),
        vec![point(0, 1, 0), point(1, 0, 0)]
    );
}

#[test]
fn prune_twice_is_prune_once() {
    let segments = [
        segment((0, 0, 0), (1, 0, 0)),
        segment((1, 0, 0), (0, 1, 0)),
        segment((0, 1, 0), (0, 0, 0)),
        segment((0, 0, 0), (5, 5, 5)),
    ];
    let once = PointGraph::from(&segments).prune();
    let points = sorted(once.points());
    let twice = once.prune();
    assert_eq!(sorted(twice.points()), points);
    for point in points {
        assert!(twice.neighbors(&point).unwrap().len() >= 2);
    }
}

#[test]
fn prune_removes_an_open_path_entirely() {
    let graph = PointGraph::from(&[
        segment((0, 0, 0), (1, 0, 0)),
        segment((1, 0, 0), (2, 0, 0)),
    ])
    .prune();
    assert!(graph.points().is_empty());
}

#[test]
fn segment_graph_links_arrivals_to_departures() {
    let graph = PointGraph::from(&[
        segment((0, 0, 0), (1, 0, 0)),
        segment((1, 0, 0), (0, 1, 0)),
        segment((0, 1, 0), (0, 0, 0)),
    ]);
    let segments = SegmentGraph::from(&graph.fullgraph());
    assert_eq!(segments.segments().len(), 6);
    assert_eq!(
        segments.successors(&segment((0, 0, 0), (1, 0, 0))),
        vec![segment((1, 0, 0), (0, 1, 0))]
    );
    assert!(segments
        .successors(&segment((0, 0, 0), (7, 7, 7)))
        .is_empty());
}

#[test]
fn components_split_two_triangles() {
    let pipeline = Pipeline::from(&[
        segment((0, 0, 0), (1, 0, 0)),
        segment((1, 0, 0), (0, 1, 0)),
        segment((0, 1, 0), (0, 0, 0)),
        segment((10, 0, 0), (11, 0, 0)),
        segment((11, 0, 0), (10, 1, 0)),
        segment((10, 1, 0), (10, 0, 0)),
        segment((10, 0, 0), (20, 20, 20)),
    ])
    .partition();
    let parts = pipeline.components();
    assert_eq!(parts.len(), 2);
    let mut found: Vec<Vec<Point>> = parts.iter().map(|part| sorted(part.members())).collect();
    found.sort();
    assert_eq!(
        found,
        vec![
            vec![point(0, 0, 0), point(0, 1, 0), point(1, 0, 0)],
            vec![point(10, 0, 0), point(10, 1, 0), point(11, 0, 0)],
        ]
    );
}

#[test]
fn components_of_nothing() {
    assert!(Pipeline::from(&[]).partition().components().is_empty());
}

#[test]
fn subgraph_keeps_the_segments_of_its_points() {
    let pipeline = Pipeline::from(&[
        segment((0, 0, 0), (1, 0, 0)),
        segment((1, 0, 0), (0, 1, 0)),
        segment((0, 1, 0), (0, 0, 0)),
        segment((10, 0, 0), (11, 0, 0)),
        segment((11, 0, 0), (10, 1, 0)),
        segment((10, 1, 0), (10, 0, 0)),
    ])
    .partition();
    let whole = SegmentGraph::from(&pipeline.graph().fullgraph());
    assert_eq!(whole.segments().len(), 12);
    for part in pipeline.components() {
        let members = part.members();
        let slice = SegmentGraph::from(&pipeline.graph().subgraph(part));
        let segments = slice.segments();
        assert_eq!(segments.len(), 6);
        for s in segments {
            assert!(members.contains(&s.0) && members.contains(&s.1));
            assert_eq!(slice.successors(&s), whole.successors(&s));
        }
    }
}

#[test]
fn a_zero_length_segment_is_tolerated() {
    let graph = PointGraph::from(&[segment((0, 0, 0), (0, 0, 0))]);
    assert_eq!(graph.neighbors(&point(0, 0, 0)), Some(vec![point(0, 0, 0)]));
    assert!(graph.prune().points().is_empty());
}

#[test]
fn points_are_ordered_by_their_coordinates() {
    assert!(point(0, 9, 9) < point(1, 0, 0));
    assert!(point(1, 0, 9) < point(1, 1, 0));
    assert!(point(1, 1, 0) < point(1, 1, 1));
    assert!(!(point(1, 1, 1) < point(1, 1, 1)));
    assert!(point(-1, 0, 0) < point(0, 0, 0));
    assert!(point(0, 9, 9).precedes(&point(1, 0, 0)));
    assert!(!point(1, 0, 0).precedes(&point(0, 9, 9)));
    assert_eq!(
        point(1, 2, 3).partial_cmp(&point(1, 2, 3)),
        Some(std::cmp::Ordering::Equal)
    );
    assert_eq!(
        point(1, 2, 4).partial_cmp(&point(1, 2, 3)),
        Some(std::cmp::Ordering::Greater)
    );
    assert_eq!(point(1, 2, 3).cmp(&point(1, 3, 0)), std::cmp::Ordering::Less);
}
