use polygonum::graph::{PointGraph, SegmentGraph};
use polygonum::point::{Point, Segment};
use polygonum::polygon::Polygon;
use polygonum::traversal::{
    prefers, traverse, GreedyElectionStrategy, Policy, Scores, Status, Traversal,
};

fn point(x: i64, y: i64, z: i64) -> Point {
    Point { x, y, z }
}

fn segment(a: (i64, i64, i64), b: (i64, i64, i64)) -> Segment {
    (point(a.0, a.1, a.2), point(b.0, b.1, b.2))
}

const A: (i64, i64, i64) = (0, 0, 0);
const B: (i64, i64, i64) = (1, 0, 0);
const C: (i64, i64, i64) = (1, 1, 0);
const D: (i64, i64, i64) = (0, 1, 0);

fn path_of(polygon: &Polygon) -> Vec<Point> {
    let mut iterator = polygon.iter();
    let mut path = Vec::new();
    while let Some(vertex) = iterator.next() {
        path.push(vertex);
    }
    path
}

fn vertices_of(polygon: &Polygon) -> Vec<Point> {
    let mut path = path_of(polygon);
    path.sort();
    path.dedup();
    path
}

/// A square with one diagonal.
fn crossed_square() -> SegmentGraph {
    let graph = PointGraph::from(&[
        segment(A, B),
        segment(B, C),
        segment(C, D),
        segment(D, A),
        segment(A, C),
    ]);
    SegmentGraph::from(&graph.fullgraph())
}

fn triangle() -> SegmentGraph {
    let graph = PointGraph::from(&[segment(A, B), segment(B, C), segment(C, A)]);
    SegmentGraph::from(&graph.fullgraph())
}

fn all_turns(graph: &SegmentGraph, scored: fn(Segment, Segment, Segment) -> (i64, i64)) -> Scores {
    let mut scores = Scores::new();
    for previous in graph.segments() {
        for current in graph.successors(&previous) {
            for next in graph.successors(&current) {
                let (theta, coplanarity) = scored(previous, current, next);
                scores.record(previous, current, next, theta, coplanarity);
            }
        }
    }
    scores
}

#[test]
fn scores_are_recorded_and_replaced() {
    let mut scores = Scores::new();
    let (p, c, n) = (segment(A, B), segment(B, C), segment(C, D));
    assert_eq!(scores.score(p, c, n), None);
    scores.record(p, c, n, 3, 4);
    assert_eq!(scores.score(p, c, n), Some((3, 4)));
    assert_eq!(scores.score(c, p, n), None);
    scores.record(p, c, n, 5, 6);
    assert_eq!(scores.score(p, c, n), Some((5, 6)));
}

#[test]
fn preference_is_lexicographic_under_each_policy() {
    let (s, t) = (segment(A, B), segment(A, C));
    assert!(prefers(Policy::Theta, &s, (1, 9), &t, (2, 0)));
    assert!(!prefers(Policy::Coplanarity, &s, (1, 9), &t, (2, 0)));
    assert!(prefers(Policy::Coplanarity, &t, (2, 0), &s, (1, 9)));
    assert!(prefers(Policy::Theta, &s, (1, 1), &t, (1, 2)));
    assert!(prefers(Policy::Coplanarity, &s, (1, 2), &t, (2, 2)));
}

#[test]
fn equal_scores_go_to_the_first_segment() {
    // B = (1,0,0) comes before C = (1,1,0)
    let (s, t) = (segment(A, B), segment(A, C));
    assert!(prefers(Policy::Theta, &s, (1, 1), &t, (1, 1)));
    assert!(!prefers(Policy::Theta, &t, (1, 1), &s, (1, 1)));
    assert!(!prefers(Policy::Theta, &s, (1, 1), &s, (1, 1)));
    // the tail decides before the head
    let (u, v) = (segment(A, D), segment(B, A));
    assert!(prefers(Policy::Coplanarity, &u, (0, 0), &v, (0, 0)));
}

#[test]
fn election_takes_the_lowest_score() {
    let graph = crossed_square();
    let mut scores = Scores::new();
    // arriving at C from B, the walk may go on to D or back along the diagonal to A
    let (previous, current) = (segment(A, B), segment(B, C));
    scores.record(previous, current, segment(C, D), 5, 1);
    scores.record(previous, current, segment(C, A), 2, 7);
    let by_angle = GreedyElectionStrategy::from(&graph, &scores, Policy::Theta);
    let by_plane = GreedyElectionStrategy::from(&graph, &scores, Policy::Coplanarity);
    assert_eq!(by_angle.elect(previous, current), Some(segment(C, A)));
    assert_eq!(by_plane.elect(previous, current), Some(segment(C, D)));
}

#[test]
fn election_passes_over_what_has_no_score() {
    let graph = crossed_square();
    let mut scores = Scores::new();
    let (previous, current) = (segment(A, B), segment(B, C));
    let strategy = GreedyElectionStrategy::from(&graph, &scores, Policy::Theta);
    assert_eq!(strategy.elect(previous, current), None);
    scores.record(previous, current, segment(C, D), 100, 100);
    // a score for a segment that does not follow is of no use
    scores.record(previous, current, segment(C, B), 0, 0);
    scores.record(previous, current, segment(A, B), 0, 0);
    let strategy = GreedyElectionStrategy::from(&graph, &scores, Policy::Theta);
    assert_eq!(strategy.elect(previous, current), Some(segment(C, D)));
}

#[test]
fn election_on_a_segment_without_successor() {
    let graph = crossed_square();
    let scores = Scores::new();
    let strategy = GreedyElectionStrategy::from(&graph, &scores, Policy::Theta);
    assert_eq!(strategy.elect(segment(A, B), segment(B, (9, 9, 9))), None);
}

#[test]
fn election_breaks_ties_by_the_order_of_segments() {
    let graph = crossed_square();
    let mut scores = Scores::new();
    let (previous, current) = (segment(A, B), segment(B, C));
    scores.record(previous, current, segment(C, D), 1, 1);
    scores.record(previous, current, segment(C, A), 1, 1);
    let strategy = GreedyElectionStrategy::from(&graph, &scores, Policy::Theta);
    // A = (0,0,0) comes before D = (0,1,0)
    assert_eq!(strategy.elect(previous, current), Some(segment(C, A)));
}

#[test]
fn a_triangle_is_found_once() {
    let graph = triangle();
    let scores = all_turns(&graph, |_, _, _| (0, 0));
    let polygons = traverse(&graph, &scores);
    assert_eq!(polygons.len(), 1);
    let path = path_of(&polygons[0]);
    assert_eq!(path.len(), 4);
    assert_eq!(path.first(), path.last());
    assert_eq!(
        vertices_of(&polygons[0]),
        vec![point(0, 0, 0), point(1, 0, 0), point(1, 1, 0)]
    );
}

#[test]
fn without_scores_nothing_is_found() {
    let graph = triangle();
    assert!(traverse(&graph, &Scores::new()).is_empty());
}

#[test]
fn an_empty_graph_yields_nothing() {
    let graph = SegmentGraph::from(&PointGraph::from(&[]).fullgraph());
    assert!(traverse(&graph, &Scores::new()).is_empty());
}

#[test]
fn the_two_policies_find_different_faces() {
    let graph = crossed_square();
    // by the first score the walk always prefers the diagonal, by the second
    // it always avoids it
    let scores = all_turns(&graph, |_, _, next| {
        let diagonal = next == segment(A, C) || next == segment(C, A);
        if diagonal {
            (0, 1)
        } else {
            (1, 0)
        }
    });
    let polygons = traverse(&graph, &scores);
    let mut found: Vec<Vec<Point>> = polygons.iter().map(vertices_of).collect();
    found.sort();
    assert_eq!(
        found,
        vec![
            vec![point(0, 0, 0), point(0, 1, 0), point(1, 0, 0), point(1, 1, 0)],
            vec![point(0, 0, 0), point(0, 1, 0), point(1, 1, 0)],
            vec![point(0, 0, 0), point(1, 0, 0), point(1, 1, 0)],
        ]
    );
    for polygon in &polygons {
        let path = path_of(polygon);
        assert!(path.len() >= 4);
        assert_eq!(path.first(), path.last());
    }
}

#[test]
fn a_walk_from_an_empty_stack_explores() {
    let graph = triangle();
    let scores = all_turns(&graph, |_, _, _| (0, 0));
    let strategy = GreedyElectionStrategy::from(&graph, &scores, Policy::Theta);
    let mut traversal = Traversal::from(&graph);
    assert_eq!(
        traversal.traverse(&segment(B, C), &segment(A, B), &strategy),
        Status::Exploring
    );
}

#[test]
fn run_without_strategy_finds_nothing() {
    let graph = triangle();
    assert!(Traversal::from(&graph).run(&vec![]).is_empty());
}
