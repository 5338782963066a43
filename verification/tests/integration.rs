use polygonum::graph::SegmentGraph;
use polygonum::pipeline::Pipeline;
use polygonum::point::{Point, Segment};
use polygonum::polygon::{filter, Measured, Polygon};
use polygonum::traversal::{traverse, Scores};

// The coordinates of the scenarios are real numbers: each is handed to the
// library as the integer that keeps the order of the reals.

fn key(value: f64) -> i64 {
    assert!(!value.is_nan());
    let bits = value.to_bits() as i64;
    if bits < 0 {
        bits ^ i64::MAX
    } else {
        bits
    }
}

fn decode(key: i64) -> f64 {
    let bits = if key < 0 { key ^ i64::MAX } else { key };
    f64::from_bits(bits as u64)
}

fn score(value: f64) -> i64 {
    if value == 0.0 {
        0
    } else {
        key(value)
    }
}

fn point(x: f64, y: f64, z: f64) -> Point {
    Point {
        x: key(x),
        y: key(y),
        z: key(z),
    }
}

fn segment(a: (f64, f64, f64), b: (f64, f64, f64)) -> Segment {
    (point(a.0, a.1, a.2), point(b.0, b.1, b.2))
}

fn vector(p: &Point) -> [f64; 3] {
    [decode(p.x), decode(p.y), decode(p.z)]
}

fn between(s: &Segment) -> [f64; 3] {
    let (a, b) = (vector(&s.0), vector(&s.1));
    [b[0] - a[0], b[1] - a[1], b[2] - a[2]]
}

fn cross(a: [f64; 3], b: [f64; 3]) -> [f64; 3] {
    [
        a[1] * b[2] - a[2] * b[1],
        a[2] * b[0] - a[0] * b[2],
        a[0] * b[1] - a[1] * b[0],
    ]
}

fn dot(a: [f64; 3], b: [f64; 3]) -> f64 {
    a[0] * b[0] + a[1] * b[1] + a[2] * b[2]
}

fn unit(s: &Segment) -> [f64; 3] {
    let v = between(s);
    let norm = dot(v, v).sqrt();
    if norm <= f64::EPSILON {
        [0.0, 0.0, 0.0]
    } else {
        [v[0] / norm, v[1] / norm, v[2] / norm]
    }
}

fn theta(a: &Segment, b: &Segment) -> f64 {
    let (u, v) = (unit(a), unit(b));
    std::f64::consts::PI + (v[1] * u[0] - v[0] * u[1]).atan2(u[0] * v[0] + u[1] * v[1])
}

fn coplanarity(a: Point, b: Point, c: Point, d: Point) -> f64 {
    dot(cross(between(&(a, b)), between(&(a, c))), between(&(a, d))).abs() / 6.0
}

fn normal(closed: &[Point]) -> [f64; 3] {
    let count = (closed.len() - 1) as f64;
    let mut center = [0.0, 0.0, 0.0];
    for p in &closed[1..] {
        let v = vector(p);
        center = [center[0] + v[0], center[1] + v[1], center[2] + v[2]];
    }
    center = [center[0] / count, center[1] / count, center[2] / count];
    let mut total = [0.0, 0.0, 0.0];
    for i in 0..closed.len() - 1 {
        let (a, b) = (vector(&closed[i]), vector(&closed[i + 1]));
        let c = cross(
            [a[0] - center[0], a[1] - center[1], a[2] - center[2]],
            [b[0] - center[0], b[1] - center[1], b[2] - center[2]],
        );
        total = [total[0] + c[0], total[1] + c[1], total[2] + c[2]];
    }
    total
}

fn walk(polygon: &Polygon) -> Vec<Point> {
    let mut iterator = polygon.iter();
    let mut path = Vec::new();
    while let Some(vertex) = iterator.next() {
        path.push(vertex);
    }
    path
}

fn inside(path: &[Point], point: &Point) -> bool {
    if path.contains(point) {
        return true;
    }
    let n = path.len() - 1;
    let p = vector(point);
    let mut inside = false;
    for i in 0..n {
        let a = vector(&path[i]);
        let b = vector(&path[(i + 1) % n]);
        if (a[1] > p[1]) != (b[1] > p[1])
            && p[0] < a[0] + ((p[1] - a[1]) * (b[0] - a[0]) / (b[1] - a[1]))
        {
            inside = !inside;
        }
    }
    inside
}

fn scores_of(graph: &SegmentGraph) -> Scores {
    let mut scores = Scores::new();
    for previous in graph.segments() {
        for current in graph.successors(&previous) {
            for next in graph.successors(&current) {
                scores.record(
                    previous,
                    current,
                    next,
                    score(theta(&current, &next)),
                    score(coplanarity(previous.0, current.0, current.1, next.1)),
                );
            }
        }
    }
    scores
}

fn faces(graph: SegmentGraph, minimum: f64) -> Vec<Polygon> {
    let scores = scores_of(&graph);
    let found: Vec<Polygon> = traverse(&graph, &scores)
        .iter()
        .map(|polygon| {
            let mut path = walk(polygon);
            path.pop();
            let mut closed = path.clone();
            closed.push(path[0]);
            Polygon::from(path, normal(&closed)[2] < 0.0)
        })
        .collect();
    let paths: Vec<Vec<Point>> = found.iter().map(walk).collect();
    let measured: Vec<Measured> = found
        .iter()
        .enumerate()
        .map(|(i, polygon)| {
            let n = normal(&paths[i]);
            Measured {
                polygon: polygon.duplicate(),
                area: score(dot(n, n).sqrt() / 2.0),
                area_projected: score(n[2].abs() / 2.0),
                covers: paths
                    .iter()
                    .enumerate()
                    .map(|(j, other)| {
                        polygon.contains_boundary_of(&found[j])
                            && other.iter().all(|vertex| inside(&paths[i], vertex))
                    })
                    .collect(),
            }
        })
        .collect();
    filter(&measured, score(minimum))
}

fn polygonalize(segments: &[Segment], parallelize: bool, minimum: f64) -> Vec<Polygon> {
    if parallelize {
        Pipeline::from(segments)
            .partition()
            .apply(|graph| faces(graph, minimum))
    } else {
        Pipeline::from(segments).apply(|graph| faces(graph, minimum))
    }
}

fn open_box() -> Vec<Segment> {
    vec![
        segment((0f64, 0f64, 0f64), (0f64, 10f64, 0f64)),
        segment((0f64, 10f64, 0f64), (10f64, 10f64, 5f64)),
        segment((10f64, 10f64, 5f64), (10f64, 0f64, 5f64)),
        segment((10f64, 0f64, 5f64), (0f64, 0f64, 0f64)),
        segment((10f64, 10f64, 5f64), (20f64, 10f64, 0f64)),
        segment((20f64, 10f64, 0f64), (20f64, 0f64, 0f64)),
    ]
}

fn closed_box() -> Vec<Segment> {
    let mut segments = open_box();
    segments.push(segment((20f64, 0f64, 0f64), (10f64, 0f64, 5f64)));
    segments
}

#[test]
fn one() {
    assert_eq!(
        1,
        polygonalize(&open_box(), true, 0.01).len(),
        "This structure exactly contains one plane because one is incomplete."
    );
}

#[test]
fn two() {
    assert_eq!(
        2,
        polygonalize(&closed_box(), true, 0.01).len(),
        "This structure exactly contains two polygons."
    );
}

#[test]
fn extract_one_polygon() {
    assert_eq!(
        1,
        polygonalize(&open_box(), true, 0.01).len(),
        "This structure exactly contains one plane because one is incomplete."
    );
}

#[test]
fn extract_two_polygons() {
    assert_eq!(
        2,
        polygonalize(&closed_box(), true, 0.01).len(),
        "This structure exactly contains two planes."
    );
}

#[test]
fn dangling_edge_is_pruned() {
    let mut segments = open_box();
    segments.push(segment((10f64, 10f64, 5f64), (100f64, 100f64, 100f64)));
    assert_eq!(1, polygonalize(&segments, true, 0.01).len());
    assert_eq!(1, polygonalize(&segments, false, 0.01).len());
}

#[test]
fn sequential_and_partitioned_agree() {
    for segments in [open_box(), closed_box()] {
        let mut sequential: Vec<Vec<Point>> = polygonalize(&segments, false, 0.01)
            .iter()
            .map(|polygon| {
                let mut path = walk(polygon);
                path.sort();
                path.dedup();
                path
            })
            .collect();
        let mut partitioned: Vec<Vec<Point>> = polygonalize(&segments, true, 0.01)
            .iter()
            .map(|polygon| {
                let mut path = walk(polygon);
                path.sort();
                path.dedup();
                path
            })
            .collect();
        sequential.sort();
        partitioned.sort();
        assert_eq!(sequential, partitioned);
    }
}

#[test]
fn the_open_box_yields_the_closed_quadrilateral() {
    let polygons = polygonalize(&open_box(), false, 0.01);
    assert_eq!(polygons.len(), 1);
    let path = walk(&polygons[0]);
    assert_eq!(path.len(), 5);
    assert_eq!(path.first(), path.last());
    let mut vertices = path[..4].to_vec();
    vertices.sort();
    let mut expected = vec![
        point(0.0, 0.0, 0.0),
        point(0.0, 10.0, 0.0),
        point(10.0, 10.0, 5.0),
        point(10.0, 0.0, 5.0),
    ];
    expected.sort();
    assert_eq!(vertices, expected);
    assert!(normal(&path)[2] >= 0.0);
}

#[test]
fn a_high_minimum_drops_every_face() {
    assert_eq!(0, polygonalize(&closed_box(), false, 1000.0).len());
    assert_eq!(2, polygonalize(&closed_box(), false, 100.0).len());
}

#[test]
fn segment_order_does_not_matter() {
    let mut segments = closed_box();
    segments.reverse();
    segments.rotate_left(3);
    assert_eq!(2, polygonalize(&segments, false, 0.01).len());
    assert_eq!(2, polygonalize(&segments, true, 0.01).len());
}

#[test]
fn no_segment_no_polygon() {
    assert!(polygonalize(&[], false, 0.01).is_empty());
    assert!(polygonalize(&[], true, 0.01).is_empty());
}
