use polygonum::point::Point;
use polygonum::polygon::{boundary, filter, selection, Measured, Polygon};

fn point(x: i64, y: i64, z: i64) -> Point {
    Point { x, y, z }
}

fn path_of(polygon: &Polygon) -> Vec<Point> {
    let mut iterator = polygon.iter();
    let mut path = Vec::new();
    while let Some(vertex) = iterator.next() {
        path.push(vertex);
    }
    path
}

fn square(x: i64, y: i64, side: i64) -> Polygon {
    Polygon::from(
        vec![
            point(x, y, 0),
            point(x + side, y, 0),
            point(x + side, y + side, 0),
            point(x, y + side, 0),
        ],
        false,
    )
}

fn measured(polygon: Polygon, area: i64, area_projected: i64, covers: Vec<bool>) -> Measured {
    Measured {
        polygon,
        area,
        area_projected,
        covers,
    }
}

#[test]
fn from_closes_the_path() {
    let polygon = Polygon::from(vec![point(0, 0, 0), point(4, 0, 1), point(0, 3, 2)], false);
    assert_eq!(
        path_of(&polygon),
        vec![point(0, 0, 0), point(4, 0, 1), point(0, 3, 2), point(0, 0, 0)]
    );
}

#[test]
fn from_walks_backwards_on_request() {
    let polygon = Polygon::from(vec![point(0, 0, 0), point(4, 0, 1), point(0, 3, 2)], true);
    assert_eq!(
        path_of(&polygon),
        vec![point(0, 0, 0), point(0, 3, 2), point(4, 0, 1), point(0, 0, 0)]
    );
}

#[test]
fn a_single_vertex_makes_a_closed_path_of_two() {
    let polygon = Polygon::from(vec![point(7, 8, 9)], false);
    assert_eq!(path_of(&polygon), vec![point(7, 8, 9), point(7, 8, 9)]);
}

#[test]
fn iterator_ends_after_the_closing_vertex() {
    let polygon = square(0, 0, 1);
    let mut iterator = polygon.iter();
    for _ in 0..5 {
        assert!(iterator.next().is_some());
    }
    assert_eq!(iterator.next(), None);
    assert_eq!(iterator.next(), None);
}

#[test]
fn boundary_is_the_box_in_the_plane() {
    let (low, high) = boundary(&vec![point(3, -2, 50), point(-1, 7, 60), point(2, 2, -70)]);
    assert_eq!(low, point(-1, -2, 0));
    assert_eq!(high, point(3, 7, 0));
}

#[test]
fn boundary_of_nothing_is_inside_out() {
    let (low, high) = boundary(&Vec::new());
    assert_eq!(low, point(i64::MAX, i64::MAX, 0));
    assert_eq!(high, point(i64::MIN, i64::MIN, 0));
}

#[test]
fn boundary_dominance() {
    let large = square(0, 0, 10);
    let small = square(2, 2, 3);
    let aside = square(8, 8, 5);
    assert!(large.contains_boundary_of(&small));
    assert!(!small.contains_boundary_of(&large));
    assert!(large.contains_boundary_of(&large));
    assert!(!large.contains_boundary_of(&aside));
}

#[test]
fn shared_sides_in_either_sense() {
    let left = square(0, 0, 1);
    let right = square(1, 0, 1);
    let far = square(5, 5, 1);
    // the side (1,0)-(1,1) is walked upwards by `left` and downwards by `right`
    assert!(left.shares_sides_with(&right));
    assert!(right.shares_sides_with(&left));
    assert!(left.shares_sides_with(&left));
    assert!(!left.shares_sides_with(&far));
    // a common vertex is no common side
    let corner = square(1, 1, 1);
    assert!(!left.shares_sides_with(&corner));
}

#[test]
fn equality_ignores_rotation_and_reversal() {
    let a = Polygon::from(
        vec![point(0, 0, 0), point(1, 0, 0), point(1, 1, 0), point(0, 1, 0)],
        false,
    );
    let rotated = Polygon::from(
        vec![point(1, 1, 0), point(0, 1, 0), point(0, 0, 0), point(1, 0, 0)],
        false,
    );
    let reversed = Polygon::from(
        vec![point(0, 1, 0), point(1, 1, 0), point(1, 0, 0), point(0, 0, 0)],
        true,
    );
    let other = Polygon::from(vec![point(0, 0, 0), point(1, 0, 0), point(1, 1, 0)], false);
    assert!(a == rotated);
    assert!(a == reversed);
    assert!(a != other);
    assert!(other != a);
}

#[test]
fn vertices_and_inclusion() {
    let triangle = Polygon::from(vec![point(0, 0, 0), point(1, 0, 0), point(1, 1, 0)], false);
    let quad = square(0, 0, 1);
    assert!(triangle.has_vertex(&point(1, 1, 0)));
    assert!(!triangle.has_vertex(&point(0, 1, 0)));
    assert!(triangle.within(&quad));
    assert!(!quad.within(&triangle));
}

#[test]
fn duplicate_keeps_path_and_box() {
    let polygon = square(3, 4, 5);
    let copy = polygon.duplicate();
    assert_eq!(path_of(&copy), path_of(&polygon));
    assert!(copy.contains_boundary_of(&polygon) && polygon.contains_boundary_of(&copy));
}

#[test]
fn filter_drops_small_projected_areas() {
    let polygons = vec![
        measured(square(0, 0, 1), 10, 5, vec![]),
        measured(square(10, 0, 1), 20, 4, vec![]),
        measured(square(20, 0, 1), 30, 6, vec![]),
    ];
    assert_eq!(selection(&polygons, 5), vec![0, 2]);
    assert_eq!(selection(&polygons, 7), Vec::<usize>::new());
    assert_eq!(selection(&polygons, i64::MIN), vec![0, 1, 2]);
}

#[test]
fn filter_sorts_by_area_and_keeps_the_first_among_equals() {
    let polygons = vec![
        measured(square(0, 0, 1), 30, 1, vec![]),
        measured(square(10, 0, 1), 10, 1, vec![]),
        measured(square(20, 0, 1), 30, 1, vec![]),
        measured(square(30, 0, 1), 20, 1, vec![]),
    ];
    assert_eq!(selection(&polygons, 0), vec![1, 3, 0, 2]);
}

#[test]
fn filter_drops_the_union_of_two_faces() {
    // two unit squares side by side and the rectangle around both
    let left = square(0, 0, 1);
    let right = square(1, 0, 1);
    let around = Polygon::from(
        vec![
            point(0, 0, 0),
            point(1, 0, 0),
            point(2, 0, 0),
            point(2, 1, 0),
            point(1, 1, 0),
            point(0, 1, 0),
        ],
        false,
    );
    let polygons = vec![
        measured(around, 2, 2, vec![true, true, true]),
        measured(left, 1, 1, vec![false, true, false]),
        measured(right, 1, 1, vec![false, false, true]),
    ];
    assert_eq!(selection(&polygons, 1), vec![1, 2]);
    let kept = filter(&polygons, 1);
    assert_eq!(kept.len(), 2);
    assert_eq!(path_of(&kept[0]), path_of(&polygons[1].polygon));
    assert_eq!(path_of(&kept[1]), path_of(&polygons[2].polygon));
}

#[test]
fn filter_keeps_a_container_that_shares_no_side() {
    let outer = square(0, 0, 10);
    let inner = square(2, 2, 3);
    let polygons = vec![
        measured(outer, 100, 100, vec![true, true]),
        measured(inner, 9, 9, vec![false, true]),
    ];
    assert_eq!(selection(&polygons, 0), vec![1, 0]);
}

#[test]
fn filter_needs_the_box_and_the_cover() {
    let left = square(0, 0, 1);
    let right = square(1, 0, 1);
    // `right` shares a side with `left` and is said to cover it, but its box
    // does not lie around it
    let polygons = vec![
        measured(left, 1, 1, vec![]),
        measured(right, 2, 2, vec![true, true]),
    ];
    assert_eq!(selection(&polygons, 0), vec![0, 1]);
    // a table that stops short counts as not covering
    let around = Polygon::from(
        vec![point(0, 0, 0), point(1, 0, 0), point(1, 2, 0), point(0, 2, 0)],
        false,
    );
    let polygons = vec![
        measured(square(0, 0, 1), 1, 1, vec![]),
        measured(around, 2, 2, vec![]),
    ];
    assert_eq!(selection(&polygons, 0), vec![0, 1]);
    let around = Polygon::from(
        vec![point(0, 0, 0), point(1, 0, 0), point(1, 2, 0), point(0, 2, 0)],
        false,
    );
    let polygons = vec![
        measured(square(0, 0, 1), 1, 1, vec![]),
        measured(around, 2, 2, vec![true]),
    ];
    assert_eq!(selection(&polygons, 0), vec![0]);
}

#[test]
fn filter_of_nothing() {
    assert!(filter(&Vec::new(), 0).is_empty());
}
