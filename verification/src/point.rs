use std::cmp::Ordering;
use vstd::prelude::*;
use vstd::std_specs::cmp::PartialOrdSpecImpl;

verus! {

/// Three dimensional point.
///
/// Each coordinate is a signed integer that stands for a real coordinate and
/// preserves its order.  Two points are the same point exactly when their
/// three coordinates are the same integers.
#[derive(Clone, Copy, Debug, PartialEq, Eq, Ord, Hash, Structural)]
pub struct Point {
    pub x: i64,
    pub y: i64,
    pub z: i64,
}

/// Oriented segment connecting two [Point]s: `.0` is its tail, `.1` its head.
pub type Segment = (Point, Point);

/// The segment walked in the opposite sense.
pub open spec fn reversed(segment: Segment) -> Segment {
    (segment.1, segment.0)
}

impl Point {
    /// Strict lexicographic order on `(x, y, z)`.
    pub open spec fn precedes_spec(self, other: Point) -> bool {
        self.x < other.x || (self.x == other.x && (self.y < other.y || (self.y == other.y && self.z
            < other.z)))
    }

    /// Tells whether `self` comes strictly before `other` in the coordinate
    /// wise order.
    pub fn precedes(&self, other: &Point) -> (r: bool)
        ensures
            r == self.precedes_spec(*other),
    {
        *self < *other
    }
}

impl PartialOrd for Point {
    /// Coordinates wise ordering
    fn partial_cmp(&self, other: &Self) -> (r: Option<Ordering>) {
        if self.x < other.x {
            Some(Ordering::Less)
        } else if self.x > other.x {
            Some(Ordering::Greater)
        } else if self.y < other.y {
            Some(Ordering::Less)
        } else if self.y > other.y {
            Some(Ordering::Greater)
        } else if self.z < other.z {
            Some(Ordering::Less)
        } else if self.z > other.z {
            Some(Ordering::Greater)
        } else {
            Some(Ordering::Equal)
        }
    }
}

impl PartialOrdSpecImpl for Point {
    open spec fn obeys_partial_cmp_spec() -> bool {
        true
    }

    open spec fn partial_cmp_spec(&self, other: &Self) -> Option<Ordering> {
        if self.precedes_spec(*other) {
            Some(Ordering::Less)
        } else if other.precedes_spec(*self) {
            Some(Ordering::Greater)
        } else {
            Some(Ordering::Equal)
        }
    }
}

} // verus!
