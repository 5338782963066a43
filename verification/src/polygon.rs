use crate::point::Point;
use vstd::prelude::*;
use vstd::std_specs::cmp::{PartialEqSpec, PartialEqSpecImpl};

verus! {

/// A polygon is represented by a closed path of vertices.
#[derive(Debug)]
pub struct Polygon {
    /// Ordered sequence of vertices where the last repeats the first.
    sequence: Vec<Point>,
    /// Least corner of the precomputed bounding box around the polygon.
    lower: Point,
    /// Greatest corner of the precomputed bounding box around the polygon.
    upper: Point,
}

/// `bounds` is the box around `vertices` in the xy plane: its corners hold
/// the least and the greatest `x` and `y` among them, or the extreme values
/// the other way round where there is no vertex; `z` is left at zero.
pub open spec fn is_boundary(vertices: Seq<Point>, bounds: (Point, Point)) -> bool {
    &&& bounds.0.z == 0 && bounds.1.z == 0
    &&& forall|i: int|
        0 <= i < vertices.len() ==> bounds.0.x <= (#[trigger] vertices[i]).x <= bounds.1.x
            && bounds.0.y <= vertices[i].y <= bounds.1.y
    &&& if vertices.len() == 0 {
        bounds.0.x == i64::MAX && bounds.0.y == i64::MAX && bounds.1.x == i64::MIN && bounds.1.y
            == i64::MIN
    } else {
        &&& exists|i: int| 0 <= i < vertices.len() && (#[trigger] vertices[i]).x == bounds.0.x
        &&& exists|i: int| 0 <= i < vertices.len() && (#[trigger] vertices[i]).x == bounds.1.x
        &&& exists|i: int| 0 <= i < vertices.len() && (#[trigger] vertices[i]).y == bounds.0.y
        &&& exists|i: int| 0 <= i < vertices.len() && (#[trigger] vertices[i]).y == bounds.1.y
    }
}

/// The path that starts with `vertices` and returns to the first of them.
pub open spec fn closing(vertices: Seq<Point>) -> Seq<Point>
    recommends
        vertices.len() >= 1,
{
    vertices.push(vertices[0])
}

/// The side of `first` at `i` is the side of `second` at `j`, in one sense
/// or the other.
pub open spec fn same_side(first: Seq<Point>, i: int, second: Seq<Point>, j: int) -> bool {
    &&& 0 <= i < first.len() - 1
    &&& 0 <= j < second.len() - 1
    &&& (first[i] == second[j] && first[i + 1] == second[j + 1]) || (first[i] == second[j + 1]
        && first[i + 1] == second[j])
}

/// Closing a path adds no vertex to it.
pub proof fn lemma_closing_vertices(cycle: Seq<Point>)
    requires
        cycle.len() >= 1,
    ensures
        closing(cycle).to_set() == cycle.to_set(),
{
    let closed = closing(cycle);
    assert forall|p: Point| closed.to_set().contains(p) <==> cycle.to_set().contains(p) by {
        if closed.to_set().contains(p) {
            let i = choose|i: int| 0 <= i < closed.len() && closed[i] == p;
            if i < cycle.len() {
                assert(cycle[i] == p);
            } else {
                assert(cycle[0] == p);
            }
        }
        if cycle.to_set().contains(p) {
            let i = choose|i: int| 0 <= i < cycle.len() && cycle[i] == p;
            assert(closed[i] == p);
        }
    }
    assert(closed.to_set() =~= cycle.to_set());
}

/// The path walked from its vertex at `shift` on, round to where it began.
pub open spec fn turned(vertices: Seq<Point>, shift: int) -> Seq<Point>
    recommends
        0 <= shift <= vertices.len(),
{
    vertices.subrange(shift, vertices.len() as int) + vertices.subrange(0, shift)
}

/// The closed path of a polygon made of `vertices`, walked backwards where
/// `reverse` says so.
pub open spec fn made_of(vertices: Seq<Point>, reverse: bool) -> Seq<Point> {
    if reverse {
        closing(vertices).reverse()
    } else {
        closing(vertices)
    }
}

/// Polygon equality ignores cyclic rotation and reversal: two polygons made
/// of one path of vertices are equal, wherever each starts on the path and
/// in whichever sense each walks it.
pub proof fn lemma_equal_whatever_start_and_sense(
    first: Polygon,
    second: Polygon,
    vertices: Seq<Point>,
    shift: int,
    reverse_first: bool,
    reverse_second: bool,
)
    requires
        vertices.len() >= 1,
        0 <= shift <= vertices.len(),
        first@ == made_of(vertices, reverse_first),
        second@ == made_of(turned(vertices, shift), reverse_second),
    ensures
        first.vertices() == second.vertices(),
        PartialEqSpec::eq_spec(&first, &second),
{
    let other = turned(vertices, shift);
    lemma_closing_vertices(vertices);
    lemma_closing_vertices(other);
    assert forall|p: Point| other.to_set().contains(p) <==> vertices.to_set().contains(p) by {
        if other.to_set().contains(p) {
            let i = choose|i: int| 0 <= i < other.len() && other[i] == p;
            if i < vertices.len() - shift {
                assert(vertices[shift + i] == p);
            } else {
                assert(vertices[i - (vertices.len() - shift)] == p);
            }
        }
        if vertices.to_set().contains(p) {
            let i = choose|i: int| 0 <= i < vertices.len() && vertices[i] == p;
            if i >= shift {
                assert(other[i - shift] == p);
            } else {
                assert(other[vertices.len() - shift + i] == p);
            }
        }
    }
    assert(other.to_set() =~= vertices.to_set());
    lemma_reverse_vertices(closing(vertices));
    lemma_reverse_vertices(closing(other));
}

/// Walking a path backwards visits the same vertices.
pub proof fn lemma_reverse_vertices(path: Seq<Point>)
    ensures
        path.reverse().to_set() == path.to_set(),
{
    let back = path.reverse();
    assert forall|p: Point| back.to_set().contains(p) <==> path.to_set().contains(p) by {
        if back.to_set().contains(p) {
            let i = choose|i: int| 0 <= i < back.len() && back[i] == p;
            assert(path[path.len() - 1 - i] == p);
        }
        if path.to_set().contains(p) {
            let i = choose|i: int| 0 <= i < path.len() && path[i] == p;
            assert(back[path.len() - 1 - i] == p);
        }
    }
    assert(back.to_set() =~= path.to_set());
}

/// Constructs the bounding box around a list of vertices.
pub fn boundary(vertices: &Vec<Point>) -> (bounds: (Point, Point))
    ensures
        is_boundary(vertices@, bounds),
{
    // minimum point according to the first two dimensions
    let mut min = Point { x: i64::MAX, y: i64::MAX, z: 0 };
    // maximum point according to the first two dimensions
    let mut max = Point { x: i64::MIN, y: i64::MIN, z: 0 };
    let mut index: usize = 0;
    // computes minimum and maximum points
    while index < vertices.len()
        invariant
            index <= vertices.len(),
            is_boundary(vertices@.take(index as int), (min, max)),
        decreases vertices.len() - index,
    {
        let Point { x, y, z: _ } = vertices[index];
        let ghost before = vertices@.take(index as int);
        let ghost after = vertices@.take(index + 1);
        let ghost old_min = min;
        let ghost old_max = max;
        if x < min.x {
            min.x = x;
        }
        if x > max.x {
            max.x = x;
        }
        if y < min.y {
            min.y = y;
        }
        if y > max.y {
            max.y = y;
        }
        proof {
            assert(after[index as int] == vertices[index as int]);
            assert forall|i: int| 0 <= i < after.len() implies min.x <= (#[trigger] after[i]).x
                <= max.x && min.y <= after[i].y <= max.y by {
                if i < index {
                    assert(after[i] == before[i]);
                }
            }
            if index > 0 {
                let a = choose|i: int| 0 <= i < before.len() && (#[trigger] before[i]).x == old_min.x;
                assert(after[a] == before[a]);
                let b = choose|i: int| 0 <= i < before.len() && (#[trigger] before[i]).x == old_max.x;
                assert(after[b] == before[b]);
                let c = choose|i: int| 0 <= i < before.len() && (#[trigger] before[i]).y == old_min.y;
                assert(after[c] == before[c]);
                let d = choose|i: int| 0 <= i < before.len() && (#[trigger] before[i]).y == old_max.y;
                assert(after[d] == before[d]);
            }
        }
        index = index + 1;
    }
    assert(vertices@.take(index as int) =~= vertices@);
    // bounding box
    (min, max)
}

impl View for Polygon {
    type V = Seq<Point>;

    closed spec fn view(&self) -> Seq<Point> {
        self.sequence@
    }
}

impl Polygon {
    /// The bounding box kept with the polygon.
    pub closed spec fn bounds(&self) -> (Point, Point) {
        (self.lower, self.upper)
    }

    /// The set of the polygon's vertices.
    pub open spec fn vertices(&self) -> Set<Point> {
        self@.to_set()
    }

    /// What holds of every polygon: its path is closed and its bounding box
    /// is the box around its vertices.
    pub open spec fn wf(&self) -> bool {
        &&& self@.len() >= 2
        &&& self@.first() == self@.last()
        &&& is_boundary(self@, self.bounds())
    }

    /// The bounding box of `self` lies around the bounding box of `other`.
    pub open spec fn spec_contains_boundary_of(&self, other: &Polygon) -> bool {
        &&& self.bounds().0.x <= other.bounds().0.x
        &&& self.bounds().1.x >= other.bounds().1.x
        &&& self.bounds().0.y <= other.bounds().0.y
        &&& self.bounds().1.y >= other.bounds().1.y
    }

    /// Some side of `self` is a side of `other`, in one sense or the other.
    pub open spec fn spec_shares_sides_with(&self, other: &Polygon) -> bool {
        exists|i: int, j: int| same_side(self@, i, other@, j)
    }

    /// Constructs a polygon from an ordered path of vertices, the last one
    /// not repeating the first: the path is closed, and walked backwards
    /// where `reverse` asks for it.
    pub fn from(vertices: Vec<Point>, reverse: bool) -> (polygon: Polygon)
        requires
            vertices.len() >= 1,
        ensures
            polygon.wf(),
            polygon@ == made_of(vertices@, reverse),
    {
        let mut vertices = vertices;
        // replicates the opening vertex as the closing one
        let root = vertices[0];
        vertices.push(root);
        // flips the order of the vertices where asked for
        if reverse {
            let ghost forward = vertices@;
            let mut flipped: Vec<Point> = Vec::new();
            let mut index: usize = vertices.len();
            while index > 0
                invariant
                    index <= vertices.len(),
                    vertices@ == forward,
                    flipped@.len() == vertices.len() - index,
                    forall|i: int|
                        0 <= i < flipped@.len() ==> #[trigger] flipped@[i] == forward[
                            forward.len() - 1 - i],
                decreases index,
            {
                index = index - 1;
                flipped.push(vertices[index]);
            }
            assert(flipped@ =~= forward.reverse());
            vertices = flipped;
        }
        // also constructs the bounding box of the polygon
        let (lower, upper) = boundary(&vertices);
        Polygon { sequence: vertices, lower, upper }
    }

    /// Checks whether the polygon's bounding box fully contains the bounding
    /// box of `other`.
    pub fn contains_boundary_of(&self, other: &Polygon) -> (r: bool)
        ensures
            r == self.spec_contains_boundary_of(other),
    {
        self.lower.x <= other.lower.x && self.upper.x >= other.upper.x && self.lower.y
            <= other.lower.y && self.upper.y >= other.upper.y
    }

    /// Checks whether the polygon shares sides with `other`.
    pub fn shares_sides_with(&self, other: &Polygon) -> (r: bool)
        ensures
            r == self.spec_shares_sides_with(other),
    {
        let sides = if self.sequence.len() > 0 {
            self.sequence.len() - 1
        } else {
            0
        };
        let others = if other.sequence.len() > 0 {
            other.sequence.len() - 1
        } else {
            0
        };
        let mut i: usize = 0;
        while i < sides
            invariant
                sides == if self@.len() > 0 { self@.len() - 1 } else { 0 },
                others == if other@.len() > 0 { other@.len() - 1 } else { 0 },
                forall|a: int, b: int| 0 <= a < i ==> !same_side(self@, a, other@, b),
            decreases sides - i,
        {
            let mut j: usize = 0;
            while j < others
                invariant
                    i < sides,
                    sides == if self@.len() > 0 { self@.len() - 1 } else { 0 },
                    others == if other@.len() > 0 { other@.len() - 1 } else { 0 },
                    forall|a: int, b: int| 0 <= a < i ==> !same_side(self@, a, other@, b),
                    forall|b: int| 0 <= b < j ==> !same_side(self@, i as int, other@, b),
                decreases others - j,
            {
                let a = self.sequence[i];
                let b = self.sequence[i + 1];
                let c = other.sequence[j];
                let d = other.sequence[j + 1];
                if (a == c && b == d) || (a == d && b == c) {
                    assert(same_side(self@, i as int, other@, j as int));
                    return true;
                }
                j = j + 1;
            }
            i = i + 1;
        }
        false
    }

    /// Constructs an iterator to visit the vertices where the last equals
    /// the first.
    pub fn iter(&self) -> (iterator: PolygonIterator<'_>)
        ensures
            iterator.polygon == self,
            iterator.index == 0,
    {
        PolygonIterator { polygon: self, index: 0usize }
    }

    /// A copy of the polygon.
    pub fn duplicate(&self) -> (copy: Polygon)
        ensures
            copy@ == self@,
            copy.bounds() == self.bounds(),
    {
        let mut sequence: Vec<Point> = Vec::new();
        let mut index: usize = 0;
        while index < self.sequence.len()
            invariant
                index <= self.sequence.len(),
                sequence@ == self@.take(index as int),
            decreases self.sequence.len() - index,
        {
            sequence.push(self.sequence[index]);
            assert(sequence@ =~= self@.take(index + 1));
            index = index + 1;
        }
        assert(self@.take(index as int) =~= self@);
        Polygon { sequence, lower: self.lower, upper: self.upper }
    }

    /// Tells whether `point` is a vertex of the polygon.
    pub fn has_vertex(&self, point: &Point) -> (r: bool)
        ensures
            r == self.vertices().contains(*point),
    {
        let mut index: usize = 0;
        while index < self.sequence.len()
            invariant
                index <= self.sequence.len(),
                forall|i: int| 0 <= i < index ==> self@[i] != *point,
            decreases self.sequence.len() - index,
        {
            if self.sequence[index] == *point {
                assert(self@[index as int] == *point);
                return true;
            }
            index = index + 1;
        }
        false
    }

    /// Tells whether every vertex of the polygon is a vertex of `other`.
    pub fn within(&self, other: &Polygon) -> (r: bool)
        ensures
            r == self.vertices().subset_of(other.vertices()),
    {
        let mut index: usize = 0;
        while index < self.sequence.len()
            invariant
                index <= self.sequence.len(),
                forall|i: int| 0 <= i < index ==> other.vertices().contains(self@[i]),
            decreases self.sequence.len() - index,
        {
            if !other.has_vertex(&self.sequence[index]) {
                assert(self.vertices().contains(self@[index as int]));
                return false;
            }
            index = index + 1;
        }
        true
    }
}

impl PartialEq for Polygon {
    /// Two polygons are equal if they have the same vertices
    fn eq(&self, other: &Self) -> (r: bool) {
        let r = self.within(other) && other.within(self);
        assert(r == (self.vertices() =~= other.vertices()));
        r
    }
}

impl PartialEqSpecImpl for Polygon {
    open spec fn obeys_eq_spec() -> bool {
        true
    }

    open spec fn eq_spec(&self, other: &Self) -> bool {
        self.vertices() == other.vertices()
    }
}

impl Eq for Polygon {

}

/// The polygon iterator iterates through its vertices.
pub struct PolygonIterator<'a> {
    /// The polygon that is visited.
    pub polygon: &'a Polygon,
    /// Iterating index.
    pub index: usize,
}

impl PolygonIterator<'_> {
    /// Yields next vertex along the ordered sequence, and `None` once the
    /// closing vertex has been yielded.
    pub fn next(&mut self) -> (r: Option<Point>)
        ensures
            final(self).polygon == old(self).polygon,
            r == if old(self).index < old(self).polygon@.len() {
                Some(old(self).polygon@[old(self).index as int])
            } else {
                None
            },
            final(self).index == if old(self).index < old(self).polygon@.len() {
                old(self).index + 1
            } else {
                old(self).index as int
            },
    {
        if self.index < self.polygon.sequence.len() {
            self.index = self.index + 1;
            Some(self.polygon.sequence[self.index - 1])
        } else {
            None
        }
    }
}

/// A polygon with the measures by which polygons are selected.
pub struct Measured {
    /// The polygon itself.
    pub polygon: Polygon,
    /// The area of the polygon on its own plane.
    pub area: i64,
    /// The area of the polygon seen from above, on the xy plane.
    pub area_projected: i64,
    /// For each polygon of the list that this one stands in, by its place
    /// there: whether all its vertices lie within this polygon, on the xy
    /// plane.  A place that the table does not reach counts as `false`.
    pub covers: Vec<bool>,
}

/// The polygon at `i` contains the polygon at `j`: its bounding box lies
/// around the other's, and it covers all the other's vertices.
pub open spec fn contains(polygons: Seq<Measured>, i: int, j: int) -> bool {
    &&& polygons[i].polygon.spec_contains_boundary_of(&polygons[j].polygon)
    &&& j < polygons[i].covers@.len()
    &&& polygons[i].covers@[j]
}

/// The polygon at `i` contains the polygon at `j` and shares sides with it.
pub open spec fn dominates(polygons: Seq<Measured>, i: int, j: int) -> bool {
    contains(polygons, i, j) && polygons[i].polygon.spec_shares_sides_with(&polygons[j].polygon)
}

/// The polygon at `i` contains one of the polygons at `chosen` and shares
/// sides with it.
pub open spec fn dominates_any(polygons: Seq<Measured>, i: int, chosen: Seq<usize>) -> bool {
    exists|m: int| 0 <= m < chosen.len() && dominates(polygons, i, #[trigger] chosen[m] as int)
}

/// The polygon at `i` comes before the polygon at `j` when both are sorted
/// by their area, the earlier of the list first among equals.
pub open spec fn ranks_before(polygons: Seq<Measured>, i: int, j: int) -> bool {
    polygons[i].area < polygons[j].area || (polygons[i].area == polygons[j].area && i < j)
}

/// `order` lists the places of the polygons whose projected area reaches
/// `minimum`, each once, sorted by area.
pub open spec fn ranked(polygons: Seq<Measured>, minimum: i64, order: Seq<usize>) -> bool {
    &&& forall|k: int|
        0 <= k < order.len() ==> (#[trigger] order[k]) < polygons.len()
            && polygons[order[k] as int].area_projected >= minimum
    &&& forall|i: int|
        0 <= i < polygons.len() && (#[trigger] polygons[i]).area_projected >= minimum
            ==> exists|k: int| 0 <= k < order.len() && #[trigger] order[k] == i
    &&& forall|a: int, b: int|
        0 <= a < b < order.len() ==> ranks_before(
            polygons,
            #[trigger] order[a] as int,
            #[trigger] order[b] as int,
        )
}

/// The places picked among the first `until` of `order`: each in its turn,
/// unless it dominates a place picked before it.
pub open spec fn chosen(polygons: Seq<Measured>, order: Seq<usize>, until: int) -> Seq<usize>
    decreases until,
{
    if until <= 0 {
        Seq::empty()
    } else {
        let before = chosen(polygons, order, until - 1);
        if dominates_any(polygons, order[until - 1] as int, before) {
            before
        } else {
            before.push(order[until - 1])
        }
    }
}

/// What is selected: the polygons whose projected area reaches `minimum`,
/// taken by growing area, each unless it dominates one taken before it.
pub open spec fn selects(polygons: Seq<Measured>, minimum: i64, picked: Seq<usize>) -> bool {
    exists|order: Seq<usize>| #[trigger]
        ranked(polygons, minimum, order) && picked == chosen(polygons, order, order.len() as int)
}

/// `place` stands in `order` before `until`.
pub open spec fn taken_from(order: Seq<usize>, until: int, place: usize) -> bool {
    exists|m: int| 0 <= m < until && m < order.len() && #[trigger] order[m] == place
}

/// Every place picked comes from the order, and none dominates a place
/// picked before it.
pub proof fn lemma_chosen(polygons: Seq<Measured>, order: Seq<usize>, until: int)
    requires
        0 <= until <= order.len(),
    ensures
        forall|k: int|
            0 <= k < chosen(polygons, order, until).len() ==> taken_from(
                order,
                until,
                #[trigger] chosen(polygons, order, until)[k],
            ),
        forall|a: int, b: int|
            0 <= a < b < chosen(polygons, order, until).len() ==> !dominates(
                polygons,
                #[trigger] chosen(polygons, order, until)[b] as int,
                #[trigger] chosen(polygons, order, until)[a] as int,
            ),
    decreases until,
{
    if until > 0 {
        lemma_chosen(polygons, order, until - 1);
        let before = chosen(polygons, order, until - 1);
        let now = chosen(polygons, order, until);
        assert forall|k: int| 0 <= k < now.len() implies taken_from(
            order,
            until,
            #[trigger] now[k],
        ) by {
            if k < before.len() {
                assert(now[k] == before[k]);
                assert(taken_from(order, until - 1, before[k]));
                let m = choose|m: int|
                    0 <= m < until - 1 && m < order.len() && #[trigger] order[m] == before[k];
                assert(order[m] == now[k]);
            } else {
                assert(order[until - 1] == now[k]);
            }
        }
        assert forall|a: int, b: int| 0 <= a < b < now.len() implies !dominates(
            polygons,
            #[trigger] now[b] as int,
            #[trigger] now[a] as int,
        ) by {
            if b < before.len() {
                assert(now[a] == before[a]);
                assert(now[b] == before[b]);
            } else {
                assert(now[a] == before[a]);
                assert(!dominates_any(polygons, order[until - 1] as int, before));
            }
        }
    }
}

/// No polygon that is kept dominates a polygon kept before it: it does not
/// both contain it and share sides with it.
pub proof fn lemma_kept_do_not_dominate(
    polygons: Seq<Measured>,
    minimum: i64,
    picked: Seq<usize>,
    a: int,
    b: int,
)
    requires
        selects(polygons, minimum, picked),
        0 <= a < b < picked.len(),
    ensures
        !dominates(polygons, picked[b] as int, picked[a] as int),
{
    let order = choose|order: Seq<usize>| #[trigger]
        ranked(polygons, minimum, order) && picked == chosen(
            polygons,
            order,
            order.len() as int,
        );
    lemma_chosen(polygons, order, order.len() as int);
}

/// Every polygon that is kept has a projected area of at least the minimum.
pub proof fn lemma_kept_reach_minimum(
    polygons: Seq<Measured>,
    minimum: i64,
    picked: Seq<usize>,
    k: int,
)
    requires
        selects(polygons, minimum, picked),
        0 <= k < picked.len(),
    ensures
        picked[k] < polygons.len(),
        polygons[picked[k] as int].area_projected >= minimum,
{
    let order = choose|order: Seq<usize>| #[trigger]
        ranked(polygons, minimum, order) && picked == chosen(
            polygons,
            order,
            order.len() as int,
        );
    lemma_chosen(polygons, order, order.len() as int);
    assert(taken_from(order, order.len() as int, picked[k]));
    let m = choose|m: int|
        0 <= m < order.len() && m < order.len() && #[trigger] order[m] == picked[k];
    assert(order[m] < polygons.len());
}

/// Two ways of sorting by area the polygons whose projected area reaches
/// the minimum agree at every place.
pub proof fn lemma_ranked_agree(
    polygons: Seq<Measured>,
    minimum: i64,
    first: Seq<usize>,
    second: Seq<usize>,
    k: int,
)
    requires
        ranked(polygons, minimum, first),
        ranked(polygons, minimum, second),
        0 <= k < first.len(),
    ensures
        k < second.len(),
        first[k] == second[k],
    decreases k,
{
    assert forall|e: int| 0 <= e < k implies e < second.len() && first[e] == second[e] by {
        lemma_ranked_agree(polygons, minimum, first, second, e);
    }
    let x = first[k];
    assert(polygons[x as int].area_projected >= minimum);
    let y = choose|y: int| 0 <= y < second.len() && #[trigger] second[y] == x as int;
    if y < k {
        assert(first[y] == second[y]);
        assert(ranks_before(polygons, first[y] as int, first[k] as int));
    }
    if y > k {
        let z = second[k];
        assert(polygons[z as int].area_projected >= minimum);
        let w = choose|w: int| 0 <= w < first.len() && #[trigger] first[w] == z as int;
        assert(ranks_before(polygons, second[k] as int, second[y] as int));
        if w < k {
            assert(first[w] == second[w]);
            assert(ranks_before(polygons, second[w] as int, second[k] as int));
        } else if w > k {
            assert(ranks_before(polygons, first[k] as int, first[w] as int));
        }
    }
}

/// The polygons whose projected area reaches the minimum can be sorted by
/// area in one way only, so what is selected among them is one list.
pub proof fn lemma_selection_unique(
    polygons: Seq<Measured>,
    minimum: i64,
    first: Seq<usize>,
    second: Seq<usize>,
)
    requires
        selects(polygons, minimum, first),
        selects(polygons, minimum, second),
    ensures
        first == second,
{
    let one = choose|order: Seq<usize>| #[trigger]
        ranked(polygons, minimum, order) && first == chosen(polygons, order, order.len() as int);
    let other = choose|order: Seq<usize>| #[trigger]
        ranked(polygons, minimum, order) && second == chosen(
            polygons,
            order,
            order.len() as int,
        );
    assert forall|k: int| 0 <= k < one.len() implies k < other.len() && one[k] == other[k] by {
        lemma_ranked_agree(polygons, minimum, one, other, k);
    }
    assert forall|k: int| 0 <= k < other.len() implies k < one.len() && other[k] == one[k] by {
        lemma_ranked_agree(polygons, minimum, other, one, k);
    }
    assert(one =~= other);
}

/// Sorts the places of the polygons whose projected area reaches `minimum`
/// by area.
fn rank(polygons: &Vec<Measured>, minimum: i64) -> (order: Vec<usize>)
    ensures
        ranked(polygons@, minimum, order@),
{
    let mut order: Vec<usize> = Vec::new();
    let mut index: usize = 0;
    while index < polygons.len()
        invariant
            index <= polygons.len(),
            forall|k: int|
                0 <= k < order.len() ==> (#[trigger] order[k]) < index
                    && polygons[order[k] as int].area_projected >= minimum,
            forall|i: int|
                0 <= i < index && (#[trigger] polygons[i]).area_projected >= minimum
                    ==> exists|k: int| 0 <= k < order.len() && #[trigger] order[k] == i,
            forall|a: int, b: int|
                0 <= a < b < order.len() ==> ranks_before(
                    polygons@,
                    #[trigger] order[a] as int,
                    #[trigger] order[b] as int,
                ),
        decreases polygons.len() - index,
    {
        if polygons[index].area_projected >= minimum {
            let area = polygons[index].area;
            let mut place: usize = order.len();
            while place > 0 && polygons[order[place - 1]].area > area
                invariant
                    place <= order.len(),
                    index < polygons.len(),
                    area == polygons[index as int].area,
                    forall|k: int| 0 <= k < order.len() ==> (#[trigger] order[k]) < index,
                    forall|k: int|
                        place <= k < order.len() ==> polygons[(#[trigger] order[k]) as int].area
                            > area,
                decreases place,
            {
                place = place - 1;
            }
            let ghost before = order@;
            order.insert(place, index);
            proof {
                assert forall|i: int|
                    0 <= i < index + 1 && (#[trigger] polygons[i]).area_projected
                        >= minimum implies exists|k: int|
                    0 <= k < order.len() && #[trigger] order[k] == i by {
                    if i < index {
                        let k = choose|k: int| 0 <= k < before.len() && #[trigger] before[k] == i;
                        if k < place {
                            assert(order[k] == i);
                        } else {
                            assert(order[k + 1] == i);
                        }
                    } else {
                        assert(order[place as int] == i);
                    }
                }
                assert forall|a: int, b: int| 0 <= a < b < order.len() implies ranks_before(
                    polygons@,
                    #[trigger] order[a] as int,
                    #[trigger] order[b] as int,
                ) by {
                    let x = if a < place {
                        a
                    } else {
                        a - 1
                    };
                    let y = if b < place {
                        b
                    } else {
                        b - 1
                    };
                    if a != place && b != place {
                        assert(order[a] == before[x]);
                        assert(order[b] == before[y]);
                        assert(ranks_before(polygons@, before[x] as int, before[y] as int));
                    } else if a == place {
                        assert(order[b] == before[y]);
                    } else {
                        assert(order[a] == before[x]);
                        if place > 0 {
                            assert(ranks_before(
                                polygons@,
                                before[x] as int,
                                before[place - 1] as int,
                            ) || x == place - 1);
                        }
                    }
                }
            }
        }
        index = index + 1;
    }
    order
}

/// Picks the places of the polygons that [filter] keeps, in the order in
/// which it keeps them.
pub fn selection(polygons: &Vec<Measured>, minimum_area_projected: i64) -> (picked: Vec<usize>)
    ensures
        selects(polygons@, minimum_area_projected, picked@),
        forall|k: int| 0 <= k < picked.len() ==> (#[trigger] picked[k]) < polygons.len(),
{
    // discards the polygons whose projected area is less than the minimum
    // and sorts the others by their area
    let order = rank(polygons, minimum_area_projected);
    // the mask contains the indices of the polygons that will be taken
    let mut mask: Vec<usize> = Vec::new();
    let mut turn: usize = 0;
    // iteratively picks the valid polygons
    while turn < order.len()
        invariant
            turn <= order.len(),
            ranked(polygons@, minimum_area_projected, order@),
            mask@ == chosen(polygons@, order@, turn as int),
            forall|k: int| 0 <= k < mask.len() ==> (#[trigger] mask[k]) < polygons.len(),
        decreases order.len() - turn,
    {
        let place = order[turn];
        let polygon = &polygons[place];
        let mut dominating = false;
        let mut index: usize = 0;
        // checks whether `polygon` contains any of the previously selected
        // polygons
        while index < mask.len() && !dominating
            invariant
                index <= mask.len(),
                place < polygons.len(),
                *polygon == polygons[place as int],
                forall|k: int| 0 <= k < mask.len() ==> (#[trigger] mask[k]) < polygons.len(),
                dominating ==> dominates_any(polygons@, place as int, mask@),
                !dominating ==> forall|m: int|
                    0 <= m < index ==> !dominates(polygons@, place as int, #[trigger] mask[m] as int),
            decreases mask.len() - index + if dominating { 0int } else { 1int },
        {
            let other = mask[index];
            let covered = other < polygon.covers.len() && polygon.covers[other];
            // containing means either insides on sharing common sides
            if covered && polygon.polygon.contains_boundary_of(&polygons[other].polygon)
                && polygon.polygon.shares_sides_with(&polygons[other].polygon) {
                assert(dominates(polygons@, place as int, mask[index as int] as int));
                dominating = true;
            } else {
                index = index + 1;
            }
        }
        // when valid it saves the index in the selection mask
        if !dominating {
            mask.push(place);
        }
        turn = turn + 1;
    }
    mask
}

/// Filters the set `polygons` by discarding those that contain other smaller
/// polygons and share sides with them.  Also, the procedure discards those
/// polygons whose projected area is less than `minimum_area_projected`.
///
/// Note that this is a greedy selection procedure that first discards
/// polygons with very small projected area, then it sorts the left ones by
/// the area on their plane, and finally, it iteratively picks those that do
/// not contain the previously selected polygons.
pub fn filter(polygons: &Vec<Measured>, minimum_area_projected: i64) -> (kept: Vec<Polygon>)
    ensures
        exists|picked: Seq<usize>|
            {
                &&& #[trigger] selects(polygons@, minimum_area_projected, picked)
                &&& kept.len() == picked.len()
                &&& forall|k: int|
                    0 <= k < picked.len() ==> picked[k] < polygons.len() && (#[trigger] kept[k])@
                        == polygons[picked[k] as int].polygon@ && kept[k].bounds()
                        == polygons[picked[k] as int].polygon.bounds()
            },
{
    let mask = selection(polygons, minimum_area_projected);
    let mut kept: Vec<Polygon> = Vec::new();
    let mut index: usize = 0;
    // applies the selection mask and yields the valid polygons
    while index < mask.len()
        invariant
            index <= mask.len(),
            kept.len() == index,
            forall|k: int| 0 <= k < mask.len() ==> (#[trigger] mask[k]) < polygons.len(),
            forall|k: int|
                0 <= k < index ==> (#[trigger] kept[k])@ == polygons[mask[k] as int].polygon@
                    && kept[k].bounds() == polygons[mask[k] as int].polygon.bounds(),
        decreases mask.len() - index,
    {
        kept.push(polygons[mask[index]].polygon.duplicate());
        index = index + 1;
    }
    assert(selects(polygons@, minimum_area_projected, mask@));
    kept
}

} // verus!
