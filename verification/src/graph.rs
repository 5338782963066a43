use crate::collections::{
    point_map_items, segment_map_items, PointMap, PointSet, SegmentMap, SegmentSet,
};
use crate::point::{Point, Segment};
use vstd::prelude::*;

verus! {

/// Undirected graph of points, as a mapping from each point to the set of its
/// neighbours.
pub struct PointGraph {
    /// The adjacency list that represents the graph of points.
    pub(crate) adjacencies: PointMap,
}

/// Every adjacency set is finite and so is the set of points.
pub open spec fn finite_graph(adjacency: Map<Point, Set<Point>>) -> bool {
    &&& adjacency.dom().finite()
    &&& forall|p: Point| #[trigger] adjacency.contains_key(p) ==> adjacency[p].finite()
}

/// Whenever `q` is a neighbour of `p`, `p` is a neighbour of `q`.
pub open spec fn symmetric(adjacency: Map<Point, Set<Point>>) -> bool {
    forall|p: Point, q: Point|
        adjacency.contains_key(p) && #[trigger] adjacency[p].contains(q) ==> adjacency.contains_key(
            q,
        ) && adjacency[q].contains(p)
}

/// What holds of every graph of points: it is finite and symmetric, and no
/// point is stored without a neighbour.
pub open spec fn well_formed(adjacency: Map<Point, Set<Point>>) -> bool {
    &&& finite_graph(adjacency)
    &&& symmetric(adjacency)
    &&& forall|p: Point| #[trigger] adjacency.contains_key(p) ==> adjacency[p].len() >= 1
}

/// Some segment of the list connects `p` and `q`, in one sense or the other.
pub open spec fn joins(segments: Seq<Segment>, p: Point, q: Point) -> bool {
    exists|i: int| joins_at(segments, i, p, q)
}

/// The segment at `index` connects `p` and `q`, in one sense or the other.
pub open spec fn joins_at(segments: Seq<Segment>, index: int, p: Point, q: Point) -> bool {
    0 <= index < segments.len() && (segments[index] == (p, q) || segments[index] == (q, p))
}

/// The graph that a list of segments describes: its points are the ends of
/// the segments, and two points are neighbours when a segment connects them.
pub open spec fn graph_of(segments: Seq<Segment>) -> Map<Point, Set<Point>> {
    Map::new(
        |p: Point| exists|q: Point| joins(segments, p, q),
        |p: Point| Set::new(|q: Point| joins(segments, p, q)),
    )
}

/// `q` is a neighbour of `p` in the mapping.
pub open spec fn linked(adjacency: Map<Point, Set<Point>>, p: Point, q: Point) -> bool {
    adjacency.contains_key(p) && adjacency[p].contains(q)
}

/// Every point of `points` is a point of the graph and keeps at least two of
/// its neighbours inside `points`.
pub open spec fn two_closed(adjacency: Map<Point, Set<Point>>, points: Set<Point>) -> bool {
    forall|p: Point| #[trigger]
        points.contains(p) ==> adjacency.contains_key(p) && adjacency[p].intersect(points).len()
            >= 2
}

/// `points` is the largest set of points of the graph in which every point
/// keeps at least two neighbours: what is left once every dead end has been
/// cut back.
pub open spec fn is_core(adjacency: Map<Point, Set<Point>>, points: Set<Point>) -> bool {
    &&& two_closed(adjacency, points)
    &&& forall|other: Set<Point>| #[trigger]
        two_closed(adjacency, other) ==> other.subset_of(points)
}

/// The graph cut down to `points`: the other points leave, as keys and as
/// neighbours.
pub open spec fn restricted(adjacency: Map<Point, Set<Point>>, points: Set<Point>) -> Map<
    Point,
    Set<Point>,
> {
    Map::new(
        |p: Point| adjacency.contains_key(p) && points.contains(p),
        |p: Point| adjacency[p].intersect(points),
    )
}

/// No point of the graph has fewer than two neighbours.
pub open spec fn leafless(adjacency: Map<Point, Set<Point>>) -> bool {
    forall|p: Point| #[trigger] adjacency.contains_key(p) ==> adjacency[p].len() >= 2
}

/// Cutting a point with at most one neighbour out of a restriction of a
/// symmetric graph gives the restriction to the remaining points, and costs
/// no set of points that keeps two neighbours each.
proof fn lemma_cut_leaf(
    initial: Map<Point, Set<Point>>,
    current: Map<Point, Set<Point>>,
    leaf: Point,
    next: Map<Point, Set<Point>>,
)
    requires
        finite_graph(initial),
        symmetric(initial),
        current == restricted(initial, current.dom()),
        current.contains_key(leaf),
        current[leaf].len() <= 1,
        next.dom() == current.dom().remove(leaf),
        forall|p: Point| #[trigger]
            next.contains_key(p) ==> next[p] == if current[leaf].contains(p) {
                current[p].remove(leaf)
            } else {
                current[p]
            },
        forall|other: Set<Point>| #[trigger]
            two_closed(initial, other) ==> other.subset_of(current.dom()),
    ensures
        next == restricted(initial, next.dom()),
        forall|other: Set<Point>| #[trigger]
            two_closed(initial, other) ==> other.subset_of(next.dom()),
{
    let target = restricted(initial, next.dom());
    assert(current[leaf] == initial[leaf].intersect(current.dom()));
    assert forall|p: Point| #[trigger] next.contains_key(p) implies next[p] =~= target[p] by {
        assert(current.contains_key(p));
        assert(current[p] == initial[p].intersect(current.dom()));
        if !current[leaf].contains(p) && initial[p].contains(leaf) {
            assert(initial[leaf].contains(p));
        }
    }
    assert(next.dom() =~= target.dom());
    assert(next =~= target);
    assert forall|other: Set<Point>| #[trigger] two_closed(initial, other) implies other.subset_of(
        next.dom(),
    ) by {
        assert(other.subset_of(current.dom()));
        if other.contains(leaf) {
            let inside = initial[leaf].intersect(other);
            assert(inside.subset_of(current[leaf]));
            assert(current[leaf].finite());
            vstd::set_lib::lemma_len_subset(inside, current[leaf]);
        }
    }
}

/// `point` stands in `round` at `from` or later.
pub open spec fn awaits(round: Seq<Point>, from: int, point: Point) -> bool {
    exists|j: int| from <= j < round.len() && #[trigger] round[j] == point
}

/// A finite set of at most one point that holds `point` holds nothing else.
proof fn lemma_only_member(points: Set<Point>, point: Point)
    requires
        points.finite(),
        points.len() <= 1,
        points.contains(point),
    ensures
        points == set![point],
{
    let rest = points.remove(point);
    rest.lemma_len0_is_empty();
    assert(points =~= set![point]);
}

/// A symmetric finite graph is its own restriction to its points.
proof fn lemma_restricted_whole(adjacency: Map<Point, Set<Point>>)
    requires
        symmetric(adjacency),
    ensures
        adjacency == restricted(adjacency, adjacency.dom()),
{
    let target = restricted(adjacency, adjacency.dom());
    assert forall|p: Point| #[trigger] adjacency.contains_key(p) implies adjacency[p]
        =~= target[p] by {
        assert forall|q: Point| adjacency[p].contains(q) implies adjacency.dom().contains(q) by {}
    }
    assert(adjacency =~= target);
}

/// The restriction of a finite symmetric graph is finite and symmetric.
proof fn lemma_restricted_shape(initial: Map<Point, Set<Point>>, points: Set<Point>)
    requires
        finite_graph(initial),
        symmetric(initial),
    ensures
        finite_graph(restricted(initial, points)),
        symmetric(restricted(initial, points)),
{
    let target = restricted(initial, points);
    assert(target.dom().subset_of(initial.dom()));
    vstd::set_lib::lemma_len_subset(target.dom(), initial.dom());
    assert forall|p: Point| #[trigger] target.contains_key(p) implies target[p].finite() by {
        assert(initial.contains_key(p));
        assert(target[p].subset_of(initial[p]));
        vstd::set_lib::lemma_len_subset(target[p], initial[p]);
    }
    assert forall|p: Point, q: Point|
        target.contains_key(p) && #[trigger] target[p].contains(q) implies target.contains_key(q)
        && target[q].contains(p) by {
        assert(initial[p].contains(q));
    }
}

/// The mapping that a [PointMap] stands for.
pub open spec fn adjacency_of(map: PointMap) -> Map<Point, Set<Point>> {
    Map::new(
        |p: Point| point_map_items(map).contains_key(p),
        |p: Point| point_map_items(map)[p]@,
    )
}

/// Makes `to` a neighbour of `from`, with a new entry where `from` had none.
fn link(map: &mut PointMap, from: Point, to: Point)
    ensures
        adjacency_of(*final(map)) == adjacency_of(*old(map)).insert(
            from,
            if adjacency_of(*old(map)).contains_key(from) {
                adjacency_of(*old(map))[from].insert(to)
            } else {
                set![to]
            },
        ),
{
    let mut neighbors = match map.remove(&from) {
        Some(neighbors) => neighbors,
        None => PointSet::new(),
    };
    neighbors.insert(to);
    map.insert(from, neighbors);
    assert(adjacency_of(*final(map)) =~= adjacency_of(*old(map)).insert(
        from,
        if adjacency_of(*old(map)).contains_key(from) {
            adjacency_of(*old(map))[from].insert(to)
        } else {
            set![to]
        },
    ));
}

impl PointSet {
    /// The points of the set, each once, in an order that is not fixed.
    pub fn members(&self) -> (members: Vec<Point>)
        ensures
            members@.no_duplicates(),
            members@.to_set() == self@,
    {
        self.to_vec()
    }
}

/// A slice of a [PointGraph]: the whole of it, or what lies on a set of its
/// points.
pub struct PointSubGraph<'a> {
    /// Reference to the main graph
    pub graph: &'a PointGraph,
    /// The points of the slice; `None` stands for all of them.
    pub points: Option<PointSet>,
}

impl PointSubGraph<'_> {
    /// The points that the slice is cut down to; `None` stands for all.
    pub open spec fn selection(&self) -> Option<Set<Point>> {
        match self.points {
            Some(points) => Some(points@),
            None => None,
        }
    }

    /// `point` belongs to the slice.
    pub open spec fn retains(&self, point: Point) -> bool {
        retained(self.graph@, self.selection(), point)
    }
}

/// `point` is a point of the graph and of the selection, where there is one.
pub open spec fn retained(
    adjacency: Map<Point, Set<Point>>,
    selection: Option<Set<Point>>,
    point: Point,
) -> bool {
    adjacency.contains_key(point) && match selection {
        Some(points) => points.contains(point),
        None => true,
    }
}

/// The graph of a list of segments does not depend on the order of the
/// list, nor on how often a segment is listed.
pub proof fn lemma_graph_ignores_order(first: Seq<Segment>, second: Seq<Segment>)
    requires
        first.to_set() == second.to_set(),
    ensures
        graph_of(first) == graph_of(second),
{
    assert forall|p: Point, q: Point| joins(first, p, q) <==> joins(second, p, q) by {
        if joins(first, p, q) {
            let i = choose|i: int| joins_at(first, i, p, q);
            assert(first.to_set().contains(first[i]));
            assert(second.to_set().contains(first[i]));
            let j = choose|j: int| 0 <= j < second.len() && second[j] == first[i];
            assert(joins_at(second, j, p, q));
        }
        if joins(second, p, q) {
            let i = choose|i: int| joins_at(second, i, p, q);
            assert(second.to_set().contains(second[i]));
            assert(first.to_set().contains(second[i]));
            let j = choose|j: int| 0 <= j < first.len() && first[j] == second[i];
            assert(joins_at(first, j, p, q));
        }
    }
    assert forall|p: Point| #[trigger]
        graph_of(first).contains_key(p) <==> graph_of(second).contains_key(p) by {
        if graph_of(first).contains_key(p) {
            let q = choose|q: Point| joins(first, p, q);
            assert(joins(second, p, q));
        }
        if graph_of(second).contains_key(p) {
            let q = choose|q: Point| joins(second, p, q);
            assert(joins(first, p, q));
        }
    }
    assert(graph_of(first).dom() =~= graph_of(second).dom());
    assert forall|p: Point| #[trigger] graph_of(first).contains_key(p) implies graph_of(first)[p]
        =~= graph_of(second)[p] by {}
    assert(graph_of(first) =~= graph_of(second));
}

/// Pruning what was pruned changes nothing: a graph cut down to its largest
/// part without dead ends is its own largest part without dead ends.
pub proof fn lemma_prune_idempotent(
    graph: Map<Point, Set<Point>>,
    once: Map<Point, Set<Point>>,
    twice: Map<Point, Set<Point>>,
)
    requires
        well_formed(graph),
        is_core(graph, once.dom()),
        once == restricted(graph, once.dom()),
        is_core(once, twice.dom()),
        twice == restricted(once, twice.dom()),
    ensures
        twice == once,
{
    assert forall|p: Point| #[trigger] once.dom().contains(p) implies once.contains_key(p)
        && once[p].intersect(once.dom()).len() >= 2 by {
        assert(once[p].intersect(once.dom()) =~= graph[p].intersect(once.dom()));
    }
    assert(two_closed(once, once.dom()));
    assert(once.dom().subset_of(twice.dom()));
    assert(twice.dom() =~= once.dom());
    assert forall|p: Point| #[trigger] twice.contains_key(p) implies twice[p] =~= once[p] by {}
    assert(twice =~= once);
}

/// A graph has one largest part without dead ends.
pub proof fn lemma_core_unique(
    graph: Map<Point, Set<Point>>,
    first: Set<Point>,
    second: Set<Point>,
)
    requires
        is_core(graph, first),
        is_core(graph, second),
    ensures
        first == second,
{
    assert(first.subset_of(second));
    assert(second.subset_of(first));
    assert(first =~= second);
}

impl View for PointGraph {
    type V = Map<Point, Set<Point>>;

    closed spec fn view(&self) -> Map<Point, Set<Point>> {
        adjacency_of(self.adjacencies)
    }
}

impl PointGraph {
    /// `q` is a neighbour of `p`.
    pub open spec fn adjacent(&self, p: Point, q: Point) -> bool {
        linked(self@, p, q)
    }

    /// Given a list of segments, it constructs the graph of all detected and
    /// connected points: two points are neighbours exactly when some segment
    /// connects them, whatever its sense and however often it is listed.
    pub fn from(segments: &[Segment]) -> (graph: PointGraph)
        ensures
            well_formed(graph@),
            graph@ == graph_of(segments@),
            forall|p: Point, q: Point| #[trigger] graph.adjacent(p, q) <==> joins(segments@, p, q),
    {
        let mut adjacencies = PointMap::new();
        let mut index: usize = 0;
        assert(adjacency_of(adjacencies) =~= Map::<Point, Set<Point>>::empty());
        while index < segments.len()
            invariant
                index <= segments.len(),
                well_formed(adjacency_of(adjacencies)),
                forall|p: Point, q: Point| #[trigger]
                    linked(adjacency_of(adjacencies), p, q) <==> joins(
                        segments@.take(index as int),
                        p,
                        q,
                    ),
            decreases segments.len() - index,
        {
            let (u, v) = segments[index];
            let ghost before = adjacency_of(adjacencies);
            link(&mut adjacencies, u, v);
            let ghost middle = adjacency_of(adjacencies);
            link(&mut adjacencies, v, u);
            proof {
                let after = adjacency_of(adjacencies);
                let prefix = segments@.take(index as int);
                let longer = segments@.take(index + 1);
                assert(longer[index as int] == (u, v));
                assert(joins_at(longer, index as int, u, v));
                assert(joins_at(longer, index as int, v, u));
                assert forall|p: Point, q: Point| #[trigger]
                    linked(after, p, q) <==> joins(longer, p, q) by {
                    if joins(longer, p, q) {
                        let i = choose|i: int| joins_at(longer, i, p, q);
                        if i < index {
                            assert(joins_at(prefix, i, p, q));
                            assert(linked(before, p, q));
                        }
                        assert(linked(after, p, q));
                    }
                    if linked(after, p, q) {
                        if linked(before, p, q) {
                            assert(joins(prefix, p, q));
                            let i = choose|i: int| joins_at(prefix, i, p, q);
                            assert(joins_at(longer, i, p, q));
                        } else {
                            assert((p == u && q == v) || (p == v && q == u));
                        }
                    }
                }
                assert(symmetric(after)) by {
                    assert forall|p: Point, q: Point|
                        after.contains_key(p) && #[trigger] after[p].contains(q) implies (
                    after.contains_key(q) && after[q].contains(p)) by {
                        assert(linked(after, p, q));
                        let i = choose|i: int| joins_at(longer, i, p, q);
                        assert(joins_at(longer, i, q, p));
                        assert(linked(after, q, p));
                    }
                }
            }
            index = index + 1;
        }
        assert(segments@.take(index as int) =~= segments@);
        proof {
            let built = adjacency_of(adjacencies);
            let target = graph_of(segments@);
            assert forall|p: Point| #[trigger] built.contains_key(p) implies target.contains_key(
                p,
            ) && built[p] =~= target[p] by {
                if built[p] =~= Set::<Point>::empty() {
                    assert(built[p].len() == 0);
                }
                let q = choose|q: Point| built[p].contains(q);
                assert(linked(built, p, q));
                assert forall|w: Point| built[p].contains(w) <==> target[p].contains(w) by {
                    assert(linked(built, p, w) <==> joins(segments@, p, w));
                }
            }
            assert forall|p: Point| #[trigger] target.contains_key(p) implies built.contains_key(
                p,
            ) by {
                let q = choose|q: Point| joins(segments@, p, q);
                assert(linked(built, p, q));
            }
            assert(built.dom() =~= target.dom());
            assert(built =~= target);
        }
        PointGraph { adjacencies }
    }

    /// Prunes the graph by cutting back dead ends until none is left: what
    /// remains is the largest part of the graph in which every point keeps at
    /// least two neighbours, whatever the order in which the dead ends went.
    pub fn prune(self) -> (pruned: PointGraph)
        requires
            well_formed(self@),
        ensures
            well_formed(pruned@),
            leafless(pruned@),
            is_core(self@, pruned@.dom()),
            pruned@ == restricted(self@, pruned@.dom()),
    {
        let mut adjacencies = self.adjacencies;
        let ghost initial = adjacency_of(adjacencies);
        proof {
            lemma_restricted_whole(initial);
        }
        // detects the points which are dead ends and have degree equals to 1
        let mut leaves = PointSet::new();
        let keys = adjacencies.keys();
        let mut position: usize = 0;
        while position < keys.len()
            invariant
                position <= keys.len(),
                adjacency_of(adjacencies) == initial,
                well_formed(initial),
                keys@.to_set() == initial.dom(),
                leaves@.finite(),
                forall|j: int|
                    0 <= j < position && initial[#[trigger] keys[j]].len() <= 1
                        ==> leaves@.contains(keys[j]),
                forall|p: Point| #[trigger]
                    leaves@.contains(p) ==> initial.contains_key(p) && initial[p].len() <= 1,
            decreases keys.len() - position,
        {
            let key = keys[position];
            assert(keys@.to_set().contains(key));
            if let Some(neighbors) = adjacencies.get(&key) {
                if neighbors.len() == 1 {
                    leaves.insert(key);
                }
            }
            position = position + 1;
        }
        assert forall|p: Point|
            initial.contains_key(p) && #[trigger] initial[p].len() <= 1 implies leaves@.contains(
            p,
        ) by {
            assert(keys@.to_set().contains(p));
            let j = choose|j: int| 0 <= j < keys@.len() && keys@[j] == p;
            assert(keys[j] == p);
        }
        // iteratively prunes the leaves until no dead ends are left
        let mut pending = leaves.len();
        while pending > 0
            invariant
                finite_graph(initial),
                symmetric(initial),
                finite_graph(adjacency_of(adjacencies)),
                adjacency_of(adjacencies) == restricted(initial, adjacency_of(adjacencies).dom()),
                forall|other: Set<Point>| #[trigger]
                    two_closed(initial, other) ==> other.subset_of(
                        adjacency_of(adjacencies).dom(),
                    ),
                leaves@.finite(),
                pending == leaves@.len(),
                forall|p: Point|
                    adjacency_of(adjacencies).contains_key(p) && #[trigger] adjacency_of(
                        adjacencies,
                    )[p].len() <= 1 ==> leaves@.contains(p),
                forall|p: Point|
                    #[trigger] leaves@.contains(p) && adjacency_of(adjacencies).contains_key(p)
                        ==> adjacency_of(adjacencies)[p].len() <= 1,
            decreases adjacency_of(adjacencies).dom().len(), leaves@.len(),
        {
            let round = leaves.to_vec();
            // next round leaves
            let mut updated = PointSet::new();
            let ghost start = adjacency_of(adjacencies).dom().len();
            let mut index: usize = 0;
            assert forall|j: int| 0 <= j < round.len() implies leaves@.contains(
                #[trigger] round[j],
            ) by {
                assert(round@.to_set().contains(round@[j]));
            }
            while index < round.len()
                invariant
                    index <= round.len(),
                    round@.to_set() == leaves@,
                    finite_graph(initial),
                    symmetric(initial),
                    finite_graph(adjacency_of(adjacencies)),
                    adjacency_of(adjacencies) == restricted(
                        initial,
                        adjacency_of(adjacencies).dom(),
                    ),
                    forall|other: Set<Point>| #[trigger]
                        two_closed(initial, other) ==> other.subset_of(
                            adjacency_of(adjacencies).dom(),
                        ),
                    updated@.finite(),
                    forall|p: Point|
                        adjacency_of(adjacencies).contains_key(p) && #[trigger] adjacency_of(
                            adjacencies,
                        )[p].len() <= 1 ==> updated@.contains(p) || awaits(
                            round@,
                            index as int,
                            p,
                        ),
                    forall|j: int|
                        index <= j < round.len() && adjacency_of(adjacencies).contains_key(
                            #[trigger] round[j],
                        ) ==> adjacency_of(adjacencies)[round[j]].len() <= 1,
                    forall|p: Point|
                        #[trigger] updated@.contains(p) && adjacency_of(adjacencies).contains_key(
                            p,
                        ) ==> adjacency_of(adjacencies)[p].len() <= 1,
                    adjacency_of(adjacencies).dom().len() < start || (adjacency_of(
                        adjacencies,
                    ).dom().len() == start && updated@ == Set::<Point>::empty()),
                decreases round.len() - index,
            {
                let leaf = round[index];
                let ghost current = adjacency_of(adjacencies);
                let ghost marked = updated@;
                // prune only if it was not pruned already
                if let Some(own) = adjacencies.remove(&leaf) {
                    assert(own@ == current[leaf]);
                    assert(restricted(initial, current.dom()).contains_key(leaf));
                    assert(initial.contains_key(leaf));
                    assert(current[leaf] == initial[leaf].intersect(current.dom()));
                    let neighbors = own.to_vec();
                    proof {
                        neighbors@.unique_seq_to_set();
                    }
                    if neighbors.len() > 0 {
                        let adjacent = neighbors[0];
                        proof {
                            assert(neighbors@.to_set().contains(adjacent));
                            lemma_only_member(current[leaf], adjacent);
                        }
                        // removes the leaf from its neighbor, which will be a
                        // new leaf if it was poorly connected
                        if let Some(mut others) = adjacencies.remove(&adjacent) {
                            assert(others@ == current[adjacent]);
                            assert(current[adjacent] == initial[adjacent].intersect(
                                current.dom(),
                            ));
                            assert(initial[leaf].contains(adjacent));
                            assert(initial[adjacent].contains(leaf));
                            if others.len() <= 2 {
                                updated.insert(adjacent);
                            }
                            others.remove(&leaf);
                            adjacencies.insert(adjacent, others);
                        } else {
                            assert(adjacent == leaf);
                        }
                    } else {
                        proof {
                            current[leaf].lemma_len0_is_empty();
                        }
                    }
                    proof {
                        let next = adjacency_of(adjacencies);
                        assert(next.dom() =~= current.dom().remove(leaf));
                        lemma_cut_leaf(initial, current, leaf, next);
                        lemma_restricted_shape(initial, next.dom());
                        assert forall|p: Point|
                            next.contains_key(p) && #[trigger] next[p].len() <= 1 implies (
                        updated@.contains(p) || awaits(round@, index + 1, p)) by {
                            if current[leaf].contains(p) {
                            } else {
                                assert(next[p] == current[p]);
                                assert(marked.contains(p) || awaits(round@, index as int, p));
                                if !marked.contains(p) {
                                    let j = choose|j: int|
                                        index <= j < round@.len() && #[trigger] round@[j] == p;
                                    assert(j != index);
                                    assert(awaits(round@, index + 1, p));
                                }
                            }
                        }
                        assert forall|j: int|
                            index + 1 <= j < round.len() && next.contains_key(
                                #[trigger] round[j],
                            ) implies next[round[j]].len() <= 1 by {
                            assert(current.contains_key(round[j]));
                        }
                        assert forall|p: Point|
                            #[trigger] updated@.contains(p) && next.contains_key(
                                p,
                            ) implies next[p].len() <= 1 by {
                            assert(current.contains_key(p));
                        }
                    }
                } else {
                    proof {
                        assert(adjacency_of(adjacencies) =~= current);
                        assert forall|p: Point|
                            current.contains_key(p) && #[trigger] current[p].len()
                                <= 1 implies (updated@.contains(p) || awaits(
                            round@,
                            index + 1,
                            p,
                        )) by {
                            if !updated@.contains(p) {
                                let j = choose|j: int|
                                    index <= j < round@.len() && #[trigger] round@[j] == p;
                                assert(j != index);
                                assert(awaits(round@, index + 1, p));
                            }
                        }
                    }
                }
                index = index + 1;
            }
            proof {
                assert forall|p: Point|
                    adjacency_of(adjacencies).contains_key(p) && #[trigger] adjacency_of(
                        adjacencies,
                    )[p].len() <= 1 implies updated@.contains(p) by {
                    assert(!awaits(round@, index as int, p));
                }
                if updated@ == Set::<Point>::empty() {
                    assert(leaves@.len() > 0);
                }
            }
            // new leaves consequently resulting from the pruned ones
            leaves = updated;
            pending = leaves.len();
        }
        proof {
            let last = adjacency_of(adjacencies);
            leaves@.lemma_len0_is_empty();
            lemma_restricted_shape(initial, last.dom());
            assert forall|p: Point| #[trigger] last.contains_key(p) implies last[p].len() >= 2 by {
                if last[p].len() <= 1 {
                    assert(leaves@.contains(p));
                }
            }
            assert forall|p: Point| #[trigger] last.dom().contains(p) implies initial.contains_key(
                p,
            ) && initial[p].intersect(last.dom()).len() >= 2 by {
                assert(last.contains_key(p));
                assert(last[p] == initial[p].intersect(last.dom()));
            }
        }
        // pruned adjacency list of points
        PointGraph { adjacencies }
    }

    /// The points of the graph, each once, in an order that is not fixed.
    pub fn points(&self) -> (points: Vec<Point>)
        ensures
            points@.no_duplicates(),
            points@.to_set() == self@.dom(),
    {
        self.adjacencies.keys()
    }

    /// The neighbours of `point`, each once, in an order that is not fixed;
    /// `None` where `point` is no point of the graph.
    pub fn neighbors(&self, point: &Point) -> (neighbors: Option<Vec<Point>>)
        ensures
            neighbors.is_some() == self@.contains_key(*point),
            neighbors.is_some() ==> neighbors.unwrap()@.no_duplicates()
                && neighbors.unwrap()@.to_set() == self@[*point],
    {
        match self.adjacencies.get(point) {
            Some(adjacent) => Some(adjacent.to_vec()),
            None => None,
        }
    }

    /// Constructs a slice of the graph based on a set of its points.
    pub fn subgraph(&self, points: PointSet) -> (slice: PointSubGraph<'_>)
        ensures
            slice.graph == self,
            slice.points == Some(points),
    {
        PointSubGraph { graph: self, points: Some(points) }
    }

    /// Constructs a slice of the graph with all points.
    pub fn fullgraph(&self) -> (slice: PointSubGraph<'_>)
        ensures
            slice.graph == self,
            slice.points.is_none(),
    {
        PointSubGraph { graph: self, points: None }
    }
}

/// Directed graph over oriented segments, as a mapping from each segment to
/// the set of the segments that may follow it.
pub struct SegmentGraph {
    /// The adjacency list representation of the graph.
    pub(crate) adjacencies: SegmentMap,
}

/// The mapping that a [SegmentMap] stands for.
pub open spec fn successors_of(map: SegmentMap) -> Map<Segment, Set<Segment>> {
    Map::new(
        |s: Segment| segment_map_items(map).contains_key(s),
        |s: Segment| segment_map_items(map)[s]@,
    )
}

/// `next` may follow `segment` in the mapping.
pub open spec fn chained(
    successors: Map<Segment, Set<Segment>>,
    segment: Segment,
    next: Segment,
) -> bool {
    successors.contains_key(segment) && successors[segment].contains(next)
}

/// What holds of every graph of segments: it is finite, and no segment is
/// stored without a successor.
pub open spec fn orderly(successors: Map<Segment, Set<Segment>>) -> bool {
    &&& successors.dom().finite()
    &&& forall|s: Segment| #[trigger]
        successors.contains_key(s) ==> successors[s].finite() && successors[s].len() >= 1
}

/// In the slice of the graph, `next` continues `segment`: both lie on the
/// graph, the head of the one is the tail of the other and belongs to the
/// slice, and `next` does not lead back to where `segment` came from.
pub open spec fn follows(
    adjacency: Map<Point, Set<Point>>,
    selection: Option<Set<Point>>,
    segment: Segment,
    next: Segment,
) -> bool {
    &&& segment.1 == next.0
    &&& retained(adjacency, selection, segment.1)
    &&& linked(adjacency, segment.1, segment.0)
    &&& linked(adjacency, segment.1, next.1)
    &&& segment.0 != next.1
}

/// `graph` is the graph of the segments of the slice.
pub open spec fn is_segment_graph(
    graph: SegmentGraph,
    adjacency: Map<Point, Set<Point>>,
    selection: Option<Set<Point>>,
) -> bool {
    &&& orderly(graph@)
    &&& turning(graph@)
    &&& forall|s: Segment, t: Segment| #[trigger]
        graph.connects(s, t) <==> follows(adjacency, selection, s, t)
}

/// Every successor of a segment starts where the segment ends and does not
/// lead back to where the segment came from.
pub open spec fn turning(graph: Map<Segment, Set<Segment>>) -> bool {
    forall|s: Segment, t: Segment| #[trigger] chained(graph, s, t) ==> s.1 == t.0 && s.0 != t.1
}

/// The two graphs give the segments of `region` the same successors, and
/// these lie in `region` again.
pub open spec fn agree_on(
    first: Map<Segment, Set<Segment>>,
    second: Map<Segment, Set<Segment>>,
    region: Set<Segment>,
) -> bool {
    forall|s: Segment, t: Segment|
        region.contains(s) ==> (#[trigger] chained(first, s, t) <==> chained(second, s, t)) && (
        chained(first, s, t) ==> region.contains(t))
}

/// `point` stands in `keys` before `until`.
pub open spec fn visited(keys: Seq<Point>, until: int, point: Point) -> bool {
    exists|a: int| 0 <= a < until && a < keys.len() && #[trigger] keys[a] == point
}

/// Makes `to` a successor of `from`, with a new entry where `from` had none.
fn chain(map: &mut SegmentMap, from: Segment, to: Segment)
    requires
        orderly(successors_of(*old(map))),
    ensures
        orderly(successors_of(*final(map))),
        forall|s: Segment, t: Segment| #[trigger]
            chained(successors_of(*final(map)), s, t) <==> chained(successors_of(*old(map)), s, t)
                || (s == from && t == to),
{
    let mut successors = match map.remove(&from) {
        Some(successors) => successors,
        None => SegmentSet::new(),
    };
    successors.insert(to);
    map.insert(from, successors);
    proof {
        let before = successors_of(*old(map));
        let after = successors_of(*final(map));
        assert(after.dom() =~= before.dom().insert(from));
        assert forall|s: Segment, t: Segment| #[trigger]
            chained(after, s, t) <==> chained(before, s, t) || (s == from && t == to) by {
            if s != from {
                assert(after.contains_key(s) == before.contains_key(s));
                if after.contains_key(s) {
                    assert(after[s] == before[s]);
                }
            }
        }
        assert forall|s: Segment| #[trigger] after.contains_key(s) implies after[s].finite()
            && after[s].len() >= 1 by {
            if s != from {
                assert(before.contains_key(s));
                assert(after[s] == before[s]);
            }
        }
    }
}

/// Lets every segment that leaves `point` for a point of `around`, but the
/// one that leads back, follow the segment `(from, point)`.
fn fan_out(map: &mut SegmentMap, from: Point, point: Point, around: &Vec<Point>)
    requires
        orderly(successors_of(*old(map))),
    ensures
        orderly(successors_of(*final(map))),
        forall|s: Segment, t: Segment| #[trigger]
            chained(successors_of(*final(map)), s, t) <==> chained(successors_of(*old(map)), s, t)
                || (s == (from, point) && t.0 == point && t.1 != from && around@.contains(t.1)),
{
    let mut index: usize = 0;
    while index < around.len()
        invariant
            index <= around.len(),
            orderly(successors_of(*map)),
            forall|s: Segment, t: Segment| #[trigger]
                chained(successors_of(*map), s, t) <==> chained(successors_of(*old(map)), s, t) || (
                s == (from, point) && t.0 == point && t.1 != from && visited(
                    around@,
                    index as int,
                    t.1,
                )),
        decreases around.len() - index,
    {
        let to = around[index];
        let ghost before = successors_of(*map);
        // obviously avoids creating unwanted cycles
        if from != to {
            chain(map, (from, point), (point, to));
        }
        proof {
            let after = successors_of(*map);
            assert forall|s: Segment, t: Segment| #[trigger]
                chained(after, s, t) <==> chained(successors_of(*old(map)), s, t) || (s == (
                    from,
                    point,
                ) && t.0 == point && t.1 != from && visited(around@, index + 1, t.1)) by {
                if visited(around@, index + 1, t.1) {
                    let a = choose|a: int|
                        0 <= a < index + 1 && a < around@.len() && #[trigger] around@[a] == t.1;
                    if a < index {
                        assert(visited(around@, index as int, t.1));
                    }
                }
                if visited(around@, index as int, t.1) {
                    let a = choose|a: int|
                        0 <= a < index && a < around@.len() && #[trigger] around@[a] == t.1;
                    assert(visited(around@, index + 1, t.1));
                }
                if t.1 == to {
                    assert(around@[index as int] == t.1);
                    assert(visited(around@, index + 1, t.1));
                }
                assert(chained(after, s, t) <==> chained(before, s, t) || (from != to && s == (
                    from,
                    point,
                ) && t == (point, to)));
            }
        }
        index = index + 1;
    }
    proof {
        assert forall|w: Point| visited(around@, index as int, w) <==> around@.contains(w) by {
            if around@.contains(w) {
                let a = choose|a: int| 0 <= a < around@.len() && around@[a] == w;
                assert(around@[a] == w);
            }
        }
    }
}

/// Links every segment that arrives at `point` from a point of `around` to
/// every segment that leaves `point` for another point of `around`.
fn connect_through(map: &mut SegmentMap, point: Point, around: &Vec<Point>)
    requires
        orderly(successors_of(*old(map))),
    ensures
        orderly(successors_of(*final(map))),
        forall|s: Segment, t: Segment| #[trigger]
            chained(successors_of(*final(map)), s, t) <==> chained(successors_of(*old(map)), s, t)
                || (s.1 == point && t.0 == point && s.0 != t.1 && around@.contains(s.0)
                && around@.contains(t.1)),
{
    let mut index: usize = 0;
    while index < around.len()
        invariant
            index <= around.len(),
            orderly(successors_of(*map)),
            forall|s: Segment, t: Segment| #[trigger]
                chained(successors_of(*map), s, t) <==> chained(successors_of(*old(map)), s, t) || (
                s.1 == point && t.0 == point && s.0 != t.1 && visited(around@, index as int, s.0)
                    && around@.contains(t.1)),
        decreases around.len() - index,
    {
        let from = around[index];
        let ghost before = successors_of(*map);
        fan_out(map, from, point, around);
        proof {
            let after = successors_of(*map);
            assert forall|s: Segment, t: Segment| #[trigger]
                chained(after, s, t) <==> chained(successors_of(*old(map)), s, t) || (s.1 == point
                    && t.0 == point && s.0 != t.1 && visited(around@, index + 1, s.0)
                    && around@.contains(t.1)) by {
                if visited(around@, index + 1, s.0) {
                    let a = choose|a: int|
                        0 <= a < index + 1 && a < around@.len() && #[trigger] around@[a] == s.0;
                    if a < index {
                        assert(visited(around@, index as int, s.0));
                    }
                }
                if visited(around@, index as int, s.0) {
                    let a = choose|a: int|
                        0 <= a < index && a < around@.len() && #[trigger] around@[a] == s.0;
                    assert(visited(around@, index + 1, s.0));
                }
                if s.0 == from {
                    assert(around@[index as int] == s.0);
                    assert(visited(around@, index + 1, s.0));
                }
                assert(chained(after, s, t) <==> chained(before, s, t) || (s == (from, point)
                    && t.0 == point && t.1 != from && around@.contains(t.1)));
            }
        }
        index = index + 1;
    }
    proof {
        assert forall|w: Point| visited(around@, index as int, w) <==> around@.contains(w) by {
            if around@.contains(w) {
                let a = choose|a: int| 0 <= a < around@.len() && around@[a] == w;
                assert(around@[a] == w);
            }
        }
    }
}

impl View for SegmentGraph {
    type V = Map<Segment, Set<Segment>>;

    closed spec fn view(&self) -> Map<Segment, Set<Segment>> {
        successors_of(self.adjacencies)
    }
}

impl SegmentGraph {
    /// `next` may follow `segment`.
    pub open spec fn connects(&self, segment: Segment, next: Segment) -> bool {
        chained(self@, segment, next)
    }

    /// The segments that have a successor, each once, in an order that is
    /// not fixed.
    pub fn segments(&self) -> (segments: Vec<Segment>)
        ensures
            segments@.no_duplicates(),
            segments@.to_set() == self@.dom(),
    {
        self.adjacencies.keys()
    }

    /// The segments that may follow `segment`, each once, in an order that
    /// is not fixed; none where `segment` has no successor.
    pub fn successors(&self, segment: &Segment) -> (successors: Vec<Segment>)
        ensures
            successors@.no_duplicates(),
            forall|next: Segment|
                successors@.contains(next) <==> #[trigger] self.connects(*segment, next),
    {
        match self.adjacencies.get(segment) {
            Some(following) => {
                let successors = following.to_vec();
                assert forall|next: Segment|
                    successors@.contains(next) <==> #[trigger] self.connects(
                        *segment,
                        next,
                    ) by {
                    assert(successors@.to_set().contains(next) <==> successors@.contains(next));
                }
                successors
            },
            None => Vec::new(),
        }
    }

    /// Constructs the graph of the segments of a slice: at every point of
    /// the slice, each segment that arrives is followed by each segment that
    /// leaves, but the one that leads straight back.
    pub fn from(subgraph: &PointSubGraph) -> (graph: SegmentGraph)
        ensures
            is_segment_graph(graph, subgraph.graph@, subgraph.selection()),
    {
        // the finally delivered adjacency list of segments
        let mut adjacencies = SegmentMap::new();
        let keys = subgraph.graph.adjacencies.keys();
        let ghost points = subgraph.graph@;
        assert(successors_of(adjacencies) =~= Map::<Segment, Set<Segment>>::empty());
        let mut index: usize = 0;
        while index < keys.len()
            invariant
                index <= keys.len(),
                points == subgraph.graph@,
                keys@.to_set() == points.dom(),
                orderly(successors_of(adjacencies)),
                forall|s: Segment, t: Segment| #[trigger]
                    chained(successors_of(adjacencies), s, t) <==> follows(points, subgraph.selection(), s, t)
                        && visited(keys@, index as int, s.1),
            decreases keys.len() - index,
        {
            let point = keys[index];
            let ghost before = successors_of(adjacencies);
            let retained = match &subgraph.points {
                Some(points) => points.contains(&point),
                None => true,
            };
            assert(keys@.to_set().contains(point));
            assert(retained == subgraph.retains(point));
            let ghost mut around = Seq::<Point>::empty();
            if retained {
                if let Some(neighbors) = subgraph.graph.adjacencies.get(&point) {
                    let neighbors = neighbors.to_vec();
                    proof {
                        around = neighbors@;
                        assert(around.to_set() == points[point]);
                    }
                    connect_through(&mut adjacencies, point, &neighbors);
                }
            }
            proof {
                let after = successors_of(adjacencies);
                assert forall|s: Segment, t: Segment| #[trigger]
                    chained(after, s, t) <==> follows(points, subgraph.selection(), s, t) && visited(
                        keys@,
                        index + 1,
                        s.1,
                    ) by {
                    if visited(keys@, index + 1, s.1) {
                        let a = choose|a: int|
                            0 <= a < index + 1 && a < keys@.len() && #[trigger] keys@[a] == s.1;
                        if a < index {
                            assert(visited(keys@, index as int, s.1));
                        }
                    }
                    if visited(keys@, index as int, s.1) {
                        let a = choose|a: int|
                            0 <= a < index && a < keys@.len() && #[trigger] keys@[a] == s.1;
                        assert(visited(keys@, index + 1, s.1));
                    }
                    if s.1 == point {
                        assert(keys@[index as int] == s.1);
                        assert(visited(keys@, index + 1, s.1));
                        if retained {
                            assert(around.to_set().contains(s.0) <==> around.contains(s.0));
                            assert(around.to_set().contains(t.1) <==> around.contains(t.1));
                        }
                    }
                    if retained {
                        assert(chained(after, s, t) <==> chained(before, s, t) || (s.1 == point
                            && t.0 == point && s.0 != t.1 && around.contains(s.0)
                            && around.contains(t.1)));
                    } else {
                        assert(after == before);
                    }
                }
            }
            index = index + 1;
        }
        proof {
            assert forall|s: Segment, t: Segment| #[trigger]
                chained(successors_of(adjacencies), s, t) <==> follows(points, subgraph.selection(), s, t) by {
                if follows(points, subgraph.selection(), s, t) {
                    assert(keys@.to_set().contains(s.1));
                    let a = choose|a: int| 0 <= a < keys@.len() && keys@[a] == s.1;
                    assert(keys@[a] == s.1);
                    assert(visited(keys@, index as int, s.1));
                }
            }
        }
        proof {
            assert forall|s: Segment, t: Segment| #[trigger]
                chained(successors_of(adjacencies), s, t) implies s.1 == t.0 && s.0 != t.1 by {
                assert(follows(points, subgraph.selection(), s, t));
            }
        }
        // instantiate the segment graph from its adjacency list
        SegmentGraph { adjacencies }
    }
}

} // verus!
